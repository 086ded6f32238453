//! Journald health signals: OOM kills, kernel panics, clock changes.

use vstd::prelude::*;

use crate::agent::journald::JournalLine;
use crate::text;

verus! {

/// One classified health signal from a journal line.
#[derive(Debug, Clone, Copy, PartialEq, Eq, Structural)]
pub enum HealthSignal {
    OomKill,
    KernelPanic,
    ClockChange,
}

/// The health signal of a message: the first of the three that it speaks of.
pub open spec fn signal_of(msg: Seq<char>) -> Option<HealthSignal> {
    if text::holds(msg, "Out of memory: Killed process"@) {
        Some(HealthSignal::OomKill)
    } else if text::holds(msg, "Kernel panic"@) || text::holds(msg, "panic: kernel"@) {
        Some(HealthSignal::KernelPanic)
    } else if text::holds(msg, "Time has been changed"@) || text::holds(msg, "Clock change"@) {
        Some(HealthSignal::ClockChange)
    } else {
        None
    }
}

/// Classify a journal line into a health signal, or None.
pub fn classify(line: &JournalLine) -> (r: Option<HealthSignal>)
    ensures
        r == signal_of(line.message@),
{
    let msg = line.message.as_str();
    if text::contains_text(msg, "Out of memory: Killed process") {
        Some(HealthSignal::OomKill)
    } else if text::contains_text(msg, "Kernel panic") || text::contains_text(
        msg,
        "panic: kernel",
    ) {
        Some(HealthSignal::KernelPanic)
    } else if text::contains_text(msg, "Time has been changed") || text::contains_text(
        msg,
        "Clock change",
    ) {
        Some(HealthSignal::ClockChange)
    } else {
        None
    }
}

/// Which messages of the kernel tell of a killed process, a panic or a change
/// of the clock, wherever the words stand; the first of these counts.
pub proof fn law_signals_of_the_kernel(before: Seq<char>, after: Seq<char>)
    ensures
        signal_of(before + "Out of memory: Killed process"@ + after) == Some(HealthSignal::OomKill),
        ({
            let msg = before + "Kernel panic"@ + after;
            signal_of(msg) == Some(HealthSignal::KernelPanic) || signal_of(msg) == Some(
                HealthSignal::OomKill,
            )
        }),
        ({
            let msg = before + "panic: kernel"@ + after;
            signal_of(msg) == Some(HealthSignal::KernelPanic) || signal_of(msg) == Some(
                HealthSignal::OomKill,
            )
        }),
        signal_of(before + "Time has been changed"@ + after) is Some,
        signal_of(before + "Clock change"@ + after) is Some,
        forall|msg: Seq<char>|
            !text::holds(msg, "Out of memory: Killed process"@) && !text::holds(
                msg,
                "Kernel panic"@,
            ) && !text::holds(msg, "panic: kernel"@) ==> (#[trigger] signal_of(msg) is Some <==> (
            text::holds(msg, "Time has been changed"@) || text::holds(msg, "Clock change"@)))
                && signal_of(msg) != Some(HealthSignal::OomKill) && signal_of(msg) != Some(
                HealthSignal::KernelPanic,
            ),
        forall|msg: Seq<char>|
            !text::holds(msg, "Out of memory: Killed process"@) ==> #[trigger] signal_of(msg)
                != Some(HealthSignal::OomKill),
{
    lemma_stands_in(before, "Out of memory: Killed process"@, after);
    lemma_stands_in(before, "Kernel panic"@, after);
    lemma_stands_in(before, "panic: kernel"@, after);
    lemma_stands_in(before, "Time has been changed"@, after);
    lemma_stands_in(before, "Clock change"@, after);
}

proof fn lemma_stands_in(before: Seq<char>, pat: Seq<char>, after: Seq<char>)
    ensures
        text::holds(before + pat + after, pat),
{
    let s = before + pat + after;
    let i = before.len() as int;
    assert(s.subrange(i, i + pat.len()) =~= pat);
    assert(text::occurs_at(s, pat, i));
}

} // verus!
