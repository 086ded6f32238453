//! In-app exception capture: wire format, fingerprinting, level mapping.

use vstd::prelude::*;

use crate::common::Severity;
use crate::text;

verus! {

/// One stack frame from an SDK.
#[derive(Debug, Clone)]
pub struct Frame {
    pub file: String,
    pub line: u32,
    pub function: String,
}

/// The exception payload from an SDK.
#[derive(Debug, Clone)]
pub struct Exception {
    pub kind: String,
    pub message: String,
    pub level: String,
    pub frames: Vec<Frame>,
}

/// The /v1/errors request body.
#[derive(Debug, Clone)]
pub struct ErrorEvent {
    pub host_id: String,
    pub service: String,
    pub environment: String,
    pub exception: Exception,
}

/// The offset basis of the 64-bit FNV-1a hash.
pub const FNV_BASIS: u64 = 0xcbf29ce484222325;

/// The prime of the 64-bit FNV-1a hash.
pub const FNV_PRIME: u64 = 0x100000001b3;

/// The 64-bit FNV-1a hash of some bytes.
pub open spec fn fnv(b: Seq<u8>) -> u64
    decreases b.len(),
{
    if b.len() == 0 {
        FNV_BASIS
    } else {
        (fnv(b.drop_last()) ^ (b.last() as u64)).wrapping_mul(FNV_PRIME)
    }
}

/// FNV-1a 64-bit. A collision merely merges two incidents: acceptable at this
/// scale.
fn fnv1a(input: &[u8]) -> (r: u64)
    ensures
        r == fnv(input@),
{
    let mut h: u64 = FNV_BASIS;
    let mut i: usize = 0;
    while i < input.len()
        invariant
            i <= input@.len(),
            h == fnv(input@.take(i as int)),
        decreases input@.len() - i,
    {
        assert(input@.take(i + 1).drop_last() =~= input@.take(i as int));
        h = h ^ (input[i] as u64);
        h = h.wrapping_mul(FNV_PRIME);
        i = i + 1;
    }
    assert(input@.take(input@.len() as int) =~= input@);
    h
}

/// What a frame says of where it is.
#[verifier::ext_equal]
pub struct PlaceView {
    pub file: Seq<char>,
    pub line: u32,
}

/// Where each frame of a list is.
pub open spec fn places(frames: Seq<(String, u32)>) -> Seq<PlaceView> {
    frames.map_values(|f: (String, u32)| PlaceView { file: f.0@, line: f.1 })
}

/// The frames as text: each file and line, with a semicolon behind.
pub open spec fn frames_text(frames: Seq<PlaceView>) -> Seq<char>
    decreases frames.len(),
{
    if frames.len() == 0 {
        seq![]
    } else {
        frames_text(frames.drop_last()) + frames.last().file + ":"@ + text::dec(
            frames.last().line as nat,
        ) + ";"@
    }
}

/// The first frames of a list, three at most.
pub open spec fn first_frames(frames: Seq<PlaceView>) -> Seq<PlaceView> {
    if frames.len() < 3 {
        frames
    } else {
        frames.take(3)
    }
}

/// What a fingerprint is made of: the service, the exception's type, and the
/// places of the first frames.
pub open spec fn fingerprint_input(
    service: Seq<char>,
    exception_type: Seq<char>,
    frames: Seq<PlaceView>,
) -> Seq<char> {
    service + seq!['\0'] + exception_type + seq!['\0'] + frames_text(first_frames(frames))
}

/// The hash of the input's UTF-8 bytes, as sixteen hexadecimal digits.
pub open spec fn fingerprint_of(
    service: Seq<char>,
    exception_type: Seq<char>,
    frames: Seq<PlaceView>,
) -> Seq<char> {
    text::zero_padded(
        text::digits(
            fnv(
                vstd::utf8::encode_utf8(fingerprint_input(service, exception_type, frames)),
            ) as nat,
            16,
        ),
        16,
    )
}

/// Grouping key: service + exception type + first 3 frames' file:line.
/// Deterministic across SDKs and restarts: the same bug always lands in
/// the same incident.
pub fn fingerprint(service: &str, exception_type: &str, frames: &[(String, u32)]) -> (r: String)
    ensures
        r@ == fingerprint_of(service@, exception_type@, places(frames@)),
{
    let ghost all = places(frames@);
    let ghost head = service@ + seq!['\0'] + exception_type@ + seq!['\0'];
    let mut input = text::owned(service);
    input.push('\0');
    assert(input@ =~= service@ + seq!['\0']);
    input.append(exception_type);
    input.push('\0');
    assert(input@ =~= head);
    let mut i: usize = 0;
    assert(input@ =~= head + frames_text(all.take(0)));
    while i < frames.len() && i < 3
        invariant
            i <= frames@.len(),
            i <= 3,
            all == places(frames@),
            input@ == head + frames_text(all.take(i as int)),
        decreases 3 - i,
    {
        let ghost before = input@;
        assert(all.take(i + 1).drop_last() =~= all.take(i as int));
        assert(all.take(i + 1).last() == all[i as int]);
        input.append(frames[i].0.as_str());
        input.append(":");
        input.append(text::dec_u64(frames[i].1 as u64).as_str());
        input.append(";");
        assert(input@ =~= head + frames_text(all.take(i + 1)));
        i = i + 1;
    }
    assert(all.take(i as int) =~= first_frames(all));
    let hash: u64 = fnv1a(input.as_str().as_bytes());
    text::pad_zeros(text::hex_u64(hash).as_str(), 16)
}

/// Frames beyond the first three do not matter to a fingerprint.
pub proof fn law_only_three_frames_matter(
    service: Seq<char>,
    exception_type: Seq<char>,
    frames: Seq<PlaceView>,
    more: Seq<PlaceView>,
)
    requires
        frames.len() >= 3,
    ensures
        fingerprint_of(service, exception_type, frames + more) == fingerprint_of(
            service,
            exception_type,
            frames,
        ),
{
    assert((frames + more).take(3) =~= frames.take(3));
}

/// Every one of the first three frames is in what is hashed, with its file and
/// its line, behind the service and the exception's type.
pub proof fn law_first_three_frames_are_hashed(
    service: Seq<char>,
    exception_type: Seq<char>,
    frames: Seq<PlaceView>,
)
    ensures
        ({
            let head = service + seq!['\0'] + exception_type + seq!['\0'];
            let place = |k: int|
                frames[k].file + seq![':'] + text::digits(frames[k].line as nat, 10) + seq![';'];
            let input = fingerprint_input(service, exception_type, frames);
            &&& frames.len() == 0 ==> input == head
            &&& frames.len() == 1 ==> input == head + place(0)
            &&& frames.len() == 2 ==> input == head + place(0) + place(1)
            &&& frames.len() >= 3 ==> input == head + place(0) + place(1) + place(2)
        }),
{
    reveal_strlit(":");
    reveal_strlit(";");
    assert(":"@ =~= seq![':']);
    assert(";"@ =~= seq![';']);
    reveal_with_fuel(frames_text, 4);
    let head = service + seq!['\0'] + exception_type + seq!['\0'];
    let place = |k: int|
        frames[k].file + seq![':'] + text::digits(frames[k].line as nat, 10) + seq![';'];
    let input = fingerprint_input(service, exception_type, frames);
    let f = first_frames(frames);
    if frames.len() == 0 {
        assert(input =~= head);
    } else if frames.len() == 1 {
        assert(f.drop_last().len() == 0);
        assert(input =~= head + place(0));
    } else if frames.len() == 2 {
        assert(f.drop_last().drop_last().len() == 0);
        assert(frames_text(f.drop_last()) =~= place(0));
        assert(input =~= head + place(0) + place(1));
    } else {
        assert(f.drop_last().drop_last().drop_last().len() == 0);
        assert(frames_text(f.drop_last().drop_last()) =~= place(0));
        assert(frames_text(f.drop_last()) =~= place(0) + place(1));
        assert(input =~= head + place(0) + place(1) + place(2));
    }
}

/// A fingerprint is the 64-bit FNV-1a hash of what is hashed: sixteen digits
/// whose value, read in base sixteen, is the hash.
pub proof fn law_fingerprint_is_the_hash(
    service: Seq<char>,
    exception_type: Seq<char>,
    frames: Seq<PlaceView>,
)
    ensures
        fingerprint_of(service, exception_type, frames).len() == 16,
        text::digits_value(fingerprint_of(service, exception_type, frames), 16) == Some(
            fnv(
                vstd::utf8::encode_utf8(fingerprint_input(service, exception_type, frames)),
            ) as int,
        ),
{
    let h = fnv(vstd::utf8::encode_utf8(fingerprint_input(service, exception_type, frames))) as nat;
    text::law_digits_read_back(h, 16);
    assert(vstd::arithmetic::power::pow(16, 16) == 0x1_0000_0000_0000_0000) by {
        reveal_with_fuel(vstd::arithmetic::power::pow, 17);
    }
    text::lemma_digits_fit(h, 16, 16);
    text::law_padding_keeps_the_value(text::digits(h, 16), 16, 16);
}

/// The hash starts from the offset basis, and each byte is mixed in before the
/// product with the prime, modulo 2^64.
pub proof fn law_fnv_by_bytes(b: Seq<u8>, x: u8)
    ensures
        fnv(seq![]) == 0xcbf2_9ce4_8422_2325,
        fnv(b.push(x)) as int == (fnv(b) ^ (x as u64)) * 0x100_0000_01b3 % 0x1_0000_0000_0000_0000,
{
    assert(b.push(x).drop_last() =~= b);
}

/// Frames that tell two exceptions apart: where two lists of as many frames
/// differ in a file or a line of the first three, and files hold neither colon
/// nor semicolon, what is hashed differs.
pub proof fn law_different_frames_are_hashed_differently(
    service: Seq<char>,
    exception_type: Seq<char>,
    a: Seq<PlaceView>,
    b: Seq<PlaceView>,
    k: int,
)
    requires
        0 <= k < 3,
        k < a.len(),
        k < b.len(),
        a[k] != b[k],
        forall|i: int|
            0 <= i < a.len() ==> !(#[trigger] a[i]).file.contains(':') && !a[i].file.contains(';'),
        forall|i: int|
            0 <= i < b.len() ==> !(#[trigger] b[i]).file.contains(':') && !b[i].file.contains(';'),
    ensures
        fingerprint_input(service, exception_type, a) != fingerprint_input(
            service,
            exception_type,
            b,
        ),
{
    let fa = first_frames(a);
    let fb = first_frames(b);
    let head = service + seq!['\0'] + exception_type + seq!['\0'];
    assert(fa[k] != fb[k]);
    assert forall|i: int| 0 <= i < fa.len() implies !(#[trigger] fa[i]).file.contains(':') by {
        assert(fa[i] == a[i]);
    }
    assert forall|i: int| 0 <= i < fb.len() implies !(#[trigger] fb[i]).file.contains(':') by {
        assert(fb[i] == b[i]);
    }
    if fingerprint_input(service, exception_type, a) == fingerprint_input(
        service,
        exception_type,
        b,
    ) {
        assert(frames_text(fa) =~= (head + frames_text(fa)).skip(head.len() as int));
        assert(frames_text(fb) =~= (head + frames_text(fb)).skip(head.len() as int));
        lemma_frames_text_front(fa, fb, k);
    }
}

/// Frames with the same text agree frame by frame, from the front.
proof fn lemma_frames_text_front(a: Seq<PlaceView>, b: Seq<PlaceView>, k: int)
    requires
        frames_text(a) == frames_text(b),
        0 <= k < a.len(),
        k < b.len(),
        forall|i: int| 0 <= i < a.len() ==> !(#[trigger] a[i]).file.contains(':'),
        forall|i: int| 0 <= i < b.len() ==> !(#[trigger] b[i]).file.contains(':'),
    ensures
        a[k] == b[k],
    decreases k,
{
    lemma_frames_text_first(a);
    lemma_frames_text_first(b);
    let (x, y) = (a[0], b[0]);
    let (ta, tb) = (frames_text(a.skip(1)), frames_text(b.skip(1)));
    let (da, db) = (text::dec(x.line as nat), text::dec(y.line as nat));
    assert(x.file.contains(':') == false && y.file.contains(':') == false);
    assert(frames_text(a) =~= x.file + seq![':'] + (da + seq![';'] + ta));
    assert(frames_text(b) =~= y.file + seq![':'] + (db + seq![';'] + tb));
    text::lemma_same_around(x.file, da + seq![';'] + ta, y.file, db + seq![';'] + tb, ':');
    text::law_digits_read_back(x.line as nat, 10);
    text::law_digits_read_back(y.line as nat, 10);
    text::lemma_digits_are_digits(x.line as nat, 10);
    text::lemma_digits_are_digits(y.line as nat, 10);
    assert(!da.contains(';') && !db.contains(';'));
    text::lemma_same_around(da, ta, db, tb, ';');
    assert(x == y);
    if k > 0 {
        assert forall|i: int| 0 <= i < a.skip(1).len() implies !(#[trigger] a.skip(
            1,
        )[i]).file.contains(':') by {
            assert(a.skip(1)[i] == a[i + 1]);
        }
        assert forall|i: int| 0 <= i < b.skip(1).len() implies !(#[trigger] b.skip(
            1,
        )[i]).file.contains(':') by {
            assert(b.skip(1)[i] == b[i + 1]);
        }
        lemma_frames_text_front(a.skip(1), b.skip(1), k - 1);
    }
}

proof fn lemma_frames_text_first(a: Seq<PlaceView>)
    requires
        a.len() > 0,
    ensures
        frames_text(a) == a[0].file + seq![':'] + text::dec(a[0].line as nat) + seq![';']
            + frames_text(a.skip(1)),
    decreases a.len(),
{
    reveal_strlit(":");
    reveal_strlit(";");
    assert(":"@ =~= seq![':']);
    assert(";"@ =~= seq![';']);
    if a.len() == 1 {
        assert(frames_text(a.drop_last()) =~= seq![]);
        assert(frames_text(a.skip(1)) =~= seq![]);
        assert(frames_text(a) =~= a[0].file + seq![':'] + text::dec(a[0].line as nat) + seq![';']
            + frames_text(a.skip(1)));
    } else {
        lemma_frames_text_first(a.drop_last());
        assert(a.drop_last().skip(1) =~= a.skip(1).drop_last());
        assert(frames_text(a) =~= a[0].file + seq![':'] + text::dec(a[0].line as nat) + seq![';']
            + frames_text(a.skip(1)));
    }
}

/// The severity of an exception level.
pub open spec fn level_severity(level: Seq<char>) -> Severity {
    if text::same_ignoring_case(level, "warning"@) {
        Severity::Warning
    } else if text::same_ignoring_case(level, "info"@) || text::same_ignoring_case(
        level,
        "debug"@,
    ) {
        Severity::Info
    } else {
        Severity::Critical
    }
}

/// Exception level → incident severity (fatal/error → Critical, warning →
/// Warning, info/debug → Info; unknown/empty levels are loud).
pub fn severity_for(level: &str) -> (r: Severity)
    ensures
        r == level_severity(level@),
{
    if text::eq_ignore_case(level, "warning") {
        Severity::Warning
    } else if text::eq_ignore_case(level, "info") || text::eq_ignore_case(level, "debug") {
        Severity::Info
    } else {
        Severity::Critical
    }
}

/// How severe an exception is goes by its level, whatever the case of its
/// letters: a warning is Warning, info and debug are Info, and everything else
/// is Critical.
pub proof fn law_levels_grade_exceptions(level: Seq<char>)
    ensures
        ({
            let low = level.map_values(
                |c: char|
                    if 'A' <= c <= 'Z' {
                        (c as int + 32) as char
                    } else {
                        c
                    },
            );
            &&& level_severity(level) is Warning <==> low == "warning"@
            &&& level_severity(level) is Info <==> low == "info"@ || low == "debug"@
            &&& level_severity(level) is Critical <==> low != "warning"@ && low != "info"@ && low
                != "debug"@
        }),
{
    reveal_strlit("warning");
    reveal_strlit("info");
    reveal_strlit("debug");
    let low = level.map_values(
        |c: char|
            if 'A' <= c <= 'Z' {
                (c as int + 32) as char
            } else {
                c
            },
    );
    assert(low =~= level.map_values(|c: char| text::lower(c)));
    assert("warning"@.map_values(|c: char| text::lower(c)) =~= "warning"@);
    assert("info"@.map_values(|c: char| text::lower(c)) =~= "info"@);
    assert("debug"@.map_values(|c: char| text::lower(c)) =~= "debug"@);
    assert("warning"@.len() == 7 && "info"@.len() == 4 && "debug"@.len() == 5);
}

} // verus!
