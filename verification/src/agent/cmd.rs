//! Commands that the sensors run, and what their exit says.

use vstd::prelude::*;

use crate::agent::procfs;
use crate::text;

verus! {

/// Something that runs one program with arguments and gives its output.
pub trait CommandRunner {
    /// The program that is run.
    fn program(&self) -> &'static str;

    /// Run the program; its standard output, or why there is none.
    fn run(&self, args: &[&str]) -> Result<String, String>;
}

/// The characters of each argument.
pub open spec fn arg_views(args: Seq<&str>) -> Seq<Seq<char>> {
    args.map_values(|a: &str| a@)
}

/// `out` is an answer that `runner` can give to the arguments `args`.
pub open spec fn answers<R: CommandRunner>(
    runner: R,
    args: Seq<Seq<char>>,
    out: Result<String, String>,
) -> bool {
    exists|a: &[&str]|
        arg_views(a@) == args && #[trigger] call_ensures(R::run, (&runner, a), out)
}

/// Run a program with a list of arguments.
pub fn run_args<R: CommandRunner>(runner: &R, args: &Vec<&str>) -> (out: Result<String, String>)
    ensures
        answers(*runner, arg_views(args@), out),
{
    let a: &[&str] = args.as_slice();
    let out = runner.run(a);
    assert(arg_views(a@) == arg_views(args@));
    out
}

/// The programs that the sensors run.
pub struct Runners<S, J, D, O> {
    pub sys: S,
    pub journal: J,
    pub docker: D,
    pub openssl: O,
}

/// How a child process ended: its exit status in words, and what it wrote.
pub struct CommandExit {
    pub success: bool,
    pub status: String,
    pub stdout: String,
    pub stderr: String,
}

/// What a program's end means to the sensors: the output of a success; the
/// status and what was written to stderr otherwise.
pub open spec fn exit_meaning(
    program: Seq<char>,
    success: bool,
    status: Seq<char>,
    stdout: Seq<char>,
    stderr: Seq<char>,
) -> Result<Seq<char>, Seq<char>> {
    if success {
        Ok(stdout)
    } else {
        Err(program + " exited "@ + status + ": "@ + text::trim(stderr))
    }
}

/// What the end of `program` means: a failure to run it stays a failure.
pub fn finish(program: &str, exit: Result<CommandExit, String>) -> (r: Result<String, String>)
    ensures
        procfs::outcome_view(r) == (match exit {
            Ok(x) => exit_meaning(program@, x.success, x.status@, x.stdout@, x.stderr@),
            Err(e) => Err(e@),
        }),
{
    let x = exit?;
    if x.success {
        Ok(x.stdout)
    } else {
        Err(
            text::owned(program).concat(" exited ").concat(x.status.as_str()).concat(": ").concat(
                text::trimmed(x.stderr.as_str()).as_str(),
            ),
        )
    }
}

/// How long a child process may run, in milliseconds.
pub const TIMEOUT_MS: u64 = 10_000;

/// What to do about a child process that is being waited for.
#[derive(Debug, Clone, Copy, PartialEq, Eq, Structural)]
pub enum Wait {
    /// It has ended.
    Ended,
    /// It has run too long: kill it.
    Kill,
    /// Look again a little later.
    Again,
}

/// Decide about a child process after `elapsed_ms` milliseconds.
pub fn wait_step(ended: bool, elapsed_ms: u64) -> (r: Wait)
    ensures
        r == (if ended {
            Wait::Ended
        } else if elapsed_ms >= TIMEOUT_MS {
            Wait::Kill
        } else {
            Wait::Again
        }),
{
    if ended {
        Wait::Ended
    } else if elapsed_ms >= TIMEOUT_MS {
        Wait::Kill
    } else {
        Wait::Again
    }
}

/// Why a program that ran too long gave no output.
pub fn timed_out(program: &str, stderr: &str) -> (r: String)
    ensures
        r@ == program@ + " timed out after 10s: "@ + text::trim(stderr@),
{
    text::owned(program).concat(" timed out after 10s: ").concat(text::trimmed(stderr).as_str())
}

/// The service manager's command.
pub struct SystemCtl;

impl SystemCtl {
    /// The program that is run.
    pub fn program(&self) -> (r: &'static str)
        ensures
            r@ == "systemctl"@,
    {
        "systemctl"
    }

    /// What the end of a run means.
    pub fn finish(&self, exit: Result<CommandExit, String>) -> (r: Result<String, String>)
        ensures
            procfs::outcome_view(r) == (match exit {
                Ok(x) => exit_meaning("systemctl"@, x.success, x.status@, x.stdout@, x.stderr@),
                Err(e) => Err(e@),
            }),
    {
        finish("systemctl", exit)
    }
}

/// The journal's command.
pub struct JournalCtl;

impl JournalCtl {
    /// The program that is run.
    pub fn program(&self) -> (r: &'static str)
        ensures
            r@ == "journalctl"@,
    {
        "journalctl"
    }

    /// What the end of a run means.
    pub fn finish(&self, exit: Result<CommandExit, String>) -> (r: Result<String, String>)
        ensures
            procfs::outcome_view(r) == (match exit {
                Ok(x) => exit_meaning("journalctl"@, x.success, x.status@, x.stdout@, x.stderr@),
                Err(e) => Err(e@),
            }),
    {
        finish("journalctl", exit)
    }
}

/// A command that succeeded gives what it printed; one that failed gives its
/// name, its status and its complaint.
pub proof fn law_exits_are_told(
    program: Seq<char>,
    status: Seq<char>,
    stdout: Seq<char>,
    stderr: Seq<char>,
)
    ensures
        exit_meaning(program, true, status, stdout, stderr) == Ok::<Seq<char>, Seq<char>>(stdout),
        exit_meaning(program, false, status, stdout, stderr) == Err::<Seq<char>, Seq<char>>(
            program + " exited "@ + status + ": "@ + text::trim(stderr),
        ),
{
}

} // verus!
