//! The command line's meaning: what each subcommand was asked to do, as
//! plain values (the parser that fills them lives with the program).

use vstd::prelude::*;

use crate::decimal::{digits_value, is_digit};

verus! {

/// A built-in preset for a known test runner.
#[derive(Debug, Clone, Copy, PartialEq, Eq, Structural)]
pub enum Preset {
    Pytest,
    Phpunit,
    Jest,
    Go,
}

/// When to color the human report.
#[derive(Debug, Clone, Copy, PartialEq, Eq, Structural)]
pub enum ColorChoice {
    Auto,
    Always,
    Never,
}

/// Console-log formats `import --log` can read.
#[derive(Debug, Clone, Copy, PartialEq, Eq, Structural)]
pub enum LogFormat {
    /// `PHPUnit` console output, as `php artisan test` prints it too.
    Phpunit,
}

/// Arguments for `sooth run`.
#[derive(Debug, Clone)]
pub struct RunArgs {
    /// Built-in preset for a known test runner (exclusive with `junit`).
    pub preset: Option<Preset>,
    /// How many times to run the suite (fixed order); at least one.
    pub runs: u32,
    /// `None`: no JSON; `Some(None)`: bare `--json` (one line on stdout);
    /// `Some(Some(path))`: written to a file.
    pub json: Option<Option<String>>,
    /// Neither record this run nor report from the history.
    pub no_history: bool,
    /// The pre-push gate: `Some(None)` against the natural base,
    /// `Some(Some(base))` against an explicit one.
    pub changed: Option<Option<String>>,
    /// Re-run only the failed tests after a failing run.
    pub verify: bool,
    /// Pardon failures the quarantine list names.
    pub fail_on_flaky: bool,
    pub color: ColorChoice,
    /// How many of the slowest tests to show.
    pub slowest: Option<usize>,
    /// The JUnit-XML report the command writes.
    pub junit: Option<String>,
    /// The test command.
    pub command: Vec<String>,
}

/// Arguments for `sooth explain`.
#[derive(Debug, Clone)]
pub struct ExplainArgs {
    /// The JUnit-XML report to explain.
    pub junit: String,
    /// Machine-readable JSON instead of the human report.
    pub json: bool,
    pub color: ColorChoice,
}

/// Arguments for `sooth import`.
#[derive(Debug, Clone)]
pub struct ImportArgs {
    /// The environment the reports come from.
    pub env: String,
    /// The clean commit the reports were made on, when known.
    pub commit: Option<String>,
    /// Read the files as console logs of this format instead of JUnit XML.
    pub log: Option<LogFormat>,
    pub color: ColorChoice,
    /// The report files (or console logs).
    pub reports: Vec<String>,
}

/// Arguments for `sooth history`.
#[derive(Debug, Clone)]
pub struct HistoryArgs {
    pub color: ColorChoice,
}

/// The subcommands `sooth` understands.
#[derive(Debug, Clone)]
pub enum Command {
    /// Run a test command and report what the tests actually do.
    Run(RunArgs),
    /// Classify a report's failures against what sooth already knows.
    Explain(ExplainArgs),
    /// Bring reports produced elsewhere into the local history.
    Import(ImportArgs),
    /// Classify the accumulated history and print it.
    History(HistoryArgs),
}

/// A parsed command line.
#[derive(Debug, Clone)]
pub struct Cli {
    pub command: Command,
}

/// A decimal count as `str::parse::<usize>` accepts one: an optional `+`,
/// then at least one digit, and nothing else.
pub open spec fn count_digits(value: Seq<char>) -> Option<Seq<char>> {
    let d = if value.len() > 0 && value[0] == '+' {
        value.skip(1)
    } else {
        value
    };
    if d.len() > 0 && forall|j: int| 0 <= j < d.len() ==> is_digit(#[trigger] d[j]) {
        Some(d)
    } else {
        None
    }
}

/// The count `str::parse::<usize>` reads from `value`, when it reads one.
pub open spec fn parsed_count(value: Seq<char>) -> Option<nat> {
    match count_digits(value) {
        Some(d) => if digits_value(d) <= usize::MAX {
            Some(digits_value(d))
        } else {
            None
        },
        None => None,
    }
}

/// `str::parse::<usize>`, its error as the error's message. Documented to
/// accept exactly an optional `+` followed by decimal digits whose value
/// fits; which message a refusal carries is left unsaid.
#[verifier::external_body]
fn parse_usize(value: &str) -> (r: Result<usize, String>)
    ensures
        match r {
            Ok(n) => parsed_count(value@) == Some(n as nat),
            Err(_) => parsed_count(value@) is None,
        },
{
    match value.parse::<usize>() {
        Ok(n) => Ok(n),
        Err(err) => Err(err.to_string()),
    }
}

/// Parse a strictly positive count: `--slowest 0` would silently hide the
/// ranking, and silent is not this tool's style.
pub fn positive_usize(value: &str) -> (r: Result<usize, String>)
    ensures
        match parsed_count(value@) {
            Some(n) => if n == 0 {
                r matches Err(m) && m@ == "must be at least 1"@
            } else {
                r == Ok::<usize, String>(n as usize)
            },
            None => r is Err,
        },
{
    match parse_usize(value) {
        Ok(0) => Err("must be at least 1".to_owned()),
        Ok(parsed) => Ok(parsed),
        Err(message) => Err(message),
    }
}

} // verus!
