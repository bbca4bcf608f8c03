//! How one run of the test command went.

use vstd::prelude::*;

use crate::text::{decimal, push_decimal, push_str};

verus! {

/// The outcome of a single execution of the test command.
#[derive(Debug, Clone)]
pub struct RunOutcome {
    /// Process exit code, or `None` if the process was terminated by a signal.
    pub exit_code: Option<i32>,
    /// Signal that terminated the process, if any.
    pub signal: Option<i32>,
    /// Whether the process exited successfully (exit code `0`).
    pub success: bool,
    /// Wall-clock time the run took, in nanoseconds.
    pub duration: u128,
}

/// An integer in decimal, with a minus sign when negative.
pub open spec fn signed_decimal(i: int) -> Seq<char> {
    if i < 0 {
        seq!['-'] + decimal((-i) as nat)
    } else {
        decimal(i as nat)
    }
}

/// Appends an integer in decimal.
pub fn push_signed(s: &mut String, i: i32)
    ensures
        final(s)@ == old(s)@ + signed_decimal(i as int),
{
    if i < 0 {
        push_str(s, "-");
        let magnitude: i64 = -(i as i64);
        push_decimal(s, magnitude as u128);
        proof {
            reveal_strlit("-");
        }
        assert(final(s)@ =~= old(s)@ + signed_decimal(i as int)) by {
            assert("-"@ =~= seq!['-']);
        }
    } else {
        push_decimal(s, i as u128);
    }
}

/// The runner's status label.
pub open spec fn status_label_spec(exit_code: Option<i32>, signal: Option<i32>) -> Seq<char> {
    match (exit_code, signal) {
        (Some(code), _) => "runner exit="@ + signed_decimal(code as int),
        (None, Some(signal)) => "runner signal "@ + signed_decimal(signal as int),
        (None, None) => "runner killed by signal"@,
    }
}

impl RunOutcome {
    /// The runner's own status, always labeled `runner …`: a bare `exit=2`
    /// would read as sooth's own exit-code contract (where 2 means "sooth
    /// itself failed") — two vocabularies that must stay distinct.
    pub fn status_label(&self) -> (label: String)
        ensures
            label@ == status_label_spec(self.exit_code, self.signal),
    {
        match (self.exit_code, self.signal) {
            (Some(code), _) => {
                let mut s = "runner exit=".to_owned();
                push_signed(&mut s, code);
                s
            },
            (None, Some(signal)) => {
                let mut s = "runner signal ".to_owned();
                push_signed(&mut s, signal);
                s
            },
            (None, None) => "runner killed by signal".to_owned(),
        }
    }
}

} // verus!
