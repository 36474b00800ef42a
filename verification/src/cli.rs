//! The command-line arguments the program runs with, as plain data. The
//! argument parser of the binary fills this in and hands it over.

use vstd::prelude::*;
use vstd::string::StrSliceExecFns;

verus! {

/// Which quiz mode to run.
#[derive(Clone, Copy, PartialEq, Eq, Structural, Debug)]
pub enum Mode {
    Match,
    Type,
    Flash,
}

/// `a` equals `b` with ASCII letters compared case-insensitively, where
/// `b` is expected in lower case.
pub open spec fn eq_ignore_ascii_case_spec(a: Seq<char>, b: Seq<char>) -> bool {
    a.len() == b.len() && forall|i: int|
        0 <= i < a.len() ==> ((#[trigger] a[i]) == b[i] || (65 <= a[i] as u32 <= 90 && a[i] as u32
            + 32 == b[i] as u32))
}

/// Case-insensitive (ASCII) comparison of `a` against a lower-case `b`.
pub fn str_eq_ignore_ascii_case(a: &str, b: &str) -> (r: bool)
    ensures
        r == eq_ignore_ascii_case_spec(a@, b@),
{
    let n = a.unicode_len();
    if n != b.unicode_len() {
        return false;
    }
    let mut i: usize = 0;
    while i < n
        invariant
            i <= n,
            n == a@.len(),
            n == b@.len(),
            forall|t: int|
                0 <= t < i ==> ((#[trigger] a@[t]) == b@[t] || (65 <= a@[t] as u32 <= 90 && a@[t]
                    as u32 + 32 == b@[t] as u32)),
        decreases n - i,
    {
        let ca = a.get_char(i);
        let cb = b.get_char(i);
        if !(ca == cb || (65 <= ca as u32 && ca as u32 <= 90 && ca as u32 + 32 == cb as u32)) {
            return false;
        }
        i = i + 1;
    }
    true
}

impl Mode {
    /// Parses a mode name, ignoring ASCII case; anything but `match`,
    /// `flash` and `type` is rejected.
    pub fn parse(s: &str) -> (r: Option<Mode>)
        ensures
            eq_ignore_ascii_case_spec(s@, "match"@) ==> r == Some(Mode::Match),
            !eq_ignore_ascii_case_spec(s@, "match"@) && eq_ignore_ascii_case_spec(s@, "flash"@)
                ==> r == Some(Mode::Flash),
            !eq_ignore_ascii_case_spec(s@, "match"@) && !eq_ignore_ascii_case_spec(s@, "flash"@)
                && eq_ignore_ascii_case_spec(s@, "type"@) ==> r == Some(Mode::Type),
            !eq_ignore_ascii_case_spec(s@, "match"@) && !eq_ignore_ascii_case_spec(s@, "flash"@)
                && !eq_ignore_ascii_case_spec(s@, "type"@) ==> r is None,
    {
        if str_eq_ignore_ascii_case(s, "match") {
            Some(Mode::Match)
        } else if str_eq_ignore_ascii_case(s, "flash") {
            Some(Mode::Flash)
        } else if str_eq_ignore_ascii_case(s, "type") {
            Some(Mode::Type)
        } else {
            None
        }
    }
}

/// The parsed command line: how many problems to show, which faces to ask,
/// whether to draw the weight line, the mode, and the deck paths.
#[derive(Debug)]
pub struct FlashrCli {
    pub problem_count: Option<usize>,
    pub faces: Option<Vec<String>>,
    pub line: bool,
    pub mode: Mode,
    pub paths: Vec<String>,
}

} // verus!
