//! Error lines as the launcher prints them.

use vstd::prelude::*;

verus! {

use vstd::string::StringExecFns;

use crate::strutil::{chars_to_string, i64_chars, int_chars};

/// The printable error line for a place and a message.
pub open spec fn report_chars(line: int, place: Seq<char>, message: Seq<char>) -> Seq<char> {
    "[line "@ + int_chars(line) + "] Error "@ + place + ": "@ + message
}

/// The error line citing only a line number and a message.
pub fn error(line: &i32, message: &str) -> (r: String)
    ensures
        r@ == report_chars(*line as int, ""@, message@),
{
    report(line, "", message)
}

/// The error line citing a line number, a place, and a message.
pub fn report(line: &i32, where_in_code: &str, message: &str) -> (r: String)
    ensures
        r@ == report_chars(*line as int, where_in_code@, message@),
{
    let mut s = String::new();
    s.append("[line ");
    let ds = i64_chars(*line as i64);
    let dstr = chars_to_string(&ds);
    s.append(dstr.as_str());
    s.append("] Error ");
    s.append(where_in_code);
    s.append(": ");
    s.append(message);
    proof {
        assert(s@ =~= report_chars(*line as int, where_in_code@, message@));
    }
    s
}

} // verus!
