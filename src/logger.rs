//! Lines for the diagnostic log.
use vstd::prelude::*;

verus! {

/// A log line: the time stamp, `: `, the message and a line break.
pub open spec fn log_line_text(stamp: Seq<char>, message: Seq<char>) -> Seq<char> {
    stamp + seq![':', ' '] + message + seq!['\n']
}

/// Relies on chrono::Local::now and the Display impl of chrono::DateTime:
/// the local time at the call, as text. Nothing is promised of its value.
#[verifier::external_body]
fn now_stamp() -> (r: String) {
    format!("{}", chrono::Local::now())
}

/// The log line for `message` stamped with `stamp`.
pub fn log_line(stamp: &str, message: &str) -> (r: String)
    ensures
        r@ == log_line_text(stamp@, message@),
{
    proof {
        reveal_strlit(": ");
        reveal_strlit("\n");
    }
    let r = String::from_str(stamp).concat(": ").concat(message).concat("\n");
    assert(r@ =~= log_line_text(stamp@, message@));
    r
}

/// The line that records `message` in the log, stamped with the local time now.
pub fn log(message: &str) -> (r: String)
    ensures
        exists|stamp: Seq<char>| r@ == log_line_text(stamp, message@),
{
    let stamp = now_stamp();
    let r = log_line(stamp.as_str(), message);
    assert(r@ == log_line_text(stamp@, message@));
    r
}

} // verus!
