use crate::text::{decimal, decimal_text};
use vstd::prelude::*;

verus! {

/// The pattern by which the moments of a record are written.
pub open spec fn record_pattern() -> Seq<char> {
    "%Y-%m-%d-%H-%M-%S"@
}

/// The pattern by which the moments of a session are written.
pub open spec fn session_pattern() -> Seq<char> {
    "%Y-%m-%d %H-%M-%S%.3f"@
}

/// Reads the clock: the present moment in UTC, written by the pattern, and the milliseconds
/// that have passed of its second.
///
/// Calls `chrono::Utc::now`, then `chrono::DateTime::format` and
/// `chrono::DateTime::timestamp_subsec_millis` on what it returned. Nothing is claimed of
/// the result: it differs from call to call. The pattern has to be one of the two that the
/// library writes moments by, both of which `format` takes; `Utc::now` gives up on a clock
/// that is set before the year 1970.
#[verifier::external_body]
fn clock(pattern: &str) -> (r: (String, u32))
    requires
        pattern@ == record_pattern() || pattern@ == session_pattern(),
{
    let time = chrono::Utc::now();
    (time.format(pattern).to_string(), time.timestamp_subsec_millis())
}

/// A number written with two digits at least.
pub open spec fn padded(n: nat) -> Seq<char> {
    if n < 10 {
        "0"@ + decimal_text(n)
    } else {
        decimal_text(n)
    }
}

/// A moment and its milliseconds as the text that marks an entry of a record.
pub open spec fn stamp_text(moment: Seq<char>, millis: nat) -> Seq<char> {
    moment + "-"@ + padded(millis) + "-UTC"@
}

/// Writes a moment and its milliseconds as the text that marks an entry of a record.
pub fn stamp(moment: &str, millis: u32) -> (r: String)
    ensures
        r@ == stamp_text(moment@, millis as nat),
{
    let mut r = String::from_str(moment);
    r.append("-");
    if millis < 10 {
        r.append("0");
    }
    r.append(decimal(millis as usize).as_str());
    r.append("-UTC");
    r
}

/// The present moment as text: date and time of day in UTC, then the milliseconds.
pub fn timestamp() -> (r: String)
    ensures
        exists|moment: Seq<char>, millis: nat| r@ == stamp_text(moment, millis),
{
    let (moment, millis) = clock("%Y-%m-%d-%H-%M-%S");
    let r = stamp(moment.as_str(), millis);
    assert(r@ == stamp_text(moment@, millis as nat));
    r
}

/// A moment as the text that names a session: the moment, then the time zone it is told in.
pub open spec fn session_text(moment: Seq<char>) -> Seq<char> {
    moment + " UTC"@
}

/// Writes a moment as the text that names a session.
pub fn session_name(moment: &str) -> (r: String)
    ensures
        r@ == session_text(moment@),
{
    let mut r = String::from_str(moment);
    r.append(" UTC");
    r
}

/// The present moment as the text that names a session: date and time of day in UTC, down
/// to the millisecond, then the time zone.
pub fn session_stamp() -> (r: String)
    ensures
        exists|moment: Seq<char>| r@ == session_text(moment),
{
    let (moment, _) = clock("%Y-%m-%d %H-%M-%S%.3f");
    let r = session_name(moment.as_str());
    assert(r@ == session_text(moment@));
    r
}

/// The name of the place where an action leaves what it leaves behind.
pub open spec fn output_name(id: Seq<char>, stamp: Seq<char>) -> Seq<char> {
    "action-"@ + id + "-"@ + stamp
}

/// Names the place where the action `id`, started at the moment `stamp`, leaves what it
/// leaves behind.
pub fn output_at(id: &str, stamp: &str) -> (r: String)
    ensures
        r@ == output_name(id@, stamp@),
{
    let mut r = String::from_str("action-");
    r.append(id);
    r.append("-");
    r.append(stamp);
    r
}

/// The name of the place where a block leaves its record.
pub open spec fn block_name(id: nat, stamp: Seq<char>) -> Seq<char> {
    "block-"@ + decimal_text(id) + "-"@ + stamp
}

/// Names the place where the block numbered `id`, started at the moment `stamp`, leaves
/// its record.
pub fn block_at(id: usize, stamp: &str) -> (r: String)
    ensures
        r@ == block_name(id as nat, stamp@),
{
    let mut r = String::from_str("block-");
    r.append(decimal(id).as_str());
    r.append("-");
    r.append(stamp);
    r
}

} // verus!
