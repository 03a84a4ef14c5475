use crate::question::Summary;
use crate::util::{session_stamp, session_text};
use vstd::prelude::*;

verus! {

/// A key that a participant pressed during a block, and when.
#[derive(Debug)]
pub struct Reaction {
    pub block: String,
    pub time: String,
    pub key_code: String,
}

impl Reaction {
    /// The reaction that happens now: the key named `key_code`, pressed during `block`, at
    /// the moment that the clock gives.
    pub fn new(block: String, key_code: String) -> (r: Reaction)
        ensures
            r.block == block,
            r.key_code == key_code,
            exists|moment: Seq<char>| r.time@ == session_text(moment),
    {
        Reaction { block, time: session_stamp(), key_code }
    }
}

/// An answer that a participant gave after a block, and when.
#[derive(Debug)]
pub struct Response {
    pub block: String,
    pub time: String,
    pub entry: Summary,
}

impl Response {
    /// The response that is given now: the answered question `entry`, asked after `block`,
    /// at the moment that the clock gives.
    pub fn new(block: String, entry: Summary) -> (r: Response)
        ensures
            r.block == block,
            r.entry == entry,
            exists|moment: Seq<char>| r.time@ == session_text(moment),
    {
        Response { block, time: session_stamp(), entry }
    }
}

} // verus!
