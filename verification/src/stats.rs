//! The sent-packet counter kept for observability. The node owns one
//! counter; the transport increments it once per outbound packet.

use vstd::prelude::*;

verus! {

pub struct PkgCounter {
    pub count: usize,
}

impl PkgCounter {
    pub fn new() -> (r: PkgCounter)
        ensures
            r.count == 0,
    {
        PkgCounter { count: 0 }
    }
}

/// How many packets have been sent so far.
pub fn get_pkgs_send(counter: &PkgCounter) -> (r: usize)
    ensures
        r == counter.count,
{
    counter.count
}

/// Count one more sent packet; return the count before, saturating at the
/// machine's limit.
pub fn inc_pkgs_send(counter: &mut PkgCounter) -> (r: usize)
    ensures
        r == old(counter).count,
        old(counter).count < usize::MAX ==> final(counter).count == old(counter).count + 1,
        old(counter).count == usize::MAX ==> final(counter).count == old(counter).count,
{
    let before = counter.count;
    if counter.count < usize::MAX {
        counter.count = counter.count + 1;
    }
    before
}

} // verus!
