use vstd::prelude::*;

use crate::registry::TunnelId;

verus! {

/// Hands out tunnel ids in increasing order, so that none is handed out twice.
#[derive(Debug)]
pub struct MonotonicIdGenerator {
    next: u64,
}

impl MonotonicIdGenerator {
    /// Every id handed out so far is below this bound; every later one is at least it.
    pub closed spec fn floor(&self) -> nat {
        self.next as nat
    }

    pub fn new() -> (r: Self)
        ensures
            r.floor() == 1,
    {
        MonotonicIdGenerator { next: 1 }
    }

    /// The next id, or `None` once the ids are used up.
    pub fn next(&mut self) -> (r: Option<TunnelId>)
        ensures
            r is Some <==> old(self).floor() < u64::MAX,
            r is Some ==> r->0 as nat == old(self).floor() && final(self).floor() == r->0 + 1,
            r is None ==> final(self).floor() == old(self).floor(),
    {
        if self.next == u64::MAX {
            return None;
        }
        let id = self.next;
        self.next = self.next + 1;
        Some(id)
    }
}

} // verus!
