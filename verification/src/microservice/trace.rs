//! Which requests are traced.

use vstd::prelude::*;

verus! {

/// Numbers requests from 1, and traces the first ones.
pub struct MsTracer {
    limit: u32,
    next_id: u64,
}

impl MsTracer {
    /// How many requests are traced.
    pub closed spec fn limit(&self) -> u32 {
        self.limit
    }

    /// How many requests were numbered.
    pub closed spec fn issued(&self) -> u64 {
        self.next_id
    }

    pub fn new(limit: u32) -> (r: MsTracer)
        ensures
            r.limit() == limit,
            r.issued() == 0,
    {
        MsTracer { limit, next_id: 0 }
    }

    /// Whether request `id` is traced.
    pub fn should_trace(&self, id: u64) -> (r: bool)
        ensures
            r == (id <= self.limit()),
    {
        id <= self.limit as u64
    }

    /// The number of the next request, and whether it is traced.
    pub fn next_request_id(&mut self) -> (r: (u64, bool))
        requires
            old(self).issued() < u64::MAX,
        ensures
            r.0 == old(self).issued() + 1,
            r.1 == (r.0 <= old(self).limit()),
            final(self).issued() == r.0,
            final(self).limit() == old(self).limit(),
    {
        self.next_id = self.next_id + 1;
        (self.next_id, self.should_trace(self.next_id))
    }
}

} // verus!
