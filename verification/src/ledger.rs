use vstd::prelude::*;

verus! {

/// One record per canonical URL: how many times a link to it was encountered,
/// and the last HTTP status observed when fetching it.
#[derive(Debug, Clone, Copy, PartialEq, Eq, Structural)]
pub struct Response {
    /// Number of times this URL was encountered as a link target
    /// (the initial admission counts as 1).
    pub count: u32,

    /// Most recent HTTP status code observed for this URL;
    /// 0 means "enqueued but not yet fetched".
    pub status: u16,
}

impl Response {
    /// Create a new record.
    pub fn new(status: u16, count: u32) -> (r: Response)
        ensures
            r.status == status,
            r.count == count,
    {
        Response { status, count }
    }

    /// Increment the reference count by 1.
    pub fn increment(&mut self)
        requires
            old(self).count < u32::MAX,
        ensures
            final(self).count == old(self).count + 1,
            final(self).status == old(self).status,
    {
        self.increment_by(1);
    }

    /// Increment the reference count by `value`.
    pub fn increment_by(&mut self, value: u32)
        requires
            old(self).count + value <= u32::MAX,
        ensures
            final(self).count == old(self).count + value,
            final(self).status == old(self).status,
    {
        self.count = self.count + value;
    }

    /// Update the status.
    pub fn set_status(&mut self, status: u16)
        ensures
            final(self).count == old(self).count,
            final(self).status == status,
    {
        self.status = status;
    }
}

} // verus!
