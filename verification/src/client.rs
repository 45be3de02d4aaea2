//! Decisions of the transaction-submitting client: its per-target connection pool,
//! the choice of target and the per-worker rate.

use vstd::prelude::*;

verus! {

/// One optional open connection per target address.
pub struct ConnectionPool<C> {
    targets: Vec<String>,
    conns: Vec<Option<C>>,
}

impl<C> ConnectionPool<C> {
    pub closed spec fn targets_view(&self) -> Seq<Seq<char>> {
        self.targets@.map_values(|t: String| t@)
    }

    pub closed spec fn conns_view(&self) -> Seq<Option<C>> {
        self.conns@
    }

    pub closed spec fn wf(&self) -> bool {
        self.targets@.len() == self.conns@.len()
    }

    /// A pool over `targets` with no connection open.
    pub fn new(targets: Vec<String>) -> (r: Self)
        ensures
            r.wf(),
            r.targets_view() == targets@.map_values(|t: String| t@),
            forall|i: int| 0 <= i < r.conns_view().len() ==> r.conns_view()[i] is None,
    {
        let mut conns: Vec<Option<C>> = Vec::new();
        let mut i: usize = 0;
        while i < targets.len()
            invariant
                i <= targets@.len(),
                conns@.len() == i,
                forall|k: int| 0 <= k < i ==> conns@[k] is None,
            decreases targets@.len() - i,
        {
            conns.push(None);
            i = i + 1;
        }
        ConnectionPool { targets, conns }
    }

    pub fn len(&self) -> (r: usize)
        ensures
            r == self.targets_view().len(),
    {
        self.targets.len()
    }

    pub fn target(&self, idx: usize) -> (r: &str)
        requires
            idx < self.targets_view().len(),
        ensures
            r@ == self.targets_view()[idx as int],
    {
        self.targets[idx].as_str()
    }

    /// Take the open connection of target `idx`, leaving none.
    pub fn take_conn(&mut self, idx: usize) -> (r: Option<C>)
        requires
            old(self).wf(),
            idx < old(self).targets_view().len(),
        ensures
            final(self).wf(),
            final(self).targets_view() == old(self).targets_view(),
            r == old(self).conns_view()[idx as int],
            final(self).conns_view() == old(self).conns_view().update(idx as int, None),
    {
        let ghost before = self.conns@;
        let taken = self.conns.remove(idx);
        self.conns.insert(idx, None);
        assert(self.conns@ =~= before.update(idx as int, None));
        taken
    }

    /// Put back an open connection for target `idx`.
    pub fn put_conn(&mut self, idx: usize, conn: C)
        requires
            old(self).wf(),
            idx < old(self).targets_view().len(),
        ensures
            final(self).wf(),
            final(self).targets_view() == old(self).targets_view(),
            final(self).conns_view() == old(self).conns_view().update(idx as int, Some(conn)),
    {
        self.conns.set(idx, Some(conn));
    }
}

/// The target a worker sends to next: the only one, or `nanos` modulo the number of targets.
pub fn pick_target(len: usize, nanos: u32) -> (r: usize)
    requires
        len > 0,
    ensures
        r < len,
        r == if len == 1 {
            0
        } else {
            nanos as int % len as int
        },
{
    if len == 1 {
        0
    } else {
        (nanos as usize) % len
    }
}

/// Transactions per second for each worker: the total split evenly, at least one.
pub fn rate_per_worker(total_rate: u64, workers: u64) -> (r: u64)
    requires
        workers > 0,
    ensures
        r == if total_rate / workers >= 1 {
            total_rate / workers
        } else {
            1
        },
{
    let share = total_rate / workers;
    if share >= 1 {
        share
    } else {
        1
    }
}

} // verus!
