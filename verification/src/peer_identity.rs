//! Peer identity: which committee authority a transport endpoint key belongs to.

use vstd::prelude::*;

use crate::committee::Committee;
use crate::types::{bytes32_eq, AuthorityIndex};

verus! {

/// The authority registered for `key` in `entries`, if any.
pub open spec fn registered(entries: Seq<([u8; 32], AuthorityIndex)>, key: [u8; 32]) -> Option<AuthorityIndex> {
    if exists|i: int| 0 <= i < entries.len() && entries[i].0 == key {
        Some(entries[choose|i: int| 0 <= i < entries.len() && entries[i].0 == key].1)
    } else {
        None
    }
}

/// Maps transport endpoint keys (32 bytes) to committee authorities; used to
/// identify which validator an incoming connection belongs to.
#[derive(Clone)]
pub struct PeerIdentity {
    committee: Committee,
    /// Endpoint key -> authority, one entry per key.
    endpoint_to_authority: Vec<([u8; 32], AuthorityIndex)>,
}

impl PeerIdentity {
    /// The authority registered for an endpoint key.
    pub closed spec fn lookup(&self, key: [u8; 32]) -> Option<AuthorityIndex> {
        registered(self.endpoint_to_authority@, key)
    }

    /// The committee whose authorities endpoint keys are registered as.
    pub closed spec fn committee_view(&self) -> crate::committee::CommitteeView {
        self.committee@
    }

    pub closed spec fn wf(&self) -> bool {
        forall|i: int, j: int|
            0 <= i < self.endpoint_to_authority@.len() && 0 <= j < self.endpoint_to_authority@.len() && i != j
                ==> self.endpoint_to_authority@[i].0 != self.endpoint_to_authority@[j].0
    }

    pub fn new(committee: Committee) -> (r: Self)
        ensures
            r.wf(),
            r.committee_view() == committee@,
            forall|k: [u8; 32]| r.lookup(k) is None,
    {
        PeerIdentity { committee, endpoint_to_authority: Vec::new() }
    }

    fn position(&self, key: &[u8; 32]) -> (r: Option<usize>)
        ensures
            match r {
                Some(i) => i < self.endpoint_to_authority@.len() && self.endpoint_to_authority@[i as int].0 == *key,
                None => forall|i: int| 0 <= i < self.endpoint_to_authority@.len() ==> self.endpoint_to_authority@[i].0 != *key,
            },
    {
        let mut i: usize = 0;
        while i < self.endpoint_to_authority.len()
            invariant
                i <= self.endpoint_to_authority@.len(),
                forall|k: int| 0 <= k < i ==> self.endpoint_to_authority@[k].0 != *key,
            decreases self.endpoint_to_authority@.len() - i,
        {
            if bytes32_eq(&self.endpoint_to_authority[i].0, key) {
                return Some(i);
            }
            i = i + 1;
        }
        None
    }

    /// Register an endpoint key as the given authority (replacing an earlier registration).
    pub fn register(&mut self, endpoint_id: &[u8; 32], authority: AuthorityIndex)
        requires
            old(self).wf(),
        ensures
            final(self).wf(),
            forall|k: [u8; 32]| #[trigger] final(self).lookup(k) == if k == *endpoint_id {
                Some(authority)
            } else {
                old(self).lookup(k)
            },
    {
        let ghost old_entries = self.endpoint_to_authority@;
        match self.position(endpoint_id) {
            Some(i) => {
                self.endpoint_to_authority.set(i, (*endpoint_id, authority));
                let ghost e = self.endpoint_to_authority@;
                assert forall|k: [u8; 32]| #[trigger] registered(e, k) == if k == *endpoint_id {
                    Some(authority)
                } else {
                    registered(old_entries, k)
                } by {
                    if k == *endpoint_id {
                        let j = choose|j: int| 0 <= j < e.len() && e[j].0 == k;
                        assert(e[i as int].0 == k);
                        assert(j == i);
                    } else {
                        assert forall|j: int| 0 <= j < e.len() && e[j].0 == k implies old_entries[j].0 == k by {
                            assert(j != i);
                        }
                        assert forall|j: int| 0 <= j < old_entries.len() && old_entries[j].0 == k implies e[j].0 == k by {
                            assert(j != i);
                        }
                        if exists|j: int| 0 <= j < old_entries.len() && old_entries[j].0 == k {
                            let j1 = choose|j: int| 0 <= j < e.len() && e[j].0 == k;
                            let j2 = choose|j: int| 0 <= j < old_entries.len() && old_entries[j].0 == k;
                            assert(j1 != i && j2 != i);
                            assert(old_entries[j1].0 == k);
                            assert(j1 == j2);
                        }
                    }
                }
            },
            None => {
                self.endpoint_to_authority.push((*endpoint_id, authority));
                let ghost e = self.endpoint_to_authority@;
                let ghost n = old_entries.len() as int;
                assert forall|k: [u8; 32]| #[trigger] registered(e, k) == if k == *endpoint_id {
                    Some(authority)
                } else {
                    registered(old_entries, k)
                } by {
                    if k == *endpoint_id {
                        assert(e[n].0 == k);
                        let j = choose|j: int| 0 <= j < e.len() && e[j].0 == k;
                        assert(j == n);
                    } else {
                        assert forall|j: int| 0 <= j < e.len() && e[j].0 == k implies j < n && old_entries[j].0 == k by {
                            assert(j != n);
                        }
                        if exists|j: int| 0 <= j < old_entries.len() && old_entries[j].0 == k {
                            let j1 = choose|j: int| 0 <= j < e.len() && e[j].0 == k;
                            let j2 = choose|j: int| 0 <= j < old_entries.len() && old_entries[j].0 == k;
                            assert(e[j2].0 == k);
                            assert(j1 == j2);
                        }
                    }
                }
            },
        }
    }

    /// The authority registered for the endpoint key; `None` if unknown (the
    /// connection is then rejected).
    pub fn authority_index(&self, endpoint_id: &[u8; 32]) -> (r: Option<AuthorityIndex>)
        requires
            self.wf(),
        ensures
            r == self.lookup(*endpoint_id),
    {
        match self.position(endpoint_id) {
            Some(i) => {
                proof {
                    let e = self.endpoint_to_authority@;
                    let j = choose|j: int| 0 <= j < e.len() && e[j].0 == *endpoint_id;
                    assert(j == i);
                }
                Some(self.endpoint_to_authority[i].1)
            },
            None => None,
        }
    }
}

} // verus!
