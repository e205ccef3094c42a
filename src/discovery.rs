//! The table of peers seen on the local network. Each entry is a lease: a
//! peer's identifier together with one address it announced. A peer is
//! discovered while at least one of its leases is held.
use vstd::prelude::*;
use crate::bytes::{bytes_eq, copy_bytes};

verus! {

/// A peer identifier and one of its addresses.
pub type Lease = (Seq<u8>, Seq<u8>);

/// The identifiers that hold at least one lease in `s`.
pub open spec fn peers_of(s: Set<Lease>) -> Set<Seq<u8>> {
    Set::new(|id: Seq<u8>| exists|a: Seq<u8>| s.contains((id, a)))
}

/// Some element of `v` is `id`.
pub open spec fn lists(v: Seq<Vec<u8>>, id: Seq<u8>) -> bool {
    exists|k: int| 0 <= k < v.len() && v[k]@ == id
}

spec fn among_first(e: Seq<(Vec<u8>, Vec<u8>)>, n: int, id: Seq<u8>) -> bool {
    exists|j: int| 0 <= j < n && e[j].0@ == id
}

pub struct DiscoveryTable {
    entries: Vec<(Vec<u8>, Vec<u8>)>,
}

pub open spec fn lease_of(e: (Vec<u8>, Vec<u8>)) -> Lease {
    (e.0@, e.1@)
}

impl View for DiscoveryTable {
    type V = Set<Lease>;

    closed spec fn view(&self) -> Set<Lease> {
        Set::new(|l: Lease| exists|i: int| 0 <= i < self.entries@.len() && lease_of(self.entries@[i]) == l)
    }
}

impl DiscoveryTable {
    /// Each lease stands in the table once.
    pub closed spec fn wf(&self) -> bool {
        forall|i: int, j: int|
            0 <= i < j < self.entries@.len() ==> lease_of(self.entries@[i]) != lease_of(self.entries@[j])
    }

    /// The number of leases held.
    pub closed spec fn len(&self) -> nat {
        self.entries@.len()
    }

    /// A table with no lease.
    pub fn new() -> (r: Self)
        ensures
            r.wf(),
            r@ == Set::<Lease>::empty(),
    {
        let r = DiscoveryTable { entries: Vec::new() };
        assert(r@ =~= Set::<Lease>::empty());
        r
    }

    fn find(&self, peer: &Vec<u8>, addr: &Vec<u8>) -> (r: Option<usize>)
        ensures
            r matches Some(i) ==> i < self.entries@.len() && lease_of(self.entries@[i as int]) == (peer@, addr@),
            r is None ==> !self@.contains((peer@, addr@)),
    {
        let mut i: usize = 0;
        while i < self.entries.len()
            invariant
                i <= self.entries@.len(),
                forall|j: int| 0 <= j < i ==> lease_of(self.entries@[j]) != (peer@, addr@),
            decreases self.entries@.len() - i,
        {
            if bytes_eq(&self.entries[i].0, peer) && bytes_eq(&self.entries[i].1, addr) {
                return Some(i);
            }
            i = i + 1;
        }
        None
    }

    /// Records that `peer` announced itself at `addr`. Gives whether the
    /// lease is new; announcing a lease that is already held changes
    /// nothing.
    pub fn insert(&mut self, peer: &Vec<u8>, addr: &Vec<u8>) -> (r: bool)
        requires
            old(self).wf(),
        ensures
            final(self).wf(),
            final(self)@ == old(self)@.insert((peer@, addr@)),
            r == !old(self)@.contains((peer@, addr@)),
    {
        match self.find(peer, addr) {
            Some(_) => {
                assert(self@ =~= self@.insert((peer@, addr@)));
                false
            },
            None => {
                let ghost before = self.entries@;
                self.entries.push((copy_bytes(peer), copy_bytes(addr)));
                assert(self@ =~= old(self)@.insert((peer@, addr@))) by {
                    assert forall|l: Lease| self@.contains(l) implies old(self)@.insert((peer@, addr@)).contains(l) by {
                        let i = choose|i: int| 0 <= i < self.entries@.len() && lease_of(self.entries@[i]) == l;
                        if i < before.len() {
                            assert(old(self).entries@[i] == self.entries@[i]);
                        }
                    }
                    assert forall|l: Lease| old(self)@.insert((peer@, addr@)).contains(l) implies self@.contains(l) by {
                        if l == (peer@, addr@) {
                            assert(lease_of(self.entries@[before.len() as int]) == l);
                        } else {
                            let i = choose|i: int| 0 <= i < before.len() && lease_of(before[i]) == l;
                            assert(self.entries@[i] == before[i]);
                        }
                    }
                }
                true
            },
        }
    }

    /// Drops the lease of `peer` at `addr`, the one that stopped being
    /// announced.
    pub fn remove(&mut self, peer: &Vec<u8>, addr: &Vec<u8>)
        requires
            old(self).wf(),
        ensures
            final(self).wf(),
            final(self)@ == old(self)@.remove((peer@, addr@)),
    {
        match self.find(peer, addr) {
            None => {
                assert(self@ =~= self@.remove((peer@, addr@)));
            },
            Some(i) => {
                let ghost before = self.entries@;
                self.entries.remove(i);
                assert(self@ =~= old(self)@.remove((peer@, addr@))) by {
                    assert forall|l: Lease| self@.contains(l) implies old(self)@.remove((peer@, addr@)).contains(l) by {
                        let k = choose|k: int| 0 <= k < self.entries@.len() && lease_of(self.entries@[k]) == l;
                        if k < i {
                            assert(self.entries@[k] == before[k]);
                        } else {
                            assert(self.entries@[k] == before[k + 1]);
                        }
                    }
                    assert forall|l: Lease| old(self)@.remove((peer@, addr@)).contains(l) implies self@.contains(l) by {
                        let k = choose|k: int| 0 <= k < before.len() && lease_of(before[k]) == l;
                        if k < i {
                            assert(self.entries@[k] == before[k]);
                        } else {
                            assert(k != i);
                            assert(self.entries@[k - 1] == before[k]);
                        }
                    }
                }
            },
        }
    }

    /// Whether `peer` holds at least one lease.
    pub fn has_node(&self, peer: &Vec<u8>) -> (r: bool)
        ensures
            r == peers_of(self@).contains(peer@),
    {
        let mut i: usize = 0;
        while i < self.entries.len()
            invariant
                i <= self.entries@.len(),
                forall|j: int| 0 <= j < i ==> self.entries@[j].0@ != peer@,
            decreases self.entries@.len() - i,
        {
            if bytes_eq(&self.entries[i].0, peer) {
                assert(self@.contains(lease_of(self.entries@[i as int])));
                return true;
            }
            i = i + 1;
        }
        proof {
            if peers_of(self@).contains(peer@) {
                let a = choose|a: Seq<u8>| self@.contains((peer@, a));
                let k = choose|k: int| 0 <= k < self.entries@.len() && lease_of(self.entries@[k]) == (peer@, a);
                assert(self.entries@[k].0@ == peer@);
            }
        }
        false
    }

    /// The discovered peers, each identifier once.
    pub fn discovered_peers(&self) -> (r: Vec<Vec<u8>>)
        ensures
            forall|i: int, j: int| 0 <= i < j < r@.len() ==> r@[i]@ != r@[j]@,
            forall|id: Seq<u8>| peers_of(self@).contains(id) <==> #[trigger] lists(r@, id),
    {
        let mut out: Vec<Vec<u8>> = Vec::new();
        let mut i: usize = 0;
        while i < self.entries.len()
            invariant
                i <= self.entries@.len(),
                forall|a: int, b: int| 0 <= a < b < out@.len() ==> out@[a]@ != out@[b]@,
                forall|id: Seq<u8>| #[trigger] lists(out@, id) <==> among_first(self.entries@, i as int, id),
            decreases self.entries@.len() - i,
        {
            let peer = &self.entries[i].0;
            let mut seen = false;
            let mut k: usize = 0;
            while k < out.len()
                invariant
                    k <= out@.len(),
                    !seen ==> forall|m: int| 0 <= m < k ==> out@[m]@ != peer@,
                    seen ==> lists(out@, peer@),
                decreases out@.len() - k,
            {
                if bytes_eq(&out[k], peer) {
                    seen = true;
                }
                k = k + 1;
            }
            let ghost prev = out@;
            if !seen {
                out.push(copy_bytes(peer));
                assert forall|id: Seq<u8>| #[trigger] lists(out@, id) <==> among_first(self.entries@, i + 1, id) by {
                    if lists(out@, id) {
                        let k = choose|k: int| 0 <= k < out@.len() && out@[k]@ == id;
                        if k < prev.len() {
                            assert(out@[k] == prev[k]);
                            assert(lists(prev, id));
                        } else {
                            assert(self.entries@[i as int].0@ == id);
                        }
                    }
                    if among_first(self.entries@, i + 1, id) {
                        let j = choose|j: int| 0 <= j < i + 1 && self.entries@[j].0@ == id;
                        if j < i {
                            assert(among_first(self.entries@, i as int, id));
                            assert(lists(prev, id));
                            let k = choose|k: int| 0 <= k < prev.len() && prev[k]@ == id;
                            assert(out@[k] == prev[k]);
                        } else {
                            assert(out@[prev.len() as int]@ == id);
                        }
                    }
                }
            } else {
                assert forall|id: Seq<u8>| #[trigger] lists(out@, id) <==> among_first(self.entries@, i + 1, id) by {
                    if among_first(self.entries@, i + 1, id) {
                        let j = choose|j: int| 0 <= j < i + 1 && self.entries@[j].0@ == id;
                        if j < i {
                            assert(among_first(self.entries@, i as int, id));
                        } else {
                            assert(id == peer@);
                        }
                    }
                    if lists(out@, id) {
                        assert(among_first(self.entries@, i as int, id));
                    }
                }
            }
            i = i + 1;
        }
        proof {
            assert forall|id: Seq<u8>| peers_of(self@).contains(id) <==> #[trigger] lists(out@, id) by {
                if peers_of(self@).contains(id) {
                    let a = choose|a: Seq<u8>| self@.contains((id, a));
                    let j = choose|j: int| 0 <= j < self.entries@.len() && lease_of(self.entries@[j]) == (id, a);
                    assert(self.entries@[j].0@ == id);
                    assert(among_first(self.entries@, i as int, id));
                }
                if lists(out@, id) {
                    assert(among_first(self.entries@, i as int, id));
                    let j = choose|j: int| 0 <= j < i && self.entries@[j].0@ == id;
                    assert(self@.contains(lease_of(self.entries@[j])));
                }
            }
        }
        out
    }
}

/// Announcing a lease that is already held changes nothing: the table
/// keeps one entry for it, the peer set does not grow, and a second
/// announcement is not new.
pub proof fn lemma_announce_idempotent(s: Set<Lease>, l: Lease)
    ensures
        s.insert(l).insert(l) == s.insert(l),
        s.insert(l).contains(l),
        peers_of(s.insert(l)) == peers_of(s).insert(l.0),
{
    assert(s.insert(l).insert(l) =~= s.insert(l));
    assert forall|id: Seq<u8>| peers_of(s.insert(l)).contains(id) implies peers_of(s).insert(l.0).contains(id) by {
        let a = choose|a: Seq<u8>| s.insert(l).contains((id, a));
        if (id, a) != l {
            assert(s.contains((id, a)));
        }
    }
    assert forall|id: Seq<u8>| peers_of(s).insert(l.0).contains(id) implies peers_of(s.insert(l)).contains(id) by {
        if id == l.0 {
            assert(s.insert(l).contains((l.0, l.1)));
        } else {
            let a = choose|a: Seq<u8>| s.contains((id, a));
            assert(s.insert(l).contains((id, a)));
        }
    }
    assert(peers_of(s.insert(l)) =~= peers_of(s).insert(l.0));
}

/// A peer with a second lease stays discovered when its other lease goes.
pub proof fn lemma_expiry_guard(s: Set<Lease>, id: Seq<u8>, a1: Seq<u8>, a2: Seq<u8>)
    requires
        a1 != a2,
        s.contains((id, a2)),
    ensures
        peers_of(s.remove((id, a1))).contains(id),
{
    assert(s.remove((id, a1)).contains((id, a2)));
}

/// A peer whose last lease goes is no longer discovered.
pub proof fn lemma_last_lease(s: Set<Lease>, id: Seq<u8>, a: Seq<u8>)
    requires
        forall|b: Seq<u8>| s.contains((id, b)) ==> b == a,
    ensures
        !peers_of(s.remove((id, a))).contains(id),
{
}

} // verus!
