use vstd::prelude::*;

verus! {

/// Number of currently connected peers. It never goes below zero: a
/// disconnect is only accepted while at least one peer is counted.
pub struct PeerCounter {
    num_peers: usize,
}

impl View for PeerCounter {
    type V = nat;

    closed spec fn view(&self) -> nat {
        self.num_peers as nat
    }
}

impl PeerCounter {
    /// A registry with no connected peer.
    pub fn new() -> (r: Self)
        ensures
            r@ == 0,
    {
        PeerCounter { num_peers: 0 }
    }

    /// Records one more connected peer.
    pub fn increment(&mut self)
        requires
            old(self)@ < usize::MAX,
        ensures
            final(self)@ == old(self)@ + 1,
    {
        self.num_peers = self.num_peers + 1;
    }

    /// Records that a connected peer went away; never called on an empty
    /// registry.
    pub fn decrement(&mut self)
        requires
            old(self)@ > 0,
        ensures
            final(self)@ == old(self)@ - 1,
    {
        self.num_peers = self.num_peers - 1;
    }

    /// The current count.
    pub fn get_num_peers(&self) -> (r: usize)
        ensures
            r as nat == self@,
    {
        self.num_peers
    }
}

} // verus!
