//! The dispatcher: one transition per event, from the node's state and the
//! event that arrived to the next state and the one action to perform.
use vstd::prelude::*;
use crate::bytes::{bytes_eq, copy_bytes};
use crate::codec::{decode, decode_spec, encode_response, encode_response_spec};
use crate::discovery::{lists, peers_of, DiscoveryTable};
use crate::message::{ListMode, ListRequest, ListResponse, Message, MessageView, ModeView};
use crate::peer_counter::PeerCounter;

verus! {

/// Whether a message delivered to the process `local` is meant for it: a
/// response when its receiver is `local`, a request when it is for every
/// peer or for `local` alone.
pub open spec fn for_me(local: Seq<u8>, m: MessageView) -> bool {
    match m {
        MessageView::Response(r) => r.receiver == local,
        MessageView::Request(q) => match q.mode {
            ModeView::All => true,
            ModeView::One(id) => id == local,
        },
    }
}

/// The one local command: `ls p`, which lists the discovered peers.
pub open spec fn list_command() -> Seq<u8> {
    seq![0x6cu8, 0x73u8, 0x20u8, 0x70u8]
}

/// Identifiers, one per line.
pub open spec fn join_lines(v: Seq<Vec<u8>>) -> Seq<u8>
    decreases v.len(),
{
    if v.len() == 0 {
        Seq::empty()
    } else if v.len() == 1 {
        v[0]@
    } else {
        join_lines(v.drop_last()) + seq![0x0au8] + v.last()@
    }
}

/// The identifiers in `v`, one per line.
pub fn join_peers(v: &Vec<Vec<u8>>) -> (r: Vec<u8>)
    ensures
        r@ == join_lines(v@),
{
    let mut out: Vec<u8> = Vec::new();
    let mut i: usize = 0;
    while i < v.len()
        invariant
            i <= v@.len(),
            out@ == join_lines(v@.take(i as int)),
        decreases v@.len() - i,
    {
        let ghost before = out@;
        if i > 0 {
            out.push(0x0au8);
        }
        let item = &v[i];
        let mut k: usize = 0;
        while k < item.len()
            invariant
                k <= item@.len(),
                i > 0 ==> out@ == before + seq![0x0au8] + item@.take(k as int),
                i == 0 ==> out@ == before + item@.take(k as int),
            decreases item@.len() - k,
        {
            out.push(item[k]);
            k = k + 1;
            proof {
                if i > 0 {
                    assert(out@ =~= before + seq![0x0au8] + item@.take(k as int));
                } else {
                    assert(out@ =~= before + item@.take(k as int));
                }
            }
        }
        proof {
            assert(item@.take(k as int) =~= item@);
            assert(v@.take(i + 1).drop_last() =~= v@.take(i as int));
            if i == 0 {
                assert(before =~= Seq::<u8>::empty());
                assert(out@ =~= join_lines(v@.take(1)));
            }
        }
        i = i + 1;
    }
    assert(v@.take(i as int) =~= v@);
    out
}

/// Whether `m` is meant for the process `local`.
pub fn is_for_me(local: &Vec<u8>, m: &Message) -> (r: bool)
    ensures
        r == for_me(local@, m@),
{
    match m {
        Message::Response(resp) => bytes_eq(&resp.receiver, local),
        Message::Request(req) => match &req.mode {
            ListMode::All => true,
            ListMode::One(id) => bytes_eq(id, local),
        },
    }
}

fn copy_mode(m: &ListMode) -> (r: ListMode)
    ensures
        r@ == m@,
{
    match m {
        ListMode::All => ListMode::All,
        ListMode::One(id) => ListMode::One(copy_bytes(id)),
    }
}

/// Something that reached the dispatcher.
pub enum Event {
    /// A line of local input.
    Input(Vec<u8>),
    /// A reply taken from the outgoing queue.
    Response(ListResponse),
    /// A peer announced itself at an address.
    Discovered { peer: Vec<u8>, addr: Vec<u8> },
    /// A peer's lease at an address ran out.
    Expired { peer: Vec<u8>, addr: Vec<u8> },
    /// A payload published to the group by `source`.
    Payload { source: Vec<u8>, data: Vec<u8> },
    /// A connection to a peer was established.
    Connected(Vec<u8>),
    /// A connection to a peer was closed.
    Disconnected(Vec<u8>),
    /// Any other network event.
    Other,
}

/// What the dispatcher asks for in answer to one event.
pub enum Action {
    /// Report these peers, each once.
    ListPeers(Vec<Vec<u8>>),
    /// Report an input line that is no command.
    UnknownCommand,
    /// Publish these bytes to the group.
    Publish(Vec<u8>),
    /// Add this peer to the group's delivery view.
    AddToView(Vec<u8>),
    /// Take this peer out of the group's delivery view.
    RemoveFromView(Vec<u8>),
    /// A request meant for this process arrived; `reply` answers it and
    /// is to be queued for publishing.
    RequestForMe { source: Vec<u8>, request: ListRequest, reply: ListResponse },
    /// A response meant for this process arrived.
    ResponseForMe { source: Vec<u8>, response: ListResponse },
    /// The number of connected peers changed to this value.
    PeerCount(usize),
    /// A connection notice that would take the count out of range; the
    /// count is left as it was.
    CountRejected,
    /// Nothing to do.
    Ignore,
}

/// The dispatcher's state: this process's identifier, the registry of
/// connected peers and the table of discovered ones. It lives as long as
/// the loop that feeds it.
pub struct Node {
    pub local_id: Vec<u8>,
    pub counter: PeerCounter,
    pub table: DiscoveryTable,
}

impl Node {
    pub open spec fn wf(&self) -> bool {
        self.table.wf()
    }

    /// A node for the process `local_id`, with no peer connected or seen.
    pub fn new(local_id: Vec<u8>) -> (r: Self)
        ensures
            r.wf(),
            r.local_id@ == local_id@,
            r.counter@ == 0,
            r.table@ == Set::<(Seq<u8>, Seq<u8>)>::empty(),
    {
        Node { local_id, counter: PeerCounter::new(), table: DiscoveryTable::new() }
    }

    /// Applies one event and gives the one action it calls for.
    pub fn step(&mut self, ev: Event) -> (act: Action)
        requires
            old(self).wf(),
        ensures
            final(self).wf(),
            final(self).local_id@ == old(self).local_id@,
            match ev {
                Event::Connected(_) => if old(self).counter@ < usize::MAX {
                    final(self).counter@ == old(self).counter@ + 1
                        && act == Action::PeerCount(final(self).counter@ as usize)
                } else {
                    final(self).counter@ == old(self).counter@ && act is CountRejected
                },
                Event::Disconnected(_) => if old(self).counter@ > 0 {
                    final(self).counter@ == old(self).counter@ - 1
                        && act == Action::PeerCount(final(self).counter@ as usize)
                } else {
                    final(self).counter@ == old(self).counter@ && act is CountRejected
                },
                _ => final(self).counter@ == old(self).counter@,
            },
            match ev {
                Event::Discovered { peer, addr } => final(self).table@ == old(self).table@.insert((peer@, addr@)),
                Event::Expired { peer, addr } => final(self).table@ == old(self).table@.remove((peer@, addr@)),
                _ => final(self).table@ == old(self).table@,
            },
            match ev {
                Event::Input(line) => if line@ == list_command() {
                    act matches Action::ListPeers(v)
                        && (forall|i: int, j: int| 0 <= i < j < v@.len() ==> v@[i]@ != v@[j]@)
                        && (forall|id: Seq<u8>| peers_of(old(self).table@).contains(id) <==> #[trigger] lists(v@, id))
                } else {
                    act is UnknownCommand
                },
                Event::Response(r) => act matches Action::Publish(b) && b@ == encode_response_spec(r@),
                Event::Discovered { peer, addr } => if old(self).table@.contains((peer@, addr@)) {
                    act is Ignore
                } else {
                    act matches Action::AddToView(p) && p@ == peer@
                },
                Event::Expired { peer, addr } => if peers_of(final(self).table@).contains(peer@) {
                    act is Ignore
                } else {
                    act matches Action::RemoveFromView(p) && p@ == peer@
                },
                Event::Payload { source, data } => match decode_spec(data@) {
                    Some(MessageView::Request(q)) => if for_me(old(self).local_id@, MessageView::Request(q)) {
                        act matches Action::RequestForMe { source: s, request, reply } && s@ == source@ && request@ == q
                            && reply@.mode == q.mode && reply@.receiver == source@
                            && exists|v: Seq<Vec<u8>>| #[trigger] join_lines(v) == reply@.data
                                && (forall|i: int, j: int| 0 <= i < j < v.len() ==> v[i]@ != v[j]@)
                                && (forall|id: Seq<u8>| peers_of(old(self).table@).contains(id) <==> #[trigger] lists(v, id))
                    } else {
                        act is Ignore
                    },
                    Some(MessageView::Response(x)) => if for_me(old(self).local_id@, MessageView::Response(x)) {
                        act matches Action::ResponseForMe { source: s, response } && s@ == source@ && response@ == x
                    } else {
                        act is Ignore
                    },
                    None => act is Ignore,
                },
                Event::Connected(_) => true,
                Event::Disconnected(_) => true,
                Event::Other => act is Ignore,
            },
    {
        match ev {
            Event::Input(line) => {
                let cmd = vec![0x6cu8, 0x73u8, 0x20u8, 0x70u8];
                assert(cmd@ =~= list_command());
                if bytes_eq(&line, &cmd) {
                    Action::ListPeers(self.table.discovered_peers())
                } else {
                    Action::UnknownCommand
                }
            },
            Event::Response(r) => Action::Publish(encode_response(&r)),
            Event::Discovered { peer, addr } => {
                if self.table.insert(&peer, &addr) {
                    Action::AddToView(peer)
                } else {
                    Action::Ignore
                }
            },
            Event::Expired { peer, addr } => {
                self.table.remove(&peer, &addr);
                if self.table.has_node(&peer) {
                    Action::Ignore
                } else {
                    Action::RemoveFromView(peer)
                }
            },
            Event::Payload { source, data } => {
                match decode(data.as_slice()) {
                    Some(m) => {
                        if is_for_me(&self.local_id, &m) {
                            match m {
                                Message::Request(request) => {
                                    let peers = self.table.discovered_peers();
                                    let data = join_peers(&peers);
                                    let reply = ListResponse {
                                        mode: copy_mode(&request.mode),
                                        data,
                                        receiver: copy_bytes(&source),
                                    };
                                    Action::RequestForMe { source, request, reply }
                                },
                                Message::Response(response) => Action::ResponseForMe { source, response },
                            }
                        } else {
                            Action::Ignore
                        }
                    },
                    None => Action::Ignore,
                }
            },
            Event::Connected(_) => {
                if self.counter.get_num_peers() < usize::MAX {
                    self.counter.increment();
                    Action::PeerCount(self.counter.get_num_peers())
                } else {
                    Action::CountRejected
                }
            },
            Event::Disconnected(_) => {
                if self.counter.get_num_peers() > 0 {
                    self.counter.decrement();
                    Action::PeerCount(self.counter.get_num_peers())
                } else {
                    Action::CountRejected
                }
            },
            Event::Other => Action::Ignore,
        }
    }
}

/// The count after a run of connection notices (`true` a connect, `false`
/// a disconnect), a disconnect on an empty count being refused.
pub open spec fn registry_after(events: Seq<bool>) -> int
    decreases events.len(),
{
    if events.len() == 0 {
        0
    } else {
        let c = registry_after(events.drop_last());
        if events.last() {
            c + 1
        } else if c > 0 {
            c - 1
        } else {
            c
        }
    }
}

/// Connects less disconnects in a run of connection notices.
pub open spec fn net_connections(events: Seq<bool>) -> int
    decreases events.len(),
{
    if events.len() == 0 {
        0
    } else if events.last() {
        net_connections(events.drop_last()) + 1
    } else {
        net_connections(events.drop_last()) - 1
    }
}

/// Where disconnects never outnumber the connects before them, the count
/// is the net number of connections after every notice, never below zero,
/// and no notice is refused.
pub proof fn lemma_registry_nonneg(events: Seq<bool>)
    requires
        forall|k: int| 0 <= k <= events.len() ==> net_connections(#[trigger] events.take(k)) >= 0,
    ensures
        forall|k: int| 0 <= k <= events.len() ==> registry_after(#[trigger] events.take(k)) == net_connections(events.take(k))
            && registry_after(events.take(k)) >= 0,
    decreases events.len(),
{
    if events.len() > 0 {
        let p = events.drop_last();
        assert forall|k: int| 0 <= k <= p.len() implies net_connections(#[trigger] p.take(k)) >= 0 by {
            assert(p.take(k) =~= events.take(k));
        }
        lemma_registry_nonneg(p);
        assert forall|k: int| 0 <= k <= events.len() implies registry_after(#[trigger] events.take(k)) == net_connections(events.take(k))
            && registry_after(events.take(k)) >= 0 by {
            if k < events.len() {
                assert(p.take(k) =~= events.take(k));
            } else {
                assert(events.take(k) =~= events);
                assert(events.take(k).drop_last() =~= p.take(p.len() as int));
                assert(net_connections(events) >= 0);
            }
        }
    }
}

} // verus!
