//! The decisions of the multicast server: what it hands up to its client
//! when datagrams arrive, what it queues when the client asks to send, and
//! which datagram it puts on the socket next. The sockets and channels
//! themselves belong to the program that runs the server.

use vstd::prelude::*;
use std::collections::VecDeque;
use crate::multinet::{
    assemble_accepts, assemble_step, split_message, AssembledDataPacket, AssembledDataPacketView,
    AssembledPacket, AssembledPacketView, AssemblyKey, AssemblyView, ChannelID, PacketAssembler,
    PacketSpliter, WirePacket, WirePacketView,
};

verus! {

/// The multicast group the server joins.
pub const MULTICAST_GROUP: [u8; 4] = [239, 53, 38, 42];

/// The port the server binds and sends to.
pub const MULTICAST_PORT: u16 = 5338;

/// A request of the client to the server.
#[derive(Debug)]
pub enum ControlPacket {
    SendData(AssembledDataPacket),
}

/// A message the server hands to its client.
#[derive(Debug)]
pub enum RecievedPacket {
    Data(AssembledDataPacket),
}

/// The request the server is primed with when it starts: a one-byte message on
/// channel 54238503, epoch 0, message id 0.
pub fn priming_packet() -> (c: ControlPacket)
    ensures
        c matches ControlPacket::SendData(p) && p@ == (AssembledDataPacketView {
            channel: 54238503,
            epoch: 0,
            msg_id: 0,
            data: seq![0u8],
        }),
{
    let mut data: Vec<u8> = Vec::new();
    data.push(0);
    let c = ControlPacket::SendData(
        AssembledDataPacket { channel: ChannelID::new(54238503), data, epoch: 0, msg_id: 0 },
    );
    assert(data@ =~= seq![0u8]);
    c
}

pub open spec fn wire_views(s: Seq<WirePacket>) -> Seq<WirePacketView> {
    s.map_values(|w: WirePacket| w@)
}

pub open spec fn message_views(s: Seq<AssembledPacket>) -> Seq<AssembledPacketView> {
    s.map_values(|m: AssembledPacket| m@)
}

pub open spec fn message_of(m: AssembledPacketView) -> AssembledDataPacketView {
    match m {
        AssembledPacketView::Data(d) => d,
    }
}

/// The next datagram to send from the queue of split datagrams `split` and the
/// queue of messages `pending`, and the two queues afterwards: split datagrams
/// go first, in order; when there are none the newest pending message is split.
pub open spec fn next_outgoing_spec(split: Seq<WirePacketView>, pending: Seq<AssembledPacketView>) -> (
    Option<WirePacketView>,
    Seq<WirePacketView>,
    Seq<AssembledPacketView>,
)
    decreases pending.len(),
{
    if split.len() > 0 {
        (Some(split[0]), split.drop_first(), pending)
    } else if pending.len() == 0 {
        (None, split, pending)
    } else {
        next_outgoing_spec(split_message(message_of(pending.last())), pending.drop_last())
    }
}

/// The datagrams that `k` turns of `next_outgoing_spec` give, in order,
/// starting from the queues `split` and `pending`.
pub open spec fn drain(split: Seq<WirePacketView>, pending: Seq<AssembledPacketView>, k: nat) -> Seq<
    WirePacketView,
>
    decreases k,
{
    if k == 0 {
        Seq::empty()
    } else {
        let (o, q, m) = next_outgoing_spec(split, pending);
        match o {
            Some(w) => seq![w] + drain(q, m, (k - 1) as nat),
            None => Seq::empty(),
        }
    }
}

proof fn lemma_drain_split(s: Seq<WirePacketView>, k: nat)
    requires
        k > s.len(),
    ensures
        drain(s, Seq::empty(), k) == s,
    decreases s.len(),
{
    if s.len() == 0 {
        assert(next_outgoing_spec(s, Seq::empty()).0 is None);
    } else {
        lemma_drain_split(s.drop_first(), (k - 1) as nat);
        assert(seq![s[0]] + s.drop_first() =~= s);
    }
}

/// A message that the client asks an idle server to send goes out as the
/// datagrams it splits into, in order, and nothing follows them.
pub proof fn law_send_in_order(m: AssembledPacketView)
    ensures
        ({
            let ps = split_message(message_of(m));
            drain(Seq::empty(), seq![m], ps.len() + 1) == ps
        }),
{
    let ps = split_message(message_of(m));
    let pending = seq![m];
    assert(pending.last() == m);
    assert(pending.drop_last() =~= Seq::<AssembledPacketView>::empty());
    assert(next_outgoing_spec(Seq::empty(), pending) == next_outgoing_spec(ps, Seq::empty()));
    if ps.len() == 0 {
        assert(next_outgoing_spec(ps, Seq::empty()).0 is None);
    } else {
        lemma_drain_split(ps.drop_first(), ps.len() as nat);
        assert(seq![ps[0]] + ps.drop_first() =~= ps);
    }
}

/// The datagrams of the messages `pending`, newest message first, each
/// message's datagrams in their order.
pub open spec fn outstanding(pending: Seq<AssembledPacketView>) -> Seq<WirePacketView>
    decreases pending.len(),
{
    if pending.len() == 0 {
        Seq::empty()
    } else {
        split_message(message_of(pending.last())) + outstanding(pending.drop_last())
    }
}

/// While datagrams wait in the queue, the next one sent is the head of the
/// queue, and the waiting messages are left as they are.
pub proof fn law_queue_goes_first(split: Seq<WirePacketView>, pending: Seq<AssembledPacketView>)
    requires
        split.len() > 0,
    ensures
        next_outgoing_spec(split, pending) == (Some(split[0]), split.drop_first(), pending),
{
}

/// No datagram is dropped or made up: what remains to be sent after taking
/// the next datagram, with that datagram in front, is what remained before;
/// and nothing is taken only when nothing remains.
pub proof fn law_no_datagram_dropped(split: Seq<WirePacketView>, pending: Seq<AssembledPacketView>)
    ensures
        ({
            let (o, q, m) = next_outgoing_spec(split, pending);
            match o {
                Some(w) => seq![w] + (q + outstanding(m)) == split + outstanding(pending),
                None => split + outstanding(pending) == Seq::<WirePacketView>::empty(),
            }
        }),
    decreases pending.len(),
{
    if split.len() > 0 {
        assert(seq![split[0]] + (split.drop_first() + outstanding(pending)) =~= split + outstanding(
            pending,
        ));
    } else if pending.len() == 0 {
        assert(split + outstanding(pending) =~= Seq::<WirePacketView>::empty());
    } else {
        let s = split_message(message_of(pending.last()));
        law_no_datagram_dropped(s, pending.drop_last());
        assert(split + outstanding(pending) =~= s + outstanding(pending.drop_last()));
    }
}

/// A message the client asks to send adds its datagrams to what remains to be
/// sent, ahead of the older waiting messages and behind the queue.
pub proof fn law_request_adds_its_datagrams(
    split: Seq<WirePacketView>,
    pending: Seq<AssembledPacketView>,
    d: AssembledDataPacketView,
)
    ensures
        split + outstanding(pending.push(AssembledPacketView::Data(d))) == split + split_message(d)
            + outstanding(pending),
{
    let p2 = pending.push(AssembledPacketView::Data(d));
    assert(p2.drop_last() =~= pending);
    assert(split + (split_message(d) + outstanding(pending)) =~= split + split_message(d)
        + outstanding(pending));
}

/// The state of a server between events.
#[derive(Debug)]
pub struct ServerCore {
    assembler: PacketAssembler,
    splitter: PacketSpliter,
    send_buf: VecDeque<AssembledPacket>,
    split_send_buf: VecDeque<WirePacket>,
}

impl ServerCore {
    /// The assemblies under way.
    pub closed spec fn assemblies(&self) -> Map<AssemblyKey, AssemblyView> {
        self.assembler@
    }

    /// The messages waiting to be split, oldest first.
    pub closed spec fn pending(&self) -> Seq<AssembledPacketView> {
        message_views(self.send_buf@)
    }

    /// The datagrams waiting to be sent, first to go first.
    pub closed spec fn queued(&self) -> Seq<WirePacketView> {
        wire_views(self.split_send_buf@)
    }

    pub closed spec fn wf(&self) -> bool {
        self.assembler.wf()
    }

    pub fn new() -> (s: Self)
        ensures
            s.wf(),
            s.assemblies() == Map::<AssemblyKey, AssemblyView>::empty(),
            s.pending() == Seq::<AssembledPacketView>::empty(),
            s.queued() == Seq::<WirePacketView>::empty(),
    {
        let s = ServerCore {
            assembler: PacketAssembler::new(),
            splitter: PacketSpliter::new(),
            send_buf: VecDeque::new(),
            split_send_buf: VecDeque::new(),
        };
        assert(s.pending() =~= Seq::<AssembledPacketView>::empty());
        assert(s.queued() =~= Seq::<WirePacketView>::empty());
        s
    }

    /// Whether an arriving datagram can be taken (see `PacketAssembler::accepts`).
    pub fn accepts(&self, p: &WirePacket) -> (r: bool)
        requires
            self.wf(),
        ensures
            match p@ {
                WirePacketView::Data(d) => r == assemble_accepts(self.assemblies(), d),
            },
    {
        self.assembler.accepts(p)
    }

    /// A datagram arrived: it joins its message, and the message goes to the
    /// client when it is whole.
    pub fn incoming(&mut self, p: WirePacket) -> (r: Option<RecievedPacket>)
        requires
            old(self).wf(),
            match p@ {
                WirePacketView::Data(d) => assemble_accepts(old(self).assemblies(), d),
            },
        ensures
            final(self).wf(),
            final(self).pending() == old(self).pending(),
            final(self).queued() == old(self).queued(),
            match p@ {
                WirePacketView::Data(d) => (final(self).assemblies(), match r {
                    Some(RecievedPacket::Data(m)) => Some(m@),
                    None => None,
                }) == assemble_step(old(self).assemblies(), d),
            },
    {
        match self.assembler.assemble(p) {
            Some(AssembledPacket::Data(m)) => Some(RecievedPacket::Data(m)),
            None => None,
        }
    }

    /// The client asked to send a message: it waits behind the others.
    pub fn control(&mut self, c: ControlPacket)
        requires
            old(self).wf(),
        ensures
            final(self).wf(),
            final(self).assemblies() == old(self).assemblies(),
            final(self).queued() == old(self).queued(),
            match c {
                ControlPacket::SendData(d) => final(self).pending() == old(self).pending().push(
                    AssembledPacketView::Data(d@),
                ),
            },
    {
        match c {
            ControlPacket::SendData(data) => {
                self.send_buf.push_back(AssembledPacket::Data(data));
                assert(self.pending() =~= old(self).pending().push(
                    AssembledPacketView::Data(data@),
                ));
            },
        }
    }

    /// The socket could not take `p`: it goes back to the head of the queue.
    pub fn requeue(&mut self, p: WirePacket)
        requires
            old(self).wf(),
        ensures
            final(self).wf(),
            final(self).assemblies() == old(self).assemblies(),
            final(self).pending() == old(self).pending(),
            final(self).queued() == seq![p@] + old(self).queued(),
    {
        self.split_send_buf.push_front(p);
        assert(self.queued() =~= seq![p@] + old(self).queued());
    }

    /// The next datagram to put on the socket, if any is waiting.
    pub fn next_outgoing(&mut self) -> (r: Option<WirePacket>)
        requires
            old(self).wf(),
        ensures
            final(self).wf(),
            final(self).assemblies() == old(self).assemblies(),
            ({
                let (o, q, m) = next_outgoing_spec(old(self).queued(), old(self).pending());
                &&& final(self).queued() == q
                &&& final(self).pending() == m
                &&& match r {
                    Some(w) => o == Some(w@),
                    None => o is None,
                }
            }),
    {
        loop
            invariant
                self.wf(),
                self.assemblies() == old(self).assemblies(),
                next_outgoing_spec(self.queued(), self.pending()) == next_outgoing_spec(
                    old(self).queued(),
                    old(self).pending(),
                ),
            decreases self.pending().len(), self.queued().len(),
        {
            let ghost q0 = self.queued();
            let ghost m0 = self.pending();
            if let Some(p) = self.split_send_buf.pop_front() {
                assert(self.queued() =~= q0.drop_first());
                return Some(p);
            }
            assert(q0.len() == 0);
            match self.send_buf.pop_back() {
                Some(m) => {
                    assert(self.pending() =~= m0.drop_last());
                    let ghost mv = message_of(m@);
                    let mut v = self.splitter.split(m);
                    let ghost all = wire_views(v@);
                    while v.len() > 0
                        invariant
                            self.queued() + wire_views(v@) == all,
                            all == split_message(mv),
                            self.wf(),
                            self.assemblies() == old(self).assemblies(),
                            self.pending() == m0.drop_last(),
                        decreases v@.len(),
                    {
                        let ghost q1 = self.queued();
                        let ghost v1 = v@;
                        let w = v.remove(0);
                        self.split_send_buf.push_back(w);
                        assert(self.queued() =~= q1.push(w@));
                        assert(wire_views(v@) =~= wire_views(v1).drop_first());
                        assert(q1 + wire_views(v1) =~= self.queued() + wire_views(v@));
                    }
                    assert(wire_views(v@) =~= Seq::<WirePacketView>::empty());
                    assert(self.queued() =~= all);
                },
                None => {
                    assert(m0.len() == 0);
                    return None;
                },
            }
        }
    }
}

} // verus!
