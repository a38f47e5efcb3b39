//! The multicast wire protocol: data packets, their byte encoding, the
//! splitting of a message into packets that fit a datagram, and the
//! reassembly of those packets into the message on the receiving side.

use vstd::prelude::*;
use vstd::slice::slice_to_vec;
use std::collections::{BTreeMap, HashMap};
use crate::endian::{
    be_u32_bytes, be_u32_value, be_u64_bytes, be_u64_value, lemma_be_u32, lemma_be_u64,
    read_be_u32, read_be_u64, write_be_u32, write_be_u64,
};

verus! {

/// Identifies the logical channel a message travels on.
#[derive(Hash, Eq, PartialEq, Copy, Clone, Debug, Structural)]
pub struct ChannelID(pub u64);

impl ChannelID {
    pub fn new(id: u64) -> (c: Self)
        ensures
            c.0 == id,
    {
        ChannelID(id)
    }
}

pub type Epoch = u64;

pub type MessageId = u64;

/// Why a datagram could not be decoded.
#[derive(Debug, Copy, Clone, PartialEq, Eq, Structural)]
pub enum DecodeError {
    /// The datagram ends before the header does.
    UnexpectedEof,
    /// The first byte names no known packet type.
    UnrecognizedPacketType,
}

/// The number of header bytes of a data packet.
pub const DATA_HEADER_LEN: usize = 32;

/// The most payload bytes that one data packet carries.
pub const DATA_MTU: usize = 200;

/// One piece of a message as it travels in a datagram.
#[derive(Debug)]
pub struct DataPacket {
    pub channel: ChannelID,
    pub epoch: Epoch,
    pub msg_id: MessageId,
    pub msg_seq: u32,
    pub msg_len: u32,
    pub data: Vec<u8>,
}

/// The contents of a data packet.
pub struct DataPacketView {
    pub channel: u64,
    pub epoch: u64,
    pub msg_id: u64,
    pub msg_seq: u32,
    pub msg_len: u32,
    pub data: Seq<u8>,
}

impl View for DataPacket {
    type V = DataPacketView;

    open spec fn view(&self) -> DataPacketView {
        DataPacketView {
            channel: self.channel.0,
            epoch: self.epoch,
            msg_id: self.msg_id,
            msg_seq: self.msg_seq,
            msg_len: self.msg_len,
            data: self.data@,
        }
    }
}

/// A datagram of the protocol.
#[derive(Debug)]
pub enum WirePacket {
    Data(DataPacket),
}

pub enum WirePacketView {
    Data(DataPacketView),
}

impl View for WirePacket {
    type V = WirePacketView;

    open spec fn view(&self) -> WirePacketView {
        match self {
            WirePacket::Data(p) => WirePacketView::Data(p@),
        }
    }
}

/// The bytes of a data packet: channel, epoch, message id, sequence number and
/// message length in big-endian order, then the payload.
pub open spec fn data_packet_bytes(p: DataPacketView) -> Seq<u8> {
    be_u64_bytes(p.channel) + be_u64_bytes(p.epoch) + be_u64_bytes(p.msg_id) + be_u32_bytes(
        p.msg_seq,
    ) + be_u32_bytes(p.msg_len) + p.data
}

/// The bytes of a datagram: a type byte (0 for data) and the packet's bytes.
pub open spec fn wire_packet_bytes(p: WirePacketView) -> Seq<u8> {
    match p {
        WirePacketView::Data(d) => seq![0u8] + data_packet_bytes(d),
    }
}

/// The data packet that the bytes `b` hold, if they hold a whole header.
pub open spec fn parse_data_packet(b: Seq<u8>) -> Option<DataPacketView> {
    if b.len() < 32 {
        None
    } else {
        Some(
            DataPacketView {
                channel: be_u64_value(b),
                epoch: be_u64_value(b.subrange(8, 16)),
                msg_id: be_u64_value(b.subrange(16, 24)),
                msg_seq: be_u32_value(b.subrange(24, 28)),
                msg_len: be_u32_value(b.subrange(28, 32)),
                data: b.subrange(32, b.len() as int),
            },
        )
    }
}

/// The datagram that the bytes `b` hold, or why they hold none.
pub open spec fn parse_wire_packet(b: Seq<u8>) -> Result<WirePacketView, DecodeError> {
    if b.len() == 0 {
        Err(DecodeError::UnexpectedEof)
    } else if b[0] != 0 {
        Err(DecodeError::UnrecognizedPacketType)
    } else {
        match parse_data_packet(b.drop_first()) {
            Some(d) => Ok(WirePacketView::Data(d)),
            None => Err(DecodeError::UnexpectedEof),
        }
    }
}

impl DataPacket {
    /// Reads a data packet from the bytes of a datagram after its type byte.
    pub fn decode(buf: &[u8]) -> (r: Result<DataPacket, DecodeError>)
        ensures
            match parse_data_packet(buf@) {
                Some(v) => r matches Ok(p) && p@ == v,
                None => r matches Err(e) && e == DecodeError::UnexpectedEof,
            },
    {
        if buf.len() < DATA_HEADER_LEN {
            return Err(DecodeError::UnexpectedEof);
        }
        let channel = ChannelID(read_be_u64(buf));
        let epoch = read_be_u64(&buf[8..16]);
        let msg_id = read_be_u64(&buf[16..24]);
        let msg_seq = read_be_u32(&buf[24..28]);
        let msg_len = read_be_u32(&buf[28..32]);
        let data = slice_to_vec(&buf[32..buf.len()]);
        Ok(DataPacket { channel, epoch, msg_id, msg_seq, msg_len, data })
    }

    /// Appends the bytes of this packet to `buf`.
    pub fn encode(self, buf: &mut Vec<u8>)
        ensures
            final(buf)@ == old(buf)@ + data_packet_bytes(self@),
    {
        let ghost start = buf@;
        write_be_u64(buf, self.channel.0);
        write_be_u64(buf, self.epoch);
        write_be_u64(buf, self.msg_id);
        write_be_u32(buf, self.msg_seq);
        write_be_u32(buf, self.msg_len);
        buf.extend_from_slice(self.data.as_slice());
        assert(buf@ =~= start + data_packet_bytes(self@));
    }
}

impl WirePacket {
    /// Reads a datagram.
    pub fn decode(buf: &[u8]) -> (r: Result<WirePacket, DecodeError>)
        ensures
            match parse_wire_packet(buf@) {
                Ok(v) => r matches Ok(p) && p@ == v,
                Err(e) => r matches Err(f) && f == e,
            },
    {
        if buf.len() == 0 {
            return Err(DecodeError::UnexpectedEof);
        }
        if buf[0] != 0 {
            return Err(DecodeError::UnrecognizedPacketType);
        }
        let rest = &buf[1..buf.len()];
        assert(rest@ =~= buf@.drop_first());
        match DataPacket::decode(rest) {
            Ok(p) => Ok(WirePacket::Data(p)),
            Err(e) => Err(e),
        }
    }

    /// Appends the bytes of this datagram to `buf`.
    pub fn encode(self, buf: &mut Vec<u8>)
        ensures
            final(buf)@ == old(buf)@ + wire_packet_bytes(self@),
    {
        let ghost start = buf@;
        match self {
            WirePacket::Data(packet) => {
                buf.push(0);
                packet.encode(buf);
                assert(buf@ =~= start + wire_packet_bytes(self@));
            },
        }
    }
}

/// The layout of a datagram: a zero type byte; then, read big-endian, the
/// channel (bytes 1 to 8), the epoch (9 to 16), the message id (17 to 24),
/// the piece's number (25 to 28) and the message's number of pieces (29 to
/// 32); then the payload.
pub proof fn law_datagram_layout(p: WirePacketView)
    ensures
        ({
            let b = wire_packet_bytes(p);
            let d = wire_data(p);
            &&& b.len() == 33 + d.data.len()
            &&& b[0] == 0
            &&& be_u64_value(b.subrange(1, 9)) == d.channel
            &&& be_u64_value(b.subrange(9, 17)) == d.epoch
            &&& be_u64_value(b.subrange(17, 25)) == d.msg_id
            &&& be_u32_value(b.subrange(25, 29)) == d.msg_seq
            &&& be_u32_value(b.subrange(29, 33)) == d.msg_len
            &&& b.subrange(33, b.len() as int) == d.data
        }),
{
    let b = wire_packet_bytes(p);
    let d = wire_data(p);
    lemma_be_u64(d.channel, b);
    lemma_be_u64(d.epoch, b);
    lemma_be_u64(d.msg_id, b);
    lemma_be_u32(d.msg_seq, b);
    lemma_be_u32(d.msg_len, b);
    assert(b.subrange(1, 9) =~= be_u64_bytes(d.channel));
    assert(b.subrange(9, 17) =~= be_u64_bytes(d.epoch));
    assert(b.subrange(17, 25) =~= be_u64_bytes(d.msg_id));
    assert(b.subrange(25, 29) =~= be_u32_bytes(d.msg_seq));
    assert(b.subrange(29, 33) =~= be_u32_bytes(d.msg_len));
    assert(b.subrange(33, b.len() as int) =~= d.data);
}

/// Decoding the bytes of a datagram gives that datagram back.
pub proof fn law_decode_encode(p: WirePacketView)
    ensures
        parse_wire_packet(wire_packet_bytes(p)) == Ok::<WirePacketView, DecodeError>(p),
{
    let WirePacketView::Data(d) = p;
    let b = wire_packet_bytes(p);
    let body = data_packet_bytes(d);
    lemma_be_u64(d.channel, body.subrange(0, 8));
    lemma_be_u64(d.epoch, body.subrange(8, 16));
    lemma_be_u64(d.msg_id, body.subrange(16, 24));
    lemma_be_u32(d.msg_seq, body.subrange(24, 28));
    lemma_be_u32(d.msg_len, body.subrange(28, 32));
    assert(b.drop_first() =~= body);
    assert(body.subrange(0, 8) =~= be_u64_bytes(d.channel));
    assert(body.subrange(8, 16) =~= be_u64_bytes(d.epoch));
    assert(body.subrange(16, 24) =~= be_u64_bytes(d.msg_id));
    assert(body.subrange(24, 28) =~= be_u32_bytes(d.msg_seq));
    assert(body.subrange(28, 32) =~= be_u32_bytes(d.msg_len));
    assert(body.subrange(32, body.len() as int) =~= d.data);
    assert(be_u64_value(body) == be_u64_value(body.subrange(0, 8)));
}

/// Encoding a decoded datagram gives the bytes it was decoded from.
pub proof fn law_encode_decode(b: Seq<u8>)
    ensures
        parse_wire_packet(b) matches Ok(p) ==> wire_packet_bytes(p) == b,
{
    if let Ok(p) = parse_wire_packet(b) {
        let body = b.drop_first();
        lemma_be_u64(0, body.subrange(0, 8));
        lemma_be_u64(0, body.subrange(8, 16));
        lemma_be_u64(0, body.subrange(16, 24));
        lemma_be_u32(0, body.subrange(24, 28));
        lemma_be_u32(0, body.subrange(28, 32));
        assert(be_u64_value(body) == be_u64_value(body.subrange(0, 8)));
        assert(data_packet_bytes(p->Data_0) =~= body);
        assert(wire_packet_bytes(p) =~= b);
    }
}


/// A whole message, before splitting or after reassembly.
#[derive(Debug)]
pub struct AssembledDataPacket {
    pub channel: ChannelID,
    pub epoch: Epoch,
    pub msg_id: MessageId,
    pub data: Vec<u8>,
}

/// The contents of a whole message.
pub struct AssembledDataPacketView {
    pub channel: u64,
    pub epoch: u64,
    pub msg_id: u64,
    pub data: Seq<u8>,
}

impl View for AssembledDataPacket {
    type V = AssembledDataPacketView;

    open spec fn view(&self) -> AssembledDataPacketView {
        AssembledDataPacketView {
            channel: self.channel.0,
            epoch: self.epoch,
            msg_id: self.msg_id,
            data: self.data@,
        }
    }
}

impl AssembledDataPacket {
    /// A message on `channel` in `epoch`; every such message has id 42.
    pub fn new(data: Vec<u8>, channel: ChannelID, epoch: Epoch) -> (p: Self)
        ensures
            p@ == (AssembledDataPacketView {
                channel: channel.0,
                epoch,
                msg_id: 42,
                data: data@,
            }),
    {
        AssembledDataPacket { channel, epoch, msg_id: 42, data }
    }
}

#[derive(Debug)]
pub enum AssembledPacket {
    Data(AssembledDataPacket),
}

pub enum AssembledPacketView {
    Data(AssembledDataPacketView),
}

impl View for AssembledPacket {
    type V = AssembledPacketView;

    open spec fn view(&self) -> AssembledPacketView {
        match self {
            AssembledPacket::Data(p) => AssembledPacketView::Data(p@),
        }
    }
}

/// The number of pieces of at most `mtu` bytes that `len` bytes fall into.
pub open spec fn num_chunks(len: nat, mtu: nat) -> nat {
    len / mtu + if len % mtu > 0 { 1nat } else { 0nat }
}

/// The `i`-th piece of at most `mtu` bytes of `data`.
pub open spec fn chunk(data: Seq<u8>, mtu: nat, i: int) -> Seq<u8> {
    let end = if (i + 1) * mtu <= data.len() { (i + 1) * mtu } else { data.len() as int };
    data.subrange(i * mtu, end)
}

/// The datagrams that a message is split into: one per piece of at most
/// `DATA_MTU` bytes, numbered from 0, each carrying the number of pieces.
pub open spec fn split_message(p: AssembledDataPacketView) -> Seq<WirePacketView> {
    let n = num_chunks(p.data.len(), DATA_MTU as nat);
    Seq::new(
        n,
        |i: int|
            WirePacketView::Data(
                DataPacketView {
                    channel: p.channel,
                    epoch: p.epoch,
                    msg_id: p.msg_id,
                    msg_len: n as u32,
                    msg_seq: i as u32,
                    data: chunk(p.data, DATA_MTU as nat, i),
                },
            ),
    )
}

#[derive(Debug)]
struct DataPacketSplitter {
    mtu: usize,
}

impl DataPacketSplitter {
    #[verifier::type_invariant]
    spec fn mtu_fixed(self) -> bool {
        self.mtu == DATA_MTU
    }

    fn new() -> Self {
        Self { mtu: DATA_MTU }
    }

    fn split(&mut self, packet: AssembledDataPacket) -> (out: Vec<WirePacket>)
        ensures
            out@.map_values(|w: WirePacket| w@) == split_message(packet@),
    {
        proof {
            use_type_invariant(&*self);
        }
        let mtu = self.mtu;
        let len = packet.data.len();
        let msg_len = (len / mtu + if len % mtu > 0 {
            1
        } else {
            0
        }) as u32;
        let ghost n = num_chunks(len as nat, mtu as nat);
        let ghost target = split_message(packet@);
        let mut out: Vec<WirePacket> = Vec::new();
        let mut i: usize = 0;
        let mut start: usize = 0;
        while start < len
            invariant
                mtu == DATA_MTU,
                len == packet.data@.len(),
                n == num_chunks(len as nat, mtu as nat),
                msg_len == n as u32,
                target == split_message(packet@),
                target.len() == n,
                start == if i * mtu <= len { i * mtu } else { len as int },
                i > 0 ==> (i - 1) * mtu < len,
                i <= n,
                out@.len() == i,
                forall|j: int| 0 <= j < i ==> #[trigger] out@[j]@ == target[j],
            decreases len - start,
        {
            let end = if len - start > mtu {
                start + mtu
            } else {
                len
            };
            let piece = slice_to_vec(&packet.data.as_slice()[start..end]);
            proof {
                assert(i < n);
            }
            let p = WirePacket::Data(
                DataPacket {
                    channel: packet.channel,
                    epoch: packet.epoch,
                    msg_id: packet.msg_id,
                    msg_len,
                    msg_seq: i as u32,
                    data: piece,
                },
            );
            out.push(p);
            proof {
                assert(piece@ =~= chunk(packet.data@, mtu as nat, i as int));
            }
            i = i + 1;
            start = end;
        }
        proof {
            assert(i == n);
            assert(out@.map_values(|w: WirePacket| w@) =~= target);
        }
        out
    }
}

/// Splits messages into datagrams.
#[derive(Debug)]
pub struct PacketSpliter {
    data_packet_splitter: DataPacketSplitter,
}

impl PacketSpliter {
    pub fn new() -> Self {
        Self { data_packet_splitter: DataPacketSplitter::new() }
    }

    /// The datagrams that carry `packet`, in order.
    pub fn split(&mut self, packet: AssembledPacket) -> (out: Vec<WirePacket>)
        ensures
            match packet@ {
                AssembledPacketView::Data(p) => out@.map_values(|w: WirePacket| w@)
                    == split_message(p),
            },
    {
        match packet {
            AssembledPacket::Data(packet) => self.data_packet_splitter.split(packet),
        }
    }
}


/// The view of a piece slot of an assembly.
pub open spec fn piece_view(o: Option<DataPacket>) -> Option<DataPacketView> {
    match o {
        Some(p) => Some(p@),
        None => None,
    }
}

/// The number of filled slots.
pub open spec fn count_some(s: Seq<Option<DataPacketView>>) -> nat
    decreases s.len(),
{
    if s.len() == 0 {
        0
    } else {
        count_some(s.drop_last()) + if s.last() is Some {
            1nat
        } else {
            0nat
        }
    }
}

/// The payloads of the filled slots, in slot order.
pub open spec fn concat_data(s: Seq<Option<DataPacketView>>) -> Seq<u8>
    decreases s.len(),
{
    if s.len() == 0 {
        Seq::empty()
    } else {
        concat_data(s.drop_last()) + match s.last() {
            Some(p) => p.data,
            None => Seq::empty(),
        }
    }
}

/// The pieces of one message received so far.
pub struct AssemblyView {
    pub msg_len: u32,
    pub count: u32,
    pub pieces: Seq<Option<DataPacketView>>,
}

/// An assembly has one slot per piece of the message.
pub open spec fn assembly_wf(a: AssemblyView) -> bool {
    &&& a.pieces.len() == a.msg_len
    &&& a.count <= a.msg_len
}

/// An assembly for a message of `msg_len` pieces before any has arrived.
pub open spec fn fresh_assembly(msg_len: u32) -> AssemblyView {
    AssemblyView {
        msg_len,
        count: 0,
        pieces: Seq::new(msg_len as nat, |i: int| None::<DataPacketView>),
    }
}

/// Adding a piece to an assembly: a piece whose message length differs is
/// ignored; otherwise it fills its slot (replacing a duplicate), and when every
/// slot is filled the message is the payloads in order and the slots are
/// emptied.
pub open spec fn assembly_add(a: AssemblyView, p: DataPacketView) -> (
    AssemblyView,
    Option<AssembledDataPacketView>,
) {
    if a.msg_len != p.msg_len {
        (a, None)
    } else {
        let pieces = a.pieces.update(p.msg_seq as int, Some(p));
        let c = count_some(pieces);
        if c == a.msg_len {
            (
                AssemblyView {
                    msg_len: a.msg_len,
                    count: c as u32,
                    pieces: Seq::new(a.msg_len as nat, |i: int| None::<DataPacketView>),
                },
                Some(
                    AssembledDataPacketView {
                        channel: p.channel,
                        epoch: p.epoch,
                        msg_id: p.msg_id,
                        data: concat_data(pieces),
                    },
                ),
            )
        } else {
            (AssemblyView { msg_len: a.msg_len, count: c as u32, pieces }, None)
        }
    }
}

/// Adding `p` to `a` stays within the slots and the counter.
pub open spec fn assembly_accepts(a: AssemblyView, p: DataPacketView) -> bool {
    a.msg_len != p.msg_len || (p.msg_seq < p.msg_len && !(a.pieces[p.msg_seq as int] is None
        && a.count == u32::MAX))
}

pub proof fn lemma_count_some_bound(s: Seq<Option<DataPacketView>>)
    ensures
        count_some(s) <= s.len(),
    decreases s.len(),
{
    if s.len() > 0 {
        lemma_count_some_bound(s.drop_last());
    }
}

#[derive(Debug)]
struct DataPacketAssembly {
    pub msg_len: u32,
    pub count: u32,
    pieces: Vec<Option<DataPacket>>,
}

impl View for DataPacketAssembly {
    type V = AssemblyView;

    closed spec fn view(&self) -> AssemblyView {
        AssemblyView {
            msg_len: self.msg_len,
            count: self.count,
            pieces: self.pieces@.map_values(|o: Option<DataPacket>| piece_view(o)),
        }
    }
}

fn empty_slots(n: u32) -> (v: Vec<Option<DataPacket>>)
    ensures
        v@.len() == n,
        forall|i: int| 0 <= i < n ==> v@[i] is None,
{
    let mut v: Vec<Option<DataPacket>> = Vec::new();
    let mut i: u32 = 0;
    while i < n
        invariant
            i <= n,
            v@.len() == i,
            forall|j: int| 0 <= j < i ==> v@[j] is None,
        decreases n - i,
    {
        v.push(None);
        i = i + 1;
    }
    v
}

impl DataPacketAssembly {
    fn new(msg_len: u32) -> (a: Self)
        ensures
            a@ == fresh_assembly(msg_len),
    {
        let pieces = empty_slots(msg_len);
        let a = DataPacketAssembly { msg_len, count: 0, pieces };
        assert(a@.pieces =~= fresh_assembly(msg_len).pieces);
        a
    }

    fn add(&mut self, packet: DataPacket) -> (r: Option<AssembledDataPacket>)
        requires
            assembly_wf(old(self)@),
            assembly_accepts(old(self)@, packet@),
        ensures
            assembly_wf(final(self)@),
            (final(self)@, match r {
                Some(m) => Some(m@),
                None => None,
            }) == assembly_add(old(self)@, packet@),
    {
        let ghost p = packet@;
        let ghost a = self@;
        if self.msg_len != packet.msg_len {
            return None;
        }
        let seq = packet.msg_seq as usize;
        let channel = packet.channel;
        let epoch = packet.epoch;
        let msg_id = packet.msg_id;
        let was_empty = self.pieces[seq].is_none();
        self.pieces.set(seq, Some(packet));
        if was_empty {
            self.count = self.count + 1;
        }
        let ghost pieces = a.pieces.update(p.msg_seq as int, Some(p));
        assert(self@.pieces =~= pieces);
        let n = self.pieces.len();
        let mut c: u32 = 0;
        let mut i: usize = 0;
        while i < n
            invariant
                n == self.pieces@.len(),
                n == self.msg_len,
                i <= n,
                self@.pieces == pieces,
                c == count_some(pieces.take(i as int)),
                c <= i,
            decreases n - i,
        {
            proof {
                assert(pieces.take(i as int + 1).drop_last() =~= pieces.take(i as int));
            }
            if self.pieces[i].is_some() {
                c = c + 1;
            }
            i = i + 1;
        }
        proof {
            assert(pieces.take(n as int) =~= pieces);
            lemma_count_some_bound(pieces);
        }
        self.count = c;
        if self.count == self.msg_len {
            let mut out: Vec<u8> = Vec::new();
            let mut j: usize = 0;
            while j < n
                invariant
                    n == self.pieces@.len(),
                    j <= n,
                    self@.pieces == pieces,
                    out@ == concat_data(pieces.take(j as int)),
                decreases n - j,
            {
                proof {
                    assert(pieces.take(j as int + 1).drop_last() =~= pieces.take(j as int));
                }
                match &self.pieces[j] {
                    Some(piece) => {
                        out.extend_from_slice(piece.data.as_slice());
                    },
                    None => {},
                }
                j = j + 1;
            }
            proof {
                assert(pieces.take(n as int) =~= pieces);
            }
            self.pieces = empty_slots(self.msg_len);
            assert(self@.pieces =~= Seq::new(self.msg_len as nat, |i: int| None::<DataPacketView>));
            Some(AssembledDataPacket { channel, epoch, msg_id, data: out })
        } else {
            None
        }
    }
}


/// The assemblies of every message under way, keyed by channel, epoch and
/// message id.
pub type AssemblyKey = (u64, u64, u64);

type EpochTable = HashMap<u64, BTreeMap<u64, DataPacketAssembly>>;

/// The assembly table after `p` arrives, and the message it completes if any.
pub open spec fn assemble_step(m: Map<AssemblyKey, AssemblyView>, p: DataPacketView) -> (
    Map<AssemblyKey, AssemblyView>,
    Option<AssembledDataPacketView>,
) {
    let key = (p.channel, p.epoch, p.msg_id);
    let a = if m.contains_key(key) {
        m[key]
    } else {
        fresh_assembly(p.msg_len)
    };
    let (a2, r) = assembly_add(a, p);
    (m.insert(key, a2), r)
}

/// `p` stays within the slots and counter of the assembly it goes to.
pub open spec fn assemble_accepts(m: Map<AssemblyKey, AssemblyView>, p: DataPacketView) -> bool {
    let key = (p.channel, p.epoch, p.msg_id);
    let a = if m.contains_key(key) {
        m[key]
    } else {
        fresh_assembly(p.msg_len)
    };
    assembly_accepts(a, p)
}

/// Every assembly of the table has one slot per piece.
pub open spec fn table_wf(m: Map<AssemblyKey, AssemblyView>) -> bool {
    forall|k: AssemblyKey| #[trigger] m.contains_key(k) ==> assembly_wf(m[k])
}

/// Collects the pieces of messages until each is whole.
#[derive(Debug)]
pub struct PacketAssembler {
    data_cache: HashMap<u64, EpochTable>,
}

spec fn holds(c: Map<u64, EpochTable>, k: AssemblyKey) -> bool {
    &&& c.contains_key(k.0)
    &&& c[k.0]@.contains_key(k.1)
    &&& c[k.0]@[k.1]@.contains_key(k.2)
}

impl View for PacketAssembler {
    type V = Map<AssemblyKey, AssemblyView>;

    closed spec fn view(&self) -> Map<AssemblyKey, AssemblyView> {
        Map::new(
            |k: AssemblyKey| holds(self.data_cache@, k),
            |k: AssemblyKey| self.data_cache@[k.0]@[k.1]@[k.2]@,
        )
    }
}

impl PacketAssembler {
    /// The assemblies are well formed.
    pub closed spec fn wf(&self) -> bool {
        table_wf(self@)
    }

    pub fn new() -> (a: Self)
        ensures
            a@ == Map::<AssemblyKey, AssemblyView>::empty(),
            a.wf(),
    {
        broadcast use vstd::std_specs::hash::group_hash_axioms;

        let a = Self { data_cache: HashMap::new() };
        assert(a@ =~= Map::<AssemblyKey, AssemblyView>::empty());
        a
    }

    /// Whether `packet` stays within the slots and counter of its assembly,
    /// the condition under which `assemble` takes it.
    pub fn accepts(&self, packet: &WirePacket) -> (r: bool)
        requires
            self.wf(),
        ensures
            match packet@ {
                WirePacketView::Data(p) => r == assemble_accepts(self@, p),
            },
    {
        broadcast use vstd::std_specs::hash::group_hash_axioms;
        broadcast use vstd::std_specs::btree::group_btree_axioms;

        let WirePacket::Data(p) = packet;
        let ghost key = (p.channel.0, p.epoch, p.msg_id);
        let existing: Option<&DataPacketAssembly> = match self.data_cache.get(&p.channel.0) {
            Some(by_epoch) => match by_epoch.get(&p.epoch) {
                Some(by_id) => by_id.get(&p.msg_id),
                None => None,
            },
            None => None,
        };
        match existing {
            Some(a) => {
                assert(self@.contains_key(key));
                assert(self@[key] == a@);
                assert(assembly_wf(a@));
                if a.msg_len != p.msg_len {
                    true
                } else if p.msg_seq >= p.msg_len {
                    false
                } else {
                    proof {
                        assert(a@.pieces[p.msg_seq as int] == piece_view(
                            a.pieces@[p.msg_seq as int],
                        ));
                    }
                    !(a.pieces[p.msg_seq as usize].is_none() && a.count == u32::MAX)
                }
            },
            None => {
                assert(!self@.contains_key(key));
                p.msg_seq < p.msg_len
            },
        }
    }

    /// Adds a datagram to the assembly of its message, and returns the message
    /// if that datagram completes it.
    pub fn assemble(&mut self, packet: WirePacket) -> (r: Option<AssembledPacket>)
        requires
            old(self).wf(),
            match packet@ {
                WirePacketView::Data(p) => assemble_accepts(old(self)@, p),
            },
        ensures
            final(self).wf(),
            match packet@ {
                WirePacketView::Data(p) => (final(self)@, match r {
                    Some(AssembledPacket::Data(m)) => Some(m@),
                    None => None,
                }) == assemble_step(old(self)@, p),
            },
    {
        broadcast use vstd::std_specs::hash::group_hash_axioms;
        broadcast use vstd::std_specs::btree::group_btree_axioms;

        let ghost old_view = self@;
        let ghost old_cache = self.data_cache@;
        match packet {
            WirePacket::Data(packet) => {
                let ghost p = packet@;
                let ch = packet.channel.0;
                let ep = packet.epoch;
                let id = packet.msg_id;
                let ghost key = (ch, ep, id);
                let mut by_epoch: EpochTable = match self.data_cache.remove(&ch) {
                    Some(m) => m,
                    None => HashMap::new(),
                };
                let ghost e0 = by_epoch@;
                let mut by_id: BTreeMap<u64, DataPacketAssembly> = match by_epoch.remove(&ep) {
                    Some(m) => m,
                    None => BTreeMap::new(),
                };
                let ghost i0 = by_id@;
                let mut assembly = match by_id.remove(&id) {
                    Some(a) => a,
                    None => DataPacketAssembly::new(packet.msg_len),
                };
                assert(assembly@ == if old_view.contains_key(key) {
                    old_view[key]
                } else {
                    fresh_assembly(p.msg_len)
                });
                let r = assembly.add(packet);
                by_id.insert(id, assembly);
                by_epoch.insert(ep, by_id);
                self.data_cache.insert(ch, by_epoch);
                let ghost (a2, rr) = assembly_add(
                    if old_view.contains_key(key) {
                        old_view[key]
                    } else {
                        fresh_assembly(p.msg_len)
                    },
                    p,
                );
                assert forall|k: AssemblyKey| #[trigger]
                    holds(self.data_cache@, k) == old_view.insert(key, a2).contains_key(k) by {
                    if k.0 == ch && k.1 == ep && k.2 != id {
                        assert(holds(old_cache, k) == i0.contains_key(k.2));
                    }
                    if k.0 == ch && k.1 != ep {
                        assert(holds(old_cache, k) == (e0.contains_key(k.1) && e0[k.1]@.contains_key(k.2)));
                    }
                }
                assert(self@ =~= old_view.insert(key, a2));
                match r {
                    Some(m) => Some(AssembledPacket::Data(m)),
                    None => None,
                }
            },
        }
    }
}


/// Feeding the datagrams `ps` in order to an assembly table: the final table
/// and what each datagram returned.
pub open spec fn assemble_all(m: Map<AssemblyKey, AssemblyView>, ps: Seq<WirePacketView>) -> (
    Map<AssemblyKey, AssemblyView>,
    Seq<Option<AssembledDataPacketView>>,
)
    decreases ps.len(),
{
    if ps.len() == 0 {
        (m, Seq::empty())
    } else {
        let (m1, rs) = assemble_all(m, ps.drop_last());
        match ps.last() {
            WirePacketView::Data(p) => {
                let (m2, r) = assemble_step(m1, p);
                (m2, rs.push(r))
            },
        }
    }
}

proof fn lemma_num_chunks(len: nat)
    requires
        len > 0,
    ensures
        num_chunks(len, DATA_MTU as nat) >= 1,
        num_chunks(len, DATA_MTU as nat) * 200 >= len,
        (num_chunks(len, DATA_MTU as nat) - 1) * 200 < len,
{
    let n = num_chunks(len, DATA_MTU as nat);
    assert(len == (len / 200) * 200 + len % 200);
}

proof fn lemma_count_prefix(s: Seq<Option<DataPacketView>>, k: nat)
    requires
        k <= s.len(),
        forall|i: int| 0 <= i < s.len() ==> (s[i] is Some <==> i < k),
    ensures
        count_some(s) == k,
    decreases s.len(),
{
    if s.len() > 0 {
        if k == s.len() {
            lemma_count_prefix(s.drop_last(), (k - 1) as nat);
        } else {
            lemma_count_prefix(s.drop_last(), k);
        }
    }
}

/// The payload carried by datagram `i` of a split message.
pub open spec fn piece_of(msg: AssembledDataPacketView, i: int) -> DataPacketView {
    match split_message(msg)[i] {
        WirePacketView::Data(d) => d,
    }
}

/// The assembly of a split message after its first `k` datagrams arrived.
spec fn partial_assembly(msg: AssembledDataPacketView, k: nat) -> AssemblyView {
    let n = num_chunks(msg.data.len(), DATA_MTU as nat);
    AssemblyView {
        msg_len: n as u32,
        count: k as u32,
        pieces: Seq::new(
            n,
            |i: int|
                if i < k {
                    Some(piece_of(msg, i))
                } else {
                    None
                },
        ),
    }
}

proof fn lemma_concat_chunks(msg: AssembledDataPacketView, k: nat)
    requires
        msg.data.len() > 0,
        k <= num_chunks(msg.data.len(), DATA_MTU as nat),
    ensures
        concat_data(Seq::new(k, |i: int| Some(piece_of(msg, i)))) == msg.data.subrange(
            0,
            if k * 200 <= msg.data.len() {
                (k * 200) as int
            } else {
                msg.data.len() as int
            },
        ),
    decreases k,
{
    lemma_num_chunks(msg.data.len());
    let s = Seq::new(k, |i: int| Some(piece_of(msg, i)));
    if k == 0 {
        assert(msg.data.subrange(0, 0) =~= Seq::<u8>::empty());
    } else {
        lemma_concat_chunks(msg, (k - 1) as nat);
        assert(s.drop_last() =~= Seq::new((k - 1) as nat, |i: int| Some(piece_of(msg, i))));
        assert((k - 1) * 200 < msg.data.len()) by {
            assert((k - 1) * 200 <= (num_chunks(msg.data.len(), DATA_MTU as nat) - 1) * 200);
        }
        let lo = (k - 1) * 200;
        let hi = if k * 200 <= msg.data.len() {
            (k * 200) as int
        } else {
            msg.data.len() as int
        };
        assert(piece_of(msg, k - 1).data == msg.data.subrange(lo, hi));
        assert(msg.data.subrange(0, lo) + msg.data.subrange(lo, hi) =~= msg.data.subrange(0, hi));
    }
}

proof fn lemma_split_prefix(m: Map<AssemblyKey, AssemblyView>, msg: AssembledDataPacketView, k: nat)
    requires
        !m.contains_key((msg.channel, msg.epoch, msg.msg_id)),
        msg.data.len() > 0,
        num_chunks(msg.data.len(), DATA_MTU as nat) <= u32::MAX,
        k < num_chunks(msg.data.len(), DATA_MTU as nat),
    ensures
        ({
            let key = (msg.channel, msg.epoch, msg.msg_id);
            let st = assemble_all(m, split_message(msg).take(k as int));
            &&& (if st.0.contains_key(key) {
                st.0[key]
            } else {
                fresh_assembly(num_chunks(msg.data.len(), DATA_MTU as nat) as u32)
            }) == partial_assembly(msg, k)
            &&& st.1 == Seq::new(k, |i: int| None::<AssembledDataPacketView>)
        }),
    decreases k,
{
    let n = num_chunks(msg.data.len(), DATA_MTU as nat);
    let key = (msg.channel, msg.epoch, msg.msg_id);
    let ps = split_message(msg);
    if k == 0 {
        assert(ps.take(0) =~= Seq::<WirePacketView>::empty());
        assert(fresh_assembly(n as u32).pieces =~= partial_assembly(msg, 0).pieces);
        assert(Seq::<Option<AssembledDataPacketView>>::empty() =~= Seq::new(
            0,
            |i: int| None::<AssembledDataPacketView>,
        ));
    } else {
        let j = (k - 1) as nat;
        lemma_split_prefix(m, msg, j);
        assert(ps.take(k as int).drop_last() =~= ps.take(j as int));
        assert(ps.take(k as int).last() == ps[j as int]);
        let prev = assemble_all(m, ps.take(j as int));
        let a = partial_assembly(msg, j);
        let p = piece_of(msg, j as int);
        let pieces = a.pieces.update(p.msg_seq as int, Some(p));
        assert(pieces =~= partial_assembly(msg, k).pieces);
        lemma_count_prefix(pieces, k);
        assert(prev.1.push(None) =~= Seq::new(k, |i: int| None::<AssembledDataPacketView>));
    }
}

/// Splitting a message and feeding its datagrams in order to an assembly
/// table that holds nothing for that message: every datagram is accepted,
/// each but the last returns nothing, and the last returns the message.
pub proof fn law_split_then_assemble(m: Map<AssemblyKey, AssemblyView>, msg: AssembledDataPacketView)
    requires
        !m.contains_key((msg.channel, msg.epoch, msg.msg_id)),
        msg.data.len() > 0,
        num_chunks(msg.data.len(), DATA_MTU as nat) <= u32::MAX,
    ensures
        ({
            let ps = split_message(msg);
            let (m2, rs) = assemble_all(m, ps);
            &&& rs.len() == ps.len()
            &&& forall|i: int| 0 <= i < ps.len() - 1 ==> #[trigger] rs[i] is None
            &&& rs[ps.len() - 1] == Some(msg)
            &&& forall|i: int|
                0 <= i < ps.len() ==> assemble_accepts(
                    #[trigger] assemble_all(m, ps.take(i)).0,
                    piece_of(msg, i),
                )
        }),
{
    let n = num_chunks(msg.data.len(), DATA_MTU as nat);
    let key = (msg.channel, msg.epoch, msg.msg_id);
    let ps = split_message(msg);
    lemma_num_chunks(msg.data.len());
    assert forall|i: int| 0 <= i < ps.len() implies assemble_accepts(
        #[trigger] assemble_all(m, ps.take(i)).0,
        piece_of(msg, i),
    ) by {
        lemma_split_prefix(m, msg, i as nat);
    }
    let j = (n - 1) as nat;
    lemma_split_prefix(m, msg, j);
    assert(ps.take(n as int) =~= ps);
    assert(ps.take(n as int).drop_last() =~= ps.take(j as int));
    let a = partial_assembly(msg, j);
    let p = piece_of(msg, j as int);
    let pieces = a.pieces.update(p.msg_seq as int, Some(p));
    assert(pieces =~= Seq::new(n, |i: int| Some(piece_of(msg, i))));
    lemma_count_prefix(pieces, n);
    lemma_concat_chunks(msg, n);
    assert(msg.data.subrange(0, msg.data.len() as int) =~= msg.data);
}


/// The message a piece belongs to.
pub open spec fn packet_key(p: DataPacketView) -> AssemblyKey {
    (p.channel, p.epoch, p.msg_id)
}

/// The message a datagram belongs to.
pub open spec fn wire_key(w: WirePacketView) -> AssemblyKey {
    match w {
        WirePacketView::Data(d) => packet_key(d),
    }
}

/// The piece a datagram carries.
pub open spec fn wire_data(w: WirePacketView) -> DataPacketView {
    match w {
        WirePacketView::Data(d) => d,
    }
}

proof fn lemma_resent_step(m: Map<AssemblyKey, AssemblyView>, p1: DataPacketView, p2: DataPacketView)
    requires
        table_wf(m),
        packet_key(p1) == packet_key(p2),
        p1.msg_len == p2.msg_len,
        p1.msg_seq == p2.msg_seq,
        p1.msg_seq < p1.msg_len,
        assemble_step(m, p1).1 is None,
    ensures
        assemble_step(assemble_step(m, p1).0, p2) == assemble_step(m, p2),
{
    let key = packet_key(p1);
    let a = if m.contains_key(key) {
        m[key]
    } else {
        fresh_assembly(p1.msg_len)
    };
    let a1 = assembly_add(a, p1).0;
    let m1 = assemble_step(m, p1).0;
    assert(assembly_wf(a));
    assert(m1.contains_key(key) && m1[key] == a1);
    if a.msg_len == p1.msg_len {
        assert(a1.pieces.update(p2.msg_seq as int, Some(p2)) =~= a.pieces.update(
            p2.msg_seq as int,
            Some(p2),
        ));
    }
    assert(assembly_add(a1, p2) == assembly_add(a, p2));
    assert(m1.insert(key, assembly_add(a, p2).0) =~= m.insert(key, assembly_add(a, p2).0));
}

proof fn lemma_assemble_all_concat(
    m: Map<AssemblyKey, AssemblyView>,
    a: Seq<WirePacketView>,
    b: Seq<WirePacketView>,
)
    ensures
        ({
            let (m1, r1) = assemble_all(m, a);
            let (m2, r2) = assemble_all(m1, b);
            assemble_all(m, a + b) == (m2, r1 + r2)
        }),
    decreases b.len(),
{
    let (m1, r1) = assemble_all(m, a);
    if b.len() == 0 {
        assert(a + b =~= a);
        assert(r1 + Seq::<Option<AssembledDataPacketView>>::empty() =~= r1);
    } else {
        lemma_assemble_all_concat(m, a, b.drop_last());
        assert((a + b).drop_last() =~= a + b.drop_last());
        assert((a + b).last() == b.last());
        let r2 = assemble_all(m1, b.drop_last()).1;
        let m2 = assemble_all(m1, b.drop_last()).0;
        let WirePacketView::Data(p) = b.last();
        assert((r1 + r2).push(assemble_step(m2, p).1) =~= r1 + r2.push(assemble_step(m2, p).1));
    }
}

/// A piece sent twice is counted once and the last copy wins: when the first
/// copy `p1` completes nothing, feeding `p1`, its resent copy `p2` and then any
/// datagrams `rest` leaves the table as feeding `p2` and `rest` alone does, and
/// gives the same answers after an extra nothing for `p1`.
pub proof fn law_resent_piece(
    m: Map<AssemblyKey, AssemblyView>,
    p1: DataPacketView,
    p2: DataPacketView,
    rest: Seq<WirePacketView>,
)
    requires
        table_wf(m),
        packet_key(p1) == packet_key(p2),
        p1.msg_len == p2.msg_len,
        p1.msg_seq == p2.msg_seq,
        p1.msg_seq < p1.msg_len,
        assemble_step(m, p1).1 is None,
    ensures
        ({
            let twice = assemble_all(
                m,
                seq![WirePacketView::Data(p1), WirePacketView::Data(p2)] + rest,
            );
            let once = assemble_all(m, seq![WirePacketView::Data(p2)] + rest);
            &&& twice.0 == once.0
            &&& twice.1 == seq![None::<AssembledDataPacketView>] + once.1
        }),
{
    let d1 = WirePacketView::Data(p1);
    let d2 = WirePacketView::Data(p2);
    let tail = seq![d2] + rest;
    assert(seq![d1, d2] + rest =~= seq![d1] + tail);
    lemma_assemble_all_concat(m, seq![d1], tail);
    assert(seq![d1].drop_last() =~= Seq::<WirePacketView>::empty());
    let m1 = assemble_step(m, p1).0;
    let none = Seq::<Option<AssembledDataPacketView>>::empty();
    assert(assemble_all(m, Seq::<WirePacketView>::empty()) == (m, none));
    assert(assemble_all(m1, Seq::<WirePacketView>::empty()) == (m1, none));
    assert(seq![d1].last() == d1);
    assert(seq![d2].last() == d2);
    assert(none.push(None::<AssembledDataPacketView>) =~= seq![None::<AssembledDataPacketView>]);
    assert(assemble_all(m, seq![d1]) == (m1, seq![None::<AssembledDataPacketView>]));
    lemma_assemble_all_concat(m1, seq![d2], rest);
    lemma_assemble_all_concat(m, seq![d2], rest);
    assert(seq![d2].drop_last() =~= Seq::<WirePacketView>::empty());
    lemma_resent_step(m, p1, p2);
    assert(assemble_all(m1, seq![d2]) == assemble_all(m, seq![d2]));
}

/// Every assembly of the table has one slot per piece and fewer pieces than
/// the piece counter can count to.
pub open spec fn table_fits(m: Map<AssemblyKey, AssemblyView>) -> bool {
    forall|k: AssemblyKey|
        #[trigger] m.contains_key(k) ==> assembly_wf(m[k]) && m[k].msg_len < u32::MAX
}

/// A datagram numbered within its message, whose message has fewer pieces than
/// the piece counter can count to.
pub open spec fn well_numbered(w: WirePacketView) -> bool {
    wire_data(w).msg_seq < wire_data(w).msg_len < u32::MAX
}

/// No datagram that is numbered within its message is refused: from a table
/// that fits the counter (a new assembler's empty table does), each of the
/// datagrams `ps` is accepted in turn, whatever the order and whatever
/// messages they belong to, and the table still fits the counter after them.
pub proof fn law_numbered_datagrams_accepted(
    m: Map<AssemblyKey, AssemblyView>,
    ps: Seq<WirePacketView>,
)
    requires
        table_fits(m),
        forall|i: int| 0 <= i < ps.len() ==> #[trigger] well_numbered(ps[i]),
    ensures
        table_fits(assemble_all(m, ps).0),
        forall|i: int|
            0 <= i < ps.len() ==> assemble_accepts(
                #[trigger] assemble_all(m, ps.take(i)).0,
                wire_data(ps[i]),
            ),
    decreases ps.len(),
{
    if ps.len() > 0 {
        let init = ps.drop_last();
        assert forall|i: int| 0 <= i < init.len() implies #[trigger] well_numbered(init[i]) by {
            assert(init[i] == ps[i]);
        }
        law_numbered_datagrams_accepted(m, init);
        let m1 = assemble_all(m, init).0;
        let p = wire_data(ps.last());
        assert(well_numbered(ps[ps.len() - 1]));
        assert(ps.last() == WirePacketView::Data(p));
        let key = packet_key(p);
        let a = if m1.contains_key(key) {
            m1[key]
        } else {
            fresh_assembly(p.msg_len)
        };
        assert(assembly_wf(a) && a.msg_len < u32::MAX);
        assert(assembly_accepts(a, p));
        let a2 = assembly_add(a, p).0;
        if a.msg_len == p.msg_len {
            lemma_count_some_bound(a.pieces.update(p.msg_seq as int, Some(p)));
        }
        assert(assembly_wf(a2) && a2.msg_len < u32::MAX);
        let m2 = m1.insert(key, a2);
        assert(ps.take(ps.len() - 1) =~= init);
        assert(ps =~= ps.take(ps.len() as int));
        assert forall|k: AssemblyKey| #[trigger] m2.contains_key(k) implies assembly_wf(m2[k])
            && m2[k].msg_len < u32::MAX by {
            if k != key {
                assert(m1.contains_key(k));
            }
        }
        assert forall|i: int| 0 <= i < ps.len() implies assemble_accepts(
            #[trigger] assemble_all(m, ps.take(i)).0,
            wire_data(ps[i]),
        ) by {
            if i < ps.len() - 1 {
                assert(init.take(i) =~= ps.take(i));
                assert(init[i] == ps[i]);
            }
        }
    }
}

/// `qs` are the pieces of one message under `key`: piece `j` is number `j` of
/// `qs.len()`, and there are fewer than the piece counter can count to.
pub open spec fn whole_message(key: AssemblyKey, qs: Seq<DataPacketView>) -> bool {
    &&& 0 < qs.len() < u32::MAX
    &&& forall|j: int|
        0 <= j < qs.len() ==> packet_key(#[trigger] qs[j]) == key && qs[j].msg_seq == j
            && qs[j].msg_len == qs.len()
}

/// The datagrams `ps` carry each piece `qs[j]` once, at position `pos[j]`, and
/// no other datagram of the message under `key`.
pub open spec fn carries_once(
    ps: Seq<WirePacketView>,
    key: AssemblyKey,
    qs: Seq<DataPacketView>,
    pos: Seq<int>,
) -> bool {
    &&& pos.len() == qs.len()
    &&& forall|j: int|
        0 <= j < pos.len() ==> 0 <= #[trigger] pos[j] < ps.len() && ps[pos[j]]
            == WirePacketView::Data(qs[j])
    &&& forall|j1: int, j2: int|
        0 <= j1 < pos.len() && 0 <= j2 < pos.len() && j1 != j2 ==> #[trigger] pos[j1]
            != #[trigger] pos[j2]
    &&& forall|i: int|
        0 <= i < ps.len() && #[trigger] wire_key(ps[i]) == key ==> exists|j: int|
            0 <= j < pos.len() && #[trigger] pos[j] == i
}

/// The message the pieces `qs` under `key` make: their payloads in order.
pub open spec fn joined(key: AssemblyKey, qs: Seq<DataPacketView>) -> AssembledDataPacketView {
    AssembledDataPacketView {
        channel: key.0,
        epoch: key.1,
        msg_id: key.2,
        data: concat_data(Seq::new(qs.len(), |j: int| Some(qs[j]))),
    }
}

/// The index of the greatest of the positions `pos` (the first such).
pub open spec fn latest_index(pos: Seq<int>) -> int
    decreases pos.len(),
{
    if pos.len() <= 1 {
        0
    } else if pos.last() > pos[latest_index(pos.drop_last())] {
        pos.len() - 1
    } else {
        latest_index(pos.drop_last())
    }
}

proof fn lemma_latest_index(pos: Seq<int>)
    requires
        pos.len() > 0,
    ensures
        0 <= latest_index(pos) < pos.len(),
        forall|j: int| 0 <= j < pos.len() ==> #[trigger] pos[j] <= pos[latest_index(pos)],
    decreases pos.len(),
{
    if pos.len() > 1 {
        lemma_latest_index(pos.drop_last());
        assert forall|j: int| 0 <= j < pos.len() implies #[trigger] pos[j] <= pos[latest_index(pos)] by {
            if j < pos.len() - 1 {
                assert(pos.drop_last()[j] == pos[j]);
            }
        }
    }
}

proof fn lemma_count_some_gap(s: Seq<Option<DataPacketView>>, i: int)
    requires
        0 <= i < s.len(),
        s[i] is None,
    ensures
        count_some(s) < s.len(),
    decreases s.len(),
{
    if i < s.len() - 1 {
        lemma_count_some_gap(s.drop_last(), i);
    } else {
        lemma_count_some_bound(s.drop_last());
    }
}

/// The assembly of the pieces `qs` whose positions lie before `k`.
spec fn placed_assembly(qs: Seq<DataPacketView>, pos: Seq<int>, k: int) -> AssemblyView {
    let pieces = Seq::new(
        qs.len(),
        |j: int|
            if pos[j] < k {
                Some(qs[j])
            } else {
                None::<DataPacketView>
            },
    );
    AssemblyView { msg_len: qs.len() as u32, count: count_some(pieces) as u32, pieces }
}

proof fn lemma_any_order_prefix(
    m: Map<AssemblyKey, AssemblyView>,
    key: AssemblyKey,
    qs: Seq<DataPacketView>,
    pos: Seq<int>,
    ps: Seq<WirePacketView>,
    k: int,
)
    requires
        !m.contains_key(key),
        whole_message(key, qs),
        carries_once(ps, key, qs, pos),
        0 <= k <= pos[latest_index(pos)] + 1,
    ensures
        ({
            let st = assemble_all(m, ps.take(k));
            let last = pos[latest_index(pos)];
            &&& st.1.len() == k
            &&& k <= last ==> (if st.0.contains_key(key) {
                st.0[key]
            } else {
                fresh_assembly(qs.len() as u32)
            }) == placed_assembly(qs, pos, k)
            &&& forall|j: int|
                0 <= j < pos.len() && pos[j] < k && pos[j] != last ==> st.1[#[trigger] pos[j]] is None
            &&& k == last + 1 ==> st.1[last] == Some(joined(key, qs))
            &&& forall|j: int|
                0 <= j < pos.len() && pos[j] < k ==> assemble_accepts(
                    assemble_all(m, ps.take(#[trigger] pos[j])).0,
                    qs[j],
                )
        }),
    decreases k,
{
    let n = qs.len();
    lemma_latest_index(pos);
    let li = latest_index(pos);
    let last = pos[li];
    if k == 0 {
        assert(ps.take(0) =~= Seq::<WirePacketView>::empty());
        let pa = placed_assembly(qs, pos, 0);
        assert(pa.pieces =~= Seq::new(n, |i: int| None::<DataPacketView>));
        lemma_count_prefix(pa.pieces, 0);
        assert(fresh_assembly(n as u32) == pa);
    } else {
        let k0 = k - 1;
        lemma_any_order_prefix(m, key, qs, pos, ps, k0);
        let st = assemble_all(m, ps.take(k0));
        assert(ps.take(k).drop_last() =~= ps.take(k0));
        assert(ps.take(k).last() == ps[k0]);
        let p = wire_data(ps[k0]);
        assert(ps[k0] == WirePacketView::Data(p));
        let st1 = assemble_all(m, ps.take(k));
        assert(st1 == (assemble_step(st.0, p).0, st.1.push(assemble_step(st.0, p).1)));
        let pa0 = placed_assembly(qs, pos, k0);
        let pa1 = placed_assembly(qs, pos, k);
        if wire_key(ps[k0]) != key {
            assert forall|j: int| 0 <= j < n implies #[trigger] pos[j] != k0 by {
                if pos[j] == k0 {
                    assert(ps[pos[j]] == WirePacketView::Data(qs[j]));
                }
            }
            assert(pa1.pieces =~= pa0.pieces);
            assert(k0 != last);
        } else {
            let j0 = choose|j: int| 0 <= j < pos.len() && #[trigger] pos[j] == k0;
            assert(ps[pos[j0]] == WirePacketView::Data(qs[j0]));
            assert(p == qs[j0]);
            assert(qs[j0].msg_seq == j0 && qs[j0].msg_len == n);
            let a = if st.0.contains_key(key) {
                st.0[key]
            } else {
                fresh_assembly(p.msg_len)
            };
            assert(a == pa0);
            assert(pa0.pieces[j0] is None);
            lemma_count_some_gap(pa0.pieces, j0);
            assert(assembly_accepts(a, p));
            assert(ps.take(pos[j0]) == ps.take(k0));
            let pieces = a.pieces.update(j0, Some(p));
            assert(pieces =~= pa1.pieces);
            if k0 < last {
                assert(pa1.pieces[li] is None);
                lemma_count_some_gap(pa1.pieces, li);
                assert(assembly_add(a, p) == (pa1, None::<AssembledDataPacketView>));
            } else {
                assert(pa1.pieces =~= Seq::new(n, |j: int| Some(qs[j])));
                lemma_count_prefix(pa1.pieces, n);
                assert(assembly_add(a, p).1 == Some(joined(key, qs)));
            }
        }
        assert forall|j: int| 0 <= j < pos.len() && pos[j] < k && pos[j] != last implies st1.1[
            #[trigger] pos[j]
        ] is None by {
            if pos[j] < k0 {
                assert(st1.1[pos[j]] == st.1[pos[j]]);
            }
        }
        assert forall|j: int| 0 <= j < pos.len() && pos[j] < k implies assemble_accepts(
            assemble_all(m, ps.take(#[trigger] pos[j])).0,
            qs[j],
        ) by {
            if pos[j] == k0 && wire_key(ps[k0]) != key {
                assert(ps[pos[j]] == WirePacketView::Data(qs[j]));
            }
        }
    }
}

proof fn lemma_assemble_all_prefix(m: Map<AssemblyKey, AssemblyView>, ps: Seq<WirePacketView>, k: int)
    requires
        0 <= k <= ps.len(),
    ensures
        assemble_all(m, ps).1.len() == ps.len(),
        assemble_all(m, ps.take(k)).1 == assemble_all(m, ps).1.take(k),
    decreases ps.len(),
{
    if ps.len() > 0 {
        if k == ps.len() {
            lemma_assemble_all_prefix(m, ps.drop_last(), 0);
            assert(ps.take(k) =~= ps);
            assert(assemble_all(m, ps).1.take(k) =~= assemble_all(m, ps).1);
        } else {
            lemma_assemble_all_prefix(m, ps.drop_last(), k);
            assert(ps.drop_last().take(k) =~= ps.take(k));
            assert(assemble_all(m, ps).1.take(k) =~= assemble_all(m, ps.drop_last()).1.take(k));
        }
    } else {
        assert(ps.take(k) =~= ps);
    }
}

/// The pieces of a message arrive in any order, interleaved with datagrams of
/// other messages, each piece once, at an assembler that holds nothing of that
/// message: each piece is accepted, every piece but the last to arrive answers
/// nothing, and the last answers the message, whose data are the payloads in
/// piece order.
pub proof fn law_assemble_any_order(
    m: Map<AssemblyKey, AssemblyView>,
    key: AssemblyKey,
    qs: Seq<DataPacketView>,
    pos: Seq<int>,
    ps: Seq<WirePacketView>,
)
    requires
        !m.contains_key(key),
        whole_message(key, qs),
        carries_once(ps, key, qs, pos),
    ensures
        ({
            let rs = assemble_all(m, ps).1;
            let last = pos[latest_index(pos)];
            &&& rs.len() == ps.len()
            &&& forall|j: int|
                0 <= j < pos.len() && pos[j] != last ==> rs[#[trigger] pos[j]] is None
            &&& rs[last] == Some(joined(key, qs))
            &&& forall|j: int|
                0 <= j < pos.len() ==> assemble_accepts(
                    assemble_all(m, ps.take(#[trigger] pos[j])).0,
                    qs[j],
                )
        }),
{
    lemma_latest_index(pos);
    let last = pos[latest_index(pos)];
    lemma_any_order_prefix(m, key, qs, pos, ps, last + 1);
    lemma_assemble_all_prefix(m, ps, last + 1);
    let rs = assemble_all(m, ps).1;
    let pre = assemble_all(m, ps.take(last + 1)).1;
    assert forall|j: int| 0 <= j < pos.len() && pos[j] != last implies rs[#[trigger] pos[j]] is None by {
        assert(pre[pos[j]] == rs[pos[j]]);
    }
    assert(pre[last] == rs[last]);
}

/// The pieces that a message is split into.
pub open spec fn split_pieces(msg: AssembledDataPacketView) -> Seq<DataPacketView> {
    Seq::new(num_chunks(msg.data.len(), DATA_MTU as nat), |j: int| piece_of(msg, j))
}

/// The datagrams a message is split into arrive in any order, interleaved with
/// datagrams of other messages, each once, at an assembler that holds nothing
/// of that message: every one but the last to arrive answers nothing, and the
/// last answers the message.
pub proof fn law_split_reassembles_any_order(
    m: Map<AssemblyKey, AssemblyView>,
    msg: AssembledDataPacketView,
    pos: Seq<int>,
    ps: Seq<WirePacketView>,
)
    requires
        !m.contains_key((msg.channel, msg.epoch, msg.msg_id)),
        msg.data.len() > 0,
        num_chunks(msg.data.len(), DATA_MTU as nat) < u32::MAX,
        carries_once(ps, (msg.channel, msg.epoch, msg.msg_id), split_pieces(msg), pos),
    ensures
        ({
            let rs = assemble_all(m, ps).1;
            let last = pos[latest_index(pos)];
            &&& forall|j: int|
                0 <= j < pos.len() && pos[j] != last ==> rs[#[trigger] pos[j]] is None
            &&& rs[last] == Some(msg)
        }),
{
    let key = (msg.channel, msg.epoch, msg.msg_id);
    let qs = split_pieces(msg);
    let n = num_chunks(msg.data.len(), DATA_MTU as nat);
    lemma_num_chunks(msg.data.len());
    assert(whole_message(key, qs));
    law_assemble_any_order(m, key, qs, pos, ps);
    lemma_concat_chunks(msg, n);
    assert(Seq::new(qs.len(), |j: int| Some(qs[j])) =~= Seq::new(n, |i: int| Some(piece_of(msg, i))));
    assert(msg.data.subrange(0, msg.data.len() as int) =~= msg.data);
    assert(joined(key, qs) == msg);
}

/// Reads and writes the datagrams of the protocol.
pub struct WireProto;

impl WireProto {
    /// Reads a datagram.
    pub fn decode(&mut self, buf: &[u8]) -> (r: Result<WirePacket, DecodeError>)
        ensures
            match parse_wire_packet(buf@) {
                Ok(v) => r matches Ok(p) && p@ == v,
                Err(e) => r matches Err(f) && f == e,
            },
    {
        WirePacket::decode(buf)
    }

    /// Appends the bytes of a datagram to `buf`.
    pub fn encode(&mut self, packet: WirePacket, buf: &mut Vec<u8>)
        ensures
            final(buf)@ == old(buf)@ + wire_packet_bytes(packet@),
    {
        packet.encode(buf)
    }
}

} // verus!
