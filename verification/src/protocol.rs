//! The framed datagram protocol of the key-value server: a frame header
//! (message id, message length, frame size) and a frame number in
//! little-endian order before each piece of a message.

use vstd::prelude::*;
use vstd::slice::slice_to_vec;
use rand::RngCore;
use lru_cache::LruCache;
use std::collections::HashMap;
use std::hash::{BuildHasher, Hash};
use crate::endian::{
    le_u16_bytes, le_u16_value, le_u64_bytes, le_u64_value, lemma_le_u16, lemma_le_u64,
    read_le_u16, read_le_u64, write_le_u16, write_le_u64,
};
use crate::multinet::{chunk, num_chunks, DecodeError};

verus! {

/// A packet of a given kind.
pub struct Packet {
    kind: u16,
    data: Vec<u8>,
}

/// Why a packet could not be read.
#[derive(Debug, Copy, Clone, PartialEq, Eq, Structural)]
pub enum PacketError {
    /// The packet ends before what it announces.
    UnexpectedEof,
    /// A text in the packet is not UTF-8.
    InvalidUtf8,
}

/// Values that can be written into a packet.
pub trait IntoPacket {
    fn into_packet(self, out: &mut Vec<u8>);
}

/// Values that can be read from a packet.
pub trait FromPacket: Sized {
    fn from_packet(packet: Vec<u8>) -> Result<Self, PacketError>;
}

/// The header shared by the frames of one message.
#[derive(PartialEq, Eq, Hash, Clone, Copy, Debug, Structural)]
pub struct FrameHeader {
    pub id: u64,
    pub len: u16,
    pub size: u16,
}

/// One piece of a message.
#[derive(Debug)]
pub struct Frame {
    pub header: FrameHeader,
    pub num: u8,
    pub payload: Vec<u8>,
}

pub struct FrameView {
    pub header: FrameHeader,
    pub num: u8,
    pub payload: Seq<u8>,
}

impl View for Frame {
    type V = FrameView;

    open spec fn view(&self) -> FrameView {
        FrameView { header: self.header, num: self.num, payload: self.payload@ }
    }
}

/// The number of header bytes of a frame.
pub const FRAME_HEADER_LEN: usize = 13;

/// The bytes of a frame: id, length and size in little-endian order, the frame
/// number, then the payload.
pub open spec fn frame_bytes(f: FrameView) -> Seq<u8> {
    le_u64_bytes(f.header.id) + le_u16_bytes(f.header.len) + le_u16_bytes(f.header.size) + seq![
        f.num,
    ] + f.payload
}

/// The frame that the bytes `b` hold, if they hold a whole header.
pub open spec fn parse_frame(b: Seq<u8>) -> Option<FrameView> {
    if b.len() < 13 {
        None
    } else {
        Some(
            FrameView {
                header: FrameHeader {
                    id: le_u64_value(b),
                    len: le_u16_value(b.subrange(8, 10)),
                    size: le_u16_value(b.subrange(10, 12)),
                },
                num: b[12],
                payload: b.subrange(13, b.len() as int),
            },
        )
    }
}

/// Reads and writes frames in datagrams.
pub struct ServerCodec;

impl ServerCodec {
    /// Reads a frame from a datagram.
    pub fn decode(&mut self, buf: &[u8]) -> (r: Result<Frame, DecodeError>)
        ensures
            match parse_frame(buf@) {
                Some(v) => r matches Ok(f) && f@ == v,
                None => r matches Err(e) && e == DecodeError::UnexpectedEof,
            },
    {
        if buf.len() < FRAME_HEADER_LEN {
            return Err(DecodeError::UnexpectedEof);
        }
        let id = read_le_u64(buf);
        let len = read_le_u16(&buf[8..10]);
        let size = read_le_u16(&buf[10..12]);
        let num = buf[12];
        let payload = slice_to_vec(&buf[13..buf.len()]);
        Ok(Frame { header: FrameHeader { id, len, size }, num, payload })
    }

    /// Appends the bytes of `msg` to `buf`.
    pub fn encode(&mut self, msg: Frame, buf: &mut Vec<u8>)
        ensures
            final(buf)@ == old(buf)@ + frame_bytes(msg@),
    {
        let ghost start = buf@;
        write_le_u64(buf, msg.header.id);
        write_le_u16(buf, msg.header.len);
        write_le_u16(buf, msg.header.size);
        buf.push(msg.num);
        buf.extend_from_slice(msg.payload.as_slice());
        assert(buf@ =~= start + frame_bytes(msg@));
    }
}

/// The layout of a frame: read little-endian, the message id (bytes 0 to 7),
/// the message's length (8 and 9) and the frame size (10 and 11); then the
/// frame's number (byte 12) and its payload.
pub proof fn law_frame_layout(f: FrameView)
    ensures
        ({
            let b = frame_bytes(f);
            &&& b.len() == 13 + f.payload.len()
            &&& le_u64_value(b.subrange(0, 8)) == f.header.id
            &&& le_u16_value(b.subrange(8, 10)) == f.header.len
            &&& le_u16_value(b.subrange(10, 12)) == f.header.size
            &&& b[12] == f.num
            &&& b.subrange(13, b.len() as int) == f.payload
        }),
{
    let b = frame_bytes(f);
    lemma_le_u64(f.header.id, b);
    lemma_le_u16(f.header.len, b);
    lemma_le_u16(f.header.size, b);
    assert(b.subrange(0, 8) =~= le_u64_bytes(f.header.id));
    assert(b.subrange(8, 10) =~= le_u16_bytes(f.header.len));
    assert(b.subrange(10, 12) =~= le_u16_bytes(f.header.size));
    assert(b.subrange(13, b.len() as int) =~= f.payload);
}

/// Reading the bytes of a frame gives that frame back.
pub proof fn law_frame_roundtrip(f: FrameView)
    ensures
        parse_frame(frame_bytes(f)) == Some(f),
{
    let b = frame_bytes(f);
    lemma_le_u64(f.header.id, b.subrange(0, 8));
    lemma_le_u16(f.header.len, b.subrange(8, 10));
    lemma_le_u16(f.header.size, b.subrange(10, 12));
    assert(b.subrange(0, 8) =~= le_u64_bytes(f.header.id));
    assert(b.subrange(8, 10) =~= le_u16_bytes(f.header.len));
    assert(b.subrange(10, 12) =~= le_u16_bytes(f.header.size));
    assert(b.subrange(13, b.len() as int) =~= f.payload);
    assert(le_u64_value(b) == le_u64_value(b.subrange(0, 8)));
}

/// Writing a frame read from bytes gives those bytes.
pub proof fn law_frame_bytes_roundtrip(b: Seq<u8>)
    ensures
        parse_frame(b) matches Some(f) ==> frame_bytes(f) == b,
{
    if let Some(f) = parse_frame(b) {
        lemma_le_u64(0, b.subrange(0, 8));
        lemma_le_u16(0, b.subrange(8, 10));
        lemma_le_u16(0, b.subrange(10, 12));
        assert(le_u64_value(b) == le_u64_value(b.subrange(0, 8)));
        assert(frame_bytes(f) =~= b);
    }
}

/// The frames of the message `v` under the header id `id`, with frames of at
/// most `mtu` bytes: each carries the message length and the frame size (both
/// as 16-bit numbers) and its number (as an 8-bit number).
pub open spec fn split_frames_spec(v: Seq<u8>, mtu: nat, id: u64) -> Seq<FrameView> {
    Seq::new(
        num_chunks(v.len(), mtu),
        |i: int|
            FrameView {
                header: FrameHeader { id, len: v.len() as u16, size: mtu as u16 },
                num: i as u8,
                payload: chunk(v, mtu, i),
            },
    )
}

/// `rand::thread_rng().next_u64()`: a random number (nothing is known of it).
#[verifier::external_body]
fn random_u64() -> u64 {
    rand::thread_rng().next_u64()
}

/// Splits messages into frames.
pub struct PacketSplitter {
    mtu: usize,
}

impl PacketSplitter {
    /// The most payload bytes of a frame.
    pub closed spec fn frame_size(&self) -> nat {
        self.mtu as nat
    }

    /// A splitter for datagrams of `mtu` bytes, of which 16 go to the header.
    pub fn new(mtu: usize) -> (s: Self)
        requires
            mtu >= 16,
        ensures
            s.frame_size() == mtu - 16,
    {
        PacketSplitter { mtu: mtu - 16 }
    }

    /// The frames of `v` under the header id `id`: refused when `v` is longer
    /// than a 16-bit length can say.
    pub fn split_frames(&self, v: Vec<u8>, id: u64) -> (r: Result<Vec<Frame>, ()>)
        requires
            self.frame_size() > 0,
        ensures
            v@.len() > 65535 ==> r is Err,
            v@.len() <= 65535 ==> (r matches Ok(fs) && fs@.map_values(|f: Frame| f@)
                == split_frames_spec(v@, self.frame_size(), id)),
    {
        if v.len() > 65535 {
            return Err(());
        }
        let mtu = self.mtu;
        let len = v.len();
        let head = FrameHeader { len: len as u16, size: #[verifier::truncate] (mtu as u16), id };
        let ghost n = num_chunks(len as nat, mtu as nat);
        let ghost target = split_frames_spec(v@, mtu as nat, id);
        let mut out: Vec<Frame> = Vec::new();
        let mut i: usize = 0;
        let mut start: usize = 0;
        while start < len
            invariant
                mtu > 0,
                mtu == self.mtu,
                len == v@.len(),
                len <= 65535,
                head == (FrameHeader { id, len: len as u16, size: mtu as u16 }),
                n == num_chunks(len as nat, mtu as nat),
                target == split_frames_spec(v@, mtu as nat, id),
                target.len() == n,
                start == if i * mtu <= len {
                    i * mtu
                } else {
                    len as int
                },
                i > 0 ==> (i - 1) * mtu < len,
                out@.len() == i,
                forall|j: int| 0 <= j < i ==> #[trigger] out@[j]@ == target[j],
            decreases len - start,
        {
            let end = if len - start > mtu {
                start + mtu
            } else {
                len
            };
            proof {
                assert(i * mtu < len);
                assert(i < n) by (nonlinear_arith)
                    requires
                        i * mtu < len,
                        n == num_chunks(len as nat, mtu as nat),
                        mtu > 0,
                {
                    assert(len == (len / mtu) * mtu + len % mtu);
                    if i >= n {
                        assert(i >= len / mtu);
                        assert(i * mtu >= (len / mtu) * mtu);
                    }
                }
            }
            proof {
                assert((i + 1) * mtu == i * mtu + mtu) by (nonlinear_arith);
                assert(i * mtu <= len);
            }
            let piece = slice_to_vec(&v.as_slice()[start..end]);
            let f = Frame { header: head, num: i as u8, payload: piece };
            out.push(f);
            proof {
                assert(piece@ =~= chunk(v@, mtu as nat, i as int));
            }
            i = i + 1;
            start = end;
        }
        proof {
            assert(i == n) by (nonlinear_arith)
                requires
                    i * mtu >= len,
                    i > 0 ==> (i - 1) * mtu < len,
                    n == num_chunks(len as nat, mtu as nat),
                    mtu > 0,
            {
                assert(len == (len / mtu) * mtu + len % mtu);
            }
            assert(out@.map_values(|f: Frame| f@) =~= target);
        }
        Ok(out)
    }

    /// The frames of `v` under a random header id (see `split_frames`).
    pub fn process(&mut self, v: Vec<u8>) -> (r: Result<Vec<Frame>, ()>)
        requires
            old(self).frame_size() > 0,
        ensures
            final(self).frame_size() == old(self).frame_size(),
            v@.len() > 65535 ==> r is Err,
            v@.len() <= 65535 ==> exists|id: u64|
                (r matches Ok(fs) && fs@.map_values(|f: Frame| f@) == #[trigger] split_frames_spec(
                    v@,
                    old(self).frame_size(),
                    id,
                )),
    {
        if v.len() > 65535 {
            return Err(());
        }
        let id = random_u64();
        self.split_frames(v, id)
    }
}


/// The key of a message's frames in the joiner: the fields of their header.
pub type JoinKey = (u64, u16, u16);

/// The joiner's cache of frames.
pub type JoinCache = LruCache<JoinKey, HashMap<u8, Frame>>;

#[verifier::external_type_specification]
#[verifier::external_body]
#[verifier::reject_recursive_types(K)]
#[verifier::reject_recursive_types(V)]
#[verifier::reject_recursive_types(S)]
pub struct ExLruCache<K: Eq + Hash, V, S: BuildHasher>(LruCache<K, V, S>);

/// The frames that a joiner's cache holds, by message and frame number.
pub uninterp spec fn join_cache_contents(c: LruCache<(u64, u16, u16), HashMap<u8, Frame>>) -> Map<
    (u64, u16, u16),
    Map<u8, FrameView>,
>;

/// The number of messages a joiner's cache was made to hold.
pub uninterp spec fn join_cache_capacity(c: LruCache<(u64, u16, u16), HashMap<u8, Frame>>) -> nat;

/// The frames of one message, as plain values.
pub open spec fn frame_map_view(m: Map<u8, Frame>) -> Map<u8, FrameView> {
    m.map_values(|f: Frame| f@)
}

/// A cache within its capacity.
pub open spec fn cache_within(m: Map<JoinKey, Map<u8, FrameView>>, capacity: nat) -> bool {
    m.dom().finite() && m.dom().len() <= capacity
}

/// A cache that holds no frames.
pub open spec fn no_frames() -> Map<JoinKey, Map<u8, FrameView>> {
    Map::empty()
}

/// `lru_cache::LruCache::new`: an empty cache that holds at most `capacity`
/// messages.
#[verifier::external_body]
fn join_cache_new(capacity: usize) -> (cache: JoinCache)
    ensures
        join_cache_contents(cache) == no_frames(),
        join_cache_capacity(cache) == capacity,
{
    LruCache::new(capacity)
}

/// `lru_cache::LruCache::contains_key`: whether the cache holds `k`. The call
/// marks `k` as most recently used, which the contents do not show.
#[verifier::external_body]
fn join_cache_contains(c: &mut JoinCache, k: &JoinKey) -> (r: bool)
    ensures
        join_cache_contents(*final(c)) == join_cache_contents(*old(c)),
        join_cache_capacity(*final(c)) == join_cache_capacity(*old(c)),
        r == join_cache_contents(*old(c)).contains_key(*k),
{
    c.contains_key(k)
}

/// `lru_cache::LruCache::insert`: stores `v` under `k` and returns the value it
/// replaces. When the cache then holds more than its capacity, its least
/// recently used entry leaves; which entry that is, the contents do not show.
#[verifier::external_body]
fn join_cache_insert(
    c: &mut JoinCache,
    k: JoinKey,
    v: HashMap<u8, Frame>,
) -> (r: Option<HashMap<u8, Frame>>)
    ensures
        join_cache_capacity(*final(c)) == join_cache_capacity(*old(c)),
        ({
            let before = join_cache_contents(*old(c));
            let grown = before.insert(k, frame_map_view(v@));
            let cap = join_cache_capacity(*old(c));
            &&& cache_within(before, cap) ==> cache_within(join_cache_contents(*final(c)), cap)
            &&& (cache_within(before, cap) && (before.contains_key(k) || before.dom().len() < cap))
                ==> join_cache_contents(*final(c)) == grown
            &&& join_cache_contents(*final(c)) == grown || exists|j: JoinKey|
                #[trigger] grown.contains_key(j) && join_cache_contents(*final(c)) == grown.remove(j)
            &&& match r {
                Some(old_v) => before.contains_key(k) && frame_map_view(old_v@) == before[k],
                None => !before.contains_key(k),
            }
        }),
{
    c.insert(k, v)
}

/// Taking frames `i`, `i + 1`, ... below `n` out of `g` and appending their
/// payloads to `acc`: the frames left and the message, or no message when a
/// frame is missing (the frames before it are taken all the same).
pub open spec fn take_frames(g: Map<u8, FrameView>, i: int, n: int, acc: Seq<u8>) -> (
    Map<u8, FrameView>,
    Option<Seq<u8>>,
)
    decreases n - i,
{
    if i >= n {
        (g, Some(acc))
    } else if g.contains_key(i as u8) {
        take_frames(g.remove(i as u8), i + 1, n, acc + g[i as u8].payload)
    } else {
        (g, None)
    }
}

/// The number of frames a header announces, as the joiner counts them.
pub open spec fn announced_frames(h: FrameHeader) -> u8 {
    ((h.len + h.size - 1) / (h.size as int)) as u16 as u8
}

/// The joiner's cache after frame `f` arrives, and the message it joins: the
/// frames of `f`'s message start over with `f` alone; when a single frame is
/// enough for the announced length the announced frames are taken in order.
pub open spec fn join_step(m: Map<JoinKey, Map<u8, FrameView>>, f: FrameView) -> (
    Map<JoinKey, Map<u8, FrameView>>,
    Option<Seq<u8>>,
) {
    let key = (f.header.id, f.header.len, f.header.size);
    let g0 = Map::<u8, FrameView>::empty().insert(f.num, f);
    if 1 >= f.header.len / f.header.size {
        let (g, out) = take_frames(g0, 0, announced_frames(f.header) as int, Seq::empty());
        (m.insert(key, g), out)
    } else {
        (m.insert(key, g0), None)
    }
}

/// A message that fits in one frame is split into that one frame, and the
/// joiner gives the message back when it takes it.
pub proof fn law_split_then_join_single(
    v: Seq<u8>,
    mtu: nat,
    id: u64,
    m: Map<JoinKey, Map<u8, FrameView>>,
)
    requires
        0 < v.len() <= mtu <= 65535,
    ensures
        split_frames_spec(v, mtu, id).len() == 1,
        join_step(m, split_frames_spec(v, mtu, id)[0]).1 == Some(v),
{
    let fs = split_frames_spec(v, mtu, id);
    assert(v.len() / mtu + (if v.len() % mtu > 0 { 1nat } else { 0nat }) == 1) by (nonlinear_arith)
        requires
            0 < v.len() <= mtu,
    {
        if v.len() < mtu {
            assert(v.len() / mtu == 0);
            assert(v.len() % mtu == v.len());
        } else {
            assert(v.len() / mtu == 1);
            assert(v.len() % mtu == 0);
        }
    }
    let f = fs[0];
    assert(f.payload =~= v);
    let len = f.header.len;
    let size = f.header.size;
    assert(len == v.len() && size == mtu);
    assert(len / size <= 1) by (nonlinear_arith)
        requires
            0 < len <= size,
    {
        if len < size {
            assert(len / size == 0);
        } else {
            assert(len / size == 1);
        }
    }
    assert(((len + size - 1) / (size as int)) == 1) by (nonlinear_arith)
        requires
            0 < len <= size,
    {
        assert(size <= len + size - 1 < 2 * size);
    }
    assert(announced_frames(f.header) == 1);
    let g0 = Map::<u8, FrameView>::empty().insert(f.num, f);
    assert(f.num == 0);
    assert(g0.contains_key(0u8));
    assert(take_frames(g0.remove(0u8), 1, 1, Seq::<u8>::empty() + g0[0u8].payload).1 == Some(
        v,
    )) by {
        assert(Seq::<u8>::empty() + g0[0u8].payload =~= v);
    }
}

/// Joins frames back into messages.
pub struct PacketJoiner {
    cache: JoinCache,
}

impl PacketJoiner {
    /// The frames held, by message.
    pub closed spec fn frames(&self) -> Map<JoinKey, Map<u8, FrameView>> {
        join_cache_contents(self.cache)
    }

    /// The number of messages the joiner holds at most.
    pub closed spec fn capacity(&self) -> nat {
        join_cache_capacity(self.cache)
    }

    /// The joiner holds no more messages than its cache was made for.
    pub closed spec fn wf(&self) -> bool {
        cache_within(self.frames(), self.capacity())
    }

    pub fn new(size: usize) -> (j: Self)
        ensures
            j.wf(),
            j.frames() == Map::<JoinKey, Map<u8, FrameView>>::empty(),
            j.capacity() == size,
    {
        PacketJoiner { cache: join_cache_new(size) }
    }

    /// Whether the joiner holds frames of the message with header `h`.
    pub fn holds(&mut self, h: &FrameHeader) -> (r: bool)
        ensures
            final(self).frames() == old(self).frames(),
            final(self).capacity() == old(self).capacity(),
            old(self).wf() ==> final(self).wf(),
            r == old(self).frames().contains_key((h.id, h.len, h.size)),
    {
        let key: JoinKey = (h.id, h.len, h.size);
        join_cache_contains(&mut self.cache, &key)
    }

    /// Takes a frame of a message the joiner already holds frames of, and
    /// returns the message it completes, if any (see `join_step`). Only this
    /// method adds messages to the joiner, so a joiner made by `new` never
    /// holds one and can take no frame: a frame of a message it holds nothing
    /// of makes the lookup of its frames fail.
    pub fn process(&mut self, f: Frame) -> (r: Option<Vec<u8>>)
        requires
            old(self).wf(),
            old(self).frames().contains_key((f.header.id, f.header.len, f.header.size)),
            f.header.size > 0,
        ensures
            final(self).wf(),
            final(self).capacity() == old(self).capacity(),
            (final(self).frames(), match r {
                Some(v) => Some(v@),
                None => None,
            }) == join_step(old(self).frames(), f@),
    {
        broadcast use vstd::std_specs::hash::group_hash_axioms;

        let ghost fv = f@;
        let header = f.header;
        let key: JoinKey = (header.id, header.len, header.size);
        let present = join_cache_contains(&mut self.cache, &key);
        let ghost before = self.frames();
        let count: u16 = #[verifier::truncate] (((header.len as u64 + header.size as u64 - 1)
            / header.size as u64) as u16);
        let mut m: HashMap<u8, Frame> = HashMap::new();
        m.insert(f.num, f);
        let ghost g0 = Map::<u8, FrameView>::empty().insert(fv.num, fv);
        assert(frame_map_view(m@) =~= g0);
        assert(m@.dom() =~= set![fv.num]);
        assert(m@.dom().len() == 1);
        if (m.len() as u16) >= header.len / header.size {
            assert(1 >= fv.header.len / fv.header.size);
            let n: u8 = #[verifier::truncate] (count as u8);
            assert(n == announced_frames(fv.header));
            let mut v: Vec<u8> = Vec::new();
            let mut i: u8 = 0;
            while i < n
                invariant
                    i <= n,
                    take_frames(frame_map_view(m@), i as int, n as int, v@) == take_frames(
                        g0,
                        0,
                        n as int,
                        Seq::empty(),
                    ),
                    self.frames() == before,
                    before == old(self).frames(),
                    fv == f@,
                    n == announced_frames(fv.header),
                    1 >= fv.header.len / fv.header.size,
                    key == (fv.header.id, fv.header.len, fv.header.size),
                    g0 == Map::<u8, FrameView>::empty().insert(fv.num, fv),
                    join_cache_capacity(self.cache) == old(self).capacity(),
                    before.contains_key(key),
                    cache_within(before, old(self).capacity()),
                decreases n - i,
            {
                let ghost gv = frame_map_view(m@);
                let ghost v0 = v@;
                let ghost mv = m@;
                match m.remove(&i) {
                    Some(fr) => {
                        assert(mv.contains_key(i) && mv[i] == fr);
                        assert(gv.contains_key(i) && gv[i] == fr@);
                        assert(frame_map_view(m@) =~= gv.remove(i));
                        v.extend_from_slice(fr.payload.as_slice());
                        assert(v@ == v0 + fr@.payload);
                        assert(take_frames(gv, i as int, n as int, v0) == take_frames(
                            gv.remove(i),
                            i + 1,
                            n as int,
                            v0 + fr@.payload,
                        ));
                    },
                    None => {
                        assert(!gv.contains_key(i));
                        assert(m@ =~= mv);
                        assert(take_frames(gv, i as int, n as int, v0) == (gv, None::<Seq<u8>>));
                        join_cache_insert(&mut self.cache, key, m);
                        assert(self.frames() == before.insert(key, gv));
                        assert(take_frames(g0, 0, n as int, Seq::empty()) == (gv, None::<Seq<u8>>));
                        assert(join_step(before, fv) == (before.insert(key, gv), None::<Seq<u8>>));
                        return None;
                    },
                }
                i = i + 1;
                assert(take_frames(frame_map_view(m@), i as int, n as int, v@) == take_frames(
                    g0,
                    0,
                    n as int,
                    Seq::empty(),
                ));
            }
            join_cache_insert(&mut self.cache, key, m);
            Some(v)
        } else {
            join_cache_insert(&mut self.cache, key, m);
            None
        }
    }
}

} // verus!
