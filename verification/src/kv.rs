//! Key-value messages: a key of at most 255 UTF-8 bytes and a value, and the
//! receivers that values are dispatched to.

use vstd::prelude::*;
use vstd::slice::slice_to_vec;
use vstd::utf8::{decode_utf8, valid_utf8};
use std::rc::Rc;
use std::sync::Arc;
use crate::protocol::{FromPacket, PacketError};

verus! {

/// Something that takes the bytes of values sent under its key.
pub trait Recieve {
    /// Whether taking the bytes `buf` may turn this receiver into `after` with
    /// the result `r`: each receiver may state what it does; one that states
    /// nothing admits every outcome.
    open spec fn recieves(&self, buf: Seq<u8>, after: &Self, r: Result<(), String>) -> bool {
        true
    }

    fn recieve(&mut self, buf: &[u8]) -> (r: Result<(), String>)
        ensures
            old(self).recieves(buf@, final(self), r),
    ;
}

/// A boxed receiver takes the bytes as the receiver in the box does.
impl<T> Recieve for Box<T> where T: Recieve {
    open spec fn recieves(&self, buf: Seq<u8>, after: &Self, r: Result<(), String>) -> bool {
        (**self).recieves(buf, &**after, r)
    }

    fn recieve(&mut self, buf: &[u8]) -> (r: Result<(), String>) {
        (**self).recieve(buf)
    }
}

/// A shared receiver stays the same and takes the bytes as a shared
/// reference to its value does.
impl<T> Recieve for Arc<T> where for <'a>&'a T: Recieve {
    open spec fn recieves(&self, buf: Seq<u8>, after: &Self, r: Result<(), String>) -> bool {
        &&& *after == *self
        &&& exists|q: &T| #[trigger] (&&**self).recieves(buf, &q, r)
    }

    fn recieve(&mut self, buf: &[u8]) -> (r: Result<(), String>) {
        let mut r: &T = &**self;
        r.recieve(buf)
    }
}

/// A shared receiver stays the same and takes the bytes as a shared
/// reference to its value does.
impl<T> Recieve for Rc<T> where for <'a>&'a T: Recieve {
    open spec fn recieves(&self, buf: Seq<u8>, after: &Self, r: Result<(), String>) -> bool {
        &&& *after == *self
        &&& exists|q: &T| #[trigger] (&&**self).recieves(buf, &q, r)
    }

    fn recieve(&mut self, buf: &[u8]) -> (r: Result<(), String>) {
        let mut r: &T = &**self;
        r.recieve(buf)
    }
}

/// A key and its value.
pub struct KVPacket {
    pub key: String,
    value: Vec<u8>,
}

impl KVPacket {
    /// The characters of the key.
    pub closed spec fn key_text(&self) -> Seq<char> {
        self.key@
    }

    /// The bytes of the value.
    pub closed spec fn value_bytes(&self) -> Seq<u8> {
        self.value@
    }

    pub fn value(&self) -> (v: &[u8])
        ensures
            v@ == self.value_bytes(),
    {
        self.value.as_slice()
    }
}

/// `std::str::from_utf8`: the text whose UTF-8 bytes are `b`, when they are
/// UTF-8 (as an owned string).
#[verifier::external_body]
fn utf8_text(b: &[u8]) -> (r: Option<String>)
    ensures
        r is Some <==> valid_utf8(b@),
        r matches Some(s) ==> s@ == decode_utf8(b@),
{
    match std::str::from_utf8(b) {
        Ok(s) => Some(s.to_owned()),
        Err(_) => None,
    }
}

/// What a packet of bytes `b` holds as a key-value packet: a length byte, the
/// key's UTF-8 bytes, then the value; or why it holds none.
pub open spec fn kv_parse(b: Seq<u8>) -> Result<(Seq<char>, Seq<u8>), PacketError> {
    if b.len() == 0 {
        Err(PacketError::UnexpectedEof)
    } else if b.len() < 1 + b[0] {
        Err(PacketError::UnexpectedEof)
    } else if !valid_utf8(b.subrange(1, 1 + b[0])) {
        Err(PacketError::InvalidUtf8)
    } else {
        Ok((decode_utf8(b.subrange(1, 1 + b[0])), b.subrange(1 + b[0], b.len() as int)))
    }
}

/// A packet laid out as a length byte, a key of that many bytes and then any
/// value bytes reads as that key and exactly that value when the key is
/// UTF-8, whatever the value bytes are; and is refused as not UTF-8 when the
/// key is not.
pub proof fn law_kv_layout(key: Seq<u8>, value: Seq<u8>)
    requires
        key.len() < 256,
    ensures
        ({
            let b = seq![key.len() as u8] + key + value;
            &&& valid_utf8(key) ==> kv_parse(b) == Ok::<(Seq<char>, Seq<u8>), PacketError>(
                (decode_utf8(key), value),
            )
            &&& !valid_utf8(key) ==> kv_parse(b) == Err::<(Seq<char>, Seq<u8>), PacketError>(
                PacketError::InvalidUtf8,
            )
        }),
{
    let b = seq![key.len() as u8] + key + value;
    assert(b[0] == key.len());
    assert(b.subrange(1, 1 + key.len() as int) =~= key);
    assert(b.subrange(1 + key.len() as int, b.len() as int) =~= value);
}

/// Which packets are refused: one too short for the key its length byte
/// announces, as ending early; one whose key is not UTF-8, as not UTF-8; the
/// value bytes play no part in either.
pub proof fn law_kv_refusals(b: Seq<u8>)
    ensures
        (kv_parse(b) == Err::<(Seq<char>, Seq<u8>), PacketError>(PacketError::UnexpectedEof)) <==> (
        b.len() == 0 || b.len() < 1 + b[0]),
        (kv_parse(b) == Err::<(Seq<char>, Seq<u8>), PacketError>(PacketError::InvalidUtf8)) <==> (
        b.len() > 0 && b.len() >= 1 + b[0] && !valid_utf8(b.subrange(1, 1 + b[0]))),
        kv_parse(b) is Ok ==> kv_parse(b)->Ok_0.1 == b.subrange(1 + b[0], b.len() as int),
{
}

impl FromPacket for KVPacket {
    fn from_packet(packet: Vec<u8>) -> (r: Result<KVPacket, PacketError>)
        ensures
            match kv_parse(packet@) {
                Ok((k, v)) => r matches Ok(p) && p.key_text() == k && p.value_bytes() == v,
                Err(e) => r matches Err(f) && f == e,
            },
    {
        if packet.len() == 0 {
            return Err(PacketError::UnexpectedEof);
        }
        let str_len = packet[0] as usize;
        if packet.len() - 1 < str_len {
            return Err(PacketError::UnexpectedEof);
        }
        let key_bytes = &packet.as_slice()[1..1 + str_len];
        let key = match utf8_text(key_bytes) {
            Some(k) => k,
            None => return Err(PacketError::InvalidUtf8),
        };
        let value = slice_to_vec(&packet.as_slice()[1 + str_len..packet.len()]);
        Ok(KVPacket { key, value })
    }
}

} // verus!
