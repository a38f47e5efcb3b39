//! The LED network: frames of pixels travel as messages on one channel of
//! the multicast protocol.

use vstd::prelude::*;
use crate::led_control::Pixel;
use crate::multinet::{AssembledDataPacket, AssembledDataPacketView, ChannelID};

verus! {

/// The number of LEDs on the strip.
pub const NUM_LEDS: usize = 427;

/// The channel that pixel frames travel on.
pub const LED_CHANNEL: u64 = 42;

/// The epoch that pixel frames are sent in.
pub const LED_EPOCH: u64 = 34;

/// A frame of pixels.
#[derive(Debug, Clone)]
pub struct Message {
    pub pixels: Vec<Pixel>,
}

/// The message that carries the encoded pixel frame `bytes`.
pub fn frame_packet(bytes: Vec<u8>) -> (p: AssembledDataPacket)
    ensures
        p@ == (AssembledDataPacketView {
            channel: LED_CHANNEL,
            epoch: LED_EPOCH,
            msg_id: 42,
            data: bytes@,
        }),
{
    AssembledDataPacket::new(bytes, ChannelID::new(LED_CHANNEL), LED_EPOCH)
}

/// The encoded pixel frame that a received message carries: its data when it
/// came on the LED channel, nothing otherwise.
pub fn frame_payload(p: &AssembledDataPacket) -> (r: Option<&Vec<u8>>)
    ensures
        p.channel.0 == LED_CHANNEL ==> (r matches Some(d) && d@ == p.data@),
        p.channel.0 != LED_CHANNEL ==> r is None,
{
    if p.channel.0 == LED_CHANNEL {
        Some(&p.data)
    } else {
        None
    }
}

/// A strip of `n` LEDs all of color `c`.
pub fn uniform_strip(c: Pixel, n: usize) -> (v: Vec<Pixel>)
    ensures
        v@ == Seq::new(n as nat, |i: int| c),
{
    let mut v: Vec<Pixel> = Vec::new();
    let mut i: usize = 0;
    while i < n
        invariant
            i <= n,
            v@ == Seq::new(i as nat, |j: int| c),
        decreases n - i,
    {
        v.push(c);
        i = i + 1;
        assert(v@ =~= Seq::new(i as nat, |j: int| c));
    }
    v
}

} // verus!
