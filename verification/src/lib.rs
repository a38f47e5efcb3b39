//! LED strip control over a multicast network: wire formats, packet
//! splitting and reassembly, pixel effects and command encodings.

pub mod endian;
pub mod multinet;
pub mod server;
pub mod led_control;
pub mod text;
pub mod neopixels;
pub mod protocol;
pub mod kv;
pub mod vamp;
pub mod visual;
pub mod lednet;
pub mod patterns;
pub mod streams;
