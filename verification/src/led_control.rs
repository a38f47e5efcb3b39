//! Pixels of an LED strip, the lighting effects of the strip controller,
//! and the byte commands the controller takes over its serial line.

use vstd::prelude::*;
use vstd::string::StringSliceAdditionalSpecFns;
use vstd::utf8::{encode_utf8_valid_utf8, is_char_boundary};
use crate::text::{parse_u8_codes, parse_u8_radix};

verus! {

/// The color of one LED.
#[derive(Clone, Copy, Debug, PartialEq, Eq, Structural)]
pub struct Pixel {
    pub red: u8,
    pub green: u8,
    pub blue: u8,
}

/// The pixel that is off.
pub open spec fn black() -> Pixel {
    Pixel { red: 0, green: 0, blue: 0 }
}

impl Default for Pixel {
    fn default() -> (p: Self)
        ensures
            p == black(),
    {
        Pixel { red: 0, green: 0, blue: 0 }
    }
}

impl Pixel {
    /// The pixel whose red, green and blue are the first three bytes of `s`.
    pub fn from_slice(s: &[u8]) -> (p: Self)
        requires
            s@.len() >= 3,
        ensures
            p == (Pixel { red: s@[0], green: s@[1], blue: s@[2] }),
    {
        Pixel { red: s[0], green: s[1], blue: s[2] }
    }
}

/// The lighting effects of the strip controller; the number says how many
/// LEDs (or, for `Flash`, how fast).
#[derive(Debug, Copy, Clone, PartialEq, Eq, Structural)]
pub enum OldEffect {
    Constant,
    Flash(u8),
    SetPix(u8),
    Width(u8),
    DoubleWidth(u8),
    QuadWidth(u8),
    Edges(u8),
}

/// The effects drawn over an effect in a second color.
#[derive(Debug, Copy, Clone, PartialEq, Eq, Structural)]
pub enum OldAuxEffect {
    NoAux,
    Offset(u8),
    FillLeft(u8),
    FillCenter(u8),
    FillRight(u8),
    FillEdges(u8),
    FillDouble(u8),
}

/// `i` lies in `[lo, hi)`.
pub open spec fn in_span(i: int, lo: int, hi: int) -> bool {
    lo <= i < hi
}

/// `i` lies within `w` of `center` on either side (`w` before, `w - 1` after).
pub open spec fn around(i: int, center: int, w: int) -> bool {
    in_span(i, center - w, center + w)
}

/// Whether `effect` lights LED `i` of `count`.
pub open spec fn effect_lit(effect: OldEffect, count: int, i: int) -> bool {
    match effect {
        OldEffect::Constant => true,
        OldEffect::Flash(_) => false,
        OldEffect::SetPix(n) => i == n,
        OldEffect::Width(w) => around(i, count / 2, w as int),
        OldEffect::DoubleWidth(w) => around(i, count / 4, w as int) || around(
            i,
            count * 3 / 4,
            w as int,
        ),
        OldEffect::QuadWidth(w) => around(i, count / 8, w as int) || around(
            i,
            count * 3 / 8,
            w as int,
        ) || around(i, count * 5 / 8, w as int) || around(i, count * 7 / 8, w as int),
        OldEffect::Edges(w) => i < w || i >= count - w,
    }
}

/// The effects that the strip controller draws on `count` LEDs: flashing is not
/// one of them, and the lit spans must lie on the strip.
pub open spec fn effect_drawable(effect: OldEffect, count: int) -> bool {
    match effect {
        OldEffect::Constant => true,
        OldEffect::Flash(_) => false,
        OldEffect::SetPix(n) => n < count,
        OldEffect::Width(w) => w <= count / 2,
        OldEffect::DoubleWidth(w) => count * 3 <= usize::MAX && w <= count / 4 && count * 3 / 4
            + w <= count,
        OldEffect::QuadWidth(w) => count * 7 <= usize::MAX && w <= count / 8 && count * 7 / 8 + w
            <= count,
        OldEffect::Edges(w) => w <= count,
    }
}

/// Whether `aux` paints LED `i` of `count` in the second color.
pub open spec fn aux_filled(aux: OldAuxEffect, count: int, i: int) -> bool {
    match aux {
        OldAuxEffect::NoAux => false,
        OldAuxEffect::Offset(_) => false,
        OldAuxEffect::FillLeft(l) => i < l,
        OldAuxEffect::FillCenter(l) => around(i, count / 2, l as int),
        OldAuxEffect::FillRight(l) => i >= count - l,
        OldAuxEffect::FillEdges(l) => i < l || i >= count - l,
        OldAuxEffect::FillDouble(l) => i < l || around(i, count / 2, l as int) || i >= count - l,
    }
}

/// The second effects that lie on a strip of `count` LEDs.
pub open spec fn aux_drawable(aux: OldAuxEffect, count: int) -> bool {
    match aux {
        OldAuxEffect::NoAux => true,
        OldAuxEffect::Offset(a) => count - 1 + a <= usize::MAX,
        OldAuxEffect::FillLeft(l) => l <= count,
        OldAuxEffect::FillCenter(l) => l <= count / 2,
        OldAuxEffect::FillRight(l) => l <= count,
        OldAuxEffect::FillEdges(l) => l <= count,
        OldAuxEffect::FillDouble(l) => l <= count / 2,
    }
}

/// The strip after `effect` in `color` on dark LEDs.
pub open spec fn effect_pixels(color: Pixel, effect: OldEffect, count: nat) -> Seq<Pixel> {
    Seq::new(
        count,
        |i: int|
            if effect_lit(effect, count as int, i) {
                color
            } else {
                black()
            },
    )
}

/// The strip of `count` LEDs that `effect` in `color` and then `aux_effect` in
/// `color2` (dark when absent) give: an offset rotates the strip by its amount,
/// the fills paint their spans.
pub open spec fn gen_effect_spec(
    color: Pixel,
    effect: OldEffect,
    color2: Option<Pixel>,
    aux_effect: OldAuxEffect,
    count: nat,
) -> Seq<Pixel> {
    let base = effect_pixels(color, effect, count);
    let c2 = match color2 {
        Some(c) => c,
        None => black(),
    };
    match aux_effect {
        OldAuxEffect::Offset(a) => Seq::new(count, |i: int| base[(i + a) % (count as int)]),
        _ => Seq::new(
            count,
            |i: int|
                if aux_filled(aux_effect, count as int, i) {
                    c2
                } else {
                    base[i]
                },
        ),
    }
}

fn fill_span(pixels: &mut Vec<Pixel>, lo: usize, hi: usize, c: Pixel)
    requires
        lo <= hi <= old(pixels)@.len(),
    ensures
        final(pixels)@ == Seq::new(
            old(pixels)@.len(),
            |i: int|
                if in_span(i, lo as int, hi as int) {
                    c
                } else {
                    old(pixels)@[i]
                },
        ),
{
    let ghost start = pixels@;
    let mut i = lo;
    while i < hi
        invariant
            lo <= i <= hi,
            hi <= start.len(),
            pixels@.len() == start.len(),
            forall|j: int|
                0 <= j < start.len() ==> #[trigger] pixels@[j] == if in_span(j, lo as int, i as int) {
                    c
                } else {
                    start[j]
                },
        decreases hi - i,
    {
        pixels.set(i, c);
        i = i + 1;
    }
    assert(pixels@ =~= Seq::new(
        start.len(),
        |i: int|
            if in_span(i, lo as int, hi as int) {
                c
            } else {
                start[i]
            },
    ));
}

/// The pixels of a strip of `count` LEDs showing `effect` in `color` with
/// `aux_effect` in `color2` over it.
pub fn gen_effect(
    color: Pixel,
    effect: OldEffect,
    color2: Option<Pixel>,
    aux_effect: OldAuxEffect,
    count: usize,
) -> (pixels: Vec<Pixel>)
    requires
        count > 0,
        effect_drawable(effect, count as int),
        aux_drawable(aux_effect, count as int),
    ensures
        pixels@ == gen_effect_spec(color, effect, color2, aux_effect, count as nat),
{
    let black_px = Pixel { red: 0, green: 0, blue: 0 };
    let mut pixels: Vec<Pixel> = Vec::new();
    let mut k: usize = 0;
    while k < count
        invariant
            k <= count,
            black_px == black(),
            pixels@ == Seq::new(k as nat, |i: int| black()),
        decreases count - k,
    {
        pixels.push(black_px);
        k = k + 1;
        assert(pixels@ =~= Seq::new(k as nat, |i: int| black()));
    }
    pixels.set(0, black_px);
    assert(pixels@ =~= Seq::new(count as nat, |i: int| black()));
    let ghost n = count as int;
    match effect {
        OldEffect::Constant => {
            fill_span(&mut pixels, 0, count, color);
        },
        OldEffect::Flash(_) => {},
        OldEffect::SetPix(num) => {
            pixels.set(num as usize, color);
        },
        OldEffect::Width(width) => {
            let w = width as usize;
            fill_span(&mut pixels, (count / 2) - w, (count / 2) + w, color);
        },
        OldEffect::DoubleWidth(width) => {
            let w = width as usize;
            fill_span(&mut pixels, (count / 4) - w, (count / 4) + w, color);
            fill_span(&mut pixels, (count * 3 / 4) - w, (count * 3 / 4) + w, color);
        },
        OldEffect::QuadWidth(width) => {
            let w = width as usize;
            fill_span(&mut pixels, (count / 8) - w, (count / 8) + w, color);
            fill_span(&mut pixels, (count * 3 / 8) - w, (count * 3 / 8) + w, color);
            fill_span(&mut pixels, (count * 5 / 8) - w, (count * 5 / 8) + w, color);
            fill_span(&mut pixels, (count * 7 / 8) - w, (count * 7 / 8) + w, color);
        },
        OldEffect::Edges(width) => {
            let w = width as usize;
            fill_span(&mut pixels, 0, w, color);
            fill_span(&mut pixels, count - w, count, color);
        },
    }
    let ghost base = effect_pixels(color, effect, count as nat);
    assert(pixels@ =~= base);
    let second = match color2 {
        Some(c) => c,
        None => black_px,
    };
    match aux_effect {
        OldAuxEffect::NoAux => {},
        OldAuxEffect::Offset(amount) => {
            let mut p2: Vec<Pixel> = Vec::new();
            let mut j: usize = 0;
            while j < count
                invariant
                    j <= count,
                    pixels@ == base,
                    base.len() == count,
                    p2@ == base.take(j as int),
                decreases count - j,
            {
                p2.push(pixels[j]);
                j = j + 1;
                assert(p2@ =~= base.take(j as int));
            }
            assert(p2@ =~= base);
            let mut i: usize = 0;
            while i < count
                invariant
                    i <= count,
                    p2@ == base,
                    base.len() == count,
                    count - 1 + amount <= usize::MAX,
                    pixels@.len() == count,
                    forall|j: int|
                        0 <= j < count ==> #[trigger] pixels@[j] == if j < i {
                            base[(j + amount) % (count as int)]
                        } else {
                            base[j]
                        },
                decreases count - i,
            {
                let from = (i + amount as usize) % count;
                pixels.set(i, p2[from]);
                i = i + 1;
            }
        },
        OldAuxEffect::FillLeft(len) => {
            fill_span(&mut pixels, 0, len as usize, second);
        },
        OldAuxEffect::FillCenter(len) => {
            let l = len as usize;
            fill_span(&mut pixels, (count / 2) - l, (count / 2) + l, second);
        },
        OldAuxEffect::FillRight(len) => {
            fill_span(&mut pixels, count - len as usize, count, second);
        },
        OldAuxEffect::FillEdges(len) => {
            let l = len as usize;
            fill_span(&mut pixels, 0, l, second);
            fill_span(&mut pixels, count - l, count, second);
        },
        OldAuxEffect::FillDouble(len) => {
            let l = len as usize;
            fill_span(&mut pixels, 0, l, second);
            fill_span(&mut pixels, (count / 2) - l, (count / 2) + l, second);
            fill_span(&mut pixels, count - l, count, second);
        },
    }
    assert(pixels@ =~= gen_effect_spec(color, effect, color2, aux_effect, count as nat));
    pixels
}

/// Whether `gen_effect` can draw `effect` with `aux_effect` over it on `count`
/// LEDs.
pub fn effect_fits(effect: OldEffect, aux_effect: OldAuxEffect, count: usize) -> (r: bool)
    ensures
        r == (count > 0 && effect_drawable(effect, count as int) && aux_drawable(
            aux_effect,
            count as int,
        )),
{
    if count == 0 {
        return false;
    }
    let effect_ok = match effect {
        OldEffect::Constant => true,
        OldEffect::Flash(_) => false,
        OldEffect::SetPix(n) => (n as usize) < count,
        OldEffect::Width(w) => (w as usize) <= count / 2,
        OldEffect::DoubleWidth(w) => {
            if count > usize::MAX / 3 {
                assert(count * 3 > usize::MAX) by (nonlinear_arith)
                    requires
                        count > usize::MAX / 3,
                ;
                false
            } else {
                assert(count * 3 <= usize::MAX) by (nonlinear_arith)
                    requires
                        count <= usize::MAX / 3,
                ;
                (w as usize) <= count / 4 && count * 3 / 4 + (w as usize) <= count
            }
        },
        OldEffect::QuadWidth(w) => {
            if count > usize::MAX / 7 {
                assert(count * 7 > usize::MAX) by (nonlinear_arith)
                    requires
                        count > usize::MAX / 7,
                ;
                false
            } else {
                assert(count * 7 <= usize::MAX) by (nonlinear_arith)
                    requires
                        count <= usize::MAX / 7,
                ;
                (w as usize) <= count / 8 && count * 7 / 8 + (w as usize) <= count
            }
        },
        OldEffect::Edges(w) => (w as usize) <= count,
    };
    let aux_ok = match aux_effect {
        OldAuxEffect::NoAux => true,
        OldAuxEffect::Offset(a) => (a as usize) <= usize::MAX - (count - 1),
        OldAuxEffect::FillLeft(l) => (l as usize) <= count,
        OldAuxEffect::FillCenter(l) => (l as usize) <= count / 2,
        OldAuxEffect::FillRight(l) => (l as usize) <= count,
        OldAuxEffect::FillEdges(l) => (l as usize) <= count,
        OldAuxEffect::FillDouble(l) => (l as usize) <= count / 2,
    };
    effect_ok && aux_ok
}

/// The code points of the bytes `b`.
pub open spec fn byte_codes(b: Seq<u8>) -> Seq<u32> {
    b.map_values(|x: u8| x as u32)
}

/// The byte written in hexadecimal at bytes `lo..lo + 2` of the text whose
/// UTF-8 bytes are `b`, if those bytes form a piece of the text that reads as
/// one (`str::get` then `u8::from_str_radix` with radix 16).
pub open spec fn hex_at(b: Seq<u8>, lo: int) -> Option<u8> {
    if is_char_boundary(b, lo) && is_char_boundary(b, lo + 2) {
        parse_u8_radix(byte_codes(b.subrange(lo, lo + 2)), 16)
    } else {
        None
    }
}

/// The color written as `#rrggbb`: the three hexadecimal bytes after the
/// first byte of the text.
pub open spec fn hex_color_spec(b: Seq<u8>) -> Option<Pixel> {
    match (hex_at(b, 1), hex_at(b, 3), hex_at(b, 5)) {
        (Some(red), Some(green), Some(blue)) => Some(Pixel { red, green, blue }),
        _ => None,
    }
}

fn hex_byte(c: &str, lo: usize) -> (r: Option<u8>)
    requires
        lo <= 5,
    ensures
        r == hex_at(c.spec_bytes(), lo as int),
{
    if !(c.is_char_boundary(lo) && c.is_char_boundary(lo + 2)) {
        return None;
    }
    let b = c.as_bytes();
    proof {
        encode_utf8_valid_utf8(c@);
        assert(b@.len() >= lo + 2);
    }
    let mut codes: Vec<u32> = Vec::new();
    codes.push(b[lo] as u32);
    codes.push(b[lo + 1] as u32);
    assert(codes@ =~= byte_codes(b@.subrange(lo as int, lo + 2)));
    parse_u8_codes(&codes, 16)
}

/// Reads a color written as `#rrggbb` (see `hex_color_spec`).
pub fn parse_hex_color(c: &str) -> (r: Option<Pixel>)
    ensures
        r == hex_color_spec(c.spec_bytes()),
{
    let red = match hex_byte(c, 1) {
        Some(v) => v,
        None => return None,
    };
    let green = match hex_byte(c, 3) {
        Some(v) => v,
        None => return None,
    };
    let blue = match hex_byte(c, 5) {
        Some(v) => v,
        None => return None,
    };
    Some(Pixel { red, green, blue })
}

/// The controller's code and parameter for an effect.
pub open spec fn effect_code(effect: OldEffect) -> (u8, u8) {
    match effect {
        OldEffect::Constant => (0, 0),
        OldEffect::Flash(rate) => (1, rate),
        OldEffect::SetPix(num) => (2, num),
        OldEffect::Width(width) => (3, width),
        OldEffect::DoubleWidth(width) => (4, width),
        OldEffect::QuadWidth(width) => (5, width),
        OldEffect::Edges(width) => (6, width),
    }
}

/// The controller's code and parameter for a second effect.
pub open spec fn aux_code(aux: OldAuxEffect) -> (u8, u8) {
    match aux {
        OldAuxEffect::NoAux => (0, 0),
        OldAuxEffect::Offset(amount) => (1, amount),
        OldAuxEffect::FillLeft(len) => (2, len),
        OldAuxEffect::FillCenter(len) => (3, len),
        OldAuxEffect::FillRight(len) => (4, len),
        OldAuxEffect::FillEdges(len) => (5, len),
        OldAuxEffect::FillDouble(len) => (6, len),
    }
}

/// The ten bytes that set an effect on the controller: the color, the effect's
/// code and parameter, the second color (zeros when absent), the second
/// effect's code and parameter.
pub open spec fn effect_command_spec(
    color: Pixel,
    effect: OldEffect,
    color2: Option<Pixel>,
    aux_effect: OldAuxEffect,
) -> Seq<u8> {
    let c2 = match color2 {
        Some(c) => seq![c.red, c.green, c.blue],
        None => seq![0u8, 0u8, 0u8],
    };
    seq![color.red, color.green, color.blue, effect_code(effect).0, effect_code(effect).1] + c2
        + seq![aux_code(aux_effect).0, aux_code(aux_effect).1]
}

/// The command that `set_effect` writes to the controller.
pub fn effect_command(
    color: Pixel,
    effect: OldEffect,
    color2: Option<Pixel>,
    aux_effect: OldAuxEffect,
) -> (bytes: Vec<u8>)
    ensures
        bytes@ == effect_command_spec(color, effect, color2, aux_effect),
{
    let mut bytes: Vec<u8> = Vec::new();
    bytes.push(color.red);
    bytes.push(color.green);
    bytes.push(color.blue);
    let (code, param): (u8, u8) = match effect {
        OldEffect::Constant => (0, 0),
        OldEffect::Flash(rate) => (1, rate),
        OldEffect::SetPix(num) => (2, num),
        OldEffect::Width(width) => (3, width),
        OldEffect::DoubleWidth(width) => (4, width),
        OldEffect::QuadWidth(width) => (5, width),
        OldEffect::Edges(width) => (6, width),
    };
    bytes.push(code);
    bytes.push(param);
    match color2 {
        Some(c) => {
            bytes.push(c.red);
            bytes.push(c.green);
            bytes.push(c.blue);
        },
        None => {
            bytes.push(0);
            bytes.push(0);
            bytes.push(0);
        },
    }
    let (aux, aux_param): (u8, u8) = match aux_effect {
        OldAuxEffect::NoAux => (0, 0),
        OldAuxEffect::Offset(amount) => (1, amount),
        OldAuxEffect::FillLeft(len) => (2, len),
        OldAuxEffect::FillCenter(len) => (3, len),
        OldAuxEffect::FillRight(len) => (4, len),
        OldAuxEffect::FillEdges(len) => (5, len),
        OldAuxEffect::FillDouble(len) => (6, len),
    };
    bytes.push(aux);
    bytes.push(aux_param);
    assert(bytes@ =~= effect_command_spec(color, effect, color2, aux_effect));
    bytes
}

/// The bytes that precede a frame of pixels (`set_pixels`).
pub const FRAME_HEADER: [u8; 8] = [255, 255, 255, 255, 108, 101, 100, 122];

/// Red, green and blue of each pixel in turn.
pub open spec fn rgb_bytes(pixels: Seq<Pixel>) -> Seq<u8>
    decreases pixels.len(),
{
    if pixels.len() == 0 {
        Seq::empty()
    } else {
        rgb_bytes(pixels.drop_last()) + seq![
            pixels.last().red,
            pixels.last().green,
            pixels.last().blue,
        ]
    }
}

/// Red, green, blue and a zero for each pixel in turn, the last byte made 255.
pub open spec fn frame_bytes_spec(pixels: Seq<Pixel>) -> Seq<u8> {
    let b = Seq::new(
        4 * pixels.len(),
        |i: int|
            if i % 4 == 0 {
                pixels[i / 4].red
            } else if i % 4 == 1 {
                pixels[i / 4].green
            } else if i % 4 == 2 {
                pixels[i / 4].blue
            } else {
                0u8
            },
    );
    b.update(b.len() - 1, 255u8)
}

/// For each pixel in turn: `c`, red, green, blue, `l` and its index modulo 256.
pub open spec fn indexed_commands_spec(pixels: Seq<Pixel>) -> Seq<u8> {
    Seq::new(
        6 * pixels.len(),
        |i: int|
            if i % 6 == 0 {
                99u8
            } else if i % 6 == 1 {
                pixels[i / 6].red
            } else if i % 6 == 2 {
                pixels[i / 6].green
            } else if i % 6 == 3 {
                pixels[i / 6].blue
            } else if i % 6 == 4 {
                108u8
            } else {
                (i / 6) as u8
            },
    )
}

/// The bytes `set_pixels4` writes: red, green and blue of each pixel.
pub fn pixel_bytes(pixels: &[Pixel]) -> (bytes: Vec<u8>)
    ensures
        bytes@ == rgb_bytes(pixels@),
{
    let mut bytes: Vec<u8> = Vec::new();
    let mut i: usize = 0;
    while i < pixels.len()
        invariant
            i <= pixels@.len(),
            bytes@ == rgb_bytes(pixels@.take(i as int)),
        decreases pixels@.len() - i,
    {
        let p = pixels[i];
        bytes.push(p.red);
        bytes.push(p.green);
        bytes.push(p.blue);
        proof {
            assert(pixels@.take(i as int + 1).drop_last() =~= pixels@.take(i as int));
        }
        i = i + 1;
        assert(bytes@ =~= rgb_bytes(pixels@.take(i as int)));
    }
    assert(pixels@.take(pixels@.len() as int) =~= pixels@);
    bytes
}

/// The frame `set_pixels` writes after `FRAME_HEADER` (see `frame_bytes_spec`).
pub fn frame_bytes(pixels: &[Pixel]) -> (bytes: Vec<u8>)
    requires
        pixels@.len() > 0,
        4 * pixels@.len() <= usize::MAX,
    ensures
        bytes@ == frame_bytes_spec(pixels@),
{
    let mut bytes: Vec<u8> = Vec::new();
    let mut i: usize = 0;
    let ghost full = Seq::new(
        4 * pixels@.len(),
        |i: int|
            if i % 4 == 0 {
                pixels@[i / 4].red
            } else if i % 4 == 1 {
                pixels@[i / 4].green
            } else if i % 4 == 2 {
                pixels@[i / 4].blue
            } else {
                0u8
            },
    );
    while i < pixels.len()
        invariant
            i <= pixels@.len(),
            bytes@ == full.take(4 * i),
            full.len() == 4 * pixels@.len(),
            full == Seq::new(
                4 * pixels@.len(),
                |i: int|
                    if i % 4 == 0 {
                        pixels@[i / 4].red
                    } else if i % 4 == 1 {
                        pixels@[i / 4].green
                    } else if i % 4 == 2 {
                        pixels@[i / 4].blue
                    } else {
                        0u8
                    },
            ),
        decreases pixels@.len() - i,
    {
        let p = pixels[i];
        bytes.push(p.red);
        bytes.push(p.green);
        bytes.push(p.blue);
        bytes.push(0);
        proof {
            assert forall|j: int| 4 * i <= j < 4 * i + 4 implies #[trigger] full[j] == bytes@[j] by {
                assert(j / 4 == i as int);
            }
        }
        i = i + 1;
        assert(bytes@ =~= full.take(4 * i));
    }
    assert(full.take((4 * pixels@.len()) as int) =~= full);
    let last = bytes.len() - 1;
    bytes.set(last, 255);
    bytes
}

/// The commands `set_pixels2` writes before its final `a`
/// (see `indexed_commands_spec`).
pub fn indexed_commands(pixels: &[Pixel]) -> (bytes: Vec<u8>)
    requires
        6 * pixels@.len() <= usize::MAX,
    ensures
        bytes@ == indexed_commands_spec(pixels@),
{
    let mut bytes: Vec<u8> = Vec::new();
    let mut i: usize = 0;
    let ghost full = indexed_commands_spec(pixels@);
    while i < pixels.len()
        invariant
            i <= pixels@.len(),
            6 * pixels@.len() <= usize::MAX,
            full == indexed_commands_spec(pixels@),
            bytes@ == full.take(6 * i),
        decreases pixels@.len() - i,
    {
        let p = pixels[i];
        bytes.push(99);
        bytes.push(p.red);
        bytes.push(p.green);
        bytes.push(p.blue);
        bytes.push(108);
        bytes.push(i as u8);
        proof {
            assert forall|j: int| 6 * i <= j < 6 * i + 6 implies #[trigger] full[j] == bytes@[j] by {
                assert(j / 6 == i as int);
            }
        }
        i = i + 1;
        assert(bytes@ =~= full.take(6 * i));
    }
    assert(full.take((6 * pixels@.len()) as int) =~= full);
    bytes
}


/// The effects on their own, LED by LED: `Constant` lights every LED, `Flash`
/// none, `SetPix(n)` exactly LED `n`, the widths light spans of `w` LEDs on
/// each side of the middle (of each half, of each quarter), and `Edges(w)` the
/// first and the last `w` LEDs. Unlit LEDs are off.
pub proof fn law_effects_light(color: Pixel, w: u8, count: nat)
    requires
        count > 0,
    ensures
        ({
            let off = Pixel { red: 0, green: 0, blue: 0 };
            let n = count as int;
            let w = w as int;
            let draw = |e: OldEffect| gen_effect_spec(color, e, None, OldAuxEffect::NoAux, count);
            &&& forall|e: OldEffect| #[trigger] draw(e).len() == count
            &&& forall|i: int| 0 <= i < n ==> #[trigger] draw(OldEffect::Constant)[i] == color
            &&& forall|i: int| 0 <= i < n ==> #[trigger] draw(OldEffect::Flash(w as u8))[i] == off
            &&& forall|i: int|
                0 <= i < n ==> #[trigger] draw(OldEffect::SetPix(w as u8))[i] == if i == w {
                    color
                } else {
                    off
                }
            &&& forall|i: int|
                0 <= i < n ==> #[trigger] draw(OldEffect::Width(w as u8))[i] == if n / 2 - w <= i
                    < n / 2 + w {
                    color
                } else {
                    off
                }
            &&& forall|i: int|
                0 <= i < n ==> #[trigger] draw(OldEffect::DoubleWidth(w as u8))[i] == if (n / 4 - w
                    <= i < n / 4 + w) || ((3 * n) / 4 - w <= i < (3 * n) / 4 + w) {
                    color
                } else {
                    off
                }
            &&& forall|i: int|
                0 <= i < n ==> #[trigger] draw(OldEffect::QuadWidth(w as u8))[i] == if (n / 8 - w
                    <= i < n / 8 + w) || ((3 * n) / 8 - w <= i < (3 * n) / 8 + w) || ((5 * n) / 8
                    - w <= i < (5 * n) / 8 + w) || ((7 * n) / 8 - w <= i < (7 * n) / 8 + w) {
                    color
                } else {
                    off
                }
            &&& forall|i: int|
                0 <= i < n ==> #[trigger] draw(OldEffect::Edges(w as u8))[i] == if i < w || i >= n
                    - w {
                    color
                } else {
                    off
                }
        }),
{
}

/// The second effects over an effect, LED by LED: without a second effect
/// the second color plays no part; an offset rotates the strip, LED `i`
/// showing what LED `(i + a) % count` showed; the fills paint their spans in
/// the second color (off when there is none) and leave every other LED as the
/// effect drew it.
pub proof fn law_second_effects(
    color: Pixel,
    effect: OldEffect,
    color2: Option<Pixel>,
    a: u8,
    count: nat,
)
    requires
        count > 0,
    ensures
        ({
            let n = count as int;
            let l = a as int;
            let fill = match color2 {
                Some(c) => c,
                None => Pixel { red: 0, green: 0, blue: 0 },
            };
            let base = gen_effect_spec(color, effect, None, OldAuxEffect::NoAux, count);
            let draw = |x: OldAuxEffect| gen_effect_spec(color, effect, color2, x, count);
            &&& forall|x: OldAuxEffect| #[trigger] draw(x).len() == count
            &&& draw(OldAuxEffect::NoAux) == base
            &&& forall|i: int|
                0 <= i < n ==> #[trigger] draw(OldAuxEffect::Offset(a))[i] == base[(i + l) % n]
            &&& forall|i: int|
                0 <= i < n ==> #[trigger] draw(OldAuxEffect::FillLeft(a))[i] == if i < l {
                    fill
                } else {
                    base[i]
                }
            &&& forall|i: int|
                0 <= i < n ==> #[trigger] draw(OldAuxEffect::FillCenter(a))[i] == if n / 2 - l <= i
                    < n / 2 + l {
                    fill
                } else {
                    base[i]
                }
            &&& forall|i: int|
                0 <= i < n ==> #[trigger] draw(OldAuxEffect::FillRight(a))[i] == if i >= n - l {
                    fill
                } else {
                    base[i]
                }
            &&& forall|i: int|
                0 <= i < n ==> #[trigger] draw(OldAuxEffect::FillEdges(a))[i] == if i < l || i >= n
                    - l {
                    fill
                } else {
                    base[i]
                }
            &&& forall|i: int|
                0 <= i < n ==> #[trigger] draw(OldAuxEffect::FillDouble(a))[i] == if i < l || (n / 2
                    - l <= i < n / 2 + l) || i >= n - l {
                    fill
                } else {
                    base[i]
                }
        }),
{
    let base = gen_effect_spec(color, effect, None, OldAuxEffect::NoAux, count);
    assert(gen_effect_spec(color, effect, color2, OldAuxEffect::NoAux, count) =~= base);
}

/// The command that sets an effect: the color's red, green and blue; the
/// effect's code (`Constant` 0, `Flash` 1, `SetPix` 2, `Width` 3,
/// `DoubleWidth` 4, `QuadWidth` 5, `Edges` 6) and its parameter (0 for
/// `Constant`); the second color's bytes, zeros when there is none; the second
/// effect's code (none 0, `Offset` 1, `FillLeft` 2, `FillCenter` 3,
/// `FillRight` 4, `FillEdges` 5, `FillDouble` 6) and its parameter (0 for none).
pub proof fn law_effect_command_bytes(
    color: Pixel,
    effect: OldEffect,
    color2: Option<Pixel>,
    aux: OldAuxEffect,
)
    ensures
        ({
            let b = effect_command_spec(color, effect, color2, aux);
            &&& b.len() == 10
            &&& b[0] == color.red && b[1] == color.green && b[2] == color.blue
            &&& effect is Constant ==> b[3] == 0 && b[4] == 0
            &&& forall|r: u8| effect == OldEffect::Flash(r) ==> b[3] == 1 && b[4] == r
            &&& forall|r: u8| effect == OldEffect::SetPix(r) ==> b[3] == 2 && b[4] == r
            &&& forall|r: u8| effect == OldEffect::Width(r) ==> b[3] == 3 && b[4] == r
            &&& forall|r: u8| effect == OldEffect::DoubleWidth(r) ==> b[3] == 4 && b[4] == r
            &&& forall|r: u8| effect == OldEffect::QuadWidth(r) ==> b[3] == 5 && b[4] == r
            &&& forall|r: u8| effect == OldEffect::Edges(r) ==> b[3] == 6 && b[4] == r
            &&& forall|c: Pixel|
                color2 == Some(c) ==> b[5] == c.red && b[6] == c.green && b[7] == c.blue
            &&& color2 is None ==> b[5] == 0 && b[6] == 0 && b[7] == 0
            &&& aux is NoAux ==> b[8] == 0 && b[9] == 0
            &&& forall|r: u8| aux == OldAuxEffect::Offset(r) ==> b[8] == 1 && b[9] == r
            &&& forall|r: u8| aux == OldAuxEffect::FillLeft(r) ==> b[8] == 2 && b[9] == r
            &&& forall|r: u8| aux == OldAuxEffect::FillCenter(r) ==> b[8] == 3 && b[9] == r
            &&& forall|r: u8| aux == OldAuxEffect::FillRight(r) ==> b[8] == 4 && b[9] == r
            &&& forall|r: u8| aux == OldAuxEffect::FillEdges(r) ==> b[8] == 5 && b[9] == r
            &&& forall|r: u8| aux == OldAuxEffect::FillDouble(r) ==> b[8] == 6 && b[9] == r
        }),
{
}

/// A frame of `n` pixels is `4 * n` bytes: each pixel's red, green and blue,
/// then a zero, except that the very last byte is 255.
pub proof fn law_frame_layout(pixels: Seq<Pixel>)
    requires
        pixels.len() > 0,
    ensures
        ({
            let b = frame_bytes_spec(pixels);
            let n = pixels.len() as int;
            &&& b.len() == 4 * n
            &&& forall|i: int|
                0 <= i < n ==> b[4 * i] == (#[trigger] pixels[i]).red && b[4 * i + 1]
                    == pixels[i].green && b[4 * i + 2] == pixels[i].blue
            &&& forall|i: int| 0 <= i < n - 1 ==> #[trigger] b[4 * i + 3] == 0
            &&& b[4 * n - 1] == 255
        }),
{
    let b = frame_bytes_spec(pixels);
    let n = pixels.len() as int;
    assert forall|i: int| 0 <= i < n implies b[4 * i] == (#[trigger] pixels[i]).red && b[4 * i
        + 1] == pixels[i].green && b[4 * i + 2] == pixels[i].blue by {
        assert((4 * i) / 4 == i && (4 * i) % 4 == 0) by (nonlinear_arith)
            requires 0 <= i;
        assert((4 * i + 1) / 4 == i && (4 * i + 1) % 4 == 1) by (nonlinear_arith)
            requires 0 <= i;
        assert((4 * i + 2) / 4 == i && (4 * i + 2) % 4 == 2) by (nonlinear_arith)
            requires 0 <= i;
    }
    assert forall|i: int| 0 <= i < n - 1 implies #[trigger] b[4 * i + 3] == 0 by {
        assert((4 * i + 3) % 4 == 3) by (nonlinear_arith)
            requires 0 <= i;
    }
}

/// The bytes of `n` pixels are `3 * n` bytes: each pixel's red, green and
/// blue in turn.
pub proof fn law_pixel_bytes_layout(pixels: Seq<Pixel>)
    ensures
        ({
            let b = rgb_bytes(pixels);
            &&& b.len() == 3 * pixels.len()
            &&& forall|i: int|
                0 <= i < pixels.len() ==> b[3 * i] == (#[trigger] pixels[i]).red && b[3 * i + 1]
                    == pixels[i].green && b[3 * i + 2] == pixels[i].blue
        }),
    decreases pixels.len(),
{
    if pixels.len() > 0 {
        let init = pixels.drop_last();
        law_pixel_bytes_layout(init);
        let b = rgb_bytes(pixels);
        assert forall|i: int| 0 <= i < pixels.len() implies b[3 * i] == (
        #[trigger] pixels[i]).red && b[3 * i + 1] == pixels[i].green && b[3 * i + 2]
            == pixels[i].blue by {
            if i < pixels.len() - 1 {
                assert(init[i] == pixels[i]);
            }
        }
    }
}

/// The indexed commands of `n` pixels are `6 * n` bytes: for pixel `i`, a `c`,
/// its red, green and blue, an `l`, and `i` as a byte.
pub proof fn law_indexed_commands_layout(pixels: Seq<Pixel>)
    ensures
        ({
            let b = indexed_commands_spec(pixels);
            &&& b.len() == 6 * pixels.len()
            &&& forall|i: int|
                0 <= i < pixels.len() ==> b[6 * i] == 99 && b[6 * i + 1] == (
                #[trigger] pixels[i]).red && b[6 * i + 2] == pixels[i].green && b[6 * i + 3]
                    == pixels[i].blue && b[6 * i + 4] == 108 && b[6 * i + 5] == i as u8
        }),
{
    let b = indexed_commands_spec(pixels);
    assert forall|i: int| 0 <= i < pixels.len() implies b[6 * i] == 99 && b[6 * i + 1] == (
    #[trigger] pixels[i]).red && b[6 * i + 2] == pixels[i].green && b[6 * i + 3]
        == pixels[i].blue && b[6 * i + 4] == 108 && b[6 * i + 5] == i as u8 by {
        assert((6 * i) / 6 == i && (6 * i) % 6 == 0) by (nonlinear_arith)
            requires 0 <= i;
        assert((6 * i + 1) / 6 == i && (6 * i + 1) % 6 == 1) by (nonlinear_arith)
            requires 0 <= i;
        assert((6 * i + 2) / 6 == i && (6 * i + 2) % 6 == 2) by (nonlinear_arith)
            requires 0 <= i;
        assert((6 * i + 3) / 6 == i && (6 * i + 3) % 6 == 3) by (nonlinear_arith)
            requires 0 <= i;
        assert((6 * i + 4) / 6 == i && (6 * i + 4) % 6 == 4) by (nonlinear_arith)
            requires 0 <= i;
        assert((6 * i + 5) / 6 == i && (6 * i + 5) % 6 == 5) by (nonlinear_arith)
            requires 0 <= i;
    }
}


/// Which effects fit a strip of `count` LEDs: the steady one always,
/// flashing never, one LED when it is on the strip, a width when both sides
/// of the middle fit, edges and fills from the ends when they fit, fills
/// around the middle when both sides fit.
pub proof fn law_what_fits(w: u8, count: int)
    requires
        count > 0,
    ensures
        effect_drawable(OldEffect::Constant, count),
        !effect_drawable(OldEffect::Flash(w), count),
        effect_drawable(OldEffect::SetPix(w), count) <==> w < count,
        effect_drawable(OldEffect::Width(w), count) <==> 2 * w <= count,
        effect_drawable(OldEffect::Edges(w), count) <==> w <= count,
        aux_drawable(OldAuxEffect::NoAux, count),
        aux_drawable(OldAuxEffect::FillLeft(w), count) <==> w <= count,
        aux_drawable(OldAuxEffect::FillRight(w), count) <==> w <= count,
        aux_drawable(OldAuxEffect::FillEdges(w), count) <==> w <= count,
        aux_drawable(OldAuxEffect::FillCenter(w), count) <==> 2 * w <= count,
        aux_drawable(OldAuxEffect::FillDouble(w), count) <==> 2 * w <= count,
{
}

} // verus!
