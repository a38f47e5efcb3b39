//! Test patterns of the strip tools: coloured bands, and the running
//! gradient of the bulk-transfer test.

use vstd::prelude::*;
use crate::led_control::Pixel;

verus! {

/// The number of LEDs in a band of the test pattern.
pub const BAND_LEN: usize = 61;

/// The color of band `b` of the test pattern: red, pink and blue in turn.
pub open spec fn band_color(b: int) -> Pixel {
    if b % 3 == 0 {
        Pixel { red: 255, green: 0, blue: 0 }
    } else if b % 3 == 1 {
        Pixel { red: 255, green: 128, blue: 196 }
    } else {
        Pixel { red: 0, green: 0, blue: 255 }
    }
}

/// The test pattern of the command-line tools on `n` LEDs: bands of
/// `BAND_LEN` LEDs, red, pink and blue in turn.
pub fn banded_strip(n: usize) -> (v: Vec<Pixel>)
    ensures
        v@ == Seq::new(n as nat, |i: int| band_color(i / BAND_LEN as int)),
{
    let mut v: Vec<Pixel> = Vec::new();
    let mut i: usize = 0;
    while i < n
        invariant
            i <= n,
            v@ == Seq::new(i as nat, |j: int| band_color(j / BAND_LEN as int)),
        decreases n - i,
    {
        let c = match (i / BAND_LEN) % 3 {
            0 => Pixel { red: 255, green: 0, blue: 0 },
            1 => Pixel { red: 255, green: 128, blue: 196 },
            _ => Pixel { red: 0, green: 0, blue: 255 },
        };
        v.push(c);
        i = i + 1;
        assert(v@ =~= Seq::new(i as nat, |j: int| band_color(j / BAND_LEN as int)));
    }
    v
}

/// One step of the bulk-transfer test: every LED's red becomes its index
/// modulo 255 and its green becomes `step`; blue stays.
pub fn bulk_step(v: &mut Vec<Pixel>, step: u8)
    ensures
        final(v)@ == Seq::new(
            old(v)@.len(),
            |k: int| Pixel { red: (k % 255) as u8, green: step, blue: old(v)@[k].blue },
        ),
{
    let ghost start = v@;
    let n = v.len();
    let mut k: usize = 0;
    while k < n
        invariant
            k <= n,
            n == start.len(),
            v@.len() == n,
            forall|j: int|
                0 <= j < n ==> #[trigger] v@[j] == if j < k {
                    Pixel { red: (j % 255) as u8, green: step, blue: start[j].blue }
                } else {
                    start[j]
                },
        decreases n - k,
    {
        let blue = v[k].blue;
        v.set(k, Pixel { red: (k % 255) as u8, green: step, blue });
        k = k + 1;
    }
    assert(v@ =~= Seq::new(
        start.len(),
        |k: int| Pixel { red: (k % 255) as u8, green: step, blue: start[k].blue },
    ));
}

} // verus!
