//! The triangles of the strip visualisation: each LED (and each edge of the
//! frame around the strip) is drawn as a box of eight vertices, whose six
//! faces are twelve triangles.

use vstd::prelude::*;

verus! {

/// The vertex numbers, within a box of eight, of the twelve triangles of its
/// six faces.
pub open spec fn box_pattern() -> Seq<u16> {
    seq![
        0u16, 1, 2, 2, 3, 0,
        4, 0, 3, 3, 7, 4,
        5, 1, 0, 0, 4, 5,
        6, 2, 1, 1, 5, 6,
        7, 3, 2, 2, 6, 7,
        6, 5, 4, 4, 7, 6,
    ]
}

/// The triangles of the box whose vertices start at `o`.
pub open spec fn box_indices_spec(o: int) -> Seq<u16> {
    Seq::new(36, |k: int| (o + box_pattern()[k]) as u16)
}

/// The triangles of box number `n`, whose vertices start at `8 * n`.
pub fn box_indices(n: u16) -> (is: Vec<u16>)
    requires
        8 * n + 7 <= u16::MAX,
    ensures
        is@ == box_indices_spec(8 * n),
{
    let o = n * 8;
    let pattern: [u16; 36] = [
        0, 1, 2, 2, 3, 0,
        4, 0, 3, 3, 7, 4,
        5, 1, 0, 0, 4, 5,
        6, 2, 1, 1, 5, 6,
        7, 3, 2, 2, 6, 7,
        6, 5, 4, 4, 7, 6,
    ];
    assert(pattern@ =~= box_pattern());
    let mut is: Vec<u16> = Vec::new();
    let mut k: usize = 0;
    while k < 36
        invariant
            k <= 36,
            o == 8 * n,
            o + 7 <= u16::MAX,
            pattern@ == box_pattern(),
            is@ == box_indices_spec(o as int).take(k as int),
        decreases 36 - k,
    {
        assert(pattern@[k as int] <= 7);
        is.push(o + pattern[k]);
        k = k + 1;
        assert(is@ =~= box_indices_spec(o as int).take(k as int));
    }
    assert(box_indices_spec(o as int).take(36) =~= box_indices_spec(o as int));
    is
}

/// The triangles of the boxes `0..n`, box after box.
pub open spec fn strip_indices_spec(n: nat) -> Seq<u16>
    decreases n,
{
    if n == 0 {
        Seq::empty()
    } else {
        strip_indices_spec((n - 1) as nat) + box_indices_spec(8 * (n - 1))
    }
}

/// The triangles of a strip of `len` LEDs: one box between each LED and the next.
pub fn strip_indices(len: usize) -> (is: Vec<u16>)
    requires
        len <= 8193,
    ensures
        is@ == strip_indices_spec(if len > 0 { (len - 1) as nat } else { 0 }),
{
    let boxes: usize = if len > 0 {
        len - 1
    } else {
        0
    };
    let mut is: Vec<u16> = Vec::new();
    let mut i: usize = 0;
    while i < boxes
        invariant
            i <= boxes,
            boxes <= 8192,
            is@ == strip_indices_spec(i as nat),
        decreases boxes - i,
    {
        let b = box_indices(i as u16);
        is.extend_from_slice(b.as_slice());
        i = i + 1;
    }
    is
}

} // verus!
