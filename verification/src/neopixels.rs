//! The serial strip driver's own names for pixels and effects, and the
//! one-line text form in which its streaming tool reads them.

use vstd::prelude::*;
use crate::led_control::{OldAuxEffect, OldEffect, Pixel};
use crate::text::{chars_of, codes_of, parse_u8, parse_u8_radix, spells, split_words, words};

verus! {

/// The effects of the strip driver (the same as the controller's).
pub type Effect = OldEffect;

/// The second effects of the strip driver (the same as the controller's).
pub type AuxEffect = OldAuxEffect;

/// A word read as a decimal byte.
pub open spec fn dec_u8(w: Seq<char>) -> Option<u8> {
    parse_u8_radix(codes_of(w), 10)
}

/// The effect that the word `name` names, with parameter `param` (the word
/// `Flash` gives a width).
pub open spec fn effect_named(name: Seq<char>, param: u8) -> Option<Effect> {
    if name == "Constant"@ {
        Some(OldEffect::Constant)
    } else if name == "Flash"@ {
        Some(OldEffect::Width(param))
    } else if name == "SetPix"@ {
        Some(OldEffect::SetPix(param))
    } else if name == "Width"@ {
        Some(OldEffect::Width(param))
    } else if name == "DoubleWidth"@ {
        Some(OldEffect::DoubleWidth(param))
    } else if name == "QuadWidth"@ {
        Some(OldEffect::QuadWidth(param))
    } else if name == "Edges"@ {
        Some(OldEffect::Edges(param))
    } else {
        None
    }
}

/// The second effect that the word `name` names, with parameter `param`.
pub open spec fn aux_named(name: Seq<char>, param: u8) -> Option<AuxEffect> {
    if name == "None"@ {
        Some(OldAuxEffect::NoAux)
    } else if name == "Offset"@ {
        Some(OldAuxEffect::Offset(param))
    } else if name == "FillLeft"@ {
        Some(OldAuxEffect::FillLeft(param))
    } else if name == "FillCenter"@ {
        Some(OldAuxEffect::FillCenter(param))
    } else if name == "FillRight"@ {
        Some(OldAuxEffect::FillRight(param))
    } else if name == "FillEdges"@ {
        Some(OldAuxEffect::FillEdges(param))
    } else if name == "FillDouble"@ {
        Some(OldAuxEffect::FillDouble(param))
    } else {
        None
    }
}

/// The pixel written by three decimal words.
pub open spec fn pixel_words(r: Seq<char>, g: Seq<char>, b: Seq<char>) -> Option<Pixel> {
    match (dec_u8(r), dec_u8(g), dec_u8(b)) {
        (Some(red), Some(green), Some(blue)) => Some(Pixel { red, green, blue }),
        _ => None,
    }
}

/// A line of exactly ten words: red, green, blue, effect name, effect
/// parameter, second red, green, blue, second effect name, second parameter.
pub open spec fn opts_spec(s: Seq<char>) -> Option<(Pixel, Effect, Option<Pixel>, AuxEffect)> {
    let v = words(s);
    if v.len() != 10 {
        None
    } else {
        match (pixel_words(v[0], v[1], v[2]), dec_u8(v[4]), pixel_words(v[5], v[6], v[7]), dec_u8(v[9])) {
            (Some(color), Some(param), Some(aux_color), Some(aux_param)) => match (
                effect_named(v[3], param),
                aux_named(v[8], aux_param),
            ) {
                (Some(effect), Some(aux)) => Some((color, effect, Some(aux_color), aux)),
                _ => None,
            },
            _ => None,
        }
    }
}

fn effect_from_word(w: &Vec<char>, param: u8) -> (r: Option<Effect>)
    ensures
        r == effect_named(w@, param),
{
    if spells(w, "Constant") {
        Some(OldEffect::Constant)
    } else if spells(w, "Flash") {
        Some(OldEffect::Width(param))
    } else if spells(w, "SetPix") {
        Some(OldEffect::SetPix(param))
    } else if spells(w, "Width") {
        Some(OldEffect::Width(param))
    } else if spells(w, "DoubleWidth") {
        Some(OldEffect::DoubleWidth(param))
    } else if spells(w, "QuadWidth") {
        Some(OldEffect::QuadWidth(param))
    } else if spells(w, "Edges") {
        Some(OldEffect::Edges(param))
    } else {
        None
    }
}

fn aux_from_word(w: &Vec<char>, param: u8) -> (r: Option<AuxEffect>)
    ensures
        r == aux_named(w@, param),
{
    if spells(w, "None") {
        Some(OldAuxEffect::NoAux)
    } else if spells(w, "Offset") {
        Some(OldAuxEffect::Offset(param))
    } else if spells(w, "FillLeft") {
        Some(OldAuxEffect::FillLeft(param))
    } else if spells(w, "FillCenter") {
        Some(OldAuxEffect::FillCenter(param))
    } else if spells(w, "FillRight") {
        Some(OldAuxEffect::FillRight(param))
    } else if spells(w, "FillEdges") {
        Some(OldAuxEffect::FillEdges(param))
    } else if spells(w, "FillDouble") {
        Some(OldAuxEffect::FillDouble(param))
    } else {
        None
    }
}

/// The effect named `name` with parameter `param` (see `effect_named`).
pub fn effect_by_name(name: &str, param: u8) -> (r: Option<Effect>)
    ensures
        r == effect_named(name@, param),
{
    let w = chars_of(name);
    effect_from_word(&w, param)
}

/// The second effect named `name` with parameter `param` (see `aux_named`).
pub fn aux_by_name(name: &str, param: u8) -> (r: Option<AuxEffect>)
    ensures
        r == aux_named(name@, param),
{
    let w = chars_of(name);
    aux_from_word(&w, param)
}

/// The effect the command-line tools draw: the one named, with `param` or
/// else 5; `Constant` when none is named.
pub fn chosen_effect(name: Option<&str>, param: Option<u8>) -> (r: Option<Effect>)
    ensures
        name is None ==> r == Some(OldEffect::Constant),
        name matches Some(n) ==> r == effect_named(
            n@,
            match param {
                Some(p) => p,
                None => 5,
            },
        ),
{
    match name {
        None => Some(OldEffect::Constant),
        Some(n) => {
            let p = match param {
                Some(p) => p,
                None => 5,
            };
            effect_by_name(n, p)
        },
    }
}

/// The second effect the command-line tools draw: the one named, with `param`
/// or else 5; none when none is named.
pub fn chosen_aux(name: Option<&str>, param: Option<u8>) -> (r: Option<AuxEffect>)
    ensures
        name is None ==> r == Some(OldAuxEffect::NoAux),
        name matches Some(n) ==> r == aux_named(
            n@,
            match param {
                Some(p) => p,
                None => 5,
            },
        ),
{
    match name {
        None => Some(OldAuxEffect::NoAux),
        Some(n) => {
            let p = match param {
                Some(p) => p,
                None => 5,
            };
            aux_by_name(n, p)
        },
    }
}

fn pixel_from_words(r: &Vec<char>, g: &Vec<char>, b: &Vec<char>) -> (p: Option<Pixel>)
    ensures
        p == pixel_words(r@, g@, b@),
{
    match (parse_u8(r), parse_u8(g), parse_u8(b)) {
        (Some(red), Some(green), Some(blue)) => Some(Pixel { red, green, blue }),
        _ => None,
    }
}

/// Reads a color, an effect, a second color and a second effect from a line of
/// text (see `opts_spec`).
pub fn string_to_opts(s: &str) -> (r: Option<(Pixel, Effect, Option<Pixel>, AuxEffect)>)
    ensures
        r == opts_spec(s@),
{
    let v = split_words(s);
    let ghost vs = v@.map_values(|w: Vec<char>| w@);
    if v.len() != 10 {
        return None;
    }
    assert(forall|i: int| 0 <= i < 10 ==> #[trigger] vs[i] == v@[i]@);
    let color = match pixel_from_words(&v[0], &v[1], &v[2]) {
        Some(c) => c,
        None => return None,
    };
    let param = match parse_u8(&v[4]) {
        Some(p) => p,
        None => return None,
    };
    let effect = match effect_from_word(&v[3], param) {
        Some(e) => e,
        None => return None,
    };
    let aux_color = match pixel_from_words(&v[5], &v[6], &v[7]) {
        Some(c) => c,
        None => return None,
    };
    let aux_param = match parse_u8(&v[9]) {
        Some(p) => p,
        None => return None,
    };
    let aux_effect = match aux_from_word(&v[8], aux_param) {
        Some(e) => e,
        None => return None,
    };
    Some((color, effect, Some(aux_color), aux_effect))
}

} // verus!
