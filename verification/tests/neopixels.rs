use lednet::led_control::Pixel;
use lednet::neopixels::{
    aux_by_name, chosen_aux, chosen_effect, effect_by_name, string_to_opts, AuxEffect, Effect,
};

fn px(red: u8, green: u8, blue: u8) -> Pixel {
    Pixel { red, green, blue }
}

#[test]
fn reads_a_full_line() {
    assert_eq!(
        string_to_opts("255 0 10 Width 5 0 0 255 FillLeft 3"),
        Some((px(255, 0, 10), Effect::Width(5), Some(px(0, 0, 255)), AuxEffect::FillLeft(3)))
    );
}

#[test]
fn flash_reads_as_width() {
    assert_eq!(
        string_to_opts("1 2 3 Flash 7 4 5 6 None 0"),
        Some((px(1, 2, 3), Effect::Width(7), Some(px(4, 5, 6)), AuxEffect::NoAux))
    );
}

#[test]
fn every_effect_name_is_read() {
    let cases = [
        ("Constant", Effect::Constant),
        ("SetPix", Effect::SetPix(9)),
        ("Width", Effect::Width(9)),
        ("DoubleWidth", Effect::DoubleWidth(9)),
        ("QuadWidth", Effect::QuadWidth(9)),
        ("Edges", Effect::Edges(9)),
    ];
    for (name, effect) in cases.iter() {
        let line = format!("0 0 0 {} 9 0 0 0 None 0", name);
        assert_eq!(string_to_opts(&line).map(|o| o.1), Some(*effect));
    }
}

#[test]
fn every_second_effect_name_is_read() {
    let cases = [
        ("None", AuxEffect::NoAux),
        ("Offset", AuxEffect::Offset(4)),
        ("FillLeft", AuxEffect::FillLeft(4)),
        ("FillCenter", AuxEffect::FillCenter(4)),
        ("FillRight", AuxEffect::FillRight(4)),
        ("FillEdges", AuxEffect::FillEdges(4)),
        ("FillDouble", AuxEffect::FillDouble(4)),
    ];
    for (name, aux) in cases.iter() {
        let line = format!("0 0 0 Constant 0 0 0 0 {} 4", name);
        assert_eq!(string_to_opts(&line).map(|o| o.3), Some(*aux));
    }
}

#[test]
fn any_whitespace_separates_words() {
    assert_eq!(
        string_to_opts("  1\t2\n3  Edges 4 5 6 7   FillRight 8 "),
        Some((px(1, 2, 3), Effect::Edges(4), Some(px(5, 6, 7)), AuxEffect::FillRight(8)))
    );
}

#[test]
fn numbers_take_a_plus_sign() {
    assert_eq!(
        string_to_opts("+1 2 3 Constant +0 4 5 6 None 0").map(|o| o.0),
        Some(px(1, 2, 3))
    );
}

#[test]
fn wrong_word_count_is_refused() {
    assert_eq!(string_to_opts(""), None);
    assert_eq!(string_to_opts("1 2 3 Constant 0 4 5 6 None"), None);
    assert_eq!(string_to_opts("1 2 3 Constant 0 4 5 6 None 0 extra"), None);
}

#[test]
fn bad_numbers_are_refused() {
    assert_eq!(string_to_opts("256 2 3 Constant 0 4 5 6 None 0"), None);
    assert_eq!(string_to_opts("1 2 3 Constant -1 4 5 6 None 0"), None);
    assert_eq!(string_to_opts("1 2 3 Constant 0 4 x 6 None 0"), None);
    assert_eq!(string_to_opts("1 2 3 Constant 0 4 5 6 None 1000"), None);
}

#[test]
fn unknown_names_are_refused() {
    assert_eq!(string_to_opts("1 2 3 Blink 0 4 5 6 None 0"), None);
    assert_eq!(string_to_opts("1 2 3 Constant 0 4 5 6 Fill 0"), None);
    assert_eq!(string_to_opts("1 2 3 constant 0 4 5 6 None 0"), None);
}

#[test]
fn effects_are_found_by_name() {
    assert_eq!(effect_by_name("QuadWidth", 3), Some(Effect::QuadWidth(3)));
    assert_eq!(effect_by_name("Flash", 3), Some(Effect::Width(3)));
    assert_eq!(effect_by_name("Sparkle", 3), None);
    assert_eq!(aux_by_name("FillEdges", 2), Some(AuxEffect::FillEdges(2)));
    assert_eq!(aux_by_name("", 2), None);
}

#[test]
fn command_line_choice_defaults() {
    assert_eq!(chosen_effect(None, Some(9)), Some(Effect::Constant));
    assert_eq!(chosen_effect(Some("Width"), None), Some(Effect::Width(5)));
    assert_eq!(chosen_effect(Some("Edges"), Some(9)), Some(Effect::Edges(9)));
    assert_eq!(chosen_effect(Some("Nope"), Some(9)), None);
    assert_eq!(chosen_aux(None, None), Some(AuxEffect::NoAux));
    assert_eq!(chosen_aux(Some("Offset"), None), Some(AuxEffect::Offset(5)));
    assert_eq!(chosen_aux(Some("FillLeft"), Some(1)), Some(AuxEffect::FillLeft(1)));
}
