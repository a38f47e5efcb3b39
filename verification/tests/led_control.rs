use lednet::led_control::{
    effect_command, effect_fits, frame_bytes, gen_effect, indexed_commands, parse_hex_color, pixel_bytes,
    OldAuxEffect, OldEffect, Pixel, FRAME_HEADER,
};

const K: Pixel = Pixel { red: 0, green: 0, blue: 0 };
const R: Pixel = Pixel { red: 255, green: 0, blue: 0 };
const B: Pixel = Pixel { red: 0, green: 0, blue: 255 };

#[test]
fn pixel_default_is_black() {
    assert_eq!(Pixel::default(), K);
}

#[test]
fn pixel_from_slice_takes_first_three_bytes() {
    assert_eq!(
        Pixel::from_slice(&[1, 2, 3, 4]),
        Pixel { red: 1, green: 2, blue: 3 }
    );
}

#[test]
fn constant_lights_every_led() {
    assert_eq!(gen_effect(R, OldEffect::Constant, None, OldAuxEffect::NoAux, 4), vec![R; 4]);
}

#[test]
fn flash_leaves_the_strip_dark() {
    assert_eq!(gen_effect(R, OldEffect::Flash(3), None, OldAuxEffect::NoAux, 3), vec![K; 3]);
}

#[test]
fn set_pix_lights_one_led() {
    assert_eq!(
        gen_effect(R, OldEffect::SetPix(2), None, OldAuxEffect::NoAux, 4),
        vec![K, K, R, K]
    );
}

#[test]
fn width_lights_around_the_center() {
    assert_eq!(
        gen_effect(R, OldEffect::Width(1), None, OldAuxEffect::NoAux, 6),
        vec![K, K, R, R, K, K]
    );
}

#[test]
fn double_width_lights_two_spans() {
    assert_eq!(
        gen_effect(R, OldEffect::DoubleWidth(1), None, OldAuxEffect::NoAux, 8),
        vec![K, R, R, K, K, R, R, K]
    );
}

#[test]
fn quad_width_lights_four_spans() {
    let p = gen_effect(R, OldEffect::QuadWidth(1), None, OldAuxEffect::NoAux, 16);
    let lit: Vec<usize> = (0..16).filter(|&i| p[i] == R).collect();
    assert_eq!(lit, vec![1, 2, 5, 6, 9, 10, 13, 14]);
}

#[test]
fn edges_light_both_ends() {
    assert_eq!(
        gen_effect(R, OldEffect::Edges(1), None, OldAuxEffect::NoAux, 5),
        vec![R, K, K, K, R]
    );
}

#[test]
fn offset_rotates_the_strip() {
    assert_eq!(
        gen_effect(R, OldEffect::Width(1), None, OldAuxEffect::Offset(1), 6),
        vec![K, R, R, K, K, K]
    );
}

#[test]
fn fill_left_paints_the_start() {
    assert_eq!(
        gen_effect(R, OldEffect::Constant, Some(B), OldAuxEffect::FillLeft(2), 4),
        vec![B, B, R, R]
    );
}

#[test]
fn fill_center_paints_the_middle() {
    assert_eq!(
        gen_effect(R, OldEffect::Constant, Some(B), OldAuxEffect::FillCenter(1), 6),
        vec![R, R, B, B, R, R]
    );
}

#[test]
fn fill_right_paints_the_end() {
    assert_eq!(
        gen_effect(R, OldEffect::Constant, Some(B), OldAuxEffect::FillRight(1), 4),
        vec![R, R, R, B]
    );
}

#[test]
fn fill_edges_paints_both_ends() {
    assert_eq!(
        gen_effect(R, OldEffect::Constant, Some(B), OldAuxEffect::FillEdges(1), 4),
        vec![B, R, R, B]
    );
}

#[test]
fn fill_double_paints_ends_and_middle() {
    assert_eq!(
        gen_effect(R, OldEffect::Constant, Some(B), OldAuxEffect::FillDouble(1), 6),
        vec![B, R, B, B, R, B]
    );
}

#[test]
fn absent_second_color_fills_black() {
    assert_eq!(
        gen_effect(R, OldEffect::Constant, None, OldAuxEffect::FillLeft(1), 3),
        vec![K, R, R]
    );
}

#[test]
fn effect_command_lays_out_ten_bytes() {
    let c = Pixel { red: 1, green: 2, blue: 3 };
    let c2 = Pixel { red: 4, green: 5, blue: 6 };
    assert_eq!(
        effect_command(c, OldEffect::Width(5), Some(c2), OldAuxEffect::FillLeft(7)),
        vec![1, 2, 3, 3, 5, 4, 5, 6, 2, 7]
    );
    assert_eq!(
        effect_command(c, OldEffect::Constant, None, OldAuxEffect::NoAux),
        vec![1, 2, 3, 0, 0, 0, 0, 0, 0, 0]
    );
    assert_eq!(
        effect_command(c, OldEffect::Flash(9), None, OldAuxEffect::FillDouble(8)),
        vec![1, 2, 3, 1, 9, 0, 0, 0, 6, 8]
    );
    assert_eq!(
        effect_command(c, OldEffect::Edges(2), None, OldAuxEffect::Offset(4)),
        vec![1, 2, 3, 6, 2, 0, 0, 0, 1, 4]
    );
}

#[test]
fn frame_header_spells_ledz() {
    assert_eq!(FRAME_HEADER, [255, 255, 255, 255, b'l', b'e', b'd', b'z']);
}

#[test]
fn frame_bytes_pad_and_end_with_255() {
    let p = [Pixel { red: 1, green: 2, blue: 3 }, Pixel { red: 4, green: 5, blue: 6 }];
    assert_eq!(frame_bytes(&p), vec![1, 2, 3, 0, 4, 5, 6, 255]);
}

#[test]
fn indexed_commands_number_each_pixel() {
    let p = [Pixel { red: 1, green: 2, blue: 3 }, Pixel { red: 4, green: 5, blue: 6 }];
    assert_eq!(
        indexed_commands(&p),
        vec![b'c', 1, 2, 3, b'l', 0, b'c', 4, 5, 6, b'l', 1]
    );
}

#[test]
fn indexed_commands_wrap_the_index() {
    let p = vec![R; 257];
    let b = indexed_commands(&p);
    assert_eq!(b.len(), 257 * 6);
    assert_eq!(b[256 * 6 + 5], 0);
    assert_eq!(b[255 * 6 + 5], 255);
}

#[test]
fn pixel_bytes_are_rgb_triples() {
    let p = [Pixel { red: 1, green: 2, blue: 3 }, Pixel { red: 4, green: 5, blue: 6 }];
    assert_eq!(pixel_bytes(&p), vec![1, 2, 3, 4, 5, 6]);
    assert_eq!(pixel_bytes(&[]), Vec::<u8>::new());
}

#[test]
fn hex_color_reads_rrggbb() {
    assert_eq!(parse_hex_color("#ff8000"), Some(Pixel { red: 255, green: 128, blue: 0 }));
    assert_eq!(parse_hex_color("#FF8000"), Some(Pixel { red: 255, green: 128, blue: 0 }));
    assert_eq!(parse_hex_color("#0a0B0c trailing"), Some(Pixel { red: 10, green: 11, blue: 12 }));
}

#[test]
fn hex_color_refuses_bad_text() {
    assert_eq!(parse_hex_color("#ff80"), None);
    assert_eq!(parse_hex_color("#gg0000"), None);
    assert_eq!(parse_hex_color(""), None);
    assert_eq!(parse_hex_color("#ffé000"), None);
}

#[test]
fn hex_color_takes_a_plus_sign_as_std_does() {
    assert_eq!(parse_hex_color("#+f0000"), Some(Pixel { red: 15, green: 0, blue: 0 }));
    assert_eq!(parse_hex_color("#-f0000"), None);
}

#[test]
fn effect_fits_checks_the_spans() {
    assert!(effect_fits(OldEffect::Constant, OldAuxEffect::NoAux, 1));
    assert!(!effect_fits(OldEffect::Constant, OldAuxEffect::NoAux, 0));
    assert!(!effect_fits(OldEffect::Flash(1), OldAuxEffect::NoAux, 10));
    assert!(effect_fits(OldEffect::SetPix(9), OldAuxEffect::NoAux, 10));
    assert!(!effect_fits(OldEffect::SetPix(10), OldAuxEffect::NoAux, 10));
    assert!(effect_fits(OldEffect::Width(5), OldAuxEffect::NoAux, 10));
    assert!(!effect_fits(OldEffect::Width(6), OldAuxEffect::NoAux, 10));
    assert!(effect_fits(OldEffect::DoubleWidth(2), OldAuxEffect::NoAux, 8));
    assert!(!effect_fits(OldEffect::DoubleWidth(3), OldAuxEffect::NoAux, 8));
    assert!(effect_fits(OldEffect::QuadWidth(1), OldAuxEffect::NoAux, 8));
    assert!(!effect_fits(OldEffect::QuadWidth(2), OldAuxEffect::NoAux, 8));
    assert!(!effect_fits(OldEffect::QuadWidth(0), OldAuxEffect::NoAux, usize::MAX));
    assert!(effect_fits(OldEffect::Edges(10), OldAuxEffect::NoAux, 10));
    assert!(!effect_fits(OldEffect::Edges(11), OldAuxEffect::NoAux, 10));
    assert!(effect_fits(OldEffect::Constant, OldAuxEffect::Offset(255), 10));
    assert!(effect_fits(OldEffect::Constant, OldAuxEffect::FillDouble(5), 10));
    assert!(!effect_fits(OldEffect::Constant, OldAuxEffect::FillDouble(6), 10));
    assert!(!effect_fits(OldEffect::Constant, OldAuxEffect::FillRight(11), 10));
    assert!(!effect_fits(OldEffect::Constant, OldAuxEffect::FillCenter(6), 10));
}
