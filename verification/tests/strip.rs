use lednet::led_control::Pixel;
use lednet::lednet::{
    frame_packet, frame_payload, uniform_strip, Message, LED_CHANNEL, LED_EPOCH, NUM_LEDS,
};
use lednet::patterns::{banded_strip, bulk_step, BAND_LEN};
use lednet::multinet::{AssembledDataPacket, ChannelID};
use lednet::vamp::{InputDomain, RealTime};
use lednet::visual::{box_indices, strip_indices};

#[test]
fn real_time_holds_its_parts() {
    let t = RealTime::new(3, 500);
    assert_eq!(t.sec, 3);
    assert_eq!(t.nsec, 500);
    assert_eq!(t, RealTime { sec: 3, nsec: 500 });
}

#[test]
fn input_domain_codes() {
    assert_eq!(InputDomain::from_code(0), InputDomain::TimeDomain);
    assert_eq!(InputDomain::from_code(1), InputDomain::FrequencyDomain);
}

#[test]
fn first_box_uses_vertices_zero_to_seven() {
    assert_eq!(
        box_indices(0),
        vec![
            0, 1, 2, 2, 3, 0, 4, 0, 3, 3, 7, 4, 5, 1, 0, 0, 4, 5, 6, 2, 1, 1, 5, 6, 7, 3, 2, 2,
            6, 7, 6, 5, 4, 4, 7, 6,
        ]
    );
}

#[test]
fn later_boxes_are_shifted_by_eight() {
    let first = box_indices(0);
    let third = box_indices(2);
    assert_eq!(third.len(), 36);
    for k in 0..36 {
        assert_eq!(third[k], first[k] + 16);
    }
}

#[test]
fn strip_has_one_box_between_neighbours() {
    assert!(strip_indices(0).is_empty());
    assert!(strip_indices(1).is_empty());
    let s = strip_indices(3);
    assert_eq!(s.len(), 72);
    assert_eq!(&s[..36], &box_indices(0)[..]);
    assert_eq!(&s[36..], &box_indices(1)[..]);
    assert_eq!(strip_indices(NUM_LEDS).len(), (NUM_LEDS - 1) * 36);
}

#[test]
fn frames_travel_on_the_led_channel() {
    let p = frame_packet(vec![1, 2, 3]);
    assert_eq!(p.channel, ChannelID(LED_CHANNEL));
    assert_eq!(p.epoch, LED_EPOCH);
    assert_eq!(p.msg_id, 42);
    assert_eq!(frame_payload(&p), Some(&vec![1, 2, 3]));
}

#[test]
fn other_channels_carry_no_frame() {
    let p = AssembledDataPacket::new(vec![1], ChannelID::new(LED_CHANNEL + 1), LED_EPOCH);
    assert_eq!(frame_payload(&p), None);
}

#[test]
fn uniform_strip_repeats_the_color() {
    let c = Pixel { red: 9, green: 8, blue: 7 };
    let m = Message { pixels: uniform_strip(c, NUM_LEDS) };
    assert_eq!(m.pixels.len(), 427);
    assert!(m.pixels.iter().all(|p| *p == c));
    assert!(uniform_strip(c, 0).is_empty());
}

#[test]
fn banded_strip_cycles_three_colors() {
    let red = Pixel { red: 255, green: 0, blue: 0 };
    let pink = Pixel { red: 255, green: 128, blue: 196 };
    let blue = Pixel { red: 0, green: 0, blue: 255 };
    let s = banded_strip(NUM_LEDS);
    assert_eq!(s.len(), 427);
    assert_eq!(BAND_LEN, 61);
    assert_eq!(s[0], red);
    assert_eq!(s[60], red);
    assert_eq!(s[61], pink);
    assert_eq!(s[122], blue);
    assert_eq!(s[183], red);
    assert_eq!(s[365], blue);
    assert_eq!(s[426], red);
    assert!(banded_strip(0).is_empty());
}

#[test]
fn bulk_step_sets_red_by_index_and_green_by_step() {
    let base = Pixel { red: 1, green: 2, blue: 3 };
    let mut v = vec![base; 300];
    bulk_step(&mut v, 7);
    assert_eq!(v.len(), 300);
    assert_eq!(v[0], Pixel { red: 0, green: 7, blue: 3 });
    assert_eq!(v[254], Pixel { red: 254, green: 7, blue: 3 });
    assert_eq!(v[255], Pixel { red: 0, green: 7, blue: 3 });
    assert_eq!(v[299], Pixel { red: 44, green: 7, blue: 3 });
    bulk_step(&mut v, 8);
    assert_eq!(v[10], Pixel { red: 10, green: 8, blue: 3 });
}

#[test]
fn longest_strip_uses_every_u16_index() {
    let s = strip_indices(8193);
    assert_eq!(s.len(), 8192 * 36);
    assert_eq!(*s.iter().max().unwrap(), 65535);
}
