use lednet::kv::KVPacket;
use lednet::multinet::DecodeError;
use lednet::protocol::{
    Frame, FrameHeader, FromPacket, PacketError, PacketJoiner, PacketSplitter, ServerCodec,
    FRAME_HEADER_LEN,
};

#[test]
fn codec_writes_little_endian_header() {
    let mut codec = ServerCodec;
    let mut buf = vec![9];
    let f = Frame {
        header: FrameHeader { id: 0x0102030405060708, len: 0x0a0b, size: 0x0c0d },
        num: 3,
        payload: vec![7, 8],
    };
    codec.encode(f, &mut buf);
    assert_eq!(
        buf,
        vec![9, 8, 7, 6, 5, 4, 3, 2, 1, 0x0b, 0x0a, 0x0d, 0x0c, 3, 7, 8]
    );
}

#[test]
fn codec_reads_what_it_writes() {
    let mut codec = ServerCodec;
    let mut buf = vec![];
    let header = FrameHeader { id: u64::MAX - 5, len: 300, size: 184 };
    codec.encode(Frame { header, num: 1, payload: b"abc".to_vec() }, &mut buf);
    assert_eq!(buf.len(), FRAME_HEADER_LEN + 3);
    let f = codec.decode(&buf).unwrap();
    assert_eq!(f.header, header);
    assert_eq!(f.num, 1);
    assert_eq!(f.payload, b"abc".to_vec());
}

#[test]
fn codec_reads_an_empty_payload() {
    let mut codec = ServerCodec;
    let buf = [1, 0, 0, 0, 0, 0, 0, 0, 2, 0, 3, 0, 4];
    let f = codec.decode(&buf).unwrap();
    assert_eq!(f.header, FrameHeader { id: 1, len: 2, size: 3 });
    assert_eq!(f.num, 4);
    assert!(f.payload.is_empty());
}

#[test]
fn codec_refuses_a_short_datagram() {
    let mut codec = ServerCodec;
    assert_eq!(codec.decode(&[0; 12]).unwrap_err(), DecodeError::UnexpectedEof);
    assert_eq!(codec.decode(&[]).unwrap_err(), DecodeError::UnexpectedEof);
}

#[test]
fn splitter_cuts_frames_of_mtu_less_header() {
    let s = PacketSplitter::new(20);
    let v: Vec<u8> = (0..10).collect();
    let fs = s.split_frames(v, 77).unwrap();
    assert_eq!(fs.len(), 3);
    for (i, f) in fs.iter().enumerate() {
        assert_eq!(f.header, FrameHeader { id: 77, len: 10, size: 4 });
        assert_eq!(f.num as usize, i);
    }
    assert_eq!(fs[0].payload, vec![0, 1, 2, 3]);
    assert_eq!(fs[1].payload, vec![4, 5, 6, 7]);
    assert_eq!(fs[2].payload, vec![8, 9]);
}

#[test]
fn splitter_gives_no_frame_for_an_empty_message() {
    let s = PacketSplitter::new(20);
    assert_eq!(s.split_frames(vec![], 1).unwrap().len(), 0);
}

#[test]
fn splitter_refuses_long_messages() {
    let s = PacketSplitter::new(1016);
    assert!(s.split_frames(vec![0; 65536], 1).is_err());
    assert_eq!(s.split_frames(vec![0; 65535], 1).unwrap().len(), 66);
}

#[test]
fn process_puts_one_id_on_all_frames() {
    let mut s = PacketSplitter::new(116);
    let v: Vec<u8> = (0..250).map(|x| x as u8).collect();
    let fs = s.process(v.clone()).unwrap();
    assert_eq!(fs.len(), 3);
    let id = fs[0].header.id;
    let mut joined = vec![];
    for (i, f) in fs.iter().enumerate() {
        assert_eq!(f.header, FrameHeader { id, len: 250, size: 100 });
        assert_eq!(f.num as usize, i);
        joined.extend_from_slice(&f.payload);
    }
    assert_eq!(joined, v);
    assert!(s.process(vec![0; 70000]).is_err());
}

#[test]
fn joiner_starts_empty() {
    let mut j = PacketJoiner::new(8);
    assert!(!j.holds(&FrameHeader { id: 1, len: 2, size: 3 }));
    assert!(!j.holds(&FrameHeader { id: 0, len: 0, size: 0 }));
}

#[test]
fn kv_packet_reads_key_and_value() {
    let mut b = vec![3];
    b.extend_from_slice(b"keyvalue");
    let p = KVPacket::from_packet(b).unwrap();
    assert_eq!(p.key, "key");
    assert_eq!(p.value(), b"value");
}

#[test]
fn kv_packet_may_have_empty_key_and_value() {
    let p = KVPacket::from_packet(vec![0]).unwrap();
    assert_eq!(p.key, "");
    assert!(p.value().is_empty());
    let p = KVPacket::from_packet(vec![2, b'h', b'i']).unwrap();
    assert_eq!(p.key, "hi");
    assert!(p.value().is_empty());
}

#[test]
fn kv_packet_keeps_unicode_keys() {
    let key = "clé";
    let mut b = vec![key.len() as u8];
    b.extend_from_slice(key.as_bytes());
    b.push(1);
    let p = KVPacket::from_packet(b).unwrap();
    assert_eq!(p.key, key);
    assert_eq!(p.value(), &[1]);
}

#[test]
fn kv_packet_refuses_short_packets() {
    assert_eq!(KVPacket::from_packet(vec![]).err(), Some(PacketError::UnexpectedEof));
    assert_eq!(KVPacket::from_packet(vec![4, b'a', b'b']).err(), Some(PacketError::UnexpectedEof));
}

#[test]
fn kv_packet_refuses_keys_that_are_not_utf8() {
    assert_eq!(KVPacket::from_packet(vec![1, 0xff, 2]).err(), Some(PacketError::InvalidUtf8));
    assert_eq!(KVPacket::from_packet(vec![1, 0xc3, 0xa9]).err(), Some(PacketError::InvalidUtf8));
}
