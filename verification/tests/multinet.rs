use lednet::multinet::{
    AssembledDataPacket, AssembledPacket, ChannelID, DataPacket, DecodeError, PacketAssembler,
    PacketSpliter, WirePacket, WireProto,
};
use lednet::server::{priming_packet, ControlPacket, RecievedPacket, ServerCore};

fn data_packet(seq: u32, len: u32, data: Vec<u8>) -> WirePacket {
    WirePacket::Data(DataPacket {
        channel: ChannelID::new(7),
        epoch: 3,
        msg_id: 9,
        msg_seq: seq,
        msg_len: len,
        data,
    })
}

fn unwrap_data(p: WirePacket) -> DataPacket {
    match p {
        WirePacket::Data(d) => d,
    }
}

#[test]
fn channel_id_new_holds_id() {
    assert_eq!(ChannelID::new(5), ChannelID(5));
}

#[test]
fn assembled_packet_new_uses_id_42() {
    let p = AssembledDataPacket::new(b"Hello World".to_vec(), ChannelID::new(5), 5);
    assert_eq!(p.msg_id, 42);
    assert_eq!(p.channel, ChannelID(5));
    assert_eq!(p.epoch, 5);
    assert_eq!(p.data, b"Hello World".to_vec());
}

#[test]
fn encode_writes_big_endian_header() {
    let mut buf = vec![];
    WirePacket::Data(DataPacket {
        channel: ChannelID::new(0x0102030405060708),
        epoch: 1,
        msg_id: 2,
        msg_seq: 0x0a0b0c0d,
        msg_len: 4,
        data: vec![0xaa, 0xbb],
    })
    .encode(&mut buf);
    assert_eq!(
        buf,
        vec![
            0, 1, 2, 3, 4, 5, 6, 7, 8, 0, 0, 0, 0, 0, 0, 0, 1, 0, 0, 0, 0, 0, 0, 0, 2, 0x0a,
            0x0b, 0x0c, 0x0d, 0, 0, 0, 4, 0xaa, 0xbb
        ]
    );
}

#[test]
fn decode_reads_what_encode_wrote() {
    let mut buf = vec![];
    data_packet(2, 5, vec![1, 2, 3]).encode(&mut buf);
    let d = unwrap_data(WirePacket::decode(&buf).unwrap());
    assert_eq!(d.channel, ChannelID(7));
    assert_eq!(d.epoch, 3);
    assert_eq!(d.msg_id, 9);
    assert_eq!(d.msg_seq, 2);
    assert_eq!(d.msg_len, 5);
    assert_eq!(d.data, vec![1, 2, 3]);
}

#[test]
fn decode_errors() {
    assert_eq!(WirePacket::decode(&[]).unwrap_err(), DecodeError::UnexpectedEof);
    assert_eq!(WirePacket::decode(&[1, 0, 0]).unwrap_err(), DecodeError::UnrecognizedPacketType);
    assert_eq!(WirePacket::decode(&[0; 32]).unwrap_err(), DecodeError::UnexpectedEof);
    let d = unwrap_data(WirePacket::decode(&[0; 33]).unwrap());
    assert_eq!(d.data.len(), 0);
    assert_eq!(DataPacket::decode(&[0; 31]).unwrap_err(), DecodeError::UnexpectedEof);
}

#[test]
fn wire_proto_round_trip() {
    let mut codec = WireProto;
    let mut buf = vec![9];
    codec.encode(data_packet(0, 1, vec![4]), &mut buf);
    let d = unwrap_data(codec.decode(&buf[1..]).unwrap());
    assert_eq!(d.data, vec![4]);
    assert_eq!(buf[0], 9);
}

#[test]
fn split_in_pieces_of_200() {
    let mut s = PacketSpliter::new();
    let data: Vec<u8> = (0..450u32).map(|i| i as u8).collect();
    let out = s.split(AssembledPacket::Data(AssembledDataPacket::new(data.clone(), ChannelID::new(1), 2)));
    assert_eq!(out.len(), 3);
    let ds: Vec<DataPacket> = out.into_iter().map(unwrap_data).collect();
    assert_eq!(ds[0].data.len(), 200);
    assert_eq!(ds[1].data.len(), 200);
    assert_eq!(ds[2].data.len(), 50);
    for (i, d) in ds.iter().enumerate() {
        assert_eq!(d.msg_seq, i as u32);
        assert_eq!(d.msg_len, 3);
        assert_eq!(d.msg_id, 42);
        assert_eq!(d.epoch, 2);
    }
    assert_eq!(ds[2].data[..], data[400..]);
}

#[test]
fn split_exact_multiple_and_empty() {
    let mut s = PacketSpliter::new();
    let out = s.split(AssembledPacket::Data(AssembledDataPacket::new(vec![1; 400], ChannelID::new(1), 2)));
    assert_eq!(out.len(), 2);
    let out = s.split(AssembledPacket::Data(AssembledDataPacket::new(vec![], ChannelID::new(1), 2)));
    assert_eq!(out.len(), 0);
}

#[test]
fn split_then_assemble_gives_message_back() {
    let mut s = PacketSpliter::new();
    let mut a = PacketAssembler::new();
    let data: Vec<u8> = (0..1000u32).map(|i| (i * 7) as u8).collect();
    let out = s.split(AssembledPacket::Data(AssembledDataPacket::new(data.clone(), ChannelID::new(42), 34)));
    let n = out.len();
    assert_eq!(n, 5);
    let mut got = None;
    for (i, p) in out.into_iter().enumerate() {
        assert!(a.accepts(&p));
        let r = a.assemble(p);
        if i + 1 < n {
            assert!(r.is_none());
        } else {
            got = r;
        }
    }
    match got {
        Some(AssembledPacket::Data(m)) => {
            assert_eq!(m.data, data);
            assert_eq!(m.channel, ChannelID(42));
            assert_eq!(m.epoch, 34);
            assert_eq!(m.msg_id, 42);
        }
        None => panic!("message not assembled"),
    }
}

#[test]
fn assemble_out_of_order_and_duplicates() {
    let mut a = PacketAssembler::new();
    assert!(a.assemble(data_packet(1, 2, vec![3, 4])).is_none());
    assert!(a.assemble(data_packet(1, 2, vec![5, 6])).is_none());
    match a.assemble(data_packet(0, 2, vec![1, 2])) {
        Some(AssembledPacket::Data(m)) => assert_eq!(m.data, vec![1, 2, 5, 6]),
        None => panic!("message not assembled"),
    }
}

#[test]
fn split_messages_reassemble_reversed_and_interleaved() {
    let mut s = PacketSpliter::new();
    let mut a = PacketAssembler::new();
    let d1: Vec<u8> = (0..450u32).map(|i| i as u8).collect();
    let d2: Vec<u8> = (0..300u32).map(|i| (i * 3) as u8).collect();
    let mut w1 = s.split(AssembledPacket::Data(AssembledDataPacket::new(d1.clone(), ChannelID::new(1), 5)));
    let mut w2 = s.split(AssembledPacket::Data(AssembledDataPacket::new(d2.clone(), ChannelID::new(2), 5)));
    assert_eq!((w1.len(), w2.len()), (3, 2));
    let mut got1 = vec![];
    let mut got2 = vec![];
    while !w1.is_empty() || !w2.is_empty() {
        if let Some(p) = w1.pop() {
            assert!(a.accepts(&p));
            got1.push(a.assemble(p));
        }
        if let Some(p) = w2.pop() {
            assert!(a.accepts(&p));
            got2.push(a.assemble(p));
        }
    }
    assert!(got1[0].is_none() && got1[1].is_none());
    assert!(got2[0].is_none());
    match (got1.pop().unwrap(), got2.pop().unwrap()) {
        (Some(AssembledPacket::Data(m1)), Some(AssembledPacket::Data(m2))) => {
            assert_eq!(m1.data, d1);
            assert_eq!(m1.channel, ChannelID(1));
            assert_eq!(m2.data, d2);
            assert_eq!(m2.channel, ChannelID(2));
        }
        _ => panic!("messages not assembled"),
    }
}

#[test]
fn resent_piece_counts_once_and_last_copy_wins() {
    let mut a = PacketAssembler::new();
    assert!(a.assemble(data_packet(1, 3, vec![7])).is_none());
    assert!(a.assemble(data_packet(1, 3, vec![8])).is_none());
    assert!(a.assemble(data_packet(2, 3, vec![9])).is_none());
    match a.assemble(data_packet(0, 3, vec![6])) {
        Some(AssembledPacket::Data(m)) => assert_eq!(m.data, vec![6, 8, 9]),
        None => panic!("message not assembled"),
    }
}

#[test]
fn assemble_ignores_other_lengths() {
    let mut a = PacketAssembler::new();
    assert!(a.assemble(data_packet(0, 2, vec![1])).is_none());
    assert!(a.accepts(&data_packet(5, 3, vec![9])));
    assert!(a.assemble(data_packet(5, 3, vec![9])).is_none());
    match a.assemble(data_packet(1, 2, vec![2])) {
        Some(AssembledPacket::Data(m)) => assert_eq!(m.data, vec![1, 2]),
        None => panic!("message not assembled"),
    }
}

#[test]
fn assemble_after_completion_starts_counting_again() {
    let mut a = PacketAssembler::new();
    assert!(a.assemble(data_packet(0, 1, vec![1])).is_some());
    match a.assemble(data_packet(0, 1, vec![2])) {
        Some(AssembledPacket::Data(m)) => assert_eq!(m.data, vec![2]),
        None => panic!("message not assembled"),
    }
}

#[test]
fn accepts_refuses_sequence_past_length() {
    let a = PacketAssembler::new();
    assert!(!a.accepts(&data_packet(2, 2, vec![1])));
    assert!(a.accepts(&data_packet(1, 2, vec![1])));
}

#[test]
fn server_core_round_trip() {
    let mut s = ServerCore::new();
    assert!(s.next_outgoing().is_none());
    s.control(ControlPacket::SendData(AssembledDataPacket::new(vec![1; 250], ChannelID::new(5), 5)));
    s.control(ControlPacket::SendData(AssembledDataPacket::new(vec![2; 10], ChannelID::new(6), 5)));
    // the newest message goes first
    let first = unwrap_data(s.next_outgoing().unwrap());
    assert_eq!(first.channel, ChannelID(6));
    let second = s.next_outgoing().unwrap();
    s.requeue(second);
    let second = unwrap_data(s.next_outgoing().unwrap());
    assert_eq!(second.channel, ChannelID(5));
    assert_eq!(second.msg_seq, 0);
    let third = s.next_outgoing().unwrap();
    assert!(s.next_outgoing().is_none());
    let mut r = None;
    let p = WirePacket::Data(second);
    assert!(s.accepts(&p));
    assert!(s.incoming(p).is_none());
    if s.accepts(&third) {
        r = s.incoming(third);
    }
    match r {
        Some(RecievedPacket::Data(m)) => assert_eq!(m.data, vec![1; 250]),
        None => panic!("message not assembled"),
    }
}

#[test]
fn priming_packet_is_one_zero_byte() {
    match priming_packet() {
        ControlPacket::SendData(p) => {
            assert_eq!(p.channel, ChannelID(54238503));
            assert_eq!(p.data, vec![0]);
            assert_eq!(p.epoch, 0);
            assert_eq!(p.msg_id, 0);
        }
    }
}
