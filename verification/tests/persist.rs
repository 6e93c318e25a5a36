//! What outlives a restart, and the bytes that it is kept in.

use rete::hash::DestHash;
use rete::message::{DeliveryMethod, LXMessage, MessageError};
use rete::msgpack;
use rete::outbound::{LxmfRouter, OutboundState};
use rete::stamp::{ticket_stamp, work_stamp};
use rete::ticket::{TicketCache, TICKET_EXPIRY};
use std::collections::BTreeMap;

fn message() -> LXMessage {
    LXMessage::new(
        DestHash::from([0xAA; 16]),
        DestHash::from([0x01; 16]),
        [0x02; 64],
        b"Test",
        b"Hello",
        BTreeMap::new(),
        1700000000.0f64.to_bits(),
    )
    .unwrap()
}

#[test]
fn stamp_costs_are_kept_as_an_array_of_triples() {
    let mut router = LxmfRouter::new();
    assert_eq!(router.export_stamp_costs(), vec![0x90]);
    router.outbound_stamp_costs.insert(DestHash([0x11; 16]), (1000, 4));
    let mut expected = vec![0x91, 0x93, 0xc4, 16];
    expected.extend_from_slice(&[0x11; 16]);
    expected.extend_from_slice(&[0xcd, 0x03, 0xe8, 0x04]);
    assert_eq!(router.export_stamp_costs(), expected);
}

#[test]
fn imported_stamp_costs_go_over_those_already_there() {
    let mut router = LxmfRouter::new();
    router.outbound_stamp_costs.insert(DestHash([0x11; 16]), (1000, 4));
    let exported = router.export_stamp_costs();
    let mut other = LxmfRouter::new();
    other.outbound_stamp_costs.insert(DestHash([0x11; 16]), (1, 9));
    other.outbound_stamp_costs.insert(DestHash([0x22; 16]), (2, 7));
    other.import_stamp_costs(&exported);
    assert_eq!(other.get_outbound_stamp_cost(&DestHash([0x11; 16])), Some(4));
    assert_eq!(other.get_outbound_stamp_cost(&DestHash([0x22; 16])), Some(7));
    assert_eq!(other.get_outbound_stamp_cost(&DestHash([0x33; 16])), None);
}

#[test]
fn a_longer_hash_is_cut_and_a_cost_wraps() {
    let mut data = vec![0x91, 0x94, 0xc4, 18];
    data.extend_from_slice(&[0x11; 18]);
    data.extend_from_slice(&[0x05, 0xcd, 0x01, 0x03]);
    let mut router = LxmfRouter::new();
    router.import_stamp_costs(&data);
    assert_eq!(router.get_outbound_stamp_cost(&DestHash([0x11; 16])), Some(3));
}

#[test]
fn malformed_stamp_costs_are_passed_over() {
    let mut router = LxmfRouter::new();
    router.import_stamp_costs(&[]);
    router.import_stamp_costs(&[0xc0]);
    router.import_stamp_costs(&[0x91, 0x92, 0x01, 0x02]);
    let mut short = vec![0x91, 0x93, 0xc4, 15];
    short.extend_from_slice(&[0x11; 15]);
    short.extend_from_slice(&[0x05, 0x06]);
    router.import_stamp_costs(&short);
    assert_eq!(router.outbound_stamp_costs.len(), 0);
}

#[test]
fn stamp_costs_are_forgotten_after_thirty_days() {
    let mut router = LxmfRouter::new();
    router.outbound_stamp_costs.insert(DestHash([1; 16]), (0, 1));
    router.outbound_stamp_costs.insert(DestHash([2; 16]), (1, 2));
    router.outbound_stamp_costs.insert(DestHash([3; 16]), (9_000_000, 3));
    assert_eq!(router.prune_stamp_costs(2_592_000), 1);
    assert_eq!(router.get_outbound_stamp_cost(&DestHash([1; 16])), None);
    assert_eq!(router.get_outbound_stamp_cost(&DestHash([2; 16])), Some(2));
    assert_eq!(router.get_outbound_stamp_cost(&DestHash([3; 16])), Some(3));
    assert_eq!(router.prune_stamp_costs(2_592_000), 0);
    assert_eq!(router.prune_stamp_costs(2_592_001), 1);
}

#[test]
fn ended_messages_are_not_exported() {
    let mut router = LxmfRouter::new();
    for byte in 0..4u8 {
        let mut msg = message();
        msg.content = vec![byte];
        router.handle_outbound(msg, 1000, [0, byte]);
    }
    router.pending_outbound[0].state = OutboundState::Delivered;
    router.pending_outbound[1].state = OutboundState::Failed;
    router.pending_outbound[2].state = OutboundState::Sending;
    router.pending_outbound[2].message.method = DeliveryMethod::Direct;
    let exported = router.export_outbound_queue();
    assert_eq!(
        exported,
        vec![
            router.pending_outbound[2].message.pack(),
            router.pending_outbound[3].message.pack()
        ]
    );

    let mut other = LxmfRouter::new();
    other.import_outbound_queue(&exported, 2000);
    other.import_outbound_queue(&exported, 3000);
    other.import_outbound_queue(&[vec![1, 2, 3]], 3000);
    assert_eq!(other.pending_outbound.len(), 2);
    for (old, new) in router.pending_outbound[2..].iter().zip(&other.pending_outbound) {
        assert_eq!(old.message_hash, new.message_hash);
        assert_eq!(new.state, OutboundState::Queued);
        assert_eq!(new.delivery_attempts, 0);
        assert_eq!(new.next_delivery_attempt, 2000);
        assert_eq!(new.message.method, DeliveryMethod::Opportunistic);
    }
}

#[test]
fn a_message_is_packed_as_two_hashes_a_signature_and_a_payload() {
    let packed = message().pack();
    let mut expected = vec![0xAA; 16];
    expected.extend_from_slice(&[0x01; 16]);
    expected.extend_from_slice(&[0x02; 64]);
    expected.extend_from_slice(&[0x94, 0xcb, 0x41, 0xd9, 0x54, 0xfc, 0x40, 0, 0, 0]);
    expected.extend_from_slice(b"\xc4\x04Test\xc4\x05Hello\x80");
    assert_eq!(packed, expected);
    assert_eq!(message().pack_opportunistic(), expected[16..].to_vec());
}

#[test]
fn the_hash_of_a_message_is_the_digest_of_its_packed_form() {
    assert_eq!(
        message().hash(),
        [
            0x35, 0x54, 0x15, 0x75, 0x81, 0x18, 0xe8, 0x53, 0xe9, 0x5e, 0x9a, 0xc8, 0x2f, 0x7f,
            0x7a, 0x27, 0x0a, 0x80, 0x8a, 0x9f, 0x96, 0x61, 0x5e, 0x32, 0xf8, 0xd7, 0x60, 0xe0,
            0x17, 0x8b, 0x1d, 0xa8
        ]
    );
    let mut stamped = message();
    stamped.stamp = Some([9; 32]);
    assert_ne!(stamped.hash(), message().hash());
    assert_eq!(stamped.message_id(), message().message_id());
    assert_eq!(
        stamped.message_id(),
        [
            0x37, 0x68, 0xb7, 0x1e, 0xc5, 0x6a, 0x78, 0x97, 0xa5, 0x77, 0x5d, 0x84, 0x48, 0xc7,
            0x46, 0x8d, 0x12, 0xe7, 0x3b, 0xd4, 0x33, 0x70, 0x0b, 0x12, 0xd1, 0x9f, 0x7f, 0xa9,
            0x04, 0x37, 0x85, 0x01
        ]
    );
}

#[test]
fn a_message_is_read_back_from_its_packed_form() {
    let mut msg = message();
    msg.stamp = Some([9; 32]);
    msg.fields.insert(200, vec![1; 300]);
    msg.fields.insert(3, vec![]);
    msg.fields.insert(200, vec![2; 70_000]);
    let back = LXMessage::unpack(&msg.pack(), Some(DeliveryMethod::Direct)).unwrap();
    assert_eq!(back.destination_hash, msg.destination_hash);
    assert_eq!(back.source_hash, msg.source_hash);
    assert_eq!(back.signature, msg.signature);
    assert_eq!(back.timestamp, msg.timestamp);
    assert_eq!(back.title, msg.title);
    assert_eq!(back.content, msg.content);
    assert_eq!(back.fields, BTreeMap::from([(200, vec![2; 70_000]), (3, vec![])]));
    assert_eq!(back.stamp, Some([9; 32]));
    assert_eq!(back.method, DeliveryMethod::Direct);
}

#[test]
fn bytes_that_are_no_message_are_refused() {
    let packed = message().pack();
    for cut in [0, 95, 96, 100, packed.len() - 1] {
        assert!(matches!(
            LXMessage::unpack(&packed[..cut], None),
            Err(MessageError::Malformed)
        ));
    }
    let mut longer = packed.clone();
    longer.push(0);
    assert!(LXMessage::unpack(&longer, None).is_err());
    let mut parts = packed.clone();
    parts[96] = 0x93;
    assert!(LXMessage::unpack(&parts, None).is_err());
    assert_eq!(
        LXMessage::unpack(&packed, None).unwrap().method,
        DeliveryMethod::Opportunistic
    );
}

#[test]
fn a_ticket_stamp_is_the_digest_of_ticket_and_message() {
    assert_eq!(
        ticket_stamp(&[0x42, 0x37], &[7; 32]),
        [
            0xa1, 0x5a, 0x28, 0x54, 0xc7, 0xd2, 0x20, 0x3e, 0xfa, 0xcd, 0x4c, 0x3e, 0xf6, 0x9f,
            0xff, 0x02, 0x41, 0xed, 0x1c, 0xf5, 0x69, 0x45, 0x0d, 0x6c, 0xd3, 0xae, 0x41, 0x80,
            0xf5, 0x34, 0x9f, 0xce
        ]
    );
}

#[test]
fn work_finds_the_first_number_that_is_worth_the_cost() {
    let firsts: [u64; 13] = [0, 0, 3, 10, 12, 40, 40, 47, 47, 47, 47, 1086, 1717];
    for (cost, first) in firsts.iter().enumerate() {
        let mut expected = [0u8; 32];
        expected[24..].copy_from_slice(&first.to_be_bytes());
        assert_eq!(work_stamp(&[7; 32], cost as u8), Some(expected));
    }
    let mut msg = message();
    msg.generate_stamp(8);
    let mut expected = [0u8; 32];
    expected[24..].copy_from_slice(&278u64.to_be_bytes());
    assert_eq!(msg.stamp, Some(expected));
}

#[test]
fn a_ticket_is_good_for_three_weeks() {
    let mut cache = TicketCache::new();
    let dest = DestHash([5; 16]);
    let entry = cache.generate_ticket(dest, [1, 2], 1000);
    assert_eq!(entry.expires, 1000 + TICKET_EXPIRY);
    assert_eq!(TICKET_EXPIRY, 21 * 24 * 3600);
    assert_eq!(cache.get_inbound_tickets(&dest, entry.expires - 1), vec![[1, 2]]);
    assert!(cache.get_inbound_tickets(&dest, entry.expires).is_empty());
    assert!(cache.get_inbound_tickets(&DestHash([6; 16]), 1000).is_empty());
    cache.store_outbound(dest, [3, 4], 50);
    cache.store_outbound(dest, [5, 6], 60);
    assert_eq!(cache.get_outbound_ticket(&dest, 59), Some([5, 6]));
    assert_eq!(cache.get_outbound_ticket(&dest, 60), None);
}

#[test]
fn malformed_tickets_change_nothing() {
    let mut cache = TicketCache::new();
    cache.store_inbound(DestHash([5; 16]), [1, 2], 70);
    let exported = cache.export();
    cache.import(&exported[..exported.len() - 1]);
    cache.import(&[]);
    assert_eq!(cache.export(), exported);
}

#[test]
fn integers_take_their_shortest_form() {
    let cases: [(u64, Vec<u8>); 8] = [
        (0, vec![0]),
        (0x7f, vec![0x7f]),
        (0x80, vec![0xcc, 0x80]),
        (0x100, vec![0xcd, 1, 0]),
        (0xffff, vec![0xcd, 0xff, 0xff]),
        (0x1_0000, vec![0xce, 0, 1, 0, 0]),
        (0x1_0000_0000, vec![0xcf, 0, 0, 0, 1, 0, 0, 0, 0]),
        (u64::MAX, vec![0xcf, 255, 255, 255, 255, 255, 255, 255, 255]),
    ];
    for (x, expected) in cases {
        let mut buf = Vec::new();
        msgpack::write_uint(&mut buf, x);
        assert_eq!(buf, expected);
        let mut pos = 0;
        assert_eq!(msgpack::read_uint(&buf, &mut pos), Ok(x));
        assert_eq!(pos, buf.len());
    }
}

#[test]
fn headers_and_strings_are_read_back() {
    for n in [0usize, 15, 16, 0xffff, 0x1_0000] {
        let mut buf = Vec::new();
        msgpack::write_array_header(&mut buf, n);
        msgpack::write_map_header(&mut buf, n);
        let mut pos = 0;
        assert_eq!(msgpack::read_array_len(&buf, &mut pos), Ok(n as u64));
        assert_eq!(msgpack::read_map_len(&buf, &mut pos), Ok(n as u64));
        assert_eq!(pos, buf.len());
    }
    for n in [0usize, 255, 256, 70_000] {
        let mut buf = Vec::new();
        msgpack::write_bin(&mut buf, &vec![7; n]);
        let mut pos = 0;
        assert_eq!(msgpack::read_bin_or_str(&buf, &mut pos), Ok(vec![7; n]));
        assert_eq!(pos, buf.len());
    }
    let mut buf = Vec::new();
    msgpack::write_double(&mut buf, 1.5f64.to_bits());
    assert_eq!(buf, vec![0xcb, 0x3f, 0xf8, 0, 0, 0, 0, 0, 0]);
    let mut pos = 0;
    assert_eq!(msgpack::read_double(&buf, &mut pos), Ok(1.5f64.to_bits()));
    let mut pos = 0;
    assert_eq!(
        msgpack::read_bin_or_str(b"\xa3abc", &mut pos),
        Ok(b"abc".to_vec())
    );
}

#[test]
fn what_does_not_decode_leaves_the_position() {
    let mut pos = 1;
    assert_eq!(msgpack::read_uint(&[0, 0xcd, 1], &mut pos), Err(msgpack::DecodeError));
    assert_eq!(msgpack::read_array_len(&[0, 0x80], &mut pos), Err(msgpack::DecodeError));
    assert_eq!(msgpack::read_map_len(&[0, 0x90], &mut pos), Err(msgpack::DecodeError));
    assert_eq!(msgpack::read_double(&[0, 0xcb, 1], &mut pos), Err(msgpack::DecodeError));
    assert_eq!(
        msgpack::read_bin_or_str(&[0, 0xc4, 2, 1], &mut pos),
        Err(msgpack::DecodeError)
    );
    assert_eq!(msgpack::read_uint(&[0], &mut pos), Err(msgpack::DecodeError));
    assert_eq!(pos, 1);
}

#[test]
fn fields_are_packed_in_the_order_of_their_keys() {
    let mut msg = message();
    msg.fields.insert(200, vec![7]);
    msg.fields.insert(3, vec![]);
    assert!(msg.is_valid());
    let packed = msg.pack();
    assert_eq!(
        packed[packed.len() - 9..].to_vec(),
        vec![0x82, 0x03, 0xc4, 0x00, 0xcc, 200, 0xc4, 0x01, 7]
    );
}
