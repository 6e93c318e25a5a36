//! The outbound queue against a small node that keeps receipts.

use rete::delivery::{NodeReply, NodeRequest};
use rete::hash::{DestHash, LinkId};
use rete::message::{DeliveryMethod, LXMessage, FIELD_TICKET};
use rete::outbound::{
    LxmfEvent, LxmfRouter, OutboundDirectJob, OutboundPacket, OutboundState, ReceiptTerminal,
    SendError, DELIVERY_RETRY_WAIT, MAX_DELIVERY_ATTEMPTS,
};
use rete::stamp::ticket_stamp;
use std::collections::BTreeMap;

const TICKET: [u8; 2] = [0x12, 0x34];

/// Prepares packets for the destinations it knows and tracks a receipt for each.
struct Node {
    peers: Vec<DestHash>,
    receipts: Vec<([u8; 32], u64)>,
    capacity: usize,
    next_hash: u8,
    repeat_hash: bool,
    linkable: bool,
}

impl Node {
    fn new(capacity: usize) -> Self {
        Node {
            peers: Vec::new(),
            receipts: Vec::new(),
            capacity,
            next_hash: 1,
            repeat_hash: false,
            linkable: false,
        }
    }

    fn with_peer(capacity: usize, peer: DestHash) -> Self {
        let mut node = Node::new(capacity);
        node.peers.push(peer);
        node
    }

    fn prepare(&mut self, dest: &DestHash, payload: Vec<u8>, now: u64) -> NodeReply {
        if !self.peers.contains(dest) {
            return NodeReply::NotPrepared(SendError::Other);
        }
        let packet_hash = [self.next_hash; 32];
        if self.receipts.iter().any(|(hash, _)| *hash == packet_hash) {
            return NodeReply::NotPrepared(SendError::ReceiptHashAlreadyTracked);
        }
        if self.receipts.len() >= self.capacity {
            return NodeReply::NotPrepared(SendError::ReceiptTableFull);
        }
        if !self.repeat_hash {
            self.next_hash += 1;
        }
        self.receipts.push((packet_hash, now));
        NodeReply::Prepared { packet_hash, data: payload }
    }

    fn reply(&mut self, request: NodeRequest, now: u64) -> Option<NodeReply> {
        match request {
            NodeRequest::PrepareData { dest_hash, payload } => {
                Some(self.prepare(&dest_hash, payload, now))
            }
            NodeRequest::InitiateLink { dest_hash } => {
                if self.linkable {
                    Some(NodeReply::LinkInitiated {
                        packet: OutboundPacket { data: vec![0xF0], interface: Some(3) },
                        link_id: LinkId(dest_hash.0),
                    })
                } else {
                    Some(NodeReply::LinkRefused)
                }
            }
            NodeRequest::Done => None,
        }
    }

    /// Receipts time out after thirty seconds.
    fn tick(&mut self, now: u64) -> Vec<ReceiptTerminal> {
        let failed = self
            .receipts
            .iter()
            .filter(|(_, sent)| now >= sent + 30)
            .map(|(hash, _)| ReceiptTerminal::Failed(*hash))
            .collect();
        self.receipts.retain(|(_, sent)| now < sent + 30);
        failed
    }

    fn prove(&mut self, hash: &[u8; 32]) -> Option<ReceiptTerminal> {
        let before = self.receipts.len();
        self.receipts.retain(|(h, _)| h != hash);
        if self.receipts.len() < before {
            Some(ReceiptTerminal::Delivered(*hash))
        } else {
            None
        }
    }

    fn settle(&mut self, router: &mut LxmfRouter, terminal: ReceiptTerminal) -> Option<LxmfEvent> {
        let (event, siblings) = router.handle_receipt_terminal(terminal);
        self.receipts.retain(|(hash, _)| !siblings.contains(hash));
        event
    }
}

fn process(
    router: &mut LxmfRouter,
    node: &mut Node,
    now: u64,
) -> (Vec<OutboundPacket>, Vec<LxmfEvent>) {
    let mut pass = router.begin_outbound(now);
    loop {
        let request = router.process_outbound(&mut pass);
        match node.reply(request, now) {
            Some(reply) => router.apply_reply(&mut pass, reply),
            None => return (pass.packets, pass.events),
        }
    }
}

fn make_test_msg_at(dest_hash: DestHash, timestamp: f64) -> LXMessage {
    LXMessage::new(
        dest_hash,
        DestHash::from([0x01; 16]),
        [0x02; 64],
        b"Test",
        b"Hello",
        BTreeMap::new(),
        timestamp.to_bits(),
    )
    .unwrap()
}

fn make_test_msg(dest_hash: DestHash) -> LXMessage {
    make_test_msg_at(dest_hash, 1700000000.0)
}

fn peer() -> DestHash {
    DestHash::from([0x5A; 16])
}

#[test]
fn test_handle_outbound_enqueues() {
    let mut router = LxmfRouter::new();
    let msg = make_test_msg(DestHash::from([0xAA; 16]));

    let hash = router.handle_outbound(msg, 1000, TICKET);
    assert_eq!(hash.len(), 32);
    assert_eq!(router.pending_outbound.len(), 1);
    assert_eq!(router.pending_outbound[0].message_hash, hash);
    assert_eq!(router.pending_outbound[0].state, OutboundState::Queued);
}

#[test]
fn test_handle_outbound_returns_message_hash() {
    let mut router = LxmfRouter::new();
    let msg = make_test_msg(DestHash::from([0xBB; 16]));

    let hash = router.handle_outbound(msg, 1000, TICKET);
    assert_eq!(hash.len(), 32);
    let actual_hash = router.pending_outbound[0].message.hash();
    assert_eq!(hash, actual_hash);
}

#[test]
fn test_handle_outbound_dedup() {
    let mut router = LxmfRouter::new();
    let msg1 = make_test_msg(DestHash::from([0xCC; 16]));

    let h1 = router.handle_outbound(msg1, 1000, TICKET);
    let msg2 = router.pending_outbound[0].message.pack();
    let msg2 = LXMessage::unpack(&msg2, None).unwrap();
    let h2 = router.handle_outbound(msg2, 1000, [0x56, 0x78]);
    assert_eq!(h1, h2);
    assert_eq!(router.pending_outbound.len(), 1);
}

#[test]
fn test_handle_outbound_auto_assigns_stamp_cost() {
    let mut router = LxmfRouter::new();

    let dest_hash = DestHash::from([0xDD; 16]);
    router.outbound_stamp_costs.insert(dest_hash, (1000, 1));

    let msg = make_test_msg(dest_hash);
    assert!(msg.stamp.is_none());

    router.handle_outbound(msg, 1000, TICKET);
    assert!(router.pending_outbound[0].message.stamp.is_some());
}

#[test]
fn test_handle_outbound_uses_ticket_when_available() {
    let mut router = LxmfRouter::new();

    let dest_hash = DestHash::from([0xEE; 16]);
    router.outbound_stamp_costs.insert(dest_hash, (1000, 8));
    router.tickets.store_outbound(dest_hash, [0x42, 0x37], 5000);

    let msg = make_test_msg(dest_hash);
    router.handle_outbound(msg, 1000, TICKET);

    let stamp = router.pending_outbound[0].message.stamp.unwrap();
    let mid = router.pending_outbound[0].message.message_id();
    let expected = ticket_stamp(&[0x42, 0x37], &mid);
    assert_eq!(stamp, expected);
}

#[test]
fn test_process_outbound_skips_before_retry_time() {
    let mut node = Node::new(64);
    let mut router = LxmfRouter::new();
    let msg = make_test_msg(DestHash::from([0xFF; 16]));

    router.handle_outbound(msg, 1000, TICKET);
    router.pending_outbound[0].next_delivery_attempt = 2000;
    router.pending_outbound[0].delivery_attempts = 1;

    let (pkts, evts) = process(&mut router, &mut node, 1500);
    assert!(pkts.is_empty());
    assert!(evts.is_empty());
    assert_eq!(router.pending_outbound[0].delivery_attempts, 1);
}

#[test]
fn test_process_outbound_increments_attempts() {
    let mut node = Node::new(64);
    let mut router = LxmfRouter::new();
    let msg = make_test_msg(DestHash::from([0x11; 16]));

    router.handle_outbound(msg, 1000, TICKET);
    assert_eq!(router.pending_outbound[0].delivery_attempts, 0);

    let _ = process(&mut router, &mut node, 1000);
    assert_eq!(router.pending_outbound[0].delivery_attempts, 1);
}

#[test]
fn receipt_backpressure_does_not_consume_lxmf_delivery_attempt() {
    let mut node = Node::with_peer(4, peer());
    let mut router = LxmfRouter::new();
    for index in 0..5 {
        router.handle_outbound(
            make_test_msg_at(peer(), 1700000000.0 + index as f64),
            1000,
            TICKET,
        );
    }
    assert_eq!(router.pending_outbound.len(), 5);

    let (packets, events) = process(&mut router, &mut node, 1000);

    assert_eq!(packets.len(), 4);
    assert!(events.is_empty());
    assert_eq!(node.receipts.len(), 4);
    assert_eq!(
        router
            .pending_outbound
            .iter()
            .filter(|entry| entry.delivery_attempts == 1)
            .count(),
        4
    );
    let blocked = router
        .pending_outbound
        .iter()
        .find(|entry| entry.delivery_attempts == 0)
        .expect("one message must remain blocked by receipt capacity");
    assert!(blocked.receipt_hashes.is_empty());
    assert_eq!(blocked.next_delivery_attempt, 1000 + DELIVERY_RETRY_WAIT);

    let attempts_before: Vec<u32> = router
        .pending_outbound
        .iter()
        .map(|entry| entry.delivery_attempts)
        .collect();
    let (packets, events) = process(&mut router, &mut node, 1010);
    assert!(packets.is_empty());
    assert!(events.is_empty());
    assert_eq!(
        router
            .pending_outbound
            .iter()
            .map(|entry| entry.delivery_attempts)
            .collect::<Vec<_>>(),
        attempts_before
    );
}

#[test]
fn receipt_hash_collision_backpressure_preserves_attempt_budget() {
    let mut node = Node::with_peer(64, peer());
    node.repeat_hash = true;
    let mut router = LxmfRouter::new();
    router.handle_outbound(make_test_msg(peer()), 1000, TICKET);

    let (first_packets, first_events) = process(&mut router, &mut node, 1000);
    assert_eq!(first_packets.len(), 1);
    assert!(first_events.is_empty());
    assert_eq!(router.pending_outbound[0].delivery_attempts, 1);
    let first_hashes = router.pending_outbound[0].receipt_hashes.clone();
    assert_eq!(first_hashes.len(), 1);

    let (retry_packets, retry_events) = process(&mut router, &mut node, 1010);
    assert!(retry_packets.is_empty());
    assert!(retry_events.is_empty());
    assert_eq!(router.pending_outbound[0].delivery_attempts, 1);
    assert_eq!(router.pending_outbound[0].receipt_hashes, first_hashes);
    assert_eq!(
        router.pending_outbound[0].next_delivery_attempt,
        1010 + DELIVERY_RETRY_WAIT
    );
}

#[test]
fn delayed_proof_for_any_attempt_delivers_once() {
    let mut node = Node::with_peer(64, peer());
    let mut router = LxmfRouter::new();
    router.handle_outbound(make_test_msg(peer()), 1000, TICKET);

    for attempt in 0..4 {
        let now = 1000 + attempt as u64 * DELIVERY_RETRY_WAIT;
        let (packets, events) = process(&mut router, &mut node, now);
        assert_eq!(packets.len(), 1);
        assert!(events.is_empty());
    }

    let hashes = router.pending_outbound[0].receipt_hashes.clone();
    assert_eq!(hashes.len(), 4);

    // The tick expires the first attempt alone; the third is still live.
    let failed = node.tick(1031);
    assert_eq!(failed.len(), 1);
    assert_eq!(failed[0], ReceiptTerminal::Failed(hashes[0]));
    assert!(node.settle(&mut router, failed[0]).is_none());
    assert!(!router.pending_outbound[0].receipt_hashes.contains(&hashes[0]));

    // A late proof for the third attempt cancels the receipts of the others.
    let proof = node.prove(&hashes[2]).unwrap();
    let delivered = node.settle(&mut router, proof).unwrap();
    assert!(matches!(delivered, LxmfEvent::MessageDelivered { .. }));
    assert!(router.pending_outbound.is_empty());
    assert_eq!(node.receipts.len(), 0);

    let (packets, events) = process(&mut router, &mut node, 1032);
    assert!(packets.is_empty());
    assert!(events.is_empty());
}

#[test]
fn opportunistic_retry_deadline_saturates_after_committed_send() {
    let mut node = Node::with_peer(64, peer());
    let mut router = LxmfRouter::new();
    router.handle_outbound(make_test_msg(peer()), u64::MAX, TICKET);

    let (packets, events) = process(&mut router, &mut node, u64::MAX);
    assert_eq!(packets.len(), 1);
    assert!(events.is_empty());
    assert_eq!(router.pending_outbound[0].delivery_attempts, 1);
    assert_eq!(router.pending_outbound[0].next_delivery_attempt, u64::MAX);
    assert_eq!(node.receipts.len(), 1);
}

#[test]
fn final_failed_receipt_marks_maxed_message_failed_once() {
    let mut node = Node::with_peer(64, peer());
    let mut router = LxmfRouter::new();
    router.handle_outbound(make_test_msg(peer()), 1000, TICKET);

    for attempt in 0..MAX_DELIVERY_ATTEMPTS {
        let now = 1000 + attempt as u64 * DELIVERY_RETRY_WAIT;
        let (packets, events) = process(&mut router, &mut node, now);
        assert_eq!(packets.len(), 1);
        assert!(events.is_empty());
    }

    let hashes = router.pending_outbound[0].receipt_hashes.clone();
    assert_eq!(hashes.len(), MAX_DELIVERY_ATTEMPTS as usize);

    for hash in &hashes[..hashes.len() - 1] {
        assert!(router.check_delivery_failure(hash));
        assert_eq!(router.pending_outbound[0].state, OutboundState::Queued);
    }

    let failure = node.settle(&mut router, ReceiptTerminal::Failed(*hashes.last().unwrap()));
    assert!(matches!(failure, Some(LxmfEvent::MessageFailed { .. })));
    assert!(router.pending_outbound.is_empty());

    let (packets, events) = process(&mut router, &mut node, 1050);
    assert!(packets.is_empty());
    assert!(events.is_empty());
}

#[test]
fn test_process_outbound_fails_after_max_attempts() {
    let mut node = Node::new(64);
    let mut router = LxmfRouter::new();
    let msg = make_test_msg(DestHash::from([0x22; 16]));

    router.handle_outbound(msg, 0, TICKET);
    router.pending_outbound[0].delivery_attempts = MAX_DELIVERY_ATTEMPTS;

    let _ = process(&mut router, &mut node, 100);
    assert_eq!(router.pending_outbound[0].state, OutboundState::Failed);
    let (_, evts) = process(&mut router, &mut node, 100);
    assert_eq!(evts.len(), 1);
    assert!(matches!(evts[0], LxmfEvent::MessageFailed { .. }));
    assert!(router.pending_outbound.is_empty());
}

#[test]
fn test_check_delivery_receipt_matches() {
    let mut router = LxmfRouter::new();
    let msg = make_test_msg(DestHash::from([0x33; 16]));

    router.handle_outbound(msg, 1000, TICKET);
    let pkt_hash = [0x99; 32];
    router.pending_outbound[0].receipt_hashes.push(pkt_hash);

    let event = router.check_delivery_receipt(&pkt_hash);
    assert!(event.is_some());
    assert!(matches!(event.unwrap(), LxmfEvent::MessageDelivered { .. }));
    assert!(router.pending_outbound.is_empty());
}

#[test]
fn test_check_delivery_receipt_unknown_hash() {
    let mut router = LxmfRouter::new();
    let msg = make_test_msg(DestHash::from([0x44; 16]));

    router.handle_outbound(msg, 1000, TICKET);
    let event = router.check_delivery_receipt(&[0xFF; 32]);
    assert!(event.is_none());
}

#[test]
fn test_delivered_entry_removed_on_next_process() {
    let mut node = Node::new(64);
    let mut router = LxmfRouter::new();
    let msg = make_test_msg(DestHash::from([0x55; 16]));

    router.handle_outbound(msg, 1000, TICKET);
    router.pending_outbound[0].state = OutboundState::Delivered;

    let (_, evts) = process(&mut router, &mut node, 2000);
    assert_eq!(evts.len(), 1);
    assert!(matches!(evts[0], LxmfEvent::MessageDelivered { .. }));
    assert!(router.pending_outbound.is_empty());
}

#[test]
fn test_cleanup_outbound_jobs_for_link() {
    let mut router = LxmfRouter::new();
    let msg = make_test_msg(DestHash::from([0x66; 16]));

    let hash = router.handle_outbound(msg, 1000, TICKET);
    let link_id = LinkId::from([0x77; 16]);

    router.outbound_direct_jobs.push(OutboundDirectJob::Linking {
        dest_hash: DestHash::from([0x66; 16]),
        link_id,
        message_hash: hash,
    });
    router.pending_outbound[0].state = OutboundState::Sending;

    router.cleanup_outbound_jobs_for_link(&link_id);
    assert!(router.outbound_direct_jobs.is_empty());
    assert_eq!(router.pending_outbound[0].state, OutboundState::Queued);
}

#[test]
fn test_constants() {
    assert_eq!(MAX_DELIVERY_ATTEMPTS, 5);
    assert_eq!(DELIVERY_RETRY_WAIT, 10);
}

#[test]
fn test_outbound_message_includes_ticket() {
    let mut router = LxmfRouter::new();
    let msg = make_test_msg(DestHash::from([0x77; 16]));
    assert!(!msg.fields.contains_key(&FIELD_TICKET));

    router.handle_outbound(msg, 1000, TICKET);

    assert!(router.pending_outbound[0]
        .message
        .fields
        .contains_key(&FIELD_TICKET));

    let tickets = router
        .tickets
        .get_inbound_tickets(&DestHash::from([0x77; 16]), 1000);
    assert_eq!(tickets.len(), 1);
}

#[test]
fn test_export_import_stamp_costs_roundtrip() {
    let mut router = LxmfRouter::new();

    router
        .outbound_stamp_costs
        .insert(DestHash::from([0x11; 16]), (1000, 4));
    router
        .outbound_stamp_costs
        .insert(DestHash::from([0x22; 16]), (2000, 8));

    let exported = router.export_stamp_costs();

    let mut router2 = LxmfRouter::new();
    router2.import_stamp_costs(&exported);

    assert_eq!(
        router2.get_outbound_stamp_cost(&DestHash::from([0x11; 16])),
        Some(4)
    );
    assert_eq!(
        router2.get_outbound_stamp_cost(&DestHash::from([0x22; 16])),
        Some(8)
    );
}

#[test]
fn test_export_import_tickets_roundtrip() {
    let mut router = LxmfRouter::new();

    router
        .tickets
        .store_inbound(DestHash::from([0xAA; 16]), [0x12, 0x34], 5000);
    router
        .tickets
        .store_outbound(DestHash::from([0xBB; 16]), [0x56, 0x78], 6000);

    let exported = router.export_tickets();

    let mut router2 = LxmfRouter::new();
    router2.import_tickets(&exported);

    assert_eq!(
        router2
            .tickets
            .get_inbound_tickets(&DestHash::from([0xAA; 16]), 1000),
        vec![[0x12, 0x34]]
    );
    assert_eq!(
        router2
            .tickets
            .get_outbound_ticket(&DestHash::from([0xBB; 16]), 1000),
        Some([0x56, 0x78])
    );
}

#[test]
fn test_export_import_outbound_queue_roundtrip() {
    let mut router = LxmfRouter::new();

    let msg = make_test_msg(DestHash::from([0xCC; 16]));
    router.handle_outbound(msg, 1000, TICKET);

    let exported = router.export_outbound_queue();
    assert_eq!(exported.len(), 1);

    let mut router2 = LxmfRouter::new();
    router2.import_outbound_queue(&exported, 2000);
    assert_eq!(router2.pending_outbound.len(), 1);
    assert_eq!(
        router2.pending_outbound[0].message.destination_hash,
        DestHash::from([0xCC; 16])
    );
}

#[test]
fn the_hash_of_a_queued_message_is_that_of_its_packed_form_with_the_ticket() {
    let mut router = LxmfRouter::new();
    let hash = router.handle_outbound(make_test_msg(DestHash::from([0xAA; 16])), 1000, TICKET);
    assert_eq!(
        hash,
        [
            0xb4, 0x0f, 0xbc, 0x72, 0x7c, 0x0e, 0x35, 0x83, 0xf9, 0xc6, 0x5f, 0x3e, 0x7a, 0xbf,
            0x2e, 0x68, 0x40, 0xb5, 0x4c, 0x19, 0x33, 0x6f, 0x03, 0xf7, 0xd6, 0xc1, 0x3d, 0xa4,
            0xd6, 0x9f, 0xca, 0x19
        ]
    );
    assert_eq!(
        router.pending_outbound[0].message.fields,
        BTreeMap::from([(
            FIELD_TICKET,
            vec![0x92, 0xce, 0x00, 0x1b, 0xb3, 0x68, 0xc4, 0x02, 0x12, 0x34]
        )])
    );
}

#[test]
fn a_message_that_bears_a_ticket_gets_no_other() {
    let mut router = LxmfRouter::new();
    let mut msg = make_test_msg(peer());
    msg.fields.insert(FIELD_TICKET, vec![0x92, 0x05, 0xc4, 0x00]);
    router.handle_outbound(msg, 1000, TICKET);
    assert_eq!(
        router.pending_outbound[0].message.fields,
        BTreeMap::from([(FIELD_TICKET, vec![0x92, 0x05, 0xc4, 0x00])])
    );
    assert!(router.tickets.get_inbound_tickets(&peer(), 1000).is_empty());
}

#[test]
fn a_cost_of_zero_or_an_own_stamp_leaves_the_stamp_alone() {
    let mut router = LxmfRouter::new();
    router.outbound_stamp_costs.insert(peer(), (1000, 0));
    router.handle_outbound(make_test_msg(peer()), 1000, TICKET);
    assert!(router.pending_outbound[0].message.stamp.is_none());

    router.outbound_stamp_costs.insert(peer(), (1000, 1));
    let mut msg = make_test_msg_at(peer(), 1.0);
    msg.stamp = Some([0x66; 32]);
    router.handle_outbound(msg, 1000, TICKET);
    assert_eq!(router.pending_outbound[1].message.stamp, Some([0x66; 32]));
}

#[test]
fn an_expired_ticket_makes_way_for_work() {
    let mut router = LxmfRouter::new();
    router.outbound_stamp_costs.insert(peer(), (1000, 1));
    router.tickets.store_outbound(peer(), [0x42, 0x37], 1000);
    router.handle_outbound(make_test_msg(peer()), 1000, TICKET);
    let message = &router.pending_outbound[0].message;
    let id = message.message_id();
    assert_ne!(message.stamp, Some(ticket_stamp(&[0x42, 0x37], &id)));
    assert_eq!(message.stamp, rete::stamp::work_stamp(&id, 1));
}

#[test]
fn a_pass_tells_of_what_has_ended_and_keeps_the_rest_in_order() {
    let mut node = Node::new(64);
    let mut router = LxmfRouter::new();
    let hashes: Vec<[u8; 32]> = (0..4)
        .map(|i| router.handle_outbound(make_test_msg_at(peer(), i as f64), 5000, TICKET))
        .collect();
    router.pending_outbound[0].state = OutboundState::Delivered;
    router.pending_outbound[2].state = OutboundState::Failed;
    assert_eq!(router.terminal_count(), 2);

    let (packets, events) = process(&mut router, &mut node, 100);
    assert!(packets.is_empty());
    assert_eq!(
        events,
        vec![
            LxmfEvent::MessageFailed { message_hash: hashes[2], dest_hash: peer() },
            LxmfEvent::MessageDelivered { message_hash: hashes[0], dest_hash: peer() },
        ]
    );
    let left: Vec<[u8; 32]> = router.pending_outbound.iter().map(|e| e.message_hash).collect();
    assert_eq!(left, vec![hashes[1], hashes[3]]);
    assert_eq!(router.pending_outbound[0].delivery_attempts, 0);
}

#[test]
fn a_packet_is_broadcast_with_the_message_without_its_destination() {
    let mut node = Node::with_peer(64, peer());
    let mut router = LxmfRouter::new();
    router.handle_outbound(make_test_msg(peer()), 1000, TICKET);
    let packed = router.pending_outbound[0].message.pack();
    let (packets, _) = process(&mut router, &mut node, 1000);
    assert_eq!(packets[0].data, packed[16..].to_vec());
    assert_eq!(packets[0].interface, None);
    assert_eq!(router.pending_outbound[0].receipt_hashes, vec![[1; 32]]);
}

#[test]
fn want_of_memory_puts_an_attempt_off() {
    let mut router = LxmfRouter::new();
    router.handle_outbound(make_test_msg(peer()), 1000, TICKET);
    let mut pass = router.begin_outbound(1000);
    assert_eq!(pass.cursor, 1);
    assert!(router.visit_next(&mut pass, false).is_none());
    assert_eq!(router.pending_outbound[0].delivery_attempts, 0);
    assert_eq!(router.pending_outbound[0].next_delivery_attempt, 1010);

    let mut node = Node::with_peer(64, peer());
    let mut pass = router.begin_outbound(1010);
    assert!(matches!(
        router.process_outbound(&mut pass),
        NodeRequest::PrepareData { .. }
    ));
    router.apply_reply(
        &mut pass,
        NodeReply::NotPrepared(SendError::OutputAllocationFailed),
    );
    assert!(matches!(router.process_outbound(&mut pass), NodeRequest::Done));
    assert_eq!(router.pending_outbound[0].delivery_attempts, 0);
    assert_eq!(router.pending_outbound[0].next_delivery_attempt, 1020);
    assert_eq!(process(&mut router, &mut node, 1020).0.len(), 1);
}

#[test]
fn an_exhausted_message_waits_for_its_last_receipt() {
    let mut node = Node::new(64);
    let mut router = LxmfRouter::new();
    router.handle_outbound(make_test_msg(peer()), 0, TICKET);
    router.pending_outbound[0].delivery_attempts = MAX_DELIVERY_ATTEMPTS;
    router.pending_outbound[0].receipt_hashes.push([0x99; 32]);

    let _ = process(&mut router, &mut node, 100);
    assert_eq!(router.pending_outbound[0].state, OutboundState::Queued);
    assert!(!router.check_delivery_failure(&[0x98; 32]));
    assert!(router.check_delivery_failure(&[0x99; 32]));
    assert_eq!(router.pending_outbound[0].state, OutboundState::Failed);
    let (_, events) = process(&mut router, &mut node, 100);
    assert!(matches!(events[0], LxmfEvent::MessageFailed { .. }));
}

#[test]
fn a_failed_attempt_within_the_budget_is_only_retired() {
    let mut router = LxmfRouter::new();
    router.handle_outbound(make_test_msg(peer()), 0, TICKET);
    router.pending_outbound[0].delivery_attempts = 1;
    router.pending_outbound[0].receipt_hashes.push([0x99; 32]);
    assert!(router.handle_delivery_failure_terminal(&[0x99; 32]).is_none());
    assert_eq!(router.pending_outbound.len(), 1);
    assert!(router.pending_outbound[0].receipt_hashes.is_empty());
    assert!(router.handle_delivery_failure_terminal(&[0x99; 32]).is_none());
}

#[test]
fn a_proof_names_the_receipts_of_the_other_attempts() {
    let mut router = LxmfRouter::new();
    let hash = router.handle_outbound(make_test_msg(peer()), 0, TICKET);
    for byte in [1u8, 2, 3] {
        router.pending_outbound[0].receipt_hashes.push([byte; 32]);
    }
    let (event, siblings) = router.check_delivery_receipt_with(&[2; 32]).unwrap();
    assert_eq!(
        event,
        LxmfEvent::MessageDelivered { message_hash: hash, dest_hash: peer() }
    );
    assert_eq!(siblings, vec![[1; 32], [3; 32]]);
    assert!(router.check_delivery_receipt_with(&[2; 32]).is_none());
}

fn direct_msg(timestamp: f64) -> LXMessage {
    let mut msg = make_test_msg_at(peer(), timestamp);
    msg.method = DeliveryMethod::Direct;
    msg
}

#[test]
fn a_direct_message_goes_over_a_link_once() {
    let mut node = Node::new(64);
    node.linkable = true;
    let mut router = LxmfRouter::new();
    let hash = router.handle_outbound(direct_msg(1.0), 1000, TICKET);
    let link = LinkId(peer().0);

    let (packets, events) = process(&mut router, &mut node, 1000);
    assert_eq!(packets.len(), 1);
    assert_eq!(packets[0].interface, Some(3));
    assert!(events.is_empty());
    assert_eq!(router.pending_outbound[0].state, OutboundState::Sending);
    assert_eq!(router.pending_outbound[0].delivery_attempts, 1);
    assert_eq!(router.outbound_direct_jobs.len(), 1);
    assert_eq!(*router.outbound_direct_jobs[0].link_id(), link);
    assert_eq!(*router.outbound_direct_jobs[0].message_hash(), hash);
    assert_eq!(*router.outbound_direct_jobs[0].dest_hash(), peer());
    assert!(process(&mut router, &mut node, 2000).0.is_empty());

    assert!(router
        .advance_outbound_on_link_established(&LinkId([0; 16]))
        .is_empty());
    let sent = router.advance_outbound_on_link_established(&link);
    assert_eq!(sent, vec![router.pending_outbound[0].message.pack()]);
    assert!(matches!(
        router.outbound_direct_jobs[0],
        OutboundDirectJob::Sending { .. }
    ));
    assert!(router.advance_outbound_on_link_established(&link).is_empty());

    router.advance_outbound_on_resource_complete(&LinkId([0; 16]));
    assert_eq!(router.pending_outbound[0].state, OutboundState::Sending);
    router.advance_outbound_on_resource_complete(&link);
    assert!(router.outbound_direct_jobs.is_empty());
    let (_, events) = process(&mut router, &mut node, 2000);
    assert_eq!(
        events,
        vec![LxmfEvent::MessageDelivered { message_hash: hash, dest_hash: peer() }]
    );
}

#[test]
fn a_refused_link_counts_and_a_job_under_way_does_not() {
    let mut node = Node::new(64);
    let mut router = LxmfRouter::new();
    let hash = router.handle_outbound(direct_msg(1.0), 1000, TICKET);
    let _ = process(&mut router, &mut node, 1000);
    assert_eq!(router.pending_outbound[0].delivery_attempts, 1);
    assert_eq!(router.pending_outbound[0].state, OutboundState::Queued);

    router.outbound_direct_jobs.push(OutboundDirectJob::Linking {
        dest_hash: peer(),
        link_id: LinkId([1; 16]),
        message_hash: hash,
    });
    let _ = process(&mut router, &mut node, 1010);
    assert_eq!(router.pending_outbound[0].delivery_attempts, 1);
    assert_eq!(router.pending_outbound[0].next_delivery_attempt, 1010);
}

#[test]
fn a_propagated_message_uses_up_its_attempts() {
    let mut node = Node::new(64);
    let mut router = LxmfRouter::new();
    let mut msg = make_test_msg(peer());
    msg.method = DeliveryMethod::Propagated;
    router.handle_outbound(msg, 0, TICKET);
    for attempt in 0..5u64 {
        let _ = process(&mut router, &mut node, attempt * 10);
        assert_eq!(router.pending_outbound[0].delivery_attempts as u64, attempt + 1);
    }
    let _ = process(&mut router, &mut node, 50);
    assert_eq!(router.pending_outbound[0].state, OutboundState::Failed);
}

#[test]
fn a_pass_over_a_queue_without_ended_entries_goes_over_all_of_it() {
    let mut router = LxmfRouter::new();
    assert_eq!(router.begin_outbound(7).cursor, 0);
    for i in 0..3 {
        router.handle_outbound(make_test_msg_at(peer(), i as f64), 1000, TICKET);
    }
    assert_eq!(router.terminal_count(), 0);
    let pass = router.begin_outbound(7);
    assert_eq!(pass.cursor, 3);
    assert_eq!(pass.now, 7);
    assert!(pass.packets.is_empty() && pass.events.is_empty());
}

#[test]
fn a_queued_message_is_sent_on_the_next_pass() {
    let mut node = Node::with_peer(64, peer());
    let mut router = LxmfRouter::new();
    router.handle_outbound(make_test_msg_at(DestHash([3; 16]), 1.0), 1000, TICKET);
    let _ = process(&mut router, &mut node, 1000);
    let hash = router.handle_outbound(make_test_msg(peer()), 1001, TICKET);
    let (packets, _) = process(&mut router, &mut node, 1001);
    assert_eq!(packets.len(), 1);
    assert_eq!(router.pending_outbound[1].message_hash, hash);
    assert_eq!(packets[0].data, router.pending_outbound[1].message.pack_opportunistic());
    assert_eq!(router.pending_outbound[1].delivery_attempts, 1);
}
