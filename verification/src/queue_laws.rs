//! What holds of the outbound queue across operations.

use crate::delivery::{NodeReply, PassView, RequestView, Visit};
use crate::hash::LinkId;
use crate::message::{DeliveryMethod, MessageView};
use crate::outbound::{
    EntryView, LxmfEvent, OutboundDirectJob, OutboundState, PacketView, RouterView, SendError,
    MAX_DELIVERY_ATTEMPTS,
};
use crate::{delivery, digest, links, message, msgpack, outbound, persist, search, stamp, ticket};
use vstd::prelude::*;

verus! {

/// An entry is tracked by the hash of its message, has no more receipts out than attempts
/// were made, and no more attempts than are allowed.
pub open spec fn in_order(e: EntryView) -> bool {
    &&& e.message_hash == e.message.hash()
    &&& e.receipt_hashes.len() <= e.delivery_attempts <= MAX_DELIVERY_ATTEMPTS
}

/// Every entry is in order, and no message is queued twice.
pub open spec fn consistent(q: Seq<EntryView>) -> bool {
    &&& forall|i: int| 0 <= i < q.len() ==> in_order(#[trigger] q[i])
    &&& forall|i: int, j: int|
        0 <= i < j < q.len() ==> (#[trigger] q[i]).message_hash != (#[trigger] q[j]).message_hash
}

/// The hashes that track the messages of `q`.
pub open spec fn hashes(q: Seq<EntryView>) -> Seq<[u8; 32]> {
    Seq::new(q.len(), |i: int| q[i].message_hash)
}

/// The messages of `q`, each with the hash that tracks it.
pub open spec fn messages(q: Seq<EntryView>) -> Seq<(MessageView, [u8; 32])> {
    Seq::new(q.len(), |i: int| (q[i].message, q[i].message_hash))
}

proof fn lemma_update_consistent(q: Seq<EntryView>, i: int, e: EntryView)
    requires
        consistent(q),
        0 <= i < q.len(),
        in_order(e),
        e.message_hash == q[i].message_hash,
    ensures
        consistent(q.update(i, e)),
{
    let t = q.update(i, e);
    assert forall|k: int, l: int| 0 <= k < l < t.len() implies (#[trigger] t[k]).message_hash != (
    #[trigger] t[l]).message_hash by {
        assert(t[k].message_hash == q[k].message_hash);
        assert(t[l].message_hash == q[l].message_hash);
    }
}

proof fn lemma_remove_consistent(q: Seq<EntryView>, i: int)
    requires
        consistent(q),
        0 <= i < q.len(),
    ensures
        consistent(q.remove(i)),
        forall|k: int|
            0 <= k < q.remove(i).len() ==> (#[trigger] q.remove(i)[k]).message_hash
                != q[i].message_hash,
{
    let t = q.remove(i);
    assert forall|k: int| 0 <= k < t.len() implies #[trigger] t[k] == q[if k < i {
        k
    } else {
        k + 1
    }] by {}
    assert forall|k: int| 0 <= k < t.len() implies (#[trigger] t[k]).message_hash
        != q[i].message_hash by {
        if k < i {
            assert(q[k].message_hash != q[i].message_hash);
        } else {
            assert(q[i].message_hash != q[k + 1].message_hash);
        }
    }
}

/// A message that joins the queue leaves it consistent, and is tracked from then on.
pub proof fn law_enqueued(q: Seq<EntryView>, m: MessageView, now: u64)
    requires
        consistent(q),
    ensures
        consistent(outbound::enqueued(q, m, now)),
        hashes(outbound::enqueued(q, m, now)).contains(m.hash()),
        outbound::enqueued(q, m, now).take(q.len() as int) == q,
{
    let p = outbound::hash_is(m.hash());
    let t = outbound::enqueued(q, m, now);
    search::lemma_first_index(q, p);
    match search::first_index(q, p) {
        Some(i) => {
            assert(hashes(t)[i] == m.hash());
            assert(t.take(q.len() as int) =~= q);
        },
        None => {
            assert(hashes(t)[q.len() as int] == m.hash());
            assert forall|i: int, j: int|
                0 <= i < j < t.len() implies (#[trigger] t[i]).message_hash != (
            #[trigger] t[j]).message_hash by {
                if j == q.len() {
                    assert(!p(q[i]));
                }
            }
            assert(t.take(q.len() as int) =~= q);
        },
    }
}

/// A message that is taken in again, at the same time or later and as it stands in the
/// queue, is not queued a second time: it comes out under the same hash, and no ticket is
/// given out for it.
pub proof fn law_message_is_queued_once(
    r: RouterView,
    m: MessageView,
    ticket: [u8; 2],
    now: u64,
    other_ticket: [u8; 2],
    later: u64,
)
    requires
        now <= later,
    ensures
        ({
            let out = r.outgoing(m, ticket, now);
            let after = RouterView {
                queue: outbound::enqueued(r.queue, out, now),
                tickets: r.tickets_after(m, ticket, now),
                ..r
            };
            &&& after.outgoing(out, other_ticket, later) == out
            &&& outbound::enqueued(after.queue, out, later) == after.queue
            &&& after.tickets_after(out, other_ticket, later) == after.tickets
        }),
{
    let out = r.outgoing(m, ticket, now);
    law_outgoing_bears_ticket(r, m, ticket, now);
    law_message_id_ignores_stamp(
        outbound::with_ticket(m, ticket::issued_ticket(ticket, now)),
        out.stamp,
    );
    let p = outbound::hash_is(out.hash());
    search::lemma_first_index(r.queue, p);
    if search::first_index(r.queue, p) is None {
        let t = r.queue.push(EntryView::fresh(out, now));
        assert(p(t[r.queue.len() as int]));
        search::lemma_first_index(t, p);
    }
}

/// Whatever stamp a message bears, it goes by the same name.
pub proof fn law_message_id_ignores_stamp(m: MessageView, stamp: Option<[u8; 32]>)
    ensures
        (MessageView { stamp, ..m }).message_id() == m.message_id(),
{
}

/// A message goes out with a reply ticket. One that bore none gets a new one, and the
/// ticket is on record as given to the destination while it is good; all else of the
/// message but its stamp stays as it was.
pub proof fn law_outgoing_bears_ticket(r: RouterView, m: MessageView, ticket: [u8; 2], now: u64)
    ensures
        r.outgoing(m, ticket, now).fields.contains_key(message::FIELD_TICKET),
        r.outgoing(m, ticket, now) == (MessageView {
            fields: r.outgoing(m, ticket, now).fields,
            stamp: r.outgoing(m, ticket, now).stamp,
            ..m
        }),
        r.outgoing(m, ticket, now).fields == if m.fields.contains_key(message::FIELD_TICKET) {
            m.fields
        } else {
            m.fields.insert(
                message::FIELD_TICKET,
                outbound::ticket_field(ticket::issued_ticket(ticket, now)),
            )
        },
        !m.fields.contains_key(message::FIELD_TICKET) && now < ticket::issued_ticket(
            ticket,
            now,
        ).expires ==> r.tickets_after(m, ticket, now).inbound_tickets(
            m.destination_hash,
            now,
        ).contains(ticket),
{
    let entry = ticket::issued_ticket(ticket, now);
    if !m.fields.contains_key(message::FIELD_TICKET) {
        if now < entry.expires {
            let t = r.tickets_after(m, ticket, now);
            let good = ticket::good_for(m.destination_hash, now);
            let at = t.inbound.len() - 1;
            assert(good(t.inbound[at]));
            t.inbound.lemma_filter_contains(good, at);
            let k = t.inbound.filter(good).index_of(t.inbound[at]);
            assert(t.inbound_tickets(m.destination_hash, now)[k] == ticket);
        }
    }
}

/// A recipient reads the ticket and its expiry back from the field that carries them.
pub proof fn law_ticket_field_is_read_back(entry: ticket::TicketEntry)
    ensures
        ({
            let field = outbound::ticket_field(entry);
            &&& msgpack::array_len_at(field, 0) == Some((2nat, 1nat))
            &&& msgpack::uint_at(field, 1) matches Some((expires, at)) && expires == entry.expires
                && msgpack::string_at(field, at) == Some((entry.ticket@, field.len()))
        }),
{
    let field = outbound::ticket_field(entry);
    let expires = msgpack::uint_bytes(entry.expires as nat);
    let bytes = msgpack::bin_bytes(entry.ticket@);
    assert(field.subrange(0, field.len() as int) =~= field);
    msgpack::lemma_stands_last(field, 0, field);
    msgpack::lemma_stands_split(field, 0, msgpack::array_header(2), expires + bytes);
    msgpack::law_array_header_round_trip(field, 0, 2);
    msgpack::lemma_stands_split(field, 1, expires, bytes);
    msgpack::law_uint_round_trip(field, 1, entry.expires as nat);
    msgpack::law_bin_round_trip(field, 1 + expires.len(), entry.ticket@);
}

/// A message without a stamp whose destination asks for one goes out with the stamp of the
/// ticket that the destination gave out, where one is good, and else with a stamp that is
/// worth the cost.
pub proof fn law_outgoing_stamp(r: RouterView, m: MessageView, ticket: [u8; 2], now: u64)
    requires
        m.stamp is None,
        r.stamp_cost(m.destination_hash) matches Some(cost) && cost > 0,
    ensures
        ({
            let out = r.outgoing(m, ticket, now);
            match r.tickets.outbound_ticket(m.destination_hash, now) {
                Some(t) => out.stamp == Some(stamp::stamp_of_ticket(t, out.message_id())),
                None => out.stamp matches Some(s) ==> stamp::meets_cost(
                    digest::sha256_digest(out.message_id()@ + s@),
                    r.stamp_cost(m.destination_hash)->0,
                ),
            }
        }),
{
    let bare = outbound::with_ticket(m, ticket::issued_ticket(ticket, now));
    let out = r.outgoing(m, ticket, now);
    law_message_id_ignores_stamp(bare, out.stamp);
    stamp::law_work_meets_cost(bare.message_id(), r.stamp_cost(m.destination_hash)->0);
}

/// A message that has just joined the queue is attempted when it is visited: a packet with
/// it is asked for, or a link to its destination.
pub proof fn law_fresh_message_is_attempted(
    m: MessageView,
    now: u64,
    later: u64,
    has_job: bool,
)
    requires
        now <= later,
    ensures
        m.method is Opportunistic ==> delivery::visit_entry(
            EntryView::fresh(m, now),
            later,
            has_job,
            true,
        ) == Visit::Ask(
            RequestView::PrepareData {
                dest_hash: m.destination_hash,
                payload: m.packed_opportunistic(),
            },
        ),
        m.method is Direct && !has_job ==> forall|granted: bool| #[trigger]
            delivery::visit_entry(EntryView::fresh(m, now), later, has_job, granted)
                == Visit::Ask(RequestView::InitiateLink { dest_hash: m.destination_hash }),
{
}

/// A message that has just joined the queue is the first that the next pass turns to, and
/// it is sent: the packet that the node prepares for it is broadcast and its receipt
/// awaited, or the link that the node opens for it is made its job.
pub proof fn law_message_is_sent_on_next_pass(
    r: RouterView,
    m: MessageView,
    now: u64,
    later: u64,
    reply: NodeReply,
)
    requires
        search::first_index(r.queue, outbound::hash_is(m.hash())) is None,
        !delivery::has_job(r.jobs, m.hash()),
        now <= later,
        delivery::answers(reply, m.method),
    ensures
        ({
            let joined = RouterView { queue: outbound::enqueued(r.queue, m, now), ..r };
            let v = delivery::visited(
                joined,
                PassView::open(later, joined.queue.len(), true),
                true,
            );
            let sent = delivery::replied(v.0, v.1, reply);
            let i = r.queue.len() as int;
            &&& v.2 == Some(
                if m.method is Direct {
                    RequestView::InitiateLink { dest_hash: m.destination_hash }
                } else {
                    RequestView::PrepareData {
                        dest_hash: m.destination_hash,
                        payload: m.packed_opportunistic(),
                    }
                },
            )
            &&& match reply {
                NodeReply::Prepared { packet_hash, data } => {
                    &&& sent.1.packets == seq![PacketView { data: data@, interface: None }]
                    &&& sent.0.queue[i].receipt_hashes == seq![packet_hash]
                    &&& sent.0.queue[i].delivery_attempts == 1
                },
                NodeReply::LinkInitiated { packet, link_id } => {
                    &&& sent.1.packets == seq![packet@]
                    &&& sent.0.jobs.last() == (OutboundDirectJob::Linking {
                        dest_hash: m.destination_hash,
                        link_id,
                        message_hash: m.hash(),
                    })
                    &&& sent.0.queue[i].state is Sending
                    &&& sent.0.queue[i].delivery_attempts == 1
                },
                NodeReply::NotPrepared(_) => sent.1.packets.len() == 0,
                NodeReply::LinkRefused => sent.1.packets.len() == 0,
            }
        }),
{
    let joined = RouterView { queue: outbound::enqueued(r.queue, m, now), ..r };
    let p = PassView::open(later, joined.queue.len(), true);
    assert(joined.queue[r.queue.len() as int] == EntryView::fresh(m, now));
    law_fresh_message_is_attempted(m, now, later, false);
    let v = delivery::visited(joined, p, true);
    let sent = delivery::replied(v.0, v.1, reply);
    match reply {
        NodeReply::Prepared { packet_hash, data } => {
            assert(sent.1.packets =~= seq![PacketView { data: data@, interface: None }]);
            assert(sent.0.queue[r.queue.len() as int].receipt_hashes =~= seq![packet_hash]);
        },
        NodeReply::LinkInitiated { packet, .. } => {
            assert(sent.1.packets =~= seq![packet@]);
        },
        _ => {},
    }
}

/// The next attempt is not allowed before the wait is over, or before the end of time.
pub proof fn law_retry_time(now: u64)
    ensures
        now <= outbound::retry_time(now),
        outbound::retry_time(now) < u64::MAX ==> outbound::retry_time(now) == now
            + outbound::DELIVERY_RETRY_WAIT,
{
}

/// While a receipt is out, a visit neither gives up a message nor lets it leave the queue.
pub proof fn law_no_failure_while_receipt_is_out(
    e: EntryView,
    now: u64,
    has_job: bool,
    granted: bool,
)
    requires
        e.state is Queued || e.state is Sending,
        e.receipt_hashes.len() > 0,
    ensures
        match delivery::visit_entry(e, now, has_job, granted) {
            Visit::Settle => false,
            Visit::Keep(kept) => kept.state == e.state && kept.receipt_hashes == e.receipt_hashes,
            Visit::Ask(_) => true,
        },
{
}

/// A message without an attempt or a receipt left fails when its time comes, and the next
/// visit, whenever it is, tells so.
pub proof fn law_exhausted_message_fails(
    e: EntryView,
    now: u64,
    later: u64,
    has_job: bool,
    granted: bool,
)
    requires
        e.due(now),
        e.exhausted(),
        e.receipt_hashes.len() == 0,
    ensures
        delivery::visit_entry(e, now, has_job, granted) matches Visit::Keep(kept) && kept
            == e.in_state(OutboundState::Failed) && kept.event() == e.failed_event()
            && delivery::visit_entry(kept, later, has_job, granted) is Settle,
{
}

/// An attempt that failed for want of room is not counted; it is put off, and nothing else
/// changes.
pub proof fn law_back_pressure_is_not_counted(r: RouterView, p: PassView, error: SendError)
    requires
        p.waits(r.queue),
        delivery::is_back_pressure(error),
    ensures
        ({
            let i = p.cursor as int;
            let after = delivery::replied(r, p, NodeReply::NotPrepared(error));
            &&& after.0.queue[i].delivery_attempts == r.queue[i].delivery_attempts
            &&& after.0.queue[i].receipt_hashes == r.queue[i].receipt_hashes
            &&& after.0.queue[i].next_delivery_attempt == outbound::retry_time(p.now)
            &&& after.1.packets == p.packets
            &&& forall|k: int|
                0 <= k < r.queue.len() && k != i ==> #[trigger] after.0.queue[k] == r.queue[k]
        }),
{
}

/// The events of the entries of `s` that have come to their end, from the last to the first.
pub open spec fn told(s: Seq<EntryView>) -> Seq<LxmfEvent>
    decreases s.len(),
{
    if s.len() == 0 {
        Seq::empty()
    } else {
        let before = told(s.drop_last());
        let e = s.last();
        match e.state {
            OutboundState::Delivered => seq![
                LxmfEvent::MessageDelivered {
                    message_hash: e.message_hash,
                    dest_hash: e.message.destination_hash,
                },
            ] + before,
            OutboundState::Failed => seq![
                LxmfEvent::MessageFailed {
                    message_hash: e.message_hash,
                    dest_hash: e.message.destination_hash,
                },
            ] + before,
            OutboundState::Queued => before,
            OutboundState::Sending => before,
        }
    }
}

proof fn lemma_told_split(a: Seq<EntryView>, b: Seq<EntryView>)
    ensures
        told(a + b) == told(b) + told(a),
    decreases b.len(),
{
    if b.len() == 0 {
        assert(a + b =~= a);
        assert(told(b) + told(a) =~= told(a));
    } else {
        assert((a + b).drop_last() =~= a + b.drop_last());
        assert((a + b).last() == b.last());
        lemma_told_split(a, b.drop_last());
        assert(told(a + b) =~= told(b) + told(a));
    }
}

/// Picks the entries that have not come to their end.
pub open spec fn is_unfinished() -> spec_fn(EntryView) -> bool {
    |e: EntryView| e.state is Queued || e.state is Sending
}

/// What of the entries `s` is left in the queue: those that have not come to their end.
pub open spec fn left(s: Seq<EntryView>) -> Seq<EntryView> {
    s.filter(is_unfinished())
}

proof fn lemma_left_last(s: Seq<EntryView>)
    requires
        s.len() > 0,
    ensures
        left(s) == if s.last().terminal() {
            left(s.drop_last())
        } else {
            left(s.drop_last()).push(s.last())
        },
{
    reveal(Seq::filter);
}

/// How one visit of a pass that stops as `stop` says went.
pub proof fn lemma_visit(
    r: RouterView,
    p: PassView,
    stop: (RouterView, PassView, RequestView),
) -> (granted: bool)
    requires
        p.cursor > 0,
        delivery::stops_at(r, p, stop),
    ensures
        ({
            let v = delivery::visited(r, p, granted);
            match v.2 {
                Some(request) => stop == (v.0, v.1, request),
                None => v.1.cursor < p.cursor && delivery::stops_at(v.0, v.1, stop),
            }
        }),
{
    choose|granted: bool|
        {
            let v = #[trigger] delivery::visited(r, p, granted);
            match v.2 {
                Some(request) => stop == (v.0, v.1, request),
                None => v.1.cursor < p.cursor && delivery::stops_at(v.0, v.1, stop),
            }
        }
}

proof fn lemma_messages_add(a: Seq<EntryView>, b: Seq<EntryView>)
    ensures
        messages(a + b) == messages(a) + messages(b),
{
    assert(messages(a + b) =~= messages(a) + messages(b));
}

proof fn lemma_none_visited(q: Seq<EntryView>, c: int)
    requires
        0 <= c <= q.len(),
    ensures
        told(q.subrange(c, c)) == Seq::<LxmfEvent>::empty(),
        messages(q) == messages(q.take(c)) + (messages(left(q.subrange(c, c))) + messages(
            q.skip(c),
        )),
{
    let none = q.subrange(c, c);
    assert(none =~= Seq::empty());
    assert(left(none) =~= Seq::empty()) by {
        reveal(Seq::filter);
    }
    assert(messages(q) =~= messages(q.take(c)) + (messages(left(none)) + messages(q.skip(c))));
}

proof fn lemma_ended_visited(q: Seq<EntryView>, d: int, c: int)
    requires
        0 <= d < c <= q.len(),
        q[c - 1].terminal(),
    ensures
        q.remove(c - 1).take(d) == q.take(d),
        q.remove(c - 1).skip(c - 1) == q.skip(c),
        told(q.subrange(d, c)) == seq![q[c - 1].event()] + told(
            q.remove(c - 1).subrange(d, c - 1),
        ),
        left(q.subrange(d, c)) == left(q.remove(c - 1).subrange(d, c - 1)),
{
    let part = q.subrange(d, c);
    let t = q.remove(c - 1);
    assert(part.drop_last() =~= t.subrange(d, c - 1));
    assert(part.last() == q[c - 1]);
    lemma_left_last(part);
    assert(t.take(d) =~= q.take(d));
    assert(t.skip(c - 1) =~= q.skip(c));
}

proof fn lemma_pending_visited(q: Seq<EntryView>, kept: EntryView, d: int, c: int)
    requires
        0 <= d < c <= q.len(),
        !q[c - 1].terminal(),
        kept.message == q[c - 1].message,
        kept.message_hash == q[c - 1].message_hash,
    ensures
        q.update(c - 1, kept).take(d) == q.take(d),
        told(q.subrange(d, c)) == told(q.update(c - 1, kept).subrange(d, c - 1)),
        messages(left(q.subrange(d, c))) + messages(q.skip(c)) == messages(
            left(q.update(c - 1, kept).subrange(d, c - 1)),
        ) + messages(q.update(c - 1, kept).skip(c - 1)),
{
    let part = q.subrange(d, c);
    let t = q.update(c - 1, kept);
    assert(part.drop_last() =~= t.subrange(d, c - 1));
    assert(part.last() == q[c - 1]);
    lemma_left_last(part);
    assert(t.take(d) =~= q.take(d));
    let front = left(part.drop_last());
    let this = (kept.message, kept.message_hash);
    assert(messages(front.push(q[c - 1])) =~= messages(front).push(this));
    assert(messages(t.skip(c - 1)) =~= seq![this] + messages(q.skip(c)));
    assert(messages(front).push(this) + messages(q.skip(c)) =~= messages(front) + (seq![this]
        + messages(q.skip(c))));
}

/// From one stop of a pass to the next, exactly the visited entries that have come to their
/// end leave the queue, each with its event; every other message stays in its place in
/// the order. Entries not visited yet are not touched, nor is anything but the queue, and
/// no packet is added.
pub proof fn law_pass_until_stop(
    r: RouterView,
    p: PassView,
    stop: (RouterView, PassView, RequestView),
)
    requires
        p.ready(r.queue),
        delivery::stops_at(r, p, stop),
    ensures
        stop.1.cursor <= p.cursor,
        stop.1.now == p.now,
        stop.1.packets == p.packets,
        stop.0 == (RouterView { queue: stop.0.queue, ..r }),
        stop.1.cursor <= stop.0.queue.len(),
        stop.0.queue.take(stop.1.cursor as int) == r.queue.take(stop.1.cursor as int),
        stop.1.events == p.events + told(
            r.queue.subrange(stop.1.cursor as int, p.cursor as int),
        ),
        messages(stop.0.queue) == messages(r.queue.take(stop.1.cursor as int)) + (messages(
            left(r.queue.subrange(stop.1.cursor as int, p.cursor as int)),
        ) + messages(r.queue.skip(p.cursor as int))),
        stop.2 is Done ==> stop.1.cursor == 0 && !stop.1.awaiting,
        !(stop.2 is Done) ==> stop.1.waits(stop.0.queue),
    decreases p.cursor,
{
    let c = p.cursor as int;
    let q = r.queue;
    if c == 0 {
        lemma_none_visited(q, 0);
        assert(p.events + Seq::<LxmfEvent>::empty() =~= p.events);
    } else {
        let granted = lemma_visit(r, p, stop);
        let v = delivery::visited(r, p, granted);
        let e = q[c - 1];
        let has_job = delivery::has_job(r.jobs, e.message_hash);
        match delivery::visit_entry(e, p.now, has_job, granted) {
            Visit::Ask(_) => {
                lemma_none_visited(q, c - 1);
                lemma_pending_visited(q, e, c - 1, c);
                assert(q.update(c - 1, e) =~= q);
                assert(p.events + Seq::<LxmfEvent>::empty() =~= p.events);
            },
            Visit::Settle => {
                law_pass_until_stop(v.0, v.1, stop);
                let d = stop.1.cursor as int;
                lemma_ended_visited(q, d, c);
                let rest = told(v.0.queue.subrange(d, c - 1));
                assert(p.events.push(e.event()) + rest =~= p.events + (seq![e.event()] + rest));
            },
            Visit::Keep(kept) => {
                law_pass_until_stop(v.0, v.1, stop);
                lemma_pending_visited(q, kept, stop.1.cursor as int, c);
            },
        }
    }
}

/// Whether a pass goes from `(r, p)` to its end as `end`, where the node gave `replies`.
pub open spec fn runs_to(
    r: RouterView,
    p: PassView,
    replies: Seq<NodeReply>,
    end: (RouterView, PassView),
) -> bool
    decreases replies.len(),
{
    if replies.len() == 0 {
        delivery::stops_at(r, p, (end.0, end.1, RequestView::Done))
    } else {
        exists|stop: (RouterView, PassView, RequestView)|
            {
                &&& #[trigger] delivery::stops_at(r, p, stop)
                &&& !(stop.2 is Done)
                &&& delivery::answers(
                    replies[0],
                    stop.0.queue[stop.1.cursor as int].message.method,
                )
                &&& ({
                    let next = delivery::replied(stop.0, stop.1, replies[0]);
                    runs_to(next.0, next.1, replies.drop_first(), end)
                })
            }
    }
}

/// A pass for which there was no memory leaves everything as it is.
pub proof fn law_pass_without_memory(
    r: RouterView,
    now: u64,
    stop: (RouterView, PassView, RequestView),
)
    requires
        delivery::stops_at(r, PassView::open(now, r.queue.len(), false), stop),
    ensures
        stop.0 == r,
        stop.1.events.len() == 0,
        stop.1.packets.len() == 0,
        stop.2 is Done,
{
}

/// Where a pass that needs the node stops first.
pub proof fn lemma_first_stop(
    r: RouterView,
    p: PassView,
    replies: Seq<NodeReply>,
    end: (RouterView, PassView),
) -> (stop: (RouterView, PassView, RequestView))
    requires
        replies.len() > 0,
        runs_to(r, p, replies, end),
    ensures
        delivery::stops_at(r, p, stop),
        !(stop.2 is Done),
        delivery::answers(replies[0], stop.0.queue[stop.1.cursor as int].message.method),
        ({
            let next = delivery::replied(stop.0, stop.1, replies[0]);
            runs_to(next.0, next.1, replies.drop_first(), end)
        }),
{
    choose|stop: (RouterView, PassView, RequestView)|
        {
            &&& #[trigger] delivery::stops_at(r, p, stop)
            &&& !(stop.2 is Done)
            &&& delivery::answers(
                replies[0],
                stop.0.queue[stop.1.cursor as int].message.method,
            )
            &&& ({
                let next = delivery::replied(stop.0, stop.1, replies[0]);
                runs_to(next.0, next.1, replies.drop_first(), end)
            })
        }
}

/// A pass tells of every entry that had come to its end and lets it leave the queue. All
/// other messages stay, under their hashes and in their order, whatever the node replies.
pub proof fn law_pass_settles_what_has_ended(
    r: RouterView,
    p: PassView,
    replies: Seq<NodeReply>,
    end: (RouterView, PassView),
)
    requires
        p.ready(r.queue),
        runs_to(r, p, replies, end),
    ensures
        end.1.events == p.events + told(r.queue.take(p.cursor as int)),
        messages(end.0.queue) == messages(left(r.queue.take(p.cursor as int))) + messages(
            r.queue.skip(p.cursor as int),
        ),
    decreases replies.len(),
{
    let c = p.cursor as int;
    let q = r.queue;
    if replies.len() == 0 {
        law_pass_until_stop(r, p, (end.0, end.1, RequestView::Done));
        assert(q.subrange(0, c) =~= q.take(c));
        assert(messages(q.take(0)) =~= Seq::empty());
        assert(messages(end.0.queue) =~= messages(left(q.take(c))) + messages(q.skip(c)));
    } else {
        let stop = lemma_first_stop(r, p, replies, end);
        law_pass_until_stop(r, p, stop);
        let next = delivery::replied(stop.0, stop.1, replies[0]);
        law_pass_settles_what_has_ended(next.0, next.1, replies.drop_first(), end);
        let d = stop.1.cursor as int;
        let after = next.0.queue;
        let part = q.subrange(d, c);
        assert(after.take(d) =~= q.take(d)) by {
            assert(after.take(d) =~= stop.0.queue.take(d));
        }
        assert(q.take(c) =~= q.take(d) + part);
        lemma_told_split(q.take(d), part);
        assert(end.1.events =~= p.events + told(q.take(c)));
        Seq::filter_distributes_over_add(q.take(d), part, is_unfinished());
        lemma_messages_add(left(q.take(d)), left(part));
        assert(messages(after.skip(d)) =~= messages(stop.0.queue).skip(d));
        assert(messages(stop.0.queue).skip(d) =~= messages(left(part)) + messages(q.skip(c)));
        assert(messages(end.0.queue) =~= messages(left(q.take(c))) + messages(q.skip(c)));
    }
}

/// A pass leaves a consistent queue consistent wherever it stops.
pub proof fn law_stop_keeps_consistent(
    r: RouterView,
    p: PassView,
    stop: (RouterView, PassView, RequestView),
)
    requires
        consistent(r.queue),
        p.ready(r.queue),
        delivery::stops_at(r, p, stop),
    ensures
        consistent(stop.0.queue),
    decreases p.cursor,
{
    if p.cursor > 0 {
        let granted = lemma_visit(r, p, stop);
        let v = delivery::visited(r, p, granted);
        let i = p.cursor - 1;
        let e = r.queue[i];
        let has_job = delivery::has_job(r.jobs, e.message_hash);
        assert(in_order(e));
        match delivery::visit_entry(e, p.now, has_job, granted) {
            Visit::Settle => {
                lemma_remove_consistent(r.queue, i);
                law_stop_keeps_consistent(v.0, v.1, stop);
            },
            Visit::Keep(kept) => {
                lemma_update_consistent(r.queue, i, kept);
                law_stop_keeps_consistent(v.0, v.1, stop);
            },
            Visit::Ask(_) => {},
        }
    }
}

/// The node's reply leaves a consistent queue consistent: a receipt is added only with an
/// attempt, and an attempt only within the budget.
pub proof fn law_reply_keeps_consistent(r: RouterView, p: PassView, reply: NodeReply)
    requires
        consistent(r.queue),
        p.waits(r.queue),
    ensures
        consistent(delivery::replied(r, p, reply).0.queue),
{
    let i = p.cursor as int;
    assert(in_order(r.queue[i]));
    lemma_update_consistent(r.queue, i, delivery::replied(r, p, reply).0.queue[i]);
}

/// A whole pass leaves a consistent queue consistent, whatever the node replies; so at its
/// end no message is queued twice, and none has had more attempts than are allowed or has
/// more receipts out than attempts.
pub proof fn law_pass_keeps_consistent(
    r: RouterView,
    p: PassView,
    replies: Seq<NodeReply>,
    end: (RouterView, PassView),
)
    requires
        consistent(r.queue),
        p.ready(r.queue),
        runs_to(r, p, replies, end),
    ensures
        consistent(end.0.queue),
    decreases replies.len(),
{
    if replies.len() == 0 {
        law_stop_keeps_consistent(r, p, (end.0, end.1, RequestView::Done));
    } else {
        let stop = lemma_first_stop(r, p, replies, end);
        law_pass_until_stop(r, p, stop);
        law_stop_keeps_consistent(r, p, stop);
        law_reply_keeps_consistent(stop.0, stop.1, replies[0]);
        let next = delivery::replied(stop.0, stop.1, replies[0]);
        law_pass_keeps_consistent(next.0, next.1, replies.drop_first(), end);
    }
}

/// No two jobs deliver the same message.
pub open spec fn distinct_jobs(jobs: Seq<OutboundDirectJob>) -> bool {
    forall|i: int, j: int|
        0 <= i < j < jobs.len() ==> (#[trigger] jobs[i]).hash() != (#[trigger] jobs[j]).hash()
}

/// A link is asked for only on behalf of a message that no job delivers; so the node's reply
/// leaves at most one job for a message.
pub proof fn law_reply_keeps_jobs_distinct(
    r: RouterView,
    p: PassView,
    stop: (RouterView, PassView, RequestView),
    reply: NodeReply,
)
    requires
        distinct_jobs(r.jobs),
        p.ready(r.queue),
        delivery::stops_at(r, p, stop),
        !(stop.2 is Done),
        delivery::answers(reply, stop.0.queue[stop.1.cursor as int].message.method),
    ensures
        distinct_jobs(delivery::replied(stop.0, stop.1, reply).0.jobs),
    decreases p.cursor,
{
    let granted = lemma_visit(r, p, stop);
    let v = delivery::visited(r, p, granted);
    let e = r.queue[p.cursor - 1];
    match delivery::visit_entry(
        e,
        p.now,
        delivery::has_job(r.jobs, e.message_hash),
        granted,
    ) {
        Visit::Ask(request) => {
            let jobs = delivery::replied(stop.0, stop.1, reply).0.jobs;
            assert forall|i: int, j: int|
                0 <= i < j < jobs.len() implies (#[trigger] jobs[i]).hash() != (
            #[trigger] jobs[j]).hash() by {
                if j == r.jobs.len() {
                    assert(jobs[i] == r.jobs[i]);
                }
            }
        },
        _ => {
            law_reply_keeps_jobs_distinct(v.0, v.1, stop, reply);
        },
    }
}

/// Throughout a pass there is at most one job for a message.
pub proof fn law_one_job_per_message(
    r: RouterView,
    p: PassView,
    replies: Seq<NodeReply>,
    end: (RouterView, PassView),
)
    requires
        distinct_jobs(r.jobs),
        p.ready(r.queue),
        runs_to(r, p, replies, end),
    ensures
        distinct_jobs(end.0.jobs),
    decreases replies.len(),
{
    if replies.len() == 0 {
        law_pass_until_stop(r, p, (end.0, end.1, RequestView::Done));
    } else {
        let stop = lemma_first_stop(r, p, replies, end);
        law_pass_until_stop(r, p, stop);
        law_reply_keeps_jobs_distinct(r, p, stop, replies[0]);
        let next = delivery::replied(stop.0, stop.1, replies[0]);
        law_one_job_per_message(next.0, next.1, replies.drop_first(), end);
    }
}

/// A proof delivers its message once and for all: the message is gone from the queue, so
/// that nothing can tell of it again, and every other entry stays. The queue stays
/// consistent.
pub proof fn law_proof_is_final(r: RouterView, packet_hash: [u8; 32])
    requires
        consistent(r.queue),
    ensures
        consistent(r.proved(packet_hash).queue),
        match r.receipt_index(packet_hash) {
            Some(i) => {
                &&& 0 <= i < r.queue.len()
                &&& r.queue[i].receipt_hashes.contains(packet_hash)
                &&& r.proof_event(packet_hash) == Some(r.queue[i].delivered_event())
                &&& !hashes(r.proved(packet_hash).queue).contains(r.queue[i].message_hash)
                &&& r.proved(packet_hash).queue == r.queue.remove(i)
            },
            None => {
                &&& r.proof_event(packet_hash) is None
                &&& r.proved(packet_hash) == r
                &&& forall|i: int|
                    0 <= i < r.queue.len() ==> !(
                    #[trigger] r.queue[i]).receipt_hashes.contains(packet_hash)
            },
        },
{
    let p = outbound::awaits_receipt(packet_hash);
    search::lemma_first_index(r.queue, p);
    match r.receipt_index(packet_hash) {
        Some(i) => {
            lemma_remove_consistent(r.queue, i);
            let t = r.queue.remove(i);
            if hashes(t).contains(r.queue[i].message_hash) {
                let k = hashes(t).index_of(r.queue[i].message_hash);
                assert(t[k].message_hash == r.queue[i].message_hash);
            }
        },
        None => {
            assert forall|i: int| 0 <= i < r.queue.len() implies !(
            #[trigger] r.queue[i]).receipt_hashes.contains(packet_hash) by {
                assert(!p(r.queue[i]));
            }
        },
    }
}

/// The receipts that a proof makes pointless are the other ones of the same message, all
/// of them.
pub proof fn law_siblings(r: RouterView, packet_hash: [u8; 32], other: [u8; 32])
    ensures
        r.siblings(packet_hash).contains(other) <==> other != packet_hash && (r.receipt_index(
            packet_hash,
        ) matches Some(i) && r.queue[i].receipt_hashes.contains(other)),
{
    match r.receipt_index(packet_hash) {
        Some(i) => {
            lemma_retired(r.queue[i].receipt_hashes, packet_hash, other);
        },
        None => {},
    }
}

proof fn lemma_retired(s: Seq<[u8; 32]>, hash: [u8; 32], other: [u8; 32])
    ensures
        s.filter(outbound::other_than(hash)).contains(other) <==> other != hash && s.contains(
            other,
        ),
{
    let p = outbound::other_than(hash);
    if s.filter(p).contains(other) {
        s.lemma_filter_contains_rev(p, other);
        s.lemma_filter_pred(p, s.filter(p).index_of(other));
        assert(p(other));
    }
    if other != hash && s.contains(other) {
        let i = s.index_of(other);
        assert(p(s[i]));
        s.lemma_filter_contains(p, i);
    }
}

/// A failed attempt is retired and its siblings stay out. The message is given up if and
/// only if that was the last receipt and no attempt is left; it then leaves the queue with
/// its event. The queue stays consistent either way.
pub proof fn law_failure_settled(r: RouterView, packet_hash: [u8; 32])
    requires
        consistent(r.queue),
    ensures
        consistent(r.failure_settled(packet_hash).queue),
        consistent(r.failure_marked(packet_hash).queue),
        match r.receipt_index(packet_hash) {
            Some(i) => {
                let gone = r.queue[i].delivery_attempts == MAX_DELIVERY_ATTEMPTS && forall|
                    other: [u8; 32],
                | #[trigger]
                    r.queue[i].receipt_hashes.contains(other) ==> other == packet_hash;
                if gone {
                    &&& r.failure_event(packet_hash) == Some(r.queue[i].failed_event())
                    &&& r.failure_settled(packet_hash).queue == r.queue.remove(i)
                } else {
                    &&& r.failure_event(packet_hash) is None
                    &&& r.failure_settled(packet_hash).queue.len() == r.queue.len()
                    &&& forall|other: [u8; 32]|
                        #![trigger r.queue[i].receipt_hashes.contains(other)]
                        r.failure_settled(packet_hash).queue[i].receipt_hashes.contains(other)
                            <==> other != packet_hash && r.queue[i].receipt_hashes.contains(other)
                }
            },
            None => r.failure_settled(packet_hash) == r && r.failure_event(packet_hash) is None,
        },
{
    let p = outbound::awaits_receipt(packet_hash);
    search::lemma_first_index(r.queue, p);
    match r.receipt_index(packet_hash) {
        Some(i) => {
            let e = r.queue[i];
            let after = e.without_receipt(packet_hash);
            assert(in_order(e));
            e.receipt_hashes.lemma_filter_len(outbound::other_than(packet_hash));
            assert forall|other: [u8; 32]|
                #![trigger e.receipt_hashes.contains(other)]
                after.receipt_hashes.contains(other) <==> other != packet_hash
                    && e.receipt_hashes.contains(other) by {
                lemma_retired(e.receipt_hashes, packet_hash, other);
            }
            if after.receipt_hashes.len() > 0 {
                let other = after.receipt_hashes[0];
                assert(after.receipt_hashes.contains(other));
                lemma_retired(e.receipt_hashes, packet_hash, other);
                assert(e.receipt_hashes.contains(other));
            } else {
                assert forall|other: [u8; 32]| #[trigger]
                    e.receipt_hashes.contains(other) implies other == packet_hash by {
                    lemma_retired(e.receipt_hashes, packet_hash, other);
                }
            }
            lemma_update_consistent(r.queue, i, after);
            lemma_update_consistent(r.queue, i, after.in_state(OutboundState::Failed));
            lemma_remove_consistent(r.queue, i);
        },
        None => {},
    }
}

/// Marking a message as failed and letting a pass settle it comes to the same as giving it
/// up at once.
pub proof fn law_marked_failure_is_settled_by_pass(
    r: RouterView,
    p: PassView,
    packet_hash: [u8; 32],
    granted: bool,
)
    requires
        r.receipt_index(packet_hash) is Some,
    ensures
        match r.failure_event(packet_hash) {
            Some(event) => {
                let i = r.receipt_index(packet_hash)->0;
                let marked = r.failure_marked(packet_hash);
                let at = PassView { cursor: (i + 1) as nat, ..p };
                let v = delivery::visited(marked, at, granted);
                &&& v.0 == r.failure_settled(packet_hash)
                &&& v.1.events == p.events.push(event)
                &&& v.2 is None
            },
            None => r.failure_marked(packet_hash) == r.failure_settled(packet_hash),
        },
{
    let i = r.receipt_index(packet_hash)->0;
    search::lemma_first_index(r.queue, outbound::awaits_receipt(packet_hash));
    let marked = r.failure_marked(packet_hash);
    if r.failure_event(packet_hash) is Some {
        assert(marked.queue.remove(i) =~= r.queue.remove(i));
    }
}

proof fn lemma_message_in_state(q: Seq<EntryView>, hash: [u8; 32], state: OutboundState)
    ensures
        links::message_in_state(q, hash, state).len() == q.len(),
        forall|k: int|
            0 <= k < q.len() ==> (#[trigger] links::message_in_state(q, hash, state)[k]
                == q[k] || links::message_in_state(q, hash, state)[k] == q[k].in_state(state)),
        forall|k: int|
            0 <= k < q.len() && q[k].message_hash != hash ==> #[trigger] links::message_in_state(
                q,
                hash,
                state,
            )[k] == q[k],
        consistent(q) ==> consistent(links::message_in_state(q, hash, state)),
        consistent(q) ==> forall|k: int|
            0 <= k < q.len() && q[k].message_hash == hash ==> #[trigger] links::message_in_state(
                q,
                hash,
                state,
            )[k] == q[k].in_state(state),
{
    let p = outbound::hash_is(hash);
    search::lemma_first_index(q, p);
    match search::first_index(q, p) {
        Some(i) => {
            assert(p(q[i]));
            if consistent(q) {
                assert(in_order(q[i]));
                lemma_update_consistent(q, i, q[i].in_state(state));
            }
        },
        None => {
            assert forall|k: int| 0 <= k < q.len() implies (#[trigger] q[k]).message_hash
                != hash by {
                assert(!p(q[k]));
            }
        },
    }
}

/// A transfer that is complete delivers the message of its job, and no other entry changes;
/// the job is gone.
pub proof fn law_resource_complete(r: RouterView, link: LinkId)
    requires
        consistent(r.queue),
    ensures
        consistent(r.resource_complete(link).queue),
        match search::first_index(r.jobs, outbound::goes_over(link)) {
            Some(i) => {
                let after = r.resource_complete(link);
                &&& after.jobs == r.jobs.remove(i)
                &&& after.queue.len() == r.queue.len()
                &&& forall|k: int|
                    0 <= k < r.queue.len() ==> #[trigger] after.queue[k]
                        == if r.queue[k].message_hash == r.jobs[i].hash() {
                        r.queue[k].in_state(OutboundState::Delivered)
                    } else {
                        r.queue[k]
                    }
            },
            None => r.resource_complete(link) == r,
        },
{
    match search::first_index(r.jobs, outbound::goes_over(link)) {
        Some(i) => lemma_message_in_state(
            r.queue,
            r.jobs[i].hash(),
            OutboundState::Delivered,
        ),
        None => {},
    }
}

/// Whether one of `jobs` delivers the message tracked by `hash` over `link`.
pub open spec fn goes_by(jobs: Seq<OutboundDirectJob>, link: LinkId, hash: [u8; 32]) -> bool {
    exists|i: int|
        0 <= i < jobs.len() && (#[trigger] jobs[i]).link() == link && jobs[i].hash() == hash
}

proof fn lemma_requeued(q: Seq<EntryView>, jobs: Seq<OutboundDirectJob>, link: LinkId)
    requires
        consistent(q),
    ensures
        consistent(links::requeued(q, jobs, link)),
        links::requeued(q, jobs, link).len() == q.len(),
        forall|k: int|
            0 <= k < q.len() ==> #[trigger] links::requeued(q, jobs, link)[k] == if goes_by(
                jobs,
                link,
                q[k].message_hash,
            ) {
                q[k].in_state(OutboundState::Queued)
            } else {
                q[k]
            },
    decreases jobs.len(),
{
    if jobs.len() > 0 {
        let front = jobs.drop_last();
        let before = links::requeued(q, front, link);
        let job = jobs.last();
        lemma_requeued(q, front, link);
        lemma_message_in_state(before, job.hash(), OutboundState::Queued);
        assert forall|k: int| 0 <= k < q.len() implies #[trigger] links::requeued(q, jobs, link)[k]
            == if goes_by(jobs, link, q[k].message_hash) {
            q[k].in_state(OutboundState::Queued)
        } else {
            q[k]
        } by {
            let hash = q[k].message_hash;
            assert(before[k].message_hash == hash);
            if goes_by(front, link, hash) {
                let i = choose|i: int|
                    0 <= i < front.len() && (#[trigger] front[i]).link() == link
                        && front[i].hash() == hash;
                assert(jobs[i] == front[i]);
                assert(goes_by(jobs, link, hash));
            } else if job.link() == link && job.hash() == hash {
                assert(jobs[jobs.len() - 1].link() == link);
                assert(goes_by(jobs, link, hash));
            } else if goes_by(jobs, link, hash) {
                let i = choose|i: int|
                    0 <= i < jobs.len() && (#[trigger] jobs[i]).link() == link && jobs[i].hash()
                        == hash;
                assert(front[i] == jobs[i]);
            }
        }
    }
}

/// When a link closes, exactly the messages that went over it wait for another attempt,
/// and no job goes over it any more.
pub proof fn law_link_closed(r: RouterView, link: LinkId)
    requires
        consistent(r.queue),
    ensures
        consistent(r.link_closed(link).queue),
        r.link_closed(link).queue.len() == r.queue.len(),
        forall|k: int|
            0 <= k < r.queue.len() ==> #[trigger] r.link_closed(link).queue[k] == if goes_by(
                r.jobs,
                link,
                r.queue[k].message_hash,
            ) {
                r.queue[k].in_state(OutboundState::Queued)
            } else {
                r.queue[k]
            },
        forall|k: int|
            0 <= k < r.link_closed(link).jobs.len() ==> (#[trigger] r.link_closed(
                link,
            ).jobs[k]).link() != link,
{
    lemma_requeued(r.queue, r.jobs, link);
    let p = outbound::goes_elsewhere(link);
    assert forall|k: int| 0 <= k < r.link_closed(link).jobs.len() implies (
    #[trigger] r.link_closed(link).jobs[k]).link() != link by {
        r.jobs.lemma_filter_pred(p, k);
        assert(p(r.jobs.filter(p)[k]));
    }
}

/// Once a link is established no job waits for it, and every job still delivers the same
/// message to the same destination over the same link.
pub proof fn law_link_established(jobs: Seq<OutboundDirectJob>, link: LinkId)
    ensures
        links::jobs_established(jobs, link).len() == jobs.len(),
        forall|i: int|
            0 <= i < jobs.len() ==> {
                let after = #[trigger] links::jobs_established(jobs, link)[i];
                &&& after.hash() == jobs[i].hash()
                &&& after.dest() == jobs[i].dest()
                &&& after.link() == jobs[i].link()
                &&& after.link() == link ==> after is Sending
            },
{
}

proof fn lemma_left_consistent(q: Seq<EntryView>)
    requires
        consistent(q),
    ensures
        consistent(left(q)),
        forall|k: int| 0 <= k < left(q).len() ==> q.contains(#[trigger] left(q)[k]),
        forall|k: int| 0 <= k < left(q).len() ==> !(#[trigger] left(q)[k]).terminal(),
    decreases q.len(),
{
    if q.len() > 0 {
        let front = q.drop_last();
        lemma_left_consistent(front);
        lemma_left_last(q);
        let t = left(front);
        assert forall|k: int| 0 <= k < t.len() implies q.contains(#[trigger] t[k])
            && t[k].message_hash != q.last().message_hash by {
            let i = front.index_of(t[k]);
            assert(q[i] == t[k]);
            assert(q[i].message_hash != q[q.len() - 1].message_hash);
        }
        assert(q.contains(q[q.len() - 1]));
    } else {
        assert(left(q) =~= Seq::empty()) by {
            reveal(Seq::filter);
        }
    }
}

/// The entries with which the messages of `s` join a queue at `now`, when they are read back
/// from their packed form.
pub open spec fn rejoined(s: Seq<EntryView>, now: u64) -> Seq<EntryView> {
    Seq::new(
        s.len(),
        |i: int|
            EntryView {
                message: MessageView {
                    method: DeliveryMethod::Opportunistic,
                    ..s[i].message
                },
                message_hash: s[i].message_hash,
                receipt_hashes: Seq::empty(),
                delivery_attempts: 0,
                next_delivery_attempt: now,
                state: OutboundState::Queued,
            },
    )
}

proof fn lemma_rejoined(s: Seq<EntryView>, now: u64)
    requires
        consistent(s),
        outbound::all_valid(s),
    ensures
        persist::imported_queue(
            Seq::empty(),
            s.map_values(persist::packed_message()),
            now,
        ) == rejoined(s, now),
    decreases s.len(),
{
    let data = s.map_values(persist::packed_message());
    if s.len() == 0 {
        assert(rejoined(s, now) =~= Seq::empty());
    } else {
        let front = s.drop_last();
        lemma_rejoined(front, now);
        assert(front.map_values(persist::packed_message()) =~= data.drop_last());
        let last = s[s.len() - 1];
        let m = MessageView { method: DeliveryMethod::Opportunistic, ..last.message };
        assert(last.message.valid());
        message::law_pack_round_trip(last.message, DeliveryMethod::Opportunistic);
        assert(m.hash() == last.message_hash) by {
            assert(in_order(last));
            assert(m.packed() == last.message.packed());
        }
        let q = rejoined(front, now);
        let p = outbound::hash_is(m.hash());
        assert forall|i: int| 0 <= i < q.len() implies !p(#[trigger] q[i]) by {
            assert(in_order(s[i]));
            assert(q[i].message.packed() == s[i].message.packed());
            assert(s[i].message_hash != s[s.len() - 1].message_hash);
        }
        search::lemma_first_none(q, p);
        assert(q.push(EntryView::fresh(m, now)) =~= rejoined(s, now));
    }
}

/// A router that starts empty has every message back that its queue exported and that had
/// not come to its end: under the same hash, in the same order, waiting for its first
/// attempt.
pub proof fn law_queue_round_trip(q: Seq<EntryView>, now: u64)
    requires
        consistent(q),
        outbound::all_valid(q),
    ensures
        persist::imported_queue(Seq::empty(), persist::exported_queue(q), now) == rejoined(
            left(q),
            now,
        ),
        hashes(rejoined(left(q), now)) == hashes(left(q)),
{
    assert(persist::is_pending() =~= is_unfinished());
    lemma_left_consistent(q);
    let s = left(q);
    assert forall|i: int| 0 <= i < s.len() implies (#[trigger] s[i]).message.valid() by {
        let k = q.index_of(s[i]);
        assert(q[k].message.valid());
    }
    lemma_rejoined(s, now);
    assert forall|i: int| 0 <= i < s.len() implies #[trigger] hashes(rejoined(s, now))[i] == hashes(
        s,
    )[i] by {
        assert(in_order(s[i]));
        assert(rejoined(s, now)[i].message.packed() == s[i].message.packed());
    }
    assert(hashes(rejoined(s, now)) =~= hashes(s));
}

/// What is imported leaves a consistent queue consistent, and what was in it in its place.
pub proof fn law_import_keeps_consistent(q: Seq<EntryView>, data: Seq<Seq<u8>>, now: u64)
    requires
        consistent(q),
    ensures
        consistent(persist::imported_queue(q, data, now)),
        q.len() <= persist::imported_queue(q, data, now).len(),
        persist::imported_queue(q, data, now).take(q.len() as int) == q,
    decreases data.len(),
{
    if data.len() == 0 {
        assert(q.take(q.len() as int) =~= q);
    } else {
        let before = persist::imported_queue(q, data.drop_last(), now);
        let after = persist::imported_queue(q, data, now);
        law_import_keeps_consistent(q, data.drop_last(), now);
        if let Some(m) = message::unpacked(data.last(), DeliveryMethod::Opportunistic) {
            law_enqueued(before, m, now);
            assert(after.take(q.len() as int) =~= after.take(before.len() as int).take(
                q.len() as int,
            ));
        }
    }
}

} // verus!
