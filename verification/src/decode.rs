//! The decode stage: one merged packet is decoded, its events are applied to
//! the books and, if wanted, published as frames.
use vstd::prelude::*;
use crate::codec_raw::{lemma_frame_but_time, same_but_time, spec_frame, OBO_L3};
use crate::metrics::{
    inc_decode_msgs, inc_decode_pkts, observe_latency_by_kind_ns, observe_latency_ns,
    observe_stage_merge_to_decode_ns, observe_stage_rx_to_merge_ns, Metrics, MetricsView,
};
use crate::obo::{map_event_to_obo_parts, spec_map_event};
use crate::orderbook::{frames_after_all, BookState, OrderBook};
use crate::parser::{Event, MessageDecoder, Parser};
use crate::pool::{Pkt, TsKind};
use crate::pubsub::{Bus, BusView};

verus! {

/// Settings of the decode stage.
pub struct DecodeConfig {
    pub max_depth: usize,
    pub snapshot_interval_ms: u64,
    pub consume_trades: bool,
    /// Whether events are published as frames.
    pub publish: bool,
}

/// The instrument that the frame of `ev` is published under when the event
/// meets the books in state `st`: the one the event names, else the one of
/// the order it names if that order is live in `st`, else 0.
pub open spec fn frame_instrument(st: BookState, ev: Event) -> u64 {
    match spec_map_event(ev).0 {
        Some(i) => i as u64,
        None => match ev {
            Event::Mod { order_id, .. } | Event::Del { order_id } => if st.index.contains_key(order_id) {
                st.index[order_id].0 as u64
            } else {
                0
            },
            _ => 0,
        },
    }
}

/// The bus after the frame of `ev`, if it has one, was published at `now`
/// under instrument `instr`: the frame takes the next sequence number of
/// that instrument.
pub open spec fn after_publish_event(bv: BusView, instr: u64, ev: Event, now: u64) -> BusView {
    match spec_map_event(ev).1 {
        Some(obo) => bv.after_next_seq(instr).after_publish(
            spec_frame(obo.spec_msg_type(), OBO_L3, instr, bv.next_seq(instr), now, obo.spec_bytes()),
        ),
        None => bv,
    }
}

/// The instrument that the frame of `ev` is published under. It is asked
/// for before the event is applied, while an order that the event removes
/// is still known.
pub fn event_instrument(book: &OrderBook, ev: &Event) -> (instr: u64)
    ensures
        instr == frame_instrument(book@, *ev),
{
    let (maybe_instr, _) = map_event_to_obo_parts(ev);
    let instr_opt: Option<u32> = match maybe_instr {
        Some(i) => Some(i),
        None => match *ev {
            Event::Mod { order_id, qty } => book.instrument_for_order(order_id),
            Event::Del { order_id } => book.instrument_for_order(order_id),
            _ => None,
        },
    };
    match instr_opt {
        Some(i) => i as u64,
        None => 0,
    }
}

/// Publishes the frame of `ev`, if it has one, under instrument `instr`.
pub fn publish_event(bus: &mut Bus, instr: u64, ev: &Event, now: u64) -> (published: bool)
    ensures
        published == (spec_map_event(*ev).1 is Some),
        final(bus)@ == after_publish_event(old(bus)@, instr, *ev, now),
{
    let (_, maybe_obo) = map_event_to_obo_parts(ev);
    match maybe_obo {
        Some(obo_ev) => {
            let (msg_ty, payload) = obo_ev.encode();
            let publisher = bus.publisher();
            let seq = publisher.next_seq_for_instrument(bus, instr);
            publisher.publish_raw(bus, msg_ty, OBO_L3, instr, seq, payload.as_slice(), now);
            true
        },
        None => false,
    }
}

/// The bus after `ev` met the books in state `st` and was applied: the frame
/// of the event is published if `publish`, under the instrument that the
/// event had in `st`.
pub open spec fn bus_step(bv: BusView, st: BookState, ev: Event, publish: bool, now: u64) -> BusView {
    if publish {
        after_publish_event(bv, frame_instrument(st, ev), ev, now)
    } else {
        bv
    }
}

/// Books and bus can get from (`st`, `bv`) to (`st2`, `bv2`) by the events
/// `evs`: each event is accepted by the books it meets, applied, and then, if
/// `publish`, published under the instrument it had when it met them.
pub open spec fn runs(
    st: BookState,
    bv: BusView,
    evs: Seq<Event>,
    publish: bool,
    now: u64,
    st2: BookState,
    bv2: BusView,
) -> bool
    decreases evs.len(),
{
    if evs.len() == 0 {
        st2 == st && bv2 == bv
    } else {
        exists|ms: BookState, mb: BusView|
            #![trigger ms.leads_to(evs.last(), st2), bus_step(mb, ms, evs.last(), publish, now)]
            runs(st, bv, evs.drop_last(), publish, now, ms, mb) && ms.accepts(evs.last()) && ms.leads_to(
                evs.last(),
                st2,
            ) && bv2 == bus_step(mb, ms, evs.last(), publish, now)
    }
}

/// A run is extended by an event that the books accept.
pub proof fn lemma_runs_step(
    st: BookState,
    bv: BusView,
    evs: Seq<Event>,
    publish: bool,
    now: u64,
    ms: BookState,
    mb: BusView,
    st2: BookState,
    bv2: BusView,
)
    requires
        evs.len() > 0,
        runs(st, bv, evs.drop_last(), publish, now, ms, mb),
        ms.accepts(evs.last()),
        ms.leads_to(evs.last(), st2),
        bv2 == bus_step(mb, ms, evs.last(), publish, now),
    ensures
        runs(st, bv, evs, publish, now, st2, bv2),
{
}

/// The instrument of a frame does not depend on the handles of the node
/// stores: states that show the same books give the same.
pub proof fn lemma_publish_same(a: BookState, b: BookState, ev: Event)
    requires
        crate::determinism::same_books(a, b),
    ensures
        frame_instrument(a, ev) == frame_instrument(b, ev),
{
    match ev {
        Event::Mod { order_id, .. } => {
            assert(a.index.contains_key(order_id) == b.index.contains_key(order_id));
        },
        Event::Del { order_id } => {
            assert(a.index.contains_key(order_id) == b.index.contains_key(order_id));
        },
        _ => {},
    }
}

/// Replaying the same events gives the same books and the same frames: two
/// runs of the decode stage over the same events, from the same books and
/// the same bus, end with books that show the same and with the same bus,
/// frame for frame.
pub proof fn lemma_replay_is_deterministic(
    st: BookState,
    bv: BusView,
    evs: Seq<Event>,
    publish: bool,
    now: u64,
    s1: BookState,
    b1: BusView,
    s2: BookState,
    b2: BusView,
)
    requires
        st.wf(),
        runs(st, bv, evs, publish, now, s1, b1),
        runs(st, bv, evs, publish, now, s2, b2),
    ensures
        s1.wf(),
        s2.wf(),
        crate::determinism::same_books(s1, s2),
        b1 == b2,
    decreases evs.len(),
{
    if evs.len() > 0 {
        let ev = evs.last();
        let (m1, mb1) = choose|ms: BookState, mb: BusView|
            #![trigger ms.leads_to(ev, s1), bus_step(mb, ms, ev, publish, now)]
            runs(st, bv, evs.drop_last(), publish, now, ms, mb) && ms.accepts(ev) && ms.leads_to(ev, s1) && b1
                == bus_step(mb, ms, ev, publish, now);
        let (m2, mb2) = choose|ms: BookState, mb: BusView|
            #![trigger ms.leads_to(ev, s2), bus_step(mb, ms, ev, publish, now)]
            runs(st, bv, evs.drop_last(), publish, now, ms, mb) && ms.accepts(ev) && ms.leads_to(ev, s2) && b2
                == bus_step(mb, ms, ev, publish, now);
        lemma_replay_is_deterministic(st, bv, evs.drop_last(), publish, now, m1, mb1, m2, mb2);
        crate::determinism::lemma_step_same(m1, m2, ev, s1, s2);
        lemma_publish_same(m1, m2, ev);
    } else {
        crate::determinism::lemma_same_refl(st);
    }
}

/// Two buses hold the same frames but for the times the frames were sent:
/// the same global and per-instrument sequence numbers, and frame for frame
/// the same bytes outside the send-time field.
pub open spec fn same_but_times(a: BusView, b: BusView) -> bool {
    &&& a.cap == b.cap
    &&& a.next_global == b.next_global
    &&& a.counters == b.counters
    &&& a.frames.len() == b.frames.len()
    &&& forall|i: int|
        0 <= i < a.frames.len() ==> (#[trigger] a.frames[i]).0 == b.frames[i].0 && same_but_time(
            a.frames[i].1,
            b.frames[i].1,
        )
}

/// Publishing the same event at two times leaves buses that held the same
/// frames but for their send times holding the same frames but for their
/// send times.
pub proof fn lemma_publish_but_time(a: BusView, b: BusView, instr: u64, ev: Event, t1: u64, t2: u64)
    requires
        same_but_times(a, b),
    ensures
        same_but_times(after_publish_event(a, instr, ev, t1), after_publish_event(b, instr, ev, t2)),
{
    match spec_map_event(ev).1 {
        Some(obo) => {
            lemma_frame_but_time(obo.spec_msg_type(), OBO_L3, instr, a.next_seq(instr), t1, t2, obo.spec_bytes());
            let a2 = after_publish_event(a, instr, ev, t1);
            let b2 = after_publish_event(b, instr, ev, t2);
            assert forall|i: int| 0 <= i < a2.frames.len() implies (#[trigger] a2.frames[i]).0 == b2.frames[i].0
                && same_but_time(a2.frames[i].1, b2.frames[i].1) by {
                if a.frames.len() == a.cap && a.frames.len() > 0 {
                    if i < a.frames.len() - 1 {
                        assert(a2.frames[i] == a.frames[i + 1]);
                        assert(b2.frames[i] == b.frames[i + 1]);
                    }
                } else {
                    if i < a.frames.len() {
                        assert(a2.frames[i] == a.frames[i]);
                        assert(b2.frames[i] == b.frames[i]);
                    }
                }
            }
        },
        None => {},
    }
}

/// Replaying the same events gives the same frames whenever it is done.
///
/// Take two runs of the decode stage over the same events, one publishing at
/// time `t1` and one at time `t2`, that start from books that show the same
/// and from buses that hold the same frames but for their send times. They
/// end with books that show the same and with buses that hold the same
/// number of frames, frame for frame equal in every byte outside the
/// send-time field. (A stream of packets is such a run after the other.)
pub proof fn lemma_replay_but_time(
    st1: BookState,
    bv1: BusView,
    st2: BookState,
    bv2: BusView,
    evs: Seq<Event>,
    publish: bool,
    t1: u64,
    t2: u64,
    s1: BookState,
    b1: BusView,
    s2: BookState,
    b2: BusView,
)
    requires
        st1.wf(),
        st2.wf(),
        crate::determinism::same_books(st1, st2),
        same_but_times(bv1, bv2),
        runs(st1, bv1, evs, publish, t1, s1, b1),
        runs(st2, bv2, evs, publish, t2, s2, b2),
    ensures
        s1.wf(),
        s2.wf(),
        crate::determinism::same_books(s1, s2),
        same_but_times(b1, b2),
    decreases evs.len(),
{
    if evs.len() > 0 {
        let ev = evs.last();
        let (m1, mb1) = choose|ms: BookState, mb: BusView|
            #![trigger ms.leads_to(ev, s1), bus_step(mb, ms, ev, publish, t1)]
            runs(st1, bv1, evs.drop_last(), publish, t1, ms, mb) && ms.accepts(ev) && ms.leads_to(ev, s1) && b1
                == bus_step(mb, ms, ev, publish, t1);
        let (m2, mb2) = choose|ms: BookState, mb: BusView|
            #![trigger ms.leads_to(ev, s2), bus_step(mb, ms, ev, publish, t2)]
            runs(st2, bv2, evs.drop_last(), publish, t2, ms, mb) && ms.accepts(ev) && ms.leads_to(ev, s2) && b2
                == bus_step(mb, ms, ev, publish, t2);
        lemma_replay_but_time(st1, bv1, st2, bv2, evs.drop_last(), publish, t1, t2, m1, mb1, m2, mb2);
        crate::determinism::lemma_step_same(m1, m2, ev, s1, s2);
        lemma_publish_same(m1, m2, ev);
        if publish {
            lemma_publish_but_time(mb1, mb2, frame_instrument(m1, ev), ev, t1, t2);
        }
    }
}

/// The metrics after a packet with `n` events was decoded at `now`: the
/// packet and its events are counted; the time from merge to decode is
/// observed if the packet carries a merge time that lies before `now`, and
/// the time from receipt to merge if it lies after the receipt.
pub open spec fn packet_metrics(m: MetricsView, ts: u64, emit: u64, n: nat, now: u64) -> MetricsView {
    let m1 = MetricsView {
        decode_packets: m.decode_packets.wrapping_add(1),
        decode_messages: m.decode_messages.wrapping_add(n as u64),
        ..m
    };
    let m2 = if emit > 0 && now > emit {
        MetricsView { stage_merge_to_decode: m1.stage_merge_to_decode.observed((now - emit) as u64), ..m1 }
    } else {
        m1
    };
    if emit > 0 && emit > ts {
        MetricsView { stage_rx_to_merge: m2.stage_rx_to_merge.observed((emit - ts) as u64), ..m2 }
    } else {
        m2
    }
}

/// The metrics after a packet received at `ts` was done with at `done`: the
/// time from receipt to `done` is observed, also by the kind of the packet's
/// timestamp, if the packet carries a receive time that lies before `done`.
pub open spec fn done_metrics(m: MetricsView, ts: u64, kind: TsKind, done: u64) -> MetricsView {
    if ts != 0 && done > ts {
        let d = (done - ts) as u64;
        let m4 = MetricsView { e2e_latency: m.e2e_latency.observed(d), ..m };
        match kind {
            TsKind::Sw | TsKind::Absent => MetricsView { e2e_latency_sw: m4.e2e_latency_sw.observed(d), ..m4 },
            TsKind::HwSys => MetricsView { e2e_latency_hw_sys: m4.e2e_latency_hw_sys.observed(d), ..m4 },
            TsKind::HwRaw => MetricsView { e2e_latency_hw_raw: m4.e2e_latency_hw_raw.observed(d), ..m4 },
        }
    } else {
        m
    }
}

/// Records that `pkt` was done with at `done`, a time read once its events
/// were applied and published.
pub fn packet_done(pkt: &Pkt, done: u64, m: &mut Metrics)
    requires
        old(m).wf(),
    ensures
        final(m).wf(),
        final(m)@ == done_metrics(old(m)@, pkt.ts_nanos, pkt._ts_kind, done),
{
    if pkt.ts_nanos != 0 && done > pkt.ts_nanos {
        let d = done - pkt.ts_nanos;
        observe_latency_ns(m, d);
        observe_latency_by_kind_ns(m, pkt._ts_kind, d);
    }
}

/// Decodes the payload of `pkt` into `events`, applies the events to `book`
/// in order and, if `publish`, publishes each on `bus`, under the instrument
/// it had when it met the books. Stops before the first event that the
/// books cannot take within machine range and returns how many events were
/// applied.
pub fn decode_packet(
    book: &mut OrderBook,
    parser: &mut Parser,
    bus: &mut Bus,
    publish: bool,
    pkt: &Pkt,
    events: &mut Vec<Event>,
    now: u64,
    m: &mut Metrics,
) -> (applied: usize)
    requires
        old(book).wf(),
        old(m).wf(),
        pkt.wf(),
    ensures
        final(book).wf(),
        final(m).wf(),
        final(events)@ == old(parser).dec.spec_decoded(pkt.spec_payload()),
        applied <= final(events)@.len(),
        runs(old(book)@, old(bus)@, final(events)@.take(applied as int), publish, now, final(book)@, final(bus)@),
        applied < final(events)@.len() ==> !final(book)@.accepts(final(events)@[applied as int]),
        forall|k: u32| #[trigger]
            final(book).frames(k) == frames_after_all(
                old(book).frames(k),
                final(events)@.take(applied as int),
                k,
            ),
        final(m)@ == packet_metrics(old(m)@, pkt.ts_nanos, pkt.merge_emit_ns, final(events)@.len(), now),
{
    inc_decode_pkts(m);
    events.clear();
    let payload = pkt.payload();
    parser.decode_into(payload, events);
    assert(events@ =~= old(parser).dec.spec_decoded(pkt.spec_payload()));
    inc_decode_msgs(m, events.len() as u64);
    if pkt.merge_emit_ns > 0 {
        if now > pkt.merge_emit_ns {
            observe_stage_merge_to_decode_ns(m, now - pkt.merge_emit_ns);
        }
        if pkt.merge_emit_ns > pkt.ts_nanos {
            observe_stage_rx_to_merge_ns(m, pkt.merge_emit_ns - pkt.ts_nanos);
        }
    }
    let ghost st0 = book@;
    let ghost bv0 = bus@;
    let mut i: usize = 0;
    assert(events@.take(0) =~= Seq::<Event>::empty());
    while i < events.len()
        invariant
            book.wf(),
            m.wf(),
            i <= events@.len(),
            runs(st0, bv0, events@.take(i as int), publish, now, book@, bus@),
            forall|k: u32| #[trigger]
                book.frames(k) == frames_after_all(old(book).frames(k), events@.take(i as int), k),
        ensures
            i <= events@.len(),
            book.wf(),
            m.wf(),
            runs(st0, bv0, events@.take(i as int), publish, now, book@, bus@),
            forall|k: u32| #[trigger]
                book.frames(k) == frames_after_all(old(book).frames(k), events@.take(i as int), k),
            i < events@.len() ==> !book@.accepts(events@[i as int]),
        decreases events@.len() - i,
    {
        let ghost ms = book@;
        let ghost mb = bus@;
        let instr = event_instrument(book, &events[i]);
        if !book.try_apply(&events[i]) {
            break;
        }
        if publish {
            let _ = publish_event(bus, instr, &events[i], now);
        }
        proof {
            let t = events@.take(i + 1);
            assert(t.drop_last() =~= events@.take(i as int));
            assert(t.last() == events@[i as int]);
            assert(ms.accepts(t.last()));
            assert(ms.leads_to(t.last(), book@));
            assert(bus@ == bus_step(mb, ms, t.last(), publish, now));
            lemma_runs_step(st0, bv0, t, publish, now, ms, mb, book@, bus@);
        }
        i += 1;
    }
    i
}

/// Whether a snapshot of the books is due: the interval has passed since the
/// last snapshot, or one was asked for.
pub fn snapshot_due(elapsed_ms: u64, interval_ms: u64, triggered: bool) -> (due: bool)
    ensures
        due == (elapsed_ms >= interval_ms || triggered),
{
    elapsed_ms >= interval_ms || triggered
}

} // verus!
