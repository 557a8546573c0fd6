//! The publisher bus: a bounded ring of framed records under a global
//! sequence, with per-instrument sequence numbers for the frames.
//!
//! The bus is a plain value here. Whoever shares it between threads guards
//! it and waits on it; `Subscription::recv_next` only decides.
use vstd::prelude::*;
use std::collections::VecDeque;
use crate::codec_raw::{spec_frame, FrameHeaderV1};
use crate::pool::{buf_extend, buf_freeze, buf_with_capacity, frame_bytes, frame_clone};
use crate::table::{counters_get, counters_insert, counters_new, seq_counters, Table};

verus! {

/// The ring of published frames.
pub struct Ring {
    pub buf: VecDeque<(u64, bytes::Bytes)>,
    pub cap: usize,
    /// The global sequence number of the next frame.
    pub next_global: u64,
}

/// The bus.
pub struct Bus {
    pub ring: Ring,
    pub per_instr_seq: Table<u64, u64>,
}

/// The handle through which frames are published.
#[derive(Debug, Clone, Copy)]
pub struct Publisher;

/// A subscriber's position in the stream of frames.
#[derive(Debug, Clone, Copy)]
pub struct Subscription {
    /// The global sequence number of the frame the subscriber takes next.
    pub next_global: u64,
}

/// Why a subscriber gets no frame.
#[derive(Debug, Clone, Copy, PartialEq, Eq, Structural)]
pub enum RecvError {
    /// The frames from `from` to `to` left the ring before the subscriber took them.
    Gap { from: u64, to: u64 },
    Closed,
}

/// The bus as a mathematical value.
pub struct BusView {
    /// The frames in the ring with their global sequence numbers, oldest first.
    pub frames: Seq<(u64, Seq<u8>)>,
    pub cap: usize,
    pub next_global: u64,
    /// The next sequence number of each instrument that has published.
    pub counters: Map<u64, u64>,
}

impl BusView {
    /// The sequence number that the next frame of `instrument_id` carries:
    /// 1 for the first frame of an instrument.
    pub open spec fn next_seq(self, instrument_id: u64) -> u64 {
        if self.counters.contains_key(instrument_id) {
            self.counters[instrument_id]
        } else {
            1
        }
    }

    /// The bus after a sequence number was taken for `instrument_id`.
    pub open spec fn after_next_seq(self, instrument_id: u64) -> BusView {
        BusView {
            counters: self.counters.insert(instrument_id, self.next_seq(instrument_id).wrapping_add(1)),
            ..self
        }
    }

    /// The bus after `frame` was published: a full ring drops its oldest frame first.
    pub open spec fn after_publish(self, frame: Seq<u8>) -> BusView {
        let kept = if self.frames.len() == self.cap && self.frames.len() > 0 {
            self.frames.skip(1)
        } else {
            self.frames
        };
        BusView {
            frames: kept.push((self.next_global, frame)),
            next_global: self.next_global.wrapping_add(1),
            ..self
        }
    }

    /// The global sequence number of the oldest frame in the ring.
    pub open spec fn oldest(self) -> u64 {
        if self.next_global >= self.frames.len() {
            (self.next_global - self.frames.len()) as u64
        } else {
            0
        }
    }

    /// What a subscriber at `cursor` is told: to wait (`Ok(None)`), the frame
    /// at its cursor, or the gap it fell into.
    pub open spec fn poll(self, cursor: u64) -> Result<Option<Seq<u8>>, RecvError> {
        if self.frames.len() == 0 || cursor >= self.next_global {
            Ok(None)
        } else if cursor < self.oldest() {
            Err(RecvError::Gap { from: cursor, to: self.oldest().saturating_sub(1) })
        } else if cursor - self.oldest() >= self.frames.len() {
            Err(RecvError::Gap { from: cursor, to: self.next_global.saturating_sub(1) })
        } else {
            Ok(Some(self.frames[cursor - self.oldest()].1))
        }
    }
}

/// Sequence numbers of an instrument go up by one with every number taken,
/// and taking a number for one instrument leaves the others alone.
pub proof fn lemma_sequences_increase(b: BusView, instrument_id: u64, other: u64)
    requires
        other != instrument_id,
    ensures
        b.after_next_seq(instrument_id).next_seq(instrument_id) == b.next_seq(instrument_id).wrapping_add(1),
        b.next_seq(instrument_id) < u64::MAX ==> b.after_next_seq(instrument_id).next_seq(instrument_id)
            > b.next_seq(instrument_id),
        b.after_next_seq(instrument_id).next_seq(other) == b.next_seq(other),
{
}

/// Publishing a frame takes no sequence number.
pub proof fn lemma_publish_keeps_sequences(b: BusView, frame: Seq<u8>, instrument_id: u64)
    ensures
        b.after_publish(frame).next_seq(instrument_id) == b.next_seq(instrument_id),
{
}

impl View for Bus {
    type V = BusView;

    open spec fn view(&self) -> BusView {
        BusView {
            frames: Seq::new(self.ring.buf@.len(), |i: int| (self.ring.buf@[i].0, frame_bytes(self.ring.buf@[i].1))),
            cap: self.ring.cap,
            next_global: self.ring.next_global,
            counters: seq_counters(self.per_instr_seq),
        }
    }
}

impl Bus {
    /// An empty bus whose ring keeps `capacity_frames` frames.
    pub fn new(capacity_frames: usize) -> (b: Self)
        ensures
            b@.frames == Seq::<(u64, Seq<u8>)>::empty(),
            b@.cap == capacity_frames,
            b@.next_global == 0,
            b@.counters == Map::<u64, u64>::empty(),
    {
        let b = Bus {
            ring: Ring { buf: VecDeque::with_capacity(capacity_frames), cap: capacity_frames, next_global: 0 },
            per_instr_seq: counters_new(),
        };
        assert(b@.frames =~= Seq::<(u64, Seq<u8>)>::empty());
        b
    }

    /// The handle through which frames are published on this bus.
    pub fn publisher(&self) -> (p: Publisher) {
        Publisher
    }

    /// A subscription that starts at the frame published next.
    pub fn subscribe(&self) -> (s: Subscription)
        ensures
            s.next_global == self@.next_global,
    {
        Subscription { next_global: self.ring.next_global }
    }
}

impl Publisher {
    /// Frames `payload` at time `now` and puts the frame into the ring of `bus`.
    pub fn publish_raw(
        &self,
        bus: &mut Bus,
        message_type: u16,
        channel_id: u32,
        instrument_id: u64,
        sequence: u64,
        payload: &[u8],
        now: u64,
    )
        ensures
            final(bus)@ == old(bus)@.after_publish(
                spec_frame(message_type, channel_id, instrument_id, sequence, now, payload@),
            ),
    {
        let ghost v0 = bus@;
        let hdr = FrameHeaderV1::new(
            message_type,
            channel_id,
            instrument_id,
            sequence,
            now,
            ((payload.len() as u64) % 0x1_0000_0000) as u32,
        );
        let head = hdr.to_bytes();
        let mut frame = buf_with_capacity(crate::codec_raw::HEADER_LEN);
        buf_extend(&mut frame, head.as_slice());
        buf_extend(&mut frame, payload);
        let bytes = buf_freeze(frame);
        let g = bus.ring.next_global;
        bus.ring.next_global = g.wrapping_add(1);
        if bus.ring.buf.len() == bus.ring.cap {
            let _ = bus.ring.buf.pop_front();
        }
        bus.ring.buf.push_back((g, bytes));
        proof {
            let f = spec_frame(message_type, channel_id, instrument_id, sequence, now, payload@);
            let m = choose|m: [u8; 4]| m@ == crate::codec_raw::spec_magic();
            assert(hdr.magic@ == crate::codec_raw::spec_magic());
            assert(m@ == crate::codec_raw::spec_magic());
            assert(frame_bytes(bytes) =~= f);
            assert(bus@.frames =~= v0.after_publish(f).frames);
        }
    }

    /// Takes the next sequence number of `instrument_id` on `bus`.
    pub fn next_seq_for_instrument(&self, bus: &mut Bus, instrument_id: u64) -> (seq: u64)
        ensures
            seq == old(bus)@.next_seq(instrument_id),
            final(bus)@ == old(bus)@.after_next_seq(instrument_id),
    {
        let seq = match counters_get(&bus.per_instr_seq, instrument_id) {
            Some(s) => s,
            None => 1,
        };
        counters_insert(&mut bus.per_instr_seq, instrument_id, seq.wrapping_add(1));
        seq
    }
}

impl Subscription {
    /// Moves the cursor to the frame published next.
    pub fn set_cursor_to_tail(&mut self, bus: &Bus)
        ensures
            final(self).next_global == bus@.next_global,
    {
        self.next_global = bus.ring.next_global;
    }

    /// Moves the cursor to the frame with global sequence number `global_seq`.
    pub fn set_cursor(&mut self, global_seq: u64)
        ensures
            final(self).next_global == global_seq,
    {
        self.next_global = global_seq;
    }

    /// Takes the frame at the cursor if the ring holds it and moves the
    /// cursor on. Says to wait (`Ok(None)`) if nothing newer than the cursor
    /// was published, and reports the gap if the frame at the cursor has
    /// left the ring.
    pub fn recv_next(&mut self, bus: &Bus) -> (r: Result<Option<bytes::Bytes>, RecvError>)
        ensures
            match r {
                Ok(Some(f)) => bus@.poll(old(self).next_global) == Ok::<Option<Seq<u8>>, RecvError>(
                    Some(frame_bytes(f)),
                ) && final(self).next_global == old(self).next_global.wrapping_add(1),
                Ok(None) => bus@.poll(old(self).next_global) == Ok::<Option<Seq<u8>>, RecvError>(None)
                    && final(self).next_global == old(self).next_global,
                Err(e) => bus@.poll(old(self).next_global) == Err::<Option<Seq<u8>>, RecvError>(e)
                    && final(self).next_global == old(self).next_global,
            },
    {
        let len = bus.ring.buf.len();
        if len == 0 || self.next_global >= bus.ring.next_global {
            return Ok(None);
        }
        let oldest_g = bus.ring.next_global.saturating_sub(len as u64);
        if self.next_global < oldest_g {
            return Err(RecvError::Gap { from: self.next_global, to: oldest_g.saturating_sub(1) });
        }
        let offset = self.next_global - oldest_g;
        if offset >= len as u64 {
            return Err(RecvError::Gap { from: self.next_global, to: bus.ring.next_global.saturating_sub(1) });
        }
        let bytes = frame_clone(&bus.ring.buf[offset as usize].1);
        self.next_global = self.next_global.wrapping_add(1);
        Ok(Some(bytes))
    }
}

} // verus!
