//! The normalized order-event model shared by decoders and the book.
use vstd::prelude::*;
use crate::config::{Endian, ParserKind};
use crate::decoder_eobi::EobiSbeDecoder;
use crate::decoder_fast::FastEmdiDecoder;
use crate::decoder_itch::Itch50Decoder;
use crate::wire::{be_u32_at, be_u64_at, be_value, le_u32_at, le_u64_at, le_value};

verus! {

/// Side of the book an order rests on.
#[derive(Debug, Clone, Copy, PartialEq, Eq, Structural)]
pub enum Side {
    Bid,
    Ask,
}

/// A normalized order event.
///
/// Prices are signed 64-bit integers in a venue-defined scale; quantities are
/// signed 64-bit integers. `Mod` carries the absolute remaining quantity.
#[derive(Debug, Clone, Copy, PartialEq, Eq, Structural)]
pub enum Event {
    Add { order_id: u64, instr: u32, px: i64, qty: i64, side: Side },
    Mod { order_id: u64, qty: i64 },
    Del { order_id: u64 },
    Trade { instr: u32, px: i64, qty: i64, maker_order_id: Option<u64>, taker_side: Option<Side> },
    Heartbeat,
}

/// `s` followed by the event `e`, if there is one.
pub open spec fn with_event(s: Seq<Event>, e: Option<Event>) -> Seq<Event> {
    match e {
        Some(ev) => s.push(ev),
        None => s,
    }
}

/// A decoder of venue messages into normalized events.
pub trait MessageDecoder {
    /// The events that the decoder, in its present state, reads from `payload`.
    spec fn spec_decoded(&self, payload: Seq<u8>) -> Seq<Event>;

    /// Appends the events of `payload` to `out`. Malformed input is skipped;
    /// no payload yields more events than it has bytes.
    fn decode_messages(&mut self, payload: &[u8], out: &mut Vec<Event>)
        ensures
            final(out)@ == old(out)@ + old(self).spec_decoded(payload@),
            final(out)@.len() <= old(out)@.len() + payload@.len(),
    ;
}

/// The side facing `s`.
pub open spec fn spec_opposite(s: Side) -> Side {
    match s {
        Side::Bid => Side::Ask,
        Side::Ask => Side::Bid,
    }
}

/// Returns the side facing `s`.
pub fn opposite(s: Side) -> (r: Side)
    ensures
        r == spec_opposite(s),
{
    match s {
        Side::Bid => Side::Ask,
        Side::Ask => Side::Bid,
    }
}

/// Where the sequence number lies in a packet.
#[derive(Debug, Clone, Copy)]
pub struct SeqCfg {
    pub offset: u16,
    /// 4 or 8 bytes.
    pub length: u8,
    pub endian: Endian,
}

/// Something that reads the sequence number of a packet.
pub trait SeqExtractor {
    /// The sequence number of the packet `pkt`, if it can be read.
    spec fn spec_extract(&self, pkt: Seq<u8>) -> Option<u64>;

    fn extract_seq(&self, pkt: &[u8]) -> (r: Option<u64>)
        ensures
            r == self.spec_extract(pkt@),
    ;
}

/// The sequence number that `cfg` finds in the packet `pkt`: the integer of
/// 4 or 8 bytes at the configured offset in the configured byte order.
/// Nothing if the packet is too short or the length is neither 4 nor 8.
pub open spec fn fixed_seq(cfg: SeqCfg, pkt: Seq<u8>) -> Option<u64> {
    if pkt.len() < cfg.offset + cfg.length || (cfg.length != 4 && cfg.length != 8) {
        None
    } else {
        match cfg.endian {
            Endian::Be => Some(be_value(pkt, cfg.offset as int, cfg.length as nat) as u64),
            Endian::Le => Some(le_value(pkt, cfg.offset as int, cfg.length as nat) as u64),
        }
    }
}

/// Reads the sequence number at a fixed place.
#[derive(Debug, Clone, Copy)]
pub struct FixedSeq {
    pub cfg: SeqCfg,
}

impl SeqExtractor for FixedSeq {
    open spec fn spec_extract(&self, pkt: Seq<u8>) -> Option<u64> {
        fixed_seq(self.cfg, pkt)
    }

    fn extract_seq(&self, pkt: &[u8]) -> (r: Option<u64>) {
        let off = self.cfg.offset as usize;
        let len = self.cfg.length as usize;
        if pkt.len() < off + len {
            return None;
        }
        if self.cfg.length == 8 {
            match self.cfg.endian {
                Endian::Be => Some(be_u64_at(pkt, off)),
                Endian::Le => Some(le_u64_at(pkt, off)),
            }
        } else if self.cfg.length == 4 {
            match self.cfg.endian {
                Endian::Be => Some(be_u32_at(pkt, off) as u64),
                Endian::Le => Some(le_u32_at(pkt, off) as u64),
            }
        } else {
            None
        }
    }
}

/// The decoder of the configured protocol, with its state.
pub enum DecoderImpl {
    Fixed(EobiSbeDecoder),
    Fast(FastEmdiDecoder),
    Itch(Itch50Decoder),
}

impl MessageDecoder for DecoderImpl {
    open spec fn spec_decoded(&self, payload: Seq<u8>) -> Seq<Event> {
        match self {
            DecoderImpl::Fixed(d) => d.spec_decoded(payload),
            DecoderImpl::Fast(d) => d.spec_decoded(payload),
            DecoderImpl::Itch(d) => d.spec_decoded(payload),
        }
    }

    fn decode_messages(&mut self, payload: &[u8], out: &mut Vec<Event>) {
        match self {
            DecoderImpl::Fixed(d) => d.decode_messages(payload, out),
            DecoderImpl::Fast(d) => d.decode_messages(payload, out),
            DecoderImpl::Itch(d) => d.decode_messages(payload, out),
        }
    }
}

/// Sequence extraction and message decoding for one feed.
pub struct Parser {
    pub seq: FixedSeq,
    pub dec: DecoderImpl,
    pub max_messages_per_packet: usize,
}

impl Parser {
    /// The reader of sequence numbers.
    pub fn seq_extractor(&self) -> (s: FixedSeq)
        ensures
            s == self.seq,
    {
        self.seq
    }

    /// Appends the events of `payload` to `out`.
    pub fn decode_into(&mut self, payload: &[u8], out: &mut Vec<Event>)
        ensures
            final(out)@ == old(out)@ + old(self).dec.spec_decoded(payload@),
            final(out)@.len() <= old(out)@.len() + payload@.len(),
            final(self).seq == old(self).seq,
            final(self).max_messages_per_packet == old(self).max_messages_per_packet,
    {
        self.dec.decode_messages(payload, out);
    }
}

/// A parser for the protocol `kind` that reads sequence numbers as `seq`
/// says. The message limit is at least 1.
pub fn build_parser(kind: ParserKind, seq: SeqCfg, max_per_packet: usize) -> (p: Parser)
    ensures
        p.seq.cfg == seq,
        p.max_messages_per_packet == if max_per_packet < 1 {
            1
        } else {
            max_per_packet
        },
        match kind {
            ParserKind::FixedBinary => p.dec is Fixed,
            ParserKind::FastLike => p.dec is Fast,
            ParserKind::Itch50 => p.dec matches DecoderImpl::Itch(d) && d@.orders == Map::<
                u64,
                crate::decoder_itch::OrderState,
            >::empty(),
        },
{
    let dec = match kind {
        ParserKind::FixedBinary => DecoderImpl::Fixed(EobiSbeDecoder::new()),
        ParserKind::FastLike => DecoderImpl::Fast(FastEmdiDecoder::new()),
        ParserKind::Itch50 => DecoderImpl::Itch(Itch50Decoder::new()),
    };
    Parser {
        seq: FixedSeq { cfg: seq },
        dec,
        max_messages_per_packet: if max_per_packet < 1 {
            1
        } else {
            max_per_packet
        },
    }
}

} // verus!
