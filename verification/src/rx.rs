//! The decisions of the receive stage: where the payload of a captured frame
//! starts, which timestamp a packet gets, and whether a datagram becomes a packet.
use vstd::prelude::*;
use vstd::slice::slice_subrange;
use crate::config::TimestampingMode;
use crate::parser::{fixed_seq, FixedSeq, SeqExtractor};
use crate::pool::{buf_as_slice, buf_bytes, Pkt, PktBuf, TsKind};
use crate::wire::{be_u16_at, be_value};

verus! {

/// Length of an Ethernet header.
pub const ETH_HEADER_LEN: usize = 14;

/// EtherType of IPv4.
pub const ETHERTYPE_IPV4: u16 = 0x0800;

/// EtherType of a VLAN tag.
pub const ETHERTYPE_VLAN: u16 = 0x8100;

/// EtherType of a service VLAN tag.
pub const ETHERTYPE_QINQ: u16 = 0x88A8;

/// IP protocol number of UDP.
pub const PROTO_UDP: u8 = 17;

/// Whether `et` marks a VLAN tag.
pub open spec fn is_vlan(et: int) -> bool {
    et == ETHERTYPE_VLAN || et == ETHERTYPE_QINQ
}

/// Where the UDP payload of the Ethernet frame `f` starts: after the
/// Ethernet header, one VLAN tag if there is one, the IPv4 header of the
/// length it states, and the UDP header. Nothing if the frame is cut short,
/// is not IPv4 or does not carry UDP.
pub open spec fn udp_payload_offset(f: Seq<u8>) -> Option<int> {
    if f.len() < 14 {
        None
    } else {
        let tagged = is_vlan(be_value(f, 12, 2));
        let ip = if tagged {
            18int
        } else {
            14int
        };
        if tagged && f.len() < 18 {
            None
        } else {
            let et = if tagged {
                be_value(f, 16, 2)
            } else {
                be_value(f, 12, 2)
            };
            let ihl = (f[ip] & 0x0F) as int * 4;
            if et != ETHERTYPE_IPV4 || f.len() < ip + 20 || f.len() < ip + ihl + 8 || f[ip + 9] != PROTO_UDP {
                None
            } else {
                Some(ip + ihl + 8)
            }
        }
    }
}

/// The UDP payload of a captured Ethernet frame.
pub fn parse_udp_payload(frame: &[u8]) -> (r: Option<&[u8]>)
    ensures
        match r {
            Some(p) => udp_payload_offset(frame@) matches Some(off) && p@ == frame@.subrange(
                off,
                frame@.len() as int,
            ),
            None => udp_payload_offset(frame@) is None,
        },
{
    if frame.len() < 14 {
        return None;
    }
    let mut off: usize = 14;
    let mut et = be_u16_at(frame, 12);
    if et == ETHERTYPE_VLAN || et == ETHERTYPE_QINQ {
        if frame.len() < off + 4 {
            return None;
        }
        et = be_u16_at(frame, off + 2);
        off += 4;
    }
    if et != ETHERTYPE_IPV4 {
        return None;
    }
    if frame.len() < off + 20 {
        return None;
    }
    let first = frame[off];
    let low = first & 0x0F;
    assert(low <= 15) by (bit_vector)
        requires
            low == first & 0x0F,
    ;
    let ihl = low as usize * 4;
    if frame.len() < off + ihl + 8 {
        return None;
    }
    if frame[off + 9] != PROTO_UDP {
        return None;
    }
    off = off + ihl + 8;
    Some(slice_subrange(frame, off, frame.len()))
}

/// A kernel timestamp: seconds and nanoseconds.
#[derive(Debug, Clone, Copy, PartialEq, Eq, Structural)]
pub struct Timespec {
    pub sec: i64,
    pub nsec: i64,
}

/// What the kernel attached to a datagram.
#[derive(Debug, Clone, Copy, PartialEq, Eq, Structural)]
pub enum ControlMsg {
    /// A software timestamp.
    TimestampNs(Timespec),
    /// The three timestamps of hardware timestamping: software, system
    /// hardware and raw hardware.
    Timestamping(Timespec, Timespec, Timespec),
    Other,
}

/// The nanoseconds of a timestamp, wrapped into 64 bits.
pub open spec fn nanos_of(t: Timespec) -> u64 {
    (crate::wire::as_unsigned_64(t.sec as int) as u64).wrapping_mul(1_000_000_000).wrapping_add(
        crate::wire::as_unsigned_64(t.nsec as int) as u64,
    )
}

/// Whether a timestamp was filled in.
pub open spec fn is_set(t: Timespec) -> bool {
    t.sec != 0 || t.nsec != 0
}

/// The kind that a hardware timestamp is reported as under `mode`.
pub open spec fn hw_kind(mode: Option<TimestampingMode>) -> TsKind {
    match mode {
        Some(TimestampingMode::HardwareRaw) => TsKind::HwRaw,
        _ => TsKind::HwSys,
    }
}

/// The timestamp and its kind after the control message `c` was seen.
pub open spec fn stamp_after(cur: (u64, TsKind), c: ControlMsg, mode: Option<TimestampingMode>) -> (u64, TsKind) {
    match c {
        ControlMsg::TimestampNs(t) => (nanos_of(t), TsKind::Sw),
        ControlMsg::Timestamping(sw, sys, raw) => if is_set(raw) {
            (nanos_of(raw), hw_kind(mode))
        } else if is_set(sys) {
            (nanos_of(sys), hw_kind(mode))
        } else if is_set(sw) {
            (nanos_of(sw), hw_kind(mode))
        } else {
            cur
        },
        ControlMsg::Other => cur,
    }
}

/// The timestamp and its kind after the control messages `cs` were seen in order.
pub open spec fn stamp_of(cs: Seq<ControlMsg>, mode: Option<TimestampingMode>) -> (u64, TsKind)
    decreases cs.len(),
{
    if cs.len() == 0 {
        (0, TsKind::Sw)
    } else {
        stamp_after(stamp_of(cs.drop_last(), mode), cs.last(), mode)
    }
}

/// The receive timestamp of a datagram: the one the kernel attached, raw
/// hardware before system hardware before software, or `fallback` as a
/// software timestamp if the kernel attached none.
pub open spec fn spec_pick_timestamp(cs: Seq<ControlMsg>, mode: Option<TimestampingMode>, fallback: u64) -> (
    u64,
    TsKind,
) {
    if stamp_of(cs, mode).0 == 0 {
        (fallback, TsKind::Sw)
    } else {
        stamp_of(cs, mode)
    }
}

fn nanos(t: Timespec) -> (n: u64)
    ensures
        n == nanos_of(t),
{
    crate::wire::i64_to_u64(t.sec).wrapping_mul(1_000_000_000).wrapping_add(crate::wire::i64_to_u64(t.nsec))
}

/// Picks the receive timestamp of a datagram.
pub fn pick_timestamp(cmsgs: &[ControlMsg], mode: Option<TimestampingMode>, fallback: u64) -> (r: (u64, TsKind))
    ensures
        r == spec_pick_timestamp(cmsgs@, mode, fallback),
{
    let mut ts: u64 = 0;
    let mut kind = TsKind::Sw;
    let hw = match mode {
        Some(TimestampingMode::HardwareRaw) => TsKind::HwRaw,
        _ => TsKind::HwSys,
    };
    let mut i: usize = 0;
    assert(cmsgs@.take(0) =~= Seq::<ControlMsg>::empty());
    while i < cmsgs.len()
        invariant
            i <= cmsgs@.len(),
            hw == hw_kind(mode),
            (ts, kind) == stamp_of(cmsgs@.take(i as int), mode),
        decreases cmsgs@.len() - i,
    {
        proof {
            let t = cmsgs@.take(i + 1);
            assert(t.drop_last() =~= cmsgs@.take(i as int));
            assert(t.last() == cmsgs@[i as int]);
        }
        match cmsgs[i] {
            ControlMsg::TimestampNs(t) => {
                ts = nanos(t);
                kind = TsKind::Sw;
            },
            ControlMsg::Timestamping(sw, sys, raw) => {
                if raw.sec != 0 || raw.nsec != 0 {
                    ts = nanos(raw);
                    kind = hw;
                } else if sys.sec != 0 || sys.nsec != 0 {
                    ts = nanos(sys);
                    kind = hw;
                } else if sw.sec != 0 || sw.nsec != 0 {
                    ts = nanos(sw);
                    kind = hw;
                }
            },
            ControlMsg::Other => {},
        }
        i += 1;
    }
    assert(cmsgs@.take(i as int) =~= cmsgs@);
    if ts == 0 {
        (fallback, TsKind::Sw)
    } else {
        (ts, kind)
    }
}

/// Turns a received datagram into a packet if its sequence number can be
/// read; else hands the buffer back for the pool.
pub fn rx_packet(seq: &FixedSeq, buf: bytes::BytesMut, len: usize, ts_nanos: u64, chan: u8, kind: TsKind) -> (r:
    Result<Pkt, bytes::BytesMut>)
    ensures
        match r {
            Ok(p) => fixed_seq(seq.cfg, buf_bytes(buf)) == Some(p.seq) && p.buf == PktBuf::Bytes(buf) && p.len
                == len && p.ts_nanos == ts_nanos && p.chan == chan && p._ts_kind == kind && p.merge_emit_ns
                == 0,
            Err(b) => fixed_seq(seq.cfg, buf_bytes(buf)) is None && b == buf,
        },
{
    let found = seq.extract_seq(buf_as_slice(&buf));
    match found {
        Some(sv) => Ok(
            Pkt { buf: PktBuf::Bytes(buf), len, seq: sv, ts_nanos, chan, _ts_kind: kind, merge_emit_ns: 0 },
        ),
        None => Err(buf),
    }
}

} // verus!
