use bytes::BytesMut;
use feed_ingest::codec_raw::{FrameHeaderV1, HEADER_LEN};
use feed_ingest::config::{
    default_ifname, default_pub_queue, AfxdpCfg, AppConfig, Book, BuffersCfg, ChannelCfg, Channels, ConfigError,
    Cpu, Endian, Feeds, General, Merge, OboFeedCfg, Parser as ParserCfg, ParserKind, Pop, RecoveryCfg, Sequence,
    SnapshotCfg, TimestampingMode, TlsCfg,
};
use feed_ingest::decode::{decode_packet, event_instrument, packet_done, publish_event, snapshot_due};
use feed_ingest::metrics::{
    inc_decode_msgs, inc_dropped_clients, inc_merge_gap_chan, inc_out_bytes, inc_out_frames, inc_rx, inc_rx_drop,
    inc_ws_clients, observe_latency_by_kind_ns, observe_latency_ns, observe_stage_merge_to_decode_ns,
    observe_stage_rx_to_merge_ns, set_live_orders, set_merge_preferred_is_a, set_queue_len, Histogram, Metrics,
    QueueId,
};
use feed_ingest::orderbook::OrderBook;
use feed_ingest::parser::{build_parser, Event, FixedSeq, MessageDecoder, SeqCfg, SeqExtractor, Side};
use feed_ingest::pool::{PacketPool, Pkt, PktBuf, TsKind};
use feed_ingest::pubsub::{Bus, RecvError};
use feed_ingest::query::{parse_query, pick_query, ClientQuery};
use feed_ingest::recovery::{
    coalesce, recovered_pkt, replay_request, replay_step, GapLogger, RecoveryRequest, ReplayStep,
};
use feed_ingest::rx::{parse_udp_payload, pick_timestamp, rx_packet, ControlMsg, Timespec};
use feed_ingest::text::{char_is_space, cpulist_contains, read_unsigned, str_contains_char, str_is_blank};
use feed_ingest::util::{adaptive_wait, spin_wait, BarrierFlag, IdleAction};

#[test]
fn pool_hands_out_empty_buffers() {
    let pool = PacketPool::new(2, 64);
    let mut a = pool.get();
    assert_eq!(a.len(), 0);
    assert!(a.capacity() >= 64);
    a.extend_from_slice(b"hello");
    pool.put(a);
    let b = pool.get();
    let c = pool.get();
    // the pool is empty now; a fresh buffer is allocated
    let d = pool.get();
    assert_eq!((b.len(), c.len(), d.len()), (0, 0, 0));
    let mut buf = BytesMut::new();
    buf.extend_from_slice(&[1, 2, 3, 4]);
    let p = Pkt {
        buf: PktBuf::Bytes(buf),
        len: 3,
        seq: 1,
        ts_nanos: 0,
        chan: b'A',
        _ts_kind: TsKind::Sw,
        merge_emit_ns: 0,
    };
    assert_eq!(p.payload(), &[1, 2, 3]);
    p.recycle(&pool);
    assert_eq!(pool.get().len(), 0);
}

#[test]
fn sequence_extraction() {
    let pkt = [0u8, 1, 2, 3, 4, 5, 6, 7, 8, 9];
    let be4 = FixedSeq { cfg: SeqCfg { offset: 1, length: 4, endian: Endian::Be } };
    assert_eq!(be4.extract_seq(&pkt), Some(0x01020304));
    let le4 = FixedSeq { cfg: SeqCfg { offset: 1, length: 4, endian: Endian::Le } };
    assert_eq!(le4.extract_seq(&pkt), Some(0x04030201));
    let be8 = FixedSeq { cfg: SeqCfg { offset: 2, length: 8, endian: Endian::Be } };
    assert_eq!(be8.extract_seq(&pkt), Some(0x0203040506070809));
    let le8 = FixedSeq { cfg: SeqCfg { offset: 2, length: 8, endian: Endian::Le } };
    assert_eq!(le8.extract_seq(&pkt), Some(0x0908070605040302));
    let short = FixedSeq { cfg: SeqCfg { offset: 3, length: 8, endian: Endian::Le } };
    assert_eq!(short.extract_seq(&pkt), None);
    let odd = FixedSeq { cfg: SeqCfg { offset: 0, length: 2, endian: Endian::Le } };
    assert_eq!(odd.extract_seq(&pkt), None);
}

#[test]
fn parsers_are_built_per_kind() {
    let seq = SeqCfg { offset: 0, length: 8, endian: Endian::Be };
    let mut del = vec![8u8, 0, 0xeb, 0x03, 0, 0, 0, 0];
    del.extend_from_slice(&5u64.to_le_bytes());
    let mut p = build_parser(ParserKind::FixedBinary, seq, 0);
    assert_eq!(p.max_messages_per_packet, 1);
    assert_eq!(p.seq_extractor().extract_seq(&[0, 0, 0, 0, 0, 0, 0, 9]), Some(9));
    let mut out = Vec::new();
    p.decode_into(&del, &mut out);
    assert_eq!(out, vec![Event::Del { order_id: 5 }]);
    let mut f = build_parser(ParserKind::FastLike, seq, 16);
    assert_eq!(f.max_messages_per_packet, 16);
    out.clear();
    f.decode_into(&[0, 3, 1, 5], &mut out);
    assert_eq!(out, vec![Event::Del { order_id: 5 }]);
    let mut i = build_parser(ParserKind::Itch50, seq, 16);
    out.clear();
    i.decode_into(&del, &mut out);
    assert!(out.is_empty());
    out.clear();
    i.dec.decode_messages(&[0, 1, b'Z'], &mut out);
    assert!(out.is_empty());
}

fn eobi_add(order_id: u64, instr: u32, px: i64, qty: i64) -> Vec<u8> {
    let mut b = vec![29u8, 0, 0xe9, 0x03, 0, 0, 0, 0];
    b.extend_from_slice(&order_id.to_le_bytes());
    b.extend_from_slice(&instr.to_le_bytes());
    b.push(0);
    b.extend_from_slice(&px.to_le_bytes());
    b.extend_from_slice(&qty.to_le_bytes());
    b
}

fn packet(payload: &[u8], seq: u64, ts: u64, emit: u64) -> Pkt {
    let mut buf = BytesMut::new();
    buf.extend_from_slice(payload);
    Pkt {
        buf: PktBuf::Bytes(buf),
        len: payload.len(),
        seq,
        ts_nanos: ts,
        chan: b'A',
        _ts_kind: TsKind::HwRaw,
        merge_emit_ns: emit,
    }
}

#[test]
fn decode_stage_applies_and_publishes() {
    let mut book = OrderBook::new(10);
    let mut parser = build_parser(
        ParserKind::FixedBinary,
        SeqCfg { offset: 0, length: 8, endian: Endian::Be },
        8,
    );
    let mut bus = Bus::new(8);
    let mut m = Metrics::new();
    let mut events = vec![Event::Heartbeat];
    let mut payload = eobi_add(1, 7, 100, 10);
    payload.extend(eobi_add(2, 7, 101, 5));
    // a modify and a delete of order 1
    payload.extend_from_slice(&[16, 0, 0xea, 0x03, 0, 0, 0, 0]);
    payload.extend_from_slice(&1u64.to_le_bytes());
    payload.extend_from_slice(&4i64.to_le_bytes());
    payload.extend_from_slice(&[8, 0, 0xeb, 0x03, 0, 0, 0, 0]);
    payload.extend_from_slice(&1u64.to_le_bytes());
    let pkt = packet(&payload, 1, 1_000, 1_500);
    let mut sub = bus.subscribe();
    let n = decode_packet(&mut book, &mut parser, &mut bus, true, &pkt, &mut events, 2_000, &mut m);
    assert_eq!(m.e2e_latency.count, 0);
    packet_done(&pkt, 2_600, &mut m);
    assert_eq!(n, 4);
    assert_eq!(events.len(), 4);
    assert_eq!(book.order_count(), 1);
    assert_eq!(book.bbo(), (Some((101, 5)), None));
    assert_eq!(m.decode_packets, 1);
    assert_eq!(m.decode_messages, 4);
    assert_eq!(m.stage_merge_to_decode.count, 1);
    assert_eq!(m.stage_merge_to_decode.sum_ns, 500);
    assert_eq!(m.stage_rx_to_merge.sum_ns, 500);
    assert_eq!(m.e2e_latency.sum_ns, 1_600);
    assert_eq!(m.e2e_latency_hw_raw.count, 1);
    assert_eq!(m.e2e_latency_sw.count, 0);
    let mut frames = Vec::new();
    while let Ok(Some(f)) = sub.recv_next(&bus) {
        frames.push(f);
    }
    assert_eq!(frames.len(), 4);
    let hs: Vec<FrameHeaderV1> = frames.iter().map(|f| FrameHeaderV1::read(f).unwrap()).collect();
    let types: Vec<u16> = hs.iter().map(|h| h.message_type).collect();
    assert_eq!(types, vec![100, 100, 101, 102]);
    // the delete is published under the instrument that its order had
    let instrs: Vec<u64> = hs.iter().map(|h| h.instrument_id).collect();
    assert_eq!(instrs, vec![7, 7, 7, 7]);
    let seqs: Vec<u64> = hs.iter().map(|h| h.sequence).collect();
    assert_eq!(seqs, vec![1, 2, 3, 4]);
    assert!(hs.iter().all(|h| h.send_time_ns == 2_000 && h.is_valid()));
    assert_eq!(frames[0].len(), HEADER_LEN + 26);

    // without publishing the bus stays as it is; an event out of range stops the packet
    let mut quiet = Bus::new(8);
    let mut over = eobi_add(3, 7, 101, i64::MAX);
    over.extend(eobi_add(4, 7, 50, 1));
    let pkt2 = packet(&over, 2, 0, 0);
    let n2 = decode_packet(&mut book, &mut parser, &mut quiet, false, &pkt2, &mut events, 1, &mut m);
    packet_done(&pkt2, 1, &mut m);
    assert_eq!(n2, 0);
    assert_eq!(events.len(), 2);
    assert_eq!(book.order_count(), 1);
    assert_eq!(quiet.ring.buf.len(), 0);
    assert_eq!(m.e2e_latency.count, 1);
    assert!(snapshot_due(10, 10, false));
    assert!(snapshot_due(0, 10, true));
    assert!(!snapshot_due(9, 10, false));
    assert!(!publish_event(&mut quiet, 0, &Event::Heartbeat, 0));
}

#[test]
fn bus_drops_oldest_and_reports_gaps() {
    let mut bus = Bus::new(2);
    let p = bus.publisher();
    let mut early = bus.subscribe();
    assert!(matches!(early.recv_next(&bus), Ok(None)));
    for i in 0..3u8 {
        p.publish_raw(&mut bus, 1, 0, 9, i as u64, &[i], 5);
    }
    assert_eq!(bus.ring.buf.len(), 2);
    assert_eq!(bus.ring.next_global, 3);
    // frame 0 has left the ring
    assert!(matches!(early.recv_next(&bus), Err(RecvError::Gap { from: 0, to: 0 })));
    assert_eq!(early.next_global, 0);
    early.set_cursor(1);
    let f = early.recv_next(&bus).unwrap().unwrap();
    assert_eq!(f[HEADER_LEN], 1);
    assert_eq!(early.next_global, 2);
    let f = early.recv_next(&bus).unwrap().unwrap();
    assert_eq!(f[HEADER_LEN], 2);
    assert!(matches!(early.recv_next(&bus), Ok(None)));
    early.set_cursor(100);
    assert!(matches!(early.recv_next(&bus), Ok(None)));
    early.set_cursor_to_tail(&bus);
    assert_eq!(early.next_global, 3);
    assert_eq!(bus.subscribe().next_global, 3);
}

#[test]
fn per_instrument_sequences_count_up_from_one() {
    let mut bus = Bus::new(4);
    let p = bus.publisher();
    assert_eq!(p.next_seq_for_instrument(&mut bus, 7), 1);
    assert_eq!(p.next_seq_for_instrument(&mut bus, 7), 2);
    assert_eq!(p.next_seq_for_instrument(&mut bus, 8), 1);
    p.publish_raw(&mut bus, 1, 0, 7, 2, &[], 0);
    assert_eq!(p.next_seq_for_instrument(&mut bus, 7), 3);
    assert_eq!(p.next_seq_for_instrument(&mut bus, 8), 2);
}

#[test]
fn gaps_are_coalesced() {
    let g = |from, to| RecoveryRequest::Gap { from, to };
    let b = coalesce(g(10, 20), &[g(21, 25), g(40, 50), g(5, 9), g(26, 41), g(0, 3), g(u64::MAX, u64::MAX)]);
    // 21..25 is adjacent, 40..50 is apart, 5..9 is adjacent, 26..41 overlaps what was gathered
    assert_eq!(b.fetch, Some((5, 41)));
    assert_eq!(b.backlog, vec![(40, 50), (0, 3), (u64::MAX, u64::MAX)]);
    let e = coalesce(g(5, 4), &[g(1, 2)]);
    assert_eq!(e.fetch, None);
    assert!(e.backlog.is_empty());
    let z = coalesce(g(0, u64::MAX), &[g(3, 4)]);
    assert_eq!(z.fetch, Some((0, u64::MAX)));
    let one = coalesce(g(7, 7), &[]);
    assert_eq!(one.fetch, Some((7, 7)));
}

#[test]
fn replay_protocol_framing() {
    assert_eq!(replay_request(3, 5), b"REPLAY 3 5\n".to_vec());
    assert_eq!(replay_request(0, u64::MAX), b"REPLAY 0 18446744073709551615\n".to_vec());
    assert_eq!(replay_request(1000, 10), b"REPLAY 1000 10\n".to_vec());
    let mut h = Vec::new();
    h.extend_from_slice(&100u32.to_be_bytes());
    h.extend_from_slice(&77u64.to_be_bytes());
    assert_eq!(replay_step(&h, 2048), ReplayStep::Frame { len: 100, seq: 77 });
    assert_eq!(replay_step(&h, 100), ReplayStep::Frame { len: 100, seq: 77 });
    assert_eq!(replay_step(&h, 99), ReplayStep::TooLarge { len: 100 });
    assert_eq!(replay_step(&[0; 12], 0), ReplayStep::End);
    let p = recovered_pkt(BytesMut::new(), 0, 9, 55);
    assert_eq!((p.seq, p.chan, p.ts_nanos, p.merge_emit_ns, p.len), (9, b'R', 55, 0, 0));
    let mut lg = GapLogger::new();
    assert!(!lg.should_log(99_999_999));
    assert!(lg.should_log(100_000_000));
    assert!(!lg.should_log(150_000_000));
    assert!(lg.should_log(200_000_000));
}

#[test]
fn udp_payload_is_found_behind_the_headers() {
    let mut f = vec![0u8; 12];
    f.extend_from_slice(&[0x08, 0x00]);
    let mut ip = vec![0x45u8; 20];
    ip[9] = 17;
    f.extend_from_slice(&ip);
    f.extend_from_slice(&[0; 8]);
    f.extend_from_slice(b"data");
    assert_eq!(parse_udp_payload(&f), Some(&b"data"[..]));
    // with a VLAN tag
    let mut v = vec![0u8; 12];
    v.extend_from_slice(&[0x81, 0x00, 0, 1, 0x08, 0x00]);
    let mut ip6 = vec![0x46u8; 24];
    ip6[9] = 17;
    v.extend_from_slice(&ip6);
    v.extend_from_slice(&[0; 8]);
    v.extend_from_slice(b"xy");
    assert_eq!(parse_udp_payload(&v), Some(&b"xy"[..]));
    // not UDP, not IPv4, cut short
    let mut tcp = f.clone();
    tcp[14 + 9] = 6;
    assert_eq!(parse_udp_payload(&tcp), None);
    let mut arp = f.clone();
    arp[13] = 6;
    assert_eq!(parse_udp_payload(&arp), None);
    assert_eq!(parse_udp_payload(&f[..41]), None);
    assert_eq!(parse_udp_payload(&f[..42]), Some(&b""[..]));
    assert_eq!(parse_udp_payload(&f[..13]), None);
    assert_eq!(parse_udp_payload(&v[..17]), None);
}

#[test]
fn timestamps_prefer_hardware() {
    let z = Timespec { sec: 0, nsec: 0 };
    let t = |s, n| Timespec { sec: s, nsec: n };
    assert_eq!(pick_timestamp(&[], None, 77), (77, TsKind::Sw));
    assert_eq!(pick_timestamp(&[ControlMsg::Other], Some(TimestampingMode::Software), 77), (77, TsKind::Sw));
    assert_eq!(
        pick_timestamp(&[ControlMsg::TimestampNs(t(2, 5))], Some(TimestampingMode::Software), 77),
        (2_000_000_005, TsKind::Sw)
    );
    assert_eq!(
        pick_timestamp(&[ControlMsg::Timestamping(t(1, 1), z, t(3, 0))], Some(TimestampingMode::HardwareRaw), 77),
        (3_000_000_000, TsKind::HwRaw)
    );
    assert_eq!(
        pick_timestamp(&[ControlMsg::Timestamping(t(1, 1), t(2, 0), z)], Some(TimestampingMode::Hardware), 77),
        (2_000_000_000, TsKind::HwSys)
    );
    assert_eq!(
        pick_timestamp(&[ControlMsg::Timestamping(t(1, 1), z, z)], None, 77),
        (1_000_000_001, TsKind::HwSys)
    );
    assert_eq!(pick_timestamp(&[ControlMsg::Timestamping(z, z, z)], None, 77), (77, TsKind::Sw));
    let seq = FixedSeq { cfg: SeqCfg { offset: 0, length: 4, endian: Endian::Be } };
    let mut b = BytesMut::new();
    b.extend_from_slice(&[0, 0, 0, 9, 1]);
    let p = rx_packet(&seq, b, 5, 3, b'B', TsKind::HwSys).unwrap();
    assert_eq!((p.seq, p.len, p.ts_nanos, p.chan, p.merge_emit_ns), (9, 5, 3, b'B', 0));
    let mut s = BytesMut::new();
    s.extend_from_slice(&[1, 2]);
    let back = rx_packet(&seq, s, 2, 3, b'B', TsKind::Sw).unwrap_err();
    assert_eq!(&back[..], &[1, 2]);
}

#[test]
fn text_helpers() {
    assert!(str_is_blank(""));
    assert!(str_is_blank(" \t\n\u{a0}\u{3000}"));
    assert!(!str_is_blank(" x "));
    assert!(!str_is_blank("\u{200b}"));
    for c in ['\u{9}', '\u{d}', ' ', '\u{85}', '\u{1680}', '\u{2000}', '\u{200a}', '\u{2028}', '\u{2029}', '\u{202f}', '\u{205f}'] {
        assert!(char_is_space(c));
        assert!(c.is_whitespace());
    }
    for c in ['a', '\u{8}', '\u{e}', '\u{200b}', '\u{84}', '0'] {
        assert_eq!(char_is_space(c), c.is_whitespace());
    }
    assert!(str_contains_char("host:1", ':'));
    assert!(!str_contains_char("host", ':'));
    let v: Vec<char> = "+12x007".chars().collect();
    assert_eq!(read_unsigned(&v, 0, 3, 100), Some(12));
    assert_eq!(read_unsigned(&v, 0, 3, 11), None);
    assert_eq!(read_unsigned(&v, 1, 3, 100), Some(12));
    assert_eq!(read_unsigned(&v, 0, 1, 100), None);
    assert_eq!(read_unsigned(&v, 0, 4, 100), None);
    assert_eq!(read_unsigned(&v, 4, 7, 100), Some(7));
    assert_eq!(read_unsigned(&v, 4, 4, 100), None);
    let big: Vec<char> = "18446744073709551616".chars().collect();
    assert_eq!(read_unsigned(&big, 0, 20, u64::MAX), None);
    assert_eq!(read_unsigned(&big, 0, 19, u64::MAX), Some(1844674407370955161));
}

#[test]
fn cpu_lists() {
    assert!(cpulist_contains("0-3,8,10-11", 0));
    assert!(cpulist_contains("0-3,8,10-11", 3));
    assert!(cpulist_contains("0-3,8,10-11", 8));
    assert!(cpulist_contains("0-3,8,10-11", 11));
    assert!(!cpulist_contains("0-3,8,10-11", 4));
    assert!(!cpulist_contains("0-3,8,10-11", 9));
    assert!(!cpulist_contains("", 0));
    assert!(!cpulist_contains(",,", 0));
    assert!(cpulist_contains(" 5 , 7-9 \n", 8));
    assert!(cpulist_contains(" 5 , 7-9 \n", 5));
    assert!(!cpulist_contains("7 - 9", 8));
    assert!(!cpulist_contains("9-7", 8));
    assert!(!cpulist_contains("a-9,x", 8));
    assert!(cpulist_contains("+8", 8));
    assert!(!cpulist_contains("1-2-3", 2));
    assert!(!cpulist_contains("-3", 3));
    assert!(cpulist_contains("junk,3", 3));
}

fn channel(group0: u8) -> ChannelCfg {
    ChannelCfg {
        group: [group0, 10, 10, 1],
        port: 5001,
        iface_addr: [10, 0, 0, 1],
        reuse_port: false,
        recv_buffer_bytes: 1 << 20,
        busy_poll_us: None,
        nonblocking: true,
        timestamping: Some(TimestampingMode::Off),
        workers: None,
    }
}

fn good_config() -> AppConfig {
    AppConfig {
        general: General {
            max_packet_size: 2048,
            pool_size: 16,
            rx_queue_capacity: 16,
            merge_queue_capacity: 16,
            spin_loops_per_yield: 64,
            rx_recvmmsg_batch: None,
            mlock_all: false,
            json_logs: false,
        },
        sequence: Sequence { offset: 0, length: 8, endian: Endian::Be },
        parser: ParserCfg { kind: ParserKind::Itch50, max_messages_per_packet: 64 },
        channels: Channels { a: channel(239), b: channel(224) },
        merge: Merge {
            initial_expected_seq: 1,
            reorder_window: 64,
            max_pending_packets: 1024,
            dwell_ns: None,
            adaptive: false,
            reorder_window_max: None,
        },
        book: Book { max_depth: 10, snapshot_interval_ms: 1000, consume_trades: false },
        cpu: Cpu { a_rx_core: None, b_rx_core: None, merge_core: None, decode_core: None, rt_priority: None },
        metrics: None,
        snapshot: None,
        recovery: None,
        afxdp: None,
        feeds: None,
    }
}

fn feeds() -> Feeds {
    Feeds {
        enabled: true,
        pops: vec![Pop {
            ws_endpoints: vec!["a:1".into(), "b:1".into()],
            h3_endpoints: vec!["a:2".into(), "b:2".into()],
        }],
        tls: None,
        obo: None,
        auth_token: None,
    }
}

#[test]
fn config_rules_in_order() {
    assert_eq!(good_config().validate(), Ok(()));
    assert_eq!(default_ifname(), "eth0");
    assert_eq!(default_pub_queue(), 65536);
    let check = |f: &dyn Fn(&mut AppConfig), e: ConfigError| {
        let mut c = good_config();
        f(&mut c);
        assert_eq!(c.validate(), Err(e));
    };
    check(&|c| c.channels.a.group[0] = 223, ConfigError::GroupNotMulticast);
    check(&|c| c.channels.b.group[0] = 240, ConfigError::GroupNotMulticast);
    check(&|c| c.sequence.length = 2, ConfigError::SequenceLength);
    check(&|c| c.general.max_packet_size = 511, ConfigError::MaxPacketSize);
    check(&|c| c.general.max_packet_size = 65536, ConfigError::MaxPacketSize);
    check(&|c| c.merge.reorder_window = 0, ConfigError::ReorderWindow);
    check(&|c| c.channels.a.workers = Some(2), ConfigError::WorkersA);
    check(&|c| c.channels.b.workers = Some(2), ConfigError::WorkersB);
    check(&|c| c.book.max_depth = 0, ConfigError::MaxDepth);
    check(&|c| c.book.snapshot_interval_ms = 0, ConfigError::SnapshotInterval);
    check(
        &|c| {
            let mut f = feeds();
            f.pops[0].ws_endpoints.pop();
            f.pops[0].h3_endpoints.pop();
            c.feeds = Some(f)
        },
        ConfigError::WsEndpoints,
    );
    check(
        &|c| {
            let mut f = feeds();
            f.pops.push(Pop { ws_endpoints: vec!["a".into(), "b".into()], h3_endpoints: vec![] });
            c.feeds = Some(f)
        },
        ConfigError::H3Endpoints,
    );
    check(
        &|c| {
            let mut f = feeds();
            f.pops.clear();
            c.feeds = Some(f)
        },
        ConfigError::NoPop,
    );
    check(
        &|c| {
            let mut f = feeds();
            f.auth_token = Some("  ".into());
            c.feeds = Some(f)
        },
        ConfigError::AuthToken,
    );
    check(
        &|c| {
            let mut f = feeds();
            f.tls = Some(TlsCfg { cert_path: "c".into(), key_path: "".into() });
            c.feeds = Some(f)
        },
        ConfigError::TlsPath,
    );
    check(
        &|c| {
            let mut f = feeds();
            f.obo = Some(OboFeedCfg { enabled: true, buffers: Some(BuffersCfg { pub_queue: 0 }) });
            c.feeds = Some(f)
        },
        ConfigError::PubQueue,
    );
    check(
        &|c| c.snapshot = Some(SnapshotCfg { path: " ".into(), load_on_start: false, enable_writer: false }),
        ConfigError::SnapshotPath,
    );
    check(
        &|c| {
            c.recovery = Some(RecoveryCfg { enable_injector: true, endpoint: "host".into(), backlog_path: None })
        },
        ConfigError::RecoveryEndpoint,
    );
    check(
        &|c| c.afxdp = Some(AfxdpCfg { enable: false, ifname: "".into(), queues: None }),
        ConfigError::AfxdpIfname,
    );
    // the first broken rule is named
    check(
        &|c| {
            c.book.max_depth = 0;
            c.sequence.length = 5;
        },
        ConfigError::SequenceLength,
    );
    // workers with port sharing, a disabled injector without endpoint and disabled feeds without pops pass
    let mut c = good_config();
    c.channels.a.workers = Some(4);
    c.channels.a.reuse_port = true;
    c.recovery = Some(RecoveryCfg { enable_injector: false, endpoint: "".into(), backlog_path: None });
    let mut f = feeds();
    f.enabled = false;
    f.pops.clear();
    c.feeds = Some(f);
    assert_eq!(c.validate(), Ok(()));
}

#[test]
fn metrics_count_and_bucket() {
    let mut m = Metrics::new();
    inc_rx(&mut m, b'A', 100);
    inc_rx(&mut m, b'A', 50);
    inc_rx(&mut m, b'B', 1);
    inc_rx(&mut m, b'x', 1);
    inc_rx_drop(&mut m, b'B');
    assert_eq!((m.rx_packets.a, m.rx_bytes.a, m.rx_packets.b, m.rx_packets.other), (2, 150, 1, 1));
    assert_eq!(m.rx_drops.b, 1);
    inc_merge_gap_chan(&mut m, b'R');
    assert_eq!(m.merge_gaps_by_chan.r, 1);
    set_merge_preferred_is_a(&mut m, false);
    assert_eq!(m.merge_preferred_is_a, 0);
    inc_decode_msgs(&mut m, u64::MAX);
    inc_decode_msgs(&mut m, 2);
    assert_eq!(m.decode_messages, 1);
    set_live_orders(&mut m, 12);
    assert_eq!(m.book_live_orders, 12);
    set_queue_len(&mut m, QueueId::RxA, 5);
    set_queue_len(&mut m, QueueId::RxA, 3);
    set_queue_len(&mut m, QueueId::Merged, 9);
    assert_eq!((m.queue_rx_a.len, m.queue_rx_a.hwm), (3, 5));
    assert_eq!((m.queue_merged.len, m.queue_merged.hwm, m.queue_rx_b.hwm), (9, 9, 0));
    inc_ws_clients(&mut m, 1);
    inc_ws_clients(&mut m, 1);
    inc_ws_clients(&mut m, -1);
    inc_out_frames(&mut m);
    inc_out_bytes(&mut m, 40);
    inc_dropped_clients(&mut m);
    assert_eq!((m.ws_clients, m.out_frames, m.out_bytes, m.dropped_clients), (1, 1, 40, 1));
    observe_latency_ns(&mut m, 100);
    observe_latency_ns(&mut m, 101);
    observe_latency_ns(&mut m, 100_000);
    observe_latency_ns(&mut m, 100_001);
    assert_eq!(m.e2e_latency.counts, vec![1, 1, 0, 0, 0, 0, 0, 0, 0, 1, 1]);
    assert_eq!(m.e2e_latency.count, 4);
    assert_eq!(m.e2e_latency.sum_ns, 200_202);
    observe_latency_by_kind_ns(&mut m, TsKind::Absent, 1);
    observe_latency_by_kind_ns(&mut m, TsKind::Sw, 1);
    observe_latency_by_kind_ns(&mut m, TsKind::HwSys, 1);
    assert_eq!((m.e2e_latency_sw.count, m.e2e_latency_hw_sys.count, m.e2e_latency_hw_raw.count), (2, 1, 0));
    observe_stage_rx_to_merge_ns(&mut m, 20_000);
    observe_stage_rx_to_merge_ns(&mut m, 20_001);
    observe_stage_merge_to_decode_ns(&mut m, 0);
    assert_eq!(m.stage_rx_to_merge.counts, vec![0, 0, 0, 0, 0, 0, 0, 1, 1]);
    assert_eq!(m.stage_merge_to_decode.counts[0], 1);
    let mut h = Histogram::new(0);
    h.observe(5);
    assert_eq!(h.counts, vec![1]);
}

#[test]
fn idle_waits_escalate() {
    let mut idle = 0u32;
    assert_eq!(adaptive_wait(&mut idle, 32), IdleAction::Spin(32));
    assert_eq!(idle, 1);
    idle = 63;
    assert_eq!(adaptive_wait(&mut idle, 32), IdleAction::Spin(32));
    assert_eq!(adaptive_wait(&mut idle, 32), IdleAction::Yield);
    assert_eq!(idle, 65);
    idle = 255;
    assert_eq!(adaptive_wait(&mut idle, 32), IdleAction::Yield);
    assert_eq!(adaptive_wait(&mut idle, 32), IdleAction::Sleep(50));
    assert_eq!(idle, 256);
    idle = 9999;
    assert_eq!(adaptive_wait(&mut idle, 32), IdleAction::Sleep(50));
    assert_eq!(idle, 256);
    let flag = BarrierFlag::default();
    assert!(!flag.is_raised());
    flag.raise();
    assert!(flag.is_raised());
    spin_wait(3);
    spin_wait(0);
}

#[test]
fn side_is_an_ordinary_value() {
    assert_ne!(Side::Bid, Side::Ask);
    let e = Event::Add { order_id: 1, instr: 1, px: 1, qty: 1, side: Side::Bid };
    assert_eq!(e, e.clone());
}

#[test]
fn client_queries() {
    let q = |f, s| ClientQuery { from_seq: f, snapshot: s };
    assert_eq!(parse_query("/ws?from_seq=12&snapshot=1"), q(Some(12), true));
    assert_eq!(parse_query("/ws"), q(None, false));
    assert_eq!(parse_query("/ws?snapshot=true&from_seq=%31%30"), q(Some(10), true));
    assert_eq!(parse_query("/ws?snapshot=yes&from_seq=x"), q(None, false));
    assert_eq!(parse_query("/ws?from_seq=1&from_seq=2&snapshot=1&snapshot=0"), q(Some(2), false));
    assert_eq!(parse_query("/ws?from_seq=5&from_seq=oops"), q(Some(5), false));
    assert_eq!(parse_query("/ws?from_seq=18446744073709551615"), q(Some(u64::MAX), false));
    assert_eq!(parse_query("/ws?from_seq=18446744073709551616"), q(None, false));
    // a plus sign in a query stands for a space; an encoded plus sign is a sign
    assert_eq!(parse_query("/ws?from_seq=+7&other=1"), q(None, false));
    assert_eq!(parse_query("/ws?from_seq=%2B7&other=1"), q(Some(7), false));
    let pairs = vec![("snapshot".to_string(), "1".to_string()), ("FROM_SEQ".to_string(), "3".to_string())];
    assert_eq!(pick_query(&pairs), q(None, true));
    assert_eq!(pick_query(&Vec::new()), q(None, false));
}

#[test]
fn gap_notices_reach_the_worker() {
    let (tx, rx) = crossbeam_channel::bounded::<RecoveryRequest>(1);
    let client = feed_ingest::recovery::Client { tx };
    client.notify_gap(3, 7);
    // the channel is full: this notice is dropped
    client.notify_gap(8, 9);
    assert_eq!(rx.try_recv(), Ok(RecoveryRequest::Gap { from: 3, to: 7 }));
    assert!(rx.try_recv().is_err());
    let r: &dyn feed_ingest::recovery::Replayer = &client;
    r.notify_gap(1, 1);
    assert_eq!(rx.try_recv(), Ok(RecoveryRequest::Gap { from: 1, to: 1 }));
}

#[test]
fn a_cancel_frame_carries_the_instrument_of_its_order() {
    let mut book = OrderBook::new(10);
    book.apply(&Event::Add { order_id: 10, instr: 5, px: 100, qty: 3, side: Side::Bid });
    book.apply(&Event::Add { order_id: 11, instr: 6, px: 100, qty: 3, side: Side::Bid });
    let mut bus = Bus::new(8);
    let mut sub = bus.subscribe();
    let del = Event::Del { order_id: 10 };
    let instr = event_instrument(&book, &del);
    assert_eq!(instr, 5);
    book.apply(&del);
    assert_eq!(event_instrument(&book, &del), 0);
    assert!(publish_event(&mut bus, instr, &del, 9));
    let gone = Event::Mod { order_id: 11, qty: 0 };
    let instr = event_instrument(&book, &gone);
    book.apply(&gone);
    assert!(publish_event(&mut bus, instr, &gone, 9));
    let del = Event::Del { order_id: 10 };
    assert!(publish_event(&mut bus, event_instrument(&book, &del), &del, 9));
    let mut hs = Vec::new();
    while let Ok(Some(f)) = sub.recv_next(&bus) {
        hs.push(FrameHeaderV1::read(&f).unwrap());
    }
    let got: Vec<(u16, u64, u64)> = hs.iter().map(|h| (h.message_type, h.instrument_id, h.sequence)).collect();
    assert_eq!(got, vec![(102, 5, 1), (101, 6, 1), (102, 0, 1)]);
    assert_eq!(book.order_count(), 0);
}
