//! The configuration of the engine and the rules it must meet.
use vstd::prelude::*;
use crate::text::{is_blank, str_contains_char, str_is_blank};

verus! {

#[derive(Debug, Clone)]
pub struct General {
    pub max_packet_size: u32,
    pub pool_size: usize,
    pub rx_queue_capacity: usize,
    pub merge_queue_capacity: usize,
    pub spin_loops_per_yield: u32,
    /// More than one enables batched receive.
    pub rx_recvmmsg_batch: Option<usize>,
    pub mlock_all: bool,
    pub json_logs: bool,
}

/// Where the sequence number lies in a packet.
#[derive(Debug, Clone)]
pub struct Sequence {
    pub offset: u16,
    /// 4 or 8 bytes.
    pub length: u8,
    pub endian: Endian,
}

#[derive(Debug, Clone)]
pub struct Parser {
    pub kind: ParserKind,
    pub max_messages_per_packet: usize,
}

/// The wire protocol of the feed.
#[derive(Debug, Clone, Copy, PartialEq, Eq, Structural)]
pub enum ParserKind {
    FixedBinary,
    FastLike,
    Itch50,
}

/// Byte order.
#[derive(Debug, Clone, Copy, PartialEq, Eq, Structural)]
pub enum Endian {
    Be,
    Le,
}

#[derive(Debug, Clone)]
pub struct Channels {
    pub a: ChannelCfg,
    pub b: ChannelCfg,
}

/// Kind of receive timestamps.
#[derive(Debug, Clone, Copy, PartialEq, Eq, Structural)]
pub enum TimestampingMode {
    Off,
    Software,
    Hardware,
    HardwareRaw,
}

/// One of the two redundant feeds.
#[derive(Debug, Clone)]
pub struct ChannelCfg {
    /// The IPv4 multicast group, most significant octet first.
    pub group: [u8; 4],
    pub port: u16,
    /// The IPv4 address of the interface to join on.
    pub iface_addr: [u8; 4],
    pub reuse_port: bool,
    pub recv_buffer_bytes: u32,
    pub busy_poll_us: Option<u32>,
    pub nonblocking: bool,
    pub timestamping: Option<TimestampingMode>,
    /// Receive sockets and threads of the channel.
    pub workers: Option<usize>,
}

#[derive(Debug, Clone)]
pub struct Merge {
    pub initial_expected_seq: u64,
    pub reorder_window: u64,
    pub max_pending_packets: usize,
    pub dwell_ns: Option<u64>,
    pub adaptive: bool,
    pub reorder_window_max: Option<u64>,
}

#[derive(Debug, Clone)]
pub struct Book {
    pub max_depth: usize,
    pub snapshot_interval_ms: u64,
    pub consume_trades: bool,
}

#[derive(Debug, Clone)]
pub struct RecoveryCfg {
    pub enable_injector: bool,
    /// Host and port of the replay service.
    pub endpoint: String,
    pub backlog_path: Option<String>,
}

#[derive(Debug, Clone)]
pub struct Cpu {
    pub a_rx_core: Option<usize>,
    pub b_rx_core: Option<usize>,
    pub merge_core: Option<usize>,
    pub decode_core: Option<usize>,
    pub rt_priority: Option<i32>,
}

#[derive(Debug, Clone)]
pub struct Metrics {
    pub bind: String,
}

#[derive(Debug, Clone)]
pub struct SnapshotCfg {
    pub path: String,
    pub load_on_start: bool,
    pub enable_writer: bool,
}

#[derive(Debug, Clone)]
pub struct AfxdpCfg {
    pub enable: bool,
    pub ifname: String,
    pub queues: Option<usize>,
}

#[derive(Debug, Clone)]
pub struct Pop {
    pub ws_endpoints: Vec<String>,
    pub h3_endpoints: Vec<String>,
}

#[derive(Debug, Clone)]
pub struct TlsCfg {
    pub cert_path: String,
    pub key_path: String,
}

#[derive(Debug, Clone)]
pub struct BuffersCfg {
    pub pub_queue: usize,
}

#[derive(Debug, Clone)]
pub struct OboFeedCfg {
    pub enabled: bool,
    pub buffers: Option<BuffersCfg>,
}

#[derive(Debug, Clone)]
pub struct Feeds {
    pub enabled: bool,
    pub pops: Vec<Pop>,
    pub tls: Option<TlsCfg>,
    pub obo: Option<OboFeedCfg>,
    pub auth_token: Option<String>,
}

#[derive(Debug, Clone)]
pub struct AppConfig {
    pub general: General,
    pub sequence: Sequence,
    pub parser: Parser,
    pub channels: Channels,
    pub merge: Merge,
    pub book: Book,
    pub cpu: Cpu,
    pub metrics: Option<Metrics>,
    pub snapshot: Option<SnapshotCfg>,
    pub recovery: Option<RecoveryCfg>,
    pub afxdp: Option<AfxdpCfg>,
    pub feeds: Option<Feeds>,
}

/// The rule that a configuration breaks.
#[derive(Debug, Clone, Copy, PartialEq, Eq, Structural)]
pub enum ConfigError {
    /// The group of a channel is not a multicast address.
    GroupNotMulticast,
    /// The sequence length is neither 4 nor 8.
    SequenceLength,
    /// The packet size is not within 512 and 65535.
    MaxPacketSize,
    /// The reorder window is zero.
    ReorderWindow,
    /// Channel A has several workers without port sharing.
    WorkersA,
    /// Channel B has several workers without port sharing.
    WorkersB,
    /// The reporting depth is zero.
    MaxDepth,
    /// The snapshot interval is zero.
    SnapshotInterval,
    /// A point of presence does not have two WebSocket endpoints.
    WsEndpoints,
    /// A point of presence does not have two HTTP/3 endpoints.
    H3Endpoints,
    /// Feeds are enabled without a point of presence.
    NoPop,
    /// The authentication token is blank.
    AuthToken,
    /// A TLS path is blank.
    TlsPath,
    /// The publisher queue has no room.
    PubQueue,
    /// The snapshot path is blank.
    SnapshotPath,
    /// The replay endpoint is not of the form host:port.
    RecoveryEndpoint,
    /// The interface name is blank.
    AfxdpIfname,
}

/// Default name of the interface of the kernel-bypass receive path.
pub fn default_ifname() -> (s: String)
    ensures
        s@ == "eth0"@,
{
    "eth0".to_string()
}

/// Default room of the publisher queue.
pub fn default_pub_queue() -> (n: usize)
    ensures
        n == 65536,
{
    65536
}

/// Whether the IPv4 address `a` is a multicast address (224.0.0.0 to 239.255.255.255).
pub open spec fn is_multicast(a: [u8; 4]) -> bool {
    224 <= a[0] <= 239
}

/// The rule that the first point of presence from `from` on breaks, if any does.
pub open spec fn pops_error(pops: Seq<Pop>, from: int) -> Option<ConfigError>
    decreases pops.len() - from,
{
    if from < 0 || from >= pops.len() {
        None
    } else if pops[from].ws_endpoints@.len() != 2 {
        Some(ConfigError::WsEndpoints)
    } else if pops[from].h3_endpoints@.len() != 2 {
        Some(ConfigError::H3Endpoints)
    } else {
        pops_error(pops, from + 1)
    }
}

/// The rule that the feeds section breaks, if it breaks one.
pub open spec fn feeds_error(f: Feeds) -> Option<ConfigError> {
    if pops_error(f.pops@, 0) is Some {
        pops_error(f.pops@, 0)
    } else if f.enabled && f.pops@.len() == 0 {
        Some(ConfigError::NoPop)
    } else if f.auth_token matches Some(t) && is_blank(t@) {
        Some(ConfigError::AuthToken)
    } else if f.tls matches Some(t) && (is_blank(t.cert_path@) || is_blank(t.key_path@)) {
        Some(ConfigError::TlsPath)
    } else if f.obo matches Some(o) && o.buffers matches Some(b) && b.pub_queue == 0 {
        Some(ConfigError::PubQueue)
    } else {
        None
    }
}

/// The first rule that the configuration breaks, in the order in which the
/// rules are checked; `Ok` if it breaks none.
pub open spec fn spec_validate(c: AppConfig) -> Result<(), ConfigError> {
    if !is_multicast(c.channels.a.group) || !is_multicast(c.channels.b.group) {
        Err(ConfigError::GroupNotMulticast)
    } else if c.sequence.length != 4 && c.sequence.length != 8 {
        Err(ConfigError::SequenceLength)
    } else if c.general.max_packet_size < 512 || c.general.max_packet_size > 65535 {
        Err(ConfigError::MaxPacketSize)
    } else if c.merge.reorder_window == 0 {
        Err(ConfigError::ReorderWindow)
    } else if c.channels.a.workers matches Some(w) && w > 1 && !c.channels.a.reuse_port {
        Err(ConfigError::WorkersA)
    } else if c.channels.b.workers matches Some(w) && w > 1 && !c.channels.b.reuse_port {
        Err(ConfigError::WorkersB)
    } else if c.book.max_depth == 0 {
        Err(ConfigError::MaxDepth)
    } else if c.book.snapshot_interval_ms == 0 {
        Err(ConfigError::SnapshotInterval)
    } else if c.feeds matches Some(f) && feeds_error(f) is Some {
        Err(feeds_error(c.feeds.unwrap()).unwrap())
    } else if c.snapshot matches Some(s) && is_blank(s.path@) {
        Err(ConfigError::SnapshotPath)
    } else if c.recovery matches Some(r) && r.enable_injector && (is_blank(r.endpoint@)
        || !r.endpoint@.contains(':')) {
        Err(ConfigError::RecoveryEndpoint)
    } else if c.afxdp matches Some(a) && is_blank(a.ifname@) {
        Err(ConfigError::AfxdpIfname)
    } else {
        Ok(())
    }
}

fn check_feeds(f: &Feeds) -> (r: Option<ConfigError>)
    ensures
        r == feeds_error(*f),
{
    let mut i: usize = 0;
    while i < f.pops.len()
        invariant
            i <= f.pops@.len(),
            pops_error(f.pops@, 0) == pops_error(f.pops@, i as int),
        decreases f.pops@.len() - i,
    {
        if f.pops[i].ws_endpoints.len() != 2 {
            return Some(ConfigError::WsEndpoints);
        }
        if f.pops[i].h3_endpoints.len() != 2 {
            return Some(ConfigError::H3Endpoints);
        }
        i += 1;
    }
    if f.enabled && f.pops.len() == 0 {
        return Some(ConfigError::NoPop);
    }
    match &f.auth_token {
        Some(t) => {
            if str_is_blank(t.as_str()) {
                return Some(ConfigError::AuthToken);
            }
        },
        None => {},
    }
    match &f.tls {
        Some(t) => {
            if str_is_blank(t.cert_path.as_str()) || str_is_blank(t.key_path.as_str()) {
                return Some(ConfigError::TlsPath);
            }
        },
        None => {},
    }
    match &f.obo {
        Some(o) => {
            match &o.buffers {
                Some(b) => {
                    if b.pub_queue == 0 {
                        return Some(ConfigError::PubQueue);
                    }
                },
                None => {},
            }
        },
        None => {},
    }
    None
}

impl AppConfig {
    /// Checks the configuration against the rules and names the first that it breaks.
    pub fn validate(&self) -> (r: Result<(), ConfigError>)
        ensures
            r == spec_validate(*self),
    {
        let ga = self.channels.a.group[0];
        let gb = self.channels.b.group[0];
        if !(224 <= ga && ga <= 239) || !(224 <= gb && gb <= 239) {
            return Err(ConfigError::GroupNotMulticast);
        }
        if self.sequence.length != 4 && self.sequence.length != 8 {
            return Err(ConfigError::SequenceLength);
        }
        if self.general.max_packet_size < 512 || self.general.max_packet_size > 65535 {
            return Err(ConfigError::MaxPacketSize);
        }
        if self.merge.reorder_window == 0 {
            return Err(ConfigError::ReorderWindow);
        }
        match self.channels.a.workers {
            Some(w) => {
                if w > 1 && !self.channels.a.reuse_port {
                    return Err(ConfigError::WorkersA);
                }
            },
            None => {},
        }
        match self.channels.b.workers {
            Some(w) => {
                if w > 1 && !self.channels.b.reuse_port {
                    return Err(ConfigError::WorkersB);
                }
            },
            None => {},
        }
        if self.book.max_depth == 0 {
            return Err(ConfigError::MaxDepth);
        }
        if self.book.snapshot_interval_ms == 0 {
            return Err(ConfigError::SnapshotInterval);
        }
        match &self.feeds {
            Some(f) => {
                match check_feeds(f) {
                    Some(e) => {
                        return Err(e);
                    },
                    None => {},
                }
            },
            None => {},
        }
        match &self.snapshot {
            Some(s) => {
                if str_is_blank(s.path.as_str()) {
                    return Err(ConfigError::SnapshotPath);
                }
            },
            None => {},
        }
        match &self.recovery {
            Some(r) => {
                if r.enable_injector {
                    if str_is_blank(r.endpoint.as_str()) || !str_contains_char(r.endpoint.as_str(), ':') {
                        return Err(ConfigError::RecoveryEndpoint);
                    }
                }
            },
            None => {},
        }
        match &self.afxdp {
            Some(a) => {
                if str_is_blank(a.ifname.as_str()) {
                    return Err(ConfigError::AfxdpIfname);
                }
            },
            None => {},
        }
        Ok(())
    }
}

} // verus!
