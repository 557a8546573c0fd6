//! Packets and the pool of reusable packet buffers.
//!
//! A packet owns its buffer from the moment it is filled until it is handed
//! back to the pool. Buffers are `bytes::BytesMut` values kept in a bounded
//! `crossbeam` queue; both are outside this crate and enter the proofs only
//! through the contracts stated here.
use vstd::prelude::*;

verus! {

#[verifier::external_type_specification]
#[verifier::external_body]
pub struct ExBytesMut(bytes::BytesMut);

#[verifier::external_type_specification]
#[verifier::external_body]
#[verifier::reject_recursive_types(T)]
pub struct ExArrayQueue<T>(crossbeam::queue::ArrayQueue<T>);

/// The bytes that a buffer currently holds, in order.
pub uninterp spec fn buf_bytes(b: bytes::BytesMut) -> Seq<u8>;

/// `BytesMut::with_capacity`: a fresh buffer. It holds no data, whatever room
/// was reserved.
#[verifier::external_body]
pub(crate) fn buf_with_capacity(capacity: usize) -> (b: bytes::BytesMut)
    ensures
        buf_bytes(b) == Seq::<u8>::empty(),
{
    bytes::BytesMut::with_capacity(capacity)
}

/// `BytesMut::truncate`: keeps the first `len` bytes and drops the rest; a
/// `len` beyond the current length changes nothing.
#[verifier::external_body]
fn buf_truncate(b: &mut bytes::BytesMut, len: usize)
    ensures
        buf_bytes(*final(b)) == if len <= buf_bytes(*old(b)).len() {
            buf_bytes(*old(b)).take(len as int)
        } else {
            buf_bytes(*old(b))
        },
{
    b.truncate(len)
}

/// The buffer's contents as a slice (`BytesMut` dereferences to `[u8]`).
#[verifier::external_body]
pub(crate) fn buf_as_slice(b: &bytes::BytesMut) -> (s: &[u8])
    ensures
        s@ == buf_bytes(*b),
{
    b.as_ref()
}

#[verifier::external_type_specification]
#[verifier::external_body]
pub struct ExBytes(bytes::Bytes);

/// The bytes of an immutable frame, in order.
pub uninterp spec fn frame_bytes(b: bytes::Bytes) -> Seq<u8>;

/// `BytesMut::extend_from_slice`: appends the bytes of `extend`.
#[verifier::external_body]
pub(crate) fn buf_extend(b: &mut bytes::BytesMut, extend: &[u8])
    ensures
        buf_bytes(*final(b)) == buf_bytes(*old(b)) + extend@,
{
    b.extend_from_slice(extend)
}

/// `BytesMut::freeze`: the same bytes, from now on immutable.
#[verifier::external_body]
pub(crate) fn buf_freeze(b: bytes::BytesMut) -> (f: bytes::Bytes)
    ensures
        frame_bytes(f) == buf_bytes(b),
{
    b.freeze()
}

/// `Bytes::clone`: another handle to the same bytes.
#[verifier::external_body]
pub(crate) fn frame_clone(f: &bytes::Bytes) -> (c: bytes::Bytes)
    ensures
        frame_bytes(c) == frame_bytes(*f),
{
    f.clone()
}

/// `ArrayQueue::new`: a bounded queue. The outside function panics on a zero
/// capacity, which the precondition excludes. Nothing is claimed of the result.
#[verifier::external_body]
fn queue_new(cap: usize) -> (q: crossbeam::queue::ArrayQueue<bytes::BytesMut>)
    requires
        cap > 0,
{
    crossbeam::queue::ArrayQueue::new(cap)
}

/// `ArrayQueue::push`: offers a buffer to the queue. Other threads share the
/// queue, so whether there was room is not predictable; `true` says the
/// buffer was taken.
#[verifier::external_body]
fn queue_push(q: &crossbeam::queue::ArrayQueue<bytes::BytesMut>, b: bytes::BytesMut) -> (taken: bool) {
    q.push(b).is_ok()
}

/// `ArrayQueue::pop`: takes a buffer if one is there. Nothing is known of
/// what other threads left in it.
#[verifier::external_body]
fn queue_pop(q: &crossbeam::queue::ArrayQueue<bytes::BytesMut>) -> (b: Option<bytes::BytesMut>) {
    q.pop()
}

/// Where a packet's receive timestamp came from.
#[derive(Debug, Clone, Copy, PartialEq, Eq, Structural)]
pub enum TsKind {
    /// No timestamp was taken.
    Absent,
    Sw,
    HwSys,
    HwRaw,
}

/// The memory behind a packet.
#[derive(Debug)]
pub enum PktBuf {
    /// A buffer owned by the packet and returned to the pool after use.
    Bytes(bytes::BytesMut),
}

impl PktBuf {
    /// The bytes held by the buffer.
    pub open spec fn bytes(self) -> Seq<u8> {
        match self {
            PktBuf::Bytes(b) => buf_bytes(b),
        }
    }
}

/// Channel tag of feed A.
pub const CHAN_A: u8 = 65;

/// Channel tag of feed B.
pub const CHAN_B: u8 = 66;

/// Channel tag of packets that came from replay.
pub const CHAN_R: u8 = 82;

/// One received datagram together with what the pipeline learned about it.
#[derive(Debug)]
pub struct Pkt {
    pub buf: PktBuf,
    /// Payload length in bytes.
    pub len: usize,
    /// Sequence number read from the payload.
    pub seq: u64,
    /// Receive timestamp in nanoseconds.
    pub ts_nanos: u64,
    /// `CHAN_A`, `CHAN_B` or `CHAN_R`.
    pub chan: u8,
    pub _ts_kind: TsKind,
    /// When the arbiter forwarded the packet, in nanoseconds.
    pub merge_emit_ns: u64,
}

impl Pkt {
    /// The payload length does not exceed what the buffer holds.
    pub open spec fn wf(self) -> bool {
        self.len <= self.buf.bytes().len()
    }

    /// The payload: the first `len` bytes of the buffer.
    pub open spec fn spec_payload(self) -> Seq<u8> {
        self.buf.bytes().take(self.len as int)
    }

    /// Borrows the payload.
    pub fn payload(&self) -> (p: &[u8])
        requires
            self.wf(),
        ensures
            p@ == self.spec_payload(),
    {
        match &self.buf {
            PktBuf::Bytes(b) => {
                let all = buf_as_slice(b);
                vstd::slice::slice_subrange(all, 0, self.len)
            },
        }
    }

    /// Consumes the packet and returns its buffer to `pool`.
    pub fn recycle(self, pool: &PacketPool) {
        match self.buf {
            PktBuf::Bytes(b) => pool.put(b),
        }
    }
}

/// A fixed-capacity store of reusable packet buffers, shared by the threads
/// of the pipeline.
pub struct PacketPool {
    inner: crossbeam::queue::ArrayQueue<bytes::BytesMut>,
    max_packet_size: usize,
}

impl PacketPool {
    /// The size that fresh buffers are reserved with.
    pub closed spec fn spec_max_packet_size(self) -> usize {
        self.max_packet_size
    }

    /// Creates a pool and fills it with `pool_size` empty buffers.
    pub fn new(pool_size: usize, max_packet_size: usize) -> (pool: Self)
        requires
            pool_size > 0,
        ensures
            pool.spec_max_packet_size() == max_packet_size,
    {
        let q = queue_new(pool_size);
        let mut i: usize = 0;
        while i < pool_size
            invariant
                i <= pool_size,
            decreases pool_size - i,
        {
            let _ = queue_push(&q, buf_with_capacity(max_packet_size));
            i += 1;
        }
        PacketPool { inner: q, max_packet_size }
    }

    /// Hands out an empty buffer: a pooled one when there is any, else a
    /// freshly allocated one.
    pub fn get(&self) -> (b: bytes::BytesMut)
        ensures
            buf_bytes(b) == Seq::<u8>::empty(),
    {
        match queue_pop(&self.inner) {
            Some(mut b) => {
                buf_truncate(&mut b, 0);
                b
            },
            None => buf_with_capacity(self.max_packet_size),
        }
    }

    /// Clears `buf` and offers it back to the pool; a full pool drops it.
    pub fn put(&self, buf: bytes::BytesMut) {
        let mut buf = buf;
        buf_truncate(&mut buf, 0);
        let _ = queue_push(&self.inner, buf);
    }
}

} // verus!
