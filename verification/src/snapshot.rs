//! The framing of snapshot files: a fixed header before the serialized books.
use vstd::prelude::*;
use crate::wire::{be_u32_at, be_u64_at, be_value};

verus! {

/// Version of the snapshot file format.
pub const VERSION: u32 = 1;

/// Length of the snapshot header: magic, version and timestamp.
pub const HEADER_LEN: usize = 20;

/// The eight bytes a snapshot file starts with: `OBSNAP` and two zero bytes.
pub open spec fn spec_magic() -> Seq<u8> {
    seq![79u8, 66u8, 83u8, 78u8, 65u8, 80u8, 0u8, 0u8]
}

/// The `n` low bytes of `v`, most significant first.
pub open spec fn be_bytes(v: int, n: nat) -> Seq<u8>
    decreases n,
{
    if n == 0 {
        Seq::empty()
    } else {
        be_bytes(v / 256, (n - 1) as nat).push((v % 256) as u8)
    }
}

/// The header of a snapshot taken at `timestamp_ns`.
pub open spec fn spec_header(timestamp_ns: u64) -> Seq<u8> {
    spec_magic() + be_bytes(VERSION as int, 4) + be_bytes(timestamp_ns as int, 8)
}

/// Why a snapshot file is not read.
#[derive(Debug, Clone, Copy, PartialEq, Eq, Structural)]
pub enum SnapshotError {
    /// The file is shorter than a header.
    TooSmall,
    /// The file does not start with the magic bytes.
    BadMagic,
    /// The file has a version this crate does not read.
    UnsupportedVersion(u32),
}

/// What the start of a snapshot file says: the error if it is not read, else
/// the timestamp it was taken at. The length is judged first, then the
/// magic, then the version.
pub open spec fn spec_parse(file: Seq<u8>) -> Result<u64, SnapshotError> {
    if file.len() < HEADER_LEN {
        Err(SnapshotError::TooSmall)
    } else if file.subrange(0, 8) != spec_magic() {
        Err(SnapshotError::BadMagic)
    } else if be_value(file, 8, 4) != VERSION {
        Err(SnapshotError::UnsupportedVersion(be_value(file, 8, 4) as u32))
    } else {
        Ok(be_value(file, 12, 8) as u64)
    }
}

/// Appends the `n` low bytes of `v`, most significant first.
fn put_be(out: &mut Vec<u8>, v: u64, n: usize)
    requires
        n <= 8,
    ensures
        final(out)@ == old(out)@ + be_bytes(v as int, n as nat),
{
    let ghost out0 = out@;
    let mut tmp: Vec<u8> = Vec::new();
    let mut x = v;
    let mut i: usize = 0;
    // least significant byte first, then copied in reverse
    while i < n
        invariant
            i <= n <= 8,
            tmp@.len() == i,
            be_bytes(v as int, n as nat) == be_bytes(x as int, (n - i) as nat) + tmp@.reverse(),
        decreases n - i,
    {
        let ghost before = tmp@;
        let ghost xb = x;
        tmp.push((x % 256) as u8);
        x = x / 256;
        i += 1;
        proof {
            assert(tmp@.reverse() =~= seq![(xb % 256) as u8] + before.reverse());
            assert(be_bytes(xb as int, (n - i + 1) as nat) == be_bytes(x as int, (n - i) as nat).push(
                (xb % 256) as u8,
            ));
            assert(be_bytes(x as int, (n - i) as nat).push((xb % 256) as u8) + before.reverse() =~= be_bytes(
                x as int,
                (n - i) as nat,
            ) + tmp@.reverse());
        }
    }
    assert(be_bytes(x as int, 0) + tmp@.reverse() =~= tmp@.reverse());
    let mut k: usize = n;
    while k > 0
        invariant
            k <= n,
            tmp@.len() == n,
            out@ == out0 + tmp@.reverse().take(n - k),
        decreases k,
    {
        k -= 1;
        out.push(tmp[k]);
        assert(out@ =~= out0 + tmp@.reverse().take(n - k));
    }
    assert(tmp@.reverse().take(n as int) =~= tmp@.reverse());
}

/// The snapshot file of `body` taken at `timestamp_ns`: the header, then the body.
pub fn frame(timestamp_ns: u64, body: &[u8]) -> (file: Vec<u8>)
    ensures
        file@ == spec_header(timestamp_ns) + body@,
{
    let mut out: Vec<u8> = Vec::new();
    out.push(79);
    out.push(66);
    out.push(83);
    out.push(78);
    out.push(65);
    out.push(80);
    out.push(0);
    out.push(0);
    assert(out@ =~= spec_magic());
    put_be(&mut out, VERSION as u64, 4);
    put_be(&mut out, timestamp_ns, 8);
    let ghost head = out@;
    let mut i: usize = 0;
    assert(out@ =~= head + body@.take(0));
    while i < body.len()
        invariant
            i <= body@.len(),
            out@ == head + body@.take(i as int),
        decreases body@.len() - i,
    {
        out.push(body[i]);
        i += 1;
        assert(out@ =~= head + body@.take(i as int));
    }
    assert(body@.take(i as int) =~= body@);
    out
}

/// Judges the start of a snapshot file. The body starts after `HEADER_LEN` bytes.
pub fn parse(file: &[u8]) -> (r: Result<u64, SnapshotError>)
    ensures
        r == spec_parse(file@),
{
    if file.len() < HEADER_LEN {
        return Err(SnapshotError::TooSmall);
    }
    let magic_ok = file[0] == 79 && file[1] == 66 && file[2] == 83 && file[3] == 78 && file[4] == 65
        && file[5] == 80 && file[6] == 0 && file[7] == 0;
    proof {
        let m = file@.subrange(0, 8);
        if magic_ok {
            assert(m =~= spec_magic());
        } else {
            assert(m[0] == file@[0] && m[1] == file@[1] && m[2] == file@[2] && m[3] == file@[3] && m[4]
                == file@[4] && m[5] == file@[5] && m[6] == file@[6] && m[7] == file@[7]);
        }
    }
    if !magic_ok {
        return Err(SnapshotError::BadMagic);
    }
    let ver = be_u32_at(file, 8);
    if ver != VERSION {
        return Err(SnapshotError::UnsupportedVersion(ver));
    }
    Ok(be_u64_at(file, 12))
}

} // verus!
