//! The snapshot file format: the magic bytes `CHS2`, the write-ahead log's
//! length at snapshot time as a little-endian `u64`, then the serialized
//! book states compressed with zstd.
use vstd::prelude::*;
use vstd::bytes::{spec_u64_from_le_bytes, spec_u64_to_le_bytes, u64_from_le_bytes, u64_to_le_bytes};

verus! {

#[verifier::external_type_specification]
#[verifier::external_body]
pub struct ExIoError(std::io::Error);

/// Why a snapshot could not be written or read.
#[derive(Debug, Clone, Copy, PartialEq, Eq, Structural)]
pub enum SnapshotError {
    /// The file ends inside its header.
    Truncated,
    /// Compression failed.
    Compress,
    /// The payload is not valid zstd data.
    Decompress,
}

/// The zstd level snapshots are written with.
pub const SNAPSHOT_LEVEL: i32 = 3;

/// The four magic bytes `CHS2`.
pub open spec fn magic() -> Seq<u8> {
    seq![0x43u8, 0x48u8, 0x53u8, 0x32u8]
}

/// What zstd produces for `data` at compression level `level`.
pub uninterp spec fn zstd_compressed(data: Seq<u8>, level: i32) -> Seq<u8>;

/// What zstd decodes `data` to, or `None` when `data` is not valid zstd data.
pub uninterp spec fn zstd_decompressed(data: Seq<u8>) -> Option<Seq<u8>>;

/// Calls `zstd::encode_all` on the bytes. When it succeeds the result is the
/// (deterministic) zstd encoding of the input at that level, and zstd
/// decodes it back to the input (zstd is lossless); nothing is claimed
/// about when it fails.
#[verifier::external_body]
fn zstd_encode(data: &[u8], level: i32) -> (res: Result<Vec<u8>, std::io::Error>)
    ensures
        res matches Ok(v) ==> v@ == zstd_compressed(data@, level),
        res matches Ok(v) ==> zstd_decompressed(v@) == Some(data@),
{
    zstd::encode_all(data, level)
}

/// Calls `zstd::decode_all` on the bytes. It fails exactly when the input is
/// not valid zstd data, and otherwise gives its decoding.
#[verifier::external_body]
fn zstd_decode(data: &[u8]) -> (res: Result<Vec<u8>, std::io::Error>)
    ensures
        res is Ok <==> zstd_decompressed(data@) is Some,
        res matches Ok(v) ==> zstd_decompressed(data@) == Some(v@),
{
    zstd::decode_all(data)
}

/// A snapshot file's bytes.
pub open spec fn snapshot_image(wal_end_offset: u64, compressed: Seq<u8>) -> Seq<u8> {
    magic() + spec_u64_to_le_bytes(wal_end_offset) + compressed
}

/// Reading a snapshot file: files without the magic bytes are ignored
/// (`None`), as are legacy snapshots.
pub open spec fn decode_spec(b: Seq<u8>) -> Result<Option<(u64, Seq<u8>)>, SnapshotError> {
    if b.len() < 4 {
        Err(SnapshotError::Truncated)
    } else if b.subrange(0, 4) != magic() {
        Ok(None)
    } else if b.len() < 12 {
        Err(SnapshotError::Truncated)
    } else {
        match zstd_decompressed(b.subrange(12, b.len() as int)) {
            Some(s) => Ok(Some((spec_u64_from_le_bytes(b.subrange(4, 12)), s))),
            None => Err(SnapshotError::Decompress),
        }
    }
}

fn push_all(out: &mut Vec<u8>, b: &[u8])
    ensures
        final(out)@ == old(out)@ + b@,
{
    let mut i: usize = 0;
    let ghost base = out@;
    while i < b.len()
        invariant
            i <= b@.len(),
            out@ == base + b@.subrange(0, i as int),
        decreases b@.len() - i,
    {
        out.push(b[i]);
        i = i + 1;
        assert(out@ =~= base + b@.subrange(0, i as int));
    }
    assert(b@.subrange(0, b@.len() as int) =~= b@);
}

/// Builds a snapshot file from the log length and the serialized states;
/// reading it back gives that offset and those states.
pub fn encode_snapshot(wal_end_offset: u64, state: &[u8]) -> (res: Result<Vec<u8>, SnapshotError>)
    ensures
        match res {
            Ok(b) => b@ == snapshot_image(wal_end_offset, zstd_compressed(state@, SNAPSHOT_LEVEL)),
            Err(e) => e == SnapshotError::Compress,
        },
        res matches Ok(b) ==> decode_spec(b@) == Ok::<Option<(u64, Seq<u8>)>, SnapshotError>(
            Some((wal_end_offset, state@)),
        ),
{
    let compressed = match zstd_encode(state, SNAPSHOT_LEVEL) {
        Ok(c) => c,
        Err(_) => {
            return Err(SnapshotError::Compress);
        },
    };
    let mut out: Vec<u8> = vec![0x43u8, 0x48u8, 0x53u8, 0x32u8];
    let off = u64_to_le_bytes(wal_end_offset);
    push_all(&mut out, off.as_slice());
    push_all(&mut out, compressed.as_slice());
    assert(out@ =~= snapshot_image(wal_end_offset, zstd_compressed(state@, SNAPSHOT_LEVEL)));
    proof {
        vstd::bytes::lemma_auto_spec_u64_to_from_le_bytes();
        let img = out@;
        assert(img.subrange(0, 4) =~= magic());
        assert(img.subrange(4, 12) =~= spec_u64_to_le_bytes(wal_end_offset));
        assert(img.subrange(12, img.len() as int) =~= compressed@);
    }
    Ok(out)
}

fn copy_from(b: &[u8], lo: usize) -> (res: Vec<u8>)
    requires
        lo <= b@.len(),
    ensures
        res@ == b@.subrange(lo as int, b@.len() as int),
{
    let mut out: Vec<u8> = Vec::new();
    let mut i = lo;
    while i < b.len()
        invariant
            lo <= i <= b@.len(),
            out@ == b@.subrange(lo as int, i as int),
        decreases b@.len() - i,
    {
        out.push(b[i]);
        i = i + 1;
        assert(out@ =~= b@.subrange(lo as int, i as int));
    }
    out
}

/// Reads a snapshot file: the log offset to replay from and the serialized states.
pub fn decode_snapshot(bytes: &[u8]) -> (res: Result<Option<(u64, Vec<u8>)>, SnapshotError>)
    ensures
        match decode_spec(bytes@) {
            Ok(Some((off, s))) => res matches Ok(Some((o, v))) && o == off && v@ == s,
            Ok(None) => res matches Ok(None),
            Err(e) => res == Err::<Option<(u64, Vec<u8>)>, SnapshotError>(e),
        },
{
    proof {
        vstd::bytes::lemma_auto_spec_u64_to_from_le_bytes();
    }
    if bytes.len() < 4 {
        return Err(SnapshotError::Truncated);
    }
    let is_magic = bytes[0] == 0x43u8 && bytes[1] == 0x48u8 && bytes[2] == 0x53u8 && bytes[3] == 0x32u8;
    assert(is_magic <==> bytes@.subrange(0, 4) == magic()) by {
        if bytes@.subrange(0, 4) == magic() {
            assert(bytes@[0] == bytes@.subrange(0, 4)[0]);
            assert(bytes@[1] == bytes@.subrange(0, 4)[1]);
            assert(bytes@[2] == bytes@.subrange(0, 4)[2]);
            assert(bytes@[3] == bytes@.subrange(0, 4)[3]);
        }
        if is_magic {
            assert(bytes@.subrange(0, 4) =~= magic());
        }
    }
    if !is_magic {
        return Ok(None);
    }
    if bytes.len() < 12 {
        return Err(SnapshotError::Truncated);
    }
    let hdr: Vec<u8> = vec![bytes[4], bytes[5], bytes[6], bytes[7], bytes[8], bytes[9], bytes[10], bytes[11]];
    assert(hdr@ =~= bytes@.subrange(4, 12));
    let off = u64_from_le_bytes(hdr.as_slice());
    let rest = copy_from(bytes, 12);
    match zstd_decode(rest.as_slice()) {
        Ok(v) => Ok(Some((off, v))),
        Err(_) => Err(SnapshotError::Decompress),
    }
}

/// Where the latest snapshot of a data directory is kept, and how it is
/// written and read back.
pub struct Snapshotter {
    /// The snapshot directory.
    pub dir: String,
}

impl Snapshotter {
    pub fn new(dir: String) -> (s: Self)
        ensures
            s.dir@ == dir@,
    {
        Snapshotter { dir }
    }

    /// The bytes of the snapshot file for these serialized book states,
    /// taken when the log was `wal_end_offset` bytes long.
    pub fn write_all(&self, state: &[u8], wal_end_offset: u64) -> (res: Result<Vec<u8>, SnapshotError>)
        ensures
            match res {
                Ok(b) => b@ == snapshot_image(wal_end_offset, zstd_compressed(state@, SNAPSHOT_LEVEL)),
                Err(e) => e == SnapshotError::Compress,
            },
            res matches Ok(b) ==> decode_spec(b@) == Ok::<Option<(u64, Seq<u8>)>, SnapshotError>(
                Some((wal_end_offset, state@)),
            ),
    {
        encode_snapshot(wal_end_offset, state)
    }

    /// Reads the latest snapshot file (`None` when there is none): the
    /// serialized book states and the log offset to replay from. Files
    /// without the magic bytes are ignored.
    pub fn try_read_latest(&self, file: Option<Vec<u8>>) -> (res: Result<Option<(Vec<u8>, u64)>, SnapshotError>)
        ensures
            match file {
                None => res matches Ok(None),
                Some(bytes) => match decode_spec(bytes@) {
                    Ok(Some((off, st))) => res matches Ok(Some((v, o))) && o == off && v@ == st,
                    Ok(None) => res matches Ok(None),
                    Err(e) => res == Err::<Option<(Vec<u8>, u64)>, SnapshotError>(e),
                },
            },
    {
        match file {
            None => Ok(None),
            Some(bytes) => match decode_snapshot(bytes.as_slice()) {
                Ok(Some((off, st))) => Ok(Some((st, off))),
                Ok(None) => Ok(None),
                Err(e) => Err(e),
            },
        }
    }
}

} // verus!
