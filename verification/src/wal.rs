//! The write-ahead log's byte format: each record is its payload prefixed
//! by the payload's length as a little-endian `u32`.
use vstd::prelude::*;
use vstd::bytes::{spec_u32_from_le_bytes, spec_u32_to_le_bytes, u32_from_le_bytes, u32_to_le_bytes};

verus! {

/// Why the log could not be read.
#[derive(Debug, Clone, Copy, PartialEq, Eq, Structural)]
pub enum FrameError {
    /// The replay offset lies past the end of the log.
    StartPastEnd,
    /// A record's length prefix promises more bytes than the log holds.
    Truncated,
}

/// One record as stored: length prefix, then payload.
pub open spec fn frame(p: Seq<u8>) -> Seq<u8> {
    spec_u32_to_le_bytes(p.len() as u32) + p
}

/// Records stored one after another.
pub open spec fn frames(ps: Seq<Seq<u8>>) -> Seq<u8>
    decreases ps.len(),
{
    if ps.len() == 0 {
        seq![]
    } else {
        frame(ps[0]) + frames(ps.drop_first())
    }
}

/// Reading records: fewer than four bytes left ends the log (a partial
/// prefix is ignored); a length prefix that runs past the end is an error.
pub open spec fn parse_frames(b: Seq<u8>) -> Result<Seq<Seq<u8>>, FrameError>
    decreases b.len(),
{
    if b.len() < 4 {
        Ok(seq![])
    } else {
        let n = spec_u32_from_le_bytes(b.subrange(0, 4)) as int;
        if b.len() - 4 < n {
            Err(FrameError::Truncated)
        } else {
            match parse_frames(b.subrange(4 + n, b.len() as int)) {
                Ok(r) => Ok(seq![b.subrange(4, 4 + n)] + r),
                Err(e) => Err(e),
            }
        }
    }
}

/// Reading the records stored from byte offset `start` on.
pub open spec fn parse_from(b: Seq<u8>, start: int) -> Result<Seq<Seq<u8>>, FrameError> {
    if start > b.len() {
        Err(FrameError::StartPastEnd)
    } else {
        parse_frames(b.subrange(start, b.len() as int))
    }
}

pub open spec fn payloads_fit(ps: Seq<Seq<u8>>) -> bool {
    forall|i: int| 0 <= i < ps.len() ==> (#[trigger] ps[i]).len() <= u32::MAX
}

pub open spec fn vec_views(s: Seq<Vec<u8>>) -> Seq<Seq<u8>> {
    s.map_values(|v: Vec<u8>| v@)
}

/// Reading back what was written gives the written payloads, in order.
pub proof fn law_frames_roundtrip(ps: Seq<Seq<u8>>)
    requires
        payloads_fit(ps),
    ensures
        parse_frames(frames(ps)) == Ok::<Seq<Seq<u8>>, FrameError>(ps),
    decreases ps.len(),
{
    vstd::bytes::lemma_auto_spec_u32_to_from_le_bytes();
    if ps.len() == 0 {
        assert(ps =~= Seq::<Seq<u8>>::empty());
    } else {
        let p = ps[0];
        let rest = ps.drop_first();
        assert(payloads_fit(rest)) by {
            assert forall|i: int| 0 <= i < rest.len() implies (#[trigger] rest[i]).len() <= u32::MAX by {
                assert(rest[i] == ps[i + 1]);
            }
        }
        law_frames_roundtrip(rest);
        let b = frames(ps);
        let hdr = spec_u32_to_le_bytes(p.len() as u32);
        assert(b == hdr + p + frames(rest));
        assert(hdr.len() == 4);
        assert(b.len() == 4 + p.len() + frames(rest).len());
        assert(b.subrange(0, 4) =~= hdr);
        assert(spec_u32_from_le_bytes(hdr) == p.len() as u32);
        let n = p.len() as int;
        assert(b.subrange(4, 4 + n) =~= p);
        assert(b.subrange(4 + n, b.len() as int) =~= frames(rest));
        assert(seq![p] + rest =~= ps);
        assert(parse_frames(b) == Ok::<Seq<Seq<u8>>, FrameError>(seq![p] + rest));
    }
}

proof fn lemma_frames_append(a: Seq<Seq<u8>>, b: Seq<Seq<u8>>)
    ensures
        frames(a + b) == frames(a) + frames(b),
    decreases a.len(),
{
    if a.len() == 0 {
        assert(a + b =~= b);
        assert(frames(a) + frames(b) =~= frames(b));
    } else {
        assert((a + b).drop_first() =~= a.drop_first() + b);
        lemma_frames_append(a.drop_first(), b);
        assert(frames(a + b) =~= frames(a) + frames(b));
    }
}

/// Replaying from the log length recorded at some point gives exactly the
/// records appended after that point.
pub proof fn law_replay_from_offset(before: Seq<Seq<u8>>, after: Seq<Seq<u8>>)
    requires
        payloads_fit(after),
    ensures
        parse_from(frames(before + after), frames(before).len() as int) == Ok::<Seq<Seq<u8>>, FrameError>(after),
{
    lemma_frames_append(before, after);
    let all = frames(before) + frames(after);
    assert(all.subrange(frames(before).len() as int, all.len() as int) =~= frames(after));
    law_frames_roundtrip(after);
}

/// Stores one record.
pub fn frame_record(payload: &[u8]) -> (res: Vec<u8>)
    requires
        payload@.len() <= u32::MAX,
    ensures
        res@ == frame(payload@),
{
    let mut out = u32_to_le_bytes(payload.len() as u32);
    let mut i: usize = 0;
    let ghost hdr = out@;
    while i < payload.len()
        invariant
            i <= payload@.len(),
            out@ == hdr + payload@.subrange(0, i as int),
        decreases payload@.len() - i,
    {
        out.push(payload[i]);
        i = i + 1;
        assert(out@ =~= hdr + payload@.subrange(0, i as int));
    }
    assert(payload@.subrange(0, payload@.len() as int) =~= payload@);
    out
}

fn copy_range(b: &[u8], lo: usize, hi: usize) -> (res: Vec<u8>)
    requires
        lo <= hi <= b@.len(),
    ensures
        res@ == b@.subrange(lo as int, hi as int),
{
    let mut out: Vec<u8> = Vec::new();
    let mut i = lo;
    while i < hi
        invariant
            lo <= i <= hi,
            hi <= b@.len(),
            out@ == b@.subrange(lo as int, i as int),
        decreases hi - i,
    {
        out.push(b[i]);
        i = i + 1;
        assert(out@ =~= b@.subrange(lo as int, i as int));
    }
    out
}

/// Reads the records stored from byte offset `start` on.
pub fn parse_records(bytes: &[u8], start: u64) -> (res: Result<Vec<Vec<u8>>, FrameError>)
    ensures
        match parse_from(bytes@, start as int) {
            Ok(ps) => res matches Ok(v) && vec_views(v@) == ps,
            Err(e) => res == Err::<Vec<Vec<u8>>, FrameError>(e),
        },
{
    if start > bytes.len() as u64 {
        return Err(FrameError::StartPastEnd);
    }
    let ghost all = bytes@.subrange(start as int, bytes@.len() as int);
    let mut pos: usize = start as usize;
    let mut out: Vec<Vec<u8>> = Vec::new();
    let n = bytes.len();
    loop
        invariant
            start as int <= pos <= n,
            n == bytes@.len(),
            all == bytes@.subrange(start as int, n as int),
            parse_frames(all) == match parse_frames(bytes@.subrange(pos as int, n as int)) {
                Ok(r) => Ok(vec_views(out@) + r),
                Err(e) => Err(e),
            },
        decreases n - pos,
    {
        let ghost cur = bytes@.subrange(pos as int, n as int);
        if n - pos < 4 {
            assert(vec_views(out@) + Seq::<Seq<u8>>::empty() =~= vec_views(out@));
            return Ok(out);
        }
        let hdr = copy_range(bytes, pos, pos + 4);
        assert(hdr@ =~= cur.subrange(0, 4));
        let len = u32_from_le_bytes(hdr.as_slice()) as usize;
        if n - pos - 4 < len {
            return Err(FrameError::Truncated);
        }
        let rec = copy_range(bytes, pos + 4, pos + 4 + len);
        assert(rec@ =~= cur.subrange(4, 4 + len as int));
        assert(cur.subrange(4 + len as int, cur.len() as int) =~= bytes@.subrange(pos + 4 + len, n as int));
        let ghost before = vec_views(out@);
        out.push(rec);
        assert(vec_views(out@) =~= before.push(rec@));
        proof {
            match parse_frames(bytes@.subrange(pos + 4 + len, n as int)) {
                Ok(r) => {
                    assert(before + (seq![rec@] + r) =~= vec_views(out@) + r);
                },
                Err(e) => {},
            }
        }
        pos = pos + 4 + len;
    }
}

} // verus!
