//! The chunk locator: a left-to-right scan of the chunk sequence that counts
//! occurrences per type tag, and the read pass built on it.

use vstd::prelude::*;
use crate::bytes::{copy_range, bytes_eq, check_signature, has_signature};
use crate::chunk::{Chunk, ChunkV, chunk_at, chunk_end, chunk_enc, decode_chunk, is_iend,
    iend_tag, lemma_chunk_at_enc, parse_ok_at};
use crate::error::PngError;

verus! {

/// The chunk sequence read from `i` on, with the position where the scan
/// stopped: it stops after a chunk of type `IEND`, or when the cursor reaches
/// the end of the stream, whichever comes first.  `None` means some chunk was
/// truncated before that point.
pub open spec fn scan_from(s: Seq<u8>, i: int) -> Option<(Seq<ChunkV>, int)>
    recommends
        0 <= i <= s.len(),
    decreases s.len() - i,
{
    if i >= s.len() {
        Some((Seq::empty(), i))
    } else if !parse_ok_at(s, i) {
        None
    } else {
        let c = chunk_at(s, i);
        let end = chunk_end(s, i);
        if is_iend(c) {
            Some((seq![c], end))
        } else {
            match scan_from(s, end) {
                None => None,
                Some(rest) => Some((seq![c] + rest.0, rest.1)),
            }
        }
    }
}

pub open spec fn scan_ok(s: Seq<u8>, i: int) -> bool {
    scan_from(s, i) is Some
}

pub open spec fn scan_chunks(s: Seq<u8>, i: int) -> Seq<ChunkV>
    recommends
        scan_ok(s, i),
{
    scan_from(s, i)->Some_0.0
}

/// Where the scan stopped; the bytes from here to the end of the stream are
/// trailing data, reported but not part of any chunk.
pub open spec fn scan_end(s: Seq<u8>, i: int) -> int
    recommends
        scan_ok(s, i),
{
    scan_from(s, i)->Some_0.1
}

/// How many of the first `n` chunks carry the tag `t`.
pub open spec fn count_upto(cs: Seq<ChunkV>, t: Seq<u8>, n: int) -> int
    decreases n,
{
    if n <= 0 {
        0
    } else {
        count_upto(cs, t, n - 1) + if cs[n - 1].ctype == t {
            1int
        } else {
            0int
        }
    }
}

/// The 1-based occurrence count the locator reports for the chunk at `j`: how
/// many chunks of the same tag have been seen up to and including it.
pub open spec fn occurrence_of(cs: Seq<ChunkV>, j: int) -> int {
    count_upto(cs, cs[j].ctype, j) + 1
}

/// The chunk at `j` is the one addressed by `(t, pos)`: it carries tag `t`
/// and is the `pos`-th such chunk, 1-based.
pub open spec fn is_hit(cs: Seq<ChunkV>, t: Seq<u8>, pos: int, j: int) -> bool {
    cs[j].ctype == t && count_upto(cs, t, j) + 1 == pos
}

/// Some chunk is addressed by `(t, pos)`.
pub open spec fn has_hit(cs: Seq<ChunkV>, t: Seq<u8>, pos: int) -> bool {
    exists|j: int| 0 <= j < cs.len() && is_hit(cs, t, pos, j)
}

/// Counting only looks at the chunks before `n`, so any sequence that agrees
/// there counts the same.
pub proof fn lemma_count_upto_agree(cs1: Seq<ChunkV>, cs2: Seq<ChunkV>, t: Seq<u8>, n: int)
    requires
        n <= cs1.len(),
        n <= cs2.len(),
        forall|k: int| 0 <= k < n ==> cs1[k] == cs2[k],
    ensures
        count_upto(cs1, t, n) == count_upto(cs2, t, n),
    decreases n,
{
    if n > 0 {
        lemma_count_upto_agree(cs1, cs2, t, n - 1);
    }
}

pub proof fn lemma_count_upto_le(cs: Seq<ChunkV>, t: Seq<u8>, n1: int, n2: int)
    requires
        n1 <= n2,
    ensures
        count_upto(cs, t, n1) <= count_upto(cs, t, n2),
    decreases n2 - n1,
{
    if n1 < n2 {
        lemma_count_upto_le(cs, t, n1, n2 - 1);
    }
}

/// The count strictly grows past a chunk that carries the tag.
pub proof fn lemma_count_upto_strict(cs: Seq<ChunkV>, t: Seq<u8>, j1: int, j2: int)
    requires
        0 <= j1 < j2,
        cs[j1].ctype == t,
    ensures
        count_upto(cs, t, j1) < count_upto(cs, t, j2),
{
    assert(count_upto(cs, t, j1 + 1) == count_upto(cs, t, j1) + 1);
    lemma_count_upto_le(cs, t, j1 + 1, j2);
}

/// At most one chunk is addressed by `(t, pos)`.
pub proof fn lemma_hit_unique(cs: Seq<ChunkV>, t: Seq<u8>, pos: int, j1: int, j2: int)
    requires
        0 <= j1 < cs.len(),
        0 <= j2 < cs.len(),
        is_hit(cs, t, pos, j1),
        is_hit(cs, t, pos, j2),
    ensures
        j1 == j2,
{
    if j1 < j2 {
        lemma_count_upto_strict(cs, t, j1, j2);
    }
    if j2 < j1 {
        lemma_count_upto_strict(cs, t, j2, j1);
    }
}

/// The encodings of a chunk sequence, concatenated in order.
pub open spec fn concat_enc(cs: Seq<ChunkV>) -> Seq<u8>
    decreases cs.len(),
{
    if cs.len() == 0 {
        Seq::empty()
    } else {
        concat_enc(cs.drop_last()) + chunk_enc(cs.last())
    }
}

pub proof fn lemma_concat_enc_push(cs: Seq<ChunkV>, c: ChunkV)
    ensures
        concat_enc(cs.push(c)) == concat_enc(cs) + chunk_enc(c),
{
    assert(cs.push(c).drop_last() =~= cs);
    assert(cs.push(c).last() == c);
}

pub proof fn lemma_concat_enc_cons(c: ChunkV, cs: Seq<ChunkV>)
    ensures
        concat_enc(seq![c] + cs) == chunk_enc(c) + concat_enc(cs),
    decreases cs.len(),
{
    let a = chunk_enc(c);
    if cs.len() == 0 {
        reveal_with_fuel(concat_enc, 3);
        assert((seq![c] + cs) =~= seq![c]);
        assert(seq![c].drop_last() =~= Seq::<ChunkV>::empty());
        assert(seq![c].last() == c);
        assert(Seq::<u8>::empty() + a =~= a);
        assert(a + Seq::<u8>::empty() =~= a);
    } else {
        let s = seq![c] + cs;
        let b = concat_enc(cs.drop_last());
        let d = chunk_enc(cs.last());
        assert(s.drop_last() =~= seq![c] + cs.drop_last());
        assert(s.last() == cs.last());
        lemma_concat_enc_cons(c, cs.drop_last());
        assert(concat_enc(s) == (a + b) + d);
        assert((a + b) + d =~= a + (b + d));
    }
}

/// The scanned chunks re-encode to exactly the bytes they were read from.
pub proof fn lemma_scan_reconstruct(s: Seq<u8>, i: int)
    requires
        0 <= i <= s.len(),
        scan_ok(s, i),
    ensures
        i <= scan_end(s, i) <= s.len(),
        concat_enc(scan_chunks(s, i)) == s.subrange(i, scan_end(s, i)),
    decreases s.len() - i,
{
    if i >= s.len() {
        assert(concat_enc(scan_chunks(s, i)) =~= s.subrange(i, i));
    } else {
        let c = chunk_at(s, i);
        let end = chunk_end(s, i);
        lemma_chunk_at_enc(s, i);
        if is_iend(c) {
            assert(scan_chunks(s, i) == seq![c]);
            lemma_concat_enc_cons(c, Seq::empty());
            assert(seq![c] + Seq::<ChunkV>::empty() =~= seq![c]);
            assert(concat_enc(seq![c]) == chunk_enc(c) + concat_enc(Seq::<ChunkV>::empty()));
            assert(concat_enc(seq![c]) =~= s.subrange(i, end));
        } else {
            lemma_scan_reconstruct(s, end);
            lemma_concat_enc_cons(c, scan_chunks(s, end));
            assert(concat_enc(scan_chunks(s, i)) =~= s.subrange(i, scan_end(s, i)));
        }
    }
}

/// Tests a tag vector for the terminal `IEND` tag.
pub fn tag_is_iend(t: &Vec<u8>) -> (r: bool)
    ensures
        r == (t@ == iend_tag()),
{
    let r = t.len() == 4 && t[0] == 0x49 && t[1] == 0x45 && t[2] == 0x4e && t[3] == 0x44;
    proof {
        if r {
            assert(t@ =~= iend_tag());
        }
    }
    r
}

/// One visited chunk as the read pass reports it: the decoded chunk and its
/// 1-based occurrence count among chunks of the same tag so far.
pub struct ChunkRecord {
    pub chunk: Chunk,
    pub count: usize,
}

/// The mathematical image of a record.
pub ghost struct ChunkRecordV {
    pub chunk: ChunkV,
    pub count: int,
}

impl View for ChunkRecord {
    type V = ChunkRecordV;

    open spec fn view(&self) -> ChunkRecordV {
        ChunkRecordV { chunk: self.chunk@, count: self.count as int }
    }
}

/// What a whole read pass reports: every visited chunk with its occurrence
/// count, and any anomalous bytes found beyond the last recognized chunk.
pub struct ScanReport {
    pub records: Vec<ChunkRecord>,
    pub trailing: Vec<u8>,
}

/// A report is exactly the scan of `s`: one record per visited chunk, in
/// order, each carrying its occurrence count, and the trailing bytes beyond
/// the point where the scan stopped.
pub open spec fn report_ok(s: Seq<u8>, records: Seq<ChunkRecordV>, trailing: Seq<u8>) -> bool {
    &&& scan_ok(s, 8)
    &&& records.len() == scan_chunks(s, 8).len()
    &&& forall|j: int|
        0 <= j < records.len() ==> records[j].chunk == scan_chunks(s, 8)[j]
            && #[trigger] records[j].count == occurrence_of(scan_chunks(s, 8), j)
    &&& trailing == s.subrange(scan_end(s, 8), s.len() as int)
}

/// The report is a function of the bytes scanned: two read passes over the
/// same unmodified stream report identical metadata.
pub proof fn lemma_report_deterministic(
    s: Seq<u8>,
    records1: Seq<ChunkRecordV>,
    trailing1: Seq<u8>,
    records2: Seq<ChunkRecordV>,
    trailing2: Seq<u8>,
)
    requires
        report_ok(s, records1, trailing1),
        report_ok(s, records2, trailing2),
    ensures
        records1 == records2,
        trailing1 == trailing2,
{
    assert forall|j: int| 0 <= j < records1.len() implies records1[j] == records2[j] by {
        assert(records1[j].count == occurrence_of(scan_chunks(s, 8), j));
        assert(records2[j].count == occurrence_of(scan_chunks(s, 8), j));
    }
    assert(records1 =~= records2);
}

/// The read pass: validates the signature, then scans chunk by chunk,
/// counting occurrences per tag, until `IEND` or end-of-stream; the bytes
/// beyond that point are reported as trailing data.
pub fn read_chunks(file: &Vec<u8>) -> (r: Result<ScanReport, PngError>)
    ensures
        match r {
            Ok(rep) => has_signature(file@) && report_ok(file@, rep.records@.map_values(|x: ChunkRecord| x@), rep.trailing@),
            Err(e) => (e == PngError::NotAPngFile && !has_signature(file@)) || (e
                == PngError::TruncatedChunk && has_signature(file@) && !scan_ok(file@, 8)),
        },
        r is Err <==> !has_signature(file@) || !scan_ok(file@, 8),
{
    if !check_signature(file) {
        return Err(PngError::NotAPngFile);
    }
    let n = file.len();
    let mut records: Vec<ChunkRecord> = Vec::new();
    let ghost mut done: Seq<ChunkV> = Seq::empty();
    let mut cursor: usize = 8;
    let mut stopped = false;
    while !stopped && cursor < n
        invariant
            n == file@.len(),
            has_signature(file@),
            8 <= cursor <= n,
            records@.len() == done.len(),
            done.len() * 12 + 8 <= cursor,
            forall|j: int|
                0 <= j < done.len() ==> (#[trigger] records@[j]).chunk@ == done[j]
                    && records@[j].count == count_upto(done, done[j].ctype, j) + 1,
            !stopped ==> forall|j: int| 0 <= j < done.len() ==> !is_iend(#[trigger] done[j]),
            !stopped ==> match scan_from(file@, cursor as int) {
                Some(rest) => scan_from(file@, 8) == Some::<(Seq<ChunkV>, int)>(
                    (done + rest.0, rest.1),
                ),
                None => scan_from(file@, 8) is None,
            },
            stopped ==> scan_from(file@, 8) == Some::<(Seq<ChunkV>, int)>((done, cursor as int)),
        decreases n - cursor,
    {
        let c: Chunk;
        let end: usize;
        match decode_chunk(file, cursor) {
            Err(_) => {
                return Err(PngError::TruncatedChunk);
            },
            Ok(p) => {
                c = p.0;
                end = p.1;
            },
        }
        let is_end = tag_is_iend(&c.ctype);
        let mut cnt: usize = 1;
        let mut k: usize = 0;
        let n_rec = records.len();
        while k < n_rec
            invariant
                k <= n_rec,
                n_rec == records@.len() == done.len(),
                n_rec * 12 + 8 <= n,
                forall|j: int|
                    0 <= j < done.len() ==> (#[trigger] records@[j]).chunk@ == done[j],
                cnt == count_upto(done, c@.ctype, k as int) + 1,
                cnt <= k + 1,
            decreases n_rec - k,
        {
            if bytes_eq(&records[k].chunk.ctype, &c.ctype) {
                cnt = cnt + 1;
            }
            k = k + 1;
        }
        proof {
            lemma_count_upto_agree(done.push(c@), done, c@.ctype, done.len() as int);
            assert forall|j: int| 0 <= j < done.len() implies count_upto(
                done.push(c@),
                done.push(c@)[j].ctype,
                j,
            ) == count_upto(done, done[j].ctype, j) by {
                lemma_count_upto_agree(done.push(c@), done, done[j].ctype, j);
            }
        }
        records.push(ChunkRecord { chunk: c, count: cnt });
        proof {
            let cv = chunk_at(file@, cursor as int);
            if is_end {
                assert(scan_from(file@, cursor as int) == Some::<(Seq<ChunkV>, int)>(
                    (seq![cv], end as int),
                ));
                assert(done + seq![cv] =~= done.push(cv));
            } else {
                assert(scan_from(file@, cursor as int) == (match scan_from(file@, end as int) {
                    None => None::<(Seq<ChunkV>, int)>,
                    Some(rest) => Some((seq![cv] + rest.0, rest.1)),
                }));
                if scan_from(file@, end as int) is Some {
                    let rest = scan_from(file@, end as int)->Some_0;
                    assert(done + (seq![cv] + rest.0) =~= done.push(cv) + rest.0);
                }
            }
            done = done.push(c@);
        }
        stopped = is_end;
        cursor = end;
    }
    proof {
        if !stopped {
            assert(scan_from(file@, cursor as int) == Some::<(Seq<ChunkV>, int)>(
                (Seq::empty(), cursor as int),
            ));
            assert(done + Seq::<ChunkV>::empty() =~= done);
        }
    }
    let mut trailing: Vec<u8> = Vec::new();
    copy_range(file, cursor, n, &mut trailing);
    let rep = ScanReport { records, trailing };
    proof {
        let cs = scan_chunks(file@, 8);
        assert(cs == done);
        let mapped = rep.records@.map_values(|x: ChunkRecord| x@);
        assert forall|j: int| 0 <= j < mapped.len() implies #[trigger] mapped[j].chunk == cs[j]
            && mapped[j].count == occurrence_of(cs, j) by {
            assert(records@[j].chunk@ == done[j]);
        }
    }
    Ok(rep)
}

} // verus!
