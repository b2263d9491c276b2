//! The mutation pipeline: a single sequential pass that copies, replaces,
//! skips or inserts chunks while reproducing every other byte unchanged.

use vstd::prelude::*;
use crate::bytes::{append_bytes, bytes_eq, check_signature, copy_range, has_signature,
    png_signature, push_be_u32};
use crate::chunk::{built_chunk, Chunk, ChunkV, chunk_enc, chunk_wf, decode_chunk, encode_chunk,
    is_iend};
use crate::error::{MissingKind, PngError};
use crate::params::{PngParser, WorkMode};
use crate::scan::{ChunkRecord, concat_enc, count_upto, has_hit, is_hit, lemma_concat_enc_push,
    lemma_count_upto_agree, lemma_count_upto_strict, lemma_hit_unique, lemma_scan_reconstruct,
    read_chunks, report_ok, scan_chunks, scan_end, scan_from, scan_ok, ScanReport, tag_is_iend};

verus! {

/// What one chunk contributes to a rewritten stream: the chunk addressed by
/// `(t, pos)` is replaced (or, with no replacement, omitted); every other
/// chunk is reproduced from its decoded fields, stored CRC included, which is
/// byte-for-byte what it was read from.
pub open spec fn chunk_out(c: ChunkV, t: Seq<u8>, pos: int, occ: int, repl: Option<ChunkV>) -> Seq<
    u8,
> {
    if c.ctype == t && occ == pos {
        match repl {
            Some(r) => chunk_enc(r),
            None => Seq::empty(),
        }
    } else {
        chunk_enc(c)
    }
}

/// The rewritten chunk stream: each chunk's contribution in order, where the
/// occurrence count of the chunk at `j` is how many chunks of tag `t` stand
/// at or before it.
pub open spec fn rewrite_out(cs: Seq<ChunkV>, t: Seq<u8>, pos: int, repl: Option<ChunkV>) -> Seq<
    u8,
>
    decreases cs.len(),
{
    if cs.len() == 0 {
        Seq::empty()
    } else {
        rewrite_out(cs.drop_last(), t, pos, repl) + chunk_out(
            cs.last(),
            t,
            pos,
            count_upto(cs, t, cs.len() - 1) + 1,
            repl,
        )
    }
}

pub proof fn lemma_rewrite_out_push(
    cs: Seq<ChunkV>,
    c: ChunkV,
    t: Seq<u8>,
    pos: int,
    repl: Option<ChunkV>,
)
    ensures
        rewrite_out(cs.push(c), t, pos, repl) == rewrite_out(cs, t, pos, repl) + chunk_out(
            c,
            t,
            pos,
            count_upto(cs, t, cs.len() as int) + 1,
            repl,
        ),
{
    let cs2 = cs.push(c);
    assert(cs2.drop_last() =~= cs);
    assert(cs2.last() == c);
    lemma_count_upto_agree(cs2, cs, t, cs.len() as int);
}

/// When no chunk is addressed by `(t, pos)`, rewriting changes nothing: the
/// stream is the chunks' own encodings.
pub proof fn lemma_rewrite_out_no_hit(cs: Seq<ChunkV>, t: Seq<u8>, pos: int, repl: Option<ChunkV>)
    requires
        !has_hit(cs, t, pos),
    ensures
        rewrite_out(cs, t, pos, repl) == concat_enc(cs),
    decreases cs.len(),
{
    if cs.len() > 0 {
        let n = cs.len() - 1;
        let cd = cs.drop_last();
        if cs[n].ctype == t && count_upto(cs, t, n) + 1 == pos {
            assert(is_hit(cs, t, pos, n));
            assert(false);
        }
        if has_hit(cd, t, pos) {
            let j = choose|j: int| 0 <= j < cd.len() && is_hit(cd, t, pos, j);
            lemma_count_upto_agree(cd, cs, t, j);
            assert(is_hit(cs, t, pos, j));
            assert(false);
        }
        lemma_rewrite_out_no_hit(cd, t, pos, repl);
    }
}

/// Targeting: when the chunk at `j` is the one addressed by `(t, pos)`, the
/// rewritten stream is the untouched encodings of every chunk before it, then
/// the replacement (or nothing, for a deletion), then the untouched encodings
/// of every chunk after it: exactly one chunk is replaced or omitted.
pub proof fn lemma_rewrite_out_hit(
    cs: Seq<ChunkV>,
    t: Seq<u8>,
    pos: int,
    repl: Option<ChunkV>,
    j: int,
)
    requires
        0 <= j < cs.len(),
        is_hit(cs, t, pos, j),
    ensures
        rewrite_out(cs, t, pos, repl) == concat_enc(cs.take(j)) + (match repl {
            Some(r) => chunk_enc(r),
            None => Seq::<u8>::empty(),
        }) + concat_enc(cs.skip(j + 1)),
    decreases cs.len(),
{
    let n = cs.len() - 1;
    let cd = cs.drop_last();
    let rb = (match repl {
        Some(r) => chunk_enc(r),
        None => Seq::<u8>::empty(),
    });
    if j == n {
        if has_hit(cd, t, pos) {
            let j2 = choose|j2: int| 0 <= j2 < cd.len() && is_hit(cd, t, pos, j2);
            lemma_count_upto_agree(cd, cs, t, j2);
            lemma_hit_unique(cs, t, pos, j2, j);
            assert(false);
        }
        lemma_rewrite_out_no_hit(cd, t, pos, repl);
        assert(cs.take(j) =~= cd);
        assert(cs.skip(j + 1) =~= Seq::<ChunkV>::empty());
        assert(rewrite_out(cs, t, pos, repl) == concat_enc(cd) + rb);
        assert(concat_enc(cd) + rb =~= (concat_enc(cs.take(j)) + rb) + concat_enc(
            cs.skip(j + 1),
        ));
    } else {
        assert(!is_hit(cs, t, pos, n)) by {
            if is_hit(cs, t, pos, n) {
                lemma_hit_unique(cs, t, pos, j, n);
            }
        }
        lemma_count_upto_agree(cd, cs, t, j);
        assert(is_hit(cd, t, pos, j));
        lemma_rewrite_out_hit(cd, t, pos, repl, j);
        assert(cd.take(j) =~= cs.take(j));
        assert(cs.skip(j + 1) =~= cd.skip(j + 1).push(cs.last()));
        lemma_concat_enc_push(cd.skip(j + 1), cs.last());
        assert(rewrite_out(cs, t, pos, repl) == (concat_enc(cs.take(j)) + rb + concat_enc(
            cd.skip(j + 1),
        )) + chunk_enc(cs.last()));
        assert((concat_enc(cs.take(j)) + rb + concat_enc(cd.skip(j + 1))) + chunk_enc(cs.last())
            =~= concat_enc(cs.take(j)) + rb + (concat_enc(cd.skip(j + 1)) + chunk_enc(
            cs.last(),
        )));
    }
}

/// Pushing one more chunk hits `(t, pos)` exactly when an earlier chunk did,
/// or the new chunk is the `pos`-th of tag `t`.
pub proof fn lemma_has_hit_push(cs: Seq<ChunkV>, c: ChunkV, t: Seq<u8>, pos: int)
    ensures
        has_hit(cs.push(c), t, pos) == (has_hit(cs, t, pos) || (c.ctype == t && count_upto(
            cs,
            t,
            cs.len() as int,
        ) + 1 == pos)),
{
    let cs2 = cs.push(c);
    lemma_count_upto_agree(cs2, cs, t, cs.len() as int);
    if has_hit(cs, t, pos) {
        let j = choose|j: int| 0 <= j < cs.len() && is_hit(cs, t, pos, j);
        lemma_count_upto_agree(cs2, cs, t, j);
        assert(is_hit(cs2, t, pos, j));
    }
    if c.ctype == t && count_upto(cs, t, cs.len() as int) + 1 == pos {
        assert(is_hit(cs2, t, pos, cs.len() as int));
    }
    if has_hit(cs2, t, pos) {
        let j = choose|j: int| 0 <= j < cs2.len() && is_hit(cs2, t, pos, j);
        if j < cs.len() {
            lemma_count_upto_agree(cs2, cs, t, j);
            assert(is_hit(cs, t, pos, j));
        }
    }
}

/// Once `(t, pos)` was hit, the running count has moved past `pos`: the pass
/// can never match a second chunk.
pub proof fn lemma_no_second_hit(cs: Seq<ChunkV>, t: Seq<u8>, pos: int)
    requires
        has_hit(cs, t, pos),
    ensures
        count_upto(cs, t, cs.len() as int) + 1 != pos,
{
    let j = choose|j: int| 0 <= j < cs.len() && is_hit(cs, t, pos, j);
    lemma_count_upto_strict(cs, t, j, cs.len() as int);
}

/// The payload of the replacement, if the pass replaces rather than deletes.
pub open spec fn opt_data_view(repl: Option<&Vec<u8>>) -> Option<Seq<u8>> {
    match repl {
        Some(d) => Some(d@),
        None => None,
    }
}

/// The freshly built chunk that takes the target's place, if any.
pub open spec fn repl_chunk(t: Seq<u8>, d: Option<Seq<u8>>) -> Option<ChunkV> {
    match d {
        Some(dd) => Some(built_chunk(t, dd)),
        None => None,
    }
}

/// A successful rewrite of `file` addressed at `(t, pos)`: `found` says
/// whether the target existed, the output is the signature, the rewritten
/// chunk stream and the trailing bytes, and a miss reproduces the input
/// byte for byte.
pub open spec fn rewrite_result_ok(
    file: Seq<u8>,
    t: Seq<u8>,
    pos: int,
    repl: Option<ChunkV>,
    out: Seq<u8>,
    found: bool,
) -> bool {
    &&& found == has_hit(scan_chunks(file, 8), t, pos)
    &&& out == png_signature() + rewrite_out(scan_chunks(file, 8), t, pos, repl) + file.subrange(
        scan_end(file, 8),
        file.len() as int,
    )
    &&& (!found ==> out == file)
}

/// Appends a decoded chunk back to the output exactly as it stood on disk:
/// length from its payload, its tag, its payload, its stored CRC.
fn append_chunk(out: &mut Vec<u8>, c: &Chunk)
    requires
        chunk_wf(c@),
    ensures
        final(out)@ == old(out)@ + chunk_enc(c@),
{
    push_be_u32(out, c.data.len() as u32);
    copy_range(&c.ctype, 0, c.ctype.len(), out);
    copy_range(&c.data, 0, c.data.len(), out);
    push_be_u32(out, c.crc);
    proof {
        reveal(chunk_enc);
        assert(out@ =~= old(out)@ + chunk_enc(c@));
    }
}

/// One sequential pass over `file`: every chunk is copied to the output
/// unchanged except the one addressed by `(ctype, position)`, which is
/// replaced by a freshly encoded chunk (`repl` is its payload) or omitted
/// (`repl` is `None`).  At most one chunk is touched; a miss still rebuilds
/// the whole stream faithfully.
#[verifier::rlimit(100)]
fn rewrite_file(file: &Vec<u8>, ctype: &Vec<u8>, position: u32, repl: Option<&Vec<u8>>) -> (r:
    Result<(Vec<u8>, bool), PngError>)
    requires
        ctype@.len() == 4,
        position >= 1,
        match repl {
            Some(d) => d@.len() <= 0xFFFFFFFF,
            None => true,
        },
    ensures
        r is Err <==> !has_signature(file@) || !scan_ok(file@, 8),
        r matches Err(e) ==> e == (if !has_signature(file@) {
            PngError::NotAPngFile
        } else {
            PngError::TruncatedChunk
        }),
        r matches Ok(p) ==> rewrite_result_ok(
            file@,
            ctype@,
            position as int,
            repl_chunk(ctype@, opt_data_view(repl)),
            p.0@,
            p.1,
        ),
{
    if !check_signature(file) {
        return Err(PngError::NotAPngFile);
    }
    let n = file.len();
    let ghost replv = repl_chunk(ctype@, opt_data_view(repl));
    let replacement: Option<Vec<u8>> = match repl {
        Some(d) => Some(encode_chunk(ctype, d)),
        None => None,
    };
    let mut out: Vec<u8> = Vec::new();
    copy_range(file, 0, 8, &mut out);
    let mut cursor: usize = 8;
    let mut stopped = false;
    let mut found = false;
    let mut seen: usize = 0;
    let ghost mut done: Seq<ChunkV> = Seq::empty();
    proof {
        assert(out@ =~= png_signature() + rewrite_out(done, ctype@, position as int, replv));
    }
    while !stopped && cursor < n
        invariant
            n == file@.len(),
            has_signature(file@),
            ctype@.len() == 4,
            position >= 1,
            8 <= cursor <= n,
            done.len() * 12 + 8 <= cursor,
            seen == count_upto(done, ctype@, done.len() as int),
            0 <= seen <= done.len(),
            found == has_hit(done, ctype@, position as int),
            replv == repl_chunk(ctype@, opt_data_view(repl)),
            match repl {
                Some(d) => d@.len() <= 0xFFFFFFFF,
                None => true,
            },
            match replacement {
                Some(v) => repl is Some && v@ == chunk_enc(
                    built_chunk(ctype@, repl->Some_0@),
                ),
                None => repl is None,
            },
            out@ == png_signature() + rewrite_out(done, ctype@, position as int, replv),
            !stopped ==> forall|j: int| 0 <= j < done.len() ==> !is_iend(#[trigger] done[j]),
            !stopped ==> match scan_from(file@, cursor as int) {
                Some(rest) => scan_from(file@, 8) == Some::<(Seq<ChunkV>, int)>(
                    (done + rest.0, rest.1),
                ),
                None => scan_from(file@, 8) is None,
            },
            stopped ==> scan_from(file@, 8) == Some::<(Seq<ChunkV>, int)>((done, cursor as int)),
        decreases n - cursor,
    {
        let c: Chunk;
        let end: usize;
        match decode_chunk(file, cursor) {
            Err(_) => {
                return Err(PngError::TruncatedChunk);
            },
            Ok(p) => {
                c = p.0;
                end = p.1;
            },
        }
        let is_end = tag_is_iend(&c.ctype);
        let tymatch = bytes_eq(&c.ctype, ctype);
        let hit = tymatch && !found && seen + 1 == (position as usize);
        proof {
            if found {
                lemma_no_second_hit(done, ctype@, position as int);
            }
        }
        if hit {
            match &replacement {
                Some(v) => {
                    append_bytes(&mut out, v);
                },
                None => {},
            }
            found = true;
        } else {
            append_chunk(&mut out, &c);
        }
        proof {
            lemma_rewrite_out_push(done, c@, ctype@, position as int, replv);
            lemma_has_hit_push(done, c@, ctype@, position as int);
            lemma_count_upto_agree(done.push(c@), done, ctype@, done.len() as int);
            let sig = png_signature();
            let a = rewrite_out(done, ctype@, position as int, replv);
            let b = chunk_out(c@, ctype@, position as int, seen + 1, replv);
            assert(sig + (a + b) =~= (sig + a) + b);
            let cv = c@;
            if is_end {
                assert(scan_from(file@, cursor as int) == Some::<(Seq<ChunkV>, int)>(
                    (seq![cv], end as int),
                ));
                assert(done + seq![cv] =~= done.push(cv));
            } else {
                if scan_from(file@, end as int) is Some {
                    let rest = scan_from(file@, end as int)->Some_0;
                    assert(done + (seq![cv] + rest.0) =~= done.push(cv) + rest.0);
                }
            }
        }
        if tymatch {
            seen = seen + 1;
        }
        proof {
            done = done.push(c@);
        }
        stopped = is_end;
        cursor = end;
    }
    proof {
        if !stopped {
            assert(scan_from(file@, cursor as int) == Some::<(Seq<ChunkV>, int)>(
                (Seq::empty(), cursor as int),
            ));
            assert(done + Seq::<ChunkV>::empty() =~= done);
        }
    }
    copy_range(file, cursor, n, &mut out);
    proof {
        assert(scan_chunks(file@, 8) == done && scan_end(file@, 8) == cursor as int);
        assert(out@ =~= png_signature() + rewrite_out(done, ctype@, position as int, replv)
            + file@.subrange(cursor as int, n as int));
        if !found {
            lemma_rewrite_out_no_hit(done, ctype@, position as int, replv);
            lemma_scan_reconstruct(file@, 8);
            assert(out@ =~= file@);
        }
    }
    Ok((out, found))
}

/// The chunk at `j` is where an insertion addressed `(t, offset)` goes: it is
/// the first chunk of tag `t` with exactly `offset` earlier chunks of that
/// tag, so the inserted chunk becomes occurrence `offset + 1`.
pub open spec fn is_insert_point(cs: Seq<ChunkV>, t: Seq<u8>, off: int, j: int) -> bool {
    cs[j].ctype == t && count_upto(cs, t, j) == off
}

pub open spec fn has_insert_point(cs: Seq<ChunkV>, t: Seq<u8>, off: int) -> bool {
    exists|j: int| 0 <= j < cs.len() && is_insert_point(cs, t, off, j)
}

/// Where the new chunk goes: before the chunk that is currently occurrence
/// `offset + 1` of its tag; with at most `offset` occurrences present, before
/// the terminal `IEND` chunk; with no `IEND` either, at the end of the
/// scanned stream.
pub open spec fn insert_index(cs: Seq<ChunkV>, t: Seq<u8>, off: int) -> int {
    if has_insert_point(cs, t, off) {
        choose|j: int| 0 <= j < cs.len() && is_insert_point(cs, t, off, j)
    } else if cs.len() > 0 && is_iend(cs.last()) {
        cs.len() - 1
    } else {
        cs.len() as int
    }
}

pub proof fn lemma_insert_point_unique(cs: Seq<ChunkV>, t: Seq<u8>, off: int, j1: int, j2: int)
    requires
        0 <= j1 < cs.len(),
        0 <= j2 < cs.len(),
        is_insert_point(cs, t, off, j1),
        is_insert_point(cs, t, off, j2),
    ensures
        j1 == j2,
{
    if j1 < j2 {
        lemma_count_upto_strict(cs, t, j1, j2);
    }
    if j2 < j1 {
        lemma_count_upto_strict(cs, t, j2, j1);
    }
}

pub proof fn lemma_insert_point_push(cs: Seq<ChunkV>, c: ChunkV, t: Seq<u8>, off: int)
    ensures
        has_insert_point(cs.push(c), t, off) == (has_insert_point(cs, t, off) || (c.ctype == t
            && count_upto(cs, t, cs.len() as int) == off)),
{
    let cs2 = cs.push(c);
    lemma_count_upto_agree(cs2, cs, t, cs.len() as int);
    if has_insert_point(cs, t, off) {
        let j = choose|j: int| 0 <= j < cs.len() && is_insert_point(cs, t, off, j);
        lemma_count_upto_agree(cs2, cs, t, j);
        assert(is_insert_point(cs2, t, off, j));
    }
    if c.ctype == t && count_upto(cs, t, cs.len() as int) == off {
        assert(is_insert_point(cs2, t, off, cs.len() as int));
    }
    if has_insert_point(cs2, t, off) {
        let j = choose|j: int| 0 <= j < cs2.len() && is_insert_point(cs2, t, off, j);
        if j < cs.len() {
            lemma_count_upto_agree(cs2, cs, t, j);
            assert(is_insert_point(cs, t, off, j));
        }
    }
}

/// A successful insertion: the output is the signature, the chunks before
/// the insertion index, the freshly encoded chunk, the remaining chunks, and
/// the trailing bytes, in that order.
pub open spec fn insert_result_ok(
    file: Seq<u8>,
    t: Seq<u8>,
    off: int,
    d: Seq<u8>,
    out: Seq<u8>,
) -> bool {
    let cs = scan_chunks(file, 8);
    let k = insert_index(cs, t, off);
    out == png_signature() + concat_enc(cs.take(k)) + chunk_enc(built_chunk(t, d)) + concat_enc(
        cs.skip(k),
    ) + file.subrange(scan_end(file, 8), file.len() as int)
}

/// Write: a single pass that copies the existing chunk stream while
/// inserting one freshly encoded chunk at the position `offset` implies
/// (see `insert_index`), then appends the remainder unchanged.
#[verifier::rlimit(100)]
pub fn insert_chunk(file: &Vec<u8>, ctype: &Vec<u8>, offset: u32, data: &Vec<u8>) -> (r: Result<
    Vec<u8>,
    PngError,
>)
    requires
        ctype@.len() == 4,
        data@.len() <= 0xFFFFFFFF,
    ensures
        r is Err <==> !has_signature(file@) || !scan_ok(file@, 8),
        r matches Err(e) ==> e == (if !has_signature(file@) {
            PngError::NotAPngFile
        } else {
            PngError::TruncatedChunk
        }),
        r matches Ok(out) ==> insert_result_ok(file@, ctype@, offset as int, data@, out@),
{
    if !check_signature(file) {
        return Err(PngError::NotAPngFile);
    }
    let n = file.len();
    let newbytes = encode_chunk(ctype, data);
    let mut out: Vec<u8> = Vec::new();
    copy_range(file, 0, 8, &mut out);
    let mut cursor: usize = 8;
    let mut stopped = false;
    let mut inserted = false;
    let mut seen: usize = 0;
    let ghost mut done: Seq<ChunkV> = Seq::empty();
    let ghost mut k: int = 0;
    proof {
        assert(out@ =~= png_signature() + concat_enc(done));
    }
    while !stopped && cursor < n
        invariant
            n == file@.len(),
            has_signature(file@),
            ctype@.len() == 4,
            8 <= cursor <= n,
            done.len() * 12 + 8 <= cursor,
            seen == count_upto(done, ctype@, done.len() as int),
            0 <= seen <= done.len(),
            newbytes@ == chunk_enc(built_chunk(ctype@, data@)),
            !stopped ==> forall|j: int| 0 <= j < done.len() ==> !is_iend(#[trigger] done[j]),
            !stopped ==> match scan_from(file@, cursor as int) {
                Some(rest) => scan_from(file@, 8) == Some::<(Seq<ChunkV>, int)>(
                    (done + rest.0, rest.1),
                ),
                None => scan_from(file@, 8) is None,
            },
            stopped ==> scan_from(file@, 8) == Some::<(Seq<ChunkV>, int)>((done, cursor as int)),
            stopped ==> inserted,
            !inserted ==> out@ == png_signature() + concat_enc(done),
            !inserted ==> !has_insert_point(done, ctype@, offset as int),
            inserted ==> 0 <= k <= done.len(),
            inserted ==> out@ == png_signature() + concat_enc(done.take(k)) + chunk_enc(
                built_chunk(ctype@, data@),
            ) + concat_enc(done.skip(k)),
            inserted ==> ((0 <= k < done.len() && is_insert_point(done, ctype@, offset as int, k))
                || (stopped && !has_insert_point(done, ctype@, offset as int) && 0 <= k
                == done.len() - 1 && is_iend(done[k]))),
        decreases n - cursor,
    {
        let c: Chunk;
        let end: usize;
        match decode_chunk(file, cursor) {
            Err(_) => {
                return Err(PngError::TruncatedChunk);
            },
            Ok(p) => {
                c = p.0;
                end = p.1;
            },
        }
        let is_end = tag_is_iend(&c.ctype);
        let tymatch = bytes_eq(&c.ctype, ctype);
        let ghost pre_done = done;
        let ghost pre_k = k;
        let was_inserted = inserted;
        if !inserted && ((tymatch && seen == (offset as usize)) || is_end) {
            append_bytes(&mut out, &newbytes);
            proof {
                k = done.len() as int;
            }
            inserted = true;
        }
        append_chunk(&mut out, &c);
        proof {
            lemma_insert_point_push(done, c@, ctype@, offset as int);
            lemma_count_upto_agree(done.push(c@), done, ctype@, done.len() as int);
            lemma_concat_enc_push(done, c@);
            let sig = png_signature();
            let nb = chunk_enc(built_chunk(ctype@, data@));
            let ec = chunk_enc(c@);
            if !was_inserted && !inserted {
                assert(sig + (concat_enc(done) + ec) =~= (sig + concat_enc(done)) + ec);
            } else if !was_inserted && inserted {
                assert(done.push(c@).take(k) =~= done);
                assert(done.push(c@).skip(k) =~= seq![c@]);
                lemma_concat_enc_push(Seq::<ChunkV>::empty(), c@);
                assert(Seq::<ChunkV>::empty().push(c@) =~= seq![c@]);
                assert(concat_enc(seq![c@]) =~= Seq::<u8>::empty() + ec);
                assert(concat_enc(seq![c@]) =~= ec);
                assert(((sig + concat_enc(done)) + nb) + ec =~= sig + concat_enc(done) + nb
                    + concat_enc(seq![c@]));
                if tymatch && seen == offset as int {
                    assert(is_insert_point(done.push(c@), ctype@, offset as int, k));
                }
            } else {
                assert(done.push(c@).take(k) =~= done.take(k));
                assert(done.push(c@).skip(k) =~= done.skip(k).push(c@));
                lemma_concat_enc_push(done.skip(k), c@);
                assert((sig + concat_enc(done.take(k)) + nb + concat_enc(done.skip(k))) + ec
                    =~= sig + concat_enc(done.take(k)) + nb + (concat_enc(done.skip(k)) + ec));
                if is_insert_point(done, ctype@, offset as int, k) {
                    lemma_count_upto_agree(done.push(c@), done, ctype@, k);
                    assert(is_insert_point(done.push(c@), ctype@, offset as int, k));
                }
            }
            let cv = c@;
            if is_end {
                assert(scan_from(file@, cursor as int) == Some::<(Seq<ChunkV>, int)>(
                    (seq![cv], end as int),
                ));
                assert(done + seq![cv] =~= done.push(cv));
            } else {
                if scan_from(file@, end as int) is Some {
                    let rest = scan_from(file@, end as int)->Some_0;
                    assert(done + (seq![cv] + rest.0) =~= done.push(cv) + rest.0);
                }
            }
        }
        if tymatch {
            seen = seen + 1;
        }
        proof {
            done = done.push(c@);
        }
        stopped = is_end;
        cursor = end;
    }
    proof {
        if !stopped {
            assert(scan_from(file@, cursor as int) == Some::<(Seq<ChunkV>, int)>(
                (Seq::empty(), cursor as int),
            ));
            assert(done + Seq::<ChunkV>::empty() =~= done);
        }
    }
    let loop_inserted = inserted;
    if !inserted {
        append_bytes(&mut out, &newbytes);
        proof {
            k = done.len() as int;
            assert(done.take(k) =~= done);
            assert(done.skip(k) =~= Seq::<ChunkV>::empty());
            let sig = png_signature();
            let nb = chunk_enc(built_chunk(ctype@, data@));
            assert((sig + concat_enc(done)) + nb =~= sig + concat_enc(done.take(k)) + nb
                + concat_enc(done.skip(k)));
        }
        inserted = true;
    }
    copy_range(file, cursor, n, &mut out);
    proof {
        let cs = scan_chunks(file@, 8);
        let off = offset as int;
        assert(cs == done && scan_end(file@, 8) == cursor as int);
        if loop_inserted {
            if has_insert_point(cs, ctype@, off) {
                assert(0 <= k < cs.len() && is_insert_point(cs, ctype@, off, k));
                let j = choose|j: int| 0 <= j < cs.len() && is_insert_point(cs, ctype@, off, j);
                lemma_insert_point_unique(cs, ctype@, off, j, k);
            }
        } else {
            assert(cs.len() > 0 ==> !is_iend(cs[cs.len() - 1]));
        }
        assert(insert_index(cs, ctype@, off) == k);
        assert(out@ =~= png_signature() + concat_enc(cs.take(k)) + chunk_enc(
            built_chunk(ctype@, data@),
        ) + concat_enc(cs.skip(k)) + file@.subrange(cursor as int, n as int));
    }
    Ok(out)
}

/// Update: copies every chunk unchanged except the `position`-th chunk of
/// type `ctype` (1-based), which is replaced by a freshly encoded chunk
/// carrying `data`.  When no chunk matches, reports `found == false` with an
/// output identical to the input.
pub fn update_chunk(file: &Vec<u8>, ctype: &Vec<u8>, position: u32, data: &Vec<u8>) -> (r: Result<
    (Vec<u8>, bool),
    PngError,
>)
    requires
        ctype@.len() == 4,
        position >= 1,
        data@.len() <= 0xFFFFFFFF,
    ensures
        r is Err <==> !has_signature(file@) || !scan_ok(file@, 8),
        r matches Err(e) ==> e == (if !has_signature(file@) {
            PngError::NotAPngFile
        } else {
            PngError::TruncatedChunk
        }),
        r matches Ok(p) ==> rewrite_result_ok(
            file@,
            ctype@,
            position as int,
            Some(built_chunk(ctype@, data@)),
            p.0@,
            p.1,
        ),
{
    rewrite_file(file, ctype, position, Some(data))
}

/// Delete: copies every chunk unchanged except the `position`-th chunk of
/// type `ctype` (1-based), which is omitted from the output entirely.  When
/// no chunk matches, reports `found == false` with an output identical to
/// the input.
pub fn delete_chunk(file: &Vec<u8>, ctype: &Vec<u8>, position: u32) -> (r: Result<
    (Vec<u8>, bool),
    PngError,
>)
    requires
        ctype@.len() == 4,
        position >= 1,
    ensures
        r is Err <==> !has_signature(file@) || !scan_ok(file@, 8),
        r matches Err(e) ==> e == (if !has_signature(file@) {
            PngError::NotAPngFile
        } else {
            PngError::TruncatedChunk
        }),
        r matches Ok(p) ==> rewrite_result_ok(
            file@,
            ctype@,
            position as int,
            None,
            p.0@,
            p.1,
        ),
{
    rewrite_file(file, ctype, position, None)
}


/// What a pipeline pass hands back: the per-chunk report for Read, or the
/// rebuilt file for a mutating operation, with `found` telling whether the
/// addressed chunk existed (always true for Write, which always inserts).
pub enum RunOutcome {
    Report(ScanReport),
    Rewrite { bytes: Vec<u8>, found: bool },
}

impl PngParser {
    /// The outcome a pass over `file` owes for these parameters.
    pub open spec fn run_outcome_ok(&self, file: Seq<u8>, out: RunOutcome) -> bool {
        match out {
            RunOutcome::Report(rep) => self.mode == WorkMode::Read && report_ok(
                file,
                rep.records@.map_values(|x: ChunkRecord| x@),
                rep.trailing@,
            ),
            RunOutcome::Rewrite { bytes, found } => match self.mode {
                WorkMode::Write => found && insert_result_ok(
                    file,
                    self.chunk_type@,
                    self.offset as int,
                    self.data@,
                    bytes@,
                ),
                WorkMode::Update => rewrite_result_ok(
                    file,
                    self.chunk_type@,
                    self.position as int,
                    Some(built_chunk(self.chunk_type@, self.data@)),
                    bytes@,
                    found,
                ),
                WorkMode::Delete => rewrite_result_ok(
                    file,
                    self.chunk_type@,
                    self.position as int,
                    None,
                    bytes@,
                    found,
                ),
                _ => false,
            },
        }
    }

    /// One pipeline pass over the file content `file`: validates the
    /// parameters, checks the 8-byte signature before any chunk is parsed,
    /// then dispatches on the operation kind.  Pure over the bytes: the
    /// caller reads the file beforehand and, for a mutating operation,
    /// snapshots it and writes the result back afterwards.
    pub fn run(&self, file: &Vec<u8>) -> (r: Result<RunOutcome, PngError>)
        requires
            self.mode != WorkMode::Help,
            self.mode != WorkMode::Read ==> self.chunk_type@.len() == 4,
            self.data@.len() <= 0xFFFFFFFF,
        ensures
            self.missing_param() matches Some(m) ==> r == Err::<RunOutcome, PngError>(
                PngError::MissingParameter(m),
            ),
            self.missing_param() is None ==> (r is Err <==> !has_signature(file@) || !scan_ok(
                file@,
                8,
            )),
            self.missing_param() is None ==> (r matches Err(e) ==> e == (if !has_signature(
                file@,
            ) {
                PngError::NotAPngFile
            } else {
                PngError::TruncatedChunk
            })),
            r matches Ok(out) ==> self.missing_param() is None && self.run_outcome_ok(file@, out),
    {
        match self.validate_params() {
            Err(e) => {
                return Err(e);
            },
            Ok(_) => {},
        }
        if !check_signature(file) {
            return Err(PngError::NotAPngFile);
        }
        match self.mode {
            WorkMode::Read => match read_chunks(file) {
                Ok(rep) => Ok(RunOutcome::Report(rep)),
                Err(e) => Err(e),
            },
            WorkMode::Write => match insert_chunk(file, &self.chunk_type, self.offset, &self.data) {
                Ok(bytes) => Ok(RunOutcome::Rewrite { bytes, found: true }),
                Err(e) => Err(e),
            },
            WorkMode::Update => match update_chunk(
                file,
                &self.chunk_type,
                self.position,
                &self.data,
            ) {
                Ok(p) => Ok(RunOutcome::Rewrite { bytes: p.0, found: p.1 }),
                Err(e) => Err(e),
            },
            WorkMode::Delete => match delete_chunk(file, &self.chunk_type, self.position) {
                Ok(p) => Ok(RunOutcome::Rewrite { bytes: p.0, found: p.1 }),
                Err(e) => Err(e),
            },
            WorkMode::Help => Err(PngError::MissingParameter(MissingKind::Filename)),
        }
    }
}

} // verus!
