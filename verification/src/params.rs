//! The pipeline's parameters, as the collaborating CLI layer fills them in.

use vstd::prelude::*;
use crate::error::{MissingKind, PngError};

verus! {

/// The operation kinds; `Help` asks for usage text and touches no file.
#[derive(Clone, Copy, Debug, PartialEq, Eq, Structural)]
pub enum WorkMode {
    Read,
    Write,
    Update,
    Delete,
    Help,
}

/// One pipeline invocation's parameters: operation kind, payload bytes,
/// target chunk type tag, 0-based insert offset, 1-based occurrence
/// position, and the file path.  The path is carried as bytes; all I/O on it
/// is the caller's business.
pub struct PngParser {
    pub mode: WorkMode,
    pub data: Vec<u8>,
    pub chunk_type: Vec<u8>,
    pub offset: u32,
    pub position: u32,
    pub file: Vec<u8>,
}

impl PngParser {
    /// Fresh parameters: help mode, empty payload, tag and path, offset 0,
    /// position 1.
    pub fn new() -> (r: PngParser)
        ensures
            r.mode == WorkMode::Help,
            r.data@ == Seq::<u8>::empty(),
            r.chunk_type@ == Seq::<u8>::empty(),
            r.offset == 0,
            r.position == 1,
            r.file@ == Seq::<u8>::empty(),
    {
        PngParser {
            mode: WorkMode::Help,
            data: Vec::new(),
            chunk_type: Vec::new(),
            offset: 0,
            position: 1,
            file: Vec::new(),
        }
    }

    /// Which parameter, if any, validation reports missing: the file name
    /// first; nothing more for Read; then the chunk type; position 0 is
    /// invalid for Update and Delete; Write and Update need payload bytes.
    pub open spec fn missing_param(&self) -> Option<MissingKind> {
        if self.file@.len() == 0 {
            Some(MissingKind::Filename)
        } else if self.mode == WorkMode::Read {
            None
        } else if self.chunk_type@.len() == 0 {
            Some(MissingKind::ChunkType)
        } else if (self.mode == WorkMode::Delete || self.mode == WorkMode::Update)
            && self.position == 0 {
            Some(MissingKind::Position)
        } else if (self.mode == WorkMode::Write || self.mode == WorkMode::Update)
            && self.data@.len() == 0 {
            Some(MissingKind::Data)
        } else {
            None
        }
    }

    /// Fills the payload from a comma-separated list of decimal bytes, as
    /// the `--data` flag carries it; rejects the whole list when any piece
    /// is empty, has a non-digit, or exceeds 255.
    pub fn parse_data(&mut self, input: &Vec<u8>) -> (r: Result<(), ()>)
        ensures
            r is Ok <==> byte_list_ok(input@),
            r is Ok ==> final(self).data@ == byte_list_val(input@),
            r is Err ==> final(self).data@ == old(self).data@,
            final(self).mode == old(self).mode,
            final(self).chunk_type@ == old(self).chunk_type@,
            final(self).offset == old(self).offset,
            final(self).position == old(self).position,
            final(self).file@ == old(self).file@,
    {
        match parse_byte_list(input) {
            Some(bytes) => {
                self.data = bytes;
                Ok(())
            },
            None => Err(()),
        }
    }

    /// Checks that every parameter the requested operation needs is present,
    /// before any file is touched.
    pub fn validate_params(&self) -> (r: Result<(), PngError>)
        ensures
            r == (match self.missing_param() {
                Some(m) => Err::<(), PngError>(PngError::MissingParameter(m)),
                None => Ok(()),
            }),
    {
        if self.file.len() == 0 {
            return Err(PngError::MissingParameter(MissingKind::Filename));
        }
        if self.mode == WorkMode::Read {
            return Ok(());
        }
        if self.chunk_type.len() == 0 {
            return Err(PngError::MissingParameter(MissingKind::ChunkType));
        }
        if (self.mode == WorkMode::Delete || self.mode == WorkMode::Update) && self.position == 0 {
            return Err(PngError::MissingParameter(MissingKind::Position));
        }
        if (self.mode == WorkMode::Write || self.mode == WorkMode::Update) && self.data.len()
            == 0 {
            return Err(PngError::MissingParameter(MissingKind::Data));
        }
        Ok(())
    }
}


/// An ASCII decimal digit.
pub open spec fn is_digit(b: u8) -> bool {
    48 <= b <= 57
}

pub open spec fn all_digits(s: Seq<u8>) -> bool {
    forall|i: int| 0 <= i < s.len() ==> is_digit(#[trigger] s[i])
}

/// The numeric value of a digit string, most significant digit first.
pub open spec fn dec_val(s: Seq<u8>) -> int
    decreases s.len(),
{
    if s.len() == 0 {
        0
    } else {
        dec_val(s.drop_last()) * 10 + (s.last() - 48)
    }
}

/// One piece of a byte list: nonempty, digits only, and at most 255.
pub open spec fn seg_ok(s: Seq<u8>) -> bool {
    s.len() > 0 && all_digits(s) && dec_val(s) <= 255
}

/// The position of the first comma, or the length when there is none.
pub open spec fn first_comma(s: Seq<u8>) -> int
    decreases s.len(),
{
    if s.len() == 0 {
        0
    } else if s[0] == 44 {
        0
    } else {
        1 + first_comma(s.skip(1))
    }
}

pub proof fn lemma_first_comma_bounds(s: Seq<u8>)
    ensures
        0 <= first_comma(s) <= s.len(),
        forall|i: int| 0 <= i < first_comma(s) ==> s[i] != 44,
        first_comma(s) < s.len() ==> s[first_comma(s)] == 44,
    decreases s.len(),
{
    if s.len() != 0 && s[0] != 44 {
        lemma_first_comma_bounds(s.skip(1));
        assert forall|i: int| 0 <= i < first_comma(s) implies s[i] != 44 by {
            if i > 0 {
                assert(s.skip(1)[i - 1] == s[i]);
            }
        }
        if first_comma(s) < s.len() {
            assert(s.skip(1)[first_comma(s) - 1] == s[first_comma(s)]);
        }
    }
}

/// The first comma is exactly where a left-to-right scan finds it.
pub proof fn lemma_first_comma_is(s: Seq<u8>, k: int)
    requires
        0 <= k <= s.len(),
        forall|i: int| 0 <= i < k ==> s[i] != 44,
        k < s.len() ==> s[k] == 44,
    ensures
        first_comma(s) == k,
    decreases s.len(),
{
    if s.len() == 0 {
    } else if k == 0 {
    } else {
        assert(s[0] != 44);
        assert forall|i: int| 0 <= i < k - 1 implies s.skip(1)[i] != 44 by {
            assert(s.skip(1)[i] == s[i + 1]);
        }
        if k - 1 < s.skip(1).len() {
            assert(s.skip(1)[k - 1] == s[k]);
        }
        lemma_first_comma_is(s.skip(1), k - 1);
    }
}

/// The comma-separated pieces of a byte string; an empty string has one
/// empty piece, and a trailing comma ends with one.
pub open spec fn split_commas(s: Seq<u8>) -> Seq<Seq<u8>>
    decreases s.len(),
    via split_commas_decreases
{
    if first_comma(s) >= s.len() {
        seq![s]
    } else {
        seq![s.take(first_comma(s))] + split_commas(s.skip(first_comma(s) + 1))
    }
}

#[via_fn]
proof fn split_commas_decreases(s: Seq<u8>) {
    lemma_first_comma_bounds(s);
}

/// A whole byte list is acceptable when every piece is.
pub open spec fn byte_list_ok(s: Seq<u8>) -> bool {
    forall|i: int| 0 <= i < split_commas(s).len() ==> seg_ok(#[trigger] split_commas(s)[i])
}

/// The bytes a byte list denotes, piece by piece.
pub open spec fn byte_list_val(s: Seq<u8>) -> Seq<u8> {
    split_commas(s).map_values(|seg: Seq<u8>| dec_val(seg) as u8)
}

pub proof fn lemma_dec_val_nonneg(s: Seq<u8>)
    requires
        all_digits(s),
    ensures
        dec_val(s) >= 0,
    decreases s.len(),
{
    if s.len() > 0 {
        assert forall|i: int| 0 <= i < s.drop_last().len() implies is_digit(
            #[trigger] s.drop_last()[i],
        ) by {
            assert(s.drop_last()[i] == s[i]);
        }
        lemma_dec_val_nonneg(s.drop_last());
    }
}

/// A digit string is worth at least any of its prefixes: once a prefix
/// passes 255, the whole string has.
pub proof fn lemma_dec_val_prefix(s: Seq<u8>, m: int)
    requires
        all_digits(s),
        0 <= m <= s.len(),
    ensures
        dec_val(s.take(m)) <= dec_val(s),
    decreases s.len() - m,
{
    if m < s.len() {
        lemma_dec_val_prefix(s, m + 1);
        assert(s.take(m + 1).drop_last() =~= s.take(m));
        assert(s.take(m + 1).last() == s[m]);
        assert forall|i: int| 0 <= i < s.take(m).len() implies is_digit(
            #[trigger] s.take(m)[i],
        ) by {
            assert(s.take(m)[i] == s[i]);
        }
        lemma_dec_val_nonneg(s.take(m));
        assert(dec_val(s.take(m + 1)) == dec_val(s.take(m)) * 10 + (s[m] - 48));
    } else {
        assert(s.take(m) =~= s);
    }
}

/// The piece the cursor stands in: with no comma in `s[i..j]`, the piece of
/// `s` that starts at `i` runs at least to `j`, and its bytes up to there are
/// the stream's own.
proof fn lemma_current_piece(s: Seq<u8>, i: int, j: int, segs: Seq<Seq<u8>>, done: int)
    requires
        0 <= i <= j <= s.len(),
        segs == split_commas(s),
        0 <= done <= segs.len(),
        split_commas(s.skip(i)) == segs.skip(done),
        forall|t: int| i <= t < j ==> s[t] != 44,
    ensures
        done < segs.len(),
        segs[done].len() >= j - i,
        forall|t: int| 0 <= t < j - i ==> #[trigger] segs[done][t] == s[i + t],
        segs[done].len() == j - i ==> segs[done] == s.subrange(i, j),
{
    let suf = s.skip(i);
    lemma_first_comma_bounds(suf);
    let k = first_comma(suf);
    if k < j - i {
        assert(suf[k] == 44);
        assert(suf[k] == s[i + k]);
        assert(false);
    }
    let head = split_commas(suf)[0];
    if k >= suf.len() {
        assert(split_commas(suf) == seq![suf]);
        assert(head == suf);
    } else {
        assert(head == suf.take(k));
    }
    assert(split_commas(suf).len() >= 1);
    assert(segs.skip(done).len() == segs.len() - done);
    assert(done < segs.len());
    assert(segs[done] == segs.skip(done)[0]);
    assert forall|t: int| 0 <= t < j - i implies #[trigger] segs[done][t] == s[i + t] by {
        assert(suf[t] == s[i + t]);
    }
    if segs[done].len() == j - i {
        assert(segs[done] =~= s.subrange(i, j));
    }
}

/// A non-digit inside the current piece spoils the whole list.
proof fn lemma_piece_bad_digit(s: Seq<u8>, i: int, j: int, segs: Seq<Seq<u8>>, done: int)
    requires
        0 <= i <= j < s.len(),
        segs == split_commas(s),
        0 <= done <= segs.len(),
        split_commas(s.skip(i)) == segs.skip(done),
        forall|t: int| i <= t < j ==> s[t] != 44,
        s[j] != 44,
        !is_digit(s[j]),
    ensures
        done < segs.len(),
        !seg_ok(segs[done]),
        !byte_list_ok(s),
{
    assert forall|t: int| i <= t < j + 1 implies s[t] != 44 by {}
    lemma_current_piece(s, i, j + 1, segs, done);
    assert(segs[done][j - i] == s[j]);
    assert(!all_digits(segs[done]));
    assert(!seg_ok(split_commas(s)[done]));
}

/// A piece whose leading digits already pass 255 spoils the whole list.
proof fn lemma_piece_too_big(s: Seq<u8>, i: int, j: int, segs: Seq<Seq<u8>>, done: int)
    requires
        0 <= i <= j < s.len(),
        segs == split_commas(s),
        0 <= done <= segs.len(),
        split_commas(s.skip(i)) == segs.skip(done),
        forall|t: int| i <= t < j ==> s[t] != 44,
        s[j] != 44,
        is_digit(s[j]),
        all_digits(s.subrange(i, j)),
        dec_val(s.subrange(i, j)) * 10 + (s[j] - 48) > 255,
    ensures
        done < segs.len(),
        !seg_ok(segs[done]),
        !byte_list_ok(s),
{
    assert forall|t: int| i <= t < j + 1 implies s[t] != 44 by {}
    lemma_current_piece(s, i, j + 1, segs, done);
    let seg = segs[done];
    if all_digits(seg) {
        assert(seg.take(j + 1 - i) =~= s.subrange(i, j + 1));
        assert(s.subrange(i, j + 1).drop_last() =~= s.subrange(i, j));
        assert(s.subrange(i, j + 1).last() == s[j]);
        assert(dec_val(s.subrange(i, j + 1)) > 255);
        lemma_dec_val_prefix(seg, j + 1 - i);
        assert(!seg_ok(seg));
    } else {
        assert(!seg_ok(seg));
    }
    assert(!seg_ok(split_commas(s)[done]));
}

/// Parses a comma-separated list of decimal bytes; `None` when any piece is
/// empty, has a non-digit, or exceeds 255.
#[verifier::rlimit(60)]
pub fn parse_byte_list(input: &Vec<u8>) -> (r: Option<Vec<u8>>)
    ensures
        r is Some <==> byte_list_ok(input@),
        r matches Some(v) ==> v@ == byte_list_val(input@),
{
    let n = input.len();
    let mut out: Vec<u8> = Vec::new();
    let mut i: usize = 0;
    let ghost segs = split_commas(input@);
    let ghost mut done: int = 0;
    proof {
        assert(input@.skip(0) =~= input@);
        assert(segs.skip(0) =~= segs);
    }
    loop
        invariant
            n == input@.len(),
            0 <= i <= n,
            segs == split_commas(input@),
            0 <= done <= segs.len(),
            split_commas(input@.skip(i as int)) == segs.skip(done),
            out@.len() == done,
            forall|t: int| 0 <= t < done ==> seg_ok(#[trigger] segs[t]),
            forall|t: int| 0 <= t < done ==> out@[t] == (dec_val(#[trigger] segs[t]) as u8),
        decreases n - i,
    {
        let ghost suf = input@.skip(i as int);
        let mut j = i;
        let mut val: u32 = 0;
        while j < n && input[j] != 44
            invariant
                n == input@.len(),
                i <= j <= n,
                segs == split_commas(input@),
                0 <= done <= segs.len(),
                split_commas(input@.skip(i as int)) == segs.skip(done),
                forall|t: int| i <= t < j ==> input@[t] != 44,
                all_digits(input@.subrange(i as int, j as int)),
                val == dec_val(input@.subrange(i as int, j as int)),
                0 <= val <= 255,
            decreases n - j,
        {
            let b = input[j];
            let ghost part = input@.subrange(i as int, j as int);
            let ghost part1 = input@.subrange(i as int, j as int + 1);
            proof {
                assert(part1.drop_last() =~= part);
                assert(part1.last() == input@[j as int]);
            }
            if b < 48 || b > 57 {
                proof {
                    lemma_piece_bad_digit(input@, i as int, j as int, segs, done);
                }
                return None;
            }
            let d = (b - 48) as u32;
            if val * 10 + d > 255 {
                proof {
                    lemma_piece_too_big(input@, i as int, j as int, segs, done);
                }
                return None;
            }
            val = val * 10 + d;
            j = j + 1;
            proof {
                assert forall|t: int| 0 <= t < part1.len() implies is_digit(
                    #[trigger] part1[t],
                ) by {
                    if t < part1.len() - 1 {
                        assert(part1[t] == part[t]);
                    }
                }
            }
        }
        let ghost seg = input@.subrange(i as int, j as int);
        proof {
            lemma_current_piece(input@, i as int, j as int, segs, done);
            assert forall|t: int| 0 <= t < (j - i) implies suf[t] != 44 by {
                assert(suf[t] == input@[i + t]);
            }
            if j < n {
                assert(suf[(j - i) as int] == input@[j as int]);
            }
            lemma_first_comma_is(suf, j - i);
            assert(segs[done].len() == j - i) by {
                if first_comma(suf) >= suf.len() {
                    assert(split_commas(suf) == seq![suf]);
                } else {
                    assert(split_commas(suf)[0] == suf.take(j - i));
                }
                assert(segs[done] == segs.skip(done)[0]);
            }
            assert(segs[done] == seg);
        }
        if j == i {
            proof {
                assert(!seg_ok(split_commas(input@)[done]));
            }
            return None;
        }
        out.push(val as u8);
        proof {
            assert(seg_ok(seg));
            done = done + 1;
        }
        if j == n {
            proof {
                assert(first_comma(suf) >= suf.len());
                assert(split_commas(suf) == seq![suf]);
                assert(segs.skip(done - 1) == seq![suf]);
                assert(segs.skip(done - 1).len() == segs.len() - (done - 1));
                assert(segs.len() == done);
                let mapped = byte_list_val(input@);
                assert(out@ =~= mapped);
            }
            return Some(out);
        }
        proof {
            assert(first_comma(suf) == j - i);
            assert(first_comma(suf) < suf.len());
            assert(split_commas(suf) == seq![suf.take((j - i) as int)] + split_commas(
                suf.skip((j - i) + 1),
            ));
            assert(suf.skip((j - i) + 1) =~= input@.skip(j + 1));
            assert(segs.skip(done - 1) == split_commas(suf));
            assert(segs.skip(done - 1).len() == segs.len() - (done - 1));
            assert(segs.skip(done) =~= split_commas(suf).skip(1));
            assert(split_commas(suf).skip(1) =~= split_commas(input@.skip(j + 1)));
        }
        i = j + 1;
    }
}

} // verus!
