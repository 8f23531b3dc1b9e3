//! Splitting file text into retrievable chunks at type-dependent delimiters.
use vstd::prelude::*;
use vstd::utf8::*;
use vstd::string::StringSliceAdditionalSpecFns;
use crate::filetype::{range_equals, FileType};

verus! {

broadcast use vstd::utf8::encode_utf8_valid_utf8;

/// A segment must be longer than this many bytes to become a chunk.
pub const MIN_CHUNK_BYTES: usize = 20;

pub const NEWLINE: u8 = 10;

pub const CLOSE_BRACE: u8 = 125;

/// The delimiter at which text of the given type is split: a blank line for
/// prose, a newline followed by a closing brace for everything else.
pub open spec fn delimiter(ftype: FileType) -> Seq<u8> {
    match ftype {
        FileType::Prose => seq![NEWLINE, NEWLINE],
        _ => seq![NEWLINE, CLOSE_BRACE],
    }
}

/// The first position at or after `from` where `pat` occurs in `b`, or
/// `b.len()` where it occurs nowhere after `from`.
pub open spec fn next_match(b: Seq<u8>, pat: Seq<u8>, from: int) -> int
    decreases b.len() - from,
{
    if from < 0 || pat.len() == 0 || from + pat.len() > b.len() {
        b.len() as int
    } else if b.subrange(from, from + pat.len()) == pat {
        from
    } else {
        next_match(b, pat, from + 1)
    }
}

/// The ranges of the segments of `b[from..]` between occurrences of `pat`,
/// found left to right without overlap, that are longer than the minimum.
pub open spec fn chunk_ranges(b: Seq<u8>, pat: Seq<u8>, from: int) -> Seq<(int, int)>
    decreases b.len() - from,
    via lemma_chunk_ranges_decreases
{
    let m = next_match(b, pat, from);
    let here = if m - from > MIN_CHUNK_BYTES {
        seq![(from, m)]
    } else {
        seq![]
    };
    if pat.len() == 0 || m < from || m >= b.len() {
        here
    } else {
        here + chunk_ranges(b, pat, m + pat.len())
    }
}

/// The chunk ranges of a text of the given type, as byte offsets.
pub open spec fn chunk_spans(content: Seq<char>, ftype: FileType) -> Seq<(int, int)> {
    chunk_ranges(encode_utf8(content), delimiter(ftype), 0)
}

#[via_fn]
proof fn lemma_chunk_ranges_decreases(b: Seq<u8>, pat: Seq<u8>, from: int) {
    let m = next_match(b, pat, from);
    if !(pat.len() == 0 || m < from || m >= b.len()) {
        lemma_next_match_bounds(b, pat, from);
    }
}

pub(crate) proof fn lemma_next_match_bounds(b: Seq<u8>, pat: Seq<u8>, from: int)
    requires
        pat.len() > 0,
    ensures
        next_match(b, pat, from) == b.len() || (from <= next_match(b, pat, from)
            && next_match(b, pat, from) + pat.len() <= b.len() && b.subrange(
            next_match(b, pat, from),
            next_match(b, pat, from) + pat.len(),
        ) == pat),
        from <= b.len() ==> from <= next_match(b, pat, from) <= b.len(),
    decreases b.len() - from,
{
    if from < 0 || from + pat.len() > b.len() {
    } else if b.subrange(from, from + pat.len()) == pat {
    } else {
        lemma_next_match_bounds(b, pat, from + 1);
    }
}

/// Every chunk range lies in the text, is longer than the minimum, and
/// starts at or after the end of the chunk before it.
pub proof fn lemma_chunk_ranges_well_formed(b: Seq<u8>, pat: Seq<u8>, from: int)
    requires
        0 <= from <= b.len(),
        pat.len() > 0,
    ensures
        forall|i: int|
            0 <= i < chunk_ranges(b, pat, from).len() ==> from <= #[trigger] chunk_ranges(
                b,
                pat,
                from,
            )[i].0 && chunk_ranges(b, pat, from)[i].0 + MIN_CHUNK_BYTES < chunk_ranges(
                b,
                pat,
                from,
            )[i].1 <= b.len(),
        forall|i: int, j: int|
            0 <= i < j < chunk_ranges(b, pat, from).len() ==> #[trigger] chunk_ranges(
                b,
                pat,
                from,
            )[i].1 <= #[trigger] chunk_ranges(b, pat, from)[j].0,
    decreases b.len() - from,
{
    lemma_next_match_bounds(b, pat, from);
    let m = next_match(b, pat, from);
    let cr = chunk_ranges(b, pat, from);
    let here = if m - from > MIN_CHUNK_BYTES {
        seq![(from, m)]
    } else {
        seq![]
    };
    if m < b.len() {
        let later = chunk_ranges(b, pat, m + pat.len());
        lemma_chunk_ranges_well_formed(b, pat, m + pat.len());
        assert(cr == here + later);
        assert forall|i: int| 0 <= i < cr.len() implies from <= #[trigger] cr[i].0 && cr[i].0
            + MIN_CHUNK_BYTES < cr[i].1 <= b.len() by {
            if i >= here.len() {
                assert(cr[i] == later[i - here.len()]);
            }
        }
        assert forall|i: int, j: int| 0 <= i < j < cr.len() implies #[trigger] cr[i].1
            <= #[trigger] cr[j].0 by {
            assert(cr[j] == later[j - here.len()]);
            if i >= here.len() {
                assert(cr[i] == later[i - here.len()]);
            }
        }
    } else {
        assert(cr == here);
    }
}

/// In valid UTF-8, an ASCII byte has a character boundary on each side.
proof fn lemma_ascii_boundaries(bytes: Seq<u8>, i: int)
    requires
        valid_utf8(bytes),
        0 <= i < bytes.len(),
        bytes[i] < 0x80,
    ensures
        is_char_boundary(bytes, i),
        is_char_boundary(bytes, i + 1),
{
    is_char_boundary_iff_not_is_continuation_byte(bytes, i);
    is_char_boundary_start_end_of_seq(bytes);
    if i + 1 < bytes.len() {
        valid_utf8_split(bytes, i);
        let rest = bytes.subrange(i, bytes.len() as int);
        assert(rest[0] == bytes[i]);
        assert(pop_first_scalar(rest) =~= bytes.subrange(i + 1, bytes.len() as int));
        let tail = pop_first_scalar(rest);
        assert(valid_utf8(tail));
        is_char_boundary_start_end_of_seq(tail);
        is_char_boundary_iff_not_is_continuation_byte(tail, 0);
        assert(tail[0] == bytes[i + 1]);
        is_char_boundary_iff_not_is_continuation_byte(bytes, i + 1);
    }
}

/// The first occurrence of `pat` in `b` at or after `from`, or `b.len()`.
pub(crate) fn find_from(b: &[u8], pat: &[u8], from: usize) -> (r: usize)
    requires
        from <= b@.len(),
        pat@.len() > 0,
    ensures
        r == next_match(b@, pat@, from as int),
{
    let mut j = from;
    while j <= b.len() && pat.len() <= b.len() - j
        invariant
            from <= j,
            j <= b@.len() + 1,
            pat@.len() > 0,
            next_match(b@, pat@, from as int) == next_match(b@, pat@, j as int),
        decreases b@.len() + 1 - j,
    {
        if range_equals(b, j, j + pat.len(), pat) {
            return j;
        }
        j = j + 1;
    }
    b.len()
}

/// Cuts `content[start..end]` out as an owned string, where both ends are
/// character boundaries.
pub(crate) fn cut(content: &str, start: usize, end: usize) -> (r: String)
    requires
        start <= end <= content.spec_bytes().len(),
        is_char_boundary(content.spec_bytes(), start as int),
        is_char_boundary(content.spec_bytes(), end as int),
    ensures
        encode_utf8(r@) == content.spec_bytes().subrange(start as int, end as int),
{
    let ghost bytes = content.spec_bytes();
    let (_, rest) = content.split_at(start);
    proof {
        valid_utf8_split(bytes, start as int);
        let rb = rest.spec_bytes();
        is_char_boundary_start_end_of_seq(rb);
        if end < bytes.len() {
            is_char_boundary_iff_not_is_continuation_byte(bytes, end as int);
            is_char_boundary_iff_not_is_continuation_byte(rb, end - start);
            assert(rb[end - start] == bytes[end as int]);
        }
    }
    let (piece, _) = rest.split_at(end - start);
    assert(piece.spec_bytes() =~= bytes.subrange(start as int, end as int));
    piece.to_owned()
}

/// Splits a file's text into chunks: the segments between delimiters (see
/// `delimiter`) that are longer than `MIN_CHUNK_BYTES`, each as its byte
/// range and its text. Delimiter bytes belong to no chunk.
pub fn chunk_content(content: &str, ftype: FileType) -> (r: Vec<(usize, usize, String)>)
    ensures
        r@.len() == chunk_spans(content@, ftype).len(),
        forall|i: int|
            0 <= i < r@.len() ==> (#[trigger] r@[i].0 as int, r@[i].1 as int) == chunk_spans(
                content@,
                ftype,
            )[i] && encode_utf8(r@[i].2@) == encode_utf8(content@).subrange(
                r@[i].0 as int,
                r@[i].1 as int,
            ),
        forall|i: int|
            0 <= i < r@.len() ==> #[trigger] r@[i].0 + MIN_CHUNK_BYTES < r@[i].1 <= encode_utf8(
                content@,
            ).len(),
        forall|i: int, j: int| 0 <= i < j < r@.len() ==> #[trigger] r@[i].1 <= #[trigger] r@[j].0,
{
    let b = content.as_bytes();
    let ghost bytes = b@;
    let pat: &[u8] = match ftype {
        FileType::Prose => &[NEWLINE, NEWLINE],
        _ => &[NEWLINE, CLOSE_BRACE],
    };
    proof {
        assert(pat@ =~= delimiter(ftype));
        lemma_chunk_ranges_well_formed(bytes, pat@, 0);
    }
    let mut chunks: Vec<(usize, usize, String)> = Vec::new();
    let mut start: usize = 0;
    loop
        invariant
            b@ == bytes,
            bytes == content.spec_bytes(),
            bytes == encode_utf8(content@),
            pat@ == delimiter(ftype),
            pat@.len() == 2,
            start <= bytes.len(),
            start == 0 || bytes[start - 1] == pat@[1],
            chunks@.len() + chunk_ranges(bytes, pat@, start as int).len() == chunk_ranges(
                bytes,
                pat@,
                0,
            ).len(),
            forall|i: int|
                0 <= i < chunks@.len() ==> (#[trigger] chunks@[i].0 as int, chunks@[i].1 as int)
                    == chunk_ranges(bytes, pat@, 0)[i] && encode_utf8(chunks@[i].2@)
                    == bytes.subrange(chunks@[i].0 as int, chunks@[i].1 as int),
            forall|i: int|
                0 <= i < chunk_ranges(bytes, pat@, start as int).len() ==> #[trigger] chunk_ranges(
                    bytes,
                    pat@,
                    start as int,
                )[i] == chunk_ranges(bytes, pat@, 0)[chunks@.len() + i],
        decreases bytes.len() - start,
    {
        let m = find_from(b, pat, start);
        proof {
            lemma_next_match_bounds(bytes, pat@, start as int);
            lemma_chunk_ranges_well_formed(bytes, pat@, start as int);
        }
        let ghost rest = chunk_ranges(bytes, pat@, start as int);
        if m - start > MIN_CHUNK_BYTES {
            proof {
                if start > 0 {
                    lemma_ascii_boundaries(bytes, start - 1);
                } else {
                    is_char_boundary_start_end_of_seq(bytes);
                }
                if m < bytes.len() {
                    assert(bytes[m as int] == bytes.subrange(m as int, m + 2)[0]);
                    lemma_ascii_boundaries(bytes, m as int);
                } else {
                    is_char_boundary_start_end_of_seq(bytes);
                }
            }
            let text = cut(content, start, m);
            chunks.push((start, m, text));
            assert(rest[0] == (start as int, m as int));
        }
        if m >= b.len() {
            proof {
                let cr0 = chunk_ranges(bytes, pat@, 0);
                lemma_chunk_ranges_well_formed(bytes, pat@, 0);
                if m - start > MIN_CHUNK_BYTES {
                    assert(rest =~= seq![(start as int, m as int)]);
                } else {
                    assert(rest =~= Seq::<(int, int)>::empty());
                }
                assert(chunks@.len() == cr0.len());
                assert forall|i: int| 0 <= i < chunks@.len() implies #[trigger] chunks@[i].0
                    + MIN_CHUNK_BYTES < chunks@[i].1 <= bytes.len() by {
                    assert(cr0[i] == (chunks@[i].0 as int, chunks@[i].1 as int));
                    assert(cr0[i].0 + MIN_CHUNK_BYTES < cr0[i].1);
                    assert(cr0[i].1 <= bytes.len());
                }
                assert forall|i: int, j: int| 0 <= i < j < chunks@.len() implies #[trigger] chunks@[i].1
                    <= #[trigger] chunks@[j].0 by {
                    assert(cr0[i] == (chunks@[i].0 as int, chunks@[i].1 as int));
                    assert(cr0[j] == (chunks@[j].0 as int, chunks@[j].1 as int));
                    assert(cr0[i].1 <= cr0[j].0);
                }
            }
            return chunks;
        }
        proof {
            assert(bytes[m + 1] == bytes.subrange(m as int, m + 2)[1]);
            let later = chunk_ranges(bytes, pat@, m + 2);
            let k = if m - start > MIN_CHUNK_BYTES { 1int } else { 0int };
            if m - start > MIN_CHUNK_BYTES {
                assert(rest =~= seq![(start as int, m as int)] + later);
            } else {
                assert(rest =~= later);
            }
            assert forall|i: int| 0 <= i < later.len() implies #[trigger] later[i] == chunk_ranges(
                bytes,
                pat@,
                0,
            )[chunks@.len() + i] by {
                assert(later[i] == rest[i + k]);
            }
        }
        start = m + 2;
    }
}

} // verus!
