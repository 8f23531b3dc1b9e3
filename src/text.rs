//! Comparison and substring search on text, by its UTF-8 bytes.
use vstd::prelude::*;
use vstd::utf8::encode_utf8;
use crate::chunker::{find_from, lemma_next_match_bounds, next_match};

verus! {

broadcast use vstd::utf8::encode_utf8_decode_utf8;

/// Whether `n` occurs in `h` as a run of consecutive bytes.
pub open spec fn bytes_contain(h: Seq<u8>, n: Seq<u8>) -> bool {
    exists|i: int| 0 <= i && i + n.len() <= h.len() && #[trigger] h.subrange(i, i + n.len()) == n
}

/// Whether the text `n` occurs in the text `h`.
pub open spec fn text_contains(h: Seq<char>, n: Seq<char>) -> bool {
    bytes_contain(encode_utf8(h), encode_utf8(n))
}

proof fn lemma_next_match_finds(h: Seq<u8>, n: Seq<u8>, from: int, i: int)
    requires
        n.len() > 0,
        0 <= from <= i,
        i + n.len() <= h.len(),
        h.subrange(i, i + n.len()) == n,
    ensures
        next_match(h, n, from) < h.len(),
    decreases i - from,
{
    if h.subrange(from, from + n.len()) != n {
        lemma_next_match_finds(h, n, from + 1, i);
    }
}

/// Whether two texts are equal, compared byte by byte.
pub fn same_text(a: &str, b: &str) -> (r: bool)
    ensures
        r == (a@ == b@),
{
    let x = a.as_bytes();
    let y = b.as_bytes();
    assert(x@ == encode_utf8(a@));
    assert(y@ == encode_utf8(b@));
    if x.len() != y.len() {
        return false;
    }
    let mut i: usize = 0;
    while i < x.len()
        invariant
            x@ == encode_utf8(a@),
            y@ == encode_utf8(b@),
            x@.len() == y@.len(),
            i <= x@.len(),
            forall|j: int| 0 <= j < i ==> x@[j] == y@[j],
        decreases x@.len() - i,
    {
        if x[i] != y[i] {
            proof {
                if a@ == b@ {
                    assert(x@ == y@);
                }
            }
            return false;
        }
        i = i + 1;
    }
    assert(x@ =~= y@);
    assert(a@ == vstd::utf8::decode_utf8(encode_utf8(a@)));
    true
}

/// Whether `needle` occurs in `hay`, as `str::contains` decides it.
pub fn contains_text(hay: &str, needle: &str) -> (r: bool)
    ensures
        r == text_contains(hay@, needle@),
{
    let h = hay.as_bytes();
    let n = needle.as_bytes();
    assert(h@ == encode_utf8(hay@));
    assert(n@ == encode_utf8(needle@));
    if n.len() == 0 {
        assert(h@.subrange(0int, 0int + n@.len()) =~= n@);
        return true;
    }
    if n.len() > h.len() {
        return false;
    }
    let m = find_from(h, n, 0);
    proof {
        lemma_next_match_bounds(h@, n@, 0);
        if m >= h@.len() {
            assert forall|i: int|
                0 <= i && i + n@.len() <= h@.len() implies #[trigger] h@.subrange(
                i,
                i + n@.len(),
            ) != n@ by {
                if h@.subrange(i, i + n@.len()) == n@ {
                    lemma_next_match_finds(h@, n@, 0, i);
                }
            }
        } else {
            assert(h@.subrange(m as int, m + n@.len()) == n@);
        }
    }
    m < h.len()
}

} // verus!
