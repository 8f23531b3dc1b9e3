//! The memory store: one engram per indexed file, and a flat index of
//! every chunk vector for linear similarity scans.
use vstd::prelude::*;
use crate::chunker::{chunk_content, chunk_spans};
use crate::engram::{
    compress_skeleton, hash_placeholder, skeleton_text, zstd_frame, Chunk, Engram, IndexError,
    Synapse, COMPRESSION_LEVEL,
};
use crate::filetype::{detect_type, type_of_path};
use crate::similarity::MAX_DIMENSIONS;
use crate::text::same_text;
use vstd::utf8::encode_utf8;

verus! {

/// One row of the flat index: a file path, a chunk id, and the chunk's vector.
pub type IndexRow = (String, usize, Vec<i16>);

/// The position of the engram for `path` (its last one), or -1.
pub open spec fn engram_index(lib: Seq<Engram>, path: Seq<char>) -> int
    decreases lib.len(),
{
    if lib.len() == 0 {
        -1
    } else if lib.last().path@ == path {
        lib.len() - 1
    } else {
        engram_index(lib.drop_last(), path)
    }
}

/// `engram_index` points at an engram of the path, or is -1 where there is
/// none; with unique paths that engram is the only one of its path.
pub proof fn lemma_engram_index(lib: Seq<Engram>, path: Seq<char>)
    ensures
        -1 <= engram_index(lib, path) < lib.len(),
        engram_index(lib, path) >= 0 ==> lib[engram_index(lib, path)].path@ == path,
        engram_index(lib, path) == -1 ==> forall|j: int|
            0 <= j < lib.len() ==> #[trigger] lib[j].path@ != path,
        paths_unique(lib) ==> forall|j: int|
            0 <= j < lib.len() && #[trigger] lib[j].path@ == path ==> j == engram_index(lib, path),
    decreases lib.len(),
{
    if lib.len() > 0 {
        let d = lib.drop_last();
        lemma_engram_index(d, path);
        assert forall|j: int| 0 <= j < d.len() implies d[j] == lib[j] by {}
        if paths_unique(lib) {
            assert(paths_unique(d));
        }
    }
}

/// No two engrams share a path.
pub open spec fn paths_unique(lib: Seq<Engram>) -> bool {
    forall|i: int, j: int| 0 <= i < j < lib.len() ==> #[trigger] lib[i].path@ != #[trigger] lib[j].path@
}

/// Chunk ids run from 0 in order, and every vector fits the similarity
/// arithmetic.
pub open spec fn chunks_valid(e: Engram) -> bool {
    forall|k: int|
        0 <= k < e.chunks@.len() ==> #[trigger] e.chunks@[k].id == k
            && e.chunks@[k].embedding@.len() <= MAX_DIMENSIONS
}

/// No two keywords of the inverted index are the same.
pub open spec fn entity_keys_unique(e: Engram) -> bool {
    forall|i: int, j: int|
        0 <= i < j < e.entity_map@.len() ==> #[trigger] e.entity_map@[i].0@
            != #[trigger] e.entity_map@[j].0@
}

/// A row names an existing chunk and holds that chunk's vector.
pub open spec fn row_valid(lib: Seq<Engram>, row: IndexRow) -> bool {
    let k = engram_index(lib, row.0@);
    &&& 0 <= k
    &&& row.1 < lib[k].chunks@.len()
    &&& lib[k].chunks@[row.1 as int].embedding@ == row.2@
}

/// No two rows name the same chunk.
pub open spec fn row_keys_unique(rows: Seq<IndexRow>) -> bool {
    forall|i: int, j: int|
        0 <= i < j < rows.len() ==> !(#[trigger] rows[i].0@ == #[trigger] rows[j].0@ && rows[i].1
            == rows[j].1)
}

proof fn lemma_rows_without_unique(rows: Seq<IndexRow>, path: Seq<char>)
    requires
        row_keys_unique(rows),
    ensures
        row_keys_unique(rows_without(rows, path)),
    decreases rows.len(),
{
    if rows.len() > 0 {
        let d = rows.drop_last();
        assert(row_keys_unique(d)) by {
            assert forall|i: int, j: int| 0 <= i < j < d.len() implies !(#[trigger] d[i].0@
                == #[trigger] d[j].0@ && d[i].1 == d[j].1) by {
                assert(d[i] == rows[i] && d[j] == rows[j]);
            }
        }
        lemma_rows_without_unique(d, path);
        lemma_rows_without(d, path);
        let wd = rows_without(d, path);
        let w = rows_without(rows, path);
        if rows.last().0@ != path {
            let x = rows.last();
            assert forall|i: int, j: int| 0 <= i < j < w.len() implies !(#[trigger] w[i].0@
                == #[trigger] w[j].0@ && w[i].1 == w[j].1) by {
                if j == w.len() - 1 {
                    let m = choose|m: int| 0 <= m < d.len() && d[m] == wd[i];
                    assert(rows[m] == d[m]);
                    assert(w[j] == rows[rows.len() - 1]);
                    assert(w[i] == wd[i]);
                } else {
                    assert(w[i] == wd[i] && w[j] == wd[j]);
                }
            }
        }
    }
}

/// A row as plain values.
pub open spec fn row_view(r: IndexRow) -> (Seq<char>, int, Seq<i16>) {
    (r.0@, r.1 as int, r.2@)
}

/// The rows of the first `n` chunks of an engram.
pub open spec fn engram_rows(e: Engram, n: int) -> Seq<(Seq<char>, int, Seq<i16>)>
    decreases n,
{
    if n <= 0 {
        Seq::empty()
    } else {
        engram_rows(e, n - 1).push((e.path@, n - 1, e.chunks@[n - 1].embedding@))
    }
}

/// The flat index of a library: one row per chunk, file by file, each file's
/// chunks in id order.
pub open spec fn library_rows(lib: Seq<Engram>) -> Seq<(Seq<char>, int, Seq<i16>)>
    decreases lib.len(),
{
    if lib.len() == 0 {
        Seq::empty()
    } else {
        library_rows(lib.drop_last()) + engram_rows(lib.last(), lib.last().chunks@.len() as int)
    }
}

/// The engram that indexing `content` at `path` builds.
pub open spec fn fresh_engram(
    e: Engram,
    path: Seq<char>,
    content: Seq<char>,
    embeddings: Seq<Vec<i16>>,
    skeleton: Seq<u8>,
) -> bool {
    let spans = chunk_spans(content, type_of_path(path));
    &&& e.path@ == path
    &&& e.file_type == type_of_path(path)
    &&& e.hash@ == hash_placeholder()
    &&& e.skeleton_compressed@ == skeleton
    &&& e.entity_map@.len() == 0
    &&& e.synapses@.len() == 0
    &&& e.chunks@.len() == spans.len()
    &&& forall|i: int|
        0 <= i < spans.len() ==> {
            &&& (#[trigger] e.chunks@[i]).id == i
            &&& e.chunks@[i].start_byte == spans[i].0
            &&& e.chunks@[i].end_byte == spans[i].1
            &&& e.chunks@[i].embedding@ == embeddings[i]@
            &&& e.chunks@[i].access_count == 0
        }
}

/// The rows that indexing a file adds: one per chunk, in id order.
pub open spec fn fresh_rows(rows: Seq<IndexRow>, path: Seq<char>, embeddings: Seq<Vec<i16>>) -> bool {
    &&& rows.len() == embeddings.len()
    &&& forall|i: int|
        0 <= i < rows.len() ==> (#[trigger] rows[i]).0@ == path && rows[i].1 == i && rows[i].2@
            == embeddings[i]@
}

/// `new` is `old` with the engram at `path` replaced in place, or appended
/// where `old` had none; only `new[engram_index(new, path)]` differs.
pub open spec fn library_replaced(old: Seq<Engram>, new: Seq<Engram>, path: Seq<char>) -> bool {
    let k = engram_index(old, path);
    if k >= 0 {
        &&& new.len() == old.len()
        &&& new[k].path@ == path
        &&& forall|j: int| 0 <= j < old.len() && j != k ==> #[trigger] new[j] == old[j]
    } else {
        &&& new.len() == old.len() + 1
        &&& new[old.len() as int].path@ == path
        &&& forall|j: int| 0 <= j < old.len() ==> #[trigger] new[j] == old[j]
    }
}

/// The rows of `rows` that do not belong to `path`, in their order.
pub open spec fn rows_without(rows: Seq<IndexRow>, path: Seq<char>) -> Seq<IndexRow>
    decreases rows.len(),
{
    if rows.len() == 0 {
        rows
    } else if rows.last().0@ == path {
        rows_without(rows.drop_last(), path)
    } else {
        rows_without(rows.drop_last(), path).push(rows.last())
    }
}

proof fn lemma_rows_without(rows: Seq<IndexRow>, path: Seq<char>)
    ensures
        forall|i: int|
            0 <= i < rows_without(rows, path).len() ==> (#[trigger] rows_without(rows, path)[i]).0@
                != path && exists|j: int| 0 <= j < rows.len() && rows[j] == rows_without(rows, path)[i],
    decreases rows.len(),
{
    if rows.len() > 0 {
        let d = rows.drop_last();
        lemma_rows_without(d, path);
        let w = rows_without(rows, path);
        assert forall|i: int| 0 <= i < w.len() implies (#[trigger] w[i]).0@ != path && exists|j: int|
            0 <= j < rows.len() && rows[j] == w[i] by {
            if i < rows_without(d, path).len() {
                let j = choose|j: int| 0 <= j < d.len() && d[j] == rows_without(d, path)[i];
                assert(rows[j] == w[i]);
            } else {
                assert(rows[rows.len() - 1] == w[i]);
            }
        }
    }
}

/// Replacing or appending the engram for `path` keeps where every other
/// path's engram is found.
#[verifier::spinoff_prover]
proof fn lemma_other_paths_kept(old: Seq<Engram>, new: Seq<Engram>, path: Seq<char>, q: Seq<char>)
    requires
        paths_unique(new),
        library_replaced(old, new, path),
        q != path,
    ensures
        engram_index(new, q) == engram_index(old, q),
{
    lemma_engram_index(old, q);
    lemma_engram_index(new, q);
    lemma_engram_index(old, path);
    let kq = engram_index(old, q);
    let k = engram_index(old, path);
    let kn = engram_index(new, q);
    if kq >= 0 {
        assert(old[kq].path@ == q);
        assert(kq != k);
        assert(new[kq] == old[kq]);
        assert(0 <= kq < new.len());
        assert(new[kq].path@ == q);
        assert(kq == kn);
    } else if kn >= 0 {
        assert(new[kn].path@ == q);
        if k >= 0 {
            if kn == k {
                assert(new[k].path@ == path);
            } else {
                assert(new[kn] == old[kn]);
            }
        } else if kn < old.len() {
            assert(new[kn] == old[kn]);
        } else {
            assert(new[old.len() as int].path@ == path);
        }
    }
}

/// The access count of chunk `id` of the file at `path`, if it exists.
pub open spec fn access_count_of(lib: Seq<Engram>, path: Seq<char>, id: int) -> Option<u32> {
    let k = engram_index(lib, path);
    if 0 <= k && 0 <= id < lib[k].chunks@.len() {
        Some(lib[k].chunks@[id].access_count)
    } else {
        None
    }
}

/// The access count after one more recall: one higher, held at `u32::MAX`.
pub open spec fn bumped(c: u32) -> u32 {
    if c == u32::MAX {
        c
    } else {
        (c + 1) as u32
    }
}

/// The access count after `n` more recalls, held at `u32::MAX`.
pub open spec fn bumped_by(c: u32, n: nat) -> u32 {
    if c + n > u32::MAX {
        u32::MAX
    } else {
        (c + n) as u32
    }
}

/// An optional access count after `n` more recalls.
pub open spec fn bump_opt(o: Option<u32>, n: nat) -> Option<u32> {
    match o {
        Some(c) => Some(bumped_by(c, n)),
        None => None,
    }
}

/// Recalls never lower an access count, and below `u32::MAX` each one adds
/// exactly one.
pub proof fn lemma_recalls_add_up(c: u32, n: nat)
    ensures
        bumped_by(c, n) >= c,
        c + n <= u32::MAX ==> bumped_by(c, n) == c + n,
        c < u32::MAX ==> bumped(c) == c + 1,
        bumped(c) == bumped_by(c, 1),
{
}

/// Two libraries that differ at most in the access counts of chunks.
pub open spec fn same_but_counts(old: Seq<Engram>, new: Seq<Engram>) -> bool {
    &&& new.len() == old.len()
    &&& forall|j: int|
        0 <= j < old.len() ==> {
            let e = old[j];
            let f = #[trigger] new[j];
            &&& f.path == e.path
            &&& f.file_type == e.file_type
            &&& f.hash == e.hash
            &&& f.skeleton_compressed == e.skeleton_compressed
            &&& f.entity_map == e.entity_map
            &&& f.synapses == e.synapses
            &&& f.chunks@.len() == e.chunks@.len()
            &&& forall|c: int|
                0 <= c < e.chunks@.len() ==> {
                    &&& (#[trigger] f.chunks@[c]).id == e.chunks@[c].id
                    &&& f.chunks@[c].start_byte == e.chunks@[c].start_byte
                    &&& f.chunks@[c].end_byte == e.chunks@[c].end_byte
                    &&& f.chunks@[c].embedding == e.chunks@[c].embedding
                }
        }
}

/// Differing only in access counts is transitive.
pub proof fn lemma_same_but_counts_trans(a: Seq<Engram>, b: Seq<Engram>, c: Seq<Engram>)
    requires
        same_but_counts(a, b),
        same_but_counts(b, c),
    ensures
        same_but_counts(a, c),
{
    assert forall|j: int| 0 <= j < a.len() implies #[trigger] c[j].chunks@.len() == a[j].chunks@.len() by {
        assert(b[j].chunks@.len() == a[j].chunks@.len());
    }
    assert forall|j: int, k: int| 0 <= j < a.len() && 0 <= k < a[j].chunks@.len() implies #[trigger] c[j].chunks@[k].id
        == a[j].chunks@[k].id by {
        assert(b[j].chunks@[k].id == a[j].chunks@[k].id);
        assert(c[j].chunks@[k].id == b[j].chunks@[k].id);
    }
}

/// `new` is `lib` with the access count of chunk `id` of `path` bumped, where
/// that chunk exists; nothing else differs.
pub open spec fn reinforced(lib: Seq<Engram>, new: Seq<Engram>, path: Seq<char>, id: int) -> bool {
    let k = engram_index(lib, path);
    &&& new.len() == lib.len()
    &&& forall|j: int| 0 <= j < lib.len() && j != k ==> #[trigger] new[j] == lib[j]
    &&& 0 <= k ==> {
        let e = lib[k];
        let f = new[k];
        &&& f.path == e.path
        &&& f.file_type == e.file_type
        &&& f.hash == e.hash
        &&& f.skeleton_compressed == e.skeleton_compressed
        &&& f.entity_map == e.entity_map
        &&& f.synapses == e.synapses
        &&& f.chunks@.len() == e.chunks@.len()
        &&& forall|c: int|
            0 <= c < e.chunks@.len() && c != id ==> #[trigger] f.chunks@[c] == e.chunks@[c]
        &&& 0 <= id < e.chunks@.len() ==> {
            &&& f.chunks@[id].id == e.chunks@[id].id
            &&& f.chunks@[id].start_byte == e.chunks@[id].start_byte
            &&& f.chunks@[id].end_byte == e.chunks@[id].end_byte
            &&& f.chunks@[id].embedding == e.chunks@[id].embedding
            &&& f.chunks@[id].access_count == bumped(e.chunks@[id].access_count)
        }
    }
}

/// The store: the library of engrams, and the flat index of chunk vectors.
pub struct MemorySystem {
    library: Vec<Engram>,
    flat_index: Vec<IndexRow>,
}

#[verifier::spinoff_prover]
proof fn lemma_reinforced_facts(old: Seq<Engram>, new: Seq<Engram>, path: Seq<char>, id: int)
    requires
        paths_unique(old),
        forall|k: int| 0 <= k < old.len() ==> chunks_valid(#[trigger] old[k]),
        forall|k: int| 0 <= k < old.len() ==> entity_keys_unique(#[trigger] old[k]),
        reinforced(old, new, path, id),
    ensures
        paths_unique(new),
        forall|k: int| 0 <= k < new.len() ==> chunks_valid(#[trigger] new[k]),
        forall|k: int| 0 <= k < new.len() ==> entity_keys_unique(#[trigger] new[k]),
        same_but_counts(old, new),
        forall|row: IndexRow| row_valid(old, row) ==> #[trigger] row_valid(new, row),
        forall|q: Seq<char>, j: int|
            #![trigger access_count_of(new, q, j)]
            access_count_of(new, q, j) == bump_opt(
                access_count_of(old, q, j),
                if q == path && j == id {
                    1nat
                } else {
                    0nat
                },
            ),
{
    let k = engram_index(old, path);
    lemma_engram_index(old, path);
    assert forall|j: int| 0 <= j < old.len() implies #[trigger] new[j].path == old[j].path by {
        if j != k {
            assert(new[j] == old[j]);
        }
    }
    lemma_same_paths(old, new);
    assert forall|a: int, b: int| 0 <= a < b < new.len() implies #[trigger] new[a].path@
        != #[trigger] new[b].path@ by {
        assert(new[a].path == old[a].path);
        assert(new[b].path == old[b].path);
    }
    assert forall|j: int| 0 <= j < new.len() implies entity_keys_unique(#[trigger] new[j]) by {
        assert(entity_keys_unique(old[j]));
        if j != k {
            assert(new[j] == old[j]);
        } else {
            assert(new[j].entity_map == old[j].entity_map);
        }
    }
    assert forall|j: int| 0 <= j < new.len() implies chunks_valid(#[trigger] new[j]) by {
        if j != k {
            assert(new[j] == old[j]);
        } else {
            assert(chunks_valid(old[j]));
            assert forall|c: int| 0 <= c < new[j].chunks@.len() implies #[trigger] new[j].chunks@[c].id == c
                && new[j].chunks@[c].embedding@.len() <= MAX_DIMENSIONS by {
                assert(old[j].chunks@[c].id == c);
                if c != id {
                    assert(new[j].chunks@[c] == old[j].chunks@[c]);
                }
            }
        }
    }
    assert forall|j: int| 0 <= j < old.len() implies #[trigger] new[j].chunks@.len()
        == old[j].chunks@.len() by {
        if j != k {
            assert(new[j] == old[j]);
        }
    }
    assert forall|j: int, c: int| 0 <= j < old.len() && 0 <= c < old[j].chunks@.len()
        implies #[trigger] new[j].chunks@[c].id == old[j].chunks@[c].id
        && new[j].chunks@[c].start_byte == old[j].chunks@[c].start_byte
        && new[j].chunks@[c].end_byte == old[j].chunks@[c].end_byte
        && new[j].chunks@[c].embedding == old[j].chunks@[c].embedding by {
        if j != k {
            assert(new[j] == old[j]);
        } else if c != id {
            assert(new[j].chunks@[c] == old[j].chunks@[c]);
        }
    }
    assert forall|j: int| 0 <= j < old.len() && j != k implies #[trigger] new[j] == old[j] by {}
    assert forall|row: IndexRow| row_valid(old, row) implies #[trigger] row_valid(new, row) by {
        let q = engram_index(old, row.0@);
        lemma_engram_index(old, row.0@);
        if q != k {
            assert(new[q] == old[q]);
        } else if row.1 != id {
            assert(new[q].chunks@[row.1 as int] == old[q].chunks@[row.1 as int]);
        }
    }
    assert forall|q: Seq<char>, j: int|
        #![trigger access_count_of(new, q, j)]
        access_count_of(new, q, j) == bump_opt(
            access_count_of(old, q, j),
            if q == path && j == id {
                1nat
            } else {
                0nat
            },
        ) by {
        let kq = engram_index(old, q);
        lemma_engram_index(old, q);
        if kq >= 0 {
            if kq != k {
                assert(new[kq] == old[kq]);
            } else if j != id {
                if 0 <= j < old[kq].chunks@.len() {
                    assert(new[kq].chunks@[j] == old[kq].chunks@[j]);
                }
            }
        }
    }
}

/// Two libraries with the same paths at the same positions find every path
/// at the same position.
proof fn lemma_same_paths(old: Seq<Engram>, new: Seq<Engram>)
    requires
        new.len() == old.len(),
        forall|j: int| 0 <= j < old.len() ==> #[trigger] new[j].path == old[j].path,
    ensures
        forall|q: Seq<char>| #[trigger] engram_index(new, q) == engram_index(old, q),
    decreases old.len(),
{
    if old.len() > 0 {
        let od = old.drop_last();
        let nd = new.drop_last();
        assert forall|j: int| 0 <= j < od.len() implies #[trigger] nd[j].path == od[j].path by {
            assert(nd[j] == new[j]);
            assert(od[j] == old[j]);
        }
        lemma_same_paths(od, nd);
        assert(new.last().path == old.last().path);
        assert forall|q: Seq<char>| #[trigger] engram_index(new, q) == engram_index(old, q) by {
            assert(engram_index(nd, q) == engram_index(od, q));
        }
    }
}

/// A copy of `v`.
pub fn copy_vector(v: &Vec<i16>) -> (r: Vec<i16>)
    ensures
        r@ == v@,
{
    let mut r: Vec<i16> = Vec::new();
    let mut i: usize = 0;
    while i < v.len()
        invariant
            i <= v@.len(),
            r@ == v@.subrange(0, i as int),
        decreases v@.len() - i,
    {
        r.push(v[i]);
        i = i + 1;
        assert(r@ =~= v@.subrange(0, i as int));
    }
    assert(v@.subrange(0, v@.len() as int) =~= v@);
    r
}

impl MemorySystem {
    /// The engrams, in the order their files were first indexed.
    pub closed spec fn library(&self) -> Seq<Engram> {
        self.library@
    }

    /// The rows of the flat index, in the order they were added.
    pub closed spec fn rows(&self) -> Seq<IndexRow> {
        self.flat_index@
    }

    /// One engram per path, valid chunks, distinct keywords in each inverted
    /// index, and a flat index whose rows each name a distinct existing chunk
    /// and hold its vector.
    pub open spec fn wf(&self) -> bool {
        &&& paths_unique(self.library())
        &&& forall|k: int| 0 <= k < self.library().len() ==> chunks_valid(#[trigger] self.library()[k])
        &&& forall|k: int|
            0 <= k < self.library().len() ==> entity_keys_unique(#[trigger] self.library()[k])
        &&& forall|r: int| 0 <= r < self.rows().len() ==> row_valid(self.library(), #[trigger] self.rows()[r])
        &&& row_keys_unique(self.rows())
    }

    /// An empty store.
    pub fn new() -> (r: Self)
        ensures
            r.wf(),
            r.library().len() == 0,
            r.rows().len() == 0,
    {
        MemorySystem { library: Vec::new(), flat_index: Vec::new() }
    }

    /// A store holding `library`, with its flat index rebuilt from the
    /// chunks; none where two engrams share a path, where chunk ids do not
    /// run from 0 or a vector is longer than `MAX_DIMENSIONS`, or where an
    /// inverted index holds a keyword twice.
    #[verifier::spinoff_prover]
    pub fn from_engrams(library: Vec<Engram>) -> (r: Option<Self>)
        ensures
            r is Some <==> paths_unique(library@) && (forall|k: int|
                0 <= k < library@.len() ==> chunks_valid(#[trigger] library@[k])) && (forall|k: int|
                0 <= k < library@.len() ==> entity_keys_unique(#[trigger] library@[k])),
            r matches Some(m) ==> m.wf() && m.library() == library@ && m.rows().map_values(
                |x: IndexRow| row_view(x),
            ) == library_rows(library@),
    {
        let lib = &library;
        // One engram per path.
        let mut a: usize = 0;
        while a < lib.len()
            invariant
                lib@ == library@,
                a <= lib@.len(),
                forall|i: int, j: int| 0 <= i < j < lib@.len() && i < a ==> #[trigger] lib@[i].path@
                    != #[trigger] lib@[j].path@,
            decreases lib@.len() - a,
        {
            let mut b: usize = a + 1;
            while b < lib.len()
                invariant
                    lib@ == library@,
                    a < lib@.len(),
                    a + 1 <= b <= lib@.len(),
                    forall|i: int, j: int| 0 <= i < j < lib@.len() && i < a ==> #[trigger] lib@[i].path@
                        != #[trigger] lib@[j].path@,
                    forall|j: int| a < j < b ==> lib@[a as int].path@ != #[trigger] lib@[j].path@,
                decreases lib@.len() - b,
            {
                if same_text(lib[a].path.as_str(), lib[b].path.as_str()) {
                    assert(lib@ == library@);
                    assert(lib@[a as int].path@ == lib@[b as int].path@);
                    assert(!paths_unique(library@));
                    return None;
                }
                b = b + 1;
            }
            a = a + 1;
        }
        // Chunk ids from 0, vectors that fit.
        let mut e: usize = 0;
        while e < lib.len()
            invariant
                lib@ == library@,
                e <= lib@.len(),
                paths_unique(lib@),
                forall|k: int| 0 <= k < e ==> chunks_valid(#[trigger] lib@[k]),
            decreases lib@.len() - e,
        {
            let chunks = &lib[e].chunks;
            let mut c: usize = 0;
            while c < chunks.len()
                invariant
                    lib@ == library@,
                    e < lib@.len(),
                    chunks == lib@[e as int].chunks,
                    c <= chunks@.len(),
                    forall|k: int| 0 <= k < c ==> #[trigger] chunks@[k].id == k
                        && chunks@[k].embedding@.len() <= MAX_DIMENSIONS,
                decreases chunks@.len() - c,
            {
                if chunks[c].id != c || chunks[c].embedding.len() > MAX_DIMENSIONS {
                    assert(lib@ == library@);
                    assert(!(chunks@[c as int].id == c && chunks@[c as int].embedding@.len()
                        <= MAX_DIMENSIONS));
                    assert(!chunks_valid(library@[e as int]));
                    return None;
                }
                assert forall|k: int| 0 <= k < c + 1 implies #[trigger] chunks@[k].id == k
                    && chunks@[k].embedding@.len() <= MAX_DIMENSIONS by {
                    if k == c {
                        assert(chunks@[c as int].id == c);
                    }
                }
                c = c + 1;
            }
            assert(chunks_valid(lib@[e as int]));
            e = e + 1;
        }
        // Distinct keywords in each inverted index.
        let mut e: usize = 0;
        while e < lib.len()
            invariant
                lib@ == library@,
                e <= lib@.len(),
                forall|k: int| 0 <= k < e ==> entity_keys_unique(#[trigger] lib@[k]),
            decreases lib@.len() - e,
        {
            let ents = &lib[e].entity_map;
            let mut a: usize = 0;
            while a < ents.len()
                invariant
                    lib@ == library@,
                    e < lib@.len(),
                    ents == lib@[e as int].entity_map,
                    a <= ents@.len(),
                    forall|i: int, j: int| 0 <= i < j < ents@.len() && i < a ==> #[trigger] ents@[i].0@
                        != #[trigger] ents@[j].0@,
                decreases ents@.len() - a,
            {
                let mut b: usize = a + 1;
                while b < ents.len()
                    invariant
                        lib@ == library@,
                        e < lib@.len(),
                        ents == lib@[e as int].entity_map,
                        a < ents@.len(),
                        a + 1 <= b <= ents@.len(),
                        forall|i: int, j: int|
                            0 <= i < j < ents@.len() && i < a ==> #[trigger] ents@[i].0@
                                != #[trigger] ents@[j].0@,
                        forall|j: int| a < j < b ==> ents@[a as int].0@ != #[trigger] ents@[j].0@,
                    decreases ents@.len() - b,
                {
                    if same_text(ents[a].0.as_str(), ents[b].0.as_str()) {
                        assert(ents@[a as int].0@ == ents@[b as int].0@);
                        assert(!entity_keys_unique(library@[e as int]));
                        return None;
                    }
                    b = b + 1;
                }
                a = a + 1;
            }
            e = e + 1;
        }
        // The flat index, chunk by chunk.
        let mut rows: Vec<IndexRow> = Vec::new();
        let mut e: usize = 0;
        assert(lib@.subrange(0, 0) =~= Seq::<Engram>::empty());
        assert(rows@.map_values(|x: IndexRow| row_view(x)) =~= library_rows(lib@.subrange(0, 0)));
        while e < lib.len()
            invariant
                lib@ == library@,
                e <= lib@.len(),
                paths_unique(lib@),
                forall|k: int| 0 <= k < lib@.len() ==> chunks_valid(#[trigger] lib@[k]),
                forall|k: int| 0 <= k < lib@.len() ==> entity_keys_unique(#[trigger] lib@[k]),
                rows@.map_values(|x: IndexRow| row_view(x)) == library_rows(lib@.subrange(0, e as int)),
                forall|r: int| 0 <= r < rows@.len() ==> row_valid(lib@, #[trigger] rows@[r]),
                forall|r: int|
                    0 <= r < rows@.len() ==> engram_index(lib@, (#[trigger] rows@[r]).0@) < e,
                row_keys_unique(rows@),
            decreases lib@.len() - e,
        {
            let engram = &lib[e];
            proof {
                lemma_engram_index(lib@, engram.path@);
            }
            let ghost base = rows@.map_values(|x: IndexRow| row_view(x));
            let ghost start = rows@.len();
            let mut c: usize = 0;
            while c < engram.chunks.len()
                invariant
                    lib@ == library@,
                    e < lib@.len(),
                    engram == lib@[e as int],
                    engram_index(lib@, engram.path@) == e,
                    chunks_valid(*engram),
                    c <= engram.chunks@.len(),
                    start <= rows@.len(),
                    rows@.map_values(|x: IndexRow| row_view(x)) == base + engram_rows(*engram, c as int),
                    forall|r: int| 0 <= r < rows@.len() ==> row_valid(lib@, #[trigger] rows@[r]),
                    forall|r: int|
                        0 <= r < start ==> engram_index(lib@, (#[trigger] rows@[r]).0@) < e,
                    forall|r: int|
                        start <= r < rows@.len() ==> (#[trigger] rows@[r]).0@ == engram.path@
                            && rows@[r].1 < c,
                    row_keys_unique(rows@),
                decreases engram.chunks@.len() - c,
            {
                let ghost before = rows@;
                rows.push((engram.path.clone(), c, copy_vector(&engram.chunks[c].embedding)));
                assert(rows@.map_values(|x: IndexRow| row_view(x)) =~= before.map_values(
                    |x: IndexRow| row_view(x),
                ).push((engram.path@, c as int, engram.chunks@[c as int].embedding@)));
                assert(chunks_valid(lib@[e as int]));
                assert(engram.chunks@[c as int].id == c);
                assert forall|a: int, b: int| 0 <= a < b < rows@.len() implies !(
                #[trigger] rows@[a].0@ == #[trigger] rows@[b].0@ && rows@[a].1 == rows@[b].1) by {
                    if b == rows@.len() - 1 && a < start {
                        assert(engram_index(lib@, rows@[a].0@) < e);
                    } else if b < rows@.len() - 1 {
                        assert(rows@[a] == before[a] && rows@[b] == before[b]);
                    }
                }
                c = c + 1;
            }
            proof {
                assert(lib@.subrange(0, e + 1).drop_last() =~= lib@.subrange(0, e as int));
                assert(lib@.subrange(0, e + 1).last() == *engram);
                assert forall|r: int|
                    0 <= r < rows@.len() implies engram_index(lib@, (#[trigger] rows@[r]).0@) < e + 1 by {
                    if r >= start {
                        assert(rows@[r].0@ == engram.path@);
                    }
                }
            }
            e = e + 1;
        }
        assert(lib@.subrange(0, e as int) =~= lib@);
        Some(MemorySystem { library, flat_index: rows })
    }

    /// The engrams, in the order their files were first indexed.
    pub fn engrams(&self) -> (r: &Vec<Engram>)
        ensures
            r@ == self.library(),
    {
        &self.library
    }

    /// The rows of the flat index.
    pub fn flat_index(&self) -> (r: &Vec<IndexRow>)
        ensures
            r@ == self.rows(),
    {
        &self.flat_index
    }

    /// The position of the engram for `path` in `engrams()`.
    pub fn find(&self, path: &str) -> (r: Option<usize>)
        ensures
            match r {
                Some(k) => k == engram_index(self.library(), path@),
                None => engram_index(self.library(), path@) == -1,
            },
    {
        let mut i = self.library.len();
        assert(self.library@.subrange(0, i as int) =~= self.library@);
        while i > 0
            invariant
                i <= self.library@.len(),
                engram_index(self.library@, path@) == engram_index(
                    self.library@.subrange(0, i as int),
                    path@,
                ),
            decreases i,
        {
            if same_text(self.library[i - 1].path.as_str(), path) {
                return Some(i - 1);
            }
            assert(self.library@.subrange(0, i as int).drop_last() =~= self.library@.subrange(
                0,
                i - 1,
            ));
            i = i - 1;
        }
        None
    }

    /// Stores the engram for the file at `path` with text `content`, whose
    /// chunks (see `chunk_content`) have the vectors `embeddings` in order, and
    /// whose compressed skeleton is `skeleton_compressed`. An engram already
    /// stored for `path` is replaced in place; its rows leave the flat index,
    /// and one row per new chunk is appended.
    #[verifier::spinoff_prover]
    pub fn index_with_skeleton(
        &mut self,
        path: String,
        content: &str,
        embeddings: Vec<Vec<i16>>,
        skeleton_compressed: Vec<u8>,
    )
        requires
            old(self).wf(),
            embeddings@.len() == chunk_spans(content@, type_of_path(path@)).len(),
            forall|i: int| 0 <= i < embeddings@.len() ==> #[trigger] embeddings@[i]@.len() <= MAX_DIMENSIONS,
        ensures
            final(self).wf(),
            library_replaced(old(self).library(), final(self).library(), path@),
            engram_index(final(self).library(), path@) >= 0,
            fresh_engram(
                final(self).library()[engram_index(final(self).library(), path@)],
                path@,
                content@,
                embeddings@,
                skeleton_compressed@,
            ),
            final(self).rows().len() >= rows_without(old(self).rows(), path@).len(),
            final(self).rows().subrange(0, rows_without(old(self).rows(), path@).len() as int)
                == rows_without(old(self).rows(), path@),
            fresh_rows(
                final(self).rows().subrange(
                    rows_without(old(self).rows(), path@).len() as int,
                    final(self).rows().len() as int,
                ),
                path@,
                embeddings@,
            ),
    {
        let ghost old_lib = self.library@;
        let ghost old_rows = self.flat_index@;
        let ftype = detect_type(path.as_str());
        let spans = chunk_content(content, ftype);
        let mut chunks: Vec<Chunk> = Vec::new();
        let mut fresh: Vec<IndexRow> = Vec::new();
        let mut i: usize = 0;
        while i < spans.len()
            invariant
                spans@.len() == chunk_spans(content@, ftype).len(),
                spans@.len() == embeddings@.len(),
                forall|j: int|
                    0 <= j < spans@.len() ==> (#[trigger] spans@[j].0 as int, spans@[j].1 as int)
                        == chunk_spans(content@, ftype)[j],
                i <= spans@.len(),
                chunks@.len() == i,
                fresh@.len() == i,
                forall|j: int|
                    0 <= j < i ==> {
                        &&& (#[trigger] chunks@[j]).id == j
                        &&& chunks@[j].start_byte == spans@[j].0
                        &&& chunks@[j].end_byte == spans@[j].1
                        &&& chunks@[j].embedding@ == embeddings@[j]@
                        &&& chunks@[j].access_count == 0
                    },
                forall|j: int|
                    0 <= j < i ==> (#[trigger] fresh@[j]).0@ == path@ && fresh@[j].1 == j
                        && fresh@[j].2@ == embeddings@[j]@,
            decreases spans@.len() - i,
        {
            let chunk = Chunk {
                id: i,
                start_byte: spans[i].0,
                end_byte: spans[i].1,
                embedding: copy_vector(&embeddings[i]),
                access_count: 0,
            };
            chunks.push(chunk);
            fresh.push((path.clone(), i, copy_vector(&embeddings[i])));
            i = i + 1;
        }
        self.remove_rows_of(path.as_str());
        let ghost kept = self.flat_index@;
        let ghost added = fresh@;
        self.flat_index.append(&mut fresh);
        let found = self.find(path.as_str());
        let engram = Engram {
            path,
            file_type: ftype,
            hash: String::from_str("SHA256_STUB"),
            skeleton_compressed,
            entity_map: Vec::new(),
            synapses: Vec::new(),
            chunks,
        };
        proof {
            lemma_engram_index(old_lib, engram.path@);
        }
        match found {
            Some(k) => {
                self.library.set(k, engram);
            },
            None => {
                self.library.push(engram);
            },
        }
        proof {
            let lib = self.library@;
            let p = engram.path@;
            assert(paths_unique(lib)) by {
                assert forall|a: int, b: int| 0 <= a < b < lib.len() implies #[trigger] lib[a].path@
                    != #[trigger] lib[b].path@ by {
                    if a < old_lib.len() && b < old_lib.len() {
                        if found is Some {
                            let k = engram_index(old_lib, p);
                            if a != k && b != k {
                                assert(lib[a] == old_lib[a]);
                                assert(lib[b] == old_lib[b]);
                            } else if a == k {
                                assert(lib[b] == old_lib[b]);
                            } else {
                                assert(lib[a] == old_lib[a]);
                            }
                        } else {
                            assert(lib[a] == old_lib[a]);
                            assert(lib[b] == old_lib[b]);
                        }
                    } else {
                        assert(lib[a] == old_lib[a]);
                    }
                }
            }
            lemma_engram_index(lib, p);
            let kn = engram_index(lib, p);
            if found is Some {
                assert(lib[engram_index(old_lib, p)].path@ == p);
            } else {
                assert(lib[old_lib.len() as int].path@ == p);
            }
            assert(lib[kn] == engram);
            assert forall|k: int| 0 <= k < lib.len() implies chunks_valid(#[trigger] lib[k]) by {
                if k != kn {
                    assert(lib[k] == old_lib[k]);
                }
            }
            assert forall|k: int| 0 <= k < lib.len() implies entity_keys_unique(#[trigger] lib[k]) by {
                if k != kn {
                    assert(lib[k] == old_lib[k]);
                    assert(entity_keys_unique(old_lib[k]));
                }
            }
            lemma_rows_without(old_rows, p);
            let rows = self.flat_index@;
            let nk = kept.len() as int;
            assert(rows.subrange(0, nk) =~= kept);
            assert(rows.subrange(nk, rows.len() as int) =~= added);
            lemma_rows_without_unique(old_rows, p);
            assert forall|a: int, b: int| 0 <= a < b < rows.len() implies !(#[trigger] rows[a].0@
                == #[trigger] rows[b].0@ && rows[a].1 == rows[b].1) by {
                if b < nk {
                    assert(rows[a] == kept[a] && rows[b] == kept[b]);
                } else if a < nk {
                    assert(rows[a] == kept[a]);
                    assert(rows[b] == added[b - nk]);
                } else {
                    assert(rows[a] == added[a - nk] && rows[b] == added[b - nk]);
                }
            }
            assert forall|r: int| 0 <= r < rows.len() implies row_valid(lib, #[trigger] rows[r]) by {
                if r < nk {
                    assert(rows[r] == kept[r]);
                    let j = choose|j: int| 0 <= j < old_rows.len() && old_rows[j] == kept[r];
                    assert(row_valid(old_lib, old_rows[j]));
                    lemma_other_paths_kept(old_lib, lib, p, rows[r].0@);
                    let q = engram_index(old_lib, rows[r].0@);
                    lemma_engram_index(old_lib, rows[r].0@);
                    assert(old_lib[q].path@ != p);
                    assert(lib[q] == old_lib[q]);
                } else {
                    assert(rows[r] == added[r - nk]);
                }
            }
        }
    }

    /// Removes every row of `path` from the flat index, keeping the order of
    /// the others.
    fn remove_rows_of(&mut self, path: &str)
        requires
            old(self).wf(),
        ensures
            final(self).library() == old(self).library(),
            final(self).rows() == rows_without(old(self).rows(), path@),
    {
        let ghost orig = self.flat_index@;
        let mut i: usize = 0;
        let ghost mut j: int = 0;
        assert(orig.subrange(0, 0) =~= Seq::<IndexRow>::empty());
        assert(orig.subrange(0, orig.len() as int) =~= orig);
        while i < self.flat_index.len()
            invariant
                self.library@ == old(self).library@,
                0 <= i <= j <= orig.len(),
                self.flat_index@.len() == i + (orig.len() - j),
                self.flat_index@.subrange(0, i as int) == rows_without(orig.subrange(0, j), path@),
                self.flat_index@.subrange(i as int, self.flat_index@.len() as int) == orig.subrange(
                    j,
                    orig.len() as int,
                ),
            decreases orig.len() - j,
        {
            let ghost before = self.flat_index@;
            assert(before[i as int] == orig[j]) by {
                assert(before.subrange(i as int, before.len() as int)[0] == orig.subrange(
                    j,
                    orig.len() as int,
                )[0]);
            }
            assert(orig.subrange(0, j + 1).drop_last() =~= orig.subrange(0, j));
            if same_text(self.flat_index[i].0.as_str(), path) {
                self.flat_index.remove(i);
                let ghost after = self.flat_index@;
                assert(after.subrange(0, i as int) =~= before.subrange(0, i as int));
                assert forall|t: int| 0 <= t < after.len() - i implies #[trigger] after.subrange(
                    i as int,
                    after.len() as int,
                )[t] == orig.subrange(j + 1, orig.len() as int)[t] by {
                    assert(after[i + t] == before[i + t + 1]);
                    assert(before.subrange(i as int, before.len() as int)[t + 1] == orig.subrange(
                        j,
                        orig.len() as int,
                    )[t + 1]);
                }
                assert(after.len() - i == orig.len() - (j + 1));
                assert(after.subrange(i as int, after.len() as int) =~= orig.subrange(
                    j + 1,
                    orig.len() as int,
                ));
            } else {
                assert forall|t: int| 0 <= t < before.len() - i - 1 implies #[trigger] before.subrange(
                    i + 1,
                    before.len() as int,
                )[t] == orig.subrange(j + 1, orig.len() as int)[t] by {
                    assert(before.subrange(i as int, before.len() as int)[t + 1] == orig.subrange(
                        j,
                        orig.len() as int,
                    )[t + 1]);
                }
                assert(before.len() - (i + 1) == orig.len() - (j + 1));
                assert(self.flat_index@.subrange(0, i + 1) =~= before.subrange(0, i as int).push(
                    before[i as int],
                ));
                assert(self.flat_index@.subrange(i + 1, before.len() as int) =~= orig.subrange(
                    j + 1,
                    orig.len() as int,
                ));
                i = i + 1;
            }
            proof {
                j = j + 1;
            }
        }
        assert(self.flat_index@ =~= self.flat_index@.subrange(0, i as int));
        assert(orig.subrange(0, j) =~= orig);
    }

    /// Indexes the file at `path` with text `content`: as `index_with_skeleton`,
    /// with the skeleton compressed by `compress_skeleton`, which succeeds.
    /// Were the compressor to fail, the store would be left as it was.
    pub fn index_file(&mut self, path: String, content: &str, embeddings: Vec<Vec<i16>>) -> (r:
        Result<(), IndexError>)
        requires
            old(self).wf(),
            embeddings@.len() == chunk_spans(content@, type_of_path(path@)).len(),
            forall|i: int| 0 <= i < embeddings@.len() ==> #[trigger] embeddings@[i]@.len() <= MAX_DIMENSIONS,
        ensures
            final(self).wf(),
            r is Ok,
            r matches Err(e) ==> e is Compression && final(self).library() == old(self).library()
                && final(self).rows() == old(self).rows(),
            r is Ok ==> {
                &&& library_replaced(old(self).library(), final(self).library(), path@)
                &&& engram_index(final(self).library(), path@) >= 0
                &&& fresh_engram(
                    final(self).library()[engram_index(final(self).library(), path@)],
                    path@,
                    content@,
                    embeddings@,
                    zstd_frame(encode_utf8(skeleton_text(path@)), COMPRESSION_LEVEL as int),
                )
                &&& final(self).rows().len() >= rows_without(old(self).rows(), path@).len()
                &&& final(self).rows().subrange(0, rows_without(old(self).rows(), path@).len() as int)
                    == rows_without(old(self).rows(), path@)
                &&& fresh_rows(
                    final(self).rows().subrange(
                        rows_without(old(self).rows(), path@).len() as int,
                        final(self).rows().len() as int,
                    ),
                    path@,
                    embeddings@,
                )
            },
    {
        match compress_skeleton(path.as_str()) {
            Ok(skeleton) => {
                self.index_with_skeleton(path, content, embeddings, skeleton);
                Ok(())
            },
            Err(e) => Err(e),
        }
    }

    /// Strengthens one memory: the access count of chunk `chunk_id` of the
    /// file at `path` goes up by one (held at `u32::MAX`). Unknown paths and
    /// ids change nothing.
    #[verifier::spinoff_prover]
    pub fn reinforce(&mut self, path: &str, chunk_id: usize)
        requires
            old(self).wf(),
        ensures
            final(self).wf(),
            final(self).rows() == old(self).rows(),
            reinforced(old(self).library(), final(self).library(), path@, chunk_id as int),
            access_count_of(old(self).library(), path@, chunk_id as int) matches Some(c)
                ==> access_count_of(final(self).library(), path@, chunk_id as int) == Some(
                bumped(c),
            ),
            same_but_counts(old(self).library(), final(self).library()),
            forall|q: Seq<char>, j: int|
                #![trigger access_count_of(final(self).library(), q, j)]
                access_count_of(final(self).library(), q, j) == bump_opt(
                    access_count_of(old(self).library(), q, j),
                    if q == path@ && j == chunk_id {
                        1nat
                    } else {
                        0nat
                    },
                ),
    {
        let ghost old_lib = self.library@;
        proof {
            lemma_engram_index(old_lib, path@);
        }
        match self.find(path) {
            Some(k) => {
                if chunk_id < self.library[k].chunks.len() {
                    let mut engram = self.library.remove(k);
                    let mut chunk = engram.chunks.remove(chunk_id);
                    if chunk.access_count < u32::MAX {
                        chunk.access_count = chunk.access_count + 1;
                    }
                    engram.chunks.insert(chunk_id, chunk);
                    self.library.insert(k, engram);
                    proof {
                        let lib = self.library@;
                        let e = old_lib[k as int];
                        let f = lib[k as int];
                        assert forall|c: int| 0 <= c < e.chunks@.len() && c != chunk_id implies #[trigger] f.chunks@[c] == e.chunks@[c] by {}
                        assert forall|j: int| 0 <= j < old_lib.len() && j != k implies #[trigger] lib[j] == old_lib[j] by {}
                    }
                } else {
                }
            },
            None => {},
        }
        proof {
            let lib = self.library@;
            assert(old_lib == old(self).library());
            assert(self.flat_index@ == old(self).rows());
            assert(reinforced(old_lib, lib, path@, chunk_id as int));
            lemma_reinforced_facts(old_lib, lib, path@, chunk_id as int);
            let rows = self.flat_index@;
            assert forall|r: int| 0 <= r < rows.len() implies row_valid(lib, #[trigger] rows[r]) by {
                assert(row_valid(old_lib, rows[r]));
            }
        }
    }

    /// Links the file at `source` to `target` with the given strength (in
    /// units of `1 / SCALE`). Unknown sources change nothing; the target is
    /// not checked, and duplicate or cyclic links are kept.
    #[verifier::spinoff_prover]
    pub fn forge_synapse(&mut self, source: &str, target: String, strength: u32)
        requires
            old(self).wf(),
        ensures
            final(self).wf(),
            final(self).rows() == old(self).rows(),
            final(self).library().len() == old(self).library().len(),
            forall|j: int|
                0 <= j < old(self).library().len() && j != engram_index(old(self).library(), source@)
                    ==> #[trigger] final(self).library()[j] == old(self).library()[j],
            engram_index(old(self).library(), source@) >= 0 ==> {
                let k = engram_index(old(self).library(), source@);
                let e = old(self).library()[k];
                let f = final(self).library()[k];
                &&& f.path == e.path
                &&& f.file_type == e.file_type
                &&& f.hash == e.hash
                &&& f.skeleton_compressed == e.skeleton_compressed
                &&& f.entity_map == e.entity_map
                &&& f.chunks == e.chunks
                &&& f.synapses@.len() == e.synapses@.len() + 1
                &&& f.synapses@.subrange(0, e.synapses@.len() as int) == e.synapses@
                &&& f.synapses@.last().target@ == target@
                &&& f.synapses@.last().strength == strength
            },
    {
        let ghost old_lib = self.library@;
        proof {
            lemma_engram_index(old_lib, source@);
        }
        match self.find(source) {
            Some(k) => {
                let mut engram = self.library.remove(k);
                engram.synapses.push(Synapse { target, strength });
                self.library.insert(k, engram);
                proof {
                    let lib = self.library@;
                    assert forall|j: int| 0 <= j < old_lib.len() && j != k implies #[trigger] lib[j] == old_lib[j] by {}
                    assert(lib[k as int].entity_map == old_lib[k as int].entity_map);
                    assert(lib[k as int].chunks == old_lib[k as int].chunks);
                    assert(lib[k as int].synapses@.subrange(0, old_lib[k as int].synapses@.len() as int) =~= old_lib[k as int].synapses@);
                }
            },
            None => {},
        }
        proof {
            let lib = self.library@;
            assert(old_lib == old(self).library());
            assert(self.flat_index@ == old(self).rows());
            lemma_same_paths(old_lib, lib);
            assert(paths_unique(lib)) by {
                assert forall|a: int, b: int| 0 <= a < b < lib.len() implies #[trigger] lib[a].path@
                    != #[trigger] lib[b].path@ by {
                    assert(lib[a].path == old_lib[a].path);
                    assert(lib[b].path == old_lib[b].path);
                }
            }
            let k = engram_index(old_lib, source@);
            assert forall|j: int| 0 <= j < lib.len() implies chunks_valid(#[trigger] lib[j]) by {
                if j != k {
                    assert(lib[j] == old_lib[j]);
                } else {
                    assert(chunks_valid(old_lib[j]));
                }
            }
            assert forall|j: int| 0 <= j < lib.len() implies entity_keys_unique(#[trigger] lib[j]) by {
                assert(entity_keys_unique(old_lib[j]));
                if j != k {
                    assert(lib[j] == old_lib[j]);
                } else {
                    assert(lib[j].entity_map == old_lib[j].entity_map);
                }
            }
            let rows = self.flat_index@;
            assert forall|r: int| 0 <= r < rows.len() implies row_valid(lib, #[trigger] rows[r]) by {
                assert(row_valid(old_lib, rows[r]));
                lemma_engram_index(old_lib, rows[r].0@);
                let q = engram_index(old_lib, rows[r].0@);
                if q != k {
                    assert(lib[q] == old_lib[q]);
                }
            }
        }
    }

    /// The access count of chunk `chunk_id` of the file at `path`, if that
    /// chunk exists.
    pub fn access_count(&self, path: &str, chunk_id: usize) -> (r: Option<u32>)
        ensures
            r == access_count_of(self.library(), path@, chunk_id as int),
    {
        proof {
            lemma_engram_index(self.library(), path@);
        }
        match self.find(path) {
            Some(k) => {
                if chunk_id < self.library[k].chunks.len() {
                    Some(self.library[k].chunks[chunk_id].access_count)
                } else {
                    None
                }
            },
            None => None,
        }
    }

    /// However often files are indexed again, the flat index holds no stale
    /// row: each row names a chunk that the current engram of its path has,
    /// with that chunk's vector, and no chunk has two rows.
    pub proof fn lemma_no_stale_rows(&self)
        requires
            self.wf(),
        ensures
            forall|r: int|
                0 <= r < self.rows().len() ==> {
                    let row = #[trigger] self.rows()[r];
                    let k = engram_index(self.library(), row.0@);
                    &&& 0 <= k < self.library().len()
                    &&& row.1 < self.library()[k].chunks@.len()
                    &&& self.library()[k].chunks@[row.1 as int].embedding@ == row.2@
                },
            row_keys_unique(self.rows()),
    {
        assert forall|r: int| 0 <= r < self.rows().len() implies {
            let row = #[trigger] self.rows()[r];
            let k = engram_index(self.library(), row.0@);
            &&& 0 <= k < self.library().len()
            &&& row.1 < self.library()[k].chunks@.len()
            &&& self.library()[k].chunks@[row.1 as int].embedding@ == row.2@
        } by {
            assert(row_valid(self.library(), self.rows()[r]));
            lemma_engram_index(self.library(), self.rows()[r].0@);
        }
    }

    /// Every row of the flat index holds a vector that fits the similarity
    /// arithmetic.
    pub proof fn lemma_row_vectors_fit(&self)
        requires
            self.wf(),
        ensures
            forall|r: int|
                0 <= r < self.rows().len() ==> (#[trigger] self.rows()[r]).2@.len() <= MAX_DIMENSIONS,
    {
        assert forall|r: int| 0 <= r < self.rows().len() implies (#[trigger] self.rows()[r]).2@.len()
            <= MAX_DIMENSIONS by {
            let row = self.rows()[r];
            assert(row_valid(self.library(), row));
            let k = engram_index(self.library(), row.0@);
            lemma_engram_index(self.library(), row.0@);
            assert(chunks_valid(self.library()[k]));
            assert(self.library()[k].chunks@[row.1 as int].id == row.1);
        }
    }

    /// The engram for `path`, if that file is indexed.
    pub fn engram(&self, path: &str) -> (r: Option<&Engram>)
        ensures
            engram_index(self.library(), path@) >= 0 ==> r == Some(
                &self.library()[engram_index(self.library(), path@)],
            ),
            engram_index(self.library(), path@) < 0 ==> r is None,
    {
        proof {
            lemma_engram_index(self.library(), path@);
        }
        match self.find(path) {
            Some(k) => Some(&self.library[k]),
            None => None,
        }
    }
}

} // verus!
