//! Retrieval: initial activation by keywords and vector similarity,
//! spreading along synapses, and assembly of the chunks that stay active.
use vstd::prelude::*;
use crate::engram::{Engram, Synapse};
use crate::memory::{
    access_count_of, bump_opt, engram_index, lemma_engram_index, lemma_same_but_counts_trans,
    same_but_counts, IndexRow, MemorySystem,
};
use vstd::utf8::{encode_utf8, is_char_boundary};
use vstd::string::StringSliceAdditionalSpecFns;
use crate::similarity::{cosine, cosine_similarity, MAX_DIMENSIONS, SCALE};
use crate::text::{contains_text, same_text, text_contains};
use crate::chunker::cut;

verus! {

/// Score of a chunk named by a keyword the query contains (1.5).
pub const KEYWORD_SCORE: u64 = 1_500_000;

/// A vector hit must score above this (0.7) to activate its chunk.
pub const VECTOR_THRESHOLD: u64 = 700_000;

/// Only activations above this (0.8) spread along synapses.
pub const SPREAD_THRESHOLD: u64 = 800_000;

/// Activations above this (0.75) are assembled into the result.
pub const ASSEMBLY_THRESHOLD: u64 = 750_000;

/// Boost per recall of a chunk (0.01).
pub const BOOST_PER_ACCESS: u64 = 10_000;

/// The largest score of a chunk before spreading: a full similarity at the
/// largest access count.
pub const MAX_DIRECT_SCORE: u64 = 42_949_673_950_000;

/// An activated chunk: file path, chunk id, and score in units of `1 / SCALE`.
pub type Activation = (String, usize, u64);

/// An activation as plain values.
pub type Act = (Seq<char>, int, int);

pub open spec fn act_view(a: Seq<Activation>) -> Seq<Act> {
    a.map_values(|x: Activation| (x.0@, x.1 as int, x.2 as int))
}

/// The position of the activation of chunk `id` of `path` (its last one), or -1.
pub open spec fn key_index(acts: Seq<Act>, path: Seq<char>, id: int) -> int
    decreases acts.len(),
{
    if acts.len() == 0 {
        -1
    } else if acts.last().0 == path && acts.last().1 == id {
        acts.len() - 1
    } else {
        key_index(acts.drop_last(), path, id)
    }
}

/// The score of chunk `id` of `path`; 0 where it is not active.
pub open spec fn score_of(acts: Seq<Act>, path: Seq<char>, id: int) -> int {
    let k = key_index(acts, path, id);
    if 0 <= k < acts.len() {
        acts[k].2
    } else {
        0
    }
}

/// Sets the score of chunk `id` of `path`, in place where it is active,
/// appended where it is not.
pub open spec fn put(acts: Seq<Act>, path: Seq<char>, id: int, v: int) -> Seq<Act> {
    let k = key_index(acts, path, id);
    if 0 <= k < acts.len() {
        acts.update(k, (path, id, v))
    } else {
        acts.push((path, id, v))
    }
}

/// Keyword hits of one keyword: each chunk it names gets `KEYWORD_SCORE`.
pub open spec fn keyword_ids(acts: Seq<Act>, path: Seq<char>, ids: Seq<usize>) -> Seq<Act>
    decreases ids.len(),
{
    if ids.len() == 0 {
        acts
    } else {
        put(keyword_ids(acts, path, ids.drop_last()), path, ids.last() as int, KEYWORD_SCORE as int)
    }
}

/// Keyword hits of the keywords of one file that the query contains.
pub open spec fn keyword_entities(
    acts: Seq<Act>,
    path: Seq<char>,
    entities: Seq<(String, Vec<usize>)>,
    query: Seq<char>,
) -> Seq<Act>
    decreases entities.len(),
{
    if entities.len() == 0 {
        acts
    } else {
        let prev = keyword_entities(acts, path, entities.drop_last(), query);
        if text_contains(query, entities.last().0@) {
            keyword_ids(prev, path, entities.last().1@)
        } else {
            prev
        }
    }
}

/// Keyword hits over the whole library, file by file.
pub open spec fn keyword_phase(acts: Seq<Act>, lib: Seq<Engram>, query: Seq<char>) -> Seq<Act>
    decreases lib.len(),
{
    if lib.len() == 0 {
        acts
    } else {
        let prev = keyword_phase(acts, lib.drop_last(), query);
        keyword_entities(prev, lib.last().path@, lib.last().entity_map@, query)
    }
}

fn find_key(acts: &Vec<Activation>, path: &str, id: usize) -> (r: Option<usize>)
    ensures
        match r {
            Some(k) => k == key_index(act_view(acts@), path@, id as int) && k < acts@.len(),
            None => key_index(act_view(acts@), path@, id as int) == -1,
        },
{
    let mut i = acts.len();
    assert(act_view(acts@).subrange(0, i as int) =~= act_view(acts@));
    while i > 0
        invariant
            i <= acts@.len(),
            key_index(act_view(acts@), path@, id as int) == key_index(
                act_view(acts@).subrange(0, i as int),
                path@,
                id as int,
            ),
        decreases i,
    {
        if acts[i - 1].1 == id && same_text(acts[i - 1].0.as_str(), path) {
            return Some(i - 1);
        }
        assert(act_view(acts@).subrange(0, i as int).drop_last() =~= act_view(acts@).subrange(
            0,
            i - 1,
        ));
        i = i - 1;
    }
    None
}

proof fn lemma_key_index_bounds(acts: Seq<Act>, path: Seq<char>, id: int)
    ensures
        -1 <= key_index(acts, path, id) < acts.len(),
    decreases acts.len(),
{
    if acts.len() > 0 {
        lemma_key_index_bounds(acts.drop_last(), path, id);
    }
}

/// The current score of chunk `id` of `path`.
fn score_at(acts: &Vec<Activation>, path: &str, id: usize) -> (r: u64)
    ensures
        r == score_of(act_view(acts@), path@, id as int),
{
    match find_key(acts, path, id) {
        Some(k) => acts[k].2,
        None => 0,
    }
}

/// Sets the score of chunk `id` of `path`.
fn put_score(acts: &mut Vec<Activation>, path: &str, id: usize, v: u64)
    ensures
        act_view(final(acts)@) == put(act_view(old(acts)@), path@, id as int, v as int),
{
    proof {
        lemma_key_index_bounds(act_view(acts@), path@, id as int);
    }
    match find_key(acts, path, id) {
        Some(k) => {
            acts.set(k, (String::from_str(path), id, v));
            assert(act_view(acts@) =~= act_view(old(acts)@).update(
                k as int,
                (path@, id as int, v as int),
            ));
        },
        None => {
            acts.push((String::from_str(path), id, v));
            assert(act_view(acts@) =~= act_view(old(acts)@).push((path@, id as int, v as int)));
        },
    }
}

proof fn lemma_key_index_last(acts: Seq<Act>, path: Seq<char>, id: int)
    ensures
        -1 <= key_index(acts, path, id) < acts.len(),
        key_index(acts, path, id) >= 0 ==> acts[key_index(acts, path, id)].0 == path
            && acts[key_index(acts, path, id)].1 == id,
        forall|i: int|
            key_index(acts, path, id) < i < acts.len() ==> !((#[trigger] acts[i]).0 == path
                && acts[i].1 == id),
    decreases acts.len(),
{
    if acts.len() > 0 {
        let d = acts.drop_last();
        lemma_key_index_last(d, path, id);
        assert forall|i: int| key_index(acts, path, id) < i < acts.len() implies !((
        #[trigger] acts[i]).0 == path && acts[i].1 == id) by {
            if i < acts.len() - 1 {
                assert(acts[i] == d[i]);
            }
        }
    }
}

/// `k` is the last position holding the key, or -1 where none does: then
/// it is what `key_index` gives.
proof fn lemma_key_index_is(acts: Seq<Act>, path: Seq<char>, id: int, k: int)
    requires
        -1 <= k < acts.len(),
        k >= 0 ==> acts[k].0 == path && acts[k].1 == id,
        forall|i: int| k < i < acts.len() ==> !((#[trigger] acts[i]).0 == path && acts[i].1 == id),
    ensures
        key_index(acts, path, id) == k,
{
    lemma_key_index_last(acts, path, id);
    let m = key_index(acts, path, id);
    if m < k {
        assert(!(acts[k].0 == path && acts[k].1 == id));
    } else if m > k {
        assert(!(acts[m].0 == path && acts[m].1 == id));
    }
}

/// Setting one score leaves every other score as it was.
pub proof fn lemma_score_of_put(acts: Seq<Act>, path: Seq<char>, id: int, v: int, q: Seq<char>, j: int)
    ensures
        score_of(put(acts, path, id, v), q, j) == if q == path && j == id {
            v
        } else {
            score_of(acts, q, j)
        },
{
    lemma_key_index_last(acts, path, id);
    lemma_key_index_last(acts, q, j);
    let k = key_index(acts, path, id);
    let m = key_index(acts, q, j);
    let n = put(acts, path, id, v);
    if q == path && j == id {
        if k >= 0 {
            assert forall|i: int| k < i < n.len() implies !((#[trigger] n[i]).0 == q && n[i].1 == j) by {
                assert(n[i] == acts[i]);
            }
            lemma_key_index_is(n, q, j, k);
        } else {
            lemma_key_index_is(n, q, j, acts.len() as int);
        }
    } else {
        assert(m != k || m == -1);
        assert forall|i: int| m < i < n.len() implies !((#[trigger] n[i]).0 == q && n[i].1 == j) by {
            if i < acts.len() && i != k {
                assert(n[i] == acts[i]);
            }
        }
        if m >= 0 {
            assert(m != k);
            assert(n[m] == acts[m]);
        }
        lemma_key_index_is(n, q, j, m);
    }
}

/// The score of the first chunk of `target` after the transmissions `ts`
/// reach it, starting from `score`: each one aimed at `target` adds, held
/// at `u64::MAX`.
pub open spec fn received(score: int, ts: Seq<(Seq<char>, int)>, target: Seq<char>) -> int
    decreases ts.len(),
{
    if ts.len() == 0 {
        score
    } else {
        let prev = received(score, ts.drop_last(), target);
        if ts.last().0 == target {
            capped(prev + ts.last().1)
        } else {
            prev
        }
    }
}

/// Spreading adds along synapses and lands on first chunks only: after the
/// transmissions, the first chunk of a file holds its own score plus every
/// transmission aimed at it (each sum held at `u64::MAX`), and every other
/// chunk keeps its score.
pub proof fn lemma_spreading_adds(acts: Seq<Act>, ts: Seq<(Seq<char>, int)>, q: Seq<char>, j: int)
    ensures
        j == 0 ==> score_of(apply_transmissions(acts, ts), q, j) == received(
            score_of(acts, q, 0),
            ts,
            q,
        ),
        j != 0 ==> score_of(apply_transmissions(acts, ts), q, j) == score_of(acts, q, j),
    decreases ts.len(),
{
    if ts.len() > 0 {
        let d = ts.drop_last();
        lemma_spreading_adds(acts, d, q, j);
        let prev = apply_transmissions(acts, d);
        let t = ts.last();
        lemma_score_of_put(prev, t.0, 0, capped(score_of(prev, t.0, 0) + t.1), q, j);
    }
}

/// No chunk is active twice.
pub open spec fn keys_unique(acts: Seq<Act>) -> bool {
    forall|i: int, j: int|
        0 <= i < j < acts.len() ==> !(#[trigger] acts[i].0 == #[trigger] acts[j].0 && acts[i].1
            == acts[j].1)
}

proof fn lemma_put_unique(acts: Seq<Act>, path: Seq<char>, id: int, v: int)
    requires
        keys_unique(acts),
    ensures
        keys_unique(put(acts, path, id, v)),
{
    lemma_key_index_last(acts, path, id);
    let k = key_index(acts, path, id);
    let n = put(acts, path, id, v);
    assert forall|a: int, b: int| 0 <= a < b < n.len() implies !(#[trigger] n[a].0 == #[trigger] n[b].0
        && n[a].1 == n[b].1) by {
        if b == acts.len() {
            assert(n[a] == acts[a]);
        } else {
            if a != k {
                assert(n[a] == acts[a]);
            }
            if b != k {
                assert(n[b] == acts[b]);
            }
        }
    }
}

proof fn lemma_keyword_ids_unique(acts: Seq<Act>, path: Seq<char>, ids: Seq<usize>)
    requires
        keys_unique(acts),
    ensures
        keys_unique(keyword_ids(acts, path, ids)),
    decreases ids.len(),
{
    if ids.len() > 0 {
        lemma_keyword_ids_unique(acts, path, ids.drop_last());
        lemma_put_unique(
            keyword_ids(acts, path, ids.drop_last()),
            path,
            ids.last() as int,
            KEYWORD_SCORE as int,
        );
    }
}

proof fn lemma_keyword_entities_unique(
    acts: Seq<Act>,
    path: Seq<char>,
    entities: Seq<(String, Vec<usize>)>,
    query: Seq<char>,
)
    requires
        keys_unique(acts),
    ensures
        keys_unique(keyword_entities(acts, path, entities, query)),
    decreases entities.len(),
{
    if entities.len() > 0 {
        lemma_keyword_entities_unique(acts, path, entities.drop_last(), query);
        lemma_keyword_ids_unique(
            keyword_entities(acts, path, entities.drop_last(), query),
            path,
            entities.last().1@,
        );
    }
}

proof fn lemma_keyword_phase_unique(acts: Seq<Act>, lib: Seq<Engram>, query: Seq<char>)
    requires
        keys_unique(acts),
    ensures
        keys_unique(keyword_phase(acts, lib, query)),
    decreases lib.len(),
{
    if lib.len() > 0 {
        lemma_keyword_phase_unique(acts, lib.drop_last(), query);
        lemma_keyword_entities_unique(
            keyword_phase(acts, lib.drop_last(), query),
            lib.last().path@,
            lib.last().entity_map@,
            query,
        );
    }
}

proof fn lemma_vector_phase_unique(
    acts: Seq<Act>,
    lib: Seq<Engram>,
    rows: Seq<IndexRow>,
    query_vec: Seq<i16>,
)
    requires
        keys_unique(acts),
    ensures
        keys_unique(vector_phase(acts, lib, rows, query_vec)),
    decreases rows.len(),
{
    if rows.len() > 0 {
        lemma_vector_phase_unique(acts, lib, rows.drop_last(), query_vec);
        let prev = vector_phase(acts, lib, rows.drop_last(), query_vec);
        let r = rows.last();
        let sc = vector_score(lib, r, query_vec);
        let cur = score_of(prev, r.0@, r.1 as int);
        lemma_put_unique(
            prev,
            r.0@,
            r.1 as int,
            if cur >= sc {
                cur
            } else {
                sc
            },
        );
    }
}

proof fn lemma_apply_unique(acts: Seq<Act>, ts: Seq<(Seq<char>, int)>)
    requires
        keys_unique(acts),
    ensures
        keys_unique(apply_transmissions(acts, ts)),
    decreases ts.len(),
{
    if ts.len() > 0 {
        lemma_apply_unique(acts, ts.drop_last());
        let prev = apply_transmissions(acts, ts.drop_last());
        let t = ts.last();
        lemma_put_unique(prev, t.0, 0, capped(score_of(prev, t.0, 0) + t.1));
    }
}

/// How many activations of chunk `id` of `path` are above
/// `ASSEMBLY_THRESHOLD`.
pub open spec fn hit_count(acts: Seq<Act>, path: Seq<char>, id: int) -> nat
    decreases acts.len(),
{
    if acts.len() == 0 {
        0
    } else {
        hit_count(acts.drop_last(), path, id) + if acts.last().0 == path && acts.last().1 == id
            && acts.last().2 > ASSEMBLY_THRESHOLD {
            1nat
        } else {
            0nat
        }
    }
}

proof fn lemma_hit_count_unique(acts: Seq<Act>, path: Seq<char>, id: int)
    requires
        keys_unique(acts),
    ensures
        hit_count(acts, path, id) == if score_of(acts, path, id) > ASSEMBLY_THRESHOLD {
            1nat
        } else {
            0nat
        },
    decreases acts.len(),
{
    if acts.len() > 0 {
        let d = acts.drop_last();
        assert(keys_unique(d)) by {
            assert forall|a: int, b: int| 0 <= a < b < d.len() implies !(#[trigger] d[a].0
                == #[trigger] d[b].0 && d[a].1 == d[b].1) by {
                assert(d[a] == acts[a] && d[b] == acts[b]);
            }
        }
        lemma_hit_count_unique(d, path, id);
        lemma_key_index_last(d, path, id);
        let x = acts.last();
        if x.0 == path && x.1 == id {
            let m = key_index(d, path, id);
            if m >= 0 {
                assert(d[m] == acts[m]);
                assert(false);
            }
        }
    }
}

/// How often a group list holds chunk `id` of `path`, from one group.
pub open spec fn group_count(g: Group, path: Seq<char>, id: int) -> nat {
    if g.0 == path {
        count(g.1, id)
    } else {
        0
    }
}

proof fn lemma_occurrences_update(gs: Seq<Group>, k: int, x: Group, path: Seq<char>, id: int)
    requires
        0 <= k < gs.len(),
    ensures
        occurrences(gs.update(k, x), path, id) + group_count(gs[k], path, id) == occurrences(
            gs,
            path,
            id,
        ) + group_count(x, path, id),
    decreases gs.len(),
{
    let u = gs.update(k, x);
    if k == gs.len() - 1 {
        assert(u.drop_last() =~= gs.drop_last());
    } else {
        assert(u.drop_last() =~= gs.drop_last().update(k, x));
        lemma_occurrences_update(gs.drop_last(), k, x, path, id);
    }
}

proof fn lemma_occurrences_grouped(acts: Seq<Act>, path: Seq<char>, id: int)
    ensures
        occurrences(grouped_hits(acts), path, id) == hit_count(acts, path, id),
    decreases acts.len(),
{
    if acts.len() > 0 {
        let d = acts.drop_last();
        lemma_occurrences_grouped(d, path, id);
        let prev = grouped_hits(d);
        let a = acts.last();
        if a.2 > ASSEMBLY_THRESHOLD {
            let g = group_index(prev, a.0);
            lemma_group_index_bounds(prev, a.0);
            if 0 <= g < prev.len() {
                let x = (a.0, prev[g].1.push(a.1));
                lemma_occurrences_update(prev, g, x, path, id);
                assert(x.1.drop_last() =~= prev[g].1);
                assert(count(x.1, id) == count(prev[g].1, id) + if a.1 == id {
                    1nat
                } else {
                    0nat
                });
                assert(grouped_hits(acts) == prev.update(g, x));
            } else {
                let x = (a.0, seq![a.1]);
                assert(prev.push(x).drop_last() =~= prev);
                assert(x.1.drop_last() =~= Seq::<int>::empty());
                assert(count(x.1.drop_last(), id) == 0);
                assert(x.1.len() == 1 && x.1.last() == a.1);
                assert(count(x.1, id) == if a.1 == id {
                    1nat
                } else {
                    0nat
                });
                assert(grouped_hits(acts) == prev.push(x));
                assert(occurrences(prev.push(x), path, id) == occurrences(prev, path, id)
                    + group_count(x, path, id));
            }
        } else {
            assert(grouped_hits(acts) == prev);
        }
    }
}

/// A query recalls a chunk exactly when its score after spreading is above
/// `ASSEMBLY_THRESHOLD`, and then exactly once.
pub proof fn lemma_recalled_iff_above_threshold(
    lib: Seq<Engram>,
    rows: Seq<IndexRow>,
    query: Seq<char>,
    query_vec: Seq<i16>,
    path: Seq<char>,
    id: int,
)
    ensures
        occurrences(grouped_hits(activation_map(lib, rows, query, query_vec)), path, id) == if score_of(
            activation_map(lib, rows, query, query_vec),
            path,
            id,
        ) > ASSEMBLY_THRESHOLD {
            1nat
        } else {
            0nat
        },
{
    let direct = vector_phase(keyword_phase(Seq::empty(), lib, query), lib, rows, query_vec);
    lemma_keyword_phase_unique(Seq::empty(), lib, query);
    lemma_vector_phase_unique(keyword_phase(Seq::empty(), lib, query), lib, rows, query_vec);
    lemma_apply_unique(direct, transmissions(direct, lib));
    let acts = activation_map(lib, rows, query, query_vec);
    lemma_occurrences_grouped(acts, path, id);
    lemma_hit_count_unique(acts, path, id);
}

/// The activations of a query after phase one.
pub open spec fn direct_activation(
    lib: Seq<Engram>,
    rows: Seq<IndexRow>,
    query: Seq<char>,
    query_vec: Seq<i16>,
) -> Seq<Act> {
    vector_phase(keyword_phase(Seq::empty(), lib, query), lib, rows, query_vec)
}

/// For a query, the first chunk of a file ends with its phase-one score plus
/// every transmission aimed at the file in one hop from phase-one scores
/// above `SPREAD_THRESHOLD` (score times strength times 0.5 each); every
/// other chunk ends with its phase-one score.
pub proof fn lemma_query_spreading(
    lib: Seq<Engram>,
    rows: Seq<IndexRow>,
    query: Seq<char>,
    query_vec: Seq<i16>,
    path: Seq<char>,
    id: int,
)
    ensures
        ({
            let direct = direct_activation(lib, rows, query, query_vec);
            let fin = activation_map(lib, rows, query, query_vec);
            &&& id == 0 ==> score_of(fin, path, id) == received(
                score_of(direct, path, 0),
                transmissions(direct, lib),
                path,
            )
            &&& id != 0 ==> score_of(fin, path, id) == score_of(direct, path, id)
        }),
{
    let direct = direct_activation(lib, rows, query, query_vec);
    lemma_spreading_adds(direct, transmissions(direct, lib), path, id);
}

/// All scores are at most `b`.
pub open spec fn scores_at_most(acts: Seq<Act>, b: int) -> bool {
    forall|i: int| 0 <= i < acts.len() ==> #[trigger] acts[i].2 <= b
}

proof fn lemma_put_bounded(acts: Seq<Act>, path: Seq<char>, id: int, v: int, b: int)
    requires
        scores_at_most(acts, b),
        v <= b,
    ensures
        scores_at_most(put(acts, path, id, v), b),
{
}

/// Phase one, keywords: every chunk named by a keyword of its file that the
/// query contains is set to `KEYWORD_SCORE`, file by file in library order.
pub fn keyword_hits(lib: &Vec<Engram>, query: &str) -> (r: Vec<Activation>)
    ensures
        act_view(r@) == keyword_phase(Seq::empty(), lib@, query@),
        scores_at_most(act_view(r@), KEYWORD_SCORE as int),
{
    let mut acts: Vec<Activation> = Vec::new();
    let mut e: usize = 0;
    assert(act_view(acts@) =~= Seq::<Act>::empty());
    while e < lib.len()
        invariant
            e <= lib@.len(),
            act_view(acts@) == keyword_phase(Seq::empty(), lib@.subrange(0, e as int), query@),
            scores_at_most(act_view(acts@), KEYWORD_SCORE as int),
        decreases lib@.len() - e,
    {
        let engram = &lib[e];
        let ghost start = act_view(acts@);
        let mut t: usize = 0;
        assert(engram.entity_map@.subrange(0, 0) =~= Seq::<(String, Vec<usize>)>::empty());
        while t < engram.entity_map.len()
            invariant
                e < lib@.len(),
                engram == lib@[e as int],
                t <= engram.entity_map@.len(),
                act_view(acts@) == keyword_entities(
                    start,
                    engram.path@,
                    engram.entity_map@.subrange(0, t as int),
                    query@,
                ),
                scores_at_most(act_view(acts@), KEYWORD_SCORE as int),
            decreases engram.entity_map@.len() - t,
        {
            let entry = &engram.entity_map[t];
            let ghost before = act_view(acts@);
            if contains_text(query, entry.0.as_str()) {
                let mut n: usize = 0;
                assert(entry.1@.subrange(0, 0) =~= Seq::<usize>::empty());
                while n < entry.1.len()
                    invariant
                        n <= entry.1@.len(),
                        act_view(acts@) == keyword_ids(
                            before,
                            engram.path@,
                            entry.1@.subrange(0, n as int),
                        ),
                        scores_at_most(act_view(acts@), KEYWORD_SCORE as int),
                    decreases entry.1@.len() - n,
                {
                    proof {
                        lemma_put_bounded(
                            act_view(acts@),
                            engram.path@,
                            entry.1@[n as int] as int,
                            KEYWORD_SCORE as int,
                            KEYWORD_SCORE as int,
                        );
                    }
                    put_score(&mut acts, engram.path.as_str(), entry.1[n], KEYWORD_SCORE);
                    assert(entry.1@.subrange(0, n + 1).drop_last() =~= entry.1@.subrange(
                        0,
                        n as int,
                    ));
                    n = n + 1;
                }
                assert(entry.1@.subrange(0, n as int) =~= entry.1@);
            }
            assert(engram.entity_map@.subrange(0, t + 1).drop_last() =~= engram.entity_map@.subrange(
                0,
                t as int,
            ));
            t = t + 1;
        }
        assert(engram.entity_map@.subrange(0, t as int) =~= engram.entity_map@);
        assert(lib@.subrange(0, e + 1).drop_last() =~= lib@.subrange(0, e as int));
        e = e + 1;
    }
    assert(lib@.subrange(0, e as int) =~= lib@);
    acts
}

/// The recall boost of chunk `id` of `path`: 1 plus 0.01 per recall.
pub open spec fn boost(lib: Seq<Engram>, path: Seq<char>, id: int) -> int {
    match access_count_of(lib, path, id) {
        Some(c) => SCALE + c * BOOST_PER_ACCESS,
        None => SCALE as int,
    }
}

/// The score of a row of the flat index for the query vector: its cosine
/// similarity times the boost of its chunk; 0 where the similarity is not
/// positive.
pub open spec fn vector_score(lib: Seq<Engram>, row: IndexRow, query_vec: Seq<i16>) -> int {
    let sim = cosine(query_vec, row.2@);
    if sim > 0 {
        sim * boost(lib, row.0@, row.1 as int) / (SCALE as int)
    } else {
        0
    }
}

/// Phase one, vectors: each row, in order, whose score is above
/// `VECTOR_THRESHOLD` raises its chunk's score to at least that score.
pub open spec fn vector_phase(
    acts: Seq<Act>,
    lib: Seq<Engram>,
    rows: Seq<IndexRow>,
    query_vec: Seq<i16>,
) -> Seq<Act>
    decreases rows.len(),
{
    if rows.len() == 0 {
        acts
    } else {
        let prev = vector_phase(acts, lib, rows.drop_last(), query_vec);
        let r = rows.last();
        let s = vector_score(lib, r, query_vec);
        if s > VECTOR_THRESHOLD {
            let cur = score_of(prev, r.0@, r.1 as int);
            put(
                prev,
                r.0@,
                r.1 as int,
                if cur >= s {
                    cur
                } else {
                    s
                },
            )
        } else {
            prev
        }
    }
}

/// What one synapse carries from a score: score times strength times 0.5.
pub open spec fn transmission(score: int, s: Synapse) -> (Seq<char>, int) {
    (s.target@, capped(score * s.strength / (2 * SCALE)))
}

/// Phase two, the transmissions: every activation above `SPREAD_THRESHOLD`
/// sends one along each synapse of its file, in order.
pub open spec fn transmissions(acts: Seq<Act>, lib: Seq<Engram>) -> Seq<(Seq<char>, int)>
    decreases acts.len(),
{
    if acts.len() == 0 {
        Seq::empty()
    } else {
        let prev = transmissions(acts.drop_last(), lib);
        let a = acts.last();
        let k = engram_index(lib, a.0);
        if a.2 > SPREAD_THRESHOLD && 0 <= k < lib.len() {
            prev + lib[k].synapses@.map_values(|s: Synapse| transmission(a.2, s))
        } else {
            prev
        }
    }
}

/// A sum held at `u64::MAX`.
pub open spec fn capped(x: int) -> int {
    if x > u64::MAX {
        u64::MAX as int
    } else {
        x
    }
}

/// Phase two, applied: each transmission adds to the score of the first
/// chunk of its target.
pub open spec fn apply_transmissions(acts: Seq<Act>, ts: Seq<(Seq<char>, int)>) -> Seq<Act>
    decreases ts.len(),
{
    if ts.len() == 0 {
        acts
    } else {
        let prev = apply_transmissions(acts, ts.drop_last());
        let t = ts.last();
        put(prev, t.0, 0, capped(score_of(prev, t.0, 0) + t.1))
    }
}

/// The activations of a query after phases one and two.
pub open spec fn activation_map(
    lib: Seq<Engram>,
    rows: Seq<IndexRow>,
    query: Seq<char>,
    query_vec: Seq<i16>,
) -> Seq<Act> {
    let direct = vector_phase(keyword_phase(Seq::empty(), lib, query), lib, rows, query_vec);
    apply_transmissions(direct, transmissions(direct, lib))
}

/// A group of hits: a file path and chunk ids.
pub type Group = (Seq<char>, Seq<int>);

/// The position of the group of `path`, or -1.
pub open spec fn group_index(gs: Seq<Group>, path: Seq<char>) -> int
    decreases gs.len(),
{
    if gs.len() == 0 {
        -1
    } else if gs.last().0 == path {
        gs.len() - 1
    } else {
        group_index(gs.drop_last(), path)
    }
}

/// Phase three: the activations above `ASSEMBLY_THRESHOLD`, grouped by file
/// in order of first appearance, each group in activation order.
pub open spec fn grouped_hits(acts: Seq<Act>) -> Seq<Group>
    decreases acts.len(),
{
    if acts.len() == 0 {
        Seq::empty()
    } else {
        let prev = grouped_hits(acts.drop_last());
        let a = acts.last();
        if a.2 > ASSEMBLY_THRESHOLD {
            let g = group_index(prev, a.0);
            if 0 <= g < prev.len() {
                prev.update(g, (a.0, prev[g].1.push(a.1)))
            } else {
                prev.push((a.0, seq![a.1]))
            }
        } else {
            prev
        }
    }
}

pub open spec fn groups_view(gs: Seq<(String, Vec<usize>)>) -> Seq<Group> {
    gs.map_values(|g: (String, Vec<usize>)| (g.0@, g.1@.map_values(|i: usize| i as int)))
}

/// How often chunk `id` of `path` appears in the groups.
pub open spec fn occurrences(gs: Seq<Group>, path: Seq<char>, id: int) -> nat
    decreases gs.len(),
{
    if gs.len() == 0 {
        0
    } else {
        occurrences(gs.drop_last(), path, id) + if gs.last().0 == path {
            count(gs.last().1, id)
        } else {
            0
        }
    }
}

/// How often `x` appears in `s`.
pub open spec fn count(s: Seq<int>, x: int) -> nat
    decreases s.len(),
{
    if s.len() == 0 {
        0
    } else {
        count(s.drop_last(), x) + if s.last() == x {
            1nat
        } else {
            0nat
        }
    }
}

proof fn lemma_group_index_bounds(gs: Seq<Group>, path: Seq<char>)
    ensures
        -1 <= group_index(gs, path) < gs.len(),
        group_index(gs, path) >= 0 ==> gs[group_index(gs, path)].0 == path,
    decreases gs.len(),
{
    if gs.len() > 0 {
        lemma_group_index_bounds(gs.drop_last(), path);
    }
}

fn find_group(gs: &Vec<(String, Vec<usize>)>, path: &str) -> (r: Option<usize>)
    ensures
        match r {
            Some(k) => k == group_index(groups_view(gs@), path@) && k < gs@.len(),
            None => group_index(groups_view(gs@), path@) == -1,
        },
{
    let mut i = gs.len();
    assert(groups_view(gs@).subrange(0, i as int) =~= groups_view(gs@));
    while i > 0
        invariant
            i <= gs@.len(),
            group_index(groups_view(gs@), path@) == group_index(
                groups_view(gs@).subrange(0, i as int),
                path@,
            ),
        decreases i,
    {
        if same_text(gs[i - 1].0.as_str(), path) {
            return Some(i - 1);
        }
        assert(groups_view(gs@).subrange(0, i as int).drop_last() =~= groups_view(gs@).subrange(
            0,
            i - 1,
        ));
        i = i - 1;
    }
    None
}

/// Groups the activations above `ASSEMBLY_THRESHOLD` by file.
pub fn assemble_hits(acts: &Vec<Activation>) -> (r: Vec<(String, Vec<usize>)>)
    ensures
        groups_view(r@) == grouped_hits(act_view(acts@)),
{
    let mut gs: Vec<(String, Vec<usize>)> = Vec::new();
    let mut i: usize = 0;
    assert(groups_view(gs@) =~= Seq::<Group>::empty());
    while i < acts.len()
        invariant
            i <= acts@.len(),
            groups_view(gs@) == grouped_hits(act_view(acts@).subrange(0, i as int)),
        decreases acts@.len() - i,
    {
        let ghost prev = groups_view(gs@);
        let a = &acts[i];
        assert(act_view(acts@).subrange(0, i + 1).drop_last() =~= act_view(acts@).subrange(
            0,
            i as int,
        ));
        if a.2 > ASSEMBLY_THRESHOLD {
            proof {
                lemma_group_index_bounds(prev, a.0@);
            }
            match find_group(&gs, a.0.as_str()) {
                Some(g) => {
                    let ghost before = gs@;
                    let mut group = gs.remove(g);
                    let ghost old_ids = group.1@;
                    group.1.push(a.1);
                    let ghost ng = group;
                    gs.insert(g, group);
                    assert(gs@ =~= before.update(g as int, ng));
                    assert(ng.1@.map_values(|i: usize| i as int) =~= old_ids.map_values(
                        |i: usize| i as int,
                    ).push(a.1 as int));
                    assert(groups_view(gs@) =~= prev.update(
                        g as int,
                        (a.0@, prev[g as int].1.push(a.1 as int)),
                    ));
                },
                None => {
                    let mut ids: Vec<usize> = Vec::new();
                    ids.push(a.1);
                    assert(ids@.map_values(|i: usize| i as int) =~= seq![a.1 as int]);
                    gs.push((String::from_str(a.0.as_str()), ids));
                    assert(groups_view(gs@) =~= prev.push((a.0@, seq![a.1 as int])));
                },
            }
        }
        i = i + 1;
    }
    assert(act_view(acts@).subrange(0, i as int) =~= act_view(acts@));
    gs
}

impl MemorySystem {
    /// Phase one, vectors, over the flat index.
    fn vector_hits(&self, acts: &mut Vec<Activation>, query_vec: &Vec<i16>)
        requires
            self.wf(),
            query_vec@.len() <= MAX_DIMENSIONS,
            scores_at_most(act_view(old(acts)@), MAX_DIRECT_SCORE as int),
        ensures
            act_view(final(acts)@) == vector_phase(
                act_view(old(acts)@),
                self.library(),
                self.rows(),
                query_vec@,
            ),
            scores_at_most(act_view(final(acts)@), MAX_DIRECT_SCORE as int),
    {
        let rows = self.flat_index();
        proof {
            self.lemma_row_vectors_fit();
        }
        let ghost start = act_view(acts@);
        let mut i: usize = 0;
        assert(rows@.subrange(0, 0) =~= Seq::<IndexRow>::empty());
        while i < rows.len()
            invariant
                rows@ == self.rows(),
                query_vec@.len() <= MAX_DIMENSIONS,
                forall|r: int| 0 <= r < rows@.len() ==> (#[trigger] rows@[r]).2@.len() <= MAX_DIMENSIONS,
                i <= rows@.len(),
                act_view(acts@) == vector_phase(
                    start,
                    self.library(),
                    rows@.subrange(0, i as int),
                    query_vec@,
                ),
                scores_at_most(act_view(acts@), MAX_DIRECT_SCORE as int),
            decreases rows@.len() - i,
        {
            let row = &rows[i];
            assert(rows@.subrange(0, i + 1).drop_last() =~= rows@.subrange(0, i as int));
            let sim = cosine_similarity(query_vec.as_slice(), row.2.as_slice());
            if sim > 0 {
                let b: u64 = match self.access_count(row.0.as_str(), row.1) {
                    Some(c) => SCALE + (c as u64) * BOOST_PER_ACCESS,
                    None => SCALE,
                };
                assert(b <= MAX_DIRECT_SCORE);
                assert((sim as u128) * (b as u128) <= 0x1_0000_0000_0000_0000_0000) by (nonlinear_arith)
                    requires
                        0 < sim <= SCALE,
                        b <= MAX_DIRECT_SCORE,
                ;
                let wide: u128 = (sim as u128) * (b as u128);
                let s: u64 = (wide / (SCALE as u128)) as u64;
                proof {
                    assert(wide / (SCALE as u128) <= b) by (nonlinear_arith)
                        requires
                            0 < sim <= SCALE,
                            wide == sim * b,
                    ;
                }
                if s > VECTOR_THRESHOLD {
                    let cur = score_at(acts, row.0.as_str(), row.1);
                    proof {
                        lemma_key_index_bounds(act_view(acts@), row.0@, row.1 as int);
                    }
                    let v = if cur >= s {
                        cur
                    } else {
                        s
                    };
                    proof {
                        lemma_put_bounded(
                            act_view(acts@),
                            row.0@,
                            row.1 as int,
                            v as int,
                            MAX_DIRECT_SCORE as int,
                        );
                    }
                    put_score(acts, row.0.as_str(), row.1, v);
                }
            }
            i = i + 1;
        }
        assert(rows@.subrange(0, i as int) =~= rows@);
    }

    /// Phase two, the transmissions of the activations `acts`.
    fn synaptic_boosts(&self, acts: &Vec<Activation>) -> (r: Vec<(String, u64)>)
        ensures
            r@.map_values(|t: (String, u64)| (t.0@, t.1 as int)) == transmissions(
                act_view(acts@),
                self.library(),
            ),
    {
        let lib = self.engrams();
        let mut out: Vec<(String, u64)> = Vec::new();
        let mut i: usize = 0;
        assert(out@.map_values(|t: (String, u64)| (t.0@, t.1 as int)) =~= Seq::<
            (Seq<char>, int),
        >::empty());
        while i < acts.len()
            invariant
                lib@ == self.library(),
                i <= acts@.len(),
                out@.map_values(|t: (String, u64)| (t.0@, t.1 as int)) == transmissions(
                    act_view(acts@).subrange(0, i as int),
                    lib@,
                ),
            decreases acts@.len() - i,
        {
            let a = &acts[i];
            assert(act_view(acts@).subrange(0, i + 1).drop_last() =~= act_view(acts@).subrange(
                0,
                i as int,
            ));
            if a.2 > SPREAD_THRESHOLD {
                proof {
                    lemma_engram_index(lib@, a.0@);
                }
                match self.find(a.0.as_str()) {
                    Some(k) => {
                        let syns = &lib[k].synapses;
                        let ghost base = out@.map_values(|t: (String, u64)| (t.0@, t.1 as int));
                        let mut t: usize = 0;
                        while t < syns.len()
                            invariant
                                t <= syns@.len(),
                                out@.map_values(|t: (String, u64)| (t.0@, t.1 as int)) == base
                                    + syns@.subrange(0, t as int).map_values(
                                    |s: Synapse| transmission(a.2 as int, s),
                                ),
                            decreases syns@.len() - t,
                        {
                            let syn = &syns[t];
                            assert((a.2 as u128) * (syn.strength as u128)
                                <= 0x1_0000_0000_0000_0000_0000_0000) by (nonlinear_arith)
                                requires
                                    a.2 <= u64::MAX,
                                    syn.strength <= u32::MAX,
                            ;
                            let wide: u128 = (a.2 as u128) * (syn.strength as u128);
                            let q = wide / (2 * SCALE as u128);
                            let amount: u64 = if q > u64::MAX as u128 {
                                u64::MAX
                            } else {
                                q as u64
                            };
                            let ghost before = out@;
                            out.push((String::from_str(syn.target.as_str()), amount as u64));
                            assert(out@.map_values(|t: (String, u64)| (t.0@, t.1 as int)) =~= base
                                + syns@.subrange(0, t + 1).map_values(
                                |s: Synapse| transmission(a.2 as int, s),
                            )) by {
                                assert(out@.map_values(|t: (String, u64)| (t.0@, t.1 as int))
                                    =~= before.map_values(|t: (String, u64)| (t.0@, t.1 as int)).push(
                                    (syn.target@, amount as int),
                                ));
                                assert(syns@.subrange(0, t + 1).map_values(
                                    |s: Synapse| transmission(a.2 as int, s),
                                ) =~= syns@.subrange(0, t as int).map_values(
                                    |s: Synapse| transmission(a.2 as int, s),
                                ).push(transmission(a.2 as int, syns@[t as int])));
                            }
                            t = t + 1;
                        }
                        assert(syns@.subrange(0, t as int) =~= syns@);
                    },
                    None => {},
                }
            }
            i = i + 1;
        }
        assert(act_view(acts@).subrange(0, i as int) =~= act_view(acts@));
        out
    }

    /// Phase two: every activation above `SPREAD_THRESHOLD` sends score
    /// times strength times 0.5 along each synapse of its file, and each
    /// transmission adds (held at `u64::MAX`) to the first chunk of its
    /// target.
    pub fn spread_activation(&self, acts: Vec<Activation>) -> (r: Vec<Activation>)
        ensures
            act_view(r@) == apply_transmissions(
                act_view(acts@),
                transmissions(act_view(acts@), self.library()),
            ),
    {
        let boosts = self.synaptic_boosts(&acts);
        let mut acts = acts;
        let ghost direct = act_view(acts@);
        let ghost ts = boosts@.map_values(|t: (String, u64)| (t.0@, t.1 as int));
        let mut i: usize = 0;
        assert(ts.subrange(0, 0) =~= Seq::<(Seq<char>, int)>::empty());
        while i < boosts.len()
            invariant
                ts == boosts@.map_values(|t: (String, u64)| (t.0@, t.1 as int)),
                i <= boosts@.len(),
                act_view(acts@) == apply_transmissions(direct, ts.subrange(0, i as int)),
            decreases boosts@.len() - i,
        {
            let t = &boosts[i];
            assert(ts.subrange(0, i + 1).drop_last() =~= ts.subrange(0, i as int));
            let cur = score_at(&acts, t.0.as_str(), 0);
            let v = if cur > u64::MAX - t.1 {
                u64::MAX
            } else {
                cur + t.1
            };
            put_score(&mut acts, t.0.as_str(), 0, v);
            i = i + 1;
        }
        assert(ts.subrange(0, i as int) =~= ts);
        acts
    }

    /// The activations of a query after phases one and two: keyword hits,
    /// vector hits over the flat index, and transmissions along synapses.
    pub fn activate(&self, query_text: &str, query_vec: &Vec<i16>) -> (r: Vec<Activation>)
        requires
            self.wf(),
            query_vec@.len() <= MAX_DIMENSIONS,
        ensures
            act_view(r@) == activation_map(self.library(), self.rows(), query_text@, query_vec@),
    {
        let lib = self.engrams();
        let mut acts = keyword_hits(lib, query_text);
        self.vector_hits(&mut acts, query_vec);
        self.spread_activation(acts)
    }

    /// Answers a query: the chunks whose activation (see `activate`) ends
    /// above `ASSEMBLY_THRESHOLD`, grouped by file (see `grouped_hits`). Each
    /// returned chunk is recalled once more (see `reinforce`).
    pub fn recall(&mut self, query_text: &str, query_vec: &Vec<i16>) -> (r: Vec<(String, Vec<usize>)>)
        requires
            old(self).wf(),
            query_vec@.len() <= MAX_DIMENSIONS,
        ensures
            final(self).wf(),
            final(self).rows() == old(self).rows(),
            groups_view(r@) == grouped_hits(
                activation_map(old(self).library(), old(self).rows(), query_text@, query_vec@),
            ),
            same_but_counts(old(self).library(), final(self).library()),
            forall|q: Seq<char>, j: int|
                #![trigger access_count_of(final(self).library(), q, j)]
                access_count_of(final(self).library(), q, j) == bump_opt(
                    access_count_of(old(self).library(), q, j),
                    occurrences(groups_view(r@), q, j),
                ),
    {
        let acts = self.activate(query_text, query_vec);
        let groups = assemble_hits(&acts);
        let ghost gv = groups_view(groups@);
        let ghost lib0 = self.library();
        let mut g: usize = 0;
        proof {
            assert(gv.subrange(0, 0) =~= Seq::<Group>::empty());
            assert forall|q: Seq<char>, j: int|
                #![trigger access_count_of(self.library(), q, j)]
                access_count_of(self.library(), q, j) == bump_opt(
                    access_count_of(lib0, q, j),
                    occurrences(gv.subrange(0, 0), q, j),
                ) by {
                lemma_bump_zero(access_count_of(lib0, q, j));
            }
            lemma_same_but_counts_refl(lib0);
        }
        while g < groups.len()
            invariant
                gv == groups_view(groups@),
                g <= groups@.len(),
                self.wf(),
                self.rows() == old(self).rows(),
                lib0 == old(self).library(),
                same_but_counts(lib0, self.library()),
                forall|q: Seq<char>, j: int|
                    #![trigger access_count_of(self.library(), q, j)]
                    access_count_of(self.library(), q, j) == bump_opt(
                        access_count_of(lib0, q, j),
                        occurrences(gv.subrange(0, g as int), q, j),
                    ),
            decreases groups@.len() - g,
        {
            let group = &groups[g];
            let ghost gp = gv[g as int];
            assert(gp.0 == group.0@);
            assert(gp.1 == group.1@.map_values(|i: usize| i as int));
            let mut n: usize = 0;
            proof {
                assert(gp.1.subrange(0, 0) =~= Seq::<int>::empty());
            }
            while n < group.1.len()
                invariant
                    gv == groups_view(groups@),
                    g < groups@.len(),
                    group == groups@[g as int],
                    gp == gv[g as int],
                    gp.0 == group.0@,
                    gp.1 == group.1@.map_values(|i: usize| i as int),
                    n <= group.1@.len(),
                    self.wf(),
                    self.rows() == old(self).rows(),
                    lib0 == old(self).library(),
                    same_but_counts(lib0, self.library()),
                    forall|q: Seq<char>, j: int|
                        #![trigger access_count_of(self.library(), q, j)]
                        access_count_of(self.library(), q, j) == bump_opt(
                            access_count_of(lib0, q, j),
                            occurrences(gv.subrange(0, g as int), q, j) + if gp.0 == q {
                                count(gp.1.subrange(0, n as int), j)
                            } else {
                                0nat
                            },
                        ),
                decreases group.1@.len() - n,
            {
                let ghost before = self.library();
                let id = group.1[n];
                self.reinforce(group.0.as_str(), id);
                proof {
                    lemma_same_but_counts_trans(lib0, before, self.library());
                    assert(gp.1.subrange(0, n + 1).drop_last() =~= gp.1.subrange(0, n as int));
                    assert(gp.1[n as int] == id as int);
                    assert forall|q: Seq<char>, j: int|
                        #![trigger access_count_of(self.library(), q, j)]
                        access_count_of(self.library(), q, j) == bump_opt(
                            access_count_of(lib0, q, j),
                            occurrences(gv.subrange(0, g as int), q, j) + if gp.0 == q {
                                count(gp.1.subrange(0, n + 1), j)
                            } else {
                                0nat
                            },
                        ) by {
                        let x = occurrences(gv.subrange(0, g as int), q, j) + if gp.0 == q {
                            count(gp.1.subrange(0, n as int), j)
                        } else {
                            0nat
                        };
                        let d: nat = if q == group.0@ && j == id {
                            1nat
                        } else {
                            0nat
                        };
                        assert(access_count_of(before, q, j) == bump_opt(access_count_of(lib0, q, j), x));
                        lemma_bump_add(access_count_of(lib0, q, j), x, d);
                    }
                }
                n = n + 1;
            }
            proof {
                assert(gp.1.subrange(0, n as int) =~= gp.1);
                assert(gv.subrange(0, g + 1).drop_last() =~= gv.subrange(0, g as int));
                assert(gv.subrange(0, g + 1).last() == gp);
            }
            g = g + 1;
        }
        proof {
            assert(gv.subrange(0, g as int) =~= gv);
        }
        groups
    }

    /// The texts of chunks `ids` of the file at `path`, cut from its current
    /// text `content`. A chunk that does not exist, or whose range no longer
    /// lies in `content` on character boundaries, is skipped.
    pub fn context_blocks(&self, path: &str, ids: &Vec<usize>, content: &str) -> (r: Vec<String>)
        ensures
            r@.len() == block_ranges(self.library(), path@, ids@, content.spec_bytes()).len(),
            forall|i: int|
                0 <= i < r@.len() ==> encode_utf8(#[trigger] r@[i]@) == content.spec_bytes().subrange(
                    block_ranges(self.library(), path@, ids@, content.spec_bytes())[i].0,
                    block_ranges(self.library(), path@, ids@, content.spec_bytes())[i].1,
                ),
    {
        let ghost bytes = content.spec_bytes();
        let ghost lib = self.library();
        let mut out: Vec<String> = Vec::new();
        proof {
            lemma_engram_index(lib, path@);
        }
        let found = self.find(path);
        let mut n: usize = 0;
        assert(ids@.subrange(0, 0) =~= Seq::<usize>::empty());
        while n < ids.len()
            invariant
                lib == self.library(),
                bytes == content.spec_bytes(),
                found matches Some(k) ==> k == engram_index(lib, path@) && k < lib.len(),
                found is None ==> engram_index(lib, path@) == -1,
                n <= ids@.len(),
                out@.len() == block_ranges(lib, path@, ids@.subrange(0, n as int), bytes).len(),
                forall|i: int|
                    0 <= i < out@.len() ==> encode_utf8(#[trigger] out@[i]@) == bytes.subrange(
                        block_ranges(lib, path@, ids@.subrange(0, n as int), bytes)[i].0,
                        block_ranges(lib, path@, ids@.subrange(0, n as int), bytes)[i].1,
                    ),
            decreases ids@.len() - n,
        {
            let ghost prev = block_ranges(lib, path@, ids@.subrange(0, n as int), bytes);
            assert(ids@.subrange(0, n + 1).drop_last() =~= ids@.subrange(0, n as int));
            let id = ids[n];
            let k = match found {
                Some(k) => k,
                None => {
                    assert(block_range(lib, path@, id as int, bytes) is None);
                    n = n + 1;
                    continue ;
                },
            };
            let engram = &self.engrams()[k];
            assert(*engram == lib[k as int]);
            if id >= engram.chunks.len() {
                assert(block_range(lib, path@, id as int, bytes) is None);
                n = n + 1;
                continue ;
            }
            let start = engram.chunks[id].start_byte;
            let end = engram.chunks[id].end_byte;
            let blen = content.as_bytes().len();
            if start <= end && end <= blen && content.is_char_boundary(start)
                && content.is_char_boundary(end) {
                let text = cut(content, start, end);
                out.push(text);
                assert(block_ranges(lib, path@, ids@.subrange(0, n + 1), bytes) =~= prev.push(
                    (start as int, end as int),
                ));
            } else {
                assert(block_range(lib, path@, id as int, bytes) is None);
            }
            n = n + 1;
        }
        assert(ids@.subrange(0, n as int) =~= ids@);
        out
    }
}

/// Where chunk `id` of `path` lies in the file's current bytes, if it
/// exists and its range still fits them on character boundaries.
pub open spec fn block_range(lib: Seq<Engram>, path: Seq<char>, id: int, bytes: Seq<u8>) -> Option<
    (int, int),
> {
    let k = engram_index(lib, path);
    if 0 <= k < lib.len() && 0 <= id < lib[k].chunks@.len() {
        let c = lib[k].chunks@[id];
        if c.start_byte <= c.end_byte <= bytes.len() && is_char_boundary(bytes, c.start_byte as int)
            && is_char_boundary(bytes, c.end_byte as int) {
            Some((c.start_byte as int, c.end_byte as int))
        } else {
            None
        }
    } else {
        None
    }
}

/// The ranges of the chunks `ids` of `path` that can be cut from `bytes`.
pub open spec fn block_ranges(lib: Seq<Engram>, path: Seq<char>, ids: Seq<usize>, bytes: Seq<u8>) -> Seq<
    (int, int),
>
    decreases ids.len(),
{
    if ids.len() == 0 {
        Seq::empty()
    } else {
        let prev = block_ranges(lib, path, ids.drop_last(), bytes);
        match block_range(lib, path, ids.last() as int, bytes) {
            Some(r) => prev.push(r),
            None => prev,
        }
    }
}

proof fn lemma_bump_zero(o: Option<u32>)
    ensures
        bump_opt(o, 0) == o,
{
}

proof fn lemma_bump_add(o: Option<u32>, a: nat, b: nat)
    ensures
        bump_opt(bump_opt(o, a), b) == bump_opt(o, a + b),
{
}

proof fn lemma_same_but_counts_refl(lib: Seq<Engram>)
    ensures
        same_but_counts(lib, lib),
{
}

} // verus!
