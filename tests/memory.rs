use cartesian_core::activation::{assemble_hits, keyword_hits, Activation};
use cartesian_core::chunker::chunk_content;
use cartesian_core::engram::{compress_skeleton, skeleton_of, Engram, IndexError};
use cartesian_core::filetype::{detect_type, FileType};
use cartesian_core::memory::MemorySystem;

const FIRST: &str = "Rust programs manage memory through ownership rules.";
const SECOND: &str = "Gardens need sunlight, water and patient care every day.";

fn two_paragraphs() -> String {
    format!("{}\n\n{}", FIRST, SECOND)
}

fn unit(i: usize) -> Vec<i16> {
    let mut v = vec![0i16; 8];
    v[i] = 1000;
    v
}

#[test]
fn new_store_is_empty() {
    let m = MemorySystem::new();
    assert!(m.engrams().is_empty());
    assert!(m.flat_index().is_empty());
    assert!(m.engram("a.md").is_none());
}

#[test]
fn indexing_builds_engram_and_rows() {
    let mut m = MemorySystem::new();
    let content = two_paragraphs();
    m.index_with_skeleton("notes.md".to_string(), &content, vec![unit(0), unit(1)], vec![1, 2, 3]);
    let e = m.engram("notes.md").unwrap();
    assert_eq!(e.path, "notes.md");
    assert_eq!(e.file_type, FileType::Prose);
    assert_eq!(e.hash, "SHA256_STUB");
    assert_eq!(e.skeleton_compressed, vec![1, 2, 3]);
    assert!(e.entity_map.is_empty());
    assert!(e.synapses.is_empty());
    assert_eq!(e.chunks.len(), 2);
    assert_eq!(e.chunks[0].id, 0);
    assert_eq!(e.chunks[1].id, 1);
    assert_eq!((e.chunks[0].start_byte, e.chunks[0].end_byte), (0, FIRST.len()));
    assert_eq!(e.chunks[1].start_byte, FIRST.len() + 2);
    assert_eq!(e.chunks[1].embedding, unit(1));
    assert_eq!(e.chunks[1].access_count, 0);
    let rows = m.flat_index();
    assert_eq!(rows.len(), 2);
    assert_eq!(rows[0], ("notes.md".to_string(), 0, unit(0)));
    assert_eq!(rows[1], ("notes.md".to_string(), 1, unit(1)));
}

#[test]
fn reindexing_leaves_no_stale_rows() {
    let mut m = MemorySystem::new();
    let content = two_paragraphs();
    m.index_with_skeleton("a.md".to_string(), &content, vec![unit(0), unit(1)], vec![]);
    m.index_with_skeleton("b.md".to_string(), FIRST, vec![unit(2)], vec![]);
    // The file shrank to one paragraph.
    m.index_with_skeleton("a.md".to_string(), SECOND, vec![unit(3)], vec![]);
    m.index_with_skeleton("a.md".to_string(), SECOND, vec![unit(4)], vec![]);
    assert_eq!(m.engrams().len(), 2);
    assert_eq!(m.engrams()[0].path, "a.md");
    let rows = m.flat_index();
    assert_eq!(rows.len(), 2);
    assert_eq!(rows[0], ("b.md".to_string(), 0, unit(2)));
    assert_eq!(rows[1], ("a.md".to_string(), 0, unit(4)));
    for (path, id, v) in rows {
        let e = m.engram(path).unwrap();
        assert!(*id < e.chunks.len());
        assert_eq!(&e.chunks[*id].embedding, v);
    }
}

#[test]
fn reinforce_adds_exactly_one() {
    let mut m = MemorySystem::new();
    m.index_with_skeleton("a.md".to_string(), &two_paragraphs(), vec![unit(0), unit(1)], vec![]);
    assert_eq!(m.access_count("a.md", 1), Some(0));
    m.reinforce("a.md", 1);
    assert_eq!(m.access_count("a.md", 1), Some(1));
    m.reinforce("a.md", 1);
    assert_eq!(m.access_count("a.md", 1), Some(2));
    assert_eq!(m.access_count("a.md", 0), Some(0));
}

#[test]
fn reinforce_unknown_is_a_no_op() {
    let mut m = MemorySystem::new();
    m.index_with_skeleton("a.md".to_string(), &two_paragraphs(), vec![unit(0), unit(1)], vec![]);
    m.reinforce("b.md", 0);
    m.reinforce("a.md", 7);
    assert_eq!(m.access_count("a.md", 0), Some(0));
    assert_eq!(m.access_count("a.md", 1), Some(0));
    assert_eq!(m.access_count("a.md", 7), None);
    assert_eq!(m.access_count("b.md", 0), None);
}

#[test]
fn forge_synapse_appends_edges() {
    let mut m = MemorySystem::new();
    m.index_with_skeleton("a.md".to_string(), &two_paragraphs(), vec![unit(0), unit(1)], vec![]);
    m.forge_synapse("a.md", "b.md".to_string(), 1_000_000);
    m.forge_synapse("a.md", "a.md".to_string(), 200_000);
    m.forge_synapse("a.md", "b.md".to_string(), 1_000_000);
    m.forge_synapse("missing.md", "a.md".to_string(), 5_000_000);
    let e = m.engram("a.md").unwrap();
    assert_eq!(e.synapses.len(), 3);
    assert_eq!(e.synapses[0].target, "b.md");
    assert_eq!(e.synapses[1].target, "a.md");
    assert_eq!(e.synapses[1].strength, 200_000);
    assert!(m.engram("missing.md").is_none());
}

#[test]
fn skeleton_names_the_file() {
    assert_eq!(skeleton_of("notes.md"), "Skeleton for \"notes.md\"");
    assert_eq!(skeleton_of("a\"b"), "Skeleton for \"a\\\"b\"");
    assert_eq!(
        skeleton_of("it's/notes.md"),
        format!("Skeleton for {:?}", std::path::Path::new("it's/notes.md"))
    );
}

#[test]
fn skeleton_compresses_to_a_zstd_frame() {
    let frame = compress_skeleton("notes.md").ok().unwrap();
    assert_ne!(frame, b"Skeleton for \"notes.md\"".to_vec());
    let back = zstd::decode_all(frame.as_slice()).unwrap();
    assert_eq!(back, b"Skeleton for \"notes.md\"".to_vec());
}

#[test]
fn index_file_compresses_the_skeleton() {
    let mut m = MemorySystem::new();
    let content = two_paragraphs();
    let r = m.index_file("notes.md".to_string(), &content, vec![unit(0), unit(1)]);
    assert!(r.is_ok());
    let r = m.index_file("it's.md".to_string(), &content, vec![unit(2), unit(3)]);
    assert!(r.is_ok());
    let e = m.engram("it's.md").unwrap();
    let back = zstd::decode_all(e.skeleton_compressed.as_slice()).unwrap();
    assert_eq!(back, format!("Skeleton for {:?}", std::path::Path::new("it's.md")).into_bytes());
    let e = m.engram("notes.md").unwrap();
    let back = zstd::decode_all(e.skeleton_compressed.as_slice()).unwrap();
    assert_eq!(back, b"Skeleton for \"notes.md\"".to_vec());
    assert_eq!(m.flat_index().len(), 4);
}

#[test]
fn index_error_variants_carry_messages() {
    let errors = vec![
        IndexError::Io("missing".to_string()),
        IndexError::Compression("bad level".to_string()),
        IndexError::Encoding("not utf-8".to_string()),
        IndexError::Embedding("too long".to_string()),
    ];
    assert!(matches!(errors[3], IndexError::Embedding(_)));
    assert!(matches!(errors[0], IndexError::Io(_)));
    assert!(matches!(errors[1], IndexError::Compression(_)));
    assert!(matches!(errors[2], IndexError::Encoding(_)));
}

#[test]
fn retrieval_returns_the_matching_paragraph() {
    let mut m = MemorySystem::new();
    let content = two_paragraphs();
    let chunks = chunk_content(&content, detect_type("garden.md"));
    assert_eq!(chunks.len(), 2);
    assert_eq!(chunks[1].2, SECOND);
    m.index_file("garden.md".to_string(), &content, vec![unit(0), unit(1)]).ok().unwrap();
    let groups = m.recall(SECOND, &unit(1));
    assert_eq!(groups, vec![("garden.md".to_string(), vec![1])]);
    let blocks = m.context_blocks("garden.md", &groups[0].1, &content);
    assert_eq!(blocks, vec![SECOND.to_string()]);
    // Recall is a learning event.
    assert_eq!(m.access_count("garden.md", 1), Some(1));
    assert_eq!(m.access_count("garden.md", 0), Some(0));
}

#[test]
fn retrieval_with_a_zero_query_vector_finds_nothing() {
    let mut m = MemorySystem::new();
    m.index_with_skeleton("a.md".to_string(), &two_paragraphs(), vec![unit(0), unit(1)], vec![]);
    let groups = m.recall("anything", &vec![0i16; 8]);
    assert!(groups.is_empty());
    assert!(m.recall("anything", &vec![]).is_empty());
}

#[test]
fn context_blocks_skip_what_no_longer_fits() {
    let mut m = MemorySystem::new();
    let content = two_paragraphs();
    m.index_with_skeleton("a.md".to_string(), &content, vec![unit(0), unit(1)], vec![]);
    let shrunk = FIRST.to_string();
    let blocks = m.context_blocks("a.md", &vec![1, 0, 9], &shrunk);
    assert_eq!(blocks, vec![FIRST.to_string()]);
    assert!(m.context_blocks("other.md", &vec![0], &content).is_empty());
    // A range that now ends inside a multi-byte character is skipped.
    let moved = format!("{}é", &FIRST[..FIRST.len() - 1]);
    assert!(m.context_blocks("a.md", &vec![0], &moved).is_empty());
}

#[test]
fn access_count_boosts_vector_score() {
    let mut m = MemorySystem::new();
    m.index_with_skeleton("a.md".to_string(), &two_paragraphs(), vec![unit(0), vec![700, 714, 0, 0, 0, 0, 0, 0]], vec![]);
    let q = unit(0);
    // cos = 700 / sqrt(700^2 + 714^2) = 0.7000..., just over the threshold.
    let acts = m.activate("", &q);
    assert_eq!(acts.len(), 2);
    assert_eq!(acts[0], ("a.md".to_string(), 0, 1_000_000));
    assert_eq!(acts[1].1, 1);
    let before = acts[1].2;
    m.reinforce("a.md", 1);
    let after = m.activate("", &q)[1].2;
    assert_eq!(after, before * 101 / 100);
}

#[test]
fn spreading_activation_arithmetic() {
    let mut m = MemorySystem::new();
    m.index_with_skeleton("src1.md".to_string(), FIRST, vec![unit(0)], vec![]);
    m.index_with_skeleton("src2.md".to_string(), SECOND, vec![unit(1)], vec![]);
    m.index_with_skeleton("target.md".to_string(), FIRST, vec![unit(2)], vec![]);
    m.forge_synapse("src1.md", "target.md".to_string(), 1_000_000);
    // One source at 0.9 over a synapse of strength 1.0 sends 0.45.
    let one: Vec<Activation> = vec![("src1.md".to_string(), 0, 900_000)];
    let spread = m.spread_activation(one);
    assert_eq!(spread[1], ("target.md".to_string(), 0, 450_000));
    // Two sources at 0.9 over 1.0 and 0.6 accumulate to 0.72.
    m.forge_synapse("src2.md", "target.md".to_string(), 600_000);
    let two: Vec<Activation> = vec![
        ("src1.md".to_string(), 0, 900_000),
        ("src2.md".to_string(), 0, 900_000),
    ];
    let spread = m.spread_activation(two);
    assert_eq!(spread.len(), 3);
    assert_eq!(spread[2], ("target.md".to_string(), 0, 720_000));
    // 0.72 is below the assembly threshold of 0.75.
    let groups = assemble_hits(&spread);
    assert_eq!(groups, vec![("src1.md".to_string(), vec![0]), ("src2.md".to_string(), vec![0])]);
}

#[test]
fn weak_activations_do_not_spread() {
    let mut m = MemorySystem::new();
    m.index_with_skeleton("src.md".to_string(), FIRST, vec![unit(0)], vec![]);
    m.forge_synapse("src.md", "t.md".to_string(), 5_000_000);
    let spread = m.spread_activation(vec![("src.md".to_string(), 0, 800_000)]);
    assert_eq!(spread, vec![("src.md".to_string(), 0, 800_000)]);
    let spread = m.spread_activation(vec![("src.md".to_string(), 0, 800_001)]);
    assert_eq!(spread[1], ("t.md".to_string(), 0, 2_000_002));
}

#[test]
fn hits_group_by_file_in_order() {
    let acts: Vec<Activation> = vec![
        ("a".to_string(), 3, 900_000),
        ("b".to_string(), 0, 750_000),
        ("b".to_string(), 1, 750_001),
        ("a".to_string(), 1, 1_500_000),
    ];
    let groups = assemble_hits(&acts);
    assert_eq!(groups, vec![("a".to_string(), vec![3, 1]), ("b".to_string(), vec![1])]);
}

#[test]
fn keyword_hits_follow_the_inverted_index() {
    let engram = |path: &str, entities: Vec<(&str, Vec<usize>)>| Engram {
        path: path.to_string(),
        file_type: FileType::Prose,
        hash: String::new(),
        skeleton_compressed: vec![],
        entity_map: entities.into_iter().map(|(k, v)| (k.to_string(), v)).collect(),
        synapses: vec![],
        chunks: vec![],
    };
    let lib = vec![
        engram("a.md", vec![("ownership", vec![0, 2]), ("garden", vec![1]), ("", vec![2])]),
        engram("b.md", vec![("borrow", vec![4])]),
    ];
    let acts = keyword_hits(&lib, "how does ownership work");
    assert_eq!(
        acts,
        vec![("a.md".to_string(), 0, 1_500_000), ("a.md".to_string(), 2, 1_500_000)]
    );
    assert!(keyword_hits(&lib, "nothing here").len() == 1);
    assert!(keyword_hits(&vec![], "ownership").is_empty());
}

#[test]
fn store_rebuilds_from_its_engrams() {
    let mut m = MemorySystem::new();
    m.index_with_skeleton("a.md".to_string(), &two_paragraphs(), vec![unit(0), unit(1)], vec![9]);
    m.index_with_skeleton("b.md".to_string(), SECOND, vec![unit(2)], vec![]);
    m.reinforce("a.md", 1);
    let again = MemorySystem::from_engrams(m.engrams().clone()).unwrap();
    assert_eq!(again.flat_index(), m.flat_index());
    assert_eq!(again.access_count("a.md", 1), Some(1));
    assert_eq!(again.engram("a.md").unwrap().skeleton_compressed, vec![9]);
}

#[test]
fn inconsistent_engrams_are_refused() {
    let mut m = MemorySystem::new();
    m.index_with_skeleton("a.md".to_string(), &two_paragraphs(), vec![unit(0), unit(1)], vec![]);
    let mut dup = m.engrams().clone();
    dup.push(dup[0].clone());
    assert!(MemorySystem::from_engrams(dup).is_none());
    let mut gap = m.engrams().clone();
    gap[0].chunks.remove(0);
    assert!(MemorySystem::from_engrams(gap).is_none());
    let mut long = m.engrams().clone();
    long[0].chunks[0].embedding = vec![1; 8193];
    assert!(MemorySystem::from_engrams(long).is_none());
    let mut twice = m.engrams().clone();
    twice[0].entity_map = vec![("k".to_string(), vec![0]), ("k".to_string(), vec![1])];
    assert!(MemorySystem::from_engrams(twice).is_none());
    let mut distinct = m.engrams().clone();
    distinct[0].entity_map = vec![("k".to_string(), vec![0]), ("j".to_string(), vec![1])];
    assert!(MemorySystem::from_engrams(distinct).is_some());
    let empty = MemorySystem::from_engrams(vec![]).unwrap();
    assert!(empty.flat_index().is_empty());
}

#[test]
fn spreading_adds_to_an_independent_activation() {
    let mut m = MemorySystem::new();
    m.index_with_skeleton("src1.md".to_string(), FIRST, vec![unit(0)], vec![]);
    m.index_with_skeleton("src2.md".to_string(), SECOND, vec![unit(1)], vec![]);
    m.index_with_skeleton("target.md".to_string(), FIRST, vec![unit(2)], vec![]);
    m.forge_synapse("src1.md", "target.md".to_string(), 1_000_000);
    m.forge_synapse("src2.md", "target.md".to_string(), 600_000);
    let acts: Vec<Activation> = vec![
        ("target.md".to_string(), 0, 710_000),
        ("src1.md".to_string(), 0, 900_000),
        ("src2.md".to_string(), 0, 900_000),
    ];
    let spread = m.spread_activation(acts);
    assert_eq!(spread[0], ("target.md".to_string(), 0, 1_430_000));
    let groups = assemble_hits(&spread);
    assert_eq!(groups[0], ("target.md".to_string(), vec![0]));
    assert_eq!(groups.len(), 3);
}
