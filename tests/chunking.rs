use cartesian_core::chunker::chunk_content;
use cartesian_core::filetype::{detect_type, FileType};

#[test]
fn detects_types_by_extension() {
    assert_eq!(detect_type("src/main.rs"), FileType::Code);
    assert_eq!(detect_type("tool.py"), FileType::Code);
    assert_eq!(detect_type("a/b/c.c"), FileType::Code);
    assert_eq!(detect_type("x.cpp"), FileType::Code);
    assert_eq!(detect_type("notes.md"), FileType::Prose);
    assert_eq!(detect_type("/home/u/readme.txt"), FileType::Prose);
    assert_eq!(detect_type("conf.json"), FileType::Config);
    assert_eq!(detect_type("Cargo.toml"), FileType::Config);
    assert_eq!(detect_type("ci.yaml"), FileType::Config);
    assert_eq!(detect_type("image.png"), FileType::Unknown);
}

#[test]
fn detects_types_like_path_extension() {
    assert_eq!(detect_type("Makefile"), FileType::Unknown);
    assert_eq!(detect_type(".md"), FileType::Unknown);
    assert_eq!(detect_type("dir.md/"), FileType::Prose);
    assert_eq!(detect_type("dir/notes.md/."), FileType::Prose);
    assert_eq!(detect_type("archive.tar.gz"), FileType::Unknown);
    assert_eq!(detect_type("a.txt/.."), FileType::Unknown);
    assert_eq!(detect_type("/"), FileType::Unknown);
    assert_eq!(detect_type(""), FileType::Unknown);
    assert_eq!(detect_type("..md"), FileType::Prose);
    assert_eq!(detect_type("file.RS"), FileType::Unknown);
}

#[test]
fn same_extension_same_type() {
    for (a, b) in [("x.rs", "dir/y.rs"), ("a.md", "/b/c.d/e.md"), ("q.bin", "r.bin")] {
        assert_eq!(detect_type(a), detect_type(b));
    }
}

#[test]
fn prose_splits_on_blank_lines() {
    let p1 = "The first paragraph is long enough.";
    let p2 = "The second paragraph is long as well.";
    let content = format!("{}\n\n{}", p1, p2);
    let chunks = chunk_content(&content, FileType::Prose);
    assert_eq!(chunks.len(), 2);
    assert_eq!(chunks[0], (0, p1.len(), p1.to_string()));
    let s2 = p1.len() + 2;
    assert_eq!(chunks[1], (s2, s2 + p2.len(), p2.to_string()));
}

#[test]
fn short_segments_are_dropped() {
    let content = "short\n\nexactly twenty bytes\n\nthis one has twenty-one";
    let chunks = chunk_content(content, FileType::Prose);
    assert_eq!(chunks.len(), 1);
    assert_eq!(chunks[0].2, "this one has twenty-one");
    assert_eq!(chunks[0].0, 5 + 2 + 20 + 2);
    assert!(chunk_content("", FileType::Prose).is_empty());
}

#[test]
fn code_splits_on_closing_brace_lines() {
    let content = "fn alpha() {\n    let x = 1;\n}\nfn beta() {\n    let y = 2;\n}\n";
    let chunks = chunk_content(content, FileType::Code);
    assert_eq!(chunks.len(), 2);
    assert_eq!(chunks[0].2, "fn alpha() {\n    let x = 1;");
    assert_eq!(chunks[1].2, "\nfn beta() {\n    let y = 2;");
    for (s, e, t) in &chunks {
        assert_eq!(&content[*s..*e], t.as_str());
    }
}

#[test]
fn unknown_and_config_split_like_code() {
    let content = "{\n  \"key\": \"a value that is long\"\n}";
    let a = chunk_content(content, FileType::Config);
    let b = chunk_content(content, FileType::Unknown);
    assert_eq!(a, b);
    assert_eq!(a.len(), 1);
    assert_eq!(a[0].2, "{\n  \"key\": \"a value that is long\"");
}

#[test]
fn triple_newline_splits_once() {
    let p = "A paragraph that is long enough";
    let content = format!("{}\n\n\n{}", p, p);
    let chunks = chunk_content(&content, FileType::Prose);
    assert_eq!(chunks.len(), 2);
    assert_eq!(chunks[1].2, format!("\n{}", p));
    assert_eq!(chunks[1].0, p.len() + 2);
}

#[test]
fn chunk_ranges_are_ordered_and_in_bounds() {
    let content = "héllo wörld, ünïcode paragraph one\n\nshort\n\nanother paragraph with ßome bytes\n\n\n\nlast paragraph of the text here";
    let chunks = chunk_content(content, FileType::Prose);
    assert_eq!(chunks.len(), 3);
    let mut prev_end = 0;
    for (s, e, t) in &chunks {
        assert!(*s >= prev_end);
        assert!(*s < *e && *e <= content.len());
        assert!(e - s > 20);
        assert_eq!(&content[*s..*e], t.as_str());
        prev_end = *e;
    }
}
