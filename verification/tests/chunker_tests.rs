use snippet_pipeline::chunker::{
    chunk_file, chunk_file_with, collect_all_snippets, collect_snippets_from_dir, make_chunk_id,
    python_extension_filter, python_indicator_root, rust_extension_filter, rust_indicator_root,
    CodeChunk, SourceFile, MAX_LINES_PER_CHUNK,
};

fn text_of(lines: usize) -> String {
    (0..lines).map(|i| format!("line {}", i)).collect::<Vec<_>>().join("\n")
}

fn file(path: &str, lines: usize) -> SourceFile {
    SourceFile { path: path.to_string(), text: text_of(lines) }
}

fn ids(chunks: &Vec<CodeChunk>) -> Vec<String> {
    chunks.iter().map(|c| c.id.clone()).collect()
}

#[test]
fn identity_names_path_and_range() {
    assert_eq!(make_chunk_id("a/b.py", 0, 50), "FS::a/b.py::chunk_0_50");
    assert_eq!(make_chunk_id("x.rs", 300, 600), "FS::x.rs::chunk_300_600");
    assert_eq!(make_chunk_id("", 0, 0), "FS::::chunk_0_0");
}

#[test]
fn cap_is_three_hundred_lines() {
    assert_eq!(MAX_LINES_PER_CHUNK, 300);
}

#[test]
fn empty_file_has_no_chunk() {
    assert_eq!(chunk_file("c.pyx", "", "cython_python"), Vec::<CodeChunk>::new());
}

#[test]
fn short_file_is_one_chunk() {
    let text = text_of(50);
    let chunks = chunk_file("a.py", &text, "cython_python");
    assert_eq!(
        chunks,
        vec![CodeChunk {
            id: "FS::a.py::chunk_0_50".to_string(),
            content: text.clone(),
            language: "cython_python".to_string(),
            file_path: "a.py".to_string(),
        }]
    );
}

#[test]
fn file_of_exactly_the_cap_is_one_chunk() {
    let chunks = chunk_file("a.py", &text_of(300), "x");
    assert_eq!(ids(&chunks), vec!["FS::a.py::chunk_0_300".to_string()]);
}

#[test]
fn one_line_over_the_cap_makes_two_chunks() {
    let chunks = chunk_file("a.py", &text_of(301), "x");
    assert_eq!(
        ids(&chunks),
        vec!["FS::a.py::chunk_0_300".to_string(), "FS::a.py::chunk_300_301".to_string()]
    );
    assert_eq!(chunks[1].content, "line 300");
}

#[test]
fn long_file_splits_at_the_cap() {
    let text = text_of(700);
    let chunks = chunk_file("b.rs", &text, "rust");
    assert_eq!(
        ids(&chunks),
        vec![
            "FS::b.rs::chunk_0_300".to_string(),
            "FS::b.rs::chunk_300_600".to_string(),
            "FS::b.rs::chunk_600_700".to_string(),
        ]
    );
    let lines: Vec<&str> = text.lines().collect();
    assert_eq!(chunks[0].content, lines[0..300].join("\n"));
    assert_eq!(chunks[1].content, lines[300..600].join("\n"));
    assert_eq!(chunks[2].content, lines[600..700].join("\n"));
    for c in chunks.iter() {
        assert_eq!(c.language, "rust");
        assert_eq!(c.file_path, "b.rs");
    }
}

#[test]
fn chunking_twice_gives_the_same_chunks() {
    let text = text_of(1234);
    let first = chunk_file("dir/m.py", &text, "cython_python");
    let second = chunk_file("dir/m.py", &text, "cython_python");
    assert_eq!(first, second);
    assert_eq!(first.len(), 5);
}

#[test]
fn leading_chunks_keep_their_identity_when_the_file_grows() {
    let before = chunk_file("m.py", &text_of(650), "x");
    let after = chunk_file("m.py", &text_of(720), "x");
    assert_eq!(ids(&before)[0..2], ids(&after)[0..2]);
    assert_ne!(ids(&before)[2], ids(&after)[2]);
}

#[test]
fn custom_cap() {
    let chunks = chunk_file_with("t.rs", "a\nb\nc\nd\ne", "rust", 2);
    assert_eq!(
        ids(&chunks),
        vec![
            "FS::t.rs::chunk_0_2".to_string(),
            "FS::t.rs::chunk_2_4".to_string(),
            "FS::t.rs::chunk_4_5".to_string(),
        ]
    );
    let contents: Vec<String> = chunks.iter().map(|c| c.content.clone()).collect();
    assert_eq!(contents, vec!["a\nb".to_string(), "c\nd".to_string(), "e".to_string()]);
}

#[test]
fn cap_of_one_gives_one_chunk_per_line() {
    let chunks = chunk_file_with("t.rs", "a\n\nc\n", "rust", 1);
    let contents: Vec<String> = chunks.iter().map(|c| c.content.clone()).collect();
    assert_eq!(contents, vec!["a".to_string(), "".to_string(), "c".to_string()]);
}

#[test]
fn line_terminators_are_not_part_of_the_content() {
    let chunks = chunk_file("w.py", "a\r\nb\r\n", "x");
    assert_eq!(chunks.len(), 1);
    assert_eq!(chunks[0].content, "a\nb");
    assert_eq!(chunks[0].id, "FS::w.py::chunk_0_2");
}

#[test]
fn a_single_empty_line_is_a_chunk() {
    let chunks = chunk_file("w.py", "\n", "x");
    assert_eq!(chunks.len(), 1);
    assert_eq!(chunks[0].content, "");
    assert_eq!(chunks[0].id, "FS::w.py::chunk_0_1");
}

#[test]
fn collecting_filters_by_ending_and_keeps_order() {
    let files = vec![file("z/b.rs", 2), file("a.py", 1), file("README.md", 5), file("Q.PYX", 1)];
    let snippets = collect_snippets_from_dir(&files, &python_extension_filter(), "cython_python");
    assert_eq!(
        ids(&snippets),
        vec!["FS::a.py::chunk_0_1".to_string(), "FS::Q.PYX::chunk_0_1".to_string()]
    );
    assert!(snippets.iter().all(|c| c.language == "cython_python"));
    assert_eq!(snippets[1].file_path, "Q.PYX");
}

#[test]
fn collecting_from_no_files_gives_nothing() {
    let snippets = collect_snippets_from_dir(&Vec::new(), &rust_extension_filter(), "rust");
    assert_eq!(snippets, Vec::<CodeChunk>::new());
}

#[test]
fn three_files_give_four_chunks() {
    let python = vec![file("a.py", 50), file("c.pyx", 0)];
    let rust = vec![file("b.rs", 700)];
    let all = collect_all_snippets(&python, &rust);
    assert_eq!(
        ids(&all),
        vec![
            "FS::a.py::chunk_0_50".to_string(),
            "FS::b.rs::chunk_0_300".to_string(),
            "FS::b.rs::chunk_300_600".to_string(),
            "FS::b.rs::chunk_600_700".to_string(),
        ]
    );
    let labels: Vec<&str> = all.iter().map(|c| c.language.as_str()).collect();
    assert_eq!(labels, vec!["cython_python", "rust", "rust", "rust"]);
}

#[test]
fn each_side_only_takes_its_own_endings() {
    let python = vec![file("x.rs", 1), file("x.py", 1)];
    let rust = vec![file("y.py", 1), file("y.rs", 1)];
    let all = collect_all_snippets(&python, &rust);
    assert_eq!(
        ids(&all),
        vec!["FS::x.py::chunk_0_1".to_string(), "FS::y.rs::chunk_0_1".to_string()]
    );
}

#[test]
fn roots_and_filters() {
    assert_eq!(python_indicator_root(), "nautilus_trader/nautilus_trader/indicators");
    assert_eq!(rust_indicator_root(), "nautilus_trader/crates/indicators");
    assert_eq!(
        python_extension_filter(),
        vec![".py".to_string(), ".pyx".to_string(), ".pxd".to_string()]
    );
    assert_eq!(rust_extension_filter(), vec![".rs".to_string()]);
}

#[test]
fn clone_copies_every_field() {
    let c = CodeChunk {
        id: "i".to_string(),
        content: "c".to_string(),
        language: "l".to_string(),
        file_path: "p".to_string(),
    };
    assert_eq!(c.clone(), c);
}

#[test]
fn cap_of_zero_gives_no_chunk() {
    assert_eq!(chunk_file_with("t.rs", "a\nb", "rust", 0), Vec::<CodeChunk>::new());
}

#[test]
fn collected_snippets_have_identities_of_their_own() {
    let python = vec![file("p/a.py", 650), file("p/b.py", 10), file("p/a.pyx", 301)];
    let rust = vec![file("r/a.rs", 900), file("r/b.rs", 1)];
    let all = collect_all_snippets(&python, &rust);
    let mut seen = ids(&all);
    assert_eq!(seen.len(), 3 + 1 + 2 + 3 + 1);
    seen.sort();
    seen.dedup();
    assert_eq!(seen.len(), all.len());
}
