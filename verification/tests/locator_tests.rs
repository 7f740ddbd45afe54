use snippet_pipeline::chunker::SourceFile;
use snippet_pipeline::locator::{
    candidate_rust_paths, decode_files, find_matching_rust, is_recognized, matches_ending, RawFile,
};

fn filter(parts: &[&str]) -> Vec<String> {
    parts.iter().map(|p| p.to_string()).collect()
}

#[test]
fn recognizes_by_ending() {
    let py = filter(&[".py", ".pyx", ".pxd"]);
    assert!(is_recognized("indicators/rsi.py", &py));
    assert!(is_recognized("indicators/rsi.pyx", &py));
    assert!(is_recognized("indicators/rsi.pxd", &py));
    assert!(!is_recognized("indicators/rsi.rs", &py));
    assert!(!is_recognized("indicators/rsi.py.bak", &py));
    assert!(!is_recognized("", &py));
}

#[test]
fn recognition_lowercases_the_path() {
    let py = filter(&[".py"]);
    assert!(is_recognized("Indicators/RSI.PY", &py));
    assert!(is_recognized("a.Py", &py));
}

#[test]
fn recognition_takes_filter_entries_as_given() {
    let upper = filter(&[".PY"]);
    assert!(!is_recognized("a.PY", &upper));
    assert!(!is_recognized("a.py", &upper));
}

#[test]
fn empty_filter_recognizes_nothing() {
    assert!(!is_recognized("a.py", &Vec::new()));
}

#[test]
fn matches_ending_does_not_lowercase() {
    let rs = filter(&[".rs"]);
    assert!(matches_ending("lib.rs", &rs));
    assert!(!matches_ending("LIB.RS", &rs));
}

#[test]
fn candidate_paths_in_search_order() {
    let want: Vec<String> = [
        "momentum",
        "volatility",
        "ratio",
        "book",
        "average",
        "python/momentum",
        "python/average",
    ]
    .iter()
    .map(|g| format!("nautilus_trader/crates/indicators/src/{}/rsi.rs", g))
    .collect();
    assert_eq!(candidate_rust_paths("rsi"), want);
}

#[test]
fn first_existing_candidate_is_chosen() {
    let present = vec![false, false, true, false, true, false, false];
    assert_eq!(
        find_matching_rust("ema", &present),
        Some("nautilus_trader/crates/indicators/src/ratio/ema.rs".to_string())
    );
}

#[test]
fn last_candidate_can_be_chosen() {
    let present = vec![false, false, false, false, false, false, true];
    assert_eq!(
        find_matching_rust("ema", &present),
        Some("nautilus_trader/crates/indicators/src/python/average/ema.rs".to_string())
    );
}

#[test]
fn no_existing_candidate_gives_none() {
    assert_eq!(find_matching_rust("ema", &vec![false; 7]), None);
    assert_eq!(find_matching_rust("ema", &Vec::new()), None);
    assert_eq!(find_matching_rust("ema", &vec![false, false]), None);
}

#[test]
fn surplus_flags_are_ignored() {
    let present = vec![false, false, false, false, false, false, false, true, true];
    assert_eq!(find_matching_rust("ema", &present), None);
}

fn raw(path: &str, bytes: &[u8]) -> RawFile {
    RawFile { path: path.to_string(), bytes: bytes.to_vec() }
}

#[test]
fn files_that_are_text_are_decoded() {
    let (files, skipped) = decode_files(&vec![raw("a.py", "x = 1\n".as_bytes()), raw("é.rs", "é🟢".as_bytes())]);
    assert_eq!(
        files,
        vec![
            SourceFile { path: "a.py".to_string(), text: "x = 1\n".to_string() },
            SourceFile { path: "é.rs".to_string(), text: "é🟢".to_string() },
        ]
    );
    assert_eq!(skipped, Vec::<String>::new());
}

#[test]
fn files_that_are_no_text_are_left_out_and_named() {
    let input = vec![
        raw("bad1.py", &[0xff, 0xfe]),
        raw("good.py", b"ok"),
        raw("bad2.py", &[b'a', 0xc3]),
        raw("surrogate.py", &[0xed, 0xa0, 0x80]),
        raw("overlong.py", &[0xc0, 0xaf]),
        raw("empty.py", b""),
    ];
    let (files, skipped) = decode_files(&input);
    assert_eq!(
        files,
        vec![
            SourceFile { path: "good.py".to_string(), text: "ok".to_string() },
            SourceFile { path: "empty.py".to_string(), text: "".to_string() },
        ]
    );
    assert_eq!(
        skipped,
        vec![
            "bad1.py".to_string(),
            "bad2.py".to_string(),
            "surrogate.py".to_string(),
            "overlong.py".to_string(),
        ]
    );
}

#[test]
fn no_files_decode_to_no_files() {
    assert_eq!(decode_files(&Vec::new()), (Vec::<SourceFile>::new(), Vec::<String>::new()));
}
