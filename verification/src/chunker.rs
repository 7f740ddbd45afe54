//! Splitting files into chunks of bounded line count. A chunk's identity is
//! made of the file's path and the line range it covers, so chunking the
//! same text again gives the same identities.

use vstd::prelude::*;
use vstd::string::StringExecFns;
use crate::locator::{is_recognized, recognized};
use crate::text::{decimal, join_lines, join_range, lines_of, push_decimal, split_lines, views};

verus! {

/// Largest number of lines that one chunk holds by default.
pub const MAX_LINES_PER_CHUNK: usize = 300;

/// A piece of a source file, small enough to be embedded on its own.
#[derive(Debug, PartialEq, Eq)]
pub struct CodeChunk {
    /// Stable identity: path and line range.
    pub id: String,
    /// The lines of the chunk, joined by line feeds.
    pub content: String,
    /// Classification label of the file the chunk came from.
    pub language: String,
    /// Path of the file the chunk came from.
    pub file_path: String,
}

/// What a `CodeChunk` holds, as plain sequences.
pub ghost struct ChunkView {
    pub id: Seq<char>,
    pub content: Seq<char>,
    pub language: Seq<char>,
    pub file_path: Seq<char>,
}

impl View for CodeChunk {
    type V = ChunkView;

    open spec fn view(&self) -> ChunkView {
        ChunkView {
            id: self.id@,
            content: self.content@,
            language: self.language@,
            file_path: self.file_path@,
        }
    }
}

impl Clone for CodeChunk {
    fn clone(&self) -> (c: Self)
        ensures
            c@ == self@,
    {
        CodeChunk {
            id: self.id.clone(),
            content: self.content.clone(),
            language: self.language.clone(),
            file_path: self.file_path.clone(),
        }
    }
}

/// A file that the locator found and could read as text.
#[derive(Debug, PartialEq, Eq)]
pub struct SourceFile {
    pub path: String,
    pub text: String,
}

/// What a `SourceFile` holds, as plain sequences.
pub ghost struct FileView {
    pub path: Seq<char>,
    pub text: Seq<char>,
}

impl View for SourceFile {
    type V = FileView;

    open spec fn view(&self) -> FileView {
        FileView { path: self.path@, text: self.text@ }
    }
}

/// The views of a sequence of chunks, element by element.
pub open spec fn chunk_views(v: Seq<CodeChunk>) -> Seq<ChunkView> {
    v.map_values(|c: CodeChunk| c@)
}

/// The views of a sequence of files, element by element.
pub open spec fn file_views(v: Seq<SourceFile>) -> Seq<FileView> {
    v.map_values(|f: SourceFile| f@)
}

// ---------------------------------------------------------------------
// What chunking yields
// ---------------------------------------------------------------------

/// Identity of the chunk of `path` that covers lines `start..end`.
pub open spec fn chunk_id(path: Seq<char>, start: nat, end: nat) -> Seq<char> {
    "FS::"@ + path + "::chunk_"@ + decimal(start) + "_"@ + decimal(end)
}

/// Number of chunks that `total` lines make with at most `cap` lines each.
pub open spec fn chunk_count(total: nat, cap: nat) -> nat {
    if cap == 0 {
        0
    } else if total % cap == 0 {
        total / cap
    } else {
        total / cap + 1
    }
}

/// First line of chunk `i`.
pub open spec fn chunk_start(i: int, cap: nat) -> nat {
    (i * cap) as nat
}

/// Line after the last line of chunk `i`.
pub open spec fn chunk_end(i: int, cap: nat, total: nat) -> nat {
    if (i + 1) * cap <= total {
        ((i + 1) * cap) as nat
    } else {
        total
    }
}

/// Chunk `i` of a file with the given lines.
pub open spec fn nth_chunk(
    path: Seq<char>,
    lines: Seq<Seq<char>>,
    category: Seq<char>,
    cap: nat,
    i: int,
) -> ChunkView {
    let start = chunk_start(i, cap);
    let end = chunk_end(i, cap, lines.len());
    ChunkView {
        id: chunk_id(path, start, end),
        content: join_lines(lines.subrange(start as int, end as int)),
        language: category,
        file_path: path,
    }
}

/// The chunks of a file with the given lines: consecutive runs of `cap`
/// lines, the last one possibly shorter, none empty.
pub open spec fn chunks_of_lines(
    path: Seq<char>,
    lines: Seq<Seq<char>>,
    category: Seq<char>,
    cap: nat,
) -> Seq<ChunkView> {
    Seq::new(chunk_count(lines.len(), cap), |i: int| nth_chunk(path, lines, category, cap, i))
}

/// The chunks of a file's text.
pub open spec fn chunks_of(
    path: Seq<char>,
    text: Seq<char>,
    category: Seq<char>,
    cap: nat,
) -> Seq<ChunkView> {
    chunks_of_lines(path, lines_of(text), category, cap)
}

/// Chunks `0..k` end before line `k * cap`, and that many lines exist as
/// long as `k` is below the chunk count.
proof fn lemma_chunk_progress(total: nat, cap: nat, k: nat)
    requires
        cap > 0,
    ensures
        k * cap < total <==> k < chunk_count(total, cap),
        k < chunk_count(total, cap) ==> chunk_start(k as int, cap) < chunk_end(
            k as int,
            cap,
            total,
        ) <= total,
        (k + 1) * cap == k * cap + cap,
{
    assert((k + 1) * cap == k * cap + cap) by (nonlinear_arith);
    let q = total / cap;
    let r = total % cap;
    assert(total == q * cap + r && 0 <= r < cap) by (nonlinear_arith)
        requires
            cap > 0,
            q == total / cap,
            r == total % cap,
    ;
    if k < q {
        assert(k * cap + cap <= q * cap) by (nonlinear_arith)
            requires
                k < q,
                cap > 0,
        ;
    } else {
        assert(k * cap >= q * cap) by (nonlinear_arith)
            requires
                k >= q,
                cap > 0,
        ;
        if k > q {
            assert(k * cap >= q * cap + cap) by (nonlinear_arith)
                requires
                    k > q,
                    cap > 0,
            ;
        }
    }
}

// ---------------------------------------------------------------------
// Chunking
// ---------------------------------------------------------------------

/// Builds the identity of the chunk of `path` that covers `start..end`.
pub fn make_chunk_id(path: &str, start: usize, end: usize) -> (id: String)
    ensures
        id@ == chunk_id(path@, start as nat, end as nat),
{
    let mut id = String::from_str("FS::");
    id.append(path);
    id.append("::chunk_");
    push_decimal(&mut id, start);
    id.append("_");
    push_decimal(&mut id, end);
    id
}

/// Splits a file into chunks of at most `max_lines` lines each. An empty
/// file gives no chunk; a file of at most `max_lines` lines gives one.
/// With a cap of zero no line fits into a chunk, and there is none.
pub fn chunk_file_with(path: &str, text: &str, category: &str, max_lines: usize) -> (chunks: Vec<
    CodeChunk,
>)
    ensures
        chunk_views(chunks@) == chunks_of(path@, text@, category@, max_lines as nat),
{
    if max_lines == 0 {
        let none: Vec<CodeChunk> = Vec::new();
        assert(chunk_views(none@) =~= chunks_of(path@, text@, category@, 0));
        return none;
    }
    let lines = split_lines(text);
    let total = lines.len();
    let ghost all = lines_of(text@);
    let ghost cap = max_lines as nat;
    let mut chunks: Vec<CodeChunk> = Vec::new();
    let mut start: usize = 0;
    proof {
        lemma_chunk_progress(total as nat, cap, 0);
    }
    while start < total
        invariant
            max_lines > 0,
            cap == max_lines,
            total == lines.len(),
            views(lines@) == all,
            all.len() == total,
            start <= total,
            start < total ==> start == chunks.len() * cap,
            start == total ==> chunks.len() == chunk_count(total as nat, cap),
            chunks.len() <= chunk_count(total as nat, cap),
            forall|j: int|
                0 <= j < chunks.len() ==> (#[trigger] chunks[j])@ == nth_chunk(
                    path@,
                    all,
                    category@,
                    cap,
                    j,
                ),
        decreases total - start,
    {
        let ghost k = chunks.len() as nat;
        proof {
            lemma_chunk_progress(total as nat, cap, k);
            lemma_chunk_progress(total as nat, cap, k + 1);
        }
        let end = if total - start > max_lines {
            start + max_lines
        } else {
            total
        };
        assert(end == chunk_end(k as int, cap, total as nat));
        let chunk = CodeChunk {
            id: make_chunk_id(path, start, end),
            content: join_range(&lines, start, end),
            language: String::from_str(category),
            file_path: String::from_str(path),
        };
        assert(chunk@ == nth_chunk(path@, all, category@, cap, k as int));
        chunks.push(chunk);
        start = end;
    }
    proof {
        assert(chunk_views(chunks@) =~= chunks_of_lines(path@, all, category@, cap));
    }
    chunks
}

/// Splits a file into chunks of at most `MAX_LINES_PER_CHUNK` lines.
pub fn chunk_file(path: &str, text: &str, category: &str) -> (chunks: Vec<CodeChunk>)
    ensures
        chunk_views(chunks@) == chunks_of(path@, text@, category@, MAX_LINES_PER_CHUNK as nat),
{
    chunk_file_with(path, text, category, MAX_LINES_PER_CHUNK)
}

// ---------------------------------------------------------------------
// Collecting the chunks of many files
// ---------------------------------------------------------------------

/// The chunks of the recognized files among `files`, file after file.
pub open spec fn snippets_of(
    files: Seq<FileView>,
    filter: Seq<Seq<char>>,
    label: Seq<char>,
) -> Seq<ChunkView>
    decreases files.len(),
{
    if files.len() == 0 {
        Seq::empty()
    } else {
        let f = files.last();
        let before = snippets_of(files.drop_last(), filter, label);
        if recognized(f.path, filter) {
            before + chunks_of(f.path, f.text, label, MAX_LINES_PER_CHUNK as nat)
        } else {
            before
        }
    }
}

/// Chunks every file whose path passes the extension filter, in the order
/// of `files`, and labels each chunk with `lang_label`. Files that do not
/// pass are left out.
pub fn collect_snippets_from_dir(
    files: &Vec<SourceFile>,
    extension_filter: &Vec<String>,
    lang_label: &str,
) -> (snippets: Vec<CodeChunk>)
    ensures
        chunk_views(snippets@) == snippets_of(
            file_views(files@),
            views(extension_filter@),
            lang_label@,
        ),
{
    let mut snippets: Vec<CodeChunk> = Vec::new();
    let ghost all = file_views(files@);
    let ghost filter = views(extension_filter@);
    let mut i: usize = 0;
    assert(all.subrange(0, 0) == Seq::<FileView>::empty());
    while i < files.len()
        invariant
            i <= files.len(),
            all == file_views(files@),
            filter == views(extension_filter@),
            chunk_views(snippets@) == snippets_of(all.subrange(0, i as int), filter, lang_label@),
        decreases files.len() - i,
    {
        let file = &files[i];
        proof {
            let upto = all.subrange(0, i + 1);
            assert(upto.drop_last() == all.subrange(0, i as int));
            assert(upto.last() == file@);
        }
        if is_recognized(file.path.as_str(), extension_filter) {
            let mut chunks = chunk_file(file.path.as_str(), file.text.as_str(), lang_label);
            let ghost before = chunk_views(snippets@);
            let ghost added = chunk_views(chunks@);
            snippets.append(&mut chunks);
            assert(chunk_views(snippets@) =~= before + added);
        }
        i += 1;
    }
    assert(all.subrange(0, files.len() as int) == all);
    snippets
}

/// Directory of the Python and Cython implementations.
pub open spec fn python_root() -> Seq<char> {
    "nautilus_trader/nautilus_trader/indicators"@
}

/// Directory of the Rust implementations.
pub open spec fn rust_root() -> Seq<char> {
    "nautilus_trader/crates/indicators"@
}

/// Directory of the Python and Cython implementations.
pub fn python_indicator_root() -> (root: String)
    ensures
        root@ == python_root(),
{
    String::from_str("nautilus_trader/nautilus_trader/indicators")
}

/// Directory of the Rust implementations.
pub fn rust_indicator_root() -> (root: String)
    ensures
        root@ == rust_root(),
{
    String::from_str("nautilus_trader/crates/indicators")
}

/// Endings of Python and Cython files.
pub open spec fn python_endings() -> Seq<Seq<char>> {
    seq![".py"@, ".pyx"@, ".pxd"@]
}

/// Endings of Rust files.
pub open spec fn rust_endings() -> Seq<Seq<char>> {
    seq![".rs"@]
}

/// Endings of Python and Cython files.
pub fn python_extension_filter() -> (filter: Vec<String>)
    ensures
        views(filter@) == python_endings(),
{
    let mut filter: Vec<String> = Vec::new();
    filter.push(String::from_str(".py"));
    filter.push(String::from_str(".pyx"));
    filter.push(String::from_str(".pxd"));
    assert(views(filter@) =~= python_endings());
    filter
}

/// Endings of Rust files.
pub fn rust_extension_filter() -> (filter: Vec<String>)
    ensures
        views(filter@) == rust_endings(),
{
    let mut filter: Vec<String> = Vec::new();
    filter.push(String::from_str(".rs"));
    assert(views(filter@) =~= rust_endings());
    filter
}

/// Collects the snippets of both implementations: first those of the
/// Python and Cython files, labelled `cython_python`, then those of the
/// Rust files, labelled `rust`. `python_files` are the readable files below
/// `python_indicator_root()`, `rust_files` those below
/// `rust_indicator_root()`.
pub fn collect_all_snippets(python_files: &Vec<SourceFile>, rust_files: &Vec<SourceFile>) -> (all:
    Vec<CodeChunk>)
    ensures
        chunk_views(all@) == snippets_of(
            file_views(python_files@),
            python_endings(),
            "cython_python"@,
        ) + snippets_of(file_views(rust_files@), rust_endings(), "rust"@),
{
    let py_filter = python_extension_filter();
    let rs_filter = rust_extension_filter();
    let mut all = collect_snippets_from_dir(python_files, &py_filter, "cython_python");
    let mut rust = collect_snippets_from_dir(rust_files, &rs_filter, "rust");
    let ghost first = chunk_views(all@);
    let ghost second = chunk_views(rust@);
    all.append(&mut rust);
    assert(chunk_views(all@) =~= first + second);
    all
}

// ---------------------------------------------------------------------
// What holds of every chunking
// ---------------------------------------------------------------------

/// Chunking is repeatable: two chunkings of the same path, text and label
/// agree chunk by chunk, in identity, in content and in everything else.
pub proof fn lemma_chunking_repeats(
    path: Seq<char>,
    text: Seq<char>,
    category: Seq<char>,
    cap: nat,
    first: Seq<ChunkView>,
    second: Seq<ChunkView>,
)
    requires
        first == chunks_of(path, text, category, cap),
        second == chunks_of(path, text, category, cap),
    ensures
        first.len() == second.len(),
        forall|i: int| 0 <= i < first.len() ==> (#[trigger] first[i]).id == second[i].id,
        forall|i: int| 0 <= i < first.len() ==> (#[trigger] first[i]).content == second[i].content,
        first == second,
{
}

/// An identity names the path and the line range, nothing else: the
/// label and the text of the other lines have no part in it.
pub proof fn lemma_identity_ignores_content(
    path: Seq<char>,
    lines: Seq<Seq<char>>,
    other_lines: Seq<Seq<char>>,
    category: Seq<char>,
    other_category: Seq<char>,
    cap: nat,
    i: int,
)
    requires
        lines.len() == other_lines.len(),
    ensures
        nth_chunk(path, lines, category, cap, i).id == nth_chunk(
            path,
            other_lines,
            other_category,
            cap,
            i,
        ).id,
{
}

/// An empty file has no chunk.
pub proof fn lemma_empty_file_has_no_chunk(path: Seq<char>, category: Seq<char>, cap: nat)
    ensures
        chunks_of(path, Seq::<char>::empty(), category, cap).len() == 0,
{
    assert(lines_of(Seq::<char>::empty()).len() == 0);
    if cap > 0 {
        lemma_chunk_progress(0, cap, 0);
    }
}

/// A file of at most `cap` lines, and at least one, is one chunk that
/// spans the whole file.
pub proof fn lemma_short_file_is_one_chunk(
    path: Seq<char>,
    lines: Seq<Seq<char>>,
    category: Seq<char>,
    cap: nat,
)
    requires
        0 < lines.len() <= cap,
    ensures
        chunks_of_lines(path, lines, category, cap) == seq![
            ChunkView {
                id: chunk_id(path, 0, lines.len()),
                content: join_lines(lines),
                language: category,
                file_path: path,
            },
        ],
{
    let total = lines.len();
    lemma_chunk_progress(total, cap, 0);
    lemma_chunk_progress(total, cap, 1);
    assert(chunk_count(total, cap) == 1);
    assert(chunk_start(0, cap) == 0);
    assert(chunk_end(0, cap, total) == total);
    assert(lines.subrange(0, total as int) == lines);
    assert(chunks_of_lines(path, lines, category, cap) =~= seq![
        nth_chunk(path, lines, category, cap, 0),
    ]);
}

/// Every chunk holds at least one line and at most `cap`, each chunk but
/// the last holds exactly `cap`, and each starts where the one before it
/// ended: the chunks cover the file without gap or overlap.
pub proof fn lemma_chunks_cover(total: nat, cap: nat, i: int)
    requires
        cap > 0,
        0 <= i < chunk_count(total, cap),
    ensures
        chunk_start(i, cap) < chunk_end(i, cap, total) <= total,
        chunk_end(i, cap, total) - chunk_start(i, cap) <= cap,
        i + 1 < chunk_count(total, cap) ==> chunk_end(i, cap, total) - chunk_start(i, cap) == cap,
        i + 1 < chunk_count(total, cap) ==> chunk_start(i + 1, cap) == chunk_end(i, cap, total),
        i + 1 == chunk_count(total, cap) ==> chunk_end(i, cap, total) == total,
        i == 0 ==> chunk_start(i, cap) == 0,
{
    lemma_chunk_progress(total, cap, i as nat);
    lemma_chunk_progress(total, cap, (i + 1) as nat);
    assert(i == 0 ==> i * cap == 0) by (nonlinear_arith);
}

} // verus!
