//! Identities name their chunk: from an identity the path and the line
//! range can be told, so two chunks with the same identity are chunks of
//! the same file and cover the same lines.

use vstd::prelude::*;
use crate::chunker::{
    chunk_count, chunk_end, chunk_id, chunk_start, chunks_of, nth_chunk, snippets_of, ChunkView,
    FileView, MAX_LINES_PER_CHUNK,
};
use crate::text::{decimal, digit_char, lines_of};

verus! {

/// One of the ten digits.
pub open spec fn is_digit(c: char) -> bool {
    c == '0' || c == '1' || c == '2' || c == '3' || c == '4' || c == '5' || c == '6' || c == '7'
        || c == '8' || c == '9'
}

/// A number in decimal is one digit or more, and digits only.
pub proof fn lemma_decimal_is_digits(n: nat)
    ensures
        decimal(n).len() >= 1,
        n >= 10 ==> decimal(n).len() >= 2,
        forall|i: int| 0 <= i < decimal(n).len() ==> is_digit(#[trigger] decimal(n)[i]),
    decreases n,
{
    if n >= 10 {
        lemma_decimal_is_digits(n / 10);
        assert forall|i: int| 0 <= i < decimal(n).len() implies is_digit(
            #[trigger] decimal(n)[i],
        ) by {
            if i < decimal(n / 10).len() {
                assert(decimal(n)[i] == decimal(n / 10)[i]);
            }
        }
    }
}

/// Different numbers are written differently.
pub proof fn lemma_decimal_injective(a: nat, b: nat)
    requires
        decimal(a) == decimal(b),
    ensures
        a == b,
    decreases a,
{
    lemma_decimal_is_digits(a);
    lemma_decimal_is_digits(b);
    if a < 10 && b < 10 {
        assert(decimal(a)[0] == digit_char(a));
        assert(decimal(b)[0] == digit_char(b));
    } else if a >= 10 && b >= 10 {
        let x = decimal(a / 10);
        let y = decimal(b / 10);
        assert(decimal(a).drop_last() == x);
        assert(decimal(b).drop_last() == y);
        assert(decimal(a).last() == digit_char(a % 10));
        assert(decimal(b).last() == digit_char(b % 10));
        lemma_decimal_injective(a / 10, b / 10);
    }
}

/// A line range as an identity shows it.
pub open spec fn range_text(start: nat, end: nat) -> Seq<char> {
    decimal(start) + seq!['_'] + decimal(end)
}

/// A range text is digits with one underscore among them, and it starts
/// with a digit.
pub proof fn lemma_range_text_shape(start: nat, end: nat)
    ensures
        range_text(start, end).len() == decimal(start).len() + 1 + decimal(end).len(),
        is_digit(range_text(start, end)[0]),
        forall|i: int|
            0 <= i < range_text(start, end).len() ==> is_digit(#[trigger] range_text(start, end)[i])
                || range_text(start, end)[i] == '_',
        forall|i: int|
            0 <= i < decimal(start).len() ==> #[trigger] range_text(start, end)[i] == decimal(
                start,
            )[i],
        range_text(start, end)[decimal(start).len() as int] == '_',
        forall|i: int|
            0 <= i < decimal(end).len() ==> #[trigger] range_text(start, end)[decimal(start).len()
                + 1 + i] == decimal(end)[i],
{
    lemma_decimal_is_digits(start);
    lemma_decimal_is_digits(end);
    let r = range_text(start, end);
    let a = decimal(start).len() as int;
    assert forall|i: int| 0 <= i < r.len() implies is_digit(#[trigger] r[i]) || r[i] == '_' by {
        if i < a {
            assert(r[i] == decimal(start)[i]);
        } else if i > a {
            assert(r[i] == decimal(end)[i - a - 1]);
        }
    }
    assert(r[0] == decimal(start)[0]);
}

/// Different ranges are written differently.
pub proof fn lemma_range_text_injective(s1: nat, e1: nat, s2: nat, e2: nat)
    requires
        range_text(s1, e1) == range_text(s2, e2),
    ensures
        s1 == s2,
        e1 == e2,
{
    lemma_range_text_shape(s1, e1);
    lemma_range_text_shape(s2, e2);
    lemma_decimal_is_digits(s1);
    lemma_decimal_is_digits(s2);
    let r = range_text(s1, e1);
    let a1 = decimal(s1).len() as int;
    let a2 = decimal(s2).len() as int;
    if a1 < a2 {
        assert(r[a1] == '_');
        assert(r[a1] == decimal(s2)[a1]);
        assert(is_digit(decimal(s2)[a1]));
    } else if a2 < a1 {
        assert(r[a2] == '_');
        assert(r[a2] == decimal(s1)[a2]);
        assert(is_digit(decimal(s1)[a2]));
    }
    assert(decimal(s1) =~= decimal(s2)) by {
        assert forall|i: int| 0 <= i < a1 implies decimal(s1)[i] == decimal(s2)[i] by {
            assert(r[i] == decimal(s1)[i]);
            assert(r[i] == decimal(s2)[i]);
        }
    }
    assert(decimal(e1) =~= decimal(e2)) by {
        assert(decimal(e1).len() == decimal(e2).len());
        assert forall|i: int| 0 <= i < decimal(e1).len() implies decimal(e1)[i] == decimal(
            e2,
        )[i] by {
            assert(r[a1 + 1 + i] == decimal(e1)[i]);
            assert(r[a2 + 1 + i] == decimal(e2)[i]);
        }
    }
    lemma_decimal_injective(s1, s2);
    lemma_decimal_injective(e1, e2);
}

/// What stands before the range in an identity.
pub open spec fn head_text(path: Seq<char>) -> Seq<char> {
    seq!['F', 'S', ':', ':'] + path + seq![':', ':', 'c', 'h', 'u', 'n', 'k', '_']
}

/// An identity is its head followed by its range.
pub proof fn lemma_identity_parts(path: Seq<char>, start: nat, end: nat)
    ensures
        chunk_id(path, start, end) == head_text(path) + range_text(start, end),
        head_text(path).len() == path.len() + 12,
        head_text(path)[head_text(path).len() - 1] == '_',
        head_text(path)[head_text(path).len() - 2] == 'k',
        forall|i: int| 0 <= i < path.len() ==> #[trigger] head_text(path)[i + 4] == path[i],
{
    reveal_strlit("FS::");
    reveal_strlit("::chunk_");
    reveal_strlit("_");
    assert("FS::"@ =~= seq!['F', 'S', ':', ':']);
    assert("::chunk_"@ =~= seq![':', ':', 'c', 'h', 'u', 'n', 'k', '_']);
    assert("_"@ =~= seq!['_']);
    assert(chunk_id(path, start, end) =~= head_text(path) + range_text(start, end));
}

/// An identity tells its path and its line range: two identities are the
/// same only if they were made of the same path, the same first line and
/// the same end.
pub proof fn lemma_identity_injective(
    p1: Seq<char>,
    s1: nat,
    e1: nat,
    p2: Seq<char>,
    s2: nat,
    e2: nat,
)
    requires
        chunk_id(p1, s1, e1) == chunk_id(p2, s2, e2),
    ensures
        p1 == p2,
        s1 == s2,
        e1 == e2,
{
    lemma_identity_parts(p1, s1, e1);
    lemma_identity_parts(p2, s2, e2);
    lemma_range_text_shape(s1, e1);
    lemma_range_text_shape(s2, e2);
    let id = chunk_id(p1, s1, e1);
    let h1 = head_text(p1);
    let h2 = head_text(p2);
    let r1 = range_text(s1, e1);
    let r2 = range_text(s2, e2);
    let n = id.len() as int;
    assert(n == h1.len() + r1.len());
    assert(n == h2.len() + r2.len());
    lemma_range_is_not_longer(h1, r1, h2, r2);
    lemma_range_is_not_longer(h2, r2, h1, r1);
    assert(h1.len() == h2.len());
    assert(r1 =~= r2) by {
        assert forall|i: int| 0 <= i < r1.len() implies r1[i] == r2[i] by {
            assert((h1 + r1)[h1.len() + i] == r1[i]);
            assert((h2 + r2)[h2.len() + i] == r2[i]);
        }
    }
    assert(p1 =~= p2) by {
        assert forall|i: int| 0 <= i < p1.len() implies p1[i] == p2[i] by {
            assert((h1 + r1)[i + 4] == h1[i + 4]);
            assert((h2 + r2)[i + 4] == h2[i + 4]);
        }
    }
    lemma_range_text_injective(s1, e1, s2, e2);
}

/// Of two identities that are the same, neither has the longer range
/// text: where the other one's head ends in `k_`, the longer one would
/// have `k` among its digits or an underscore as its first character.
proof fn lemma_range_is_not_longer(h1: Seq<char>, r1: Seq<char>, h2: Seq<char>, r2: Seq<char>)
    requires
        h1 + r1 == h2 + r2,
        h2.len() >= 2,
        h2[h2.len() - 1] == '_',
        h2[h2.len() - 2] == 'k',
        r1.len() >= 1,
        is_digit(r1[0]),
        forall|i: int| 0 <= i < r1.len() ==> is_digit(#[trigger] r1[i]) || r1[i] == '_',
    ensures
        r1.len() <= r2.len(),
{
    if r1.len() > r2.len() {
        let id = h1 + r1;
        let n = id.len() as int;
        assert(n == h1.len() + r1.len());
        assert(n == h2.len() + r2.len());
        let d = r1.len() - r2.len();
        assert((h2 + r2)[h2.len() - 1] == '_');
        assert((h2 + r2)[h2.len() - 2] == 'k');
        assert((h1 + r1)[h1.len() + (d - 1)] == r1[d - 1]);
        if d >= 2 {
            assert((h1 + r1)[h1.len() + (d - 2)] == r1[d - 2]);
            assert(r1[d - 2] == 'k');
            assert(is_digit(r1[d - 2]) || r1[d - 2] == '_');
        } else {
            assert(r1[0] == '_');
        }
    }
}

/// The chunks of one file have identities of their own: two chunks with
/// the same identity are the same chunk.
pub proof fn lemma_chunks_have_own_identities(
    path: Seq<char>,
    lines: Seq<Seq<char>>,
    category: Seq<char>,
    cap: nat,
    i: int,
    j: int,
)
    requires
        cap > 0,
        0 <= i < chunk_count(lines.len(), cap),
        0 <= j < chunk_count(lines.len(), cap),
        nth_chunk(path, lines, category, cap, i).id == nth_chunk(path, lines, category, cap, j).id,
    ensures
        i == j,
{
    lemma_identity_injective(
        path,
        chunk_start(i, cap),
        chunk_end(i, cap, lines.len()),
        path,
        chunk_start(j, cap),
        chunk_end(j, cap, lines.len()),
    );
    assert(i * cap == j * cap);
    assert(i == j) by (nonlinear_arith)
        requires
            i * cap == j * cap,
            cap > 0,
    ;
}

/// Chunks of different files have different identities.
pub proof fn lemma_files_have_own_identities(
    p1: Seq<char>,
    lines1: Seq<Seq<char>>,
    category1: Seq<char>,
    p2: Seq<char>,
    lines2: Seq<Seq<char>>,
    category2: Seq<char>,
    cap: nat,
    i: int,
    j: int,
)
    requires
        p1 != p2,
    ensures
        nth_chunk(p1, lines1, category1, cap, i).id != nth_chunk(p2, lines2, category2, cap, j).id,
{
    if nth_chunk(p1, lines1, category1, cap, i).id == nth_chunk(p2, lines2, category2, cap, j).id {
        lemma_identity_injective(
            p1,
            chunk_start(i, cap),
            chunk_end(i, cap, lines1.len()),
            p2,
            chunk_start(j, cap),
            chunk_end(j, cap, lines2.len()),
        );
    }
}

// ---------------------------------------------------------------------
// The snippets of many files
// ---------------------------------------------------------------------

/// No two files share a path.
pub open spec fn distinct_paths(files: Seq<FileView>) -> bool {
    forall|a: int, b: int|
        0 <= a < b < files.len() ==> (#[trigger] files[a]).path != (#[trigger] files[b]).path
}

/// Whether `c` is one of the chunks that file `f` is cut into.
pub open spec fn chunk_of_file(c: ChunkView, f: FileView, label: Seq<char>) -> bool {
    exists|k: int|
        0 <= k < chunk_count(lines_of(f.text).len(), MAX_LINES_PER_CHUNK as nat) && c
            == #[trigger] nth_chunk(
            f.path,
            lines_of(f.text),
            label,
            MAX_LINES_PER_CHUNK as nat,
            k,
        )
}

/// Every collected snippet is a chunk of one of the files.
pub proof fn lemma_snippets_come_from_files(
    files: Seq<FileView>,
    filter: Seq<Seq<char>>,
    label: Seq<char>,
    i: int,
)
    requires
        0 <= i < snippets_of(files, filter, label).len(),
    ensures
        exists|f: int|
            0 <= f < files.len() && chunk_of_file(
                snippets_of(files, filter, label)[i],
                #[trigger] files[f],
                label,
            ),
    decreases files.len(),
{
    let all = snippets_of(files, filter, label);
    let head = files.drop_last();
    let before = snippets_of(head, filter, label);
    let last = files.last();
    if i < before.len() {
        assert(all[i] == before[i]);
        lemma_snippets_come_from_files(head, filter, label, i);
        let f = choose|f: int|
            0 <= f < head.len() && chunk_of_file(before[i], #[trigger] head[f], label);
        assert(files[f] == head[f]);
    } else {
        let k = i - before.len();
        let cap = MAX_LINES_PER_CHUNK as nat;
        assert(all[i] == chunks_of(last.path, last.text, label, cap)[k]);
        assert(all[i] == nth_chunk(last.path, lines_of(last.text), label, cap, k));
        assert(chunk_of_file(all[i], files[files.len() - 1], label));
    }
}

/// A chunk of one file and a chunk of another, or two different chunks of
/// one file, have different identities.
proof fn lemma_chunks_of_files_differ(
    c1: ChunkView,
    f1: FileView,
    label1: Seq<char>,
    c2: ChunkView,
    f2: FileView,
    label2: Seq<char>,
)
    requires
        chunk_of_file(c1, f1, label1),
        chunk_of_file(c2, f2, label2),
        f1.path != f2.path,
    ensures
        c1.id != c2.id,
{
    let cap = MAX_LINES_PER_CHUNK as nat;
    let k1 = choose|k: int|
        0 <= k < chunk_count(lines_of(f1.text).len(), cap) && c1 == #[trigger] nth_chunk(
            f1.path,
            lines_of(f1.text),
            label1,
            cap,
            k,
        );
    let k2 = choose|k: int|
        0 <= k < chunk_count(lines_of(f2.text).len(), cap) && c2 == #[trigger] nth_chunk(
            f2.path,
            lines_of(f2.text),
            label2,
            cap,
            k,
        );
    lemma_files_have_own_identities(
        f1.path,
        lines_of(f1.text),
        label1,
        f2.path,
        lines_of(f2.text),
        label2,
        cap,
        k1,
        k2,
    );
}

/// Identities are unique among the snippets of files with paths of their
/// own: no two snippets that are collected share an identity.
pub proof fn lemma_snippets_have_own_identities(
    files: Seq<FileView>,
    filter: Seq<Seq<char>>,
    label: Seq<char>,
    i: int,
    j: int,
)
    requires
        distinct_paths(files),
        0 <= i < j < snippets_of(files, filter, label).len(),
    ensures
        snippets_of(files, filter, label)[i].id != snippets_of(files, filter, label)[j].id,
    decreases files.len(),
{
    let all = snippets_of(files, filter, label);
    let head = files.drop_last();
    let before = snippets_of(head, filter, label);
    let last = files.last();
    let cap = MAX_LINES_PER_CHUNK as nat;
    assert forall|a: int, b: int| 0 <= a < b < head.len() implies (#[trigger] head[a]).path != (
    #[trigger] head[b]).path by {
        assert(head[a] == files[a] && head[b] == files[b]);
    }
    if j < before.len() {
        assert(all[i] == before[i] && all[j] == before[j]);
        lemma_snippets_have_own_identities(head, filter, label, i, j);
    } else {
        let kj = j - before.len();
        assert(all[j] == nth_chunk(last.path, lines_of(last.text), label, cap, kj));
        if i < before.len() {
            assert(all[i] == before[i]);
            lemma_snippets_come_from_files(head, filter, label, i);
            let f = choose|f: int|
                0 <= f < head.len() && chunk_of_file(before[i], #[trigger] head[f], label);
            assert(head[f] == files[f]);
            assert(files[f].path != files[files.len() - 1].path);
            assert(chunk_of_file(all[j], last, label));
            lemma_chunks_of_files_differ(all[i], head[f], label, all[j], last, label);
        } else {
            let ki = i - before.len();
            assert(all[i] == nth_chunk(last.path, lines_of(last.text), label, cap, ki));
            if all[i].id == all[j].id {
                lemma_chunks_have_own_identities(
                    last.path,
                    lines_of(last.text),
                    label,
                    cap,
                    ki,
                    kj,
                );
            }
        }
    }
}

/// The same holds of the snippets of both implementations together, when
/// no path occurs twice among the files of the two.
pub proof fn lemma_all_snippets_have_own_identities(
    first: Seq<FileView>,
    first_filter: Seq<Seq<char>>,
    first_label: Seq<char>,
    second: Seq<FileView>,
    second_filter: Seq<Seq<char>>,
    second_label: Seq<char>,
    i: int,
    j: int,
)
    requires
        distinct_paths(first + second),
        0 <= i < j < (snippets_of(first, first_filter, first_label) + snippets_of(
            second,
            second_filter,
            second_label,
        )).len(),
    ensures
        (snippets_of(first, first_filter, first_label) + snippets_of(
            second,
            second_filter,
            second_label,
        ))[i].id != (snippets_of(first, first_filter, first_label) + snippets_of(
            second,
            second_filter,
            second_label,
        ))[j].id,
{
    let a = snippets_of(first, first_filter, first_label);
    let b = snippets_of(second, second_filter, second_label);
    let both = first + second;
    assert forall|x: int, y: int| 0 <= x < y < first.len() implies (#[trigger] first[x]).path != (
    #[trigger] first[y]).path by {
        assert(both[x] == first[x] && both[y] == first[y]);
    }
    assert forall|x: int, y: int| 0 <= x < y < second.len() implies (#[trigger] second[x]).path
        != (#[trigger] second[y]).path by {
        assert(both[first.len() + x] == second[x] && both[first.len() + y] == second[y]);
    }
    if j < a.len() {
        lemma_snippets_have_own_identities(first, first_filter, first_label, i, j);
    } else if i >= a.len() {
        lemma_snippets_have_own_identities(
            second,
            second_filter,
            second_label,
            i - a.len(),
            j - a.len(),
        );
    } else {
        lemma_snippets_come_from_files(first, first_filter, first_label, i);
        lemma_snippets_come_from_files(second, second_filter, second_label, j - a.len());
        let f = choose|f: int|
            0 <= f < first.len() && chunk_of_file(a[i], #[trigger] first[f], first_label);
        let g = choose|g: int|
            0 <= g < second.len() && chunk_of_file(
                b[j - a.len()],
                #[trigger] second[g],
                second_label,
            );
        assert(both[f] == first[f] && both[first.len() + g] == second[g]);
        assert(both[f].path != both[first.len() + g].path);
        lemma_chunks_of_files_differ(a[i], first[f], first_label, b[j - a.len()], second[g], second_label);
    }
}

} // verus!
