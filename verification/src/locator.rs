//! Which files of a content tree are candidates: the test on a path's
//! ending, the test on whether a file's bytes are text, and the candidate
//! locations of a unit's Rust implementation. Walking the tree and reading
//! the files is the caller's business.

use vstd::prelude::*;
use vstd::string::StringExecFns;
use vstd::utf8::{decode_utf8, valid_utf8};
use crate::chunker::{file_views, FileView, SourceFile};
use crate::text::{chars_of, ends_with, has_suffix, views};

verus! {

/// The lowercase form of a text, as `str::to_lowercase` computes it from
/// the Unicode case mappings.
pub uninterp spec fn lowercase(s: Seq<char>) -> Seq<char>;

/// `str::to_lowercase` returns the lowercase equivalent of the string
/// slice as a new `String`; the result depends on the characters alone.
pub assume_specification[ str::to_lowercase ](s: &str) -> (r: String)
    ensures
        r@ == lowercase(s@),
;

/// Whether `name` ends with one of the `endings`.
pub open spec fn ends_with_any(name: Seq<char>, endings: Seq<Seq<char>>) -> bool {
    exists|i: int| 0 <= i < endings.len() && ends_with(name, #[trigger] endings[i])
}

/// Whether a file at `path` is recognized by a filter: the lowercase path
/// ends with one of the filter's entries, which are compared as given.
pub open spec fn recognized(path: Seq<char>, filter: Seq<Seq<char>>) -> bool {
    ends_with_any(lowercase(path), filter)
}

/// Tests an already lowercased name against a list of endings.
pub fn matches_ending(name: &str, endings: &Vec<String>) -> (b: bool)
    ensures
        b == ends_with_any(name@, views(endings@)),
{
    let cs = chars_of(name);
    let mut i: usize = 0;
    while i < endings.len()
        invariant
            i <= endings.len(),
            cs@ == name@,
            forall|j: int| 0 <= j < i ==> !ends_with(name@, #[trigger] views(endings@)[j]),
        decreases endings.len() - i,
    {
        let e = chars_of(endings[i].as_str());
        assert(views(endings@)[i as int] == e@);
        if has_suffix(&cs, &e) {
            return true;
        }
        i += 1;
    }
    false
}

/// Whether the file at `path` passes the extension filter.
pub fn is_recognized(path: &str, filter: &Vec<String>) -> (b: bool)
    ensures
        b == recognized(path@, views(filter@)),
{
    let lowered = path.to_lowercase();
    matches_ending(lowered.as_str(), filter)
}

// ---------------------------------------------------------------------
// Which files are text
// ---------------------------------------------------------------------

/// A file as it was read: its path and its bytes.
#[derive(Debug, PartialEq, Eq)]
pub struct RawFile {
    pub path: String,
    pub bytes: Vec<u8>,
}

/// What a `RawFile` holds, as plain sequences.
pub ghost struct RawView {
    pub path: Seq<char>,
    pub bytes: Seq<u8>,
}

impl View for RawFile {
    type V = RawView;

    open spec fn view(&self) -> RawView {
        RawView { path: self.path@, bytes: self.bytes@ }
    }
}

/// The views of a sequence of raw files, element by element.
pub open spec fn raw_views(v: Seq<RawFile>) -> Seq<RawView> {
    v.map_values(|f: RawFile| f@)
}

/// `std::str::from_utf8` succeeds exactly on byte sequences that are valid
/// UTF-8, and the text it returns is the one those bytes encode.
#[verifier::external_body]
fn text_of_bytes(bytes: &Vec<u8>) -> (text: Option<String>)
    ensures
        text is Some <==> valid_utf8(bytes@),
        match text {
            Some(t) => t@ == decode_utf8(bytes@),
            None => true,
        },
{
    std::str::from_utf8(bytes.as_slice()).ok().map(String::from)
}

/// The files among `raw` whose bytes are text, decoded, in order.
pub open spec fn text_files(raw: Seq<RawView>) -> Seq<FileView>
    decreases raw.len(),
{
    if raw.len() == 0 {
        Seq::empty()
    } else {
        let before = text_files(raw.drop_last());
        let f = raw.last();
        if valid_utf8(f.bytes) {
            before.push(FileView { path: f.path, text: decode_utf8(f.bytes) })
        } else {
            before
        }
    }
}

/// The paths of the files among `raw` whose bytes are no text, in order.
pub open spec fn binary_paths(raw: Seq<RawView>) -> Seq<Seq<char>>
    decreases raw.len(),
{
    if raw.len() == 0 {
        Seq::empty()
    } else {
        let before = binary_paths(raw.drop_last());
        let f = raw.last();
        if valid_utf8(f.bytes) {
            before
        } else {
            before.push(f.path)
        }
    }
}

/// Sorts files into those that are text and those that are not. A file
/// whose bytes are not valid UTF-8 is left out of the first, and its path
/// is given in the second so that the caller can report it.
pub fn decode_files(raw: &Vec<RawFile>) -> (sorted: (Vec<SourceFile>, Vec<String>))
    ensures
        file_views(sorted.0@) == text_files(raw_views(raw@)),
        views(sorted.1@) == binary_paths(raw_views(raw@)),
{
    let mut files: Vec<SourceFile> = Vec::new();
    let mut skipped: Vec<String> = Vec::new();
    let ghost all = raw_views(raw@);
    let mut i: usize = 0;
    assert(all.subrange(0, 0) =~= Seq::<RawView>::empty());
    assert(file_views(files@) =~= Seq::<FileView>::empty());
    assert(views(skipped@) =~= Seq::<Seq<char>>::empty());
    while i < raw.len()
        invariant
            i <= raw.len(),
            all == raw_views(raw@),
            file_views(files@) == text_files(all.subrange(0, i as int)),
            views(skipped@) == binary_paths(all.subrange(0, i as int)),
        decreases raw.len() - i,
    {
        let f = &raw[i];
        proof {
            let upto = all.subrange(0, i + 1);
            assert(upto.drop_last() == all.subrange(0, i as int));
            assert(upto.last() == f@);
        }
        match text_of_bytes(&f.bytes) {
            Some(text) => {
                let ghost before = file_views(files@);
                let file = SourceFile { path: f.path.clone(), text };
                files.push(file);
                assert(file_views(files@) =~= before.push(file@));
            },
            None => {
                let ghost before = views(skipped@);
                skipped.push(f.path.clone());
                assert(views(skipped@) =~= before.push(f.path@));
            },
        }
        i += 1;
    }
    assert(all.subrange(0, raw.len() as int) == all);
    (files, skipped)
}

// ---------------------------------------------------------------------
// Where the Rust implementation of a unit may live
// ---------------------------------------------------------------------

/// Number of directories searched for a unit's Rust implementation.
pub const RUST_GROUPS: usize = 7;

/// The `i`-th directory, below the Rust source root, that is searched for
/// a unit's implementation.
pub open spec fn rust_group(i: int) -> Seq<char> {
    if i == 0 {
        "momentum"@
    } else if i == 1 {
        "volatility"@
    } else if i == 2 {
        "ratio"@
    } else if i == 3 {
        "book"@
    } else if i == 4 {
        "average"@
    } else if i == 5 {
        "python/momentum"@
    } else {
        "python/average"@
    }
}

/// The path at which group `i` would hold the implementation of `unit`.
pub open spec fn rust_candidate(unit: Seq<char>, i: int) -> Seq<char> {
    "nautilus_trader/crates/indicators/src/"@ + rust_group(i) + "/"@ + unit + ".rs"@
}

/// All candidate paths for `unit`, in search order.
pub open spec fn rust_candidates(unit: Seq<char>) -> Seq<Seq<char>> {
    Seq::new(RUST_GROUPS as nat, |i: int| rust_candidate(unit, i))
}

fn group_name(i: usize) -> (g: &'static str)
    requires
        i < RUST_GROUPS,
    ensures
        g@ == rust_group(i as int),
{
    if i == 0 {
        "momentum"
    } else if i == 1 {
        "volatility"
    } else if i == 2 {
        "ratio"
    } else if i == 3 {
        "book"
    } else if i == 4 {
        "average"
    } else if i == 5 {
        "python/momentum"
    } else {
        "python/average"
    }
}

/// The candidate paths for a unit's Rust implementation, in search order.
pub fn candidate_rust_paths(unit: &str) -> (paths: Vec<String>)
    ensures
        views(paths@) == rust_candidates(unit@),
{
    let mut paths: Vec<String> = Vec::new();
    let mut i: usize = 0;
    while i < RUST_GROUPS
        invariant
            i <= RUST_GROUPS,
            paths.len() == i,
            forall|j: int| 0 <= j < i ==> (#[trigger] paths[j])@ == rust_candidate(unit@, j),
        decreases RUST_GROUPS - i,
    {
        let mut p = String::from_str("nautilus_trader/crates/indicators/src/");
        p.append(group_name(i));
        p.append("/");
        p.append(unit);
        p.append(".rs");
        paths.push(p);
        i += 1;
    }
    proof {
        assert(views(paths@) =~= rust_candidates(unit@));
    }
    paths
}

/// The first candidate that exists, given for each candidate whether a
/// file is there.
pub open spec fn first_present(candidates: Seq<Seq<char>>, present: Seq<bool>) -> Option<
    Seq<char>,
>
    decreases candidates.len(),
{
    if candidates.len() == 0 || present.len() == 0 {
        None
    } else if present[0] {
        Some(candidates[0])
    } else {
        first_present(candidates.drop_first(), present.drop_first())
    }
}

/// Picks the Rust implementation of `unit`: the first candidate path, in
/// search order, whose entry in `present` is true. `present[i]` tells
/// whether a file exists at `candidate_rust_paths(unit)[i]`; entries that
/// are missing count as absent.
pub fn find_matching_rust(unit: &str, present: &Vec<bool>) -> (found: Option<String>)
    ensures
        match found {
            Some(p) => first_present(rust_candidates(unit@), present@) == Some(p@),
            None => first_present(rust_candidates(unit@), present@) is None,
        },
{
    let paths = candidate_rust_paths(unit);
    let ghost all = rust_candidates(unit@);
    let mut i: usize = 0;
    proof {
        assert(all.subrange(0, all.len() as int) == all);
        assert(present@.subrange(0, present.len() as int) == present@);
    }
    while i < paths.len() && i < present.len()
        invariant
            i <= paths.len(),
            i <= present.len(),
            views(paths@) == all,
            all == rust_candidates(unit@),
            first_present(all, present@) == first_present(
                all.subrange(i as int, all.len() as int),
                present@.subrange(i as int, present.len() as int),
            ),
        decreases paths.len() - i,
    {
        let ghost c = all.subrange(i as int, all.len() as int);
        let ghost p = present@.subrange(i as int, present.len() as int);
        assert(all.len() == paths.len());
        assert(all[i as int] == paths[i as int]@);
        if present[i] {
            proof {
                assert(p[0] == present[i as int]);
                assert(c[0] == all[i as int]);
            }
            return Some(paths[i].clone());
        }
        proof {
            assert(p[0] == present[i as int]);
            assert(c.drop_first() == all.subrange(i + 1, all.len() as int));
            assert(p.drop_first() == present@.subrange(i + 1, present.len() as int));
        }
        i += 1;
    }
    None
}

} // verus!
