//! The ledger: one row per discovered item, with a flag that says whether
//! the item has been embedded and stored. Rows are added and updated, never
//! removed, and no identity has two rows.

use vstd::prelude::*;
use vstd::string::StringExecFns;
use crate::chunker::{chunk_views, ChunkView, CodeChunk};
use crate::locator::lowercase;
use crate::store::StoreKeys;
use crate::text::{chars_of, ends_with, has_suffix, same_text, string_of, views};

verus! {

/// One row of the ledger.
#[derive(Debug, PartialEq, Eq)]
pub struct LedgerRow {
    /// Identity of the item the row tracks.
    pub identity: String,
    /// Name of the unit of comparison the item belongs to.
    pub unit_name: String,
    /// Classification label.
    pub category: String,
    /// Whether the item has been embedded and stored.
    pub processed: bool,
}

/// What a `LedgerRow` holds, as plain values.
pub ghost struct RowView {
    pub identity: Seq<char>,
    pub unit_name: Seq<char>,
    pub category: Seq<char>,
    pub processed: bool,
}

impl View for LedgerRow {
    type V = RowView;

    open spec fn view(&self) -> RowView {
        RowView {
            identity: self.identity@,
            unit_name: self.unit_name@,
            category: self.category@,
            processed: self.processed,
        }
    }
}

impl Clone for LedgerRow {
    fn clone(&self) -> (r: Self)
        ensures
            r@ == self@,
    {
        LedgerRow {
            identity: self.identity.clone(),
            unit_name: self.unit_name.clone(),
            category: self.category.clone(),
            processed: self.processed,
        }
    }
}

/// The views of a sequence of rows, element by element.
pub open spec fn row_views(v: Seq<LedgerRow>) -> Seq<RowView> {
    v.map_values(|r: LedgerRow| r@)
}

// ---------------------------------------------------------------------
// The model: sequences of rows
// ---------------------------------------------------------------------

/// Whether some row has the identity `id`.
pub open spec fn has_row(rows: Seq<RowView>, id: Seq<char>) -> bool {
    exists|i: int| 0 <= i < rows.len() && (#[trigger] rows[i]).identity == id
}

/// Whether some row with the identity `id` is marked processed.
pub open spec fn is_processed(rows: Seq<RowView>, id: Seq<char>) -> bool {
    exists|i: int| 0 <= i < rows.len() && (#[trigger] rows[i]).identity == id && rows[i].processed
}

/// No two rows share an identity.
pub open spec fn distinct(rows: Seq<RowView>) -> bool {
    forall|i: int, j: int|
        0 <= i < j < rows.len() ==> (#[trigger] rows[i]).identity != (#[trigger] rows[j]).identity
}

/// Position of the last occurrence of `c` in `s`, or -1.
pub open spec fn last_index_of(s: Seq<char>, c: char) -> int
    decreases s.len(),
{
    if s.len() == 0 {
        -1
    } else if s.last() == c {
        s.len() - 1
    } else {
        last_index_of(s.drop_last(), c)
    }
}

/// The part of a path after its last slash.
pub open spec fn base_name(path: Seq<char>) -> Seq<char> {
    path.subrange(last_index_of(path, '/') + 1, path.len() as int)
}

/// A file name without its last dot and what follows it.
pub open spec fn stem(name: Seq<char>) -> Seq<char> {
    let dot = last_index_of(name, '.');
    if dot < 0 {
        name
    } else {
        name.subrange(0, dot)
    }
}

/// The unit a file implements: its base name without the extension.
pub open spec fn unit_name_of(path: Seq<char>) -> Seq<char> {
    stem(base_name(path))
}

/// The label that goes with the ending of a name.
pub open spec fn ending_label(name: Seq<char>) -> Seq<char> {
    if ends_with(name, ".rs"@) {
        "rust"@
    } else if ends_with(name, ".pyx"@) || ends_with(name, ".pxd"@) {
        "cython"@
    } else if ends_with(name, ".py"@) {
        "python"@
    } else {
        "unknown"@
    }
}

/// The label of a file's kind, by the ending of its lowercased path: the
/// same form of the path that the extension filter tests.
pub open spec fn extension_label(path: Seq<char>) -> Seq<char> {
    ending_label(lowercase(path))
}

/// The row that a newly discovered item gets.
pub open spec fn fresh_row(item: ChunkView) -> RowView {
    RowView {
        identity: item.id,
        unit_name: unit_name_of(item.file_path),
        category: extension_label(item.file_path),
        processed: false,
    }
}

/// The rows after `row` was offered: appended unless its identity is
/// already there, in which case the first row stays as it is.
pub open spec fn absorbed(rows: Seq<RowView>, row: RowView) -> Seq<RowView> {
    if has_row(rows, row.identity) {
        rows
    } else {
        rows.push(row)
    }
}

/// The rows after each of `offered` was offered in turn.
pub open spec fn absorbed_all(rows: Seq<RowView>, offered: Seq<RowView>) -> Seq<RowView>
    decreases offered.len(),
{
    if offered.len() == 0 {
        rows
    } else {
        absorbed(absorbed_all(rows, offered.drop_last()), offered.last())
    }
}

/// The rows after `item` was discovered.
pub open spec fn recorded(rows: Seq<RowView>, item: ChunkView) -> Seq<RowView> {
    absorbed(rows, fresh_row(item))
}

/// The rows after each of `items` was discovered in turn.
pub open spec fn recorded_all(rows: Seq<RowView>, items: Seq<ChunkView>) -> Seq<RowView> {
    absorbed_all(rows, items.map_values(|c: ChunkView| fresh_row(c)))
}

/// `row`, marked processed if its identity is `id`.
pub open spec fn with_mark(row: RowView, id: Seq<char>) -> RowView {
    RowView {
        identity: row.identity,
        unit_name: row.unit_name,
        category: row.category,
        processed: row.processed || row.identity == id,
    }
}

/// The rows after the item `id` was marked processed.
pub open spec fn marked(rows: Seq<RowView>, id: Seq<char>) -> Seq<RowView> {
    rows.map_values(|r: RowView| with_mark(r, id))
}

/// The rows after each of `ids` was marked processed.
pub open spec fn marked_all(rows: Seq<RowView>, ids: Seq<Seq<char>>) -> Seq<RowView>
    decreases ids.len(),
{
    if ids.len() == 0 {
        rows
    } else {
        marked(marked_all(rows, ids.drop_last()), ids.last())
    }
}

/// `row`, with its flag kept only if the store holds its identity.
pub open spec fn checked_row(row: RowView, keys: Set<Seq<char>>) -> RowView {
    RowView {
        identity: row.identity,
        unit_name: row.unit_name,
        category: row.category,
        processed: row.processed && keys.contains(row.identity),
    }
}

/// The rows after their flags were checked against the store's keys.
pub open spec fn reconciled(rows: Seq<RowView>, keys: Set<Seq<char>>) -> Seq<RowView> {
    rows.map_values(|r: RowView| checked_row(r, keys))
}

/// Every row that is marked processed has its identity in the store.
pub open spec fn consistent(rows: Seq<RowView>, keys: Set<Seq<char>>) -> bool {
    forall|i: int|
        0 <= i < rows.len() && (#[trigger] rows[i]).processed ==> keys.contains(rows[i].identity)
}

/// The identities of the rows whose flag a check against `keys` clears.
pub open spec fn stale(rows: Seq<RowView>, keys: Set<Seq<char>>) -> Seq<Seq<char>>
    decreases rows.len(),
{
    if rows.len() == 0 {
        Seq::empty()
    } else {
        let r = rows.last();
        let before = stale(rows.drop_last(), keys);
        if r.processed && !keys.contains(r.identity) {
            before.push(r.identity)
        } else {
            before
        }
    }
}

// ---------------------------------------------------------------------
// Facts about the model
// ---------------------------------------------------------------------

/// Offering a row keeps identities distinct, keeps every identity that has a row,
/// and gives the offered one a row.
pub proof fn lemma_absorbed(rows: Seq<RowView>, row: RowView)
    requires
        distinct(rows),
    ensures
        distinct(absorbed(rows, row)),
        has_row(absorbed(rows, row), row.identity),
        forall|id: Seq<char>| has_row(rows, id) ==> has_row(absorbed(rows, row), id),
        forall|id: Seq<char>|
            has_row(absorbed(rows, row), id) ==> has_row(rows, id) || id == row.identity,
        forall|id: Seq<char>|
            is_processed(absorbed(rows, row), id) <==> is_processed(rows, id) || (!has_row(
                rows,
                row.identity,
            ) && row.processed && id == row.identity),
        rows.len() <= absorbed(rows, row).len(),
        absorbed(rows, row).subrange(0, rows.len() as int) == rows,
{
    let out = absorbed(rows, row);
    if has_row(rows, row.identity) {
        assert(out.subrange(0, rows.len() as int) == rows);
    } else {
        assert(out[rows.len() as int] == row);
        assert(out.subrange(0, rows.len() as int) == rows);
        assert forall|id: Seq<char>| has_row(rows, id) implies has_row(out, id) by {
            let i = choose|i: int| 0 <= i < rows.len() && (#[trigger] rows[i]).identity == id;
            assert(out[i].identity == id);
        }
        assert forall|id: Seq<char>| has_row(out, id) implies has_row(rows, id) || id
            == row.identity by {
            let i = choose|i: int| 0 <= i < out.len() && (#[trigger] out[i]).identity == id;
            if i < rows.len() {
                assert(rows[i].identity == id);
            }
        }
        assert forall|id: Seq<char>|
            is_processed(out, id) <==> is_processed(rows, id) || (row.processed && id
                == row.identity) by {
            if is_processed(out, id) {
                let i = choose|i: int|
                    0 <= i < out.len() && (#[trigger] out[i]).identity == id && out[i].processed;
                if i < rows.len() {
                    assert(rows[i].identity == id && rows[i].processed);
                }
            }
            if is_processed(rows, id) {
                let i = choose|i: int|
                    0 <= i < rows.len() && (#[trigger] rows[i]).identity == id && rows[i].processed;
                assert(out[i].identity == id && out[i].processed);
            }
        }
        assert forall|i: int, j: int| 0 <= i < j < out.len() implies (#[trigger] out[i]).identity
            != (#[trigger] out[j]).identity by {
            if j == rows.len() {
                assert(rows[i].identity == out[i].identity);
            } else {
                assert(rows[i] == out[i] && rows[j] == out[j]);
            }
        }
    }
}

/// Rows with identities of their own are all taken, in order, when they
/// are offered to an empty ledger.
pub proof fn lemma_absorbed_all_distinct(offered: Seq<RowView>)
    requires
        distinct(offered),
    ensures
        absorbed_all(Seq::empty(), offered) == offered,
    decreases offered.len(),
{
    if offered.len() == 0 {
        assert(offered =~= Seq::<RowView>::empty());
    } else {
        let head = offered.drop_last();
        let last = offered.last();
        assert forall|i: int, j: int| 0 <= i < j < head.len() implies (#[trigger] head[i]).identity
            != (#[trigger] head[j]).identity by {
            assert(head[i] == offered[i] && head[j] == offered[j]);
        }
        lemma_absorbed_all_distinct(head);
        if has_row(head, last.identity) {
            let i = choose|i: int| 0 <= i < head.len() && (#[trigger] head[i]).identity == last.identity;
            assert(offered[i].identity == offered[offered.len() - 1].identity);
        }
        assert(head.push(last) =~= offered);
    }
}

/// Marking changes flags only: the identities stay where they are, the
/// marked identity becomes processed if it has a row, and every other
/// identity keeps its state.
pub proof fn lemma_marked(rows: Seq<RowView>, id: Seq<char>)
    ensures
        marked(rows, id).len() == rows.len(),
        distinct(rows) ==> distinct(marked(rows, id)),
        forall|x: Seq<char>| has_row(marked(rows, id), x) <==> has_row(rows, x),
        forall|x: Seq<char>|
            is_processed(marked(rows, id), x) <==> is_processed(rows, x) || (x == id && has_row(
                rows,
                id,
            )),
{
    let out = marked(rows, id);
    assert forall|x: Seq<char>| has_row(out, x) <==> has_row(rows, x) by {
        if has_row(out, x) {
            let i = choose|i: int| 0 <= i < out.len() && (#[trigger] out[i]).identity == x;
            assert(rows[i].identity == x);
        }
        if has_row(rows, x) {
            let i = choose|i: int| 0 <= i < rows.len() && (#[trigger] rows[i]).identity == x;
            assert(out[i].identity == x);
        }
    }
    assert forall|x: Seq<char>|
        is_processed(out, x) <==> is_processed(rows, x) || (x == id && has_row(rows, id)) by {
        if is_processed(out, x) {
            let i = choose|i: int|
                0 <= i < out.len() && (#[trigger] out[i]).identity == x && out[i].processed;
            assert(rows[i].identity == x);
            if rows[i].processed {
                assert(is_processed(rows, x));
            }
        }
        if is_processed(rows, x) {
            let i = choose|i: int|
                0 <= i < rows.len() && (#[trigger] rows[i]).identity == x && rows[i].processed;
            assert(out[i].identity == x && out[i].processed);
        }
        if x == id && has_row(rows, id) {
            let i = choose|i: int| 0 <= i < rows.len() && (#[trigger] rows[i]).identity == id;
            assert(out[i].identity == x && out[i].processed);
        }
    }
    if distinct(rows) {
        assert forall|i: int, j: int| 0 <= i < j < out.len() implies (#[trigger] out[i]).identity
            != (#[trigger] out[j]).identity by {
            assert(rows[i].identity == out[i].identity && rows[j].identity == out[j].identity);
        }
    }
}

/// A check against the store leaves the ledger consistent with it, changes
/// no identity, and changes nothing at all in a ledger that was consistent.
pub proof fn lemma_reconciled(rows: Seq<RowView>, keys: Set<Seq<char>>)
    ensures
        reconciled(rows, keys).len() == rows.len(),
        consistent(reconciled(rows, keys), keys),
        distinct(rows) ==> distinct(reconciled(rows, keys)),
        forall|x: Seq<char>| has_row(reconciled(rows, keys), x) <==> has_row(rows, x),
        forall|x: Seq<char>|
            is_processed(reconciled(rows, keys), x) <==> is_processed(rows, x) && keys.contains(x),
        consistent(rows, keys) ==> reconciled(rows, keys) == rows,
{
    let out = reconciled(rows, keys);
    assert forall|x: Seq<char>| has_row(out, x) <==> has_row(rows, x) by {
        if has_row(out, x) {
            let i = choose|i: int| 0 <= i < out.len() && (#[trigger] out[i]).identity == x;
            assert(rows[i].identity == x);
        }
        if has_row(rows, x) {
            let i = choose|i: int| 0 <= i < rows.len() && (#[trigger] rows[i]).identity == x;
            assert(out[i].identity == x);
        }
    }
    assert forall|x: Seq<char>|
        is_processed(out, x) <==> is_processed(rows, x) && keys.contains(x) by {
        if is_processed(out, x) {
            let i = choose|i: int|
                0 <= i < out.len() && (#[trigger] out[i]).identity == x && out[i].processed;
            assert(rows[i].identity == x && rows[i].processed);
        }
        if is_processed(rows, x) && keys.contains(x) {
            let i = choose|i: int|
                0 <= i < rows.len() && (#[trigger] rows[i]).identity == x && rows[i].processed;
            assert(out[i].identity == x && out[i].processed);
        }
    }
    if distinct(rows) {
        assert forall|i: int, j: int| 0 <= i < j < out.len() implies (#[trigger] out[i]).identity
            != (#[trigger] out[j]).identity by {
            assert(rows[i].identity == out[i].identity && rows[j].identity == out[j].identity);
        }
    }
    if consistent(rows, keys) {
        assert(out =~= rows);
    }
}

// ---------------------------------------------------------------------
// Names and labels
// ---------------------------------------------------------------------

fn find_last(cs: &Vec<char>, c: char) -> (at: Option<usize>)
    ensures
        match at {
            Some(i) => i < cs.len() && last_index_of(cs@, c) == i,
            None => last_index_of(cs@, c) == -1,
        },
{
    let mut i: usize = cs.len();
    assert(cs@.subrange(0, i as int) == cs@);
    while i > 0
        invariant
            i <= cs.len(),
            last_index_of(cs@, c) == last_index_of(cs@.subrange(0, i as int), c),
        decreases i,
    {
        let ghost head = cs@.subrange(0, i as int);
        assert(head.last() == cs[i - 1]);
        if cs[i - 1] == c {
            return Some(i - 1);
        }
        assert(head.drop_last() == cs@.subrange(0, i - 1));
        i -= 1;
    }
    None
}

/// The unit a file implements: its base name without the extension.
pub fn unit_name(path: &str) -> (name: String)
    ensures
        name@ == unit_name_of(path@),
{
    let cs = chars_of(path);
    let from = match find_last(&cs, '/') {
        Some(i) => i + 1,
        None => 0,
    };
    let base = string_of(&cs, from, cs.len());
    let bs = chars_of(base.as_str());
    match find_last(&bs, '.') {
        Some(dot) => string_of(&bs, 0, dot),
        None => base,
    }
}

/// The label of a file's kind: `rust`, `cython`, `python` or `unknown`.
/// The path is lowercased first, as it is for the extension filter, so a
/// file that passes the filter gets the label of its ending.
pub fn category_label(path: &str) -> (label: String)
    ensures
        label@ == extension_label(path@),
{
    let lowered = path.to_lowercase();
    label_of_ending(lowered.as_str())
}

/// The label that goes with the ending of an already lowercased name.
pub fn label_of_ending(name: &str) -> (label: String)
    ensures
        label@ == ending_label(name@),
{
    let cs = chars_of(name);
    let rs = chars_of(".rs");
    let pyx = chars_of(".pyx");
    let pxd = chars_of(".pxd");
    let py = chars_of(".py");
    if has_suffix(&cs, &rs) {
        String::from_str("rust")
    } else if has_suffix(&cs, &pyx) || has_suffix(&cs, &pxd) {
        String::from_str("cython")
    } else if has_suffix(&cs, &py) {
        String::from_str("python")
    } else {
        String::from_str("unknown")
    }
}

/// The unit names of the rows, each once, in order of first mention.
pub open spec fn units_of(rows: Seq<RowView>) -> Seq<Seq<char>>
    decreases rows.len(),
{
    if rows.len() == 0 {
        Seq::empty()
    } else {
        let before = units_of(rows.drop_last());
        if before.contains(rows.last().unit_name) {
            before
        } else {
            before.push(rows.last().unit_name)
        }
    }
}

fn has_text(list: &Vec<String>, text: &str) -> (b: bool)
    ensures
        b == views(list@).contains(text@),
{
    let mut i: usize = 0;
    while i < list.len()
        invariant
            i <= list.len(),
            forall|j: int| 0 <= j < i ==> (#[trigger] views(list@)[j]) != text@,
        decreases list.len() - i,
    {
        assert(views(list@)[i as int] == list[i as int]@);
        if same_text(list[i].as_str(), text) {
            return true;
        }
        i += 1;
    }
    false
}

/// The row that a newly discovered item gets: not yet processed.
pub fn row_for(item: &CodeChunk) -> (row: LedgerRow)
    ensures
        row@ == fresh_row(item@),
{
    LedgerRow {
        identity: item.id.clone(),
        unit_name: unit_name(item.file_path.as_str()),
        category: category_label(item.file_path.as_str()),
        processed: false,
    }
}

// ---------------------------------------------------------------------
// The ledger
// ---------------------------------------------------------------------

/// The rows of all discovered items, at most one per identity.
#[derive(Debug, PartialEq, Eq)]
pub struct Ledger {
    rows: Vec<LedgerRow>,
}

impl View for Ledger {
    type V = Seq<RowView>;

    closed spec fn view(&self) -> Seq<RowView> {
        row_views(self.rows@)
    }
}

impl Ledger {
    /// No two rows share an identity.
    pub open spec fn wf(&self) -> bool {
        distinct(self@)
    }

    /// A ledger without rows.
    pub fn new() -> (ledger: Ledger)
        ensures
            ledger@ == Seq::<RowView>::empty(),
            ledger.wf(),
    {
        let ledger = Ledger { rows: Vec::new() };
        assert(ledger@ =~= Seq::<RowView>::empty());
        ledger
    }

    /// A ledger of the given rows. Where an identity occurs more than once,
    /// its first row is kept and the later ones are dropped.
    pub fn from_rows(rows: Vec<LedgerRow>) -> (ledger: Ledger)
        ensures
            ledger@ == absorbed_all(Seq::empty(), row_views(rows@)),
            ledger.wf(),
    {
        let mut ledger = Ledger::new();
        let ghost all = row_views(rows@);
        let mut i: usize = 0;
        assert(all.subrange(0, 0) =~= Seq::<RowView>::empty());
        while i < rows.len()
            invariant
                i <= rows.len(),
                all == row_views(rows@),
                ledger.wf(),
                ledger@ == absorbed_all(Seq::empty(), all.subrange(0, i as int)),
            decreases rows.len() - i,
        {
            proof {
                let upto = all.subrange(0, i + 1);
                assert(upto.drop_last() == all.subrange(0, i as int));
                assert(upto.last() == rows[i as int]@);
            }
            ledger.absorb(rows[i].clone());
            i += 1;
        }
        assert(all.subrange(0, rows.len() as int) == all);
        ledger
    }

    /// Number of rows.
    pub fn len(&self) -> (n: usize)
        ensures
            n == self@.len(),
    {
        self.rows.len()
    }

    /// A copy of all rows, in the order in which they were added.
    pub fn snapshot(&self) -> (rows: Vec<LedgerRow>)
        ensures
            row_views(rows@) == self@,
    {
        let mut rows: Vec<LedgerRow> = Vec::new();
        let mut i: usize = 0;
        while i < self.rows.len()
            invariant
                i <= self.rows.len(),
                rows.len() == i,
                forall|j: int| 0 <= j < i ==> (#[trigger] rows[j])@ == self.rows[j]@,
            decreases self.rows.len() - i,
        {
            rows.push(self.rows[i].clone());
            i += 1;
        }
        assert(row_views(rows@) =~= self@);
        rows
    }

    fn position(&self, identity: &str) -> (at: Option<usize>)
        ensures
            match at {
                Some(i) => i < self@.len() && self@[i as int].identity == identity@,
                None => !has_row(self@, identity@),
            },
    {
        let mut i: usize = 0;
        while i < self.rows.len()
            invariant
                i <= self.rows.len(),
                forall|j: int| 0 <= j < i ==> (#[trigger] self@[j]).identity != identity@,
            decreases self.rows.len() - i,
        {
            assert(self@[i as int] == self.rows[i as int]@);
            if same_text(self.rows[i].identity.as_str(), identity) {
                return Some(i);
            }
            i += 1;
        }
        None
    }

    /// Whether the item `identity` has a row.
    pub fn contains(&self, identity: &str) -> (b: bool)
        ensures
            b == has_row(self@, identity@),
    {
        self.position(identity).is_some()
    }

    /// Whether the item `identity` is marked processed. An item without a
    /// row is not.
    pub fn lookup(&self, identity: &str) -> (processed: bool)
        requires
            self.wf(),
        ensures
            processed == is_processed(self@, identity@),
    {
        match self.position(identity) {
            Some(i) => {
                assert(self@[i as int] == self.rows[i as int]@);
                self.rows[i].processed
            },
            None => false,
        }
    }

    /// Adds `row` unless its identity already has a row.
    pub fn absorb(&mut self, row: LedgerRow)
        requires
            old(self).wf(),
        ensures
            final(self)@ == absorbed(old(self)@, row@),
            final(self).wf(),
    {
        proof {
            lemma_absorbed(self@, row@);
        }
        if self.position(row.identity.as_str()).is_none() {
            self.rows.push(row);
            assert(self@ =~= old(self)@.push(row@));
        }
    }

    /// Records that `item` was discovered: it gets a row, not yet
    /// processed, unless its identity already has one.
    pub fn record_discovered(&mut self, item: &CodeChunk)
        requires
            old(self).wf(),
        ensures
            final(self)@ == recorded(old(self)@, item@),
            final(self).wf(),
    {
        proof {
            lemma_absorbed(self@, fresh_row(item@));
        }
        if self.position(item.id.as_str()).is_none() {
            let row = row_for(item);
            self.rows.push(row);
            assert(self@ =~= old(self)@.push(fresh_row(item@)));
        }
    }

    /// Records that each of `items` was discovered, in order.
    pub fn record_all(&mut self, items: &Vec<CodeChunk>)
        requires
            old(self).wf(),
        ensures
            final(self)@ == recorded_all(old(self)@, chunk_views(items@)),
            final(self).wf(),
    {
        let ghost all = chunk_views(items@);
        let ghost start = self@;
        let mut i: usize = 0;
        assert(all.subrange(0, 0).map_values(|c: ChunkView| fresh_row(c)) =~= Seq::<
            RowView,
        >::empty());
        while i < items.len()
            invariant
                i <= items.len(),
                all == chunk_views(items@),
                self.wf(),
                self@ == recorded_all(start, all.subrange(0, i as int)),
            decreases items.len() - i,
        {
            proof {
                let upto = all.subrange(0, i + 1);
                let offered = upto.map_values(|c: ChunkView| fresh_row(c));
                assert(offered.drop_last() == all.subrange(0, i as int).map_values(
                    |c: ChunkView| fresh_row(c),
                ));
                assert(offered.last() == fresh_row(items[i as int]@));
            }
            self.record_discovered(&items[i]);
            i += 1;
        }
        assert(all.subrange(0, items.len() as int) == all);
    }

    /// The names of the units of comparison, each once, in the order in
    /// which the ledger first mentions them.
    pub fn unit_names(&self) -> (names: Vec<String>)
        ensures
            views(names@) == units_of(self@),
    {
        let mut names: Vec<String> = Vec::new();
        let ghost all = self@;
        let mut i: usize = 0;
        assert(all.subrange(0, 0) =~= Seq::<RowView>::empty());
        assert(views(names@) =~= Seq::<Seq<char>>::empty());
        while i < self.rows.len()
            invariant
                i <= self.rows.len(),
                all == self@,
                views(names@) == units_of(all.subrange(0, i as int)),
            decreases self.rows.len() - i,
        {
            proof {
                let upto = all.subrange(0, i + 1);
                assert(upto.drop_last() == all.subrange(0, i as int));
                assert(upto.last() == self.rows[i as int]@);
            }
            if !has_text(&names, self.rows[i].unit_name.as_str()) {
                let ghost before = views(names@);
                names.push(self.rows[i].unit_name.clone());
                assert(views(names@) =~= before.push(self.rows[i as int].unit_name@));
            }
            i += 1;
        }
        assert(all.subrange(0, self.rows.len() as int) == all);
        names
    }

    /// Marks the item `identity` processed. Returns whether it has a row;
    /// without one the ledger stays as it is.
    pub fn mark_processed(&mut self, identity: &str) -> (known: bool)
        requires
            old(self).wf(),
        ensures
            final(self)@ == marked(old(self)@, identity@),
            known == has_row(old(self)@, identity@),
            final(self).wf(),
    {
        proof {
            lemma_marked(self@, identity@);
        }
        match self.position(identity) {
            Some(i) => {
                let row = &self.rows[i];
                let updated = LedgerRow {
                    identity: row.identity.clone(),
                    unit_name: row.unit_name.clone(),
                    category: row.category.clone(),
                    processed: true,
                };
                self.rows.set(i, updated);
                proof {
                    let before = old(self)@;
                    assert forall|j: int| 0 <= j < before.len() implies self@[j] == with_mark(
                        before[j],
                        identity@,
                    ) by {
                        if j != i {
                            assert(before[i as int].identity != before[j].identity);
                        }
                    }
                    assert(self@ =~= marked(before, identity@));
                }
                true
            },
            None => {
                proof {
                    let before = old(self)@;
                    assert forall|j: int| 0 <= j < before.len() implies before[j] == with_mark(
                        before[j],
                        identity@,
                    ) by {}
                    assert(self@ =~= marked(before, identity@));
                }
                false
            },
        }
    }

    /// Checks every flag against the keys that the store holds: a row that
    /// is marked processed although the store lacks its identity loses the
    /// mark. Returns the identities of those rows, in ledger order.
    pub fn reconcile(&mut self, keys: &StoreKeys) -> (cleared: Vec<String>)
        requires
            old(self).wf(),
        ensures
            final(self)@ == reconciled(old(self)@, keys@),
            views(cleared@) == stale(old(self)@, keys@),
            consistent(final(self)@, keys@),
            final(self).wf(),
    {
        proof {
            lemma_reconciled(self@, keys@);
        }
        let mut cleared: Vec<String> = Vec::new();
        let ghost before = self@;
        let mut i: usize = 0;
        assert(before.subrange(0, 0) =~= Seq::<RowView>::empty());
        while i < self.rows.len()
            invariant
                i <= self.rows.len(),
                self@.len() == before.len(),
                forall|j: int| 0 <= j < i ==> (#[trigger] self@[j]) == checked_row(before[j], keys@),
                forall|j: int| i <= j < before.len() ==> (#[trigger] self@[j]) == before[j],
                views(cleared@) == stale(before.subrange(0, i as int), keys@),
            decreases self.rows.len() - i,
        {
            let ghost now = self@;
            proof {
                let upto = before.subrange(0, i + 1);
                assert(upto.drop_last() == before.subrange(0, i as int));
                assert(upto.last() == before[i as int]);
                assert(now[i as int] == self.rows[i as int]@);
            }
            let row = &self.rows[i];
            if row.processed && !keys.contains(row.identity.as_str()) {
                let ghost done = views(cleared@);
                cleared.push(row.identity.clone());
                assert(views(cleared@) =~= done.push(before[i as int].identity));
                let updated = LedgerRow {
                    identity: row.identity.clone(),
                    unit_name: row.unit_name.clone(),
                    category: row.category.clone(),
                    processed: false,
                };
                self.rows.set(i, updated);
            }
            proof {
                assert(self@[i as int] == self.rows[i as int]@);
                assert forall|j: int| 0 <= j < i + 1 implies (#[trigger] self@[j]) == checked_row(
                    before[j],
                    keys@,
                ) by {
                    if j < i {
                        assert(self@[j] == now[j]);
                    }
                }
                assert forall|j: int| i + 1 <= j < before.len() implies (#[trigger] self@[j])
                    == before[j] by {
                    assert(self@[j] == now[j]);
                }
            }
            i += 1;
        }
        proof {
            assert(before.subrange(0, before.len() as int) == before);
            assert(self@ =~= reconciled(before, keys@));
        }
        cleared
    }
}

} // verus!
