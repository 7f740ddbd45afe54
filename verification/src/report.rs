//! The report generator: what is asked of the completion service for a
//! unit of comparison, how its answer becomes one row, and what stands in
//! for the answer when the request fails. Every unit gets exactly one row.

use vstd::prelude::*;
use vstd::string::StringExecFns;
use crate::chunker::{chunk_views, ChunkView, CodeChunk};
use crate::fields::{pieces, split_chars, split_on, trim_chars, trimmed};
use crate::ledger::{unit_name, unit_name_of};
use crate::text::{chars_of, join_lines, same_text, string_of};

verus! {

/// The two values that a status column can hold.
#[derive(Debug, Clone, Copy, PartialEq, Eq, Structural)]
pub enum Status {
    Pass,
    Fail,
}

/// How far the text of an implementation could be had.
#[derive(Debug, PartialEq, Eq)]
pub enum Content {
    /// No file was found.
    Missing,
    /// A file was found and could not be read.
    Unreadable,
    /// The text of the file.
    Text(String),
}

/// A unit of comparison: one component and where its implementations are.
#[derive(Debug, PartialEq, Eq)]
pub struct Unit {
    pub name: String,
    pub rust_location: Option<String>,
    pub python_location: Option<String>,
}

/// What a `Unit` holds, as plain values.
pub ghost struct UnitView {
    pub name: Seq<char>,
    pub rust_location: Option<Seq<char>>,
    pub python_location: Option<Seq<char>>,
}

/// The view of a location that may be missing.
pub open spec fn location_view(loc: Option<String>) -> Option<Seq<char>> {
    match loc {
        Some(p) => Some(p@),
        None => None,
    }
}

impl View for Unit {
    type V = UnitView;

    open spec fn view(&self) -> UnitView {
        UnitView {
            name: self.name@,
            rust_location: location_view(self.rust_location),
            python_location: location_view(self.python_location),
        }
    }
}

/// One row of a report.
#[derive(Debug, PartialEq, Eq)]
pub struct ReportRow {
    pub unit_name: String,
    pub rust_location: String,
    pub python_location: String,
    pub functional_parity: Status,
    pub test_coverage_parity: Status,
    pub notes: String,
}

/// What a `ReportRow` holds, as plain values.
pub ghost struct ReportRowView {
    pub unit_name: Seq<char>,
    pub rust_location: Seq<char>,
    pub python_location: Seq<char>,
    pub functional_parity: Status,
    pub test_coverage_parity: Status,
    pub notes: Seq<char>,
}

impl View for ReportRow {
    type V = ReportRowView;

    open spec fn view(&self) -> ReportRowView {
        ReportRowView {
            unit_name: self.unit_name@,
            rust_location: self.rust_location@,
            python_location: self.python_location@,
            functional_parity: self.functional_parity,
            test_coverage_parity: self.test_coverage_parity,
            notes: self.notes@,
        }
    }
}

impl Clone for ReportRow {
    fn clone(&self) -> (r: Self)
        ensures
            r@ == self@,
    {
        ReportRow {
            unit_name: self.unit_name.clone(),
            rust_location: self.rust_location.clone(),
            python_location: self.python_location.clone(),
            functional_parity: self.functional_parity,
            test_coverage_parity: self.test_coverage_parity,
            notes: self.notes.clone(),
        }
    }
}

/// The views of a sequence of units, element by element.
pub open spec fn unit_views(v: Seq<Unit>) -> Seq<UnitView> {
    v.map_values(|u: Unit| u@)
}

/// The views of a sequence of rows, element by element.
pub open spec fn report_views(v: Seq<ReportRow>) -> Seq<ReportRowView> {
    v.map_values(|r: ReportRow| r@)
}

/// What the completion service said of a unit.
#[derive(Debug, PartialEq, Eq)]
pub struct Verdict {
    pub functional_parity: Status,
    pub test_coverage_parity: Status,
    pub notes: String,
}

/// What a `Verdict` holds, as plain values.
pub ghost struct VerdictView {
    pub functional_parity: Status,
    pub test_coverage_parity: Status,
    pub notes: Seq<char>,
}

impl View for Verdict {
    type V = VerdictView;

    open spec fn view(&self) -> VerdictView {
        VerdictView {
            functional_parity: self.functional_parity,
            test_coverage_parity: self.test_coverage_parity,
            notes: self.notes@,
        }
    }
}

// ---------------------------------------------------------------------
// Where a unit's implementation is
// ---------------------------------------------------------------------

/// Whether a snippet belongs to the implementation of `unit` that is
/// labelled `label`.
pub open spec fn implements(c: ChunkView, unit: Seq<char>, label: Seq<char>) -> bool {
    c.language == label && unit_name_of(c.file_path) == unit
}

/// The file of the first snippet, in order, that belongs to the
/// implementation of `unit` labelled `label`.
pub open spec fn implementation_of(chunks: Seq<ChunkView>, unit: Seq<char>, label: Seq<char>) -> Option<
    Seq<char>,
>
    decreases chunks.len(),
{
    if chunks.len() == 0 {
        None
    } else if implements(chunks[0], unit, label) {
        Some(chunks[0].file_path)
    } else {
        implementation_of(chunks.drop_first(), unit, label)
    }
}

/// Finds the file that holds the implementation of `unit` labelled
/// `label` among the snippets that were collected.
pub fn implementation_path(chunks: &Vec<CodeChunk>, unit: &str, label: &str) -> (path: Option<
    String,
>)
    ensures
        location_view(path) == implementation_of(chunk_views(chunks@), unit@, label@),
{
    let ghost all = chunk_views(chunks@);
    let mut i: usize = 0;
    assert(all.subrange(0, all.len() as int) == all);
    while i < chunks.len()
        invariant
            i <= chunks.len(),
            all == chunk_views(chunks@),
            implementation_of(all, unit@, label@) == implementation_of(
                all.subrange(i as int, all.len() as int),
                unit@,
                label@,
            ),
        decreases chunks.len() - i,
    {
        let ghost rest = all.subrange(i as int, all.len() as int);
        let c = &chunks[i];
        assert(rest[0] == c@);
        if same_text(c.language.as_str(), label) {
            let name = unit_name(c.file_path.as_str());
            if same_text(name.as_str(), unit) {
                return Some(c.file_path.clone());
            }
        }
        assert(rest.drop_first() == all.subrange(i + 1, all.len() as int));
        i += 1;
    }
    None
}

// ---------------------------------------------------------------------
// The request
// ---------------------------------------------------------------------

/// The instruction that every request carries.
pub open spec fn instruction_text() -> Seq<char> {
    "\nYou're checking parity between Python/Cython indicators and Rust counterparts.\n\nOutput exactly ONE Markdown table row:\n| Indicator | Functional Parity (🟢/🔴) | Test Coverage Parity (🟢/🔴) | Notes |\n"@
}

/// The instruction that every request carries.
pub fn instruction() -> (text: String)
    ensures
        text@ == instruction_text(),
{
    String::from_str(
        "\nYou're checking parity between Python/Cython indicators and Rust counterparts.\n\nOutput exactly ONE Markdown table row:\n| Indicator | Functional Parity (🟢/🔴) | Test Coverage Parity (🟢/🔴) | Notes |\n",
    )
}

/// What a request shows of the Rust implementation.
pub open spec fn rust_text(c: Content) -> Seq<char> {
    match c {
        Content::Missing => "N/A"@,
        Content::Unreadable => "Rust file unavailable"@,
        Content::Text(t) => t@,
    }
}

/// What a request shows of the Python or Cython implementation.
pub open spec fn python_text(c: Content) -> Seq<char> {
    match c {
        Content::Missing => "Python/Cython file unavailable"@,
        Content::Unreadable => "Python/Cython file unavailable"@,
        Content::Text(t) => t@,
    }
}

/// The request for one unit.
pub open spec fn prompt_text(name: Seq<char>, rust: Content, python: Content) -> Seq<char> {
    "\nIndicator: "@ + name + "\n\n"@ + rust_text(rust) + "\n\n### Python/Cython Implementation:\n"@
        + python_text(python) + "\n\nEvaluate parity. Output ONE Markdown row.\n"@
}

/// Builds the request for one unit from its name and from what could be
/// had of its two implementations.
pub fn build_prompt(name: &str, rust: &Content, python: &Content) -> (prompt: String)
    ensures
        prompt@ == prompt_text(name@, *rust, *python),
{
    let mut prompt = String::from_str("\nIndicator: ");
    prompt.append(name);
    prompt.append("\n\n");
    match rust {
        Content::Missing => prompt.append("N/A"),
        Content::Unreadable => prompt.append("Rust file unavailable"),
        Content::Text(t) => prompt.append(t.as_str()),
    }
    prompt.append("\n\n### Python/Cython Implementation:\n");
    match python {
        Content::Missing => prompt.append("Python/Cython file unavailable"),
        Content::Unreadable => prompt.append("Python/Cython file unavailable"),
        Content::Text(t) => prompt.append(t.as_str()),
    }
    prompt.append("\n\nEvaluate parity. Output ONE Markdown row.\n");
    prompt
}

// ---------------------------------------------------------------------
// The answer
// ---------------------------------------------------------------------

/// The character that stands for a status.
pub open spec fn status_symbol(s: Status) -> char {
    match s {
        Status::Pass => '🟢',
        Status::Fail => '🔴',
    }
}

/// The status that a cell states: the cell is exactly one of the two
/// symbols.
pub open spec fn status_of(cell: Seq<char>) -> Option<Status> {
    if cell.len() == 1 && cell[0] == '🟢' {
        Some(Status::Pass)
    } else if cell.len() == 1 && cell[0] == '🔴' {
        Some(Status::Fail)
    } else {
        None
    }
}

/// What an answer says, if it is one table row of four cells: a name, two
/// status symbols and notes, each between vertical bars, with blanks
/// around the row and around each cell allowed. The name is passed over:
/// a row is named after the unit that was asked about.
pub open spec fn verdict_of(answer: Seq<char>) -> Option<VerdictView> {
    let cells = split_on(trimmed(answer), '|');
    if cells.len() == 6 && cells[0].len() == 0 && cells[5].len() == 0 && status_of(
        trimmed(cells[2]),
    ) is Some && status_of(trimmed(cells[3])) is Some {
        Some(
            VerdictView {
                functional_parity: status_of(trimmed(cells[2])).unwrap(),
                test_coverage_parity: status_of(trimmed(cells[3])).unwrap(),
                notes: trimmed(cells[4]),
            },
        )
    } else {
        None
    }
}

fn read_status(cell: &Vec<char>) -> (s: Option<Status>)
    ensures
        s == status_of(cell@),
{
    if cell.len() == 1 && cell[0] == '🟢' {
        Some(Status::Pass)
    } else if cell.len() == 1 && cell[0] == '🔴' {
        Some(Status::Fail)
    } else {
        None
    }
}

/// Reads an answer of the completion service.
pub fn parse_verdict(answer: &str) -> (v: Option<Verdict>)
    ensures
        match v {
            Some(verdict) => verdict_of(answer@) == Some(verdict@),
            None => verdict_of(answer@) is None,
        },
{
    let cs = chars_of(answer);
    let row = trim_chars(&cs);
    let cells = split_chars(&row, '|');
    if cells.len() != 6 {
        return None;
    }
    proof {
        assert(pieces(cells@)[0] == cells[0]@);
        assert(pieces(cells@)[2] == cells[2]@);
        assert(pieces(cells@)[3] == cells[3]@);
        assert(pieces(cells@)[4] == cells[4]@);
        assert(pieces(cells@)[5] == cells[5]@);
    }
    if cells[0].len() != 0 || cells[5].len() != 0 {
        return None;
    }
    let functional = match read_status(&trim_chars(&cells[2])) {
        Some(s) => s,
        None => {
            return None;
        },
    };
    let coverage = match read_status(&trim_chars(&cells[3])) {
        Some(s) => s,
        None => {
            return None;
        },
    };
    let notes = trim_chars(&cells[4]);
    let text = string_of(&notes, 0, notes.len());
    assert(notes@.subrange(0, notes.len() as int) == notes@);
    Some(Verdict { functional_parity: functional, test_coverage_parity: coverage, notes: text })
}

// ---------------------------------------------------------------------
// Rows
// ---------------------------------------------------------------------

/// The text of a location that may be missing.
pub open spec fn location_text(loc: Option<Seq<char>>) -> Seq<char> {
    match loc {
        Some(p) => p,
        None => "N/A"@,
    }
}

/// The row that stands in when the request for a unit failed: both
/// statuses fail, and the notes say that the request failed.
pub open spec fn fallback_row(unit: UnitView) -> ReportRowView {
    ReportRowView {
        unit_name: unit.name,
        rust_location: location_text(unit.rust_location),
        python_location: location_text(unit.python_location),
        functional_parity: Status::Fail,
        test_coverage_parity: Status::Fail,
        notes: "request failed"@,
    }
}

/// The row of a unit with the verdict that the service gave.
pub open spec fn verdict_row(unit: UnitView, v: VerdictView) -> ReportRowView {
    ReportRowView {
        unit_name: unit.name,
        rust_location: location_text(unit.rust_location),
        python_location: location_text(unit.python_location),
        functional_parity: v.functional_parity,
        test_coverage_parity: v.test_coverage_parity,
        notes: v.notes,
    }
}

/// The row of a unit, given the answer to its request, or `None` where
/// the request failed. An answer that is no table row counts as a failed
/// request.
pub open spec fn row_of(unit: UnitView, outcome: Option<Seq<char>>) -> ReportRowView {
    match outcome {
        None => fallback_row(unit),
        Some(answer) => match verdict_of(answer) {
            Some(v) => verdict_row(unit, v),
            None => fallback_row(unit),
        },
    }
}

/// The rows of the units whose outcome is known: one per unit, in order.
pub open spec fn rows_of(units: Seq<UnitView>, outcomes: Seq<Option<Seq<char>>>) -> Seq<
    ReportRowView,
>
    recommends
        outcomes.len() <= units.len(),
{
    Seq::new(outcomes.len(), |i: int| row_of(units[i], outcomes[i]))
}

fn location_string(loc: &Option<String>) -> (text: String)
    ensures
        text@ == location_text(location_view(*loc)),
{
    match loc {
        Some(p) => p.clone(),
        None => String::from_str("N/A"),
    }
}

/// The row that stands in when the request for `unit` failed.
pub fn fallback(unit: &Unit) -> (row: ReportRow)
    ensures
        row@ == fallback_row(unit@),
{
    ReportRow {
        unit_name: unit.name.clone(),
        rust_location: location_string(&unit.rust_location),
        python_location: location_string(&unit.python_location),
        functional_parity: Status::Fail,
        test_coverage_parity: Status::Fail,
        notes: String::from_str("request failed"),
    }
}

/// The view of an outcome.
pub open spec fn outcome_view(outcome: Option<String>) -> Option<Seq<char>> {
    match outcome {
        Some(t) => Some(t@),
        None => None,
    }
}

/// The row of `unit`, given the answer to its request, or `None` where the
/// request failed.
pub fn row_for_outcome(unit: &Unit, outcome: &Option<String>) -> (row: ReportRow)
    ensures
        row@ == row_of(unit@, outcome_view(*outcome)),
{
    match outcome {
        None => fallback(unit),
        Some(answer) => match parse_verdict(answer.as_str()) {
            Some(v) => ReportRow {
                unit_name: unit.name.clone(),
                rust_location: location_string(&unit.rust_location),
                python_location: location_string(&unit.python_location),
                functional_parity: v.functional_parity,
                test_coverage_parity: v.test_coverage_parity,
                notes: v.notes,
            },
            None => fallback(unit),
        },
    }
}

// ---------------------------------------------------------------------
// A report in the making
// ---------------------------------------------------------------------

/// A report in the making: the units, and the rows of those whose request
/// has been answered or has failed.
#[derive(Debug)]
pub struct ReportRun {
    units: Vec<Unit>,
    rows: Vec<ReportRow>,
}

/// The state of a report in the making.
pub ghost struct ReportView {
    pub units: Seq<UnitView>,
    pub rows: Seq<ReportRowView>,
}

/// The state after the outcome for the next unit came in. Once every unit
/// has its row, a further outcome changes nothing.
pub open spec fn fed(s: ReportView, outcome: Option<Seq<char>>) -> ReportView {
    if s.rows.len() < s.units.len() {
        ReportView { units: s.units, rows: s.rows.push(row_of(s.units[s.rows.len() as int], outcome)) }
    } else {
        s
    }
}

/// The state after the outcomes of `outcomes` came in, in order.
pub open spec fn fed_all(s: ReportView, outcomes: Seq<Option<Seq<char>>>) -> ReportView
    decreases outcomes.len(),
{
    if outcomes.len() == 0 {
        s
    } else {
        fed(fed_all(s, outcomes.drop_last()), outcomes.last())
    }
}

/// The state before any outcome.
pub open spec fn fresh(units: Seq<UnitView>) -> ReportView {
    ReportView { units, rows: Seq::empty() }
}

impl View for ReportRun {
    type V = ReportView;

    closed spec fn view(&self) -> ReportView {
        ReportView { units: unit_views(self.units@), rows: report_views(self.rows@) }
    }
}

impl ReportRun {
    /// No more rows than units.
    pub open spec fn wf(&self) -> bool {
        self@.rows.len() <= self@.units.len()
    }

    /// A report on `units`, without rows yet.
    pub fn new(units: Vec<Unit>) -> (run: ReportRun)
        ensures
            run@ == fresh(unit_views(units@)),
            run.wf(),
    {
        let run = ReportRun { units, rows: Vec::new() };
        assert(run@.rows =~= Seq::<ReportRowView>::empty());
        run
    }

    /// Number of units.
    pub fn unit_count(&self) -> (n: usize)
        ensures
            n == self@.units.len(),
    {
        self.units.len()
    }

    /// Number of rows so far.
    pub fn row_count(&self) -> (n: usize)
        ensures
            n == self@.rows.len(),
    {
        self.rows.len()
    }

    /// Whether every unit has its row.
    pub fn is_complete(&self) -> (done: bool)
        requires
            self.wf(),
        ensures
            done == (self@.rows.len() == self@.units.len()),
    {
        self.rows.len() >= self.units.len()
    }

    /// The unit whose request is due, if any is left.
    pub fn next_unit(&self) -> (unit: Option<&Unit>)
        requires
            self.wf(),
        ensures
            match unit {
                Some(u) => self@.rows.len() < self@.units.len() && u@ == self@.units[self@.rows.len() as int],
                None => self@.rows.len() == self@.units.len(),
            },
    {
        if self.rows.len() < self.units.len() {
            let u = &self.units[self.rows.len()];
            assert(unit_views(self.units@)[self.rows.len() as int] == u@);
            Some(u)
        } else {
            None
        }
    }

    /// Takes the outcome of the request that was due: the answer, or
    /// `None` where the request failed. Either way the unit gets its row.
    /// Returns false, and changes nothing, when no request was due.
    pub fn accept(&mut self, outcome: &Option<String>) -> (due: bool)
        requires
            old(self).wf(),
        ensures
            final(self)@ == fed(old(self)@, outcome_view(*outcome)),
            due == (old(self)@.rows.len() < old(self)@.units.len()),
            final(self).wf(),
    {
        if self.rows.len() < self.units.len() {
            let ghost before = self@.rows;
            let row = row_for_outcome(&self.units[self.rows.len()], outcome);
            assert(unit_views(self.units@)[self.rows.len() as int] == self.units[self.rows.len() as int]@);
            self.rows.push(row);
            assert(self@.rows =~= before.push(row@));
            true
        } else {
            false
        }
    }

    /// The rows so far, one per unit whose outcome came in.
    pub fn rows(&self) -> (rows: Vec<ReportRow>)
        ensures
            report_views(rows@) == self@.rows,
    {
        let mut rows: Vec<ReportRow> = Vec::new();
        let mut i: usize = 0;
        while i < self.rows.len()
            invariant
                i <= self.rows.len(),
                rows.len() == i,
                forall|j: int| 0 <= j < i ==> (#[trigger] rows[j])@ == self.rows[j]@,
            decreases self.rows.len() - i,
        {
            rows.push(self.rows[i].clone());
            i += 1;
        }
        assert(report_views(rows@) =~= self@.rows);
        rows
    }
}

/// Feeding outcomes one by one gives the rows of `rows_of`: as many rows
/// as outcomes, the row at each place named after the unit at that place.
pub proof fn lemma_fed_all(units: Seq<UnitView>, outcomes: Seq<Option<Seq<char>>>)
    requires
        outcomes.len() <= units.len(),
    ensures
        fed_all(fresh(units), outcomes).units == units,
        fed_all(fresh(units), outcomes).rows == rows_of(units, outcomes),
    decreases outcomes.len(),
{
    if outcomes.len() == 0 {
        assert(fresh(units).rows =~= rows_of(units, outcomes));
    } else {
        let head = outcomes.drop_last();
        lemma_fed_all(units, head);
        let mid = fed_all(fresh(units), head);
        assert(mid.rows.len() == head.len());
        assert(fed(mid, outcomes.last()).rows =~= rows_of(units, outcomes));
    }
}

/// Completeness: when the outcome of every unit has come in, whatever the
/// outcomes were, the report has exactly one row per unit, the row at each
/// place is that of the unit at that place, and where the request failed
/// it is the fallback row.
pub proof fn lemma_report_complete(units: Seq<UnitView>, outcomes: Seq<Option<Seq<char>>>)
    requires
        outcomes.len() == units.len(),
    ensures
        fed_all(fresh(units), outcomes).rows.len() == units.len(),
        forall|i: int|
            0 <= i < units.len() ==> (#[trigger] fed_all(fresh(units), outcomes).rows[i]).unit_name
                == units[i].name,
        forall|i: int|
            0 <= i < units.len() && outcomes[i] is None ==> #[trigger] fed_all(
                fresh(units),
                outcomes,
            ).rows[i] == fallback_row(units[i]),
        rendered_rows(fed_all(fresh(units), outcomes).rows).len() == units.len(),
{
    lemma_fed_all(units, outcomes);
}

// ---------------------------------------------------------------------
// Rendering
// ---------------------------------------------------------------------

/// A row as a line of a Markdown table: the unit's name, where its two
/// implementations are, the two statuses, and the notes.
pub open spec fn rendered_row(r: ReportRowView) -> Seq<char> {
    "| "@ + r.unit_name + " | "@ + r.rust_location + " | "@ + r.python_location + " | "@.push(
        status_symbol(r.functional_parity),
    ) + " | "@.push(status_symbol(r.test_coverage_parity)) + " | "@ + r.notes + " |"@
}

/// The rows as lines of a Markdown table.
pub open spec fn rendered_rows(rows: Seq<ReportRowView>) -> Seq<Seq<char>> {
    rows.map_values(|r: ReportRowView| rendered_row(r))
}

/// The head of every table: the column names and the rule below them.
pub open spec fn table_head() -> Seq<char> {
    "| Indicator | Rust | Python/Cython | Functional Parity (🟢/🔴) | Test Coverage Parity (🟢/🔴) | Notes |\n|-----------|------|---------------|---------------------------|-----------------------------|-------|\n"@
}

/// The aggregate report: a title, the table's head, and one line per row.
pub open spec fn summary_text(rows: Seq<ReportRowView>) -> Seq<char> {
    "# Indicator Parity Summary\n\n"@ + table_head() + join_lines(rendered_rows(rows)) + "\n"@
}

/// The report on one unit: a title with the unit's name, the table's
/// head, and the unit's row.
pub open spec fn unit_report_text(row: ReportRowView) -> Seq<char> {
    "# Comparison for "@ + row.unit_name + "\n\n"@ + table_head() + rendered_row(row) + "\n"@
}

fn symbol(s: Status) -> (c: char)
    ensures
        c == status_symbol(s),
{
    match s {
        Status::Pass => '🟢',
        Status::Fail => '🔴',
    }
}

/// Renders a row as a line of a Markdown table.
pub fn render_row(row: &ReportRow) -> (line: String)
    ensures
        line@ == rendered_row(row@),
{
    let mut line = String::from_str("| ");
    line.append(row.unit_name.as_str());
    line.append(" | ");
    line.append(row.rust_location.as_str());
    line.append(" | ");
    line.append(row.python_location.as_str());
    line.append(" | ");
    line.push(symbol(row.functional_parity));
    line.append(" | ");
    line.push(symbol(row.test_coverage_parity));
    line.append(" | ");
    line.append(row.notes.as_str());
    line.append(" |");
    proof {
        assert(line@ =~= rendered_row(row@));
    }
    line
}

fn push_table_head(text: &mut String)
    ensures
        final(text)@ == old(text)@ + table_head(),
{
    text.append(
        "| Indicator | Rust | Python/Cython | Functional Parity (🟢/🔴) | Test Coverage Parity (🟢/🔴) | Notes |\n|-----------|------|---------------|---------------------------|-----------------------------|-------|\n",
    );
}

/// Renders the aggregate report.
pub fn render_summary(rows: &Vec<ReportRow>) -> (text: String)
    ensures
        text@ == summary_text(report_views(rows@)),
{
    let mut text = String::from_str("# Indicator Parity Summary\n\n");
    push_table_head(&mut text);
    let ghost start = text@;
    let ghost all = rendered_rows(report_views(rows@));
    let mut i: usize = 0;
    assert(all.subrange(0, 0) =~= Seq::<Seq<char>>::empty());
    while i < rows.len()
        invariant
            i <= rows.len(),
            all == rendered_rows(report_views(rows@)),
            text@ == start + join_lines(all.subrange(0, i as int)),
        decreases rows.len() - i,
    {
        let ghost before = all.subrange(0, i as int);
        let ghost after = all.subrange(0, i + 1);
        if i > 0 {
            text.push('\n');
        }
        let line = render_row(&rows[i]);
        text.append(line.as_str());
        proof {
            assert(after.drop_last() == before);
            assert(after.last() == rendered_row(rows[i as int]@));
            assert(text@ =~= start + join_lines(after));
        }
        i += 1;
    }
    assert(all.subrange(0, rows.len() as int) == all);
    text.append("\n");
    proof {
        assert(text@ =~= summary_text(report_views(rows@)));
    }
    text
}

/// Renders the report on one unit.
pub fn render_unit_report(row: &ReportRow) -> (text: String)
    ensures
        text@ == unit_report_text(row@),
{
    let mut text = String::from_str("# Comparison for ");
    text.append(row.unit_name.as_str());
    text.append("\n\n");
    push_table_head(&mut text);
    let line = render_row(row);
    text.append(line.as_str());
    text.append("\n");
    proof {
        assert(text@ =~= unit_report_text(row@));
    }
    text
}

// ---------------------------------------------------------------------
// File names
// ---------------------------------------------------------------------

/// The character that stands for `c` in a file name: an underscore for a
/// slash, a backslash or a space, and `c` itself otherwise.
pub open spec fn sanitized_char(c: char) -> char {
    if c == '/' || c == '\\' || c == ' ' {
        '_'
    } else {
        c
    }
}

/// A name with every slash, backslash and space replaced.
pub open spec fn sanitized(name: Seq<char>) -> Seq<char> {
    name.map_values(|c: char| sanitized_char(c))
}

/// Makes a name fit for a file name: every slash, backslash and space
/// becomes an underscore.
pub fn sanitize(name: &str) -> (clean: String)
    ensures
        clean@ == sanitized(name@),
{
    let cs = chars_of(name);
    let mut clean = String::new();
    let mut i: usize = 0;
    while i < cs.len()
        invariant
            i <= cs.len(),
            cs@ == name@,
            clean@ == sanitized(cs@.subrange(0, i as int)),
        decreases cs.len() - i,
    {
        let c = cs[i];
        let ghost before = cs@.subrange(0, i as int);
        if c == '/' || c == '\\' || c == ' ' {
            clean.push('_');
        } else {
            clean.push(c);
        }
        assert(sanitized(cs@.subrange(0, i + 1)) =~= sanitized(before).push(sanitized_char(c)));
        i += 1;
    }
    assert(cs@.subrange(0, cs.len() as int) == cs@);
    clean
}

/// The name of the file that holds the report on a unit.
pub fn report_file_name(unit_name: &str) -> (file: String)
    ensures
        file@ == sanitized(unit_name@) + ".md"@,
{
    let mut file = sanitize(unit_name);
    file.append(".md");
    file
}

} // verus!
