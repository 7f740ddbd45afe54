//! The ledger as a table file: a header row and one record per ledger row,
//! in comma-separated form. Quoting and parsing of the fields is the `csv`
//! crate's work; which columns there are, what they are called, and how a
//! record becomes a row is decided here.

use vstd::prelude::*;
use vstd::string::StringExecFns;
use crate::chunker::{
    collect_all_snippets, file_views, python_endings, rust_endings, snippets_of, FileView,
    SourceFile,
};
use crate::ledger::{
    absorbed_all, distinct, lemma_absorbed_all_distinct, recorded_all, row_views, Ledger,
    LedgerRow, RowView,
};
use crate::text::{same_text, views};

verus! {

/// The error type of the `csv` crate.
#[verifier::external_type_specification]
#[verifier::external_body]
pub struct ExCsvError(csv::Error);

/// The bytes that a fresh `csv::Writer` in its default configuration
/// writes for one record with the given fields: the fields, quoted where
/// needed, separated by commas, and a line terminator; or `None` where the
/// writer reports an error for the record.
pub uninterp spec fn csv_line(fields: Seq<Seq<char>>) -> Option<Seq<u8>>;

/// The records that a `csv::Reader` without header handling, otherwise in
/// its default configuration, reads from the given bytes, or `None` where
/// it reports an error for one of them.
pub uninterp spec fn csv_records(bytes: Seq<u8>) -> Option<Seq<Seq<Seq<char>>>>;

/// The views of a table of strings, cell by cell.
pub open spec fn table_view(table: Seq<Vec<String>>) -> Seq<Seq<Seq<char>>> {
    table.map_values(|r: Vec<String>| views(r@))
}

/// Makes a writer over an empty buffer with `csv::Writer::from_writer`,
/// writes one record with `csv::Writer::write_record`, and returns the
/// buffer that `csv::Writer::into_inner` hands back. The claim: whether
/// the writer or the flush reports an error, and the bytes otherwise,
/// depend on the fields alone.
#[verifier::external_body]
fn write_line(fields: &Vec<String>) -> (r: Result<Vec<u8>, csv::Error>)
    ensures
        match r {
            Ok(bytes) => csv_line(views(fields@)) == Some(bytes@),
            Err(_) => csv_line(views(fields@)) is None,
        },
{
    let mut writer = csv::Writer::from_writer(Vec::new());
    writer.write_record(fields.iter())?;
    writer.into_inner().map_err(|e| csv::Error::from(e.into_error()))
}

/// Makes a reader without header handling with `csv::ReaderBuilder`, reads
/// all records with `csv::Reader::records`, the first line included, and
/// hands each out as a vector of strings. The claim: whether the reader
/// reports an error, and the records it reads otherwise, depend on the
/// bytes alone.
#[verifier::external_body]
fn read_table(bytes: &Vec<u8>) -> (r: Result<Vec<Vec<String>>, csv::Error>)
    ensures
        match r {
            Ok(table) => csv_records(bytes@) == Some(table_view(table@)),
            Err(_) => csv_records(bytes@) is None,
        },
{
    let mut reader = csv::ReaderBuilder::new().has_headers(false).from_reader(bytes.as_slice());
    reader.records().map(|rec| rec.map(|r| r.iter().map(String::from).collect())).collect()
}

/// The message of a `csv::Error`, as its `Display` gives it.
#[verifier::external_body]
fn error_text(e: &csv::Error) -> (text: String) {
    e.to_string()
}

/// Why a ledger file could not be read or written.
#[derive(Debug, PartialEq, Eq)]
pub enum LedgerError {
    /// The `csv` crate reported an error; its message is kept.
    Csv(String),
    /// The header names no identity column.
    MissingIdentityColumn,
    /// The record with this number, counted from one after the header,
    /// has no identity field.
    MissingIdentity(usize),
    /// The record with this number has a processed flag that is neither
    /// `true` nor `false` nor empty.
    BadFlag(usize),
}

// ---------------------------------------------------------------------
// Columns
// ---------------------------------------------------------------------

/// Index of the first cell that equals `name`, or the number of cells.
pub open spec fn first_index(cells: Seq<Seq<char>>, name: Seq<char>) -> nat
    decreases cells.len(),
{
    if cells.len() == 0 {
        0
    } else if cells[0] == name {
        0
    } else {
        (1 + first_index(cells.drop_first(), name)) as nat
    }
}

/// `first_index` is at most the number of cells, the cell it names equals
/// `name`, and no cell before it does.
pub proof fn lemma_first_index(cells: Seq<Seq<char>>, name: Seq<char>)
    ensures
        first_index(cells, name) <= cells.len(),
        first_index(cells, name) < cells.len() ==> cells[first_index(cells, name) as int] == name,
        forall|j: int| 0 <= j < first_index(cells, name) ==> cells[j] != name,
    decreases cells.len(),
{
    if cells.len() > 0 && cells[0] != name {
        let rest = cells.drop_first();
        lemma_first_index(rest, name);
        assert forall|j: int| 0 <= j < first_index(cells, name) implies cells[j] != name by {
            if j > 0 {
                assert(cells[j] == rest[j - 1]);
            }
        }
        if first_index(cells, name) < cells.len() {
            assert(cells[first_index(cells, name) as int] == rest[first_index(rest, name) as int]);
        }
    }
}

/// The column that holds a field: the first one called `name`, or, where
/// none is, the first one called `legacy`.
pub open spec fn column(header: Seq<Seq<char>>, name: Seq<char>, legacy: Seq<char>) -> Option<
    int,
> {
    if first_index(header, name) < header.len() {
        Some(first_index(header, name) as int)
    } else if first_index(header, legacy) < header.len() {
        Some(first_index(header, legacy) as int)
    } else {
        None
    }
}

/// The cell of `record` in column `col`, if there is one.
pub open spec fn cell(record: Seq<Seq<char>>, col: Option<int>) -> Option<Seq<char>> {
    match col {
        Some(c) => if 0 <= c < record.len() {
            Some(record[c])
        } else {
            None
        },
        None => None,
    }
}

/// The columns of the ledger in a header.
pub ghost struct Columns {
    pub identity: Option<int>,
    pub unit_name: Option<int>,
    pub category: Option<int>,
    pub processed: Option<int>,
}

/// Where a header has the ledger's columns. Each is looked up by its name
/// and, failing that, by the name that older files give it.
pub open spec fn columns_of(header: Seq<Seq<char>>) -> Columns {
    Columns {
        identity: column(header, "identity"@, "filename"@),
        unit_name: column(header, "unit_name"@, "indicator_name"@),
        category: column(header, "category"@, "extension"@),
        processed: column(header, "processed"@, "embedded"@),
    }
}

/// The text of a field that may be missing: empty then.
pub open spec fn text_or_empty(c: Option<Seq<char>>) -> Seq<char> {
    match c {
        Some(t) => t,
        None => Seq::empty(),
    }
}

/// The row that record number `number` stands for. The identity is
/// required. A name or label that is missing is empty; a flag that is
/// missing or empty is false.
pub open spec fn row_of(cols: Columns, record: Seq<Seq<char>>, number: nat) -> Result<
    RowView,
    LedgerError,
> {
    let flag = text_or_empty(cell(record, cols.processed));
    if cell(record, cols.identity) is None {
        Err(LedgerError::MissingIdentity(number as usize))
    } else if !(flag == "true"@ || flag == "false"@ || flag.len() == 0) {
        Err(LedgerError::BadFlag(number as usize))
    } else {
        Ok(
            RowView {
                identity: cell(record, cols.identity).unwrap(),
                unit_name: text_or_empty(cell(record, cols.unit_name)),
                category: text_or_empty(cell(record, cols.category)),
                processed: flag == "true"@,
            },
        )
    }
}

/// The rows that the first `n` records after the header stand for, or the
/// error of the first record that stands for none.
pub open spec fn rows_upto(table: Seq<Seq<Seq<char>>>, cols: Columns, n: nat) -> Result<
    Seq<RowView>,
    LedgerError,
>
    decreases n,
{
    if n == 0 {
        Ok(Seq::empty())
    } else {
        match rows_upto(table, cols, (n - 1) as nat) {
            Err(e) => Err(e),
            Ok(rows) => match row_of(cols, table[n as int], n) {
                Err(e) => Err(e),
                Ok(row) => Ok(rows.push(row)),
            },
        }
    }
}

/// Once a record stands for no row, no later record changes the outcome.
pub proof fn lemma_error_stays(table: Seq<Seq<Seq<char>>>, cols: Columns, n: nat, m: nat)
    requires
        n <= m,
        rows_upto(table, cols, n) is Err,
    ensures
        rows_upto(table, cols, m) == rows_upto(table, cols, n),
    decreases m - n,
{
    if n < m {
        lemma_error_stays(table, cols, n, (m - 1) as nat);
    }
}

/// The ledger that a table stands for: the first record is the header,
/// every further record is a row, and of rows with the same identity the
/// first one counts. A table without records is an empty ledger.
pub open spec fn ledger_of_table(table: Seq<Seq<Seq<char>>>) -> Result<Seq<RowView>, LedgerError> {
    if table.len() == 0 {
        Ok(Seq::empty())
    } else if columns_of(table[0]).identity is None {
        Err(LedgerError::MissingIdentityColumn)
    } else {
        match rows_upto(table, columns_of(table[0]), (table.len() - 1) as nat) {
            Err(e) => Err(e),
            Ok(rows) => Ok(absorbed_all(Seq::empty(), rows)),
        }
    }
}

// ---------------------------------------------------------------------
// Writing
// ---------------------------------------------------------------------

/// The header of a ledger file.
pub open spec fn header_fields() -> Seq<Seq<char>> {
    seq!["identity"@, "unit_name"@, "category"@, "processed"@]
}

/// The text of a flag.
pub open spec fn flag_text(b: bool) -> Seq<char> {
    if b {
        "true"@
    } else {
        "false"@
    }
}

/// The fields of a row, in the order of the header.
pub open spec fn row_fields(row: RowView) -> Seq<Seq<char>> {
    seq![row.identity, row.unit_name, row.category, flag_text(row.processed)]
}

/// The table of a ledger: the header, then the rows in order.
pub open spec fn ledger_table(rows: Seq<RowView>) -> Seq<Seq<Seq<char>>> {
    seq![header_fields()] + rows.map_values(|r: RowView| row_fields(r))
}

/// The bytes of a table: the lines of its records, one after another; or
/// `None` where one of the records cannot be written.
pub open spec fn table_bytes(table: Seq<Seq<Seq<char>>>) -> Option<Seq<u8>>
    decreases table.len(),
{
    if table.len() == 0 {
        Some(Seq::empty())
    } else {
        match (table_bytes(table.drop_last()), csv_line(table.last())) {
            (Some(before), Some(line)) => Some(before + line),
            _ => None,
        }
    }
}

/// Whether every record of a table can be written.
pub open spec fn writable(table: Seq<Seq<Seq<char>>>) -> bool {
    forall|i: int| 0 <= i < table.len() ==> csv_line(#[trigger] table[i]) is Some
}

/// A table has bytes exactly if every one of its records can be written.
pub proof fn lemma_table_bytes(table: Seq<Seq<Seq<char>>>)
    ensures
        table_bytes(table) is Some <==> writable(table),
    decreases table.len(),
{
    if table.len() > 0 {
        let head = table.drop_last();
        lemma_table_bytes(head);
        if writable(table) {
            assert forall|i: int| 0 <= i < head.len() implies csv_line(#[trigger] head[i]) is Some by {
                assert(head[i] == table[i]);
            }
            assert(csv_line(table[table.len() - 1]) is Some);
        }
        if table_bytes(table) is Some {
            assert forall|i: int| 0 <= i < table.len() implies csv_line(
                #[trigger] table[i],
            ) is Some by {
                if i < head.len() {
                    assert(head[i] == table[i]);
                }
            }
        }
    }
}

/// The table of a ledger: the header, then one record per row.
pub fn ledger_records(ledger: &Ledger) -> (table: Vec<Vec<String>>)
    ensures
        table_view(table@) == ledger_table(ledger@),
{
    let rows = ledger.snapshot();
    let mut table: Vec<Vec<String>> = Vec::new();
    let mut header: Vec<String> = Vec::new();
    header.push(String::from_str("identity"));
    header.push(String::from_str("unit_name"));
    header.push(String::from_str("category"));
    header.push(String::from_str("processed"));
    assert(views(header@) =~= header_fields());
    table.push(header);
    let mut i: usize = 0;
    while i < rows.len()
        invariant
            i <= rows.len(),
            table.len() == i + 1,
            views(table[0]@) == header_fields(),
            forall|j: int| 0 <= j < i ==> views((#[trigger] table[j + 1])@) == row_fields(rows[j]@),
        decreases rows.len() - i,
    {
        let row = &rows[i];
        let mut record: Vec<String> = Vec::new();
        record.push(row.identity.clone());
        record.push(row.unit_name.clone());
        record.push(row.category.clone());
        if row.processed {
            record.push(String::from_str("true"));
        } else {
            record.push(String::from_str("false"));
        }
        assert(views(record@) =~= row_fields(row@));
        table.push(record);
        i += 1;
    }
    proof {
        let want = ledger_table(ledger@);
        assert(table_view(table@).len() == want.len());
        assert forall|j: int| 0 <= j < want.len() implies table_view(table@)[j] == want[j] by {
            if j > 0 {
                assert(table[(j - 1) + 1] == table[j]);
            }
        }
        assert(table_view(table@) =~= want);
    }
    table
}

/// Turns the outcome of writing one record into the library's terms.
pub fn line_or_error(written: Result<Vec<u8>, csv::Error>) -> (r: Result<Vec<u8>, LedgerError>)
    ensures
        match (written, r) {
            (Ok(bytes), Ok(out)) => out == bytes,
            (Err(_), Err(e)) => e is Csv,
            _ => false,
        },
{
    match written {
        Ok(bytes) => Ok(bytes),
        Err(e) => Err(LedgerError::Csv(error_text(&e))),
    }
}

/// The bytes of a table: every record as one line, in order. Succeeds
/// exactly if the `csv` crate can write every record, and fails with `Csv`
/// otherwise.
pub fn encode_table(table: &Vec<Vec<String>>) -> (r: Result<Vec<u8>, LedgerError>)
    ensures
        r is Ok <==> writable(table_view(table@)),
        match r {
            Ok(bytes) => table_bytes(table_view(table@)) == Some(bytes@),
            Err(e) => e is Csv && table_bytes(table_view(table@)) is None,
        },
{
    let mut out: Vec<u8> = Vec::new();
    let ghost all = table_view(table@);
    let mut i: usize = 0;
    proof {
        lemma_table_bytes(all);
        assert(all.subrange(0, 0) =~= Seq::<Seq<Seq<char>>>::empty());
    }
    while i < table.len()
        invariant
            i <= table.len(),
            all == table_view(table@),
            table_bytes(all) is Some <==> writable(all),
            table_bytes(all.subrange(0, i as int)) == Some(out@),
        decreases table.len() - i,
    {
        proof {
            let upto = all.subrange(0, i + 1);
            assert(upto.drop_last() == all.subrange(0, i as int));
            assert(upto.last() == views(table[i as int]@));
            assert(all[i as int] == views(table[i as int]@));
        }
        match line_or_error(write_line(&table[i])) {
            Ok(line) => {
                let mut line = line;
                out.append(&mut line);
            },
            Err(e) => {
                assert(!writable(all));
                return Err(e);
            },
        }
        i += 1;
    }
    assert(all.subrange(0, table.len() as int) == all);
    Ok(out)
}

/// The bytes of the ledger's file. Succeeds exactly if the `csv` crate can
/// write the header and every row, and fails with `Csv` otherwise.
pub fn encode_ledger(ledger: &Ledger) -> (r: Result<Vec<u8>, LedgerError>)
    ensures
        r is Ok <==> writable(ledger_table(ledger@)),
        match r {
            Ok(bytes) => table_bytes(ledger_table(ledger@)) == Some(bytes@),
            Err(e) => e is Csv && table_bytes(ledger_table(ledger@)) is None,
        },
{
    let table = ledger_records(ledger);
    encode_table(&table)
}

/// The table of a first ledger file: the header, and one row, not yet
/// processed, for each snippet that `collect_all_snippets` gives for the
/// two sets of files.
pub open spec fn first_table(python: Seq<FileView>, rust: Seq<FileView>) -> Seq<Seq<Seq<char>>> {
    ledger_table(
        recorded_all(
            Seq::empty(),
            snippets_of(python, python_endings(), "cython_python"@) + snippets_of(
                rust,
                rust_endings(),
                "rust"@,
            ),
        ),
    )
}

/// The bytes of a first ledger file: the snippets of both implementations
/// are collected as `collect_all_snippets` does, each gets a row that is
/// not yet processed, and the rows are written out. Succeeds exactly if
/// the `csv` crate can write every record, and fails with `Csv` otherwise.
pub fn save_indicators_csv(python_files: &Vec<SourceFile>, rust_files: &Vec<SourceFile>) -> (r:
    Result<Vec<u8>, LedgerError>)
    ensures
        r is Ok <==> writable(first_table(file_views(python_files@), file_views(rust_files@))),
        match r {
            Ok(bytes) => table_bytes(
                first_table(file_views(python_files@), file_views(rust_files@)),
            ) == Some(bytes@),
            Err(e) => e is Csv && table_bytes(
                first_table(file_views(python_files@), file_views(rust_files@)),
            ) is None,
        },
{
    let snippets = collect_all_snippets(python_files, rust_files);
    let mut ledger = Ledger::new();
    ledger.record_all(&snippets);
    encode_ledger(&ledger)
}

// ---------------------------------------------------------------------
// Reading
// ---------------------------------------------------------------------

fn find_first(cells: &Vec<String>, name: &str) -> (at: usize)
    ensures
        at == first_index(views(cells@), name@),
        at <= cells.len(),
{
    let ghost all = views(cells@);
    let mut i: usize = 0;
    proof {
        lemma_first_index(all, name@);
    }
    while i < cells.len()
        invariant
            i <= cells.len(),
            all == views(cells@),
            forall|j: int| 0 <= j < i ==> all[j] != name@,
        decreases cells.len() - i,
    {
        assert(all[i as int] == cells[i as int]@);
        if same_text(cells[i].as_str(), name) {
            proof {
                lemma_first_index(all, name@);
                let f = first_index(all, name@) as int;
                if f > i {
                    assert(all[i as int] != name@);
                }
            }
            return i;
        }
        i += 1;
    }
    proof {
        lemma_first_index(all, name@);
        let f = first_index(all, name@) as int;
        if f < cells.len() {
            assert(all[f] != name@);
        }
    }
    cells.len()
}

fn find_column(header: &Vec<String>, name: &str, legacy: &str) -> (col: Option<usize>)
    ensures
        match col {
            Some(c) => column(views(header@), name@, legacy@) == Some(c as int),
            None => column(views(header@), name@, legacy@) is None,
        },
{
    let a = find_first(header, name);
    if a < header.len() {
        return Some(a);
    }
    let b = find_first(header, legacy);
    if b < header.len() {
        Some(b)
    } else {
        None
    }
}

fn cell_at(record: &Vec<String>, col: Option<usize>) -> (c: Option<String>)
    ensures
        match c {
            Some(t) => cell(
                views(record@),
                match col {
                    Some(k) => Some(k as int),
                    None => None,
                },
            ) == Some(t@),
            None => cell(
                views(record@),
                match col {
                    Some(k) => Some(k as int),
                    None => None,
                },
            ) is None,
        },
{
    match col {
        Some(k) => {
            if k < record.len() {
                assert(views(record@)[k as int] == record[k as int]@);
                Some(record[k].clone())
            } else {
                None
            }
        },
        None => None,
    }
}

fn or_empty(c: Option<String>) -> (t: String)
    ensures
        t@ == text_or_empty(
            match c {
                Some(s) => Some(s@),
                None => None,
            },
        ),
{
    match c {
        Some(s) => s,
        None => String::new(),
    }
}

/// The ledger that a table stands for. The first record is the header;
/// its columns are found by name, in any order, and columns that the
/// ledger does not know are passed over.
pub fn ledger_from_table(table: &Vec<Vec<String>>) -> (r: Result<Ledger, LedgerError>)
    ensures
        match r {
            Ok(ledger) => ledger_of_table(table_view(table@)) == Ok::<Seq<RowView>, LedgerError>(
                ledger@,
            ) && ledger.wf(),
            Err(e) => ledger_of_table(table_view(table@)) == Err::<Seq<RowView>, LedgerError>(e),
        },
{
    if table.len() == 0 {
        return Ok(Ledger::new());
    }
    let ghost all = table_view(table@);
    let header = &table[0];
    assert(all[0] == views(header@));
    let col_id = find_column(header, "identity", "filename");
    if col_id.is_none() {
        return Err(LedgerError::MissingIdentityColumn);
    }
    let col_unit = find_column(header, "unit_name", "indicator_name");
    let col_cat = find_column(header, "category", "extension");
    let col_flag = find_column(header, "processed", "embedded");
    let ghost cols = columns_of(all[0]);
    let mut rows: Vec<LedgerRow> = Vec::new();
    let mut i: usize = 1;
    assert(row_views(rows@) =~= Seq::<RowView>::empty());
    while i < table.len()
        invariant
            1 <= i <= table.len(),
            col_id is Some,
            all == table_view(table@),
            cols == columns_of(all[0]),
            cols.identity == match col_id {
                Some(k) => Some(k as int),
                None => None,
            },
            cols.unit_name == match col_unit {
                Some(k) => Some(k as int),
                None => None,
            },
            cols.category == match col_cat {
                Some(k) => Some(k as int),
                None => None,
            },
            cols.processed == match col_flag {
                Some(k) => Some(k as int),
                None => None,
            },
            rows_upto(all, cols, (i - 1) as nat) == Ok::<Seq<RowView>, LedgerError>(
                row_views(rows@),
            ),
        decreases table.len() - i,
    {
        let record = &table[i];
        assert(all[i as int] == views(record@));
        let flag = or_empty(cell_at(record, col_flag));
        let identity = match cell_at(record, col_id) {
            Some(t) => t,
            None => {
                proof {
                    lemma_error_stays(all, cols, i as nat, (table.len() - 1) as nat);
                }
                return Err(LedgerError::MissingIdentity(i));
            },
        };
        let is_true = same_text(flag.as_str(), "true");
        let is_false = same_text(flag.as_str(), "false");
        if !(is_true || is_false || flag.as_str().unicode_len() == 0) {
            proof {
                lemma_error_stays(all, cols, i as nat, (table.len() - 1) as nat);
            }
            return Err(LedgerError::BadFlag(i));
        }
        let row = LedgerRow {
            identity,
            unit_name: or_empty(cell_at(record, col_unit)),
            category: or_empty(cell_at(record, col_cat)),
            processed: is_true,
        };
        let ghost before = row_views(rows@);
        assert(row_of(cols, all[i as int], i as nat) == Ok::<RowView, LedgerError>(row@));
        rows.push(row);
        assert(row_views(rows@) =~= before.push(row@));
        i += 1;
    }
    Ok(Ledger::from_rows(rows))
}

/// Turns the outcome of reading a file's records into a ledger.
pub fn ledger_or_error(read: Result<Vec<Vec<String>>, csv::Error>) -> (r: Result<
    Ledger,
    LedgerError,
>)
    ensures
        match read {
            Ok(table) => match r {
                Ok(ledger) => ledger_of_table(table_view(table@)) == Ok::<
                    Seq<RowView>,
                    LedgerError,
                >(ledger@) && ledger.wf(),
                Err(e) => ledger_of_table(table_view(table@)) == Err::<Seq<RowView>, LedgerError>(
                    e,
                ),
            },
            Err(_) => r is Err && r->Err_0 is Csv,
        },
{
    match read {
        Ok(table) => ledger_from_table(&table),
        Err(e) => Err(LedgerError::Csv(error_text(&e))),
    }
}

/// Reads a ledger from the bytes of its file. Fails with `Csv` where the
/// `csv` crate cannot read the records, and otherwise exactly where the
/// table stands for no ledger.
pub fn decode_ledger(bytes: &Vec<u8>) -> (r: Result<Ledger, LedgerError>)
    ensures
        match csv_records(bytes@) {
            Some(table) => match r {
                Ok(ledger) => ledger_of_table(table) == Ok::<Seq<RowView>, LedgerError>(ledger@)
                    && ledger.wf(),
                Err(e) => ledger_of_table(table) == Err::<Seq<RowView>, LedgerError>(e),
            },
            None => r is Err && r->Err_0 is Csv,
        },
{
    ledger_or_error(read_table(bytes))
}

// ---------------------------------------------------------------------
// What is written can be loaded
// ---------------------------------------------------------------------

/// An index with no cell called `name` before it, which is the number of
/// cells or holds a cell called `name`, is `first_index(cells, name)`.
pub proof fn lemma_first_index_is(cells: Seq<Seq<char>>, name: Seq<char>, k: int)
    requires
        0 <= k <= cells.len(),
        forall|j: int| 0 <= j < k ==> cells[j] != name,
        k < cells.len() ==> cells[k] == name,
    ensures
        first_index(cells, name) == k,
{
    lemma_first_index(cells, name);
    let f = first_index(cells, name) as int;
    if f < k {
        assert(cells[f] != name);
    } else if k < f {
        assert(cells[k] == name);
    }
}

/// The header that is written has the ledger's four columns, in order.
pub proof fn lemma_own_header()
    ensures
        columns_of(header_fields()) == (Columns {
            identity: Some(0),
            unit_name: Some(1),
            category: Some(2),
            processed: Some(3),
        }),
{
    reveal_strlit("identity");
    reveal_strlit("unit_name");
    reveal_strlit("category");
    reveal_strlit("processed");
    let h = header_fields();
    assert("category"@[0] == 'c' && "identity"@[0] == 'i');
    assert("processed"@[0] == 'p' && "unit_name"@[0] == 'u');
    assert("unit_name"@.len() == 9 && "identity"@.len() == 8);
    assert("processed"@.len() == 9 && "category"@.len() == 8);
    lemma_first_index_is(h, "identity"@, 0);
    lemma_first_index_is(h, "unit_name"@, 1);
    lemma_first_index_is(h, "category"@, 2);
    lemma_first_index_is(h, "processed"@, 3);
}

/// The record that is written for a row stands for that row.
pub proof fn lemma_own_record(row: RowView, number: nat)
    ensures
        row_of(columns_of(header_fields()), row_fields(row), number) == Ok::<RowView, LedgerError>(
            row,
        ),
{
    lemma_own_header();
    reveal_strlit("true");
    reveal_strlit("false");
    assert("true"@.len() == 4 && "false"@.len() == 5);
    let record = row_fields(row);
    assert(record[0] == row.identity);
    assert(record[3] == flag_text(row.processed));
}

/// Loadable: the table that is written for a ledger stands for that
/// ledger, row by row and flag by flag.
pub proof fn lemma_table_round_trip(rows: Seq<RowView>)
    requires
        distinct(rows),
    ensures
        ledger_of_table(ledger_table(rows)) == Ok::<Seq<RowView>, LedgerError>(rows),
{
    let table = ledger_table(rows);
    let cols = columns_of(header_fields());
    assert(table[0] == header_fields());
    lemma_own_header();
    lemma_own_records(rows, rows.len());
    assert(rows.subrange(0, rows.len() as int) == rows);
    lemma_absorbed_all_distinct(rows);
}

/// The first `n` records that are written stand for the first `n` rows.
proof fn lemma_own_records(rows: Seq<RowView>, n: nat)
    requires
        n <= rows.len(),
    ensures
        rows_upto(ledger_table(rows), columns_of(header_fields()), n) == Ok::<
            Seq<RowView>,
            LedgerError,
        >(rows.subrange(0, n as int)),
    decreases n,
{
    if n == 0 {
        assert(rows.subrange(0, 0) =~= Seq::<RowView>::empty());
    } else {
        lemma_own_records(rows, (n - 1) as nat);
        let table = ledger_table(rows);
        assert(table[n as int] == row_fields(rows[n - 1]));
        lemma_own_record(rows[n - 1], n);
        assert(rows.subrange(0, n - 1).push(rows[n - 1]) =~= rows.subrange(0, n as int));
    }
}

} // verus!
