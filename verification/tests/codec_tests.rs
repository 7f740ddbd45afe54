use snippet_pipeline::chunker::SourceFile;
use snippet_pipeline::codec::{
    decode_ledger, encode_ledger, encode_table, ledger_from_table, ledger_records,
    save_indicators_csv, LedgerError,
};
use snippet_pipeline::ledger::{Ledger, LedgerRow};

fn row(id: &str, unit: &str, category: &str, processed: bool) -> LedgerRow {
    LedgerRow {
        identity: id.to_string(),
        unit_name: unit.to_string(),
        category: category.to_string(),
        processed,
    }
}

fn table(rows: &[&[&str]]) -> Vec<Vec<String>> {
    rows.iter().map(|r| r.iter().map(|c| c.to_string()).collect()).collect()
}

fn decode(text: &str) -> Result<Ledger, LedgerError> {
    decode_ledger(&text.as_bytes().to_vec())
}

#[test]
fn records_of_a_ledger() {
    let ledger = Ledger::from_rows(vec![row("a", "u", "rust", true), row("b", "v", "python", false)]);
    assert_eq!(
        ledger_records(&ledger),
        table(&[
            &["identity", "unit_name", "category", "processed"],
            &["a", "u", "rust", "true"],
            &["b", "v", "python", "false"],
        ])
    );
}

#[test]
fn empty_ledger_is_a_header_line() {
    let bytes = encode_ledger(&Ledger::new()).unwrap();
    assert_eq!(String::from_utf8(bytes).unwrap(), "identity,unit_name,category,processed\n");
}

#[test]
fn ledger_file_has_one_line_per_row() {
    let ledger = Ledger::from_rows(vec![
        row("FS::a.py::chunk_0_50", "a", "python", true),
        row("FS::b.rs::chunk_0_300", "b", "rust", false),
    ]);
    let bytes = encode_ledger(&ledger).unwrap();
    assert_eq!(
        String::from_utf8(bytes).unwrap(),
        "identity,unit_name,category,processed\n\
         FS::a.py::chunk_0_50,a,python,true\n\
         FS::b.rs::chunk_0_300,b,rust,false\n"
    );
}

#[test]
fn fields_are_quoted_where_needed() {
    let bytes = encode_table(&table(&[&["a,b", "say \"hi\"", "two\nlines", "plain"]])).unwrap();
    assert_eq!(
        String::from_utf8(bytes).unwrap(),
        "\"a,b\",\"say \"\"hi\"\"\",\"two\nlines\",plain\n"
    );
}

#[test]
fn empty_table_is_empty_bytes() {
    assert_eq!(encode_table(&Vec::new()).unwrap(), Vec::<u8>::new());
}

#[test]
fn what_is_written_is_read_back() {
    let ledger = Ledger::from_rows(vec![
        row("FS::dir/a, b.py::chunk_0_1", "a, b", "python", true),
        row("FS::q\"uote.rs::chunk_0_2", "q\"uote", "rust", false),
        row("FS::é.pyx::chunk_0_3", "é", "cython", true),
    ]);
    let bytes = encode_ledger(&ledger).unwrap();
    assert_eq!(decode_ledger(&bytes), Ok(ledger));
}

#[test]
fn empty_file_is_an_empty_ledger() {
    assert_eq!(decode(""), Ok(Ledger::new()));
}

#[test]
fn header_alone_is_an_empty_ledger() {
    assert_eq!(decode("identity,unit_name,category,processed\n"), Ok(Ledger::new()));
}

#[test]
fn columns_are_found_by_name_in_any_order() {
    let ledger = decode("processed,category,identity,unit_name\ntrue,rust,id1,ema\n").unwrap();
    assert_eq!(ledger.snapshot(), vec![row("id1", "ema", "rust", true)]);
}

#[test]
fn older_column_names_are_understood() {
    let ledger = decode(
        "filename,indicator_name,extension,embedded,gh_link\n\
         x/rsi.pyx,rsi,cython,true,http://example\n\
         x/ema.py,ema,python,false,\n",
    )
    .unwrap();
    assert_eq!(
        ledger.snapshot(),
        vec![row("x/rsi.pyx", "rsi", "cython", true), row("x/ema.py", "ema", "python", false)]
    );
}

#[test]
fn current_names_win_over_older_ones() {
    let ledger = decode("filename,identity\nold,new\n").unwrap();
    assert_eq!(ledger.snapshot(), vec![row("new", "", "", false)]);
}

#[test]
fn missing_flag_column_means_not_processed() {
    let ledger = decode("filename,indicator_name,extension\nx/rsi.pyx,rsi,cython\n").unwrap();
    assert_eq!(ledger.snapshot(), vec![row("x/rsi.pyx", "rsi", "cython", false)]);
}

#[test]
fn empty_flag_means_not_processed() {
    let ledger = decode("identity,processed\na,\nb,true\n").unwrap();
    assert_eq!(ledger.snapshot(), vec![row("a", "", "", false), row("b", "", "", true)]);
}

#[test]
fn unknown_columns_are_passed_over() {
    let ledger = decode("note,identity,extra\nn,a,e\n").unwrap();
    assert_eq!(ledger.snapshot(), vec![row("a", "", "", false)]);
}

#[test]
fn repeated_identity_keeps_its_first_row() {
    let ledger = decode("identity,unit_name,processed\na,one,false\na,two,true\n").unwrap();
    assert_eq!(ledger.snapshot(), vec![row("a", "one", "", false)]);
}

#[test]
fn header_without_identity_is_refused() {
    assert_eq!(decode("unit_name,category\nu,c\n"), Err(LedgerError::MissingIdentityColumn));
}

#[test]
fn bad_flag_is_refused_with_its_record_number() {
    assert_eq!(
        decode("identity,processed\na,true\nb,yes\nc,nope\n"),
        Err(LedgerError::BadFlag(2))
    );
    assert_eq!(decode("identity,processed\na,TRUE\n"), Err(LedgerError::BadFlag(1)));
}

#[test]
fn record_without_identity_field_is_refused() {
    let t = table(&[&["unit_name", "identity"], &["u", "a"], &["only"]]);
    assert_eq!(ledger_from_table(&t), Err(LedgerError::MissingIdentity(2)));
}

#[test]
fn missing_identity_is_reported_before_a_bad_flag() {
    let t = table(&[&["processed", "identity"], &["maybe"]]);
    assert_eq!(ledger_from_table(&t), Err(LedgerError::MissingIdentity(1)));
}

#[test]
fn first_bad_record_decides() {
    let t = table(&[&["identity", "processed"], &["a", "x"], &[]]);
    assert_eq!(ledger_from_table(&t), Err(LedgerError::BadFlag(1)));
}

#[test]
fn short_record_defaults_what_is_missing() {
    let t = table(&[&["identity", "unit_name", "category", "processed"], &["a", "u"]]);
    assert_eq!(ledger_from_table(&t).unwrap().snapshot(), vec![row("a", "u", "", false)]);
}

#[test]
fn empty_table_is_an_empty_ledger() {
    assert_eq!(ledger_from_table(&Vec::new()), Ok(Ledger::new()));
}

#[test]
fn records_of_unequal_length_are_refused_by_the_reader() {
    assert!(matches!(decode("identity,processed\na\n"), Err(LedgerError::Csv(_))));
}

#[test]
fn bytes_that_are_no_text_are_refused_by_the_reader() {
    let bytes = vec![b'i', b'd', b'\n', 0xff, 0xfe, b'\n'];
    assert!(matches!(decode_ledger(&bytes), Err(LedgerError::Csv(_))));
}

#[test]
fn quoted_fields_are_read() {
    let ledger = decode("identity,unit_name\n\"a,b\",\"say \"\"hi\"\"\"\n").unwrap();
    assert_eq!(ledger.snapshot(), vec![row("a,b", "say \"hi\"", "", false)]);
}

#[test]
fn first_ledger_file_of_a_tree() {
    let python = vec![SourceFile { path: "p/rsi.pyx".to_string(), text: "a\nb\n".to_string() }];
    let rust = vec![
        SourceFile { path: "r/rsi.rs".to_string(), text: "x".to_string() },
        SourceFile { path: "r/notes.txt".to_string(), text: "x".to_string() },
    ];
    let bytes = save_indicators_csv(&python, &rust).unwrap();
    assert_eq!(
        String::from_utf8(bytes).unwrap(),
        "identity,unit_name,category,processed\n\
         FS::p/rsi.pyx::chunk_0_2,rsi,cython,false\n\
         FS::r/rsi.rs::chunk_0_1,rsi,rust,false\n"
    );
}

#[test]
fn every_kind_of_field_can_be_written() {
    let records = table(&[
        &[],
        &[""],
        &["", ""],
        &["a"],
        &["a", "b", "c", "d", "e"],
        &["with,comma", "with \"quote\"", "with\nline feed", "with\r\nboth", " spaces "],
        &["é", "🟢", "\t"],
    ]);
    for record in records.iter() {
        assert!(encode_table(&vec![record.clone()]).is_ok(), "record {:?}", record);
    }
    assert!(encode_table(&records).is_ok());
}

#[test]
fn table_bytes_are_the_lines_one_after_another() {
    let records = table(&[&["a", "b"], &["c"], &["d", "e", "f"]]);
    let mut want = Vec::new();
    for record in records.iter() {
        want.extend(encode_table(&vec![record.clone()]).unwrap());
    }
    assert_eq!(encode_table(&records).unwrap(), want);
    assert_eq!(String::from_utf8(want).unwrap(), "a,b\nc\nd,e,f\n");
}

#[test]
fn upper_case_files_are_labelled_in_the_first_ledger_file() {
    let rust = vec![SourceFile { path: "r/EMA.RS".to_string(), text: "x".to_string() }];
    let bytes = save_indicators_csv(&Vec::new(), &rust).unwrap();
    assert_eq!(
        String::from_utf8(bytes).unwrap(),
        "identity,unit_name,category,processed\nFS::r/EMA.RS::chunk_0_1,EMA,rust,false\n"
    );
}
