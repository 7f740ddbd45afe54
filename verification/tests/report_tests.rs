use snippet_pipeline::report::{
    build_prompt, fallback, instruction, parse_verdict, render_row, render_summary,
    render_unit_report, report_file_name, row_for_outcome, sanitize, Content, ReportRow, ReportRun,
    Status, Unit, Verdict,
};

const HEAD: &str = "| Indicator | Rust | Python/Cython | Functional Parity (🟢/🔴) | Test Coverage Parity (🟢/🔴) | Notes |\n|-----------|------|---------------|---------------------------|-----------------------------|-------|\n";

fn unit(name: &str) -> Unit {
    Unit {
        name: name.to_string(),
        rust_location: Some(format!("src/{}.rs", name)),
        python_location: Some(format!("py/{}.pyx", name)),
    }
}

fn row(name: &str, f: Status, c: Status, notes: &str) -> ReportRow {
    ReportRow {
        unit_name: name.to_string(),
        rust_location: format!("src/{}.rs", name),
        python_location: format!("py/{}.pyx", name),
        functional_parity: f,
        test_coverage_parity: c,
        notes: notes.to_string(),
    }
}

#[test]
fn sanitize_replaces_slashes_backslashes_and_spaces() {
    assert_eq!(sanitize("a/b c\\d"), "a_b_c_d");
    assert_eq!(sanitize("plain_name-1.x"), "plain_name-1.x");
    assert_eq!(sanitize(""), "");
    assert_eq!(sanitize("  //"), "____");
    assert_eq!(sanitize("é/ü"), "é_ü");
}

#[test]
fn report_file_is_named_after_the_unit() {
    assert_eq!(report_file_name("moving average/ema"), "moving_average_ema.md");
}

#[test]
fn instruction_asks_for_one_row() {
    assert_eq!(
        instruction(),
        "\nYou're checking parity between Python/Cython indicators and Rust counterparts.\n\nOutput exactly ONE Markdown table row:\n| Indicator | Functional Parity (🟢/🔴) | Test Coverage Parity (🟢/🔴) | Notes |\n"
    );
}

#[test]
fn prompt_shows_both_implementations() {
    let p = build_prompt(
        "rsi",
        &Content::Text("fn rsi() {}".to_string()),
        &Content::Text("def rsi(): pass".to_string()),
    );
    assert_eq!(
        p,
        "\nIndicator: rsi\n\nfn rsi() {}\n\n### Python/Cython Implementation:\ndef rsi(): pass\n\nEvaluate parity. Output ONE Markdown row.\n"
    );
}

#[test]
fn prompt_says_what_is_missing() {
    let p = build_prompt("rsi", &Content::Missing, &Content::Unreadable);
    assert_eq!(
        p,
        "\nIndicator: rsi\n\nN/A\n\n### Python/Cython Implementation:\nPython/Cython file unavailable\n\nEvaluate parity. Output ONE Markdown row.\n"
    );
    let q = build_prompt("rsi", &Content::Unreadable, &Content::Missing);
    assert_eq!(
        q,
        "\nIndicator: rsi\n\nRust file unavailable\n\n### Python/Cython Implementation:\nPython/Cython file unavailable\n\nEvaluate parity. Output ONE Markdown row.\n"
    );
}

#[test]
fn answer_of_one_row_is_read() {
    assert_eq!(
        parse_verdict("| rsi | 🟢 | 🔴 | tests differ |"),
        Some(Verdict {
            functional_parity: Status::Pass,
            test_coverage_parity: Status::Fail,
            notes: "tests differ".to_string(),
        })
    );
}

#[test]
fn blanks_around_row_and_cells_are_allowed() {
    assert_eq!(
        parse_verdict("\n  |rsi|🔴|  🟢  |   |  \n"),
        Some(Verdict {
            functional_parity: Status::Fail,
            test_coverage_parity: Status::Pass,
            notes: "".to_string(),
        })
    );
}

#[test]
fn answers_that_are_no_row_are_not_read() {
    assert_eq!(parse_verdict(""), None);
    assert_eq!(parse_verdict("looks fine to me"), None);
    assert_eq!(parse_verdict("| rsi | 🟢 | 🔴 |"), None);
    assert_eq!(parse_verdict("| rsi | 🟢 | 🔴 | a | b |"), None);
    assert_eq!(parse_verdict("| rsi | yes | 🔴 | notes |"), None);
    assert_eq!(parse_verdict("| rsi | 🟢 | 🟢🟢 | notes |"), None);
    assert_eq!(parse_verdict("| rsi | 🟢 | | notes |"), None);
    assert_eq!(parse_verdict("x | rsi | 🟢 | 🔴 | notes |"), None);
    assert_eq!(parse_verdict("| rsi | 🟢 | 🔴 | notes | x"), None);
    assert_eq!(parse_verdict("rsi | 🟢 | 🔴 | notes"), None);
}

#[test]
fn fallback_row_fails_both_and_says_so() {
    assert_eq!(fallback(&unit("rsi")), row("rsi", Status::Fail, Status::Fail, "request failed"));
}

#[test]
fn fallback_row_of_a_unit_without_locations() {
    let u = Unit { name: "rsi".to_string(), rust_location: None, python_location: None };
    assert_eq!(
        fallback(&u),
        ReportRow {
            unit_name: "rsi".to_string(),
            rust_location: "N/A".to_string(),
            python_location: "N/A".to_string(),
            functional_parity: Status::Fail,
            test_coverage_parity: Status::Fail,
            notes: "request failed".to_string(),
        }
    );
}

#[test]
fn row_takes_its_name_from_the_unit() {
    let answer = Some("| something else | 🟢 | 🟢 | identical |".to_string());
    assert_eq!(
        row_for_outcome(&unit("ema"), &answer),
        row("ema", Status::Pass, Status::Pass, "identical")
    );
}

#[test]
fn failed_request_gives_the_fallback_row() {
    assert_eq!(row_for_outcome(&unit("ema"), &None), fallback(&unit("ema")));
}

#[test]
fn unusable_answer_gives_the_fallback_row() {
    assert_eq!(
        row_for_outcome(&unit("ema"), &Some("I cannot help with that".to_string())),
        fallback(&unit("ema"))
    );
}

#[test]
fn every_unit_gets_a_row_even_if_all_but_one_request_fail() {
    let names = ["a", "b", "c", "d", "e"];
    let mut run = ReportRun::new(names.iter().map(|n| unit(n)).collect());
    assert_eq!(run.unit_count(), 5);
    let mut asked = Vec::new();
    let mut step = 0;
    while let Some(u) = run.next_unit() {
        asked.push(u.name.clone());
        let outcome =
            if step == 2 { Some("| c | 🟢 | 🔴 | partial |".to_string()) } else { None };
        assert!(run.accept(&outcome));
        step += 1;
    }
    assert!(run.is_complete());
    assert_eq!(asked, vec!["a", "b", "c", "d", "e"]);
    let rows = run.rows();
    assert_eq!(rows.len(), 5);
    assert_eq!(
        rows,
        vec![
            fallback(&unit("a")),
            fallback(&unit("b")),
            row("c", Status::Pass, Status::Fail, "partial"),
            fallback(&unit("d")),
            fallback(&unit("e")),
        ]
    );
    let summary = render_summary(&rows);
    assert_eq!(summary.lines().filter(|l| l.starts_with("| ") && !l.starts_with("| Indicator")).count(), 5);
}

#[test]
fn every_unit_gets_a_row_when_every_request_fails() {
    let mut run = ReportRun::new(vec![unit("a"), unit("b")]);
    assert!(run.accept(&None));
    assert!(!run.is_complete());
    assert_eq!(run.row_count(), 1);
    assert!(run.accept(&None));
    assert!(run.is_complete());
    assert_eq!(run.rows(), vec![fallback(&unit("a")), fallback(&unit("b"))]);
}

#[test]
fn outcome_without_a_request_is_refused() {
    let mut run = ReportRun::new(vec![unit("a")]);
    assert!(run.accept(&None));
    assert!(run.next_unit().is_none());
    assert!(!run.accept(&Some("| a | 🟢 | 🟢 | late |".to_string())));
    assert_eq!(run.rows(), vec![fallback(&unit("a"))]);
}

#[test]
fn report_on_no_units_is_complete() {
    let mut run = ReportRun::new(Vec::new());
    assert!(run.is_complete());
    assert!(run.next_unit().is_none());
    assert!(!run.accept(&None));
    assert_eq!(run.rows(), Vec::<ReportRow>::new());
}

#[test]
fn row_as_table_line() {
    assert_eq!(
        render_row(&row("rsi", Status::Pass, Status::Fail, "tests differ")),
        "| rsi | src/rsi.rs | py/rsi.pyx | 🟢 | 🔴 | tests differ |"
    );
}

#[test]
fn summary_has_head_and_one_line_per_row() {
    let rows = vec![
        row("rsi", Status::Pass, Status::Pass, "ok"),
        row("ema", Status::Fail, Status::Fail, "request failed"),
    ];
    assert_eq!(
        render_summary(&rows),
        format!(
            "# Indicator Parity Summary\n\n{}| rsi | src/rsi.rs | py/rsi.pyx | 🟢 | 🟢 | ok |\n| ema | src/ema.rs | py/ema.pyx | 🔴 | 🔴 | request failed |\n",
            HEAD
        )
    );
}

#[test]
fn summary_without_rows() {
    assert_eq!(render_summary(&Vec::new()), format!("# Indicator Parity Summary\n\n{}\n", HEAD));
}

#[test]
fn report_on_one_unit() {
    assert_eq!(
        render_unit_report(&row("rsi", Status::Pass, Status::Fail, "n")),
        format!("# Comparison for rsi\n\n{}| rsi | src/rsi.rs | py/rsi.pyx | 🟢 | 🔴 | n |\n", HEAD)
    );
}
