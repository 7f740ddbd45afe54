use snippet_pipeline::chunker::{collect_all_snippets, CodeChunk, SourceFile};
use snippet_pipeline::ledger::{Ledger, LedgerRow};
use snippet_pipeline::orchestrator::{select_pending, Action, Orchestrator, DEFAULT_BATCH_SIZE};
use snippet_pipeline::run_model::{Event, Phase};
use snippet_pipeline::store::StoreKeys;

fn chunk(id: &str) -> CodeChunk {
    CodeChunk {
        id: id.to_string(),
        content: format!("text of {}", id),
        language: "rust".to_string(),
        file_path: format!("{}.rs", id),
    }
}

fn chunks(n: usize) -> Vec<CodeChunk> {
    (0..n).map(|i| chunk(&format!("c{}", i))).collect()
}

fn row(id: &str, processed: bool) -> LedgerRow {
    LedgerRow {
        identity: id.to_string(),
        unit_name: id.to_string(),
        category: "rust".to_string(),
        processed,
    }
}

fn keys_of(ids: &[&str]) -> StoreKeys {
    StoreKeys::from_ids(&ids.iter().map(|s| s.to_string()).collect())
}

fn ids(items: &Vec<CodeChunk>) -> Vec<String> {
    items.iter().map(|c| c.id.clone()).collect()
}

fn text_of(lines: usize) -> String {
    (0..lines).map(|i| format!("line {}", i)).collect::<Vec<_>>().join("\n")
}

/// Drives a run to its end. `embed_ok` and `store_ok` say, by batch number,
/// whether the batch's embedding and its store write succeed. Returns the
/// identities submitted for embedding, batch by batch.
fn drive(run: &mut Orchestrator, embed_ok: &dyn Fn(usize) -> bool, store_ok: &dyn Fn(usize) -> bool) -> Vec<Vec<String>> {
    let mut submitted = Vec::new();
    let mut batch = 0;
    loop {
        match run.action() {
            Action::Embed(items) => {
                submitted.push(ids(&items));
                let ok = embed_ok(batch);
                assert!(run.handle(if ok { Event::EmbeddingSucceeded } else { Event::EmbeddingFailed }));
                if !ok {
                    batch += 1;
                }
            }
            Action::Store(items) => {
                assert_eq!(&ids(&items), submitted.last().unwrap());
                let ok = store_ok(batch);
                assert!(run.handle(if ok { Event::StoreSucceeded } else { Event::StoreFailed }));
                batch += 1;
            }
            Action::PersistLedger => {
                assert!(run.handle(Event::LedgerPersisted));
            }
            Action::Done => return submitted,
            Action::Abort => panic!("run halted"),
        }
    }
}

#[test]
fn default_batch_size_is_fifty() {
    assert_eq!(DEFAULT_BATCH_SIZE, 50);
}

#[test]
fn batch_size_zero_is_refused() {
    assert!(Orchestrator::begin(Ledger::new(), StoreKeys::new(), &chunks(3), 0).is_none());
}

#[test]
fn pending_skips_what_is_stored_or_processed_or_repeated() {
    let ledger = Ledger::from_rows(vec![row("c1", true), row("c2", false)]);
    let keys = keys_of(&["c3"]);
    let mut items = chunks(5);
    items.push(chunk("c0"));
    items.push(chunk("c4"));
    let queue = select_pending(&items, &ledger, &keys);
    assert_eq!(ids(&queue), vec!["c0".to_string(), "c2".to_string(), "c4".to_string()]);
}

#[test]
fn three_files_four_chunks_one_batch() {
    let python = vec![
        SourceFile { path: "a.py".to_string(), text: text_of(50) },
        SourceFile { path: "c.pyx".to_string(), text: text_of(0) },
    ];
    let rust = vec![SourceFile { path: "b.rs".to_string(), text: text_of(700) }];
    let discovered = collect_all_snippets(&python, &rust);
    assert_eq!(discovered.len(), 4);

    let mut run =
        Orchestrator::begin(Ledger::new(), StoreKeys::new(), &discovered, DEFAULT_BATCH_SIZE).unwrap();
    assert_eq!(run.queued(), 4);
    let submitted = drive(&mut run, &|_| true, &|_| true);
    assert_eq!(submitted, vec![ids(&discovered)]);
    assert_eq!(run.phase(), Phase::Finished);
    assert_eq!(run.committed(), 1);
    assert_eq!(run.failed(), 0);

    let (ledger, keys) = run.into_parts();
    let rows = ledger.snapshot();
    assert_eq!(rows.len(), 4);
    assert!(rows.iter().all(|r| r.processed));
    assert_eq!(
        rows.iter().map(|r| r.identity.clone()).collect::<Vec<_>>(),
        vec![
            "FS::a.py::chunk_0_50".to_string(),
            "FS::b.rs::chunk_0_300".to_string(),
            "FS::b.rs::chunk_300_600".to_string(),
            "FS::b.rs::chunk_600_700".to_string(),
        ]
    );
    assert_eq!(keys.len(), 4);
    for r in rows.iter() {
        assert!(keys.contains(&r.identity));
    }
}

#[test]
fn second_run_embeds_nothing_and_keeps_the_ledger() {
    let discovered = chunks(7);
    let mut first = Orchestrator::begin(Ledger::new(), StoreKeys::new(), &discovered, 3).unwrap();
    let submitted = drive(&mut first, &|_| true, &|_| true);
    assert_eq!(submitted.len(), 3);
    let (ledger, keys) = first.into_parts();
    let rows_after_first = ledger.snapshot();
    let keys_after_first = keys.list();

    let mut second = Orchestrator::begin(ledger, keys, &discovered, 3).unwrap();
    assert_eq!(second.queued(), 0);
    assert_eq!(second.action(), Action::Done);
    let submitted = drive(&mut second, &|_| true, &|_| true);
    assert_eq!(submitted, Vec::<Vec<String>>::new());
    let (ledger, keys) = second.into_parts();
    assert_eq!(ledger.snapshot(), rows_after_first);
    assert_eq!(keys.list(), keys_after_first);
}

#[test]
fn what_the_store_holds_is_never_submitted() {
    let discovered = chunks(6);
    let mut run =
        Orchestrator::begin(Ledger::new(), keys_of(&["c1", "c4"]), &discovered, 2).unwrap();
    let submitted = drive(&mut run, &|_| true, &|_| true);
    assert_eq!(
        submitted,
        vec![
            vec!["c0".to_string(), "c2".to_string()],
            vec!["c3".to_string(), "c5".to_string()],
        ]
    );
    let flat: Vec<String> = submitted.into_iter().flatten().collect();
    assert!(!flat.contains(&"c1".to_string()));
    assert!(!flat.contains(&"c4".to_string()));
}

#[test]
fn batches_follow_discovery_order_and_size() {
    let discovered = chunks(120);
    let mut run = Orchestrator::begin(Ledger::new(), StoreKeys::new(), &discovered, 50).unwrap();
    let submitted = drive(&mut run, &|_| true, &|_| true);
    assert_eq!(submitted.iter().map(|b| b.len()).collect::<Vec<_>>(), vec![50, 50, 20]);
    let flat: Vec<String> = submitted.into_iter().flatten().collect();
    assert_eq!(flat, ids(&discovered));
    assert_eq!(run.committed(), 3);
}

#[test]
fn failed_store_write_marks_nothing() {
    let discovered = chunks(3);
    let mut run = Orchestrator::begin(Ledger::new(), StoreKeys::new(), &discovered, 50).unwrap();
    let before = run.ledger().snapshot();
    assert!(run.handle(Event::EmbeddingSucceeded));
    assert_eq!(run.phase(), Phase::Storing);
    assert!(run.handle(Event::StoreFailed));
    assert_eq!(run.phase(), Phase::Finished);
    assert_eq!(run.ledger().snapshot(), before);
    assert!(run.ledger().snapshot().iter().all(|r| !r.processed));
    assert_eq!(run.keys().len(), 0);
    assert_eq!(run.failed(), 1);
    assert_eq!(run.committed(), 0);
}

#[test]
fn failed_embedding_marks_nothing() {
    let discovered = chunks(3);
    let mut run = Orchestrator::begin(Ledger::new(), StoreKeys::new(), &discovered, 2).unwrap();
    assert!(run.handle(Event::EmbeddingFailed));
    assert_eq!(run.phase(), Phase::Embedding);
    assert_eq!(run.action(), Action::Embed(vec![chunk("c2")]));
    assert!(run.ledger().snapshot().iter().all(|r| !r.processed));
    assert_eq!(run.failed(), 1);
}

#[test]
fn a_failed_batch_does_not_undo_earlier_ones_and_is_retried_next_run() {
    let discovered = chunks(5);
    let mut run = Orchestrator::begin(Ledger::new(), StoreKeys::new(), &discovered, 2).unwrap();
    drive(&mut run, &|_| true, &|b| b != 1);
    assert_eq!(run.committed(), 2);
    assert_eq!(run.failed(), 1);
    let (ledger, keys) = run.into_parts();
    let flags: Vec<bool> = ledger.snapshot().iter().map(|r| r.processed).collect();
    assert_eq!(flags, vec![true, true, false, false, true]);
    assert_eq!(keys.list(), vec!["c0".to_string(), "c1".to_string(), "c4".to_string()]);

    let mut again = Orchestrator::begin(ledger, keys, &discovered, 2).unwrap();
    let submitted = drive(&mut again, &|_| true, &|_| true);
    assert_eq!(submitted, vec![vec!["c2".to_string(), "c3".to_string()]]);
    let (ledger, keys) = again.into_parts();
    assert!(ledger.snapshot().iter().all(|r| r.processed));
    assert_eq!(keys.len(), 5);
}

#[test]
fn stale_mark_is_cleared_and_the_item_embedded_again() {
    let ledger = Ledger::from_rows(vec![row("c0", true), row("c1", true)]);
    let keys = keys_of(&["c1"]);
    let discovered = chunks(2);
    let mut run = Orchestrator::begin(ledger, keys, &discovered, 50).unwrap();
    assert!(!run.ledger().lookup("c0"));
    assert!(run.ledger().lookup("c1"));
    assert_eq!(run.action(), Action::Embed(vec![chunk("c0")]));
    drive(&mut run, &|_| true, &|_| true);
    assert!(run.ledger().lookup("c0"));
    assert!(run.keys().contains("c0"));
    let (ledger, keys) = run.into_parts();
    for r in ledger.snapshot().iter() {
        assert!(!r.processed || keys.contains(&r.identity));
    }
}

#[test]
fn stored_but_unmarked_item_is_not_embedded_again() {
    let ledger = Ledger::from_rows(vec![row("c0", false)]);
    let mut run = Orchestrator::begin(ledger, keys_of(&["c0"]), &chunks(1), 50).unwrap();
    assert_eq!(run.action(), Action::Done);
    assert_eq!(drive(&mut run, &|_| true, &|_| true), Vec::<Vec<String>>::new());
}

#[test]
fn repeated_identity_is_embedded_once() {
    let mut discovered = chunks(2);
    discovered.push(chunk("c0"));
    let mut run = Orchestrator::begin(Ledger::new(), StoreKeys::new(), &discovered, 50).unwrap();
    let submitted = drive(&mut run, &|_| true, &|_| true);
    assert_eq!(submitted, vec![vec!["c0".to_string(), "c1".to_string()]]);
    assert_eq!(run.ledger().len(), 2);
}

#[test]
fn events_out_of_turn_are_refused() {
    let mut run = Orchestrator::begin(Ledger::new(), StoreKeys::new(), &chunks(1), 50).unwrap();
    assert!(!run.handle(Event::StoreSucceeded));
    assert!(!run.handle(Event::LedgerPersisted));
    assert_eq!(run.phase(), Phase::Embedding);
    assert!(run.ledger().snapshot().iter().all(|r| !r.processed));
    assert!(run.handle(Event::EmbeddingSucceeded));
    assert!(!run.handle(Event::EmbeddingSucceeded));
    assert!(run.handle(Event::StoreSucceeded));
    assert!(!run.handle(Event::StoreSucceeded));
    assert_eq!(run.phase(), Phase::Persisting);
    assert!(run.handle(Event::LedgerPersisted));
    assert!(!run.handle(Event::LedgerPersisted));
    assert!(!run.handle(Event::EmbeddingSucceeded));
    assert_eq!(run.phase(), Phase::Finished);
}

#[test]
fn failed_ledger_write_halts_the_run() {
    let mut run = Orchestrator::begin(Ledger::new(), StoreKeys::new(), &chunks(4), 2).unwrap();
    assert!(run.handle(Event::EmbeddingSucceeded));
    assert!(run.handle(Event::StoreSucceeded));
    assert_eq!(run.action(), Action::PersistLedger);
    assert!(run.handle(Event::LedgerWriteFailed));
    assert_eq!(run.phase(), Phase::Halted);
    assert_eq!(run.action(), Action::Abort);
    assert!(!run.handle(Event::EmbeddingSucceeded));
    assert!(!run.handle(Event::LedgerPersisted));
    assert_eq!(run.committed(), 1);
}

#[test]
fn nothing_discovered_is_done_at_once() {
    let run = Orchestrator::begin(Ledger::new(), StoreKeys::new(), &Vec::new(), 50).unwrap();
    assert_eq!(run.action(), Action::Done);
    assert_eq!(run.queued(), 0);
}
