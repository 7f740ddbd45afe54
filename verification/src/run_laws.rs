//! What holds of every run of the embedding pipeline, proved of the model:
//! a run never submits what the store already holds, a failed batch
//! commits nothing, a stale ledger entry is embedded again, and a second
//! run after a complete one finds nothing to do.

use vstd::prelude::*;
use crate::chunker::ChunkView;
use crate::ledger::{
    consistent, distinct, fresh_row, has_row, is_processed, lemma_absorbed_all_distinct,
    lemma_reconciled, recorded_all, reconciled, RowView,
};
use crate::run_model::{
    abandoned, accepts, batch_end, committed, current_batch, distinct_items, ids_of, is_new,
    lemma_inserted_all, lemma_marked_all, lemma_marked_all_rows, lemma_pending,
    lemma_recorded_all, listed, pending, run, started, step, valid, Event, Phase, RunView,
};

verus! {

/// A flag that is set witnesses `is_processed`, and in a consistent ledger
/// every processed identity is among the keys.
pub proof fn lemma_processed_is_stored(rows: Seq<RowView>, keys: Set<Seq<char>>, id: Seq<char>)
    requires
        consistent(rows, keys),
        is_processed(rows, id),
    ensures
        keys.contains(id),
{
    let i = choose|i: int|
        0 <= i < rows.len() && (#[trigger] rows[i]).identity == id && rows[i].processed;
    assert(keys.contains(rows[i].identity));
}

/// The identities of the current batch are those of the queued items
/// between the settled part and the batch's end.
pub proof fn lemma_batch_ids(s: RunView, x: Seq<char>)
    requires
        s.settled <= s.queue.len(),
    ensures
        ids_of(current_batch(s)).contains(x) <==> exists|k: int|
            s.settled <= k < batch_end(s) && (#[trigger] s.queue[k]).id == x,
{
    let batch = current_batch(s);
    let ids = ids_of(batch);
    if ids.contains(x) {
        let i = choose|i: int| 0 <= i < ids.len() && ids[i] == x;
        assert(batch[i] == s.queue[s.settled + i]);
        assert(s.queue[s.settled + i].id == x);
    }
    if exists|k: int| s.settled <= k < batch_end(s) && (#[trigger] s.queue[k]).id == x {
        let k = choose|k: int| s.settled <= k < batch_end(s) && (#[trigger] s.queue[k]).id == x;
        assert(batch[k - s.settled] == s.queue[k]);
        assert(ids[k - s.settled] == x);
    }
}

/// A run starts in a valid state.
pub proof fn lemma_started_valid(
    rows: Seq<RowView>,
    keys: Set<Seq<char>>,
    items: Seq<ChunkView>,
    batch_size: nat,
)
    requires
        distinct(rows),
        batch_size > 0,
    ensures
        valid(started(rows, keys, items, batch_size)),
{
    let checked = reconciled(rows, keys);
    lemma_reconciled(rows, keys);
    lemma_recorded_all(checked, items);
    let ledger = recorded_all(checked, items);
    lemma_pending(items, ledger, keys);
    let queue = pending(items, ledger, keys);
    assert forall|i: int| 0 <= i < ledger.len() && (#[trigger] ledger[i]).processed implies keys.contains(
        ledger[i].identity,
    ) by {
        assert(is_processed(ledger, ledger[i].identity));
        assert(is_processed(checked, ledger[i].identity));
        lemma_processed_is_stored(checked, keys, ledger[i].identity);
    }
    assert forall|i: int| 0 <= i < queue.len() implies has_row(ledger, (#[trigger] queue[i]).id) by {
        assert(listed(queue, queue[i].id));
        assert(listed(items, queue[i].id));
    }
}

/// Every event leads from a valid state to a valid state.
pub proof fn lemma_step_valid(s: RunView, e: Event)
    requires
        valid(s),
    ensures
        valid(step(s, e)),
        step(s, e).queue == s.queue,
        step(s, e).batch_size == s.batch_size,
        s.settled <= step(s, e).settled,
        forall|x: Seq<char>| s.keys.contains(x) ==> #[trigger] step(s, e).keys.contains(x),
        forall|x: Seq<char>| #[trigger] has_row(step(s, e).ledger, x) <==> has_row(s.ledger, x),
        forall|x: Seq<char>|
            is_processed(s.ledger, x) ==> #[trigger] is_processed(step(s, e).ledger, x),
{
    if accepts(s, e) {
        match e {
            Event::StoreSucceeded => {
                lemma_commit_valid(s);
            },
            _ => {},
        }
    }
}

/// Committing the current batch leads from a valid state to a valid state.
proof fn lemma_commit_valid(s: RunView)
    requires
        valid(s),
        s.phase == Phase::Storing,
    ensures
        valid(committed(s)),
        forall|x: Seq<char>| s.keys.contains(x) ==> #[trigger] committed(s).keys.contains(x),
        forall|x: Seq<char>| #[trigger] has_row(committed(s).ledger, x) <==> has_row(s.ledger, x),
        forall|x: Seq<char>|
            is_processed(s.ledger, x) ==> #[trigger] is_processed(committed(s).ledger, x),
{
    let t = committed(s);
    let ids = ids_of(current_batch(s));
    lemma_marked_all(s.ledger, ids);
    lemma_inserted_all(s.keys, ids);
    assert forall|i: int| 0 <= i < t.ledger.len() && (#[trigger] t.ledger[i]).processed implies t.keys.contains(
        t.ledger[i].identity,
    ) by {
        let x = t.ledger[i].identity;
        assert(is_processed(t.ledger, x));
        if is_processed(s.ledger, x) {
            lemma_processed_is_stored(s.ledger, s.keys, x);
        }
    }
    assert forall|i: int| t.settled <= i < t.queue.len() implies is_new(
        t.ledger,
        t.keys,
        (#[trigger] t.queue[i]).id,
    ) by {
        let x = s.queue[i].id;
        lemma_batch_ids(s, x);
        assert(is_new(s.ledger, s.keys, x));
        if ids.contains(x) {
            let k = choose|k: int| s.settled <= k < batch_end(s) && (#[trigger] s.queue[k]).id == x;
            assert(s.queue[k].id != s.queue[i].id);
        }
    }
    if t.failed == 0 {
        assert forall|i: int| 0 <= i < t.settled implies t.keys.contains(
            (#[trigger] t.queue[i]).id,
        ) && is_processed(t.ledger, t.queue[i].id) by {
            let x = s.queue[i].id;
            if i >= s.settled {
                lemma_batch_ids(s, x);
                assert(has_row(s.ledger, x));
            }
        }
    }
}

/// Every sequence of events leads from a valid state to a valid state. The
/// queue stays as it is, the keys only grow, no row comes or goes, and no
/// flag is cleared.
pub proof fn lemma_run_valid(s: RunView, events: Seq<Event>)
    requires
        valid(s),
    ensures
        valid(run(s, events)),
        run(s, events).queue == s.queue,
        run(s, events).batch_size == s.batch_size,
        s.settled <= run(s, events).settled,
        forall|x: Seq<char>| s.keys.contains(x) ==> #[trigger] run(s, events).keys.contains(x),
        forall|x: Seq<char>| #[trigger]
            has_row(run(s, events).ledger, x) <==> has_row(s.ledger, x),
        forall|x: Seq<char>|
            is_processed(s.ledger, x) ==> #[trigger] is_processed(run(s, events).ledger, x),
    decreases events.len(),
{
    if events.len() > 0 {
        let mid = run(s, events.drop_last());
        lemma_run_valid(s, events.drop_last());
        lemma_step_valid(mid, events.last());
        let t = run(s, events);
        assert forall|x: Seq<char>| s.keys.contains(x) implies #[trigger] t.keys.contains(x) by {
            assert(mid.keys.contains(x));
        }
        assert forall|x: Seq<char>| #[trigger] has_row(t.ledger, x) <==> has_row(s.ledger, x) by {
            assert(has_row(mid.ledger, x) <==> has_row(s.ledger, x));
        }
        assert forall|x: Seq<char>| is_processed(s.ledger, x) implies #[trigger] is_processed(
            t.ledger,
            x,
        ) by {
            assert(is_processed(mid.ledger, x));
        }
    }
}

// ---------------------------------------------------------------------
// The laws
// ---------------------------------------------------------------------

/// Batches have a fixed size: the batch in the making holds at least one
/// item and at most `batch_size`, it holds fewer only if it is the last,
/// and it is the run of queued items that follows the settled ones.
pub proof fn lemma_batch_bounds(s: RunView, i: int)
    requires
        valid(s),
        s.phase == Phase::Embedding || s.phase == Phase::Storing,
        0 <= i < current_batch(s).len(),
    ensures
        1 <= current_batch(s).len() <= s.batch_size,
        current_batch(s).len() < s.batch_size ==> batch_end(s) == s.queue.len(),
        current_batch(s)[i] == s.queue[s.settled + i],
{
}

/// Batches are dealt with in order, once each: an accepted outcome of a
/// store write, or a failure, settles exactly the batch in the making,
/// and the next batch starts where it ended.
pub proof fn lemma_batches_in_order(s: RunView, e: Event)
    requires
        valid(s),
        accepts(s, e),
    ensures
        (e == Event::EmbeddingFailed || e == Event::StoreFailed || e == Event::StoreSucceeded)
            ==> step(s, e).settled == batch_end(s) && step(s, e).settled > s.settled,
        (e == Event::EmbeddingSucceeded || e == Event::LedgerPersisted || e
            == Event::LedgerWriteFailed) ==> step(s, e).settled == s.settled && step(s, e).ledger
            == s.ledger && step(s, e).keys == s.keys,
        step(s, e).committed + step(s, e).failed <= s.committed + s.failed + 1,
{
}

/// No duplicate work at selection: no queued item has its identity among
/// the store's keys, nor a ledger row that calls it processed, and no
/// identity is queued twice.
pub proof fn lemma_queue_skips_stored(
    items: Seq<ChunkView>,
    rows: Seq<RowView>,
    keys: Set<Seq<char>>,
    i: int,
    j: int,
)
    requires
        0 <= i < pending(items, rows, keys).len(),
        0 <= j < pending(items, rows, keys).len(),
    ensures
        !keys.contains(pending(items, rows, keys)[i].id),
        !is_processed(rows, pending(items, rows, keys)[i].id),
        i != j ==> pending(items, rows, keys)[i].id != pending(items, rows, keys)[j].id,
{
    lemma_pending(items, rows, keys);
    let q = pending(items, rows, keys);
    assert(is_new(rows, keys, q[i].id));
    if i < j {
        assert(q[i].id != q[j].id);
    } else if j < i {
        assert(q[j].id != q[i].id);
    }
}

/// No duplicate work during a run: whatever happened since the run
/// started, an item of the batch that is submitted next has its identity
/// neither among the keys that the store held at the start nor among those
/// written since.
pub proof fn lemma_batches_skip_stored(
    rows: Seq<RowView>,
    keys: Set<Seq<char>>,
    items: Seq<ChunkView>,
    batch_size: nat,
    events: Seq<Event>,
    i: int,
)
    requires
        distinct(rows),
        batch_size > 0,
        run(started(rows, keys, items, batch_size), events).phase == Phase::Embedding,
        0 <= i < current_batch(run(started(rows, keys, items, batch_size), events)).len(),
    ensures
        ({
            let s = run(started(rows, keys, items, batch_size), events);
            &&& !s.keys.contains(current_batch(s)[i].id)
            &&& !keys.contains(current_batch(s)[i].id)
            &&& !is_processed(s.ledger, current_batch(s)[i].id)
        }),
{
    let s0 = started(rows, keys, items, batch_size);
    lemma_started_valid(rows, keys, items, batch_size);
    lemma_run_valid(s0, events);
    let s = run(s0, events);
    let item = current_batch(s)[i];
    assert(item == s.queue[s.settled + i]);
    assert(is_new(s.ledger, s.keys, s.queue[s.settled + i].id));
    if keys.contains(item.id) {
        assert(s.keys.contains(item.id));
    }
}

/// All or nothing: when a batch was embedded and the write to the store
/// then fails, the ledger and the keys are what they were before the
/// batch, and no item of the batch is marked processed.
pub proof fn lemma_failed_store_commits_nothing(s: RunView, i: int)
    requires
        valid(s),
        s.phase == Phase::Embedding,
        0 <= i < current_batch(s).len(),
    ensures
        ({
            let t = step(step(s, Event::EmbeddingSucceeded), Event::StoreFailed);
            &&& t.ledger == s.ledger
            &&& t.keys == s.keys
            &&& !is_processed(t.ledger, current_batch(s)[i].id)
            &&& t.failed == s.failed + 1
            &&& t.committed == s.committed
        }),
{
    let item = current_batch(s)[i];
    assert(item == s.queue[s.settled + i]);
    assert(is_new(s.ledger, s.keys, s.queue[s.settled + i].id));
}

/// The same holds when the embedding call itself fails.
pub proof fn lemma_failed_embedding_commits_nothing(s: RunView, i: int)
    requires
        valid(s),
        s.phase == Phase::Embedding,
        0 <= i < current_batch(s).len(),
    ensures
        ({
            let t = step(s, Event::EmbeddingFailed);
            &&& t.ledger == s.ledger
            &&& t.keys == s.keys
            &&& !is_processed(t.ledger, current_batch(s)[i].id)
        }),
{
    let item = current_batch(s)[i];
    assert(item == s.queue[s.settled + i]);
    assert(is_new(s.ledger, s.keys, s.queue[s.settled + i].id));
}

/// A failure leaves earlier batches committed: what was processed before
/// the event is processed after it, and what the store held it holds.
pub proof fn lemma_committed_work_stays(s: RunView, e: Event, x: Seq<char>)
    requires
        valid(s),
    ensures
        is_processed(s.ledger, x) ==> is_processed(step(s, e).ledger, x),
        s.keys.contains(x) ==> step(s, e).keys.contains(x),
{
    lemma_step_valid(s, e);
}

/// Repair at startup: a row that is marked processed although the store
/// lacks its identity is cleared when the run starts, its item is queued
/// again if it was discovered, and the ledger agrees with the store.
pub proof fn lemma_stale_row_is_requeued(
    rows: Seq<RowView>,
    keys: Set<Seq<char>>,
    items: Seq<ChunkView>,
    batch_size: nat,
    id: Seq<char>,
)
    requires
        distinct(rows),
        batch_size > 0,
        is_processed(rows, id),
        !keys.contains(id),
        listed(items, id),
    ensures
        ({
            let s = started(rows, keys, items, batch_size);
            &&& listed(s.queue, id)
            &&& !is_processed(s.ledger, id)
            &&& has_row(s.ledger, id)
            &&& consistent(s.ledger, s.keys)
        }),
{
    let checked = reconciled(rows, keys);
    lemma_reconciled(rows, keys);
    lemma_recorded_all(checked, items);
    let ledger = recorded_all(checked, items);
    lemma_pending(items, ledger, keys);
    lemma_started_valid(rows, keys, items, batch_size);
    assert(!is_processed(checked, id));
    assert(!is_processed(ledger, id));
    assert(is_new(ledger, keys, id));
    assert(listed(items, id));
}

/// Repair completed: when the run that follows deals with every batch and
/// none fails, the item is in the store, its row is marked processed, and
/// the ledger agrees with the store.
pub proof fn lemma_stale_row_is_repaired(
    rows: Seq<RowView>,
    keys: Set<Seq<char>>,
    items: Seq<ChunkView>,
    batch_size: nat,
    id: Seq<char>,
    events: Seq<Event>,
)
    requires
        distinct(rows),
        batch_size > 0,
        is_processed(rows, id),
        !keys.contains(id),
        listed(items, id),
        run(started(rows, keys, items, batch_size), events).phase == Phase::Finished,
        run(started(rows, keys, items, batch_size), events).failed == 0,
    ensures
        ({
            let t = run(started(rows, keys, items, batch_size), events);
            &&& t.keys.contains(id)
            &&& is_processed(t.ledger, id)
            &&& consistent(t.ledger, t.keys)
        }),
{
    let s = started(rows, keys, items, batch_size);
    lemma_stale_row_is_requeued(rows, keys, items, batch_size, id);
    lemma_started_valid(rows, keys, items, batch_size);
    lemma_run_valid(s, events);
    let t = run(s, events);
    let k = choose|k: int| 0 <= k < s.queue.len() && (#[trigger] s.queue[k]).id == id;
    assert(t.queue[k].id == id);
}

/// After a run that dealt with every batch without a failure, every
/// discovered item is in the store and marked processed.
pub proof fn lemma_complete_run_covers_all(
    rows: Seq<RowView>,
    keys: Set<Seq<char>>,
    items: Seq<ChunkView>,
    batch_size: nat,
    events: Seq<Event>,
    id: Seq<char>,
)
    requires
        distinct(rows),
        batch_size > 0,
        listed(items, id),
        run(started(rows, keys, items, batch_size), events).phase == Phase::Finished,
        run(started(rows, keys, items, batch_size), events).failed == 0,
    ensures
        run(started(rows, keys, items, batch_size), events).keys.contains(id),
        has_row(run(started(rows, keys, items, batch_size), events).ledger, id),
{
    let s = started(rows, keys, items, batch_size);
    let checked = reconciled(rows, keys);
    lemma_reconciled(rows, keys);
    lemma_recorded_all(checked, items);
    lemma_pending(items, s.ledger, keys);
    lemma_started_valid(rows, keys, items, batch_size);
    lemma_run_valid(s, events);
    let t = run(s, events);
    assert(has_row(s.ledger, id));
    assert(has_row(t.ledger, id));
    if is_new(s.ledger, keys, id) {
        assert(listed(s.queue, id));
        let k = choose|k: int| 0 <= k < s.queue.len() && (#[trigger] s.queue[k]).id == id;
        assert(t.queue[k].id == id);
    } else if is_processed(s.ledger, id) {
        lemma_processed_is_stored(s.ledger, s.keys, id);
        assert(t.keys.contains(id));
    } else {
        assert(t.keys.contains(id));
    }
}

/// Idempotence: after a run that dealt with every batch without a failure,
/// a second run over the same discovered items queues nothing, so it
/// embeds nothing, and it starts, and therefore ends, with the ledger and
/// the keys that the first run left.
pub proof fn lemma_second_run_is_idle(
    rows: Seq<RowView>,
    keys: Set<Seq<char>>,
    items: Seq<ChunkView>,
    batch_size: nat,
    events: Seq<Event>,
    next_batch_size: nat,
    later: Seq<Event>,
)
    requires
        distinct(rows),
        batch_size > 0,
        next_batch_size > 0,
        run(started(rows, keys, items, batch_size), events).phase == Phase::Finished,
        run(started(rows, keys, items, batch_size), events).failed == 0,
    ensures
        ({
            let first = run(started(rows, keys, items, batch_size), events);
            let second = started(first.ledger, first.keys, items, next_batch_size);
            &&& second.queue.len() == 0
            &&& second.phase == Phase::Finished
            &&& second.ledger == first.ledger
            &&& second.keys == first.keys
            &&& run(second, later) == second
        }),
{
    let s = started(rows, keys, items, batch_size);
    lemma_started_valid(rows, keys, items, batch_size);
    lemma_run_valid(s, events);
    let first = run(s, events);
    assert forall|id: Seq<char>| listed(items, id) implies first.keys.contains(id) && has_row(
        first.ledger,
        id,
    ) by {
        lemma_complete_run_covers_all(rows, keys, items, batch_size, events, id);
    }
    lemma_reconciled(first.ledger, first.keys);
    lemma_recorded_all(first.ledger, items);
    let second = started(first.ledger, first.keys, items, next_batch_size);
    assert(second.ledger == first.ledger);
    lemma_pending(items, second.ledger, first.keys);
    if second.queue.len() > 0 {
        let x = second.queue[0].id;
        assert(is_new(second.ledger, first.keys, x));
        assert(listed(second.queue, x));
        assert(listed(items, x));
    }
    lemma_finished_stays(second, later);
}

// ---------------------------------------------------------------------
// What a run leaves
// ---------------------------------------------------------------------

/// Whether two rows are rows of the same item: they agree in everything
/// but, perhaps, the flag.
pub open spec fn same_item(a: RowView, b: RowView) -> bool {
    a.identity == b.identity && a.unit_name == b.unit_name && a.category == b.category
}

/// An event changes a ledger in its flags only, sets flags and clears
/// none, and adds to the keys only identities that were queued.
pub proof fn lemma_step_frame(s: RunView, e: Event)
    requires
        valid(s),
    ensures
        step(s, e).ledger.len() == s.ledger.len(),
        forall|i: int|
            0 <= i < s.ledger.len() ==> same_item(#[trigger] step(s, e).ledger[i], s.ledger[i])
                && (s.ledger[i].processed ==> step(s, e).ledger[i].processed),
        forall|x: Seq<char>| #[trigger]
            step(s, e).keys.contains(x) ==> s.keys.contains(x) || listed(s.queue, x),
{
    let t = step(s, e);
    if accepts(s, e) && e == Event::StoreSucceeded {
        let ids = ids_of(current_batch(s));
        lemma_inserted_all(s.keys, ids);
        lemma_marked_all(s.ledger, ids);
        assert forall|i: int| 0 <= i < s.ledger.len() implies same_item(
            #[trigger] t.ledger[i],
            s.ledger[i],
        ) && (s.ledger[i].processed ==> t.ledger[i].processed) by {
            lemma_marked_all_rows(s.ledger, ids, i);
        }
        assert forall|x: Seq<char>| #[trigger] t.keys.contains(x) implies s.keys.contains(x)
            || listed(s.queue, x) by {
            if !s.keys.contains(x) {
                lemma_batch_ids(s, x);
                let k = choose|k: int|
                    s.settled <= k < batch_end(s) && (#[trigger] s.queue[k]).id == x;
                assert(s.queue[k].id == x);
            }
        }
    }
}

/// The same holds of every sequence of events.
pub proof fn lemma_run_frame(s: RunView, events: Seq<Event>)
    requires
        valid(s),
    ensures
        run(s, events).ledger.len() == s.ledger.len(),
        forall|i: int|
            0 <= i < s.ledger.len() ==> same_item(#[trigger] run(s, events).ledger[i], s.ledger[i])
                && (s.ledger[i].processed ==> run(s, events).ledger[i].processed),
        forall|x: Seq<char>| #[trigger]
            run(s, events).keys.contains(x) ==> s.keys.contains(x) || listed(s.queue, x),
    decreases events.len(),
{
    if events.len() > 0 {
        let mid = run(s, events.drop_last());
        let t = run(s, events);
        lemma_run_frame(s, events.drop_last());
        lemma_run_valid(s, events.drop_last());
        lemma_step_frame(mid, events.last());
        assert forall|i: int| 0 <= i < s.ledger.len() implies same_item(
            #[trigger] t.ledger[i],
            s.ledger[i],
        ) && (s.ledger[i].processed ==> t.ledger[i].processed) by {
            assert(same_item(mid.ledger[i], s.ledger[i]));
        }
        assert forall|x: Seq<char>| #[trigger] t.keys.contains(x) implies s.keys.contains(x)
            || listed(s.queue, x) by {
            if !mid.keys.contains(x) {
                assert(listed(mid.queue, x));
            }
        }
    }
}

/// `row` with its flag set.
pub open spec fn processed_row(row: RowView) -> RowView {
    RowView {
        identity: row.identity,
        unit_name: row.unit_name,
        category: row.category,
        processed: true,
    }
}

/// The rows with every flag set.
pub open spec fn all_processed(rows: Seq<RowView>) -> Seq<RowView> {
    rows.map_values(|r: RowView| processed_row(r))
}

/// A first run from nothing: with an empty ledger and an empty store at
/// the start, a run that deals with every batch without a failure leaves
/// a ledger with the rows that discovery gave, in discovery order, every
/// one of them processed, and keys that are exactly the discovered
/// identities. Where the items have identities of their own, that is one
/// processed row per item.
pub proof fn lemma_first_run_from_nothing(
    items: Seq<ChunkView>,
    batch_size: nat,
    events: Seq<Event>,
)
    requires
        batch_size > 0,
        run(started(Seq::empty(), Set::empty(), items, batch_size), events).phase
            == Phase::Finished,
        run(started(Seq::empty(), Set::empty(), items, batch_size), events).failed == 0,
    ensures
        ({
            let t = run(started(Seq::empty(), Set::empty(), items, batch_size), events);
            &&& t.ledger == all_processed(recorded_all(Seq::empty(), items))
            &&& t.keys == ids_of(items).to_set()
            &&& t.keys.finite()
            &&& distinct_items(items) ==> t.ledger == items.map_values(
                |c: ChunkView| processed_row(fresh_row(c)),
            ) && t.keys.len() == items.len()
        }),
{
    let none = Seq::<RowView>::empty();
    let no_keys = Set::<Seq<char>>::empty();
    let s = started(none, no_keys, items, batch_size);
    let t = run(s, events);
    let found = recorded_all(none, items);
    assert(reconciled(none, no_keys) =~= none);
    assert(s.ledger == found);
    lemma_recorded_all(none, items);
    lemma_pending(items, found, no_keys);
    lemma_started_valid(none, no_keys, items, batch_size);
    lemma_run_valid(s, events);
    lemma_run_frame(s, events);
    assert forall|id: Seq<char>| listed(items, id) implies is_processed(t.ledger, id)
        && t.keys.contains(id) by {
        assert(!is_processed(found, id));
        assert(is_new(found, no_keys, id));
        assert(listed(s.queue, id));
        let k = choose|k: int| 0 <= k < s.queue.len() && (#[trigger] s.queue[k]).id == id;
        assert(t.queue[k].id == id);
    }
    assert forall|i: int| 0 <= i < found.len() implies t.ledger[i] == processed_row(found[i]) by {
        let id = found[i].identity;
        assert(same_item(t.ledger[i], found[i]));
        assert(has_row(found, id));
        assert(listed(items, id));
        let j = choose|j: int|
            0 <= j < t.ledger.len() && (#[trigger] t.ledger[j]).identity == id
                && t.ledger[j].processed;
        if i < j {
            assert(t.ledger[i].identity != t.ledger[j].identity);
        } else if j < i {
            assert(t.ledger[j].identity != t.ledger[i].identity);
        }
    }
    assert(t.ledger =~= all_processed(found));
    let ids = ids_of(items);
    assert forall|x: Seq<char>| t.keys.contains(x) <==> ids.to_set().contains(x) by {
        if t.keys.contains(x) {
            assert(listed(s.queue, x));
            assert(listed(items, x));
            let j = choose|j: int| 0 <= j < items.len() && (#[trigger] items[j]).id == x;
            assert(ids[j] == x);
        }
        if ids.to_set().contains(x) {
            let j = choose|j: int| 0 <= j < ids.len() && ids[j] == x;
            assert(items[j].id == x);
            assert(listed(items, x));
        }
    }
    assert(t.keys =~= ids.to_set());
    vstd::seq_lib::seq_to_set_is_finite(ids);
    if distinct_items(items) {
        let offered = items.map_values(|c: ChunkView| fresh_row(c));
        assert forall|i: int, j: int| 0 <= i < j < offered.len() implies (
        #[trigger] offered[i]).identity != (#[trigger] offered[j]).identity by {
            assert(items[i].id != items[j].id);
        }
        lemma_absorbed_all_distinct(offered);
        assert(found == offered);
        assert(all_processed(found) =~= items.map_values(
            |c: ChunkView| processed_row(fresh_row(c)),
        ));
        assert(ids.no_duplicates()) by {
            assert forall|i: int, j: int| 0 <= i < ids.len() && 0 <= j < ids.len() && i
                != j implies ids[i] != ids[j] by {
                if i < j {
                    assert(items[i].id != items[j].id);
                } else {
                    assert(items[j].id != items[i].id);
                }
            }
        }
        ids.unique_seq_to_set();
    }
}

/// A run that is finished, or halted, takes no further event.
pub proof fn lemma_finished_stays(s: RunView, events: Seq<Event>)
    requires
        s.phase == Phase::Finished || s.phase == Phase::Halted,
    ensures
        run(s, events) == s,
    decreases events.len(),
{
    if events.len() > 0 {
        lemma_finished_stays(s, events.drop_last());
    }
}

/// Retry: the items of a batch that was given up are queued again when a
/// run starts from what the failure left.
pub proof fn lemma_abandoned_batch_is_retried(s: RunView, i: int, batch_size: nat)
    requires
        valid(s),
        s.phase == Phase::Embedding || s.phase == Phase::Storing,
        0 <= i < current_batch(s).len(),
        batch_size > 0,
    ensures
        ({
            let t = abandoned(s);
            let again = started(t.ledger, t.keys, s.queue, batch_size);
            listed(again.queue, current_batch(s)[i].id)
        }),
{
    let t = abandoned(s);
    let item = current_batch(s)[i];
    assert(item == s.queue[s.settled + i]);
    assert(is_new(s.ledger, s.keys, s.queue[s.settled + i].id));
    lemma_reconciled(t.ledger, t.keys);
    lemma_recorded_all(t.ledger, s.queue);
    let ledger = recorded_all(reconciled(t.ledger, t.keys), s.queue);
    lemma_pending(s.queue, ledger, t.keys);
    assert(listed(s.queue, item.id));
    assert(!is_processed(ledger, item.id));
    assert(is_new(ledger, t.keys, item.id));
}

} // verus!
