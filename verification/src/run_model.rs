//! The mathematical model of one run of the embedding pipeline: which items
//! are queued, how the queue is worked off batch by batch, and what each
//! outcome of an embedding call, a store write or a ledger write does to
//! the ledger and to the store's keys.

use vstd::prelude::*;
use crate::chunker::ChunkView;
use crate::ledger::{
    absorbed, consistent, distinct, fresh_row, has_row, is_processed, lemma_absorbed,
    lemma_marked, marked_all, recorded_all, reconciled, RowView,
};

verus! {

// ---------------------------------------------------------------------
// Which items are queued
// ---------------------------------------------------------------------

/// Whether some item of `items` has the identity `id`.
pub open spec fn listed(items: Seq<ChunkView>, id: Seq<char>) -> bool {
    exists|i: int| 0 <= i < items.len() && (#[trigger] items[i]).id == id
}

/// The identities of `items`, in order.
pub open spec fn ids_of(items: Seq<ChunkView>) -> Seq<Seq<char>> {
    items.map_values(|c: ChunkView| c.id)
}

/// No two items share an identity.
pub open spec fn distinct_items(items: Seq<ChunkView>) -> bool {
    forall|i: int, j: int|
        0 <= i < j < items.len() ==> (#[trigger] items[i]).id != (#[trigger] items[j]).id
}

/// Whether an item with identity `id` still has to be embedded: the store
/// does not hold it and the ledger does not call it processed.
pub open spec fn is_new(rows: Seq<RowView>, keys: Set<Seq<char>>, id: Seq<char>) -> bool {
    !keys.contains(id) && !is_processed(rows, id)
}

/// The items that have to be embedded: those of `items` that are new, in
/// discovery order, each identity once (its first occurrence).
pub open spec fn pending(
    items: Seq<ChunkView>,
    rows: Seq<RowView>,
    keys: Set<Seq<char>>,
) -> Seq<ChunkView>
    decreases items.len(),
{
    if items.len() == 0 {
        Seq::empty()
    } else {
        let before = pending(items.drop_last(), rows, keys);
        let item = items.last();
        if is_new(rows, keys, item.id) && !listed(before, item.id) {
            before.push(item)
        } else {
            before
        }
    }
}

/// What `pending` selects: new items only, each identity once, every new
/// identity of the input, and nothing that the input lacks.
pub proof fn lemma_pending(items: Seq<ChunkView>, rows: Seq<RowView>, keys: Set<Seq<char>>)
    ensures
        distinct_items(pending(items, rows, keys)),
        pending(items, rows, keys).len() <= items.len(),
        forall|i: int|
            0 <= i < pending(items, rows, keys).len() ==> is_new(
                rows,
                keys,
                (#[trigger] pending(items, rows, keys)[i]).id,
            ),
        forall|id: Seq<char>| #[trigger]
            listed(pending(items, rows, keys), id) ==> listed(items, id),
        forall|id: Seq<char>|
            #[trigger] listed(items, id) && is_new(rows, keys, id) ==> listed(
                pending(items, rows, keys),
                id,
            ),
    decreases items.len(),
{
    let out = pending(items, rows, keys);
    if items.len() > 0 {
        let head = items.drop_last();
        let before = pending(head, rows, keys);
        let item = items.last();
        lemma_pending(head, rows, keys);
        assert forall|id: Seq<char>| listed(out, id) implies listed(items, id) by {
            let i = choose|i: int| 0 <= i < out.len() && (#[trigger] out[i]).id == id;
            if i < before.len() {
                assert(before[i].id == id);
                assert(listed(before, id));
                let j = choose|j: int| 0 <= j < head.len() && (#[trigger] head[j]).id == id;
                assert(items[j].id == id);
            } else {
                assert(items[items.len() - 1].id == id);
            }
        }
        assert forall|id: Seq<char>| listed(items, id) && is_new(rows, keys, id) implies listed(
            out,
            id,
        ) by {
            let j = choose|j: int| 0 <= j < items.len() && (#[trigger] items[j]).id == id;
            if j < head.len() {
                assert(head[j].id == id);
                assert(listed(head, id));
                assert(listed(before, id));
                let i = choose|i: int| 0 <= i < before.len() && (#[trigger] before[i]).id == id;
                assert(out[i].id == id);
            } else if listed(before, id) {
                let i = choose|i: int| 0 <= i < before.len() && (#[trigger] before[i]).id == id;
                assert(out[i].id == id);
            } else {
                assert(out[before.len() as int].id == id);
            }
        }
        assert forall|i: int, j: int| 0 <= i < j < out.len() implies (#[trigger] out[i]).id != (
        #[trigger] out[j]).id by {
            if j < before.len() {
                assert(out[i] == before[i] && out[j] == before[j]);
            } else {
                assert(out[i] == before[i]);
            }
        }
        assert forall|i: int| 0 <= i < out.len() implies is_new(rows, keys, (#[trigger] out[i]).id) by {
            if i < before.len() {
                assert(out[i] == before[i]);
            }
        }
    }
}

/// The test for an item whose identity is not among `keys`.
pub open spec fn unstored(keys: Set<Seq<char>>) -> spec_fn(ChunkView) -> bool {
    |c: ChunkView| !keys.contains(c.id)
}

/// Where the ledger agrees with the store and the items have identities of
/// their own, the queue is the items that the store lacks, in order: the
/// ledger and the test for repeats take nothing more away.
pub proof fn lemma_pending_is_filter(
    items: Seq<ChunkView>,
    rows: Seq<RowView>,
    keys: Set<Seq<char>>,
)
    requires
        consistent(rows, keys),
        distinct_items(items),
    ensures
        pending(items, rows, keys) == items.filter(unstored(keys)),
    decreases items.len(),
{
    reveal(Seq::filter);
    if items.len() > 0 {
        let head = items.drop_last();
        let item = items.last();
        let before = pending(head, rows, keys);
        assert forall|i: int, j: int| 0 <= i < j < head.len() implies (#[trigger] head[i]).id != (
        #[trigger] head[j]).id by {
            assert(head[i] == items[i] && head[j] == items[j]);
        }
        lemma_pending_is_filter(head, rows, keys);
        lemma_pending(head, rows, keys);
        if listed(before, item.id) {
            assert(listed(head, item.id));
            let j = choose|j: int| 0 <= j < head.len() && (#[trigger] head[j]).id == item.id;
            assert(items[j].id == items[items.len() - 1].id);
        }
        if is_processed(rows, item.id) {
            let i = choose|i: int|
                0 <= i < rows.len() && (#[trigger] rows[i]).identity == item.id
                    && rows[i].processed;
            assert(keys.contains(rows[i].identity));
        }
        assert(is_new(rows, keys, item.id) == unstored(keys)(item));
    }
}

/// Marking a list of identities leaves every row in its place and changes
/// nothing of it but the flag, which is set where the row's identity is
/// listed and kept where it is not.
pub proof fn lemma_marked_all_rows(rows: Seq<RowView>, ids: Seq<Seq<char>>, i: int)
    requires
        0 <= i < rows.len(),
    ensures
        marked_all(rows, ids).len() == rows.len(),
        marked_all(rows, ids)[i].identity == rows[i].identity,
        marked_all(rows, ids)[i].unit_name == rows[i].unit_name,
        marked_all(rows, ids)[i].category == rows[i].category,
        marked_all(rows, ids)[i].processed == (rows[i].processed || ids.contains(
            rows[i].identity,
        )),
    decreases ids.len(),
{
    if ids.len() > 0 {
        let head = ids.drop_last();
        lemma_marked_all_rows(rows, head, i);
        let x = rows[i].identity;
        if ids.contains(x) {
            let k = choose|k: int| 0 <= k < ids.len() && ids[k] == x;
            if k < head.len() {
                assert(head[k] == x);
            }
        }
        if head.contains(x) {
            let k = choose|k: int| 0 <= k < head.len() && head[k] == x;
            assert(ids[k] == x);
        }
        if x == ids.last() {
            assert(ids[ids.len() - 1] == x);
        }
    }
}

/// `keys` with every identity of `ids` added.
pub open spec fn inserted_all(keys: Set<Seq<char>>, ids: Seq<Seq<char>>) -> Set<Seq<char>>
    decreases ids.len(),
{
    if ids.len() == 0 {
        keys
    } else {
        inserted_all(keys, ids.drop_last()).insert(ids.last())
    }
}

/// `inserted_all` holds what `keys` held and what `ids` lists.
pub proof fn lemma_inserted_all(keys: Set<Seq<char>>, ids: Seq<Seq<char>>)
    ensures
        forall|x: Seq<char>|
            inserted_all(keys, ids).contains(x) <==> keys.contains(x) || ids.contains(x),
    decreases ids.len(),
{
    if ids.len() > 0 {
        let head = ids.drop_last();
        lemma_inserted_all(keys, head);
        assert forall|x: Seq<char>|
            inserted_all(keys, ids).contains(x) <==> keys.contains(x) || ids.contains(x) by {
            if ids.contains(x) {
                let i = choose|i: int| 0 <= i < ids.len() && ids[i] == x;
                if i < head.len() {
                    assert(head[i] == x);
                }
            }
            if head.contains(x) {
                let i = choose|i: int| 0 <= i < head.len() && head[i] == x;
                assert(ids[i] == x);
            }
            if x == ids.last() {
                assert(ids[ids.len() - 1] == x);
            }
        }
    }
}

/// Marking a list of identities changes flags only, and makes processed
/// exactly the listed identities that have a row.
pub proof fn lemma_marked_all(rows: Seq<RowView>, ids: Seq<Seq<char>>)
    ensures
        marked_all(rows, ids).len() == rows.len(),
        distinct(rows) ==> distinct(marked_all(rows, ids)),
        forall|x: Seq<char>| has_row(marked_all(rows, ids), x) <==> has_row(rows, x),
        forall|x: Seq<char>|
            is_processed(marked_all(rows, ids), x) <==> is_processed(rows, x) || (ids.contains(x)
                && has_row(rows, x)),
    decreases ids.len(),
{
    if ids.len() > 0 {
        let head = ids.drop_last();
        let mid = marked_all(rows, head);
        lemma_marked_all(rows, head);
        lemma_marked(mid, ids.last());
        assert forall|x: Seq<char>|
            is_processed(marked_all(rows, ids), x) <==> is_processed(rows, x) || (ids.contains(x)
                && has_row(rows, x)) by {
            if ids.contains(x) {
                let i = choose|i: int| 0 <= i < ids.len() && ids[i] == x;
                if i < head.len() {
                    assert(head[i] == x);
                }
            }
            if head.contains(x) {
                let i = choose|i: int| 0 <= i < head.len() && head[i] == x;
                assert(ids[i] == x);
            }
            if x == ids.last() {
                assert(ids[ids.len() - 1] == x);
            }
        }
    }
}

/// Discovering items adds rows that are not processed: identities stay
/// distinct, every discovered identity has a row afterwards, and no flag
/// changes.
pub proof fn lemma_recorded_all(rows: Seq<RowView>, items: Seq<ChunkView>)
    requires
        distinct(rows),
    ensures
        distinct(recorded_all(rows, items)),
        rows.len() <= recorded_all(rows, items).len(),
        recorded_all(rows, items).subrange(0, rows.len() as int) == rows,
        forall|id: Seq<char>| has_row(rows, id) ==> has_row(recorded_all(rows, items), id),
        forall|id: Seq<char>| listed(items, id) ==> has_row(recorded_all(rows, items), id),
        forall|id: Seq<char>|
            has_row(recorded_all(rows, items), id) ==> has_row(rows, id) || listed(items, id),
        forall|id: Seq<char>|
            is_processed(recorded_all(rows, items), id) <==> is_processed(rows, id),
        (forall|id: Seq<char>| listed(items, id) ==> has_row(rows, id)) ==> recorded_all(
            rows,
            items,
        ) == rows,
    decreases items.len(),
{
    let offered = items.map_values(|c: ChunkView| fresh_row(c));
    if items.len() == 0 {
        assert(rows.subrange(0, rows.len() as int) == rows);
    } else {
        let head = items.drop_last();
        let mid = recorded_all(rows, head);
        assert(offered.drop_last() == head.map_values(|c: ChunkView| fresh_row(c)));
        assert(offered.last() == fresh_row(items.last()));
        lemma_recorded_all(rows, head);
        lemma_absorbed(mid, fresh_row(items.last()));
        let out = recorded_all(rows, items);
        assert(out == absorbed(mid, fresh_row(items.last())));
        assert(out.subrange(0, rows.len() as int) == rows) by {
            assert(out.subrange(0, mid.len() as int).subrange(0, rows.len() as int)
                == out.subrange(0, rows.len() as int));
        }
        assert forall|id: Seq<char>| listed(items, id) implies has_row(out, id) by {
            let j = choose|j: int| 0 <= j < items.len() && (#[trigger] items[j]).id == id;
            if j < head.len() {
                assert(head[j].id == id);
                assert(listed(head, id));
            }
        }
        assert forall|id: Seq<char>| has_row(out, id) implies has_row(rows, id) || listed(
            items,
            id,
        ) by {
            if has_row(mid, id) {
                if listed(head, id) {
                    let j = choose|j: int| 0 <= j < head.len() && (#[trigger] head[j]).id == id;
                    assert(items[j].id == id);
                }
            } else {
                assert(items[items.len() - 1].id == id);
            }
        }
        if forall|id: Seq<char>| listed(items, id) ==> has_row(rows, id) {
            assert forall|id: Seq<char>| listed(head, id) implies has_row(rows, id) by {
                let j = choose|j: int| 0 <= j < head.len() && (#[trigger] head[j]).id == id;
                assert(items[j].id == id);
                assert(listed(items, id));
            }
            assert(items[items.len() - 1].id == items.last().id);
            assert(listed(items, items.last().id));
        }
    }
}

// ---------------------------------------------------------------------
// The run
// ---------------------------------------------------------------------

/// Where a run stands.
#[derive(Debug, Clone, Copy, PartialEq, Eq, Structural)]
pub enum Phase {
    /// The current batch is to be embedded.
    Embedding,
    /// The current batch was embedded and is to be written to the store.
    Storing,
    /// A batch was committed and the ledger is to be written out.
    Persisting,
    /// Every batch was dealt with.
    Finished,
    /// The ledger could not be written; the run cannot go on.
    Halted,
}

/// What happened to the request that the run asked for.
#[derive(Debug, Clone, Copy, PartialEq, Eq, Structural)]
pub enum Event {
    EmbeddingSucceeded,
    EmbeddingFailed,
    StoreSucceeded,
    StoreFailed,
    LedgerPersisted,
    LedgerWriteFailed,
}

/// The state of a run.
pub ghost struct RunView {
    /// The ledger's rows.
    pub ledger: Seq<RowView>,
    /// The identities known to be in the store.
    pub keys: Set<Seq<char>>,
    /// The items to embed, in discovery order.
    pub queue: Seq<ChunkView>,
    /// Largest number of items in a batch.
    pub batch_size: nat,
    /// Number of queued items whose batch has been dealt with.
    pub settled: nat,
    pub phase: Phase,
    /// Number of batches committed.
    pub committed: nat,
    /// Number of batches that failed.
    pub failed: nat,
}

/// The phase in which a run with `settled` of `total` items dealt with
/// turns to its next batch.
pub open spec fn onward(settled: nat, total: nat) -> Phase {
    if settled < total {
        Phase::Embedding
    } else {
        Phase::Finished
    }
}

/// The state in which a run starts: the ledger is checked against the
/// store's keys, every discovered item gets a row, and the new items are
/// queued.
pub open spec fn started(
    rows: Seq<RowView>,
    keys: Set<Seq<char>>,
    items: Seq<ChunkView>,
    batch_size: nat,
) -> RunView {
    let ledger = recorded_all(reconciled(rows, keys), items);
    let queue = pending(items, ledger, keys);
    RunView {
        ledger,
        keys,
        queue,
        batch_size,
        settled: 0,
        phase: onward(0, queue.len()),
        committed: 0,
        failed: 0,
    }
}

/// Index after the last item of the current batch.
pub open spec fn batch_end(s: RunView) -> nat {
    if s.settled + s.batch_size <= s.queue.len() {
        s.settled + s.batch_size
    } else {
        s.queue.len()
    }
}

/// The items of the current batch.
pub open spec fn current_batch(s: RunView) -> Seq<ChunkView> {
    s.queue.subrange(s.settled as int, batch_end(s) as int)
}

/// Whether `e` answers what the run is waiting for.
pub open spec fn accepts(s: RunView, e: Event) -> bool {
    match s.phase {
        Phase::Embedding => e == Event::EmbeddingSucceeded || e == Event::EmbeddingFailed,
        Phase::Storing => e == Event::StoreSucceeded || e == Event::StoreFailed,
        Phase::Persisting => e == Event::LedgerPersisted || e == Event::LedgerWriteFailed,
        Phase::Finished => false,
        Phase::Halted => false,
    }
}

/// The run after the current batch was given up: nothing is committed.
pub open spec fn abandoned(s: RunView) -> RunView {
    RunView {
        settled: batch_end(s),
        phase: onward(batch_end(s), s.queue.len()),
        failed: s.failed + 1,
        ..s
    }
}

/// The run after the current batch was written to the store: every item
/// of the batch is marked processed and its identity is among the keys.
pub open spec fn committed(s: RunView) -> RunView {
    RunView {
        ledger: marked_all(s.ledger, ids_of(current_batch(s))),
        keys: inserted_all(s.keys, ids_of(current_batch(s))),
        settled: batch_end(s),
        phase: Phase::Persisting,
        committed: s.committed + 1,
        ..s
    }
}

/// The run after event `e`. An event that the run is not waiting for
/// changes nothing.
pub open spec fn step(s: RunView, e: Event) -> RunView {
    if !accepts(s, e) {
        s
    } else {
        match e {
            Event::EmbeddingSucceeded => RunView { phase: Phase::Storing, ..s },
            Event::EmbeddingFailed => abandoned(s),
            Event::StoreSucceeded => committed(s),
            Event::StoreFailed => abandoned(s),
            Event::LedgerPersisted => RunView {
                phase: onward(s.settled, s.queue.len()),
                ..s
            },
            Event::LedgerWriteFailed => RunView { phase: Phase::Halted, ..s },
        }
    }
}

/// The run after the events of `events`, in order.
pub open spec fn run(s: RunView, events: Seq<Event>) -> RunView
    decreases events.len(),
{
    if events.len() == 0 {
        s
    } else {
        step(run(s, events.drop_last()), events.last())
    }
}

/// What holds of every state of a run.
pub open spec fn valid(s: RunView) -> bool {
    &&& s.batch_size > 0
    &&& s.settled <= s.queue.len()
    &&& s.committed + s.failed <= s.settled
    &&& distinct(s.ledger)
    &&& consistent(s.ledger, s.keys)
    &&& distinct_items(s.queue)
    &&& forall|i: int| 0 <= i < s.queue.len() ==> has_row(s.ledger, (#[trigger] s.queue[i]).id)
    &&& forall|i: int|
        s.settled <= i < s.queue.len() ==> is_new(s.ledger, s.keys, (#[trigger] s.queue[i]).id)
    &&& s.failed == 0 ==> forall|i: int|
        0 <= i < s.settled ==> s.keys.contains((#[trigger] s.queue[i]).id) && is_processed(
            s.ledger,
            s.queue[i].id,
        )
    &&& (s.phase == Phase::Embedding || s.phase == Phase::Storing) ==> s.settled < s.queue.len()
    &&& s.phase == Phase::Finished ==> s.settled == s.queue.len()
}

} // verus!
