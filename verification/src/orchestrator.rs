//! The batch embedding orchestrator. It decides; the caller acts: the
//! caller asks which request is due, performs it against the embedding
//! service, the vector store or the ledger file, and reports the outcome.
//! Nothing is marked processed before the store has confirmed the write of
//! the whole batch.

use vstd::prelude::*;
use crate::chunker::{chunk_views, ChunkView, CodeChunk};
use crate::ledger::{marked_all, Ledger};
use crate::run_laws::{lemma_started_valid, lemma_step_valid};
use crate::run_model::{
    abandoned, accepts, batch_end, committed, current_batch, ids_of, inserted_all, listed, onward,
    pending, started, step, valid, Event, Phase, RunView,
};
use crate::store::StoreKeys;
use crate::text::same_text;

verus! {

/// Number of items in a batch unless the caller chooses another.
pub const DEFAULT_BATCH_SIZE: usize = 50;

/// What the caller has to do next.
#[derive(Debug, PartialEq, Eq)]
pub enum Action {
    /// Embed these items in one request; report `EmbeddingSucceeded` or
    /// `EmbeddingFailed`.
    Embed(Vec<CodeChunk>),
    /// Write the embeddings of these items to the store as one unit;
    /// report `StoreSucceeded` or `StoreFailed`.
    Store(Vec<CodeChunk>),
    /// Write the ledger out; report `LedgerPersisted` or
    /// `LedgerWriteFailed`.
    PersistLedger,
    /// The run is complete.
    Done,
    /// The ledger could not be written: stop, and report the failure.
    Abort,
}

/// Whether `found` holds an item with the identity `id`.
fn holds(found: &Vec<CodeChunk>, id: &str) -> (b: bool)
    ensures
        b == listed(chunk_views(found@), id@),
{
    let mut i: usize = 0;
    while i < found.len()
        invariant
            i <= found.len(),
            forall|j: int| 0 <= j < i ==> (#[trigger] chunk_views(found@)[j]).id != id@,
        decreases found.len() - i,
    {
        assert(chunk_views(found@)[i as int] == found[i as int]@);
        if same_text(found[i].id.as_str(), id) {
            return true;
        }
        i += 1;
    }
    false
}

/// Selects the items that have to be embedded: those whose identity is
/// neither among the store's keys nor marked processed in the ledger, in
/// the order of `items`, each identity once.
pub fn select_pending(items: &Vec<CodeChunk>, ledger: &Ledger, keys: &StoreKeys) -> (queue: Vec<
    CodeChunk,
>)
    requires
        ledger.wf(),
    ensures
        chunk_views(queue@) == pending(chunk_views(items@), ledger@, keys@),
{
    let mut queue: Vec<CodeChunk> = Vec::new();
    let ghost all = chunk_views(items@);
    let mut i: usize = 0;
    assert(all.subrange(0, 0) =~= Seq::<ChunkView>::empty());
    assert(chunk_views(queue@) =~= Seq::<ChunkView>::empty());
    while i < items.len()
        invariant
            i <= items.len(),
            ledger.wf(),
            all == chunk_views(items@),
            chunk_views(queue@) == pending(all.subrange(0, i as int), ledger@, keys@),
        decreases items.len() - i,
    {
        let item = &items[i];
        proof {
            let upto = all.subrange(0, i + 1);
            assert(upto.drop_last() == all.subrange(0, i as int));
            assert(upto.last() == item@);
        }
        let id = item.id.as_str();
        if !keys.contains(id) && !ledger.lookup(id) && !holds(&queue, id) {
            let ghost before = chunk_views(queue@);
            queue.push(item.clone());
            assert(chunk_views(queue@) =~= before.push(item@));
        }
        i += 1;
    }
    assert(all.subrange(0, items.len() as int) == all);
    queue
}

/// One run of the pipeline over the items that were discovered.
#[derive(Debug)]
pub struct Orchestrator {
    ledger: Ledger,
    keys: StoreKeys,
    queue: Vec<CodeChunk>,
    batch_size: usize,
    settled: usize,
    phase: Phase,
    committed: usize,
    failed: usize,
}

impl View for Orchestrator {
    type V = RunView;

    closed spec fn view(&self) -> RunView {
        RunView {
            ledger: self.ledger@,
            keys: self.keys@,
            queue: chunk_views(self.queue@),
            batch_size: self.batch_size as nat,
            settled: self.settled as nat,
            phase: self.phase,
            committed: self.committed as nat,
            failed: self.failed as nat,
        }
    }
}

impl Orchestrator {
    /// The state is one that a run can be in.
    pub closed spec fn wf(&self) -> bool {
        valid(self@) && self.keys.wf()
    }

    /// A well-formed run is in a valid state.
    pub proof fn lemma_wf(&self)
        requires
            self.wf(),
        ensures
            valid(self@),
    {
    }

    /// Starts a run: checks the ledger against the store's keys, gives
    /// every discovered item a row, and queues the items that have to be
    /// embedded. A batch size of zero is refused.
    pub fn begin(ledger: Ledger, keys: StoreKeys, discovered: &Vec<CodeChunk>, batch_size: usize) -> (run:
        Option<Orchestrator>)
        requires
            ledger.wf(),
            keys.wf(),
        ensures
            run is None <==> batch_size == 0,
            match run {
                Some(o) => o@ == started(
                    ledger@,
                    keys@,
                    chunk_views(discovered@),
                    batch_size as nat,
                ) && o.wf(),
                None => true,
            },
    {
        if batch_size == 0 {
            return None;
        }
        let mut ledger = ledger;
        let ghost rows = ledger@;
        let ghost items = chunk_views(discovered@);
        let _ = ledger.reconcile(&keys);
        ledger.record_all(discovered);
        let queue = select_pending(discovered, &ledger, &keys);
        let phase = if queue.len() > 0 {
            Phase::Embedding
        } else {
            Phase::Finished
        };
        let run = Orchestrator {
            ledger,
            keys,
            queue,
            batch_size,
            settled: 0,
            phase,
            committed: 0,
            failed: 0,
        };
        proof {
            lemma_started_valid(rows, keys@, items, batch_size as nat);
            assert(run@ == started(rows, keys@, items, batch_size as nat));
        }
        Some(run)
    }

    /// The ledger as the run has it now.
    pub fn ledger(&self) -> (ledger: &Ledger)
        requires
            self.wf(),
        ensures
            ledger@ == self@.ledger,
            ledger.wf(),
    {
        &self.ledger
    }

    /// The identities that the store is known to hold.
    pub fn keys(&self) -> (keys: &StoreKeys)
        requires
            self.wf(),
        ensures
            keys@ == self@.keys,
            keys.wf(),
    {
        &self.keys
    }

    /// Where the run stands.
    pub fn phase(&self) -> (phase: Phase)
        ensures
            phase == self@.phase,
    {
        self.phase
    }

    /// Number of items that were queued when the run started.
    pub fn queued(&self) -> (n: usize)
        ensures
            n == self@.queue.len(),
    {
        self.queue.len()
    }

    /// Number of batches committed so far.
    pub fn committed(&self) -> (n: usize)
        ensures
            n == self@.committed,
    {
        self.committed
    }

    /// Number of batches that failed so far.
    pub fn failed(&self) -> (n: usize)
        ensures
            n == self@.failed,
    {
        self.failed
    }

    /// Ends the run and hands back the ledger and the keys.
    pub fn into_parts(self) -> (parts: (Ledger, StoreKeys))
        requires
            self.wf(),
        ensures
            parts.0@ == self@.ledger,
            parts.1@ == self@.keys,
            parts.0.wf(),
            parts.1.wf(),
    {
        (self.ledger, self.keys)
    }

    fn end_of_batch(&self) -> (end: usize)
        requires
            self.wf(),
        ensures
            end == batch_end(self@),
            self.settled <= end <= self.queue.len(),
    {
        if self.queue.len() - self.settled >= self.batch_size {
            self.settled + self.batch_size
        } else {
            self.queue.len()
        }
    }

    fn batch(&self) -> (items: Vec<CodeChunk>)
        requires
            self.wf(),
        ensures
            chunk_views(items@) == current_batch(self@),
    {
        let end = self.end_of_batch();
        let mut items: Vec<CodeChunk> = Vec::new();
        let mut i: usize = self.settled;
        while i < end
            invariant
                self.settled <= i <= end <= self.queue.len(),
                items.len() == i - self.settled,
                forall|j: int|
                    0 <= j < items.len() ==> (#[trigger] items[j])@ == self.queue[self.settled + j]@,
            decreases end - i,
        {
            items.push(self.queue[i].clone());
            i += 1;
        }
        assert(chunk_views(items@) =~= current_batch(self@));
        items
    }

    /// The request that is due. While a batch is in the making it is the
    /// batch's embedding and then its write to the store; after a commit
    /// it is the ledger's write.
    pub fn action(&self) -> (action: Action)
        requires
            self.wf(),
        ensures
            match action {
                Action::Embed(items) => self@.phase == Phase::Embedding && chunk_views(items@)
                    == current_batch(self@),
                Action::Store(items) => self@.phase == Phase::Storing && chunk_views(items@)
                    == current_batch(self@),
                Action::PersistLedger => self@.phase == Phase::Persisting,
                Action::Done => self@.phase == Phase::Finished,
                Action::Abort => self@.phase == Phase::Halted,
            },
    {
        match self.phase {
            Phase::Embedding => Action::Embed(self.batch()),
            Phase::Storing => Action::Store(self.batch()),
            Phase::Persisting => Action::PersistLedger,
            Phase::Finished => Action::Done,
            Phase::Halted => Action::Abort,
        }
    }

    fn turn_onward(&mut self)
        ensures
            final(self).phase == onward(old(self).settled as nat, old(self).queue@.len()),
            final(self).ledger == old(self).ledger,
            final(self).keys == old(self).keys,
            final(self).queue == old(self).queue,
            final(self).batch_size == old(self).batch_size,
            final(self).settled == old(self).settled,
            final(self).committed == old(self).committed,
            final(self).failed == old(self).failed,
    {
        if self.settled < self.queue.len() {
            self.phase = Phase::Embedding;
        } else {
            self.phase = Phase::Finished;
        }
    }

    fn abandon(&mut self)
        requires
            old(self).wf(),
            old(self)@.phase == Phase::Embedding || old(self)@.phase == Phase::Storing,
        ensures
            final(self)@ == abandoned(old(self)@),
            final(self).keys == old(self).keys,
    {
        let end = self.end_of_batch();
        self.settled = end;
        self.failed = self.failed + 1;
        self.turn_onward();
    }

    fn commit(&mut self)
        requires
            old(self).wf(),
            old(self)@.phase == Phase::Storing,
        ensures
            final(self)@ == committed(old(self)@),
            final(self).keys.wf(),
    {
        let end = self.end_of_batch();
        let ghost before = self@;
        let ghost ids = ids_of(current_batch(before));
        let mut i: usize = self.settled;
        assert(ids.subrange(0, 0) =~= Seq::<Seq<char>>::empty());
        while i < end
            invariant
                self.settled <= i <= end <= self.queue.len(),
                end == batch_end(before),
                ids == ids_of(current_batch(before)),
                ids.len() == end - self.settled,
                self.queue == old(self).queue,
                self.batch_size == old(self).batch_size,
                self.settled == old(self).settled,
                self.phase == old(self).phase,
                self.committed == old(self).committed,
                self.failed == old(self).failed,
                before == old(self)@,
                self.ledger.wf(),
                self.keys.wf(),
                self.ledger@ == marked_all(before.ledger, ids.subrange(0, i - self.settled)),
                self.keys@ == inserted_all(before.keys, ids.subrange(0, i - self.settled)),
            decreases end - i,
        {
            proof {
                let k = i - self.settled;
                let upto = ids.subrange(0, k + 1);
                assert(upto.drop_last() == ids.subrange(0, k));
                assert(current_batch(before)[k] == before.queue[i as int]);
                assert(upto.last() == self.queue[i as int]@.id);
            }
            let _ = self.ledger.mark_processed(self.queue[i].id.as_str());
            self.keys.insert(self.queue[i].id.as_str());
            i += 1;
        }
        assert(ids.subrange(0, ids.len() as int) == ids);
        self.settled = end;
        self.committed = self.committed + 1;
        self.phase = Phase::Persisting;
    }

    /// Takes the outcome of the request that was due. An event that the
    /// run is not waiting for is refused and changes nothing. A failed
    /// embedding or store write gives the batch up and leaves the ledger
    /// as it was; a store write that succeeded marks every item of the
    /// batch processed; a failed ledger write halts the run.
    pub fn handle(&mut self, event: Event) -> (accepted: bool)
        requires
            old(self).wf(),
        ensures
            final(self)@ == step(old(self)@, event),
            accepted == accepts(old(self)@, event),
            final(self).wf(),
    {
        proof {
            lemma_step_valid(self@, event);
        }
        match self.phase {
            Phase::Embedding => match event {
                Event::EmbeddingSucceeded => {
                    self.phase = Phase::Storing;
                    true
                },
                Event::EmbeddingFailed => {
                    self.abandon();
                    true
                },
                _ => false,
            },
            Phase::Storing => match event {
                Event::StoreSucceeded => {
                    self.commit();
                    true
                },
                Event::StoreFailed => {
                    self.abandon();
                    true
                },
                _ => false,
            },
            Phase::Persisting => match event {
                Event::LedgerPersisted => {
                    self.turn_onward();
                    true
                },
                Event::LedgerWriteFailed => {
                    self.phase = Phase::Halted;
                    true
                },
                _ => false,
            },
            Phase::Finished => false,
            Phase::Halted => false,
        }
    }
}

} // verus!
