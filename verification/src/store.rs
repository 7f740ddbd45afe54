//! The identities that the vector store holds, as far as this side knows
//! them: what the store listed at startup, and what was written to it with
//! success since. The store itself is the caller's business.

use vstd::prelude::*;
use crate::text::{same_text, views};

verus! {

/// A set of identities, each held once.
#[derive(Debug, PartialEq, Eq)]
pub struct StoreKeys {
    ids: Vec<String>,
}

impl View for StoreKeys {
    type V = Set<Seq<char>>;

    closed spec fn view(&self) -> Set<Seq<char>> {
        views(self.ids@).to_set()
    }
}

impl StoreKeys {
    /// No identity is held twice.
    pub closed spec fn wf(&self) -> bool {
        views(self.ids@).no_duplicates()
    }

    /// The set is finite, and of a well-formed value the number of held
    /// identities is its size.
    pub proof fn lemma_finite(&self)
        ensures
            self@.finite(),
            self.wf() ==> self@.len() == self.spec_len(),
    {
        let s = views(self.ids@);
        vstd::seq_lib::seq_to_set_is_finite(s);
        if self.wf() {
            s.unique_seq_to_set();
        }
    }

    /// Number of identities held.
    pub closed spec fn spec_len(&self) -> nat {
        self.ids@.len()
    }

    /// No identities.
    pub fn new() -> (keys: StoreKeys)
        ensures
            keys@ == Set::<Seq<char>>::empty(),
            keys.wf(),
    {
        let keys = StoreKeys { ids: Vec::new() };
        assert(views(keys.ids@) =~= Seq::<Seq<char>>::empty());
        assert(keys@ =~= Set::<Seq<char>>::empty());
        keys
    }

    /// The identities of `ids`, each once.
    pub fn from_ids(ids: &Vec<String>) -> (keys: StoreKeys)
        ensures
            keys@ == views(ids@).to_set(),
            keys.wf(),
    {
        let mut keys = StoreKeys::new();
        let mut i: usize = 0;
        while i < ids.len()
            invariant
                i <= ids.len(),
                keys.wf(),
                keys@ == views(ids@).subrange(0, i as int).to_set(),
            decreases ids.len() - i,
        {
            proof {
                let upto = views(ids@).subrange(0, i + 1);
                let before = views(ids@).subrange(0, i as int);
                assert(upto == before.push(ids[i as int]@));
                assert(upto.to_set() =~= before.to_set().insert(ids[i as int]@)) by {
                    assert forall|x: Seq<char>| upto.to_set().contains(x) implies before.to_set().insert(
                        ids[i as int]@,
                    ).contains(x) by {
                        let k = choose|k: int| 0 <= k < upto.len() && upto[k] == x;
                        if k < i {
                            assert(before[k] == x);
                        }
                    }
                    assert forall|x: Seq<char>|
                        before.to_set().insert(ids[i as int]@).contains(
                            x,
                        ) implies upto.to_set().contains(x) by {
                        if x == ids[i as int]@ {
                            assert(upto[i as int] == x);
                        } else {
                            let k = choose|k: int| 0 <= k < before.len() && before[k] == x;
                            assert(upto[k] == x);
                        }
                    }
                }
            }
            keys.insert(ids[i].as_str());
            i += 1;
        }
        assert(views(ids@).subrange(0, ids.len() as int) == views(ids@));
        keys
    }

    /// Number of identities held.
    pub fn len(&self) -> (n: usize)
        requires
            self.wf(),
        ensures
            n == self@.len(),
    {
        proof {
            self.lemma_finite();
        }
        self.ids.len()
    }

    /// Whether `id` is held.
    pub fn contains(&self, id: &str) -> (b: bool)
        ensures
            b == self@.contains(id@),
    {
        let mut i: usize = 0;
        while i < self.ids.len()
            invariant
                i <= self.ids.len(),
                forall|j: int| 0 <= j < i ==> (#[trigger] views(self.ids@)[j]) != id@,
            decreases self.ids.len() - i,
        {
            assert(views(self.ids@)[i as int] == self.ids[i as int]@);
            if same_text(self.ids[i].as_str(), id) {
                return true;
            }
            i += 1;
        }
        false
    }

    /// Adds `id`. Adding an identity that is held changes nothing.
    pub fn insert(&mut self, id: &str)
        requires
            old(self).wf(),
        ensures
            final(self)@ == old(self)@.insert(id@),
            final(self).wf(),
    {
        if !self.contains(id) {
            let ghost before = views(self.ids@);
            let owned = id.to_owned();
            self.ids.push(owned);
            proof {
                let after = views(self.ids@);
                assert(after =~= before.push(id@));
                assert(after.to_set() =~= before.to_set().insert(id@)) by {
                    assert forall|x: Seq<char>| after.to_set().contains(
                        x,
                    ) implies before.to_set().insert(id@).contains(x) by {
                        let k = choose|k: int| 0 <= k < after.len() && after[k] == x;
                        if k < before.len() {
                            assert(before[k] == x);
                        }
                    }
                    assert forall|x: Seq<char>|
                        before.to_set().insert(id@).contains(x) implies after.to_set().contains(
                            x,
                        ) by {
                        if x == id@ {
                            assert(after[before.len() as int] == x);
                        } else {
                            let k = choose|k: int| 0 <= k < before.len() && before[k] == x;
                            assert(after[k] == x);
                        }
                    }
                }
                assert(!before.contains(id@));
            }
        } else {
            assert(self@ =~= self@.insert(id@));
        }
    }

    /// The identities held, each once.
    pub fn list(&self) -> (ids: Vec<String>)
        ensures
            views(ids@).to_set() == self@,
            self.wf() ==> views(ids@).no_duplicates(),
    {
        let mut ids: Vec<String> = Vec::new();
        let mut i: usize = 0;
        while i < self.ids.len()
            invariant
                i <= self.ids.len(),
                ids.len() == i,
                forall|j: int| 0 <= j < i ==> (#[trigger] ids[j])@ == self.ids[j]@,
            decreases self.ids.len() - i,
        {
            ids.push(self.ids[i].clone());
            i += 1;
        }
        assert(views(ids@) =~= views(self.ids@));
        ids
    }
}

} // verus!
