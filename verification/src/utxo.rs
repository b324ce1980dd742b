//! The set of unspent outputs, filed by their `txid:index` keys.
use vstd::prelude::*;
use vstd::string::*;
use crate::keyed::{has_key, keys_distinct, lemma_map_of_at, lemma_map_of_push, lemma_map_of_remove, lemma_map_of_update, map_of};
use crate::transaction::{OutputView, TxOutput};

verus! {

/// Entries as plain values: a key and the output filed under it.
pub open spec fn entries_view(entries: Seq<(String, TxOutput)>) -> Seq<(Seq<char>, OutputView)> {
    entries.map_values(|e: (String, TxOutput)| (e.0@, e.1@))
}

/// The unspent outputs, each filed under its key; no key is filed twice.
#[derive(Debug)]
pub struct UtxoSet {
    entries: Vec<(String, TxOutput)>,
}

impl View for UtxoSet {
    type V = Map<Seq<char>, OutputView>;

    closed spec fn view(&self) -> Map<Seq<char>, OutputView> {
        map_of(entries_view(self.entries@))
    }
}

impl UtxoSet {
    /// No key is filed twice.
    #[verifier::type_invariant]
    closed spec fn distinct(self) -> bool {
        keys_distinct(entries_view(self.entries@))
    }

    /// The entries, in the order in which they are kept.
    pub closed spec fn listing(self) -> Seq<(Seq<char>, OutputView)> {
        entries_view(self.entries@)
    }

    /// An empty set.
    pub fn new() -> (set: Self)
        ensures
            set@ == Map::<Seq<char>, OutputView>::empty(),
    {
        let set = UtxoSet { entries: Vec::new() };
        assert(set@ =~= Map::<Seq<char>, OutputView>::empty());
        set
    }

    fn find(&self, key: &str) -> (found: Option<usize>)
        ensures
            match found {
                Some(i) => i < self.entries@.len() && self.entries@[i as int].0@ == key@,
                None => !has_key(entries_view(self.entries@), key@),
            },
    {
        let wanted = String::from_str(key);
        for i in 0..self.entries.len()
            invariant
                wanted@ == key@,
                forall|j: int| 0 <= j < i ==> self.entries@[j].0@ != key@,
        {
            if self.entries[i].0 == wanted {
                return Some(i);
            }
        }
        proof {
            let ev = entries_view(self.entries@);
            if has_key(ev, key@) {
                let j = choose|j: int| 0 <= j < ev.len() && #[trigger] ev[j].0 == key@;
                assert(self.entries@[j].0@ == key@);
            }
        }
        None
    }

    /// The output filed under `key`, if any.
    pub fn get(&self, key: &str) -> (output: Option<&TxOutput>)
        ensures
            match output {
                Some(o) => self@.contains_key(key@) && self@[key@] == o@,
                None => !self@.contains_key(key@),
            },
    {
        proof {
            use_type_invariant(self);
        }
        match self.find(key) {
            Some(i) => {
                proof {
                    lemma_map_of_at(entries_view(self.entries@), i as int);
                }
                Some(&self.entries[i].1)
            },
            None => None,
        }
    }

    /// Files `output` under `key`, replacing what was filed there.
    pub fn insert(&mut self, key: String, output: TxOutput)
        ensures
            final(self)@ == old(self)@.insert(key@, output@),
    {
        proof {
            use_type_invariant(&*self);
        }
        let ghost ev = entries_view(self.entries@);
        match self.find(key.as_str()) {
            Some(i) => {
                proof {
                    lemma_map_of_update(ev, i as int, output@);
                }
                let mut entries: Vec<(String, TxOutput)> = Vec::new();
                std::mem::swap(&mut entries, &mut self.entries);
                entries.set(i, (key, output));
                assert(entries_view(entries@) =~= ev.update(i as int, (ev[i as int].0, output@)));
                self.entries = entries;
            },
            None => {
                proof {
                    lemma_map_of_push(ev, key@, output@);
                }
                let mut entries: Vec<(String, TxOutput)> = Vec::new();
                std::mem::swap(&mut entries, &mut self.entries);
                entries.push((key, output));
                assert(entries_view(entries@) =~= ev.push((key@, output@)));
                self.entries = entries;
            },
        }
    }

    /// Removes what is filed under `key`, if anything.
    pub fn remove(&mut self, key: &str)
        ensures
            final(self)@ == old(self)@.remove(key@),
    {
        proof {
            use_type_invariant(&*self);
        }
        let ghost ev = entries_view(self.entries@);
        match self.find(key) {
            Some(i) => {
                proof {
                    lemma_map_of_remove(ev, i as int);
                }
                let mut entries: Vec<(String, TxOutput)> = Vec::new();
                std::mem::swap(&mut entries, &mut self.entries);
                entries.remove(i);
                assert(entries_view(entries@) =~= ev.remove(i as int));
                self.entries = entries;
            },
            None => {
                assert(old(self)@.remove(key@) =~= old(self)@);
            },
        }
    }

    /// Removes every entry.
    pub fn clear(&mut self)
        ensures
            final(self)@ == Map::<Seq<char>, OutputView>::empty(),
    {
        self.entries = Vec::new();
        assert(map_of(entries_view(self.entries@)) =~= Map::<Seq<char>, OutputView>::empty());
    }

    /// The entries, in the order in which they are kept.
    pub fn entries(&self) -> (list: &Vec<(String, TxOutput)>)
        ensures
            entries_view(list@) == self.listing(),
            keys_distinct(self.listing()),
            forall|i: int| 0 <= i < self.listing().len() ==> #[trigger] self@.contains_key(self.listing()[i].0)
                && self@[self.listing()[i].0] == self.listing()[i].1,
            forall|k: Seq<char>| #[trigger] self@.contains_key(k) <==> has_key(self.listing(), k),
    {
        proof {
            use_type_invariant(self);
            let ev = entries_view(self.entries@);
            assert forall|i: int| 0 <= i < ev.len() implies #[trigger] self@.contains_key(ev[i].0)
                && self@[ev[i].0] == ev[i].1 by {
                lemma_map_of_at(ev, i);
            }
        }
        &self.entries
    }

    /// A copy of the set.
    pub fn duplicate(&self) -> (copy: Self)
        ensures
            copy@ == self@,
    {
        proof {
            use_type_invariant(self);
        }
        let mut entries: Vec<(String, TxOutput)> = Vec::new();
        for i in 0..self.entries.len()
            invariant
                entries@.len() == i,
                entries_view(entries@) == entries_view(self.entries@).subrange(0, i as int),
        {
            let e = &self.entries[i];
            let ghost prev = entries@;
            let item = (e.0.clone(), e.1.duplicate());
            entries.push(item);
            assert forall|k: int| 0 <= k < i + 1 implies #[trigger] entries_view(entries@)[k] == entries_view(self.entries@)[k] by {
                if k < i {
                    assert(entries@[k] == prev[k]);
                    assert(entries_view(prev)[k] == entries_view(self.entries@).subrange(0, i as int)[k]);
                }
            }
            assert(entries_view(entries@) =~= entries_view(self.entries@).subrange(0, i + 1));
        }
        assert(entries_view(self.entries@).subrange(0, self.entries@.len() as int) =~= entries_view(self.entries@));
        UtxoSet { entries }
    }

    /// The entries whose output pays `address`, each once.
    pub fn owned_by(&self, address: &str) -> (owned: Vec<(String, TxOutput)>)
        ensures
            keys_distinct(entries_view(owned@)),
            forall|i: int| 0 <= i < owned@.len() ==> #[trigger] self@.contains_key(owned@[i].0@)
                && self@[owned@[i].0@] == owned@[i].1@ && owned@[i].1.address@ == address@,
            forall|k: Seq<char>| #[trigger] self@.contains_key(k) && self@[k].address == address@
                ==> has_key(entries_view(owned@), k),
    {
        proof {
            use_type_invariant(self);
        }
        let ghost ev = entries_view(self.entries@);
        let wanted = String::from_str(address);
        let mut owned: Vec<(String, TxOutput)> = Vec::new();
        let ghost mut origin: Seq<int> = Seq::empty();
        let n = self.entries.len();
        let mut i: usize = 0;
        while i < n
            invariant
                i <= n,
                n == self.entries@.len(),
                wanted@ == address@,
                ev == entries_view(self.entries@),
                ev.len() == n,
                keys_distinct(ev),
                origin.len() == owned@.len(),
                forall|j: int| 0 <= j < owned@.len() ==> 0 <= #[trigger] origin[j] < i
                    && ev[origin[j]] == entries_view(owned@)[j],
                forall|j: int, k: int| 0 <= j < k < owned@.len() ==> #[trigger] origin[j] < #[trigger] origin[k],
                forall|j: int| 0 <= j < owned@.len() ==> #[trigger] owned@[j].1.address@ == address@,
                forall|a: int| 0 <= a < i && #[trigger] ev[a].1.address == address@ ==> has_key(entries_view(owned@), ev[a].0),
            decreases n - i,
        {
            let e = &self.entries[i];
            if e.1.address == wanted {
                let ghost prev = owned@;
                let item = (e.0.clone(), e.1.duplicate());
                owned.push(item);
                proof {
                    origin = origin.push(i as int);
                }
                assert(entries_view(owned@) =~= entries_view(prev).push(ev[i as int]));
                assert forall|a: int| 0 <= a < i + 1 && #[trigger] ev[a].1.address == address@ implies has_key(entries_view(owned@), ev[a].0) by {
                    if a < i {
                        let j = choose|j: int| 0 <= j < entries_view(prev).len() && #[trigger] entries_view(prev)[j].0 == ev[a].0;
                        assert(entries_view(owned@)[j].0 == ev[a].0);
                    } else {
                        assert(entries_view(owned@)[prev.len() as int].0 == ev[a].0);
                    }
                }
            }
            i = i + 1;
        }
        proof {
            assert forall|x: int, y: int| #![trigger entries_view(owned@)[x], entries_view(owned@)[y]] 0 <= x < y < entries_view(owned@).len() implies entries_view(owned@)[x].0 != entries_view(owned@)[y].0 by {
                assert(origin[x] < origin[y]);
                assert(ev[origin[x]].0 != ev[origin[y]].0);
            }
            assert forall|j: int| 0 <= j < owned@.len() implies #[trigger] self@.contains_key(owned@[j].0@)
                && self@[owned@[j].0@] == owned@[j].1@ by {
                assert(ev[origin[j]] == entries_view(owned@)[j]);
                lemma_map_of_at(ev, origin[j]);
            }
            assert forall|k: Seq<char>| #[trigger] self@.contains_key(k) && self@[k].address == address@
                implies has_key(entries_view(owned@), k) by {
                let a = choose|a: int| 0 <= a < ev.len() && #[trigger] ev[a].0 == k;
                lemma_map_of_at(ev, a);
            }
        }
        owned
    }
}

} // verus!
