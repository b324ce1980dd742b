//! The peer-to-peer node's decisions: the peers it knows of and the heights
//! they reported, which peers to connect to, which peer to synchronize from
//! and what the node's status becomes. Peers are named by their socket
//! address written as text.
use vstd::prelude::*;
use vstd::string::*;
use crate::codec::{contains_text, texts};
use crate::keyed::{has_key, keys_distinct, lemma_map_of_at, lemma_map_of_push, lemma_map_of_remove, lemma_map_of_update, map_of};

verus! {

/// Whether the node is catching up with its peers.
#[derive(PartialEq, Eq, Structural, Clone, Copy, Debug)]
pub enum NodeStatus {
    Synchronizing,
    Synced,
}

/// The height of a chain of `len` blocks (the index of its last block).
pub fn chain_height(len: usize) -> (height: u64)
    requires
        len >= 1,
    ensures
        height == len - 1,
{
    (len - 1) as u64
}

/// One synchronization round: whether to synchronize now, the status that
/// follows, and whether a synchronization has just completed (the node was
/// synchronizing and is no longer behind).
pub fn sync_round(status: NodeStatus, our_height: u64, max_height: u64) -> (round: (bool, NodeStatus, bool))
    ensures
        round.0 == (max_height > our_height),
        round.1 == (if max_height > our_height { NodeStatus::Synchronizing } else { NodeStatus::Synced }),
        round.2 == (max_height <= our_height && status == NodeStatus::Synchronizing),
{
    if max_height > our_height {
        (true, NodeStatus::Synchronizing, false)
    } else {
        (false, NodeStatus::Synced, status == NodeStatus::Synchronizing)
    }
}

/// The next height to ask a peer for while synchronizing from it: past the
/// blocks it has just sent, or none (synchronization stops) when it sent none.
pub fn next_sync_height(next_height: u64, received: usize) -> (next: Option<u64>)
    requires
        next_height + received <= u64::MAX,
    ensures
        received == 0 ==> next is None,
        received > 0 ==> next == Some((next_height + received) as u64),
{
    if received == 0 {
        None
    } else {
        Some(next_height + received as u64)
    }
}

/// Reported heights as plain values: a peer and the height it reported.
pub open spec fn height_entries(entries: Seq<(String, u64)>) -> Seq<(Seq<char>, u64)> {
    entries.map_values(|e: (String, u64)| (e.0@, e.1))
}

/// The peers a node knows of, and the chain height that each connected peer
/// last reported.
pub struct PeerTable {
    heights: Vec<(String, u64)>,
    known: Vec<String>,
}

/// A peer table as plain values.
pub struct PeerTableView {
    pub heights: Map<Seq<char>, u64>,
    pub known: Set<Seq<char>>,
}

impl View for PeerTable {
    type V = PeerTableView;

    closed spec fn view(&self) -> PeerTableView {
        PeerTableView { heights: map_of(height_entries(self.heights@)), known: texts(self.known@).to_set() }
    }
}

proof fn lemma_push_text(list: Seq<String>, s: String)
    requires
        texts(list).no_duplicates(),
        !texts(list).contains(s@),
    ensures
        texts(list.push(s)) == texts(list).push(s@),
        texts(list.push(s)).no_duplicates(),
        texts(list.push(s)).to_set() == texts(list).to_set().insert(s@),
{
    let t = texts(list);
    assert(texts(list.push(s)) =~= t.push(s@));
    let u = t.push(s@);
    assert forall|a: Seq<char>| #[trigger] u.to_set().contains(a) <==> t.to_set().insert(s@).contains(a) by {
        if u.contains(a) {
            let j = choose|j: int| 0 <= j < u.len() && u[j] == a;
            if j < t.len() {
                assert(t[j] == a);
            }
        }
        if t.contains(a) {
            let j = choose|j: int| 0 <= j < t.len() && t[j] == a;
            assert(u[j] == a);
        }
        if a == s@ {
            assert(u[t.len() as int] == a);
        }
    }
    assert(u.to_set() =~= t.to_set().insert(s@));
}

impl PeerTable {
    /// Reported heights have distinct peers, and no peer is known twice.
    #[verifier::type_invariant]
    closed spec fn distinct(self) -> bool {
        &&& keys_distinct(height_entries(self.heights@))
        &&& texts(self.known@).no_duplicates()
    }

    /// A table that knows the seed peers and has no reported heights.
    pub fn new(seeds: &Vec<String>) -> (table: Self)
        ensures
            table@.heights == Map::<Seq<char>, u64>::empty(),
            table@.known == texts(seeds@).to_set(),
    {
        let mut table = PeerTable { heights: Vec::new(), known: Vec::new() };
        assert(map_of(height_entries(table.heights@)) =~= Map::<Seq<char>, u64>::empty());
        for i in 0..seeds.len()
            invariant
                table@.heights == Map::<Seq<char>, u64>::empty(),
                table@.known == texts(seeds@.subrange(0, i as int)).to_set(),
        {
            let ghost before = texts(seeds@.subrange(0, i as int));
            table.learn(seeds[i].clone());
            let ghost after = texts(seeds@.subrange(0, i + 1));
            assert(after =~= before.push(seeds@[i as int]@));
            assert forall|a: Seq<char>| #[trigger] after.to_set().contains(a) <==> before.to_set().insert(seeds@[i as int]@).contains(a) by {
                if after.contains(a) {
                    let j = choose|j: int| 0 <= j < after.len() && after[j] == a;
                    if j < before.len() {
                        assert(before[j] == a);
                    }
                }
                if before.contains(a) {
                    let j = choose|j: int| 0 <= j < before.len() && before[j] == a;
                    assert(after[j] == a);
                }
                if a == seeds@[i as int]@ {
                    assert(after[i as int] == a);
                }
            }
            assert(after.to_set() =~= before.to_set().insert(seeds@[i as int]@));
        }
        assert(seeds@.subrange(0, seeds@.len() as int) =~= seeds@);
        table
    }

    /// Adds a peer to the known peers.
    pub fn learn(&mut self, peer: String)
        ensures
            final(self)@ == (PeerTableView { known: old(self)@.known.insert(peer@), ..old(self)@ }),
    {
        proof {
            use_type_invariant(&*self);
        }
        if contains_text(&self.known, &peer) {
            assert(old(self)@.known.insert(peer@) =~= old(self)@.known);
        } else {
            proof {
                lemma_push_text(self.known@, peer);
            }
            let mut known: Vec<String> = Vec::new();
            std::mem::swap(&mut known, &mut self.known);
            known.push(peer);
            self.known = known;
        }
    }

    /// Adds the listed peers, except the node itself, to the known peers.
    pub fn learn_peers(&mut self, peers: &Vec<String>, own: &str)
        ensures
            final(self)@ == (PeerTableView {
                known: old(self)@.known.union(texts(peers@).to_set().remove(own@)),
                ..old(self)@
            }),
    {
        let own_text = String::from_str(own);
        assert(texts(peers@.subrange(0, 0)).to_set().remove(own@) =~= Set::<Seq<char>>::empty());
        assert(old(self)@.known.union(Set::<Seq<char>>::empty()) =~= old(self)@.known);
        for i in 0..peers.len()
            invariant
                own_text@ == own@,
                self@ == (PeerTableView {
                    known: old(self)@.known.union(texts(peers@.subrange(0, i as int)).to_set().remove(own@)),
                    ..old(self)@
                }),
        {
            let ghost before = texts(peers@.subrange(0, i as int));
            let ghost after = texts(peers@.subrange(0, i + 1));
            assert(after =~= before.push(peers@[i as int]@));
            assert forall|a: Seq<char>| #[trigger] after.to_set().contains(a) <==> (before.to_set().contains(a) || a == peers@[i as int]@) by {
                if after.contains(a) {
                    let j = choose|j: int| 0 <= j < after.len() && after[j] == a;
                    if j < before.len() {
                        assert(before[j] == a);
                    }
                }
                if before.contains(a) {
                    let j = choose|j: int| 0 <= j < before.len() && before[j] == a;
                    assert(after[j] == a);
                }
                if a == peers@[i as int]@ {
                    assert(after[i as int] == a);
                }
            }
            if peers[i] != own_text {
                self.learn(peers[i].clone());
            }
            assert(self@.known =~= old(self)@.known.union(after.to_set().remove(own@)));
        }
        assert(peers@.subrange(0, peers@.len() as int) =~= peers@);
    }

    fn find_height(&self, peer: &str) -> (found: Option<usize>)
        ensures
            match found {
                Some(i) => i < self.heights@.len() && self.heights@[i as int].0@ == peer@,
                None => !has_key(height_entries(self.heights@), peer@),
            },
    {
        let wanted = String::from_str(peer);
        for i in 0..self.heights.len()
            invariant
                wanted@ == peer@,
                forall|j: int| 0 <= j < i ==> self.heights@[j].0@ != peer@,
        {
            if self.heights[i].0 == wanted {
                return Some(i);
            }
        }
        proof {
            let ev = height_entries(self.heights@);
            if has_key(ev, peer@) {
                let j = choose|j: int| 0 <= j < ev.len() && #[trigger] ev[j].0 == peer@;
                assert(self.heights@[j].0@ == peer@);
            }
        }
        None
    }

    /// Records the height a peer reported, replacing its earlier report.
    pub fn record_height(&mut self, peer: String, height: u64)
        ensures
            final(self)@ == (PeerTableView { heights: old(self)@.heights.insert(peer@, height), ..old(self)@ }),
    {
        proof {
            use_type_invariant(&*self);
        }
        let ghost ev = height_entries(self.heights@);
        match self.find_height(peer.as_str()) {
            Some(i) => {
                proof {
                    lemma_map_of_update(ev, i as int, height);
                }
                let mut heights: Vec<(String, u64)> = Vec::new();
                std::mem::swap(&mut heights, &mut self.heights);
                heights.set(i, (peer, height));
                assert(height_entries(heights@) =~= ev.update(i as int, (ev[i as int].0, height)));
                self.heights = heights;
            },
            None => {
                proof {
                    lemma_map_of_push(ev, peer@, height);
                }
                let mut heights: Vec<(String, u64)> = Vec::new();
                std::mem::swap(&mut heights, &mut self.heights);
                heights.push((peer, height));
                assert(height_entries(heights@) =~= ev.push((peer@, height)));
                self.heights = heights;
            },
        }
    }

    /// Drops the height reported by a peer that has disconnected.
    pub fn forget(&mut self, peer: &str)
        ensures
            final(self)@ == (PeerTableView { heights: old(self)@.heights.remove(peer@), ..old(self)@ }),
    {
        proof {
            use_type_invariant(&*self);
        }
        let ghost ev = height_entries(self.heights@);
        match self.find_height(peer) {
            Some(i) => {
                proof {
                    lemma_map_of_remove(ev, i as int);
                }
                let mut heights: Vec<(String, u64)> = Vec::new();
                std::mem::swap(&mut heights, &mut self.heights);
                heights.remove(i);
                assert(height_entries(heights@) =~= ev.remove(i as int));
                self.heights = heights;
            },
            None => {
                assert(old(self)@.heights.remove(peer@) =~= old(self)@.heights);
            },
        }
    }

    /// The known peers, each once.
    pub fn known_peers(&self) -> (list: Vec<String>)
        ensures
            texts(list@).no_duplicates(),
            texts(list@).to_set() == self@.known,
    {
        proof {
            use_type_invariant(self);
        }
        let mut list: Vec<String> = Vec::new();
        for i in 0..self.known.len()
            invariant
                texts(list@) == texts(self.known@).subrange(0, i as int),
        {
            let ghost prev = texts(list@);
            list.push(self.known[i].clone());
            assert(texts(list@) =~= prev.push(self.known@[i as int]@));
            assert(texts(list@) =~= texts(self.known@).subrange(0, i + 1));
        }
        assert(texts(self.known@).subrange(0, self.known@.len() as int) =~= texts(self.known@));
        list
    }

    /// The known peers to connect to: those that have not reported a height
    /// (no open connection) and are not the node itself, each once.
    pub fn peers_to_connect(&self, own: &str) -> (list: Vec<String>)
        ensures
            texts(list@).no_duplicates(),
            texts(list@).to_set() == self@.known.filter(|p: Seq<char>| !self@.heights.contains_key(p) && p != own@),
    {
        proof {
            use_type_invariant(self);
        }
        let ghost kt = texts(self.known@);
        let ghost hs = self@.heights;
        let own_text = String::from_str(own);
        let mut list: Vec<String> = Vec::new();
        let n = self.known.len();
        let mut i: usize = 0;
        while i < n
            invariant
                i <= n,
                n == self.known@.len(),
                own_text@ == own@,
                kt == texts(self.known@),
                kt.no_duplicates(),
                hs == self@.heights,
                keys_distinct(height_entries(self.heights@)),
                texts(list@).no_duplicates(),
                forall|j: int| 0 <= j < texts(list@).len() ==> exists|a: int| 0 <= a < i && kt[a] == #[trigger] texts(list@)[j],
                forall|j: int| 0 <= j < texts(list@).len() ==> !hs.contains_key(#[trigger] texts(list@)[j]) && texts(list@)[j] != own@,
                forall|a: int| 0 <= a < i && !hs.contains_key(#[trigger] kt[a]) && kt[a] != own@ ==> texts(list@).contains(kt[a]),
            decreases n - i,
        {
            let peer = &self.known[i];
            assert(kt[i as int] == peer@);
            let found = self.find_height(peer.as_str());
            let reported = found.is_some();
            proof {
                match found {
                    Some(idx) => {
                        lemma_map_of_at(height_entries(self.heights@), idx as int);
                        assert(height_entries(self.heights@)[idx as int].0 == peer@);
                    },
                    None => {
                        assert(!hs.contains_key(peer@));
                    },
                }
            }
            if !reported && *peer != own_text {
                let ghost prev = texts(list@);
                proof {
                    if prev.contains(peer@) {
                        let j = choose|j: int| 0 <= j < prev.len() && prev[j] == peer@;
                        let a = choose|a: int| 0 <= a < i && kt[a] == prev[j];
                        assert(kt[a] == kt[i as int]);
                    }
                    lemma_push_text(list@, *peer);
                }
                list.push(peer.clone());
                assert forall|j: int| 0 <= j < texts(list@).len() implies exists|a: int| 0 <= a < i + 1 && kt[a] == #[trigger] texts(list@)[j] by {
                    if j < prev.len() {
                        assert(texts(list@)[j] == prev[j]);
                        let a = choose|a: int| 0 <= a < i && kt[a] == prev[j];
                        assert(0 <= a < i + 1 && kt[a] == texts(list@)[j]);
                    } else {
                        assert(kt[i as int] == texts(list@)[j]);
                    }
                }
                assert forall|a: int| 0 <= a < i + 1 && !hs.contains_key(#[trigger] kt[a]) && kt[a] != own@ implies texts(list@).contains(kt[a]) by {
                    if a < i {
                        let j = choose|j: int| 0 <= j < prev.len() && prev[j] == kt[a];
                        assert(texts(list@)[j] == kt[a]);
                    } else {
                        assert(texts(list@)[prev.len() as int] == kt[a]);
                    }
                }
            } else {
                assert(reported ==> hs.contains_key(kt[i as int]));
                assert forall|j: int| 0 <= j < texts(list@).len() implies exists|a: int| 0 <= a < i + 1 && kt[a] == #[trigger] texts(list@)[j] by {
                    let a = choose|a: int| 0 <= a < i && kt[a] == texts(list@)[j];
                    assert(0 <= a < i + 1 && kt[a] == texts(list@)[j]);
                }
            }
            i = i + 1;
        }
        proof {
            let goal = self@.known.filter(|p: Seq<char>| !self@.heights.contains_key(p) && p != own@);
            let lt = texts(list@);
            assert forall|p: Seq<char>| #[trigger] lt.to_set().contains(p) <==> goal.contains(p) by {
                if lt.contains(p) {
                    let j = choose|j: int| 0 <= j < lt.len() && lt[j] == p;
                    let a = choose|a: int| 0 <= a < n && kt[a] == #[trigger] lt[j];
                    assert(kt.contains(p));
                }
                if goal.contains(p) {
                    let a = choose|a: int| 0 <= a < kt.len() && kt[a] == p;
                    assert(!hs.contains_key(kt[a]) && kt[a] != own@);
                }
            }
            assert(lt.to_set() =~= goal);
        }
        list
    }

    /// The peer to synchronize from: one that reported the greatest height,
    /// and that height; none and 0 when no peer has reported.
    pub fn find_best_sync_peer(&self) -> (best: (Option<String>, u64))
        ensures
            self@.heights.dom() == Set::<Seq<char>>::empty() ==> best.0 is None && best.1 == 0,
            self@.heights.dom() != Set::<Seq<char>>::empty() ==> (best.0 matches Some(p)
                && self@.heights.contains_key(p@) && self@.heights[p@] == best.1
                && forall|k: Seq<char>| #[trigger] self@.heights.contains_key(k) ==> self@.heights[k] <= best.1),
    {
        proof {
            use_type_invariant(self);
        }
        let ghost ev = height_entries(self.heights@);
        if self.heights.len() == 0 {
            assert(self@.heights.dom() =~= Set::<Seq<char>>::empty());
            return (None, 0);
        }
        let mut best: usize = 0;
        let mut i: usize = 1;
        while i < self.heights.len()
            invariant
                1 <= i <= self.heights@.len(),
                ev == height_entries(self.heights@),
                best < i,
                forall|k: int| 0 <= k < i ==> #[trigger] ev[k].1 <= ev[best as int].1,
            decreases self.heights@.len() - i,
        {
            if self.heights[i].1 >= self.heights[best].1 {
                best = i;
            }
            i = i + 1;
        }
        proof {
            lemma_map_of_at(ev, best as int);
            assert(self@.heights.contains_key(ev[best as int].0));
            assert forall|k: Seq<char>| #[trigger] self@.heights.contains_key(k) implies self@.heights[k] <= ev[best as int].1 by {
                let a = choose|a: int| 0 <= a < ev.len() && #[trigger] ev[a].0 == k;
                lemma_map_of_at(ev, a);
            }
        }
        (Some(self.heights[best].0.clone()), self.heights[best].1)
    }
}

} // verus!
