//! Lists of keyed entries, with no key twice, and the maps they stand for.
use vstd::prelude::*;

verus! {

/// No key occurs twice.
pub open spec fn keys_distinct<V>(ev: Seq<(Seq<char>, V)>) -> bool {
    forall|i: int, j: int| #![trigger ev[i], ev[j]] 0 <= i < j < ev.len() ==> ev[i].0 != ev[j].0
}

/// Whether `k` is the key of some entry.
pub open spec fn has_key<V>(ev: Seq<(Seq<char>, V)>, k: Seq<char>) -> bool {
    exists|i: int| 0 <= i < ev.len() && #[trigger] ev[i].0 == k
}

/// The map that a list of entries with distinct keys stands for.
pub open spec fn map_of<V>(ev: Seq<(Seq<char>, V)>) -> Map<Seq<char>, V> {
    Map::new(
        |k: Seq<char>| has_key(ev, k),
        |k: Seq<char>| ev[choose|i: int| 0 <= i < ev.len() && #[trigger] ev[i].0 == k].1,
    )
}

pub(crate) proof fn lemma_map_of_at<V>(ev: Seq<(Seq<char>, V)>, i: int)
    requires
        keys_distinct(ev),
        0 <= i < ev.len(),
    ensures
        map_of(ev).contains_key(ev[i].0),
        map_of(ev)[ev[i].0] == ev[i].1,
{
    assert(has_key(ev, ev[i].0));
    let j = choose|j: int| 0 <= j < ev.len() && #[trigger] ev[j].0 == ev[i].0;
    if j < i {
        assert(ev[j].0 != ev[i].0);
    } else if i < j {
        assert(ev[i].0 != ev[j].0);
    }
}

pub(crate) proof fn lemma_map_of_update<V>(ev: Seq<(Seq<char>, V)>, i: int, v: V)
    requires
        keys_distinct(ev),
        0 <= i < ev.len(),
    ensures
        keys_distinct(ev.update(i, (ev[i].0, v))),
        map_of(ev.update(i, (ev[i].0, v))) == map_of(ev).insert(ev[i].0, v),
{
    let nv = ev.update(i, (ev[i].0, v));
    assert(keys_distinct(nv)) by {
        assert forall|a: int, b: int| 0 <= a < b < nv.len() implies nv[a].0 != nv[b].0 by {
            assert(ev[a].0 != ev[b].0);
        }
    }
    let m = map_of(ev).insert(ev[i].0, v);
    assert forall|k: Seq<char>| #[trigger] map_of(nv).contains_key(k) <==> m.contains_key(k) by {
        if has_key(nv, k) {
            let j = choose|j: int| 0 <= j < nv.len() && #[trigger] nv[j].0 == k;
            assert(ev[j].0 == k);
        }
        if has_key(ev, k) {
            let j = choose|j: int| 0 <= j < ev.len() && #[trigger] ev[j].0 == k;
            assert(nv[j].0 == k);
        }
        if k == ev[i].0 {
            assert(nv[i].0 == k);
        }
    }
    assert forall|k: Seq<char>| #[trigger] map_of(nv).contains_key(k) implies map_of(nv)[k] == m[k] by {
        let j = choose|j: int| 0 <= j < nv.len() && #[trigger] nv[j].0 == k;
        lemma_map_of_at(nv, j);
        if j != i {
            lemma_map_of_at(ev, j);
        }
    }
    assert(map_of(nv) =~= m);
}

pub(crate) proof fn lemma_map_of_push<V>(ev: Seq<(Seq<char>, V)>, k0: Seq<char>, v: V)
    requires
        keys_distinct(ev),
        !has_key(ev, k0),
    ensures
        keys_distinct(ev.push((k0, v))),
        map_of(ev.push((k0, v))) == map_of(ev).insert(k0, v),
{
    let nv = ev.push((k0, v));
    assert(keys_distinct(nv)) by {
        assert forall|a: int, b: int| 0 <= a < b < nv.len() implies nv[a].0 != nv[b].0 by {
            if b == ev.len() {
                assert(ev[a].0 == nv[a].0);
            } else {
                assert(ev[a].0 != ev[b].0);
            }
        }
    }
    let m = map_of(ev).insert(k0, v);
    assert forall|k: Seq<char>| #[trigger] map_of(nv).contains_key(k) <==> m.contains_key(k) by {
        if has_key(nv, k) {
            let j = choose|j: int| 0 <= j < nv.len() && #[trigger] nv[j].0 == k;
            if j < ev.len() {
                assert(ev[j].0 == k);
            }
        }
        if has_key(ev, k) {
            let j = choose|j: int| 0 <= j < ev.len() && #[trigger] ev[j].0 == k;
            assert(nv[j].0 == k);
        }
        if k == k0 {
            assert(nv[ev.len() as int].0 == k);
        }
    }
    assert forall|k: Seq<char>| #[trigger] map_of(nv).contains_key(k) implies map_of(nv)[k] == m[k] by {
        let j = choose|j: int| 0 <= j < nv.len() && #[trigger] nv[j].0 == k;
        lemma_map_of_at(nv, j);
        if j < ev.len() {
            lemma_map_of_at(ev, j);
        }
    }
    assert(map_of(nv) =~= m);
}

pub(crate) proof fn lemma_map_of_remove<V>(ev: Seq<(Seq<char>, V)>, i: int)
    requires
        keys_distinct(ev),
        0 <= i < ev.len(),
    ensures
        keys_distinct(ev.remove(i)),
        map_of(ev.remove(i)) == map_of(ev).remove(ev[i].0),
{
    let nv = ev.remove(i);
    assert(keys_distinct(nv)) by {
        assert forall|a: int, b: int| 0 <= a < b < nv.len() implies nv[a].0 != nv[b].0 by {
            let oa = if a < i { a } else { a + 1 };
            let ob = if b < i { b } else { b + 1 };
            assert(nv[a] == ev[oa]);
            assert(nv[b] == ev[ob]);
            assert(ev[oa].0 != ev[ob].0);
        }
    }
    let m = map_of(ev).remove(ev[i].0);
    assert forall|k: Seq<char>| #[trigger] map_of(nv).contains_key(k) <==> m.contains_key(k) by {
        if has_key(nv, k) {
            let j = choose|j: int| 0 <= j < nv.len() && #[trigger] nv[j].0 == k;
            let oj = if j < i { j } else { j + 1 };
            assert(ev[oj].0 == k);
            if k == ev[i].0 {
                assert(ev[oj].0 != ev[i].0 || oj == i);
            }
        }
        if has_key(ev, k) && k != ev[i].0 {
            let j = choose|j: int| 0 <= j < ev.len() && #[trigger] ev[j].0 == k;
            if j < i {
                assert(nv[j].0 == k);
            } else {
                assert(nv[j - 1].0 == k);
            }
        }
    }
    assert forall|k: Seq<char>| #[trigger] map_of(nv).contains_key(k) implies map_of(nv)[k] == m[k] by {
        let j = choose|j: int| 0 <= j < nv.len() && #[trigger] nv[j].0 == k;
        let oj = if j < i { j } else { j + 1 };
        assert(nv[j] == ev[oj]);
        lemma_map_of_at(nv, j);
        lemma_map_of_at(ev, oj);
    }
    assert(map_of(nv) =~= m);
}

} // verus!
