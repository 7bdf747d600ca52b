use vstd::prelude::*;

verus! {

/// No two entries of the list share a key.
pub open spec fn distinct_keys<V>(s: Seq<(Seq<char>, V)>) -> bool {
    forall|i: int, j: int|
        #![trigger s[i], s[j]]
        0 <= i < s.len() && 0 <= j < s.len() && i != j ==> s[i].0 != s[j].0
}

/// The map that an association list stands for: a key maps to the value of
/// its last entry.
pub open spec fn assoc_map<V>(s: Seq<(Seq<char>, V)>) -> Map<Seq<char>, V>
    decreases s.len(),
{
    if s.len() == 0 {
        Map::empty()
    } else {
        assoc_map(s.drop_last()).insert(s.last().0, s.last().1)
    }
}

/// The keys of the map are exactly the keys of the entries.
pub proof fn lemma_assoc_dom<V>(s: Seq<(Seq<char>, V)>, k: Seq<char>)
    ensures
        assoc_map(s).contains_key(k) <==> exists|i: int| 0 <= i < s.len() && #[trigger] s[i].0 == k,
    decreases s.len(),
{
    if s.len() > 0 {
        let t = s.drop_last();
        lemma_assoc_dom(t, k);
        if assoc_map(s).contains_key(k) {
            if k == s.last().0 {
                assert(s[s.len() - 1].0 == k);
            } else {
                let i = choose|i: int| 0 <= i < t.len() && #[trigger] t[i].0 == k;
                assert(s[i].0 == k);
            }
        }
        if exists|i: int| 0 <= i < s.len() && #[trigger] s[i].0 == k {
            let i = choose|i: int| 0 <= i < s.len() && #[trigger] s[i].0 == k;
            if i < s.len() - 1 {
                assert(t[i].0 == k);
            }
        }
    }
}

/// Dropping the last entry keeps the keys distinct.
pub proof fn lemma_distinct_drop_last<V>(s: Seq<(Seq<char>, V)>)
    requires
        distinct_keys(s),
        s.len() > 0,
    ensures
        distinct_keys(s.drop_last()),
{
    let t = s.drop_last();
    assert forall|i: int, j: int|
        0 <= i < t.len() && 0 <= j < t.len() && i != j implies #[trigger] t[i].0 != #[trigger] t[j].0 by {
        assert(t[i] == s[i] && t[j] == s[j]);
    }
}

/// With distinct keys, each entry is found in the map.
pub proof fn lemma_assoc_index<V>(s: Seq<(Seq<char>, V)>, i: int)
    requires
        distinct_keys(s),
        0 <= i < s.len(),
    ensures
        assoc_map(s).contains_key(s[i].0),
        assoc_map(s)[s[i].0] == s[i].1,
    decreases s.len(),
{
    if i < s.len() - 1 {
        let t = s.drop_last();
        lemma_distinct_drop_last(s);
        assert(t[i] == s[i]);
        lemma_assoc_index(t, i);
        assert(s[s.len() - 1].0 != s[i].0);
    }
}

/// With distinct keys, the map is finite and has one key per entry.
pub proof fn lemma_assoc_len<V>(s: Seq<(Seq<char>, V)>)
    requires
        distinct_keys(s),
    ensures
        assoc_map(s).dom().finite(),
        assoc_map(s).len() == s.len(),
    decreases s.len(),
{
    if s.len() > 0 {
        let t = s.drop_last();
        lemma_distinct_drop_last(s);
        lemma_assoc_len(t);
        lemma_assoc_dom(t, s.last().0);
        if assoc_map(t).contains_key(s.last().0) {
            let i = choose|i: int| 0 <= i < t.len() && #[trigger] t[i].0 == s.last().0;
            assert(s[i].0 == s[s.len() - 1].0);
        }
    }
}

/// Appending an entry with a new key inserts it into the map.
pub proof fn lemma_assoc_push<V>(s: Seq<(Seq<char>, V)>, k: Seq<char>, v: V)
    requires
        distinct_keys(s),
        !assoc_map(s).contains_key(k),
    ensures
        distinct_keys(s.push((k, v))),
        assoc_map(s.push((k, v))) == assoc_map(s).insert(k, v),
{
    let u = s.push((k, v));
    assert(u.drop_last() =~= s);
    lemma_assoc_dom(s, k);
    assert forall|i: int, j: int|
        0 <= i < u.len() && 0 <= j < u.len() && i != j implies #[trigger] u[i].0 != #[trigger] u[j].0 by {
        if i < s.len() {
            assert(u[i] == s[i]);
        }
        if j < s.len() {
            assert(u[j] == s[j]);
        }
    }
}

/// Replacing the value of an entry updates the map at its key.
pub proof fn lemma_assoc_update<V>(s: Seq<(Seq<char>, V)>, i: int, v: V)
    requires
        distinct_keys(s),
        0 <= i < s.len(),
    ensures
        distinct_keys(s.update(i, (s[i].0, v))),
        assoc_map(s.update(i, (s[i].0, v))) == assoc_map(s).insert(s[i].0, v),
    decreases s.len(),
{
    let u = s.update(i, (s[i].0, v));
    let t = s.drop_last();
    assert forall|a: int, b: int|
        0 <= a < u.len() && 0 <= b < u.len() && a != b implies #[trigger] u[a].0 != #[trigger] u[b].0 by {
        assert(u[a].0 == s[a].0 && u[b].0 == s[b].0);
    }
    if i == s.len() - 1 {
        assert(u.drop_last() =~= t);
        assert(assoc_map(u) =~= assoc_map(s).insert(s[i].0, v));
    } else {
        lemma_distinct_drop_last(s);
        assert(u.drop_last() =~= t.update(i, (t[i].0, v)));
        lemma_assoc_update(t, i, v);
        assert(s[s.len() - 1].0 != s[i].0);
        assert(assoc_map(u) =~= assoc_map(s).insert(s[i].0, v));
    }
}

/// Removing an entry removes its key from the map.
pub proof fn lemma_assoc_remove<V>(s: Seq<(Seq<char>, V)>, i: int)
    requires
        distinct_keys(s),
        0 <= i < s.len(),
    ensures
        distinct_keys(s.remove(i)),
        assoc_map(s.remove(i)) == assoc_map(s).remove(s[i].0),
    decreases s.len(),
{
    let u = s.remove(i);
    let t = s.drop_last();
    lemma_distinct_drop_last(s);
    assert forall|a: int, b: int|
        0 <= a < u.len() && 0 <= b < u.len() && a != b implies #[trigger] u[a].0 != #[trigger] u[b].0 by {
        let a2 = if a < i { a } else { a + 1 };
        let b2 = if b < i { b } else { b + 1 };
        assert(u[a] == s[a2] && u[b] == s[b2]);
    }
    if i == s.len() - 1 {
        assert(u =~= t);
        lemma_assoc_dom(t, s[i].0);
        if assoc_map(t).contains_key(s[i].0) {
            let j = choose|j: int| 0 <= j < t.len() && #[trigger] t[j].0 == s[i].0;
            assert(s[j].0 == s[i].0);
        }
        assert(assoc_map(u) =~= assoc_map(s).remove(s[i].0));
    } else {
        assert(u.drop_last() =~= t.remove(i));
        assert(u.last() == s.last());
        lemma_assoc_remove(t, i);
        assert(s[s.len() - 1].0 != s[i].0);
        assert(assoc_map(u) =~= assoc_map(s).remove(s[i].0));
    }
}

} // verus!
