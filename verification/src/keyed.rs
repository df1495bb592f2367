use vstd::prelude::*;

verus! {

/// The map an association list stands for; a later pair takes the place of
/// an earlier one with the same key.
pub open spec fn to_map<K, V>(s: Seq<(K, V)>) -> Map<K, V>
    decreases s.len(),
{
    if s.len() == 0 {
        Map::empty()
    } else {
        to_map(s.drop_last()).insert(s.last().0, s.last().1)
    }
}

/// No key occurs twice.
pub open spec fn unique_keys<K, V>(s: Seq<(K, V)>) -> bool {
    forall|i: int, j: int| 0 <= i < j < s.len() ==> s[i].0 != s[j].0
}

/// The keys of the map are those of the list, and with unique keys each
/// pair is found under its key.
pub proof fn lemma_to_map<K, V>(s: Seq<(K, V)>)
    ensures
        forall|k: K| to_map(s).contains_key(k) <==> exists|i: int| 0 <= i < s.len() && #[trigger] s[i].0 == k,
        unique_keys(s) ==> forall|i: int| 0 <= i < s.len() ==> #[trigger] to_map(s)[s[i].0] == s[i].1,
    decreases s.len(),
{
    if s.len() > 0 {
        let p = s.drop_last();
        lemma_to_map(p);
        assert(to_map(s) == to_map(p).insert(s.last().0, s.last().1));
        assert forall|k: K| to_map(s).contains_key(k) <==> exists|i: int| 0 <= i < s.len() && #[trigger] s[i].0 == k by {
            if to_map(s).contains_key(k) {
                if k == s.last().0 {
                    assert(s[s.len() - 1].0 == k);
                } else {
                    assert(to_map(p).contains_key(k));
                    let i = choose|i: int| 0 <= i < p.len() && #[trigger] p[i].0 == k;
                    assert(s[i] == p[i]);
                }
            }
            if exists|i: int| 0 <= i < s.len() && #[trigger] s[i].0 == k {
                let i = choose|i: int| 0 <= i < s.len() && #[trigger] s[i].0 == k;
                if i < s.len() - 1 {
                    assert(p[i] == s[i]);
                }
            }
        }
        if unique_keys(s) {
            assert(unique_keys(p)) by {
                assert forall|i: int, j: int| 0 <= i < j < p.len() implies p[i].0 != p[j].0 by {
                    assert(p[i] == s[i] && p[j] == s[j]);
                }
            }
            assert forall|i: int| 0 <= i < s.len() implies #[trigger] to_map(s)[s[i].0] == s[i].1 by {
                if i < s.len() - 1 {
                    assert(p[i] == s[i]);
                    assert(s[i].0 != s[s.len() - 1].0);
                    assert(to_map(p)[p[i].0] == p[i].1);
                }
            }
        }
    }
}

/// Appending a pair with a new key adds it to the map.
pub proof fn lemma_to_map_push<K, V>(s: Seq<(K, V)>, k: K, v: V)
    requires
        unique_keys(s),
        forall|j: int| 0 <= j < s.len() ==> #[trigger] s[j].0 != k,
    ensures
        unique_keys(s.push((k, v))),
        to_map(s.push((k, v))) == to_map(s).insert(k, v),
{
    assert(s.push((k, v)).drop_last() =~= s);
}

/// Replacing the value of the pair at `i` replaces it in the map.
pub proof fn lemma_to_map_update<K, V>(s: Seq<(K, V)>, i: int, v: V)
    requires
        unique_keys(s),
        0 <= i < s.len(),
    ensures
        unique_keys(s.update(i, (s[i].0, v))),
        to_map(s.update(i, (s[i].0, v))) == to_map(s).insert(s[i].0, v),
{
    let k = s[i].0;
    let u = s.update(i, (k, v));
    assert forall|a: int| 0 <= a < u.len() implies #[trigger] u[a].0 == s[a].0 by {}
    assert(unique_keys(u)) by {
        assert forall|a: int, b: int| 0 <= a < b < u.len() implies u[a].0 != u[b].0 by {
            assert(u[a].0 == s[a].0 && u[b].0 == s[b].0);
        }
    }
    lemma_to_map(s);
    lemma_to_map(u);
    let m = to_map(s).insert(k, v);
    assert forall|key: K| #[trigger] to_map(u).contains_key(key) == m.contains_key(key) by {
        if to_map(u).contains_key(key) {
            let j = choose|j: int| 0 <= j < u.len() && #[trigger] u[j].0 == key;
            assert(s[j].0 == key);
        }
        if to_map(s).contains_key(key) {
            let j = choose|j: int| 0 <= j < s.len() && #[trigger] s[j].0 == key;
            assert(u[j].0 == key);
        }
        if key == k {
            assert(u[i].0 == key);
        }
    }
    assert forall|key: K| #[trigger] to_map(u).contains_key(key) implies to_map(u)[key] == m[key] by {
        let j = choose|j: int| 0 <= j < u.len() && #[trigger] u[j].0 == key;
        assert(to_map(u)[u[j].0] == u[j].1);
        if j != i {
            assert(s[j].0 == key);
            assert(to_map(s)[s[j].0] == s[j].1);
        }
    }
    assert(to_map(u) =~= m);
}

/// Removing the pair at `i` removes its key from the map.
pub proof fn lemma_to_map_remove<K, V>(s: Seq<(K, V)>, i: int)
    requires
        unique_keys(s),
        0 <= i < s.len(),
    ensures
        unique_keys(s.remove(i)),
        to_map(s.remove(i)) == to_map(s).remove(s[i].0),
{
    let k = s[i].0;
    let u = s.remove(i);
    assert forall|a: int| 0 <= a < u.len() implies #[trigger] u[a] == (if a < i { s[a] } else { s[a + 1] }) by {}
    assert(unique_keys(u)) by {
        assert forall|a: int, b: int| 0 <= a < b < u.len() implies u[a].0 != u[b].0 by {
            let x = if a < i { a } else { a + 1 };
            let y = if b < i { b } else { b + 1 };
            assert(u[a] == s[x] && u[b] == s[y]);
        }
    }
    lemma_to_map(s);
    lemma_to_map(u);
    let m = to_map(s).remove(k);
    assert forall|key: K| #[trigger] to_map(u).contains_key(key) == m.contains_key(key) by {
        if to_map(u).contains_key(key) {
            let j = choose|j: int| 0 <= j < u.len() && #[trigger] u[j].0 == key;
            let x = if j < i { j } else { j + 1 };
            assert(s[x].0 == key);
            assert(x != i);
        }
        if m.contains_key(key) {
            let j = choose|j: int| 0 <= j < s.len() && #[trigger] s[j].0 == key;
            assert(j != i);
            if j < i {
                assert(u[j].0 == key);
            } else {
                assert(u[j - 1].0 == key);
            }
        }
    }
    assert forall|key: K| #[trigger] to_map(u).contains_key(key) implies to_map(u)[key] == m[key] by {
        let j = choose|j: int| 0 <= j < u.len() && #[trigger] u[j].0 == key;
        let x = if j < i { j } else { j + 1 };
        assert(u[j] == s[x]);
        assert(to_map(u)[u[j].0] == u[j].1);
        assert(to_map(s)[s[x].0] == s[x].1);
    }
    assert(to_map(u) =~= m);
}

/// The map of a list is finite, and with unique keys it has one entry per pair.
pub proof fn lemma_to_map_len<K, V>(s: Seq<(K, V)>)
    ensures
        to_map(s).dom().finite(),
        unique_keys(s) ==> to_map(s).len() == s.len(),
    decreases s.len(),
{
    if s.len() > 0 {
        let p = s.drop_last();
        lemma_to_map_len(p);
        lemma_to_map(p);
        if unique_keys(s) {
            assert(unique_keys(p)) by {
                assert forall|i: int, j: int| 0 <= i < j < p.len() implies p[i].0 != p[j].0 by {
                    assert(p[i] == s[i] && p[j] == s[j]);
                }
            }
            if to_map(p).contains_key(s.last().0) {
                let i = choose|i: int| 0 <= i < p.len() && #[trigger] p[i].0 == s.last().0;
                assert(s[i].0 == s[s.len() - 1].0);
            }
        }
    }
}

/// The place of key `k` in an association list keyed by integers.
pub fn find_key<V>(v: &Vec<(u64, V)>, k: u64) -> (r: Option<usize>)
    requires
        unique_keys(v@),
    ensures
        match r {
            Some(i) => i < v@.len() && v@[i as int].0 == k && to_map(v@).contains_key(k) && to_map(v@)[k]
                == v@[i as int].1,
            None => !to_map(v@).contains_key(k),
        },
{
    proof {
        lemma_to_map(v@);
    }
    let mut i: usize = 0;
    while i < v.len()
        invariant
            i <= v@.len(),
            unique_keys(v@),
            forall|j: int| 0 <= j < i ==> #[trigger] v@[j].0 != k,
        decreases v@.len() - i,
    {
        if v[i].0 == k {
            proof {
                lemma_to_map(v@);
                assert(to_map(v@)[v@[i as int].0] == v@[i as int].1);
            }
            return Some(i);
        }
        i = i + 1;
    }
    proof {
        lemma_to_map(v@);
    }
    None
}

} // verus!
