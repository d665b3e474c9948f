//! Sequences of `(key, value)` pairs with distinct keys, read as maps.
use vstd::prelude::*;

verus! {

/// The map a pair sequence denotes (a later pair overrides an earlier one).
pub open spec fn keyed_map<K, V>(s: Seq<(K, V)>) -> Map<K, V>
    decreases s.len(),
{
    if s.len() == 0 {
        Map::empty()
    } else {
        keyed_map(s.drop_last()).insert(s.last().0, s.last().1)
    }
}

pub open spec fn keys_distinct<K, V>(s: Seq<(K, V)>) -> bool {
    forall|i: int, j: int|
        0 <= i < s.len() && 0 <= j < s.len() && i != j ==> #[trigger] s[i].0 != #[trigger] s[j].0
}

pub proof fn lemma_keyed_map<K, V>(s: Seq<(K, V)>)
    requires
        keys_distinct(s),
    ensures
        forall|k: K|
            #[trigger] keyed_map(s).contains_key(k) <==> exists|i: int| 0 <= i < s.len() && #[trigger] s[i].0 == k,
        forall|i: int| 0 <= i < s.len() ==> #[trigger] keyed_map(s)[s[i].0] == s[i].1,
        keyed_map(s).dom().finite(),
        keyed_map(s).dom().len() == s.len(),
    decreases s.len(),
{
    if s.len() > 0 {
        let p = s.drop_last();
        assert forall|i: int, j: int|
            0 <= i < p.len() && 0 <= j < p.len() && i != j implies #[trigger] p[i].0 != #[trigger] p[j].0 by {
            assert(p[i] == s[i] && p[j] == s[j]);
        }
        lemma_keyed_map(p);
        let n = s.len() - 1;
        assert forall|k: K|
            #[trigger] keyed_map(s).contains_key(k) <==> exists|i: int| 0 <= i < s.len() && #[trigger] s[i].0 == k by {
            if keyed_map(p).contains_key(k) {
                let i = choose|i: int| 0 <= i < p.len() && #[trigger] p[i].0 == k;
                assert(s[i].0 == k);
            }
            if exists|i: int| 0 <= i < s.len() && #[trigger] s[i].0 == k {
                let i = choose|i: int| 0 <= i < s.len() && #[trigger] s[i].0 == k;
                if i < n {
                    assert(p[i].0 == k);
                }
            }
        }
        assert forall|i: int| 0 <= i < s.len() implies #[trigger] keyed_map(s)[s[i].0] == s[i].1 by {
            if i < n {
                assert(p[i] == s[i]);
                assert(s[i].0 != s[n].0);
            }
        }
        assert(!keyed_map(p).contains_key(s[n].0)) by {
            if keyed_map(p).contains_key(s[n].0) {
                let i = choose|i: int| 0 <= i < p.len() && #[trigger] p[i].0 == s[n].0;
                assert(s[i].0 == s[n].0);
            }
        }
    }
}

pub proof fn lemma_keyed_update<K, V>(s: Seq<(K, V)>, i: int, v: V)
    requires
        keys_distinct(s),
        0 <= i < s.len(),
    ensures
        keys_distinct(s.update(i, (s[i].0, v))),
        keyed_map(s.update(i, (s[i].0, v))) == keyed_map(s).insert(s[i].0, v),
{
    let t = s.update(i, (s[i].0, v));
    assert forall|a: int, b: int|
        0 <= a < t.len() && 0 <= b < t.len() && a != b implies #[trigger] t[a].0 != #[trigger] t[b].0 by {
        assert(t[a].0 == s[a].0 && t[b].0 == s[b].0);
    }
    lemma_keyed_map(s);
    lemma_keyed_map(t);
    let m1 = keyed_map(t);
    let m2 = keyed_map(s).insert(s[i].0, v);
    assert forall|k: K| m1.contains_key(k) <==> m2.contains_key(k) by {
        if m1.contains_key(k) {
            let a = choose|a: int| 0 <= a < t.len() && #[trigger] t[a].0 == k;
            assert(s[a].0 == k);
        }
        if keyed_map(s).contains_key(k) {
            let a = choose|a: int| 0 <= a < s.len() && #[trigger] s[a].0 == k;
            assert(t[a].0 == k);
        }
        assert(t[i].0 == s[i].0);
    }
    assert forall|k: K| m1.contains_key(k) implies m1[k] == m2[k] by {
        let a = choose|a: int| 0 <= a < t.len() && #[trigger] t[a].0 == k;
        assert(m1[t[a].0] == t[a].1);
        if a != i {
            assert(t[a] == s[a]);
            assert(keyed_map(s)[s[a].0] == s[a].1);
        }
    }
    assert(m1 =~= m2);
}

pub proof fn lemma_keyed_push<K, V>(s: Seq<(K, V)>, k: K, v: V)
    requires
        keys_distinct(s),
        !keyed_map(s).contains_key(k),
    ensures
        keys_distinct(s.push((k, v))),
        keyed_map(s.push((k, v))) == keyed_map(s).insert(k, v),
{
    lemma_keyed_map(s);
    let t = s.push((k, v));
    assert(t.drop_last() =~= s);
    assert forall|a: int, b: int|
        0 <= a < t.len() && 0 <= b < t.len() && a != b implies #[trigger] t[a].0 != #[trigger] t[b].0 by {
        if a == s.len() {
            assert(t[b] == s[b]);
        } else if b == s.len() {
            assert(t[a] == s[a]);
        } else {
            assert(t[a] == s[a] && t[b] == s[b]);
        }
    }
}

pub proof fn lemma_keyed_remove<K, V>(s: Seq<(K, V)>, i: int)
    requires
        keys_distinct(s),
        0 <= i < s.len(),
    ensures
        keys_distinct(s.remove(i)),
        keyed_map(s.remove(i)) == keyed_map(s).remove(s[i].0),
{
    let t = s.remove(i);
    assert forall|a: int| 0 <= a < t.len() implies #[trigger] t[a] == (if a < i { s[a] } else { s[a + 1] }) by {}
    assert forall|a: int, b: int|
        0 <= a < t.len() && 0 <= b < t.len() && a != b implies #[trigger] t[a].0 != #[trigger] t[b].0 by {
        let sa = if a < i { a } else { a + 1 };
        let sb = if b < i { b } else { b + 1 };
        assert(t[a] == s[sa] && t[b] == s[sb]);
    }
    lemma_keyed_map(s);
    lemma_keyed_map(t);
    let m1 = keyed_map(t);
    let m2 = keyed_map(s).remove(s[i].0);
    assert forall|k: K| m1.contains_key(k) <==> m2.contains_key(k) by {
        if m1.contains_key(k) {
            let a = choose|a: int| 0 <= a < t.len() && #[trigger] t[a].0 == k;
            let sa = if a < i { a } else { a + 1 };
            assert(t[a] == s[sa]);
            assert(s[sa].0 != s[i].0);
        }
        if m2.contains_key(k) {
            let a = choose|a: int| 0 <= a < s.len() && #[trigger] s[a].0 == k;
            assert(a != i);
            if a < i {
                assert(t[a] == s[a]);
            } else {
                assert(t[a - 1] == s[a]);
            }
        }
    }
    assert forall|k: K| m1.contains_key(k) implies m1[k] == m2[k] by {
        let a = choose|a: int| 0 <= a < t.len() && #[trigger] t[a].0 == k;
        let sa = if a < i { a } else { a + 1 };
        assert(t[a] == s[sa]);
        assert(m1[t[a].0] == t[a].1);
        assert(keyed_map(s)[s[sa].0] == s[sa].1);
    }
    assert(m1 =~= m2);
}

} // verus!
