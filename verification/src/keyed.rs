//! Sequences of key-value pairs with distinct keys, seen as maps.

use vstd::prelude::*;

verus! {

/// Whether some pair has the key.
pub open spec fn has_key<K, V>(s: Seq<(K, V)>, k: K) -> bool {
    exists|i: int| 0 <= i < s.len() && s[i].0 == k
}

/// The keys of the pairs are distinct.
pub open spec fn distinct_keys<K, V>(s: Seq<(K, V)>) -> bool {
    forall|i: int, j: int| 0 <= i < j < s.len() ==> s[i].0 != s[j].0
}

/// The pairs as a map.
pub open spec fn kv_view<K, V>(s: Seq<(K, V)>) -> Map<K, V> {
    Map::new(|k: K| has_key(s, k), |k: K| s[choose|i: int| 0 <= i < s.len() && s[i].0 == k].1)
}

pub proof fn lemma_kv_at<K, V>(s: Seq<(K, V)>, i: int)
    requires
        distinct_keys(s),
        0 <= i < s.len(),
    ensures
        kv_view(s).contains_key(s[i].0),
        kv_view(s)[s[i].0] == s[i].1,
{
    assert(has_key(s, s[i].0));
    let k = choose|k: int| 0 <= k < s.len() && s[k].0 == s[i].0;
    assert(k == i);
}

pub proof fn lemma_kv_update<K, V>(s: Seq<(K, V)>, i: int, v: V)
    requires
        distinct_keys(s),
        0 <= i < s.len(),
    ensures
        distinct_keys(s.update(i, (s[i].0, v))),
        kv_view(s.update(i, (s[i].0, v))) == kv_view(s).insert(s[i].0, v),
{
    let t = s.update(i, (s[i].0, v));
    assert forall|x: int, y: int| 0 <= x < y < t.len() implies t[x].0 != t[y].0 by {
        assert(s[x].0 != s[y].0);
    }
    let m = kv_view(s).insert(s[i].0, v);
    assert forall|k: K| #[trigger] kv_view(t).contains_key(k) <==> m.contains_key(k) by {
        if has_key(s, k) {
            let j = choose|j: int| 0 <= j < s.len() && s[j].0 == k;
            assert(t[j].0 == k);
        }
        if has_key(t, k) {
            let j = choose|j: int| 0 <= j < t.len() && t[j].0 == k;
            assert(s[j].0 == k);
        }
    }
    assert forall|k: K| #[trigger] kv_view(t).contains_key(k) implies kv_view(t)[k] == m[k] by {
        let j = choose|j: int| 0 <= j < t.len() && t[j].0 == k;
        lemma_kv_at(t, j);
        if j != i {
            lemma_kv_at(s, j);
        }
    }
    assert(kv_view(t) =~= m);
}

pub proof fn lemma_kv_push<K, V>(s: Seq<(K, V)>, k: K, v: V)
    requires
        distinct_keys(s),
        !has_key(s, k),
    ensures
        distinct_keys(s.push((k, v))),
        kv_view(s.push((k, v))) == kv_view(s).insert(k, v),
{
    let t = s.push((k, v));
    assert forall|x: int, y: int| 0 <= x < y < t.len() implies t[x].0 != t[y].0 by {
        if y == s.len() {
            assert(s[x].0 == t[x].0);
        } else {
            assert(s[x].0 != s[y].0);
        }
    }
    let m = kv_view(s).insert(k, v);
    assert forall|a: K| #[trigger] kv_view(t).contains_key(a) <==> m.contains_key(a) by {
        if has_key(s, a) {
            let j = choose|j: int| 0 <= j < s.len() && s[j].0 == a;
            assert(t[j].0 == a);
        }
        if a == k {
            assert(t[s.len() as int].0 == a);
        }
        if has_key(t, a) {
            let j = choose|j: int| 0 <= j < t.len() && t[j].0 == a;
            if j < s.len() {
                assert(s[j].0 == a);
            }
        }
    }
    assert forall|a: K| #[trigger] kv_view(t).contains_key(a) implies kv_view(t)[a] == m[a] by {
        let j = choose|j: int| 0 <= j < t.len() && t[j].0 == a;
        lemma_kv_at(t, j);
        if j < s.len() {
            lemma_kv_at(s, j);
        }
    }
    assert(kv_view(t) =~= m);
}

pub proof fn lemma_kv_remove<K, V>(s: Seq<(K, V)>, i: int)
    requires
        distinct_keys(s),
        0 <= i < s.len(),
    ensures
        distinct_keys(s.remove(i)),
        kv_view(s.remove(i)) == kv_view(s).remove(s[i].0),
{
    let t = s.remove(i);
    let gone = s[i].0;
    assert forall|x: int, y: int| 0 <= x < y < t.len() implies t[x].0 != t[y].0 by {
        let x0 = if x < i { x } else { x + 1 };
        let y0 = if y < i { y } else { y + 1 };
        assert(t[x] == s[x0] && t[y] == s[y0]);
    }
    let m = kv_view(s).remove(gone);
    assert forall|a: K| #[trigger] kv_view(t).contains_key(a) <==> m.contains_key(a) by {
        if has_key(t, a) {
            let j = choose|j: int| 0 <= j < t.len() && t[j].0 == a;
            let j0 = if j < i { j } else { j + 1 };
            assert(s[j0].0 == a);
        }
        if has_key(s, a) && a != gone {
            let j = choose|j: int| 0 <= j < s.len() && s[j].0 == a;
            if j < i {
                assert(t[j].0 == a);
            } else {
                assert(t[j - 1].0 == a);
            }
        }
    }
    assert forall|a: K| #[trigger] kv_view(t).contains_key(a) implies kv_view(t)[a] == m[a] by {
        let j = choose|j: int| 0 <= j < t.len() && t[j].0 == a;
        lemma_kv_at(t, j);
        let j0 = if j < i { j } else { j + 1 };
        assert(t[j] == s[j0]);
        lemma_kv_at(s, j0);
    }
    assert(kv_view(t) =~= m);
}

} // verus!
