use vstd::prelude::*;

verus! {

/// No two pairs of `s` carry the same key.
pub open spec fn unique_keys<K, V>(s: Seq<(K, V)>) -> bool {
    forall|i: int, j: int| 0 <= i < j < s.len() ==> (#[trigger] s[i]).0 != (#[trigger] s[j]).0
}

/// Some pair of `s` carries the key `k`.
pub open spec fn assoc_has_key<K, V>(s: Seq<(K, V)>, k: K) -> bool {
    exists|i: int| 0 <= i < s.len() && (#[trigger] s[i]).0 == k
}

/// The value of the first pair of `s` that carries the key `k`, if any.
pub open spec fn assoc_find<K, V>(s: Seq<(K, V)>, k: K) -> Option<V>
    decreases s.len(),
{
    if s.len() == 0 {
        None
    } else if s[0].0 == k {
        Some(s[0].1)
    } else {
        assoc_find(s.skip(1), k)
    }
}

/// The finite map that `s` stands for: each key of `s` bound to the value
/// of its first pair.
pub open spec fn assoc_map<K, V>(s: Seq<(K, V)>) -> Map<K, V> {
    Map::new(|k: K| assoc_has_key(s, k), |k: K| assoc_find(s, k).unwrap())
}

/// A key is found exactly when some pair carries it.
pub proof fn lemma_find_iff_has_key<K, V>(s: Seq<(K, V)>, k: K)
    ensures
        assoc_find(s, k) is Some <==> assoc_has_key(s, k),
    decreases s.len(),
{
    if s.len() == 0 {
    } else if s[0].0 == k {
    } else {
        lemma_find_iff_has_key(s.skip(1), k);
        assert forall|i: int| 0 <= i < s.len() && (#[trigger] s[i]).0 == k implies
            assoc_has_key(s.skip(1), k) by {
            assert(s.skip(1)[i - 1] == s[i]);
        }
        assert(assoc_has_key(s.skip(1), k) ==> assoc_has_key(s, k)) by {
            if assoc_has_key(s.skip(1), k) {
                let i = choose|i: int| 0 <= i < s.skip(1).len() && (#[trigger] s.skip(1)[i]).0 == k;
                assert(s[i + 1] == s.skip(1)[i]);
            }
        }
    }
}

/// If the first `i` pairs do not carry `k` and the pair at `i` does, the
/// find returns that pair's value.
pub proof fn lemma_find_at_first_match<K, V>(s: Seq<(K, V)>, k: K, i: int)
    requires
        0 <= i < s.len(),
        s[i].0 == k,
        forall|j: int| 0 <= j < i ==> (#[trigger] s[j]).0 != k,
    ensures
        assoc_find(s, k) == Some(s[i].1),
    decreases s.len(),
{
    if i == 0 {
    } else {
        assert(s.skip(1)[i - 1] == s[i]);
        assert forall|j: int| 0 <= j < i - 1 implies (#[trigger] s.skip(1)[j]).0 != k by {
            assert(s.skip(1)[j] == s[j + 1]);
        }
        lemma_find_at_first_match(s.skip(1), k, i - 1);
    }
}

/// If no pair carries `k`, the find returns nothing.
pub proof fn lemma_find_none<K, V>(s: Seq<(K, V)>, k: K)
    requires
        forall|j: int| 0 <= j < s.len() ==> (#[trigger] s[j]).0 != k,
    ensures
        assoc_find(s, k) is None,
{
    lemma_find_iff_has_key(s, k);
}

/// Appending a pair with a fresh key binds that key and leaves every other
/// key's binding unchanged.
pub proof fn lemma_push_fresh<K, V>(s: Seq<(K, V)>, k: K, v: V)
    requires
        !assoc_has_key(s, k),
    ensures
        assoc_map(s.push((k, v))) == assoc_map(s).insert(k, v),
        unique_keys(s) ==> unique_keys(s.push((k, v))),
{
    let t = s.push((k, v));
    assert forall|k2: K| true implies #[trigger] assoc_has_key(t, k2) == (assoc_has_key(s, k2)
        || k2 == k) by {
        if assoc_has_key(s, k2) {
            let i = choose|i: int| 0 <= i < s.len() && (#[trigger] s[i]).0 == k2;
            assert(t[i].0 == k2);
        }
        if assoc_has_key(t, k2) && k2 != k {
            let i = choose|i: int| 0 <= i < t.len() && (#[trigger] t[i]).0 == k2;
            assert(i < s.len() && s[i].0 == k2);
        }
        assert(t[s.len() as int].0 == k);
    }
    assert forall|k2: K| #[trigger] assoc_has_key(t, k2) implies assoc_find(t, k2)
        == if k2 == k { Some(v) } else { assoc_find(s, k2) } by {
        if k2 == k {
            assert forall|j: int| 0 <= j < s.len() implies (#[trigger] t[j]).0 != k by {
                assert(t[j] == s[j]);
                assert(!assoc_has_key(s, k) ==> s[j].0 != k);
            }
            lemma_find_at_first_match(t, k, s.len() as int);
        } else {
            let i = choose|i: int| 0 <= i < t.len() && (#[trigger] t[i]).0 == k2;
            lemma_find_iff_has_key(s, k2);
            let i0 = choose|i: int| 0 <= i < s.len() && (#[trigger] s[i]).0 == k2;
            lemma_skip_find_agree(s, t, k2);
        }
    }
    assert(assoc_map(t) =~= assoc_map(s).insert(k, v));
    if unique_keys(s) {
        assert forall|i: int, j: int| 0 <= i < j < t.len() implies (#[trigger] t[i]).0
            != (#[trigger] t[j]).0 by {
            if j == s.len() as int {
                assert(t[i].0 == s[i].0);
                assert(!assoc_has_key(s, k) ==> s[i].0 != k);
            }
        }
    }
}

/// Two sequences that agree on a shared prefix holding `k2` find the same
/// binding for `k2`.
proof fn lemma_skip_find_agree<K, V>(s: Seq<(K, V)>, t: Seq<(K, V)>, k2: K)
    requires
        s.len() <= t.len(),
        forall|i: int| 0 <= i < s.len() ==> s[i] == t[i],
        assoc_has_key(s, k2),
    ensures
        assoc_find(t, k2) == assoc_find(s, k2),
    decreases s.len(),
{
    if s.len() == 0 {
    } else if s[0].0 == k2 {
        assert(t[0] == s[0]);
    } else {
        assert(t[0] == s[0]);
        let i = choose|i: int| 0 <= i < s.len() && (#[trigger] s[i]).0 == k2;
        assert(s.skip(1)[i - 1] == s[i]);
        assert(assoc_has_key(s.skip(1), k2));
        assert forall|j: int| 0 <= j < s.skip(1).len() implies s.skip(1)[j] == t.skip(1)[j] by {
            assert(s.skip(1)[j] == s[j + 1]);
            assert(t.skip(1)[j] == t[j + 1]);
        }
        lemma_skip_find_agree(s.skip(1), t.skip(1), k2);
    }
}

/// Replacing the value of the pair at `i` (keeping its key) rebinds that
/// key and leaves every other key's binding unchanged.
pub proof fn lemma_update_value<K, V>(s: Seq<(K, V)>, i: int, v: V)
    requires
        unique_keys(s),
        0 <= i < s.len(),
    ensures
        assoc_map(s.update(i, (s[i].0, v))) == assoc_map(s).insert(s[i].0, v),
        unique_keys(s.update(i, (s[i].0, v))),
    decreases s.len(),
{
    let k = s[i].0;
    let t = s.update(i, (k, v));
    assert(t[i].0 == k);
    assert forall|k2: K| true implies #[trigger] assoc_has_key(t, k2) == assoc_has_key(s, k2) by {
        if assoc_has_key(s, k2) {
            let j = choose|j: int| 0 <= j < s.len() && (#[trigger] s[j]).0 == k2;
            assert(t[j].0 == k2);
        }
        if assoc_has_key(t, k2) {
            let j = choose|j: int| 0 <= j < t.len() && (#[trigger] t[j]).0 == k2;
            assert(s[j].0 == k2);
        }
    }
    assert forall|k2: K| #[trigger] assoc_has_key(t, k2) implies assoc_find(t, k2)
        == if k2 == k { Some(v) } else { assoc_find(s, k2) } by {
        if k2 == k {
            assert forall|j: int| 0 <= j < i implies (#[trigger] t[j]).0 != k by {
                assert(t[j].0 == s[j].0);
            }
            lemma_find_at_first_match(t, k, i);
        } else {
            let j = choose|j: int| 0 <= j < t.len() && (#[trigger] t[j]).0 == k2;
            assert(s[j].0 == k2);
            let j0 = first_index(s, k2);
            lemma_first_index(s, k2);
            assert(t[j0].0 == k2);
            assert forall|l: int| 0 <= l < j0 implies (#[trigger] t[l]).0 != k2 by {
                assert(t[l].0 == s[l].0 || l == i);
            }
            lemma_find_at_first_match(t, k2, j0);
            lemma_find_at_first_match(s, k2, j0);
        }
    }
    assert(assoc_map(t) =~= assoc_map(s).insert(k, v));
    assert forall|a: int, b: int| 0 <= a < b < t.len() implies (#[trigger] t[a]).0
        != (#[trigger] t[b]).0 by {
        assert(t[a].0 == s[a].0);
        assert(t[b].0 == s[b].0);
    }
}

/// The index of the first pair of `s` carrying `k`; meaningful only when
/// some pair does.
pub open spec fn first_index<K, V>(s: Seq<(K, V)>, k: K) -> int {
    choose|i: int| 0 <= i < s.len() && (#[trigger] s[i]).0 == k && forall|j: int|
        0 <= j < i ==> (#[trigger] s[j]).0 != k
}

/// When some pair carries `k`, `first_index` names a real index: in range,
/// carrying `k`, with no earlier pair carrying it.
pub proof fn lemma_first_index<K, V>(s: Seq<(K, V)>, k: K)
    requires
        assoc_has_key(s, k),
    ensures
        0 <= first_index(s, k) < s.len(),
        s[first_index(s, k)].0 == k,
        forall|j: int| 0 <= j < first_index(s, k) ==> (#[trigger] s[j]).0 != k,
    decreases s.len(),
{
    if s[0].0 == k {
        let w: int = 0;
        assert(0 <= w < s.len() && s[w].0 == k && forall|j: int| 0 <= j < w ==> (
        #[trigger] s[j]).0 != k);
    } else {
        let i = choose|i: int| 0 <= i < s.len() && (#[trigger] s[i]).0 == k;
        assert(s.skip(1)[i - 1] == s[i]);
        assert(assoc_has_key(s.skip(1), k));
        lemma_first_index(s.skip(1), k);
        let w = first_index(s.skip(1), k) + 1;
        assert(s[w] == s.skip(1)[w - 1]);
        assert forall|j: int| 0 <= j < w implies (#[trigger] s[j]).0 != k by {
            if j > 0 {
                assert(s.skip(1)[j - 1] == s[j]);
            }
        }
        assert(0 <= w < s.len() && s[w].0 == k && forall|j: int| 0 <= j < w ==> (
        #[trigger] s[j]).0 != k);
    }
}

/// Removing the pair at `i` unbinds its key and leaves every other key's
/// binding unchanged.
pub proof fn lemma_remove_at<K, V>(s: Seq<(K, V)>, i: int)
    requires
        unique_keys(s),
        0 <= i < s.len(),
    ensures
        assoc_map(s.remove(i)) == assoc_map(s).remove(s[i].0),
        unique_keys(s.remove(i)),
{
    let k = s[i].0;
    let t = s.remove(i);
    assert forall|a: int, b: int| 0 <= a < b < t.len() implies (#[trigger] t[a]).0
        != (#[trigger] t[b]).0 by {
        let a0 = if a < i { a } else { a + 1 };
        let b0 = if b < i { b } else { b + 1 };
        assert(t[a] == s[a0]);
        assert(t[b] == s[b0]);
    }
    assert forall|k2: K| true implies #[trigger] assoc_has_key(t, k2) == (assoc_has_key(s, k2)
        && k2 != k) by {
        if assoc_has_key(t, k2) {
            let j = choose|j: int| 0 <= j < t.len() && (#[trigger] t[j]).0 == k2;
            let j0 = if j < i { j } else { j + 1 };
            assert(s[j0].0 == k2);
            assert(j0 != i ==> s[j0].0 != s[i].0);
        }
        if assoc_has_key(s, k2) && k2 != k {
            let j = choose|j: int| 0 <= j < s.len() && (#[trigger] s[j]).0 == k2;
            if j < i {
                assert(t[j].0 == k2);
            } else {
                assert(t[j - 1].0 == k2);
            }
        }
    }
    assert forall|k2: K| #[trigger] assoc_has_key(t, k2) implies assoc_find(t, k2)
        == assoc_find(s, k2) by {
        let j = choose|j: int| 0 <= j < t.len() && (#[trigger] t[j]).0 == k2;
        let j0 = if j < i { j } else { j + 1 };
        assert(s[j0].0 == k2);
        lemma_first_index(s, k2);
        let f = first_index(s, k2);
        lemma_find_at_first_match(s, k2, f);
        let f2 = if f < i { f } else { f - 1 };
        assert(f != i);
        assert(t[f2] == s[f]);
        assert forall|l: int| 0 <= l < f2 implies (#[trigger] t[l]).0 != k2 by {
            let l0 = if l < i { l } else { l + 1 };
            assert(t[l] == s[l0]);
        }
        lemma_find_at_first_match(t, k2, f2);
    }
    assert(assoc_map(t) =~= assoc_map(s).remove(k));
}

/// With unique keys, the pair at any index is the binding of its key.
pub proof fn lemma_index_is_binding<K, V>(s: Seq<(K, V)>, i: int)
    requires
        unique_keys(s),
        0 <= i < s.len(),
    ensures
        assoc_has_key(s, s[i].0),
        assoc_find(s, s[i].0) == Some(s[i].1),
{
    assert forall|j: int| 0 <= j < i implies (#[trigger] s[j]).0 != s[i].0 by {}
    lemma_find_at_first_match(s, s[i].0, i);
}

} // verus!
