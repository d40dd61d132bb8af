//! Sequences of keyed items read as maps: the item of each key is the last
//! one that carries it.
use vstd::prelude::*;

verus! {

/// The map from each key in `s` to the value of the last item with that key.
pub open spec fn table<T, V>(s: Seq<T>, key: spec_fn(T) -> Seq<char>, val: spec_fn(T) -> V) -> Map<
    Seq<char>,
    V,
>
    decreases s.len(),
{
    if s.len() == 0 {
        Map::empty()
    } else {
        table(s.drop_last(), key, val).insert(key(s.last()), val(s.last()))
    }
}

/// No two items of `s` carry the same key.
pub open spec fn keys_unique<T>(s: Seq<T>, key: spec_fn(T) -> Seq<char>) -> bool {
    forall|i: int, j: int| 0 <= i < j < s.len() ==> key(s[i]) != key(s[j])
}

/// A key is in the table exactly when some item carries it, and with unique
/// keys that item gives its value.
pub proof fn lemma_table_lookup<T, V>(
    s: Seq<T>,
    key: spec_fn(T) -> Seq<char>,
    val: spec_fn(T) -> V,
    k: Seq<char>,
)
    requires
        keys_unique(s, key),
    ensures
        table(s, key, val).contains_key(k) <==> exists|i: int| 0 <= i < s.len() && key(s[i]) == k,
        forall|i: int|
            0 <= i < s.len() && key(s[i]) == k ==> table(s, key, val)[k] == val(s[i]),
    decreases s.len(),
{
    if s.len() > 0 {
        let t = s.drop_last();
        assert(keys_unique(t, key));
        lemma_table_lookup(t, key, val, k);
        if table(s, key, val).contains_key(k) && key(s.last()) != k {
            let i = choose|i: int| 0 <= i < t.len() && key(t[i]) == k;
            assert(key(s[i]) == k);
        }
        assert forall|i: int| 0 <= i < s.len() && key(s[i]) == k implies table(s, key, val)[k]
            == val(s[i]) by {
            if i < t.len() {
                assert(key(t[i]) == k);
            }
        }
        if exists|i: int| 0 <= i < s.len() && key(s[i]) == k {
            let i = choose|i: int| 0 <= i < s.len() && key(s[i]) == k;
            if i < t.len() {
                assert(key(t[i]) == k);
            }
        }
    }
}

/// Appending an item with a new key adds that key to the table.
pub proof fn lemma_table_push<T, V>(
    s: Seq<T>,
    key: spec_fn(T) -> Seq<char>,
    val: spec_fn(T) -> V,
    x: T,
)
    requires
        keys_unique(s, key),
        forall|i: int| 0 <= i < s.len() ==> key(s[i]) != key(x),
    ensures
        keys_unique(s.push(x), key),
        table(s.push(x), key, val) == table(s, key, val).insert(key(x), val(x)),
{
    assert(s.push(x).drop_last() =~= s);
}

/// Replacing an item by one with the same key replaces that key's value.
pub proof fn lemma_table_update<T, V>(
    s: Seq<T>,
    key: spec_fn(T) -> Seq<char>,
    val: spec_fn(T) -> V,
    i: int,
    x: T,
)
    requires
        keys_unique(s, key),
        0 <= i < s.len(),
        key(x) == key(s[i]),
    ensures
        keys_unique(s.update(i, x), key),
        table(s.update(i, x), key, val) == table(s, key, val).insert(key(x), val(x)),
    decreases s.len(),
{
    let u = s.update(i, x);
    assert(keys_unique(u, key)) by {
        assert forall|a: int, b: int| 0 <= a < b < u.len() implies key(u[a]) != key(u[b]) by {
            assert(key(u[a]) == key(s[a]));
            assert(key(u[b]) == key(s[b]));
        }
    }
    if i == s.len() - 1 {
        assert(u.drop_last() =~= s.drop_last());
        assert(table(u, key, val) =~= table(s, key, val).insert(key(x), val(x)));
    } else {
        let t = s.drop_last();
        assert(keys_unique(t, key));
        lemma_table_update(t, key, val, i, x);
        assert(u.drop_last() =~= t.update(i, x));
        assert(key(s.last()) != key(x));
        assert(table(u, key, val) =~= table(s, key, val).insert(key(x), val(x)));
    }
}

} // verus!
