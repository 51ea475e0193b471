use vstd::prelude::*;

verus! {

/// The map from key to entry that a list of entries describes; a later entry with the
/// same key wins.
pub open spec fn keyed<T>(s: Seq<T>, key: spec_fn(T) -> Seq<char>) -> Map<Seq<char>, T>
    decreases s.len(),
{
    if s.len() == 0 {
        Map::empty()
    } else {
        keyed(s.drop_last(), key).insert(key(s.last()), s.last())
    }
}

/// No two entries share a key.
pub open spec fn keys_distinct<T>(s: Seq<T>, key: spec_fn(T) -> Seq<char>) -> bool {
    forall|i: int, j: int| 0 <= i < s.len() && 0 <= j < s.len() && i != j ==> key(#[trigger] s[i]) != key(#[trigger] s[j])
}

/// Some entry has key `k`.
pub open spec fn has_key<T>(s: Seq<T>, key: spec_fn(T) -> Seq<char>, k: Seq<char>) -> bool {
    exists|i: int| 0 <= i < s.len() && key(#[trigger] s[i]) == k
}

pub proof fn lemma_keyed_dom<T>(s: Seq<T>, key: spec_fn(T) -> Seq<char>, k: Seq<char>)
    ensures
        keyed(s, key).contains_key(k) <==> has_key(s, key, k),
    decreases s.len(),
{
    if s.len() > 0 {
        let t = s.drop_last();
        lemma_keyed_dom(t, key, k);
        if has_key(t, key, k) {
            let i = choose|i: int| 0 <= i < t.len() && key(#[trigger] t[i]) == k;
            assert(key(s[i]) == k);
        }
        if has_key(s, key, k) {
            let i = choose|i: int| 0 <= i < s.len() && key(#[trigger] s[i]) == k;
            if i < s.len() - 1 {
                assert(key(t[i]) == k);
            }
        }
    }
}

pub proof fn lemma_keyed_value<T>(s: Seq<T>, key: spec_fn(T) -> Seq<char>, i: int)
    requires
        0 <= i < s.len(),
        keys_distinct(s, key),
    ensures
        keyed(s, key).contains_key(key(s[i])),
        keyed(s, key)[key(s[i])] == s[i],
    decreases s.len(),
{
    if i < s.len() - 1 {
        let t = s.drop_last();
        assert(t[i] == s[i]);
        assert forall|a: int, b: int| 0 <= a < t.len() && 0 <= b < t.len() && a != b implies key(
            #[trigger] t[a],
        ) != key(#[trigger] t[b]) by {
            assert(key(s[a]) != key(s[b]));
        }
        lemma_keyed_value(t, key, i);
        assert(key(s.last()) != key(s[i]));
    }
}

pub proof fn lemma_keyed_update<T>(s: Seq<T>, key: spec_fn(T) -> Seq<char>, i: int, e: T)
    requires
        0 <= i < s.len(),
        key(s[i]) == key(e),
        keys_distinct(s, key),
    ensures
        keyed(s.update(i, e), key) == keyed(s, key).insert(key(e), e),
        keys_distinct(s.update(i, e), key),
    decreases s.len(),
{
    let u = s.update(i, e);
    assert forall|a: int, b: int| 0 <= a < u.len() && 0 <= b < u.len() && a != b implies key(
        #[trigger] u[a],
    ) != key(#[trigger] u[b]) by {
        assert(key(s[a]) != key(s[b]));
    }
    if i == s.len() - 1 {
        assert(u.drop_last() =~= s.drop_last());
        assert(keyed(u, key) =~= keyed(s, key).insert(key(e), e));
    } else {
        let t = s.drop_last();
        assert(u.drop_last() =~= t.update(i, e));
        assert forall|a: int, b: int| 0 <= a < t.len() && 0 <= b < t.len() && a != b implies key(
            #[trigger] t[a],
        ) != key(#[trigger] t[b]) by {
            assert(key(s[a]) != key(s[b]));
        }
        lemma_keyed_update(t, key, i, e);
        assert(key(s.last()) != key(e));
        assert(keyed(u, key) =~= keyed(s, key).insert(key(e), e));
    }
}

pub proof fn lemma_keyed_push<T>(s: Seq<T>, key: spec_fn(T) -> Seq<char>, e: T)
    requires
        keys_distinct(s, key),
        !has_key(s, key, key(e)),
    ensures
        keyed(s.push(e), key) == keyed(s, key).insert(key(e), e),
        keys_distinct(s.push(e), key),
{
    let u = s.push(e);
    assert(u.drop_last() =~= s);
    assert forall|a: int, b: int| 0 <= a < u.len() && 0 <= b < u.len() && a != b implies key(
        #[trigger] u[a],
    ) != key(#[trigger] u[b]) by {
        if a < s.len() && b < s.len() {
            assert(key(s[a]) != key(s[b]));
        } else if a < s.len() {
            assert(u[a] == s[a]);
        } else {
            assert(u[b] == s[b]);
        }
    }
}

pub proof fn lemma_keyed_len<T>(s: Seq<T>, key: spec_fn(T) -> Seq<char>)
    requires
        keys_distinct(s, key),
    ensures
        keyed(s, key).dom().finite(),
        keyed(s, key).len() == s.len(),
    decreases s.len(),
{
    if s.len() > 0 {
        let t = s.drop_last();
        assert forall|a: int, b: int| 0 <= a < t.len() && 0 <= b < t.len() && a != b implies key(
            #[trigger] t[a],
        ) != key(#[trigger] t[b]) by {
            assert(key(s[a]) != key(s[b]));
        }
        lemma_keyed_len(t, key);
        lemma_keyed_dom(t, key, key(s.last()));
        if has_key(t, key, key(s.last())) {
            let i = choose|i: int| 0 <= i < t.len() && key(#[trigger] t[i]) == key(s.last());
            assert(key(s[i]) == key(s[s.len() - 1]));
        }
    }
}

pub proof fn lemma_keyed_remove<T>(s: Seq<T>, key: spec_fn(T) -> Seq<char>, i: int)
    requires
        0 <= i < s.len(),
        keys_distinct(s, key),
    ensures
        keyed(s.remove(i), key) == keyed(s, key).remove(key(s[i])),
        keys_distinct(s.remove(i), key),
    decreases s.len(),
{
    let u = s.remove(i);
    assert forall|a: int, b: int| 0 <= a < u.len() && 0 <= b < u.len() && a != b implies key(
        #[trigger] u[a],
    ) != key(#[trigger] u[b]) by {
        let a2 = if a < i { a } else { a + 1 };
        let b2 = if b < i { b } else { b + 1 };
        assert(u[a] == s[a2] && u[b] == s[b2]);
        assert(key(s[a2]) != key(s[b2]));
    }
    if i == s.len() - 1 {
        assert(u =~= s.drop_last());
        lemma_keyed_dom(s.drop_last(), key, key(s[i]));
        if has_key(s.drop_last(), key, key(s[i])) {
            let j = choose|j: int| 0 <= j < s.drop_last().len() && key(#[trigger] s.drop_last()[j]) == key(s[i]);
            assert(key(s[j]) == key(s[i]));
        }
        assert(keyed(u, key) =~= keyed(s, key).remove(key(s[i])));
    } else {
        let t = s.drop_last();
        assert(u.drop_last() =~= t.remove(i));
        assert(u.last() == s.last());
        assert forall|a: int, b: int| 0 <= a < t.len() && 0 <= b < t.len() && a != b implies key(
            #[trigger] t[a],
        ) != key(#[trigger] t[b]) by {
            assert(key(s[a]) != key(s[b]));
        }
        lemma_keyed_remove(t, key, i);
        assert(t[i] == s[i]);
        assert(key(s.last()) != key(s[i]));
        assert(keyed(u, key) =~= keyed(s, key).remove(key(s[i])));
    }
}

} // verus!
