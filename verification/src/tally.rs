use vstd::prelude::*;
use crate::text::str_eq;
use crate::microvm::str_views;

verus! {

/// How often a key occurs.
pub struct KeyCount {
    pub key: String,
    pub count: u64,
}

/// The number of entries of `s` equal to `k`.
pub open spec fn occurrences(s: Seq<Seq<char>>, k: Seq<char>) -> nat
    decreases s.len(),
{
    if s.len() == 0 {
        0
    } else {
        occurrences(s.drop_last(), k) + if s.last() == k { 1nat } else { 0nat }
    }
}

/// The distinct entries of `s` in the order in which each first occurs.
pub open spec fn first_appearances(s: Seq<Seq<char>>) -> Seq<Seq<char>>
    decreases s.len(),
{
    if s.len() == 0 {
        Seq::empty()
    } else {
        let d = first_appearances(s.drop_last());
        if d.contains(s.last()) {
            d
        } else {
            d.push(s.last())
        }
    }
}

/// The keys of a tally, in its order.
pub open spec fn tally_keys(r: Seq<KeyCount>) -> Seq<Seq<char>> {
    r.map_values(|e: KeyCount| e.key@)
}

proof fn lemma_occurrences_bound(s: Seq<Seq<char>>, k: Seq<char>)
    ensures
        occurrences(s, k) <= s.len(),
        occurrences(s, k) > 0 <==> s.contains(k),
    decreases s.len(),
{
    if s.len() > 0 {
        lemma_occurrences_bound(s.drop_last(), k);
        if s.drop_last().contains(k) {
            let i = choose|i: int| 0 <= i < s.drop_last().len() && s.drop_last()[i] == k;
            assert(s[i] == k);
        }
        if s.contains(k) && s.last() != k {
            let i = choose|i: int| 0 <= i < s.len() && s[i] == k;
            assert(s.drop_last()[i] == k);
        }
    }
}

/// Counts the keys of `keys` (the days or packages of a build history): each distinct key
/// once, in the order of first appearance, with the number of times it occurs.
pub fn tally(keys: &[String]) -> (r: Vec<KeyCount>)
    ensures
        tally_keys(r@) == first_appearances(str_views(keys@)),
        forall|i: int, j: int| 0 <= i < j < r@.len() ==> (#[trigger] r@[i]).key@ != (#[trigger] r@[j]).key@,
        forall|i: int|
            0 <= i < r@.len() ==> (#[trigger] r@[i]).count == occurrences(
                str_views(keys@),
                r@[i].key@,
            ),
        forall|k: Seq<char>|
            #[trigger] str_views(keys@).contains(k) <==> exists|i: int| 0 <= i < r@.len() && (#[trigger] r@[i]).key@ == k,
{
    let ghost ks = str_views(keys@);
    let mut r: Vec<KeyCount> = Vec::new();
    let mut n: usize = 0;
    while n < keys.len()
        invariant
            n <= keys@.len(),
            ks == str_views(keys@),
            tally_keys(r@) == first_appearances(ks.take(n as int)),
            forall|i: int, j: int| 0 <= i < j < r@.len() ==> (#[trigger] r@[i]).key@ != (#[trigger] r@[j]).key@,
            forall|i: int| 0 <= i < r@.len() ==> (#[trigger] r@[i]).count == occurrences(ks.take(n as int), r@[i].key@),
            forall|k: Seq<char>|
                #[trigger] ks.take(n as int).contains(k) <==> exists|i: int| 0 <= i < r@.len() && (#[trigger] r@[i]).key@ == k,
        decreases keys@.len() - n,
    {
        let ghost prev = ks.take(n as int);
        let ghost cur = ks.take(n + 1);
        proof {
            assert(cur.drop_last() =~= prev);
            assert(cur.last() == keys@[n as int]@);
        }
        let k = &keys[n];
        let mut i: usize = 0;
        while i < r.len() && !str_eq(r[i].key.as_str(), k.as_str())
            invariant
                i <= r@.len(),
                forall|j: int| 0 <= j < i ==> (#[trigger] r@[j]).key@ != k@,
            decreases r@.len() - i,
        {
            i = i + 1;
        }
        proof {
            lemma_occurrences_bound(prev, k@);
        }
        let ghost old_r = r@;
        if i < r.len() {
            proof {
                lemma_occurrences_bound(prev, r@[i as int].key@);
                assert(prev.len() == n);
            }
            let c = r[i].count;
            let e = KeyCount { key: r[i].key.clone(), count: c + 1 };
            r.set(i, e);
        } else {
            proof {
                assert(!prev.contains(k@));
                assert(occurrences(prev, k@) == 0);
            }
            r.push(KeyCount { key: k.clone(), count: 1 });
        }
        proof {
            let d = first_appearances(prev);
            assert(tally_keys(old_r) == d);
            if i < old_r.len() {
                assert(d[i as int] == k@);
                assert(d.contains(k@));
                assert(tally_keys(r@) =~= tally_keys(old_r));
            } else {
                if d.contains(k@) {
                    let t = choose|t: int| 0 <= t < d.len() && d[t] == k@;
                    assert(old_r[t].key@ == k@);
                }
                assert(tally_keys(r@) =~= d.push(k@));
            }
            assert(first_appearances(cur) == if d.contains(cur.last()) { d } else { d.push(cur.last()) });
            assert forall|t: int| 0 <= t < r@.len() implies (#[trigger] r@[t]).count == occurrences(cur, r@[t].key@) by {
            }
            assert forall|kk: Seq<char>| #[trigger] cur.contains(kk) <==> exists|t: int| 0 <= t < r@.len() && (#[trigger] r@[t]).key@ == kk by {
                if cur.contains(kk) {
                    let m = choose|m: int| 0 <= m < cur.len() && cur[m] == kk;
                    if m < n {
                        assert(prev[m] == kk);
                        assert(prev.contains(kk));
                        let t = choose|t: int| 0 <= t < old_r.len() && (#[trigger] old_r[t]).key@ == kk;
                        assert(r@[t].key@ == kk);
                    } else {
                        assert(kk == k@);
                        if i < r@.len() {
                            assert(r@[i as int].key@ == kk);
                        } else {
                            assert(r@[r@.len() - 1].key@ == kk);
                        }
                    }
                }
                if exists|t: int| 0 <= t < r@.len() && (#[trigger] r@[t]).key@ == kk {
                    let t = choose|t: int| 0 <= t < r@.len() && (#[trigger] r@[t]).key@ == kk;
                    if kk == k@ {
                        assert(cur[n as int] == kk);
                    } else {
                        assert(t < old_r.len());
                        assert(old_r[t].key@ == kk);
                        assert(prev.contains(kk));
                        let m = choose|m: int| 0 <= m < prev.len() && prev[m] == kk;
                        assert(cur[m] == kk);
                    }
                }
            }
        }
        n = n + 1;
    }
    proof {
        assert(ks.take(n as int) =~= ks);
    }
    r
}

/// The 1-based nearest rank of percentile `pct` among `n` values, `ceil(pct * n / 100)`.
pub open spec fn nearest_rank(n: int, pct: int) -> int {
    (pct * n + 99) / 100
}

/// The position, in ascending order, of the value at percentile `pct` (1 to 100) among
/// `n > 0` values by the nearest-rank method: rank `ceil(pct * n / 100)`, counted from 1.
pub fn nearest_rank_index(n: usize, pct: u64) -> (r: usize)
    requires
        n > 0,
        1 <= pct <= 100,
    ensures
        r == nearest_rank(n as int, pct as int) - 1,
        r < n,
{
    proof {
        assert(pct * n <= 100 * n) by (nonlinear_arith)
            requires
                pct <= 100,
                n >= 0,
        ;
        assert(pct * n >= 1) by (nonlinear_arith)
            requires
                pct >= 1,
                n >= 1,
        ;
        assert((pct * n + 99) / 100 <= n) by (nonlinear_arith)
            requires
                pct * n <= 100 * n,
                n >= 0,
        ;
        assert((pct * n + 99) / 100 >= 1) by (nonlinear_arith)
            requires
                pct * n >= 1,
        ;
    }
    let prod: u128 = pct as u128 * n as u128;
    let wide: u128 = (prod + 99) / 100;
    (wide as usize) - 1
}

} // verus!
