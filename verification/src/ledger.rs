//! The mathematics of the banker's algorithm.
//!
//! A ledger is described by three tables: `avail[r]` free units of resource `r`,
//! `holding[t][r]` units of `r` that thread `t` holds, and `claims[t][r]` the most
//! units of `r` that thread `t` will ever hold at once. A state is *safe* when
//! the threads can be ordered so that each of them, in turn, can be given all it
//! still needs from what is free plus what the threads before it handed back.
use vstd::prelude::*;
use vstd::set_lib::*;

verus! {

/// The thread indices `0, 1, ..., n - 1`, in that order.
pub open spec fn threads(n: int) -> Seq<int> {
    Seq::new(n as nat, |t: int| t)
}

/// Units of resource `r` held, all together, by the threads listed in `s`.
pub open spec fn held(holding: Seq<Seq<usize>>, s: Seq<int>, r: int) -> int
    decreases s.len(),
{
    if s.len() == 0 {
        0
    } else {
        held(holding, s.drop_last(), r) + holding[s.last()][r]
    }
}

/// Units of resource `r` that are free once every thread in `s` has finished
/// and given back what it holds.
pub open spec fn work_after(avail: Seq<usize>, holding: Seq<Seq<usize>>, s: Seq<int>, r: int) -> int {
    avail[r] + held(holding, s, r)
}

/// Units of resource `r` that thread `t` may still ask for.
pub open spec fn need(holding: Seq<Seq<usize>>, claims: Seq<Seq<usize>>, t: int, r: int) -> int {
    claims[t][r] - holding[t][r]
}

/// Thread `t` can be given all it still needs once the threads in `s` have finished.
pub open spec fn can_finish(
    avail: Seq<usize>,
    holding: Seq<Seq<usize>>,
    claims: Seq<Seq<usize>>,
    s: Seq<int>,
    t: int,
) -> bool {
    forall|r: int|
        0 <= r < avail.len() ==> #[trigger] need(holding, claims, t, r) <= work_after(avail, holding, s, r)
}

/// `order` lists every thread exactly once, and each thread in it can finish
/// with what is free once the threads before it have finished.
pub open spec fn is_safe_order(
    avail: Seq<usize>,
    holding: Seq<Seq<usize>>,
    claims: Seq<Seq<usize>>,
    order: Seq<int>,
) -> bool {
    &&& order.no_duplicates()
    &&& forall|k: int| 0 <= k < order.len() ==> 0 <= #[trigger] order[k] < holding.len()
    &&& forall|t: int| 0 <= t < holding.len() ==> #[trigger] order.contains(t)
    &&& forall|k: int|
        0 <= k < order.len() ==> #[trigger] can_finish(avail, holding, claims, order.take(k), order[k])
}

/// A safe state: some order of the threads lets every one of them finish.
pub open spec fn is_safe(avail: Seq<usize>, holding: Seq<Seq<usize>>, claims: Seq<Seq<usize>>) -> bool {
    exists|order: Seq<int>| is_safe_order(avail, holding, claims, order)
}

/// Every row of `holding` has one entry per resource.
pub open spec fn rows_have_len(holding: Seq<Seq<usize>>, m: int) -> bool {
    forall|t: int| 0 <= t < holding.len() ==> #[trigger] holding[t].len() == m
}

/// `holding` with one unit of resource `r` added to (`delta == 1`) or taken from
/// (`delta == -1`) thread `t`.
pub open spec fn moved(holding: Seq<Seq<usize>>, t: int, r: int, delta: int) -> Seq<Seq<usize>> {
    holding.update(t, holding[t].update(r, (holding[t][r] + delta) as usize))
}

/// Elements of `s` are thread indices below `n`.
pub open spec fn within(s: Seq<int>, n: int) -> bool {
    forall|k: int| 0 <= k < s.len() ==> 0 <= #[trigger] s[k] < n
}

pub proof fn lemma_held_nonneg(holding: Seq<Seq<usize>>, s: Seq<int>, r: int)
    ensures
        held(holding, s, r) >= 0,
    decreases s.len(),
{
    if s.len() > 0 {
        lemma_held_nonneg(holding, s.drop_last(), r);
    }
}

/// Threads that hold nothing of `r` hold nothing of it all together.
pub proof fn lemma_held_zero(holding: Seq<Seq<usize>>, s: Seq<int>, r: int)
    requires
        within(s, holding.len() as int),
        forall|t: int| 0 <= t < holding.len() ==> #[trigger] holding[t][r] == 0,
    ensures
        held(holding, s, r) == 0,
    decreases s.len(),
{
    if s.len() > 0 {
        let p = s.drop_last();
        assert(within(p, holding.len() as int)) by {
            assert forall|k: int| 0 <= k < p.len() implies 0 <= #[trigger] p[k] < holding.len() by {
                assert(p[k] == s[k]);
            }
        }
        lemma_held_zero(holding, p, r);
        assert(s[s.len() - 1] == s.last());
    }
}

/// Taking one thread out of a list lowers what the list holds by what that thread holds.
pub proof fn lemma_held_remove(holding: Seq<Seq<usize>>, s: Seq<int>, j: int, r: int)
    requires
        0 <= j < s.len(),
    ensures
        held(holding, s, r) == held(holding, s.remove(j), r) + holding[s[j]][r],
    decreases s.len(),
{
    if j == s.len() - 1 {
        assert(s.remove(j) =~= s.drop_last());
    } else {
        lemma_held_remove(holding, s.drop_last(), j, r);
        assert(s.remove(j).drop_last() =~= s.drop_last().remove(j));
        assert(s.remove(j).last() == s.last());
    }
}

proof fn lemma_remove_no_duplicates(s: Seq<int>, j: int)
    requires
        s.no_duplicates(),
        0 <= j < s.len(),
    ensures
        s.remove(j).no_duplicates(),
        forall|x: int| s.contains(x) && x != s[j] ==> #[trigger] s.remove(j).contains(x),
{
    let u = s.remove(j);
    assert forall|a: int, b: int| 0 <= a < u.len() && 0 <= b < u.len() && a != b implies u[a] != u[b] by {
        let sa = if a < j { a } else { a + 1 };
        let sb = if b < j { b } else { b + 1 };
        assert(u[a] == s[sa]);
        assert(u[b] == s[sb]);
    }
    assert forall|x: int| s.contains(x) && x != s[j] implies #[trigger] u.contains(x) by {
        let i = s.index_of(x);
        if i < j {
            assert(u[i] == x);
        } else {
            assert(i != j);
            assert(u[i - 1] == x);
        }
    }
}

/// What a list of distinct threads holds is at most what a list of distinct
/// threads that includes all of them holds.
pub proof fn lemma_held_subset(holding: Seq<Seq<usize>>, a: Seq<int>, b: Seq<int>, r: int)
    requires
        a.no_duplicates(),
        b.no_duplicates(),
        forall|x: int| a.contains(x) ==> b.contains(x),
    ensures
        held(holding, a, r) <= held(holding, b, r),
    decreases a.len(),
{
    if a.len() == 0 {
        lemma_held_nonneg(holding, b, r);
    } else {
        let x = a.last();
        assert(a.contains(x)) by {
            assert(a[a.len() - 1] == x);
        }
        let j = b.index_of(x);
        lemma_held_remove(holding, b, j, r);
        lemma_remove_no_duplicates(b, j);
        let a2 = a.drop_last();
        let b2 = b.remove(j);
        assert forall|y: int| a2.contains(y) implies b2.contains(y) by {
            let k = a2.index_of(y);
            assert(a[k] == y);
            assert(a.contains(y));
            assert(y != x);
        }
        assert(a2.no_duplicates()) by {
            assert forall|p: int, q: int| 0 <= p < a2.len() && 0 <= q < a2.len() && p != q implies a2[p] != a2[q] by {
                assert(a2[p] == a[p]);
                assert(a2[q] == a[q]);
            }
        }
        lemma_held_subset(holding, a2, b2, r);
    }
}

/// Moving one unit of resource `r` to or from thread `t` changes what a list of
/// distinct threads holds of `q` only where `q == r` and `t` is in the list.
pub proof fn lemma_held_moved(
    holding: Seq<Seq<usize>>,
    s: Seq<int>,
    t: int,
    r: int,
    delta: int,
    q: int,
    m: int,
)
    requires
        s.no_duplicates(),
        within(s, holding.len() as int),
        rows_have_len(holding, m),
        0 <= t < holding.len(),
        0 <= r < m,
        0 <= q < m,
        0 <= holding[t][r] + delta <= usize::MAX,
    ensures
        held(moved(holding, t, r, delta), s, q) == held(holding, s, q) + (if q == r && s.contains(t) {
            delta
        } else {
            0
        }),
    decreases s.len(),
{
    if s.len() > 0 {
        let p = s.drop_last();
        let x = s.last();
        assert(p.no_duplicates()) by {
            assert forall|a: int, b: int| 0 <= a < p.len() && 0 <= b < p.len() && a != b implies p[a] != p[b] by {
                assert(p[a] == s[a]);
                assert(p[b] == s[b]);
            }
        }
        assert(within(p, holding.len() as int)) by {
            assert forall|k: int| 0 <= k < p.len() implies 0 <= #[trigger] p[k] < holding.len() by {
                assert(p[k] == s[k]);
            }
        }
        lemma_held_moved(holding, p, t, r, delta, q, m);
        assert(0 <= x < holding.len()) by {
            assert(s[s.len() - 1] == x);
        }
        assert(s.contains(t) == (p.contains(t) || x == t)) by {
            if s.contains(t) {
                let i = s.index_of(t);
                if i < s.len() - 1 {
                    assert(p[i] == t);
                }
            }
            if p.contains(t) {
                let i = p.index_of(t);
                assert(s[i] == t);
            }
            if x == t {
                assert(s[s.len() - 1] == t);
            }
        }
        if x == t {
            assert(!p.contains(t)) by {
                if p.contains(t) {
                    let i = p.index_of(t);
                    assert(s[i] == t);
                    assert(s[s.len() - 1] == t);
                }
            }
        }
    }
}

/// A list of distinct thread indices below `n` has at most `n` entries.
pub proof fn lemma_distinct_threads_len(s: Seq<int>, n: int)
    requires
        s.no_duplicates(),
        within(s, n),
        0 <= n,
    ensures
        s.len() <= n,
{
    s.unique_seq_to_set();
    lemma_int_range(0, n);
    assert(s.to_set().subset_of(set_int_range(0, n))) by {
        assert forall|x: int| s.to_set().contains(x) implies set_int_range(0, n).contains(x) by {
            assert(s.contains(x));
            let k = s.index_of(x);
            assert(s[k] == x);
        }
    }
    lemma_len_subset(s.to_set(), set_int_range(0, n));
}

/// `threads(n)` lists every index below `n` once.
pub proof fn lemma_threads(n: int)
    requires
        0 <= n,
    ensures
        threads(n).len() == n,
        threads(n).no_duplicates(),
        within(threads(n), n),
        forall|t: int| 0 <= t < n ==> #[trigger] threads(n).contains(t),
{
    assert forall|t: int| 0 <= t < n implies #[trigger] threads(n).contains(t) by {
        assert(threads(n)[t] == t);
    }
}

/// What any list of distinct threads holds is at most what all threads hold.
pub proof fn lemma_held_le_all(holding: Seq<Seq<usize>>, s: Seq<int>, r: int)
    requires
        s.no_duplicates(),
        within(s, holding.len() as int),
    ensures
        held(holding, s, r) <= held(holding, threads(holding.len() as int), r),
{
    let n = holding.len() as int;
    lemma_threads(n);
    assert forall|x: int| s.contains(x) implies threads(n).contains(x) by {
        let k = s.index_of(x);
        assert(s[k] == x);
    }
    lemma_held_subset(holding, s, threads(n), r);
}

proof fn lemma_first_missing(order: Seq<int>, done: Seq<int>, j: int) -> (k: int)
    requires
        0 <= j <= order.len(),
        forall|i: int| 0 <= i < j ==> done.contains(#[trigger] order[i]),
        exists|i: int| j <= i < order.len() && !done.contains(#[trigger] order[i]),
    ensures
        j <= k < order.len(),
        !done.contains(order[k]),
        forall|i: int| 0 <= i < k ==> done.contains(#[trigger] order[i]),
    decreases order.len() - j,
{
    if j < order.len() && !done.contains(order[j]) {
        j
    } else {
        if j == order.len() {
            let i = choose|i: int| j <= i < order.len() && !done.contains(#[trigger] order[i]);
            assert(false);
        }
        lemma_first_missing(order, done, j + 1)
    }
}

/// When some thread is left unfinished and none of the unfinished threads can
/// finish with what the finished ones give back, the state is not safe.
///
/// This is why a greedy search that stops at the first dead end still decides
/// safety exactly: what is free only grows as threads finish.
pub proof fn lemma_stuck_not_safe(
    avail: Seq<usize>,
    holding: Seq<Seq<usize>>,
    claims: Seq<Seq<usize>>,
    done: Seq<int>,
)
    requires
        done.no_duplicates(),
        within(done, holding.len() as int),
        exists|t: int| 0 <= t < holding.len() && !done.contains(t),
        forall|t: int|
            0 <= t < holding.len() && !done.contains(t) ==> !#[trigger] can_finish(
                avail,
                holding,
                claims,
                done,
                t,
            ),
    ensures
        !is_safe(avail, holding, claims),
{
    assert forall|order: Seq<int>| !is_safe_order(avail, holding, claims, order) by {
        if is_safe_order(avail, holding, claims, order) {
            let t = choose|t: int| 0 <= t < holding.len() && !done.contains(t);
            assert(order.contains(t));
            let i0 = order.index_of(t);
            assert(!done.contains(order[i0]));
            let k = lemma_first_missing(order, done, 0);
            let x = order[k];
            let prefix = order.take(k);
            assert(prefix.no_duplicates()) by {
                assert forall|a: int, b: int| 0 <= a < prefix.len() && 0 <= b < prefix.len() && a != b implies prefix[a] != prefix[b] by {
                    assert(prefix[a] == order[a]);
                    assert(prefix[b] == order[b]);
                }
            }
            assert forall|y: int| prefix.contains(y) implies done.contains(y) by {
                let p = prefix.index_of(y);
                assert(prefix[p] == order[p]);
            }
            assert(can_finish(avail, holding, claims, prefix, x));
            assert(can_finish(avail, holding, claims, done, x)) by {
                assert forall|r: int| 0 <= r < avail.len() implies #[trigger] need(holding, claims, x, r) <= work_after(avail, holding, done, r) by {
                    assert(need(holding, claims, x, r) <= work_after(avail, holding, prefix, r));
                    lemma_held_subset(holding, prefix, done, r);
                }
            }
            assert(0 <= x < holding.len());
        }
    }
}

/// Handing a unit back keeps a safe state safe: the order that worked before still works.
pub proof fn lemma_release_keeps_safe(
    avail: Seq<usize>,
    holding: Seq<Seq<usize>>,
    claims: Seq<Seq<usize>>,
    t: int,
    r: int,
)
    requires
        is_safe(avail, holding, claims),
        rows_have_len(holding, avail.len() as int),
        0 <= t < holding.len(),
        0 <= r < avail.len(),
        holding[t][r] >= 1,
        avail[r] + 1 <= usize::MAX,
    ensures
        is_safe(avail.update(r, (avail[r] + 1) as usize), moved(holding, t, r, -1), claims),
{
    let order = choose|order: Seq<int>| is_safe_order(avail, holding, claims, order);
    let avail2 = avail.update(r, (avail[r] + 1) as usize);
    let holding2 = moved(holding, t, r, -1);
    let m = avail.len() as int;
    assert forall|k: int| 0 <= k < order.len() implies #[trigger] can_finish(
        avail2,
        holding2,
        claims,
        order.take(k),
        order[k],
    ) by {
        let prefix = order.take(k);
        let x = order[k];
        assert(prefix.no_duplicates()) by {
            assert forall|a: int, b: int| 0 <= a < prefix.len() && 0 <= b < prefix.len() && a != b implies prefix[a] != prefix[b] by {
                assert(prefix[a] == order[a]);
                assert(prefix[b] == order[b]);
            }
        }
        assert(within(prefix, holding.len() as int)) by {
            assert forall|i: int| 0 <= i < prefix.len() implies 0 <= #[trigger] prefix[i] < holding.len() by {
                assert(prefix[i] == order[i]);
            }
        }
        assert(!prefix.contains(x)) by {
            if prefix.contains(x) {
                let p = prefix.index_of(x);
                assert(prefix[p] == order[p]);
            }
        }
        assert(can_finish(avail, holding, claims, prefix, x));
        assert forall|q: int| 0 <= q < avail2.len() implies #[trigger] need(holding2, claims, x, q) <= work_after(avail2, holding2, prefix, q) by {
            lemma_held_moved(holding, prefix, t, r, -1, q, m);
            assert(need(holding, claims, x, q) <= work_after(avail, holding, prefix, q));
            assert(0 <= x < holding.len());
        }
    }
    assert(is_safe_order(avail2, holding2, claims, order));
}

} // verus!
