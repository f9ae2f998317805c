//! The banker's algorithm: resources are handed out one unit at a time, and only
//! when the system stays in a safe state afterwards, so that the threads can
//! never end up waiting on each other for ever.
use vstd::prelude::*;
use vstd::rwlock::RwLock;
use std::sync::Arc;
use crate::handles::share;
use crate::ledger::{
    can_finish, held, is_safe, is_safe_order, lemma_distinct_threads_len, lemma_held_le_all,
    lemma_held_moved, lemma_held_nonneg, lemma_held_remove, lemma_held_zero,
    lemma_release_keeps_safe, lemma_stuck_not_safe, moved, lemma_threads, need, rows_have_len, threads, within,
    work_after,
};

verus! {

/// The banker's books: `NRES` kinds of resource shared by `NTH` threads.
pub struct Resource<const NRES: usize, const NTH: usize> {
    /// Units of each resource that are free.
    available: [usize; NRES],
    /// Units of each resource that each thread holds.
    allocation: [[usize; NRES]; NTH],
    /// The most units of each resource that each thread will hold at once.
    max: [[usize; NRES]; NTH],
}

impl<const NRES: usize, const NTH: usize> Resource<NRES, NTH> {
    /// Free units, by resource.
    pub closed spec fn avail(&self) -> Seq<usize> {
        self.available@
    }

    /// Units held, by thread and resource.
    pub closed spec fn holding(&self) -> Seq<Seq<usize>> {
        Seq::new(NTH as nat, |t: int| self.allocation@[t]@)
    }

    /// Declared maximum claims, by thread and resource.
    pub closed spec fn claims(&self) -> Seq<Seq<usize>> {
        Seq::new(NTH as nat, |t: int| self.max@[t]@)
    }

    /// Units of resource `r` in the system: the free ones and the held ones.
    pub open spec fn total(&self, r: int) -> int {
        self.avail()[r] + held(self.holding(), threads(NTH as int), r)
    }

    /// Totals of every resource.
    pub open spec fn totals(&self) -> Seq<int> {
        Seq::new(NRES as nat, |r: int| self.total(r))
    }

    /// No thread holds anything.
    pub open spec fn idle(&self) -> bool {
        forall|t: int, r: int| 0 <= t < NTH && 0 <= r < NRES ==> #[trigger] self.holding()[t][r] == 0
    }

    /// The state is safe: some order of the threads lets each finish in turn.
    pub open spec fn safe(&self) -> bool {
        is_safe(self.avail(), self.holding(), self.claims())
    }

    /// The books are consistent: no thread holds more than it claimed, and the
    /// total of every resource fits in a `usize`.
    pub open spec fn wf(&self) -> bool {
        &&& self.avail().len() == NRES
        &&& self.holding().len() == NTH
        &&& self.claims().len() == NTH
        &&& rows_have_len(self.holding(), NRES as int)
        &&& rows_have_len(self.claims(), NRES as int)
        &&& forall|t: int, r: int|
            0 <= t < NTH && 0 <= r < NRES ==> #[trigger] self.holding()[t][r] <= self.claims()[t][r]
        &&& forall|r: int| 0 <= r < NRES ==> #[trigger] self.total(r) <= usize::MAX
    }

    /// Thread `t` could be given all it still needs out of `w`.
    pub open spec fn fits(&self, t: int, w: Seq<usize>) -> bool {
        forall|r: int| 0 <= r < NRES ==> #[trigger] need(self.holding(), self.claims(), t, r) <= w[r]
    }

    proof fn lemma_shape(&self)
        ensures
            self.avail().len() == NRES,
            self.holding().len() == NTH,
            self.claims().len() == NTH,
            rows_have_len(self.holding(), NRES as int),
            rows_have_len(self.claims(), NRES as int),
            forall|t: int, r: int|
                0 <= t < NTH && 0 <= r < NRES ==> #[trigger] self.holding()[t][r]
                    == self.allocation@[t]@[r],
            forall|t: int, r: int|
                0 <= t < NTH && 0 <= r < NRES ==> #[trigger] self.claims()[t][r] == self.max@[t]@[r],
    {
    }

    /// Books with `available` free units and the claims `max`, and nothing handed out.
    pub fn new(available: [usize; NRES], max: [[usize; NRES]; NTH]) -> (res: Self)
        ensures
            res.wf(),
            res.idle(),
            res.avail() == available@,
            forall|t: int, r: int|
                0 <= t < NTH && 0 <= r < NRES ==> #[trigger] res.claims()[t][r] == max@[t]@[r],
            forall|r: int| 0 <= r < NRES ==> #[trigger] res.total(r) == available@[r],
    {
        let res = Resource { available, allocation: [[0; NRES]; NTH], max };
        proof {
            res.lemma_shape();
            assert forall|r: int| 0 <= r < NRES implies #[trigger] res.total(r) == available@[r] by {
                lemma_held_zero(res.holding(), threads(NTH as int), r);
            }
        }
        res
    }

    /// Free units, by resource.
    pub fn available(&self) -> (free: [usize; NRES])
        ensures
            free@ == self.avail(),
    {
        self.available
    }

    /// Units of `resource` that thread `id` holds.
    pub fn held_by(&self, id: usize, resource: usize) -> (units: usize)
        requires
            id < NTH,
            resource < NRES,
        ensures
            units == self.holding()[id as int][resource as int],
    {
        proof {
            self.lemma_shape();
        }
        let row = self.allocation[id];
        row[resource]
    }

    /// Whether thread `i` could be given all it still needs out of `work`.
    fn fits_now(&self, i: usize, work: &[usize; NRES]) -> (ok: bool)
        requires
            self.wf(),
            i < NTH,
        ensures
            ok == self.fits(i as int, work@),
    {
        proof {
            self.lemma_shape();
        }
        let mut r: usize = 0;
        while r < NRES
            invariant
                r <= NRES,
                i < NTH,
                self.wf(),
                forall|q: int| 0 <= q < r ==> #[trigger] need(self.holding(), self.claims(), i as int, q)
                    <= work@[q],
            decreases NRES - r,
        {
            proof {
                self.lemma_shape();
            }
            let claim_row = self.max[i];
            let held_row = self.allocation[i];
            assert(held_row@[r as int] <= claim_row@[r as int]) by {
                assert(self.holding()[i as int][r as int] <= self.claims()[i as int][r as int]);
            }
            let need_r = claim_row[r] - held_row[r];
            assert(need(self.holding(), self.claims(), i as int, r as int) == need_r);
            if work[r] < need_r {
                return false;
            }
            r = r + 1;
        }
        true
    }

    /// Looks, in index order, for an unfinished thread that could finish with
    /// `work`; also counts the finished threads passed on the way.
    fn find_ready(&self, finish: &[bool; NTH], work: &[usize; NRES]) -> (res: (Option<usize>, usize))
        requires
            self.wf(),
        ensures
            match res.0 {
                Some(i) => i < NTH && !finish@[i as int] && self.fits(i as int, work@),
                None => {
                    &&& forall|j: int|
                        0 <= j < NTH && !finish@[j] ==> !#[trigger] self.fits(j, work@)
                    &&& (res.1 == NTH <==> forall|j: int| 0 <= j < NTH ==> #[trigger] finish@[j])
                },
            },
    {
        let mut num_true: usize = 0;
        let mut i: usize = 0;
        while i < NTH
            invariant
                i <= NTH,
                num_true <= i,
                self.wf(),
                num_true == i <==> forall|j: int| 0 <= j < i ==> #[trigger] finish@[j],
                forall|j: int| 0 <= j < i && !finish@[j] ==> !#[trigger] self.fits(j, work@),
            decreases NTH - i,
        {
            if finish[i] {
                num_true = num_true + 1;
            } else if self.fits_now(i, work) {
                return (Some(i), num_true);
            }
            i = i + 1;
        }
        (None, num_true)
    }

    /// Decides whether the current state is safe.
    ///
    /// Greedily lets the first thread that can finish do so, hands back what it
    /// holds, and starts again; the state is safe when every thread got to finish.
    pub fn is_safe(&self) -> (safe: bool)
        requires
            self.wf(),
        ensures
            safe == self.safe(),
    {
        proof {
            self.lemma_shape();
            lemma_threads(NTH as int);
        }
        let mut finish = [false; NTH];
        let mut work = self.available;
        let ghost avail = self.avail();
        let ghost holding = self.holding();
        let ghost claims = self.claims();
        let ghost mut done: Seq<int> = Seq::empty();
        loop
            invariant
                self.wf(),
                avail == self.avail(),
                holding == self.holding(),
                claims == self.claims(),
                done.no_duplicates(),
                within(done, NTH as int),
                forall|t: int| 0 <= t < NTH ==> (#[trigger] finish@[t] <==> done.contains(t)),
                forall|r: int| 0 <= r < NRES ==> #[trigger] work@[r] == work_after(avail, holding, done, r),
                forall|k: int|
                    0 <= k < done.len() ==> #[trigger] can_finish(
                        avail,
                        holding,
                        claims,
                        done.take(k),
                        done[k],
                    ),
            decreases NTH - done.len(),
        {
            proof {
                self.lemma_shape();
                lemma_distinct_threads_len(done, NTH as int);
            }
            let (ready, num_true) = self.find_ready(&finish, &work);
            match ready {
                Some(i) => {
                    proof {
                        assert(!done.contains(i as int));
                        assert(can_finish(avail, holding, claims, done, i as int)) by {
                            assert forall|r: int| 0 <= r < avail.len() implies #[trigger] need(
                                holding,
                                claims,
                                i as int,
                                r,
                            ) <= work_after(avail, holding, done, r) by {
                                assert(need(holding, claims, i as int, r) <= work@[r]);
                            }
                        }
                    }
                    let ghost next = done.push(i as int);
                    proof {
                        assert(next.no_duplicates()) by {
                            assert forall|a: int, b: int|
                                0 <= a < next.len() && 0 <= b < next.len() && a != b implies next[a]
                                != next[b] by {
                                if a < done.len() && b < done.len() {
                                    assert(next[a] == done[a]);
                                    assert(next[b] == done[b]);
                                } else if a < done.len() {
                                    assert(next[a] == done[a]);
                                    assert(done.contains(done[a]));
                                } else if b < done.len() {
                                    assert(next[b] == done[b]);
                                    assert(done.contains(done[b]));
                                }
                            }
                        }
                        assert(within(next, NTH as int)) by {
                            assert forall|k: int| 0 <= k < next.len() implies 0 <= #[trigger] next[k]
                                < NTH by {
                                if k < done.len() {
                                    assert(next[k] == done[k]);
                                }
                            }
                        }
                        assert forall|r: int| 0 <= r < NRES implies work_after(avail, holding, next, r)
                            <= usize::MAX by {
                            assert(next.drop_last() =~= done);
                            lemma_held_le_all(holding, next, r);
                            assert(self.total(r) <= usize::MAX);
                        }
                    }
                    finish[i] = true;
                    let ghost work_before = work@;
                    let row = self.allocation[i];
                    let mut r: usize = 0;
                    while r < NRES
                        invariant
                            r <= NRES,
                            i < NTH,
                            work@.len() == NRES,
                            row@ == self.allocation@[i as int]@,
                            self.wf(),
                            holding == self.holding(),
                            next == done.push(i as int),
                            forall|q: int| 0 <= q < NRES ==> work_after(avail, holding, next, q) <= usize::MAX,
                            forall|q: int| 0 <= q < NRES ==> #[trigger] work_before[q] == work_after(avail, holding, done, q),
                            forall|q: int| 0 <= q < r ==> #[trigger] work@[q] == work_before[q] + row@[q],
                            forall|q: int| r <= q < NRES ==> #[trigger] work@[q] == work_before[q],
                        decreases NRES - r,
                    {
                        proof {
                            self.lemma_shape();
                            assert(next.drop_last() =~= done);
                            assert(work_after(avail, holding, next, r as int) == work_before[r as int] + row@[r as int]);
                        }
                        work[r] = work[r] + row[r];
                        r = r + 1;
                    }
                    proof {
                        self.lemma_shape();
                        assert(next.drop_last() =~= done);
                        assert forall|q: int| 0 <= q < NRES implies #[trigger] work@[q] == work_after(avail, holding, next, q) by {
                            assert(work@[q] == work_before[q] + row@[q]);
                        }
                        assert forall|t: int| 0 <= t < NTH implies (#[trigger] finish@[t] <==> next.contains(t)) by {
                            if t == i as int {
                                assert(next[next.len() - 1] == t);
                            } else {
                                if done.contains(t) {
                                    let k = done.index_of(t);
                                    assert(next[k] == t);
                                }
                                if next.contains(t) {
                                    let k = next.index_of(t);
                                    assert(k < done.len());
                                    assert(done[k] == t);
                                }
                            }
                        }
                        assert forall|k: int| 0 <= k < next.len() implies #[trigger] can_finish(
                            avail,
                            holding,
                            claims,
                            next.take(k),
                            next[k],
                        ) by {
                            if k < done.len() {
                                assert(next.take(k) =~= done.take(k));
                                assert(next[k] == done[k]);
                            } else {
                                assert(next.take(k) =~= done);
                            }
                        }
                        lemma_distinct_threads_len(next, NTH as int);
                        assert(next.len() == done.len() + 1);
                        done = next;
                    }
                },
                None => {
                    proof {
                        if num_true == NTH {
                            assert forall|t: int| 0 <= t < holding.len() implies #[trigger] done.contains(t) by {
                                assert(finish@[t]);
                            }
                            assert(is_safe_order(avail, holding, claims, done));
                        } else {
                            let t = choose|t: int| 0 <= t < NTH && !#[trigger] finish@[t];
                            assert(!done.contains(t));
                            assert forall|u: int|
                                0 <= u < holding.len() && !done.contains(u) implies !#[trigger] can_finish(
                                avail,
                                holding,
                                claims,
                                done,
                                u,
                            ) by {
                                assert(!finish@[u]);
                                assert(!self.fits(u, work@));
                                if can_finish(avail, holding, claims, done, u) {
                                    assert forall|r: int| 0 <= r < NRES implies #[trigger] need(
                                        self.holding(),
                                        self.claims(),
                                        u,
                                        r,
                                    ) <= work@[r] by {
                                        assert(need(holding, claims, u, r) <= work_after(avail, holding, done, r));
                                    }
                                }
                            }
                            lemma_stuck_not_safe(avail, holding, claims, done);
                        }
                    }
                    return num_true == NTH;
                },
            }
        }
    }

    /// What the books would be after moving one unit of `resource` from the free
    /// pool to thread `id`.
    pub open spec fn granted(&self, id: int, resource: int) -> (Seq<usize>, Seq<Seq<usize>>) {
        (
            self.avail().update(resource, (self.avail()[resource] - 1) as usize),
            moved(self.holding(), id, resource, 1),
        )
    }

    /// Whether the banker hands thread `id` one unit of `resource`: the ids are
    /// in range, a unit is free, the thread stays within its claim, and the state
    /// after the grant is safe.
    pub open spec fn grants(&self, id: int, resource: int) -> bool {
        &&& 0 <= id < NTH
        &&& 0 <= resource < NRES
        &&& self.avail()[resource] > 0
        &&& self.holding()[id][resource] < self.claims()[id][resource]
        &&& is_safe(self.granted(id, resource).0, self.granted(id, resource).1, self.claims())
    }

    /// A grant moves exactly one unit: thread `id` holds one more unit of
    /// `resource`, one fewer is free, and nothing else changes. Giving that unit
    /// back afterwards restores the books.
    pub proof fn lemma_grant_moves_one_unit(&self, id: int, resource: int)
        requires
            self.wf(),
            self.grants(id, resource),
        ensures
            forall|q: int|
                0 <= q < NRES ==> #[trigger] self.granted(id, resource).0[q] == self.avail()[q] - (
                if q == resource {
                    1int
                } else {
                    0int
                }),
            forall|t: int, q: int|
                0 <= t < NTH && 0 <= q < NRES ==> #[trigger] self.granted(id, resource).1[t][q]
                    == self.holding()[t][q] + (if t == id && q == resource {
                    1int
                } else {
                    0int
                }),
            self.granted(id, resource).0.update(
                resource,
                (self.granted(id, resource).0[resource] + 1) as usize,
            ) == self.avail(),
            moved(self.granted(id, resource).1, id, resource, -1) == self.holding(),
    {
        let a = self.granted(id, resource).0;
        let h = self.granted(id, resource).1;
        assert(a.update(resource, (a[resource] + 1) as usize) =~= self.avail());
        assert(moved(h, id, resource, -1) =~= self.holding()) by {
            assert forall|t: int| 0 <= t < NTH implies #[trigger] moved(h, id, resource, -1)[t]
                =~= self.holding()[t] by {}
        }
    }

    proof fn lemma_moved_totals(&self, other: &Self, id: int, resource: int, delta: int)
        requires
            self.wf(),
            0 <= id < NTH,
            0 <= resource < NRES,
            0 <= self.holding()[id][resource] + delta <= usize::MAX,
            0 <= self.avail()[resource] - delta <= usize::MAX,
            other.avail() == self.avail().update(
                resource,
                (self.avail()[resource] - delta) as usize,
            ),
            other.holding() == moved(self.holding(), id, resource, delta),
        ensures
            forall|q: int| 0 <= q < NRES ==> #[trigger] other.total(q) == self.total(q),
    {
        lemma_threads(NTH as int);
        assert forall|q: int| 0 <= q < NRES implies #[trigger] other.total(q) == self.total(q) by {
            lemma_held_moved(self.holding(), threads(NTH as int), id, resource, delta, q, NRES as int);
            assert(threads(NTH as int).contains(id));
        }
    }

    /// Thread `id` asks for one unit of `resource`.
    ///
    /// The unit is handed out when the request is in range, a unit is free, the
    /// thread stays within its claim, and the state afterwards is safe; otherwise
    /// the books are left as they were and the answer is `false`.
    pub fn take(&mut self, id: usize, resource: usize) -> (granted: bool)
        requires
            old(self).wf(),
        ensures
            final(self).wf(),
            final(self).claims() == old(self).claims(),
            forall|q: int| 0 <= q < NRES ==> #[trigger] final(self).total(q) == old(self).total(q),
            granted == old(self).grants(id as int, resource as int),
            granted ==> final(self).avail() == old(self).granted(id as int, resource as int).0
                && final(self).holding() == old(self).granted(id as int, resource as int).1,
            granted ==> final(self).safe(),
            !granted ==> final(self).avail() == old(self).avail() && final(self).holding()
                == old(self).holding(),
    {
        proof {
            self.lemma_shape();
        }
        if id >= NTH || resource >= NRES || self.available[resource] == 0 {
            return false;
        }
        let mut row = self.allocation[id];
        if row[resource] >= self.max[id][resource] {
            return false;
        }
        let ghost before = *self;
        row[resource] = row[resource] + 1;
        self.allocation[id] = row;
        self.available[resource] = self.available[resource] - 1;
        proof {
            self.lemma_shape();
            before.lemma_shape();
            assert(self.avail() =~= before.granted(id as int, resource as int).0);
            assert(self.holding() =~= before.granted(id as int, resource as int).1) by {
                assert forall|t: int| 0 <= t < NTH implies #[trigger] self.holding()[t]
                    =~= before.granted(id as int, resource as int).1[t] by {
                }
            }
            before.lemma_moved_totals(self, id as int, resource as int, 1);
        }
        if self.is_safe() {
            true
        } else {
            let mut row = self.allocation[id];
            row[resource] = row[resource] - 1;
            self.allocation[id] = row;
            self.available[resource] = self.available[resource] + 1;
            proof {
                self.lemma_shape();
                assert(self.avail() =~= before.avail());
                assert(self.claims() =~= before.claims());
                assert(self.holding() =~= before.holding()) by {
                    assert forall|t: int| 0 <= t < NTH implies #[trigger] self.holding()[t]
                        =~= before.holding()[t] by {
                    }
                }
                assert(forall|r: int| 0 <= r < NRES ==> #[trigger] self.total(r) == before.total(r));
            }
            false
        }
    }

    /// Thread `id` gives back one unit of `resource`.
    ///
    /// Nothing happens when the ids are out of range or the thread holds no unit
    /// of that resource.
    pub fn release(&mut self, id: usize, resource: usize)
        requires
            old(self).wf(),
        ensures
            final(self).wf(),
            final(self).claims() == old(self).claims(),
            forall|q: int| 0 <= q < NRES ==> #[trigger] final(self).total(q) == old(self).total(q),
            ({
                let gives_back = id < NTH && resource < NRES && old(self).holding()[id as int][resource as int] > 0;
                &&& gives_back ==> final(self).avail() == old(self).avail().update(
                    resource as int,
                    (old(self).avail()[resource as int] + 1) as usize,
                )
                &&& gives_back ==> final(self).holding() == moved(old(self).holding(), id as int, resource as int, -1)
                &&& !gives_back ==> final(self).avail() == old(self).avail() && final(self).holding()
                    == old(self).holding()
            }),
            old(self).safe() ==> final(self).safe(),
    {
        proof {
            self.lemma_shape();
        }
        if id >= NTH || resource >= NRES || self.allocation[id][resource] == 0 {
            return;
        }
        let ghost before = *self;
        proof {
            lemma_threads(NTH as int);
            lemma_held_remove(self.holding(), threads(NTH as int), id as int, resource as int);
            lemma_held_nonneg(self.holding(), threads(NTH as int).remove(id as int), resource as int);
            assert(threads(NTH as int)[id as int] == id as int);
            assert(self.total(resource as int) <= usize::MAX);
        }
        let mut row = self.allocation[id];
        row[resource] = row[resource] - 1;
        self.allocation[id] = row;
        self.available[resource] = self.available[resource] + 1;
        proof {
            self.lemma_shape();
            before.lemma_shape();
            assert(self.avail() =~= before.avail().update(
                resource as int,
                (before.avail()[resource as int] + 1) as usize,
            ));
            assert(self.holding() =~= moved(before.holding(), id as int, resource as int, -1)) by {
                assert forall|t: int| 0 <= t < NTH implies #[trigger] self.holding()[t]
                    =~= moved(before.holding(), id as int, resource as int, -1)[t] by {
                }
            }
            before.lemma_moved_totals(self, id as int, resource as int, -1);
            if before.safe() {
                lemma_release_keeps_safe(
                    before.avail(),
                    before.holding(),
                    before.claims(),
                    id as int,
                    resource as int,
                );
            }
        }
    }
}

/// What the books behind a banker's lock always satisfy: they are consistent,
/// keep the totals and claims they started with, and are in a safe state
/// whenever any unit is handed out.
pub open spec fn ledger_policy<const NRES: usize, const NTH: usize>(
    totals: Seq<int>,
    claims: Seq<Seq<usize>>,
) -> spec_fn(Resource<NRES, NTH>) -> bool {
    |books: Resource<NRES, NTH>|
        {
            &&& books.wf()
            &&& books.totals() == totals
            &&& books.claims() == claims
            &&& (books.safe() || books.idle())
        }
}

/// Books kept under `ledger_policy` whose claims each fit in the totals are
/// always in a safe state: some thread can always finish, so the threads never
/// deadlock.
pub proof fn lemma_policy_keeps_safe<const NRES: usize, const NTH: usize>(
    books: Resource<NRES, NTH>,
    totals: Seq<int>,
    claims: Seq<Seq<usize>>,
)
    requires
        (ledger_policy::<NRES, NTH>(totals, claims))(books),
        forall|t: int, r: int|
            0 <= t < NTH && 0 <= r < NRES ==> #[trigger] claims[t][r] <= totals[r],
    ensures
        books.safe(),
{
    if !books.safe() {
        assert(books.idle());
        let order = threads(NTH as int);
        lemma_threads(NTH as int);
        assert forall|r: int| 0 <= r < NRES implies #[trigger] books.total(r) == books.avail()[r] by {
            lemma_held_zero(books.holding(), order, r);
        }
        assert forall|k: int| 0 <= k < order.len() implies #[trigger] can_finish(
            books.avail(),
            books.holding(),
            books.claims(),
            order.take(k),
            order[k],
        ) by {
            assert forall|r: int| 0 <= r < books.avail().len() implies #[trigger] need(
                books.holding(),
                books.claims(),
                order[k],
                r,
            ) <= work_after(books.avail(), books.holding(), order.take(k), r) by {
                lemma_held_nonneg(books.holding(), order.take(k), r);
                assert(books.holding()[k][r] == 0);
                assert(books.totals()[r] == books.total(r));
                assert(claims[k][r] <= totals[r]);
            }
        }
        assert(is_safe_order(books.avail(), books.holding(), books.claims(), order));
    }
}

/// Working on the same books is an equivalence between bankers: every clone of
/// a banker, and every clone of a clone, sees what any of them takes or releases.
pub proof fn lemma_same_books<const NRES: usize, const NTH: usize>(
    a: &Banker<NRES, NTH>,
    b: &Banker<NRES, NTH>,
    c: &Banker<NRES, NTH>,
)
    ensures
        a.same_books(a),
        a.same_books(b) ==> b.same_books(a),
        a.same_books(b) && b.same_books(c) ==> a.same_books(c),
{
}

/// A banker shared by many threads: the books sit behind a lock, and every
/// clone of the banker works on the same books.
#[verifier::reject_recursive_types(NRES)]
#[verifier::reject_recursive_types(NTH)]
pub struct Banker<const NRES: usize, const NTH: usize> {
    resource: Arc<RwLock<Resource<NRES, NTH>, spec_fn(Resource<NRES, NTH>) -> bool>>,
    totals: Ghost<Seq<int>>,
    claims: Ghost<Seq<Seq<usize>>>,
}

impl<const NRES: usize, const NTH: usize> Banker<NRES, NTH> {
    #[verifier::type_invariant]
    spec fn keeps_policy(&self) -> bool {
        self.resource.pred() == ledger_policy::<NRES, NTH>(self.totals@, self.claims@)
    }

    /// Units of each resource in the system; they never change.
    pub closed spec fn totals(&self) -> Seq<int> {
        self.totals@
    }

    /// Claims of each thread on each resource; they never change.
    pub closed spec fn claims(&self) -> Seq<Seq<usize>> {
        self.claims@
    }

    /// The rule that every state of the books behind this banker satisfies, at
    /// every moment and whichever thread last changed them.
    pub closed spec fn books_rule(&self) -> spec_fn(Resource<NRES, NTH>) -> bool {
        self.resource.pred()
    }

    /// Whether two bankers work on the same books.
    pub closed spec fn same_books(&self, other: &Self) -> bool {
        self.resource == other.resource
    }

    /// A banker with `available` units of each resource and the claims `max`,
    /// with nothing handed out yet.
    pub fn new(available: [usize; NRES], max: [[usize; NRES]; NTH]) -> (banker: Self)
        ensures
            banker.totals().len() == NRES,
            forall|r: int| 0 <= r < NRES ==> #[trigger] banker.totals()[r] == available@[r],
            banker.claims().len() == NTH,
            forall|t: int, r: int|
                0 <= t < NTH && 0 <= r < NRES ==> #[trigger] banker.claims()[t][r] == max@[t]@[r],
            banker.books_rule() == ledger_policy::<NRES, NTH>(banker.totals(), banker.claims()),
    {
        let books = Resource::new(available, max);
        let ghost totals = books.totals();
        let ghost claims = books.claims();
        let lock = RwLock::new(books, Ghost(ledger_policy::<NRES, NTH>(totals, claims)));
        Banker { resource: Arc::new(lock), totals: Ghost(totals), claims: Ghost(claims) }
    }

    /// Thread `id` asks for one unit of `resource`; `true` when it was handed out.
    ///
    /// A unit is handed out only when the ids are in range and the books stay in
    /// a safe state afterwards (see `Resource::take`); what the answer is also
    /// depends on what the other threads hold at that moment. A thread never
    /// gets a unit of a resource it claimed none of, nor of a resource the
    /// system has none of.
    pub fn take(&self, id: usize, resource: usize) -> (granted: bool)
        ensures
            granted ==> id < NTH && resource < NRES,
            granted ==> self.claims()[id as int][resource as int] > 0,
            granted ==> self.totals()[resource as int] > 0,
            self.books_rule() == ledger_policy::<NRES, NTH>(self.totals(), self.claims()),
    {
        proof {
            use_type_invariant(self);
        }
        let (mut books, handle) = self.resource.acquire_write();
        let ghost before = books;
        let granted = books.take(id, resource);
        proof {
            assert(books.totals() =~= before.totals());
            if granted {
                lemma_threads(NTH as int);
                lemma_held_nonneg(before.holding(), threads(NTH as int), resource as int);
                assert(before.totals()[resource as int] == before.total(resource as int));
            }
        }
        handle.release_write(books);
        granted
    }

    /// Thread `id` gives back one unit of `resource` (see `Resource::release`).
    pub fn release(&self, id: usize, resource: usize)
        ensures
            self.books_rule() == ledger_policy::<NRES, NTH>(self.totals(), self.claims()),
    {
        proof {
            use_type_invariant(self);
        }
        let (mut books, handle) = self.resource.acquire_write();
        let ghost before = books;
        books.release(id, resource);
        proof {
            assert(books.totals() =~= before.totals());
        }
        handle.release_write(books);
    }
}

impl<const NRES: usize, const NTH: usize> Clone for Banker<NRES, NTH> {
    /// Another handle on the same books.
    fn clone(&self) -> (banker: Self)
        ensures
            banker.same_books(self),
            forall|other: Self| self.same_books(&other) ==> #[trigger] banker.same_books(&other),
            banker.totals() == self.totals(),
            banker.claims() == self.claims(),
            banker.books_rule() == self.books_rule(),
    {
        proof {
            use_type_invariant(self);
        }
        Banker { resource: share(&self.resource), totals: self.totals, claims: self.claims }
    }
}

} // verus!
