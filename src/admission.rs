use vstd::prelude::*;

verus! {

/// Why a transaction was not admitted.
#[derive(Clone, Copy, Debug, PartialEq, Eq, Structural)]
pub enum ErrorKind {
    /// Every worker is at its cap.
    PoolFull,
    /// The pool is shutting down or shut down.
    PoolClosed,
}

/// Sum of a sequence of counters.
pub open spec fn sum(s: Seq<usize>) -> int
    decreases s.len(),
{
    if s.len() == 0 {
        0
    } else {
        sum(s.drop_last()) + s.last()
    }
}

/// The slot after `i` on a ring of `n` slots.
pub open spec fn next_slot(i: int, n: int) -> int {
    if i + 1 < n {
        i + 1
    } else {
        0
    }
}

/// Steps from `from` forward to `to` on a ring of `n` slots.
pub open spec fn ring_distance(from: int, to: int, n: int) -> int {
    if to >= from {
        to - from
    } else {
        to + n - from
    }
}

/// A sum of counters each at most `m` is at most `len * m`.
pub proof fn lemma_sum_bounded(s: Seq<usize>, m: int)
    requires
        forall|i: int| 0 <= i < s.len() ==> s[i] <= m,
    ensures
        sum(s) <= s.len() * m,
    decreases s.len(),
{
    if s.len() > 0 {
        lemma_sum_bounded(s.drop_last(), m);
        assert(s.len() * m == (s.len() - 1) * m + m) by (nonlinear_arith);
    }
}

/// Raising one counter by one raises the sum by one.
pub proof fn lemma_sum_update(s: Seq<usize>, i: int, v: usize)
    requires
        0 <= i < s.len(),
    ensures
        sum(s.update(i, v)) == sum(s) - s[i] + v,
    decreases s.len(),
{
    let t = s.update(i, v);
    if i == s.len() - 1 {
        assert(t.drop_last() =~= s.drop_last());
    } else {
        lemma_sum_update(s.drop_last(), i, v);
        assert(t.drop_last() =~= s.drop_last().update(i, v));
    }
}

/// A sum of zero counters is zero.
pub proof fn lemma_sum_zero(s: Seq<usize>)
    requires
        forall|i: int| 0 <= i < s.len() ==> s[i] == 0,
    ensures
        sum(s) == 0,
    decreases s.len(),
{
    if s.len() > 0 {
        lemma_sum_zero(s.drop_last());
    }
}

/// The pool's capacity accountant: one in-flight counter per worker, the
/// round-robin cursor that breaks ties, and the flag that closes admission.
pub struct Admission {
    counts: Vec<usize>,
    max: usize,
    cursor: usize,
    closed: bool,
}

impl Admission {
    /// The in-flight counter of each worker.
    pub closed spec fn counts(&self) -> Seq<usize> {
        self.counts@
    }

    /// The cap on one worker's counter.
    pub closed spec fn max(&self) -> nat {
        self.max as nat
    }

    /// Where the next search for a worker starts.
    pub closed spec fn cursor(&self) -> int {
        self.cursor as int
    }

    /// Whether admission has been closed.
    pub closed spec fn is_closed_spec(&self) -> bool {
        self.closed
    }

    pub open spec fn workers(&self) -> int {
        self.counts().len() as int
    }

    pub open spec fn wf(&self) -> bool {
        &&& self.workers() > 0
        &&& self.max() > 0
        &&& 0 <= self.cursor() < self.workers()
        &&& forall|w: int| 0 <= w < self.workers() ==> self.counts()[w] <= self.max()
    }

    /// Some worker is below the cap.
    pub open spec fn has_room(&self) -> bool {
        exists|w: int| 0 <= w < self.workers() && self.counts()[w] < self.max()
    }

    /// Transactions admitted and not yet released, over all workers.
    pub open spec fn total(&self) -> int {
        sum(self.counts())
    }

    /// `w` has the fewest in flight, and among the workers that tie with it, it
    /// comes first going round from the cursor.
    pub open spec fn least_loaded(&self, w: int) -> bool {
        &&& 0 <= w < self.workers()
        &&& forall|v: int|
            0 <= v < self.workers() ==> {
                ||| self.counts()[w] < self.counts()[v]
                ||| (self.counts()[w] == self.counts()[v] && ring_distance(
                    self.cursor(),
                    w,
                    self.workers(),
                ) <= ring_distance(self.cursor(), v, self.workers()))
            }
    }

    /// An accountant for `workers` workers of `max` slots each, all free.
    pub fn new(workers: usize, max: usize) -> (r: Admission)
        requires
            workers > 0,
            max > 0,
        ensures
            r.wf(),
            r.workers() == workers,
            r.max() == max,
            r.cursor() == 0,
            !r.is_closed_spec(),
            forall|w: int| 0 <= w < workers ==> r.counts()[w] == 0,
            r.total() == 0,
    {
        let mut counts: Vec<usize> = Vec::new();
        let mut i: usize = 0;
        while i < workers
            invariant
                i <= workers,
                counts@.len() == i,
                forall|w: int| 0 <= w < i ==> counts@[w] == 0,
            decreases workers - i,
        {
            counts.push(0);
            i += 1;
        }
        proof {
            lemma_sum_zero(counts@);
        }
        Admission { counts, max, cursor: 0, closed: false }
    }

    /// The worker that `acquire` would pick, if it is below the cap.
    pub fn select(&self) -> (r: Option<usize>)
        requires
            self.wf(),
        ensures
            r.is_some() <==> self.has_room(),
            r matches Some(w) ==> self.least_loaded(w as int) && self.counts()[w as int]
                < self.max(),
    {
        let n = self.counts.len();
        let c = self.cursor;
        let mut best: usize = c;
        let mut k: usize = 1;
        while k < n
            invariant
                n == self.counts@.len(),
                c == self.cursor,
                self.wf(),
                1 <= k <= n,
                best < n,
                ring_distance(c as int, best as int, n as int) < k,
                forall|v: int|
                    0 <= v < n && ring_distance(c as int, v as int, n as int) < k ==> {
                        ||| self.counts@[best as int] < self.counts@[v]
                        ||| (self.counts@[best as int] == self.counts@[v] && ring_distance(
                            c as int,
                            best as int,
                            n as int,
                        ) <= ring_distance(c as int, v as int, n as int))
                    },
            decreases n - k,
        {
            let i: usize = if k < n - c {
                c + k
            } else {
                k - (n - c)
            };
            assert(ring_distance(c as int, i as int, n as int) == k);
            if self.counts[i] < self.counts[best] {
                best = i;
            }
            k += 1;
        }
        if self.counts[best] < self.max {
            Some(best)
        } else {
            assert(!self.has_room()) by {
                assert forall|w: int| 0 <= w < n implies !(self.counts@[w] < self.max) by {
                    assert(ring_distance(c as int, w, n as int) < n);
                }
            }
            None
        }
    }

    /// Admits one transaction: picks the least-loaded worker and takes one of
    /// its slots. Fails, changing nothing, when admission is closed or every
    /// worker is at the cap.
    pub fn acquire(&mut self) -> (r: Result<usize, ErrorKind>)
        requires
            old(self).wf(),
        ensures
            final(self).wf(),
            old(self).is_closed_spec() ==> r == Err::<usize, ErrorKind>(ErrorKind::PoolClosed),
            !old(self).is_closed_spec() && !old(self).has_room() ==> r == Err::<usize, ErrorKind>(
                ErrorKind::PoolFull,
            ),
            r is Err ==> *final(self) == *old(self),
            !old(self).is_closed_spec() && old(self).has_room() ==> r is Ok,
            r matches Ok(w) ==> {
                &&& old(self).least_loaded(w as int)
                &&& old(self).counts()[w as int] < old(self).max()
                &&& final(self).counts() == old(self).counts().update(
                    w as int,
                    (old(self).counts()[w as int] + 1) as usize,
                )
                &&& final(self).cursor() == next_slot(w as int, old(self).workers())
                &&& final(self).max() == old(self).max()
                &&& final(self).is_closed_spec() == old(self).is_closed_spec()
                &&& final(self).total() == old(self).total() + 1
            },
    {
        if self.closed {
            return Err(ErrorKind::PoolClosed);
        }
        match self.select() {
            None => Err(ErrorKind::PoolFull),
            Some(w) => {
                proof {
                    lemma_sum_update(self.counts@, w as int, (self.counts@[w as int] + 1) as usize);
                }
                self.counts.set(w, self.counts[w] + 1);
                self.cursor = if w < self.counts.len() - 1 {
                    w + 1
                } else {
                    0
                };
                Ok(w)
            },
        }
    }

    /// Gives back one slot of worker `w`, once its transaction was delivered.
    pub fn release(&mut self, w: usize)
        requires
            old(self).wf(),
            w < old(self).workers(),
            old(self).counts()[w as int] > 0,
        ensures
            final(self).wf(),
            final(self).counts() == old(self).counts().update(
                w as int,
                (old(self).counts()[w as int] - 1) as usize,
            ),
            final(self).cursor() == old(self).cursor(),
            final(self).max() == old(self).max(),
            final(self).is_closed_spec() == old(self).is_closed_spec(),
            final(self).total() == old(self).total() - 1,
    {
        proof {
            lemma_sum_update(self.counts@, w as int, (self.counts@[w as int] - 1) as usize);
        }
        self.counts.set(w, self.counts[w] - 1);
    }

    /// Gives back `k` slots of worker `w` at once.
    pub fn release_many(&mut self, w: usize, k: usize)
        requires
            old(self).wf(),
            w < old(self).workers(),
            old(self).counts()[w as int] >= k,
        ensures
            final(self).wf(),
            final(self).counts() == old(self).counts().update(
                w as int,
                (old(self).counts()[w as int] - k) as usize,
            ),
            final(self).cursor() == old(self).cursor(),
            final(self).max() == old(self).max(),
            final(self).is_closed_spec() == old(self).is_closed_spec(),
            final(self).total() == old(self).total() - k,
    {
        proof {
            lemma_sum_update(self.counts@, w as int, (self.counts@[w as int] - k) as usize);
        }
        self.counts.set(w, self.counts[w] - k);
    }

    /// Closes admission; every later `acquire` fails with `PoolClosed`.
    pub fn close(&mut self)
        requires
            old(self).wf(),
        ensures
            final(self).wf(),
            final(self).is_closed_spec(),
            final(self).counts() == old(self).counts(),
            final(self).cursor() == old(self).cursor(),
            final(self).max() == old(self).max(),
    {
        self.closed = true;
    }

    pub fn is_closed(&self) -> (r: bool)
        ensures
            r == self.is_closed_spec(),
    {
        self.closed
    }

    /// The in-flight counter of worker `w`.
    pub fn in_flight(&self, w: usize) -> (r: usize)
        requires
            w < self.workers(),
        ensures
            r == self.counts()[w as int],
    {
        self.counts[w]
    }

    pub fn worker_count(&self) -> (r: usize)
        ensures
            r == self.workers(),
    {
        self.counts.len()
    }

    pub fn max_per_worker(&self) -> (r: usize)
        ensures
            r == self.max(),
    {
        self.max
    }

    /// At every instant the admitted-minus-released total stays within the
    /// pool's capacity: workers times the per-worker cap.
    pub proof fn lemma_total_within_capacity(&self)
        requires
            self.wf(),
        ensures
            0 <= self.total() <= self.workers() * self.max(),
    {
        lemma_sum_bounded(self.counts(), self.max() as int);
        lemma_sum_nonneg(self.counts());
    }
}

/// A sum of counters is never negative.
pub proof fn lemma_sum_nonneg(s: Seq<usize>)
    ensures
        sum(s) >= 0,
    decreases s.len(),
{
    if s.len() > 0 {
        lemma_sum_nonneg(s.drop_last());
    }
}

} // verus!
