use vstd::prelude::*;
use crate::admission::{lemma_sum_nonneg, Admission, ErrorKind};
use crate::config::{Config, StartupError};
use crate::deliverable::{Deliverable, DeliveryResult, Response, TransportError};
use crate::transaction::Transaction;
use crate::worker::{deadline_of, result_for, InFlight, Worker};

verus! {

/// Where an admitted transaction runs: its worker and its id there.
#[derive(Clone, Copy, Debug, PartialEq, Eq, Structural)]
pub struct Ticket {
    pub worker: usize,
    pub id: u64,
}

/// A refused transaction, handed back to the caller with the reason.
#[derive(Debug)]
pub struct RequestError<D> {
    pub kind: ErrorKind,
    pub transaction: Transaction<D>,
}

/// The pool: its configuration, the capacity accountant and the workers.
pub struct Pool<D> {
    config: Config,
    admission: Admission,
    workers: Vec<Worker<D>>,
}

impl<D: Deliverable> Pool<D> {
    pub closed spec fn config(&self) -> Config {
        self.config
    }

    pub closed spec fn admission(&self) -> Admission {
        self.admission
    }

    pub closed spec fn workers(&self) -> Seq<Worker<D>> {
        self.workers@
    }

    pub open spec fn size(&self) -> int {
        self.workers().len() as int
    }

    pub open spec fn is_closed_spec(&self) -> bool {
        self.admission().is_closed_spec()
    }

    /// The in-flight counter of worker `w`.
    pub open spec fn count(&self, w: int) -> int {
        self.admission().counts()[w] as int
    }

    pub open spec fn wf(&self) -> bool {
        &&& self.config().valid()
        &&& self.admission().wf()
        &&& self.size() == self.config().workers
        &&& self.admission().workers() == self.size()
        &&& self.admission().max() == self.config().max_transactions_per_worker
        &&& forall|w: int|
            0 <= w < self.size() ==> {
                &&& (#[trigger] self.workers()[w]).wf()
                &&& self.workers()[w].timeout() == self.config().transaction_timeout_ms
                &&& self.count(w) == self.workers()[w].entries().len()
                &&& self.is_closed_spec() ==> self.workers()[w].is_shutting_down()
            }
    }

    /// Every worker can still assign an id.
    pub open spec fn ids_left(&self) -> bool {
        forall|w: int| 0 <= w < self.size() ==> (#[trigger] self.workers()[w]).next_id() < u64::MAX
    }

    /// Closed, and nothing is in flight anywhere.
    pub open spec fn drained(&self) -> bool {
        &&& self.is_closed_spec()
        &&& forall|w: int| 0 <= w < self.size() ==> (#[trigger] self.workers()[w]).entries().len() == 0
    }

    /// Pools whose workers have assigned the same number of ids agree on
    /// whether ids are left.
    proof fn lemma_ids_left_kept(&self, other: &Self)
        requires
            self.size() == other.size(),
            forall|v: int|
                0 <= v < self.size() ==> (#[trigger] self.workers()[v]).next_id()
                    == other.workers()[v].next_id(),
        ensures
            self.ids_left() == other.ids_left(),
    {
        if other.ids_left() {
            assert forall|v: int| 0 <= v < self.size() implies (#[trigger] self.workers()[
                v
            ]).next_id() < u64::MAX by {
                assert(other.workers()[v].next_id() < u64::MAX);
            }
        }
        if self.ids_left() {
            assert forall|v: int| 0 <= v < other.size() implies (#[trigger] other.workers()[
                v
            ]).next_id() < u64::MAX by {
                assert(self.workers()[v].next_id() < u64::MAX);
            }
        }
    }

    /// Builds a pool of `config.workers` idle workers. Fails when either count
    /// in the configuration is zero or the capacity does not fit in a `usize`.
    pub fn new(config: Config) -> (r: Result<Pool<D>, StartupError>)
        ensures
            r is Err <==> !config.valid(),
            r matches Err(e) ==> e == StartupError::InvalidConfig,
            r matches Ok(p) ==> {
                &&& p.wf()
                &&& p.config() == config
                &&& !p.is_closed_spec()
                &&& p.ids_left()
                &&& forall|w: int| 0 <= w < p.size() ==> p.count(w) == 0
                &&& forall|w: int|
                    0 <= w < p.size() ==> (#[trigger] p.workers()[w]).delivered()
                        == Map::<u64, DeliveryResult>::empty()
                &&& p.admission().total() == 0
            },
    {
        if !config.is_valid() {
            return Err(StartupError::InvalidConfig);
        }
        let admission = Admission::new(config.workers, config.max_transactions_per_worker);
        let mut workers: Vec<Worker<D>> = Vec::new();
        let mut i: usize = 0;
        while i < config.workers
            invariant
                i <= config.workers,
                workers@.len() == i,
                forall|w: int|
                    0 <= w < i ==> {
                        &&& (#[trigger] workers@[w]).wf()
                        &&& workers@[w].timeout() == config.transaction_timeout_ms
                        &&& workers@[w].entries().len() == 0
                        &&& workers@[w].next_id() == 0
                        &&& workers@[w].delivered() == Map::<u64, DeliveryResult>::empty()
                    },
            decreases config.workers - i,
        {
            workers.push(Worker::new(config.transaction_timeout_ms));
            i += 1;
        }
        Ok(Pool { config, admission, workers })
    }

    /// Offers transaction `t` at time `now`. Without waiting, it either hands
    /// `t` to the least-loaded worker below the cap, or refuses it and gives
    /// it back: `PoolClosed` once shutdown has begun, `PoolFull` when every
    /// worker is at the cap. What the request holds plays no part, so equal
    /// requests are admitted alike.
    pub fn request(&mut self, t: Transaction<D>, now: u64) -> (r: Result<Ticket, RequestError<D>>)
        requires
            old(self).wf(),
            old(self).ids_left(),
        ensures
            final(self).wf(),
            old(self).is_closed_spec() ==> r == Err::<Ticket, RequestError<D>>(
                (RequestError { kind: ErrorKind::PoolClosed, transaction: t }),
            ),
            !old(self).is_closed_spec() && !old(self).admission().has_room() ==> r == Err::<
                Ticket,
                RequestError<D>,
            >((RequestError { kind: ErrorKind::PoolFull, transaction: t })),
            r is Ok <==> !old(self).is_closed_spec() && old(self).admission().has_room(),
            r is Err ==> *final(self) == *old(self),
            r matches Ok(ticket) ==> {
                let w = ticket.worker as int;
                &&& old(self).admission().least_loaded(w)
                &&& old(self).count(w) < old(self).config().max_transactions_per_worker
                &&& ticket.id == old(self).workers()[w].next_id()
                &&& final(self).workers()[w].entries() == old(self).workers()[w].entries().push(
                    (InFlight {
                        id: ticket.id,
                        started_at: now,
                        deadline: deadline_of(now, old(self).config().transaction_timeout_ms),
                        transaction: t,
                    }),
                )
                &&& final(self).workers()[w].delivered() == old(self).workers()[w].delivered()
                &&& final(self).workers()[w].next_id() == old(self).workers()[w].next_id() + 1
                &&& final(self).count(w) == old(self).count(w) + 1
                &&& final(self).admission().total() == old(self).admission().total() + 1
                &&& forall|v: int|
                    0 <= v < old(self).size() && v != w ==> #[trigger] final(self).workers()[v]
                        == old(self).workers()[v]
            },
            final(self).config() == old(self).config(),
            final(self).is_closed_spec() == old(self).is_closed_spec(),
            final(self).size() == old(self).size(),
    {
        match self.admission.acquire() {
            Err(kind) => Err(RequestError { kind, transaction: t }),
            Ok(w) => {
                let ghost before = self.workers@;
                assert(self.workers@[w as int].wf());
                let id = self.workers[w].execute(t, now);
                proof {
                    assert forall|v: int| 0 <= v < self.size() && v != w implies #[trigger] self.workers()[v]
                        == before[v] by {}
                }
                Ok(Ticket { worker: w, id })
            },
        }
    }

    /// The HTTP client produced `outcome` for the transaction of `ticket`,
    /// observed at `now`. If it is still in flight its deliverable receives
    /// the result and its worker's slot is released; otherwise nothing
    /// happens. Returns whether a slot was released.
    pub fn on_response(
        &mut self,
        ticket: Ticket,
        outcome: Result<Response, TransportError>,
        now: u64,
    ) -> (freed: bool)
        requires
            old(self).wf(),
            ticket.worker < old(self).size(),
        ensures
            final(self).wf(),
            freed == old(self).workers()[ticket.worker as int].holds(ticket.id),
            !freed ==> final(self).workers() == old(self).workers() && final(self).admission()
                == old(self).admission(),
            freed ==> {
                let w = ticket.worker as int;
                let before = old(self).workers()[w];
                &&& exists|i: int|
                    0 <= i < before.entries().len() && #[trigger] before.entries()[i].id == ticket.id
                        && final(self).workers()[w].entries() == before.entries().remove(i)
                        && final(self).workers()[w].delivered() == before.delivered().insert(
                        ticket.id,
                        result_for(
                            before.entries()[i].started_at,
                            before.entries()[i].deadline,
                            before.timeout(),
                            outcome,
                            now,
                        ),
                    )
                &&& final(self).count(w) == old(self).count(w) - 1
                &&& final(self).admission().total() == old(self).admission().total() - 1
                &&& forall|v: int|
                    0 <= v < old(self).size() && v != w ==> #[trigger] final(self).workers()[v]
                        == old(self).workers()[v]
            },
            final(self).config() == old(self).config(),
            final(self).is_closed_spec() == old(self).is_closed_spec(),
            final(self).size() == old(self).size(),
            final(self).ids_left() == old(self).ids_left(),
    {
        let w = ticket.worker;
        let ghost before = self.workers@;
        assert(self.workers@[w as int].wf());
        let freed = self.workers[w].on_response(ticket.id, outcome, now);
        if freed {
            self.admission.release(w);
        }
        proof {
            assert forall|v: int| 0 <= v < self.size() && v != w implies #[trigger] self.workers()[v]
                == before[v] by {}
            if !freed {
                assert(self.workers@ =~= before);
            }
            assert forall|v: int| 0 <= v < self.size() implies (#[trigger] self.workers()[v]).next_id()
                == before[v].next_id() by {}
            self.lemma_ids_left_kept(&*old(self));
        }
        freed
    }

    /// The timer of the transaction of `ticket` fired at `now`. If it is still
    /// in flight and due, its deliverable receives a `Timeout` and its
    /// worker's slot is released. Returns whether a slot was released.
    pub fn on_timer(&mut self, ticket: Ticket, now: u64) -> (freed: bool)
        requires
            old(self).wf(),
            ticket.worker < old(self).size(),
        ensures
            final(self).wf(),
            freed <==> exists|i: int|
                0 <= i < old(self).workers()[ticket.worker as int].entries().len()
                    && #[trigger] old(self).workers()[ticket.worker as int].entries()[i].id
                    == ticket.id && old(self).workers()[ticket.worker as int].entries()[i].deadline
                    <= now,
            !freed ==> final(self).workers() == old(self).workers() && final(self).admission()
                == old(self).admission(),
            freed ==> {
                let w = ticket.worker as int;
                let before = old(self).workers()[w];
                &&& exists|i: int|
                    0 <= i < before.entries().len() && #[trigger] before.entries()[i].id == ticket.id
                        && before.entries()[i].deadline <= now
                        && final(self).workers()[w].entries() == before.entries().remove(i)
                        && final(self).workers()[w].delivered() == before.delivered().insert(
                        ticket.id,
                        DeliveryResult::Timeout { duration_ms: before.timeout() },
                    )
                &&& final(self).count(w) == old(self).count(w) - 1
                &&& final(self).admission().total() == old(self).admission().total() - 1
                &&& forall|v: int|
                    0 <= v < old(self).size() && v != w ==> #[trigger] final(self).workers()[v]
                        == old(self).workers()[v]
            },
            final(self).config() == old(self).config(),
            final(self).is_closed_spec() == old(self).is_closed_spec(),
            final(self).size() == old(self).size(),
            final(self).ids_left() == old(self).ids_left(),
    {
        let w = ticket.worker;
        let ghost before = self.workers@;
        assert(self.workers@[w as int].wf());
        let freed = self.workers[w].on_timer(ticket.id, now);
        if freed {
            self.admission.release(w);
        }
        proof {
            assert forall|v: int| 0 <= v < self.size() && v != w implies #[trigger] self.workers()[v]
                == before[v] by {}
            if !freed {
                assert(self.workers@ =~= before);
            }
            assert forall|v: int| 0 <= v < self.size() implies (#[trigger] self.workers()[v]).next_id()
                == before[v].next_id() by {}
            self.lemma_ids_left_kept(&*old(self));
        }
        freed
    }

    /// Begins the graceful shutdown: admission closes and every worker stops
    /// taking new work, while what is in flight runs to its end. On a pool
    /// already closed it changes nothing. The shutdown is complete once
    /// `drain_step` reports the pool drained.
    pub fn begin_shutdown(&mut self)
        requires
            old(self).wf(),
        ensures
            final(self).wf(),
            final(self).is_closed_spec(),
            old(self).is_closed_spec() ==> *final(self) == *old(self),
            final(self).config() == old(self).config(),
            final(self).size() == old(self).size(),
            forall|w: int|
                0 <= w < old(self).size() ==> {
                    &&& (#[trigger] final(self).workers()[w]).entries() == old(
                        self,
                    ).workers()[w].entries()
                    &&& final(self).workers()[w].delivered() == old(self).workers()[w].delivered()
                    &&& final(self).workers()[w].next_id() == old(self).workers()[w].next_id()
                    &&& final(self).count(w) == old(self).count(w)
                },
    {
        if self.admission.is_closed() {
            return;
        }
        self.admission.close();
        let n = self.workers.len();
        let mut i: usize = 0;
        while i < n
            invariant
                n == self.workers@.len(),
                n == old(self).workers@.len(),
                i <= n,
                self.config == old(self).config,
                self.admission.wf(),
                self.admission.is_closed_spec(),
                self.admission.counts() == old(self).admission.counts(),
                self.admission.max() == old(self).admission.max(),
                forall|w: int|
                    0 <= w < n ==> {
                        &&& (#[trigger] self.workers@[w]).wf()
                        &&& self.workers@[w].entries() == old(self).workers@[w].entries()
                        &&& self.workers@[w].delivered() == old(self).workers@[w].delivered()
                        &&& self.workers@[w].next_id() == old(self).workers@[w].next_id()
                        &&& self.workers@[w].timeout() == old(self).workers@[w].timeout()
                        &&& w < i ==> self.workers@[w].is_shutting_down()
                    },
            decreases n - i,
        {
            assert(self.workers@[i as int].wf());
            self.workers[i].begin_shutdown();
            i += 1;
        }
    }

    /// Runs the timers at `now`: on every worker, each transaction whose
    /// deadline has come ends with a `Timeout` and its slot is released.
    /// Returns how many slots were released.
    pub fn tick(&mut self, now: u64) -> (freed: usize)
        requires
            old(self).wf(),
        ensures
            final(self).wf(),
            final(self).admission().total() + freed == old(self).admission().total(),
            final(self).config() == old(self).config(),
            final(self).is_closed_spec() == old(self).is_closed_spec(),
            final(self).size() == old(self).size(),
            forall|w: int|
                0 <= w < old(self).size() ==> {
                    let a = old(self).workers()[w];
                    let b = #[trigger] final(self).workers()[w];
                    &&& forall|i: int| 0 <= i < b.entries().len() ==> now < #[trigger] b.entries()[i].deadline
                    &&& forall|id: u64| #[trigger] b.holds(id) ==> a.holds(id)
                    &&& forall|i: int|
                        0 <= i < a.entries().len() && now < #[trigger] a.entries()[i].deadline
                            ==> b.holds(a.entries()[i].id)
                    &&& forall|i: int|
                        0 <= i < a.entries().len() && #[trigger] a.entries()[i].deadline <= now
                            ==> b.delivered().contains_key(a.entries()[i].id)
                            && b.delivered()[a.entries()[i].id]
                            == (DeliveryResult::Timeout { duration_ms: a.timeout() })
                    &&& forall|id: u64| #[trigger] a.delivered().contains_key(id)
                        ==> b.delivered().contains_key(id) && b.delivered()[id] == a.delivered()[id]
                    &&& b.next_id() == a.next_id()
                },
    {
        let n = self.workers.len();
        let mut freed: usize = 0;
        let mut w: usize = 0;
        proof {
            self.admission.lemma_total_within_capacity();
            assert(self.admission.workers() * self.admission.max() <= usize::MAX);
        }
        while w < n
            invariant
                n == self.workers@.len(),
                n == old(self).workers@.len(),
                w <= n,
                self.config == old(self).config,
                self.admission.wf(),
                self.admission.workers() == n,
                self.admission.max() == old(self).admission.max(),
                self.admission.is_closed_spec() == old(self).admission.is_closed_spec(),
                self.admission.total() + freed == old(self).admission.total(),
                old(self).admission.total() <= usize::MAX,
                forall|v: int|
                    0 <= v < n ==> {
                        &&& (#[trigger] self.workers@[v]).wf()
                        &&& self.workers@[v].timeout() == old(self).workers@[v].timeout()
                        &&& self.workers@[v].is_shutting_down() == old(self).workers@[v].is_shutting_down()
                        &&& self.admission.counts()[v] == self.workers@[v].entries().len()
                    },
                forall|v: int| w <= v < n ==> #[trigger] self.workers@[v] == old(self).workers@[v],
                forall|v: int|
                    0 <= v < w ==> {
                        let a = old(self).workers@[v];
                        let b = #[trigger] self.workers@[v];
                        &&& forall|i: int| 0 <= i < b.entries().len() ==> now < #[trigger] b.entries()[i].deadline
                        &&& forall|id: u64| #[trigger] b.holds(id) ==> a.holds(id)
                        &&& forall|i: int|
                            0 <= i < a.entries().len() && now < #[trigger] a.entries()[i].deadline
                                ==> b.holds(a.entries()[i].id)
                        &&& forall|i: int|
                            0 <= i < a.entries().len() && #[trigger] a.entries()[i].deadline <= now
                                ==> b.delivered().contains_key(a.entries()[i].id)
                                && b.delivered()[a.entries()[i].id]
                                == (DeliveryResult::Timeout { duration_ms: a.timeout() })
                        &&& forall|id: u64| #[trigger] a.delivered().contains_key(id)
                            ==> b.delivered().contains_key(id) && b.delivered()[id] == a.delivered()[id]
                        &&& b.next_id() == a.next_id()
                    },
            decreases n - w,
        {
            let ghost before = self.workers@;
            assert(self.workers@[w as int].wf());
            let k = self.workers[w].expire_due(now);
            proof {
                assert(self.admission.counts()[w as int] == before[w as int].entries().len());
            }
            self.admission.release_many(w, k);
            proof {
                lemma_sum_nonneg(self.admission.counts());
            }
            freed = freed + k;
            proof {
                assert forall|v: int| 0 <= v < n && v != w implies #[trigger] self.workers@[v] == before[v] by {}
            }
            w += 1;
        }
        freed
    }

    /// Ends every transaction of worker `w` with `Dropped` and releases its
    /// slots, for a worker that stopped before its work was done. Returns how
    /// many slots were released.
    pub fn abandon(&mut self, w: usize) -> (freed: usize)
        requires
            old(self).wf(),
            w < old(self).size(),
        ensures
            final(self).wf(),
            freed == old(self).count(w as int),
            final(self).count(w as int) == 0,
            final(self).admission().total() + freed == old(self).admission().total(),
            forall|id: u64| #[trigger] old(self).workers()[w as int].holds(id)
                ==> final(self).workers()[w as int].delivered().contains_key(id)
                && final(self).workers()[w as int].delivered()[id] == DeliveryResult::Dropped,
            forall|id: u64| #[trigger] old(self).workers()[w as int].delivered().contains_key(id)
                ==> final(self).workers()[w as int].delivered().contains_key(id)
                && final(self).workers()[w as int].delivered()[id] == old(
                    self,
                ).workers()[w as int].delivered()[id],
            final(self).workers()[w as int].next_id() == old(self).workers()[w as int].next_id(),
            forall|v: int|
                0 <= v < old(self).size() && v != w ==> #[trigger] final(self).workers()[v]
                    == old(self).workers()[v],
            final(self).config() == old(self).config(),
            final(self).is_closed_spec() == old(self).is_closed_spec(),
            final(self).size() == old(self).size(),
    {
        let ghost before = self.workers@;
        assert(self.workers@[w as int].wf());
        let k = self.workers[w].abandon();
        self.admission.release_many(w, k);
        proof {
            assert forall|v: int| 0 <= v < self.size() && v != w implies #[trigger] self.workers()[v]
                == before[v] by {}
        }
        k
    }

    /// Every transaction a worker executed has, at every point, either had
    /// exactly one result delivered or is still in flight, never both.
    pub proof fn lemma_delivered_exactly_once(&self, w: int, id: u64)
        requires
            self.wf(),
            0 <= w < self.size(),
            self.workers()[w].assigned(id),
        ensures
            self.workers()[w].delivered().contains_key(id) != self.workers()[w].holds(id),
    {
        self.workers()[w].lemma_terminates_once(id);
    }

    /// A worker's in-flight counter counts exactly the transactions in its
    /// in-flight set, so it is positive while any of them is there.
    pub proof fn lemma_counter_reflects_in_flight(&self, w: int, id: u64)
        requires
            self.wf(),
            0 <= w < self.size(),
            self.workers()[w].holds(id),
        ensures
            self.count(w) == self.workers()[w].entries().len(),
            self.count(w) >= 1,
    {
        assert(self.workers()[w].wf());
    }

    /// Once the pool is drained after shutdown, every transaction it took has
    /// had its result delivered.
    pub proof fn lemma_drained_all_delivered(&self)
        requires
            self.wf(),
            self.drained(),
        ensures
            forall|w: int, id: u64|
                0 <= w < self.size() && #[trigger] self.workers()[w].assigned(id)
                    ==> self.workers()[w].delivered().contains_key(id),
    {
        assert forall|w: int, id: u64|
            0 <= w < self.size() && #[trigger] self.workers()[w].assigned(id)
            implies self.workers()[w].delivered().contains_key(id) by {
            self.workers()[w].lemma_empty_means_delivered();
        }
    }

    /// Transactions taken and not yet delivered never exceed workers times the
    /// per-worker cap.
    pub proof fn lemma_within_capacity(&self)
        requires
            self.wf(),
        ensures
            0 <= self.admission().total() <= self.config().capacity(),
    {
        self.admission().lemma_total_within_capacity();
    }

    /// With one worker of one slot, at most one transaction is ever in flight.
    pub proof fn lemma_single_slot(&self)
        requires
            self.wf(),
            self.config().workers == 1,
            self.config().max_transactions_per_worker == 1,
        ensures
            self.admission().total() <= 1,
            self.workers()[0].entries().len() <= 1,
    {
        self.admission().lemma_total_within_capacity();
        assert(self.workers()[0].wf());
    }

    /// One step of the graceful shutdown at time `now`: closes admission if
    /// it is still open, runs the timers, and reports whether every worker has
    /// drained. When it reports so, every transaction the pool ever took has
    /// had its result delivered. Shutdown is complete when a caller, handing in
    /// the client's outcomes in between, has called this until it returns true.
    pub fn drain_step(&mut self, now: u64) -> (drained: bool)
        requires
            old(self).wf(),
        ensures
            final(self).wf(),
            final(self).is_closed_spec(),
            drained == final(self).drained(),
            final(self).config() == old(self).config(),
            final(self).size() == old(self).size(),
            forall|w: int|
                0 <= w < old(self).size() ==> (#[trigger] final(self).workers()[w]).next_id()
                    == old(self).workers()[w].next_id(),
            drained ==> forall|w: int, id: u64|
                0 <= w < final(self).size() && #[trigger] final(self).workers()[w].assigned(id)
                    ==> final(self).workers()[w].delivered().contains_key(id),
            old(self).drained() ==> drained && *final(self) == *old(self),
            forall|w: int|
                0 <= w < old(self).size() ==> {
                    let a = old(self).workers()[w];
                    let b = #[trigger] final(self).workers()[w];
                    &&& forall|i: int| 0 <= i < b.entries().len() ==> now < #[trigger] b.entries()[i].deadline
                    &&& forall|id: u64| #[trigger] b.holds(id) ==> a.holds(id)
                    &&& forall|i: int|
                        0 <= i < a.entries().len() && now < #[trigger] a.entries()[i].deadline
                            ==> b.holds(a.entries()[i].id)
                    &&& forall|i: int|
                        0 <= i < a.entries().len() && #[trigger] a.entries()[i].deadline <= now
                            ==> b.delivered().contains_key(a.entries()[i].id)
                            && b.delivered()[a.entries()[i].id]
                            == (DeliveryResult::Timeout { duration_ms: a.timeout() })
                    &&& forall|id: u64| #[trigger] a.delivered().contains_key(id)
                        ==> b.delivered().contains_key(id) && b.delivered()[id] == a.delivered()[id]
                },
    {
        if self.is_drained() {
            return true;
        }
        self.begin_shutdown();
        self.tick(now);
        let drained = self.is_drained();
        proof {
            if drained {
                self.lemma_drained_all_delivered();
            }
        }
        drained
    }

    /// Whether shutdown has begun and every worker has drained.
    pub fn is_drained(&self) -> (r: bool)
        requires
            self.wf(),
        ensures
            r == self.drained(),
    {
        if !self.admission.is_closed() {
            return false;
        }
        let mut i: usize = 0;
        while i < self.workers.len()
            invariant
                i <= self.workers@.len(),
                forall|w: int| 0 <= w < i ==> (#[trigger] self.workers@[w]).entries().len() == 0,
            decreases self.workers@.len() - i,
        {
            if self.workers[i].in_flight_count() != 0 {
                assert(self.workers()[i as int].entries().len() != 0);
                return false;
            }
            i += 1;
        }
        true
    }

    pub fn is_closed(&self) -> (r: bool)
        ensures
            r == self.is_closed_spec(),
    {
        self.admission.is_closed()
    }

    /// The in-flight counter of worker `w`.
    pub fn in_flight(&self, w: usize) -> (r: usize)
        requires
            self.wf(),
            w < self.size(),
        ensures
            r == self.count(w as int),
            r == self.workers()[w as int].entries().len(),
    {
        self.admission.in_flight(w)
    }

    pub fn worker_count(&self) -> (r: usize)
        requires
            self.wf(),
        ensures
            r == self.size(),
    {
        self.workers.len()
    }

    pub fn configuration(&self) -> (r: Config)
        ensures
            r == self.config(),
    {
        self.config
    }

    /// Whether every worker can still assign an id.
    pub fn has_ids_left(&self) -> (r: bool)
        ensures
            r == self.ids_left(),
    {
        let mut i: usize = 0;
        while i < self.workers.len()
            invariant
                i <= self.workers@.len(),
                forall|w: int| 0 <= w < i ==> (#[trigger] self.workers@[w]).next_id() < u64::MAX,
            decreases self.workers@.len() - i,
        {
            if !self.workers[i].can_execute() {
                assert(!(self.workers()[i as int].next_id() < u64::MAX));
                return false;
            }
            i += 1;
        }
        true
    }
}

} // verus!
