use vstd::prelude::*;
use crate::deliverable::{Deliverable, DeliveryResult, Response, TransportError};
use crate::transaction::Transaction;

verus! {

/// The deadline of a transaction started at `started_at`: `timeout` later,
/// saturating at the end of the clock.
pub open spec fn deadline_of(started_at: u64, timeout: u64) -> u64 {
    if started_at + timeout <= u64::MAX {
        (started_at + timeout) as u64
    } else {
        u64::MAX
    }
}

/// Time from `started_at` to `now`; zero if the clock reads earlier.
pub open spec fn elapsed(started_at: u64, now: u64) -> u64 {
    if now >= started_at {
        (now - started_at) as u64
    } else {
        0
    }
}

/// The result delivered for a transaction whose client outcome is observed at
/// `now`: once the deadline is reached the timer has won and the result is a
/// `Timeout` of the configured length; before it, a response of any status is
/// a `Response` and a failure is a `HyperError`.
pub open spec fn result_for(
    started_at: u64,
    deadline: u64,
    timeout: u64,
    outcome: Result<Response, TransportError>,
    now: u64,
) -> DeliveryResult {
    if now >= deadline {
        DeliveryResult::Timeout { duration_ms: timeout }
    } else {
        match outcome {
            Ok(response) => DeliveryResult::Response {
                response,
                duration_ms: elapsed(started_at, now),
            },
            Err(error) => DeliveryResult::HyperError { error },
        }
    }
}

/// Maps what the HTTP client produced for a transaction to its terminal result.
pub fn delivery_result(
    started_at: u64,
    deadline: u64,
    timeout: u64,
    outcome: Result<Response, TransportError>,
    now: u64,
) -> (r: DeliveryResult)
    ensures
        r == result_for(started_at, deadline, timeout, outcome, now),
{
    if now >= deadline {
        DeliveryResult::Timeout { duration_ms: timeout }
    } else {
        match outcome {
            Ok(response) => DeliveryResult::Response {
                response,
                duration_ms: now.saturating_sub(started_at),
            },
            Err(error) => DeliveryResult::HyperError { error },
        }
    }
}

/// A response that takes at least the timeout to arrive is delivered as a
/// `Timeout` of the configured length, whatever the client produced.
pub proof fn lemma_slow_response_times_out(
    started_at: u64,
    timeout: u64,
    outcome: Result<Response, TransportError>,
    now: u64,
)
    requires
        now >= started_at,
        now - started_at >= timeout,
    ensures
        result_for(started_at, deadline_of(started_at, timeout), timeout, outcome, now)
            == (DeliveryResult::Timeout { duration_ms: timeout }),
{
}

/// What arrives on a worker's inbound channel.
pub enum Message<D> {
    /// Begin a transaction for which the pool has already taken a slot.
    Execute(Transaction<D>),
    /// Stop taking work, drain what is in flight, then exit.
    Shutdown,
}

/// A transaction the worker is driving.
pub struct InFlight<D> {
    pub id: u64,
    pub started_at: u64,
    pub deadline: u64,
    pub transaction: Transaction<D>,
}

/// The state of one worker's event loop: the transactions in flight with their
/// deadlines, the next id to assign, and the shutdown flag. The ghost map
/// records the result delivered for every transaction that has terminated.
pub struct Worker<D> {
    timeout: u64,
    in_flight: Vec<InFlight<D>>,
    next_id: u64,
    shutting_down: bool,
    delivered: Ghost<Map<u64, DeliveryResult>>,
}

impl<D: Deliverable> Worker<D> {
    pub closed spec fn timeout(&self) -> u64 {
        self.timeout
    }

    /// The in-flight set, in the order the transactions began.
    pub closed spec fn entries(&self) -> Seq<InFlight<D>> {
        self.in_flight@
    }

    /// How many ids have been assigned: exactly the ids below this one.
    pub closed spec fn next_id(&self) -> nat {
        self.next_id as nat
    }

    pub closed spec fn is_shutting_down(&self) -> bool {
        self.shutting_down
    }

    /// The result delivered for each transaction that has terminated.
    pub closed spec fn delivered(&self) -> Map<u64, DeliveryResult> {
        self.delivered@
    }

    /// Transaction `id` is in flight.
    pub open spec fn holds(&self, id: u64) -> bool {
        exists|i: int| 0 <= i < self.entries().len() && #[trigger] self.entries()[i].id == id
    }

    /// Transaction `id` has been executed by this worker.
    pub open spec fn assigned(&self, id: u64) -> bool {
        id < self.next_id()
    }

    pub open spec fn wf(&self) -> bool {
        &&& forall|i: int, j: int|
            0 <= i < j < self.entries().len() ==> #[trigger] self.entries()[i].id
                != #[trigger] self.entries()[j].id
        &&& forall|i: int|
            0 <= i < self.entries().len() ==> {
                &&& self.assigned(#[trigger] self.entries()[i].id)
                &&& !self.delivered().contains_key(self.entries()[i].id)
                &&& self.entries()[i].deadline == deadline_of(
                    self.entries()[i].started_at,
                    self.timeout(),
                )
            }
        &&& forall|id: u64| #[trigger]
            self.delivered().contains_key(id) ==> self.assigned(id)
        &&& forall|id: u64| #[trigger]
            self.assigned(id) ==> self.delivered().contains_key(id) || self.holds(id)
    }

    /// A worker whose transactions time out after `timeout` milliseconds.
    pub fn new(timeout: u64) -> (r: Worker<D>)
        ensures
            r.wf(),
            r.timeout() == timeout,
            r.entries().len() == 0,
            r.next_id() == 0,
            !r.is_shutting_down(),
            r.delivered() == Map::<u64, DeliveryResult>::empty(),
    {
        Worker {
            timeout,
            in_flight: Vec::new(),
            next_id: 0,
            shutting_down: false,
            delivered: Ghost(Map::empty()),
        }
    }

    /// Begins transaction `t` at time `now`: assigns it the next id and arms
    /// its deadline. Queued work is still executed while shutting down.
    pub fn execute(&mut self, t: Transaction<D>, now: u64) -> (id: u64)
        requires
            old(self).wf(),
            old(self).next_id() < u64::MAX,
        ensures
            final(self).wf(),
            id == old(self).next_id(),
            final(self).next_id() == old(self).next_id() + 1,
            final(self).entries() == old(self).entries().push(
                InFlight { id, started_at: now, deadline: deadline_of(now, old(self).timeout()), transaction: t },
            ),
            final(self).delivered() == old(self).delivered(),
            final(self).timeout() == old(self).timeout(),
            final(self).is_shutting_down() == old(self).is_shutting_down(),
    {
        let id = self.next_id;
        let deadline = now.saturating_add(self.timeout);
        self.in_flight.push(InFlight { id, started_at: now, deadline, transaction: t });
        self.next_id = id + 1;
        proof {
            let n = self.in_flight@.len() - 1;
            assert(self.in_flight@[n].id == id);
            assert(!self.delivered().contains_key(id)) by {
                if self.delivered().contains_key(id) {
                    assert(old(self).delivered().contains_key(id));
                }
            }
            assert forall|i: int| 0 <= i < n implies #[trigger] self.entries()[i].id != id by {
                assert(self.entries()[i] == old(self).entries()[i]);
                assert(old(self).assigned(old(self).entries()[i].id));
            }
            assert forall|i: int| 0 <= i < self.entries().len() implies #[trigger] self.assigned(
                self.entries()[i].id,
            ) by {
                if i < n {
                    assert(self.entries()[i] == old(self).entries()[i]);
                    assert(old(self).assigned(old(self).entries()[i].id));
                }
            }
            assert forall|x: u64| #[trigger] self.delivered().contains_key(x) implies self.assigned(x) by {
                assert(old(self).delivered().contains_key(x));
            }
            assert forall|x: u64| #[trigger] self.assigned(x) implies self.delivered().contains_key(x)
                || self.holds(x) by {
                if x == id {
                    assert(self.entries()[n].id == x);
                } else {
                    assert(old(self).assigned(x));
                    if !self.delivered().contains_key(x) {
                        let i = choose|i: int|
                            0 <= i < old(self).entries().len() && #[trigger] old(self).entries()[i].id == x;
                        assert(self.entries()[i].id == x);
                    }
                }
            }
        }
        id
    }

    /// Handles the next inbound message, or the channel's closing (`None`),
    /// which counts as `Shutdown`. Returns the id of a transaction begun.
    pub fn on_message(&mut self, msg: Option<Message<D>>, now: u64) -> (r: Option<u64>)
        requires
            old(self).wf(),
            old(self).next_id() < u64::MAX,
        ensures
            final(self).wf(),
            final(self).delivered() == old(self).delivered(),
            final(self).timeout() == old(self).timeout(),
            msg matches Some(Message::Execute(t)) ==> {
                &&& r == Some(old(self).next_id() as u64)
                &&& final(self).next_id() == old(self).next_id() + 1
                &&& final(self).entries() == old(self).entries().push(
                    (InFlight {
                        id: old(self).next_id() as u64,
                        started_at: now,
                        deadline: deadline_of(now, old(self).timeout()),
                        transaction: t,
                    }),
                )
                &&& final(self).is_shutting_down() == old(self).is_shutting_down()
            },
            !(msg matches Some(Message::Execute(_))) ==> {
                &&& r is None
                &&& final(self).is_shutting_down()
                &&& final(self).entries() == old(self).entries()
                &&& final(self).next_id() == old(self).next_id()
            },
    {
        match msg {
            Some(Message::Execute(t)) => Some(self.execute(t, now)),
            _ => {
                self.begin_shutdown();
                None
            },
        }
    }

    /// Where transaction `id` stands in the in-flight set, if it is there.
    pub fn position(&self, id: u64) -> (r: Option<usize>)
        requires
            self.wf(),
        ensures
            r is None <==> !self.holds(id),
            r matches Some(i) ==> i < self.entries().len() && self.entries()[i as int].id == id,
    {
        let mut i: usize = 0;
        while i < self.in_flight.len()
            invariant
                i <= self.in_flight@.len(),
                forall|j: int| 0 <= j < i ==> self.in_flight@[j].id != id,
            decreases self.in_flight@.len() - i,
        {
            if self.in_flight[i].id == id {
                return Some(i);
            }
            i += 1;
        }
        None
    }

    /// Takes entry `i` out of the in-flight set and hands `result` to its
    /// deliverable, recording the delivery.
    fn deliver_at(&mut self, i: usize, result: DeliveryResult)
        requires
            old(self).wf(),
            i < old(self).entries().len(),
        ensures
            final(self).wf(),
            final(self).entries() == old(self).entries().remove(i as int),
            final(self).delivered() == old(self).delivered().insert(
                old(self).entries()[i as int].id,
                result,
            ),
            final(self).next_id() == old(self).next_id(),
            final(self).timeout() == old(self).timeout(),
            final(self).is_shutting_down() == old(self).is_shutting_down(),
    {
        let ghost before = self.entries();
        let entry = self.in_flight.remove(i);
        let id = entry.id;
        proof {
            self.delivered@ = self.delivered@.insert(id, result);
            assert(self.entries() == before.remove(i as int));
            assert forall|k: int| 0 <= k < self.entries().len() implies #[trigger] self.entries()[k].id
                != id by {
                if k < i {
                    assert(self.entries()[k] == before[k]);
                } else {
                    assert(self.entries()[k] == before[k + 1]);
                }
            }
            assert forall|x: u64| #[trigger] self.assigned(x) implies self.delivered().contains_key(x)
                || self.holds(x) by {
                if x != id && !self.delivered().contains_key(x) {
                    assert(old(self).assigned(x));
                    let j = choose|j: int|
                        0 <= j < before.len() && #[trigger] before[j].id == x;
                    if j < i {
                        assert(self.entries()[j].id == x);
                    } else {
                        assert(j != i);
                        assert(self.entries()[j - 1].id == x);
                    }
                }
            }
            assert forall|a: int, b: int|
                0 <= a < b < self.entries().len() implies #[trigger] self.entries()[a].id
                != #[trigger] self.entries()[b].id by {
                let a2 = if a < i { a } else { a + 1 };
                let b2 = if b < i { b } else { b + 1 };
                assert(self.entries()[a] == before[a2]);
                assert(self.entries()[b] == before[b2]);
            }
        }
        entry.transaction.deliverable.complete(result);
    }

    /// The HTTP client produced `outcome` for transaction `id`, observed at
    /// `now`. If the transaction is still in flight it leaves the set and its
    /// deliverable receives the result; otherwise (the timer won) nothing
    /// happens. Returns whether a slot was freed.
    pub fn on_response(
        &mut self,
        id: u64,
        outcome: Result<Response, TransportError>,
        now: u64,
    ) -> (freed: bool)
        requires
            old(self).wf(),
        ensures
            final(self).wf(),
            freed == old(self).holds(id),
            !freed ==> *final(self) == *old(self),
            freed ==> exists|i: int|
                0 <= i < old(self).entries().len() && #[trigger] old(self).entries()[i].id == id
                    && final(self).entries() == old(self).entries().remove(i)
                    && final(self).delivered() == old(self).delivered().insert(
                    id,
                    result_for(
                        old(self).entries()[i].started_at,
                        old(self).entries()[i].deadline,
                        old(self).timeout(),
                        outcome,
                        now,
                    ),
                ),
            final(self).next_id() == old(self).next_id(),
            final(self).timeout() == old(self).timeout(),
            final(self).is_shutting_down() == old(self).is_shutting_down(),
    {
        match self.position(id) {
            None => false,
            Some(i) => {
                let result = delivery_result(
                    self.in_flight[i].started_at,
                    self.in_flight[i].deadline,
                    self.timeout,
                    outcome,
                    now,
                );
                self.deliver_at(i, result);
                true
            },
        }
    }

    /// The timer of transaction `id` fired at `now`. If the transaction is
    /// still in flight and its deadline has come, it leaves the set with a
    /// `Timeout`; otherwise nothing happens. Returns whether a slot was freed.
    pub fn on_timer(&mut self, id: u64, now: u64) -> (freed: bool)
        requires
            old(self).wf(),
        ensures
            final(self).wf(),
            freed <==> exists|i: int|
                0 <= i < old(self).entries().len() && #[trigger] old(self).entries()[i].id == id
                    && old(self).entries()[i].deadline <= now,
            !freed ==> *final(self) == *old(self),
            freed ==> exists|i: int|
                0 <= i < old(self).entries().len() && #[trigger] old(self).entries()[i].id == id
                    && final(self).entries() == old(self).entries().remove(i)
                    && final(self).delivered() == old(self).delivered().insert(
                    id,
                    DeliveryResult::Timeout { duration_ms: old(self).timeout() },
                ),
            final(self).next_id() == old(self).next_id(),
            final(self).timeout() == old(self).timeout(),
            final(self).is_shutting_down() == old(self).is_shutting_down(),
    {
        match self.position(id) {
            None => false,
            Some(i) => {
                if self.in_flight[i].deadline <= now {
                    self.deliver_at(i, DeliveryResult::Timeout { duration_ms: self.timeout });
                    true
                } else {
                    proof {
                        assert forall|j: int|
                            0 <= j < self.entries().len() && #[trigger] self.entries()[j].id == id
                            implies !(self.entries()[j].deadline <= now) by {
                            if j != i as int {
                                assert(self.entries()[i as int].id != self.entries()[j].id);
                            }
                        }
                    }
                    false
                }
            },
        }
    }

    /// Each transaction this worker executed has, at every point, either had
    /// exactly one result delivered or is still in flight, never both.
    pub proof fn lemma_terminates_once(&self, id: u64)
        requires
            self.wf(),
            self.assigned(id),
        ensures
            self.delivered().contains_key(id) != self.holds(id),
    {
        if self.holds(id) {
            let i = choose|i: int| 0 <= i < self.entries().len() && #[trigger] self.entries()[i].id == id;
            assert(!self.delivered().contains_key(self.entries()[i].id));
        }
    }

    /// Once nothing is in flight, every transaction the worker executed has
    /// had its result delivered.
    pub proof fn lemma_empty_means_delivered(&self)
        requires
            self.wf(),
            self.entries().len() == 0,
        ensures
            forall|id: u64| self.assigned(id) ==> #[trigger] self.delivered().contains_key(id),
    {
        assert forall|id: u64| self.assigned(id) implies #[trigger] self.delivered().contains_key(id) by {
            assert(self.delivered().contains_key(id) || self.holds(id));
        }
    }

    /// The first entry whose deadline has come by `now`.
    pub fn due_position(&self, now: u64) -> (r: Option<usize>)
        ensures
            r is None <==> forall|i: int| 0 <= i < self.entries().len() ==> now < #[trigger] self.entries()[i].deadline,
            r matches Some(i) ==> i < self.entries().len() && self.entries()[i as int].deadline <= now,
    {
        let mut i: usize = 0;
        while i < self.in_flight.len()
            invariant
                i <= self.in_flight@.len(),
                forall|j: int| 0 <= j < i ==> now < #[trigger] self.in_flight@[j].deadline,
            decreases self.in_flight@.len() - i,
        {
            if self.in_flight[i].deadline <= now {
                return Some(i);
            }
            i += 1;
        }
        None
    }

    /// Times out, at `now`, every transaction whose deadline has come: each
    /// leaves the set and its deliverable receives a `Timeout`. The others stay.
    /// Returns how many slots were freed.
    pub fn expire_due(&mut self, now: u64) -> (freed: usize)
        requires
            old(self).wf(),
        ensures
            final(self).wf(),
            final(self).entries().len() + freed == old(self).entries().len(),
            forall|i: int| 0 <= i < final(self).entries().len() ==> now < #[trigger] final(self).entries()[i].deadline,
            forall|id: u64| #[trigger] final(self).holds(id) ==> old(self).holds(id),
            forall|i: int|
                0 <= i < old(self).entries().len() && now < #[trigger] old(self).entries()[i].deadline
                    ==> final(self).holds(old(self).entries()[i].id),
            forall|i: int|
                0 <= i < old(self).entries().len() && #[trigger] old(self).entries()[i].deadline <= now
                    ==> final(self).delivered().contains_key(old(self).entries()[i].id)
                    && final(self).delivered()[old(self).entries()[i].id]
                    == (DeliveryResult::Timeout { duration_ms: old(self).timeout() }),
            forall|id: u64| #[trigger] old(self).delivered().contains_key(id)
                ==> final(self).delivered().contains_key(id)
                    && final(self).delivered()[id] == old(self).delivered()[id],
            final(self).next_id() == old(self).next_id(),
            final(self).timeout() == old(self).timeout(),
            final(self).is_shutting_down() == old(self).is_shutting_down(),
    {
        let mut freed: usize = 0;
        let total = self.in_flight.len();
        loop
            invariant
                total == old(self).entries().len(),
                self.wf(),
                self.entries().len() + freed == old(self).entries().len(),
                forall|id: u64| #[trigger] self.holds(id) ==> old(self).holds(id),
                forall|i: int|
                    0 <= i < old(self).entries().len() && now < #[trigger] old(self).entries()[i].deadline
                        ==> self.holds(old(self).entries()[i].id),
                forall|i: int|
                    0 <= i < old(self).entries().len() && #[trigger] old(self).entries()[i].deadline <= now
                        ==> (self.holds(old(self).entries()[i].id) || (
                        self.delivered().contains_key(old(self).entries()[i].id)
                        && self.delivered()[old(self).entries()[i].id]
                        == (DeliveryResult::Timeout { duration_ms: old(self).timeout() }))),
                forall|id: u64| #[trigger] old(self).delivered().contains_key(id)
                    ==> self.delivered().contains_key(id)
                        && self.delivered()[id] == old(self).delivered()[id],
                forall|i: int, j: int|
                    0 <= i < self.entries().len() && 0 <= j < old(self).entries().len()
                        && #[trigger] self.entries()[i].id == #[trigger] old(self).entries()[j].id
                        ==> self.entries()[i].deadline == old(self).entries()[j].deadline,
                self.next_id() == old(self).next_id(),
                self.timeout() == old(self).timeout(),
                self.is_shutting_down() == old(self).is_shutting_down(),
            decreases self.entries().len(),
        {
            match self.due_position(now) {
                None => {
                    proof {
                        assert forall|i: int|
                            0 <= i < old(self).entries().len() && #[trigger] old(self).entries()[i].deadline <= now
                            implies !self.holds(old(self).entries()[i].id) by {
                            if self.holds(old(self).entries()[i].id) {
                                let k = choose|k: int| 0 <= k < self.entries().len()
                                    && #[trigger] self.entries()[k].id == old(self).entries()[i].id;
                                assert(now < self.entries()[k].deadline);
                            }
                        }
                    }
                    return freed;
                },
                Some(i) => {
                    let ghost before = *self;
                    let ghost gone = self.entries()[i as int].id;
                    let timeout = self.timeout;
                    self.deliver_at(i, DeliveryResult::Timeout { duration_ms: timeout });
                    freed = freed + 1;
                    proof {
                        assert(!before.delivered().contains_key(gone));
                        assert forall|id: u64| #[trigger] self.holds(id) implies old(self).holds(id) by {
                            let k = choose|k: int| 0 <= k < self.entries().len() && #[trigger] self.entries()[k].id == id;
                            let k2 = if k < i { k } else { k + 1 };
                            assert(before.entries()[k2].id == id);
                            assert(before.holds(id));
                        }
                        assert forall|x: int, j: int|
                            0 <= x < self.entries().len() && 0 <= j < old(self).entries().len()
                                && #[trigger] self.entries()[x].id == #[trigger] old(self).entries()[j].id
                            implies self.entries()[x].deadline == old(self).entries()[j].deadline by {
                            let x2 = if x < i { x } else { x + 1 };
                            assert(self.entries()[x] == before.entries()[x2]);
                        }
                        assert forall|j: int|
                            0 <= j < old(self).entries().len() && now < #[trigger] old(self).entries()[j].deadline
                            implies self.holds(old(self).entries()[j].id) by {
                            let oid = old(self).entries()[j].id;
                            assert(before.holds(oid));
                            let k = choose|k: int| 0 <= k < before.entries().len() && #[trigger] before.entries()[k].id == oid;
                            assert(k != i);
                            let k2 = if k < i { k } else { k - 1 };
                            assert(self.entries()[k2] == before.entries()[k]);
                        }
                        assert forall|j: int|
                            0 <= j < old(self).entries().len() && #[trigger] old(self).entries()[j].deadline <= now
                            implies (self.holds(old(self).entries()[j].id) || (
                            self.delivered().contains_key(old(self).entries()[j].id)
                            && self.delivered()[old(self).entries()[j].id]
                            == (DeliveryResult::Timeout { duration_ms: old(self).timeout() }))) by {
                            let oid = old(self).entries()[j].id;
                            if oid != gone && before.holds(oid) {
                                let k = choose|k: int| 0 <= k < before.entries().len() && #[trigger] before.entries()[k].id == oid;
                                assert(k != i);
                                let k2 = if k < i { k } else { k - 1 };
                                assert(self.entries()[k2] == before.entries()[k]);
                            }
                        }
                        assert forall|id: u64| #[trigger] old(self).delivered().contains_key(id)
                            implies self.delivered().contains_key(id)
                                && self.delivered()[id] == old(self).delivered()[id] by {
                            assert(before.delivered().contains_key(id));
                        }
                    }
                },
            }
        }
    }

    /// Ends every transaction still in flight with `Dropped`, for a worker
    /// that must stop before its work is done. Returns how many slots were
    /// freed.
    pub fn abandon(&mut self) -> (freed: usize)
        requires
            old(self).wf(),
        ensures
            final(self).wf(),
            final(self).entries().len() == 0,
            freed == old(self).entries().len(),
            forall|id: u64| #[trigger] old(self).holds(id) ==> final(self).delivered().contains_key(id)
                && final(self).delivered()[id] == DeliveryResult::Dropped,
            forall|id: u64| #[trigger] old(self).delivered().contains_key(id)
                ==> final(self).delivered().contains_key(id)
                    && final(self).delivered()[id] == old(self).delivered()[id],
            final(self).next_id() == old(self).next_id(),
            final(self).timeout() == old(self).timeout(),
            final(self).is_shutting_down() == old(self).is_shutting_down(),
    {
        let mut freed: usize = 0;
        let total = self.in_flight.len();
        while self.in_flight.len() > 0
            invariant
                total == old(self).entries().len(),
                self.wf(),
                self.entries().len() + freed == old(self).entries().len(),
                forall|i: int| 0 <= i < self.entries().len() ==> self.entries()[i] == old(self).entries()[i],
                forall|i: int|
                    self.entries().len() <= i < old(self).entries().len() ==>
                    self.delivered().contains_key(#[trigger] old(self).entries()[i].id)
                    && self.delivered()[old(self).entries()[i].id] == DeliveryResult::Dropped,
                forall|id: u64| #[trigger] old(self).delivered().contains_key(id)
                    ==> self.delivered().contains_key(id)
                        && self.delivered()[id] == old(self).delivered()[id],
                self.next_id() == old(self).next_id(),
                self.timeout() == old(self).timeout(),
                self.is_shutting_down() == old(self).is_shutting_down(),
            decreases self.entries().len(),
        {
            let last = self.in_flight.len() - 1;
            let ghost before = *self;
            self.deliver_at(last, DeliveryResult::Dropped);
            freed = freed + 1;
            proof {
                assert(!before.delivered().contains_key(before.entries()[last as int].id));
                assert forall|id: u64| #[trigger] old(self).delivered().contains_key(id)
                    implies self.delivered().contains_key(id)
                        && self.delivered()[id] == old(self).delivered()[id] by {
                    assert(before.delivered().contains_key(id));
                    assert(before.entries()[last as int].id != id) by {
                        assert(!before.delivered().contains_key(before.entries()[last as int].id));
                    }
                }
                assert forall|i: int| 0 <= i < self.entries().len() implies self.entries()[i] == old(self).entries()[i] by {
                    assert(self.entries()[i] == before.entries()[i]);
                }
                assert forall|i: int|
                    self.entries().len() <= i < old(self).entries().len() implies
                    self.delivered().contains_key(#[trigger] old(self).entries()[i].id)
                    && self.delivered()[old(self).entries()[i].id] == DeliveryResult::Dropped by {
                    if i > last as int {
                        assert(old(self).entries()[i].id != before.entries()[last as int].id) by {
                            assert(old(self).entries()[last as int] == before.entries()[last as int]);
                        }
                    }
                }
            }
        }
        proof {
            assert forall|id: u64| #[trigger] old(self).holds(id) implies self.delivered().contains_key(id)
                && self.delivered()[id] == DeliveryResult::Dropped by {
                let k = choose|k: int| 0 <= k < old(self).entries().len() && #[trigger] old(self).entries()[k].id == id;
                assert(self.delivered().contains_key(old(self).entries()[k].id));
            }
        }
        freed
    }

    /// The earliest deadline in the in-flight set, for arming the timer.
    pub fn next_deadline(&self) -> (r: Option<u64>)
        ensures
            r is None <==> self.entries().len() == 0,
            r matches Some(d) ==> {
                &&& exists|i: int| 0 <= i < self.entries().len() && #[trigger] self.entries()[i].deadline == d
                &&& forall|i: int| 0 <= i < self.entries().len() ==> d <= #[trigger] self.entries()[i].deadline
            },
    {
        if self.in_flight.len() == 0 {
            return None;
        }
        let mut best: u64 = self.in_flight[0].deadline;
        let mut k: usize = 1;
        while k < self.in_flight.len()
            invariant
                1 <= k <= self.in_flight@.len(),
                exists|i: int| 0 <= i < k && #[trigger] self.in_flight@[i].deadline == best,
                forall|i: int| 0 <= i < k ==> best <= #[trigger] self.in_flight@[i].deadline,
            decreases self.in_flight@.len() - k,
        {
            if self.in_flight[k].deadline < best {
                best = self.in_flight[k].deadline;
            }
            k += 1;
        }
        Some(best)
    }

    /// Stop accepting new work; what is in flight keeps running to the end.
    pub fn begin_shutdown(&mut self)
        requires
            old(self).wf(),
        ensures
            final(self).wf(),
            final(self).is_shutting_down(),
            final(self).entries() == old(self).entries(),
            final(self).delivered() == old(self).delivered(),
            final(self).next_id() == old(self).next_id(),
            final(self).timeout() == old(self).timeout(),
    {
        self.shutting_down = true;
        proof {
            assert forall|x: u64| #[trigger] self.assigned(x) implies self.delivered().contains_key(x)
                || self.holds(x) by {
                assert(old(self).assigned(x));
                if !self.delivered().contains_key(x) {
                    let i = choose|i: int|
                        0 <= i < old(self).entries().len() && #[trigger] old(self).entries()[i].id == x;
                    assert(self.entries()[i].id == x);
                }
            }
            assert forall|x: u64| #[trigger] self.delivered().contains_key(x) implies self.assigned(x) by {
                assert(old(self).delivered().contains_key(x));
            }
            assert forall|i: int| 0 <= i < self.entries().len() implies #[trigger] self.assigned(
                self.entries()[i].id,
            ) by {
                assert(old(self).assigned(old(self).entries()[i].id));
            }
        }
    }

    /// Shut down and drained: the event loop may exit.
    pub fn is_finished(&self) -> (r: bool)
        ensures
            r == (self.is_shutting_down() && self.entries().len() == 0),
    {
        self.shutting_down && self.in_flight.len() == 0
    }

    pub fn in_flight_count(&self) -> (r: usize)
        ensures
            r == self.entries().len(),
    {
        self.in_flight.len()
    }

    pub fn transaction_timeout(&self) -> (r: u64)
        ensures
            r == self.timeout(),
    {
        self.timeout
    }

    /// Whether more ids can be assigned.
    pub fn can_execute(&self) -> (r: bool)
        ensures
            r == (self.next_id() < u64::MAX),
    {
        self.next_id < u64::MAX
    }
}

} // verus!
