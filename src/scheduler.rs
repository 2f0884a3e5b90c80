//! The per-client fair scheduler: per-client FIFO queues, the `ready` and
//! `has_work` bookkeeping, and the dispatch pass that hands at most one job
//! per client to the worker pool (or to the client's open transaction).
//!
//! The event loop that waits on the inbound channels lives outside this
//! module: it feeds each event to `update_queues` or `update_queue_status`,
//! runs `schedule_work`, and stops once `should_stop` says so.
use crate::channel::{deliver, offer, Offer};
use crossbeam::channel::Sender;
use std::collections::{HashMap, HashSet, VecDeque};
use vstd::prelude::*;

verus! {

broadcast use vstd::std_specs::hash::group_hash_axioms;

/// Identifies a connected client for as long as it is connected.
pub type ClientId = usize;

/// The parsed statements of one request.
#[derive(Debug)]
pub struct Statements {
    pub stmts: String,
}

/// What a client asks of the scheduler.
#[derive(Debug)]
pub enum Action {
    /// The client is gone: retire its queue once it has drained.
    Disconnect,
    /// Run these statements after the client's earlier requests.
    Execute(Statements),
}

/// A request from the server layer. `R` is the handle that delivers the
/// result back to the client.
#[derive(Debug)]
pub struct ServerMessage<R> {
    pub client_id: ClientId,
    pub action: Action,
    pub responder: R,
}

/// One unit of work for a worker. `B` is the handle on which the worker posts
/// state updates back to the scheduler.
#[derive(Debug)]
pub struct Job<R, B> {
    pub scheduler_sender: B,
    pub statements: Statements,
    pub client_id: ClientId,
    pub responder: R,
}

/// What a worker reports back to the scheduler.
#[derive(Debug)]
#[verifier::reject_recursive_types(R)]
#[verifier::reject_recursive_types(B)]
pub enum UpdateStateMessage<R, B> {
    /// The client's job is done; the client may be given its next job.
    Ready(ClientId),
    /// A job opened a transaction: the client's next jobs go to this channel.
    TxnBegin(ClientId, Sender<Job<R, B>>),
    /// The client's transaction is over.
    TxnEnded(ClientId),
}

/// Why a dispatch pass stopped. Both are fatal to the scheduler.
#[derive(Debug)]
pub enum DispatchError<R, B> {
    /// The worker pool is gone; this job could not be handed to it.
    WorkerPoolClosed(Job<R, B>),
    /// This client's transaction channel had no room for its next job, which
    /// the worker holding the transaction must never let happen. The job was
    /// put back at the head of the client's queue.
    TransactionFull(ClientId),
}

/// What becomes of a job once its client's transaction channel has answered.
pub enum Handoff<J> {
    /// The transaction took the job.
    InTransaction,
    /// The transaction is over; the job goes to the worker pool instead.
    ToPool(J),
    /// The transaction had no room; the job goes back to the queue.
    Retry(J),
}

/// Decides what becomes of a job offered to a transaction channel: a job
/// taken is in flight inside the transaction, a job refused by a closed
/// channel falls back to the pool, and one refused by a full channel is
/// put back.
pub fn after_offer<J>(o: Offer<J>) -> (r: Handoff<J>)
    ensures
        o is Taken ==> r is InTransaction,
        o matches Offer::Closed(j) ==> r matches Handoff::ToPool(k) && k == j,
        o matches Offer::Full(j) ==> r matches Handoff::Retry(k) && k == j,
{
    match o {
        Offer::Taken => Handoff::InTransaction,
        Offer::Closed(j) => Handoff::ToPool(j),
        Offer::Full(j) => Handoff::Retry(j),
    }
}

/// Decides what the answer of the worker pool's channel means: a job it
/// refused, because every worker is gone, is a fatal error carrying the job.
pub fn after_delivery<R, B>(d: Result<(), Job<R, B>>) -> (r: Result<(), DispatchError<R, B>>)
    ensures
        d is Ok ==> r is Ok,
        d matches Err(j) ==> r matches Err(DispatchError::WorkerPoolClosed(k)) && k == j,
{
    match d {
        Ok(()) => Ok(()),
        Err(j) => Err(DispatchError::WorkerPoolClosed(j)),
    }
}

#[verifier::reject_recursive_types(R)]
#[verifier::reject_recursive_types(B)]
struct ClientQueue<R, B> {
    queue: VecDeque<Job<R, B>>,
    /// Where the client's jobs go while it holds an open transaction.
    active_txn: Option<Sender<Job<R, B>>>,
    /// The client has disconnected.
    should_close: bool,
}

/// The scheduler's state.
///
/// Besides the executable state it keeps, as ghost state, every job ever
/// submitted and every job handed out, per client, with where each job
/// handed out went.
#[verifier::reject_recursive_types(R)]
#[verifier::reject_recursive_types(B)]
pub struct Scheduler<R, B> {
    worker_pool_sender: Sender<Job<R, B>>,
    update_state_sender: B,
    queues: HashMap<ClientId, ClientQueue<R, B>>,
    /// Clients with no job in flight.
    ready_set: HashSet<ClientId>,
    /// Clients with at least one queued job.
    has_work_set: HashSet<ClientId>,
    /// Clients with a job handed out that no `Ready` or `TxnEnded` has
    /// acknowledged yet, whether or not they still have a queue.
    in_flight_set: HashSet<ClientId>,
    submitted_log: Ghost<Map<ClientId, Seq<Job<R, B>>>>,
    handed_out_log: Ghost<Map<ClientId, Seq<Job<R, B>>>>,
    destination_log: Ghost<Map<ClientId, Seq<Destination>>>,
}

/// Where a job was handed out to.
pub enum Destination {
    /// The shared worker pool.
    Pool,
    /// The channel of the client's open transaction.
    Transaction,
}

/// The destinations of client `c` in a per-client log; empty for a client never seen.
pub open spec fn destinations_of(m: Map<ClientId, Seq<Destination>>, c: ClientId) -> Seq<Destination> {
    if m.contains_key(c) {
        m[c]
    } else {
        Seq::empty()
    }
}

/// The log of client `c` in a per-client log; empty for a client never seen.
pub open spec fn log_of<R, B>(m: Map<ClientId, Seq<Job<R, B>>>, c: ClientId) -> Seq<Job<R, B>> {
    if m.contains_key(c) {
        m[c]
    } else {
        Seq::empty()
    }
}

impl<R, B> Scheduler<R, B> {
    /// The clients that have a queue.
    pub closed spec fn clients(&self) -> Set<ClientId> {
        self.queues@.dom()
    }

    /// The jobs queued for `c`, oldest first.
    pub closed spec fn jobs(&self, c: ClientId) -> Seq<Job<R, B>> {
        if self.queues@.contains_key(c) {
            self.queues@[c].queue@
        } else {
            Seq::empty()
        }
    }

    /// The channel of `c`'s open transaction, if any.
    pub closed spec fn txn(&self, c: ClientId) -> Option<Sender<Job<R, B>>> {
        if self.queues@.contains_key(c) {
            self.queues@[c].active_txn
        } else {
            None
        }
    }

    /// Whether `c` has disconnected while it still has a queue.
    pub closed spec fn closing(&self, c: ClientId) -> bool {
        self.queues@.contains_key(c) && self.queues@[c].should_close
    }

    /// The clients with no job in flight.
    pub closed spec fn ready(&self) -> Set<ClientId> {
        self.ready_set@
    }

    /// The clients with queued jobs.
    pub closed spec fn has_work(&self) -> Set<ClientId> {
        self.has_work_set@
    }

    /// The channel to the worker pool.
    pub closed spec fn pool(&self) -> Sender<Job<R, B>> {
        self.worker_pool_sender
    }

    /// Every job submitted for `c`, in the order of submission.
    pub closed spec fn submitted(&self, c: ClientId) -> Seq<Job<R, B>> {
        log_of(self.submitted_log@, c)
    }

    /// Every job of `c` handed to the pool or to a transaction, in order.
    pub closed spec fn handed_out(&self, c: ClientId) -> Seq<Job<R, B>> {
        log_of(self.handed_out_log@, c)
    }

    /// Where each job of `c` handed out went, in the order handed out.
    pub closed spec fn destinations(&self, c: ClientId) -> Seq<Destination> {
        destinations_of(self.destination_log@, c)
    }

    /// The clients with a job in flight: handed out and not acknowledged.
    pub closed spec fn in_flight(&self) -> Set<ClientId> {
        self.in_flight_set@
    }

    /// The handle that every new job gets a clone of.
    pub closed spec fn back_channel(&self) -> B {
        self.update_state_sender
    }

    /// The scheduler's invariant.
    pub closed spec fn wf(&self) -> bool {
        &&& forall|c: ClientId|
            #[trigger] self.has_work_set@.contains(c) <==> (self.queues@.contains_key(c)
                && self.queues@[c].queue@.len() > 0)
        &&& forall|c: ClientId|
            #[trigger] self.submitted(c) == self.handed_out(c) + self.jobs(c)
        &&& forall|c: ClientId|
            #[trigger] self.destinations(c).len() == self.handed_out(c).len()
        &&& forall|c: ClientId|
            #[trigger] self.queues@.contains_key(c) ==> self.ready_set@.contains(c)
                || self.in_flight_set@.contains(c)
        &&& forall|c: ClientId|
            !(#[trigger] self.ready_set@.contains(c) && self.in_flight_set@.contains(c))
    }

    /// Whether no ready client has a job in flight, so that a client gets a
    /// job only when none of its jobs is in flight.
    pub open spec fn one_in_flight(&self) -> bool {
        forall|c: ClientId| #[trigger] self.ready().contains(c) ==> !self.in_flight().contains(c)
    }

    /// The clients that a dispatch pass serves: ready, with queued work.
    pub open spec fn eligible(&self) -> Set<ClientId> {
        self.ready().intersect(self.has_work())
    }

    /// What a dispatch pass did to client `c`, which it served: the head of
    /// `c`'s queue was handed out and `c` left `ready`; the queue was
    /// retired if it drained and `c` had disconnected; the transaction is
    /// kept, or cleared where its channel had closed.
    pub open spec fn served(&self, pre: &Self, c: ClientId) -> bool {
        &&& self.handed_out(c) == pre.handed_out(c).push(pre.jobs(c)[0])
        &&& self.jobs(c) == pre.jobs(c).drop_first()
        &&& self.submitted(c) == pre.submitted(c)
        &&& self.clients().contains(c) == !(pre.closing(c) && pre.jobs(c).len() == 1)
        &&& self.has_work().contains(c) == (pre.jobs(c).len() > 1)
        &&& self.closing(c) == (pre.closing(c) && pre.jobs(c).len() > 1)
        &&& self.destinations(c).len() == pre.destinations(c).len() + 1
        &&& self.destinations(c).drop_last() == pre.destinations(c)
        &&& pre.txn(c) is None ==> self.destinations(c).last() == Destination::Pool
        &&& self.destinations(c).last() == Destination::Pool ==> self.txn(c) is None
        &&& self.destinations(c).last() == Destination::Transaction ==> {
            &&& pre.txn(c) is Some
            &&& self.clients().contains(c) ==> self.txn(c) == pre.txn(c)
        }
        &&& !self.clients().contains(c) ==> self.txn(c) is None
        &&& self.in_flight().contains(c)
        &&& !pre.in_flight().contains(c)
        &&& !self.ready().contains(c)
    }

    /// `self` is `pre` after a dispatch pass that served, in the order of
    /// `order`, every eligible client once, and left every other client as
    /// it was.
    pub open spec fn dispatched_from(&self, pre: &Self, order: Seq<ClientId>) -> bool {
        &&& self.wf()
        &&& order.no_duplicates()
        &&& order.to_set() == pre.eligible()
        &&& self.pool() == pre.pool()
        &&& self.back_channel() == pre.back_channel()
        &&& self.in_flight() == pre.in_flight().union(pre.eligible())
        &&& self.ready() == pre.ready().difference(pre.eligible())
        &&& self.has_work() == pre.has_work().difference(
            pre.eligible().filter(|c: ClientId| pre.jobs(c).len() == 1),
        )
        &&& self.clients() == pre.clients().difference(
            pre.eligible().filter(|c: ClientId| pre.closing(c) && pre.jobs(c).len() == 1),
        )
        &&& forall|c: ClientId| #[trigger] pre.eligible().contains(c) ==> self.served(pre, c)
        &&& forall|c: ClientId|
            !pre.eligible().contains(c) ==> #[trigger] self.untouched(pre, c)
    }

    /// `self` is `pre` after a worker acknowledged a job of `c` with `Ready`.
    pub open spec fn acknowledged(&self, pre: &Self, c: ClientId) -> bool {
        &&& self.wf()
        &&& self.pool() == pre.pool()
        &&& self.back_channel() == pre.back_channel()
        &&& self.ready() == pre.ready().insert(c)
        &&& self.in_flight() == pre.in_flight().remove(c)
        &&& self.has_work() == pre.has_work()
        &&& forall|d: ClientId| #[trigger] self.same_client(pre, d)
    }

    /// Client `d` is the same in `self` and `other`, in the bookkeeping too.
    pub open spec fn untouched(&self, other: &Self, d: ClientId) -> bool {
        &&& self.same_client(other, d)
        &&& self.has_work().contains(d) == other.has_work().contains(d)
        &&& self.in_flight().contains(d) == other.in_flight().contains(d)
    }

    /// Everything about client `d` is the same in `self` and `other`.
    pub open spec fn same_client(&self, other: &Self, d: ClientId) -> bool {
        &&& self.clients().contains(d) == other.clients().contains(d)
        &&& self.jobs(d) == other.jobs(d)
        &&& self.txn(d) == other.txn(d)
        &&& self.closing(d) == other.closing(d)
        &&& self.submitted(d) == other.submitted(d)
        &&& self.handed_out(d) == other.handed_out(d)
        &&& self.destinations(d) == other.destinations(d)
    }

    /// Every client but `c` is the same in `self` and `other`, and so are the
    /// pool and the back-channel.
    pub open spec fn same_but(&self, other: &Self, c: ClientId) -> bool {
        &&& self.pool() == other.pool()
        &&& self.back_channel() == other.back_channel()
        &&& forall|d: ClientId| d != c ==> #[trigger] self.same_client(other, d)
    }
}

impl<R, B: Clone> Scheduler<R, B> {
    /// A scheduler with no clients, that hands jobs to `worker_pool_sender`
    /// and gives each job a clone of `update_state_sender` to post back on.
    pub fn new(worker_pool_sender: Sender<Job<R, B>>, update_state_sender: B) -> (s: Self)
        ensures
            s.wf(),
            s.pool() == worker_pool_sender,
            s.back_channel() == update_state_sender,
            s.clients() == Set::<ClientId>::empty(),
            s.ready() == Set::<ClientId>::empty(),
            s.has_work() == Set::<ClientId>::empty(),
            s.in_flight() == Set::<ClientId>::empty(),
            forall|c: ClientId| #[trigger] s.submitted(c) == Seq::<Job<R, B>>::empty(),
            forall|c: ClientId| #[trigger] s.handed_out(c) == Seq::<Job<R, B>>::empty(),
            forall|c: ClientId| #[trigger] s.jobs(c) == Seq::<Job<R, B>>::empty(),
            forall|c: ClientId| #[trigger] s.destinations(c) == Seq::<Destination>::empty(),
    {
        let s = Scheduler {
            worker_pool_sender,
            update_state_sender,
            queues: HashMap::new(),
            ready_set: HashSet::new(),
            has_work_set: HashSet::new(),
            in_flight_set: HashSet::new(),
            submitted_log: Ghost(Map::empty()),
            handed_out_log: Ghost(Map::empty()),
            destination_log: Ghost(Map::empty()),
        };
        assert(s.queues@ =~= Map::empty());
        s
    }

    /// The clients that are ready and have queued work, in some order.
    fn eligible_clients(&self) -> (r: Vec<ClientId>)
        ensures
            r@.to_set() == self.eligible(),
    {
        let mut picked: Vec<ClientId> = Vec::new();
        let ghost mut seen: Seq<ClientId> = Seq::empty();
        for id in it: self.has_work_set.iter()
            invariant
                it.seq().unref().to_set() == self.has_work_set@,
                seen == it.seq().take(it.index()).unref(),
                it.index() == it.seq().len() ==> seen.to_set() == self.has_work_set@,
                forall|c: ClientId|
                    #[trigger] picked@.contains(c) <==> (self.ready_set@.contains(c) && seen.contains(c)),
        {
            let c: ClientId = *id;
            let ghost before = picked@;
            let ghost seen_before = seen;
            if self.ready_set.contains(&c) {
                picked.push(c);
            }
            proof {
                seen = seen.push(c);
                lemma_push_contains(seen_before, c);
                lemma_push_contains(before, c);
                assert(seen =~= it.seq().take(it.index() + 1).unref());
                assert(it.seq().take(it.seq().len() as int) =~= it.seq());
            }
        }
        assert(picked@.to_set() =~= self.eligible());
        picked
    }

    /// Hands out the head of `c`'s queue: to `c`'s open transaction if its
    /// channel takes it, else to the worker pool (clearing the transaction
    /// if its channel has closed). `c` leaves `ready`; a drained queue leaves
    /// `has_work`, and is retired if `c` has disconnected. If the
    /// transaction's channel is full, the job goes back and nothing changes.
    fn serve(&mut self, c: ClientId) -> (r: Result<(), DispatchError<R, B>>)
        requires
            old(self).wf(),
            old(self).eligible().contains(c),
        ensures
            r is Ok ==> {
                &&& final(self).wf()
                &&& final(self).served(&*old(self), c)
                &&& final(self).pool() == old(self).pool()
                &&& final(self).back_channel() == old(self).back_channel()
                &&& final(self).ready() == old(self).ready().remove(c)
                &&& final(self).in_flight() == old(self).in_flight().insert(c)
                &&& forall|d: ClientId|
                    d != c ==> #[trigger] final(self).untouched(&*old(self), d)
            },
            r matches Err(DispatchError::TransactionFull(k)) ==> {
                &&& k == c
                &&& old(self).txn(c) is Some
                &&& final(self).wf()
                &&& final(self).ready() == old(self).ready()
                &&& forall|d: ClientId| #[trigger] final(self).untouched(&*old(self), d)
            },
            r matches Err(DispatchError::WorkerPoolClosed(j)) ==> {
                &&& old(self).jobs(c).len() > 0
                &&& j == old(self).jobs(c)[0]
                &&& final(self).clients().contains(c)
                &&& final(self).jobs(c) == old(self).jobs(c).drop_first()
            },
    {
        let removed = self.queues.remove(&c);
        let mut q = match removed {
            Some(q) => q,
            None => {
                proof {
                    assert(false);
                }
                return unreached();
            },
        };
        let popped = q.queue.pop_front();
        let job = match popped {
            Some(job) => job,
            None => {
                proof {
                    assert(false);
                }
                return unreached();
            },
        };
        let ghost head = job;
        let handoff = match &q.active_txn {
            Some(tx) => after_offer(offer(tx, job)),
            None => Handoff::ToPool(job),
        };
        let leftover = match handoff {
            Handoff::InTransaction => None,
            Handoff::ToPool(j) => {
                q.active_txn = None;
                Some(j)
            },
            Handoff::Retry(j) => {
                q.queue.push_front(j);
                self.queues.insert(c, q);
                proof {
                    assert(self.jobs(c) =~= old(self).jobs(c));
                    assert forall|d: ClientId| #[trigger] self.untouched(&*old(self), d) by {
                        assert(self.queues@.contains_key(d) == old(self).queues@.contains_key(d));
                        if d != c && old(self).queues@.contains_key(d) {
                            assert(self.queues@[d] == old(self).queues@[d]);
                        }
                    }
                    assert forall|d: ClientId| #[trigger] self.submitted(d) == self.handed_out(d) + self.jobs(d) by {
                        assert(old(self).submitted(d) == old(self).handed_out(d) + old(self).jobs(d));
                        assert(self.untouched(&*old(self), d));
                    }
                    assert forall|d: ClientId| #[trigger] self.destinations(d).len() == self.handed_out(d).len() by {
                        assert(old(self).destinations(d).len() == old(self).handed_out(d).len());
                        assert(self.untouched(&*old(self), d));
                    }
                    assert forall|d: ClientId| #[trigger] self.queues@.contains_key(d) implies self.ready_set@.contains(d)
                        || self.in_flight_set@.contains(d) by {
                        assert(self.untouched(&*old(self), d));
                    }
                    assert forall|d: ClientId| #[trigger] self.has_work_set@.contains(d) <==> (self.queues@.contains_key(d)
                        && self.queues@[d].queue@.len() > 0) by {
                        assert(self.untouched(&*old(self), d));
                    }
                }
                return Err(DispatchError::TransactionFull(c));
            },
        };
        let to_pool = leftover.is_some();
        if let Some(j) = leftover {
            match after_delivery(deliver(&self.worker_pool_sender, j)) {
                Ok(()) => {},
                Err(e) => {
                    self.queues.insert(c, q);
                    assert(self.jobs(c) =~= old(self).jobs(c).drop_first());
                    return Err(e);
                },
            }
        }
        self.ready_set.remove(&c);
        self.in_flight_set.insert(c);
        let drained = q.queue.len() == 0;
        if drained {
            self.has_work_set.remove(&c);
        }
        if !(drained && q.should_close) {
            self.queues.insert(c, q);
        }
        proof {
            let dest = if to_pool {
                Destination::Pool
            } else {
                Destination::Transaction
            };
            self.handed_out_log@ = self.handed_out_log@.insert(c, old(self).handed_out(c).push(head));
            self.destination_log@ = self.destination_log@.insert(c, old(self).destinations(c).push(dest));
            assert(self.destinations(c).drop_last() =~= old(self).destinations(c));
            assert(self.jobs(c) =~= old(self).jobs(c).drop_first());
            assert forall|d: ClientId| d != c implies #[trigger] self.untouched(&*old(self), d) by {
                assert(self.queues@.contains_key(d) == old(self).queues@.contains_key(d));
                if old(self).queues@.contains_key(d) {
                    assert(self.queues@[d] == old(self).queues@[d]);
                }
            }
            assert forall|d: ClientId| #[trigger] self.submitted(d) == self.handed_out(d) + self.jobs(d) by {
                assert(old(self).submitted(d) == old(self).handed_out(d) + old(self).jobs(d));
                if d != c {
                    assert(self.same_client(&*old(self), d));
                } else {
                    assert(old(self).handed_out(c).push(head) + old(self).jobs(c).drop_first()
                        =~= old(self).handed_out(c) + old(self).jobs(c));
                }
            }
            assert forall|d: ClientId| #[trigger] self.destinations(d).len() == self.handed_out(d).len() by {
                assert(old(self).destinations(d).len() == old(self).handed_out(d).len());
                if d != c {
                    assert(self.same_client(&*old(self), d));
                }
            }
        }
        Ok(())
    }

    /// Runs one dispatch pass: each client that is ready and has queued work
    /// gets the head of its queue handed out, to its open transaction if the
    /// transaction's channel still takes it and to the worker pool
    /// otherwise, and leaves `ready` until a worker reports back. A queue
    /// that drains is dropped from `has_work`, and retired if its client
    /// has disconnected. Returns the clients served, in the order served.
    ///
    /// A worker pool whose channel is bounded and full makes the pass wait
    /// for room, and with it all scheduling.
    ///
    /// Stops with an error if the worker pool is gone, carrying the job it
    /// refused, the head of the queue of a client the pass was serving; or
    /// if the transaction channel of such a client is full.
    pub fn schedule_work(&mut self) -> (r: Result<Vec<ClientId>, DispatchError<R, B>>)
        requires
            old(self).wf(),
        ensures
            r matches Ok(order) ==> final(self).dispatched_from(&*old(self), order@),
            r matches Ok(_) ==> final(self).one_in_flight(),
            r matches Err(DispatchError::WorkerPoolClosed(j)) ==> exists|c: ClientId|
                #[trigger] old(self).eligible().contains(c) && old(self).jobs(c).len() > 0 && j
                    == old(self).jobs(c)[0],
            r matches Err(DispatchError::TransactionFull(c)) ==> old(self).eligible().contains(c)
                && old(self).txn(c) is Some,
    {
        let ghost pre = *old(self);
        let picked = self.eligible_clients();
        let mut served: Vec<ClientId> = Vec::new();
        let mut i: usize = 0;
        while i < picked.len()
            invariant
                i <= picked.len(),
                pre == *old(self),
                self.wf(),
                picked@.to_set() == pre.eligible(),
                served@.no_duplicates(),
                forall|c: ClientId| #[trigger] served@.contains(c) ==> pre.eligible().contains(c),
                forall|k: int| 0 <= k < i ==> served@.contains(#[trigger] picked@[k]),
                self.pool() == pre.pool(),
                self.back_channel() == pre.back_channel(),
                self.ready() == pre.ready().difference(served@.to_set()),
                self.in_flight() == pre.in_flight().union(served@.to_set()),
                forall|c: ClientId| #[trigger] served@.contains(c) ==> self.served(&pre, c),
                forall|c: ClientId|
                    !served@.contains(c) ==> #[trigger] self.untouched(&pre, c),
            decreases picked.len() - i,
        {
            let c = picked[i];
            assert(picked@.to_set().contains(c));
            if self.ready_set.contains(&c) && self.has_work_set.contains(&c) {
                assert(!served@.contains(c));
                assert(self.untouched(&pre, c));
                let ghost s0 = *self;
                match self.serve(c) {
                    Ok(()) => {},
                    Err(e) => {
                        assert(old(self).eligible().contains(c));
                        assert(s0.txn(c) == pre.txn(c));
                        return Err(e);
                    },
                }
                let ghost served_before = served@;
                served.push(c);
                proof {
                    lemma_push_contains(served_before, c);
                    assert(self.ready() =~= pre.ready().difference(served@.to_set()));
                    assert(self.in_flight() =~= pre.in_flight().union(served@.to_set()));
                    assert forall|d: ClientId| #[trigger] served@.contains(d) implies self.served(&pre, d) by {
                        if d != c {
                            assert(s0.served(&pre, d));
                            assert(self.untouched(&s0, d));
                        }
                    }
                    assert forall|d: ClientId| !served@.contains(d) implies #[trigger] self.untouched(&pre, d) by {
                        assert(s0.untouched(&pre, d));
                        assert(self.untouched(&s0, d));
                    }
                }
            } else {
                proof {
                    if !served@.contains(c) {
                        assert(self.untouched(&pre, c));
                    }
                    assert forall|d: ClientId| !served@.contains(d) implies #[trigger] self.untouched(&pre, d) by {}
                }
            }
            i = i + 1;
        }
        proof {
            assert forall|c: ClientId| pre.eligible().contains(c) implies #[trigger] served@.contains(c) by {
                assert(picked@.to_set().contains(c));
                let k = choose|k: int| 0 <= k < picked@.len() && picked@[k] == c;
            }
            assert(served@.to_set() =~= pre.eligible());
            assert forall|c: ClientId| #[trigger] self.has_work().contains(c) == pre.has_work().difference(
                pre.eligible().filter(|c: ClientId| pre.jobs(c).len() == 1),
            ).contains(c) by {
                if served@.contains(c) {
                    assert(self.served(&pre, c));
                } else {
                    assert(self.untouched(&pre, c));
                }
            }
            assert forall|c: ClientId| #[trigger] self.clients().contains(c) == pre.clients().difference(
                pre.eligible().filter(|c: ClientId| pre.closing(c) && pre.jobs(c).len() == 1),
            ).contains(c) by {
                if served@.contains(c) {
                    assert(self.served(&pre, c));
                } else {
                    assert(self.untouched(&pre, c));
                }
            }
            assert(self.has_work() =~= pre.has_work().difference(
                pre.eligible().filter(|c: ClientId| pre.jobs(c).len() == 1),
            ));
            assert(self.clients() =~= pre.clients().difference(
                pre.eligible().filter(|c: ClientId| pre.closing(c) && pre.jobs(c).len() == 1),
            ));
        }
        Ok(served)
    }

    /// Whether the event loop may stop: the server has closed its end
    /// (`server_closed`), no client has queued work, and no job handed out
    /// is waiting for its acknowledgement.
    pub fn should_stop(&self, server_closed: bool) -> (r: bool)
        requires
            self.wf(),
        ensures
            r == (server_closed && self.has_work().is_empty() && self.in_flight().is_empty()),
    {
        server_closed && self.has_work_set.is_empty() && self.in_flight_set.is_empty()
    }

    /// Whether `c` has a queue and an open transaction.
    pub fn has_txn(&self, c: ClientId) -> (r: bool)
        requires
            self.wf(),
        ensures
            r == self.txn(c) is Some,
    {
        match self.queues.get(&c) {
            Some(q) => q.active_txn.is_some(),
            None => false,
        }
    }

    /// Takes a state update from a worker.
    ///
    /// `Ready(c)` makes `c` ready. `TxnBegin(c, chan)` routes `c`'s next jobs
    /// to `chan`, if `c` still has a queue. `TxnEnded(c)` clears `c`'s
    /// transaction and makes `c` ready, if `c` still has a queue; otherwise
    /// it changes nothing. `Ready` and `TxnEnded` each acknowledge one job
    /// of `c` in flight.
    pub fn update_queue_status(&mut self, update: UpdateStateMessage<R, B>)
        requires
            old(self).wf(),
            update matches UpdateStateMessage::TxnBegin(c, _) ==> old(self).txn(c) is None,
        ensures
            final(self).wf(),
            final(self).one_in_flight(),
            final(self).clients() == old(self).clients(),
            final(self).has_work() == old(self).has_work(),
            forall|d: ClientId|
                {
                    &&& #[trigger] final(self).jobs(d) == old(self).jobs(d)
                    &&& final(self).closing(d) == old(self).closing(d)
                    &&& final(self).submitted(d) == old(self).submitted(d)
                    &&& final(self).handed_out(d) == old(self).handed_out(d)
                    &&& final(self).destinations(d) == old(self).destinations(d)
                },
            final(self).pool() == old(self).pool(),
            final(self).back_channel() == old(self).back_channel(),
            match update {
                UpdateStateMessage::Ready(c) => {
                    &&& final(self).acknowledged(&*old(self), c)
                    &&& final(self).ready() == old(self).ready().insert(c)
                    &&& final(self).in_flight() == old(self).in_flight().remove(c)
                    &&& forall|d: ClientId| #[trigger] final(self).txn(d) == old(self).txn(d)
                },
                UpdateStateMessage::TxnBegin(c, chan) => {
                    &&& final(self).ready() == old(self).ready()
                    &&& final(self).in_flight() == old(self).in_flight()
                    &&& final(self).txn(c) == (if old(self).clients().contains(c) {
                        Some(chan)
                    } else {
                        None
                    })
                    &&& forall|d: ClientId| d != c ==> #[trigger] final(self).txn(d) == old(self).txn(d)
                },
                UpdateStateMessage::TxnEnded(c) => {
                    &&& final(self).ready() == (if old(self).clients().contains(c) {
                        old(self).ready().insert(c)
                    } else {
                        old(self).ready()
                    })
                    &&& final(self).in_flight() == old(self).in_flight().remove(c)
                    &&& final(self).txn(c) is None
                    &&& forall|d: ClientId| d != c ==> #[trigger] final(self).txn(d) == old(self).txn(d)
                },
            },
    {
        match update {
            UpdateStateMessage::Ready(c) => {
                self.ready_set.insert(c);
                self.in_flight_set.remove(&c);
            },
            UpdateStateMessage::TxnBegin(c, sender) => {
                let removed = self.queues.remove(&c);
                match removed {
                    Some(mut q) => {
                        q.active_txn = Some(sender);
                        self.queues.insert(c, q);
                        assert(self.queues@ =~= old(self).queues@.insert(c, q));
                    },
                    None => {
                        assert(self.queues@ =~= old(self).queues@);
                    },
                }
            },
            UpdateStateMessage::TxnEnded(c) => {
                let removed = self.queues.remove(&c);
                match removed {
                    Some(mut q) => {
                        q.active_txn = None;
                        self.queues.insert(c, q);
                        self.ready_set.insert(c);
                        assert(self.queues@ =~= old(self).queues@.insert(c, q));
                    },
                    None => {
                        assert(self.queues@ =~= old(self).queues@);
                    },
                }
                self.in_flight_set.remove(&c);
            },
        }
        assert(self.clients() =~= old(self).clients());
        assert forall|d: ClientId| #[trigger] self.submitted(d) == self.handed_out(d) + self.jobs(d) by {
            assert(old(self).submitted(d) == old(self).handed_out(d) + old(self).jobs(d));
        }
        assert forall|d: ClientId| #[trigger] self.destinations(d).len() == self.handed_out(d).len() by {
            assert(old(self).destinations(d).len() == old(self).handed_out(d).len());
        }
    }

    /// Takes a request from the server layer.
    ///
    /// `Disconnect` marks the client's queue, if it has one, to be retired
    /// once drained; queued and in-flight work is left alone. `Execute` puts
    /// a new job, which carries a clone of the back-channel, at the tail of
    /// the client's queue. The queue is created the first time the client
    /// is seen, and the client marked ready, unless a job of an earlier
    /// queue of that client is still in flight.
    pub fn update_queues(&mut self, msg: ServerMessage<R>)
        requires
            old(self).wf(),
        ensures
            final(self).wf(),
            final(self).same_but(&*old(self), msg.client_id),
            final(self).in_flight() == old(self).in_flight(),
            final(self).one_in_flight(),
            final(self).submitted(msg.client_id).len() == old(self).submitted(msg.client_id).len()
                + (if msg.action is Execute { 1int } else { 0int }),
            msg.action is Disconnect ==> {
                &&& final(self).clients() == old(self).clients()
                &&& final(self).ready() == old(self).ready()
                &&& final(self).has_work() == old(self).has_work()
                &&& final(self).jobs(msg.client_id) == old(self).jobs(msg.client_id)
                &&& final(self).txn(msg.client_id) == old(self).txn(msg.client_id)
                &&& final(self).closing(msg.client_id) == old(self).clients().contains(msg.client_id)
                &&& final(self).submitted(msg.client_id) == old(self).submitted(msg.client_id)
                &&& final(self).handed_out(msg.client_id) == old(self).handed_out(msg.client_id)
            },
            msg.action matches Action::Execute(st) ==> {
                let c = msg.client_id;
                let j = final(self).jobs(c).last();
                &&& j.statements == st
                &&& j.client_id == c
                &&& j.responder == msg.responder
                &&& cloned(old(self).back_channel(), j.scheduler_sender)
                &&& final(self).jobs(c) == old(self).jobs(c).push(j)
                &&& final(self).submitted(c) == old(self).submitted(c).push(j)
                &&& final(self).handed_out(c) == old(self).handed_out(c)
                &&& final(self).clients() == old(self).clients().insert(c)
                &&& final(self).ready() == (if old(self).clients().contains(c)
                    || old(self).in_flight().contains(c) {
                    old(self).ready()
                } else {
                    old(self).ready().insert(c)
                })
                &&& final(self).has_work() == old(self).has_work().insert(c)
                &&& final(self).txn(c) == old(self).txn(c)
                &&& final(self).closing(c) == old(self).closing(c)
                &&& !old(self).clients().contains(c) ==> {
                    &&& final(self).jobs(c) == seq![j]
                    &&& final(self).txn(c) is None
                    &&& !final(self).closing(c)
                }
            },
    {
        let c = msg.client_id;
        match msg.action {
            Action::Disconnect => {
                let removed = self.queues.remove(&c);
                match removed {
                    Some(mut q) => {
                        q.should_close = true;
                        self.queues.insert(c, q);
                        assert(self.queues@ =~= old(self).queues@.insert(c, q));
                    },
                    None => {
                        assert(self.queues@ =~= old(self).queues@);
                    },
                }
                assert forall|d: ClientId| d != c implies #[trigger] self.same_client(&*old(self), d) by {
                    assert(self.queues@.contains_key(d) == old(self).queues@.contains_key(d));
                }
                assert forall|d: ClientId| #[trigger] self.submitted(d) == self.handed_out(d) + self.jobs(d) by {
                    assert(old(self).submitted(d) == old(self).handed_out(d) + old(self).jobs(d));
                }
            },
            Action::Execute(statements) => {
                let job = Job {
                    scheduler_sender: self.update_state_sender.clone(),
                    statements,
                    client_id: c,
                    responder: msg.responder,
                };
                let ghost j = job;
                let removed = self.queues.remove(&c);
                let mut q = match removed {
                    Some(q) => q,
                    None => {
                        if !self.in_flight_set.contains(&c) {
                            self.ready_set.insert(c);
                        }
                        ClientQueue { queue: VecDeque::new(), active_txn: None, should_close: false }
                    },
                };
                let ghost before = q.queue@;
                assert(before == old(self).jobs(c));
                q.queue.push_back(job);
                self.queues.insert(c, q);
                self.has_work_set.insert(c);
                proof {
                    self.submitted_log@ = self.submitted_log@.insert(c, old(self).submitted(c).push(j));
                }
                assert(self.jobs(c) == old(self).jobs(c).push(j));
                assert forall|d: ClientId| d != c implies #[trigger] self.same_client(&*old(self), d) by {
                    assert(self.queues@.contains_key(d) == old(self).queues@.contains_key(d));
                    assert(self.submitted(d) == old(self).submitted(d));
                }
                assert forall|d: ClientId| #[trigger] self.submitted(d) == self.handed_out(d) + self.jobs(d) by {
                    assert(old(self).submitted(d) == old(self).handed_out(d) + old(self).jobs(d));
                    if d == c {
                        assert(self.submitted(d) == old(self).submitted(d).push(j));
                        assert(self.handed_out(d) == old(self).handed_out(d));
                        assert((old(self).handed_out(d) + old(self).jobs(d)).push(j) =~= old(self).handed_out(d) + old(self).jobs(d).push(j));
                    } else {
                        assert(self.same_client(&*old(self), d));
                    }
                }
                assert(self.clients() =~= old(self).clients().insert(c));
            },
        }
        assert forall|d: ClientId| #[trigger] self.destinations(d).len() == self.handed_out(d).len() by {
            assert(old(self).destinations(d).len() == old(self).handed_out(d).len());
        }
    }
}

/// After `x` is pushed, a sequence holds what it held before, and `x`.
pub proof fn lemma_push_contains<T>(s: Seq<T>, x: T)
    ensures
        forall|d: T| #[trigger] s.push(x).contains(d) <==> (s.contains(d) || d == x),
{
    assert forall|d: T| #[trigger] s.push(x).contains(d) <==> (s.contains(d) || d == x) by {
        if s.push(x).contains(d) && d != x {
            let k = choose|k: int| 0 <= k < s.push(x).len() && s.push(x)[k] == d;
            assert(s[k] == d);
        }
        if s.contains(d) {
            let k = choose|k: int| 0 <= k < s.len() && s[k] == d;
            assert(s.push(x)[k] == d);
        }
        assert(s.push(x)[s.len() as int] == x);
    }
}

/// A client has queued work exactly when its queue holds a job; a client
/// without a queue has no jobs, no transaction and no close flag; every
/// client with a queue is ready or has a job in flight, and no ready client
/// has a job in flight.
pub proof fn lemma_bookkeeping_matches_queues<R, B>(s: &Scheduler<R, B>, c: ClientId)
    requires
        s.wf(),
    ensures
        s.has_work().contains(c) <==> s.jobs(c).len() > 0,
        s.has_work().contains(c) ==> s.clients().contains(c),
        !s.clients().contains(c) ==> s.jobs(c).len() == 0 && s.txn(c) is None && !s.closing(c),
        s.clients().contains(c) ==> s.ready().contains(c) || s.in_flight().contains(c),
        s.one_in_flight(),
{
}

/// At most one job per client is in flight: a dispatch pass hands out at
/// most one job per client, only to clients with no job in flight, and each
/// client served then has its job in flight until acknowledged.
pub proof fn lemma_one_job_in_flight_per_client<R, B>(
    pre: &Scheduler<R, B>,
    post: &Scheduler<R, B>,
    order: Seq<ClientId>,
)
    requires
        pre.wf(),
        post.dispatched_from(pre, order),
    ensures
        post.one_in_flight(),
        forall|c: ClientId| #[trigger] post.handed_out(c).len() <= pre.handed_out(c).len() + 1,
        forall|c: ClientId|
            pre.in_flight().contains(c) ==> #[trigger] post.handed_out(c) == pre.handed_out(c),
        forall|c: ClientId|
            #[trigger] post.handed_out(c).len() > pre.handed_out(c).len() ==> !pre.in_flight().contains(c)
                && post.in_flight().contains(c),
{
    assert forall|c: ClientId|
        #[trigger] post.handed_out(c).len() <= pre.handed_out(c).len() + 1 && (post.handed_out(c).len()
            > pre.handed_out(c).len() ==> !pre.in_flight().contains(c) && post.in_flight().contains(c))
        && (pre.in_flight().contains(c) ==> post.handed_out(c) == pre.handed_out(c)) by {
        if pre.eligible().contains(c) {
            assert(post.served(pre, c));
        } else {
            assert(post.untouched(pre, c));
        }
    }
}

/// Each client's jobs are handed out in the order in which they were
/// submitted: the jobs handed out are the first ones submitted, and the rest
/// wait in the queue, in order.
pub proof fn lemma_handed_out_in_submission_order<R, B>(s: &Scheduler<R, B>, c: ClientId)
    requires
        s.wf(),
    ensures
        s.handed_out(c).len() <= s.submitted(c).len(),
        s.handed_out(c) == s.submitted(c).take(s.handed_out(c).len() as int),
        s.jobs(c) == s.submitted(c).skip(s.handed_out(c).len() as int),
{
    assert(s.submitted(c) == s.handed_out(c) + s.jobs(c));
    assert(s.handed_out(c) =~= s.submitted(c).take(s.handed_out(c).len() as int));
    assert(s.jobs(c) =~= s.submitted(c).skip(s.handed_out(c).len() as int));
}

/// Every submitted job is handed out exactly once, as long as its client
/// keeps coming back to `ready`: each job is either handed out, once, at its
/// place in the order, or still queued; and a dispatch pass that finds the
/// client ready with queued work hands out exactly the head of its queue,
/// so the queue shrinks by one each time.
pub proof fn lemma_each_job_handed_out_once<R, B>(
    pre: &Scheduler<R, B>,
    post: &Scheduler<R, B>,
    order: Seq<ClientId>,
    c: ClientId,
)
    requires
        pre.wf(),
        post.dispatched_from(pre, order),
        pre.ready().contains(c),
        pre.jobs(c).len() > 0,
    ensures
        order.contains(c),
        post.handed_out(c) == pre.handed_out(c).push(pre.jobs(c)[0]),
        post.jobs(c).len() + 1 == pre.jobs(c).len(),
        post.submitted(c) == pre.submitted(c),
        post.submitted(c) == post.handed_out(c) + post.jobs(c),
{
    assert(pre.eligible().contains(c));
    assert(order.to_set().contains(c));
    assert(post.served(pre, c));
}

/// The rounds of a dispatch pass followed by a `Ready` for client `c`,
/// `rounds` times over from `states[0]`.
pub open spec fn acknowledged_rounds<R, B>(
    states: Seq<Scheduler<R, B>>,
    orders: Seq<Seq<ClientId>>,
    c: ClientId,
    rounds: nat,
) -> bool {
    &&& states.len() == 2 * rounds + 1
    &&& orders.len() == rounds
    &&& forall|k: int|
        0 <= k < rounds ==> {
            &&& #[trigger] states[2 * k + 1].dispatched_from(&states[2 * k], orders[k])
            &&& states[2 * k + 2].acknowledged(&states[2 * k + 1], c)
        }
}

proof fn lemma_rounds_hand_out_prefix<R, B>(
    states: Seq<Scheduler<R, B>>,
    orders: Seq<Seq<ClientId>>,
    c: ClientId,
    rounds: nat,
    k: nat,
)
    requires
        states.len() > 0,
        states[0].wf(),
        states[0].ready().contains(c),
        rounds <= states[0].jobs(c).len(),
        acknowledged_rounds(states, orders, c, rounds),
        k <= rounds,
    ensures
        states[2 * k as int].wf(),
        states[2 * k as int].ready().contains(c),
        states[2 * k as int].jobs(c) == states[0].jobs(c).skip(k as int),
        states[2 * k as int].handed_out(c) == states[0].handed_out(c) + states[0].jobs(c).take(
            k as int,
        ),
    decreases k,
{
    if k > 0 {
        let j = (k - 1) as nat;
        lemma_rounds_hand_out_prefix(states, orders, c, rounds, j);
        let pre = states[2 * j as int];
        let mid = states[2 * j as int + 1];
        let post = states[2 * j as int + 2];
        assert(mid.dispatched_from(&pre, orders[j as int]));
        assert(post.acknowledged(&mid, c));
        assert(pre.jobs(c).len() > 0);
        lemma_each_job_handed_out_once(&pre, &mid, orders[j as int], c);
        assert(post.same_client(&mid, c));
        assert(states[0].jobs(c).skip(j as int).drop_first() =~= states[0].jobs(c).skip(k as int));
        assert(states[0].jobs(c).skip(j as int)[0] == states[0].jobs(c)[j as int]);
        assert(states[0].handed_out(c) + states[0].jobs(c).take(k as int) =~= (states[0].handed_out(c)
            + states[0].jobs(c).take(j as int)).push(states[0].jobs(c)[j as int]));
        assert(2 * k as int == 2 * j as int + 2);
    } else {
        assert(states[0].jobs(c).skip(0) =~= states[0].jobs(c));
        assert(states[0].handed_out(c) + states[0].jobs(c).take(0) =~= states[0].handed_out(c));
    }
}

/// Every job queued for client `c` is eventually handed out, exactly once
/// and in order, provided each job handed out is acknowledged with `Ready`:
/// after as many rounds of a dispatch pass and a `Ready` as `c` had jobs
/// queued, its queue is empty and every job it held has been handed out.
pub proof fn lemma_queue_drains_when_acknowledged<R, B>(
    states: Seq<Scheduler<R, B>>,
    orders: Seq<Seq<ClientId>>,
    c: ClientId,
)
    requires
        states.len() > 0,
        states[0].wf(),
        states[0].ready().contains(c),
        acknowledged_rounds(states, orders, c, states[0].jobs(c).len()),
    ensures
        states.last().jobs(c).len() == 0,
        states.last().handed_out(c) == states[0].handed_out(c) + states[0].jobs(c),
        states.last().submitted(c) == states.last().handed_out(c),
{
    let n = states[0].jobs(c).len();
    lemma_rounds_hand_out_prefix(states, orders, c, n, n);
    assert(states[0].jobs(c).take(n as int) =~= states[0].jobs(c));
    assert(states.last() == states[2 * n as int]);
    assert(states.last().submitted(c) == states.last().handed_out(c) + states.last().jobs(c));
    assert(states.last().handed_out(c) + states.last().jobs(c) =~= states.last().handed_out(c));
}

/// The event loop stops exactly at quiescence: once the server has closed
/// its end, it stops when no client has queued work and every job handed
/// out has been acknowledged, and not while a job is still in flight. At
/// that point every client with a queue is ready.
pub proof fn lemma_quiescent_scheduler_stops<R, B>(s: &Scheduler<R, B>)
    requires
        s.wf(),
        s.has_work().is_empty(),
        s.in_flight().is_empty(),
    ensures
        s.clients().subset_of(s.ready()),
        forall|c: ClientId| #[trigger] s.jobs(c).len() == 0,
{
    assert forall|c: ClientId| s.clients().contains(c) implies s.ready().contains(c) by {
        assert(!s.in_flight().contains(c));
    }
    assert forall|c: ClientId| #[trigger] s.jobs(c).len() == 0 by {
        assert(!s.has_work().contains(c));
    }
}

/// Distinct clients do not wait on one another: one dispatch pass, with no
/// `Ready` in between, hands out the head job of every client that is ready
/// and has queued work.
pub proof fn lemma_distinct_clients_served_together<R, B>(
    pre: &Scheduler<R, B>,
    post: &Scheduler<R, B>,
    order: Seq<ClientId>,
    c1: ClientId,
    c2: ClientId,
)
    requires
        pre.wf(),
        post.dispatched_from(pre, order),
        c1 != c2,
        pre.ready().contains(c1),
        pre.ready().contains(c2),
        pre.jobs(c1).len() > 0,
        pre.jobs(c2).len() > 0,
    ensures
        order.contains(c1),
        order.contains(c2),
        post.handed_out(c1) == pre.handed_out(c1).push(pre.jobs(c1)[0]),
        post.handed_out(c2) == pre.handed_out(c2).push(pre.jobs(c2)[0]),
{
    lemma_each_job_handed_out_once(pre, post, order, c1);
    lemma_each_job_handed_out_once(pre, post, order, c2);
}

} // verus!
