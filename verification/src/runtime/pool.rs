use vstd::prelude::*;

verus! {

/// The number of workers that a pool runs.
pub const WORKERS_COUNT: usize = 1;

/// The bookkeeping of a pool of workers: the completer whose request each worker runs, the free
/// workers (the slots from `workers_count` on), and how many requests wait in the queue between
/// `queue_outgoing` and `queue_incoming`.
pub struct IORuntimePool {
    workers_completers: [Option<u64>; WORKERS_COUNT],
    workers_slots: [usize; WORKERS_COUNT],
    workers_count: usize,
    queue_incoming: u32,
    queue_outgoing: u32,
    queue_counter: usize,
}

impl IORuntimePool {
    /// The completer whose request each worker runs.
    pub closed spec fn completers(&self) -> Seq<Option<u64>> {
        self.workers_completers@
    }

    /// The number of busy workers.
    pub closed spec fn busy(&self) -> nat {
        self.workers_count as nat
    }

    /// The number of requests waiting in the queue.
    pub closed spec fn queued(&self) -> nat {
        self.queue_counter as nat
    }

    /// The two ends of the queue: where waiting requests are read from and written to.
    pub closed spec fn ends(&self) -> (u32, u32) {
        (self.queue_incoming, self.queue_outgoing)
    }

    /// The busy workers are those the slots before `workers_count` name, and exactly they run a
    /// request.
    pub closed spec fn wf(&self) -> bool {
        &&& self.workers_count <= WORKERS_COUNT
        &&& forall|i: int| 0 <= i < WORKERS_COUNT ==> self.workers_slots@[i] == i
        &&& forall|s: int|
            0 <= s < WORKERS_COUNT ==> (self.workers_completers@[s] is Some <==> s < self.workers_count)
    }

    /// A pool with every worker free and an empty queue, over the two ends of its queue.
    pub fn new(queue_incoming: u32, queue_outgoing: u32) -> (r: Self)
        ensures
            r.wf(),
            r.busy() == 0,
            r.queued() == 0,
            r.ends() == (queue_incoming, queue_outgoing),
            forall|s: int| 0 <= s < WORKERS_COUNT ==> r.completers()[s] is None,
    {
        let mut workers_slots: [usize; WORKERS_COUNT] = [0; WORKERS_COUNT];
        let mut i: usize = 0;
        while i < WORKERS_COUNT
            invariant
                i <= WORKERS_COUNT,
                forall|k: int| 0 <= k < i ==> workers_slots@[k] == k,
            decreases WORKERS_COUNT - i,
        {
            workers_slots[i] = i;
            i = i + 1;
        }
        IORuntimePool {
            workers_completers: [None; WORKERS_COUNT],
            workers_slots,
            workers_count: 0,
            queue_incoming,
            queue_outgoing,
            queue_counter: 0,
        }
    }

    /// The worker that a new request runs on, or `None` when all are busy and the request goes to
    /// the queue.
    pub fn execute_slot(&self) -> (r: Option<usize>)
        requires
            self.wf(),
        ensures
            match r {
                Some(slot) => self.busy() < WORKERS_COUNT && slot < WORKERS_COUNT && self.completers()[slot as int] is None,
                None => self.busy() == WORKERS_COUNT,
            },
    {
        if self.workers_count < WORKERS_COUNT {
            Some(self.workers_slots[self.workers_count])
        } else {
            None
        }
    }

    /// Records that the worker at `slot`, the one `execute_slot` named, runs the request of
    /// `completer`.
    pub fn executed(&mut self, slot: usize, completer: u64)
        requires
            old(self).wf(),
            old(self).busy() < WORKERS_COUNT,
            slot < WORKERS_COUNT,
            old(self).completers()[slot as int] is None,
        ensures
            final(self).wf(),
            final(self).busy() == old(self).busy() + 1,
            final(self).queued() == old(self).queued(),
            final(self).completers() == old(self).completers().update(slot as int, Some(completer)),
            final(self).ends() == old(self).ends(),
    {
        self.workers_count += 1;
        self.workers_completers[slot] = Some(completer);
    }

    /// Counts a request that went to the queue.
    pub fn queue(&mut self)
        requires
            old(self).queued() < usize::MAX,
        ensures
            final(self).queued() == old(self).queued() + 1,
            final(self).busy() == old(self).busy(),
            final(self).completers() == old(self).completers(),
            final(self).ends() == old(self).ends(),
            old(self).wf() ==> final(self).wf(),
    {
        self.queue_counter += 1;
    }

    /// Frees the worker that ran the request of `completer`; returns its slot, or `None` when no
    /// worker runs that request.
    pub fn release(&mut self, completer: u64) -> (r: Option<usize>)
        requires
            old(self).wf(),
        ensures
            final(self).wf(),
            released(*old(self), *final(self), completer, r),
    {
        let mut slot: usize = 0;
        while slot < WORKERS_COUNT
            invariant
                slot <= WORKERS_COUNT,
                *self == *old(self),
                self.wf(),
                forall|s: int| 0 <= s < slot ==> self.completers()[s] != Some(completer),
            decreases WORKERS_COUNT - slot,
        {
            let matches = match self.workers_completers[slot] {
                Some(value) => value == completer,
                None => false,
            };
            if matches {
                let count = self.workers_count - 1;
                self.workers_count = count;
                self.workers_completers[slot] = None;
                self.workers_slots[count] = slot;
                return Some(slot);
            }
            slot = slot + 1;
        }
        None
    }

    /// Takes the next request from the queue when one waits and a worker is free; returns the
    /// worker it runs on.
    pub fn dequeue(&mut self) -> (r: Option<usize>)
        requires
            old(self).wf(),
        ensures
            final(self).wf(),
            dequeued(*old(self), *final(self), r),
    {
        if self.queue_counter > 0 && self.workers_count < WORKERS_COUNT {
            self.queue_counter -= 1;
            Some(self.workers_slots[self.workers_count])
        } else {
            None
        }
    }

    /// The end of the queue that waiting requests are read from.
    pub fn queue_incoming(&self) -> (r: u32)
        ensures
            r == self.ends().0,
    {
        self.queue_incoming
    }

    /// The end of the queue that waiting requests are written to.
    pub fn queue_outgoing(&self) -> (r: u32)
        ensures
            r == self.ends().1,
    {
        self.queue_outgoing
    }
}

/// How handing a callable to the pool ended.
pub enum IORuntimePoolExecute {
    Queued(),
    Executed(),
    ScheduleFailed(),
    ExecutionFailed(),
    InternallyFailed(),
}

/// How handing a callable to the pool ends, from the answers of its steps in the order they are
/// taken; a step that fails ends it. With a free worker: confirming the request, preparing the
/// worker's operation, submitting it. Without one: writing the request to the queue.
pub fn execute_outcome(free_worker: bool, scheduled: bool, prepared: bool, submitted: bool) -> (r: IORuntimePoolExecute)
    ensures
        r == if !free_worker {
            if scheduled {
                IORuntimePoolExecute::Queued()
            } else {
                IORuntimePoolExecute::ScheduleFailed()
            }
        } else if !scheduled {
            IORuntimePoolExecute::ScheduleFailed()
        } else if !prepared {
            IORuntimePoolExecute::InternallyFailed()
        } else if !submitted {
            IORuntimePoolExecute::ExecutionFailed()
        } else {
            IORuntimePoolExecute::Executed()
        },
{
    if !free_worker {
        if scheduled {
            IORuntimePoolExecute::Queued()
        } else {
            IORuntimePoolExecute::ScheduleFailed()
        }
    } else if !scheduled {
        IORuntimePoolExecute::ScheduleFailed()
    } else if !prepared {
        IORuntimePoolExecute::InternallyFailed()
    } else if !submitted {
        IORuntimePoolExecute::ExecutionFailed()
    } else {
        IORuntimePoolExecute::Executed()
    }
}

/// How returning a worker to the pool ended.
pub enum IORuntimePoolSubmit {
    Succeeded(),
    ExecutionFailed(),
    InternallyFailed(),
}

/// How returning a worker ends, from the answers of the steps that run the next queued request on
/// it, when one is dequeued: preparing the worker's operation, then submitting it; a step that
/// fails ends it.
pub fn submit_outcome(dequeued: bool, prepared: bool, submitted: bool) -> (r: IORuntimePoolSubmit)
    ensures
        r == if !dequeued {
            IORuntimePoolSubmit::Succeeded()
        } else if !prepared {
            IORuntimePoolSubmit::InternallyFailed()
        } else if !submitted {
            IORuntimePoolSubmit::ExecutionFailed()
        } else {
            IORuntimePoolSubmit::Succeeded()
        },
{
    if !dequeued {
        IORuntimePoolSubmit::Succeeded()
    } else if !prepared {
        IORuntimePoolSubmit::InternallyFailed()
    } else if !submitted {
        IORuntimePoolSubmit::ExecutionFailed()
    } else {
        IORuntimePoolSubmit::Succeeded()
    }
}

/// What `release` does: frees the worker that ran the request of `completer` and names its slot,
/// or changes nothing and returns `None` when no worker runs that request.
pub open spec fn released(before: IORuntimePool, after: IORuntimePool, completer: u64, r: Option<usize>) -> bool {
    &&& after.queued() == before.queued()
    &&& after.ends() == before.ends()
    &&& match r {
        Some(slot) => {
            &&& slot < WORKERS_COUNT
            &&& before.completers()[slot as int] == Some(completer)
            &&& after.busy() + 1 == before.busy()
            &&& after.completers() == before.completers().update(slot as int, None)
        },
        None => {
            &&& forall|s: int| 0 <= s < WORKERS_COUNT ==> before.completers()[s] != Some(completer)
            &&& after == before
        },
    }
}

/// What `dequeue` does: takes a waiting request and names a free worker for it, or returns `None`
/// when nothing waits or no worker is free.
pub open spec fn dequeued(before: IORuntimePool, after: IORuntimePool, r: Option<usize>) -> bool {
    &&& after.busy() == before.busy()
    &&& after.ends() == before.ends()
    &&& after.completers() == before.completers()
    &&& match r {
        Some(slot) => {
            &&& before.queued() > 0
            &&& before.busy() < WORKERS_COUNT
            &&& after.queued() + 1 == before.queued()
            &&& slot < WORKERS_COUNT
            &&& before.completers()[slot as int] is None
        },
        None => {
            &&& before.queued() == 0 || before.busy() == WORKERS_COUNT
            &&& after.queued() == before.queued()
        },
    }
}

/// When the worker of a request is released while requests wait, the next one gets a worker,
/// the very one just freed.
pub proof fn lemma_release_then_dequeue(
    p0: IORuntimePool,
    p1: IORuntimePool,
    p2: IORuntimePool,
    completer: u64,
    r1: Option<usize>,
    r2: Option<usize>,
)
    requires
        p0.wf(),
        p1.wf(),
        released(p0, p1, completer, r1),
        r1 is Some,
        dequeued(p1, p2, r2),
        p1.queued() > 0,
    ensures
        r2 == r1,
{
}

} // verus!
