//! The event queue of a simulation.
//!
//! Every piece of deferred work is the delivery of a batch of tokens to an
//! actor.  The scheduler keeps the deliveries ordered by time, first come
//! first served among those of one time, and owns the clock.

use super::tokens::{batch_view, Token, TokenView};
use crate::utils::sums::{lemma_sum_drop_first, lemma_sum_insert, sum_of};
use vstd::prelude::*;

verus! {

/// The receiving end of a delivery, by the place of an actor in its network.
#[derive(Debug, Clone, Copy, PartialEq, Eq)]
pub enum Destination {
    /// The actor itself.
    Actor(usize),
    /// The broadcast through which the actor feeds its clients.
    Broadcast(usize),
}

/// A delivery: tokens of one product on their way to a destination.
#[derive(Debug)]
pub struct Task {
    pub destination: Destination,
    pub code_product: u16,
    pub tokens: Vec<Token>,
}

/// A delivery and the time at which it is due.
#[derive(Debug)]
pub struct Job {
    pub time: u64,
    pub task: Task,
}

/// The mathematical value of a [`Task`].
pub struct TaskView {
    pub destination: Destination,
    pub code_product: u16,
    pub tokens: Seq<TokenView>,
}

/// The mathematical value of a [`Job`].
pub struct JobView {
    pub time: u64,
    pub task: TaskView,
}

impl View for Task {
    type V = TaskView;

    open spec fn view(&self) -> TaskView {
        TaskView {
            destination: self.destination,
            code_product: self.code_product,
            tokens: batch_view(self.tokens@),
        }
    }
}

impl View for Job {
    type V = JobView;

    open spec fn view(&self) -> JobView {
        JobView { time: self.time, task: self.task@ }
    }
}

/// The time at which a job scheduled at `now` with `delay` is due: their
/// sum, or the last instant of the clock where the sum lies beyond it.
pub open spec fn due(now: u64, delay: u64) -> u64 {
    if now + delay <= u64::MAX {
        (now + delay) as u64
    } else {
        u64::MAX
    }
}

/// Jobs stand in the order of their times, none before `now`.
pub open spec fn ordered_from(queue: Seq<JobView>, now: u64) -> bool {
    &&& forall|i: int| 0 <= i < queue.len() ==> now <= (#[trigger] queue[i]).time
    &&& forall|i: int, j: int|
        0 <= i <= j < queue.len() ==> (#[trigger] queue[i]).time <= (#[trigger] queue[j]).time
}

/// The number of jobs in `queue` that are due at `time` or before.
pub open spec fn due_by(queue: Seq<JobView>, time: u64) -> nat
    decreases queue.len(),
{
    if queue.len() == 0 {
        0
    } else {
        due_by(queue.drop_last(), time) + if queue.last().time <= time {
            1nat
        } else {
            0nat
        }
    }
}

/// The queue after a job joined it: behind every job due at its time or
/// before, ahead of every later one.
pub open spec fn enqueued(queue: Seq<JobView>, job: JobView) -> Seq<JobView> {
    queue.insert(due_by(queue, job.time) as int, job)
}

/// In an ordered queue the jobs due by `time` are exactly the first `due_by` jobs.
pub proof fn lemma_due_by_splits(queue: Seq<JobView>, now: u64, time: u64)
    requires
        ordered_from(queue, now),
    ensures
        due_by(queue, time) <= queue.len(),
        forall|i: int| 0 <= i < due_by(queue, time) ==> (#[trigger] queue[i]).time <= time,
        forall|i: int| due_by(queue, time) <= i < queue.len() ==> (#[trigger] queue[i]).time > time,
    decreases queue.len(),
{
    if queue.len() > 0 {
        let front = queue.drop_last();
        lemma_due_by_splits(front, now, time);
        assert forall|i: int| 0 <= i < due_by(queue, time) implies (#[trigger] queue[i]).time
            <= time by {
            if i < front.len() {
                assert(queue[i] == front[i]);
                if i >= due_by(front, time) {
                    assert(front[i].time > time);
                    assert(queue[i].time <= queue[queue.len() - 1].time);
                }
            }
        }
        assert forall|i: int| due_by(queue, time) <= i < queue.len() implies (
        #[trigger] queue[i]).time > time by {
            if i < front.len() {
                assert(queue[i] == front[i]);
            }
        }
    }
}

/// A queue that was ordered is ordered after a job joined it that is not due before `now`.
pub proof fn lemma_enqueued_ordered(queue: Seq<JobView>, now: u64, job: JobView)
    requires
        ordered_from(queue, now),
        now <= job.time,
    ensures
        ordered_from(enqueued(queue, job), now),
        enqueued(queue, job).len() == queue.len() + 1,
{
    lemma_due_by_splits(queue, now, job.time);
    let k = due_by(queue, job.time) as int;
    let after = enqueued(queue, job);
    assert forall|i: int, j: int| 0 <= i <= j < after.len() implies (#[trigger] after[i]).time <= (
    #[trigger] after[j]).time by {
        if i < k && j < k {
            assert(after[i] == queue[i] && after[j] == queue[j]);
        } else if i < k && j == k {
            assert(after[i] == queue[i]);
        } else if i < k && j > k {
            assert(after[i] == queue[i] && after[j] == queue[j - 1]);
        } else if i == k && j > k {
            assert(after[j] == queue[j - 1]);
        } else if i > k {
            assert(after[i] == queue[i - 1] && after[j] == queue[j - 1]);
        }
    }
    assert forall|i: int| 0 <= i < after.len() implies now <= (#[trigger] after[i]).time by {
        if i < k {
            assert(after[i] == queue[i]);
        } else if i > k {
            assert(after[i] == queue[i - 1]);
        }
    }
}

/// What holds of a job and of every job of a queue holds of every job of
/// the queue that the job has joined.
pub proof fn lemma_enqueued_all(queue: Seq<JobView>, job: JobView, holds: spec_fn(JobView) -> bool)
    requires
        forall|j: int| 0 <= j < queue.len() ==> holds(#[trigger] queue[j]),
        holds(job),
        due_by(queue, job.time) <= queue.len(),
    ensures
        forall|j: int|
            0 <= j < enqueued(queue, job).len() ==> holds(#[trigger] enqueued(queue, job)[j]),
{
    let k = due_by(queue, job.time) as int;
    let after = enqueued(queue, job);
    assert forall|j: int| 0 <= j < after.len() implies holds(#[trigger] after[j]) by {
        if j < k {
            assert(after[j] == queue[j]);
        } else if j > k {
            assert(after[j] == queue[j - 1]);
        }
    }
}

/// No more jobs of a queue are due by a time than the queue has.
pub proof fn lemma_due_by_bound(queue: Seq<JobView>, time: u64)
    ensures
        due_by(queue, time) <= queue.len(),
    decreases queue.len(),
{
    if queue.len() > 0 {
        lemma_due_by_bound(queue.drop_last(), time);
    }
}

/// The number of tokens that each job of a queue carries.
pub open spec fn loads(queue: Seq<JobView>) -> Seq<nat> {
    Seq::new(queue.len(), |j: int| queue[j].task.tokens.len())
}

/// The number of tokens that the jobs of a queue carry.
pub open spec fn in_flight(queue: Seq<JobView>) -> nat {
    sum_of(loads(queue))
}

/// A job that joins a queue adds its tokens to those in flight.
pub proof fn lemma_in_flight_enqueued(queue: Seq<JobView>, job: JobView)
    ensures
        in_flight(enqueued(queue, job)) == in_flight(queue) + job.task.tokens.len(),
{
    lemma_due_by_bound(queue, job.time);
    let k = due_by(queue, job.time) as int;
    assert(loads(enqueued(queue, job)) =~= loads(queue).insert(k, job.task.tokens.len()));
    lemma_sum_insert(loads(queue), k, job.task.tokens.len());
}

/// The job that leaves a queue takes its tokens from those in flight.
pub proof fn lemma_in_flight_drop_first(queue: Seq<JobView>)
    requires
        queue.len() > 0,
    ensures
        in_flight(queue.drop_first()) + queue[0].task.tokens.len() == in_flight(queue),
{
    assert(loads(queue.drop_first()) =~= loads(queue).drop_first());
    lemma_sum_drop_first(loads(queue));
}

/// The time-ordered queue of pending deliveries, with the clock.
pub struct Scheduler {
    jobs: Vec<Job>,
    time: u64,
}

impl Scheduler {
    #[verifier::type_invariant]
    spec fn in_order(&self) -> bool {
        ordered_from(self.queue(), self.time)
    }

    /// The pending jobs, the next one first.
    pub closed spec fn queue(&self) -> Seq<JobView> {
        Seq::new(self.jobs@.len(), |i: int| self.jobs@[i]@)
    }

    /// The current time: that of the last job handed out, 0 before the first.
    pub closed spec fn now(&self) -> u64 {
        self.time
    }

    /// A scheduler with no job, at time 0.
    pub fn new() -> (scheduler: Self)
        ensures
            scheduler.queue() == Seq::<JobView>::empty(),
            scheduler.now() == 0,
    {
        let scheduler = Scheduler { jobs: Vec::new(), time: 0 };
        assert(scheduler.queue() =~= Seq::<JobView>::empty());
        scheduler
    }

    /// The current time.
    pub fn time(&self) -> (now: u64)
        ensures
            now == self.now(),
    {
        self.time
    }

    /// The number of pending jobs.
    pub fn pending(&self) -> (n: usize)
        ensures
            n == self.queue().len(),
    {
        self.jobs.len()
    }

    /// Queues `task` to be delivered `delay` after the current time.  Among
    /// the jobs due at one time, the one queued first is delivered first.
    pub fn schedule(&mut self, delay: u64, task: Task)
        ensures
            final(self).now() == old(self).now(),
            final(self).queue() == enqueued(
                old(self).queue(),
                JobView { time: due(old(self).now(), delay), task: task@ },
            ),
            ordered_from(final(self).queue(), final(self).now()),
    {
        proof {
            use_type_invariant(&*self);
        }
        let time = if delay <= u64::MAX - self.time {
            self.time + delay
        } else {
            u64::MAX
        };
        let ghost queue = self.queue();
        let ghost job = JobView { time, task: task@ };
        let mut at = self.jobs.len();
        proof {
            lemma_due_by_splits(queue, self.time, time);
        }
        while at > 0 && self.jobs[at - 1].time > time
            invariant
                queue == self.queue(),
                *self == *old(self),
                at <= self.jobs@.len(),
                ordered_from(queue, self.time),
                due_by(queue, time) <= at,
                due_by(queue, time) <= queue.len(),
                forall|i: int| 0 <= i < due_by(queue, time) ==> (#[trigger] queue[i]).time <= time,
                forall|i: int|
                    due_by(queue, time) <= i < queue.len() ==> (#[trigger] queue[i]).time > time,
            decreases at,
        {
            proof {
                assert(queue[at - 1].time > time);
            }
            at -= 1;
        }
        proof {
            if at > 0 {
                assert(queue[at - 1].time <= time);
            }
            assert(at == due_by(queue, time));
            lemma_enqueued_ordered(queue, self.time, job);
        }
        let mut jobs: Vec<Job> = Vec::new();
        std::mem::swap(&mut jobs, &mut self.jobs);
        jobs.insert(at, Job { time, task });
        let now = self.time;
        proof {
            let grown = Seq::new(jobs@.len(), |i: int| jobs@[i]@);
            assert(grown =~= enqueued(queue, job));
        }
        *self = Scheduler { jobs, time: now };
        assert(self.queue() =~= enqueued(queue, job));
    }

    /// Hands out the next job, if there is one, and sets the clock to its time.
    pub fn next_job(&mut self) -> (next: Option<Job>)
        ensures
            old(self).queue().len() == 0 ==> next is None && final(self).queue() == old(
                self,
            ).queue() && final(self).now() == old(self).now(),
            old(self).queue().len() > 0 ==> next is Some && next->0@ == old(self).queue()[0]
                && final(self).queue() == old(self).queue().drop_first() && final(self).now()
                == old(self).queue()[0].time,
            old(self).now() <= final(self).now(),
            ordered_from(final(self).queue(), final(self).now()),
    {
        proof {
            use_type_invariant(&*self);
        }
        if self.jobs.len() == 0 {
            return None;
        }
        let ghost queue = self.queue();
        let mut jobs: Vec<Job> = Vec::new();
        std::mem::swap(&mut jobs, &mut self.jobs);
        let job = jobs.remove(0);
        let time = job.time;
        proof {
            assert(job@ == queue[0]);
            let rest = Seq::new(jobs@.len(), |i: int| jobs@[i]@);
            assert(rest =~= queue.drop_first());
            assert forall|i: int| 0 <= i < rest.len() implies time <= (#[trigger] rest[i]).time by {
                assert(rest[i] == queue[i + 1]);
                assert(queue[0].time <= queue[i + 1].time);
            }
            assert forall|i: int, j: int| 0 <= i <= j < rest.len() implies (
            #[trigger] rest[i]).time <= (#[trigger] rest[j]).time by {
                assert(rest[i] == queue[i + 1] && rest[j] == queue[j + 1]);
            }
        }
        *self = Scheduler { jobs, time };
        assert(self.queue() =~= queue.drop_first());
        Some(job)
    }
}

impl Default for Scheduler {
    fn default() -> (scheduler: Self)
        ensures
            scheduler.queue() == Seq::<JobView>::empty(),
            scheduler.now() == 0,
    {
        Scheduler::new()
    }
}

} // verus!
