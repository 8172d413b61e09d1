//! The source: it makes tokens, batch by batch, up to a maximum.

use crate::engine::actors::broadcast::{Broadcast, BroadcastView, Client};
use crate::engine::actors::{Actor, Source};
use crate::engine::scheduler::{enqueued, Destination, JobView, Scheduler, Task, TaskView};
use crate::engine::tokens::{batch_view, Token, TokenView};
use vstd::prelude::*;

verus! {

/// The mathematical value of a [`SimpleSource`].
pub struct SourceView {
    pub code: u16,
    pub code_product: u16,
    /// The size of a batch and the time between two batches.
    pub speed: (u32, u32),
    /// The time of the last batch, if there was one.
    pub last: Option<u64>,
    /// The number of tokens made so far.
    pub total: u32,
    pub max_production: u32,
    pub client: BroadcastView,
    /// The place of the source in its network.
    pub place: usize,
}

/// A batch of `n` new tokens of product `code_product`: no history, no parts.
pub open spec fn fresh(code_product: u16, n: nat) -> Seq<TokenView> {
    Seq::new(
        n,
        |i: int| TokenView { code: code_product, timeline: Seq::empty(), parts: Seq::empty() },
    )
}

/// The time at which a batch supplied for `time` is due when the clock
/// stands at `now`: `time`, or `now` where that is later.
pub open spec fn supply_due(time: u64, now: u64) -> u64 {
    if now <= time {
        time
    } else {
        now
    }
}

impl SourceView {
    /// The size of the next batch: a full batch, or what is left to make.
    pub open spec fn next_batch(self) -> nat {
        if self.total >= self.max_production {
            0
        } else if self.max_production - self.total < self.speed.0 {
            (self.max_production - self.total) as nat
        } else {
            self.speed.0 as nat
        }
    }

    /// Whether the source has nothing more to make.
    pub open spec fn exhausted(self) -> bool {
        self.next_batch() == 0
    }

    /// The source after it supplied a batch at `time`; itself where it is exhausted.
    pub open spec fn supplied(self, time: u64) -> SourceView {
        if self.exhausted() {
            self
        } else {
            SourceView {
                total: (self.total + self.next_batch()) as u32,
                last: Some(time),
                ..self
            }
        }
    }

    /// The queue after the source supplied a batch for `time`, the clock
    /// standing at `now`: the batch is due at the source's broadcast at
    /// `time`, or at once where the clock is beyond `time`.
    pub open spec fn supply_queued(self, time: u64, now: u64, queue: Seq<JobView>) -> Seq<JobView> {
        if self.exhausted() {
            queue
        } else {
            enqueued(
                queue,
                JobView {
                    time: supply_due(time, now),
                    task: TaskView {
                        destination: Destination::Broadcast(self.place),
                        code_product: self.code_product,
                        tokens: fresh(self.code_product, self.next_batch()),
                    },
                },
            )
        }
    }
}

/// An actor that makes tokens of one product.
pub struct SimpleSource {
    pub code: u16,
    pub code_product: u16,
    pub speed: (u32, u32),
    pub time_of_last_execution: Option<u64>,
    pub total: u32,
    pub max_production: u32,
    pub client: Broadcast,
    pub place: usize,
}

impl View for SimpleSource {
    type V = SourceView;

    open spec fn view(&self) -> SourceView {
        SourceView {
            code: self.code,
            code_product: self.code_product,
            speed: self.speed,
            last: self.time_of_last_execution,
            total: self.total,
            max_production: self.max_production,
            client: self.client@,
            place: self.place,
        }
    }
}

impl SimpleSource {
    /// The broadcast is well-formed and does not log.
    pub open spec fn wf(&self) -> bool {
        &&& self.client@.wf()
        &&& !self.client.import_fifo.log
    }

    /// A source with code `code` that makes `speed.0` tokens of product
    /// `code_product` every `speed.1` units of time, `max_production`
    /// in all; it stands at place `place` of its network.
    pub fn new(
        code: u16,
        code_product: u16,
        speed: (u32, u32),
        max_production: u32,
        place: usize,
    ) -> (source: Self)
        ensures
            source@ == (SourceView {
                code,
                code_product,
                speed,
                last: None,
                total: 0,
                max_production,
                client: Broadcast::new_view(code, code_product),
                place,
            }),
            source.wf(),
    {
        SimpleSource {
            code,
            code_product,
            speed,
            time_of_last_execution: None,
            total: 0,
            max_production,
            client: Broadcast::new(code, code_product),
            place,
        }
    }
}

impl Actor for SimpleSource {
    /// A source takes nothing in.
    open spec fn accepts(&self, tokens: Seq<TokenView>) -> bool {
        false
    }

    open spec fn has_output(&self) -> bool {
        self.wf()
    }

    /// A source takes nothing in: nothing can be delivered to it.
    fn import(
        &mut self,
        code_product: u16,
        tokens: Vec<Token>,
        time: u64,
        scheduler: &mut Scheduler,
    ) {
    }

    /// Registers a client with the source's broadcast.
    fn register(&mut self, code: u16, code_product: u16, quantity: u32, actor: usize)
        ensures
            final(self)@ == (SourceView {
                client: old(self)@.client.registered(Client { code, quantity, actor }),
                ..old(self)@
            }),
            final(self).wf(),
    {
        self.client.register(code, code_product, quantity, actor);
    }

    /// The source's code.
    fn code(&self) -> (code: u16)
        ensures
            code == self@.code,
    {
        self.code
    }

    /// The number of tokens made so far.
    fn total(&self) -> (total: u64)
        ensures
            total == self@.total,
    {
        self.total as u64
    }

    /// A source keeps no tokens: the result is empty.
    fn tokens(&mut self) -> (tokens: Vec<Token>)
        ensures
            tokens@.len() == 0,
            *final(self) == *old(self),
    {
        Vec::new()
    }

    /// Starts the count of tokens made anew and empties the queue of the
    /// broadcast; the clients and the cycle stay.
    fn reset(&mut self)
        ensures
            final(self)@ == (SourceView {
                total: 0,
                client: BroadcastView { held: Seq::empty(), ..old(self)@.client },
                ..old(self)@
            }),
            final(self).wf() == old(self).wf(),
    {
        self.total = 0;
        self.client.reset();
    }
}

impl Source for SimpleSource {
    open spec fn made(&self) -> nat {
        self.total as nat
    }

    /// Makes the next batch and queues it for the source's broadcast, due
    /// at `time`, or at once where the clock is beyond `time`.  The batch
    /// is a full batch, or what is left to make where that is less.
    /// Returns whether there was anything to make; where there was not,
    /// nothing changes.
    fn supply(&mut self, time: u64, scheduler: &mut Scheduler) -> (supplied: bool)
        ensures
            supplied == !old(self)@.exhausted(),
            final(self)@ == old(self)@.supplied(time),
            final(self).client == old(self).client,
            final(scheduler).queue() == old(self)@.supply_queued(
                time,
                old(scheduler).now(),
                old(scheduler).queue(),
            ),
            final(scheduler).now() == old(scheduler).now(),
            old(self)@.total <= old(self)@.max_production
                ==> final(self)@.total <= final(self)@.max_production,
    {
        let left = if self.total >= self.max_production {
            0
        } else {
            self.max_production - self.total
        };
        let quantity = if left < self.speed.0 {
            left
        } else {
            self.speed.0
        };
        if quantity == 0 {
            return false;
        }
        self.total = self.total + quantity;
        let code_product = self.code_product;
        let mut tokens: Vec<Token> = Vec::new();
        let mut i: u32 = 0;
        while i < quantity
            invariant
                i <= quantity,
                batch_view(tokens@) == fresh(code_product, i as nat),
            decreases quantity - i,
        {
            let ghost made = batch_view(tokens@);
            let token = Token::new(code_product, None);
            tokens.push(token);
            i += 1;
            assert(batch_view(tokens@) =~= made.push(token@));
            assert(made.push(token@) =~= fresh(code_product, i as nat));
        }
        let now = scheduler.time();
        let delay = if now <= time {
            time - now
        } else {
            0
        };
        scheduler.schedule(
            delay,
            Task { destination: Destination::Broadcast(self.place), code_product, tokens },
        );
        self.time_of_last_execution = Some(time);
        true
    }

    /// The time between two batches.
    fn delay(&self) -> (period: u64)
        ensures
            period == self@.speed.1,
    {
        self.speed.1 as u64
    }
}

} // verus!
