//! The transformer: it keeps what arrives for a sampled delay, then hands
//! it to its broadcast.

use crate::engine::actors::broadcast::{Broadcast, BroadcastView, Client};
use crate::engine::actors::Actor;
use crate::engine::fifo::{all_stampable, stamped, Fifo};
use crate::engine::scheduler::{due, enqueued, Destination, JobView, Scheduler, Task, TaskView};
use crate::engine::tokens::{batch_view, Token, TokenView};
use crate::utils::distributions::CyclicSampler;
use vstd::prelude::*;

verus! {

/// The mathematical value of a [`SimpleActor`].
pub struct TransformerView {
    pub code: u16,
    pub code_product: u16,
    /// The tokens waiting in the import queue.
    pub held: Seq<TokenView>,
    pub client: BroadcastView,
    /// The delays the sampler cycles through; none where there is no sampler.
    pub delays: Seq<u64>,
    /// The place in `delays` of the next delay.
    pub cursor: nat,
    /// The number of tokens taken in so far, as far as it can be counted.
    pub total: u64,
    /// The place of the actor in its network.
    pub place: usize,
}

/// The sum of a count and a length, or the largest count where the sum lies beyond it.
pub open spec fn counted(total: u64, more: nat) -> u64 {
    if total + more <= u64::MAX {
        (total + more) as u64
    } else {
        u64::MAX
    }
}

impl TransformerView {
    /// The transformer keeps every batch for a time: it has delays to
    /// draw, the cursor stands at one of them, and none of them is 0.
    pub open spec fn patient(self) -> bool {
        &&& self.cursor < self.delays.len()
        &&& forall|d: int| 0 <= d < self.delays.len() ==> #[trigger] self.delays[d] >= 1
    }

    /// The actor at place `place` of the network is among the clients.
    pub open spec fn feeds(self, place: int) -> bool {
        exists|c: int|
            0 <= c < self.client.clients.len() && (#[trigger] self.client.clients[c]).actor
                == place
    }

    /// The delay that the next batch stays: the next sample, or 0 without samples.
    pub open spec fn next_delay(self) -> u64 {
        if self.delays.len() == 0 {
            0
        } else {
            self.delays[self.cursor as int]
        }
    }

    /// The cursor after one delay was drawn.
    pub open spec fn next_cursor(self) -> nat {
        if self.delays.len() == 0 {
            self.cursor
        } else {
            (((self.cursor + 1) as int) % (self.delays.len() as int)) as nat
        }
    }

    /// The transformer and the queue after the transformer looked at what
    /// it holds, at time `now`: all of it is due at its broadcast after the
    /// next delay.
    pub open spec fn forwarded(self, queue: Seq<JobView>, now: u64) -> (
        TransformerView,
        Seq<JobView>,
    ) {
        if self.held.len() == 0 {
            (self, queue)
        } else {
            (
                TransformerView { held: Seq::empty(), cursor: self.next_cursor(), ..self },
                enqueued(
                    queue,
                    JobView {
                        time: due(now, self.next_delay()),
                        task: TaskView {
                            destination: Destination::Broadcast(self.place),
                            code_product: self.code_product,
                            tokens: self.held,
                        },
                    },
                ),
            )
        }
    }

    /// The transformer and the queue after `tokens` arrived at `time`, the
    /// clock standing at `now`: the tokens are counted, stamped, and sent on.
    pub open spec fn imported(
        self,
        tokens: Seq<TokenView>,
        time: u64,
        queue: Seq<JobView>,
        now: u64,
    ) -> (TransformerView, Seq<JobView>) {
        (TransformerView {
            held: stamped(tokens, self.code, time) + self.held,
            total: counted(self.total, tokens.len()),
            ..self
        }).forwarded(queue, now)
    }
}

/// An actor with one output.  What arrives is stamped, stays for a delay
/// drawn from the sampler (no time without one), and goes to the
/// actor's broadcast.
pub struct SimpleActor {
    pub code: u16,
    pub code_product: u16,
    pub import_fifo: Fifo,
    pub client: Broadcast,
    pub delay_sampler: Option<CyclicSampler<u64>>,
    pub total: u64,
    pub place: usize,
}

impl View for SimpleActor {
    type V = TransformerView;

    open spec fn view(&self) -> TransformerView {
        TransformerView {
            code: self.code,
            code_product: self.code_product,
            held: self.import_fifo@,
            client: self.client@,
            delays: match self.delay_sampler {
                Some(sampler) => sampler.samples(),
                None => Seq::empty(),
            },
            cursor: match self.delay_sampler {
                Some(sampler) => sampler.cursor(),
                None => 0,
            },
            total: self.total,
            place: self.place,
        }
    }
}

impl SimpleActor {
    /// The import queue is the actor's own and logs; the broadcast is
    /// well-formed and does not log.
    pub open spec fn wf(&self) -> bool {
        &&& self.import_fifo.code == self.code
        &&& self.import_fifo.log
        &&& self.client@.wf()
        &&& !self.client.import_fifo.log
    }

    /// A transformer with code `code` for product `code_product`, at place
    /// `place` of its network, without clients.
    pub fn new(
        code: u16,
        code_product: u16,
        place: usize,
        delay_sampler: Option<CyclicSampler<u64>>,
    ) -> (actor: SimpleActor)
        ensures
            actor@ == (TransformerView {
                code,
                code_product,
                held: Seq::empty(),
                client: Broadcast::new_view(code, code_product),
                delays: match delay_sampler {
                    Some(sampler) => sampler.samples(),
                    None => Seq::empty(),
                },
                cursor: match delay_sampler {
                    Some(sampler) => sampler.cursor(),
                    None => 0,
                },
                total: 0,
                place,
            }),
            actor.wf(),
    {
        SimpleActor {
            code,
            code_product,
            import_fifo: Fifo::new(code, true),
            client: Broadcast::new(code, code_product),
            delay_sampler,
            total: 0,
            place,
        }
    }

    /// Whether the actor at place `place` of the network is among the clients.
    pub fn feeds(&self, place: usize) -> (yes: bool)
        ensures
            yes == self@.feeds(place as int),
    {
        let n = self.client.clients.len();
        let mut c: usize = 0;
        while c < n
            invariant
                c <= n,
                n == self.client.clients@.len(),
                forall|k: int| 0 <= k < c ==> (#[trigger] self.client.clients@[k]).actor != place,
            decreases n - c,
        {
            if self.client.clients[c].actor == place {
                assert(self@.client.clients[c as int].actor == place);
                return true;
            }
            c += 1;
        }
        false
    }

    /// Whether the actor keeps every batch for a time: see [`TransformerView::patient`].
    pub fn waits(&self) -> (yes: bool)
        ensures
            yes == self@.patient(),
    {
        match &self.delay_sampler {
            None => false,
            Some(sampler) => {
                if sampler.position() >= sampler.len() {
                    return false;
                }
                let delays = sampler.to_vec();
                let n = delays.len();
                let mut d: usize = 0;
                while d < n
                    invariant
                        d <= n,
                        n == delays@.len(),
                        delays@ == self@.delays,
                        self@.cursor < self@.delays.len(),
                        forall|k: int| 0 <= k < d ==> #[trigger] delays@[k] >= 1,
                    decreases n - d,
                {
                    if delays[d] == 0 {
                        assert(self@.delays[d as int] == 0);
                        return false;
                    }
                    d += 1;
                }
                true
            },
        }
    }

    /// Sends on what the import queue holds: see [`TransformerView::forwarded`].
    pub fn check_requirements(&mut self, scheduler: &mut Scheduler)
        requires
            old(self).wf(),
        ensures
            (final(self)@, final(scheduler).queue()) == old(self)@.forwarded(
                old(scheduler).queue(),
                old(scheduler).now(),
            ),
            final(scheduler).now() == old(scheduler).now(),
            final(self).wf(),
    {
        if self.import_fifo.available_tokens() > 0 {
            let tokens = self.import_fifo.get_all();
            let delay = match &mut self.delay_sampler {
                Some(sampler) => {
                    if sampler.is_empty() {
                        0
                    } else {
                        sampler.sample()
                    }
                },
                None => 0,
            };
            scheduler.schedule(
                delay,
                Task {
                    destination: Destination::Broadcast(self.place),
                    code_product: self.code_product,
                    tokens,
                },
            );
        }
    }
}

impl Actor for SimpleActor {
    open spec fn accepts(&self, tokens: Seq<TokenView>) -> bool {
        self.wf() && all_stampable(tokens, self.code)
    }

    open spec fn has_output(&self) -> bool {
        self.wf()
    }

    /// Takes in `tokens` at `time` and sends on what the import queue then holds.
    fn import(
        &mut self,
        code_product: u16,
        tokens: Vec<Token>,
        time: u64,
        scheduler: &mut Scheduler,
    )
        ensures
            (final(self)@, final(scheduler).queue()) == old(self)@.imported(
                batch_view(tokens@),
                time,
                old(scheduler).queue(),
                old(scheduler).now(),
            ),
            final(scheduler).now() == old(scheduler).now(),
            final(self).wf(),
    {
        let more = tokens.len() as u64;
        self.total = if more <= u64::MAX - self.total {
            self.total + more
        } else {
            u64::MAX
        };
        self.import_fifo.put(tokens, time);
        self.check_requirements(scheduler);
    }

    /// Registers a client with the actor's broadcast.
    fn register(&mut self, code: u16, code_product: u16, quantity: u32, actor: usize)
        ensures
            final(self)@ == (TransformerView {
                client: old(self)@.client.registered(
                    Client { code, quantity, actor },
                ),
                ..old(self)@
            }),
            final(self).wf(),
    {
        self.client.register(code, code_product, quantity, actor);
    }

    /// The actor's code.
    fn code(&self) -> (code: u16)
        ensures
            code == self@.code,
    {
        self.code
    }

    /// The number of tokens taken in so far.
    fn total(&self) -> (total: u64)
        ensures
            total == self@.total,
    {
        self.total
    }

    /// Hands over the tokens that the actor holds: those waiting in the
    /// import queue, then those waiting at the broadcast.
    fn tokens(&mut self) -> (tokens: Vec<Token>)
        ensures
            batch_view(tokens@) == old(self)@.held + old(self)@.client.held,
            final(self)@ == (TransformerView {
                held: Seq::empty(),
                client: BroadcastView { held: Seq::empty(), ..old(self)@.client },
                ..old(self)@
            }),
            final(self).wf() == old(self).wf(),
    {
        let mut tokens = self.import_fifo.get_all();
        let mut waiting = self.client.tokens();
        let ghost first = tokens@;
        let ghost second = waiting@;
        tokens.append(&mut waiting);
        proof {
            assert(batch_view(tokens@) =~= batch_view(first) + batch_view(second));
        }
        tokens
    }

    /// Empties the import queue and the queue of the broadcast for a new
    /// run; the count, the clients and the cycles stay.
    fn reset(&mut self)
        ensures
            final(self)@ == (TransformerView {
                held: Seq::empty(),
                client: BroadcastView { held: Seq::empty(), ..old(self)@.client },
                ..old(self)@
            }),
            final(self).wf() == old(self).wf(),
    {
        self.import_fifo.reset();
        self.client.reset();
    }
}

} // verus!
