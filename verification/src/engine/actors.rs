//! The actors of a network: sources, transformers and sinks, and the
//! broadcast through which sources and transformers feed their clients.

pub mod broadcast;
pub mod simple_actor;
pub mod simple_sink;
pub mod simple_source;

pub use crate::engine::actors::broadcast::{
    choice, delivery, distinct_codes, is_choice, lemma_broadcast_fairness, lemma_delivery_size,
    lemma_imports_fair, lemma_rolling_sequence_counts, lemma_turns_over, rolling_prefix,
    rolling_sequence, score, served, taken, turns_over, upserted, weight_sum, Broadcast,
};
pub use crate::engine::actors::simple_actor::SimpleActor;
pub use crate::engine::actors::simple_sink::SimpleSink;
pub use crate::engine::actors::simple_source::SimpleSource;

pub use crate::engine::actors::broadcast::{BroadcastView, Client};
use crate::engine::fifo::all_stampable;
use crate::engine::scheduler::{JobView, Scheduler};
use crate::engine::actors::simple_actor::TransformerView;
use crate::engine::actors::simple_sink::SinkView;
use crate::engine::actors::simple_source::SourceView;
use crate::engine::tokens::{batch_view, Token, TokenView};
use vstd::prelude::*;

verus! {

/// A product code with the quantity of it that is on offer.
pub struct SupplyOffer(pub String, pub u32);

/// What every actor offers: it takes in tokens, feeds clients, counts,
/// hands over what it holds, and can be readied for a new run.
pub trait Actor {
    /// Whether the actor can take in `tokens`.
    spec fn accepts(&self, tokens: Seq<TokenView>) -> bool;

    /// Whether the actor can have clients.
    spec fn has_output(&self) -> bool;

    /// Takes in `tokens` of product `code_product` at `time`.
    fn import(
        &mut self,
        code_product: u16,
        tokens: Vec<Token>,
        time: u64,
        scheduler: &mut Scheduler,
    )
        requires
            old(self).accepts(batch_view(tokens@)),
        ensures
            final(scheduler).now() == old(scheduler).now(),
    ;

    /// Registers a client for product `code_product`: the actor with code
    /// `code` at place `actor` of the network, with share `quantity`.
    fn register(&mut self, code: u16, code_product: u16, quantity: u32, actor: usize)
        requires
            old(self).has_output(),
    ;

    /// Readies the actor for a new run.
    fn reset(&mut self);

    /// The actor's code.
    fn code(&self) -> (code: u16);

    /// The actor's count of tokens.
    fn total(&self) -> (total: u64);

    /// Hands over the tokens that the actor holds.
    fn tokens(&mut self) -> (tokens: Vec<Token>);
}

/// An actor that makes tokens.
pub trait Source: Actor {
    /// The number of tokens made so far.
    spec fn made(&self) -> nat;

    /// Makes the next batch, if there is anything left to make, and queues
    /// it for the actor's clients, due at `time`, or now where the clock is
    /// beyond `time`.  Returns whether there was anything to make.
    fn supply(&mut self, time: u64, scheduler: &mut Scheduler) -> (supplied: bool)
        ensures
            final(scheduler).now() == old(scheduler).now(),
            !supplied ==> final(self).made() == old(self).made() && final(scheduler).queue() == old(
                scheduler,
            ).queue(),
            supplied ==> final(self).made() > old(self).made(),
    ;

    /// The time between two batches.
    fn delay(&self) -> (period: u64);
}

/// An actor of any kind.
pub enum AnyActor {
    Source(SimpleSource),
    Transformer(SimpleActor),
    Sink(SimpleSink),
}

/// The mathematical value of an [`AnyActor`].
pub enum ActorView {
    Source(SourceView),
    Transformer(TransformerView),
    Sink(SinkView),
}

impl ActorView {
    /// The actor's code.
    pub open spec fn code(self) -> u16 {
        match self {
            ActorView::Source(s) => s.code,
            ActorView::Transformer(t) => t.code,
            ActorView::Sink(s) => s.code,
        }
    }

    /// The tokens in the actor's import queue; a source has none.
    pub open spec fn held(self) -> Seq<TokenView> {
        match self {
            ActorView::Source(s) => Seq::empty(),
            ActorView::Transformer(t) => t.held,
            ActorView::Sink(s) => s.held,
        }
    }

    /// The clients of the actor's broadcast; a sink has none.
    pub open spec fn clients(self) -> Seq<Client> {
        match self {
            ActorView::Source(s) => s.client.clients,
            ActorView::Transformer(t) => t.client.clients,
            ActorView::Sink(s) => Seq::empty(),
        }
    }

    /// The actor after `client` was registered with its broadcast; a sink is as it was.
    pub open spec fn registered(self, client: Client) -> ActorView {
        match self {
            ActorView::Source(s) => ActorView::Source(
                SourceView { client: s.client.registered(client), ..s },
            ),
            ActorView::Transformer(t) => ActorView::Transformer(
                TransformerView { client: t.client.registered(client), ..t },
            ),
            ActorView::Sink(s) => self,
        }
    }

    /// The tokens that the actor hands over when asked for its tokens.
    pub open spec fn drained(self) -> Seq<TokenView> {
        match self {
            ActorView::Source(s) => Seq::empty(),
            ActorView::Transformer(t) => t.held + t.client.held,
            ActorView::Sink(s) => s.held,
        }
    }

    /// The actor after it handed over its tokens.
    pub open spec fn emptied(self) -> ActorView {
        match self {
            ActorView::Source(s) => self,
            ActorView::Transformer(t) => ActorView::Transformer(
                TransformerView {
                    held: Seq::empty(),
                    client: BroadcastView { held: Seq::empty(), ..t.client },
                    ..t
                },
            ),
            ActorView::Sink(s) => ActorView::Sink(SinkView { held: Seq::empty(), ..s }),
        }
    }

    /// The actor as it is ready for a new run.
    pub open spec fn renewed(self) -> ActorView {
        match self {
            ActorView::Source(s) => ActorView::Source(
                SourceView {
                    total: 0,
                    client: BroadcastView { held: Seq::empty(), ..s.client },
                    ..s
                },
            ),
            _ => self.emptied(),
        }
    }

    /// The actor and the queue after `tokens` arrived at `time`, the clock
    /// standing at `now`; a source is as it was.
    pub open spec fn imported(
        self,
        tokens: Seq<TokenView>,
        time: u64,
        queue: Seq<JobView>,
        now: u64,
    ) -> (ActorView, Seq<JobView>) {
        match self {
            ActorView::Source(s) => (self, queue),
            ActorView::Transformer(t) => {
                let (after, queued) = t.imported(tokens, time, queue, now);
                (ActorView::Transformer(after), queued)
            },
            ActorView::Sink(s) => (ActorView::Sink(s.imported(tokens, time)), queue),
        }
    }

    /// The tokens in the queue of the actor's broadcast; a sink has none.
    pub open spec fn outgoing(self) -> Seq<TokenView> {
        match self {
            ActorView::Source(s) => s.client.held,
            ActorView::Transformer(t) => t.client.held,
            ActorView::Sink(s) => Seq::empty(),
        }
    }
}

impl View for AnyActor {
    type V = ActorView;

    open spec fn view(&self) -> ActorView {
        match self {
            AnyActor::Source(s) => ActorView::Source(s@),
            AnyActor::Transformer(t) => ActorView::Transformer(t@),
            AnyActor::Sink(s) => ActorView::Sink(s@),
        }
    }
}

impl AnyActor {
    /// The actor is well-formed for its kind.
    pub open spec fn wf(&self) -> bool {
        match self {
            AnyActor::Source(s) => s.wf(),
            AnyActor::Transformer(t) => t.wf(),
            AnyActor::Sink(s) => s.wf(),
        }
    }

    /// Whether the actor is a source.
    pub fn is_source(&self) -> (yes: bool)
        ensures
            yes == (self@ is Source),
    {
        match self {
            AnyActor::Source(_) => true,
            _ => false,
        }
    }

    /// Whether the actor is a sink.
    pub fn is_sink(&self) -> (yes: bool)
        ensures
            yes == (self@ is Sink),
    {
        match self {
            AnyActor::Sink(_) => true,
            _ => false,
        }
    }

    /// Registers a client with the actor's broadcast.  A sink has none:
    /// the actor must not be a sink.
    pub fn register(&mut self, code: u16, code_product: u16, quantity: u32, actor: usize)
        requires
            old(self).wf(),
            !(old(self)@ is Sink),
        ensures
            final(self)@ == old(self)@.registered(Client { code, quantity, actor }),
            final(self).wf(),
    {
        match self {
            AnyActor::Source(s) => s.register(code, code_product, quantity, actor),
            AnyActor::Transformer(t) => t.register(code, code_product, quantity, actor),
            AnyActor::Sink(_) => {},
        }
    }

    /// The actor's code.
    pub fn code(&self) -> (code: u16)
        ensures
            code == self@.code(),
    {
        match self {
            AnyActor::Source(s) => s.code(),
            AnyActor::Transformer(t) => t.code(),
            AnyActor::Sink(s) => s.code(),
        }
    }

    /// The actor's count: tokens made by a source, taken in by a
    /// transformer, held by a sink.
    pub fn total(&self) -> (total: u64)
        ensures
            total == match self@ {
                ActorView::Source(s) => s.total as int,
                ActorView::Transformer(t) => t.total as int,
                ActorView::Sink(s) => s.held.len() as int,
            },
    {
        match self {
            AnyActor::Source(s) => s.total(),
            AnyActor::Transformer(t) => t.total(),
            AnyActor::Sink(s) => s.total(),
        }
    }

    /// Takes in `tokens` at `time`, as the actor's kind does.  A source
    /// takes nothing in: the actor must not be a source.
    pub fn import(
        &mut self,
        code_product: u16,
        tokens: Vec<Token>,
        time: u64,
        scheduler: &mut Scheduler,
    )
        requires
            old(self).wf(),
            !(old(self)@ is Source),
            all_stampable(batch_view(tokens@), old(self)@.code()),
        ensures
            (final(self)@, final(scheduler).queue()) == old(self)@.imported(
                batch_view(tokens@),
                time,
                old(scheduler).queue(),
                old(scheduler).now(),
            ),
            final(scheduler).now() == old(scheduler).now(),
            final(self).wf(),
    {
        match self {
            AnyActor::Source(_) => {},
            AnyActor::Transformer(t) => t.import(code_product, tokens, time, scheduler),
            AnyActor::Sink(s) => s.import(code_product, tokens, time, scheduler),
        }
    }

    /// Hands over the tokens that the actor holds; a source hands over none.
    pub fn tokens(&mut self) -> (tokens: Vec<Token>)
        ensures
            batch_view(tokens@) == old(self)@.drained(),
            final(self)@ == old(self)@.emptied(),
            final(self).wf() == old(self).wf(),
    {
        match self {
            AnyActor::Source(s) => {
                let tokens = s.tokens();
                assert(batch_view(tokens@) =~= Seq::<TokenView>::empty());
                tokens
            },
            AnyActor::Transformer(t) => t.tokens(),
            AnyActor::Sink(s) => s.tokens(),
        }
    }

    /// Readies the actor for a new run: a source counts anew, and every
    /// queue is emptied.
    pub fn reset(&mut self)
        ensures
            final(self)@ == old(self)@.renewed(),
            final(self).wf() == old(self).wf(),
    {
        match self {
            AnyActor::Source(s) => s.reset(),
            AnyActor::Transformer(t) => t.reset(),
            AnyActor::Sink(s) => s.reset(),
        }
    }
}

} // verus!
