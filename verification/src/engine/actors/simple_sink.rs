//! The sink: where tokens end.

use crate::engine::actors::Actor;
use crate::engine::fifo::{all_stampable, stamped, Fifo};
use crate::engine::scheduler::Scheduler;
use crate::engine::tokens::{batch_view, Token, TokenView};
use vstd::prelude::*;

verus! {

/// The mathematical value of a [`SimpleSink`].
pub struct SinkView {
    pub code: u16,
    /// The tokens the sink holds, the latest batch first.
    pub held: Seq<TokenView>,
}

impl SinkView {
    /// The sink after `tokens` arrived at `time`: they are stamped and kept.
    pub open spec fn imported(self, tokens: Seq<TokenView>, time: u64) -> SinkView {
        SinkView { held: stamped(tokens, self.code, time) + self.held, ..self }
    }
}

/// A terminal actor.  It stamps what arrives and keeps it.
pub struct SimpleSink {
    pub code: u16,
    pub import_fifo: Fifo,
}

impl View for SimpleSink {
    type V = SinkView;

    open spec fn view(&self) -> SinkView {
        SinkView { code: self.code, held: self.import_fifo@ }
    }
}

impl SimpleSink {
    /// The queue is the sink's own, and logs.
    pub open spec fn wf(&self) -> bool {
        self.import_fifo.code == self.code && self.import_fifo.log
    }

    /// An empty sink with code `code`.
    pub fn new(code: u16) -> (sink: Self)
        ensures
            sink@ == (SinkView { code, held: Seq::empty() }),
            sink.wf(),
    {
        SimpleSink { code, import_fifo: Fifo::new(code, true) }
    }
}

impl Actor for SimpleSink {
    open spec fn accepts(&self, tokens: Seq<TokenView>) -> bool {
        self.wf() && all_stampable(tokens, self.code)
    }

    /// A sink has no output.
    open spec fn has_output(&self) -> bool {
        false
    }

    /// A sink has no clients: nothing can be registered with it.
    fn register(&mut self, code: u16, code_product: u16, quantity: u32, actor: usize) {
    }

    /// The sink's code.
    fn code(&self) -> (code: u16)
        ensures
            code == self@.code,
    {
        self.code
    }

    /// The number of tokens the sink holds.
    fn total(&self) -> (total: u64)
        ensures
            total == self@.held.len(),
    {
        self.import_fifo.available_tokens() as u64
    }

    /// Hands over the tokens the sink holds; it holds none afterwards.
    fn tokens(&mut self) -> (tokens: Vec<Token>)
        ensures
            batch_view(tokens@) == old(self)@.held,
            final(self)@ == (SinkView { held: Seq::empty(), ..old(self)@ }),
            final(self).wf() == old(self).wf(),
    {
        self.import_fifo.get_all()
    }

    /// Takes in `tokens` at `time`.
    fn import(
        &mut self,
        code_product: u16,
        tokens: Vec<Token>,
        time: u64,
        scheduler: &mut Scheduler,
    )
        ensures
            final(self)@ == old(self)@.imported(batch_view(tokens@), time),
            final(self).wf(),
            final(scheduler).queue() == old(scheduler).queue(),
    {
        self.import_fifo.put(tokens, time);
    }

    /// Empties the sink for a new run.
    fn reset(&mut self)
        ensures
            final(self)@ == (SinkView { held: Seq::empty(), ..old(self)@ }),
            final(self).wf() == old(self).wf(),
    {
        self.import_fifo.reset();
    }
}

} // verus!
