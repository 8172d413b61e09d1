//! Queues of tokens.  A queue that logs is the one place where a token's
//! timeline grows: it stamps every token that enters.

use super::tokens::{batch_view, Token, TokenView};
use vstd::prelude::*;

verus! {

/// The queue of an actor.  New batches join at the head; tokens leave from the tail.
pub struct Fifo {
    pub code: u16,
    pub tokens: Vec<Token>,
    pub log: bool,
}

/// Every token of the batch can be stamped by actor `code`.
pub open spec fn all_stampable(batch: Seq<TokenView>, code: u16) -> bool {
    forall|i: int| 0 <= i < batch.len() ==> (#[trigger] batch[i]).stampable(code)
}

/// The batch after each of its tokens was stamped by actor `code` at `time`.
pub open spec fn stamped(batch: Seq<TokenView>, code: u16, time: u64) -> Seq<TokenView> {
    Seq::new(batch.len(), |i: int| batch[i].aged(code, time))
}

/// What a batch looks like once it has entered a queue of actor `code` at `time`.
pub open spec fn entered(batch: Seq<TokenView>, code: u16, log: bool, time: u64) -> Seq<
    TokenView,
> {
    if log {
        stamped(batch, code, time)
    } else {
        batch
    }
}

impl View for Fifo {
    type V = Seq<TokenView>;

    open spec fn view(&self) -> Seq<TokenView> {
        batch_view(self.tokens@)
    }
}

impl Fifo {
    /// An empty queue owned by actor `code`.
    pub fn new(code: u16, log: bool) -> (fifo: Fifo)
        ensures
            fifo.code == code,
            fifo.log == log,
            fifo@ == Seq::<TokenView>::empty(),
    {
        let fifo = Fifo { code, tokens: Vec::new(), log };
        assert(fifo@ =~= Seq::<TokenView>::empty());
        fifo
    }

    /// The number of tokens in the queue.
    pub fn available_tokens(&self) -> (n: usize)
        ensures
            n == self@.len(),
    {
        self.tokens.len()
    }

    /// Lets a batch enter at `time`.  A logging queue stamps each token of
    /// the batch; the batch then stands before what the queue already held.
    pub fn put(&mut self, new_tokens: Vec<Token>, time: u64)
        requires
            old(self).log ==> all_stampable(batch_view(new_tokens@), old(self).code),
        ensures
            final(self).code == old(self).code,
            final(self).log == old(self).log,
            final(self)@ == entered(batch_view(new_tokens@), old(self).code, old(self).log, time)
                + old(self)@,
    {
        let mut batch = new_tokens;
        if batch.len() == 0 {
            assert(self@ =~= entered(batch_view(new_tokens@), self.code, self.log, time) + self@);
            return ;
        }
        if self.log {
            let n = batch.len();
            let mut i: usize = 0;
            while i < n
                invariant
                    i <= n,
                    n == new_tokens@.len(),
                    batch@.len() == n,
                    *self == *old(self),
                    all_stampable(batch_view(new_tokens@), self.code),
                    forall|k: int|
                        0 <= k < i ==> (#[trigger] batch@[k])@ == new_tokens@[k]@.aged(
                            self.code,
                            time,
                        ),
                    forall|k: int| i <= k < n ==> (#[trigger] batch@[k]) == new_tokens@[k],
                decreases n - i,
            {
                proof {
                    assert(batch_view(new_tokens@)[i as int].stampable(self.code));
                }
                batch[i].age(self.code, time);
                i += 1;
            }
            assert(batch_view(batch@) =~= stamped(batch_view(new_tokens@), self.code, time));
        }
        let ghost arrived = batch_view(batch@);
        batch.append(&mut self.tokens);
        self.tokens = batch;
        assert(self@ =~= arrived + old(self)@);
    }

    /// Takes the `quantity` tokens at the tail of the queue, in their order.
    pub fn get(&mut self, quantity: usize) -> (taken: Vec<Token>)
        requires
            quantity <= old(self)@.len(),
        ensures
            final(self).code == old(self).code,
            final(self).log == old(self).log,
            final(self)@ == old(self)@.subrange(0, old(self)@.len() - quantity),
            batch_view(taken@) == old(self)@.subrange(
                old(self)@.len() - quantity,
                old(self)@.len() as int,
            ),
            quantity == 0 ==> final(self)@ == old(self)@ && taken@.len() == 0,
    {
        if quantity == 0 {
            assert(self@ =~= self@.subrange(0, self@.len() as int));
            assert(batch_view(Seq::<Token>::empty()) =~= self@.subrange(
                self@.len() as int,
                self@.len() as int,
            ));
            return Vec::new();
        }
        let at = self.tokens.len() - quantity;
        let taken = self.tokens.split_off(at);
        assert(self@ =~= old(self)@.subrange(0, at as int));
        assert(batch_view(taken@) =~= old(self)@.subrange(at as int, old(self)@.len() as int));
        taken
    }

    /// Takes every token of the queue, in their order.
    pub fn get_all(&mut self) -> (taken: Vec<Token>)
        ensures
            final(self).code == old(self).code,
            final(self).log == old(self).log,
            final(self)@ == Seq::<TokenView>::empty(),
            batch_view(taken@) == old(self)@,
    {
        let taken = self.tokens.split_off(0);
        assert(self@ =~= Seq::<TokenView>::empty());
        assert(batch_view(taken@) =~= old(self)@);
        taken
    }

    /// Discards every token of the queue.
    pub fn reset(&mut self)
        ensures
            final(self).code == old(self).code,
            final(self).log == old(self).log,
            final(self)@ == Seq::<TokenView>::empty(),
    {
        self.tokens = Vec::new();
        assert(self@ =~= Seq::<TokenView>::empty());
    }
}

/// A batch that enters a queue and is taken out with all the queue holds
/// comes first, in its order, before what the queue held.  In a logging
/// queue each of its timelines has grown by exactly one entry, the entry
/// time with the stamp of the queue for that token; otherwise the tokens are
/// unchanged.
pub proof fn lemma_put_then_get_all(
    held: Seq<TokenView>,
    batch: Seq<TokenView>,
    code: u16,
    log: bool,
    time: u64,
)
    ensures
        (entered(batch, code, log, time) + held).len() == batch.len() + held.len(),
        forall|i: int|
            0 <= i < batch.len() ==> {
                let out = #[trigger] (entered(batch, code, log, time) + held)[i];
                &&& out.code == batch[i].code
                &&& log ==> out.timeline == batch[i].timeline.push(
                    (time, (code + batch[i].code) as u16),
                )
                &&& !log ==> out == batch[i]
            },
        forall|i: int|
            0 <= i < held.len() ==> (#[trigger] (entered(batch, code, log, time) + held)[batch.len()
                + i]) == held[i],
{
}

} // verus!
