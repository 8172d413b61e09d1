//! Tokens: units of simulated material that carry their own history.

use vstd::prelude::*;

verus! {

/// One unit of a product.
///
/// `timeline` lists, oldest first, the queues the token entered: each entry is
/// the entry time and the stamp of the queue (actor code plus product code).
/// `parts` lists the sub-tokens a composite token is made of, grouped by
/// product code, in the order the groups were first added.
#[derive(Debug)]
pub struct Token {
    pub code: u16,
    pub timeline: Vec<(u64, u16)>,
    pub parts: Vec<(u16, Vec<Token>)>,
}

/// The mathematical value of a [`Token`].
pub struct TokenView {
    pub code: u16,
    pub timeline: Seq<(u64, u16)>,
    pub parts: Seq<(u16, Seq<TokenView>)>,
}

/// Entry times never go back along the timeline.
pub open spec fn in_order(timeline: Seq<(u64, u16)>) -> bool {
    forall|i: int, j: int| 0 <= i <= j < timeline.len() ==> timeline[i].0 <= timeline[j].0
}

impl TokenView {
    /// Stamping with actor code `code` overflows nowhere in the token or its parts.
    pub open spec fn stampable(self, code: u16) -> bool
        decreases self,
    {
        &&& code + self.code <= u16::MAX
        &&& forall|i: int, j: int|
            0 <= i < self.parts.len() && 0 <= j < self.parts[i].1.len()
                ==> (#[trigger] self.parts[i].1[j]).stampable(code)
    }

    /// Some group of parts has product code `code`.
    pub open spec fn has_part(self, code: u16) -> bool {
        exists|i: int| 0 <= i < self.parts.len() && (#[trigger] self.parts[i]).0 == code
    }

    /// `i` is the place of the first group of parts with product code `code`.
    pub open spec fn is_part_index(self, code: u16, i: int) -> bool {
        &&& 0 <= i < self.parts.len()
        &&& self.parts[i].0 == code
        &&& forall|k: int| 0 <= k < i ==> (#[trigger] self.parts[k]).0 != code
    }

    /// The place of the first group of parts with product code `code`.
    pub open spec fn part_index(self, code: u16) -> int {
        choose|i: int| self.is_part_index(code, i)
    }

    /// The token after `tokens` joined its parts of product `code`: they are
    /// appended to the first group with that code, or form a new last group.
    pub open spec fn with_part(self, code: u16, tokens: Seq<TokenView>) -> TokenView {
        if self.has_part(code) {
            let i = self.part_index(code);
            TokenView { parts: self.parts.update(i, (code, self.parts[i].1 + tokens)), ..self }
        } else {
            TokenView { parts: self.parts.push((code, tokens)), ..self }
        }
    }

    /// Entry times never go back along the timeline.
    pub open spec fn chronological(self) -> bool {
        in_order(self.timeline)
    }

    /// No entry of the timeline is later than `time`.
    pub open spec fn settled_by(self, time: u64) -> bool {
        forall|i: int| 0 <= i < self.timeline.len() ==> (#[trigger] self.timeline[i]).0 <= time
    }

    /// The token after it entered, at `time`, a logging queue owned by actor `code`.
    pub open spec fn aged(self, code: u16, time: u64) -> TokenView
        decreases self,
    {
        TokenView {
            code: self.code,
            timeline: self.timeline.push((time, (code + self.code) as u16)),
            parts: Seq::new(
                self.parts.len(),
                |i: int|
                    (
                        self.parts[i].0,
                        Seq::new(
                            self.parts[i].1.len(),
                            |j: int|
                                if 0 <= i < self.parts.len() && 0 <= j < self.parts[i].1.len() {
                                    self.parts[i].1[j].aged(code, time)
                                } else {
                                    self
                                },
                        ),
                    ),
            ),
        }
    }
}

/// Stamping a token changes nothing in who can stamp it.
pub proof fn lemma_aged_stampable(token: TokenView, code: u16, time: u64, other: u16)
    requires
        token.stampable(other),
    ensures
        token.aged(code, time).stampable(other),
    decreases token,
{
    let after = token.aged(code, time);
    assert forall|i: int, j: int|
        0 <= i < after.parts.len() && 0 <= j < after.parts[i].1.len() implies (
    #[trigger] after.parts[i].1[j]).stampable(other) by {
        assert(token.parts[i].1[j].stampable(other));
        lemma_aged_stampable(token.parts[i].1[j], code, time, other);
    }
}

/// A token whose history is in order and not later than `time` has such
/// a history after it was stamped at `time`, one entry longer.
pub proof fn lemma_aged_history(token: TokenView, code: u16, time: u64)
    requires
        token.chronological(),
        token.settled_by(time),
    ensures
        token.aged(code, time).chronological(),
        token.aged(code, time).settled_by(time),
        token.aged(code, time).timeline.len() == token.timeline.len() + 1,
        token.aged(code, time).code == token.code,
{
    let after = token.aged(code, time).timeline;
    assert forall|i: int, j: int| 0 <= i <= j < after.len() implies after[i].0 <= after[j].0 by {
        if j < token.timeline.len() {
            assert(after[i] == token.timeline[i] && after[j] == token.timeline[j]);
        } else if i < token.timeline.len() {
            assert(after[i] == token.timeline[i]);
        }
    }
}

impl View for Token {
    type V = TokenView;

    open spec fn view(&self) -> TokenView {
        self.value()
    }
}

impl Token {
    /// The mathematical value of the token.
    pub open spec fn value(&self) -> TokenView
        decreases self,
    {
        TokenView {
            code: self.code,
            timeline: self.timeline@,
            parts: Seq::new(
                self.parts@.len(),
                |i: int|
                    (
                        self.parts@[i].0,
                        Seq::new(
                            self.parts@[i].1@.len(),
                            |j: int|
                                if 0 <= i < self.parts@.len() && 0 <= j < self.parts@[i].1@.len() {
                                    self.parts@[i].1@[j].value()
                                } else {
                                    arbitrary()
                                },
                        ),
                    ),
            ),
        }
    }
}

/// The values of a batch of tokens, in order.
pub open spec fn batch_view(tokens: Seq<Token>) -> Seq<TokenView> {
    Seq::new(tokens.len(), |i: int| tokens[i]@)
}

impl Token {
    /// A token of product `code` whose timeline holds `init`, if any, and nothing else.
    pub fn new(code: u16, init: Option<(u64, u16)>) -> (token: Token)
        ensures
            token@ == (TokenView {
                code,
                timeline: match init {
                    Some(entry) => seq![entry],
                    None => Seq::empty(),
                },
                parts: Seq::empty(),
            }),
    {
        let mut timeline: Vec<(u64, u16)> = Vec::new();
        if let Some(entry) = init {
            timeline.push(entry);
        }
        let token = Token { code, timeline, parts: Vec::new() };
        assert(token@.parts =~= Seq::empty());
        assert(token@.timeline =~= match init {
            Some(entry) => seq![entry],
            None => Seq::empty(),
        });
        token
    }

    /// Whether the entry times never go back along the timeline.
    pub fn is_chronological(&self) -> (yes: bool)
        ensures
            yes == in_order(self@.timeline),
    {
        let n = self.timeline.len();
        if n == 0 {
            return true;
        }
        let mut k: usize = 1;
        while k < n
            invariant
                1 <= k <= n,
                n == self.timeline@.len(),
                forall|i: int, j: int|
                    0 <= i <= j < k ==> self.timeline@[i].0 <= self.timeline@[j].0,
            decreases n - k,
        {
            if self.timeline[k - 1].0 > self.timeline[k].0 {
                assert(!(self@.timeline[k - 1].0 <= self@.timeline[k as int].0));
                return false;
            }
            proof {
                assert forall|i: int, j: int| 0 <= i <= j < k + 1 implies self.timeline@[i].0
                    <= self.timeline@[j].0 by {
                    if j == k && i < k {
                        assert(self.timeline@[i].0 <= self.timeline@[k - 1].0);
                    }
                }
            }
            k += 1;
        }
        true
    }

    /// Adds `tokens` to the parts of product `code`.
    pub fn add_part(&mut self, code: u16, tokens: Vec<Token>)
        ensures
            final(self)@ == old(self)@.with_part(code, batch_view(tokens@)),
    {
        let ghost added = batch_view(tokens@);
        let mut rest = tokens;
        let n = self.parts.len();
        let mut i: usize = 0;
        while i < n
            invariant
                i <= n,
                n == self.parts@.len(),
                *self == *old(self),
                added == batch_view(tokens@),
                rest@ == tokens@,
                forall|k: int| 0 <= k < i ==> (#[trigger] self@.parts[k]).0 != code,
            decreases n - i,
        {
            if self.parts[i].0 == code {
                proof {
                    assert(self@.parts[i as int].0 == code);
                    assert(self@.is_part_index(code, i as int));
                    assert(self@.has_part(code));
                    let c = self@.part_index(code);
                    assert(self@.is_part_index(code, c));
                    assert(c == i) by {
                        if c < i {
                            assert(self@.parts[c].0 != code);
                        } else if i < c {
                            assert(self@.parts[i as int].0 != code);
                        }
                    }
                }
                let ghost before = *self;
                self.parts[i].1.append(&mut rest);
                proof {
                    let want = before@.with_part(code, added);
                    assert(self@.parts.len() == want.parts.len());
                    assert forall|k: int| 0 <= k < self@.parts.len() implies self@.parts[k]
                        == want.parts[k] by {
                        if k == i {
                            assert(self@.parts[k].1 =~= want.parts[k].1);
                        } else {
                            assert(self.parts@[k] == before.parts@[k]);
                            assert(self@.parts[k].1 =~= want.parts[k].1);
                        }
                    }
                    assert(self@.parts =~= want.parts);
                }
                return ;
            }
            i += 1;
        }
        proof {
            assert(!self@.has_part(code));
        }
        let ghost before = *self;
        self.parts.push((code, rest));
        proof {
            let want = before@.with_part(code, added);
            assert(self@.parts.len() == want.parts.len());
            assert forall|k: int| 0 <= k < self@.parts.len() implies self@.parts[k]
                == want.parts[k] by {
                if k < n {
                    assert(self.parts@[k] == before.parts@[k]);
                }
                assert(self@.parts[k].1 =~= want.parts[k].1);
            }
            assert(self@.parts =~= want.parts);
        }
    }

    /// Records that the token entered, at `time`, a logging queue of actor
    /// `code`; the same entry is recorded in every part, at every depth.
    pub fn age(&mut self, code: u16, time: u64)
        requires
            old(self)@.stampable(code),
        ensures
            final(self)@ == old(self)@.aged(code, time),
        decreases *old(self),
    {
        let ghost before = *old(self);
        self.timeline.push((time, code + self.code));
        let n = self.parts.len();
        let mut i: usize = 0;
        while i < n
            invariant
                before == *old(self),
                before@.stampable(code),
                i <= n,
                n == before.parts@.len(),
                self.code == before.code,
                self.timeline@ == before.timeline@.push((time, (code + before.code) as u16)),
                self.parts@.len() == n,
                forall|k: int|
                    0 <= k < n ==> (#[trigger] self.parts@[k]).0 == before.parts@[k].0
                        && self.parts@[k].1@.len() == before.parts@[k].1@.len(),
                forall|k: int, l: int|
                    0 <= k < i && 0 <= l < before.parts@[k].1@.len() ==> (
                    #[trigger] self.parts@[k].1@[l])@ == before.parts@[k].1@[l]@.aged(code, time),
                forall|k: int, l: int|
                    i <= k < n && 0 <= l < before.parts@[k].1@.len() ==> (
                    #[trigger] self.parts@[k].1@[l]) == before.parts@[k].1@[l],
            decreases n - i,
        {
            let m = self.parts[i].1.len();
            let mut j: usize = 0;
            while j < m
                invariant
                    before == *old(self),
                    before@.stampable(code),
                    i < n,
                    j <= m,
                    n == before.parts@.len(),
                    m == before.parts@[i as int].1@.len(),
                    self.code == before.code,
                    self.timeline@ == before.timeline@.push((time, (code + before.code) as u16)),
                    self.parts@.len() == n,
                    forall|k: int|
                        0 <= k < n ==> (#[trigger] self.parts@[k]).0 == before.parts@[k].0
                            && self.parts@[k].1@.len() == before.parts@[k].1@.len(),
                    forall|k: int, l: int|
                        0 <= k < i && 0 <= l < before.parts@[k].1@.len() ==> (
                        #[trigger] self.parts@[k].1@[l])@ == before.parts@[k].1@[l]@.aged(
                            code,
                            time,
                        ),
                    forall|l: int|
                        0 <= l < j ==> (#[trigger] self.parts@[i as int].1@[l])@
                            == before.parts@[i as int].1@[l]@.aged(code, time),
                    forall|l: int|
                        j <= l < m ==> (#[trigger] self.parts@[i as int].1@[l])
                            == before.parts@[i as int].1@[l],
                    forall|k: int, l: int|
                        i < k < n && 0 <= l < before.parts@[k].1@.len() ==> (
                        #[trigger] self.parts@[k].1@[l]) == before.parts@[k].1@[l],
                decreases m - j,
            {
                proof {
                    let sub = before.parts@[i as int].1@[j as int];
                    assert(sub@ == before@.parts[i as int].1[j as int]);
                    assert(sub@.stampable(code));
                    assert(decreases_to!(before => before.parts));
                    assert(decreases_to!(before.parts => before.parts@[i as int]));
                    assert(decreases_to!(before.parts@[i as int] => before.parts@[i as int].1));
                    assert(decreases_to!(before.parts@[i as int].1 => sub));
                    assert(self.parts@[i as int].1@[j as int] == sub);
                }
                self.parts[i].1[j].age(code, time);
                j += 1;
            }
            i += 1;
        }
        proof {
            let after = self@;
            let want = before@.aged(code, time);
            assert(after.parts.len() == want.parts.len());
            assert forall|k: int| 0 <= k < after.parts.len() implies after.parts[k]
                == want.parts[k] by {
                assert(self.parts@[k].0 == before.parts@[k].0);
                assert(after.parts[k].1.len() == want.parts[k].1.len());
                assert forall|l: int| 0 <= l < after.parts[k].1.len() implies after.parts[k].1[l]
                    == want.parts[k].1[l] by {
                    assert(self.parts@[k].1@[l]@ == before.parts@[k].1@[l]@.aged(code, time));
                }
                assert(after.parts[k].1 =~= want.parts[k].1);
            }
            assert(after.parts =~= want.parts);
        }
    }
}

} // verus!
