//! Cyclic samplers: a fixed list of samples that is drawn from in order,
//! again and again.

use std::collections::HashMap;
use std::hash::Hash;
use vstd::prelude::*;
use vstd::std_specs::hash::obeys_key_model;

verus! {

/// How often `value` occurs in `s`.
pub open spec fn occurrences<T>(s: Seq<T>, value: T) -> nat
    decreases s.len(),
{
    if s.len() == 0 {
        0
    } else {
        occurrences(s.drop_last(), value) + if s.last() == value {
            1nat
        } else {
            0nat
        }
    }
}

/// The `n` samples that a cycle over `samples` yields from position `start` on.
pub open spec fn cycle_window<T>(samples: Seq<T>, start: nat, n: nat) -> Seq<T> {
    Seq::new(n, |k: int| samples[((start + k) as int) % (samples.len() as int)])
}

/// No value occurs more often in a sequence than the sequence is long.
pub proof fn lemma_occurrences_bound<T>(s: Seq<T>, value: T)
    ensures
        occurrences(s, value) <= s.len(),
    decreases s.len(),
{
    if s.len() > 0 {
        lemma_occurrences_bound(s.drop_last(), value);
    }
}

/// One more draw extends the window by the sample under the cursor.
pub proof fn lemma_window_step<T>(samples: Seq<T>, start: nat, n: nat)
    requires
        samples.len() > 0,
    ensures
        cycle_window(samples, start, n + 1).drop_last() == cycle_window(samples, start, n),
        cycle_window(samples, start, n + 1).last() == samples[((start + n) as int) % (
        samples.len() as int)],
        0 <= ((start + n) as int) % (samples.len() as int) < samples.len(),
        ((((start + n) as int) % (samples.len() as int)) + 1) % (samples.len() as int) == ((start
            + n + 1) as int) % (samples.len() as int),
{
    assert(cycle_window(samples, start, n + 1).drop_last() =~= cycle_window(samples, start, n));
    vstd::arithmetic::div_mod::lemma_add_mod_noop_right(
        1,
        (start + n) as int,
        samples.len() as int,
    );
}

/// Occurrences add up over the two parts of a sequence.
pub proof fn lemma_occurrences_concat<T>(a: Seq<T>, b: Seq<T>, value: T)
    ensures
        occurrences(a + b, value) == occurrences(a, value) + occurrences(b, value),
    decreases b.len(),
{
    if b.len() == 0 {
        assert(a + b =~= a);
    } else {
        lemma_occurrences_concat(a, b.drop_last(), value);
        assert((a + b).drop_last() =~= a + b.drop_last());
    }
}

/// Where a cycle of length `len` stands `k` draws after position `start`.
pub proof fn lemma_cycle_index(start: nat, k: nat, len: nat)
    requires
        len > 0,
        k < len,
    ensures
        ((start + k) as int) % (len as int) == (if (start as int) % (len as int) + k < len {
            (start as int) % (len as int) + k
        } else {
            (start as int) % (len as int) + k - len
        }),
{
    let l = len as int;
    let p = (start as int) % l;
    vstd::arithmetic::div_mod::lemma_mod_pos_bound(start as int, l);
    vstd::arithmetic::div_mod::lemma_small_mod(k, len);
    vstd::arithmetic::div_mod::lemma_add_mod_noop(start as int, k as int, l);
    if p + k < l {
        vstd::arithmetic::div_mod::lemma_small_mod((p + k) as nat, len);
    } else {
        vstd::arithmetic::div_mod::lemma_mod_add_multiples_vanish(p + k - l, l);
        vstd::arithmetic::div_mod::lemma_small_mod((p + k - l) as nat, len);
    }
}

/// A window is its first draws followed by the window that starts where they end.
pub proof fn lemma_window_splits<T>(samples: Seq<T>, start: nat, first: nat, second: nat)
    ensures
        cycle_window(samples, start, first + second) == cycle_window(samples, start, first)
            + cycle_window(samples, start + first, second),
{
    assert(cycle_window(samples, start, first + second) =~= cycle_window(samples, start, first)
        + cycle_window(samples, start + first, second));
}

/// A window depends on its start only through the place in the cycle.
pub proof fn lemma_window_start<T>(samples: Seq<T>, start: nat, n: nat)
    requires
        samples.len() > 0,
    ensures
        cycle_window(samples, start, n) == cycle_window(
            samples,
            ((start as int) % (samples.len() as int)) as nat,
            n,
        ),
{
    let l = samples.len() as int;
    let p = ((start as int) % l) as nat;
    vstd::arithmetic::div_mod::lemma_mod_pos_bound(start as int, l);
    let left = cycle_window(samples, start, n);
    let right = cycle_window(samples, p, n);
    assert forall|k: int| 0 <= k < n implies #[trigger] left[k] == right[k] by {
        vstd::arithmetic::div_mod::lemma_add_mod_noop(start as int, k, l);
        vstd::arithmetic::div_mod::lemma_add_mod_noop(p as int, k, l);
        vstd::arithmetic::div_mod::lemma_mod_twice(start as int, l);
    }
    assert(left =~= right);
}

/// Draws go on where the draws before them ended: the first draws, and
/// then the next ones from where the cursor then stands, hold every value
/// as often as all the draws in one go.
pub proof fn lemma_draws_chain<T>(samples: Seq<T>, start: nat, first: nat, second: nat, value: T)
    requires
        samples.len() > 0,
    ensures
        occurrences(cycle_window(samples, start, first), value) + occurrences(
            cycle_window(
                samples,
                (((start + first) as int) % (samples.len() as int)) as nat,
                second,
            ),
            value,
        ) == occurrences(cycle_window(samples, start, first + second), value),
{
    lemma_window_splits(samples, start, first, second);
    lemma_window_start(samples, start + first, second);
    lemma_occurrences_concat(
        cycle_window(samples, start, first),
        cycle_window(samples, start + first, second),
        value,
    );
}

/// A window of one full cycle holds every value as often as the samples do.
pub proof fn lemma_full_cycle<T>(samples: Seq<T>, start: nat, value: T)
    requires
        samples.len() > 0,
    ensures
        occurrences(cycle_window(samples, start, samples.len()), value) == occurrences(
            samples,
            value,
        ),
{
    let len = samples.len();
    let l = len as int;
    let p = (start as int) % l;
    vstd::arithmetic::div_mod::lemma_mod_pos_bound(start as int, l);
    let head = samples.subrange(0, p);
    let tail = samples.subrange(p, l);
    let window = cycle_window(samples, start, len);
    assert forall|k: int| 0 <= k < len implies window[k] == (tail + head)[k] by {
        lemma_cycle_index(start, k as nat, len);
    }
    assert(window =~= tail + head);
    assert(samples =~= head + tail);
    lemma_occurrences_concat(tail, head, value);
    lemma_occurrences_concat(head, tail, value);
}

/// A window of `k` full cycles holds every value `k` times as often as the
/// samples do, wherever it starts.
pub proof fn lemma_full_cycles<T>(samples: Seq<T>, start: nat, k: nat, value: T)
    requires
        samples.len() > 0,
    ensures
        occurrences(cycle_window(samples, start, k * samples.len()), value) == k * occurrences(
            samples,
            value,
        ),
    decreases k,
{
    let len = samples.len();
    if k == 0 {
        assert(0 * len == 0) by (nonlinear_arith);
        assert(0 * occurrences(samples, value) == 0) by (nonlinear_arith);
    } else {
        let before = ((k - 1) * len) as nat;
        assert(before >= 0 && k * len == before + len) by (nonlinear_arith)
            requires
                k >= 1,
                before == (k - 1) * len,
        ;
        lemma_full_cycles(samples, start, (k - 1) as nat, value);
        lemma_window_splits(samples, start, before, len);
        lemma_occurrences_concat(
            cycle_window(samples, start, before),
            cycle_window(samples, start + before, len),
            value,
        );
        lemma_full_cycle(samples, start + before, value);
        assert(k * occurrences(samples, value) == (k - 1) * occurrences(samples, value)
            + occurrences(samples, value)) by (nonlinear_arith)
            requires
                k >= 1,
        ;
    }
}

/// A list of samples with a cursor that walks it in a cycle.
pub struct CyclicSampler<T> {
    samples: Vec<T>,
    index: usize,
}

impl<T> CyclicSampler<T> {
    #[verifier::type_invariant]
    spec fn cursor_in_cycle(&self) -> bool {
        if self.samples@.len() == 0 {
            self.index == 0
        } else {
            self.index < self.samples@.len()
        }
    }

    /// The samples, in the order in which a cycle yields them.
    pub closed spec fn samples(&self) -> Seq<T> {
        self.samples@
    }

    /// The place in `samples` of the next sample to be drawn; 0 when there are none.
    pub closed spec fn cursor(&self) -> nat {
        self.index as nat
    }

    /// The cursor after `n` draws.
    pub open spec fn cursor_after(&self, n: nat) -> nat {
        if self.samples().len() == 0 {
            0
        } else {
            (((self.cursor() + n) as int) % (self.samples().len() as int)) as nat
        }
    }

    /// The next `n` samples.
    pub open spec fn upcoming(&self, n: nat) -> Seq<T> {
        cycle_window(self.samples(), self.cursor(), n)
    }

    /// A sampler over `samples`, about to draw the first of them.
    pub fn new_from_vec(samples: Vec<T>) -> (sampler: Self)
        ensures
            sampler.samples() == samples@,
            sampler.cursor() == 0,
    {
        CyclicSampler { samples, index: 0 }
    }

    /// A sampler without samples.
    pub fn new() -> (sampler: Self)
        ensures
            sampler.samples() == Seq::<T>::empty(),
            sampler.cursor() == 0,
    {
        CyclicSampler { samples: Vec::new(), index: 0 }
    }

    /// Replaces the samples and starts the cycle anew.
    pub fn set_samples(&mut self, samples: Vec<T>)
        ensures
            final(self).samples() == samples@,
            final(self).cursor() == 0,
    {
        *self = CyclicSampler { samples, index: 0 };
    }

    /// The place in the cycle of the next sample to be drawn.
    pub fn position(&self) -> (at: usize)
        ensures
            at == self.cursor(),
    {
        self.index
    }

    /// The number of samples in one cycle.
    pub fn len(&self) -> (n: usize)
        ensures
            n == self.samples().len(),
    {
        self.samples.len()
    }

    /// Whether the sampler has no samples.
    pub fn is_empty(&self) -> (empty: bool)
        ensures
            empty <==> self.samples().len() == 0,
    {
        self.samples.len() == 0
    }
}

impl<T> Default for CyclicSampler<T> {
    fn default() -> (sampler: Self)
        ensures
            sampler.samples() == Seq::<T>::empty(),
            sampler.cursor() == 0,
    {
        CyclicSampler::new()
    }
}

impl<T: Copy> CyclicSampler<T> {
    /// Draws the sample under the cursor and moves the cursor on, back to
    /// the first sample after the last.
    pub fn sample(&mut self) -> (drawn: T)
        requires
            old(self).samples().len() > 0,
        ensures
            drawn == old(self).samples()[old(self).cursor() as int],
            final(self).samples() == old(self).samples(),
            final(self).cursor() == old(self).cursor_after(1),
    {
        proof {
            use_type_invariant(&*self);
        }
        let len = self.samples.len();
        let drawn = self.samples[self.index];
        let next = if self.index + 1 == len {
            0
        } else {
            self.index + 1
        };
        proof {
            if self.index + 1 == len {
                vstd::arithmetic::div_mod::lemma_mod_self_0(len as int);
            } else {
                vstd::arithmetic::div_mod::lemma_small_mod((self.index + 1) as nat, len as nat);
            }
        }
        self.index = next;
        drawn
    }

    /// The samples, in the order in which a cycle yields them.
    pub fn to_vec(&self) -> (samples: Vec<T>)
        ensures
            samples@ == self.samples(),
    {
        let n = self.samples.len();
        let mut samples: Vec<T> = Vec::new();
        let mut i: usize = 0;
        while i < n
            invariant
                i <= n,
                n == self.samples@.len(),
                samples@ == self.samples@.take(i as int),
            decreases n - i,
        {
            samples.push(self.samples[i]);
            i += 1;
            assert(samples@ =~= self.samples@.take(i as int));
        }
        assert(self.samples@.take(n as int) =~= self.samples@);
        samples
    }

    /// Draws one sample for each step from 1 up to, and not including, `n`.
    pub fn sample_n(&mut self, n: usize) -> (drawn: Vec<T>)
        requires
            n > 1 ==> old(self).samples().len() > 0,
        ensures
            final(self).samples() == old(self).samples(),
            n >= 1 ==> drawn@ == old(self).upcoming((n - 1) as nat) && final(self).cursor() == old(
                self,
            ).cursor_after((n - 1) as nat),
            n == 0 ==> drawn@ == Seq::<T>::empty() && final(self).cursor() == old(self).cursor(),
    {
        let mut res: Vec<T> = Vec::new();
        let mut i: usize = 1;
        proof {
            use_type_invariant(&*self);
            if self.samples().len() > 0 {
                vstd::arithmetic::div_mod::lemma_small_mod(
                    self.cursor(),
                    self.samples().len() as nat,
                );
            }
        }
        while i < n
            invariant
                1 <= i,
                i <= n || i == 1,
                n > 1 ==> self.samples().len() > 0,
                self.samples() == old(self).samples(),
                self.cursor() == old(self).cursor_after((i - 1) as nat),
                res@ == old(self).upcoming((i - 1) as nat),
            decreases n - i,
        {
            proof {
                lemma_window_step(old(self).samples(), old(self).cursor(), (i - 1) as nat);
            }
            let s = self.sample();
            res.push(s);
            i += 1;
            assert(res@ =~= old(self).upcoming((i - 1) as nat));
        }
        proof {
            if n == 0 {
                assert(res@ =~= Seq::<T>::empty());
                assert(self.cursor() == old(self).cursor());
            }
        }
        res
    }
}

impl<T: Copy + Eq + Hash> CyclicSampler<T> {
    /// Draws `n` samples and counts how often each value was drawn.
    pub fn freq(&mut self, n: usize) -> (counts: HashMap<T, usize>)
        requires
            obeys_key_model::<T>(),
            n > 0 ==> old(self).samples().len() > 0,
        ensures
            final(self).samples() == old(self).samples(),
            final(self).cursor() == old(self).cursor_after(n as nat),
            forall|value: T|
                counts@.contains_key(value) <==> occurrences(old(self).upcoming(n as nat), value)
                    > 0,
            forall|value: T|
                counts@.contains_key(value) ==> #[trigger] counts@[value] == occurrences(
                    old(self).upcoming(n as nat),
                    value,
                ),
    {
        let mut res: HashMap<T, usize> = HashMap::new();
        let mut i: usize = 0;
        proof {
            use_type_invariant(&*self);
            if self.samples().len() > 0 {
                vstd::arithmetic::div_mod::lemma_small_mod(
                    self.cursor(),
                    self.samples().len() as nat,
                );
            }
        }
        while i < n
            invariant
                obeys_key_model::<T>(),
                i <= n,
                n > 0 ==> self.samples().len() > 0,
                self.samples() == old(self).samples(),
                self.cursor() == old(self).cursor_after(i as nat),
                forall|value: T|
                    res@.contains_key(value) <==> occurrences(
                        old(self).upcoming(i as nat),
                        value,
                    ) > 0,
                forall|value: T|
                    res@.contains_key(value) ==> #[trigger] res@[value] == occurrences(
                        old(self).upcoming(i as nat),
                        value,
                    ),
            decreases n - i,
        {
            let ghost before = old(self).upcoming(i as nat);
            let ghost after = old(self).upcoming((i + 1) as nat);
            proof {
                lemma_window_step(old(self).samples(), old(self).cursor(), i as nat);
            }
            let s = self.sample();
            let seen = match res.get(&s) {
                Some(c) => *c,
                None => 0,
            };
            proof {
                lemma_occurrences_bound(before, s);
                assert(seen == occurrences(before, s));
                assert forall|value: T|
                    occurrences(after, value) == occurrences(before, value) + if s == value {
                        1nat
                    } else {
                        0nat
                    } by {
                    assert(after.drop_last() == before);
                    assert(after.last() == s);
                }
            }
            res.insert(s, seen + 1);
            i += 1;
        }
        res
    }
}

/// The denominator of the `m`-th point of the base-2 Halton sequence:
/// the smallest power of two that is larger than `m`.
pub open spec fn halton_denominator(m: nat) -> nat
    decreases m,
{
    if m == 0 {
        1
    } else {
        2 * halton_denominator(m / 2)
    }
}

/// The numerator of the `m`-th point of the base-2 Halton sequence: `m`
/// with its binary digits in reverse order, so that the point is `m`
/// mirrored at the binary point.
pub open spec fn halton_numerator(m: nat) -> nat
    decreases m,
{
    if m == 0 {
        0
    } else {
        (m % 2) * halton_denominator(m / 2) + halton_numerator(m / 2)
    }
}

/// The last of `y`, `y / 2`, `y / 4`, ... that is smaller than `x`.
pub open spec fn halved_below(x: nat, y: nat) -> nat
    decreases y,
{
    if y > 0 && x <= y {
        halved_below(x, y / 2)
    } else {
        y
    }
}

/// A point of the Halton sequence lies in the unit interval, and its
/// denominator is at most twice its place in the sequence.
pub proof fn lemma_halton_bounds(m: nat)
    ensures
        halton_numerator(m) < halton_denominator(m),
        m >= 1 ==> 2 <= halton_denominator(m) <= 2 * m,
        m >= 1 ==> halton_numerator(m) >= 1,
    decreases m,
{
    if m > 0 {
        lemma_halton_bounds(m / 2);
        let d = halton_denominator(m / 2);
        assert((m % 2) * d <= d) by (nonlinear_arith)
            requires
                m % 2 <= 1,
                d >= 0,
        ;
        if m % 2 == 1 {
            assert((m % 2) * d == d) by (nonlinear_arith)
                requires
                    m % 2 == 1,
            ;
        }
    }
}

/// From one point of the Halton sequence to the next.  With `x` the
/// denominator less the numerator: where `x` is 1, the next point is 1
/// over twice the denominator; else it has the same denominator, and its
/// numerator is three times the last halving of the denominator that is
/// below `x`, less `x`.
pub proof fn lemma_halton_next(m: nat)
    ensures
        halton_denominator(m) - halton_numerator(m) == 1 ==> halton_numerator(m + 1) == 1
            && halton_denominator(m + 1) == 2 * halton_denominator(m),
        halton_denominator(m) - halton_numerator(m) != 1 ==> halton_denominator(m + 1)
            == halton_denominator(m) && halton_numerator(m + 1) + (halton_denominator(m)
            - halton_numerator(m)) == 3 * halved_below(
            (halton_denominator(m) - halton_numerator(m)) as nat,
            halton_denominator(m) / 2,
        ),
    decreases m,
{
    let n = halton_numerator(m);
    let d = halton_denominator(m);
    lemma_halton_bounds(m);
    if m == 0 {
        reveal_with_fuel(halton_numerator, 2);
        reveal_with_fuel(halton_denominator, 2);
        assert(1nat / 2 == 0);
        assert(halton_denominator(1) == 2);
        assert(halton_numerator(1) == 1);
    } else {
        let q = m / 2;
        let dq = halton_denominator(q);
        let nq = halton_numerator(q);
        lemma_halton_bounds(q);
        if m % 2 == 0 {
            assert((m + 1) / 2 == q && (m + 1) % 2 == 1);
            assert((m % 2) * dq == 0) by (nonlinear_arith)
                requires
                    m % 2 == 0,
            ;
            assert(((m + 1) % 2) * dq == dq) by (nonlinear_arith)
                requires
                    (m + 1) % 2 == 1,
            ;
            assert(n == nq && d == 2 * dq);
            assert(halton_numerator(m + 1) == dq + nq);
            let x = (d - n) as nat;
            assert(x > dq);
            assert(d / 2 == dq);
            assert(halved_below(x, dq) == dq);
        } else {
            assert((m + 1) / 2 == q + 1 && (m + 1) % 2 == 0);
            assert((m % 2) * dq == dq) by (nonlinear_arith)
                requires
                    m % 2 == 1,
            ;
            let dq1 = halton_denominator(q + 1);
            assert(((m + 1) % 2) * dq1 == 0) by (nonlinear_arith)
                requires
                    (m + 1) % 2 == 0,
            ;
            assert(n == dq + nq && d == 2 * dq);
            assert(halton_numerator(m + 1) == halton_numerator(q + 1));
            assert(halton_denominator(m + 1) == 2 * dq1);
            lemma_halton_next(q);
            let x = (dq - nq) as nat;
            assert(d - n == x);
            if x != 1 {
                assert(d / 2 == dq);
                assert(x <= dq && dq > 0);
                assert(halved_below(x, dq) == halved_below(x, dq / 2));
            }
        }
    }
}

/// The first `len` points of the base-2 Halton sequence, each as its
/// numerator and its denominator: 1/2, 1/4, 3/4, 1/8, 5/8, 3/8, 7/8, ...
pub fn halton_sequence(len: usize) -> (points: Vec<(u64, u64)>)
    requires
        len <= u64::MAX / 2,
    ensures
        points@.len() == len,
        forall|i: int|
            0 <= i < len ==> (#[trigger] points@[i]).0 == halton_numerator((i + 1) as nat)
                && points@[i].1 == halton_denominator((i + 1) as nat),
{
    let mut n: u64 = 0;
    let mut d: u64 = 1;
    let mut res: Vec<(u64, u64)> = Vec::new();
    let mut i: usize = 0;
    while i < len
        invariant
            i <= len,
            len <= u64::MAX / 2,
            n == halton_numerator(i as nat),
            d == halton_denominator(i as nat),
            res@.len() == i,
            forall|k: int|
                0 <= k < i ==> (#[trigger] res@[k]).0 == halton_numerator((k + 1) as nat)
                    && res@[k].1 == halton_denominator((k + 1) as nat),
        decreases len - i,
    {
        proof {
            lemma_halton_bounds(i as nat);
            lemma_halton_bounds((i + 1) as nat);
            lemma_halton_next(i as nat);
        }
        let x = d - n;
        if x == 1 {
            n = 1;
            d = d * 2;
        } else {
            let mut y = d / 2;
            while x <= y
                invariant
                    x >= 1,
                    halved_below(x as nat, y as nat) == halved_below(x as nat, (d / 2) as nat),
                decreases y,
            {
                y = y / 2;
            }
            proof {
                assert(halved_below(x as nat, y as nat) == y);
            }
            n = ((3 * (y as u128)) - (x as u128)) as u64;
        }
        res.push((n, d));
        i += 1;
    }
    res
}

} // verus!
