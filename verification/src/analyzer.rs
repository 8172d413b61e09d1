//! The analyzer: it folds the timelines of tokens into statistics per
//! logged pair of actor and product.

pub mod analyze_token;
pub mod token_stats;

use crate::analyzer::analyze_token::{
    analyze_single_token, lemma_counts_bound, lemma_lifetime_bound, token_stats,
};
use crate::analyzer::token_stats::{
    can_hold, lemma_plus_associative, lemma_plus_commutative, lemma_plus_zeros, StatsView,
    TokenStats,
};
use crate::engine::tokens::{batch_view, in_order, Token, TokenView};
use crate::parser::codes::{row_count, row_pairs};
use crate::parser::yaml_parser::LogingConfig;
use vstd::prelude::*;

verus! {

/// The sum of the statistics of the first `n` tokens.
pub open spec fn folded(
    tokens: Seq<TokenView>,
    rows: Map<u16, usize>,
    count: nat,
    horizon: nat,
    n: nat,
) -> StatsView
    decreases n,
{
    if n == 0 {
        StatsView::zeros(count, horizon)
    } else {
        folded(tokens, rows, count, horizon, (n - 1) as nat).plus(
            token_stats(tokens[n - 1].timeline, rows, count, horizon),
        )
    }
}

/// The statistics of a token have the shape they were asked for.
pub proof fn lemma_token_stats_shaped(
    timeline: Seq<(u64, u16)>,
    rows: Map<u16, usize>,
    count: nat,
    horizon: nat,
)
    ensures
        token_stats(timeline, rows, count, horizon).shaped(count, horizon),
{
}

/// The sum of the statistics of tokens has the shape it was asked for.
pub proof fn lemma_folded_shaped(
    tokens: Seq<TokenView>,
    rows: Map<u16, usize>,
    count: nat,
    horizon: nat,
    n: nat,
)
    ensures
        folded(tokens, rows, count, horizon, n).shaped(count, horizon),
    decreases n,
{
    if n > 0 {
        lemma_folded_shaped(tokens, rows, count, horizon, (n - 1) as nat);
        lemma_token_stats_shaped(tokens[n - 1].timeline, rows, count, horizon);
    }
}

/// The fold is a reduction: folding two batches one after the other gives
/// the sum of what folding each gives.  With associativity, any way of
/// splitting the tokens among workers and adding up gives the same total.
pub proof fn lemma_fold_splits(
    first: Seq<TokenView>,
    second: Seq<TokenView>,
    rows: Map<u16, usize>,
    count: nat,
    horizon: nat,
)
    ensures
        folded(first + second, rows, count, horizon, (first + second).len()) == folded(
            first,
            rows,
            count,
            horizon,
            first.len(),
        ).plus(folded(second, rows, count, horizon, second.len())),
    decreases second.len(),
{
    let all = first + second;
    lemma_folded_shaped(first, rows, count, horizon, first.len());
    if second.len() == 0 {
        assert(all =~= first);
        lemma_plus_zeros(folded(first, rows, count, horizon, first.len()), count, horizon);
    } else {
        let front = second.drop_last();
        lemma_fold_splits(first, front, rows, count, horizon);
        assert(first + front =~= all.drop_last());
        lemma_fold_prefix(all, all.drop_last(), rows, count, horizon, (all.len() - 1) as nat);
        lemma_fold_prefix(second, front, rows, count, horizon, front.len());
        lemma_folded_shaped(front, rows, count, horizon, front.len());
        lemma_token_stats_shaped(second.last().timeline, rows, count, horizon);
        lemma_plus_associative(
            folded(first, rows, count, horizon, first.len()),
            folded(front, rows, count, horizon, front.len()),
            token_stats(second.last().timeline, rows, count, horizon),
            count,
            horizon,
        );
        assert(all[all.len() - 1] == second.last());
    }
}

/// The fold of the first `n` tokens looks at no other token.
pub proof fn lemma_fold_prefix(
    tokens: Seq<TokenView>,
    others: Seq<TokenView>,
    rows: Map<u16, usize>,
    count: nat,
    horizon: nat,
    n: nat,
)
    requires
        n <= tokens.len(),
        n <= others.len(),
        forall|i: int| 0 <= i < n ==> tokens[i] == others[i],
    ensures
        folded(tokens, rows, count, horizon, n) == folded(others, rows, count, horizon, n),
    decreases n,
{
    if n > 0 {
        lemma_fold_prefix(tokens, others, rows, count, horizon, (n - 1) as nat);
    }
}

/// The sum of the statistics of tokens is that of the tokens without one
/// of them, plus the statistics of that one.
pub proof fn lemma_fold_without(
    tokens: Seq<TokenView>,
    j: int,
    rows: Map<u16, usize>,
    count: nat,
    horizon: nat,
)
    requires
        0 <= j < tokens.len(),
    ensures
        folded(tokens, rows, count, horizon, tokens.len()) == folded(
            tokens.remove(j),
            rows,
            count,
            horizon,
            tokens.remove(j).len(),
        ).plus(token_stats(tokens[j].timeline, rows, count, horizon)),
{
    let head = tokens.subrange(0, j);
    let one = head.push(tokens[j]);
    let tail = tokens.subrange(j + 1, tokens.len() as int);
    let of_one = token_stats(tokens[j].timeline, rows, count, horizon);
    let of_head = folded(head, rows, count, horizon, head.len());
    let of_tail = folded(tail, rows, count, horizon, tail.len());
    assert(tokens =~= one + tail);
    assert(tokens.remove(j) =~= head + tail);
    lemma_fold_splits(one, tail, rows, count, horizon);
    lemma_fold_splits(head, tail, rows, count, horizon);
    lemma_fold_prefix(one, head, rows, count, horizon, head.len());
    assert(folded(one, rows, count, horizon, one.len()) == of_head.plus(of_one));
    lemma_folded_shaped(head, rows, count, horizon, head.len());
    lemma_folded_shaped(tail, rows, count, horizon, tail.len());
    lemma_token_stats_shaped(tokens[j].timeline, rows, count, horizon);
    lemma_plus_associative(of_head, of_one, of_tail, count, horizon);
    lemma_plus_commutative(of_one, of_tail, count, horizon);
    lemma_plus_associative(of_head, of_tail, of_one, count, horizon);
}

/// The sum of the statistics of tokens does not depend on their order:
/// the same tokens in any order give the same sum.
pub proof fn lemma_fold_any_order(
    tokens: Seq<TokenView>,
    others: Seq<TokenView>,
    rows: Map<u16, usize>,
    count: nat,
    horizon: nat,
)
    requires
        tokens.to_multiset() == others.to_multiset(),
    ensures
        folded(tokens, rows, count, horizon, tokens.len()) == folded(
            others,
            rows,
            count,
            horizon,
            others.len(),
        ),
    decreases tokens.len(),
{
    tokens.to_multiset_ensures();
    others.to_multiset_ensures();
    if tokens.len() > 0 {
        let last = tokens.last();
        let front = tokens.drop_last();
        front.to_multiset_ensures();
        assert(tokens =~= front.push(last));
        assert(tokens.to_multiset() =~= front.to_multiset().insert(last));
        assert(others.to_multiset().count(last) > 0);
        assert(others.contains(last));
        let j = choose|j: int| 0 <= j < others.len() && others[j] == last;
        let rest = others.remove(j);
        assert(rest.to_multiset() =~= others.to_multiset().remove(last));
        assert(front.to_multiset() =~= rest.to_multiset());
        lemma_fold_any_order(front, rest, rows, count, horizon);
        lemma_fold_without(others, j, rows, count, horizon);
        lemma_fold_prefix(tokens, front, rows, count, horizon, front.len());
    }
}

/// No number of the statistics is more than `bound`.
pub open spec fn bounded(stats: StatsView, bound: nat) -> bool {
    &&& forall|r: int| 0 <= r < stats.lifetimes.len() ==> (#[trigger] stats.lifetimes[r]) <= bound
    &&& forall|r: int|
        0 <= r < stats.lifetimes_sq.len() ==> (#[trigger] stats.lifetimes_sq[r]) <= bound
    &&& forall|r: int, c: int|
        0 <= r < stats.reentrances.len() && 0 <= c < stats.reentrances[r].len() ==> (
        #[trigger] stats.reentrances[r][c]) <= bound
    &&& forall|r: int, c: int|
        0 <= r < stats.occupancies.len() && 0 <= c < stats.occupancies[r].len() ==> (
        #[trigger] stats.occupancies[r][c]) <= bound
}

/// The statistics of a token with a timeline in order, of a length that
/// fits `usize`, for a horizon that fits `u32`, hold no number beyond `u64`.
pub proof fn lemma_token_stats_bounded(
    timeline: Seq<(u64, u16)>,
    rows: Map<u16, usize>,
    count: nat,
    horizon: nat,
)
    requires
        in_order(timeline),
        timeline.len() <= usize::MAX,
        horizon <= u32::MAX,
    ensures
        token_stats(timeline, rows, count, horizon).shaped(count, horizon),
        bounded(token_stats(timeline, rows, count, horizon), 0xffff_ffff_ffff_ffff),
{
    let stats = token_stats(timeline, rows, count, horizon);
    assert forall|r: int| 0 <= r < stats.lifetimes.len() implies (#[trigger] stats.lifetimes[r])
        <= 0xffff_ffff_ffff_ffff by {
        lemma_lifetime_bound(timeline, rows, count, horizon, r, timeline.len());
    }
    assert forall|r: int| 0 <= r < stats.lifetimes_sq.len() implies (
    #[trigger] stats.lifetimes_sq[r]) <= 0xffff_ffff_ffff_ffff by {
        lemma_lifetime_bound(timeline, rows, count, horizon, r, timeline.len());
        let spent = stats.lifetimes[r];
        assert(spent * spent <= 0xffff_ffff * 0xffff_ffff) by (nonlinear_arith)
            requires
                0 <= spent <= 0xffff_ffff,
        ;
    }
    assert forall|r: int, c: int|
        0 <= r < stats.reentrances.len() && 0 <= c < stats.reentrances[r].len() implies (
    #[trigger] stats.reentrances[r][c]) <= 0xffff_ffff_ffff_ffff by {
        lemma_counts_bound(timeline, rows, count, horizon, r, c, timeline.len());
    }
    assert forall|r: int, c: int|
        0 <= r < stats.occupancies.len() && 0 <= c < stats.occupancies[r].len() implies (
    #[trigger] stats.occupancies[r][c]) <= 0xffff_ffff_ffff_ffff by {
        lemma_counts_bound(timeline, rows, count, horizon, r, c, timeline.len());
    }
}

/// Whether the statistics for the rows of `loging_config` and `max_time`
/// time bins can be made and folded: `max_time` fits `u32`, and the
/// statistics can be held in memory.
pub fn statistics_fit(max_time: usize, loging_config: &LogingConfig) -> (yes: bool)
    ensures
        yes == (max_time <= u32::MAX && can_hold(
            row_pairs(loging_config.actors_indices).dom().len() as usize,
            max_time,
        ) && row_pairs(loging_config.actors_indices).dom().len() <= usize::MAX),
{
    let process_count = row_count(&loging_config.actors_indices);
    let limit = isize::MAX as usize;
    if max_time > 0xffff_ffff {
        return false;
    }
    if process_count > limit / 16 || max_time > limit {
        return false;
    }
    let size = match process_count.checked_mul(max_time) {
        Some(size) => size,
        None => {
            return false;
        },
    };
    size <= limit / 16
}

/// The sum of the statistics of the tokens, for the rows of
/// `loging_config` and `max_time` time bins.  There is none where
/// `max_time` does not fit `u32` or the statistics cannot be held in memory.
pub fn analyze_timeline(tokens: &Vec<Token>, max_time: usize, loging_config: &LogingConfig) -> (total:
    Option<TokenStats>)
    requires
        forall|i: int| 0 <= i < tokens@.len() ==> in_order((#[trigger] tokens@[i])@.timeline),
    ensures
        total is Some <==> max_time <= u32::MAX && can_hold(
            row_pairs(loging_config.actors_indices).dom().len() as usize,
            max_time,
        ) && row_pairs(loging_config.actors_indices).dom().len() <= usize::MAX,
        total matches Some(stats) ==> stats@ == folded(
            batch_view(tokens@),
            row_pairs(loging_config.actors_indices),
            row_pairs(loging_config.actors_indices).dom().len(),
            max_time as nat,
            tokens@.len(),
        ) && stats.shaped(row_pairs(loging_config.actors_indices).dom().len(), max_time as nat),
{
    if !statistics_fit(max_time, loging_config) {
        return None;
    }
    let process_count = row_count(&loging_config.actors_indices);
    let ghost rows = row_pairs(loging_config.actors_indices);
    let ghost count = process_count as nat;
    let ghost horizon = max_time as nat;
    let ghost views = batch_view(tokens@);
    let mut total = TokenStats::zeros(process_count, max_time);
    let n = tokens.len();
    let mut i: usize = 0;
    while i < n
        invariant
            i <= n,
            n == tokens@.len(),
            views == batch_view(tokens@),
            rows == row_pairs(loging_config.actors_indices),
            count == rows.dom().len(),
            count == process_count,
            horizon == max_time,
            max_time <= u32::MAX,
            can_hold(process_count, max_time),
            forall|x: int| 0 <= x < tokens@.len() ==> in_order((#[trigger] tokens@[x])@.timeline),
            total.shaped(count, horizon),
            total@ == folded(views, rows, count, horizon, i as nat),
            bounded(total@, (i * 0xffff_ffff_ffff_ffff) as nat),
        decreases n - i,
    {
        let token = &tokens[i];
        let stats = analyze_single_token(token, loging_config, max_time);
        proof {
            assert(views[i as int] == tokens@[i as int]@);
            assert(token.timeline.len() == token@.timeline.len());
            lemma_token_stats_bounded(token@.timeline, rows, count, horizon);
            assert(i * 0xffff_ffff_ffff_ffff + 0xffff_ffff_ffff_ffff <= 0xffff_ffff_ffff_ffff
                * 0xffff_ffff_ffff_ffff) by (nonlinear_arith)
                requires
                    0 <= i < 0xffff_ffff_ffff_ffff,
            ;
            assert((i + 1) * 0xffff_ffff_ffff_ffff == i * 0xffff_ffff_ffff_ffff
                + 0xffff_ffff_ffff_ffff) by (nonlinear_arith);
            assert(total@.can_add(stats@));
        }
        total = total.accumulate(stats);
        i += 1;
    }
    Some(total)
}

} // verus!
