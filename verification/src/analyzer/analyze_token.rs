//! The statistics of one token, read off its timeline.
//!
//! Entry `k` of a timeline says that the token entered a queue at a time,
//! under a stamp.  It stayed there until the time of entry `k + 1`.  Times
//! are time bins; only the bins before the horizon count.

use crate::analyzer::token_stats::{can_hold, grid_cells, tally_cells, StatsView, TokenStats};
use crate::engine::tokens::{in_order, Token};
use crate::parser::codes::{row_count, row_of, row_pairs};
use crate::parser::yaml_parser::LogingConfig;
use vstd::prelude::*;

verus! {

/// The row of statistics of a stamp, if it has one among the first `count` rows.
pub open spec fn known_row(rows: Map<u16, usize>, count: nat, stamp: u16) -> Option<int> {
    if rows.contains_key(stamp) && rows[stamp] < count {
        Some(rows[stamp] as int)
    } else {
        None
    }
}

/// A time, or the horizon where the time lies beyond it.
pub open spec fn clipped(time: u64, horizon: nat) -> nat {
    if time <= horizon {
        time as nat
    } else {
        horizon
    }
}

/// The number of bins before the horizon that the token stayed after
/// entry `k`: from the time of the entry to the time of the next one.
/// The last entry has no stay.
pub open spec fn stay(timeline: Seq<(u64, u16)>, horizon: nat, k: int) -> nat {
    if k + 1 < timeline.len() && timeline[k].0 < clipped(timeline[k + 1].0, horizon) {
        (clipped(timeline[k + 1].0, horizon) - timeline[k].0) as nat
    } else {
        0
    }
}

/// The time spent at row `row`, by the first `n` entries.
pub open spec fn lifetime_of(
    timeline: Seq<(u64, u16)>,
    rows: Map<u16, usize>,
    count: nat,
    horizon: nat,
    row: int,
    n: nat,
) -> nat
    decreases n,
{
    if n == 0 {
        0
    } else {
        lifetime_of(timeline, rows, count, horizon, row, (n - 1) as nat) + if known_row(
            rows,
            count,
            timeline[n - 1].1,
        ) == Some(row) {
            stay(timeline, horizon, n - 1)
        } else {
            0
        }
    }
}

/// The number of the first `n` entries that are at row `row` in bin `bin`.
pub open spec fn entries_at(
    timeline: Seq<(u64, u16)>,
    rows: Map<u16, usize>,
    count: nat,
    row: int,
    bin: int,
    n: nat,
) -> nat
    decreases n,
{
    if n == 0 {
        0
    } else {
        entries_at(timeline, rows, count, row, bin, (n - 1) as nat) + if known_row(
            rows,
            count,
            timeline[n - 1].1,
        ) == Some(row) && timeline[n - 1].0 == bin {
            1nat
        } else {
            0nat
        }
    }
}

/// The number of the first `n` entries whose stay, at row `row`, covers bin `bin`.
pub open spec fn presence_at(
    timeline: Seq<(u64, u16)>,
    rows: Map<u16, usize>,
    count: nat,
    horizon: nat,
    row: int,
    bin: int,
    n: nat,
) -> nat
    decreases n,
{
    if n == 0 {
        0
    } else {
        presence_at(timeline, rows, count, horizon, row, bin, (n - 1) as nat) + if known_row(
            rows,
            count,
            timeline[n - 1].1,
        ) == Some(row) && timeline[n - 1].0 <= bin < timeline[n - 1].0 + stay(
            timeline,
            horizon,
            n - 1,
        ) {
            1nat
        } else {
            0nat
        }
    }
}

/// The statistics of a token with timeline `timeline`, for `count` rows
/// and `horizon` time bins: per row, the time spent there and its square;
/// per row and bin, the entries and the presence.
pub open spec fn token_stats(
    timeline: Seq<(u64, u16)>,
    rows: Map<u16, usize>,
    count: nat,
    horizon: nat,
) -> StatsView {
    StatsView {
        lifetimes: Seq::new(
            count,
            |r: int| lifetime_of(timeline, rows, count, horizon, r, timeline.len()),
        ),
        lifetimes_sq: Seq::new(
            count,
            |r: int|
                lifetime_of(timeline, rows, count, horizon, r, timeline.len()) * lifetime_of(
                    timeline,
                    rows,
                    count,
                    horizon,
                    r,
                    timeline.len(),
                ),
        ),
        reentrances: Seq::new(
            count,
            |r: int|
                Seq::new(
                    horizon,
                    |b: int| entries_at(timeline, rows, count, r, b, timeline.len()),
                ),
        ),
        occupancies: Seq::new(
            count,
            |r: int|
                Seq::new(
                    horizon,
                    |b: int| presence_at(timeline, rows, count, horizon, r, b, timeline.len()),
                ),
        ),
    }
}

/// Along a timeline in order, the time spent anywhere by the first `n`
/// entries is not more than the time of entry `n`, nor than the horizon.
pub proof fn lemma_lifetime_bound(
    timeline: Seq<(u64, u16)>,
    rows: Map<u16, usize>,
    count: nat,
    horizon: nat,
    row: int,
    n: nat,
)
    requires
        in_order(timeline),
        n <= timeline.len(),
    ensures
        lifetime_of(timeline, rows, count, horizon, row, n) <= horizon,
        n < timeline.len() ==> lifetime_of(timeline, rows, count, horizon, row, n) <= clipped(
            timeline[n as int].0,
            horizon,
        ),
    decreases n,
{
    if n > 0 {
        lemma_lifetime_bound(timeline, rows, count, horizon, row, (n - 1) as nat);
        if n < timeline.len() {
            assert(timeline[n - 1].0 <= timeline[n as int].0);
        }
    }
}

/// No more of the first `n` entries are at a row in a bin, or cover it, than `n`.
pub proof fn lemma_counts_bound(
    timeline: Seq<(u64, u16)>,
    rows: Map<u16, usize>,
    count: nat,
    horizon: nat,
    row: int,
    bin: int,
    n: nat,
)
    ensures
        entries_at(timeline, rows, count, row, bin, n) <= n,
        presence_at(timeline, rows, count, horizon, row, bin, n) <= n,
    decreases n,
{
    if n > 0 {
        lemma_counts_bound(timeline, rows, count, horizon, row, bin, (n - 1) as nat);
    }
}

/// A token whose timeline has one entry has one entry in the statistics,
/// at the row of its stamp in the bin of its time, and no time spent and no
/// presence anywhere.
pub proof fn lemma_single_entry(
    timeline: Seq<(u64, u16)>,
    rows: Map<u16, usize>,
    count: nat,
    horizon: nat,
    row: int,
    bin: int,
)
    requires
        timeline.len() == 1,
        0 <= row < count,
        0 <= bin < horizon,
    ensures
        token_stats(timeline, rows, count, horizon).lifetimes[row] == 0,
        token_stats(timeline, rows, count, horizon).lifetimes_sq[row] == 0,
        token_stats(timeline, rows, count, horizon).occupancies[row][bin] == 0,
        token_stats(timeline, rows, count, horizon).reentrances[row][bin] == (if known_row(
            rows,
            count,
            timeline[0].1,
        ) == Some(row) && timeline[0].0 == bin {
            1nat
        } else {
            0nat
        }),
{
    reveal_with_fuel(lifetime_of, 2);
    reveal_with_fuel(entries_at, 2);
    reveal_with_fuel(presence_at, 2);
    let spent = lifetime_of(timeline, rows, count, horizon, row, 1);
    assert(spent * spent == 0) by (nonlinear_arith)
        requires
            spent == 0,
    ;
}

/// The statistics of `token` for the rows of `loging_config` and
/// `max_time` time bins.
pub fn analyze_single_token(token: &Token, loging_config: &LogingConfig, max_time: usize) -> (stats:
    TokenStats)
    requires
        in_order(token@.timeline),
        can_hold(row_pairs(loging_config.actors_indices).dom().len() as usize, max_time),
        row_pairs(loging_config.actors_indices).dom().len() <= usize::MAX,
    ensures
        stats@ == token_stats(
            token@.timeline,
            row_pairs(loging_config.actors_indices),
            row_pairs(loging_config.actors_indices).dom().len(),
            max_time as nat,
        ),
        stats.shaped(row_pairs(loging_config.actors_indices).dom().len(), max_time as nat),
{
    let process_count = row_count(&loging_config.actors_indices);
    let ghost timeline = token@.timeline;
    let ghost rows = row_pairs(loging_config.actors_indices);
    let ghost count = process_count as nat;
    let ghost horizon = max_time as nat;
    let mut stats = TokenStats::zeros(process_count, max_time);
    proof {
        assert forall|r: int| 0 <= r < count implies (#[trigger] tally_cells(
            stats.lifetimes,
        )[r]) == 0 by {
            assert(stats@.lifetimes[r] == 0);
        }
        assert forall|r: int, b: int| 0 <= r < count && 0 <= b < horizon implies (
        #[trigger] grid_cells(stats.reentrances)[r][b]) == 0 by {
            assert(stats@.reentrances[r][b] == 0);
        }
        assert forall|r: int, b: int| 0 <= r < count && 0 <= b < horizon implies (
        #[trigger] grid_cells(stats.occupancies)[r][b]) == 0 by {
            assert(stats@.occupancies[r][b] == 0);
        }
    }
    let n = token.timeline.len();
    let mut k: usize = 0;
    while k < n
        invariant
            k <= n,
            n == timeline.len(),
            timeline == token@.timeline,
            timeline == token.timeline@,
            in_order(timeline),
            rows == row_pairs(loging_config.actors_indices),
            count == process_count,
            horizon == max_time,
            max_time <= isize::MAX,
            stats.shaped(count, horizon),
            forall|r: int|
                0 <= r < count ==> (#[trigger] tally_cells(stats.lifetimes)[r]) == lifetime_of(
                    timeline,
                    rows,
                    count,
                    horizon,
                    r,
                    k as nat,
                ),
            forall|r: int, b: int|
                0 <= r < count && 0 <= b < horizon ==> (#[trigger] grid_cells(
                    stats.reentrances,
                )[r][b]) == entries_at(timeline, rows, count, r, b, k as nat),
            forall|r: int, b: int|
                0 <= r < count && 0 <= b < horizon ==> (#[trigger] grid_cells(
                    stats.occupancies,
                )[r][b]) == presence_at(timeline, rows, count, horizon, r, b, k as nat),
        decreases n - k,
    {
        let (time, stamp) = token.timeline[k];
        let ghost before_entries = grid_cells(stats.reentrances);
        let ghost before_presence = grid_cells(stats.occupancies);
        let ghost before_spent = tally_cells(stats.lifetimes);
        match row_of(&loging_config.actors_indices, stamp) {
            Some(row) => {
                if row < process_count {
                    if time < max_time as u64 {
                        let bin = time as usize;
                        proof {
                            lemma_counts_bound(
                                timeline,
                                rows,
                                count,
                                horizon,
                                row as int,
                                bin as int,
                                k as nat,
                            );
                        }
                        let seen = stats.reentrances.get(row, bin);
                        stats.reentrances.set(row, bin, seen + 1);
                    }
                    if k + 1 < n {
                        let next = token.timeline[k + 1].0;
                        let end = if next <= max_time as u64 {
                            next
                        } else {
                            max_time as u64
                        };
                        if time < end {
                            proof {
                                lemma_lifetime_bound(
                                    timeline,
                                    rows,
                                    count,
                                    horizon,
                                    row as int,
                                    k as nat,
                                );
                                assert forall|c: int| time <= c < end implies grid_cells(
                                    stats.occupancies,
                                )[row as int][c] + 1 <= u128::MAX by {
                                    lemma_counts_bound(
                                        timeline,
                                        rows,
                                        count,
                                        horizon,
                                        row as int,
                                        c,
                                        k as nat,
                                    );
                                }
                            }
                            let spent = stats.lifetimes.get(row);
                            stats.lifetimes.set(row, spent + (end - time) as u128);
                            stats.occupancies.add_to_range(row, time as usize, end as usize, 1);
                        }
                    }
                }
            },
            None => {},
        }
        k += 1;
        proof {
            assert forall|r: int| 0 <= r < count implies (#[trigger] tally_cells(
                stats.lifetimes,
            )[r]) == lifetime_of(timeline, rows, count, horizon, r, k as nat) by {
                assert(before_spent[r] == lifetime_of(
                    timeline,
                    rows,
                    count,
                    horizon,
                    r,
                    (k - 1) as nat,
                ));
            }
            assert forall|r: int, b: int| 0 <= r < count && 0 <= b < horizon implies (
            #[trigger] grid_cells(stats.reentrances)[r][b]) == entries_at(
                timeline,
                rows,
                count,
                r,
                b,
                k as nat,
            ) by {
                assert(before_entries[r][b] == entries_at(
                    timeline,
                    rows,
                    count,
                    r,
                    b,
                    (k - 1) as nat,
                ));
            }
            assert forall|r: int, b: int| 0 <= r < count && 0 <= b < horizon implies (
            #[trigger] grid_cells(stats.occupancies)[r][b]) == presence_at(
                timeline,
                rows,
                count,
                horizon,
                r,
                b,
                k as nat,
            ) by {
                assert(before_presence[r][b] == presence_at(
                    timeline,
                    rows,
                    count,
                    horizon,
                    r,
                    b,
                    (k - 1) as nat,
                ));
            }
        }
    }
    let mut r: usize = 0;
    while r < process_count
        invariant
            r <= process_count,
            n == timeline.len(),
            in_order(timeline),
            count == process_count,
            horizon == max_time,
            stats.shaped(count, horizon),
            forall|x: int|
                0 <= x < count ==> (#[trigger] tally_cells(stats.lifetimes)[x]) == lifetime_of(
                    timeline,
                    rows,
                    count,
                    horizon,
                    x,
                    n as nat,
                ),
            forall|x: int|
                0 <= x < r ==> (#[trigger] tally_cells(stats.lifetimes_sq)[x]) == lifetime_of(
                    timeline,
                    rows,
                    count,
                    horizon,
                    x,
                    n as nat,
                ) * lifetime_of(timeline, rows, count, horizon, x, n as nat),
            forall|x: int, b: int|
                0 <= x < count && 0 <= b < horizon ==> (#[trigger] grid_cells(
                    stats.reentrances,
                )[x][b]) == entries_at(timeline, rows, count, x, b, n as nat),
            forall|x: int, b: int|
                0 <= x < count && 0 <= b < horizon ==> (#[trigger] grid_cells(
                    stats.occupancies,
                )[x][b]) == presence_at(timeline, rows, count, horizon, x, b, n as nat),
        decreases process_count - r,
    {
        let spent = stats.lifetimes.get(r);
        proof {
            lemma_lifetime_bound(timeline, rows, count, horizon, r as int, n as nat);
            assert(spent * spent <= 0xffff_ffff_ffff_ffff * 0xffff_ffff_ffff_ffff)
                by (nonlinear_arith)
                requires
                    0 <= spent <= 0xffff_ffff_ffff_ffff,
            ;
        }
        stats.lifetimes_sq.set(r, spent * spent);
        r += 1;
    }
    proof {
        let want = token_stats(timeline, rows, count, horizon);
        assert(stats@.lifetimes =~= want.lifetimes);
        assert(stats@.lifetimes_sq =~= want.lifetimes_sq);
        assert forall|x: int| 0 <= x < count implies stats@.reentrances[x]
            == want.reentrances[x] by {
            assert(stats@.reentrances[x] =~= want.reentrances[x]);
        }
        assert(stats@.reentrances =~= want.reentrances);
        assert forall|x: int| 0 <= x < count implies stats@.occupancies[x]
            == want.occupancies[x] by {
            assert(stats@.occupancies[x] =~= want.occupancies[x]);
        }
        assert(stats@.occupancies =~= want.occupancies);
    }
    stats
}

} // verus!
