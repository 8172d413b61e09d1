//! The broadcast: it splits what it receives among its clients in the
//! ratio of their quantities, along a rolling sequence that spreads each
//! client's turns as evenly as the ratios allow.

use crate::engine::actors::Actor;
use crate::engine::fifo::Fifo;
use crate::engine::scheduler::{
    enqueued, in_flight, lemma_due_by_bound, lemma_enqueued_all, lemma_enqueued_ordered,
    lemma_in_flight_enqueued, ordered_from, Destination, JobView, Scheduler, Task, TaskView,
};
use crate::engine::tokens::{batch_view, Token, TokenView};
use crate::utils::distributions::{
    cycle_window, lemma_draws_chain, lemma_full_cycles, lemma_occurrences_bound, occurrences,
    CyclicSampler,
};
use crate::utils::sums::{lemma_sum_drop_first, sum_of};
use vstd::prelude::*;

verus! {

/// A client of a broadcast: the actor's code, its share weight and its
/// place in the network.
#[derive(Debug, Clone, Copy, PartialEq, Eq)]
pub struct Client {
    pub code: u16,
    pub quantity: u32,
    pub actor: usize,
}

/// The sum of the clients' quantities.
pub open spec fn weight_sum(clients: Seq<Client>) -> nat
    decreases clients.len(),
{
    if clients.len() == 0 {
        0
    } else {
        weight_sum(clients.drop_last()) + clients.last().quantity as nat
    }
}

/// No two clients have the same code.
pub open spec fn distinct_codes(clients: Seq<Client>) -> bool {
    forall|i: int, j: int|
        0 <= i < j < clients.len() ==> (#[trigger] clients[i]).code != (#[trigger] clients[j]).code
}

/// Some client has code `code`.
pub open spec fn has_code(clients: Seq<Client>, code: u16) -> bool {
    exists|i: int| 0 <= i < clients.len() && (#[trigger] clients[i]).code == code
}

/// The place of a client with code `code`.
pub open spec fn place_of(clients: Seq<Client>, code: u16) -> int {
    choose|i: int| 0 <= i < clients.len() && (#[trigger] clients[i]).code == code
}

/// The clients after `client` was registered: it takes the place of the
/// client with its code, or comes last if there is none.
pub open spec fn upserted(clients: Seq<Client>, client: Client) -> Seq<Client> {
    if has_code(clients, client.code) {
        clients.update(place_of(clients, client.code), client)
    } else {
        clients.push(client)
    }
}

/// Every client after a registration is the client registered or was a client before.
pub proof fn lemma_upserted_members(clients: Seq<Client>, client: Client)
    ensures
        forall|x: int|
            0 <= x < upserted(clients, client).len() ==> (#[trigger] upserted(clients, client)[x])
                == client || exists|y: int|
                0 <= y < clients.len() && clients[y] == upserted(clients, client)[x],
{
    let after = upserted(clients, client);
    assert forall|x: int| 0 <= x < after.len() implies (#[trigger] after[x]) == client || exists|
        y: int,
    |
        0 <= y < clients.len() && clients[y] == after[x] by {
        if after[x] != client {
            if has_code(clients, client.code) {
                assert(clients[x] == after[x]);
            } else {
                assert(clients[x] == after[x]);
            }
        }
    }
}

/// How much client `i` deserves the next turn when the turns in `chosen`
/// have been given: its quantity times the number of turns given (1 where
/// none was), less the total quantity times the turns it had.
pub open spec fn score(clients: Seq<Client>, chosen: Seq<u16>, i: int) -> int {
    clients[i].quantity * (if chosen.len() == 0 {
        1int
    } else {
        chosen.len() as int
    }) - weight_sum(clients) * occurrences(chosen, clients[i].code)
}

/// Client `i` has the highest score, and is the first to have it.
pub open spec fn is_choice(clients: Seq<Client>, chosen: Seq<u16>, i: int) -> bool {
    &&& 0 <= i < clients.len()
    &&& forall|k: int| 0 <= k < i ==> score(clients, chosen, k) < score(clients, chosen, i)
    &&& forall|k: int|
        i <= k < clients.len() ==> score(clients, chosen, k) <= score(clients, chosen, i)
}

/// The client that gets the next turn.
pub open spec fn choice(clients: Seq<Client>, chosen: Seq<u16>) -> int {
    choose|i: int| is_choice(clients, chosen, i)
}

/// The first `n` turns of the rolling sequence, by client code.
pub open spec fn rolling_prefix(clients: Seq<Client>, n: nat) -> Seq<u16>
    decreases n,
{
    if n == 0 {
        Seq::empty()
    } else {
        let chosen = rolling_prefix(clients, (n - 1) as nat);
        chosen.push(clients[choice(clients, chosen)].code)
    }
}

/// The rolling sequence: as many turns as the quantities sum to.
pub open spec fn rolling_sequence(clients: Seq<Client>) -> Seq<u16> {
    rolling_prefix(clients, weight_sum(clients))
}

/// At most one client has the highest score first.
pub proof fn lemma_choice_unique(clients: Seq<Client>, chosen: Seq<u16>, i: int)
    requires
        is_choice(clients, chosen, i),
    ensures
        choice(clients, chosen) == i,
{
    let c = choice(clients, chosen);
    assert(is_choice(clients, chosen, c));
    if c < i {
        assert(score(clients, chosen, c) < score(clients, chosen, i));
    } else if i < c {
        assert(score(clients, chosen, i) < score(clients, chosen, c));
    }
}

/// The sum of the quantities is at most `u32::MAX` for each client.
pub proof fn lemma_weight_sum_bound(clients: Seq<Client>)
    ensures
        weight_sum(clients) <= clients.len() * (u32::MAX as nat),
    decreases clients.len(),
{
    if clients.len() > 0 {
        lemma_weight_sum_bound(clients.drop_last());
        assert((clients.len() - 1) * (u32::MAX as nat) + (u32::MAX as nat) == clients.len() * (
        u32::MAX as nat)) by (nonlinear_arith);
    }
}

/// Clients with distinct codes are at most as many as there are codes.
pub proof fn lemma_distinct_codes_count(clients: Seq<Client>)
    requires
        distinct_codes(clients),
    ensures
        clients.len() <= 0x1_0000,
{
    let codes = Seq::new(clients.len(), |i: int| clients[i].code as int);
    assert forall|i: int, j: int|
        0 <= i < codes.len() && 0 <= j < codes.len() && i != j implies codes[i] != codes[j] by {
        if i < j {
            assert(clients[i].code != clients[j].code);
        } else {
            assert(clients[j].code != clients[i].code);
        }
    }
    codes.unique_seq_to_set();
    vstd::set_lib::lemma_int_range(0, 0x1_0000);
    assert forall|x: int| codes.to_set().contains(x) implies vstd::set_lib::set_int_range(
        0,
        0x1_0000,
    ).contains(x) by {
        let i = choose|i: int| 0 <= i < codes.len() && codes[i] == x;
        assert(codes[i] == clients[i].code as int);
    }
    vstd::set_lib::lemma_len_subset(codes.to_set(), vstd::set_lib::set_int_range(0, 0x1_0000));
}

/// The number of turns in `window` that go to the first `i` clients.
pub open spec fn taken(clients: Seq<Client>, window: Seq<u16>, i: nat) -> nat
    decreases i,
{
    if i == 0 {
        0
    } else {
        taken(clients, window, (i - 1) as nat) + occurrences(window, clients[i - 1].code)
    }
}

/// The delivery to client `i` when the turns in `window` are served from
/// the tokens in `held`: as many tokens as the client has turns, taken
/// from the tail of what the clients before it left.
pub open spec fn delivery(
    now: u64,
    code_product: u16,
    clients: Seq<Client>,
    window: Seq<u16>,
    held: Seq<TokenView>,
    i: int,
) -> JobView {
    JobView {
        time: now,
        task: TaskView {
            destination: Destination::Actor(clients[i].actor),
            code_product,
            tokens: held.subrange(
                held.len() - taken(clients, window, (i + 1) as nat),
                held.len() - taken(clients, window, i as nat),
            ),
        },
    }
}

/// The queue after the first `i` clients were served: in their order, each
/// client with a turn in `window` had its delivery queued.
pub open spec fn served(
    queue: Seq<JobView>,
    now: u64,
    code_product: u16,
    clients: Seq<Client>,
    window: Seq<u16>,
    held: Seq<TokenView>,
    i: nat,
) -> Seq<JobView>
    decreases i,
{
    if i == 0 {
        queue
    } else {
        let before = served(queue, now, code_product, clients, window, held, (i - 1) as nat);
        if occurrences(window, clients[i - 1].code) == 0 {
            before
        } else {
            enqueued(before, delivery(now, code_product, clients, window, held, i - 1))
        }
    }
}

/// How many of the first `i` clients have code `code`.
pub open spec fn hits(clients: Seq<Client>, code: u16, i: nat) -> nat
    decreases i,
{
    if i == 0 {
        0
    } else {
        hits(clients, code, (i - 1) as nat) + if clients[i - 1].code == code {
            1nat
        } else {
            0nat
        }
    }
}

/// Among clients with distinct codes at most one has a given code, and
/// exactly one if any has.
pub proof fn lemma_hits(clients: Seq<Client>, code: u16, i: nat)
    requires
        distinct_codes(clients),
        i <= clients.len(),
    ensures
        hits(clients, code, i) <= 1,
        hits(clients, code, i) == 1 <==> exists|j: int|
            0 <= j < i && (#[trigger] clients[j]).code == code,
    decreases i,
{
    if i > 0 {
        lemma_hits(clients, code, (i - 1) as nat);
        if clients[i - 1].code == code {
            if hits(clients, code, (i - 1) as nat) == 1 {
                let j = choose|j: int| 0 <= j < i - 1 && (#[trigger] clients[j]).code == code;
                assert(clients[j].code != clients[i - 1].code);
            }
            assert(clients[i - 1].code == code);
        } else {
            if hits(clients, code, i) == 1 {
                let j = choose|j: int| 0 <= j < i - 1 && (#[trigger] clients[j]).code == code;
                assert(clients[j].code == code);
            }
            if exists|j: int| 0 <= j < i && (#[trigger] clients[j]).code == code {
                let j = choose|j: int| 0 <= j < i && (#[trigger] clients[j]).code == code;
                assert(j < i - 1);
            }
        }
    }
}

/// One more turn in the window is one more turn taken exactly if it goes
/// to one of the first `i` clients.
pub proof fn lemma_taken_step(clients: Seq<Client>, window: Seq<u16>, i: nat)
    requires
        window.len() > 0,
    ensures
        taken(clients, window, i) == taken(clients, window.drop_last(), i) + hits(
            clients,
            window.last(),
            i,
        ),
    decreases i,
{
    if i > 0 {
        lemma_taken_step(clients, window, (i - 1) as nat);
    }
}

/// Clients with distinct codes take no more turns than the window has.
pub proof fn lemma_taken_bound(clients: Seq<Client>, window: Seq<u16>, i: nat)
    requires
        distinct_codes(clients),
        i <= clients.len(),
    ensures
        taken(clients, window, i) <= window.len(),
    decreases window.len(),
{
    if window.len() == 0 {
        lemma_taken_empty(clients, window, i);
    } else {
        lemma_taken_step(clients, window, i);
        lemma_hits(clients, window.last(), i);
        lemma_taken_bound(clients, window.drop_last(), i);
    }
}

/// No turn is taken from an empty window.
pub proof fn lemma_taken_empty(clients: Seq<Client>, window: Seq<u16>, i: nat)
    requires
        window.len() == 0,
    ensures
        taken(clients, window, i) == 0,
    decreases i,
{
    if i > 0 {
        lemma_taken_empty(clients, window, (i - 1) as nat);
    }
}

/// What holds of every job of a queue, and of the delivery to each client
/// with a turn, holds of every job of the queue after the clients were served.
pub proof fn lemma_served_all(
    queue: Seq<JobView>,
    now: u64,
    code_product: u16,
    clients: Seq<Client>,
    window: Seq<u16>,
    held: Seq<TokenView>,
    i: nat,
    holds: spec_fn(JobView) -> bool,
)
    requires
        forall|j: int| 0 <= j < queue.len() ==> holds(#[trigger] queue[j]),
        forall|k: int|
            0 <= k < i && occurrences(window, clients[k].code) > 0 ==> holds(
                #[trigger] delivery(now, code_product, clients, window, held, k),
            ),
    ensures
        forall|j: int|
            0 <= j < served(queue, now, code_product, clients, window, held, i).len() ==> holds(
                #[trigger] served(queue, now, code_product, clients, window, held, i)[j],
            ),
    decreases i,
{
    if i > 0 {
        lemma_served_all(queue, now, code_product, clients, window, held, (i - 1) as nat, holds);
        let before = served(queue, now, code_product, clients, window, held, (i - 1) as nat);
        if occurrences(window, clients[i - 1].code) > 0 {
            let job = delivery(now, code_product, clients, window, held, i - 1);
            lemma_due_by_bound(before, job.time);
            lemma_enqueued_all(before, job, holds);
        }
    }
}

/// Serving clients at `now` keeps an ordered queue ordered.
pub proof fn lemma_served_ordered(
    queue: Seq<JobView>,
    now: u64,
    code_product: u16,
    clients: Seq<Client>,
    window: Seq<u16>,
    held: Seq<TokenView>,
    i: nat,
)
    requires
        ordered_from(queue, now),
    ensures
        ordered_from(served(queue, now, code_product, clients, window, held, i), now),
    decreases i,
{
    if i > 0 {
        lemma_served_ordered(queue, now, code_product, clients, window, held, (i - 1) as nat);
        let before = served(queue, now, code_product, clients, window, held, (i - 1) as nat);
        if occurrences(window, clients[i - 1].code) > 0 {
            lemma_enqueued_ordered(
                before,
                now,
                delivery(now, code_product, clients, window, held, i - 1),
            );
        }
    }
}

/// The first of the first `n` clients that has the highest score among them.
pub open spec fn first_best(clients: Seq<Client>, chosen: Seq<u16>, n: nat) -> int
    decreases n,
{
    if n <= 1 {
        0
    } else {
        let best = first_best(clients, chosen, (n - 1) as nat);
        if score(clients, chosen, n - 1) > score(clients, chosen, best) {
            n - 1
        } else {
            best
        }
    }
}

/// [`first_best`] is what its name says.
pub proof fn lemma_first_best(clients: Seq<Client>, chosen: Seq<u16>, n: nat)
    requires
        1 <= n <= clients.len(),
    ensures
        0 <= first_best(clients, chosen, n) < n,
        forall|k: int|
            0 <= k < first_best(clients, chosen, n) ==> (#[trigger] score(clients, chosen, k))
                < score(clients, chosen, first_best(clients, chosen, n)),
        forall|k: int|
            first_best(clients, chosen, n) <= k < n ==> (#[trigger] score(clients, chosen, k))
                <= score(clients, chosen, first_best(clients, chosen, n)),
    decreases n,
{
    if n > 1 {
        lemma_first_best(clients, chosen, (n - 1) as nat);
    }
}

/// Where there are clients, one of them gets the next turn.
pub proof fn lemma_choice_exists(clients: Seq<Client>, chosen: Seq<u16>)
    requires
        clients.len() >= 1,
    ensures
        is_choice(clients, chosen, choice(clients, chosen)),
        0 <= choice(clients, chosen) < clients.len(),
{
    lemma_first_best(clients, chosen, clients.len());
    assert(is_choice(clients, chosen, first_best(clients, chosen, clients.len())));
}

/// Every turn of the rolling sequence goes to a client.
pub proof fn lemma_prefix_codes(clients: Seq<Client>, n: nat)
    requires
        clients.len() >= 1,
    ensures
        rolling_prefix(clients, n).len() == n,
        forall|k: int| 0 <= k < n ==> has_code(clients, #[trigger] rolling_prefix(clients, n)[k]),
    decreases n,
{
    if n > 0 {
        lemma_prefix_codes(clients, (n - 1) as nat);
        let chosen = rolling_prefix(clients, (n - 1) as nat);
        lemma_choice_exists(clients, chosen);
        let c = choice(clients, chosen);
        let now = rolling_prefix(clients, n);
        assert forall|k: int| 0 <= k < n implies has_code(clients, #[trigger] now[k]) by {
            if k < n - 1 {
                assert(now[k] == chosen[k]);
            } else {
                assert(clients[c].code == now[k]);
            }
        }
    }
}

/// Where every turn of a window goes to one of the clients, and the
/// clients have distinct codes, the clients take all the turns.
pub proof fn lemma_taken_all(clients: Seq<Client>, window: Seq<u16>)
    requires
        distinct_codes(clients),
        forall|k: int| 0 <= k < window.len() ==> has_code(clients, #[trigger] window[k]),
    ensures
        taken(clients, window, clients.len()) == window.len(),
    decreases window.len(),
{
    if window.len() == 0 {
        lemma_taken_empty(clients, window, clients.len());
    } else {
        let front = window.drop_last();
        assert forall|k: int| 0 <= k < front.len() implies has_code(
            clients,
            #[trigger] front[k],
        ) by {
            assert(front[k] == window[k]);
        }
        lemma_taken_all(clients, front);
        lemma_taken_step(clients, window, clients.len());
        lemma_hits(clients, window.last(), clients.len());
        assert(has_code(clients, window[window.len() - 1]));
    }
}

/// The sum of the scores of the first `i` clients.
pub open spec fn score_sum(clients: Seq<Client>, chosen: Seq<u16>, i: nat) -> int
    decreases i,
{
    if i == 0 {
        0
    } else {
        score_sum(clients, chosen, (i - 1) as nat) + score(clients, chosen, i - 1)
    }
}

/// The quantities of the first clients add up one by one.
pub proof fn lemma_weight_sum_take(clients: Seq<Client>, i: nat)
    requires
        i < clients.len(),
    ensures
        weight_sum(clients.take(i as int + 1)) == weight_sum(clients.take(i as int))
            + clients[i as int].quantity,
{
    assert(clients.take(i as int + 1).drop_last() =~= clients.take(i as int));
}

/// The scores of the first `i` clients add up to the sum of their
/// quantities times the length factor, less the total quantity times the
/// turns they had.
pub proof fn lemma_score_sum(clients: Seq<Client>, chosen: Seq<u16>, i: nat)
    requires
        i <= clients.len(),
    ensures
        score_sum(clients, chosen, i) == weight_sum(clients.take(i as int)) * (if chosen.len()
            == 0 {
            1int
        } else {
            chosen.len() as int
        }) - weight_sum(clients) * taken(clients, chosen, i),
    decreases i,
{
    let factor = if chosen.len() == 0 {
        1int
    } else {
        chosen.len() as int
    };
    let total = weight_sum(clients) as int;
    if i == 0 {
        assert(clients.take(0) =~= Seq::<Client>::empty());
        assert(0 * factor - total * 0 == 0) by (nonlinear_arith);
    } else {
        lemma_score_sum(clients, chosen, (i - 1) as nat);
        lemma_weight_sum_take(clients, (i - 1) as nat);
        let before = weight_sum(clients.take(i - 1)) as int;
        let q = clients[i - 1].quantity as int;
        let had = taken(clients, chosen, (i - 1) as nat) as int;
        let occ = occurrences(chosen, clients[i - 1].code) as int;
        assert((before + q) * factor - total * (had + occ) == (before * factor - total * had) + (q
            * factor - total * occ)) by (nonlinear_arith);
    }
}

/// The scores of the first `i` clients add up to at most `i` times the highest.
pub proof fn lemma_score_sum_bound(clients: Seq<Client>, chosen: Seq<u16>, i: nat, top: int)
    requires
        i <= clients.len(),
        forall|k: int| 0 <= k < i ==> score(clients, chosen, k) <= top,
    ensures
        score_sum(clients, chosen, i) <= i * top,
    decreases i,
{
    if i == 0 {
        assert(0 * top == 0) by (nonlinear_arith);
    } else {
        lemma_score_sum_bound(clients, chosen, (i - 1) as nat, top);
        assert((i - 1) * top + top == i * top) by (nonlinear_arith);
    }
}

/// A value that was added to a sequence occurs once more; other values
/// occur as often as before.
pub proof fn lemma_occurrences_push(s: Seq<u16>, added: u16, value: u16)
    ensures
        occurrences(s.push(added), value) == occurrences(s, value) + if added == value {
            1nat
        } else {
            0nat
        },
{
    assert(s.push(added).drop_last() =~= s);
}

/// No client with a quantity has more turns in the first `n` turns of the
/// rolling sequence than its quantity, as long as `n` is at most the sum
/// of the quantities.
pub proof fn lemma_prefix_within(clients: Seq<Client>, n: nat)
    requires
        distinct_codes(clients),
        clients.len() >= 1,
        forall|i: int| 0 <= i < clients.len() ==> (#[trigger] clients[i]).quantity >= 1,
        n <= weight_sum(clients),
    ensures
        forall|i: int|
            0 <= i < clients.len() ==> occurrences(
                rolling_prefix(clients, n),
                (#[trigger] clients[i]).code,
            ) <= clients[i].quantity,
    decreases n,
{
    if n > 0 {
        let t = (n - 1) as nat;
        lemma_prefix_within(clients, t);
        let chosen = rolling_prefix(clients, t);
        lemma_prefix_codes(clients, t);
        lemma_choice_exists(clients, chosen);
        let c = choice(clients, chosen);
        let m = clients.len();
        let total = weight_sum(clients) as int;
        let factor = if t == 0 {
            1int
        } else {
            t as int
        };
        let top = score(clients, chosen, c);
        lemma_taken_all(clients, chosen);
        lemma_score_sum(clients, chosen, m);
        assert(clients.take(m as int) =~= clients);
        assert(score_sum(clients, chosen, m) == total * factor - total * t);
        assert(total * factor - total * t >= 0) by (nonlinear_arith)
            requires
                total >= 0,
                factor >= t,
        ;
        assert forall|k: int| 0 <= k < m implies score(clients, chosen, k) <= top by {
            if k < c {
                assert(score(clients, chosen, k) < top);
            }
        }
        lemma_score_sum_bound(clients, chosen, m, top);
        assert(top >= 0) by (nonlinear_arith)
            requires
                m >= 1,
                0 <= m * top,
        ;
        let q = clients[c].quantity as int;
        let occ = occurrences(chosen, clients[c].code) as int;
        assert(q * factor - total * occ >= 0);
        assert(occ < q) by {
            if t == 0 {
                assert(chosen.len() == 0);
            } else {
                assert(occ < q) by (nonlinear_arith)
                    requires
                        q * t - total * occ >= 0,
                        1 <= t < total,
                        q >= 1,
                        occ >= 0,
                ;
            }
        }
        assert forall|i: int| 0 <= i < m implies occurrences(
            rolling_prefix(clients, n),
            (#[trigger] clients[i]).code,
        ) <= clients[i].quantity by {
            lemma_occurrences_push(chosen, clients[c].code, clients[i].code);
            if i < c {
                assert(clients[i].code != clients[c].code);
            } else if i > c {
                assert(clients[c].code != clients[i].code);
            }
        }
    }
}

/// Where no client has more turns than its quantity, the first `i`
/// clients have at most the sum of their quantities in turns, and exactly
/// that sum only if each has exactly its quantity.
pub proof fn lemma_turns_gap(clients: Seq<Client>, window: Seq<u16>, i: nat)
    requires
        i <= clients.len(),
        forall|k: int|
            0 <= k < clients.len() ==> occurrences(window, (#[trigger] clients[k]).code)
                <= clients[k].quantity,
    ensures
        taken(clients, window, i) <= weight_sum(clients.take(i as int)),
        taken(clients, window, i) == weight_sum(clients.take(i as int)) ==> forall|k: int|
            0 <= k < i ==> occurrences(window, (#[trigger] clients[k]).code)
                == clients[k].quantity,
    decreases i,
{
    if i == 0 {
        assert(clients.take(0) =~= Seq::<Client>::empty());
    } else {
        lemma_turns_gap(clients, window, (i - 1) as nat);
        lemma_weight_sum_take(clients, (i - 1) as nat);
        assert(occurrences(window, clients[i - 1].code) <= clients[i - 1].quantity);
    }
}

/// In the rolling sequence of clients with distinct codes and quantities
/// of 1 or more, each client has exactly as many turns as its quantity.
pub proof fn lemma_rolling_sequence_counts(clients: Seq<Client>)
    requires
        distinct_codes(clients),
        forall|i: int| 0 <= i < clients.len() ==> (#[trigger] clients[i]).quantity >= 1,
    ensures
        rolling_sequence(clients).len() == weight_sum(clients),
        forall|i: int|
            0 <= i < clients.len() ==> occurrences(
                rolling_sequence(clients),
                (#[trigger] clients[i]).code,
            ) == clients[i].quantity,
{
    if clients.len() >= 1 {
        let n = weight_sum(clients);
        lemma_prefix_within(clients, n);
        lemma_prefix_codes(clients, n);
        lemma_taken_all(clients, rolling_prefix(clients, n));
        lemma_turns_gap(clients, rolling_prefix(clients, n), clients.len());
        assert(clients.take(clients.len() as int) =~= clients);
    }
}

/// Fairness: of any `k` times the sum of the quantities tokens in a row
/// that a broadcast with two clients or more routes, whatever the state
/// of its cycle at the first, each client gets exactly `k` times its
/// quantity.  The quantities are 1 or more.
pub proof fn lemma_broadcast_fairness(b: BroadcastView, k: nat, i: int)
    requires
        b.wf(),
        b.clients.len() >= 2,
        forall|x: int| 0 <= x < b.clients.len() ==> (#[trigger] b.clients[x]).quantity >= 1,
        0 <= i < b.clients.len(),
    ensures
        b.sequence.len() == b.quantity,
        occurrences(cycle_window(b.sequence, b.cursor, k * b.quantity), b.clients[i].code) == k
            * b.clients[i].quantity,
{
    lemma_rolling_sequence_counts(b.clients);
    assert(b.clients[0].quantity >= 1);
    lemma_weight_sum_positive(b.clients);
    lemma_full_cycles(b.sequence, b.cursor, k, b.clients[i].code);
}

/// The turns of the client with code `code` when batches of the sizes in
/// `batches` are routed one after the other, the cycle standing at
/// `cursor` at the first.
pub open spec fn turns_over(sequence: Seq<u16>, cursor: nat, batches: Seq<nat>, code: u16) -> nat
    decreases batches.len(),
{
    if batches.len() == 0 {
        0
    } else {
        occurrences(cycle_window(sequence, cursor, batches[0]), code) + turns_over(
            sequence,
            (((cursor + batches[0]) as int) % (sequence.len() as int)) as nat,
            batches.drop_first(),
            code,
        )
    }
}

/// Batches that are routed one after the other give each client the
/// turns that one batch of all their tokens would give it.
pub proof fn lemma_turns_over(sequence: Seq<u16>, cursor: nat, batches: Seq<nat>, code: u16)
    requires
        sequence.len() > 0,
    ensures
        turns_over(sequence, cursor, batches, code) == occurrences(
            cycle_window(sequence, cursor, sum_of(batches)),
            code,
        ),
    decreases batches.len(),
{
    if batches.len() == 0 {
        assert(cycle_window(sequence, cursor, 0) =~= Seq::<u16>::empty());
    } else {
        let next = (((cursor + batches[0]) as int) % (sequence.len() as int)) as nat;
        lemma_turns_over(sequence, next, batches.drop_first(), code);
        lemma_sum_drop_first(batches);
        lemma_draws_chain(sequence, cursor, batches[0], sum_of(batches.drop_first()), code);
    }
}

/// Fairness over imports: where a broadcast with two clients or more,
/// each with a quantity of 1 or more, routes batches one after the other
/// that hold `k` times the sum of the quantities tokens in all, however
/// they are split into batches and wherever the cycle stands at the
/// first, each client has exactly `k` times its quantity in turns.
pub proof fn lemma_imports_fair(b: BroadcastView, batches: Seq<nat>, k: nat, i: int)
    requires
        b.wf(),
        b.clients.len() >= 2,
        forall|x: int| 0 <= x < b.clients.len() ==> (#[trigger] b.clients[x]).quantity >= 1,
        0 <= i < b.clients.len(),
        sum_of(batches) == k * b.quantity,
    ensures
        turns_over(b.sequence, b.cursor, batches, b.clients[i].code) == k * b.clients[i].quantity,
{
    lemma_broadcast_fairness(b, k, i);
    lemma_weight_sum_positive(b.clients);
    lemma_turns_over(b.sequence, b.cursor, batches, b.clients[i].code);
}

/// Clients with quantities of 1 or more have a sum of quantities of 1 or more.
pub proof fn lemma_weight_sum_positive(clients: Seq<Client>)
    requires
        clients.len() >= 1,
        forall|x: int| 0 <= x < clients.len() ==> (#[trigger] clients[x]).quantity >= 1,
    ensures
        weight_sum(clients) >= 1,
{
    assert(clients[clients.len() - 1].quantity >= 1);
}

/// Each client is delivered one token per turn it has in the window.
pub proof fn lemma_delivery_size(
    now: u64,
    code_product: u16,
    clients: Seq<Client>,
    window: Seq<u16>,
    held: Seq<TokenView>,
    i: int,
)
    requires
        distinct_codes(clients),
        0 <= i < clients.len(),
        window.len() <= held.len(),
    ensures
        delivery(now, code_product, clients, window, held, i).task.tokens.len() == occurrences(
            window,
            clients[i].code,
        ),
{
    lemma_taken_bound(clients, window, (i + 1) as nat);
}

/// Where the window has no turn, serving clients leaves the queue as it is.
pub proof fn lemma_served_nothing(
    queue: Seq<JobView>,
    now: u64,
    code_product: u16,
    clients: Seq<Client>,
    window: Seq<u16>,
    held: Seq<TokenView>,
    i: nat,
)
    requires
        window.len() == 0,
    ensures
        served(queue, now, code_product, clients, window, held, i) == queue,
    decreases i,
{
    if i > 0 {
        lemma_served_nothing(queue, now, code_product, clients, window, held, (i - 1) as nat);
    }
}

/// Serving the first `i` clients puts as many tokens in flight as they have turns.
pub proof fn lemma_served_in_flight(
    queue: Seq<JobView>,
    now: u64,
    code_product: u16,
    clients: Seq<Client>,
    window: Seq<u16>,
    held: Seq<TokenView>,
    i: nat,
)
    requires
        taken(clients, window, i) <= held.len(),
    ensures
        in_flight(served(queue, now, code_product, clients, window, held, i)) == in_flight(queue)
            + taken(clients, window, i),
    decreases i,
{
    if i > 0 {
        lemma_served_in_flight(queue, now, code_product, clients, window, held, (i - 1) as nat);
        let before = served(queue, now, code_product, clients, window, held, (i - 1) as nat);
        if occurrences(window, clients[i - 1].code) > 0 {
            lemma_in_flight_enqueued(
                before,
                delivery(now, code_product, clients, window, held, i - 1),
            );
        }
    }
}

/// The mathematical value of a [`Broadcast`].
pub struct BroadcastView {
    pub code: u16,
    pub code_product: u16,
    /// The tokens waiting in the queue, the next to leave last.
    pub held: Seq<TokenView>,
    pub clients: Seq<Client>,
    /// The sum of the clients' quantities.
    pub quantity: nat,
    /// The turns that the output sampler cycles through.
    pub sequence: Seq<u16>,
    /// The place in `sequence` of the next turn.
    pub cursor: nat,
}

impl BroadcastView {
    /// What holds of every broadcast that was built through its functions.
    pub open spec fn wf(self) -> bool {
        &&& distinct_codes(self.clients)
        &&& self.quantity == weight_sum(self.clients)
        &&& self.clients.len() >= 2 ==> self.sequence == rolling_sequence(self.clients)
        &&& self.sequence.len() == 0 ==> self.cursor == 0
        &&& self.sequence.len() > 0 ==> self.cursor < self.sequence.len()
    }

    /// The broadcast sends on all it takes in, and holds nothing: it has a
    /// client, and turns to give where it has more than one.
    pub open spec fn flows(self) -> bool {
        &&& self.clients.len() >= 1
        &&& self.clients.len() == 1 || self.quantity >= 1
        &&& self.held.len() == 0
    }

    /// The broadcast and the queue after the broadcast looked at what it
    /// holds, at time `now`.  With one client, all of it goes to that
    /// client.  With more, the sampler is drawn once per token, and each
    /// client gets one token per turn it drew.  With no client, or no turn
    /// to draw, the tokens stay.
    pub open spec fn routed(self, queue: Seq<JobView>, now: u64) -> (BroadcastView, Seq<JobView>) {
        let n = self.held.len();
        if n == 0 || self.clients.len() == 0 {
            (self, queue)
        } else if self.clients.len() == 1 {
            (
                BroadcastView { held: Seq::empty(), ..self },
                enqueued(
                    queue,
                    JobView {
                        time: now,
                        task: TaskView {
                            destination: Destination::Actor(self.clients[0].actor),
                            code_product: self.code_product,
                            tokens: self.held,
                        },
                    },
                ),
            )
        } else if self.sequence.len() == 0 {
            (self, queue)
        } else {
            let window = cycle_window(self.sequence, self.cursor, n);
            (
                BroadcastView {
                    held: self.held.subrange(
                        0,
                        n - taken(self.clients, window, self.clients.len()),
                    ),
                    cursor: (((self.cursor + n) as int) % (self.sequence.len() as int)) as nat,
                    ..self
                },
                served(
                    queue,
                    now,
                    self.code_product,
                    self.clients,
                    window,
                    self.held,
                    self.clients.len(),
                ),
            )
        }
    }

    /// The broadcast and the queue after `tokens` arrived at time `now`.
    pub open spec fn imported(self, tokens: Seq<TokenView>, queue: Seq<JobView>, now: u64) -> (
        BroadcastView,
        Seq<JobView>,
    ) {
        (BroadcastView { held: tokens + self.held, ..self }).routed(queue, now)
    }

    /// Routing keeps a broadcast well-formed, its clients and its product
    /// as they were, and an ordered queue ordered.
    pub proof fn lemma_routed_wf(self, queue: Seq<JobView>, now: u64)
        requires
            self.wf(),
        ensures
            self.routed(queue, now).0.wf(),
            self.routed(queue, now).0.clients == self.clients,
            self.routed(queue, now).0.code == self.code,
            self.routed(queue, now).0.code_product == self.code_product,
            ordered_from(queue, now) ==> ordered_from(self.routed(queue, now).1, now),
    {
        if ordered_from(queue, now) {
            let n = self.held.len();
            if n == 0 || self.clients.len() == 0 {
            } else if self.clients.len() == 1 {
                lemma_enqueued_ordered(
                    queue,
                    now,
                    JobView {
                        time: now,
                        task: TaskView {
                            destination: Destination::Actor(self.clients[0].actor),
                            code_product: self.code_product,
                            tokens: self.held,
                        },
                    },
                );
            } else if self.sequence.len() == 0 {
            } else {
                lemma_served_ordered(
                    queue,
                    now,
                    self.code_product,
                    self.clients,
                    cycle_window(self.sequence, self.cursor, n),
                    self.held,
                    self.clients.len(),
                );
            }
        }
    }

    /// Routing leaves the sum of the quantities and the turns as they are.
    pub proof fn lemma_routed_quantity(self, queue: Seq<JobView>, now: u64)
        ensures
            self.routed(queue, now).0.quantity == self.quantity,
            self.routed(queue, now).0.sequence == self.sequence,
    {
    }

    /// Routing loses no token and makes none: those the broadcast held are
    /// still held or in flight.
    pub proof fn lemma_routed_conserves(self, queue: Seq<JobView>, now: u64)
        requires
            self.wf(),
        ensures
            self.routed(queue, now).0.held.len() + in_flight(self.routed(queue, now).1)
                == self.held.len() + in_flight(queue),
    {
        let n = self.held.len();
        if n == 0 || self.clients.len() == 0 {
        } else if self.clients.len() == 1 {
            lemma_in_flight_enqueued(
                queue,
                JobView {
                    time: now,
                    task: TaskView {
                        destination: Destination::Actor(self.clients[0].actor),
                        code_product: self.code_product,
                        tokens: self.held,
                    },
                },
            );
        } else if self.sequence.len() == 0 {
        } else {
            let window = cycle_window(self.sequence, self.cursor, n);
            lemma_taken_bound(self.clients, window, self.clients.len());
            lemma_served_in_flight(
                queue,
                now,
                self.code_product,
                self.clients,
                window,
                self.held,
                self.clients.len(),
            );
        }
    }

    /// A broadcast with clients whose quantities do not all vanish keeps no
    /// token that it routes.
    pub proof fn lemma_routed_empties(self, queue: Seq<JobView>, now: u64)
        requires
            self.wf(),
            self.clients.len() >= 1,
            self.clients.len() == 1 || self.quantity >= 1,
        ensures
            self.routed(queue, now).0.held.len() == 0,
    {
        let n = self.held.len();
        if n > 0 && self.clients.len() >= 2 {
            lemma_prefix_codes(self.clients, weight_sum(self.clients));
            let window = cycle_window(self.sequence, self.cursor, n);
            assert forall|k: int| 0 <= k < window.len() implies has_code(
                self.clients,
                #[trigger] window[k],
            ) by {
                let at = ((self.cursor + k) as int) % (self.sequence.len() as int);
                vstd::arithmetic::div_mod::lemma_mod_pos_bound(
                    (self.cursor + k) as int,
                    self.sequence.len() as int,
                );
                assert(window[k] == self.sequence[at]);
                assert(has_code(self.clients, rolling_prefix(self.clients, weight_sum(self.clients))[at]));
            }
            lemma_taken_all(self.clients, window);
        }
    }

    /// What an import does to a broadcast that holds nothing and has two
    /// clients or more whose quantities do not all vanish: every token is
    /// sent on, each client with a turn is delivered one token per turn,
    /// and the cycle stands as many turns further as there were tokens.
    pub proof fn lemma_imported_turns(self, tokens: Seq<TokenView>, queue: Seq<JobView>, now: u64)
        requires
            self.wf(),
            self.clients.len() >= 2,
            self.quantity >= 1,
            self.held.len() == 0,
        ensures
            self.imported(tokens, queue, now).0 == (BroadcastView {
                cursor: (((self.cursor + tokens.len()) as int) % (self.sequence.len() as int)) as nat,
                ..self
            }),
            self.imported(tokens, queue, now).1 == served(
                queue,
                now,
                self.code_product,
                self.clients,
                cycle_window(self.sequence, self.cursor, tokens.len()),
                tokens,
                self.clients.len(),
            ),
            forall|i: int|
                0 <= i < self.clients.len() ==> (#[trigger] delivery(
                    now,
                    self.code_product,
                    self.clients,
                    cycle_window(self.sequence, self.cursor, tokens.len()),
                    tokens,
                    i,
                )).task.tokens.len() == occurrences(
                    cycle_window(self.sequence, self.cursor, tokens.len()),
                    self.clients[i].code,
                ),
    {
        let full = BroadcastView { held: tokens + self.held, ..self };
        assert(full.held =~= tokens);
        let n = tokens.len();
        let window = cycle_window(self.sequence, self.cursor, n);
        lemma_prefix_codes(self.clients, weight_sum(self.clients));
        vstd::arithmetic::div_mod::lemma_small_mod(self.cursor, self.sequence.len());
        full.lemma_routed_empties(queue, now);
        assert(self.held =~= Seq::<TokenView>::empty());
        assert(self.sequence.len() == weight_sum(self.clients));
        if n == 0 {
            assert(full.held =~= self.held);
            assert(full == self);
            lemma_served_nothing(
                queue,
                now,
                self.code_product,
                self.clients,
                window,
                tokens,
                self.clients.len(),
            );
        } else {
            assert(full.routed(queue, now).0.held =~= self.held);
        }
        assert forall|i: int| 0 <= i < self.clients.len() implies (#[trigger] delivery(
            now,
            self.code_product,
            self.clients,
            window,
            tokens,
            i,
        )).task.tokens.len() == occurrences(window, self.clients[i].code) by {
            lemma_delivery_size(now, self.code_product, self.clients, window, tokens, i);
        }
    }

    /// The broadcast after `client` was registered.  The rolling sequence
    /// is made anew, and starts anew, once there are two clients or more.
    pub open spec fn registered(self, client: Client) -> BroadcastView {
        let clients = upserted(self.clients, client);
        if clients.len() > 1 {
            BroadcastView {
                clients,
                quantity: weight_sum(clients),
                sequence: rolling_sequence(clients),
                cursor: 0,
                ..self
            }
        } else {
            BroadcastView { clients, quantity: weight_sum(clients), ..self }
        }
    }
}

/// Splits incoming tokens among clients by their quantities.
pub struct Broadcast {
    pub code: u16,
    pub code_product: u16,
    pub import_fifo: Fifo,
    pub clients: Vec<Client>,
    pub quantity: u64,
    pub output_sampler: CyclicSampler<u16>,
}

impl View for Broadcast {
    type V = BroadcastView;

    open spec fn view(&self) -> BroadcastView {
        BroadcastView {
            code: self.code,
            code_product: self.code_product,
            held: self.import_fifo@,
            clients: self.clients@,
            quantity: self.quantity as nat,
            sequence: self.output_sampler.samples(),
            cursor: self.output_sampler.cursor(),
        }
    }
}

impl Broadcast {
    /// The value of a new broadcast.
    pub open spec fn new_view(code: u16, code_product: u16) -> BroadcastView {
        BroadcastView {
            code,
            code_product,
            held: Seq::empty(),
            clients: Seq::empty(),
            quantity: 0,
            sequence: Seq::empty(),
            cursor: 0,
        }
    }

    /// A broadcast of actor `code` for product `code_product`, without clients.
    pub fn new(code: u16, code_product: u16) -> (broadcast: Broadcast)
        ensures
            broadcast@ == Self::new_view(code, code_product),
            broadcast@.wf(),
            !broadcast.import_fifo.log,
    {
        Broadcast {
            code,
            code_product,
            import_fifo: Fifo::new(code, false),
            clients: Vec::new(),
            quantity: 0,
            output_sampler: CyclicSampler::new(),
        }
    }

    /// Whether the broadcast sends on all it takes in, and holds nothing:
    /// see [`BroadcastView::flows`].
    pub fn flows(&self) -> (yes: bool)
        ensures
            yes == self@.flows(),
    {
        let clients = self.clients.len();
        clients >= 1 && (clients == 1 || self.quantity >= 1)
            && self.import_fifo.available_tokens() == 0
    }

    /// Sends on what the queue holds: see [`BroadcastView::routed`].
    pub fn check_requirements(&mut self, scheduler: &mut Scheduler)
        requires
            old(self)@.wf(),
            !old(self).import_fifo.log,
        ensures
            (final(self)@, final(scheduler).queue()) == old(self)@.routed(
                old(scheduler).queue(),
                old(scheduler).now(),
            ),
            final(scheduler).now() == old(scheduler).now(),
            final(self)@.wf(),
            !final(self).import_fifo.log,
            final(self).import_fifo.code == old(self).import_fifo.code,
    {
        let n = self.import_fifo.available_tokens();
        let m = self.clients.len();
        if n == 0 || m == 0 {
            return ;
        }
        let ghost held = self.import_fifo@;
        let ghost queue = scheduler.queue();
        let ghost now = scheduler.now();
        let code_product = self.code_product;
        if m == 1 {
            let client = self.clients[0];
            let tokens = self.import_fifo.get_all();
            scheduler.schedule(
                0,
                Task { destination: Destination::Actor(client.actor), code_product, tokens },
            );
            return ;
        }
        if self.output_sampler.is_empty() {
            return ;
        }
        let ghost clients = self.clients@;
        let ghost window = self.output_sampler.upcoming(n as nat);
        let counts = self.output_sampler.freq(n);
        let mut i: usize = 0;
        while i < m
            invariant
                i <= m,
                m == clients.len(),
                clients == self.clients@,
                distinct_codes(clients),
                window.len() == n,
                held.len() == n,
                code_product == self.code_product,
                self.code == old(self).code,
                self.code_product == old(self).code_product,
                self.quantity == old(self).quantity,
                self.output_sampler.samples() == old(self).output_sampler.samples(),
                self.output_sampler.cursor() == old(self).output_sampler.cursor_after(n as nat),
                !self.import_fifo.log,
                self.import_fifo.code == old(self).import_fifo.code,
                taken(clients, window, i as nat) <= n,
                self.import_fifo@ == held.subrange(0, n - taken(clients, window, i as nat)),
                scheduler.now() == now,
                scheduler.queue() == served(
                    queue,
                    now,
                    code_product,
                    clients,
                    window,
                    held,
                    i as nat,
                ),
                forall|value: u16| counts@.contains_key(value) <==> occurrences(window, value) > 0,
                forall|value: u16|
                    counts@.contains_key(value) ==> #[trigger] counts@[value] == occurrences(
                        window,
                        value,
                    ),
            decreases m - i,
        {
            let client = self.clients[i];
            proof {
                lemma_taken_bound(clients, window, (i + 1) as nat);
            }
            match counts.get(&client.code) {
                Some(count) => {
                    let ghost rest = self.import_fifo@;
                    let tokens = self.import_fifo.get(*count);
                    proof {
                        assert(batch_view(tokens@) =~= held.subrange(
                            n - taken(clients, window, (i + 1) as nat),
                            n - taken(clients, window, i as nat),
                        ));
                        assert(self.import_fifo@ =~= held.subrange(
                            0,
                            n - taken(clients, window, (i + 1) as nat),
                        ));
                    }
                    scheduler.schedule(
                        0,
                        Task { destination: Destination::Actor(client.actor), code_product, tokens },
                    );
                },
                None => {},
            }
            i += 1;
        }
    }

    /// Builds the rolling sequence of the clients and starts its cycle anew.
    pub fn create_rolling_sequence(&mut self)
        requires
            distinct_codes(old(self)@.clients),
            old(self)@.quantity == weight_sum(old(self)@.clients),
        ensures
            final(self)@ == (BroadcastView {
                sequence: rolling_sequence(old(self)@.clients),
                cursor: 0,
                ..old(self)@
            }),
            final(self).import_fifo == old(self).import_fifo,
    {
        let m = self.clients.len();
        let total: u64 = self.quantity;
        let ghost clients = self.clients@;
        proof {
            lemma_distinct_codes_count(clients);
            lemma_weight_sum_bound(clients);
            assert(clients.len() * (u32::MAX as nat) <= 0x1_0000 * (u32::MAX as nat))
                by (nonlinear_arith)
                requires
                    clients.len() <= 0x1_0000,
            ;
        }
        let mut sequence: Vec<u16> = Vec::new();
        if m == 0 {
            self.output_sampler.set_samples(sequence);
            return ;
        }
        let mut counts: Vec<u64> = Vec::new();
        let mut k: usize = 0;
        while k < m
            invariant
                k <= m,
                counts@.len() == k,
                forall|i: int| 0 <= i < k ==> counts@[i] == 0,
            decreases m - k,
        {
            counts.push(0);
            k += 1;
        }
        let mut t: u64 = 0;
        while t < total
            invariant
                *self == *old(self),
                clients == self.clients@,
                distinct_codes(clients),
                m == clients.len(),
                m > 0,
                total == weight_sum(clients),
                total <= 0x1_0000 * (u32::MAX as nat),
                t <= total,
                sequence@ == rolling_prefix(clients, t as nat),
                sequence@.len() == t,
                counts@.len() == m,
                forall|i: int|
                    0 <= i < m ==> (#[trigger] counts@[i]) as nat == occurrences(
                        sequence@,
                        clients[i].code,
                    ),
            decreases total - t,
        {
            let factor: u64 = if t == 0 {
                1
            } else {
                t
            };
            let ghost chosen = sequence@;
            proof {
                lemma_occurrences_bound(chosen, clients[0].code);
                lemma_score_fits(clients[0].quantity, factor, total, counts@[0]);
            }
            let mut best: usize = 0;
            let mut best_score: i128 = (self.clients[0].quantity as i128) * (factor as i128) - (
            total as i128) * (counts[0] as i128);
            let mut i: usize = 1;
            while i < m
                invariant
                    *self == *old(self),
                    clients == self.clients@,
                    m == clients.len(),
                    1 <= i <= m,
                    best < i,
                    total == weight_sum(clients),
                    total <= 0x1_0000 * (u32::MAX as nat),
                    t < total,
                    chosen.len() == t,
                    factor == (if t == 0 {
                        1
                    } else {
                        t
                    }),
                    counts@.len() == m,
                    forall|i: int|
                        0 <= i < m ==> (#[trigger] counts@[i]) as nat == occurrences(
                            chosen,
                            clients[i].code,
                        ),
                    best_score == score(clients, chosen, best as int),
                    forall|k: int|
                        0 <= k < best ==> score(clients, chosen, k) < score(
                            clients,
                            chosen,
                            best as int,
                        ),
                    forall|k: int|
                        best <= k < i ==> score(clients, chosen, k) <= score(
                            clients,
                            chosen,
                            best as int,
                        ),
                decreases m - i,
            {
                proof {
                    lemma_occurrences_bound(chosen, clients[i as int].code);
                    lemma_score_fits(clients[i as int].quantity, factor, total, counts@[i as int]);
                }
                let here: i128 = (self.clients[i].quantity as i128) * (factor as i128) - (
                total as i128) * (counts[i] as i128);
                if here > best_score {
                    best = i;
                    best_score = here;
                }
                i += 1;
            }
            proof {
                assert(is_choice(clients, chosen, best as int));
                lemma_choice_unique(clients, chosen, best as int);
                lemma_occurrences_bound(chosen, clients[best as int].code);
            }
            let code = self.clients[best].code;
            sequence.push(code);
            let bumped = counts[best] + 1;
            counts.set(best, bumped);
            t += 1;
            proof {
                assert(sequence@.drop_last() =~= chosen);
                assert forall|i: int| 0 <= i < m implies (#[trigger] counts@[i]) as nat
                    == occurrences(sequence@, clients[i].code) by {
                    if i < best {
                        assert(clients[i].code != clients[best as int].code);
                    } else if i > best {
                        assert(clients[best as int].code != clients[i].code);
                    }
                }
            }
        }
        self.output_sampler.set_samples(sequence);
    }
}

impl Actor for Broadcast {
    open spec fn accepts(&self, tokens: Seq<TokenView>) -> bool {
        self@.wf() && !self.import_fifo.log
    }

    open spec fn has_output(&self) -> bool {
        self@.wf()
    }

    /// Takes in `tokens` and sends on what the queue then holds.
    fn import(
        &mut self,
        code_product: u16,
        tokens: Vec<Token>,
        time: u64,
        scheduler: &mut Scheduler,
    )
        ensures
            (final(self)@, final(scheduler).queue()) == old(self)@.imported(
                batch_view(tokens@),
                old(scheduler).queue(),
                old(scheduler).now(),
            ),
            final(scheduler).now() == old(scheduler).now(),
            final(self)@.wf(),
            !final(self).import_fifo.log,
            final(self).import_fifo.code == old(self).import_fifo.code,
    {
        self.import_fifo.put(tokens, time);
        self.check_requirements(scheduler);
    }

    /// Registers a client, in place of the one registered under its code
    /// if there is one.  `code` is the client's own code, `actor` its place
    /// in the network; the product is that of the broadcast.
    fn register(&mut self, code: u16, code_product: u16, quantity: u32, actor: usize)
        ensures
            final(self)@ == old(self)@.registered(Client { code, quantity, actor }),
            final(self)@.wf(),
            final(self).import_fifo == old(self).import_fifo,
    {
        let client = Client { code, quantity, actor };
        let ghost before = self.clients@;
        let m = self.clients.len();
        let mut i: usize = 0;
        let mut found = false;
        while i < m
            invariant_except_break
                !found,
                forall|k: int| 0 <= k < i ==> (#[trigger] before[k]).code != code,
            invariant
                i <= m,
                m == before.len(),
                *self == *old(self),
                before == self.clients@,
            ensures
                found ==> i < m && before[i as int].code == code,
                !found ==> forall|k: int| 0 <= k < m ==> (#[trigger] before[k]).code != code,
            decreases m - i,
        {
            if self.clients[i].code == code {
                found = true;
                break ;
            }
            i += 1;
        }
        if found {
            proof {
                assert(has_code(before, code));
                let p = place_of(before, code);
                if p < i {
                    assert(before[p].code != before[i as int].code);
                } else if i < p {
                    assert(before[i as int].code != before[p].code);
                }
                assert(p == i);
            }
            self.clients.set(i, client);
        } else {
            proof {
                assert(!has_code(before, code));
            }
            self.clients.push(client);
        }
        let ghost after = self.clients@;
        proof {
            assert(after == upserted(before, client));
            assert forall|a: int, b: int| 0 <= a < b < after.len() implies (#[trigger] after[a]).code
                != (#[trigger] after[b]).code by {
                if found {
                    if a != i && b != i {
                        assert(before[a].code != before[b].code);
                    } else if a == i {
                        assert(before[i as int].code != before[b].code);
                    } else {
                        assert(before[a].code != before[i as int].code);
                    }
                } else {
                    if b < m {
                        assert(before[a].code != before[b].code);
                    } else {
                        assert(before[a].code != code);
                    }
                }
            }
            lemma_distinct_codes_count(after);
        }
        let n = self.clients.len();
        let mut sum: u64 = 0;
        let mut k: usize = 0;
        while k < n
            invariant
                k <= n,
                n == after.len(),
                n <= 0x1_0000,
                after == self.clients@,
                sum == weight_sum(after.take(k as int)),
                self.code == old(self).code,
                self.code_product == old(self).code_product,
                self.import_fifo == old(self).import_fifo,
                self.output_sampler == old(self).output_sampler,
            decreases n - k,
        {
            proof {
                lemma_weight_sum_bound(after.take(k as int));
                assert(k * (u32::MAX as nat) <= 0x1_0000 * (u32::MAX as nat)) by (nonlinear_arith)
                    requires
                        k <= 0x1_0000,
                ;
                assert(after.take(k + 1).drop_last() =~= after.take(k as int));
            }
            sum = sum + self.clients[k].quantity as u64;
            k += 1;
        }
        proof {
            assert(after.take(n as int) =~= after);
        }
        self.quantity = sum;
        if self.clients.len() > 1 {
            self.create_rolling_sequence();
        }
    }

    /// The code of the actor that the broadcast belongs to.
    fn code(&self) -> (code: u16)
        ensures
            code == self@.code,
    {
        self.code
    }

    /// The number of tokens waiting in the queue.
    fn total(&self) -> (total: u64)
        ensures
            total == self@.held.len(),
    {
        self.import_fifo.available_tokens() as u64
    }

    /// Hands over the tokens waiting in the queue.
    fn tokens(&mut self) -> (tokens: Vec<Token>)
        ensures
            batch_view(tokens@) == old(self)@.held,
            final(self)@ == (BroadcastView { held: Seq::empty(), ..old(self)@ }),
            final(self).import_fifo.log == old(self).import_fifo.log,
            final(self).import_fifo.code == old(self).import_fifo.code,
    {
        self.import_fifo.get_all()
    }

    /// Empties the queue for a new run; the clients and the cycle stay.
    fn reset(&mut self)
        ensures
            final(self)@ == (BroadcastView { held: Seq::empty(), ..old(self)@ }),
            final(self).import_fifo.log == old(self).import_fifo.log,
            final(self).import_fifo.code == old(self).import_fifo.code,
    {
        self.import_fifo.reset();
    }
}

/// The two products of a score, and their difference, fit in 128 bits.
proof fn lemma_score_fits(quantity: u32, factor: u64, total: u64, count: u64)
    requires
        factor <= total || factor == 1,
        count <= total,
        total <= 0x1_0000 * (u32::MAX as nat),
    ensures
        0 <= (quantity as int) * (factor as int) <= 0x1_0000_0000 * 0x1_0000_0000_0000,
        0 <= (total as int) * (count as int) <= 0x1_0000_0000_0000 * 0x1_0000_0000_0000,
{
    assert(0 <= (quantity as int) * (factor as int) <= 0x1_0000_0000 * 0x1_0000_0000_0000)
        by (nonlinear_arith)
        requires
            0 <= quantity < 0x1_0000_0000,
            0 <= factor <= 0x1_0000_0000_0000,
    ;
    assert(0 <= (total as int) * (count as int) <= 0x1_0000_0000_0000 * 0x1_0000_0000_0000)
        by (nonlinear_arith)
        requires
            0 <= total <= 0x1_0000_0000_0000,
            0 <= count <= 0x1_0000_0000_0000,
    ;
}

} // verus!
