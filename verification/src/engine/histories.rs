//! Histories without repeats: when no token is logged twice in a row by
//! one actor at one time.
//!
//! A token is logged twice in a row by one actor only if the actor is a
//! transformer that feeds itself; the two times are the same only if it
//! kept the token for no time.  So where every transformer that feeds
//! itself keeps what it takes in for a time, no entry of a timeline is
//! repeated.

use crate::engine::actors::broadcast::{delivery, lemma_served_all, lemma_taken_bound, taken, BroadcastView, Client};
use crate::engine::actors::simple_actor::TransformerView;
use crate::engine::actors::simple_source::{fresh, SourceView};
use crate::engine::actors::ActorView;
use crate::engine::fifo::stamped;
use crate::engine::scheduler::{
    due, enqueued, lemma_due_by_bound, lemma_enqueued_all, Destination, JobView, TaskView,
};
use crate::engine::simulation::{
    actor_ok, all_ok, batch_ok, delivered, edge_ok, job_ok, lemma_actor_ok_moves,
    lemma_job_ok_moves, lemma_supplied_out_frame, same_shape, supplied_all, supplied_out,
    token_ok, World,
};
use crate::engine::tokens::TokenView;
use crate::utils::distributions::{cycle_window, occurrences};
use vstd::prelude::*;

verus! {

/// No entry of the timeline is the same as the entry before it.
pub open spec fn no_repeat(timeline: Seq<(u64, u16)>) -> bool {
    forall|k: int| 0 <= k < timeline.len() - 1 ==> #[trigger] timeline[k] != timeline[k + 1]
}

/// The token can be logged by the actor with code `code` at `time` without
/// a repeat: its last entry is of another actor, or of an earlier time.
pub open spec fn fresh_for(token: TokenView, code: u16, time: u64) -> bool {
    token.timeline.len() > 0 ==> token.timeline.last().1 != (code + token.code) as u16
        || token.timeline.last().0 < time
}

/// Every token of the batch has a history without repeats.
pub open spec fn batch_no_repeat(batch: Seq<TokenView>) -> bool {
    forall|k: int| 0 <= k < batch.len() ==> no_repeat((#[trigger] batch[k]).timeline)
}

/// Every token of the batch can be logged at `time` by every client.
pub open spec fn batch_fresh_for_clients(
    actors: Seq<ActorView>,
    clients: Seq<Client>,
    batch: Seq<TokenView>,
    time: u64,
) -> bool {
    forall|k: int, c: int|
        0 <= k < batch.len() && 0 <= c < clients.len() && clients[c].actor < actors.len()
            ==> fresh_for(#[trigger] batch[k], actors[(#[trigger] clients[c]).actor as int].code(), time)
}

/// Every token of the batch can be logged at `time` by the actor with code `code`.
pub open spec fn batch_fresh_for(batch: Seq<TokenView>, code: u16, time: u64) -> bool {
    forall|k: int| 0 <= k < batch.len() ==> fresh_for(#[trigger] batch[k], code, time)
}

/// The tokens of the job have histories without repeats, and the receiver
/// of the job, or any client of the receiving broadcast, can log them when
/// the job is due.
pub open spec fn job_unrepeated(actors: Seq<ActorView>, job: JobView) -> bool {
    &&& batch_no_repeat(job.task.tokens)
    &&& match job.task.destination {
        Destination::Actor(y) => y < actors.len() ==> batch_fresh_for(
            job.task.tokens,
            actors[y as int].code(),
            job.time,
        ),
        Destination::Broadcast(x) => x < actors.len() ==> batch_fresh_for_clients(
            actors,
            actors[x as int].clients(),
            job.task.tokens,
            job.time,
        ),
    }
}

/// No two actors have one code.
pub open spec fn distinct_actor_codes(actors: Seq<ActorView>) -> bool {
    forall|i: int, j: int|
        0 <= i < j < actors.len() ==> (#[trigger] actors[i]).code() != (#[trigger] actors[j]).code()
}

/// Every transformer that is among its own clients has delays to draw,
/// and none of them is 0.
pub open spec fn self_loops_wait(actors: Seq<ActorView>) -> bool {
    forall|i: int, c: int|
        0 <= i < actors.len() && 0 <= c < actors[i].clients().len() && (
        #[trigger] actors[i].clients()[c]).actor == i ==> (actors[i] matches ActorView::Transformer(
            t,
        ) ==> t.cursor < t.delays.len() && forall|d: int|
            0 <= d < t.delays.len() ==> #[trigger] t.delays[d] >= 1)
}

/// The actor at place `place` keeps what it takes in for a time if it is
/// a transformer that is among its own clients.
pub open spec fn actor_waits(actor: ActorView, place: int) -> bool {
    actor matches ActorView::Transformer(t) ==> (t.feeds(place) ==> t.patient())
}

/// The transformers that feed themselves wait exactly if each actor does.
pub proof fn lemma_self_loops_by_actor(actors: Seq<ActorView>)
    ensures
        self_loops_wait(actors) <==> forall|i: int|
            0 <= i < actors.len() ==> actor_waits(#[trigger] actors[i], i),
{
    if self_loops_wait(actors) {
        assert forall|i: int| 0 <= i < actors.len() implies actor_waits(
            #[trigger] actors[i],
            i,
        ) by {
            match actors[i] {
                ActorView::Transformer(t) => {
                    if t.feeds(i) {
                        let c = choose|c: int|
                            0 <= c < t.client.clients.len() && (
                            #[trigger] t.client.clients[c]).actor == i;
                        assert(actors[i].clients()[c].actor == i);
                    }
                },
                _ => {},
            }
        }
    }
    if forall|i: int| 0 <= i < actors.len() ==> actor_waits(#[trigger] actors[i], i) {
        assert forall|i: int, c: int|
            0 <= i < actors.len() && 0 <= c < actors[i].clients().len() && (
            #[trigger] actors[i].clients()[c]).actor == i implies (
        actors[i] matches ActorView::Transformer(t) ==> t.cursor < t.delays.len() && forall|
            d: int,
        |
            0 <= d < t.delays.len() ==> #[trigger] t.delays[d] >= 1) by {
            assert(actor_waits(actors[i], i));
            match actors[i] {
                ActorView::Transformer(t) => {
                    assert(t.client.clients[c].actor == i);
                    assert(t.feeds(i));
                },
                _ => {},
            }
        }
    }
}

/// Two networks have the same actors as far as code, kind, clients and
/// delays go, and in both the cursor of each transformer is in its cycle
/// or in neither.
pub open spec fn same_frame(a: Seq<ActorView>, b: Seq<ActorView>) -> bool {
    &&& same_shape(a, b)
    &&& forall|i: int| 0 <= i < a.len() ==> (#[trigger] a[i]).clients() == b[i].clients()
    &&& forall|i: int|
        0 <= i < a.len() ==> ((#[trigger] a[i]) matches ActorView::Transformer(t)
            ==> b[i] matches ActorView::Transformer(u) && t.delays == u.delays && (t.cursor
            < t.delays.len() ==> u.cursor < u.delays.len()))
}

impl World {
    /// What is asked of a network for histories without repeats: no two
    /// actors have one code, and a transformer that feeds itself waits.
    pub open spec fn steady(self) -> bool {
        distinct_actor_codes(self.actors) && self_loops_wait(self.actors)
    }

    /// No history has a repeat, and none will get one by the deliveries
    /// that are pending: every token held or in flight has a timeline
    /// without repeats; every token in flight can be logged by its
    /// receiver when it is due; every token that waits at a broadcast can
    /// be logged by every client from now on; and no transformer holds a
    /// token back.
    pub open spec fn unrepeated(self) -> bool {
        &&& forall|i: int|
            0 <= i < self.actors.len() ==> batch_no_repeat((#[trigger] self.actors[i]).held())
                && batch_no_repeat(self.actors[i].outgoing())
        &&& forall|j: int|
            0 <= j < self.queue.len() ==> job_unrepeated(self.actors, #[trigger] self.queue[j])
        &&& forall|i: int|
            0 <= i < self.actors.len() ==> batch_fresh_for_clients(
                self.actors,
                (#[trigger] self.actors[i]).clients(),
                self.actors[i].outgoing(),
                self.now,
            )
        &&& forall|i: int|
            0 <= i < self.actors.len() ==> ((#[trigger] self.actors[i]) is Transformer
                ==> self.actors[i].held().len() == 0)
    }
}

/// A token without repeats that an actor logs when it can has no repeat.
pub proof fn lemma_aged_no_repeat(token: TokenView, code: u16, time: u64)
    requires
        no_repeat(token.timeline),
        fresh_for(token, code, time),
    ensures
        no_repeat(token.aged(code, time).timeline),
        token.aged(code, time).timeline.last() == (time, (code + token.code) as u16),
        token.aged(code, time).code == token.code,
{
    let after = token.aged(code, time).timeline;
    assert forall|k: int| 0 <= k < after.len() - 1 implies #[trigger] after[k] != after[k + 1] by {
        if k < token.timeline.len() - 1 {
            assert(after[k] == token.timeline[k]);
            assert(after[k + 1] == token.timeline[k + 1]);
        } else {
            assert(after[k] == token.timeline.last());
        }
    }
}

/// Whether a job is without repeats depends on the actors only through
/// their codes and clients.
pub proof fn lemma_job_unrepeated_moves(a: Seq<ActorView>, b: Seq<ActorView>, job: JobView)
    requires
        same_frame(a, b),
        job_unrepeated(a, job),
    ensures
        job_unrepeated(b, job),
{
    match job.task.destination {
        Destination::Actor(y) => {
            if y < a.len() {
                assert(a[y as int].code() == b[y as int].code());
            }
        },
        Destination::Broadcast(x) => {
            if x < a.len() {
                lemma_fresh_for_clients_moves(
                    a,
                    b,
                    a[x as int].clients(),
                    job.task.tokens,
                    job.time,
                    job.time,
                );
                assert(a[x as int].clients() == b[x as int].clients());
            }
        },
    }
}

/// Whether tokens can be logged by clients depends on the actors only
/// through their codes; and what can be logged at a time can be logged later.
pub proof fn lemma_fresh_for_clients_moves(
    a: Seq<ActorView>,
    b: Seq<ActorView>,
    clients: Seq<Client>,
    batch: Seq<TokenView>,
    time: u64,
    later: u64,
)
    requires
        same_shape(a, b),
        batch_fresh_for_clients(a, clients, batch, time),
        time <= later,
    ensures
        batch_fresh_for_clients(b, clients, batch, later),
{
    assert forall|k: int, c: int|
        0 <= k < batch.len() && 0 <= c < clients.len() && clients[c].actor < b.len() implies fresh_for(
        #[trigger] batch[k],
        b[(#[trigger] clients[c]).actor as int].code(),
        later,
    ) by {
        let z = clients[c].actor as int;
        assert(a[z].code() == b[z].code());
        assert(fresh_for(batch[k], a[clients[c].actor as int].code(), time));
    }
}

/// Tokens that were logged by one actor at a time can be logged at a
/// later time by any actor, and at that time by any other actor.
pub proof fn lemma_stamped_fresh(
    actors: Seq<ActorView>,
    now: u64,
    batch: Seq<TokenView>,
    y: int,
    clients: Seq<Client>,
    due_time: u64,
)
    requires
        distinct_actor_codes(actors),
        0 <= y < actors.len(),
        batch_ok(actors, now, batch),
        batch_no_repeat(batch),
        batch_fresh_for(batch, actors[y].code(), now),
        now <= due_time,
        now < due_time || forall|c: int|
            0 <= c < clients.len() ==> (#[trigger] clients[c]).actor != y,
    ensures
        batch_no_repeat(stamped(batch, actors[y].code(), now)),
        batch_fresh_for_clients(actors, clients, stamped(batch, actors[y].code(), now), due_time),
{
    let code = actors[y].code();
    let after = stamped(batch, code, now);
    assert forall|k: int| 0 <= k < after.len() implies no_repeat((#[trigger] after[k]).timeline) by {
        assert(no_repeat(batch[k].timeline));
        lemma_aged_no_repeat(batch[k], code, now);
    }
    assert forall|k: int, c: int|
        0 <= k < after.len() && 0 <= c < clients.len() && clients[c].actor < actors.len() implies fresh_for(
        #[trigger] after[k],
        actors[(#[trigger] clients[c]).actor as int].code(),
        due_time,
    ) by {
        let z = clients[c].actor as int;
        assert(no_repeat(batch[k].timeline));
        lemma_aged_no_repeat(batch[k], code, now);
        assert(token_ok(actors, now, batch[k]));
        assert(batch[k].stampable(actors[z].code()));
        assert(batch[k].stampable(actors[y].code()));
        if z != y {
            if z < y {
                assert(actors[z].code() != actors[y].code());
            } else {
                assert(actors[y].code() != actors[z].code());
            }
        }
    }
}

/// A batch that is put before another is without repeats, and can be
/// logged, where both are and can.
pub proof fn lemma_joined_unrepeated(
    actors: Seq<ActorView>,
    clients: Seq<Client>,
    first: Seq<TokenView>,
    second: Seq<TokenView>,
    time: u64,
)
    requires
        batch_no_repeat(first),
        batch_no_repeat(second),
        batch_fresh_for_clients(actors, clients, first, time),
        batch_fresh_for_clients(actors, clients, second, time),
    ensures
        batch_no_repeat(first + second),
        batch_fresh_for_clients(actors, clients, first + second, time),
{
    let all = first + second;
    assert forall|k: int| 0 <= k < all.len() implies no_repeat((#[trigger] all[k]).timeline) by {
        if k < first.len() {
            assert(all[k] == first[k]);
        } else {
            assert(all[k] == second[k - first.len()]);
        }
    }
    assert forall|k: int, c: int|
        0 <= k < all.len() && 0 <= c < clients.len() && clients[c].actor < actors.len() implies fresh_for(
        #[trigger] all[k],
        actors[(#[trigger] clients[c]).actor as int].code(),
        time,
    ) by {
        if k < first.len() {
            assert(all[k] == first[k]);
        } else {
            assert(all[k] == second[k - first.len()]);
        }
    }
}

/// A broadcast that routes tokens without repeats, which every client
/// can log now, keeps and sends on such tokens only.
pub proof fn lemma_routed_unrepeated(
    actors: Seq<ActorView>,
    now: u64,
    b: BroadcastView,
    queue: Seq<JobView>,
)
    requires
        b.wf(),
        forall|c: int|
            0 <= c < b.clients.len() ==> (#[trigger] b.clients[c]).actor < actors.len(),
        batch_no_repeat(b.held),
        batch_fresh_for_clients(actors, b.clients, b.held, now),
        forall|j: int| 0 <= j < queue.len() ==> job_unrepeated(actors, #[trigger] queue[j]),
    ensures
        batch_no_repeat(b.routed(queue, now).0.held),
        batch_fresh_for_clients(actors, b.clients, b.routed(queue, now).0.held, now),
        forall|j: int|
            0 <= j < b.routed(queue, now).1.len() ==> job_unrepeated(
                actors,
                #[trigger] b.routed(queue, now).1[j],
            ),
{
    let (after, queued) = b.routed(queue, now);
    let holds = |job: JobView| job_unrepeated(actors, job);
    let n = b.held.len();
    if n == 0 || b.clients.len() == 0 {
    } else if b.clients.len() == 1 {
        let job = JobView {
            time: now,
            task: TaskView {
                destination: Destination::Actor(b.clients[0].actor),
                code_product: b.code_product,
                tokens: b.held,
            },
        };
        assert forall|k: int| 0 <= k < b.held.len() implies fresh_for(
            #[trigger] b.held[k],
            actors[b.clients[0].actor as int].code(),
            now,
        ) by {
            assert(b.clients[0].actor < actors.len());
        }
        assert(holds(job));
        lemma_due_by_bound(queue, now);
        lemma_enqueued_all(queue, job, holds);
    } else if b.sequence.len() == 0 {
    } else {
        let window = cycle_window(b.sequence, b.cursor, n);
        let m = b.clients.len();
        lemma_taken_bound(b.clients, window, m);
        assert forall|i: int|
            0 <= i < m && occurrences(window, b.clients[i].code) > 0 implies holds(
            #[trigger] delivery(now, b.code_product, b.clients, window, b.held, i),
        ) by {
            lemma_taken_bound(b.clients, window, (i + 1) as nat);
            let d = delivery(now, b.code_product, b.clients, window, b.held, i);
            let from = n - taken(b.clients, window, (i + 1) as nat);
            assert(b.clients[i].actor < actors.len());
            assert forall|k: int| 0 <= k < d.task.tokens.len() implies no_repeat(
                (#[trigger] d.task.tokens[k]).timeline,
            ) && fresh_for(d.task.tokens[k], actors[b.clients[i].actor as int].code(), now) by {
                assert(d.task.tokens[k] == b.held[from + k]);
                assert(no_repeat(b.held[from + k].timeline));
                assert(fresh_for(b.held[from + k], actors[b.clients[i].actor as int].code(), now));
            }
        }
        lemma_served_all(queue, now, b.code_product, b.clients, window, b.held, m, holds);
        assert forall|k: int| 0 <= k < after.held.len() implies no_repeat(
            (#[trigger] after.held[k]).timeline,
        ) by {
            assert(after.held[k] == b.held[k]);
        }
        assert forall|k: int, c: int|
            0 <= k < after.held.len() && 0 <= c < b.clients.len() && b.clients[c].actor
                < actors.len() implies fresh_for(
            #[trigger] after.held[k],
            actors[(#[trigger] b.clients[c]).actor as int].code(),
            now,
        ) by {
            assert(after.held[k] == b.held[k]);
        }
    }
}

/// Replacing an actor by one of its code, kind, clients and delays that
/// holds tokens without repeats, and the queue by one of jobs without
/// repeats, leaves a state without repeats.
pub proof fn lemma_replaced_unrepeated(
    actors: Seq<ActorView>,
    queue: Seq<JobView>,
    now: u64,
    i: int,
    actor: ActorView,
    queued: Seq<JobView>,
)
    requires
        (World { actors, queue, now }).unrepeated(),
        0 <= i < actors.len(),
        same_frame(actors, actors.update(i, actor)),
        batch_no_repeat(actor.held()),
        batch_no_repeat(actor.outgoing()),
        batch_fresh_for_clients(actors, actor.clients(), actor.outgoing(), now),
        actor is Transformer ==> actor.held().len() == 0,
        forall|j: int| 0 <= j < queued.len() ==> job_unrepeated(actors, #[trigger] queued[j]),
    ensures
        (World { actors: actors.update(i, actor), queue: queued, now }).unrepeated(),
{
    let others = actors.update(i, actor);
    let was = World { actors, queue, now };
    assert forall|j: int| 0 <= j < queued.len() implies job_unrepeated(
        others,
        #[trigger] queued[j],
    ) by {
        lemma_job_unrepeated_moves(actors, others, queued[j]);
    }
    assert forall|x: int| 0 <= x < others.len() implies batch_fresh_for_clients(
        others,
        (#[trigger] others[x]).clients(),
        others[x].outgoing(),
        now,
    ) by {
        if x == i {
            lemma_fresh_for_clients_moves(
                actors,
                others,
                actor.clients(),
                actor.outgoing(),
                now,
                now,
            );
        } else {
            assert(others[x] == actors[x]);
            assert(batch_fresh_for_clients(
                was.actors,
                was.actors[x].clients(),
                was.actors[x].outgoing(),
                was.now,
            ));
            lemma_fresh_for_clients_moves(
                actors,
                others,
                actors[x].clients(),
                actors[x].outgoing(),
                now,
                now,
            );
        }
    }
    assert forall|x: int| 0 <= x < others.len() implies batch_no_repeat(
        (#[trigger] others[x]).held(),
    ) && batch_no_repeat(others[x].outgoing()) && (others[x] is Transformer
        ==> others[x].held().len() == 0) by {
        if x != i {
            assert(others[x] == actors[x]);
            assert(batch_no_repeat(was.actors[x].held()));
        }
    }
}

/// A delivery leaves a steady and sound state without repeats, as long
/// as the clock has not reached its last instant.
pub proof fn lemma_delivered_unrepeated(
    actors: Seq<ActorView>,
    queue: Seq<JobView>,
    now: u64,
    job: JobView,
)
    requires
        all_ok(actors, queue, now),
        job_ok(actors, now, job),
        distinct_actor_codes(actors),
        self_loops_wait(actors),
        now < u64::MAX,
        job.time == now,
        (World { actors, queue, now }).unrepeated(),
        job_unrepeated(actors, job),
    ensures
        same_frame(actors, delivered(actors, queue, now, job).0),
        (World {
            actors: delivered(actors, queue, now, job).0,
            queue: delivered(actors, queue, now, job).1,
            now,
        }).unrepeated(),
{
    let tokens = job.task.tokens;
    let was = World { actors, queue, now };
    let holds = |job: JobView| job_unrepeated(actors, job);
    assert forall|j: int| 0 <= j < queue.len() implies job_unrepeated(
        actors,
        #[trigger] queue[j],
    ) by {
        assert(job_unrepeated(was.actors, was.queue[j]));
    }
    match job.task.destination {
        Destination::Actor(y) => {
            let y = y as int;
            assert(actor_ok(actors, now, y, actors[y]));
            match actors[y] {
                ActorView::Transformer(t) => {
                    assert(was.actors[y].held().len() == 0);
                    let (after, queued) = t.imported(tokens, now, queue, now);
                    let entered = stamped(tokens, t.code, now) + t.held;
                    assert(entered =~= stamped(tokens, t.code, now));
                    let wait = due(now, t.next_delay());
                    if entered.len() > 0 {
                        let feeds_itself = exists|c: int|
                            0 <= c < t.client.clients.len() && (
                            #[trigger] t.client.clients[c]).actor == y;
                        if feeds_itself {
                            let c = choose|c: int|
                                0 <= c < t.client.clients.len() && (
                                #[trigger] t.client.clients[c]).actor == y;
                            assert(actors[y].clients()[c].actor == y);
                            assert(t.delays[t.cursor as int] >= 1);
                            assert(now < wait);
                        }
                        lemma_stamped_fresh(actors, now, tokens, y, t.client.clients, wait);
                        let next = JobView {
                            time: wait,
                            task: TaskView {
                                destination: Destination::Broadcast(t.place),
                                code_product: t.code_product,
                                tokens: entered,
                            },
                        };
                        assert(actors[t.place as int].clients() == t.client.clients);
                        assert(holds(next));
                        lemma_due_by_bound(queue, next.time);
                        lemma_enqueued_all(queue, next, holds);
                        if t.delays.len() > 0 {
                            vstd::arithmetic::div_mod::lemma_mod_pos_bound(
                                (t.cursor + 1) as int,
                                t.delays.len() as int,
                            );
                        }
                    }
                    let next_actor = ActorView::Transformer(after);
                    assert(same_frame(actors, actors.update(y, next_actor)));
                    assert(batch_fresh_for_clients(
                        was.actors,
                        was.actors[y].clients(),
                        was.actors[y].outgoing(),
                        was.now,
                    ));
                    assert(batch_no_repeat(was.actors[y].outgoing()));
                    lemma_replaced_unrepeated(actors, queue, now, y, next_actor, queued);
                },
                ActorView::Sink(s) => {
                    lemma_stamped_fresh(actors, now, tokens, y, Seq::<Client>::empty(), now);
                    assert(batch_no_repeat(was.actors[y].held()));
                    lemma_joined_unrepeated(
                        actors,
                        Seq::<Client>::empty(),
                        stamped(tokens, s.code, now),
                        s.held,
                        now,
                    );
                    let next_actor = ActorView::Sink(s.imported(tokens, now));
                    assert(same_frame(actors, actors.update(y, next_actor)));
                    lemma_replaced_unrepeated(actors, queue, now, y, next_actor, queue);
                },
                ActorView::Source(s) => {
                    assert(same_frame(actors, actors));
                },
            }
        },
        Destination::Broadcast(x) => {
            let x = x as int;
            assert(actor_ok(actors, now, x, actors[x]));
            assert(batch_fresh_for_clients(
                was.actors,
                was.actors[x].clients(),
                was.actors[x].outgoing(),
                was.now,
            ));
            assert(batch_no_repeat(was.actors[x].outgoing()));
            assert(batch_no_repeat(was.actors[x].held()));
            match actors[x] {
                ActorView::Transformer(t) => {
                    let full = BroadcastView { held: tokens + t.client.held, ..t.client };
                    lemma_joined_unrepeated(actors, t.client.clients, tokens, t.client.held, now);
                    assert forall|c: int| 0 <= c < full.clients.len() implies (
                    #[trigger] full.clients[c]).actor < actors.len() by {
                        assert(edge_ok(actors, t.client.clients[c]));
                    }
                    lemma_routed_unrepeated(actors, now, full, queue);
                    full.lemma_routed_wf(queue, now);
                    let (after, queued) = t.client.imported(tokens, queue, now);
                    let next_actor = ActorView::Transformer(TransformerView { client: after, ..t });
                    assert(same_frame(actors, actors.update(x, next_actor)));
                    lemma_replaced_unrepeated(actors, queue, now, x, next_actor, queued);
                },
                ActorView::Source(s) => {
                    let full = BroadcastView { held: tokens + s.client.held, ..s.client };
                    lemma_joined_unrepeated(actors, s.client.clients, tokens, s.client.held, now);
                    assert forall|c: int| 0 <= c < full.clients.len() implies (
                    #[trigger] full.clients[c]).actor < actors.len() by {
                        assert(edge_ok(actors, s.client.clients[c]));
                    }
                    lemma_routed_unrepeated(actors, now, full, queue);
                    full.lemma_routed_wf(queue, now);
                    let (after, queued) = s.client.imported(tokens, queue, now);
                    let next_actor = ActorView::Source(SourceView { client: after, ..s });
                    assert(same_frame(actors, actors.update(x, next_actor)));
                    lemma_replaced_unrepeated(actors, queue, now, x, next_actor, queued);
                },
                ActorView::Sink(s) => {
                    assert(same_frame(actors, actors));
                },
            }
        },
    }
}

/// A state in which no actor holds a token and none is in flight is
/// without repeats.
pub proof fn lemma_empty_unrepeated(w: World)
    requires
        w.queue.len() == 0,
        forall|i: int|
            0 <= i < w.actors.len() ==> (#[trigger] w.actors[i]).held().len() == 0
                && w.actors[i].outgoing().len() == 0,
    ensures
        w.unrepeated(),
{
}

/// A network stays steady while its actors keep their codes, kinds,
/// clients and delays.
pub proof fn lemma_steady_moves(a: Seq<ActorView>, b: Seq<ActorView>)
    requires
        same_frame(a, b),
        distinct_actor_codes(a),
        self_loops_wait(a),
    ensures
        distinct_actor_codes(b),
        self_loops_wait(b),
{
    assert forall|i: int, j: int| 0 <= i < j < b.len() implies (#[trigger] b[i]).code() != (
    #[trigger] b[j]).code() by {
        assert(a[i].code() == b[i].code());
        assert(a[j].code() == b[j].code());
    }
    assert forall|i: int, c: int|
        0 <= i < b.len() && 0 <= c < b[i].clients().len() && (#[trigger] b[i].clients()[c]).actor
            == i implies (b[i] matches ActorView::Transformer(t) ==> t.cursor < t.delays.len()
        && forall|d: int| 0 <= d < t.delays.len() ==> #[trigger] t.delays[d] >= 1) by {
        assert(a[i].clients() == b[i].clients());
        assert(a[i].clients()[c].actor == i);
        match a[i] {
            ActorView::Transformer(t) => {
                assert(forall|d: int| 0 <= d < t.delays.len() ==> #[trigger] t.delays[d] >= 1);
            },
            _ => {},
        }
    }
}

/// A job of new tokens is without repeats.
pub proof fn lemma_fresh_job_unrepeated(actors: Seq<ActorView>, job: JobView, code_product: u16)
    requires
        job.task.tokens == fresh(code_product, job.task.tokens.len()),
    ensures
        job_unrepeated(actors, job),
{
    assert forall|k: int| 0 <= k < job.task.tokens.len() implies (
    #[trigger] job.task.tokens[k]).timeline.len() == 0 by {
        assert(job.task.tokens[k] == fresh(code_product, job.task.tokens.len())[k]);
    }
}

impl World {
    /// A delivery leaves a steady and sound state without repeats steady
    /// and without repeats, as long as it is not due at the last instant
    /// of the clock.
    pub proof fn lemma_step_unrepeated(self)
        requires
            self.sound(),
            self.steady(),
            self.unrepeated(),
            self.queue.len() > 0 ==> self.queue[0].time < u64::MAX,
        ensures
            self.step().steady(),
            self.step().unrepeated(),
    {
        if self.queue.len() > 0 {
            let job = self.queue[0];
            let rest = self.queue.drop_first();
            let later = job.time;
            assert(job_ok(self.actors, self.now, job));
            assert(job_unrepeated(self.actors, job));
            lemma_job_ok_moves(self.actors, self.now, job, self.actors, later);
            assert forall|i: int| 0 <= i < self.actors.len() implies actor_ok(
                self.actors,
                later,
                i,
                #[trigger] self.actors[i],
            ) by {
                lemma_actor_ok_moves(self.actors, self.now, i, self.actors[i], self.actors, later);
            }
            assert forall|j: int| 0 <= j < rest.len() implies job_ok(
                self.actors,
                later,
                #[trigger] rest[j],
            ) && job_unrepeated(self.actors, rest[j]) by {
                assert(rest[j] == self.queue[j + 1]);
                lemma_job_ok_moves(self.actors, self.now, self.queue[j + 1], self.actors, later);
            }
            let moved = World { actors: self.actors, queue: rest, now: later };
            assert forall|i: int| 0 <= i < self.actors.len() implies batch_fresh_for_clients(
                moved.actors,
                (#[trigger] moved.actors[i]).clients(),
                moved.actors[i].outgoing(),
                moved.now,
            ) by {
                assert(batch_fresh_for_clients(
                    self.actors,
                    self.actors[i].clients(),
                    self.actors[i].outgoing(),
                    self.now,
                ));
                lemma_fresh_for_clients_moves(
                    self.actors,
                    self.actors,
                    self.actors[i].clients(),
                    self.actors[i].outgoing(),
                    self.now,
                    later,
                );
            }
            assert(moved.unrepeated());
            lemma_delivered_unrepeated(self.actors, rest, later, job);
            lemma_steady_moves(self.actors, self.step().actors);
        }
    }

    /// However many deliveries are made from a steady and sound state
    /// without repeats, no history has a repeat in the state reached, as
    /// long as the clock has not reached its last instant there.
    pub proof fn lemma_run_unrepeated(self, n: nat)
        requires
            self.sound(),
            self.steady(),
            self.unrepeated(),
            self.run(n).now < u64::MAX,
        ensures
            self.run(n).steady(),
            self.run(n).unrepeated(),
        decreases n,
    {
        if n > 0 && self.queue.len() > 0 {
            self.lemma_step_sound();
            self.step().lemma_run_sound((n - 1) as nat);
            self.lemma_step_unrepeated();
            self.step().lemma_run_unrepeated((n - 1) as nat);
        }
    }

    /// New tokens that join the queue leave a state without repeats so.
    pub proof fn lemma_supply_unrepeated(self, job: JobView, code_product: u16)
        requires
            self.unrepeated(),
            job.task.tokens == fresh(code_product, job.task.tokens.len()),
        ensures
            (World { queue: enqueued(self.queue, job), ..self }).unrepeated(),
    {
        lemma_fresh_job_unrepeated(self.actors, job, code_product);
        let holds = |j: JobView| job_unrepeated(self.actors, j);
        assert forall|j: int| 0 <= j < self.queue.len() implies holds(#[trigger] self.queue[j]) by {}
        lemma_due_by_bound(self.queue, job.time);
        lemma_enqueued_all(self.queue, job, holds);
    }
}

/// A source that supplies until it is exhausted leaves a state without
/// repeats so, and the actors with their codes, kinds, clients and delays.
pub proof fn lemma_supplied_out_unrepeated(
    actors: Seq<ActorView>,
    queue: Seq<JobView>,
    now: u64,
    place: int,
    times: nat,
)
    requires
        0 <= place < actors.len(),
        actors[place] is Source,
        (World { actors, queue, now }).unrepeated(),
    ensures
        same_frame(
            actors,
            actors.update(
                place,
                ActorView::Source(supplied_out(actors[place]->Source_0, queue, now, times).0),
            ),
        ),
        (World {
            actors: actors.update(
                place,
                ActorView::Source(supplied_out(actors[place]->Source_0, queue, now, times).0),
            ),
            queue: supplied_out(actors[place]->Source_0, queue, now, times).1,
            now,
        }).unrepeated(),
    decreases actors[place]->Source_0.max_production - actors[place]->Source_0.total,
{
    let s = actors[place]->Source_0;
    let was = World { actors, queue, now };
    if s.exhausted() {
        assert(actors.update(place, ActorView::Source(s)) =~= actors);
    } else {
        let time = (s.speed.1 * times) as u64;
        let next = s.supplied(time);
        let queued = s.supply_queued(time, now, queue);
        let job = JobView {
            time: crate::engine::actors::simple_source::supply_due(time, now),
            task: TaskView {
                destination: Destination::Broadcast(s.place),
                code_product: s.code_product,
                tokens: fresh(s.code_product, s.next_batch()),
            },
        };
        assert(queued == enqueued(queue, job));
        was.lemma_supply_unrepeated(job, s.code_product);
        let grown = World { actors, queue: queued, now };
        let moved = actors.update(place, ActorView::Source(next));
        assert(same_frame(actors, moved));
        assert(batch_no_repeat(was.actors[place].held()));
        assert(batch_no_repeat(was.actors[place].outgoing()));
        assert(batch_fresh_for_clients(
            was.actors,
            was.actors[place].clients(),
            was.actors[place].outgoing(),
            was.now,
        ));
        assert forall|j: int| 0 <= j < queued.len() implies job_unrepeated(
            actors,
            #[trigger] queued[j],
        ) by {
            assert(job_unrepeated(grown.actors, grown.queue[j]));
        }
        lemma_replaced_unrepeated(actors, queue, now, place, ActorView::Source(next), queued);
        lemma_supplied_out_unrepeated(moved, queued, now, place, times + 1);
        let last = supplied_out(next, queued, now, times + 1).0;
        assert(moved.update(place, ActorView::Source(last)) =~= actors.update(
            place,
            ActorView::Source(last),
        ));
        lemma_same_frame_chains(actors, moved, actors.update(place, ActorView::Source(last)));
    }
}

/// The sources that supply one after the other leave a steady state
/// without repeats steady and without repeats.
pub proof fn lemma_supplied_all_unrepeated(
    actors: Seq<ActorView>,
    queue: Seq<JobView>,
    now: u64,
    places: Seq<usize>,
    n: nat,
)
    requires
        n <= places.len(),
        (World { actors, queue, now }).unrepeated(),
    ensures
        same_frame(actors, supplied_all(actors, queue, now, places, n).0),
        (World {
            actors: supplied_all(actors, queue, now, places, n).0,
            queue: supplied_all(actors, queue, now, places, n).1,
            now,
        }).unrepeated(),
    decreases n,
{
    if n == 0 {
        assert(same_frame(actors, actors));
    } else {
        lemma_supplied_all_unrepeated(actors, queue, now, places, (n - 1) as nat);
        let (before, queued) = supplied_all(actors, queue, now, places, (n - 1) as nat);
        let place = places[n - 1] as int;
        if place < before.len() && before[place] is Source {
            lemma_supplied_out_unrepeated(before, queued, now, place, 0);
            let end = supplied_all(actors, queue, now, places, n).0;
            lemma_same_frame_chains(actors, before, end);
        }
    }
}

/// The sources that supply one after the other leave the actors with
/// their codes, kinds, clients and delays.
pub proof fn lemma_supplied_all_frame(
    actors: Seq<ActorView>,
    queue: Seq<JobView>,
    now: u64,
    places: Seq<usize>,
    n: nat,
)
    requires
        n <= places.len(),
    ensures
        same_frame(actors, supplied_all(actors, queue, now, places, n).0),
    decreases n,
{
    if n == 0 {
        assert(same_frame(actors, actors));
    } else {
        lemma_supplied_all_frame(actors, queue, now, places, (n - 1) as nat);
        let (before, queued) = supplied_all(actors, queue, now, places, (n - 1) as nat);
        let place = places[n - 1] as int;
        if place < before.len() && before[place] is Source {
            lemma_supplied_out_frame(before[place]->Source_0, queued, now, 0);
            let end = supplied_all(actors, queue, now, places, n).0;
            assert(same_frame(before, end));
            lemma_same_frame_chains(actors, before, end);
        }
    }
}

/// What has the frame of a network that has the frame of another has the
/// frame of that other.
pub proof fn lemma_same_frame_chains(a: Seq<ActorView>, b: Seq<ActorView>, c: Seq<ActorView>)
    requires
        same_frame(a, b),
        same_frame(b, c),
    ensures
        same_frame(a, c),
{
    assert forall|i: int| 0 <= i < a.len() implies {
        &&& (#[trigger] a[i]).code() == c[i].code()
        &&& (a[i] is Source <==> c[i] is Source)
        &&& (a[i] is Sink <==> c[i] is Sink)
        &&& a[i].clients() == c[i].clients()
        &&& (a[i] matches ActorView::Transformer(t) ==> c[i] matches ActorView::Transformer(u)
            && t.delays == u.delays && (t.cursor < t.delays.len() ==> u.cursor < u.delays.len()))
    } by {
        assert(a[i].code() == b[i].code());
        assert(b[i].code() == c[i].code());
        assert(b[i].clients() == c[i].clients());
    }
}

} // verus!
