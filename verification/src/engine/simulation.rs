//! The simulation as a whole: the actors of a network, the pending
//! deliveries and the clock, and how one delivery after the other changes
//! them.

use crate::engine::actors::broadcast::{
    delivery, lemma_served_all, lemma_taken_bound, taken, BroadcastView, Client,
};
use crate::engine::actors::simple_source::{fresh, supply_due, SourceView};
use crate::engine::actors::simple_actor::TransformerView;
use crate::engine::actors::{Actor, ActorView, AnyActor, Source};
use crate::engine::fifo::stamped;
use crate::engine::histories::{lemma_supplied_out_unrepeated, same_frame};
use crate::engine::scheduler::{
    due, enqueued, in_flight, lemma_due_by_bound, loads, lemma_enqueued_all, lemma_enqueued_ordered,
    lemma_in_flight_drop_first, lemma_in_flight_enqueued, ordered_from, Destination, Job, JobView,
    Scheduler, Task, TaskView,
};
use crate::utils::sums::{lemma_sum_update, lemma_sum_zeros, sum_of};
use crate::engine::tokens::{lemma_aged_history, lemma_aged_stampable, TokenView};
use crate::utils::distributions::{cycle_window, occurrences};
use vstd::prelude::*;

verus! {

/// The state of a simulation.
pub struct World {
    /// The actors, each at its place.
    pub actors: Seq<ActorView>,
    /// The pending deliveries, the next one first.
    pub queue: Seq<JobView>,
    /// The time of the last delivery made.
    pub now: u64,
}

/// The values of the actors, each at its place.
pub open spec fn views(actors: Seq<AnyActor>) -> Seq<ActorView> {
    Seq::new(actors.len(), |i: int| actors[i]@)
}

/// Every actor is well-formed for its kind.
pub open spec fn network_wf(actors: Seq<AnyActor>) -> bool {
    forall|i: int| 0 <= i < actors.len() ==> (#[trigger] actors[i]).wf()
}

/// The state that a network and a scheduler are in.
pub open spec fn world_of(actors: Seq<AnyActor>, scheduler: Scheduler) -> World {
    World { actors: views(actors), queue: scheduler.queue(), now: scheduler.now() }
}

/// The actors and the queue after the delivery `job` was made at time
/// `now`.  A delivery to a transformer or a sink is taken in by it; one to
/// the broadcast of a source or a transformer is split among its clients.
/// A delivery that names no such receiver is lost.
pub open spec fn delivered(actors: Seq<ActorView>, queue: Seq<JobView>, now: u64, job: JobView) -> (
    Seq<ActorView>,
    Seq<JobView>,
) {
    let tokens = job.task.tokens;
    match job.task.destination {
        Destination::Actor(i) => {
            if i < actors.len() {
                match actors[i as int] {
                    ActorView::Transformer(t) => {
                        let (after, queued) = t.imported(tokens, now, queue, now);
                        (actors.update(i as int, ActorView::Transformer(after)), queued)
                    },
                    ActorView::Sink(s) => (
                        actors.update(i as int, ActorView::Sink(s.imported(tokens, now))),
                        queue,
                    ),
                    ActorView::Source(s) => (actors, queue),
                }
            } else {
                (actors, queue)
            }
        },
        Destination::Broadcast(i) => {
            if i < actors.len() {
                match actors[i as int] {
                    ActorView::Transformer(t) => {
                        let (after, queued) = t.client.imported(tokens, queue, now);
                        (
                            actors.update(
                                i as int,
                                ActorView::Transformer(TransformerView { client: after, ..t }),
                            ),
                            queued,
                        )
                    },
                    ActorView::Source(s) => {
                        let (after, queued) = s.client.imported(tokens, queue, now);
                        (
                            actors.update(
                                i as int,
                                ActorView::Source(SourceView { client: after, ..s }),
                            ),
                            queued,
                        )
                    },
                    ActorView::Sink(s) => (actors, queue),
                }
            } else {
                (actors, queue)
            }
        },
    }
}

/// `token` has a history that the clock at `now` allows, and every one of
/// `actors` can stamp it.
pub open spec fn token_ok(actors: Seq<ActorView>, now: u64, token: TokenView) -> bool {
    &&& token.chronological()
    &&& token.settled_by(now)
    &&& forall|i: int| 0 <= i < actors.len() ==> token.stampable((#[trigger] actors[i]).code())
}

/// [`token_ok`] for each token of a batch.
pub open spec fn batch_ok(actors: Seq<ActorView>, now: u64, batch: Seq<TokenView>) -> bool {
    forall|k: int| 0 <= k < batch.len() ==> token_ok(actors, now, #[trigger] batch[k])
}

/// The client stands in the network, and is no source.
pub open spec fn edge_ok(actors: Seq<ActorView>, client: Client) -> bool {
    client.actor < actors.len() && !(actors[client.actor as int] is Source)
}

/// The broadcast is well-formed, holds sound tokens and has sound clients.
pub open spec fn broadcast_ok(actors: Seq<ActorView>, now: u64, b: BroadcastView) -> bool {
    &&& b.wf()
    &&& batch_ok(actors, now, b.held)
    &&& forall|k: int| 0 <= k < b.clients.len() ==> edge_ok(actors, #[trigger] b.clients[k])
}

/// `actor`, at place `i` of the network, knows its place, holds sound
/// tokens and feeds sound clients; a source has not made more than it may,
/// and makes tokens that every actor can stamp.
pub open spec fn actor_ok(actors: Seq<ActorView>, now: u64, i: int, actor: ActorView) -> bool {
    match actor {
        ActorView::Source(s) => {
            &&& s.place == i
            &&& broadcast_ok(actors, now, s.client)
            &&& s.total <= s.max_production
            &&& forall|k: int|
                0 <= k < actors.len() ==> s.code_product + (#[trigger] actors[k]).code() <= u16::MAX
        },
        ActorView::Transformer(t) => {
            &&& t.place == i
            &&& broadcast_ok(actors, now, t.client)
            &&& batch_ok(actors, now, t.held)
        },
        ActorView::Sink(s) => batch_ok(actors, now, s.held),
    }
}

/// The delivery carries sound tokens to a receiver that can take them.
pub open spec fn job_ok(actors: Seq<ActorView>, now: u64, job: JobView) -> bool {
    &&& batch_ok(actors, now, job.task.tokens)
    &&& match job.task.destination {
        Destination::Actor(i) => i < actors.len() && !(actors[i as int] is Source),
        Destination::Broadcast(i) => i < actors.len() && !(actors[i as int] is Sink),
    }
}

/// The number of tokens that each actor holds, in its import queue and in
/// the queue of its broadcast.
pub open spec fn sizes(actors: Seq<ActorView>) -> Seq<nat> {
    Seq::new(actors.len(), |i: int| actors[i].held().len() + actors[i].outgoing().len())
}

/// The number of tokens that the actors hold.
pub open spec fn population(actors: Seq<ActorView>) -> nat {
    sum_of(sizes(actors))
}

/// The number of tokens that each actor has made: the count of a source, 0 for the others.
pub open spec fn outputs(actors: Seq<ActorView>) -> Seq<nat> {
    Seq::new(
        actors.len(),
        |i: int|
            match actors[i] {
                ActorView::Source(s) => s.total as nat,
                _ => 0nat,
            },
    )
}

/// The number of tokens that the sources have made.
pub open spec fn produced(actors: Seq<ActorView>) -> nat {
    sum_of(outputs(actors))
}

/// An actor that takes the place of another changes the number of tokens
/// held by the difference of what the two hold.
pub proof fn lemma_population_update(actors: Seq<ActorView>, i: int, actor: ActorView)
    requires
        0 <= i < actors.len(),
    ensures
        population(actors.update(i, actor)) + actors[i].held().len() + actors[i].outgoing().len()
            == population(actors) + actor.held().len() + actor.outgoing().len(),
{
    assert(sizes(actors.update(i, actor)) =~= sizes(actors).update(
        i,
        actor.held().len() + actor.outgoing().len(),
    ));
    lemma_sum_update(sizes(actors), i, actor.held().len() + actor.outgoing().len());
}

/// An actor that takes the place of another changes the number of tokens
/// made by the difference of what the two made.
pub proof fn lemma_produced_update(actors: Seq<ActorView>, i: int, actor: ActorView)
    requires
        0 <= i < actors.len(),
    ensures
        produced(actors.update(i, actor)) + outputs(actors)[i] == produced(actors) + outputs(
            actors.update(i, actor),
        )[i],
{
    let after = actors.update(i, actor);
    assert(outputs(after) =~= outputs(actors).update(i, outputs(after)[i]));
    lemma_sum_update(outputs(actors), i, outputs(after)[i]);
}

/// A sound delivery loses no token and makes none: the tokens it carried
/// are held or in flight afterwards, with all that were before.  No
/// source's count changes.
pub proof fn lemma_delivered_conserves(
    actors: Seq<ActorView>,
    queue: Seq<JobView>,
    now: u64,
    job: JobView,
)
    requires
        all_ok(actors, queue, now),
        job_ok(actors, now, job),
    ensures
        population(delivered(actors, queue, now, job).0) + in_flight(
            delivered(actors, queue, now, job).1,
        ) == population(actors) + in_flight(queue) + job.task.tokens.len(),
        produced(delivered(actors, queue, now, job).0) == produced(actors),
{
    let tokens = job.task.tokens;
    match job.task.destination {
        Destination::Actor(i) => {
            let i = i as int;
            match actors[i] {
                ActorView::Transformer(t) => {
                    let (after, queued) = t.imported(tokens, now, queue, now);
                    let entered = stamped(tokens, t.code, now) + t.held;
                    if entered.len() > 0 {
                        lemma_in_flight_enqueued(
                            queue,
                            JobView {
                                time: due(now, t.next_delay()),
                                task: TaskView {
                                    destination: Destination::Broadcast(t.place),
                                    code_product: t.code_product,
                                    tokens: entered,
                                },
                            },
                        );
                    }
                    lemma_population_update(actors, i, ActorView::Transformer(after));
                    lemma_produced_update(actors, i, ActorView::Transformer(after));
                },
                ActorView::Sink(s) => {
                    lemma_population_update(actors, i, ActorView::Sink(s.imported(tokens, now)));
                    lemma_produced_update(actors, i, ActorView::Sink(s.imported(tokens, now)));
                },
                ActorView::Source(s) => {},
            }
        },
        Destination::Broadcast(i) => {
            let i = i as int;
            assert(actor_ok(actors, now, i, actors[i]));
            match actors[i] {
                ActorView::Transformer(t) => {
                    let full = BroadcastView { held: tokens + t.client.held, ..t.client };
                    full.lemma_routed_conserves(queue, now);
                    let (after, queued) = t.client.imported(tokens, queue, now);
                    let next = ActorView::Transformer(TransformerView { client: after, ..t });
                    lemma_population_update(actors, i, next);
                    lemma_produced_update(actors, i, next);
                },
                ActorView::Source(s) => {
                    let full = BroadcastView { held: tokens + s.client.held, ..s.client };
                    full.lemma_routed_conserves(queue, now);
                    let (after, queued) = s.client.imported(tokens, queue, now);
                    let next = ActorView::Source(SourceView { client: after, ..s });
                    lemma_population_update(actors, i, next);
                    lemma_produced_update(actors, i, next);
                },
                ActorView::Sink(s) => {},
            }
        },
    }
}

/// The actor keeps no token back: its broadcast flows, and the import
/// queue of a transformer is empty.  A sink keeps what arrives.
pub open spec fn actor_flows(actor: ActorView) -> bool {
    match actor {
        ActorView::Source(s) => s.client.flows(),
        ActorView::Transformer(t) => t.client.flows() && t.held.len() == 0,
        ActorView::Sink(s) => true,
    }
}

/// The number of tokens that each sink holds; 0 for the other actors.
pub open spec fn arrivals(actors: Seq<ActorView>) -> Seq<nat> {
    Seq::new(
        actors.len(),
        |i: int|
            match actors[i] {
                ActorView::Sink(s) => s.held.len(),
                _ => 0nat,
            },
    )
}

/// The number of tokens that the sinks hold.
pub open spec fn arrived(actors: Seq<ActorView>) -> nat {
    sum_of(arrivals(actors))
}

/// Two networks have the same actors as far as code and kind go.
pub open spec fn same_shape(a: Seq<ActorView>, b: Seq<ActorView>) -> bool {
    &&& a.len() == b.len()
    &&& forall|i: int|
        0 <= i < a.len() ==> {
            &&& (#[trigger] a[i]).code() == b[i].code()
            &&& a[i] is Source <==> b[i] is Source
            &&& a[i] is Sink <==> b[i] is Sink
        }
}

/// A sound token stays sound as time goes by and in a network of the same shape.
pub proof fn lemma_token_ok_moves(
    actors: Seq<ActorView>,
    now: u64,
    token: TokenView,
    others: Seq<ActorView>,
    later: u64,
)
    requires
        token_ok(actors, now, token),
        same_shape(actors, others),
        now <= later,
    ensures
        token_ok(others, later, token),
{
    assert forall|i: int| 0 <= i < others.len() implies token.stampable(
        (#[trigger] others[i]).code(),
    ) by {
        assert(token.stampable(actors[i].code()));
    }
}

/// A sound batch stays sound as time goes by and in a network of the same shape.
pub proof fn lemma_batch_ok_moves(
    actors: Seq<ActorView>,
    now: u64,
    batch: Seq<TokenView>,
    others: Seq<ActorView>,
    later: u64,
)
    requires
        batch_ok(actors, now, batch),
        same_shape(actors, others),
        now <= later,
    ensures
        batch_ok(others, later, batch),
{
    assert forall|k: int| 0 <= k < batch.len() implies token_ok(others, later, #[trigger] batch[k]) by {
        lemma_token_ok_moves(actors, now, batch[k], others, later);
    }
}

/// A sound broadcast stays sound as time goes by and in a network of the same shape.
pub proof fn lemma_broadcast_ok_moves(
    actors: Seq<ActorView>,
    now: u64,
    b: BroadcastView,
    others: Seq<ActorView>,
    later: u64,
)
    requires
        broadcast_ok(actors, now, b),
        same_shape(actors, others),
        now <= later,
    ensures
        broadcast_ok(others, later, b),
{
    lemma_batch_ok_moves(actors, now, b.held, others, later);
    assert forall|k: int| 0 <= k < b.clients.len() implies edge_ok(
        others,
        #[trigger] b.clients[k],
    ) by {
        assert(edge_ok(actors, b.clients[k]));
        assert(actors[b.clients[k].actor as int].code() == others[b.clients[k].actor as int].code());
    }
}

/// A sound job stays sound as time goes by and in a network of the same shape.
pub proof fn lemma_job_ok_moves(
    actors: Seq<ActorView>,
    now: u64,
    job: JobView,
    others: Seq<ActorView>,
    later: u64,
)
    requires
        job_ok(actors, now, job),
        same_shape(actors, others),
        now <= later,
    ensures
        job_ok(others, later, job),
{
    lemma_batch_ok_moves(actors, now, job.task.tokens, others, later);
    match job.task.destination {
        Destination::Actor(i) => {
            assert(actors[i as int].code() == others[i as int].code());
        },
        Destination::Broadcast(i) => {
            assert(actors[i as int].code() == others[i as int].code());
        },
    }
}

/// A sound batch is sound after one of the actors stamped it at the current time.
pub proof fn lemma_stamped_ok(actors: Seq<ActorView>, now: u64, batch: Seq<TokenView>, i: int)
    requires
        batch_ok(actors, now, batch),
        0 <= i < actors.len(),
    ensures
        batch_ok(actors, now, stamped(batch, actors[i].code(), now)),
{
    let code = actors[i].code();
    assert forall|k: int| 0 <= k < batch.len() implies token_ok(
        actors,
        now,
        #[trigger] stamped(batch, code, now)[k],
    ) by {
        let token = batch[k];
        assert(token_ok(actors, now, token));
        lemma_aged_history(token, code, now);
        assert forall|a: int| 0 <= a < actors.len() implies token.aged(code, now).stampable(
            (#[trigger] actors[a]).code(),
        ) by {
            lemma_aged_stampable(token, code, now, actors[a].code());
        }
    }
}

/// Two sound batches, one after the other, are a sound batch.
pub proof fn lemma_joined_ok(
    actors: Seq<ActorView>,
    now: u64,
    first: Seq<TokenView>,
    second: Seq<TokenView>,
)
    requires
        batch_ok(actors, now, first),
        batch_ok(actors, now, second),
    ensures
        batch_ok(actors, now, first + second),
{
    assert forall|k: int| 0 <= k < (first + second).len() implies token_ok(
        actors,
        now,
        #[trigger] (first + second)[k],
    ) by {
        if k < first.len() {
            assert((first + second)[k] == first[k]);
        } else {
            assert((first + second)[k] == second[k - first.len()]);
        }
    }
}

/// A sound broadcast that takes in a sound batch is sound afterwards, and
/// so is every job of a queue whose jobs were.
pub proof fn lemma_broadcast_import_ok(
    actors: Seq<ActorView>,
    now: u64,
    b: BroadcastView,
    tokens: Seq<TokenView>,
    queue: Seq<JobView>,
)
    requires
        broadcast_ok(actors, now, b),
        batch_ok(actors, now, tokens),
        ordered_from(queue, now),
        forall|j: int| 0 <= j < queue.len() ==> job_ok(actors, now, #[trigger] queue[j]),
    ensures
        broadcast_ok(actors, now, b.imported(tokens, queue, now).0),
        b.imported(tokens, queue, now).0.code == b.code,
        ordered_from(b.imported(tokens, queue, now).1, now),
        forall|j: int|
            0 <= j < b.imported(tokens, queue, now).1.len() ==> job_ok(
                actors,
                now,
                #[trigger] b.imported(tokens, queue, now).1[j],
            ),
{
    let full = BroadcastView { held: tokens + b.held, ..b };
    lemma_joined_ok(actors, now, tokens, b.held);
    full.lemma_routed_wf(queue, now);
    let (after, queued) = full.routed(queue, now);
    let holds = |job: JobView| job_ok(actors, now, job);
    let n = full.held.len();
    if n == 0 || full.clients.len() == 0 {
    } else if full.clients.len() == 1 {
        let job = JobView {
            time: now,
            task: TaskView {
                destination: Destination::Actor(full.clients[0].actor),
                code_product: full.code_product,
                tokens: full.held,
            },
        };
        assert(edge_ok(actors, full.clients[0]));
        assert(holds(job));
        lemma_due_by_bound(queue, now);
        lemma_enqueued_all(queue, job, holds);
        assert(batch_ok(actors, now, after.held));
    } else if full.sequence.len() == 0 {
    } else {
        let window = cycle_window(full.sequence, full.cursor, n);
        let m = full.clients.len();
        lemma_taken_bound(full.clients, window, m);
        assert forall|k: int|
            0 <= k < m && occurrences(window, full.clients[k].code) > 0 implies holds(
            #[trigger] delivery(now, full.code_product, full.clients, window, full.held, k),
        ) by {
            lemma_taken_bound(full.clients, window, (k + 1) as nat);
            assert(edge_ok(actors, full.clients[k]));
            let d = delivery(now, full.code_product, full.clients, window, full.held, k);
            assert forall|x: int| 0 <= x < d.task.tokens.len() implies token_ok(
                actors,
                now,
                #[trigger] d.task.tokens[x],
            ) by {
                assert(d.task.tokens[x] == full.held[n - taken(
                    full.clients,
                    window,
                    (k + 1) as nat,
                ) + x]);
            }
        }
        lemma_served_all(queue, now, full.code_product, full.clients, window, full.held, m, holds);
        assert forall|x: int| 0 <= x < after.held.len() implies token_ok(
            actors,
            now,
            #[trigger] after.held[x],
        ) by {
            assert(after.held[x] == full.held[x]);
        }
    }
}

/// A sound actor stays sound as time goes by and in a network of the same shape.
pub proof fn lemma_actor_ok_moves(
    actors: Seq<ActorView>,
    now: u64,
    i: int,
    actor: ActorView,
    others: Seq<ActorView>,
    later: u64,
)
    requires
        actor_ok(actors, now, i, actor),
        same_shape(actors, others),
        now <= later,
    ensures
        actor_ok(others, later, i, actor),
{
    match actor {
        ActorView::Source(s) => {
            lemma_broadcast_ok_moves(actors, now, s.client, others, later);
            assert forall|k: int| 0 <= k < others.len() implies s.code_product + (
            #[trigger] others[k]).code() <= u16::MAX by {
                assert(s.code_product + actors[k].code() <= u16::MAX);
            }
        },
        ActorView::Transformer(t) => {
            lemma_broadcast_ok_moves(actors, now, t.client, others, later);
            lemma_batch_ok_moves(actors, now, t.held, others, later);
        },
        ActorView::Sink(s) => {
            lemma_batch_ok_moves(actors, now, s.held, others, later);
        },
    }
}

/// The parts of soundness that speak of the actors and the jobs.
pub open spec fn all_ok(actors: Seq<ActorView>, queue: Seq<JobView>, now: u64) -> bool {
    &&& forall|i: int| 0 <= i < actors.len() ==> actor_ok(actors, now, i, #[trigger] actors[i])
    &&& forall|j: int| 0 <= j < queue.len() ==> job_ok(actors, now, #[trigger] queue[j])
}

/// Replacing a sound actor by a sound one of its code and kind, and the
/// queue by one of sound jobs, leaves a sound state.
pub proof fn lemma_replaced_ok(
    actors: Seq<ActorView>,
    queue: Seq<JobView>,
    now: u64,
    i: int,
    actor: ActorView,
    queued: Seq<JobView>,
)
    requires
        all_ok(actors, queue, now),
        0 <= i < actors.len(),
        actor_ok(actors, now, i, actor),
        actor.code() == actors[i].code(),
        actor is Source <==> actors[i] is Source,
        actor is Sink <==> actors[i] is Sink,
        forall|j: int| 0 <= j < queued.len() ==> job_ok(actors, now, #[trigger] queued[j]),
    ensures
        same_shape(actors, actors.update(i, actor)),
        all_ok(actors.update(i, actor), queued, now),
{
    let others = actors.update(i, actor);
    assert(same_shape(actors, others));
    assert forall|x: int| 0 <= x < others.len() implies actor_ok(
        others,
        now,
        x,
        #[trigger] others[x],
    ) by {
        if x == i {
            lemma_actor_ok_moves(actors, now, i, actor, others, now);
        } else {
            lemma_actor_ok_moves(actors, now, x, actors[x], others, now);
        }
    }
    assert forall|j: int| 0 <= j < queued.len() implies job_ok(others, now, #[trigger] queued[j]) by {
        lemma_job_ok_moves(actors, now, queued[j], others, now);
    }
}

/// A delivery that is sound leaves a sound state sound, and the actors
/// with their codes and kinds.
pub proof fn lemma_delivered_sound(
    actors: Seq<ActorView>,
    queue: Seq<JobView>,
    now: u64,
    job: JobView,
)
    requires
        ordered_from(queue, now),
        all_ok(actors, queue, now),
        job_ok(actors, now, job),
    ensures
        same_shape(actors, delivered(actors, queue, now, job).0),
        ordered_from(delivered(actors, queue, now, job).1, now),
        all_ok(delivered(actors, queue, now, job).0, delivered(actors, queue, now, job).1, now),
{
    let tokens = job.task.tokens;
    let holds = |job: JobView| job_ok(actors, now, job);
    match job.task.destination {
        Destination::Actor(i) => {
            let i = i as int;
            match actors[i] {
                ActorView::Transformer(t) => {
                    assert(actor_ok(actors, now, i, actors[i]));
                    lemma_stamped_ok(actors, now, tokens, i);
                    lemma_joined_ok(actors, now, stamped(tokens, t.code, now), t.held);
                    let (after, queued) = t.imported(tokens, now, queue, now);
                    let entered = stamped(tokens, t.code, now) + t.held;
                    if entered.len() > 0 {
                        let next = JobView {
                            time: due(now, t.next_delay()),
                            task: TaskView {
                                destination: Destination::Broadcast(t.place),
                                code_product: t.code_product,
                                tokens: entered,
                            },
                        };
                        assert(queued == enqueued(queue, next));
                        assert(holds(next));
                        lemma_due_by_bound(queue, next.time);
                        lemma_enqueued_all(queue, next, holds);
                        lemma_enqueued_ordered(queue, now, next);
                    }
                    lemma_replaced_ok(actors, queue, now, i, ActorView::Transformer(after), queued);
                },
                ActorView::Sink(s) => {
                    assert(actor_ok(actors, now, i, actors[i]));
                    lemma_stamped_ok(actors, now, tokens, i);
                    lemma_joined_ok(actors, now, stamped(tokens, s.code, now), s.held);
                    lemma_replaced_ok(
                        actors,
                        queue,
                        now,
                        i,
                        ActorView::Sink(s.imported(tokens, now)),
                        queue,
                    );
                },
                ActorView::Source(s) => {},
            }
        },
        Destination::Broadcast(i) => {
            let i = i as int;
            match actors[i] {
                ActorView::Transformer(t) => {
                    assert(actor_ok(actors, now, i, actors[i]));
                    lemma_broadcast_import_ok(actors, now, t.client, tokens, queue);
                    let (after, queued) = t.client.imported(tokens, queue, now);
                    lemma_replaced_ok(
                        actors,
                        queue,
                        now,
                        i,
                        ActorView::Transformer(TransformerView { client: after, ..t }),
                        queued,
                    );
                },
                ActorView::Source(s) => {
                    assert(actor_ok(actors, now, i, actors[i]));
                    lemma_broadcast_import_ok(actors, now, s.client, tokens, queue);
                    let (after, queued) = s.client.imported(tokens, queue, now);
                    lemma_replaced_ok(
                        actors,
                        queue,
                        now,
                        i,
                        ActorView::Source(SourceView { client: after, ..s }),
                        queued,
                    );
                },
                ActorView::Sink(s) => {},
            }
        },
    }
}

impl World {
    /// What holds of every state that a simulation reaches: the queue is in
    /// the order of time, no delivery is due before now, every actor and
    /// every delivery is sound.
    pub open spec fn sound(self) -> bool {
        &&& ordered_from(self.queue, self.now)
        &&& forall|i: int|
            0 <= i < self.actors.len() ==> actor_ok(
                self.actors,
                self.now,
                i,
                #[trigger] self.actors[i],
            )
        &&& forall|j: int|
            0 <= j < self.queue.len() ==> job_ok(self.actors, self.now, #[trigger] self.queue[j])
    }

    /// The state after the next delivery was made; the state itself where none is pending.
    pub open spec fn step(self) -> World {
        if self.queue.len() == 0 {
            self
        } else {
            let job = self.queue[0];
            let (actors, queue) = delivered(self.actors, self.queue.drop_first(), job.time, job);
            World { actors, queue, now: job.time }
        }
    }

    /// A delivery leaves a sound state sound; it changes no actor's code or
    /// kind, and the clock does not go back.
    pub proof fn lemma_step_sound(self)
        requires
            self.sound(),
        ensures
            self.step().sound(),
            same_shape(self.actors, self.step().actors),
            self.now <= self.step().now,
    {
        if self.queue.len() > 0 {
            let job = self.queue[0];
            let rest = self.queue.drop_first();
            let later = job.time;
            assert(job_ok(self.actors, self.now, job));
            lemma_job_ok_moves(self.actors, self.now, job, self.actors, later);
            assert forall|i: int| 0 <= i < self.actors.len() implies actor_ok(
                self.actors,
                later,
                i,
                #[trigger] self.actors[i],
            ) by {
                lemma_actor_ok_moves(self.actors, self.now, i, self.actors[i], self.actors, later);
            }
            assert forall|j: int| 0 <= j < rest.len() implies job_ok(
                self.actors,
                later,
                #[trigger] rest[j],
            ) by {
                assert(rest[j] == self.queue[j + 1]);
                lemma_job_ok_moves(self.actors, self.now, self.queue[j + 1], self.actors, later);
            }
            assert(ordered_from(rest, later)) by {
                assert forall|a: int| 0 <= a < rest.len() implies later <= (#[trigger] rest[a]).time by {
                    assert(rest[a] == self.queue[a + 1]);
                    assert(self.queue[0].time <= self.queue[a + 1].time);
                }
                assert forall|a: int, b: int| 0 <= a <= b < rest.len() implies (
                #[trigger] rest[a]).time <= (#[trigger] rest[b]).time by {
                    assert(rest[a] == self.queue[a + 1] && rest[b] == self.queue[b + 1]);
                }
            }
            lemma_delivered_sound(self.actors, rest, later, job);
        }
    }

    /// The state after `n` deliveries were made, or as many as there were.
    pub open spec fn run(self, n: nat) -> World
        decreases n,
    {
        if n == 0 || self.queue.len() == 0 {
            self
        } else {
            self.step().run((n - 1) as nat)
        }
    }

    /// Every token that an actor holds or that is on its way has a history
    /// whose times never go back and are not later than now.
    pub open spec fn histories_in_order(self) -> bool {
        &&& forall|i: int, k: int|
            0 <= i < self.actors.len() && 0 <= k < self.actors[i].held().len() ==> {
                let token = #[trigger] self.actors[i].held()[k];
                token.chronological() && token.settled_by(self.now)
            }
        &&& forall|i: int, k: int|
            0 <= i < self.actors.len() && 0 <= k < self.actors[i].outgoing().len() ==> {
                let token = #[trigger] self.actors[i].outgoing()[k];
                token.chronological() && token.settled_by(self.now)
            }
        &&& forall|j: int, k: int|
            0 <= j < self.queue.len() && 0 <= k < self.queue[j].task.tokens.len() ==> {
                let token = #[trigger] self.queue[j].task.tokens[k];
                token.chronological() && token.settled_by(self.now)
            }
    }

    /// No source has made more tokens than it may.
    pub open spec fn production_in_bounds(self) -> bool {
        forall|i: int|
            0 <= i < self.actors.len() ==> ((#[trigger] self.actors[i]) matches ActorView::Source(
                s,
            ) ==> s.total <= s.max_production)
    }

    /// In a sound state the histories are in order and the production is in bounds.
    pub proof fn lemma_sound_means(self)
        requires
            self.sound(),
        ensures
            self.histories_in_order(),
            self.production_in_bounds(),
    {
        assert forall|i: int, k: int|
            0 <= i < self.actors.len() && 0 <= k < self.actors[i].held().len() implies {
            let token = #[trigger] self.actors[i].held()[k];
            token.chronological() && token.settled_by(self.now)
        } by {
            assert(actor_ok(self.actors, self.now, i, self.actors[i]));
            assert(token_ok(self.actors, self.now, self.actors[i].held()[k]));
        }
        assert forall|i: int, k: int|
            0 <= i < self.actors.len() && 0 <= k < self.actors[i].outgoing().len() implies {
            let token = #[trigger] self.actors[i].outgoing()[k];
            token.chronological() && token.settled_by(self.now)
        } by {
            assert(actor_ok(self.actors, self.now, i, self.actors[i]));
            assert(token_ok(self.actors, self.now, self.actors[i].outgoing()[k]));
        }
        assert forall|j: int, k: int|
            0 <= j < self.queue.len() && 0 <= k < self.queue[j].task.tokens.len() implies {
            let token = #[trigger] self.queue[j].task.tokens[k];
            token.chronological() && token.settled_by(self.now)
        } by {
            assert(job_ok(self.actors, self.now, self.queue[j]));
            assert(token_ok(self.actors, self.now, self.queue[j].task.tokens[k]));
        }
        assert forall|i: int| 0 <= i < self.actors.len() implies ((
        #[trigger] self.actors[i]) matches ActorView::Source(s) ==> s.total <= s.max_production) by {
            assert(actor_ok(self.actors, self.now, i, self.actors[i]));
        }
    }

    /// However many deliveries are made from a sound state, the state
    /// reached is sound: every timeline is in the order of time, no source
    /// has made more than it may, and the clock has not gone back.
    pub proof fn lemma_run_sound(self, n: nat)
        requires
            self.sound(),
        ensures
            self.run(n).sound(),
            self.run(n).histories_in_order(),
            self.run(n).production_in_bounds(),
            same_shape(self.actors, self.run(n).actors),
            self.now <= self.run(n).now,
        decreases n,
    {
        if n == 0 || self.queue.len() == 0 {
            self.lemma_sound_means();
        } else {
            self.lemma_step_sound();
            self.step().lemma_run_sound((n - 1) as nat);
        }
    }

    /// The number of tokens in the state: those that the actors hold and
    /// those that are in flight.
    pub open spec fn tokens(self) -> nat {
        population(self.actors) + in_flight(self.queue)
    }

    /// Every broadcast sends on all it takes in, and none holds a token;
    /// no transformer holds a token back.
    pub open spec fn flowing(self) -> bool {
        forall|i: int| 0 <= i < self.actors.len() ==> actor_flows(#[trigger] self.actors[i])
    }

    /// A delivery leaves a sound and flowing state flowing.
    pub proof fn lemma_step_flowing(self)
        requires
            self.sound(),
            self.flowing(),
        ensures
            self.step().flowing(),
    {
        if self.queue.len() > 0 {
            let job = self.queue[0];
            let rest = self.queue.drop_first();
            let now = job.time;
            let tokens = job.task.tokens;
            let after = self.step().actors;
            assert(job_ok(self.actors, self.now, job));
            assert forall|i: int| 0 <= i < after.len() implies actor_flows(#[trigger] after[i]) by {
                assert(actor_flows(self.actors[i]));
                assert(actor_ok(self.actors, self.now, i, self.actors[i]));
                match job.task.destination {
                    Destination::Actor(y) => {
                        if y == i {
                            match self.actors[i] {
                                ActorView::Transformer(t) => {
                                    assert(stamped(tokens, t.code, now) + t.held =~= stamped(
                                        tokens,
                                        t.code,
                                        now,
                                    ));
                                },
                                _ => {},
                            }
                        }
                    },
                    Destination::Broadcast(x) => {
                        if x == i {
                            match self.actors[i] {
                                ActorView::Transformer(t) => {
                                    let full = BroadcastView {
                                        held: tokens + t.client.held,
                                        ..t.client
                                    };
                                    full.lemma_routed_empties(rest, now);
                                    full.lemma_routed_wf(rest, now);
                                    full.lemma_routed_quantity(rest, now);
                                },
                                ActorView::Source(s) => {
                                    let full = BroadcastView {
                                        held: tokens + s.client.held,
                                        ..s.client
                                    };
                                    full.lemma_routed_empties(rest, now);
                                    full.lemma_routed_wf(rest, now);
                                    full.lemma_routed_quantity(rest, now);
                                },
                                _ => {},
                            }
                        }
                    },
                }
            }
        }
    }

    /// However many deliveries are made from a sound and flowing state,
    /// the state reached is flowing.
    pub proof fn lemma_run_flowing(self, n: nat)
        requires
            self.sound(),
            self.flowing(),
        ensures
            self.run(n).flowing(),
        decreases n,
    {
        if n > 0 && self.queue.len() > 0 {
            self.lemma_step_sound();
            self.lemma_step_flowing();
            self.step().lemma_run_flowing((n - 1) as nat);
        }
    }

    /// Where a balanced and flowing state is idle, every token that the
    /// sources have made is held by a sink.
    pub proof fn lemma_idle_all_arrived(self)
        requires
            self.balanced(),
            self.flowing(),
            self.queue.len() == 0,
        ensures
            arrived(self.actors) == produced(self.actors),
    {
        assert(loads(self.queue) =~= Seq::<nat>::empty());
        assert forall|i: int| 0 <= i < self.actors.len() implies sizes(self.actors)[i]
            == arrivals(self.actors)[i] by {
            assert(actor_flows(self.actors[i]));
        }
        assert(sizes(self.actors) =~= arrivals(self.actors));
    }

    /// The tokens held and in flight are as many as the sources have made.
    pub open spec fn balanced(self) -> bool {
        self.tokens() == produced(self.actors)
    }

    /// A state in which no actor holds a token, no source has made one
    /// and none is in flight is balanced.
    pub proof fn lemma_empty_balanced(self)
        requires
            self.queue.len() == 0,
            forall|i: int|
                0 <= i < self.actors.len() ==> (#[trigger] self.actors[i]).held().len() == 0
                    && self.actors[i].outgoing().len() == 0,
            forall|i: int|
                0 <= i < self.actors.len() ==> ((#[trigger] self.actors[i]) matches ActorView::Source(
                    s,
                ) ==> s.total == 0),
        ensures
            self.tokens() == 0,
            produced(self.actors) == 0,
            self.balanced(),
    {
        lemma_sum_zeros(sizes(self.actors));
        lemma_sum_zeros(outputs(self.actors));
        assert(loads(self.queue) =~= Seq::<nat>::empty());
    }

    /// Conservation: however many deliveries are made from a sound state,
    /// the tokens held and in flight stay as many, and the sources have
    /// made as many.  So where they were as many as the sources had made,
    /// they still are.
    pub proof fn lemma_run_conserves(self, n: nat)
        requires
            self.sound(),
        ensures
            self.run(n).tokens() == self.tokens(),
            produced(self.run(n).actors) == produced(self.actors),
        decreases n,
    {
        if n > 0 && self.queue.len() > 0 {
            let job = self.queue[0];
            let rest = self.queue.drop_first();
            let later = job.time;
            self.lemma_step_sound();
            lemma_in_flight_drop_first(self.queue);
            assert(job_ok(self.actors, self.now, job));
            lemma_job_ok_moves(self.actors, self.now, job, self.actors, later);
            assert forall|i: int| 0 <= i < self.actors.len() implies actor_ok(
                self.actors,
                later,
                i,
                #[trigger] self.actors[i],
            ) by {
                lemma_actor_ok_moves(self.actors, self.now, i, self.actors[i], self.actors, later);
            }
            assert forall|j: int| 0 <= j < rest.len() implies job_ok(
                self.actors,
                later,
                #[trigger] rest[j],
            ) by {
                assert(rest[j] == self.queue[j + 1]);
                lemma_job_ok_moves(self.actors, self.now, self.queue[j + 1], self.actors, later);
            }
            lemma_delivered_conserves(self.actors, rest, later, job);
            self.step().lemma_run_conserves((n - 1) as nat);
        }
    }

    /// A run is a function of the state it starts from: equal states have equal runs.
    pub proof fn lemma_run_deterministic(self, other: World, n: nat)
        requires
            self == other,
        ensures
            self.run(n) == other.run(n),
    {
    }

    /// Running on after a run is one longer run.
    pub proof fn lemma_run_resumes(self, n: nat, m: nat)
        ensures
            self.run(n).run(m) == self.run(n + m),
        decreases n,
    {
        if n == 0 {
        } else if self.queue.len() == 0 {
            self.lemma_run_idle(m);
            self.lemma_run_idle(n + m);
        } else {
            self.step().lemma_run_resumes((n - 1) as nat, m);
        }
    }

    /// Where nothing is pending a run changes nothing.
    pub proof fn lemma_run_idle(self, n: nat)
        requires
            self.queue.len() == 0,
        ensures
            self.run(n) == self,
    {
    }
}

/// The source and the queue after the source supplied batch after batch
/// until it was exhausted, the clock standing at `now`: the first batch
/// for `times` periods of the source, each next one for a period later.
pub open spec fn supplied_out(s: SourceView, queue: Seq<JobView>, now: u64, times: nat) -> (
    SourceView,
    Seq<JobView>,
)
    decreases s.max_production - s.total,
{
    if s.exhausted() {
        (s, queue)
    } else {
        let time = (s.speed.1 * times) as u64;
        supplied_out(s.supplied(time), s.supply_queued(time, now, queue), now, times + 1)
    }
}

/// A source that has not made more than it may and supplies until it is
/// exhausted has made all it may, unless its batches are empty.
pub proof fn lemma_supplied_out_total(s: SourceView, queue: Seq<JobView>, now: u64, times: nat)
    requires
        s.total <= s.max_production,
    ensures
        supplied_out(s, queue, now, times).0.exhausted(),
        s.speed.0 > 0 ==> supplied_out(s, queue, now, times).0.total == s.max_production,
        s.speed.0 == 0 ==> supplied_out(s, queue, now, times) == (s, queue),
    decreases s.max_production - s.total,
{
    if !s.exhausted() {
        let time = (s.speed.1 * times) as u64;
        lemma_supplied_out_total(s.supplied(time), s.supply_queued(time, now, queue), now, times + 1);
    }
}

/// A source that supplies until it is exhausted puts as many tokens in
/// flight as it adds to its count.
pub proof fn lemma_supplied_out_counts(s: SourceView, queue: Seq<JobView>, now: u64, times: nat)
    requires
        s.total <= s.max_production,
    ensures
        in_flight(supplied_out(s, queue, now, times).1) + s.total == in_flight(queue) + supplied_out(
            s,
            queue,
            now,
            times,
        ).0.total,
    decreases s.max_production - s.total,
{
    if !s.exhausted() {
        let time = (s.speed.1 * times) as u64;
        lemma_in_flight_enqueued(
            queue,
            JobView {
                time: supply_due(time, now),
                task: TaskView {
                    destination: Destination::Broadcast(s.place),
                    code_product: s.code_product,
                    tokens: fresh(s.code_product, s.next_batch()),
                },
            },
        );
        lemma_supplied_out_counts(
            s.supplied(time),
            s.supply_queued(time, now, queue),
            now,
            times + 1,
        );
    }
}

/// Supplying changes, of a source, its count and the time of its last
/// batch, and nothing else.
pub proof fn lemma_supplied_out_frame(s: SourceView, queue: Seq<JobView>, now: u64, times: nat)
    ensures
        supplied_out(s, queue, now, times).0 == (SourceView {
            total: supplied_out(s, queue, now, times).0.total,
            last: supplied_out(s, queue, now, times).0.last,
            ..s
        }),
        s.exhausted() ==> supplied_out(s, queue, now, times) == (s, queue),
        supplied_out(s, queue, now, times).0.total >= s.total,
    decreases s.max_production - s.total,
{
    if !s.exhausted() {
        let time = (s.speed.1 * times) as u64;
        lemma_supplied_out_frame(
            s.supplied(time),
            s.supply_queued(time, now, queue),
            now,
            times + 1,
        );
    }
}

/// The actors and the queue after the sources at the first `n` of
/// `places` supplied until they were exhausted, one after the other, each
/// from its first batch at time 0 on.  A place that is not that of a
/// source changes nothing.
pub open spec fn supplied_all(
    actors: Seq<ActorView>,
    queue: Seq<JobView>,
    now: u64,
    places: Seq<usize>,
    n: nat,
) -> (Seq<ActorView>, Seq<JobView>)
    decreases n,
{
    if n == 0 {
        (actors, queue)
    } else {
        let (before, queued) = supplied_all(actors, queue, now, places, (n - 1) as nat);
        let place = places[n - 1] as int;
        if place < before.len() && before[place] is Source {
            let (after, grown) = supplied_out(before[place]->Source_0, queued, now, 0);
            (before.update(place, ActorView::Source(after)), grown)
        } else {
            (before, queued)
        }
    }
}

/// The sources that supply one after the other leave every actor
/// flowing that was, and no other.
pub proof fn lemma_supplied_all_flows(
    actors: Seq<ActorView>,
    queue: Seq<JobView>,
    now: u64,
    places: Seq<usize>,
    n: nat,
)
    requires
        n <= places.len(),
    ensures
        supplied_all(actors, queue, now, places, n).0.len() == actors.len(),
        forall|x: int|
            0 <= x < actors.len() ==> actor_flows(
                #[trigger] supplied_all(actors, queue, now, places, n).0[x],
            ) == actor_flows(actors[x]),
    decreases n,
{
    if n > 0 {
        lemma_supplied_all_flows(actors, queue, now, places, (n - 1) as nat);
        let (before, queued) = supplied_all(actors, queue, now, places, (n - 1) as nat);
        let place = places[n - 1] as int;
        if place < before.len() && before[place] is Source {
            lemma_supplied_out_frame(before[place]->Source_0, queued, now, 0);
        }
    }
}

/// `place` is among the first `n` of `places`.
pub open spec fn listed(places: Seq<usize>, n: nat, place: int) -> bool {
    exists|k: int| 0 <= k < n && (#[trigger] places[k]) == place
}

/// The tokens that the first `n` actors hand over when each is asked for
/// its tokens, in the order of the actors.
pub open spec fn drained_all(actors: Seq<ActorView>, n: nat) -> Seq<TokenView>
    decreases n,
{
    if n == 0 {
        Seq::empty()
    } else {
        drained_all(actors, (n - 1) as nat) + actors[n - 1].drained()
    }
}

/// A sound state is sound after every actor handed over its tokens.
pub proof fn lemma_emptied_sound(w: World, after: Seq<ActorView>)
    requires
        w.sound(),
        after.len() == w.actors.len(),
        forall|i: int| 0 <= i < after.len() ==> #[trigger] after[i] == w.actors[i].emptied(),
    ensures
        (World { actors: after, ..w }).sound(),
        same_shape(w.actors, after),
{
    assert forall|i: int| 0 <= i < w.actors.len() implies {
        &&& (#[trigger] w.actors[i]).code() == after[i].code()
        &&& w.actors[i] is Source <==> after[i] is Source
        &&& w.actors[i] is Sink <==> after[i] is Sink
    } by {
        assert(after[i] == w.actors[i].emptied());
    }
    assert forall|i: int| 0 <= i < after.len() implies actor_ok(
        after,
        w.now,
        i,
        #[trigger] after[i],
    ) by {
        assert(after[i] == w.actors[i].emptied());
        assert(actor_ok(w.actors, w.now, i, w.actors[i]));
        lemma_actor_ok_moves(w.actors, w.now, i, w.actors[i], after, w.now);
        match w.actors[i] {
            ActorView::Transformer(t) => {
                assert(broadcast_ok(after, w.now, t.client));
            },
            _ => {},
        }
    }
    assert forall|j: int| 0 <= j < w.queue.len() implies job_ok(
        after,
        w.now,
        #[trigger] w.queue[j],
    ) by {
        lemma_job_ok_moves(w.actors, w.now, w.queue[j], after, w.now);
    }
}

/// A batch of new tokens of a sound source is sound.
pub proof fn lemma_fresh_ok(actors: Seq<ActorView>, now: u64, s: SourceView, n: nat)
    requires
        forall|k: int|
            0 <= k < actors.len() ==> s.code_product + (#[trigger] actors[k]).code() <= u16::MAX,
    ensures
        batch_ok(actors, now, fresh(s.code_product, n)),
{
    assert forall|x: int| 0 <= x < n implies token_ok(
        actors,
        now,
        #[trigger] fresh(s.code_product, n)[x],
    ) by {
        let token = fresh(s.code_product, n)[x];
        assert forall|k: int| 0 <= k < actors.len() implies token.stampable(
            (#[trigger] actors[k]).code(),
        ) by {
            assert(s.code_product + actors[k].code() <= u16::MAX);
        }
    }
}

/// The value of the source at place `i`.
pub open spec fn source_at(actors: Seq<AnyActor>, i: int) -> SourceView {
    actors[i]->Source_0@
}

/// Lets the source at place `source` supply until it is exhausted: the
/// first batch is queued for `times` periods of the source from time 0,
/// each next one for a period later; a batch whose time the clock has
/// passed is due at once.
pub fn supply_loop(
    actors: &mut Vec<AnyActor>,
    scheduler: &mut Scheduler,
    source: usize,
    times: u32,
)
    requires
        source < old(actors)@.len(),
        old(actors)@[source as int] is Source,
        network_wf(old(actors)@),
        world_of(old(actors)@, *old(scheduler)).sound(),
        times + source_at(old(actors)@, source as int).max_production <= u32::MAX,
    ensures
        final(actors)@.len() == old(actors)@.len(),
        forall|i: int|
            0 <= i < old(actors)@.len() && i != source ==> final(actors)@[i] == old(actors)@[i],
        final(actors)@[source as int] is Source,
        (source_at(final(actors)@, source as int), final(scheduler).queue()) == supplied_out(
            source_at(old(actors)@, source as int),
            old(scheduler).queue(),
            old(scheduler).now(),
            times as nat,
        ),
        source_at(final(actors)@, source as int).exhausted(),
        source_at(old(actors)@, source as int).speed.0 > 0 ==> source_at(
            final(actors)@,
            source as int,
        ).total == source_at(old(actors)@, source as int).max_production,
        final(scheduler).now() == old(scheduler).now(),
        network_wf(final(actors)@),
        world_of(final(actors)@, *final(scheduler)).sound(),
        in_flight(final(scheduler).queue()) + source_at(old(actors)@, source as int).total
            == in_flight(old(scheduler).queue()) + source_at(final(actors)@, source as int).total,
        same_frame(views(old(actors)@), views(final(actors)@)),
        world_of(old(actors)@, *old(scheduler)).unrepeated() ==> world_of(
            final(actors)@,
            *final(scheduler),
        ).unrepeated(),
        world_of(old(actors)@, *old(scheduler)).balanced() ==> world_of(
            final(actors)@,
            *final(scheduler),
        ).balanced(),
        world_of(old(actors)@, *old(scheduler)).flowing() ==> world_of(
            final(actors)@,
            *final(scheduler),
        ).flowing(),
{
    let ghost first = actors@[source as int]->Source_0@;
    let ghost start = world_of(actors@, *scheduler);
    proof {
        assert(start.actors[source as int]->Source_0 == first);
        let end = supplied_out(first, start.queue, start.now, times as nat).0;
        let after = start.actors.update(source as int, ActorView::Source(end));
        lemma_supplied_out_frame(first, start.queue, start.now, times as nat);
        assert(same_frame(start.actors, after));
        if start.unrepeated() {
            lemma_supplied_out_unrepeated(
                start.actors,
                start.queue,
                start.now,
                source as int,
                times as nat,
            );
        }
        lemma_population_update(start.actors, source as int, ActorView::Source(end));
        lemma_produced_update(start.actors, source as int, ActorView::Source(end));
        assert(actor_ok(start.actors, start.now, source as int, start.actors[source as int]));
        lemma_supplied_out_total(first, scheduler.queue(), scheduler.now(), times as nat);
        lemma_supplied_out_counts(first, scheduler.queue(), scheduler.now(), times as nat);
    }
    let mut k: u32 = times;
    let mut more = true;
    while more
        invariant
            actors@.len() == old(actors)@.len(),
            source < actors@.len(),
            forall|i: int|
                0 <= i < old(actors)@.len() && i != source ==> actors@[i] == old(actors)@[i],
            actors@[source as int] is Source,
            first == old(actors)@[source as int]->Source_0@,
            first.total <= first.max_production,
            times + first.max_production <= u32::MAX,
            actors@[source as int]->Source_0@.speed == first.speed,
            actors@[source as int]->Source_0@.max_production == first.max_production,
            actors@[source as int]->Source_0@.total <= first.max_production,
            times <= k,
            k - times <= actors@[source as int]->Source_0@.total,
            scheduler.now() == old(scheduler).now(),
            network_wf(actors@),
            world_of(actors@, *scheduler).sound(),
            more ==> supplied_out(
                actors@[source as int]->Source_0@,
                scheduler.queue(),
                scheduler.now(),
                k as nat,
            ) == supplied_out(
                first,
                old(scheduler).queue(),
                old(scheduler).now(),
                times as nat,
            ),
            !more ==> (actors@[source as int]->Source_0@, scheduler.queue()) == supplied_out(
                first,
                old(scheduler).queue(),
                old(scheduler).now(),
                times as nat,
            ),
        decreases
                (if more {
                    1 + first.max_production - actors@[source as int]->Source_0@.total
                } else {
                    0
                }),
    {
        let ghost before = world_of(actors@, *scheduler);
        let ghost held = actors@;
        match &mut actors[source] {
            AnyActor::Source(s) => {
                let ghost was = s@;
                proof {
                    assert(was == before.actors[source as int]->Source_0);
                    assert(actor_ok(
                        before.actors,
                        before.now,
                        source as int,
                        before.actors[source as int],
                    ));
                    assert(0 <= (was.speed.1 as int) * (k as int) <= 0xffff_ffff * 0xffff_ffff)
                        by (nonlinear_arith)
                        requires
                            0 <= was.speed.1 <= 0xffff_ffff,
                            0 <= k <= 0xffff_ffff,
                    ;
                }
                let time = s.delay() * (k as u64);
                more = s.supply(time, scheduler);
                proof {
                    if more {
                        let job = JobView {
                            time: supply_due(time, before.now),
                            task: TaskView {
                                destination: Destination::Broadcast(was.place),
                                code_product: was.code_product,
                                tokens: fresh(was.code_product, was.next_batch()),
                            },
                        };
                        lemma_fresh_ok(before.actors, before.now, was, was.next_batch());
                        let holds = |job: JobView| job_ok(before.actors, before.now, job);
                        assert(holds(job));
                        lemma_due_by_bound(before.queue, job.time);
                        lemma_enqueued_all(before.queue, job, holds);
                        lemma_enqueued_ordered(before.queue, before.now, job);
                        lemma_replaced_ok(
                            before.actors,
                            before.queue,
                            before.now,
                            source as int,
                            ActorView::Source(s@),
                            scheduler.queue(),
                        );
                    }
                }
            },
            _ => {
                more = false;
            },
        }
        proof {
            if more {
                assert(views(actors@) =~= before.actors.update(
                    source as int,
                    actors@[source as int]@,
                ));
            } else {
                assert(actors@ =~= held);
            }
        }
        if more {
            k = k + 1;
        }
    }
    proof {
        let end = views(actors@);
        assert(end =~= start.actors.update(
            source as int,
            ActorView::Source(source_at(actors@, source as int)),
        ));
        if start.flowing() {
            assert forall|i: int| 0 <= i < end.len() implies actor_flows(#[trigger] end[i]) by {
                assert(actor_flows(start.actors[i]));
            }
        }
    }
}

impl Scheduler {
    /// Makes the next delivery, if one is pending, and tells whether it did.
    pub fn run_next(&mut self, actors: &mut Vec<AnyActor>) -> (ran: bool)
        requires
            network_wf(old(actors)@),
            world_of(old(actors)@, *old(self)).sound(),
        ensures
            ran == (old(self).queue().len() > 0),
            world_of(final(actors)@, *final(self)) == world_of(old(actors)@, *old(self)).step(),
            network_wf(final(actors)@),
            world_of(final(actors)@, *final(self)).sound(),
            old(self).now() <= final(self).now(),
    {
        let ghost before = world_of(actors@, *self);
        proof {
            before.lemma_step_sound();
        }
        let job = match self.next_job() {
            Some(job) => job,
            None => {
                return false;
            },
        };
        let ghost rest = self.queue();
        let ghost shown = job@;
        let Job { time, task } = job;
        let Task { destination, code_product, tokens } = task;
        proof {
            assert(job_ok(before.actors, before.now, shown));
            lemma_job_ok_moves(before.actors, before.now, shown, before.actors, time);
            assert(views(actors@) == before.actors);
        }
        match destination {
            Destination::Actor(i) => {
                if i < actors.len() {
                    proof {
                        assert(actors@[i as int].wf());
                        assert(before.actors[i as int] == actors@[i as int]@);
                        assert(before.actors[i as int].code() == actors@[i as int]@.code());
                    }
                    match &mut actors[i] {
                        AnyActor::Transformer(t) => {
                            t.import(code_product, tokens, time, self);
                        },
                        AnyActor::Sink(s) => {
                            s.import(code_product, tokens, time, self);
                        },
                        AnyActor::Source(_) => {},
                    }
                }
            },
            Destination::Broadcast(i) => {
                if i < actors.len() {
                    proof {
                        assert(actors@[i as int].wf());
                        assert(before.actors[i as int] == actors@[i as int]@);
                    }
                    match &mut actors[i] {
                        AnyActor::Transformer(t) => {
                            t.client.import(code_product, tokens, time, self);
                        },
                        AnyActor::Source(s) => {
                            s.client.import(code_product, tokens, time, self);
                        },
                        AnyActor::Sink(_) => {},
                    }
                }
            },
        }
        proof {
            assert(views(actors@) =~= before.step().actors);
        }
        true
    }

    /// Makes the pending deliveries in their order, those that they bring
    /// about among them, until none is pending or `max_jobs` were made.
    /// Tells whether none is pending.
    pub fn run(&mut self, actors: &mut Vec<AnyActor>, max_jobs: usize) -> (idle: bool)
        requires
            network_wf(old(actors)@),
            world_of(old(actors)@, *old(self)).sound(),
        ensures
            world_of(final(actors)@, *final(self)) == world_of(old(actors)@, *old(self)).run(
                max_jobs as nat,
            ),
            idle == (final(self).queue().len() == 0),
            network_wf(final(actors)@),
            world_of(final(actors)@, *final(self)).sound(),
            old(self).now() <= final(self).now(),
            world_of(final(actors)@, *final(self)).tokens() == world_of(
                old(actors)@,
                *old(self),
            ).tokens(),
            produced(views(final(actors)@)) == produced(views(old(actors)@)),
            final(actors)@.len() == old(actors)@.len(),
            same_shape(views(old(actors)@), views(final(actors)@)),
            world_of(old(actors)@, *old(self)).balanced() ==> world_of(
                final(actors)@,
                *final(self),
            ).balanced(),
            world_of(old(actors)@, *old(self)).flowing() ==> world_of(
                final(actors)@,
                *final(self),
            ).flowing(),
            world_of(old(actors)@, *old(self)).steady() && world_of(
                old(actors)@,
                *old(self),
            ).unrepeated() && final(self).now() < u64::MAX ==> world_of(
                final(actors)@,
                *final(self),
            ).steady() && world_of(final(actors)@, *final(self)).unrepeated(),
    {
        let ghost start = world_of(actors@, *self);
        proof {
            start.lemma_run_conserves(max_jobs as nat);
            start.lemma_run_sound(max_jobs as nat);
            if start.flowing() {
                start.lemma_run_flowing(max_jobs as nat);
            }
            if start.steady() && start.unrepeated() && start.run(max_jobs as nat).now < u64::MAX {
                start.lemma_run_unrepeated(max_jobs as nat);
            }
        }
        let mut done: usize = 0;
        while done < max_jobs && self.pending() > 0
            invariant
                done <= max_jobs,
                network_wf(actors@),
                world_of(actors@, *self).sound(),
                start.now <= self.now(),
                world_of(actors@, *self).run((max_jobs - done) as nat) == start.run(
                    max_jobs as nat,
                ),
            decreases max_jobs - done,
        {
            self.run_next(actors);
            done += 1;
        }
        self.pending() == 0
    }
}

} // verus!
