//! Driving a network that was built from a description: the supplies at
//! the start, the tokens at the end, and the reset between two runs.

use crate::engine::actors::{ActorView, AnyActor};
use crate::engine::scheduler::{JobView, Scheduler};
use crate::engine::histories::{
    actor_waits, batch_no_repeat, no_repeat, distinct_actor_codes, lemma_empty_unrepeated, lemma_self_loops_by_actor,
    lemma_steady_moves, lemma_supplied_all_frame, lemma_supplied_all_unrepeated, same_frame,
};
use crate::engine::scheduler::in_flight;
use crate::engine::simulation::{
    actor_flows, actor_ok, lemma_supplied_all_flows, drained_all, edge_ok, lemma_emptied_sound, lemma_population_update,
    lemma_produced_update, lemma_supplied_out_frame, listed, network_wf, population, produced,
    source_at, supplied_all, supply_loop, token_ok, views, world_of, World,
};
use crate::engine::tokens::{batch_view, in_order, Token};
use crate::parser::yaml_parser::{lemma_built_sound, Config};
use vstd::prelude::*;

verus! {

impl Config {
    /// The state that the network and its scheduler are in.
    pub open spec fn world(&self) -> World {
        world_of(self.actors@, self.scheduler)
    }

    /// Whether the network is flowing: every source and every transformer
    /// has a client, and turns to give where it has more than one, and
    /// none of them holds a token.  When a run of a flowing network is
    /// idle, every token is in a sink.
    pub fn is_flowing(&self) -> (yes: bool)
        ensures
            yes == self.world().flowing(),
    {
        let ghost shape = views(self.actors@);
        let n = self.actors.len();
        let mut i: usize = 0;
        while i < n
            invariant
                i <= n,
                n == self.actors@.len(),
                shape == views(self.actors@),
                forall|x: int| 0 <= x < i ==> actor_flows(#[trigger] shape[x]),
            decreases n - i,
        {
            let flows = match &self.actors[i] {
                AnyActor::Source(s) => s.client.flows(),
                AnyActor::Transformer(t) => t.client.flows()
                    && t.import_fifo.available_tokens() == 0,
                AnyActor::Sink(_) => true,
            };
            proof {
                assert(shape[i as int] == self.actors@[i as int]@);
                assert(flows == actor_flows(shape[i as int]));
                assert(self.world().actors == shape);
            }
            if !flows {
                return false;
            }
            i += 1;
        }
        true
    }

    /// Whether the network is steady: no two actors have one code, and
    /// every transformer that is among its own clients keeps what it takes
    /// in for a time.  In a run of a steady network no timeline gets an
    /// entry twice in a row.
    pub fn is_steady(&self) -> (yes: bool)
        ensures
            yes == self.world().steady(),
    {
        let ghost shape = views(self.actors@);
        let n = self.actors.len();
        let mut i: usize = 0;
        while i < n
            invariant
                i <= n,
                n == self.actors@.len(),
                shape == views(self.actors@),
                forall|a: int, b: int|
                    0 <= a < i && a < b < n ==> (#[trigger] shape[a]).code() != (
                    #[trigger] shape[b]).code(),
            decreases n - i,
        {
            let code = self.actors[i].code();
            let mut j: usize = i + 1;
            while j < n
                invariant
                    i < j <= n,
                    n == self.actors@.len(),
                    shape == views(self.actors@),
                    code == shape[i as int].code(),
                    forall|b: int| i < b < j ==> code != (#[trigger] shape[b]).code(),
                decreases n - j,
            {
                if self.actors[j].code() == code {
                    proof {
                        assert(shape[i as int].code() == shape[j as int].code());
                    }
                    return false;
                }
                j += 1;
            }
            i += 1;
        }
        let mut i: usize = 0;
        while i < n
            invariant
                i <= n,
                n == self.actors@.len(),
                shape == views(self.actors@),
                distinct_actor_codes(shape),
                forall|x: int| 0 <= x < i ==> actor_waits(#[trigger] shape[x], x),
            decreases n - i,
        {
            match &self.actors[i] {
                AnyActor::Transformer(t) => {
                    if t.feeds(i) && !t.waits() {
                        proof {
                            assert(shape[i as int] == self.actors@[i as int]@);
                            assert(!actor_waits(shape[i as int], i as int));
                            lemma_self_loops_by_actor(shape);
                        }
                        return false;
                    }
                    proof {
                        assert(shape[i as int] == self.actors@[i as int]@);
                    }
                },
                _ => {
                    proof {
                        assert(shape[i as int] == self.actors@[i as int]@);
                    }
                },
            }
            i += 1;
        }
        proof {
            lemma_self_loops_by_actor(shape);
        }
        true
    }

    /// Lets every source that supplies at the start supply until it is
    /// exhausted, in the order of the descriptions: the first batch of each
    /// is due at time 0, each next one a period of the source later, and a
    /// batch whose time the clock has passed at once.  Nothing else changes.
    pub fn supply_all(&mut self)
        requires
            old(self).ready(),
        ensures
            final(self).ready(),
            (views(final(self).actors@), final(self).scheduler.queue()) == supplied_all(
                views(old(self).actors@),
                old(self).scheduler.queue(),
                old(self).scheduler.now(),
                old(self).init_sources@,
                old(self).init_sources@.len(),
            ),
            final(self).scheduler.now() == old(self).scheduler.now(),
            final(self).init_sources == old(self).init_sources,
            final(self).loging_config == old(self).loging_config,
            final(self).actors@.len() == old(self).actors@.len(),
            forall|x: int|
                0 <= x < old(self).actors@.len() && !listed(
                    old(self).init_sources@,
                    old(self).init_sources@.len(),
                    x,
                ) ==> #[trigger] final(self).actors@[x] == old(self).actors@[x],
            forall|k: int|
                0 <= k < final(self).init_sources@.len() ==> {
                    let source = source_at(
                        final(self).actors@,
                        #[trigger] final(self).init_sources@[k] as int,
                    );
                    source.exhausted() && (source.speed.0 > 0 ==> source.total
                        == source.max_production)
                },
            population(views(final(self).actors@)) == population(views(old(self).actors@)),
            in_flight(final(self).scheduler.queue()) + produced(views(old(self).actors@))
                == in_flight(old(self).scheduler.queue()) + produced(views(final(self).actors@)),
            old(self).world().balanced() ==> final(self).world().balanced(),
            old(self).world().flowing() ==> final(self).world().flowing(),
            same_frame(views(old(self).actors@), views(final(self).actors@)),
            old(self).world().unrepeated() ==> final(self).world().unrepeated(),
            old(self).world().steady() ==> final(self).world().steady(),
    {
        proof {
            let w = self.world();
            lemma_supplied_all_flows(
                w.actors,
                w.queue,
                w.now,
                self.init_sources@,
                self.init_sources@.len(),
            );
            if w.flowing() {
                let end = supplied_all(
                    w.actors,
                    w.queue,
                    w.now,
                    self.init_sources@,
                    self.init_sources@.len(),
                ).0;
                assert forall|x: int| 0 <= x < end.len() implies actor_flows(#[trigger] end[x]) by {
                    assert(actor_flows(w.actors[x]));
                }
            }
            if w.unrepeated() {
                lemma_supplied_all_unrepeated(
                    w.actors,
                    w.queue,
                    w.now,
                    self.init_sources@,
                    self.init_sources@.len(),
                );
            } else {
                lemma_supplied_all_frame(
                    w.actors,
                    w.queue,
                    w.now,
                    self.init_sources@,
                    self.init_sources@.len(),
                );
            }
            if w.steady() {
                lemma_steady_moves(
                    w.actors,
                    supplied_all(
                        w.actors,
                        w.queue,
                        w.now,
                        self.init_sources@,
                        self.init_sources@.len(),
                    ).0,
                );
            }
        }
        let ghost first = views(self.actors@);
        let ghost queue = self.scheduler.queue();
        let ghost now = self.scheduler.now();
        let ghost places = self.init_sources@;
        let n = self.init_sources.len();
        let mut i: usize = 0;
        while i < n
            invariant
                i <= n,
                n == places.len(),
                places == self.init_sources@,
                first == views(old(self).actors@),
                queue == old(self).scheduler.queue(),
                now == old(self).scheduler.now(),
                self.ready(),
                (views(self.actors@), self.scheduler.queue()) == supplied_all(
                    first,
                    queue,
                    now,
                    places,
                    i as nat,
                ),
                self.scheduler.now() == now,
                self.init_sources == old(self).init_sources,
                self.loging_config == old(self).loging_config,
                self.actors@.len() == old(self).actors@.len(),
                forall|x: int|
                    0 <= x < self.actors@.len() && !listed(places, i as nat, x)
                        ==> #[trigger] self.actors@[x] == old(self).actors@[x],
                forall|k: int|
                    0 <= k < i ==> {
                        let source = source_at(self.actors@, #[trigger] places[k] as int);
                        source.exhausted() && (source.speed.0 > 0 ==> source.total
                            == source.max_production)
                    },
                population(views(self.actors@)) == population(first),
                in_flight(self.scheduler.queue()) + produced(first) == in_flight(queue) + produced(
                    views(self.actors@),
                ),
            decreases n - i,
        {
            let source = self.init_sources[i];
            let ghost before = self.actors@;
            let ghost was = views(before);
            let ghost queued = self.scheduler.queue();
            supply_loop(&mut self.actors, &mut self.scheduler, source, 0);
            proof {
                let place = source as int;
                let given = source_at(before, place);
                let after = source_at(self.actors@, place);
                assert(was[place] == before[place]@);
                assert(was[place]->Source_0 == given);
                lemma_supplied_out_frame(given, queued, now, 0);
                assert(views(self.actors@) =~= was.update(place, ActorView::Source(after)));
                lemma_population_update(was, place, ActorView::Source(after));
                lemma_produced_update(was, place, ActorView::Source(after));
                assert forall|x: int|
                    0 <= x < self.actors@.len() && !listed(places, (i + 1) as nat, x) implies #[trigger] self.actors@[x]
                    == old(self).actors@[x] by {
                    assert(places[i as int] != x);
                    if listed(places, i as nat, x) {
                        let k = choose|k: int| 0 <= k < i && (#[trigger] places[k]) == x;
                        assert(places[k] == x);
                    }
                }
                assert forall|k: int| 0 <= k < i + 1 implies {
                    let source = source_at(self.actors@, #[trigger] places[k] as int);
                    source.exhausted() && (source.speed.0 > 0 ==> source.total
                        == source.max_production)
                } by {
                    let other = places[k] as int;
                    if other != place {
                        assert(self.actors@[other] == before[other]);
                    }
                }
            }
            i += 1;
        }
    }

    /// Makes the pending deliveries in their order, those that they bring
    /// about among them, until none is pending or `max_jobs` were made.
    /// Tells whether none is pending.  No token is lost or made, the clock
    /// does not go back, and the network stays ready.
    pub fn run(&mut self, max_jobs: usize) -> (idle: bool)
        requires
            old(self).ready(),
        ensures
            final(self).world() == old(self).world().run(max_jobs as nat),
            idle == (final(self).scheduler.queue().len() == 0),
            final(self).ready(),
            final(self).init_sources == old(self).init_sources,
            final(self).loging_config == old(self).loging_config,
            final(self).actors@.len() == old(self).actors@.len(),
            old(self).scheduler.now() <= final(self).scheduler.now(),
            final(self).world().tokens() == old(self).world().tokens(),
            produced(views(final(self).actors@)) == produced(views(old(self).actors@)),
            old(self).world().balanced() ==> final(self).world().balanced(),
            old(self).world().flowing() ==> final(self).world().flowing(),
            old(self).world().steady() && old(self).world().unrepeated()
                && final(self).scheduler.now() < u64::MAX
                ==> final(self).world().steady() && final(self).world().unrepeated(),
    {
        let ghost before = views(self.actors@);
        let idle = self.scheduler.run(&mut self.actors, max_jobs);
        proof {
            let after = views(self.actors@);
            assert forall|k: int| 0 <= k < self.init_sources@.len() implies (
            #[trigger] self.init_sources@[k]) < self.actors@.len()
                && self.actors@[self.init_sources@[k] as int] is Source by {
                let x = self.init_sources@[k] as int;
                assert(old(self).actors@[x] is Source);
                assert(before[x] == old(self).actors@[x]@);
                assert(after[x] == self.actors@[x]@);
                assert(before[x] is Source <==> after[x] is Source);
            }
        }
        idle
    }

    /// Hands over the tokens that the actors hold, in the order of the
    /// actors, and for each actor in the order in which it hands them
    /// over.  Their timelines are in the order of time.  The scheduler
    /// stays as it is.
    pub fn tokens(&mut self) -> (tokens: Vec<Token>)
        requires
            old(self).ready(),
        ensures
            batch_view(tokens@) == drained_all(
                views(old(self).actors@),
                old(self).actors@.len(),
            ),
            forall|k: int| 0 <= k < tokens@.len() ==> in_order((#[trigger] tokens@[k])@.timeline),
            old(self).world().unrepeated() ==> forall|k: int|
                0 <= k < tokens@.len() ==> no_repeat((#[trigger] tokens@[k])@.timeline),
            final(self).actors@.len() == old(self).actors@.len(),
            forall|i: int|
                0 <= i < final(self).actors@.len() ==> (#[trigger] final(self).actors@[i])@ == old(
                    self,
                ).actors@[i]@.emptied(),
            final(self).scheduler == old(self).scheduler,
            final(self).init_sources == old(self).init_sources,
            final(self).loging_config == old(self).loging_config,
            final(self).ready(),
    {
        let ghost start = world_of(self.actors@, self.scheduler);
        let ghost before = self.actors@;
        let mut tokens: Vec<Token> = Vec::new();
        let n = self.actors.len();
        let mut i: usize = 0;
        proof {
            assert(batch_view(tokens@) =~= drained_all(views(before), 0));
        }
        while i < n
            invariant
                i <= n,
                n == before.len(),
                self.actors@.len() == n,
                before == old(self).actors@,
                start.actors == views(before),
                start.sound(),
                network_wf(self.actors@),
                self.scheduler == old(self).scheduler,
                self.init_sources == old(self).init_sources,
                self.loging_config == old(self).loging_config,
                batch_view(tokens@) == drained_all(views(before), i as nat),
                forall|k: int|
                    0 <= k < tokens@.len() ==> in_order((#[trigger] tokens@[k])@.timeline),
                start.unrepeated() ==> forall|k: int|
                    0 <= k < tokens@.len() ==> no_repeat((#[trigger] tokens@[k])@.timeline),
                forall|x: int| 0 <= x < i ==> (#[trigger] self.actors@[x])@ == before[x]@.emptied(),
                forall|x: int| i <= x < n ==> (#[trigger] self.actors@[x]) == before[x],
            decreases n - i,
        {
            let ghost had = tokens@;
            let mut more = self.actors[i].tokens();
            let ghost taken = more@;
            proof {
                assert(start.actors[i as int] == before[i as int]@);
                assert(actor_ok(start.actors, start.now, i as int, start.actors[i as int]));
                let drained = before[i as int]@.drained();
                assert(batch_view(taken) == drained);
                assert forall|k: int| 0 <= k < taken.len() implies in_order(
                    (#[trigger] taken[k])@.timeline,
                ) by {
                    assert(batch_view(taken)[k] == taken[k]@);
                    assert(drained.len() == taken.len());
                    match before[i as int]@ {
                        ActorView::Source(s) => {},
                        ActorView::Transformer(t) => {
                            if k < t.held.len() {
                                assert(drained[k] == t.held[k]);
                                assert(token_ok(start.actors, start.now, t.held[k]));
                            } else {
                                assert(drained[k] == t.client.held[k - t.held.len()]);
                                assert(token_ok(
                                    start.actors,
                                    start.now,
                                    t.client.held[k - t.held.len()],
                                ));
                            }
                        },
                        ActorView::Sink(s) => {
                            assert(token_ok(start.actors, start.now, s.held[k]));
                        },
                    }
                }
            }
            proof {
                if start.unrepeated() {
                    let drained = before[i as int]@.drained();
                    assert(batch_no_repeat(start.actors[i as int].held()));
                    assert(batch_no_repeat(start.actors[i as int].outgoing()));
                    assert forall|k: int| 0 <= k < taken.len() implies no_repeat(
                        (#[trigger] taken[k])@.timeline,
                    ) by {
                        assert(batch_view(taken)[k] == taken[k]@);
                        assert(drained.len() == taken.len());
                        match before[i as int]@ {
                            ActorView::Source(s) => {},
                            ActorView::Transformer(t) => {
                                if k < t.held.len() {
                                    assert(drained[k] == t.held[k]);
                                } else {
                                    assert(drained[k] == t.client.held[k - t.held.len()]);
                                }
                            },
                            ActorView::Sink(s) => {
                                assert(drained[k] == s.held[k]);
                            },
                        }
                    }
                }
            }
            tokens.append(&mut more);
            proof {
                assert(batch_view(tokens@) =~= batch_view(had) + batch_view(taken));
                if start.unrepeated() {
                    assert forall|k: int| 0 <= k < tokens@.len() implies no_repeat(
                        (#[trigger] tokens@[k])@.timeline,
                    ) by {
                        if k < had.len() {
                            assert(tokens@[k] == had[k]);
                        } else {
                            assert(tokens@[k] == taken[k - had.len()]);
                        }
                    }
                }
                assert forall|k: int| 0 <= k < tokens@.len() implies in_order(
                    (#[trigger] tokens@[k])@.timeline,
                ) by {
                    if k < had.len() {
                        assert(tokens@[k] == had[k]);
                    } else {
                        assert(tokens@[k] == taken[k - had.len()]);
                    }
                }
            }
            i += 1;
        }
        proof {
            let after = views(self.actors@);
            assert forall|x: int| 0 <= x < after.len() implies #[trigger] after[x]
                == start.actors[x].emptied() by {
                assert(after[x] == self.actors@[x]@);
                assert(start.actors[x] == before[x]@);
            }
            lemma_emptied_sound(start, after);
            assert forall|k: int| 0 <= k < self.init_sources@.len() implies (
            #[trigger] self.init_sources@[k]) < self.actors@.len()
                && self.actors@[self.init_sources@[k] as int] is Source by {
                let x = self.init_sources@[k] as int;
                assert(old(self).actors@[x] is Source);
                assert(after[x] == self.actors@[x]@);
                assert(start.actors[x] == before[x]@);
            }
        }
        tokens
    }

    /// Readies the network for a new run: every actor is reset, and the
    /// scheduler is a new one at time 0 with nothing pending.  The wiring stays.
    pub fn reset(&mut self)
        requires
            old(self).ready(),
        ensures
            final(self).ready(),
            final(self).scheduler.now() == 0,
            final(self).scheduler.queue() == Seq::<JobView>::empty(),
            final(self).actors@.len() == old(self).actors@.len(),
            forall|i: int|
                0 <= i < final(self).actors@.len() ==> (#[trigger] final(self).actors@[i])@ == old(
                    self,
                ).actors@[i]@.renewed(),
            final(self).init_sources == old(self).init_sources,
            final(self).loging_config == old(self).loging_config,
            final(self).world().balanced(),
            final(self).world().tokens() == 0,
            final(self).world().unrepeated(),
            same_frame(views(old(self).actors@), views(final(self).actors@)),
    {
        let ghost start = world_of(self.actors@, self.scheduler);
        let ghost before = self.actors@;
        let n = self.actors.len();
        let mut i: usize = 0;
        while i < n
            invariant
                i <= n,
                n == before.len(),
                self.actors@.len() == n,
                before == old(self).actors@,
                network_wf(self.actors@),
                self.init_sources == old(self).init_sources,
                self.loging_config == old(self).loging_config,
                forall|x: int| 0 <= x < i ==> (#[trigger] self.actors@[x])@ == before[x]@.renewed(),
                forall|x: int| i <= x < n ==> (#[trigger] self.actors@[x]) == before[x],
            decreases n - i,
        {
            self.actors[i].reset();
            i += 1;
        }
        self.scheduler = Scheduler::new();
        proof {
            let now_views = views(self.actors@);
            assert forall|x: int| 0 <= x < n implies now_views[x] == start.actors[x].renewed()
                && actor_ok(start.actors, start.now, x, #[trigger] start.actors[x]) by {
                assert(start.actors[x] == before[x]@);
            }
            assert forall|x: int, k: int|
                0 <= x < now_views.len() && 0 <= k < now_views[x].clients().len() implies edge_ok(
                now_views,
                #[trigger] now_views[x].clients()[k],
            ) by {
                assert(actor_ok(start.actors, start.now, x, start.actors[x]));
                let c = now_views[x].clients()[k];
                assert(now_views[x].clients() == start.actors[x].clients());
                match start.actors[x] {
                    ActorView::Source(s) => {
                        assert(edge_ok(start.actors, s.client.clients[k]));
                    },
                    ActorView::Transformer(t) => {
                        assert(edge_ok(start.actors, t.client.clients[k]));
                    },
                    ActorView::Sink(s) => {},
                }
                assert(now_views[c.actor as int] == start.actors[c.actor as int].renewed());
            }
            assert forall|x: int| 0 <= x < n implies ((#[trigger] self.actors@[x])@ matches ActorView::Source(
                s,
            ) ==> s.place == x && s.total <= s.max_production && forall|k: int|
                0 <= k < n ==> s.code_product + (#[trigger] self.actors@[k])@.code() <= u16::MAX) by {
                assert(now_views[x] == self.actors@[x]@);
                assert(start.actors[x] == before[x]@);
                assert(self.actors@[x]@ == before[x]@.renewed());
                assert(actor_ok(start.actors, start.now, x, start.actors[x]));
                match self.actors@[x]@ {
                    ActorView::Source(s) => {
                        assert forall|k: int| 0 <= k < n implies s.code_product + (
                        #[trigger] self.actors@[k])@.code() <= u16::MAX by {
                            assert(start.actors[k] == before[k]@);
                            assert(self.actors@[k]@ == before[k]@.renewed());
                            assert(start.actors[k].code() == self.actors@[k]@.code());
                        }
                    },
                    _ => {},
                }
            }
            assert forall|x: int| 0 <= x < n implies (#[trigger] self.actors@[x])@.held().len() == 0
                && self.actors@[x]@.outgoing().len() == 0 && (
            self.actors@[x]@ matches ActorView::Transformer(t) ==> t.place == x) by {
                assert(start.actors[x] == before[x]@);
                assert(self.actors@[x]@ == before[x]@.renewed());
                assert(actor_ok(start.actors, start.now, x, start.actors[x]));
            }
            lemma_built_sound(self.actors@, self.scheduler.queue(), self.scheduler.now());
            assert forall|x: int| 0 <= x < n implies (#[trigger] now_views[x]).held().len() == 0
                && now_views[x].outgoing().len() == 0 && (now_views[x] matches ActorView::Source(
                s,
            ) ==> s.total == 0) && now_views[x].code() == start.actors[x].code()
                && now_views[x].clients() == start.actors[x].clients() && (now_views[x] is Source
                <==> start.actors[x] is Source) && (now_views[x] is Sink <==> start.actors[x]
                is Sink) && (start.actors[x] matches ActorView::Transformer(t)
                ==> now_views[x] matches ActorView::Transformer(u) && u.delays == t.delays
                && u.cursor == t.cursor) by {
                assert(now_views[x] == self.actors@[x]@);
                assert(start.actors[x] == before[x]@);
                assert(self.actors@[x]@ == before[x]@.renewed());
            }
            self.world().lemma_empty_balanced();
            lemma_empty_unrepeated(self.world());
            assert(same_frame(start.actors, now_views));
            assert forall|k: int| 0 <= k < self.init_sources@.len() implies (
            #[trigger] self.init_sources@[k]) < self.actors@.len()
                && self.actors@[self.init_sources@[k] as int] is Source by {
                let x = self.init_sources@[k] as int;
                assert(old(self).actors@[x] is Source);
                assert(now_views[x] == self.actors@[x]@);
                assert(start.actors[x] == before[x]@);
            }
        }
    }
}

} // verus!
