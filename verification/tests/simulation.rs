use componentflow::engine::actors::simple_actor::SimpleActor;
use componentflow::engine::actors::simple_sink::SimpleSink;
use componentflow::engine::actors::simple_source::SimpleSource;
use componentflow::engine::actors::{Actor, AnyActor, Source, SupplyOffer};
use componentflow::engine::scheduler::{Destination, Scheduler};
use componentflow::engine::simulation::supply_loop;
use componentflow::engine::tokens::Token;
use componentflow::utils::distributions::CyclicSampler;

fn source(code: u16, speed: (u32, u32), max: u32, place: usize) -> AnyActor {
    AnyActor::Source(SimpleSource::new(code, 1, speed, max, place))
}

fn transformer(code: u16, place: usize, delays: Option<Vec<u64>>) -> AnyActor {
    AnyActor::Transformer(SimpleActor::new(code, 1, place, delays.map(CyclicSampler::new_from_vec)))
}

fn sink(code: u16) -> AnyActor {
    AnyActor::Sink(SimpleSink::new(code))
}

fn run_out(scheduler: &mut Scheduler, actors: &mut Vec<AnyActor>) {
    let mut rounds = 0;
    while !scheduler.run(actors, 16) {
        rounds += 1;
        assert!(rounds < 10_000);
    }
}

fn timelines(actor: &mut AnyActor) -> Vec<Vec<(u64, u16)>> {
    actor.tokens().into_iter().map(|t| t.timeline).collect()
}

fn source_to_sink() -> Vec<AnyActor> {
    let mut actors = vec![source(10, (1, 1), 3, 0), sink(20)];
    actors[0].register(20, 1, 1, 1);
    actors
}

fn source_transformer_sink() -> Vec<AnyActor> {
    let mut actors = vec![source(10, (1, 1), 2, 0), transformer(20, 1, Some(vec![5])), sink(30)];
    actors[0].register(20, 1, 1, 1);
    actors[1].register(30, 1, 1, 2);
    actors
}

#[test]
fn source_fills_the_sink_one_token_per_period() {
    let mut actors = source_to_sink();
    let mut scheduler = Scheduler::new();
    supply_loop(&mut actors, &mut scheduler, 0, 0);
    assert_eq!(actors[0].total(), 3);
    assert_eq!(scheduler.pending(), 3);
    run_out(&mut scheduler, &mut actors);
    assert_eq!(actors[1].total(), 3);
    assert_eq!(scheduler.time(), 2);
    let seen = timelines(&mut actors[1]);
    assert_eq!(seen, vec![vec![(2, 21)], vec![(1, 21)], vec![(0, 21)]]);
    assert_eq!(actors[1].total(), 0);
}

#[test]
fn transformer_keeps_tokens_for_its_delay() {
    let mut actors = source_transformer_sink();
    let mut scheduler = Scheduler::new();
    supply_loop(&mut actors, &mut scheduler, 0, 0);
    run_out(&mut scheduler, &mut actors);
    assert_eq!(actors[1].total(), 2);
    assert_eq!(actors[2].total(), 2);
    assert_eq!(scheduler.time(), 6);
    let seen = timelines(&mut actors[2]);
    assert_eq!(seen, vec![vec![(1, 21), (6, 31)], vec![(0, 21), (5, 31)]]);
    assert!(timelines(&mut actors[1]).is_empty());
}

#[test]
fn a_fresh_run_after_reset_is_the_same() {
    let mut actors = source_transformer_sink();
    let mut scheduler = Scheduler::new();
    supply_loop(&mut actors, &mut scheduler, 0, 0);
    run_out(&mut scheduler, &mut actors);
    let first = timelines(&mut actors[2]);
    for actor in actors.iter_mut() {
        actor.reset();
    }
    assert_eq!(actors[0].total(), 0);
    assert_eq!(actors[2].total(), 0);
    let mut scheduler = Scheduler::new();
    supply_loop(&mut actors, &mut scheduler, 0, 0);
    run_out(&mut scheduler, &mut actors);
    let second = timelines(&mut actors[2]);
    assert_eq!(first, second);
    assert_eq!(second, vec![vec![(1, 21), (6, 31)], vec![(0, 21), (5, 31)]]);
}

#[test]
fn two_sources_of_one_period_deliver_at_the_same_times() {
    let mut actors = vec![
        AnyActor::Source(SimpleSource::new(10, 1, (1, 1), 2, 0)),
        AnyActor::Source(SimpleSource::new(20, 2, (1, 1), 2, 1)),
        sink(30),
    ];
    actors[0].register(30, 1, 1, 2);
    actors[1].register(30, 2, 1, 2);
    let mut scheduler = Scheduler::new();
    supply_loop(&mut actors, &mut scheduler, 0, 0);
    supply_loop(&mut actors, &mut scheduler, 1, 0);
    // the supplies of time 0 come first, in the order of the sources
    assert!(scheduler.run_next(&mut actors));
    assert!(scheduler.run_next(&mut actors));
    assert_eq!(scheduler.time(), 0);
    assert!(scheduler.run_next(&mut actors));
    assert!(scheduler.run_next(&mut actors));
    assert_eq!(scheduler.time(), 0);
    assert_eq!(actors[2].total(), 2);
    run_out(&mut scheduler, &mut actors);
    let seen = timelines(&mut actors[2]);
    assert_eq!(seen, vec![vec![(1, 32)], vec![(1, 31)], vec![(0, 32)], vec![(0, 31)]]);
}

#[test]
fn supply_makes_full_batches_and_then_what_is_left() {
    let mut scheduler = Scheduler::new();
    let mut source = SimpleSource::new(10, 1, (4, 3), 10, 0);
    assert_eq!(source.delay(), 3);
    assert!(source.supply(0, &mut scheduler));
    assert_eq!(source.total, 4);
    assert!(source.supply(3, &mut scheduler));
    assert!(source.supply(6, &mut scheduler));
    assert_eq!(source.total, 10);
    assert_eq!(source.time_of_last_execution, Some(6));
    let sizes: Vec<(u64, usize, Destination)> = (0..3)
        .map(|_| {
            let job = scheduler.next_job().unwrap();
            (job.time, job.task.tokens.len(), job.task.destination)
        })
        .collect();
    assert_eq!(
        sizes,
        vec![(0, 4, Destination::Broadcast(0)), (3, 4, Destination::Broadcast(0)), (6, 2, Destination::Broadcast(0))]
    );
}

#[test]
fn supply_at_exhaustion_returns_false_and_schedules_nothing() {
    let mut scheduler = Scheduler::new();
    let mut source = SimpleSource::new(10, 1, (2, 1), 2, 0);
    assert!(source.supply(0, &mut scheduler));
    assert_eq!(scheduler.pending(), 1);
    assert!(!source.supply(1, &mut scheduler));
    assert_eq!(scheduler.pending(), 1);
    assert_eq!(source.total, 2);
    assert_eq!(source.time_of_last_execution, Some(0));
    let mut idle = SimpleSource::new(10, 1, (0, 1), 5, 0);
    assert!(!idle.supply(0, &mut scheduler));
    assert_eq!(scheduler.pending(), 1);
}

#[test]
fn a_supply_for_a_time_that_has_passed_is_due_at_once() {
    let mut scheduler = Scheduler::new();
    let mut source = SimpleSource::new(10, 1, (1, 5), 3, 4);
    scheduler.schedule(7, componentflow::engine::scheduler::Task {
        destination: Destination::Actor(9),
        code_product: 1,
        tokens: vec![],
    });
    scheduler.next_job();
    assert!(source.supply(3, &mut scheduler));
    assert_eq!(source.time_of_last_execution, Some(3));
    assert_eq!(source.total, 1);
    let job = scheduler.next_job().unwrap();
    assert_eq!((job.time, job.task.tokens.len()), (7, 1));
    let mut spent = SimpleSource::new(10, 1, (1, 5), 0, 4);
    assert!(!spent.supply(0, &mut scheduler));
    assert_eq!(scheduler.pending(), 0);
}

#[test]
fn transformer_knows_whether_it_feeds_itself_and_waits() {
    let mut looped = SimpleActor::new(20, 1, 1, Some(CyclicSampler::new_from_vec(vec![2, 1])));
    looped.register(30, 1, 1, 2);
    assert!(!looped.feeds(1));
    looped.register(20, 1, 1, 1);
    assert!(looped.feeds(1));
    assert!(!looped.feeds(0));
    assert!(looped.waits());
    assert!(!SimpleActor::new(20, 1, 1, None).waits());
    assert!(!SimpleActor::new(20, 1, 1, Some(CyclicSampler::new_from_vec(vec![2, 0]))).waits());
    assert!(!SimpleActor::new(20, 1, 1, Some(CyclicSampler::new_from_vec(vec![]))).waits());
}

#[test]
fn supply_queues_for_the_given_time() {
    let mut scheduler = Scheduler::new();
    let mut source = SimpleSource::new(10, 1, (1, 5), 3, 4);
    scheduler.schedule(7, componentflow::engine::scheduler::Task {
        destination: Destination::Actor(9),
        code_product: 1,
        tokens: vec![],
    });
    scheduler.next_job();
    assert_eq!(scheduler.time(), 7);
    assert!(source.supply(7, &mut scheduler));
    assert!(source.supply(12, &mut scheduler));
    assert_eq!(scheduler.next_job().unwrap().time, 7);
    assert_eq!(scheduler.next_job().unwrap().time, 12);
}

#[test]
fn supply_loop_starts_at_the_given_period() {
    let mut actors = vec![source(10, (1, 4), 2, 0), sink(20)];
    actors[0].register(20, 1, 1, 1);
    let mut scheduler = Scheduler::new();
    supply_loop(&mut actors, &mut scheduler, 0, 2);
    assert_eq!(scheduler.next_job().unwrap().time, 8);
    assert_eq!(scheduler.next_job().unwrap().time, 12);
    assert!(scheduler.next_job().is_none());
}

#[test]
fn no_token_is_lost_or_made_on_the_way() {
    let mut actors = vec![
        source(10, (3, 2), 20, 0),
        transformer(20, 1, Some(vec![1, 4, 0])),
        transformer(30, 2, None),
        sink(40),
        sink(50),
    ];
    actors[0].register(20, 1, 2, 1);
    actors[0].register(30, 1, 1, 2);
    actors[1].register(40, 1, 1, 3);
    actors[1].register(50, 1, 1, 4);
    actors[2].register(40, 1, 1, 3);
    let mut scheduler = Scheduler::new();
    supply_loop(&mut actors, &mut scheduler, 0, 0);
    run_out(&mut scheduler, &mut actors);
    assert_eq!(actors[0].total(), 20);
    assert_eq!(actors[3].total() + actors[4].total(), 20);
    assert_eq!(actors[1].total() + actors[2].total(), 20);
}

#[test]
fn timelines_never_go_back_in_time() {
    let mut actors = vec![
        source(10, (3, 2), 12, 0),
        transformer(20, 1, Some(vec![3, 0, 7])),
        transformer(30, 2, Some(vec![2])),
        sink(40),
    ];
    actors[0].register(20, 1, 1, 1);
    actors[1].register(30, 1, 1, 2);
    actors[1].register(40, 1, 1, 3);
    actors[2].register(40, 1, 1, 3);
    let mut scheduler = Scheduler::new();
    supply_loop(&mut actors, &mut scheduler, 0, 0);
    let mut last = 0;
    while scheduler.run_next(&mut actors) {
        assert!(scheduler.time() >= last);
        last = scheduler.time();
    }
    let seen = timelines(&mut actors[3]);
    assert_eq!(seen.len(), 12);
    for timeline in seen {
        assert!(timeline.windows(2).all(|w| w[0].0 <= w[1].0));
        assert!(timeline.last().unwrap().0 <= last);
    }
}

#[test]
fn a_run_stops_at_its_budget_and_can_go_on() {
    let mut actors = source_to_sink();
    let mut scheduler = Scheduler::new();
    supply_loop(&mut actors, &mut scheduler, 0, 0);
    assert!(!scheduler.run(&mut actors, 0));
    assert_eq!(scheduler.pending(), 3);
    assert!(!scheduler.run(&mut actors, 2));
    assert_eq!(actors[1].total(), 1);
    assert!(scheduler.run(&mut actors, 100));
    assert_eq!(actors[1].total(), 3);
    assert!(scheduler.run(&mut actors, 100));
    assert!(!scheduler.run_next(&mut actors));
}

#[test]
fn a_token_can_come_back_to_an_actor() {
    // the transformer feeds itself in the first of two turns, the sink in the other
    let mut actors = vec![source(10, (1, 1), 1, 0), transformer(20, 1, Some(vec![2])), sink(30)];
    actors[0].register(20, 1, 1, 1);
    actors[1].register(20, 1, 1, 1);
    actors[1].register(30, 1, 1, 2);
    let mut scheduler = Scheduler::new();
    supply_loop(&mut actors, &mut scheduler, 0, 0);
    run_out(&mut scheduler, &mut actors);
    let seen = timelines(&mut actors[2]);
    assert_eq!(seen, vec![vec![(0, 21), (2, 21), (4, 31)]]);
    assert!(seen[0].windows(2).all(|w| w[0] != w[1]));
}

#[test]
fn a_transformer_that_feeds_itself_at_once_logs_a_token_twice() {
    let mut actors = vec![source(10, (2, 1), 2, 0), transformer(20, 1, None), sink(30)];
    actors[0].register(20, 1, 1, 1);
    actors[1].register(30, 1, 1, 2);
    actors[1].register(20, 1, 1, 1);
    let mut scheduler = Scheduler::new();
    supply_loop(&mut actors, &mut scheduler, 0, 0);
    run_out(&mut scheduler, &mut actors);
    let seen = timelines(&mut actors[2]);
    assert_eq!(seen, vec![vec![(0, 21), (0, 21), (0, 31)], vec![(0, 21), (0, 31)]]);
}

#[test]
fn transformer_counts_what_it_takes_in() {
    let mut scheduler = Scheduler::new();
    let mut actor = SimpleActor::new(20, 1, 3, Some(CyclicSampler::new_from_vec(vec![4, 9])));
    actor.import(1, vec![Token::new(1, None), Token::new(1, None)], 0, &mut scheduler);
    actor.import(1, vec![Token::new(1, None)], 0, &mut scheduler);
    actor.import(1, vec![], 0, &mut scheduler);
    assert_eq!(actor.total(), 3);
    assert_eq!(actor.code(), 20);
    assert_eq!(actor.import_fifo.available_tokens(), 0);
    let first = scheduler.next_job().unwrap();
    assert_eq!((first.time, first.task.tokens.len(), first.task.destination), (4, 2, Destination::Broadcast(3)));
    assert_eq!(first.task.tokens[0].timeline, vec![(0, 21)]);
    let second = scheduler.next_job().unwrap();
    assert_eq!((second.time, second.task.tokens.len()), (9, 1));
    assert!(scheduler.next_job().is_none());
}

#[test]
fn sink_keeps_what_arrives() {
    let mut scheduler = Scheduler::new();
    let mut sink = SimpleSink::new(30);
    sink.import(1, vec![Token::new(1, None)], 3, &mut scheduler);
    sink.import(2, vec![Token::new(2, None)], 4, &mut scheduler);
    assert_eq!(scheduler.pending(), 0);
    assert_eq!(sink.total(), 2);
    assert_eq!(sink.code(), 30);
    let seen: Vec<Vec<(u64, u16)>> = sink.tokens().into_iter().map(|t| t.timeline).collect();
    assert_eq!(seen, vec![vec![(4, 32)], vec![(3, 31)]]);
    sink.import(1, vec![Token::new(1, None)], 5, &mut scheduler);
    sink.reset();
    assert_eq!(sink.total(), 0);
}

#[test]
fn supply_offer_pairs_a_product_and_a_quantity() {
    let offer = SupplyOffer(String::from("a"), 3);
    assert_eq!(offer.0, "a");
    assert_eq!(offer.1, 3);
}

#[test]
fn a_transformer_without_clients_keeps_what_it_forwards() {
    let mut actors = vec![source(10, (2, 1), 2, 0), transformer(20, 1, Some(vec![3]))];
    actors[0].register(20, 1, 1, 1);
    let mut scheduler = Scheduler::new();
    supply_loop(&mut actors, &mut scheduler, 0, 0);
    run_out(&mut scheduler, &mut actors);
    assert_eq!(scheduler.time(), 3);
    assert_eq!(actors[1].total(), 2);
    let seen = timelines(&mut actors[1]);
    assert_eq!(seen, vec![vec![(0, 21)], vec![(0, 21)]]);
    assert!(timelines(&mut actors[1]).is_empty());
}

#[test]
fn reset_empties_every_queue_and_keeps_the_wiring() {
    let mut actors = vec![source(10, (2, 1), 2, 0), transformer(20, 1, None)];
    actors[0].register(20, 1, 1, 1);
    let mut scheduler = Scheduler::new();
    supply_loop(&mut actors, &mut scheduler, 0, 0);
    run_out(&mut scheduler, &mut actors);
    for actor in actors.iter_mut() {
        actor.reset();
    }
    assert_eq!(actors[0].total(), 0);
    assert!(timelines(&mut actors[1]).is_empty());
    match &actors[0] {
        AnyActor::Source(s) => assert_eq!(s.client.clients.len(), 1),
        _ => panic!("the first actor is a source"),
    }
    let mut scheduler = Scheduler::new();
    supply_loop(&mut actors, &mut scheduler, 0, 0);
    run_out(&mut scheduler, &mut actors);
    assert_eq!(timelines(&mut actors[1]).len(), 2);
}

#[test]
fn any_actor_takes_in_as_its_kind_does() {
    let mut scheduler = Scheduler::new();
    let mut end = sink(30);
    end.import(1, vec![Token::new(1, None)], 2, &mut scheduler);
    assert_eq!(end.total(), 1);
    assert_eq!(end.code(), 30);
    assert!(end.is_sink());
    assert!(!end.is_source());
    let mut middle = transformer(20, 4, None);
    middle.import(1, vec![Token::new(1, None)], 2, &mut scheduler);
    assert_eq!(middle.total(), 1);
    let job = scheduler.next_job().unwrap();
    assert_eq!((job.time, job.task.destination), (0, Destination::Broadcast(4)));
    assert_eq!(job.task.tokens[0].timeline, vec![(2, 21)]);
}
