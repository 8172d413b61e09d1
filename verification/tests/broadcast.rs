use componentflow::engine::actors::broadcast::{Broadcast, Client};
use componentflow::engine::actors::Actor;
use componentflow::engine::scheduler::{Destination, Scheduler};
use componentflow::engine::tokens::Token;

fn batch(n: usize) -> Vec<Token> {
    (0..n).map(|i| Token::new(1, Some((i as u64, 0)))).collect()
}

fn deliveries(scheduler: &mut Scheduler) -> Vec<(Destination, Vec<u64>)> {
    let mut out = Vec::new();
    while let Some(job) = scheduler.next_job() {
        out.push((job.task.destination, job.task.tokens.iter().map(|t| t.timeline[0].0).collect()));
    }
    out
}

#[test]
fn rolling_sequence_spreads_the_turns() {
    let mut broadcast = Broadcast::new(10, 1);
    broadcast.register(20, 1, 1, 1);
    broadcast.register(30, 1, 3, 2);
    assert_eq!(broadcast.quantity, 4);
    assert_eq!(broadcast.output_sampler.to_vec(), vec![30, 20, 30, 30]);
}

#[test]
fn rolling_sequence_gives_the_first_client_the_tie() {
    let mut broadcast = Broadcast::new(10, 1);
    broadcast.register(20, 1, 1, 1);
    broadcast.register(30, 1, 1, 2);
    assert_eq!(broadcast.output_sampler.to_vec(), vec![20, 30]);
    let mut other = Broadcast::new(10, 1);
    other.register(30, 1, 2, 2);
    other.register(20, 1, 2, 1);
    assert_eq!(other.output_sampler.to_vec(), vec![30, 20, 30, 20]);
}

#[test]
fn eight_tokens_split_one_to_three() {
    let mut scheduler = Scheduler::new();
    let mut broadcast = Broadcast::new(10, 1);
    broadcast.register(20, 1, 1, 1);
    broadcast.register(30, 1, 3, 2);
    broadcast.import(1, batch(8), 0, &mut scheduler);
    assert_eq!(broadcast.import_fifo.available_tokens(), 0);
    let out = deliveries(&mut scheduler);
    assert_eq!(out.len(), 2);
    assert_eq!(out[0].0, Destination::Actor(1));
    assert_eq!(out[0].1.len(), 2);
    assert_eq!(out[1].0, Destination::Actor(2));
    assert_eq!(out[1].1.len(), 6);
}

#[test]
fn clients_are_served_in_their_order_from_the_tail() {
    let mut scheduler = Scheduler::new();
    let mut broadcast = Broadcast::new(10, 1);
    broadcast.register(20, 1, 1, 1);
    broadcast.register(30, 1, 3, 2);
    broadcast.import(1, batch(4), 0, &mut scheduler);
    let out = deliveries(&mut scheduler);
    assert_eq!(out, vec![(Destination::Actor(1), vec![3]), (Destination::Actor(2), vec![0, 1, 2])]);
}

#[test]
fn the_cycle_goes_on_from_one_import_to_the_next() {
    let mut scheduler = Scheduler::new();
    let mut broadcast = Broadcast::new(10, 1);
    broadcast.register(20, 1, 1, 1);
    broadcast.register(30, 1, 3, 2);
    // turns: 30, then 20 30, then 30 30 20 30 30
    broadcast.import(1, batch(1), 0, &mut scheduler);
    broadcast.import(1, batch(2), 0, &mut scheduler);
    broadcast.import(1, batch(5), 0, &mut scheduler);
    let out = deliveries(&mut scheduler);
    let sizes: Vec<(Destination, usize)> = out.iter().map(|(d, t)| (*d, t.len())).collect();
    assert_eq!(
        sizes,
        vec![
            (Destination::Actor(2), 1),
            (Destination::Actor(1), 1),
            (Destination::Actor(2), 1),
            (Destination::Actor(1), 1),
            (Destination::Actor(2), 4),
        ]
    );
    let to_first: usize = sizes.iter().filter(|(d, _)| *d == Destination::Actor(1)).map(|(_, n)| n).sum();
    let to_second: usize = sizes.iter().filter(|(d, _)| *d == Destination::Actor(2)).map(|(_, n)| n).sum();
    assert_eq!((to_first, to_second), (2, 6));
}

#[test]
fn a_single_client_gets_everything() {
    let mut scheduler = Scheduler::new();
    let mut broadcast = Broadcast::new(10, 1);
    broadcast.register(20, 1, 0, 7);
    broadcast.import(1, batch(3), 0, &mut scheduler);
    let out = deliveries(&mut scheduler);
    assert_eq!(out, vec![(Destination::Actor(7), vec![0, 1, 2])]);
    assert!(broadcast.output_sampler.is_empty());
}

#[test]
fn without_clients_the_tokens_stay() {
    let mut scheduler = Scheduler::new();
    let mut broadcast = Broadcast::new(10, 1);
    broadcast.import(1, batch(3), 0, &mut scheduler);
    assert_eq!(scheduler.pending(), 0);
    assert_eq!(broadcast.import_fifo.available_tokens(), 3);
}

#[test]
fn without_turns_the_tokens_stay() {
    let mut scheduler = Scheduler::new();
    let mut broadcast = Broadcast::new(10, 1);
    broadcast.register(20, 1, 0, 1);
    broadcast.register(30, 1, 0, 2);
    broadcast.import(1, batch(3), 0, &mut scheduler);
    assert_eq!(scheduler.pending(), 0);
    assert_eq!(broadcast.import_fifo.available_tokens(), 3);
}

#[test]
fn registering_again_replaces_the_client_in_place() {
    let mut broadcast = Broadcast::new(10, 1);
    broadcast.register(20, 1, 1, 1);
    broadcast.register(30, 1, 3, 2);
    broadcast.output_sampler.sample();
    broadcast.register(20, 1, 2, 5);
    assert_eq!(
        broadcast.clients,
        vec![Client { code: 20, quantity: 2, actor: 5 }, Client { code: 30, quantity: 3, actor: 2 }]
    );
    assert_eq!(broadcast.quantity, 5);
    assert_eq!(broadcast.output_sampler.len(), 5);
    assert_eq!(broadcast.output_sampler.position(), 0);
    let turns = broadcast.output_sampler.to_vec();
    assert_eq!(turns.iter().filter(|c| **c == 20).count(), 2);
    assert_eq!(turns.iter().filter(|c| **c == 30).count(), 3);
}

#[test]
fn every_client_has_its_quantity_in_turns() {
    let mut broadcast = Broadcast::new(10, 1);
    let weights = [5u32, 1, 7, 3, 2];
    for (i, w) in weights.iter().enumerate() {
        broadcast.register(20 + i as u16, 1, *w, i);
    }
    let turns = broadcast.output_sampler.to_vec();
    assert_eq!(turns.len(), 18);
    for (i, w) in weights.iter().enumerate() {
        assert_eq!(turns.iter().filter(|c| **c == 20 + i as u16).count(), *w as usize);
    }
}

#[test]
fn broadcast_does_not_stamp() {
    let mut scheduler = Scheduler::new();
    let mut broadcast = Broadcast::new(10, 1);
    broadcast.register(20, 1, 1, 1);
    broadcast.import(1, vec![Token::new(1, None)], 4, &mut scheduler);
    let job = scheduler.next_job().unwrap();
    assert!(job.task.tokens[0].timeline.is_empty());
    assert_eq!(job.time, 0);
    assert_eq!(job.task.code_product, 1);
}

#[test]
fn a_client_without_quantity_can_get_a_turn_on_a_tie() {
    let mut broadcast = Broadcast::new(10, 1);
    broadcast.register(20, 1, 0, 1);
    broadcast.register(30, 1, 2, 2);
    assert_eq!(broadcast.output_sampler.to_vec(), vec![30, 20]);
}

#[test]
fn broadcast_hands_over_and_forgets_what_it_holds() {
    let mut scheduler = Scheduler::new();
    let mut broadcast = Broadcast::new(10, 1);
    broadcast.import(1, batch(2), 0, &mut scheduler);
    assert_eq!(broadcast.total(), 2);
    assert_eq!(broadcast.code(), 10);
    assert_eq!(broadcast.tokens().len(), 2);
    assert_eq!(broadcast.total(), 0);
    broadcast.import(1, batch(2), 0, &mut scheduler);
    broadcast.reset();
    assert_eq!(broadcast.total(), 0);
}

#[test]
fn the_rolling_sequence_of_a_single_client_is_all_its_turns() {
    let mut broadcast = Broadcast::new(10, 1);
    broadcast.create_rolling_sequence();
    assert!(broadcast.output_sampler.is_empty());
    broadcast.register(20, 1, 3, 1);
    assert!(broadcast.output_sampler.is_empty());
    broadcast.create_rolling_sequence();
    assert_eq!(broadcast.output_sampler.to_vec(), vec![20, 20, 20]);
}

#[test]
fn check_requirements_sends_on_what_waits() {
    let mut scheduler = Scheduler::new();
    let mut broadcast = Broadcast::new(10, 1);
    broadcast.import(1, batch(2), 0, &mut scheduler);
    broadcast.check_requirements(&mut scheduler);
    assert_eq!(scheduler.pending(), 0);
    broadcast.register(20, 1, 1, 3);
    broadcast.check_requirements(&mut scheduler);
    assert_eq!(broadcast.total(), 0);
    assert_eq!(deliveries(&mut scheduler), vec![(Destination::Actor(3), vec![0, 1])]);
    broadcast.check_requirements(&mut scheduler);
    assert_eq!(scheduler.pending(), 0);
}

#[test]
fn uneven_quantities_keep_their_ratio_over_a_cycle() {
    let mut broadcast = Broadcast::new(10, 1);
    broadcast.register(21, 1, 1, 1);
    broadcast.register(22, 1, 1, 2);
    broadcast.register(23, 1, 1, 3);
    broadcast.register(24, 1, 11, 4);
    let turns = broadcast.output_sampler.to_vec();
    assert_eq!(turns.len(), 14);
    assert_eq!(turns.iter().filter(|c| **c == 24).count(), 11);
    assert_eq!(turns, vec![24, 21, 24, 24, 22, 24, 24, 23, 24, 24, 24, 24, 24, 24]);
}

#[test]
fn a_broadcast_flows_when_it_has_where_to_send() {
    let mut scheduler = Scheduler::new();
    let mut broadcast = Broadcast::new(10, 1);
    assert!(!broadcast.flows());
    broadcast.register(20, 1, 0, 1);
    assert!(broadcast.flows());
    broadcast.register(30, 1, 0, 2);
    assert!(!broadcast.flows());
    broadcast.import(1, batch(2), 0, &mut scheduler);
    broadcast.register(30, 1, 2, 2);
    assert!(!broadcast.flows());
    broadcast.check_requirements(&mut scheduler);
    assert!(broadcast.flows());
}
