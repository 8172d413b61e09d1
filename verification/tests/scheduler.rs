use componentflow::engine::scheduler::{Destination, Scheduler, Task};
use componentflow::engine::tokens::Token;

fn task(to: usize, product: u16) -> Task {
    Task { destination: Destination::Actor(to), code_product: product, tokens: vec![Token::new(product, None)] }
}

#[test]
fn new_scheduler_is_idle_at_time_zero() {
    let mut scheduler = Scheduler::new();
    assert_eq!(scheduler.time(), 0);
    assert_eq!(scheduler.pending(), 0);
    assert!(scheduler.next_job().is_none());
    assert_eq!(scheduler.time(), 0);
    assert_eq!(Scheduler::default().pending(), 0);
}

#[test]
fn jobs_come_out_in_the_order_of_time() {
    let mut scheduler = Scheduler::new();
    scheduler.schedule(5, task(0, 1));
    scheduler.schedule(2, task(0, 2));
    scheduler.schedule(9, task(0, 3));
    assert_eq!(scheduler.pending(), 3);
    let first = scheduler.next_job().unwrap();
    assert_eq!((first.time, first.task.code_product), (2, 2));
    assert_eq!(scheduler.time(), 2);
    let second = scheduler.next_job().unwrap();
    assert_eq!((second.time, second.task.code_product), (5, 1));
    let third = scheduler.next_job().unwrap();
    assert_eq!((third.time, third.task.code_product), (9, 3));
    assert_eq!(scheduler.time(), 9);
    assert_eq!(scheduler.pending(), 0);
}

#[test]
fn jobs_of_one_time_come_out_in_the_order_they_were_queued() {
    let mut scheduler = Scheduler::new();
    scheduler.schedule(3, task(0, 1));
    scheduler.schedule(3, task(0, 2));
    scheduler.schedule(1, task(0, 3));
    scheduler.schedule(3, task(0, 4));
    let order: Vec<u16> = (0..4).map(|_| scheduler.next_job().unwrap().task.code_product).collect();
    assert_eq!(order, vec![3, 1, 2, 4]);
}

#[test]
fn delay_counts_from_the_current_time() {
    let mut scheduler = Scheduler::new();
    scheduler.schedule(4, task(0, 1));
    scheduler.next_job();
    assert_eq!(scheduler.time(), 4);
    scheduler.schedule(0, task(0, 2));
    scheduler.schedule(3, task(0, 3));
    assert_eq!(scheduler.next_job().unwrap().time, 4);
    assert_eq!(scheduler.next_job().unwrap().time, 7);
}

#[test]
fn a_job_beyond_the_clock_is_due_at_its_last_instant() {
    let mut scheduler = Scheduler::new();
    scheduler.schedule(10, task(0, 1));
    scheduler.next_job();
    scheduler.schedule(u64::MAX, task(0, 2));
    assert_eq!(scheduler.next_job().unwrap().time, u64::MAX);
}

#[test]
fn the_job_handed_out_carries_its_tokens_and_destination() {
    let mut scheduler = Scheduler::new();
    scheduler.schedule(
        1,
        Task { destination: Destination::Broadcast(4), code_product: 2, tokens: vec![Token::new(2, Some((0, 12)))] },
    );
    let job = scheduler.next_job().unwrap();
    assert_eq!(job.task.destination, Destination::Broadcast(4));
    assert_eq!(job.task.tokens.len(), 1);
    assert_eq!(job.task.tokens[0].timeline, vec![(0, 12)]);
}
