use componentflow::engine::fifo::Fifo;
use componentflow::engine::tokens::Token;

fn codes(tokens: &[Token]) -> Vec<u16> {
    tokens.iter().map(|t| t.code).collect()
}

#[test]
fn put_then_get_all_returns_the_batch_stamped_once() {
    let mut fifo = Fifo::new(20, true);
    fifo.put(vec![Token::new(1, None), Token::new(2, Some((3, 11)))], 7);
    let out = fifo.get_all();
    assert_eq!(codes(&out), vec![1, 2]);
    assert_eq!(out[0].timeline, vec![(7, 21)]);
    assert_eq!(out[1].timeline, vec![(3, 11), (7, 22)]);
    assert_eq!(fifo.available_tokens(), 0);
}

#[test]
fn put_without_log_leaves_the_tokens_as_they_are() {
    let mut fifo = Fifo::new(20, false);
    fifo.put(vec![Token::new(1, None), Token::new(2, Some((3, 11)))], 7);
    let out = fifo.get_all();
    assert_eq!(out[0].timeline, vec![]);
    assert_eq!(out[1].timeline, vec![(3, 11)]);
}

#[test]
fn a_new_batch_stands_before_what_the_queue_held() {
    let mut fifo = Fifo::new(0, false);
    fifo.put(vec![Token::new(1, None), Token::new(2, None)], 0);
    fifo.put(vec![Token::new(3, None), Token::new(4, None)], 1);
    assert_eq!(fifo.available_tokens(), 4);
    assert_eq!(codes(&fifo.tokens), vec![3, 4, 1, 2]);
}

#[test]
fn get_takes_from_the_tail_in_order() {
    let mut fifo = Fifo::new(0, false);
    fifo.put(vec![Token::new(1, None), Token::new(2, None)], 0);
    fifo.put(vec![Token::new(3, None), Token::new(4, None)], 1);
    let out = fifo.get(3);
    assert_eq!(codes(&out), vec![4, 1, 2]);
    assert_eq!(codes(&fifo.tokens), vec![3]);
}

#[test]
fn get_of_none_returns_nothing_and_changes_nothing() {
    let mut fifo = Fifo::new(0, true);
    fifo.put(vec![Token::new(1, None)], 5);
    let out = fifo.get(0);
    assert!(out.is_empty());
    assert_eq!(fifo.available_tokens(), 1);
    assert_eq!(fifo.tokens[0].timeline, vec![(5, 1)]);
}

#[test]
fn an_empty_batch_changes_nothing() {
    let mut fifo = Fifo::new(0, true);
    fifo.put(vec![Token::new(1, None)], 5);
    fifo.put(vec![], 6);
    assert_eq!(fifo.available_tokens(), 1);
}

#[test]
fn reset_discards_every_token() {
    let mut fifo = Fifo::new(9, true);
    fifo.put(vec![Token::new(1, None), Token::new(1, None)], 5);
    fifo.reset();
    assert_eq!(fifo.available_tokens(), 0);
    assert_eq!(fifo.code, 9);
    assert!(fifo.log);
}
