use componentflow::engine::tokens::Token;

#[test]
fn new_token_has_the_given_start() {
    let bare = Token::new(3, None);
    assert_eq!(bare.code, 3);
    assert!(bare.timeline.is_empty());
    assert!(bare.parts.is_empty());
    let started = Token::new(3, Some((4, 23)));
    assert_eq!(started.timeline, vec![(4, 23)]);
}

#[test]
fn age_appends_the_time_and_the_stamp() {
    let mut token = Token::new(3, None);
    token.age(20, 5);
    token.age(40, 9);
    assert_eq!(token.timeline, vec![(5, 23), (9, 43)]);
}

#[test]
fn age_reaches_the_parts_at_every_depth() {
    let mut inner = Token::new(2, None);
    inner.add_part(1, vec![Token::new(1, None)]);
    let mut token = Token::new(3, None);
    token.add_part(2, vec![inner, Token::new(2, Some((0, 12)))]);
    token.age(20, 5);
    assert_eq!(token.timeline, vec![(5, 23)]);
    let group = &token.parts[0];
    assert_eq!(group.0, 2);
    assert_eq!(group.1[0].timeline, vec![(5, 22)]);
    assert_eq!(group.1[1].timeline, vec![(0, 12), (5, 22)]);
    assert_eq!(group.1[0].parts[0].1[0].timeline, vec![(5, 21)]);
}

#[test]
fn add_part_appends_to_the_group_of_the_code() {
    let mut token = Token::new(9, None);
    token.add_part(1, vec![Token::new(1, None)]);
    token.add_part(2, vec![Token::new(2, None)]);
    token.add_part(1, vec![Token::new(1, Some((7, 7))), Token::new(1, None)]);
    assert_eq!(token.parts.len(), 2);
    assert_eq!(token.parts[0].0, 1);
    assert_eq!(token.parts[0].1.len(), 3);
    assert_eq!(token.parts[0].1[1].timeline, vec![(7, 7)]);
    assert_eq!(token.parts[1].0, 2);
    assert_eq!(token.parts[1].1.len(), 1);
}

#[test]
fn a_timeline_is_chronological_when_no_time_goes_back() {
    assert!(Token::new(1, None).is_chronological());
    assert!(Token::new(1, Some((4, 11))).is_chronological());
    let mut token = Token::new(1, Some((4, 11)));
    token.age(20, 4);
    token.age(30, 9);
    assert!(token.is_chronological());
    token.age(20, 8);
    assert!(!token.is_chronological());
}
