use bimap::BiHashMap;
use componentflow::analyzer::{analyze_timeline, statistics_fit};
use componentflow::analyzer::analyze_token::analyze_single_token;
use componentflow::analyzer::token_stats::TokenStats;
use componentflow::engine::tokens::Token;
use componentflow::parser::yaml_parser::LogingConfig;

fn logs(stamps: &[u16]) -> LogingConfig {
    let mut actors_indices = BiHashMap::new();
    for (row, stamp) in stamps.iter().enumerate() {
        actors_indices.insert(*stamp, row);
    }
    LogingConfig {
        actors_indices,
        components_codes: BiHashMap::new(),
        actors_codes: BiHashMap::new(),
        offset_id_actors: 10,
    }
}

fn token(timeline: &[(u64, u16)]) -> Token {
    let mut token = Token::new(1, None);
    token.timeline = timeline.to_vec();
    token
}

fn row(stats: &TokenStats, f: fn(&TokenStats, usize, usize) -> Option<u128>, r: usize, bins: usize) -> Vec<u128> {
    (0..bins).map(|b| f(stats, r, b).unwrap()).collect()
}

fn entries(stats: &TokenStats, r: usize, bins: usize) -> Vec<u128> {
    row(stats, |s, r, b| s.reentrance(r, b), r, bins)
}

fn presence(stats: &TokenStats, r: usize, bins: usize) -> Vec<u128> {
    row(stats, |s, r, b| s.occupancy(r, b), r, bins)
}

fn all_numbers(stats: &TokenStats, rows: usize, bins: usize) -> Vec<Vec<u128>> {
    let mut out = Vec::new();
    for r in 0..rows {
        out.push(vec![stats.lifetime(r).unwrap(), stats.lifetime_sq(r).unwrap()]);
        out.push(entries(stats, r, bins));
        out.push(presence(stats, r, bins));
    }
    out
}

#[test]
fn zeros_has_the_shape_asked_for() {
    let stats = TokenStats::zeros(2, 3);
    assert_eq!(stats.lifetime(0), Some(0));
    assert_eq!(stats.lifetime(1), Some(0));
    assert_eq!(stats.lifetime(2), None);
    assert_eq!(stats.lifetime_sq(1), Some(0));
    assert_eq!(stats.lifetime_sq(2), None);
    assert_eq!(stats.reentrance(1, 2), Some(0));
    assert_eq!(stats.reentrance(1, 3), None);
    assert_eq!(stats.reentrance(2, 0), None);
    assert_eq!(stats.occupancy(1, 2), Some(0));
    assert_eq!(stats.occupancy(2, 2), None);
}

#[test]
fn a_stay_counts_as_lifetime_and_presence() {
    let cfg = logs(&[21, 31]);
    let stats = analyze_single_token(&token(&[(0, 21), (5, 31)]), &cfg, 20);
    assert_eq!(stats.lifetime(0), Some(5));
    assert_eq!(stats.lifetime_sq(0), Some(25));
    assert_eq!(stats.lifetime(1), Some(0));
    assert_eq!(stats.lifetime_sq(1), Some(0));
    let mut first = vec![0u128; 20];
    first[0] = 1;
    assert_eq!(entries(&stats, 0, 20), first);
    let mut second = vec![0u128; 20];
    second[5] = 1;
    assert_eq!(entries(&stats, 1, 20), second);
    let mut stayed = vec![0u128; 20];
    for bin in stayed.iter_mut().take(5) {
        *bin = 1;
    }
    assert_eq!(presence(&stats, 0, 20), stayed);
    assert_eq!(presence(&stats, 1, 20), vec![0u128; 20]);
}

#[test]
fn a_single_entry_is_an_entry_and_nothing_else() {
    let cfg = logs(&[21, 31]);
    let stats = analyze_single_token(&token(&[(3, 31)]), &cfg, 6);
    assert_eq!(stats.lifetime(0), Some(0));
    assert_eq!(stats.lifetime(1), Some(0));
    assert_eq!(stats.lifetime_sq(1), Some(0));
    assert_eq!(entries(&stats, 0, 6), vec![0, 0, 0, 0, 0, 0]);
    assert_eq!(entries(&stats, 1, 6), vec![0, 0, 0, 1, 0, 0]);
    assert_eq!(presence(&stats, 0, 6), vec![0, 0, 0, 0, 0, 0]);
    assert_eq!(presence(&stats, 1, 6), vec![0, 0, 0, 0, 0, 0]);
}

#[test]
fn an_empty_timeline_gives_zeros() {
    let cfg = logs(&[21]);
    let stats = analyze_single_token(&token(&[]), &cfg, 4);
    assert_eq!(all_numbers(&stats, 1, 4), vec![vec![0, 0], vec![0, 0, 0, 0], vec![0, 0, 0, 0]]);
}

#[test]
fn stays_are_clipped_at_the_horizon() {
    let cfg = logs(&[21, 31]);
    let stats = analyze_single_token(&token(&[(2, 21), (9, 31), (12, 21), (15, 31)]), &cfg, 5);
    // the first stay lasts from 2 to the horizon; the later entries lie beyond it
    assert_eq!(stats.lifetime(0), Some(3));
    assert_eq!(stats.lifetime_sq(0), Some(9));
    assert_eq!(stats.lifetime(1), Some(0));
    assert_eq!(entries(&stats, 0, 5), vec![0, 0, 1, 0, 0]);
    assert_eq!(entries(&stats, 1, 5), vec![0, 0, 0, 0, 0]);
    assert_eq!(presence(&stats, 0, 5), vec![0, 0, 1, 1, 1]);
    assert_eq!(presence(&stats, 1, 5), vec![0, 0, 0, 0, 0]);
}

#[test]
fn a_stay_that_ends_at_the_horizon_fills_the_last_bin() {
    let cfg = logs(&[21]);
    let stats = analyze_single_token(&token(&[(3, 21), (5, 21)]), &cfg, 5);
    assert_eq!(stats.lifetime(0), Some(2));
    assert_eq!(presence(&stats, 0, 5), vec![0, 0, 0, 1, 1]);
    assert_eq!(entries(&stats, 0, 5), vec![0, 0, 0, 1, 0]);
}

#[test]
fn stamps_without_a_row_are_passed_over() {
    let cfg = logs(&[21]);
    let stats = analyze_single_token(&token(&[(0, 99), (2, 21), (4, 99), (6, 21)]), &cfg, 8);
    assert_eq!(stats.lifetime(0), Some(2));
    assert_eq!(entries(&stats, 0, 8), vec![0, 0, 1, 0, 0, 0, 1, 0]);
    assert_eq!(presence(&stats, 0, 8), vec![0, 0, 1, 1, 0, 0, 0, 0]);
}

#[test]
fn coming_back_adds_up() {
    let cfg = logs(&[21, 31]);
    let stats = analyze_single_token(&token(&[(0, 21), (2, 31), (2, 21), (5, 31), (5, 31)]), &cfg, 10);
    assert_eq!(stats.lifetime(0), Some(5));
    assert_eq!(stats.lifetime_sq(0), Some(25));
    assert_eq!(stats.lifetime(1), Some(0));
    assert_eq!(entries(&stats, 0, 6), vec![1, 0, 1, 0, 0, 0]);
    assert_eq!(entries(&stats, 1, 6), vec![0, 0, 1, 0, 0, 2]);
    assert_eq!(presence(&stats, 0, 6), vec![1, 1, 1, 1, 1, 0]);
}

#[test]
fn accumulate_adds_number_by_number() {
    let cfg = logs(&[21, 31]);
    let a = analyze_single_token(&token(&[(0, 21), (5, 31)]), &cfg, 8);
    let b = analyze_single_token(&token(&[(1, 21), (6, 31)]), &cfg, 8);
    let sum = a.accumulate(b);
    assert_eq!(sum.lifetime(0), Some(10));
    assert_eq!(sum.lifetime_sq(0), Some(50));
    assert_eq!(entries(&sum, 0, 8), vec![1, 1, 0, 0, 0, 0, 0, 0]);
    assert_eq!(entries(&sum, 1, 8), vec![0, 0, 0, 0, 0, 1, 1, 0]);
    assert_eq!(presence(&sum, 0, 8), vec![1, 2, 2, 2, 2, 1, 0, 0]);
}

#[test]
fn two_tokens_through_a_transformer_of_delay_five() {
    let cfg = logs(&[21, 31]);
    let tokens = vec![token(&[(0, 21), (5, 31)]), token(&[(1, 21), (6, 31)])];
    let total = analyze_timeline(&tokens, 20, &cfg).unwrap();
    let n = tokens.len() as f64;
    let mean = total.lifetime(0).unwrap() as f64 / n;
    let variance = total.lifetime_sq(0).unwrap() as f64 / n - mean * mean;
    assert_eq!(mean, 5.0);
    assert_eq!(variance, 0.0);
    assert_eq!(total.lifetime(1), Some(0));
}

#[test]
fn folding_is_the_same_however_the_tokens_are_split() {
    let cfg = logs(&[21, 31]);
    let make = || {
        vec![
            token(&[(0, 21), (5, 31)]),
            token(&[(1, 21), (2, 31), (2, 21), (9, 31)]),
            token(&[(4, 31)]),
        ]
    };
    let whole = analyze_timeline(&make(), 10, &cfg).unwrap();
    let mut parts = make();
    let rest = parts.split_off(1);
    let left = analyze_timeline(&parts, 10, &cfg).unwrap();
    let right = analyze_timeline(&rest, 10, &cfg).unwrap();
    let joined = left.accumulate(right);
    assert_eq!(all_numbers(&whole, 2, 10), all_numbers(&joined, 2, 10));
    let mut parts = make();
    let last = parts.split_off(2);
    let joined = analyze_timeline(&parts, 10, &cfg).unwrap().accumulate(analyze_timeline(&last, 10, &cfg).unwrap());
    assert_eq!(all_numbers(&whole, 2, 10), all_numbers(&joined, 2, 10));
    assert_eq!(whole.lifetime(0), Some(5 + 8));
    assert_eq!(whole.lifetime_sq(0), Some(25 + 64));
}

#[test]
fn folding_no_token_gives_zeros() {
    let cfg = logs(&[21, 31]);
    let total = analyze_timeline(&Vec::new(), 3, &cfg).unwrap();
    assert_eq!(
        all_numbers(&total, 2, 3),
        vec![vec![0, 0], vec![0, 0, 0], vec![0, 0, 0], vec![0, 0], vec![0, 0, 0], vec![0, 0, 0]]
    );
    assert_eq!(total.lifetime(2), None);
}

#[test]
fn a_horizon_beyond_u32_is_refused() {
    let cfg = logs(&[21]);
    assert!(analyze_timeline(&Vec::new(), 0x1_0000_0000, &cfg).is_none());
    assert!(analyze_timeline(&Vec::new(), usize::MAX, &cfg).is_none());
}

#[test]
fn statistics_fit_when_the_horizon_and_the_memory_allow() {
    let cfg = logs(&[21, 31]);
    assert!(statistics_fit(20, &cfg));
    assert!(statistics_fit(0, &cfg));
    assert!(statistics_fit(0xffff_ffff, &logs(&[])));
    assert!(!statistics_fit(0x1_0000_0000, &cfg));
    assert!(!statistics_fit(usize::MAX, &cfg));
}

#[test]
fn checked_accumulate_adds_where_shapes_agree_and_sums_fit() {
    let cfg = logs(&[21, 31]);
    let a = analyze_single_token(&token(&[(0, 21), (5, 31)]), &cfg, 8);
    let b = analyze_single_token(&token(&[(1, 21), (6, 31)]), &cfg, 8);
    assert!(a.same_shape(&b));
    assert!(a.fits_with(&b));
    let sum = a.checked_accumulate(b).unwrap();
    assert_eq!(sum.lifetime(0), Some(10));
    assert_eq!(sum.lifetime_sq(0), Some(50));
    assert_eq!(presence(&sum, 0, 8), vec![1, 2, 2, 2, 2, 1, 0, 0]);
    let narrow = TokenStats::zeros(2, 7);
    assert!(!sum.same_shape(&narrow));
    assert!(sum.checked_accumulate(narrow).is_none());
    let short = TokenStats::zeros(1, 8);
    assert!(TokenStats::zeros(2, 8).checked_accumulate(short).is_none());
}

#[test]
fn the_order_of_the_tokens_does_not_change_the_total() {
    let cfg = logs(&[21, 31]);
    let one = || token(&[(0, 21), (5, 31)]);
    let two = || token(&[(1, 21), (2, 31), (2, 21), (9, 31)]);
    let three = || token(&[(4, 31)]);
    let total = analyze_timeline(&vec![one(), two(), three()], 10, &cfg).unwrap();
    let other = analyze_timeline(&vec![three(), one(), two()], 10, &cfg).unwrap();
    let reversed = analyze_timeline(&vec![three(), two(), one()], 10, &cfg).unwrap();
    assert_eq!(all_numbers(&total, 2, 10), all_numbers(&other, 2, 10));
    assert_eq!(all_numbers(&total, 2, 10), all_numbers(&reversed, 2, 10));
}
