use componentflow::utils::distributions::{halton_sequence, CyclicSampler};

#[test]
fn halton() {
    let seq: Vec<f64> = halton_sequence(7)
        .iter()
        .map(|(n, d)| *n as f64 / *d as f64)
        .collect();
    assert_eq!(
        seq,
        vec![
            1f64 / 2f64,
            1f64 / 4f64,
            3f64 / 4f64,
            1f64 / 8f64,
            5f64 / 8f64,
            3f64 / 8f64,
            7f64 / 8f64
        ]
    );
}

#[test]
fn halton_points_as_fractions() {
    assert_eq!(
        halton_sequence(8),
        vec![(1, 2), (1, 4), (3, 4), (1, 8), (5, 8), (3, 8), (7, 8), (1, 16)]
    );
    assert_eq!(halton_sequence(0), Vec::<(u64, u64)>::new());
}

#[test]
fn halton_is_the_same_every_time() {
    assert_eq!(halton_sequence(100), halton_sequence(100));
}

#[test]
fn sampler_cycles_through_its_samples() {
    let mut sampler = CyclicSampler::new_from_vec(vec![7u64, 8, 9]);
    assert_eq!(sampler.len(), 3);
    assert!(!sampler.is_empty());
    let drawn: Vec<u64> = (0..7).map(|_| sampler.sample()).collect();
    assert_eq!(drawn, vec![7, 8, 9, 7, 8, 9, 7]);
    assert_eq!(sampler.position(), 1);
}

#[test]
fn new_sampler_is_empty() {
    let sampler: CyclicSampler<u16> = CyclicSampler::new();
    assert!(sampler.is_empty());
    assert_eq!(sampler.len(), 0);
    let other: CyclicSampler<u16> = CyclicSampler::default();
    assert!(other.is_empty());
}

#[test]
fn set_samples_starts_the_cycle_anew() {
    let mut sampler = CyclicSampler::new_from_vec(vec![1u16, 2, 3]);
    sampler.sample();
    sampler.sample();
    sampler.set_samples(vec![4, 5]);
    assert_eq!(sampler.position(), 0);
    assert_eq!(sampler.to_vec(), vec![4, 5]);
    assert_eq!(sampler.sample(), 4);
}

#[test]
fn sample_n_draws_one_less_than_n() {
    let mut sampler = CyclicSampler::new_from_vec(vec![1u16, 2, 3]);
    assert_eq!(sampler.sample_n(0), Vec::<u16>::new());
    assert_eq!(sampler.sample_n(1), Vec::<u16>::new());
    assert_eq!(sampler.sample_n(5), vec![1, 2, 3, 1]);
    assert_eq!(sampler.position(), 1);
}

#[test]
fn freq_counts_the_next_samples() {
    let mut sampler = CyclicSampler::new_from_vec(vec![30u16, 20, 30, 30]);
    let counts = sampler.freq(6);
    assert_eq!(counts.len(), 2);
    assert_eq!(counts[&30], 4);
    assert_eq!(counts[&20], 2);
    assert_eq!(sampler.position(), 2);
    let none = sampler.freq(0);
    assert!(none.is_empty());
    assert_eq!(sampler.position(), 2);
}

#[test]
fn freq_over_full_cycles_is_the_same_from_any_start() {
    let mut sampler = CyclicSampler::new_from_vec(vec![30u16, 20, 30, 30]);
    sampler.sample();
    let counts = sampler.freq(8);
    assert_eq!(counts[&30], 6);
    assert_eq!(counts[&20], 2);
}
