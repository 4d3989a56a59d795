use distinction::find_n_distinct;
use distinction::Gen;
use rand::rngs::SmallRng;
use rand::Rng;
use rand::SeedableRng;

/// The sample-size threshold for stream length `m` and accuracy parameters
/// `eps` and `delta`: ceil((12 / eps^2) * log2(8 m / delta)).
fn threshold(m: usize, eps: f64, delta: f64) -> usize {
    (12.0 / eps.powf(2.0) * f64::log2((8 * m) as f64 / delta)).ceil() as usize
}

fn ground_truth_unique_naive(stream: Vec<i32>) -> usize {
    let mut stream = stream;
    stream.sort();
    stream.dedup();
    stream.len()
}

#[test]
fn it_works() {
    let mut rng = SmallRng::from_entropy();
    let stream: Vec<i32> = (0..100000).map(|_| rng.gen_range(0..2000)).collect();
    let eps = 0.1;
    let delta = 0.005;
    let thresh = threshold(stream.len(), eps, delta);

    assert_eq!(
        ground_truth_unique_naive(stream.clone()),
        find_n_distinct(&stream, thresh, Some(Gen::new(None)))
    );
}

#[test]
fn empty_stream_is_zero() {
    let stream: Vec<i32> = vec![];
    assert_eq!(find_n_distinct(&stream, 1, None), 0);
    assert_eq!(find_n_distinct(&stream, 100, Some(Gen::new(Some(7)))), 0);
    assert_eq!(find_n_distinct(&stream, usize::MAX, None), 0);
}

#[test]
fn small_scenario_counts_exactly() {
    let stream = vec![1, 10, 20, 10, 10, 30, 20, 10, 20, 20, 1, 1, 1];
    let thresh = threshold(stream.len(), 0.1, 0.005);
    // Fewer than `thresh` distinct values: the result is exact for any
    // generator, seeded or not.
    assert_eq!(find_n_distinct(&stream, thresh, Some(Gen::new(Some(42)))), 4);
    assert_eq!(find_n_distinct(&stream, thresh, None), 4);
}

#[test]
fn threshold_formula_reference_values() {
    // Exactness holds whenever the distinct count stays under the computed
    // threshold; these are the parameter choices exercised elsewhere.
    assert_eq!(threshold(13, 0.1, 0.005), 17214);
    assert_eq!(threshold(100000, 0.1, 0.005), 32705);
}

#[test]
fn determinism_under_a_fixed_seed() {
    let stream: Vec<u64> = (0..5000).map(|x| x % 700).collect();
    // A threshold far below the distinct count forces thinning, so the
    // result depends on the draws; a fixed seed fixes them.
    let a = find_n_distinct(&stream, 64, Some(Gen::new(Some(12345))));
    let b = find_n_distinct(&stream, 64, Some(Gen::new(Some(12345))));
    assert_eq!(a, b);
}

#[test]
fn seed_changes_reach_the_draws() {
    // Two far-apart seeds almost surely give different draw sequences; with
    // heavy thinning the results differ for at least one of these pairs,
    // which a generator ignoring its seed could not produce.
    let stream: Vec<u64> = (0..20000).map(|x| x % 9000).collect();
    let base = find_n_distinct(&stream, 32, Some(Gen::new(Some(1))));
    let mut saw_different = false;
    for seed in 2..30 {
        let other = find_n_distinct(&stream, 32, Some(Gen::new(Some(seed))));
        if other != base {
            saw_different = true;
        }
    }
    assert!(saw_different);
}

#[test]
fn duplicate_append_keeps_exact_estimate() {
    let mut stream = vec![3, 1, 4, 1, 5, 9, 2, 6, 5, 3, 5];
    let thresh = threshold(stream.len() + 1, 0.1, 0.005);
    let before = find_n_distinct(&stream, thresh, None);
    stream.push(5);
    let after = find_n_distinct(&stream, thresh, None);
    assert_eq!(before, after);
    assert_eq!(after, 7);
}

#[test]
fn estimate_never_exceeds_length_in_exact_regime() {
    let stream: Vec<i32> = (0..500).map(|x| x % 37).collect();
    let thresh = threshold(stream.len(), 0.1, 0.005);
    let estimate = find_n_distinct(&stream, thresh, None);
    assert_eq!(estimate, 37);
    assert!(estimate <= stream.len());
}

#[test]
fn tiny_threshold_degenerates_to_zero() {
    // With a sample bound of one slot every pass ends with an empty sample
    // or gives up; either way the defined result is zero.
    let stream = vec![5, 6, 7, 8, 9];
    assert_eq!(find_n_distinct(&stream, 1, Some(Gen::new(Some(3)))), 0);
    assert_eq!(find_n_distinct(&stream, 1, None), 0);
}

#[test]
fn strings_are_counted_by_value() {
    let stream: Vec<String> = vec![
        String::from("a"),
        String::from("b"),
        String::from("a"),
        String::from("c"),
        String::from("b"),
    ];
    let thresh = threshold(stream.len(), 0.1, 0.005);
    assert_eq!(find_n_distinct(&stream, thresh, None), 3);
}
