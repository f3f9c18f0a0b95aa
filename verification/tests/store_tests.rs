use fuga::args::arg;
use fuga::hypervector::{popcount_xor_pair, Hypervector};
use fuga::information_triangle::InformationTriangle;
use fuga::pentagon::PentagonStorage;
use fuga::synthesizer::FugaSynthesizer;
use fuga::token_bridge::TokenBridge;
use fuga::wave_cube::WaveCube;

fn similarity(a: &Hypervector, b: &Hypervector) -> f64 {
    let wc = ((a.dim + 63) / 64).min((b.dim + 63) / 64);
    1.0 - popcount_xor_pair(&a.words, &b.words, wc) as f64 / a.dim as f64
}

fn fetch<'a>(p: &'a PentagonStorage, q: &Hypervector, threshold: f64) -> Option<(&'a str, &'a Hypervector, f64)> {
    let (i, _) = p.closest(q)?;
    let (label, hv) = &p.memory_bank[i];
    let sim = similarity(q, hv);
    if sim >= threshold {
        Some((label.as_str(), hv, sim))
    } else {
        None
    }
}

#[test]
fn test_store_and_fetch() {
    let mut p = PentagonStorage::new(10000);
    let concept = Hypervector::random(10000);
    p.store("syntax_overflow_pattern", concept.clone());
    let found = fetch(&p, &concept, 0.6);
    assert!(found.is_some(), "Should find stored concept by its own vector");
    let (label, _, sim) = found.unwrap();
    assert_eq!(label, "syntax_overflow_pattern");
    assert!(sim > 0.99, "Self-similarity should be near 1.0, got {}", sim);
}

#[test]
fn test_fetch_below_threshold() {
    let mut p = PentagonStorage::new(10000);
    let a = Hypervector::random(10000);
    let b = Hypervector::random(10000);
    p.store("concept_a", a);
    let found = fetch(&p, &b, 0.9);
    assert!(found.is_none(), "Random vectors should not match above 0.9 threshold");
}

#[test]
fn pentagon_store_replaces_and_reads_back() {
    let mut p = PentagonStorage::new(128);
    let a = Hypervector::random(128);
    let b = Hypervector::random(128);
    p.store("x", a.clone());
    p.store("y", b.clone());
    assert_eq!(p.size(), 2);
    p.store("x", b.clone());
    assert_eq!(p.size(), 2);
    assert_eq!(p.get("x").unwrap().words, b.words);
    assert_eq!(p.get("y").unwrap().words, b.words);
    assert!(p.get("z").is_none());
    let (i, m) = p.closest(&b).unwrap();
    assert_eq!(i, 0);
    assert_eq!(m, 0);
}

#[test]
fn pentagon_closest_prefers_fewest_differences() {
    let mut p = PentagonStorage::new(64);
    p.store("far", Hypervector::from_raw(64, vec![u64::MAX]));
    p.store("near", Hypervector::from_raw(64, vec![0b111]));
    let q = Hypervector::from_raw(64, vec![0b1]);
    assert_eq!(p.closest(&q), Some((1, 2)));
    assert_eq!(PentagonStorage::new(64).closest(&q), None);
}

#[test]
fn nearest_counts_skip_short_tokens() {
    let tb = TokenBridge::new(vec!["a".to_string(), "ab".to_string(), "abc".to_string()], 256);
    let q = tb.hvs[2].clone();
    let counts = tb.nearest_counts(&q);
    assert_eq!(counts.len(), 2);
    assert_eq!(counts[0].0, 1);
    assert_eq!(counts[1].0, 2);
    let ones: u32 = q.words.iter().map(|w| w.count_ones()).sum();
    assert_eq!(counts[1].1, ones);
    assert_eq!(counts[1].2, ones);
}

fn cube_entropy(c: &WaveCube<3, 4>) -> f64 {
    let ones: u64 = c.cube.iter().map(|h| h.words.iter().map(|w| w.count_ones() as u64).sum::<u64>()).sum();
    ones as f64 / (64 * c.dim) as f64
}

fn cube_coherence(c: &WaveCube<3, 4>) -> f64 {
    let mut sum = 0.0;
    for i in 0..4 {
        sum += similarity(&c.cell(i, i, i), &c.cell(3 - i, 3 - i, 3 - i));
    }
    sum / 4.0
}

/// The fugue synthesis of an attack, as the engine runs it: the library's
/// absorb step, a pentagon fetch and replenish when the cube runs dry, then
/// the float bug score.
fn synthesize(
    synth: &FugaSynthesizer,
    cube: &mut WaveCube<3, 4>,
    t: &mut InformationTriangle,
    pentagon: &PentagonStorage,
    attack: &Hypervector,
) -> f64 {
    synth.absorb_attack(cube, t, attack);
    if cube_entropy(cube) < 0.3 || cube_coherence(cube) < 0.4 {
        let diagonal: Vec<Hypervector> = (0..4).map(|i| cube.cell(i, i, i)).collect();
        if diagonal.iter().any(|q| fetch(pentagon, q, 0.6).is_some()) {
            synth.replenish(cube);
        }
    }
    let ab = similarity(&t.vertex_syntax, &t.vertex_semantics);
    let ac = similarity(&t.vertex_syntax, &t.vertex_chaos);
    let bc = similarity(&t.vertex_semantics, &t.vertex_chaos);
    let counterpoint = 1.0 - (ab + ac + bc) / 3.0;
    let not_safety = 1.0 - similarity(&t.vertex_syntax, attack);
    let breakdown = 1.0 - similarity(&t.vertex_semantics, attack);
    counterpoint * not_safety * breakdown
}

fn make_pentagon(dim: usize) -> PentagonStorage {
    let mut pentagon = PentagonStorage::new(dim);
    pentagon.store("overflow", Hypervector::random(dim));
    pentagon.store("race_condition", Hypervector::random(dim));
    pentagon
}

#[test]
fn test_synthesize_random_attack() {
    let dim = 16384;
    let mut cube = WaveCube::<3, 4>::new(dim);
    let mut triangle = InformationTriangle::new(dim);
    let pentagon = make_pentagon(dim);
    let synth = FugaSynthesizer::new(dim);
    let attack = Hypervector::random(dim);
    let confidence = synthesize(&synth, &mut cube, &mut triangle, &pentagon, &attack);
    assert!(confidence >= 0.0 && confidence <= 1.0);
}

#[test]
fn test_synthesize_known_bug_pattern() {
    let dim = 65536;
    let mut cube = WaveCube::<3, 4>::new(dim);
    let mut triangle = InformationTriangle::new(dim);
    let pentagon = make_pentagon(dim);
    let synth = FugaSynthesizer::new(dim);
    let chaos_inject = Hypervector::random(dim);
    triangle.vertex_chaos = triangle.vertex_chaos.bundle(&[&chaos_inject]);
    let confidence = synthesize(&synth, &mut cube, &mut triangle, &pentagon, &chaos_inject);
    assert!(confidence > 0.0, "Constructed attack should produce non-zero signal");
}

#[test]
fn replenish_keeps_cube_shape() {
    let dim = 256;
    let mut cube = WaveCube::<3, 4>::new(dim);
    let synth = FugaSynthesizer::new(dim);
    synth.replenish(&mut cube);
    assert_eq!(cube.cube.len(), 64);
    assert!(cube.cube.iter().all(|c| c.dim == dim && c.words.len() == 4));
}

#[test]
fn arg_reads_first_occurrence() {
    let args: Vec<String> = ["prog", "--n", "12", "--n", "7", "--bad", "x1", "--last"].iter().map(|s| s.to_string()).collect();
    assert_eq!(arg(&args, "--n", 3), 12);
    assert_eq!(arg(&args, "--bad", 3), 3);
    assert_eq!(arg(&args, "--last", 5), 5);
    assert_eq!(arg(&args, "--none", 9), 9);
}

#[test]
fn unpositioned_encoding_ignores_where_grams_occur() {
    let a = fuga::token_bridge::encode_bytes_nopos(b"abab", 512);
    let b = fuga::token_bridge::encode_bytes_nopos(b"ababab", 512);
    assert_eq!(a.words, b.words);
    let c = fuga::token_bridge::encode_bytes_nopos(b"abc", 512);
    assert_ne!(a.words, c.words);
}

#[test]
fn aggregate_ignores_label_order_and_repeats() {
    let a = fuga::token_bridge::aggregate_labels(&["fn", "loop", "fn"], 256);
    let b = fuga::token_bridge::aggregate_labels(&["loop", "fn"], 256);
    assert_eq!(a.words, b.words);
    let one = fuga::token_bridge::aggregate_labels(&["fn"], 256);
    assert!(one.words.iter().zip(&a.words).all(|(x, y)| x & y == *x));
}
