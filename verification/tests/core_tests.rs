use fuga::cube_file::{parse_cube_header, CubeLoadError};
use fuga::hypervector::{popcount_chunks, popcount_xor_pair, Hypervector};
use fuga::information_triangle::InformationTriangle;
use fuga::wave_cube::WaveCube;

fn hamming_distance(a: &Hypervector, b: &Hypervector) -> f64 {
    a.hamming_mismatches(b) as f64 / a.dim as f64
}

fn similarity(a: &Hypervector, b: &Hypervector) -> f64 {
    1.0 - hamming_distance(a, b)
}

fn entropy(h: &Hypervector) -> f64 {
    popcount_chunks(&h.words) as f64 / h.dim as f64
}

fn global_entropy<const N: usize, const S: usize>(c: &WaveCube<N, S>) -> f64 {
    let total_bits = WaveCube::<N, S>::total_cells() * c.dim;
    let ones: u64 = c
        .cube
        .iter()
        .map(|hv| entropy(hv) * hv.dim as f64)
        .sum::<f64>() as u64;
    ones as f64 / total_bits as f64
}

fn coherence<const N: usize, const S: usize>(c: &WaveCube<N, S>) -> f64 {
    if N < 3 {
        return 0.0;
    }
    let mut sum = 0.0;
    let mut count = 0;
    for i in 0..S {
        let a = c.cell(i, i, i);
        let b = c.cell(S - 1 - i, S - 1 - i, S - 1 - i);
        sum += similarity(&a, &b);
        count += 1;
    }
    sum / count as f64
}

fn triangle_coherence(t: &InformationTriangle) -> f64 {
    let ab = similarity(&t.vertex_syntax, &t.vertex_semantics);
    let ac = similarity(&t.vertex_syntax, &t.vertex_chaos);
    let bc = similarity(&t.vertex_semantics, &t.vertex_chaos);
    (ab + ac + bc) / 3.0
}

#[test]
fn test_random_entropy() {
    let hv = Hypervector::random(100000);
    let e = entropy(&hv);
    assert!(e > 0.45 && e < 0.55);
}

#[test]
fn test_bind_unbind_roundtrip() {
    let d = 100000;
    let a = Hypervector::random(d);
    let b = Hypervector::random(d);
    let bound = a.bind(&b);
    let recovered = bound.unbind(&b);
    let sim = similarity(&a, &recovered);
    assert!(sim > 0.90);
}

#[test]
fn test_permute_reversibility() {
    let d = 100000;
    let hv = Hypervector::random(d);
    let shifted = hv.permute(3);
    let back = shifted.permute(d - 3);
    assert!(similarity(&hv, &back) > 0.99);
}

#[test]
fn test_bundle_similarity() {
    let d = 100000;
    let a = Hypervector::random(d);
    let b = Hypervector::random(d);
    let bundled = a.bundle(&[&b]);
    assert!(similarity(&bundled, &a) > 0.5);
    assert!(similarity(&bundled, &b) > 0.5);
}

#[test]
fn test_hamming_identical() {
    let d = 100000;
    let hv = Hypervector::random(d);
    assert!(hamming_distance(&hv, &hv) < 0.01);
}

#[test]
fn test_from_i8_bits() {
    let d = 256;
    let i8_bits: Vec<i8> = (0..d).map(|i| if i % 2 == 0 { 1 } else { -1 }).collect();
    let hv = Hypervector::from_i8_bits(d, &i8_bits);
    assert_eq!(entropy(&hv), 0.5);
}

#[test]
fn test_dim_100000_word_count() {
    let hv = Hypervector::random(100000);
    assert_eq!(hv.words.len(), 1563);
    let hv2 = Hypervector::random(256);
    assert_eq!(hv2.words.len(), 4);
}

#[test]
fn test_triangle_ingestion_classifies() {
    let dim = 10000;
    let mut triangle = InformationTriangle::new(dim);
    let pattern = Hypervector::random(dim);
    let before = triangle_coherence(&triangle);
    triangle.ingest_pattern(&pattern);
    let after = triangle_coherence(&triangle);
    assert!(before != after);
}

#[test]
fn test_emit_to_cube_returns_valid_vectors() {
    let dim = 1024;
    let triangle = InformationTriangle::new(dim);
    let (syn, sem, chaos) = triangle.emit_to_cube();
    assert_eq!(syn.dim, dim);
    assert_eq!(sem.dim, dim);
    assert_eq!(chaos.dim, dim);
}

type Cube34 = WaveCube<3, 4>;

fn make_cube() -> Cube34 {
    Cube34::new(1024)
}

#[test]
fn test_creation() {
    let cube = make_cube();
    assert_eq!(cube.cube.len(), 64);
    let ent = global_entropy(&cube);
    assert!(ent > 0.45 && ent < 0.55);
}

#[test]
fn test_4d_creation() {
    let cube = WaveCube::<4, 4>::new(1024);
    assert_eq!(cube.cube.len(), 256);
    let ent = global_entropy(&cube);
    assert!(ent > 0.45 && ent < 0.55);
}

#[test]
fn test_wave_flow_preserves_dimensions() {
    let mut cube: Cube34 = Cube34::new(512);
    cube.wave_flow_x(2);
    assert_eq!(cube.cube.len(), 64);
}

#[test]
fn test_4d_wave_flow() {
    let mut cube = WaveCube::<4, 4>::new(512);
    cube.wave_flow(3, 1);
    assert_eq!(cube.cube.len(), 256);
}

#[test]
fn test_absorb_from_triangle() {
    let mut cube: Cube34 = Cube34::new(1024);
    let t_syntax = Hypervector::random(1024);
    let t_semantics = Hypervector::random(1024);
    let t_chaos = Hypervector::random(1024);
    let entropy_before = global_entropy(&cube);
    cube.absorb_from_triangle(&t_syntax, &t_semantics, &t_chaos);
    let entropy_after = global_entropy(&cube);
    assert_ne!(entropy_before, entropy_after);
}

#[test]
fn test_save_load_bin_roundtrip() {
    let cube = WaveCube::<4, 4>::new(256);
    let data = cube.to_bin_bytes();
    let loaded = WaveCube::<4, 4>::from_bin_bytes(&data).ok().unwrap();
    assert_eq!(loaded.dim, cube.dim);
    assert_eq!(loaded.cube.len(), cube.cube.len());
    for i in 0..cube.cube.len() {
        let sim = similarity(&cube.cube[i], &loaded.cube[i]);
        assert!(sim > 0.99, "Cell {} similarity: {}", i, sim);
    }
}

#[test]
fn test_save_load_3d_roundtrip() {
    let cube = WaveCube::<3, 4>::new(256);
    let data = cube.to_bin_bytes();
    let loaded = WaveCube::<3, 4>::from_bin_bytes(&data).ok().unwrap();
    assert_eq!(loaded.cube.len(), 64);
}

#[test]
fn test_cell_write_read() {
    let mut cube = make_cube();
    let hv = Hypervector::random(1024);
    cube.write_cell(1, 2, 3, &hv);
    let read = cube.cell(1, 2, 3);
    assert!(similarity(&hv, &read) > 0.99);
}

#[test]
fn test_4d_cell_write_read() {
    let mut cube = WaveCube::<4, 4>::new(1024);
    let hv = Hypervector::random(1024);
    cube.write_at(&[1, 2, 3, 1], &hv);
    let read = cube.cell_at(&[1, 2, 3, 1]);
    assert!(similarity(&hv, &read) > 0.99);
}

#[test]
fn test_coherence() {
    let cube = make_cube();
    let coh = coherence(&cube);
    assert!(coh >= 0.0 && coh <= 1.0);
}

// ---- further scenarios ----

#[test]
fn bind_is_xor_of_words() {
    let a = Hypervector::from_raw(128, vec![0b1100, 0xFF]);
    let b = Hypervector::from_raw(128, vec![0b1010, 0x0F]);
    let c = a.bind(&b);
    assert_eq!(c.words, vec![0b0110, 0xF0]);
    assert_eq!(c.unbind(&b).words, a.words);
}

#[test]
fn bundle_of_pair_keeps_common_bits() {
    let a = Hypervector::from_raw(64, vec![0b1100]);
    let b = Hypervector::from_raw(64, vec![0b1010]);
    assert_eq!(a.bundle(&[&b]).words, vec![0b1000]);
    let c = Hypervector::from_raw(64, vec![0b0110]);
    assert_eq!(a.bundle(&[&b, &c]).words, vec![0b1110]);
}

#[test]
fn permute_rotates_bits_up() {
    let h = Hypervector::from_raw(10, vec![0b10_0000_0001]);
    assert_eq!(h.permute(1).words, vec![0b00_0000_0011]);
    assert_eq!(h.permute(10).words, h.words);
}

#[test]
fn i8_bits_roundtrip() {
    let h = Hypervector::from_raw(70, vec![0xDEAD_BEEF, 0b10_1010]);
    let bits = h.to_i8_bits();
    assert_eq!(bits.len(), 70);
    assert_eq!(bits[0], 1);
    assert_eq!(bits[4], -1);
    assert_eq!(Hypervector::from_i8_bits(70, &bits).words, h.words);
    let short = Hypervector::from_i8_bits(70, &[1, -1, 1]);
    assert_eq!(short.words, vec![0b101, 0]);
}

#[test]
fn to_bytes_is_little_endian() {
    let h = Hypervector::from_raw(64, vec![0x0102_0304_0506_0708]);
    assert_eq!(h.to_bytes(), vec![8, 7, 6, 5, 4, 3, 2, 1]);
}

#[test]
fn balance_density_reaches_half() {
    let h = Hypervector::from_raw(8, vec![0b0000_0001]);
    let b = h.balance_density();
    assert_eq!(b.words, vec![0b0000_1111]);
    let full = Hypervector::from_raw(8, vec![0xFF]);
    assert_eq!(full.balance_density().words, vec![0xF0]);
    let r = Hypervector::random(1000).balance_density();
    assert_eq!(popcount_chunks(&r.words), 500);
}

#[test]
fn popcount_helpers_count_bits() {
    assert_eq!(popcount_chunks(&[1, 3, 7, 15, 31]), 15);
    assert_eq!(popcount_xor_pair(&[0xFF, 1, 1], &[0x0F, 0, 1], 2), 5);
    assert_eq!(popcount_xor_pair(&[0xFF, 1, 1], &[0x0F], 9), 4);
}

#[test]
fn coordinates_roundtrip() {
    let cube = WaveCube::<4, 4>::new(64);
    assert_eq!(cube.idx(&[1, 2, 3, 1]), 1 * 64 + 2 * 16 + 3 * 4 + 1);
    assert_eq!(cube.coords_from_idx(109), [1, 2, 3, 1]);
    for i in 0..256 {
        assert_eq!(cube.idx(&cube.coords_from_idx(i)), i);
    }
    let c3 = WaveCube::<3, 4>::new(64);
    assert_eq!(c3.idx_3d(1, 2, 3), 27);
}

#[test]
fn wave_flow_moves_first_slab() {
    let mut cube = WaveCube::<3, 2>::new(64);
    for i in 0..8 {
        cube.cube[i] = Hypervector::from_raw(64, vec![i as u64]);
    }
    cube.wave_flow_x(1);
    let ids: Vec<u64> = cube.cube.iter().map(|h| h.words[0]).collect();
    assert_eq!(ids, vec![4, 5, 6, 7, 4, 5, 6, 7]);
    cube.wave_flow_z(-3);
    let ids: Vec<u64> = cube.cube.iter().map(|h| h.words[0]).collect();
    assert_eq!(ids, vec![5, 5, 7, 7, 5, 5, 7, 7]);
}

#[test]
fn load_reports_mismatches() {
    let cube = WaveCube::<3, 4>::new(64);
    let bytes = cube.to_bin_bytes();
    match WaveCube::<3, 2>::from_bin_bytes(&bytes) {
        Err(CubeLoadError::SideMismatch { found, expected }) => {
            assert_eq!((found, expected), (4, 2));
        }
        _ => panic!("expected a side mismatch"),
    }
    match WaveCube::<4, 4>::from_bin_bytes(&bytes) {
        Err(CubeLoadError::NdimMismatch { found, expected }) => {
            assert_eq!((found, expected), (3, 4));
        }
        _ => panic!("expected an ndim mismatch"),
    }
    match WaveCube::<3, 4>::from_bin_bytes(&bytes[..bytes.len() - 8]) {
        Err(CubeLoadError::SizeMismatch { cells, expected }) => {
            assert_eq!((cells, expected), (63, 64));
        }
        _ => panic!("expected a size mismatch"),
    }
    assert_eq!(parse_cube_header(&bytes), (3, 4, 64));
    let mut old = vec![4u8, 0, 0, 0, 9, 9, 9, 9, 0, 0, 0, 0, 64, 0, 0, 0];
    old.extend_from_slice(&bytes[16..]);
    assert_eq!(parse_cube_header(&old), (3, 4, 64));
    assert!(WaveCube::<3, 4>::from_bin_bytes(&old).is_ok());
}

#[test]
fn ingest_updates_accumulator_and_vertex() {
    let mut t = InformationTriangle::new(64);
    t.vertex_syntax = Hypervector::from_raw(64, vec![0xFF]);
    t.vertex_semantics = Hypervector::from_raw(64, vec![0]);
    t.vertex_chaos = Hypervector::from_raw(64, vec![u64::MAX]);
    t.accumulator = Hypervector::from_raw(64, vec![0b0011]);
    t.accumulator_count = 1;
    let p = Hypervector::from_raw(64, vec![0x0F]);
    t.ingest_pattern(&p);
    assert_eq!(t.vertex_syntax.words, vec![0x0F]);
    assert_eq!(t.vertex_semantics.words, vec![0]);
    assert_eq!(t.accumulator.words, vec![0x0F]);
    assert_eq!(t.accumulator_count, 2);
    let q = Hypervector::from_raw(64, vec![0xF0]);
    t.ingest_pattern(&q);
    assert_eq!(t.accumulator.words, vec![0x0F]);
    assert_eq!(t.accumulator_count, 3);
}

#[test]
fn write_leaves_other_cells_alone() {
    let mut cube = WaveCube::<3, 4>::new(128);
    let before = cube.cell(3, 2, 1);
    let hv = Hypervector::from_raw(128, vec![0xDEAD_BEEF, 0x1234]);
    cube.write_cell(1, 2, 3, &hv);
    assert_eq!(cube.cell(1, 2, 3).words, hv.words);
    assert_eq!(cube.cell(3, 2, 1).words, before.words);
    assert_eq!(cube.cube[1 * 16 + 2 * 4 + 3].words, hv.words);
}

#[test]
fn seeded_vector_is_the_hashed_seed_generator_words() {
    let mut h = std::collections::hash_map::DefaultHasher::new();
    std::hash::Hash::hash("IntegerOverflow", &mut h);
    let mut rng: rand::rngs::StdRng = rand::SeedableRng::seed_from_u64(std::hash::Hasher::finish(&h));
    let mut words: Vec<u64> = (0..4).map(|_| rand::RngCore::next_u64(&mut rng)).collect();
    words[3] &= (1u64 << 8) - 1;
    let v = fuga::entropy::deterministic_vector(200, "IntegerOverflow");
    assert_eq!(v.dim, 200);
    assert_eq!(v.words, words);
    assert_eq!(fuga::entropy::deterministic_vector(200, "IntegerOverflow").words, v.words);
    assert_ne!(fuga::entropy::deterministic_vector(200, "DivisionByZero").words, v.words);
}

#[test]
fn drawn_words_are_masked_to_the_dimension() {
    let v = Hypervector::from_drawn_words(70, vec![u64::MAX, u64::MAX]);
    assert_eq!(v.words, vec![u64::MAX, 0x3F]);
    let w = Hypervector::from_drawn_words(128, vec![5, 7]);
    assert_eq!(w.words, vec![5, 7]);
}

#[test]
fn absorb_is_three_binds_then_three_flows() {
    let dim = 128;
    let mut a = WaveCube::<3, 4>::new(dim);
    for (i, c) in a.cube.iter_mut().enumerate() {
        *c = Hypervector::from_raw(dim, vec![i as u64 * 0x9E37, (i as u64) << 7]);
    }
    let mut b = WaveCube::<3, 4> { dim, cube: a.cube.clone() };
    let syn = Hypervector::from_raw(dim, vec![0xF0F0, 0x1]);
    let sem = Hypervector::from_raw(dim, vec![0x0FF0, 0x2]);
    let chaos = Hypervector::from_raw(dim, vec![0x00FF, 0x4]);
    a.absorb_from_triangle(&syn, &sem, &chaos);
    let c = b.cell(0, 0, 0).bind(&syn);
    b.write_cell(0, 0, 0, &c);
    let c = b.cell(3, 2, 2).bind(&sem);
    b.write_cell(3, 2, 2, &c);
    let c = b.cell(2, 2, 3).bind(&chaos);
    b.write_cell(2, 2, 3, &c);
    b.wave_flow_x(1);
    b.wave_flow_y(1);
    b.wave_flow_z(1);
    let wa: Vec<Vec<u64>> = a.cube.iter().map(|h| h.words.clone()).collect();
    let wb: Vec<Vec<u64>> = b.cube.iter().map(|h| h.words.clone()).collect();
    assert_eq!(wa, wb);
}
