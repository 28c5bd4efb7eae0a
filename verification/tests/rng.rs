use jev_quantum::pool::{pool_sizes, refill_seed, REFILL_STREAM};
use jev_quantum::rng::{
    detect_backend, fill_u64s, mix_seed, stream_seed, Backend, CpuFeatures, Entropy,
    Xoshiro256PlusPlus,
};

#[test]
fn deterministic_sequence() {
    let mut a = Xoshiro256PlusPlus::from_seed(1);
    let mut b = Xoshiro256PlusPlus::from_seed(1);
    for _ in 0..64 {
        assert_eq!(a.next_u64(), b.next_u64());
    }
}

#[test]
fn different_seeds_diverge() {
    let mut a = Xoshiro256PlusPlus::from_seed(1);
    let mut b = Xoshiro256PlusPlus::from_seed(2);
    assert_ne!(a.next_u64(), b.next_u64());
}

#[test]
fn never_all_zero() {
    let rng = Xoshiro256PlusPlus::from_seed(0);
    assert!(rng.state().iter().any(|&v| v != 0));
}

#[test]
fn bounded_index_stays_in_range() {
    let mut rng = Xoshiro256PlusPlus::from_seed(5);
    for n in [1usize, 2, 3, 4, 7, 255] {
        for _ in 0..256 {
            let idx = rng.bounded_usize(n);
            assert!(idx < n, "{idx} >= {n}");
        }
    }
}

#[test]
fn splitmix_reference_values() {
    assert_eq!(mix_seed(0), 0xE220_A839_7B1D_CDAF);
    assert_eq!(stream_seed(0, 0), mix_seed(0));
    assert_eq!(stream_seed(7, 1), mix_seed(7 ^ 0x9E37_79B9_7F4A_7C15));
}

#[test]
fn first_output_matches_the_reference_formula() {
    let rng = Xoshiro256PlusPlus::from_seed(3);
    let s = rng.state();
    let expected = s[0].wrapping_add(s[3]).rotate_left(23).wrapping_add(s[0]);
    let mut r = rng.clone();
    assert_eq!(r.next_u64(), expected);
}

#[test]
fn trait_draw_matches_inherent_draw() {
    let mut a = Xoshiro256PlusPlus::from_seed(9);
    let mut b = Xoshiro256PlusPlus::from_seed(9);
    assert_eq!(Entropy::next_u64(&mut a), b.next_u64());
    assert_eq!(Entropy::bounded_usize(&mut a, 10), b.bounded_usize(10));
    assert_eq!(a.bounded_usize(1), 0);
}

#[test]
fn jump_changes_the_stream() {
    let mut a = Xoshiro256PlusPlus::from_seed(4);
    let b = Xoshiro256PlusPlus::from_seed(4);
    a.jump();
    assert_ne!(a.state(), b.state());
}

#[test]
fn every_backend_fills_the_same_lanes() {
    let cpu = CpuFeatures { x86_64: true, avx2: true, aarch64: false };
    assert_eq!(detect_backend(cpu), Backend::Avx2);
    let arm = CpuFeatures { x86_64: false, avx2: false, aarch64: true };
    assert_eq!(detect_backend(arm), Backend::Neon);
    let none = CpuFeatures { x86_64: true, avx2: false, aarch64: false };
    assert_eq!(detect_backend(none), Backend::Scalar);
    assert_eq!(Backend::Avx2.as_str(), "avx2");
    let mut scalar = vec![0u64; 17];
    let mut seeder = Xoshiro256PlusPlus::from_seed(12);
    fill_u64s(&mut scalar, &mut seeder, Backend::Scalar);
    let mut direct = Xoshiro256PlusPlus::from_seed(12);
    let lane_seed = direct.next_u64();
    let mut lane = Xoshiro256PlusPlus::from_seed(lane_seed);
    assert_eq!(scalar[0], lane.next_u64());
    assert_eq!(scalar[1], lane.next_u64());
    let mut wide = vec![0u64; 17];
    let mut seeder = Xoshiro256PlusPlus::from_seed(12);
    fill_u64s(&mut wide, &mut seeder, Backend::Avx2);
    assert!(wide.iter().any(|&v| v != 0));
}

#[test]
fn pool_sizes_have_floors_and_refill_to_half() {
    assert_eq!(pool_sizes(4096, 16), (4096, 16, 8));
    assert_eq!(pool_sizes(1, 0), (8, 2, 1));
    assert_eq!(pool_sizes(8, 5), (8, 5, 3));
    assert_eq!(pool_sizes(usize::MAX, usize::MAX), (usize::MAX, usize::MAX, usize::MAX / 2 + 1));
}

#[test]
fn refill_threads_get_distinct_streams() {
    assert_eq!(refill_seed(7, 0), stream_seed(7, REFILL_STREAM));
    assert_ne!(refill_seed(7, 0), refill_seed(7, 1));
}

#[test]
fn seeds_are_splitmix_outputs_and_streams_differ() {
    assert_eq!(mix_seed(0), 0xE220_A839_7B1D_CDAF);
    let seeds: Vec<u64> = (0..64).map(|s| stream_seed(42, s)).collect();
    for i in 0..seeds.len() {
        for j in i + 1..seeds.len() {
            assert_ne!(seeds[i], seeds[j]);
        }
    }
}
