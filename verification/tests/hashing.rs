//! Tests of hashing, register updates and the likelihood.

use exaloglog::batch::counting_sort_by_register;
use exaloglog::batch::fill_iks;
use exaloglog::hashing::hash_to_register_k;
use exaloglog::hashing::hash_to_token;
use exaloglog::hashing::token_to_hash;
use exaloglog::likelihood::compute_alpha_beta;
use exaloglog::likelihood::h;
use exaloglog::likelihood::locate_root;
use exaloglog::likelihood::omega;
use exaloglog::likelihood::phi;
use exaloglog::likelihood::token_alpha_beta;
use exaloglog::likelihood::Root;
use exaloglog::register::apply_insert;
use exaloglog::register::is_recorded;
use exaloglog::register::merge_register;
use exaloglog::register::rebase_register;
use exaloglog::ExaLogLog;
use exaloglog::MIN_P;
use exaloglog::T;

fn splitmix64(mut x: u64) -> u64 {
    x = x.wrapping_add(0x9E37_79B9_7F4A_7C15);
    x = (x ^ (x >> 30)).wrapping_mul(0xBF58_476D_1CE4_E5B9);
    x = (x ^ (x >> 27)).wrapping_mul(0x94D0_49BB_1331_11EB);
    x ^ (x >> 31)
}

#[test]
fn phi_matches_definition() {
    let p = 8;
    assert_eq!(phi(0, p), T);
    assert_eq!(phi(1, p), T + 1);
    for k in 1u32..1000 {
        let expected = (T + 1 + (k - 1) / (1 << T)).min(64 - p);
        assert_eq!(phi(k, p), expected);
    }
}

#[test]
fn omega_zero_is_one() {
    for p in MIN_P..=18 {
        let w = omega(0, p);
        assert_eq!(w, 1i128 << (64 - p), "ω(0) for p={p} = {w}");
    }
}

#[test]
fn h_of_zero_is_one_over_m() {
    for p in MIN_P..=18 {
        let m = (1u64 << p) as f64;
        for d in [20u32, 24] {
            let value = h(0, p, d) as f64 / 2.0_f64.powi(64);
            assert!((value - 1.0 / m).abs() < 1e-15);
        }
    }
}

#[test]
fn simd_matches_scalar() {
    for p in [3u32, 8, 12, 18, 26] {
        let hashes: Vec<u64> = (0..1000u64).map(splitmix64).collect();
        let mut out = Vec::new();
        fill_iks(&hashes, p, &mut out);
        assert_eq!(out.len(), hashes.len());
        for (&hash, &(i, k)) in hashes.iter().zip(out.iter()) {
            assert_eq!((i as usize, k as u32), hash_to_register_k(hash, p), "p={p}");
        }
    }
}

#[test]
fn simd_handles_partial_chunks() {
    for n in [1usize, 2, 3, 4, 5, 7, 8, 9, 17] {
        let hashes: Vec<u64> = (0..n as u64).map(splitmix64).collect();
        let mut out = Vec::new();
        fill_iks(&hashes, 12, &mut out);
        let want: Vec<(usize, u32)> = hashes.iter().map(|&hash| hash_to_register_k(hash, 12)).collect();
        let got: Vec<(usize, u32)> = out.iter().map(|&(i, k)| (i as usize, k as u32)).collect();
        assert_eq!(got, want, "n={n}");
    }
}

#[test]
fn counting_sort_is_stable() {
    let hashes: Vec<u64> = (0..500u64).map(splitmix64).collect();
    let mut iks = Vec::new();
    fill_iks(&hashes, 4, &mut iks);
    let mut want = iks.clone();
    want.sort_by_key(|&(i, _)| i);
    counting_sort_by_register(&mut iks, 16);
    assert_eq!(iks, want);
}

#[test]
fn hash_splits_into_index_and_value() {
    // No leading zero: the value is one more than the two low bits.
    assert_eq!(hash_to_register_k(u64::MAX, 3), (7, 4));
    // Each leading zero counts four.
    assert_eq!(hash_to_register_k(0x1000_0000_0000_0000, 3), (0, 13));
    // Zeros among the bits that select the register do not count.
    assert_eq!(hash_to_register_k(0, 3), (0, 4 * 59 + 1));
    assert_eq!(hash_to_register_k(3, 26), (0, 4 * 36 + 4));
}

#[test]
fn token_holds_low_bits_and_zeros() {
    assert_eq!(hash_to_token(0), 38);
    assert_eq!(hash_to_token(u64::MAX), 0xffff_ffc0);
    assert_eq!(token_to_hash(38), 0);
    for i in 0..1000u64 {
        let token = hash_to_token(splitmix64(i));
        assert_eq!(hash_to_token(token_to_hash(token)), token);
    }
}

#[test]
fn tokens_lose_an_index_bit_at_the_largest_precision() {
    let hash = 1u64 << 26 | 1u64 << 63;
    let back = token_to_hash(hash_to_token(hash));
    assert_eq!(hash_to_register_k(hash, 24), hash_to_register_k(back, 24));
    assert_ne!(hash_to_register_k(hash, 25), hash_to_register_k(back, 25));
}

#[test]
fn insert_shifts_the_window() {
    let r = apply_insert(0, 3, 20);
    assert_eq!(r, (3 << 20) | (1 << 17));
    let r = apply_insert(r, 5, 20);
    assert_eq!(r, (5 << 20) | (1 << 18) | (1 << 15));
    // A smaller value sets its bit.
    let r = apply_insert(r, 4, 20);
    assert_eq!(r, (5 << 20) | (1 << 19) | (1 << 18) | (1 << 15));
    // Again: nothing changes.
    assert_eq!(apply_insert(r, 4, 20), r);
    assert_eq!(apply_insert(r, 5, 20), r);
    // A value far above pushes all bits out.
    assert_eq!(apply_insert(r, 100, 20), 100 << 20);
    // A value below the window is forgotten.
    assert_eq!(apply_insert(100 << 20, 3, 20), 100 << 20);
    assert!(is_recorded(r, 20, 4));
    assert!(!is_recorded(r, 20, 2));
}

#[test]
fn merge_keeps_the_values_of_both() {
    let a = apply_insert(apply_insert(0, 9, 24), 7, 24);
    let b = apply_insert(apply_insert(0, 8, 24), 30, 24);
    let both = [7u32, 8, 9, 30].iter().fold(0, |r, &k| apply_insert(r, k, 24));
    assert_eq!(merge_register(a, b, 24), both);
    assert_eq!(merge_register(b, a, 24), both);
    assert_eq!(merge_register(a, 0, 24), a);
    assert_eq!(merge_register(0, b, 24), b);
}

#[test]
fn rebase_moves_the_values_from_a_point_on() {
    let r = [5u32, 10, 12].iter().fold(0, |r, &k| apply_insert(r, k, 20));
    let want = [5u32, 14, 16].iter().fold(0, |r, &k| apply_insert(r, k, 20));
    assert_eq!(rebase_register(r, 20, 10, 4), want);
    assert_eq!(rebase_register(r, 20, 13, 4), r);
}

#[test]
fn weights_add_up() {
    let p = 6;
    let mut s = ExaLogLog::new_dense(p);
    assert_eq!(s.martingale_weight(), Some(1i128 << 64));
    let mut last = 1i128 << 64;
    for i in 0..500u64 {
        s.add_hash(splitmix64(i));
        let weight = s.martingale_weight().unwrap();
        let sum: i128 = (0..s.num_registers()).map(|j| h(s.get_register(j), p, 20)).sum();
        assert_eq!(weight, sum);
        assert!(weight <= last);
        assert_eq!(s.likelihood().alpha, weight);
        last = weight;
    }
}

#[test]
fn likelihood_counts_by_level() {
    let p = 4;
    // Values 1 to 4 have probability 2^-3, values 5 to 8 have 2^-4.
    let r = [2u32, 4, 6].iter().fold(0, |r, &k| apply_insert(r, k, 20));
    let registers = vec![r, 0];
    let l = compute_alpha_beta(&registers, p, 20);
    assert_eq!(l.p, p);
    assert_eq!(l.beta.len(), 58);
    assert_eq!(l.beta[0], 2);
    assert_eq!(l.beta[1], 1);
    assert_eq!(l.beta[2..].iter().sum::<u32>(), 0);
    assert_eq!(l.alpha, h(r, p, 20) + (1i128 << 60));
}

#[test]
fn token_likelihood_counts_by_level() {
    let tokens = vec![0u32, 64, 1, 38];
    let l = token_alpha_beta(&tokens);
    assert_eq!(l.p, 0);
    assert_eq!(l.beta.len(), 62);
    assert_eq!(l.beta[24], 2);
    assert_eq!(l.beta[25], 1);
    assert_eq!(l.beta[61], 1);
    assert_eq!(l.alpha, (1i128 << 64) - (2i128 << 37) - (1i128 << 36) - 1);
}

#[test]
fn root_is_located() {
    assert_eq!(locate_root(5, &vec![0u32; 10]), Root::Zero);
    assert_eq!(locate_root(0, &vec![1u32]), Root::Unbounded);
    assert_eq!(
        locate_root(7, &vec![0, 3, 0, 2, 0]),
        Root::Positive { u_min: 4, u_max: 6, sigma_0: 5, sigma_1: 3 * 4 + 2 }
    );
}
