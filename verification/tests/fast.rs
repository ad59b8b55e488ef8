//! Tests of the variant with aligned registers.

use std::sync::Arc;

use exaloglog::fast::sparse_capacity;
use exaloglog::hashing::hash_to_register_k;
use exaloglog::likelihood::h;
use exaloglog::likelihood::locate_root;
use exaloglog::likelihood::Likelihood;
use exaloglog::likelihood::Root;
use exaloglog::shared::raised;
use exaloglog::shared::Exchange;
use exaloglog::shared::SharedRegisters;
use exaloglog::ExaLogLogFast;
use exaloglog::MergeError;
use rayon::iter::IntoParallelIterator;
use rayon::iter::ParallelIterator;

const D: u32 = 24;

fn splitmix64(mut x: u64) -> u64 {
    x = x.wrapping_add(0x9E37_79B9_7F4A_7C15);
    x = (x ^ (x >> 30)).wrapping_mul(0xBF58_476D_1CE4_E5B9);
    x = (x ^ (x >> 27)).wrapping_mul(0x94D0_49BB_1331_11EB);
    x ^ (x >> 31)
}

/// The distinct count at which the likelihood is largest, by bisection.
fn estimate(likelihood: &Likelihood) -> f64 {
    match locate_root(likelihood.alpha, &likelihood.beta) {
        Root::Zero => return 0.0,
        Root::Unbounded => return f64::INFINITY,
        Root::Positive { .. } => {}
    }
    let alpha = likelihood.alpha as f64 / 2.0_f64.powi(64 - likelihood.p as i32);
    let mut lo = -200.0_f64;
    let mut hi = 200.0_f64;
    for _ in 0..200 {
        let mid = 0.5 * (lo + hi);
        let y = mid.exp2();
        let mut sum = 0.0;
        for (j, &b) in likelihood.beta.iter().enumerate() {
            let scale = 2.0_f64.powi(-(j as i32 + 3));
            let denom = (y * scale).exp_m1();
            if b > 0 && denom.is_finite() && denom > 0.0 {
                sum += b as f64 * scale / denom;
            }
        }
        if sum > alpha {
            lo = mid;
        } else {
            hi = mid;
        }
    }
    2.0_f64.powi(likelihood.p as i32) * (0.5 * (lo + hi)).exp2()
}

fn estimate_ml(s: &ExaLogLogFast) -> f64 {
    estimate(&s.likelihood())
}

fn token_count(s: &ExaLogLogFast) -> u32 {
    let bytes = s.to_bytes();
    u32::from_le_bytes([bytes[8], bytes[9], bytes[10], bytes[11]])
}

#[test]
fn fast_empty_sketch_estimates_zero() {
    let s = ExaLogLogFast::new(12);
    assert_eq!(estimate_ml(&s), 0.0);
    assert!(s.is_sparse());
}

#[test]
fn fast_sparse_mode_is_exact_for_small_n() {
    for &n in &[1u64, 5, 10, 50, 100, 500] {
        let mut s = ExaLogLogFast::new(12);
        for i in 0..n {
            s.add_hash(splitmix64(i));
        }
        assert!(s.is_sparse());
        let est = estimate_ml(&s);
        let rel_err = (est - n as f64).abs() / n as f64;
        assert!(rel_err < 0.20, "n={n}: est={est}");
    }
}

#[test]
fn fast_auto_promotes_at_break_even() {
    let p = 8;
    let break_even = sparse_capacity(p);
    assert_eq!(break_even, 256);
    let mut s = ExaLogLogFast::new(p);
    for i in 0..(break_even as u64 + 100) {
        s.add_hash(splitmix64(i));
    }
    assert!(!s.is_sparse());
}

#[test]
fn idempotent_inserts() {
    let mut s = ExaLogLogFast::new(12);
    for _ in 0..1000 {
        s.add_hash(0xDEAD_BEEF_CAFE_BABE);
    }
    assert!(s.is_sparse(), "should be sparse");
    assert_eq!(token_count(&s), 1);
}

#[test]
fn dense_constructor_skips_sparse() {
    let s = ExaLogLogFast::new_dense(12);
    assert!(!s.is_sparse());
}

#[test]
fn h_strictly_decreases_on_real_state_change() {
    let p = 10;
    let mut s = ExaLogLogFast::new_dense(p);
    let mut r_before = s.snapshot();
    for i in 0..200_000u64 {
        s.add_hash(splitmix64(i));
        let r_after = s.snapshot();
        for (j, (&old_r, &new_r)) in r_before.iter().zip(r_after.iter()).enumerate() {
            if old_r != new_r {
                let h_old = h(old_r, p, D);
                let h_new = h(new_r, p, D);
                assert!(h_new < h_old, "register {j}: h {h_old} → {h_new}");
            }
        }
        r_before = r_after;
    }
}

#[test]
fn ml_estimate_within_error_bounds() {
    let p = 12;
    for &n in &[100u64, 1_000, 10_000, 100_000, 1_000_000] {
        let mut s = ExaLogLogFast::new(p);
        for i in 0..n {
            s.add_hash(splitmix64(i));
        }
        let est = estimate_ml(&s);
        let rel_err = (est - n as f64).abs() / n as f64;
        assert!(rel_err < 0.05, "n={n}: est={est}");
    }
}

#[test]
fn ml_and_martingale_agree() {
    let p = 12;
    let n = 50_000u64;
    let mut s = ExaLogLogFast::new_dense(p);
    let mut mart = 0.0;
    for i in 0..n {
        let before = s.martingale_weight().unwrap();
        s.add_hash(splitmix64(i));
        if s.martingale_weight().unwrap() != before {
            mart += 2.0_f64.powi(64) / before as f64;
        }
    }
    let ml = estimate_ml(&s);
    let rel_diff = (mart - ml).abs() / n as f64;
    assert!(rel_diff < 0.02);
}

#[test]
fn merge_disjoint_recovers_union() {
    let p = 12;
    let mut a = ExaLogLogFast::new_dense(p);
    let mut b = ExaLogLogFast::new_dense(p);
    let mut combined = ExaLogLogFast::new_dense(p);
    for i in 0..50_000u64 {
        a.add_hash(splitmix64(i));
        combined.add_hash(splitmix64(i));
    }
    for i in 50_000..100_000u64 {
        b.add_hash(splitmix64(i));
        combined.add_hash(splitmix64(i));
    }
    a.merge(&b).unwrap();
    assert_eq!(a.snapshot(), combined.snapshot());
}

#[test]
fn merge_sparse_with_sparse() {
    let p = 12;
    let mut a = ExaLogLogFast::new(p);
    let mut b = ExaLogLogFast::new(p);
    for i in 0..50u64 {
        a.add_hash(splitmix64(i));
    }
    for i in 30..80u64 {
        b.add_hash(splitmix64(i));
    }
    a.merge(&b).unwrap();
    let est = estimate_ml(&a);
    let rel_err = (est - 80.0).abs() / 80.0;
    assert!(rel_err < 0.05);
}

#[test]
fn merge_precision_mismatch() {
    let mut a = ExaLogLogFast::new(10);
    let b = ExaLogLogFast::new(11);
    assert_eq!(a.merge(&b), Err(MergeError::PrecisionMismatch { lhs: 10, rhs: 11 }));
}

#[test]
fn fast_serialize_roundtrip_dense() {
    let p = 12;
    let mut s = ExaLogLogFast::new_dense(p);
    for i in 0..50_000u64 {
        s.add_hash(splitmix64(i));
    }
    let est = estimate_ml(&s);
    let bytes = s.to_bytes();
    assert_eq!(bytes.len(), 8 + 4 * (1 << p));
    let restored = ExaLogLogFast::from_bytes(&bytes).unwrap();
    assert!(!restored.is_sparse());
    assert_eq!(restored.snapshot(), s.snapshot());
    assert!((estimate_ml(&restored) - est).abs() < 1e-6);
}

#[test]
fn fast_serialize_roundtrip_sparse() {
    let p = 12;
    let mut s = ExaLogLogFast::new(p);
    for i in 0..50u64 {
        s.add_hash(splitmix64(i));
    }
    let est = estimate_ml(&s);
    let bytes = s.to_bytes();
    let restored = ExaLogLogFast::from_bytes(&bytes).unwrap();
    assert!(restored.is_sparse());
    assert!((estimate_ml(&restored) - est).abs() < 1e-6);
}

#[test]
fn atomic_insert_matches_serial_insert() {
    let p = 12;
    let mut serial = ExaLogLogFast::new_dense(p);
    let atomic = SharedRegisters::new(&ExaLogLogFast::new_dense(p));
    for i in 0..50_000u64 {
        let h = splitmix64(i);
        serial.add_hash(h);
        atomic.add_hash_atomic(h);
    }
    assert_eq!(serial.snapshot(), atomic.snapshot());
    assert_eq!(atomic.to_sketch().snapshot(), serial.snapshot());
}

#[test]
fn atomic_insert_concurrent_recovers_correct_estimate() {
    let p = 14;
    let n_per_thread = 100_000u64;
    let n_threads = 4u64;
    let total = n_per_thread * n_threads;
    let s = Arc::new(SharedRegisters::new(&ExaLogLogFast::new_dense(p)));
    (0..n_threads).into_par_iter().for_each(|tid| {
        let start = tid * n_per_thread;
        for i in start..start + n_per_thread {
            s.add_hash_atomic(splitmix64(i));
        }
    });
    let est = estimate_ml(&s.to_sketch());
    let rel_err = (est - total as f64).abs() / total as f64;
    assert!(rel_err < 0.05);
    let mut serial = ExaLogLogFast::new_dense(p);
    for i in 0..total {
        serial.add_hash(splitmix64(i));
    }
    assert_eq!(s.snapshot(), serial.snapshot());
}

#[test]
fn densify_then_atomic_works() {
    let mut s = ExaLogLogFast::new(12);
    for i in 0..10u64 {
        s.add_hash(splitmix64(i));
    }
    s.densify();
    let shared = SharedRegisters::new(&s);
    shared.add_hash_atomic(splitmix64(100));
    s.add_hash(splitmix64(100));
    assert_eq!(shared.precision(), 12);
    assert_eq!(shared.snapshot(), s.snapshot());
    assert!(shared.to_sketch().martingale_weight().is_none());
}

#[test]
fn atomic_insert_tells_what_it_did() {
    let p = 4;
    let hash = 0x8000_0000_0000_000d;
    assert_eq!(hash_to_register_k(hash, p), (3, 2));
    let shared = SharedRegisters::new(&ExaLogLogFast::new_dense(p));
    // Value 2 with the bit for the value 0 two below it.
    let word = (2 << 24) | (1 << 22);
    assert_eq!(
        shared.add_hash_atomic(hash),
        Exchange { register: 3, before: 0, after: word }
    );
    assert_eq!(
        shared.add_hash_atomic(hash),
        Exchange { register: 3, before: word, after: word }
    );
    assert_eq!(raised(0, 2), Some(word));
    assert_eq!(raised(word, 2), None);
}

#[test]
fn fast_reduce_to_same_p_returns_same_state() {
    let p = 10;
    let mut s = ExaLogLogFast::new_dense(p);
    for i in 0..10_000u64 {
        s.add_hash(splitmix64(i));
    }
    let r = s.reduce(p);
    assert_eq!(r.snapshot(), s.snapshot());
}

#[test]
fn fast_reduce_preserves_estimate_within_tolerance() {
    let p_high = 12;
    let p_low = 10;
    let n = 50_000u64;
    let mut a = ExaLogLogFast::new_dense(p_high);
    let mut direct = ExaLogLogFast::new_dense(p_low);
    for i in 0..n {
        let h = splitmix64(i);
        a.add_hash(h);
        direct.add_hash(h);
    }
    let reduced = a.reduce(p_low);
    let red_est = estimate_ml(&reduced);
    let dir_est = estimate_ml(&direct);
    let rel_diff = (red_est - dir_est).abs() / n as f64;
    assert!(rel_diff < 0.10);
    assert_eq!(reduced.snapshot(), direct.snapshot());
}

#[test]
fn fast_batches_match_single_inserts() {
    let p = 10;
    let hashes: Vec<u64> = (0..20_000u64).map(splitmix64).collect();
    let mut single = ExaLogLogFast::new_dense(p);
    for &hash in &hashes {
        single.add_hash(hash);
    }
    let mut batch = ExaLogLogFast::new(p);
    batch.add_hashes(&hashes);
    let mut sorted = ExaLogLogFast::new(p);
    sorted.add_hashes_sorted(&hashes);
    assert_eq!(batch.snapshot(), single.snapshot());
    assert_eq!(sorted.snapshot(), single.snapshot());
    assert!(single.martingale_weight().is_some());
    assert!(sorted.martingale_weight().is_none());
}

#[test]
fn fast_merge_iter_merges_all() {
    let p = 8;
    let mut parts: Vec<ExaLogLogFast> = Vec::new();
    let mut whole = ExaLogLogFast::new(p);
    for t in 0..5u64 {
        let mut part = ExaLogLogFast::new(p);
        for i in t * 100..(t + 1) * 100 {
            part.add_hash(splitmix64(i));
            whole.add_hash(splitmix64(i));
        }
        parts.push(part);
    }
    let mut merged = ExaLogLogFast::new(p);
    merged.merge_iter(parts.iter()).unwrap();
    assert_eq!(merged.snapshot(), whole.snapshot());
}

#[test]
fn fast_getters_report_the_parameters() {
    let s = ExaLogLogFast::new_dense(9);
    assert_eq!(s.precision(), 9);
    assert_eq!(s.num_registers(), 512);
    assert_eq!(s.d_parameter(), 24);
    assert_eq!(s.register_bytes(), 2048);
}

#[test]
fn fast_clear_and_clone() {
    let mut s = ExaLogLogFast::new_dense(6);
    s.add_hash(splitmix64(1));
    let copy = s.clone();
    s.clear();
    assert!(s.is_sparse());
    assert_eq!(s.snapshot(), vec![0u32; 64]);
    assert_ne!(copy.snapshot(), s.snapshot());
}

#[test]
fn fast_values_are_hashed() {
    let mut s = ExaLogLogFast::new(12);
    for i in 0..1000u32 {
        s.add(&(i % 100));
    }
    assert_eq!(token_count(&s), 100);
}

#[test]
fn any_words_make_a_sketch() {
    let words: Vec<u32> = (0..8u32).map(|i| i << 24).collect();
    let s = ExaLogLogFast::from_registers(3, &words);
    assert_eq!(s.snapshot(), words);
    assert!(!s.is_sparse());
    assert!(s.can_reduce(3));
}

#[test]
fn fast_equality_and_emptiness() {
    let mut sparse = ExaLogLogFast::new(10);
    let mut dense = ExaLogLogFast::new_dense(10);
    assert!(sparse.is_empty());
    assert!(dense.is_empty());
    sparse.extend((0..100u64).map(splitmix64));
    dense.extend((0..100u64).map(splitmix64));
    assert!(sparse.is_sparse());
    assert!(!dense.is_empty());
    assert_eq!(sparse, dense);
    assert_eq!(sparse.get_register(7), dense.snapshot()[7]);
    assert_ne!(ExaLogLogFast::new(10), ExaLogLogFast::new(11));
}
