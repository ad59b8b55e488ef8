//! Tests of the packed variant.

use exaloglog::hashing::hash_to_register_k;
use exaloglog::hashing::hash_to_token;
use exaloglog::hashing::token_to_hash;
use exaloglog::likelihood::locate_root;
use exaloglog::likelihood::Likelihood;
use exaloglog::likelihood::Root;
use exaloglog::packed::dense_storage_bytes;
use exaloglog::packed::precision_for;
use exaloglog::packed::sparse_capacity;
use exaloglog::storage::PackedRegisters;
use exaloglog::storage::RegisterArray;
use exaloglog::ExaLogLog;
use exaloglog::MergeError;
use exaloglog::MAX_P;
use exaloglog::MIN_P;

const REGISTER_MASK: u32 = (1 << 28) - 1;

fn splitmix64(mut x: u64) -> u64 {
    x = x.wrapping_add(0x9E37_79B9_7F4A_7C15);
    x = (x ^ (x >> 30)).wrapping_mul(0xBF58_476D_1CE4_E5B9);
    x = (x ^ (x >> 27)).wrapping_mul(0x94D0_49BB_1331_11EB);
    x ^ (x >> 31)
}

/// The distinct count at which the likelihood is largest, by bisection.
fn estimate(likelihood: &Likelihood) -> f64 {
    match locate_root(likelihood.alpha, &likelihood.beta) {
        Root::Zero => return 0.0,
        Root::Unbounded => return f64::INFINITY,
        Root::Positive { .. } => {}
    }
    let alpha = likelihood.alpha as f64 / 2.0_f64.powi(64 - likelihood.p as i32);
    let mut lo = -200.0_f64;
    let mut hi = 200.0_f64;
    for _ in 0..200 {
        let mid = 0.5 * (lo + hi);
        let y = mid.exp2();
        let mut sum = 0.0;
        for (j, &b) in likelihood.beta.iter().enumerate() {
            let scale = 2.0_f64.powi(-(j as i32 + 3));
            let denom = (y * scale).exp_m1();
            if b > 0 && denom.is_finite() && denom > 0.0 {
                sum += b as f64 * scale / denom;
            }
        }
        if sum > alpha {
            lo = mid;
        } else {
            hi = mid;
        }
    }
    2.0_f64.powi(likelihood.p as i32) * (0.5 * (lo + hi)).exp2()
}

fn estimate_ml(s: &ExaLogLog) -> f64 {
    estimate(&s.likelihood())
}

fn registers(s: &ExaLogLog) -> Vec<u32> {
    (0..s.num_registers()).map(|i| s.get_register(i)).collect()
}

fn token_count(s: &ExaLogLog) -> u32 {
    let bytes = s.to_bytes();
    u32::from_le_bytes([bytes[8], bytes[9], bytes[10], bytes[11]])
}

/// The smallest precision whose expected error is at most `target`.
fn with_target_rmse(target: f64) -> ExaLogLog {
    let m_needed = 3.67 / (28.0 * target * target);
    ExaLogLog::new(precision_for(m_needed.ceil() as u64))
}

#[test]
fn pack_unpack_roundtrip_for_each_register() {
    let p = 6;
    let m = 1usize << p;
    let mut s = PackedRegisters::zeroed(p);
    for i in 0..m {
        let v = ((0xA5A5A5u32.wrapping_mul(i as u32 + 1)) ^ 0x0DEADBu32) & REGISTER_MASK;
        s.write(i, v);
    }
    for i in 0..m {
        let v = ((0xA5A5A5u32.wrapping_mul(i as u32 + 1)) ^ 0x0DEADBu32) & REGISTER_MASK;
        assert_eq!(s.read(i), v);
    }
}

#[test]
fn writing_register_does_not_disturb_neighbors() {
    let p = 8;
    let m = 1usize << p;
    let mut s = PackedRegisters::zeroed(p);
    for i in 0..m {
        s.write(i, REGISTER_MASK);
    }
    for i in (0..m).step_by(2) {
        s.write(i, 0);
    }
    for i in 0..m {
        let expected = if i % 2 == 0 { 0 } else { REGISTER_MASK };
        assert_eq!(s.read(i), expected, "register {i}");
    }
}

#[test]
fn packed_empty_sketch_estimates_zero() {
    let s = ExaLogLog::new(12);
    assert_eq!(estimate_ml(&s), 0.0);
    assert!(s.is_sparse());
}

#[test]
fn packed_sparse_mode_is_exact_for_small_n() {
    for &n in &[1u64, 5, 10, 50, 100, 500] {
        let mut s = ExaLogLog::new(12);
        for i in 0..n {
            s.add_hash(splitmix64(i));
        }
        assert!(s.is_sparse(), "expected sparse mode at n={n}");
        let est = estimate_ml(&s);
        let rel_err = (est - n as f64).abs() / n as f64;
        assert!(rel_err < 0.20, "sparse n={n} estimate={est}, rel_err={rel_err}");
    }
}

#[test]
fn packed_auto_promotes_at_break_even() {
    let p = 8;
    let break_even = sparse_capacity(p);
    let mut s = ExaLogLog::new(p);
    for i in 0..(break_even as u64 + 100) {
        s.add_hash(splitmix64(i));
    }
    assert!(!s.is_sparse(), "should have promoted to dense");
}

#[test]
fn ml_estimate_within_error_bounds_after_promotion() {
    let p = 12;
    for &n in &[10_000u64, 100_000, 1_000_000] {
        let mut s = ExaLogLog::new(p);
        for i in 0..n {
            s.add_hash(splitmix64(i));
        }
        assert!(!s.is_sparse(), "n={n} should have promoted");
        let est = estimate_ml(&s);
        let rel_err = (est - n as f64).abs() / n as f64;
        assert!(rel_err < 0.05, "n={n}: est={est}, rel_err={rel_err}");
    }
}

#[test]
fn idempotent_inserts_in_sparse_mode_dont_grow_storage() {
    let mut s = ExaLogLog::new(12);
    for _ in 0..1000 {
        s.add_hash(0xDEAD_BEEF_CAFE_BABE);
    }
    assert!(s.is_sparse());
    assert_eq!(token_count(&s), 1);
}

#[test]
fn dense_directly_built_matches_sparse_then_dense() {
    let p = 8;
    let break_even = sparse_capacity(p);
    let n = (break_even as u64 + 50) * 3;
    let mut sparse_then_dense = ExaLogLog::new(p);
    let mut dense_only = ExaLogLog::new_dense(p);
    for i in 0..n {
        let h = splitmix64(i);
        sparse_then_dense.add_hash(h);
        dense_only.add_hash(h);
    }
    assert!(!sparse_then_dense.is_sparse());
    for i in 0..(1usize << p) {
        assert_eq!(
            sparse_then_dense.get_register(i),
            dense_only.get_register(i),
            "register {i}"
        );
    }
}

#[test]
fn merge_sparse_with_sparse_unions_tokens() {
    let p = 12;
    let mut a = ExaLogLog::new(p);
    let mut b = ExaLogLog::new(p);
    for i in 0..50u64 {
        a.add_hash(splitmix64(i));
    }
    for i in 30..80u64 {
        b.add_hash(splitmix64(i));
    }
    a.merge(&b).unwrap();
    let est = estimate_ml(&a);
    let rel_err = (est - 80.0).abs() / 80.0;
    assert!(rel_err < 0.05, "merged sparse estimate = {est}");
}

#[test]
fn merge_sparse_with_dense_yields_dense() {
    let p = 8;
    let mut sparse = ExaLogLog::new(p);
    let mut dense = ExaLogLog::new(p);
    for i in 0..50u64 {
        sparse.add_hash(splitmix64(i));
    }
    for i in 0..(sparse_capacity(p) as u64 + 100) {
        dense.add_hash(splitmix64(i + 1_000_000));
    }
    assert!(!dense.is_sparse());
    sparse.merge(&dense).unwrap();
    assert!(!sparse.is_sparse());
}

#[test]
fn packed_serialize_roundtrip_sparse() {
    let p = 12;
    let mut s = ExaLogLog::new(p);
    for i in 0..50u64 {
        s.add_hash(splitmix64(i));
    }
    let est = estimate_ml(&s);
    let bytes = s.to_bytes();
    let restored = ExaLogLog::from_bytes(&bytes).unwrap();
    assert!(restored.is_sparse());
    assert!((estimate_ml(&restored) - est).abs() < 1e-6);
}

#[test]
fn packed_serialize_roundtrip_dense() {
    let p = 12;
    let mut s = ExaLogLog::new_dense(p);
    for i in 0..50_000u64 {
        s.add_hash(splitmix64(i));
    }
    let est = estimate_ml(&s);
    let bytes = s.to_bytes();
    let expected_size = 8 + (1 << p) / 2 * 7;
    assert_eq!(bytes.len(), expected_size);
    let restored = ExaLogLog::from_bytes(&bytes).unwrap();
    assert!(!restored.is_sparse());
    assert!((estimate_ml(&restored) - est).abs() < 1e-6);
}

#[test]
fn token_round_trip_preserves_registers_for_p_le_v_minus_t() {
    for p in [3u32, 8, 12, 18, 24] {
        for i in 0..1000u64 {
            let h = splitmix64(i);
            let tok = hash_to_token(h);
            let h_recon = token_to_hash(tok);
            let (i_orig, k_orig) = hash_to_register_k(h, p);
            let (i_recon, k_recon) = hash_to_register_k(h_recon, p);
            assert_eq!(i_orig, i_recon, "p={p}, i={i}: index mismatch");
            assert_eq!(k_orig, k_recon, "p={p}, i={i}: k mismatch");
        }
    }
}

#[test]
fn packed_reduce_to_same_p_returns_same_state() {
    let p = 10;
    let mut s = ExaLogLog::new_dense(p);
    for i in 0..10_000u64 {
        s.add_hash(splitmix64(i));
    }
    let r = s.reduce(p);
    for i in 0..s.num_registers() {
        assert_eq!(r.get_register(i), s.get_register(i));
    }
}

#[test]
fn packed_reduce_preserves_estimate_within_tolerance() {
    let p_high = 12;
    let p_low = 10;
    let n = 50_000u64;
    let mut a = ExaLogLog::new_dense(p_high);
    let mut direct = ExaLogLog::new_dense(p_low);
    for i in 0..n {
        let h = splitmix64(i);
        a.add_hash(h);
        direct.add_hash(h);
    }
    let reduced = a.reduce(p_low);
    let red_est = estimate_ml(&reduced);
    let dir_est = estimate_ml(&direct);
    let rel_diff = (red_est - dir_est).abs() / n as f64;
    assert!(rel_diff < 0.10, "reduced={red_est}, direct={dir_est}");
    assert_eq!(registers(&reduced), registers(&direct));
}

#[test]
fn add_hashes_matches_individual_inserts() {
    for p in [8u32, 12] {
        let n = 50_000u64;
        let mut serial = ExaLogLog::new(p);
        let mut batched = ExaLogLog::new(p);
        let hashes: Vec<u64> = (0..n).map(splitmix64).collect();
        for &h in &hashes {
            serial.add_hash(h);
        }
        batched.add_hashes(&hashes);
        for i in 0..serial.num_registers() {
            assert_eq!(
                serial.get_register(i),
                batched.get_register(i),
                "p={p} register {i} differs"
            );
        }
        assert!((estimate_ml(&serial) - estimate_ml(&batched)).abs() < 1e-6);
    }
}

#[test]
fn with_target_rmse_picks_appropriate_p() {
    let s_2pct = with_target_rmse(0.02);
    assert!(s_2pct.precision() >= 8);
    let s_1pct = with_target_rmse(0.01);
    assert!(s_1pct.precision() > s_2pct.precision());
    let s_0_5pct = with_target_rmse(0.005);
    assert!(s_0_5pct.precision() > s_1pct.precision());
}

#[test]
fn add_hashes_sorted_matches_serial() {
    let p = 12;
    let n = 100_000u64;
    let mut serial = ExaLogLog::new_dense(p);
    let mut sorted = ExaLogLog::new_dense(p);
    let hashes: Vec<u64> = (0..n).map(splitmix64).collect();
    for &h in &hashes {
        serial.add_hash(h);
    }
    sorted.add_hashes_sorted(&hashes);
    for i in 0..serial.num_registers() {
        assert_eq!(serial.get_register(i), sorted.get_register(i), "register {i}");
    }
}

#[test]
fn merge_iter_matches_repeated_merge() {
    let p = 10;
    let mut targets: Vec<ExaLogLog> = (0..5)
        .map(|tid| {
            let mut s = ExaLogLog::new_dense(p);
            for i in (tid * 1000)..((tid + 1) * 1000) {
                s.add_hash(splitmix64(i));
            }
            s
        })
        .collect();
    let head = targets.remove(0);
    let mut a = head.clone();
    for s in &targets {
        a.merge(s).unwrap();
    }
    let mut b = head;
    b.merge_iter(targets.iter()).unwrap();
    for i in 0..a.num_registers() {
        assert_eq!(a.get_register(i), b.get_register(i));
    }
}

#[test]
fn merge_iter_stops_at_the_first_mismatch() {
    let mut sketches = vec![ExaLogLog::new(10), ExaLogLog::new(11), ExaLogLog::new(10)];
    for (i, s) in sketches.iter_mut().enumerate() {
        s.add_hash(splitmix64(i as u64));
    }
    let mut target = ExaLogLog::new(10);
    assert_eq!(
        target.merge_iter(sketches.iter()),
        Err(MergeError::PrecisionMismatch { lhs: 10, rhs: 11 })
    );
    assert_eq!(target, sketches[0]);
}

#[test]
fn add_hashes_in_sparse_mode_dedupes() {
    let mut s = ExaLogLog::new(12);
    let hashes: Vec<u64> = (0..50u64).chain(0..50).chain(0..50).map(splitmix64).collect();
    s.add_hashes(&hashes);
    assert!(s.is_sparse());
    let est = estimate_ml(&s);
    let rel_err = (est - 50.0).abs() / 50.0;
    assert!(rel_err < 0.20, "expected ~50, got {est}");
    assert_eq!(token_count(&s), 50);
}

#[test]
fn min_p_works() {
    let mut s = ExaLogLog::new_dense(MIN_P);
    for i in 0..1000u64 {
        s.add_hash(splitmix64(i));
    }
    assert!(estimate_ml(&s).is_finite());
}

#[test]
fn max_p_works() {
    let mut s = ExaLogLog::new(MAX_P);
    for i in 0..50u64 {
        s.add_hash(splitmix64(i));
    }
    assert!(s.is_sparse());
    let est = estimate_ml(&s);
    let rel = (est - 50.0).abs() / 50.0;
    assert!(rel < 0.20, "MAX_P sparse estimate = {est}");
}

#[test]
fn empty_sketch_is_empty() {
    let s = ExaLogLog::new(12);
    assert!(s.is_empty());
    let s = ExaLogLog::new_dense(12);
    assert!(s.is_empty());
}

#[test]
fn populated_sketch_is_not_empty() {
    let mut s = ExaLogLog::new(12);
    s.add_hash(0xDEAD_BEEF);
    assert!(!s.is_empty());
    s.densify();
    assert!(!s.is_empty());
}

#[test]
fn extend_matches_add_hashes() {
    let p = 12;
    let mut a = ExaLogLog::new_dense(p);
    let mut b = ExaLogLog::new_dense(p);
    let hashes: Vec<u64> = (0..50_000u64).map(splitmix64).collect();
    a.add_hashes(&hashes);
    b.extend(hashes.iter().copied());
    assert_eq!(a, b);
}

#[test]
fn equality_matches_register_state() {
    let p = 10;
    let mut a = ExaLogLog::new(p);
    let mut b = ExaLogLog::new_dense(p);
    for i in 0..100u64 {
        let h = splitmix64(i);
        a.add_hash(h);
        b.add_hash(h);
    }
    assert!(a.is_sparse());
    assert!(!b.is_sparse());
    assert_eq!(a, b);
    b.add_hash(splitmix64(100));
    assert_ne!(a, b);
}

#[test]
fn different_p_compare_unequal() {
    let a = ExaLogLog::new(10);
    let b = ExaLogLog::new(11);
    assert_ne!(a, b);
}

fn assert_send<T: Send>() {}

fn assert_sync<T: Sync>() {}

#[test]
fn is_send_and_sync() {
    assert_send::<ExaLogLog>();
    assert_sync::<ExaLogLog>();
}

#[test]
fn memory_is_43_percent_smaller_than_hll_6bit() {
    for p in [8u32, 10, 12, 14] {
        let m = 1usize << p;
        let s = ExaLogLog::new_dense(p);
        assert_eq!(s.register_bytes(), m * 7 / 2);
        assert_eq!(dense_storage_bytes(p), m * 7 / 2);
    }
}

#[test]
fn sparse_memory_covers_the_tokens() {
    let mut s = ExaLogLog::new(12);
    assert_eq!(s.register_bytes(), 0);
    for i in 0..50u64 {
        s.add_hash(splitmix64(i));
    }
    assert!(s.register_bytes() >= 4 * 50);
    assert!(s.register_bytes() < 3584 * 4);
}

#[test]
fn break_even_is_exact() {
    let p = 8;
    assert_eq!(sparse_capacity(p), 224);
    let mut s = ExaLogLog::new(p);
    let mut i = 0u64;
    while token_count(&s) < 224 {
        s.add_hash(splitmix64(i));
        i += 1;
        assert!(s.is_sparse());
    }
    s.add_hash(splitmix64(1_000_000));
    assert!(!s.is_sparse());
}

#[test]
fn one_hash_sets_one_register() {
    let mut s = ExaLogLog::new_dense(4);
    // Index bits 0011 above the two low bits 01, no leading zero.
    s.add_hash(0x8000_0000_0000_000d);
    let (i, k) = hash_to_register_k(0x8000_0000_0000_000d, 4);
    assert_eq!((i, k), (3, 2));
    for j in 0..s.num_registers() {
        // Value 2 with the bit for the value 0 two below it.
        let expected = if j == 3 { (2 << 20) | (1 << 18) } else { 0 };
        assert_eq!(s.get_register(j), expected);
    }
}

#[test]
fn getters_report_the_parameters() {
    let s = ExaLogLog::new(9);
    assert_eq!(s.precision(), 9);
    assert_eq!(s.num_registers(), 512);
    assert_eq!(s.d_parameter(), 20);
}

#[test]
fn precision_for_is_the_smallest() {
    assert_eq!(precision_for(0), 3);
    assert_eq!(precision_for(8), 3);
    assert_eq!(precision_for(9), 4);
    assert_eq!(precision_for(1024), 10);
    assert_eq!(precision_for(1025), 11);
    assert_eq!(precision_for(u64::MAX), 26);
}

#[test]
fn clear_makes_an_empty_sparse_sketch() {
    let mut s = ExaLogLog::new_dense(6);
    s.add_hash(splitmix64(1));
    s.clear();
    assert!(s.is_sparse());
    assert!(s.is_empty());
    assert_eq!(s.precision(), 6);
    assert_eq!(s, ExaLogLog::new(6));
}

#[test]
fn clone_is_independent() {
    let mut a = ExaLogLog::new_dense(6);
    a.add_hash(splitmix64(1));
    let b = a.clone();
    assert_eq!(a, b);
    a.add_hash(splitmix64(2));
    assert_ne!(a, b);
    assert!(b.martingale_weight().is_some());
}

#[test]
fn merge_of_other_precision_changes_nothing() {
    let mut a = ExaLogLog::new(10);
    a.add_hash(splitmix64(1));
    let before = a.clone();
    let mut b = ExaLogLog::new(12);
    b.add_hash(splitmix64(2));
    assert_eq!(a.merge(&b), Err(MergeError::PrecisionMismatch { lhs: 10, rhs: 12 }));
    assert_eq!(a, before);
}

#[test]
fn sorted_insert_of_nothing_keeps_the_mode() {
    let mut s = ExaLogLog::new(10);
    s.add_hashes_sorted(&[]);
    assert!(s.is_sparse());
    s.add_hashes_sorted(&[splitmix64(1)]);
    assert!(!s.is_sparse());
}

#[test]
fn equal_values_get_equal_hashes() {
    let mut s = ExaLogLog::new(12);
    for _ in 0..10 {
        s.add("a value");
        s.add(&7u32);
    }
    assert_eq!(token_count(&s), 2);
    let mut t = ExaLogLog::new(12);
    t.add("a value");
    t.add(&7u32);
    assert_eq!(s, t);
}

#[test]
fn values_are_estimated() {
    let mut sketch = ExaLogLog::new(12);
    for i in 0..100_000u64 {
        sketch.add(&i);
    }
    let est = estimate_ml(&sketch);
    assert!((est - 100_000.0).abs() / 100_000.0 < 0.05, "est={est}");
}

#[test]
fn garbage_registers_cannot_be_reduced() {
    let mut bytes = ExaLogLog::new_dense(4).to_bytes();
    for b in bytes[8..].iter_mut() {
        *b = 0xff;
    }
    let s = ExaLogLog::from_bytes(&bytes).unwrap();
    assert!(s.can_reduce(4));
    assert!(!s.can_reduce(3));
    assert!(ExaLogLog::new_dense(4).can_reduce(3));
}

#[test]
fn reduce_by_many_bits_is_direct() {
    let hashes: Vec<u64> = (0..20_000u64).map(splitmix64).chain([0, 1, 2, 3, 4, 1 << 12]).collect();
    let mut high = ExaLogLog::new_dense(16);
    high.add_hashes(&hashes);
    for p in [3u32, 5, 9, 15] {
        let mut direct = ExaLogLog::new_dense(p);
        direct.add_hashes(&hashes);
        assert_eq!(registers(&high.reduce(p)), registers(&direct), "p={p}");
    }
}

#[test]
fn sparse_sketch_reduces_to_its_tokens() {
    let mut s = ExaLogLog::new(12);
    let mut direct = ExaLogLog::new(4);
    for i in 0..10u64 {
        s.add_hash(splitmix64(i));
        direct.add_hash(splitmix64(i));
    }
    let reduced = s.reduce(4);
    assert!(reduced.is_sparse());
    assert_eq!(reduced, direct);
    for i in 10..30u64 {
        s.add_hash(splitmix64(i));
        direct.add_hash(splitmix64(i));
    }
    let reduced = s.reduce(4);
    assert!(!reduced.is_sparse());
    assert_eq!(reduced, direct);
}
