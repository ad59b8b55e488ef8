//! Algebraic properties of merging, reading back and reducing, over many inputs.

use exaloglog::ExaLogLog;
use exaloglog::ExaLogLogFast;

fn splitmix64(mut x: u64) -> u64 {
    x = x.wrapping_add(0x9E37_79B9_7F4A_7C15);
    x = (x ^ (x >> 30)).wrapping_mul(0xBF58_476D_1CE4_E5B9);
    x = (x ^ (x >> 27)).wrapping_mul(0x94D0_49BB_1331_11EB);
    x ^ (x >> 31)
}

/// Seeds below a million, `len` of them.
fn seeds(case: u64, len: usize) -> Vec<u64> {
    (0..len as u64).map(|i| splitmix64(case * 7919 + i) % 1_000_000).collect()
}

fn build_packed(p: u32, seeds: &[u64]) -> ExaLogLog {
    let mut s = ExaLogLog::new(p);
    for &seed in seeds {
        s.add_hash(splitmix64(seed));
    }
    s
}

fn build_fast(p: u32, seeds: &[u64]) -> ExaLogLogFast {
    let mut s = ExaLogLogFast::new(p);
    for &seed in seeds {
        s.add_hash(splitmix64(seed));
    }
    s
}

fn registers_packed(s: &ExaLogLog) -> Vec<u32> {
    (0..s.num_registers()).map(|i| s.get_register(i)).collect()
}

#[test]
fn packed_merge_is_commutative() {
    for case in 0..30u64 {
        let p = 6 + (case % 5) as u32;
        let seeds_a = seeds(case, (case * 13 % 200) as usize);
        let seeds_b = seeds(case + 100, (case * 29 % 200) as usize);
        let mut ab = build_packed(p, &seeds_a);
        let bb = build_packed(p, &seeds_b);
        let mut ba = build_packed(p, &seeds_b);
        let aa = build_packed(p, &seeds_a);
        ab.merge(&bb).unwrap();
        ba.merge(&aa).unwrap();
        ab.densify();
        ba.densify();
        assert_eq!(registers_packed(&ab), registers_packed(&ba));
    }
}

#[test]
fn packed_merge_is_associative() {
    for case in 0..30u64 {
        let p = 6 + (case % 3) as u32;
        let seeds_a = seeds(case, (case * 13 % 150) as usize);
        let seeds_b = seeds(case + 100, (case * 29 % 150) as usize);
        let seeds_c = seeds(case + 200, (case * 41 % 150) as usize);
        let mut ab = build_packed(p, &seeds_a);
        let b1 = build_packed(p, &seeds_b);
        let c1 = build_packed(p, &seeds_c);
        ab.merge(&b1).unwrap();
        ab.merge(&c1).unwrap();
        let mut bc = build_packed(p, &seeds_b);
        let c2 = build_packed(p, &seeds_c);
        bc.merge(&c2).unwrap();
        let mut a_bc = build_packed(p, &seeds_a);
        a_bc.merge(&bc).unwrap();
        assert_eq!(ab.to_bytes(), a_bc.to_bytes());
        ab.densify();
        a_bc.densify();
        assert_eq!(registers_packed(&ab), registers_packed(&a_bc));
    }
}

#[test]
fn packed_merge_with_empty_is_identity() {
    for case in 0..30u64 {
        let p = 6 + (case % 5) as u32;
        let mut s = build_packed(p, &seeds(case, (case * 13 % 200) as usize));
        let empty = ExaLogLog::new(p);
        let before = {
            let mut s_clone = s.clone();
            s_clone.densify();
            registers_packed(&s_clone)
        };
        s.merge(&empty).unwrap();
        s.densify();
        assert_eq!(registers_packed(&s), before);
    }
}

#[test]
fn packed_merge_with_itself_changes_nothing() {
    for case in 0..10u64 {
        let mut s = build_packed(7, &seeds(case, 40 * case as usize));
        let before = registers_packed(&s);
        let copy = s.clone();
        s.merge(&copy).unwrap();
        assert_eq!(registers_packed(&s), before);
    }
}

#[test]
fn packed_serialize_roundtrip_preserves_estimate() {
    for case in 0..30u64 {
        let p = 6 + (case % 5) as u32;
        let s = build_packed(p, &seeds(case, (case * 37 % 500) as usize));
        let restored = ExaLogLog::from_bytes(&s.to_bytes()).unwrap();
        assert_eq!(restored.is_sparse(), s.is_sparse());
        assert_eq!(registers_packed(&restored), registers_packed(&s));
        assert_eq!(restored.likelihood().alpha, s.likelihood().alpha);
        assert_eq!(restored.likelihood().beta, s.likelihood().beta);
    }
}

#[test]
fn packed_insert_order_independent() {
    for case in 0..30u64 {
        let p = 6 + (case % 5) as u32;
        let mut order = seeds(case, (case * 13 % 200) as usize);
        let s1 = build_packed(p, &order);
        order.reverse();
        let s2 = build_packed(p, &order);
        let mut s1d = s1.clone();
        let mut s2d = s2.clone();
        s1d.densify();
        s2d.densify();
        assert_eq!(registers_packed(&s1d), registers_packed(&s2d));
    }
}

#[test]
fn packed_reduce_matches_direct() {
    for case in 0..30u64 {
        let p_low = 4 + (case % 5) as u32;
        let p_high = p_low + 1 + (case % 3) as u32;
        let mut a = ExaLogLog::new_dense(p_high);
        let mut direct = ExaLogLog::new_dense(p_low);
        for seed in seeds(case, 50 + (case * 37 % 450) as usize) {
            a.add_hash(splitmix64(seed));
            direct.add_hash(splitmix64(seed));
        }
        let reduced = a.reduce(p_low);
        assert_eq!(registers_packed(&reduced), registers_packed(&direct));
    }
}

#[test]
fn fast_merge_is_commutative() {
    for case in 0..30u64 {
        let p = 6 + (case % 5) as u32;
        let seeds_a = seeds(case, (case * 13 % 200) as usize);
        let seeds_b = seeds(case + 100, (case * 29 % 200) as usize);
        let mut ab = build_fast(p, &seeds_a);
        let bb = build_fast(p, &seeds_b);
        let mut ba = build_fast(p, &seeds_b);
        let aa = build_fast(p, &seeds_a);
        ab.merge(&bb).unwrap();
        ba.merge(&aa).unwrap();
        ab.densify();
        ba.densify();
        assert_eq!(ab.snapshot(), ba.snapshot());
    }
}

#[test]
fn fast_serialize_roundtrip_preserves_estimate() {
    for case in 0..30u64 {
        let p = 6 + (case % 5) as u32;
        let s = build_fast(p, &seeds(case, (case * 37 % 500) as usize));
        let restored = ExaLogLogFast::from_bytes(&s.to_bytes()).unwrap();
        assert_eq!(restored.snapshot(), s.snapshot());
        assert_eq!(restored.likelihood().alpha, s.likelihood().alpha);
        assert_eq!(restored.likelihood().beta, s.likelihood().beta);
    }
}

#[test]
fn densify_keeps_the_registers() {
    for case in 0..10u64 {
        let mut s = build_packed(8, &seeds(case, 20 * case as usize));
        let before = registers_packed(&s);
        s.densify();
        assert!(!s.is_sparse());
        assert_eq!(registers_packed(&s), before);
        assert!(s.martingale_weight().is_none());
    }
}

#[test]
fn reduce_in_steps_or_at_once() {
    let mut s = ExaLogLog::new_dense(10);
    for seed in seeds(3, 2000) {
        s.add_hash(splitmix64(seed));
    }
    assert_eq!(s.reduce(8).reduce(5), s.reduce(5));
}

#[test]
fn reduce_before_or_after_merging() {
    let mut a = build_packed(9, &seeds(4, 700));
    let b = build_packed(9, &seeds(5, 30));
    let mut small = a.reduce(6);
    small.merge(&b.reduce(6)).unwrap();
    a.merge(&b).unwrap();
    assert_eq!(a.reduce(6), small);
}

#[test]
fn merging_a_part_changes_nothing() {
    let all = seeds(6, 400);
    let mut whole = build_fast(7, &all);
    let before = whole.clone();
    whole.merge(&build_fast(7, &all[..50])).unwrap();
    assert_eq!(whole, before);
}

#[test]
fn inserting_again_changes_nothing() {
    let all = seeds(7, 300);
    let mut s = build_fast(7, &all);
    let before = s.clone();
    for &seed in &all {
        s.add_hash(splitmix64(seed));
    }
    assert_eq!(s, before);
}
