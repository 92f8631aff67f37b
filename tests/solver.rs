use riskrs::bignat::BigNat;
use riskrs::solver::{probability_attacker_wins, MemoTable, Probability};
use std::cmp::Ordering;

fn exact(a: u8, d: u8) -> Probability {
    let mut memo = MemoTable::new();
    probability_attacker_wins(a, d, &mut memo).unwrap()
}

fn trimmed(n: &BigNat) -> Vec<u32> {
    let mut v = n.limbs();
    while v.last() == Some(&0) {
        v.pop();
    }
    v
}

fn compare(x: &BigNat, y: &BigNat) -> Ordering {
    let (a, b) = (trimmed(x), trimmed(y));
    a.len().cmp(&b.len()).then_with(|| a.iter().rev().cmp(b.iter().rev()))
}

fn same(x: &BigNat, y: &BigNat) -> bool {
    compare(x, y) == Ordering::Equal
}

fn to_f64(n: &BigNat) -> f64 {
    n.limbs().iter().rev().fold(0.0, |acc, &l| acc * 4294967296.0 + l as f64)
}

fn as_f64(p: &Probability) -> f64 {
    to_f64(&p.numerator) / to_f64(&p.denominator)
}

#[test]
fn probability_lies_in_unit_interval() {
    let mut memo = MemoTable::new();
    for a in 0..=35u8 {
        for d in 0..=35u8 {
            if a == 0 && d == 0 {
                continue;
            }
            let p = probability_attacker_wins(a, d, &mut memo).unwrap();
            assert_ne!(compare(&p.numerator, &p.denominator), Ordering::Greater);
            assert!(!trimmed(&p.denominator).is_empty());
        }
    }
}

#[test]
fn no_defenders_means_certain_win() {
    for a in 1..=35u8 {
        let p = exact(a, 0);
        assert!(same(&p.numerator, &p.denominator));
        assert_eq!(as_f64(&p), 1.0);
    }
}

#[test]
fn no_attackers_means_certain_loss() {
    for d in 1..=35u8 {
        let p = exact(0, d);
        assert!(trimmed(&p.numerator).is_empty());
        assert_eq!(as_f64(&p), 0.0);
    }
}

#[test]
fn one_against_one() {
    let p = exact(1, 1);
    assert!(same(&p.numerator.mul_small(36), &p.denominator.mul_small(15)));
    assert!((as_f64(&p) - 0.41667).abs() < 1e-5);
}

#[test]
fn two_against_one() {
    // 125/216 + (1 - 125/216) * 15/36
    let p = exact(2, 1);
    assert!(same(&p.numerator.mul_small(216 * 36), &p.denominator.mul_small(125 * 36 + 91 * 15)));
    assert!(same(&p.numerator.mul_small(2592), &p.denominator.mul_small(1955)));
}

#[test]
fn three_against_two() {
    let p = exact(3, 2);
    assert!((as_f64(&p) - 0.65595).abs() < 1e-4);
}

#[test]
fn two_against_two_splits_or_wins_outright() {
    // 295/1296 + 420/1296 * 15/36
    let p = exact(2, 2);
    assert!(same(&p.numerator.mul_small(1296 * 36), &p.denominator.mul_small(295 * 36 + 420 * 15)));
}

#[test]
fn one_against_two_must_win_twice() {
    // 55/216 * 15/36
    let p = exact(1, 2);
    assert!(same(&p.numerator.mul_small(216 * 36), &p.denominator.mul_small(55 * 15)));
}

#[test]
fn monotone_in_both_counts() {
    let mut memo = MemoTable::new();
    for a in 1..=34u8 {
        for d in 1..=34u8 {
            let p = probability_attacker_wins(a, d, &mut memo).unwrap();
            let more_a = probability_attacker_wins(a + 1, d, &mut memo).unwrap();
            let more_d = probability_attacker_wins(a, d + 1, &mut memo).unwrap();
            // the scales of neighbouring cells differ by one factor of 7776
            assert_ne!(compare(&more_a.numerator, &p.numerator.mul_small(7776)), Ordering::Less);
            assert_ne!(compare(&more_d.numerator, &p.numerator.mul_small(7776)), Ordering::Greater);
        }
    }
}

#[test]
fn shared_memo_matches_fresh_computation() {
    let mut shared = MemoTable::new();
    for a in 1..=20u8 {
        for d in 1..=20u8 {
            let first = probability_attacker_wins(a, d, &mut shared).unwrap();
            let again = probability_attacker_wins(a, d, &mut shared).unwrap();
            let fresh = exact(a, d);
            assert!(same(&first.numerator, &again.numerator));
            assert!(same(&first.numerator, &fresh.numerator));
            assert!(same(&first.denominator, &fresh.denominator));
        }
    }
}

#[test]
fn only_the_empty_battle_is_rejected() {
    let mut memo = MemoTable::new();
    assert!(probability_attacker_wins(0, 0, &mut memo).is_none());
    assert!(probability_attacker_wins(5, 5, &mut memo).is_some());
    let p = probability_attacker_wins(35, 35, &mut memo).unwrap();
    let v = as_f64(&p);
    assert!(v > 0.0 && v < 1.0);
}

#[test]
fn big_numbers_add_and_multiply() {
    let x = BigNat::from_u32(u32::MAX);
    let y = x.mul_small(u32::MAX).add(&x).add(&x).add(&BigNat::from_u32(1));
    // (2^32 - 1)^2 + 2 (2^32 - 1) + 1 == 2^64
    assert_eq!(trimmed(&y), vec![0, 0, 1]);
    assert!(same(&x.copy(), &x));
    assert_eq!(trimmed(&BigNat::from_u32(7).mul_small(0)), Vec::<u32>::new());
}
