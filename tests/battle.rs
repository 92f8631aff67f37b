use riskrs::battle::{clamp, min, play_battle, resolve_round, roll, simulate_battle, sort_dice};
use riskrs::bignat::BigNat;
use riskrs::solver::{probability_attacker_wins, MemoTable};

#[test]
fn pairs_highest_dice_first() {
    assert_eq!(resolve_round(&vec![6, 4, 3], &vec![5, 2]), (0, 2));
    assert_eq!(resolve_round(&vec![3, 4, 6], &vec![2, 5]), (0, 2));
}

#[test]
fn ties_go_to_the_defender() {
    assert_eq!(resolve_round(&vec![3], &vec![3]), (1, 0));
    assert_eq!(resolve_round(&vec![5, 5], &vec![5, 4]), (1, 1));
    assert_eq!(resolve_round(&vec![1, 2, 2], &vec![6, 6]), (2, 0));
}

#[test]
fn single_pair_when_one_side_rolls_one_die() {
    assert_eq!(resolve_round(&vec![2, 6, 1], &vec![5]), (0, 1));
    assert_eq!(resolve_round(&vec![4], &vec![4, 1]), (1, 0));
}

#[test]
fn sorts_descending() {
    assert_eq!(sort_dice(&vec![3, 6, 4]), vec![6, 4, 3]);
    assert_eq!(sort_dice(&vec![]), Vec::<u8>::new());
    assert_eq!(sort_dice(&vec![2, 2, 5]), vec![5, 2, 2]);
}

#[test]
fn min_and_clamp() {
    assert_eq!(min(3, 7), 3);
    assert_eq!(min(7, 3), 3);
    assert_eq!(clamp(0, 1, 3), 1);
    assert_eq!(clamp(9, 1, 3), 3);
    assert_eq!(clamp(2, 1, 3), 2);
}

#[test]
fn injected_dice_decide_the_battle() {
    assert_eq!(play_battle(1, 1, &vec![6, 5]), Some(true));
    assert_eq!(play_battle(1, 1, &vec![5, 5]), Some(false));
    assert_eq!(play_battle(1, 1, &vec![6]), None);
    assert_eq!(play_battle(0, 3, &vec![]), Some(false));
    assert_eq!(play_battle(3, 0, &vec![]), Some(true));
    // 3 vs 2: 6,4,3 against 5,2 removes both defenders in one round
    assert_eq!(play_battle(3, 2, &vec![6, 4, 3, 5, 2]), Some(true));
    // 2 vs 2: both pairs lost, then nothing is left to attack with
    assert_eq!(play_battle(2, 2, &vec![1, 1, 6, 6]), Some(false));
    // 4 vs 1: first round lost (3 dice vs 1), second round won
    assert_eq!(play_battle(4, 1, &vec![1, 1, 1, 6, 2, 2, 2, 1]), Some(true));
}

#[test]
fn five_dice_per_troop_always_decide() {
    for a in 1..=6u8 {
        for d in 1..=6u8 {
            let n = 5 * (a as usize + d as usize - 1);
            for face in 1..=6u8 {
                assert!(play_battle(a, d, &vec![face; n]).is_some());
            }
        }
    }
}

#[test]
fn roll_loses_one_troop_per_pair() {
    for _ in 0..200 {
        let (a, d) = roll(3, 2);
        assert!(a <= 3 && d <= 2);
        assert_eq!(a + d, 3);
        let (a, d) = roll(1, 2);
        assert_eq!(a + d, 2);
        let (a, d) = roll(2, 1);
        assert_eq!(a + d, 2);
    }
}

#[test]
fn simulated_battles_terminate() {
    for a in 1..=20u8 {
        for d in 1..=20u8 {
            let _ = simulate_battle(a, d);
        }
    }
    assert!(simulate_battle(5, 0));
    assert!(!simulate_battle(0, 5));
}

#[test]
fn simulation_converges_to_exact_value() {
    let mut memo = MemoTable::new();
    let p = probability_attacker_wins(3, 2, &mut memo).unwrap();
    let exact = to_f64(&p.numerator) / to_f64(&p.denominator);
    let trials = 100_000u32;
    let mut wins = 0u32;
    for _ in 0..trials {
        if simulate_battle(3, 2) {
            wins += 1;
        }
    }
    let fraction = f64::from(wins) / f64::from(trials);
    assert!((fraction - exact).abs() < 0.01);
    assert!(fraction > 0.645 && fraction < 0.675);
}

fn to_f64(n: &BigNat) -> f64 {
    n.limbs().iter().rev().fold(0.0, |acc, &l| acc * 4294967296.0 + l as f64)
}
