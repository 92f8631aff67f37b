use vstd::prelude::*;

use crate::bignat::BigNat;
use crate::dice::{
    lemma_scale_adds, lemma_scale_positive, scale, LOSE_2V1, LOSE_3V1, LOSE_BOTH_3V2, ROUND_DENOM,
    SPLIT_2V2, SPLIT_3V2, WIN_1V1, WIN_1V2, WIN_2V1, WIN_3V1, WIN_BOTH_2V2, WIN_BOTH_3V2,
};

verus! {

/// Side length of the memo table: one row and column per `u8` troop count.
pub const MEMO_SIDE: usize = 256;

/// Probability that the attacker eliminates every defender, scaled by
/// `scale(attackers + defenders)`, so that it is always an integer.
///
/// Each battle is decomposed into one round of dice and the battle that
/// remains; every round takes at least one troop, so each child state has a
/// smaller total and is scaled up by the missing powers of `ROUND_DENOM`.
pub open spec fn scaled_win(attackers: nat, defenders: nat) -> int
    decreases attackers + defenders,
{
    let a = attackers;
    let d = defenders;
    if a == 0 {
        0
    } else if d == 0 {
        scale(a)
    } else if d == 1 {
        if a == 1 {
            3240 * scale(1)
        } else if a == 2 {
            4500 * scaled_win(2, 0) + 3276 * scaled_win(1, 1)
        } else {
            5130 * scaled_win(a, 0) + 2646 * scaled_win((a - 1) as nat, 1)
        }
    } else if a == 1 {
        1980 * scaled_win(1, (d - 1) as nat)
    } else if a == 2 {
        1770 * scaled_win(2, (d - 2) as nat) * 7776 + 2520 * scaled_win(1, (d - 1) as nat) * 7776
    } else {
        2890 * scaled_win(a, (d - 2) as nat) * 7776 + 2275 * scaled_win((a - 2) as nat, d) * 7776
            + 2611 * scaled_win((a - 1) as nat, (d - 1) as nat) * 7776
    }
}

/// The win probability is a probability: its scaled value lies between 0
/// and the scale, that is the probability lies in [0, 1].
pub proof fn lemma_win_probability_bounds(attackers: nat, defenders: nat)
    ensures
        0 <= scaled_win(attackers, defenders) <= scale(attackers + defenders),
    decreases attackers + defenders,
{
    let a = attackers;
    let d = defenders;
    let n = a + d;
    lemma_scale_positive(n);
    if a == 0 || d == 0 {
    } else if d == 1 {
        if a == 1 {
            lemma_scale_adds(1, 1);
        } else if a == 2 {
            lemma_win_probability_bounds(2, 0);
            lemma_win_probability_bounds(1, 1);
            lemma_scale_adds(1, 2);
            let x = scaled_win(2, 0);
            let y = scaled_win(1, 1);
            assert(4500 * x + 3276 * y <= 7776 * scale(2)) by (nonlinear_arith)
                requires
                    0 <= x <= scale(2),
                    0 <= y <= scale(2),
            ;
            assert(0 <= 4500 * x + 3276 * y) by (nonlinear_arith)
                requires
                    0 <= x,
                    0 <= y,
            ;
        } else {
            lemma_win_probability_bounds(a, 0);
            lemma_win_probability_bounds((a - 1) as nat, 1);
            lemma_scale_adds(1, a);
            let x = scaled_win(a, 0);
            let y = scaled_win((a - 1) as nat, 1);
            let s = scale(a);
            assert(5130 * x + 2646 * y <= 7776 * s) by (nonlinear_arith)
                requires
                    0 <= x <= s,
                    0 <= y <= s,
            ;
            assert(0 <= 5130 * x + 2646 * y) by (nonlinear_arith)
                requires
                    0 <= x,
                    0 <= y,
            ;
        }
    } else {
        lemma_scale_adds(1, (n - 1) as nat);
        lemma_scale_adds(1, (n - 2) as nat);
        let s1 = scale((n - 1) as nat);
        let s2 = scale((n - 2) as nat);
        if a == 1 {
            lemma_win_probability_bounds(1, (d - 1) as nat);
            let x = scaled_win(1, (d - 1) as nat);
            assert(0 <= 1980 * x <= 7776 * s1) by (nonlinear_arith)
                requires
                    0 <= x <= s1,
            ;
        } else if a == 2 {
            lemma_win_probability_bounds(2, (d - 2) as nat);
            lemma_win_probability_bounds(1, (d - 1) as nat);
            let x = scaled_win(2, (d - 2) as nat);
            let y = scaled_win(1, (d - 1) as nat);
            assert(1770 * x * 7776 + 2520 * y * 7776 <= 7776 * (7776 * s2)) by (nonlinear_arith)
                requires
                    0 <= x <= s2,
                    0 <= y <= s2,
            ;
            assert(0 <= 1770 * x * 7776 + 2520 * y * 7776) by (nonlinear_arith)
                requires
                    0 <= x,
                    0 <= y,
            ;
        } else {
            lemma_win_probability_bounds(a, (d - 2) as nat);
            lemma_win_probability_bounds((a - 2) as nat, d);
            lemma_win_probability_bounds((a - 1) as nat, (d - 1) as nat);
            let x = scaled_win(a, (d - 2) as nat);
            let y = scaled_win((a - 2) as nat, d);
            let z = scaled_win((a - 1) as nat, (d - 1) as nat);
            assert(2890 * x * 7776 + 2275 * y * 7776 + 2611 * z * 7776 <= 7776 * (7776 * s2))
                by (nonlinear_arith)
                requires
                    0 <= x <= s2,
                    0 <= y <= s2,
                    0 <= z <= s2,
            ;
            assert(0 <= 2890 * x * 7776 + 2275 * y * 7776 + 2611 * z * 7776) by (nonlinear_arith)
                requires
                    0 <= x,
                    0 <= y,
                    0 <= z,
            ;
        }
    }
}

/// With no defenders left the attacker has won; with no attackers left the
/// attacker has lost.
pub proof fn lemma_win_probability_base_cases(attackers: nat, defenders: nat)
    ensures
        attackers >= 1 ==> scaled_win(attackers, 0) == scale(attackers),
        defenders >= 1 ==> scaled_win(0, defenders) == 0,
{
}

/// One more attacker never lowers the win probability: as
/// `scaled_win(a, d) / scale(a + d)` and `scale(a + d + 1) == 7776 * scale(a + d)`,
/// the inequality below says `P(a + 1, d) >= P(a, d)`.
pub proof fn lemma_more_attackers_never_hurt(attackers: nat, defenders: nat)
    ensures
        scaled_win(attackers + 1, defenders) >= 7776 * scaled_win(attackers, defenders),
    decreases attackers + defenders,
{
    let a = attackers;
    let d = defenders;
    lemma_win_probability_bounds(a + 1, d);
    if a == 0 {
    } else if d == 0 {
    } else if d == 1 {
        if a == 1 {
            reveal_with_fuel(scale, 3);
            assert(scaled_win(2, 0) == scale(2));
            assert(scaled_win(1, 1) == 3240 * scale(1));
        } else {
            assert(scaled_win(a + 1, 0) == scale(a + 1));
            lemma_win_probability_bounds(a, 1);
            lemma_scale_positive(a);
            let z = scaled_win(a, 1);
            let s = scale(a + 1);
            assert(5130 * s + 2646 * z >= 7776 * z) by (nonlinear_arith)
                requires
                    z <= s,
            ;
        }
    } else if a == 1 {
        lemma_win_probability_bounds(2, (d - 2) as nat);
        let x = scaled_win(2, (d - 2) as nat);
        let y = scaled_win(1, (d - 1) as nat);
        lemma_win_probability_bounds(1, (d - 1) as nat);
        assert(1770 * x * 7776 + 2520 * y * 7776 >= 7776 * (1980 * y)) by (nonlinear_arith)
            requires
                x >= 0,
                y >= 0,
        ;
    } else if a == 2 {
        lemma_more_attackers_never_hurt(2, (d - 2) as nat);
        lemma_more_attackers_never_hurt(1, (d - 1) as nat);
        lemma_win_probability_bounds(1, d);
        lemma_win_probability_bounds(2, (d - 2) as nat);
        lemma_win_probability_bounds(1, (d - 1) as nat);
        let x1 = scaled_win(3, (d - 2) as nat);
        let y1 = scaled_win(1, d);
        let z1 = scaled_win(2, (d - 1) as nat);
        let x = scaled_win(2, (d - 2) as nat);
        let z = scaled_win(1, (d - 1) as nat);
        assert(2890 * x1 * 7776 + 2275 * y1 * 7776 + 2611 * z1 * 7776 >= 7776 * (1770 * x * 7776
            + 2520 * z * 7776)) by (nonlinear_arith)
            requires
                x1 >= 7776 * x,
                z1 >= 7776 * z,
                x >= 0,
                z >= 0,
                y1 >= 0,
        ;
    } else {
        lemma_more_attackers_never_hurt(a, (d - 2) as nat);
        lemma_more_attackers_never_hurt((a - 2) as nat, d);
        lemma_more_attackers_never_hurt((a - 1) as nat, (d - 1) as nat);
        let x1 = scaled_win(a + 1, (d - 2) as nat);
        let y1 = scaled_win((a - 1) as nat, d);
        let z1 = scaled_win(a, (d - 1) as nat);
        let x = scaled_win(a, (d - 2) as nat);
        let y = scaled_win((a - 2) as nat, d);
        let z = scaled_win((a - 1) as nat, (d - 1) as nat);
        assert(((a - 2) as nat) + 1 == a - 1);
        assert(((a - 1) as nat) + 1 == a);
        assert(2890 * x1 * 7776 + 2275 * y1 * 7776 + 2611 * z1 * 7776 >= 7776 * (2890 * x * 7776
            + 2275 * y * 7776 + 2611 * z * 7776)) by (nonlinear_arith)
            requires
                x1 >= 7776 * x,
                y1 >= 7776 * y,
                z1 >= 7776 * z,
        ;
    }
}

/// One more defender never raises the win probability: in the same scaled
/// terms, `P(a, d + 1) <= P(a, d)`.
pub proof fn lemma_more_defenders_never_help(attackers: nat, defenders: nat)
    ensures
        scaled_win(attackers, defenders + 1) <= 7776 * scaled_win(attackers, defenders),
    decreases attackers + defenders,
{
    let a = attackers;
    let d = defenders;
    lemma_win_probability_bounds(a, d);
    if a == 0 {
    } else if d == 0 {
        lemma_win_probability_bounds(a, 1);
    } else if a == 1 {
        let y = scaled_win(1, d);
        assert(1980 * y <= 7776 * y) by (nonlinear_arith)
            requires
                y >= 0,
        ;
    } else if a == 2 {
        if d == 1 {
            lemma_win_probability_bounds(1, 1);
            let x = scaled_win(2, 0);
            let z = scaled_win(1, 1);
            assert(1770 * x * 7776 + 2520 * z * 7776 <= 7776 * (4500 * x + 3276 * z))
                by (nonlinear_arith)
                requires
                    x >= 0,
                    z >= 0,
            ;
        } else {
            lemma_more_defenders_never_help(2, (d - 2) as nat);
            lemma_more_defenders_never_help(1, (d - 1) as nat);
            let x1 = scaled_win(2, (d - 1) as nat);
            let z1 = scaled_win(1, d);
            let x = scaled_win(2, (d - 2) as nat);
            let z = scaled_win(1, (d - 1) as nat);
            assert(((d - 2) as nat) + 1 == d - 1);
            assert(((d - 1) as nat) + 1 == d);
            assert(1770 * x1 * 7776 + 2520 * z1 * 7776 <= 7776 * (1770 * x * 7776 + 2520 * z
                * 7776)) by (nonlinear_arith)
                requires
                    x1 <= 7776 * x,
                    z1 <= 7776 * z,
            ;
        }
    } else if d == 1 {
        lemma_more_defenders_never_help((a - 2) as nat, 1);
        lemma_more_attackers_never_hurt((a - 2) as nat, 1);
        lemma_win_probability_bounds((a - 1) as nat, 1);
        lemma_win_probability_bounds((a - 2) as nat, 2);
        assert(((a - 2) as nat) + 1 == a - 1);
        let s = scaled_win(a, 0);
        let y = scaled_win((a - 2) as nat, 2);
        let z = scaled_win((a - 1) as nat, 1);
        let w = scaled_win((a - 2) as nat, 1);
        assert(s == scale(a));
        assert(2890 * s * 7776 + 2275 * y * 7776 + 2611 * z * 7776 <= 7776 * (5130 * s + 2646 * z))
            by (nonlinear_arith)
            requires
                y <= 7776 * w,
                z >= 7776 * w,
                z <= s,
                y >= 0,
        ;
    } else {
        lemma_more_defenders_never_help(a, (d - 2) as nat);
        lemma_more_defenders_never_help((a - 2) as nat, d);
        lemma_more_defenders_never_help((a - 1) as nat, (d - 1) as nat);
        let x1 = scaled_win(a, (d - 1) as nat);
        let y1 = scaled_win((a - 2) as nat, d + 1);
        let z1 = scaled_win((a - 1) as nat, d);
        let x = scaled_win(a, (d - 2) as nat);
        let y = scaled_win((a - 2) as nat, d);
        let z = scaled_win((a - 1) as nat, (d - 1) as nat);
        assert(((d - 2) as nat) + 1 == d - 1);
        assert(((d - 1) as nat) + 1 == d);
        assert(2890 * x1 * 7776 + 2275 * y1 * 7776 + 2611 * z1 * 7776 <= 7776 * (2890 * x * 7776
            + 2275 * y * 7776 + 2611 * z * 7776)) by (nonlinear_arith)
            requires
                x1 <= 7776 * x,
                y1 <= 7776 * y,
                z1 <= 7776 * z,
        ;
    }
}

/// An exact probability `numerator / denominator`.
pub struct Probability {
    pub numerator: BigNat,
    pub denominator: BigNat,
}

/// Results of the solver already computed, keyed by troop counts.
pub struct MemoTable {
    entries: Vec<Option<BigNat>>,
}

proof fn lemma_memo_index(a: int, d: int)
    requires
        0 <= a < 256,
        0 <= d < 256,
    ensures
        0 <= a * 256 + d < 65536,
        (a * 256 + d) / 256 == a,
        (a * 256 + d) % 256 == d,
{
    assert(0 <= a * 256 + d < 65536) by (nonlinear_arith)
        requires
            0 <= a < 256,
            0 <= d < 256,
    ;
    assert((a * 256 + d) / 256 == a && (a * 256 + d) % 256 == d) by (nonlinear_arith)
        requires
            0 <= a < 256,
            0 <= d < 256,
    ;
}

impl MemoTable {
    /// The cached scaled win probability for `a` attackers against `d`
    /// defenders, if any.
    pub closed spec fn entry(&self, a: int, d: int) -> Option<int> {
        match self.entries@[a * MEMO_SIDE + d] {
            Some(v) => Some(v@ as int),
            None => None,
        }
    }

    /// Every cached entry is the exact scaled win probability of its key.
    pub open spec fn consistent(&self) -> bool {
        forall|a: int, d: int|
            0 <= a < MEMO_SIDE && 0 <= d < MEMO_SIDE && (#[trigger] self.entry(a, d)) is Some
                ==> self.entry(a, d)->0 == scaled_win(a as nat, d as nat)
    }

    pub closed spec fn wf(&self) -> bool {
        &&& self.entries@.len() == MEMO_SIDE * MEMO_SIDE
        &&& forall|i: int|
            0 <= i < MEMO_SIDE * MEMO_SIDE && (#[trigger] self.entries@[i]) is Some
                ==> self.entries@[i]->0@ == scaled_win((i / MEMO_SIDE as int) as nat, (i % MEMO_SIDE as int) as nat)
    }

    pub proof fn lemma_wf_consistent(&self)
        requires
            self.wf(),
        ensures
            self.consistent(),
    {
        assert forall|a: int, d: int|
            0 <= a < MEMO_SIDE && 0 <= d < MEMO_SIDE && (#[trigger] self.entry(a, d)) is Some implies self.entry(
            a,
            d,
        )->0 == scaled_win(a as nat, d as nat) by {
            lemma_memo_index(a, d);
        }
    }

    /// An empty table.
    pub fn new() -> (r: MemoTable)
        ensures
            r.wf(),
            forall|a: int, d: int| 0 <= a < MEMO_SIDE && 0 <= d < MEMO_SIDE ==> r.entry(a, d) is None,
    {
        let mut entries: Vec<Option<BigNat>> = Vec::new();
        let mut i: usize = 0;
        while i < MEMO_SIDE * MEMO_SIDE
            invariant
                i <= MEMO_SIDE * MEMO_SIDE,
                entries@.len() == i,
                forall|j: int| 0 <= j < i ==> (#[trigger] entries@[j]) is None,
            decreases MEMO_SIDE * MEMO_SIDE - i,
        {
            entries.push(None);
            i = i + 1;
        }
        let r = MemoTable { entries };
        assert forall|a: int, d: int| 0 <= a < MEMO_SIDE && 0 <= d < MEMO_SIDE implies r.entry(a, d) is None by {
            lemma_memo_index(a, d);
        }
        r
    }

    /// Records `v` as the result for `a` attackers against `d` defenders.
    fn store(&mut self, a: u8, d: u8, v: BigNat)
        requires
            old(self).wf(),
            v@ == scaled_win(a as nat, d as nat),
        ensures
            final(self).wf(),
            final(self).entry(a as int, d as int) == Some(v@ as int),
            forall|x: int, y: int|
                0 <= x < MEMO_SIDE && 0 <= y < MEMO_SIDE && !(x == a && y == d) ==> final(self).entry(x, y)
                    == old(self).entry(x, y),
    {
        let idx: usize = a as usize * MEMO_SIDE + d as usize;
        proof {
            lemma_memo_index(a as int, d as int);
        }
        let ghost before = self.entries@;
        let ghost value = v@;
        self.entries.set(idx, Some(v));
        assert forall|i: int|
            0 <= i < MEMO_SIDE * MEMO_SIDE && (#[trigger] self.entries@[i]) is Some implies self.entries@[i]->0@
            == scaled_win((i / MEMO_SIDE as int) as nat, (i % MEMO_SIDE as int) as nat) by {
            if i != idx {
                assert(self.entries@[i] == before[i]);
            }
        }
        assert forall|x: int, y: int|
            0 <= x < MEMO_SIDE && 0 <= y < MEMO_SIDE && !(x == a && y == d) implies self.entry(x, y)
            == old(self).entry(x, y) by {
            lemma_memo_index(x, y);
            if x != a {
                assert((x * 256 + y) / 256 != (a * 256 + d) / 256);
            }
        }
    }
}

/// `ROUND_DENOM` to the power `n`, computed.
fn scale_of(n: u16) -> (r: BigNat)
    ensures
        r@ == scale(n as nat),
{
    let mut r = BigNat::from_u32(1);
    let mut i: u16 = 0;
    while i < n
        invariant
            i <= n,
            r@ == scale(i as nat),
        decreases n - i,
    {
        r = r.mul_small(ROUND_DENOM);
        i = i + 1;
    }
    r
}

/// Exact scaled win probability, read from or stored into `memo`.
#[verifier::rlimit(100)]
fn solve(a: u8, d: u8, memo: &mut MemoTable) -> (r: BigNat)
    requires
        old(memo).wf(),
    ensures
        final(memo).wf(),
        r@ == scaled_win(a as nat, d as nat),
        final(memo).entry(a as int, d as int) == Some(r@ as int),
        forall|x: int, y: int|
            0 <= x < MEMO_SIDE && 0 <= y < MEMO_SIDE && (#[trigger] old(memo).entry(x, y)) is Some
                ==> final(memo).entry(x, y) == old(memo).entry(x, y),
    decreases a + d,
{
    let idx: usize = a as usize * MEMO_SIDE + d as usize;
    proof {
        lemma_memo_index(a as int, d as int);
    }
    match &memo.entries[idx] {
        Some(v) => {
            return v.copy();
        },
        None => {},
    }
    let ghost start = *memo;
    let r: BigNat = if a == 0 {
        BigNat::from_u32(0)
    } else if d == 0 {
        scale_of(a as u16)
    } else if d == 1 {
        if a == 1 {
            let v = BigNat::from_u32(WIN_1V1).mul_small(ROUND_DENOM);
            proof {
                reveal_with_fuel(scale, 2);
            }
            v
        } else if a == 2 {
            let x = solve(2, 0, memo);
            let y = solve(1, 1, memo);
            let v = x.mul_small(WIN_2V1).add(&y.mul_small(LOSE_2V1));
            assert(v@ == scaled_win(a as nat, d as nat));
            v
        } else {
            let x = solve(a, 0, memo);
            let y = solve(a - 1, 1, memo);
            let v = x.mul_small(WIN_3V1).add(&y.mul_small(LOSE_3V1));
            assert(v@ == scaled_win(a as nat, d as nat));
            v
        }
    } else if a == 1 {
        let x = solve(1, d - 1, memo);
        let v = x.mul_small(WIN_1V2);
        assert(v@ == scaled_win(a as nat, d as nat));
        v
    } else if a == 2 {
        let x = solve(2, d - 2, memo);
        let y = solve(1, d - 1, memo);
        let v = x.mul_small(WIN_BOTH_2V2).mul_small(ROUND_DENOM).add(
            &y.mul_small(SPLIT_2V2).mul_small(ROUND_DENOM),
        );
        assert(v@ == scaled_win(a as nat, d as nat));
        v
    } else {
        let x = solve(a, d - 2, memo);
        let y = solve(a - 2, d, memo);
        let z = solve(a - 1, d - 1, memo);
        let v = x.mul_small(WIN_BOTH_3V2).mul_small(ROUND_DENOM).add(
            &y.mul_small(LOSE_BOTH_3V2).mul_small(ROUND_DENOM),
        ).add(&z.mul_small(SPLIT_3V2).mul_small(ROUND_DENOM));
        assert(v@ == scaled_win(a as nat, d as nat));
        v
    };
    let ghost before = *memo;
    let ghost value = r@;
    let out = r.copy();
    memo.store(a, d, r);
    proof {
        assert forall|x: int, y: int|
            0 <= x < MEMO_SIDE && 0 <= y < MEMO_SIDE && (#[trigger] old(memo).entry(x, y)) is Some
                implies memo.entry(x, y) == old(memo).entry(x, y) by {
            if x == a && y == d {
                assert(old(memo).entry(x, y) == start.entry(x, y));
            }
        }
    }
    out
}

/// Exact probability that `attackers` troops eliminate `defenders` troops:
/// `scaled_win(attackers, defenders) / scale(attackers + defenders)`, the
/// same value whether or not `memo` already held it. It is `None` exactly
/// when both counts are zero, which is no battle.
///
/// The result for the pair is left in `memo`, and every entry that `memo`
/// held before is kept unchanged.
pub fn probability_attacker_wins(attackers: u8, defenders: u8, memo: &mut MemoTable) -> (r: Option<
    Probability,
>)
    requires
        old(memo).wf(),
    ensures
        final(memo).wf(),
        final(memo).consistent(),
        r is Some <==> !(attackers == 0 && defenders == 0),
        r matches Some(p) ==> p.numerator@ == scaled_win(attackers as nat, defenders as nat)
            && p.denominator@ == scale((attackers + defenders) as nat),
        r is Some ==> final(memo).entry(attackers as int, defenders as int) == Some(
            scaled_win(attackers as nat, defenders as nat),
        ),
        forall|x: int, y: int|
            0 <= x < MEMO_SIDE && 0 <= y < MEMO_SIDE && (#[trigger] old(memo).entry(x, y)) is Some
                ==> final(memo).entry(x, y) == old(memo).entry(x, y),
{
    if attackers == 0 && defenders == 0 {
        proof {
            memo.lemma_wf_consistent();
        }
        return None;
    }
    let numerator = solve(attackers, defenders, memo);
    proof {
        memo.lemma_wf_consistent();
    }
    let denominator = scale_of(attackers as u16 + defenders as u16);
    Some(Probability { numerator, denominator })
}

} // verus!
