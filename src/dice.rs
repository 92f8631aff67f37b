use vstd::prelude::*;

verus! {

/// Every single-round probability below is a count of favourable dice
/// outcomes over `ROUND_DENOM` = 6^5 equally likely outcomes.
pub const ROUND_DENOM: u32 = 7776;

/// Attacker wins a 1 vs. 1 round (15/36).
pub const WIN_1V1: u32 = 3240;

/// Attacker wins a 2 vs. 1 round (125/216).
pub const WIN_2V1: u32 = 4500;

/// Attacker loses a 2 vs. 1 round.
pub const LOSE_2V1: u32 = 3276;

/// Attacker wins a 3 vs. 1 round (855/1296).
pub const WIN_3V1: u32 = 5130;

/// Attacker loses a 3 vs. 1 round.
pub const LOSE_3V1: u32 = 2646;

/// Attacker wins a 1 vs. 2 round (55/216).
pub const WIN_1V2: u32 = 1980;

/// Attacker wins both comparisons of a 2 vs. 2 round (295/1296).
pub const WIN_BOTH_2V2: u32 = 1770;

/// A 2 vs. 2 round splits one troop each (420/1296).
pub const SPLIT_2V2: u32 = 2520;

/// Attacker wins both comparisons of a 3 vs. 2 round (2890/7776).
pub const WIN_BOTH_3V2: u32 = 2890;

/// Attacker loses both comparisons of a 3 vs. 2 round (2275/7776).
pub const LOSE_BOTH_3V2: u32 = 2275;

/// A 3 vs. 2 round splits one troop each (2611/7776).
pub const SPLIT_3V2: u32 = 2611;

/// `ROUND_DENOM` raised to the power `n`.
pub open spec fn scale(n: nat) -> int
    decreases n,
{
    if n == 0 {
        1
    } else {
        7776 * scale((n - 1) as nat)
    }
}

pub proof fn lemma_scale_positive(n: nat)
    ensures
        scale(n) > 0,
    decreases n,
{
    if n > 0 {
        lemma_scale_positive((n - 1) as nat);
    }
}

pub proof fn lemma_scale_adds(m: nat, n: nat)
    ensures
        scale(m) * scale(n) == scale(m + n),
    decreases m,
{
    if m > 0 {
        lemma_scale_adds((m - 1) as nat, n);
        assert(scale(m) * scale(n) == 7776 * (scale((m - 1) as nat) * scale(n))) by (nonlinear_arith)
            requires
                scale(m) == 7776 * scale((m - 1) as nat),
        ;
    }
}

} // verus!
