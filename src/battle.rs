use rand::Rng;
use vstd::prelude::*;
use vstd::multiset::Multiset;
use vstd::seq_lib::lemma_multiset_commutative;

verus! {

/// `x` placed into the descending sequence `s` before the first value not
/// larger than it.
pub open spec fn insert_desc(x: u8, s: Seq<u8>) -> Seq<u8>
    decreases s.len(),
{
    if s.len() == 0 {
        seq![x]
    } else if x >= s[0] {
        seq![x] + s
    } else {
        seq![s[0]] + insert_desc(x, s.drop_first())
    }
}

/// The values of `s` from the highest to the lowest.
pub open spec fn sort_desc(s: Seq<u8>) -> Seq<u8>
    decreases s.len(),
{
    if s.len() == 0 {
        s
    } else {
        insert_desc(s.last(), sort_desc(s.drop_last()))
    }
}

/// Number of the first `k` pairs in which the attacker's die beats the
/// defender's; each such pair costs the defender one troop.
pub open spec fn pairs_won(att: Seq<u8>, def: Seq<u8>, k: nat) -> nat
    decreases k,
{
    if k == 0 {
        0
    } else {
        pairs_won(att, def, (k - 1) as nat) + if att[k - 1] > def[k - 1] {
            1nat
        } else {
            0nat
        }
    }
}

pub open spec fn min_nat(a: nat, b: nat) -> nat {
    if a < b {
        a
    } else {
        b
    }
}

/// Troops lost in one round, `(attacker, defender)`: both sides' rolls are
/// sorted from the highest, paired in that order, and each pair is lost by
/// the defender only when the attacker's die is strictly higher.
pub open spec fn round_losses(att_rolls: Seq<u8>, def_rolls: Seq<u8>) -> (nat, nat) {
    let count = min_nat(att_rolls.len(), def_rolls.len());
    let won = pairs_won(sort_desc(att_rolls), sort_desc(def_rolls), count);
    ((count - won) as nat, won)
}

/// Dice the attacker commits with `a` troops.
pub open spec fn attacker_dice(a: nat) -> nat {
    if a < 3 {
        a
    } else {
        3
    }
}

/// Dice the defender commits with `d` troops.
pub open spec fn defender_dice(d: nat) -> nat {
    if d < 2 {
        d
    } else {
        2
    }
}

/// Every value is the face of a six-sided die.
pub open spec fn fair_faces(s: Seq<u8>) -> bool {
    forall|i: int| 0 <= i < s.len() ==> 1 <= #[trigger] s[i] <= 6
}

/// Outcome of a battle played with the dice values `dice`, consumed round by
/// round: first the attacker's dice, then the defender's. `Some(true)` when
/// the defenders are eliminated, `Some(false)` when the attackers are, and
/// `None` when the dice run out first.
pub open spec fn battle_outcome(a: nat, d: nat, dice: Seq<u8>) -> Option<bool>
    decreases dice.len(),
{
    if a == 0 {
        Some(false)
    } else if d == 0 {
        Some(true)
    } else {
        let na = attacker_dice(a);
        let nd = defender_dice(d);
        if dice.len() < na + nd {
            None
        } else {
            let lost = round_losses(dice.take(na as int), dice.subrange(na as int, (na + nd) as int));
            battle_outcome((a - lost.0) as nat, (d - lost.1) as nat, dice.skip((na + nd) as int))
        }
    }
}

proof fn lemma_pairs_won_bound(att: Seq<u8>, def: Seq<u8>, k: nat)
    ensures
        pairs_won(att, def, k) <= k,
    decreases k,
{
    if k > 0 {
        lemma_pairs_won_bound(att, def, (k - 1) as nat);
    }
}

/// Every round costs the two sides together one troop per compared pair.
proof fn lemma_round_losses_sum(att: Seq<u8>, def: Seq<u8>)
    ensures
        round_losses(att, def).0 + round_losses(att, def).1 == min_nat(att.len(), def.len()),
{
    lemma_pairs_won_bound(sort_desc(att), sort_desc(def), min_nat(att.len(), def.len()));
}

/// A battle of `a` attackers against `d` defenders lasts at most
/// `a + d - 1` rounds of at most five dice each, so `5 * (a + d - 1)` dice
/// always decide it.
pub proof fn lemma_dice_enough(a: nat, d: nat, dice: Seq<u8>)
    requires
        dice.len() + 5 >= 5 * (a + d),
    ensures
        battle_outcome(a, d, dice) is Some,
    decreases dice.len(),
{
    if a > 0 && d > 0 {
        let na = attacker_dice(a);
        let nd = defender_dice(d);
        let att = dice.take(na as int);
        let def = dice.subrange(na as int, (na + nd) as int);
        lemma_round_losses_sum(att, def);
        lemma_dice_enough(
            (a - round_losses(att, def).0) as nat,
            (d - round_losses(att, def).1) as nat,
            dice.skip((na + nd) as int),
        );
    }
}

/// The values of `s` never rise from one position to a later one.
pub open spec fn is_descending(s: Seq<u8>) -> bool {
    forall|i: int, j: int| 0 <= i < j < s.len() ==> s[i] >= s[j]
}

proof fn lemma_singleton_multiset(x: u8)
    ensures
        seq![x].to_multiset() =~= Multiset::<u8>::empty().insert(x),
{
    let e = Seq::<u8>::empty();
    e.to_multiset_ensures();
    assert(seq![x] =~= e.push(x));
    assert(e.to_multiset() =~= Multiset::<u8>::empty());
}

proof fn lemma_insert_desc_props(x: u8, s: Seq<u8>)
    requires
        is_descending(s),
    ensures
        is_descending(insert_desc(x, s)),
        insert_desc(x, s).to_multiset() =~= s.to_multiset().insert(x),
        insert_desc(x, s).len() == s.len() + 1,
        insert_desc(x, s)[0] == if s.len() == 0 || x >= s[0] {
            x
        } else {
            s[0]
        },
    decreases s.len(),
{
    lemma_singleton_multiset(x);
    if s.len() == 0 {
        assert(s.to_multiset() =~= Multiset::<u8>::empty()) by {
            s.to_multiset_ensures();
        }
    } else if x >= s[0] {
        lemma_multiset_commutative(seq![x], s);
    } else {
        let rest = s.drop_first();
        let t = insert_desc(x, rest);
        lemma_insert_desc_props(x, rest);
        lemma_singleton_multiset(s[0]);
        lemma_multiset_commutative(seq![s[0]], t);
        lemma_multiset_commutative(seq![s[0]], rest);
        assert(s =~= seq![s[0]] + rest);
        let u = insert_desc(x, s);
        assert(u =~= seq![s[0]] + t);
        assert forall|i: int, j: int| 0 <= i < j < u.len() implies u[i] >= u[j] by {
            if i > 0 {
                assert(u[i] == t[i - 1] && u[j] == t[j - 1]);
            } else {
                assert(u[j] == t[j - 1]);
                if j > 1 {
                    assert(t[0] >= t[j - 1]);
                }
                if rest.len() > 0 {
                    assert(s[0] >= s[1]);
                }
            }
        }
    }
}

/// `sort_desc(s)` holds the values of `s`, each as often as `s` does, from
/// the highest to the lowest.
pub proof fn lemma_sort_desc_sorted_permutation(s: Seq<u8>)
    ensures
        is_descending(sort_desc(s)),
        sort_desc(s).to_multiset() =~= s.to_multiset(),
    decreases s.len(),
{
    if s.len() == 0 {
    } else {
        let init = s.drop_last();
        lemma_sort_desc_sorted_permutation(init);
        lemma_insert_desc_props(s.last(), sort_desc(init));
        init.to_multiset_ensures();
        assert(s =~= init.push(s.last()));
    }
}

proof fn lemma_insert_desc_at(x: u8, s: Seq<u8>, j: int)
    requires
        0 <= j <= s.len(),
        forall|k: int| 0 <= k < j ==> #[trigger] s[k] > x,
        j < s.len() ==> x >= s[j],
    ensures
        insert_desc(x, s) == s.insert(j, x),
    decreases s.len(),
{
    if s.len() == 0 {
        assert(insert_desc(x, s) =~= s.insert(j, x));
    } else if x >= s[0] {
        assert(insert_desc(x, s) =~= s.insert(j, x));
    } else {
        let t = s.drop_first();
        assert forall|k: int| 0 <= k < j - 1 implies #[trigger] t[k] > x by {
            assert(s[k + 1] > x);
        }
        lemma_insert_desc_at(x, t, j - 1);
        assert(insert_desc(x, s) =~= s.insert(j, x));
    }
}

/// Places `x` into the descending vector `v`.
fn insert_sorted(v: &mut Vec<u8>, x: u8)
    ensures
        final(v)@ == insert_desc(x, old(v)@),
{
    let mut j: usize = 0;
    while j < v.len() && v[j] > x
        invariant
            j <= v@.len(),
            forall|k: int| 0 <= k < j ==> #[trigger] v@[k] > x,
        decreases v@.len() - j,
    {
        j = j + 1;
    }
    proof {
        lemma_insert_desc_at(x, v@, j as int);
    }
    v.insert(j, x);
}

/// The rolls of `rolls` from the highest to the lowest.
pub fn sort_dice(rolls: &Vec<u8>) -> (r: Vec<u8>)
    ensures
        r@ == sort_desc(rolls@),
        is_descending(r@),
        r@.to_multiset() =~= rolls@.to_multiset(),
{
    proof {
        lemma_sort_desc_sorted_permutation(rolls@);
    }
    let mut r: Vec<u8> = Vec::new();
    let mut i: usize = 0;
    while i < rolls.len()
        invariant
            i <= rolls@.len(),
            r@ == sort_desc(rolls@.take(i as int)),
        decreases rolls@.len() - i,
    {
        proof {
            assert(rolls@.take(i + 1).drop_last() =~= rolls@.take(i as int));
        }
        insert_sorted(&mut r, rolls[i]);
        i = i + 1;
    }
    proof {
        assert(rolls@.take(i as int) =~= rolls@);
    }
    r
}

/// The smaller of `a` and `b`.
pub fn min(a: u8, b: u8) -> (r: u8)
    ensures
        r == if a < b {
            a
        } else {
            b
        },
{
    if a < b {
        return a;
    }
    b
}

/// `n` brought into the range from `lo` to `hi`: `lo` below it, `hi` above it.
pub fn clamp(n: u8, lo: u8, hi: u8) -> (r: u8)
    ensures
        r == if n < lo {
            lo
        } else if n > hi {
            hi
        } else {
            n
        },
{
    if n < lo {
        lo
    } else if n > hi {
        hi
    } else {
        n
    }
}

/// Troops lost in one round, `(attacker, defender)`, for the given rolls of
/// the attacker's one to three dice and the defender's one or two dice.
pub fn resolve_round(attacker_rolls: &Vec<u8>, defender_rolls: &Vec<u8>) -> (r: (u8, u8))
    requires
        1 <= attacker_rolls@.len() <= 3,
        1 <= defender_rolls@.len() <= 2,
    ensures
        r.0 == round_losses(attacker_rolls@, defender_rolls@).0,
        r.1 == round_losses(attacker_rolls@, defender_rolls@).1,
        r.0 + r.1 == min_nat(attacker_rolls@.len(), defender_rolls@.len()),
{
    let att = sort_dice(attacker_rolls);
    let def = sort_dice(defender_rolls);
    let count = min(attacker_rolls.len() as u8, defender_rolls.len() as u8);
    let mut attacker_lost: u8 = 0;
    let mut defender_lost: u8 = 0;
    let mut i: u8 = 0;
    proof {
        lemma_sort_len(attacker_rolls@);
        lemma_sort_len(defender_rolls@);
    }
    while i < count
        invariant
            i <= count <= 2,
            att@.len() == attacker_rolls@.len(),
            def@.len() == defender_rolls@.len(),
            count <= att@.len(),
            count <= def@.len(),
            att@ == sort_desc(attacker_rolls@),
            def@ == sort_desc(defender_rolls@),
            defender_lost == pairs_won(att@, def@, i as nat),
            attacker_lost + defender_lost == i,
        decreases count - i,
    {
        if att[i as usize] > def[i as usize] {
            defender_lost = defender_lost + 1;
        } else {
            attacker_lost = attacker_lost + 1;
        }
        i = i + 1;
    }
    (attacker_lost, defender_lost)
}

proof fn lemma_insert_len(x: u8, s: Seq<u8>)
    ensures
        insert_desc(x, s).len() == s.len() + 1,
    decreases s.len(),
{
    if s.len() > 0 {
        lemma_insert_len(x, s.drop_first());
    }
}

proof fn lemma_sort_len(s: Seq<u8>)
    ensures
        sort_desc(s).len() == s.len(),
    decreases s.len(),
{
    if s.len() > 0 {
        lemma_sort_len(s.drop_last());
        lemma_insert_len(s.last(), sort_desc(s.drop_last()));
    }
}

/// One round of a battle, with the attacker's rolls `att` and the
/// defender's rolls `def` at the front of the dice, leaves the battle that
/// the rest of the dice decide.
pub proof fn lemma_battle_round(a: nat, d: nat, att: Seq<u8>, def: Seq<u8>, rest: Seq<u8>)
    requires
        a >= 1,
        d >= 1,
        att.len() == attacker_dice(a),
        def.len() == defender_dice(d),
    ensures
        battle_outcome(a, d, att + def + rest) == battle_outcome(
            (a - round_losses(att, def).0) as nat,
            (d - round_losses(att, def).1) as nat,
            rest,
        ),
{
    let dice = att + def + rest;
    let na = att.len() as int;
    let nd = def.len() as int;
    assert(dice.take(na) =~= att);
    assert(dice.subrange(na, na + nd) =~= def);
    assert(dice.skip(na + nd) =~= rest);
}

/// Relies on rand's `thread_rng` and `Rng::gen_range` over `1..=6`: a value
/// from the inclusive range, which is not empty.
#[verifier::external_body]
fn roll_die() -> (r: u8)
    ensures
        1 <= r <= 6,
{
    rand::thread_rng().gen_range(1..=6u8)
}

/// `n` independent rolls of a six-sided die.
fn roll_dice(n: usize) -> (r: Vec<u8>)
    ensures
        r@.len() == n,
        fair_faces(r@),
{
    let mut r: Vec<u8> = Vec::new();
    let mut i: usize = 0;
    while i < n
        invariant
            i <= n,
            r@.len() == i,
            fair_faces(r@),
        decreases n - i,
    {
        let face = roll_die();
        r.push(face);
        i = i + 1;
    }
    r
}

/// Rolls one round with `attackers` dice against `defenders` dice and
/// returns the troops each side keeps of those committed.
pub fn roll(attackers: u8, defenders: u8) -> (r: (u8, u8))
    requires
        1 <= attackers <= 3,
        1 <= defenders <= 2,
    ensures
        exists|att: Seq<u8>, def: Seq<u8>|
            att.len() == attackers && def.len() == defenders && fair_faces(att) && fair_faces(def)
                && r.0 == attackers - round_losses(att, def).0 && r.1 == defenders - round_losses(
                att,
                def,
            ).1,
{
    let att = roll_dice(attackers as usize);
    let def = roll_dice(defenders as usize);
    let lost = resolve_round(&att, &def);
    (attackers - lost.0, defenders - lost.1)
}

/// Plays a battle to its end with the dice values `dice` in place of random
/// rolls; `None` when they run out before one side is eliminated.
pub fn play_battle(attackers: u8, defenders: u8, dice: &Vec<u8>) -> (r: Option<bool>)
    ensures
        r == battle_outcome(attackers as nat, defenders as nat, dice@),
        dice@.len() + 5 >= 5 * (attackers + defenders) ==> r is Some,
{
    proof {
        if dice@.len() + 5 >= 5 * (attackers + defenders) {
            lemma_dice_enough(attackers as nat, defenders as nat, dice@);
        }
    }
    let mut remaining_a = attackers;
    let mut remaining_d = defenders;
    let mut pos: usize = 0;
    proof {
        assert(dice@.skip(0) =~= dice@);
    }
    while remaining_a > 0 && remaining_d > 0
        invariant
            pos <= dice@.len(),
            dice@.len() + 5 >= 5 * (attackers + defenders) ==> battle_outcome(
                attackers as nat,
                defenders as nat,
                dice@,
            ) is Some,
            battle_outcome(attackers as nat, defenders as nat, dice@) == battle_outcome(
                remaining_a as nat,
                remaining_d as nat,
                dice@.skip(pos as int),
            ),
        decreases dice@.len() - pos,
    {
        let send_a = clamp(remaining_a, 1, 3);
        let send_d = clamp(remaining_d, 1, 2);
        if dice.len() - pos < send_a as usize + send_d as usize {
            return None;
        }
        let mut att: Vec<u8> = Vec::new();
        let mut def: Vec<u8> = Vec::new();
        let mut k: usize = 0;
        while k < send_a as usize
            invariant
                k <= send_a,
                pos + send_a + send_d <= dice@.len(),
                dice@.len() <= usize::MAX,
                att@ == dice@.subrange(pos as int, pos + k),
            decreases send_a - k,
        {
            att.push(dice[pos + k]);
            k = k + 1;
            proof {
                assert(att@ =~= dice@.subrange(pos as int, pos + k));
            }
        }
        let mut k: usize = 0;
        while k < send_d as usize
            invariant
                k <= send_d,
                pos + send_a + send_d <= dice@.len(),
                dice@.len() <= usize::MAX,
                def@ == dice@.subrange(pos + send_a, pos + send_a + k),
            decreases send_d - k,
        {
            def.push(dice[pos + send_a as usize + k]);
            k = k + 1;
            proof {
                assert(def@ =~= dice@.subrange(pos + send_a, pos + send_a + k));
            }
        }
        let next: usize = pos + send_a as usize + send_d as usize;
        proof {
            let rest = dice@.skip(next as int);
            assert(dice@.skip(pos as int) =~= att@ + def@ + rest);
            lemma_battle_round(remaining_a as nat, remaining_d as nat, att@, def@, rest);
        }
        let lost = resolve_round(&att, &def);
        remaining_a = remaining_a - lost.0;
        remaining_d = remaining_d - lost.1;
        pos = next;
    }
    Some(remaining_a > 0)
}

/// Plays a battle to its end with random dice. The result is the outcome of
/// the battle played with some sequence of die faces.
pub fn simulate_battle(attackers: u8, defenders: u8) -> (r: bool)
    ensures
        exists|dice: Seq<u8>|
            fair_faces(dice) && battle_outcome(attackers as nat, defenders as nat, dice) == Some(r),
{
    let total: usize = attackers as usize + defenders as usize;
    let needed: usize = if total == 0 {
        0
    } else {
        5 * total - 5
    };
    let dice = roll_dice(needed);
    match play_battle(attackers, defenders, &dice) {
        Some(won) => won,
        None => {
            proof {
                assert(false);
            }
            false
        },
    }
}

} // verus!
