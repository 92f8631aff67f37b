use vstd::prelude::*;

verus! {

/// Radix of one limb.
pub open spec fn base() -> nat {
    0x1_0000_0000
}

/// `base()` raised to the power `n`.
pub open spec fn pow_base(n: nat) -> nat
    decreases n,
{
    if n == 0 {
        1
    } else {
        base() * pow_base((n - 1) as nat)
    }
}

/// Limb `i` of `s`, least significant first; zero past the end.
pub open spec fn digit(s: Seq<u32>, i: nat) -> nat {
    if i < s.len() {
        s[i as int] as nat
    } else {
        0
    }
}

/// Value of the lowest `n` limbs of `s`.
pub open spec fn value_upto(s: Seq<u32>, n: nat) -> nat
    decreases n,
{
    if n == 0 {
        0
    } else {
        value_upto(s, (n - 1) as nat) + digit(s, (n - 1) as nat) * pow_base((n - 1) as nat)
    }
}

/// Value of the little-endian limbs `s`.
pub open spec fn limbs_value(s: Seq<u32>) -> nat {
    value_upto(s, s.len())
}

proof fn lemma_pow_base_positive(n: nat)
    ensures
        pow_base(n) > 0,
    decreases n,
{
    if n > 0 {
        lemma_pow_base_positive((n - 1) as nat);
    }
}

/// Only the lowest `n` limbs count for `value_upto(_, n)`.
proof fn lemma_value_upto_same(s: Seq<u32>, t: Seq<u32>, n: nat)
    requires
        forall|j: nat| j < n ==> digit(s, j) == digit(t, j),
    ensures
        value_upto(s, n) == value_upto(t, n),
    decreases n,
{
    if n > 0 {
        lemma_value_upto_same(s, t, (n - 1) as nat);
    }
}

/// Limbs past the end are zero.
proof fn lemma_value_upto_beyond(s: Seq<u32>, n: nat)
    requires
        n >= s.len(),
    ensures
        value_upto(s, n) == limbs_value(s),
    decreases n,
{
    if n > s.len() {
        lemma_value_upto_beyond(s, (n - 1) as nat);
        assert(digit(s, (n - 1) as nat) == 0);
        assert(value_upto(s, n) == value_upto(s, (n - 1) as nat) + 0 * pow_base((n - 1) as nat));
    }
}

/// A natural number of any size, held as base-2^32 limbs.
pub struct BigNat {
    limbs: Vec<u32>,
}

impl View for BigNat {
    type V = nat;

    closed spec fn view(&self) -> nat {
        limbs_value(self.limbs@)
    }
}

/// One step of a limb loop: the low limb `lo` and the carry `hi` of `t` at
/// position `i` keep `value + carry * B^i` equal to what was added.
proof fn lemma_limb_step(acc: nat, carry: nat, t: nat, lo: nat, hi: nat, i: nat)
    requires
        t == lo + base() * hi,
    ensures
        acc + lo * pow_base(i) + hi * pow_base(i + 1) == acc + t * pow_base(i),
{
    let p = pow_base(i);
    assert(pow_base(i + 1) == base() * p);
    assert(lo * p + hi * (base() * p) == (lo + base() * hi) * p) by (nonlinear_arith);
}

impl BigNat {
    pub fn from_u32(v: u32) -> (r: BigNat)
        ensures
            r@ == v,
    {
        let r = BigNat { limbs: vec![v] };
        proof {
            assert(digit(r.limbs@, 0) == v);
            assert(pow_base(0) == 1);
            assert(value_upto(r.limbs@, 1) == value_upto(r.limbs@, 0) + digit(r.limbs@, 0) * pow_base(0));
        }
        r
    }

    /// Little-endian base-2^32 limbs of the value; high zero limbs may occur.
    pub fn limbs(&self) -> (r: Vec<u32>)
        ensures
            limbs_value(r@) == self@,
    {
        let mut r: Vec<u32> = Vec::new();
        let mut i: usize = 0;
        while i < self.limbs.len()
            invariant
                i <= self.limbs@.len(),
                r@ == self.limbs@.take(i as int),
            decreases self.limbs@.len() - i,
        {
            r.push(self.limbs[i]);
            i = i + 1;
            proof {
                assert(r@ =~= self.limbs@.take(i as int));
            }
        }
        proof {
            assert(r@ =~= self.limbs@);
        }
        r
    }

    /// A second number with the same value.
    pub fn copy(&self) -> (r: BigNat)
        ensures
            r@ == self@,
    {
        BigNat { limbs: self.limbs() }
    }

    /// `c` times this number.
    pub fn mul_small(&self, c: u32) -> (r: BigNat)
        ensures
            r@ == c * self@,
    {
        let x = &self.limbs;
        let mut out: Vec<u32> = Vec::new();
        let mut carry: u64 = 0;
        let mut i: usize = 0;
        proof {
            assert(value_upto(x@, 0) == 0);
            assert(value_upto(out@, 0) == 0);
            assert(c * 0 == 0);
        }
        while i < x.len()
            invariant
                i <= x@.len(),
                out@.len() == i,
                carry < base(),
                value_upto(out@, i as nat) + carry * pow_base(i as nat) == c * value_upto(x@, i as nat),
            decreases x@.len() - i,
        {
            assert((x[i as int] as nat) * (c as nat) + carry <= 0xFFFF_FFFF * 0xFFFF_FFFF + 0xFFFF_FFFF)
                by (nonlinear_arith)
                requires
                    x[i as int] <= 0xFFFF_FFFF,
                    c <= 0xFFFF_FFFF,
                    carry < 0x1_0000_0000,
            ;
            let t: u64 = x[i] as u64 * c as u64 + carry;
            let lo: u32 = (t % 0x1_0000_0000) as u32;
            let hi: u64 = t / 0x1_0000_0000;
            let ghost before = out@;
            out.push(lo);
            proof {
                let n = i as nat;
                lemma_value_upto_same(out@, before, n);
                assert(value_upto(out@, n + 1) == value_upto(out@, n) + lo * pow_base(n));
                assert(value_upto(x@, n + 1) == value_upto(x@, n) + x[i as int] * pow_base(n));
                lemma_limb_step(value_upto(before, n), carry as nat, t as nat, lo as nat, hi as nat, n);
                assert(c * (value_upto(x@, n) + x[i as int] * pow_base(n)) == c * value_upto(x@, n) + (c
                    * x[i as int]) * pow_base(n)) by (nonlinear_arith);
                assert((t as nat) * pow_base(n) == (x[i as int] * c) * pow_base(n) + carry * pow_base(n))
                    by (nonlinear_arith)
                    requires
                        t == x[i as int] * c + carry,
                ;
            }
            carry = hi;
            i = i + 1;
        }
        let ghost before = out@;
        out.push(carry as u32);
        proof {
            let n = x@.len();
            lemma_value_upto_same(out@, before, n);
            assert(value_upto(out@, n + 1) == value_upto(out@, n) + carry * pow_base(n));
        }
        BigNat { limbs: out }
    }

    /// The sum of this number and `other`.
    pub fn add(&self, other: &BigNat) -> (r: BigNat)
        ensures
            r@ == self@ + other@,
    {
        let x = &self.limbs;
        let y = &other.limbs;
        let m: usize = if x.len() < y.len() {
            y.len()
        } else {
            x.len()
        };
        let mut out: Vec<u32> = Vec::new();
        let mut carry: u64 = 0;
        let mut i: usize = 0;
        while i < m
            invariant
                i <= m,
                m == x@.len() || m == y@.len(),
                x@.len() <= m,
                y@.len() <= m,
                out@.len() == i,
                carry <= 1,
                value_upto(out@, i as nat) + carry * pow_base(i as nat) == value_upto(x@, i as nat)
                    + value_upto(y@, i as nat),
            decreases m - i,
        {
            let dx: u64 = if i < x.len() {
                x[i] as u64
            } else {
                0
            };
            let dy: u64 = if i < y.len() {
                y[i] as u64
            } else {
                0
            };
            let t: u64 = dx + dy + carry;
            let lo: u32 = (t % 0x1_0000_0000) as u32;
            let hi: u64 = t / 0x1_0000_0000;
            let ghost before = out@;
            out.push(lo);
            proof {
                let n = i as nat;
                assert(dx == digit(x@, n));
                assert(dy == digit(y@, n));
                lemma_value_upto_same(out@, before, n);
                assert(value_upto(out@, n + 1) == value_upto(out@, n) + lo * pow_base(n));
                lemma_limb_step(value_upto(before, n), carry as nat, t as nat, lo as nat, hi as nat, n);
                assert((t as nat) * pow_base(n) == dx * pow_base(n) + dy * pow_base(n) + carry
                    * pow_base(n)) by (nonlinear_arith)
                    requires
                        t == dx + dy + carry,
                ;
            }
            carry = hi;
            i = i + 1;
        }
        let ghost before = out@;
        out.push(carry as u32);
        proof {
            let n = m as nat;
            lemma_value_upto_same(out@, before, n);
            assert(value_upto(out@, n + 1) == value_upto(out@, n) + carry * pow_base(n));
            lemma_value_upto_beyond(x@, n);
            lemma_value_upto_beyond(y@, n);
        }
        BigNat { limbs: out }
    }
}

} // verus!
