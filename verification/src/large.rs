//! Whole numbers of any size, in limbs, and the powers that they are multiplied with.

use vstd::prelude::*;

verus! {

// ---- powers ------------------------------------------------------------------------------------

pub open spec fn pow2(n: int) -> nat
    decreases n,
{
    if n <= 0 {
        1
    } else {
        2 * pow2(n - 1)
    }
}

pub open spec fn pow10(n: int) -> nat
    decreases n,
{
    if n <= 0 {
        1
    } else {
        10 * pow10(n - 1)
    }
}

pub proof fn lemma_pow2_sum(a: int, b: int)
    requires
        0 <= a,
        0 <= b,
    ensures
        pow2(a + b) == pow2(a) * pow2(b),
    decreases a,
{
    if a > 0 {
        lemma_pow2_sum(a - 1, b);
        assert(2 * (pow2(a - 1) * pow2(b)) == (2 * pow2(a - 1)) * pow2(b)) by (nonlinear_arith);
    } else {
        assert(pow2(0) * pow2(b) == pow2(b)) by (nonlinear_arith)
            requires
                pow2(0) == 1,
        ;
    }
}

pub proof fn lemma_pow10_sum(a: int, b: int)
    requires
        0 <= a,
        0 <= b,
    ensures
        pow10(a + b) == pow10(a) * pow10(b),
    decreases a,
{
    if a > 0 {
        lemma_pow10_sum(a - 1, b);
        assert(10 * (pow10(a - 1) * pow10(b)) == (10 * pow10(a - 1)) * pow10(b)) by (
        nonlinear_arith);
    } else {
        assert(pow10(0) * pow10(b) == pow10(b)) by (nonlinear_arith)
            requires
                pow10(0) == 1,
        ;
    }
}

pub proof fn lemma_pow_positive(n: int)
    ensures
        pow2(n) > 0,
        pow10(n) > 0,
    decreases n,
{
    if n > 0 {
        lemma_pow_positive(n - 1);
    }
}

pub proof fn lemma_pow2_grows(a: int, b: int)
    requires
        a <= b,
    ensures
        pow2(a) <= pow2(b),
    decreases b - a,
{
    if a < b {
        lemma_pow2_grows(a, b - 1);
        lemma_pow_positive(b - 1);
    }
}

pub proof fn lemma_pow10_grows(a: int, b: int)
    requires
        a <= b,
    ensures
        pow10(a) <= pow10(b),
    decreases b - a,
{
    if a < b {
        lemma_pow10_grows(a, b - 1);
        lemma_pow_positive(b - 1);
    }
}

/// Three powers of two are less than one of ten.
pub proof fn lemma_tens_and_twos(n: int)
    requires
        0 <= n,
    ensures
        pow2(3 * n) <= pow10(n),
    decreases n,
{
    if n > 0 {
        lemma_tens_and_twos(n - 1);
        assert(pow2(3 * n) == 8 * pow2(3 * n - 3)) by {
            assert(pow2(3 * n) == 2 * pow2(3 * n - 1));
            assert(pow2(3 * n - 1) == 2 * pow2(3 * n - 2));
            assert(pow2(3 * n - 2) == 2 * pow2(3 * n - 3));
        }
    }
}

// ---- large numbers -------------------------------------------------------------------------------

/// Large numbers are held in limbs of this base, the lowest first.
pub open spec fn base() -> nat {
    0x1_0000_0000
}

pub open spec fn base_pow(n: int) -> nat
    decreases n,
{
    if n <= 0 {
        1
    } else {
        base() * base_pow(n - 1)
    }
}

/// A limb of a number; zero behind its last.
pub open spec fn limb(v: Seq<u32>, i: int) -> nat {
    if 0 <= i < v.len() {
        v[i] as nat
    } else {
        0
    }
}

/// What the first `n` limbs say.
pub open spec fn low_limbs(v: Seq<u32>, n: int) -> nat
    decreases n,
{
    if n <= 0 {
        0
    } else {
        low_limbs(v, n - 1) + limb(v, n - 1) * base_pow(n - 1)
    }
}

/// The number that limbs say.
pub open spec fn big(v: Seq<u32>) -> nat {
    low_limbs(v, v.len() as int)
}

proof fn lemma_low_limbs(v: Seq<u32>, n: int)
    requires
        0 <= n,
    ensures
        low_limbs(v, n) < base_pow(n),
    decreases n,
{
    if n > 0 {
        lemma_low_limbs(v, n - 1);
        let l = limb(v, n - 1);
        let p = base_pow(n - 1);
        assert(l * p <= (base() - 1) * p) by (nonlinear_arith)
            requires
                l <= base() - 1,
        ;
        assert((base() - 1) * p + p == base() * p) by (nonlinear_arith);
    }
}

proof fn lemma_no_more_limbs(v: Seq<u32>, n: int)
    requires
        v.len() <= n,
    ensures
        low_limbs(v, n) == big(v),
    decreases n,
{
    if n > v.len() {
        lemma_no_more_limbs(v, n - 1);
        assert(0 * base_pow(n - 1) == 0) by (nonlinear_arith);
    }
}

proof fn lemma_same_limbs(v: Seq<u32>, w: Seq<u32>, n: int)
    requires
        forall|i: int| 0 <= i < n ==> limb(v, i) == #[trigger] limb(w, i),
    ensures
        low_limbs(v, n) == low_limbs(w, n),
    decreases n,
{
    if n > 0 {
        lemma_same_limbs(v, w, n - 1);
        assert(limb(v, n - 1) == limb(w, n - 1));
    }
}

/// A number multiplied, and a little added.
pub fn times(v: &Vec<u32>, m: u32, a: u32) -> (r: Vec<u32>)
    ensures
        big(r@) == big(v@) * m + a,
{
    let mut r: Vec<u32> = Vec::new();
    let mut carry: u64 = a as u64;
    let mut i: usize = 0;
    assert(base_pow(0) == 1);
    assert(low_limbs(v@, 0) * m + a == a) by (nonlinear_arith)
        requires
            low_limbs(v@, 0) == 0,
    ;
    while i < v.len()
        invariant
            i <= v@.len(),
            r@.len() == i,
            carry < base(),
            big(r@) + carry * base_pow(i as int) == low_limbs(v@, i as int) * m + a,
        decreases v@.len() - i,
    {
        let x: u64 = v[i] as u64;
        assert(x * m <= 0xffff_ffff * 0xffff_ffff) by (nonlinear_arith)
            requires
                x <= 0xffff_ffff,
                m <= 0xffff_ffff,
        ;
        let t: u64 = x * m as u64 + carry;
        let low: u32 = (t % 0x1_0000_0000) as u32;
        let ghost was = r@;
        let ghost c0 = carry;
        r.push(low);
        carry = t / 0x1_0000_0000;
        proof {
            let p = base_pow(i as int);
            let done = low_limbs(v@, i as int);
            assert(t == low + carry * base());
            assert(carry < base()) by (nonlinear_arith)
                requires
                    carry == t / 0x1_0000_0000,
                    t <= 0xffff_ffff_ffff_ffff,
                    base() == 0x1_0000_0000,
            ;
            lemma_same_limbs(r@, was, i as int);
            assert(big(r@) == big(was) + low * p);
            assert(base_pow(i + 1) == base() * p);
            assert((low + carry * base()) * p == low * p + carry * (base() * p)) by (
            nonlinear_arith);
            assert((x * m + c0) * p == x * m * p + c0 * p) by (nonlinear_arith);
            assert((done + x * p) * m == done * m + x * m * p) by (nonlinear_arith);
            assert(low_limbs(v@, i + 1) == done + x * p);
        }
        i += 1;
    }
    let ghost was = r@;
    assert(carry == 0 ==> carry * base_pow(i as int) == 0) by (nonlinear_arith);
    if carry > 0 {
        r.push(carry as u32);
        proof {
            lemma_same_limbs(r@, was, i as int);
            assert(big(r@) == big(was) + carry * base_pow(i as int));
        }
    }
    r
}

/// How two numbers stand to each other.
#[derive(Clone, Copy, PartialEq, Eq, Structural)]
pub enum Side {
    Below,
    At,
    Above,
}

fn limb_at(v: &Vec<u32>, i: usize) -> (r: u32)
    ensures
        r == limb(v@, i as int),
{
    if i < v.len() {
        v[i]
    } else {
        0
    }
}

/// On which side of `w` a number is.
pub fn side_of(v: &Vec<u32>, w: &Vec<u32>) -> (r: Side)
    ensures
        match r {
            Side::Below => big(v@) < big(w@),
            Side::At => big(v@) == big(w@),
            Side::Above => big(v@) > big(w@),
        },
{
    let n: usize = if v.len() >= w.len() {
        v.len()
    } else {
        w.len()
    };
    let mut i: usize = n;
    proof {
        lemma_no_more_limbs(v@, n as int);
        lemma_no_more_limbs(w@, n as int);
    }
    while i > 0
        invariant
            i <= n,
            big(v@) - low_limbs(v@, i as int) == big(w@) - low_limbs(w@, i as int),
        decreases i,
    {
        i -= 1;
        let a: u32 = limb_at(v, i);
        let b: u32 = limb_at(w, i);
        proof {
            let p = base_pow(i as int);
            lemma_low_limbs(v@, i as int);
            lemma_low_limbs(w@, i as int);
            if a < b {
                assert(a * p + p <= b * p) by (nonlinear_arith)
                    requires
                        a + 1 <= b,
                ;
            } else if b < a {
                assert(b * p + p <= a * p) by (nonlinear_arith)
                    requires
                        b + 1 <= a,
                ;
            }
        }
        if a < b {
            return Side::Below;
        }
        if a > b {
            return Side::Above;
        }
    }
    Side::At
}

/// A number times a power of two.
pub fn doubled(v: &Vec<u32>, n: u32) -> (r: Vec<u32>)
    ensures
        big(r@) == big(v@) * pow2(n as int),
{
    let mut r: Vec<u32> = times(v, 1, 0);
    let mut i: u32 = 0;
    assert(big(v@) * 1 + 0 == big(v@) * pow2(0)) by (nonlinear_arith)
        requires
            pow2(0) == 1,
    ;
    while i < n
        invariant
            i <= n,
            big(r@) == big(v@) * pow2(i as int),
        decreases n - i,
    {
        if n - i >= 16 {
            let next = times(&r, 0x1_0000, 0);
            proof {
                lemma_pow2_sum(16, i as int);
                assert(pow2(16) == 0x1_0000) by {
                    reveal_with_fuel(pow2, 17);
                }
                let a = big(v@);
                let p = pow2(i as int);
                assert(a * p * 0x1_0000 == a * (0x1_0000 * p)) by (nonlinear_arith);
            }
            r = next;
            i += 16;
        } else {
            let next = times(&r, 2, 0);
            proof {
                let a = big(v@);
                let p = pow2(i as int);
                assert(a * p * 2 == a * (2 * p)) by (nonlinear_arith);
            }
            r = next;
            i += 1;
        }
    }
    r
}

/// A number times a power of ten.
pub fn with_zeros(v: &Vec<u32>, n: u128) -> (r: Vec<u32>)
    ensures
        big(r@) == big(v@) * pow10(n as int),
{
    let mut r: Vec<u32> = times(v, 1, 0);
    let mut i: u128 = 0;
    assert(big(v@) * 1 + 0 == big(v@) * pow10(0)) by (nonlinear_arith)
        requires
            pow10(0) == 1,
    ;
    while i < n
        invariant
            i <= n,
            big(r@) == big(v@) * pow10(i as int),
        decreases n - i,
    {
        let next = times(&r, 10, 0);
        proof {
            let a = big(v@);
            let p = pow10(i as int);
            assert(a * p * 10 == a * (10 * p)) by (nonlinear_arith);
        }
        r = next;
        i += 1;
    }
    r
}

} // verus!
