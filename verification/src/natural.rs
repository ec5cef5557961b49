//! Natural numbers of any size, in base 2^32: what it takes to compare a
//! decimal fraction with a binary one exactly.
use vstd::arithmetic::div_mod::*;
use vstd::arithmetic::power2::*;
use vstd::prelude::*;

verus! {

/// A natural number by its digits in base 2^32, the lowest first. Zeros at the
/// high end are allowed.
pub struct Natural {
    limbs: Vec<u32>,
}

spec fn limb(s: Seq<u32>, i: int) -> nat {
    if 0 <= i < s.len() {
        s[i] as nat
    } else {
        0
    }
}

/// The number that the lowest `n` digits stand for.
spec fn low(s: Seq<u32>, n: nat) -> nat
    decreases n,
{
    if n == 0 {
        0
    } else {
        low(s, (n - 1) as nat) + limb(s, n - 1) * pow2((32 * (n - 1)) as nat)
    }
}

proof fn lemma_low_beyond(s: Seq<u32>, n: nat)
    requires
        n >= s.len(),
    ensures
        low(s, n) == low(s, s.len()),
    decreases n,
{
    if n > s.len() {
        lemma_low_beyond(s, (n - 1) as nat);
        assert(0 * pow2((32 * (n - 1)) as nat) == 0);
    }
}

proof fn lemma_low_same(s: Seq<u32>, t: Seq<u32>, n: nat)
    requires
        forall|i: int| 0 <= i < n ==> limb(s, i) == limb(t, i),
    ensures
        low(s, n) == low(t, n),
    decreases n,
{
    if n > 0 {
        lemma_low_same(s, t, (n - 1) as nat);
        assert(limb(s, n - 1) == limb(t, n - 1));
    }
}

proof fn lemma_step(n: nat)
    ensures
        pow2(32 * (n + 1)) == 0x1_0000_0000 * pow2(32 * n),
        pow2(32 * n) > 0,
{
    lemma2_to64();
    lemma_pow2_adds(32, 32 * n);
    lemma_pow2_pos(32 * n);
}

proof fn lemma_low_bound(s: Seq<u32>, n: nat)
    ensures
        low(s, n) < pow2(32 * n),
    decreases n,
{
    if n == 0 {
        lemma2_to64();
    } else {
        let k = (n - 1) as nat;
        lemma_low_bound(s, k);
        lemma_step(k);
        let d = limb(s, n - 1);
        let p = pow2(32 * k);
        assert(d * p + p <= 0x1_0000_0000 * p) by (nonlinear_arith)
            requires
                d + 1 <= 0x1_0000_0000,
        ;
    }
}

/// Two numbers that agree in the digits above `n` are ordered by the rest.
proof fn lemma_low_above(a: Seq<u32>, b: Seq<u32>, n: nat, m: nat)
    requires
        n <= m,
        forall|i: int| n <= i < m ==> limb(a, i) == limb(b, i),
    ensures
        low(a, m) - low(a, n) == low(b, m) - low(b, n),
    decreases m,
{
    if n < m {
        lemma_low_above(a, b, n, (m - 1) as nat);
        assert(limb(a, m - 1) == limb(b, m - 1));
    }
}

impl View for Natural {
    type V = nat;

    closed spec fn view(&self) -> nat {
        low(self.limbs@, self.limbs@.len())
    }
}

impl Natural {
    pub fn new(n: u64) -> (r: Natural)
        ensures
            r@ == n,
    {
        let mut limbs: Vec<u32> = Vec::new();
        limbs.push((n % 0x1_0000_0000) as u32);
        limbs.push((n / 0x1_0000_0000) as u32);
        proof {
            lemma2_to64();
            assert(low(limbs@, 0) == 0);
            assert(low(limbs@, 1) == limb(limbs@, 0) * pow2(0));
            assert(low(limbs@, 2) == low(limbs@, 1) + limb(limbs@, 1) * pow2(32));
            lemma_fundamental_div_mod(n as int, 0x1_0000_0000);
        }
        Natural { limbs }
    }

    /// `self * m + extra`
    pub fn scaled(&self, m: u64, extra: u64) -> (r: Natural)
        ensures
            r@ == self@ * m + extra,
    {
        let mut out: Vec<u32> = Vec::new();
        let mut carry: u128 = extra as u128;
        let mut i: usize = 0;
        let ghost s = self.limbs@;
        proof {
            lemma2_to64();
            assert(0 * (m as nat) == 0);
            assert(low(s, 0) * m == 0);
            assert(carry * pow2(0) == extra);
        }
        while i < self.limbs.len()
            invariant
                s == self.limbs@,
                i <= s.len(),
                out@.len() == i,
                carry <= 0xffff_ffff_ffff_ffff,
                low(out@, i as nat) + carry * pow2((32 * i) as nat) == low(s, i as nat) * m + extra,
            decreases s.len() - i,
        {
            let d: u128 = self.limbs[i] as u128;
            proof {
                assert(d * m <= 0xffff_ffff * 0xffff_ffff_ffff_ffff) by (nonlinear_arith)
                    requires
                        d <= 0xffff_ffff,
                        m <= 0xffff_ffff_ffff_ffff,
                ;
            }
            let t: u128 = d * (m as u128) + carry;
            let part: u32 = (t % 0x1_0000_0000) as u32;
            let ghost before = out@;
            let ghost old_carry = carry;
            out.push(part);
            carry = t / 0x1_0000_0000;
            proof {
                let p = pow2((32 * i) as nat);
                lemma_step(i as nat);
                lemma_low_same(before, out@, i as nat);
                assert(limb(out@, i as int) == part);
                assert(limb(s, i as int) == d);
                lemma_fundamental_div_mod(t as int, 0x1_0000_0000);
                assert(part * p + carry * (0x1_0000_0000 * p) == t * p) by (nonlinear_arith)
                    requires
                        t == 0x1_0000_0000 * carry + part,
                ;
                assert(t * p == (d * m) * p + old_carry * p) by (nonlinear_arith)
                    requires
                        t == d * m + old_carry,
                ;
                assert((low(s, i as nat) + d * p) * m == low(s, i as nat) * m + (d * m) * p)
                    by (nonlinear_arith);
            }
            i = i + 1;
        }
        let ghost n = i as nat;
        let ghost before = out@;
        let lo: u32 = (carry % 0x1_0000_0000) as u32;
        let hi: u32 = (carry / 0x1_0000_0000) as u32;
        out.push(lo);
        out.push(hi);
        proof {
            lemma_low_same(before, out@, n);
            lemma_step(n);
            let p = pow2(32 * n);
            assert(limb(out@, n as int) == lo);
            assert(limb(out@, (n + 1) as int) == hi);
            assert(low(out@, n + 1) == low(out@, n) + lo * p);
            assert(low(out@, n + 2) == low(out@, n + 1) + hi * pow2(32 * (n + 1)));
            lemma_fundamental_div_mod(carry as int, 0x1_0000_0000);
            assert(lo * p + hi * (0x1_0000_0000 * p) == carry * p) by (nonlinear_arith)
                requires
                    carry == 0x1_0000_0000 * hi + lo,
            ;
        }
        Natural { limbs: out }
    }

    /// `self * 2^k`
    pub fn shifted(&self, k: u32) -> (r: Natural)
        ensures
            r@ == self@ * pow2(k as nat),
    {
        let mut r = self.scaled(1, 0);
        let mut left: u32 = k;
        proof {
            lemma2_to64();
        }
        while left >= 32
            invariant
                left <= k,
                r@ == self@ * pow2((k - left) as nat),
            decreases left,
        {
            let ghost before = r@;
            r = r.scaled(0x1_0000_0000, 0);
            proof {
                lemma2_to64();
                let done = (k - left) as nat;
                lemma_pow2_adds(done, 32);
                let p = pow2(done);
                assert((self@ * p) * 0x1_0000_0000 == self@ * (p * 0x1_0000_0000)) by (nonlinear_arith);
            }
            left = left - 32;
        }
        let mut bit: u64 = 1;
        let mut i: u32 = 0;
        while i < left
            invariant
                i <= left < 32,
                bit == pow2(i as nat),
                bit <= 0x8000_0000,
            decreases left - i,
        {
            proof {
                lemma_pow2_unfold((i + 1) as nat);
                lemma2_to64();
                if i + 1 < 31 {
                    lemma_pow2_strictly_increases((i + 1) as nat, 31);
                }
            }
            bit = bit * 2;
            i = i + 1;
        }
        let out = r.scaled(bit, 0);
        proof {
            let done = (k - left) as nat;
            lemma_pow2_adds(done, left as nat);
            let p = pow2(done);
            assert((self@ * p) * bit == self@ * (p * bit)) by (nonlinear_arith);
        }
        out
    }

    fn digit(&self, i: usize) -> (d: u32)
        ensures
            d == limb(self.limbs@, i as int),
    {
        if i < self.limbs.len() {
            self.limbs[i]
        } else {
            0
        }
    }

    /// The order of two numbers: -1, 0 or 1 as `self` is less than, equal to
    /// or greater than `other`.
    pub fn order(&self, other: &Natural) -> (r: i8)
        ensures
            -1 <= r <= 1,
            r < 0 <==> self@ < other@,
            r == 0 <==> self@ == other@,
            r > 0 <==> self@ > other@,
    {
        let n: usize = if self.limbs.len() > other.limbs.len() {
            self.limbs.len()
        } else {
            other.limbs.len()
        };
        let ghost a = self.limbs@;
        let ghost b = other.limbs@;
        proof {
            lemma_low_beyond(a, n as nat);
            lemma_low_beyond(b, n as nat);
        }
        let mut i: usize = n;
        while i > 0
            invariant
                a == self.limbs@,
                b == other.limbs@,
                i <= n,
                self@ == low(a, n as nat),
                other@ == low(b, n as nat),
                forall|j: int| i <= j < n ==> limb(a, j) == limb(b, j),
            decreases i,
        {
            let x: u32 = self.digit(i - 1);
            let y: u32 = other.digit(i - 1);
            if x != y {
                proof {
                    let k = (i - 1) as nat;
                    lemma_low_above(a, b, i as nat, n as nat);
                    lemma_low_bound(a, k);
                    lemma_low_bound(b, k);
                    let p = pow2(32 * k);
                    if x < y {
                        assert(x * p + p <= y * p) by (nonlinear_arith)
                            requires
                                x + 1 <= y,
                        ;
                    } else {
                        assert(y * p + p <= x * p) by (nonlinear_arith)
                            requires
                                y + 1 <= x,
                        ;
                    }
                }
                return if x < y {
                    -1
                } else {
                    1
                };
            }
            i = i - 1;
        }
        proof {
            lemma_low_above(a, b, 0, n as nat);
        }
        0
    }

    /// `self / d` and `self % d`
    pub fn divided(&self, d: u32) -> (r: (Natural, u32))
        requires
            d > 0,
        ensures
            r.0@ == self@ / (d as nat),
            r.1 == self@ % (d as nat),
    {
        let mut out: Vec<u32> = self.limbs.clone();
        let ghost s = self.limbs@;
        assert(out@ =~= s);
        let mut rem: u64 = 0;
        let mut i: usize = out.len();
        let ghost n = s.len();
        proof {
            assert(0 * pow2(32 * n) == 0);
        }
        while i > 0
            invariant
                d > 0,
                s == self.limbs@,
                out@.len() == s.len() == n,
                i <= n,
                rem < d,
                forall|j: int| 0 <= j < i ==> out@[j] == s[j],
                low(s, n) - low(s, i as nat) == d * (low(out@, n) - low(out@, i as nat)) + rem
                    * pow2((32 * i) as nat),
            decreases i,
        {
            let k: usize = i - 1;
            let x: u64 = out[k] as u64;
            let t: u64 = rem * 0x1_0000_0000 + x;
            let q: u64 = t / (d as u64);
            proof {
                lemma_fundamental_div_mod(t as int, d as int);
                lemma_mod_bound(t as int, d as int);
                assert(q < 0x1_0000_0000) by (nonlinear_arith)
                    requires
                        t == d * q + t % (d as u64),
                        t % (d as u64) >= 0,
                        t < d * 0x1_0000_0000,
                        d > 0,
                {
                    if q >= 0x1_0000_0000 {
                        assert(d * q >= d * 0x1_0000_0000);
                    }
                }
            }
            let ghost before = out@;
            let ghost old_rem = rem;
            out.set(k, q as u32);
            rem = t % (d as u64);
            proof {
                lemma_step(k as nat);
                let p = pow2((32 * k) as nat);
                lemma_low_same(before, out@, k as nat);
                lemma_low_above(before, out@, i as nat, n);
                assert(limb(out@, k as int) == q);
                assert(limb(s, k as int) == x);
                assert(limb(before, k as int) == x);
                assert(low(out@, i as nat) == low(out@, k as nat) + q * p);
                assert(low(s, i as nat) == low(s, k as nat) + x * p);
                assert(pow2((32 * i) as nat) == 0x1_0000_0000 * p);
                let hi = low(out@, n) - low(out@, i as nat);
                assert(hi == low(before, n) - low(before, i as nat));
                assert(d * hi + old_rem * (0x1_0000_0000 * p) + x * p == d * (hi + q * p) + rem
                    * p) by (nonlinear_arith)
                    requires
                        old_rem * 0x1_0000_0000 + x == d * q + rem,
                ;
            }
            i = k;
        }
        proof {
            lemma2_to64();
            let q = low(out@, n);
            assert(i == 0 && low(s, 0) == 0 && low(out@, 0) == 0);
            assert(rem * pow2(0) == rem);
            assert(d * (q - 0) == d * q);
            assert(low(s, n) == d * q + rem);
            lemma_fundamental_div_mod_converse(self@ as int, d as int, q as int, rem as int);
        }
        (Natural { limbs: out }, rem as u32)
    }

    /// `self + n`
    pub fn plus(&self, n: u64) -> (r: Natural)
        ensures
            r@ == self@ + n,
    {
        self.scaled(1, n)
    }

    /// Whether the number is zero.
    pub fn is_zero(&self) -> (r: bool)
        ensures
            r == (self@ == 0),
    {
        self.order(&Natural::new(0)) == 0
    }
}

} // verus!
