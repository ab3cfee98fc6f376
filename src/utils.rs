use vstd::prelude::*;

verus! {

/// A configuration that the transform or the processor cannot run with.
#[derive(Debug, Clone, Copy, PartialEq, Eq, Structural)]
pub enum ConfigError {
    /// The transform size is not a power of two.
    SizeNotPowerOfTwo,
    /// A time or frequency stride is below one.
    StrideBelowOne,
}

/// What a deterministic function of one argument returns on `a`.
pub open spec fn result_of1<A, R, F: Fn(A) -> R>(f: F, a: A) -> R {
    choose|r: R| f.ensures((a,), r)
}

/// `f` accepts every argument and has one result for each.
pub open spec fn is_function1<A, R, F: Fn(A) -> R>(f: F) -> bool {
    &&& forall|a: A| #[trigger] f.requires((a,))
    &&& forall|a: A, r1: R, r2: R|
        #![trigger f.ensures((a,), r1), f.ensures((a,), r2)]
        f.ensures((a,), r1) && f.ensures((a,), r2) ==> r1 == r2
}

/// What a deterministic function of two arguments returns on `(a, b)`.
pub open spec fn result_of2<A, B, R, F: Fn(A, B) -> R>(f: F, a: A, b: B) -> R {
    choose|r: R| f.ensures((a, b), r)
}

/// `f` accepts every pair of arguments and has one result for each.
pub open spec fn is_function2<A, B, R, F: Fn(A, B) -> R>(f: F) -> bool {
    &&& forall|a: A, b: B| #[trigger] f.requires((a, b))
    &&& forall|a: A, b: B, r1: R, r2: R|
        #![trigger f.ensures((a, b), r1), f.ensures((a, b), r2)]
        f.ensures((a, b), r1) && f.ensures((a, b), r2) ==> r1 == r2
}

/// What a deterministic function of three arguments returns on `(a, b, c)`.
pub open spec fn result_of3<A, B, C, R, F: Fn(A, B, C) -> R>(f: F, a: A, b: B, c: C) -> R {
    choose|r: R| f.ensures((a, b, c), r)
}

/// `f` accepts every triple of arguments and has one result for each.
pub open spec fn is_function3<A, B, C, R, F: Fn(A, B, C) -> R>(f: F) -> bool {
    &&& forall|a: A, b: B, c: C| #[trigger] f.requires((a, b, c))
    &&& forall|a: A, b: B, c: C, r1: R, r2: R|
        #![trigger f.ensures((a, b, c), r1), f.ensures((a, b, c), r2)]
        f.ensures((a, b, c), r1) && f.ensures((a, b, c), r2) ==> r1 == r2
}

/// Two to the power `e`.
pub open spec fn exp2(e: nat) -> nat
    decreases e,
{
    if e == 0 {
        1
    } else {
        2 * exp2((e - 1) as nat)
    }
}

/// The low `bits` bits of `x`, read in reverse order.
pub open spec fn reverse_bits(x: nat, bits: nat) -> nat
    decreases bits,
{
    if bits == 0 {
        0
    } else {
        (x % 2) * exp2((bits - 1) as nat) + reverse_bits(x / 2, (bits - 1) as nat)
    }
}

pub proof fn lemma_exp2_pos(e: nat)
    ensures
        exp2(e) >= 1,
    decreases e,
{
    if e > 0 {
        lemma_exp2_pos((e - 1) as nat);
    }
}

pub proof fn lemma_exp2_adds(a: nat, b: nat)
    ensures
        exp2(a + b) == exp2(a) * exp2(b),
    decreases a,
{
    if a > 0 {
        lemma_exp2_adds((a - 1) as nat, b);
        let c = (a - 1) as nat;
        assert(c + b == (a + b - 1) as nat);
        assert(exp2(a + b) == 2 * exp2(c + b));
        assert(exp2(a) * exp2(b) == 2 * (exp2((a - 1) as nat) * exp2(b))) by (nonlinear_arith)
            requires
                exp2(a) == 2 * exp2((a - 1) as nat),
        ;
    } else {
        assert(a + b == b);
        assert(exp2(a) == 1);
        assert(exp2(a) * exp2(b) == exp2(b));
    }
}

pub proof fn lemma_exp2_monotone(a: nat, b: nat)
    requires
        a <= b,
    ensures
        exp2(a) <= exp2(b),
    decreases b,
{
    if a < b {
        lemma_exp2_monotone(a, (b - 1) as nat);
        lemma_exp2_pos((b - 1) as nat);
    }
}

pub proof fn lemma_exp2_exceeds(e: nat)
    ensures
        exp2(e) > e,
    decreases e,
{
    if e > 0 {
        lemma_exp2_exceeds((e - 1) as nat);
    }
}

pub proof fn lemma_exp2_injective(a: nat, b: nat)
    requires
        exp2(a) == exp2(b),
    ensures
        a == b,
{
    if a < b {
        lemma_exp2_monotone(a + 1, b);
        lemma_exp2_pos(a);
    } else if b < a {
        lemma_exp2_monotone(b + 1, a);
        lemma_exp2_pos(b);
    }
}

/// `exp2` agrees with vstd's power of two.
proof fn lemma_exp2_is_pow2(e: nat)
    ensures
        exp2(e) == vstd::arithmetic::power2::pow2(e),
    decreases e,
{
    if e > 0 {
        vstd::arithmetic::power2::lemma_pow2_unfold(e);
        lemma_exp2_is_pow2((e - 1) as nat);
    } else {
        vstd::arithmetic::power2::lemma2_to64();
    }
}

/// Every `usize` lies below two to the power of its width.
pub proof fn lemma_usize_bound()
    ensures
        exp2(usize::BITS as nat) == usize::MAX + 1,
{
    vstd::layout::unsigned_int_max_values();
    lemma_exp2_is_pow2(usize::BITS as nat);
    vstd::arithmetic::power2::lemma_pow2_pos(usize::BITS as nat);
}

/// A bit reversal over `bits` bits stays below `2^bits`.
pub proof fn lemma_reverse_bits_bound(x: nat, bits: nat)
    ensures
        reverse_bits(x, bits) < exp2(bits),
    decreases bits,
{
    if bits > 0 {
        let e = exp2((bits - 1) as nat);
        lemma_reverse_bits_bound(x / 2, (bits - 1) as nat);
        assert((x % 2) * e <= e) by (nonlinear_arith)
            requires
                x % 2 <= 1,
        ;
    }
}

/// Reversing `k + m` bits of `lo + 2^k * hi` puts the reversed `lo` above the
/// reversed `hi`.
pub proof fn lemma_reverse_bits_split(lo: nat, hi: nat, k: nat, m: nat)
    requires
        lo < exp2(k),
    ensures
        reverse_bits(lo + exp2(k) * hi, k + m) == reverse_bits(lo, k) * exp2(m) + reverse_bits(
            hi,
            m,
        ),
    decreases k,
{
    let x = lo + exp2(k) * hi;
    if k == 0 {
        assert(exp2(0) == 1);
        assert(exp2(k) == 1);
        assert(lo == 0);
        assert(exp2(k) * hi == hi);
        assert(x == hi);
        assert(reverse_bits(lo, k) == 0);
        assert(k + m == m);
    } else {
        let k1 = (k - 1) as nat;
        let e = exp2(k1);
        assert(exp2(k) == 2 * e);
        assert(x == (lo % 2) + 2 * (lo / 2 + e * hi)) by (nonlinear_arith)
            requires
                x == lo + (2 * e) * hi,
        ;
        assert(x % 2 == lo % 2 && x / 2 == lo / 2 + e * hi) by (nonlinear_arith)
            requires
                x == (lo % 2) + 2 * (lo / 2 + e * hi),
                lo % 2 < 2,
        ;
        assert(lo / 2 < e) by (nonlinear_arith)
            requires
                lo < 2 * e,
        ;
        lemma_reverse_bits_split(lo / 2, hi, k1, m);
        assert(k1 + m == (k + m - 1) as nat);
        lemma_exp2_adds(k1, m);
        assert(reverse_bits(x, k + m) == (x % 2) * exp2(k1 + m) + reverse_bits(x / 2, k1 + m));
        assert(reverse_bits(lo, k) == (lo % 2) * e + reverse_bits(lo / 2, k1));
        let r = reverse_bits(lo / 2, k1);
        assert((lo % 2) * (e * exp2(m)) + r * exp2(m) == ((lo % 2) * e + r) * exp2(m))
            by (nonlinear_arith);
    }
}

/// Reversing the bits of a value below `2^bits` twice gives it back.
pub proof fn lemma_reverse_bits_involution(x: nat, bits: nat)
    requires
        x < exp2(bits),
    ensures
        reverse_bits(reverse_bits(x, bits), bits) == x,
    decreases bits,
{
    if bits > 0 {
        let b1 = (bits - 1) as nat;
        let e = exp2(b1);
        assert(x / 2 < e) by (nonlinear_arith)
            requires
                x < 2 * e,
        ;
        let lo = reverse_bits(x / 2, b1);
        lemma_reverse_bits_bound(x / 2, b1);
        lemma_reverse_bits_involution(x / 2, b1);
        assert(reverse_bits(x, bits) == lo + e * (x % 2));
        lemma_reverse_bits_split(lo, x % 2, b1, 1);
        assert(b1 + 1 == bits);
        assert(exp2(1) == 2);
        let d = x % 2;
        assert(exp2(0) == 1);
        assert(reverse_bits(d, 1) == (d % 2) * exp2(0) + reverse_bits(d / 2, 0));
        assert(reverse_bits(d / 2, 0) == 0);
        assert((d % 2) * exp2(0) == d % 2);
        assert(d < 2 && d % 2 == d);
        assert(reverse_bits(d, 1) == d);
    }
}

/// Whether `n` is a power of two.
pub open spec fn is_power_of_two(n: nat) -> bool {
    exists|k: nat| exp2(k) == n
}

proof fn lemma_odd_multiple_not_power(m: nat, k: nat, j: nat)
    requires
        m > 1,
        m % 2 == 1,
    ensures
        exp2(j) != m * exp2(k),
{
    if exp2(j) == m * exp2(k) {
        lemma_exp2_pos(k);
        if j < k {
            lemma_exp2_monotone(j, k);
            assert(m * exp2(k) > exp2(k)) by (nonlinear_arith)
                requires
                    m > 1,
                    exp2(k) >= 1,
            ;
        } else {
            let d = (j - k) as nat;
            lemma_exp2_adds(d, k);
            assert(d + k == j);
            assert(exp2(d) == m) by (nonlinear_arith)
                requires
                    exp2(d) * exp2(k) == m * exp2(k),
                    exp2(k) >= 1,
            ;
            if d == 0 {
                assert(exp2(d) == 1);
            } else {
                assert(exp2(d) == 2 * exp2((d - 1) as nat));
            }
        }
    }
}

/// The exponent `k` with `n == 2^k`, or `None` where `n` is not a power of two.
pub fn power_of_two_exponent(n: usize) -> (r: Option<usize>)
    ensures
        r matches Some(k) ==> exp2(k as nat) == n,
        r is None <==> !is_power_of_two(n as nat),
{
    if n == 0 {
        assert forall|j: nat| exp2(j) != 0 by {
            lemma_exp2_pos(j);
        }
        return None;
    }
    let mut m: usize = n;
    let mut k: usize = 0;
    assert(exp2(0) == 1);
    assert(n == m * exp2(0));
    while m % 2 == 0
        invariant
            1 <= m <= n,
            k <= n,
            n == m * exp2(k as nat),
        decreases m,
    {
        proof {
            lemma_exp2_pos(k as nat);
            assert(m * exp2(k as nat) >= m * 1) by (nonlinear_arith)
                requires
                    exp2(k as nat) >= 1,
            ;
            lemma_exp2_exceeds(k as nat);
            assert((m / 2) * exp2(k as nat + 1) == m * exp2(k as nat)) by (nonlinear_arith)
                requires
                    exp2(k as nat + 1) == 2 * exp2(k as nat),
                    m % 2 == 0,
            ;
            assert(k + 1 <= n) by (nonlinear_arith)
                requires
                    n == m * exp2(k as nat),
                    m >= 2,
                    exp2(k as nat) >= k + 1,
            ;
            assert(exp2((k + 1) as nat) == exp2(k as nat + 1));
        }
        m = m / 2;
        k = k + 1;
    }
    if m == 1 {
        Some(k)
    } else {
        assert forall|j: nat| exp2(j) != n by {
            lemma_odd_multiple_not_power(m as nat, k as nat, j);
        }
        None
    }
}

/// Reverses the low `bits` bits of `x`; bits of `x` above them are ignored.
pub fn bit_reverse(x: usize, bits: usize) -> (r: usize)
    requires
        bits <= usize::BITS,
    ensures
        r == reverse_bits(x as nat, bits as nat),
        r < exp2(bits as nat),
{
    let mut rest_bits = x;
    let mut result: usize = 0;
    let mut done: usize = 0;
    proof {
        lemma_usize_bound();
        lemma_exp2_monotone(bits as nat, usize::BITS as nat);
        lemma_reverse_bits_bound(x as nat, bits as nat);
    }
    while done < bits
        invariant
            done <= bits <= usize::BITS,
            exp2(bits as nat) <= usize::MAX + 1,
            result < exp2(done as nat),
            reverse_bits(x as nat, bits as nat) == result * exp2((bits - done) as nat)
                + reverse_bits(rest_bits as nat, (bits - done) as nat),
        decreases bits - done,
    {
        proof {
            let rest = (bits - done - 1) as nat;
            lemma_exp2_monotone((done + 1) as nat, bits as nat);
            let v = rest_bits as nat;
            assert(reverse_bits(v, rest + 1) == (v % 2) * exp2(rest) + reverse_bits(v / 2, rest));
            assert(result * exp2(rest + 1) == (2 * result) * exp2(rest)) by (nonlinear_arith)
                requires
                    exp2(rest + 1) == 2 * exp2(rest),
            ;
            assert((2 * result) * exp2(rest) + (v % 2) * exp2(rest) == (2 * result + v % 2)
                * exp2(rest)) by (nonlinear_arith);
        }
        result = result * 2 + rest_bits % 2;
        rest_bits = rest_bits / 2;
        done = done + 1;
    }
    assert(exp2(0) == 1);
    assert(result * exp2(0) == result);
    result
}

} // verus!
