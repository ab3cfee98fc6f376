use vstd::prelude::*;
use vstd::arithmetic::div_mod::lemma_fundamental_div_mod_converse;
use crate::utils::{
    bit_reverse, exp2, is_function1, is_function2, is_function3, is_power_of_two,
    lemma_exp2_adds, lemma_exp2_injective, lemma_exp2_monotone, lemma_exp2_pos,
    lemma_reverse_bits_bound, lemma_reverse_bits_involution, lemma_usize_bound,
    power_of_two_exponent, result_of1, result_of2, result_of3, reverse_bits, ConfigError,
};

verus! {

/// Stage `s` of the tables holds `2^s` entries.
pub open spec fn tables_shaped<T>(tables: Seq<Seq<T>>) -> bool {
    forall|s: int| 0 <= s < tables.len() ==> #[trigger] tables[s].len() == exp2(s as nat)
}

/// The twiddle tables of a transform over `2^stages` points: stage `s` serves
/// butterflies of length `L = 2^(s+1)` and holds `W_L^k` for `k < L/2`.
pub open spec fn twiddle_tables<T, G: Fn(usize, usize) -> T>(root: G, stages: nat) -> Seq<Seq<T>> {
    Seq::new(
        stages,
        |s: int| Seq::new(exp2(s as nat), |k: int| result_of2(root, k as usize, (2 * exp2(s as nat)) as usize)),
    )
}

/// `x` in bit-reversed order: position `p` holds `x[reverse_bits(p)]`.
pub open spec fn bit_reversed<T>(x: Seq<T>, bits: nat) -> Seq<T> {
    Seq::new(x.len(), |p: int| x[reverse_bits(p as nat, bits) as int])
}

/// One radix-2 stage: in each block of `2 * half` entries, entry `k` of the
/// lower half and entry `k` of the upper half go through the butterfly with
/// twiddle `tw[k]`, the first result staying below and the second above.
pub open spec fn butterfly_stage<T, B: Fn(T, T, T) -> (T, T)>(
    bf: B,
    x: Seq<T>,
    tw: Seq<T>,
    half: nat,
) -> Seq<T> {
    Seq::new(
        x.len(),
        |p: int|
            {
                let q = p % (2 * half) as int;
                if q < half {
                    result_of3(bf, x[p], x[p + half], tw[q]).0
                } else {
                    result_of3(bf, x[p - half], x[p], tw[q - half]).1
                }
            },
    )
}

/// The bit-reversal permutation followed by the first `count` stages.
pub open spec fn stages_applied<T, B: Fn(T, T, T) -> (T, T)>(
    bf: B,
    x: Seq<T>,
    tables: Seq<Seq<T>>,
    count: nat,
) -> Seq<T>
    decreases count,
{
    if count == 0 {
        bit_reversed(x, tables.len())
    } else {
        butterfly_stage(
            bf,
            stages_applied(bf, x, tables, (count - 1) as nat),
            tables[count - 1],
            exp2((count - 1) as nat),
        )
    }
}

/// The iterative Cooley-Tukey transform of `x` over the given twiddle tables.
pub open spec fn transform<T, B: Fn(T, T, T) -> (T, T)>(
    bf: B,
    x: Seq<T>,
    tables: Seq<Seq<T>>,
) -> Seq<T> {
    stages_applied(bf, x, tables, tables.len())
}

/// The transform of `x` with the twiddles that `root` generates.
pub open spec fn fft_spec<T, B: Fn(T, T, T) -> (T, T), G: Fn(usize, usize) -> T>(
    bf: B,
    root: G,
    x: Seq<T>,
    bits: nat,
) -> Seq<T> {
    transform(bf, x, twiddle_tables(root, bits))
}

/// Twiddle tables for every stage of a transform of one size, built once and
/// shared by every transform of that size.
pub struct TwiddleCache<T> {
    fft_size: usize,
    stages: Vec<Vec<T>>,
}

impl<T> View for TwiddleCache<T> {
    type V = Seq<Seq<T>>;

    closed spec fn view(&self) -> Seq<Seq<T>> {
        Seq::new(self.stages@.len(), |s: int| self.stages@[s]@)
    }
}

impl<T> TwiddleCache<T> {
    /// The number of points of the transform that the cache serves.
    pub closed spec fn size(&self) -> nat {
        self.fft_size as nat
    }

    /// One table per stage, `2^s` entries in stage `s`, and `2^stages` points.
    pub open spec fn wf(&self) -> bool {
        &&& self.size() == exp2(self@.len())
        &&& tables_shaped(self@)
    }
}

impl<T: Copy> TwiddleCache<T> {
    /// Builds the tables for a transform of `fft_size` points, taking `W_L^k`
    /// from `root(k, L)`.
    pub fn new<G: Fn(usize, usize) -> T>(fft_size: usize, root: &G) -> (r: Result<Self, ConfigError>)
        requires
            is_function2(*root),
        ensures
            r is Err <==> !is_power_of_two(fft_size as nat),
            r is Err ==> r == Err::<Self, ConfigError>(ConfigError::SizeNotPowerOfTwo),
            r matches Ok(c) ==> {
                &&& c.wf()
                &&& c.size() == fft_size
                &&& c@ == twiddle_tables(*root, c@.len())
            },
    {
        let bits = match power_of_two_exponent(fft_size) {
            Some(b) => b,
            None => return Err(ConfigError::SizeNotPowerOfTwo),
        };
        let mut stages: Vec<Vec<T>> = Vec::new();
        let mut half: usize = 1;
        proof {
            lemma_usize_bound();
        }
        while stages.len() < bits
            invariant
                exp2(bits as nat) == fft_size,
                stages.len() <= bits,
                half == exp2(stages.len() as nat),
                is_function2(*root),
                forall|s: int|
                    0 <= s < stages.len() ==> #[trigger] stages@[s]@ == twiddle_tables(
                        *root,
                        bits as nat,
                    )[s],
            decreases bits - stages.len(),
        {
            let s = stages.len();
            proof {
                lemma_exp2_monotone((s + 1) as nat, bits as nat);
            }
            let len = half * 2;
            let mut table: Vec<T> = Vec::new();
            let mut k: usize = 0;
            while k < half
                invariant
                    k <= half,
                    table.len() == k,
                    len == 2 * half,
                    is_function2(*root),
                    forall|i: int| 0 <= i < k ==> #[trigger] table@[i] == result_of2(*root, i as usize, len),
                decreases half - k,
            {
                let w = root(k, len);
                table.push(w);
                k = k + 1;
            }
            assert(table@ == twiddle_tables(*root, bits as nat)[s as int]);
            stages.push(table);
            half = len;
        }
        let cache = TwiddleCache { fft_size, stages };
        assert(cache@ =~= twiddle_tables(*root, bits as nat));
        Ok(cache)
    }

    /// The number of points of the transform that the cache serves.
    pub fn fft_size(&self) -> (r: usize)
        ensures
            r == self.size(),
    {
        self.fft_size
    }

    /// The number of stages, `log2` of the size.
    pub fn stages(&self) -> (r: usize)
        ensures
            r == self@.len(),
    {
        self.stages.len()
    }

    /// The table of stage `stage`.
    pub fn stage_twiddles(&self, stage: usize) -> (r: &[T])
        requires
            stage < self@.len(),
        ensures
            r@ == self@[stage as int],
    {
        self.stages[stage].as_slice()
    }
}

/// Reorders `input` in place into bit-reversed order, swapping each pair of
/// positions `i < j = bit_reverse(i)` once.
pub fn bit_reverse_permute<T: Copy>(input: &mut Vec<T>, bits: usize)
    requires
        old(input).len() == exp2(bits as nat),
        bits <= usize::BITS,
    ensures
        final(input)@ == bit_reversed(old(input)@, bits as nat),
{
    let n = input.len();
    let ghost x = input@;
    let mut i: usize = 0;
    while i < n
        invariant
            n == input.len() == x.len() == exp2(bits as nat),
            bits <= usize::BITS,
            i <= n,
            forall|p: int|
                0 <= p < n ==> #[trigger] input@[p] == if p < i || reverse_bits(p as nat, bits as nat)
                    < i {
                    x[reverse_bits(p as nat, bits as nat) as int]
                } else {
                    x[p]
                },
        decreases n - i,
    {
        let j = bit_reverse(i, bits);
        proof {
            lemma_reverse_bits_involution(i as nat, bits as nat);
        }
        if i < j {
            let a = input[i];
            let b = input[j];
            input.set(i, b);
            input.set(j, a);
        }
        proof {
            assert forall|p: int| 0 <= p < n implies #[trigger] input@[p] == if p < i + 1
                || reverse_bits(p as nat, bits as nat) < i + 1 {
                x[reverse_bits(p as nat, bits as nat) as int]
            } else {
                x[p]
            } by {
                lemma_reverse_bits_involution(p as nat, bits as nat);
                lemma_reverse_bits_bound(p as nat, bits as nat);
            }
        }
        i = i + 1;
    }
    assert(input@ =~= bit_reversed(x, bits as nat));
}

proof fn lemma_block_offset(b: nat, len: nat, r: nat)
    requires
        r < len,
    ensures
        ((b * len + r) as int) % (len as int) == r,
{
    lemma_fundamental_div_mod_converse((b * len + r) as int, len as int, b as int, r as int);
}

/// Runs one stage of butterflies of half-width `half` over `input` in place.
fn apply_stage<T: Copy, B: Fn(T, T, T) -> (T, T)>(
    input: &mut Vec<T>,
    twiddles: &[T],
    half: usize,
    butterfly: &B,
)
    requires
        is_function3(*butterfly),
        half >= 1,
        twiddles.len() == half,
        old(input).len() as int % (2 * half as int) == 0,
        old(input).len() >= 2 * half,
    ensures
        final(input)@ == butterfly_stage(*butterfly, old(input)@, twiddles@, half as nat),
{
    let ghost x = input@;
    let ghost target = butterfly_stage(*butterfly, x, twiddles@, half as nat);
    let n = input.len();
    let len = half * 2;
    let blocks = n / len;
    proof {
        vstd::arithmetic::div_mod::lemma_fundamental_div_mod(n as int, len as int);
        assert(n == blocks * len) by (nonlinear_arith)
            requires
                n == len * blocks + 0,
        ;
    }
    let mut b: usize = 0;
    while b < blocks
        invariant
            n == input.len() == x.len(),
            len == 2 * half,
            half >= 1,
            twiddles.len() == half,
            is_function3(*butterfly),
            target == butterfly_stage(*butterfly, x, twiddles@, half as nat),
            n == blocks * len,
            b <= blocks,
            forall|p: int|
                0 <= p < n ==> #[trigger] input@[p] == if p < b * len {
                    target[p]
                } else {
                    x[p]
                },
        decreases blocks - b,
    {
        proof {
            assert((b + 1) * len <= blocks * len) by (nonlinear_arith)
                requires
                    b + 1 <= blocks,
            ;
            assert((b + 1) * len == b * len + len) by (nonlinear_arith);
        }
        let start = b * len;
        let mut k: usize = 0;
        while k < half
            invariant
                n == input.len() == x.len(),
                len == 2 * half,
                twiddles.len() == half,
                is_function3(*butterfly),
                target == butterfly_stage(*butterfly, x, twiddles@, half as nat),
                start == b * len,
                start + len <= n,
                k <= half,
                forall|p: int|
                    0 <= p < n ==> #[trigger] input@[p] == if p < start || (start <= p < start + k)
                        || (start + half <= p < start + half + k) {
                        target[p]
                    } else {
                        x[p]
                    },
            decreases half - k,
        {
            let i = start + k;
            let j = i + half;
            proof {
                lemma_block_offset(b as nat, len as nat, k as nat);
                lemma_block_offset(b as nat, len as nat, (half + k) as nat);
                assert(j == b * len + (half + k));
            }
            let (upper, lower) = butterfly(input[i], input[j], twiddles[k]);
            input.set(i, upper);
            input.set(j, lower);
            k = k + 1;
        }
        b = b + 1;
    }
    assert(input@ =~= target);
}

/// Transforms `input` in place with the twiddles of `cache`: the forward DFT,
/// in natural order, where `butterfly(a, b, w)` is `(a + w*b, a - w*b)`.
pub fn fft_with_cache<T: Copy, B: Fn(T, T, T) -> (T, T)>(
    input: &mut Vec<T>,
    cache: &TwiddleCache<T>,
    butterfly: &B,
)
    requires
        cache.wf(),
        old(input).len() == cache.size(),
        is_function3(*butterfly),
    ensures
        final(input).len() == old(input).len(),
        final(input)@ == transform(*butterfly, old(input)@, cache@),
{
    let ghost x = input@;
    let n = input.len();
    let bits = cache.stages();
    proof {
        lemma_usize_bound();
        if bits > usize::BITS {
            lemma_exp2_monotone((usize::BITS + 1) as nat, bits as nat);
        }
    }
    bit_reverse_permute(input, bits);
    let mut half: usize = 1;
    let mut stage: usize = 0;
    while half < n
        invariant
            cache.wf(),
            n == cache.size() == input.len() == x.len(),
            n == exp2(bits as nat),
            bits == cache@.len(),
            stage <= bits,
            half == exp2(stage as nat),
            is_function3(*butterfly),
            input@ == stages_applied(*butterfly, x, cache@, stage as nat),
        decreases bits - stage,
    {
        proof {
            if stage >= bits {
                lemma_exp2_monotone(bits as nat, stage as nat);
            }
            lemma_exp2_monotone((stage + 1) as nat, bits as nat);
            let rest = (bits - stage - 1) as nat;
            lemma_exp2_adds(rest, (stage + 1) as nat);
            assert(rest + (stage + 1) == bits);
            lemma_exp2_pos(rest);
            lemma_exp2_pos(stage as nat);
            assert(exp2((stage + 1) as nat) == 2 * half);
            assert(n as int % (2 * half as int) == 0) by {
                vstd::arithmetic::div_mod::lemma_mod_multiples_basic(
                    exp2(rest) as int,
                    2 * half as int,
                );
            }
        }
        let twiddles = cache.stage_twiddles(stage);
        apply_stage(input, twiddles, half, butterfly);
        half = half * 2;
        stage = stage + 1;
    }
    proof {
        if stage < bits {
            lemma_exp2_monotone((stage + 1) as nat, bits as nat);
            lemma_exp2_pos(stage as nat);
        }
    }
}

/// The inverse transform of `x`: conjugate every entry, transform, then
/// conjugate again and scale every entry down by the number of points.
pub open spec fn ifft_spec<
    T,
    B: Fn(T, T, T) -> (T, T),
    G: Fn(usize, usize) -> T,
    C: Fn(T) -> T,
    S: Fn(T, usize) -> T,
>(bf: B, root: G, conjugate: C, scale_down: S, x: Seq<T>, bits: nat) -> Seq<T> {
    let y = fft_spec(bf, root, Seq::new(x.len(), |i: int| result_of1(conjugate, x[i])), bits);
    Seq::new(x.len(), |i: int| result_of2(scale_down, result_of1(conjugate, y[i]), x.len() as usize))
}

/// Transforms `input` in place with twiddles built for its length, which must
/// be a power of two; `root(k, L)` gives `W_L^k`. On error `input` is left
/// as it was.
pub fn fft<T: Copy, G: Fn(usize, usize) -> T, B: Fn(T, T, T) -> (T, T)>(
    input: &mut Vec<T>,
    root: &G,
    butterfly: &B,
) -> (r: Result<(), ConfigError>)
    requires
        is_function2(*root),
        is_function3(*butterfly),
    ensures
        final(input).len() == old(input).len(),
        r is Err <==> !is_power_of_two(old(input).len() as nat),
        r is Err ==> r == Err::<(), ConfigError>(ConfigError::SizeNotPowerOfTwo) && final(input)@
            == old(input)@,
        forall|bits: nat|
            exp2(bits) == old(input).len() ==> final(input)@ == fft_spec(
                *butterfly,
                *root,
                old(input)@,
                bits,
            ),
{
    match TwiddleCache::new(input.len(), root) {
        Err(e) => Err(e),
        Ok(cache) => {
            let ghost x = input@;
            fft_with_cache(input, &cache, butterfly);
            proof {
                assert forall|bits: nat| exp2(bits) == x.len() implies input@ == fft_spec(
                    *butterfly,
                    *root,
                    x,
                    bits,
                ) by {
                    lemma_exp2_injective(bits, cache@.len());
                }
            }
            Ok(())
        },
    }
}

/// Inverse transform in place: conjugates every entry, runs [`fft`], then
/// conjugates again and divides by the number of points through
/// `scale_down(value, n)`. On error `input` is left as it was.
pub fn ifft<
    T: Copy,
    G: Fn(usize, usize) -> T,
    B: Fn(T, T, T) -> (T, T),
    C: Fn(T) -> T,
    S: Fn(T, usize) -> T,
>(input: &mut Vec<T>, root: &G, butterfly: &B, conjugate: &C, scale_down: &S) -> (r: Result<
    (),
    ConfigError,
>)
    requires
        is_function2(*root),
        is_function3(*butterfly),
        is_function1(*conjugate),
        is_function2(*scale_down),
    ensures
        final(input).len() == old(input).len(),
        r is Err <==> !is_power_of_two(old(input).len() as nat),
        r is Err ==> r == Err::<(), ConfigError>(ConfigError::SizeNotPowerOfTwo) && final(input)@
            == old(input)@,
        forall|bits: nat|
            exp2(bits) == old(input).len() ==> final(input)@ == ifft_spec(
                *butterfly,
                *root,
                *conjugate,
                *scale_down,
                old(input)@,
                bits,
            ),
{
    let n = input.len();
    if power_of_two_exponent(n).is_none() {
        return Err(ConfigError::SizeNotPowerOfTwo);
    }
    let ghost x = input@;
    let mut i: usize = 0;
    while i < n
        invariant
            n == input.len() == x.len(),
            i <= n,
            is_function1(*conjugate),
            forall|p: int|
                0 <= p < n ==> #[trigger] input@[p] == if p < i {
                    result_of1(*conjugate, x[p])
                } else {
                    x[p]
                },
        decreases n - i,
    {
        let c = conjugate(input[i]);
        input.set(i, c);
        i = i + 1;
    }
    let ghost conjugated = input@;
    assert(conjugated =~= Seq::new(x.len(), |p: int| result_of1(*conjugate, x[p])));
    let r = fft(input, root, butterfly);
    let ghost y = input@;
    let mut i: usize = 0;
    while i < n
        invariant
            n == input.len() == y.len(),
            i <= n,
            is_function1(*conjugate),
            is_function2(*scale_down),
            forall|p: int|
                0 <= p < n ==> #[trigger] input@[p] == if p < i {
                    result_of2(*scale_down, result_of1(*conjugate, y[p]), n)
                } else {
                    y[p]
                },
        decreases n - i,
    {
        let c = conjugate(input[i]);
        let s = scale_down(c, n);
        input.set(i, s);
        i = i + 1;
    }
    proof {
        assert forall|bits: nat| exp2(bits) == x.len() implies input@ == ifft_spec(
            *butterfly,
            *root,
            *conjugate,
            *scale_down,
            x,
            bits,
        ) by {
            assert(input@ =~= ifft_spec(*butterfly, *root, *conjugate, *scale_down, x, bits));
        }
    }
    r
}

/// A transform through a cache built from `root` equals the one-shot
/// transform that builds its twiddles from `root` itself.
pub proof fn lemma_cached_matches_one_shot<T, B: Fn(T, T, T) -> (T, T), G: Fn(usize, usize) -> T>(
    bf: B,
    root: G,
    cache: TwiddleCache<T>,
    x: Seq<T>,
    bits: nat,
)
    requires
        cache.wf(),
        cache@ == twiddle_tables(root, cache@.len()),
        x.len() == cache.size(),
        exp2(bits) == x.len(),
    ensures
        transform(bf, x, cache@) == fft_spec(bf, root, x, bits),
{
    lemma_exp2_injective(bits, cache@.len());
}

} // verus!
