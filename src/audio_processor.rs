use vstd::prelude::*;
use crate::fft::{fft_with_cache, transform, twiddle_tables, TwiddleCache};
use crate::hann_window::{apply_hann_window, windowed};
use crate::utils::{
    exp2, is_function1, is_function2, is_function3, is_power_of_two, lemma_exp2_pos, result_of1,
    ConfigError,
};

verus! {

/// The number of full windows of `n` samples, `hop` apart, in `len` samples;
/// trailing samples that do not fill a window are left out.
pub open spec fn window_count(len: nat, n: nat, hop: nat) -> nat {
    if len < n || hop == 0 {
        0
    } else {
        ((len - n) as nat / hop + 1) as nat
    }
}

/// `a / b` rounded up.
pub open spec fn ceil_div(a: nat, b: nat) -> nat {
    if a == 0 || b == 0 {
        0
    } else {
        ((a - 1) as nat / b + 1) as nat
    }
}

/// The `n` samples of window `w`, which starts at `w * hop`.
pub open spec fn window_at<S>(samples: Seq<S>, n: nat, hop: nat, w: nat) -> Seq<S> {
    samples.subrange((w * hop) as int, (w * hop + n) as int)
}

/// Every `stride`-th entry of `x`, from the first.
pub open spec fn decimated<M>(x: Seq<M>, stride: nat) -> Seq<M> {
    Seq::new(ceil_div(x.len(), stride), |i: int| x[i * stride])
}

/// The closures that a processor runs on samples: `lift` turns a sample into
/// a complex value with no imaginary part, `weigh` applies the Hann
/// coefficient of a position, `bf` is the butterfly and `magnitude` measures
/// one bin.
pub open spec fn kernels_ok<
    S,
    T,
    M,
    L: Fn(S) -> T,
    W: Fn(T, usize, usize) -> T,
    B: Fn(T, T, T) -> (T, T),
    G: Fn(T) -> M,
>(lift: L, weigh: W, bf: B, magnitude: G) -> bool {
    &&& is_function1(lift)
    &&& is_function3(weigh)
    &&& is_function3(bf)
    &&& is_function1(magnitude)
}

/// The magnitude spectrum of window `w`: its samples lifted, windowed and
/// transformed, then the magnitudes of the first half of the bins.
pub open spec fn spectrum<
    S,
    T,
    M,
    L: Fn(S) -> T,
    W: Fn(T, usize, usize) -> T,
    B: Fn(T, T, T) -> (T, T),
    G: Fn(T) -> M,
>(lift: L, weigh: W, bf: B, magnitude: G, tables: Seq<Seq<T>>, w: Seq<S>) -> Seq<M> {
    let z = transform(bf, windowed(weigh, Seq::new(w.len(), |i: int| result_of1(lift, w[i]))), tables);
    Seq::new(w.len() / 2, |i: int| result_of1(magnitude, z[i]))
}

/// The spectra of windows `0, ts, 2*ts, ...`, the first `count` of them, each
/// cut down to every `fs`-th bin, one after another.
pub open spec fn spectrogram_rows<
    S,
    T,
    M,
    L: Fn(S) -> T,
    W: Fn(T, usize, usize) -> T,
    B: Fn(T, T, T) -> (T, T),
    G: Fn(T) -> M,
>(
    lift: L,
    weigh: W,
    bf: B,
    magnitude: G,
    tables: Seq<Seq<T>>,
    samples: Seq<S>,
    n: nat,
    hop: nat,
    ts: nat,
    fs: nat,
    count: nat,
) -> Seq<M>
    decreases count,
{
    if count == 0 {
        Seq::empty()
    } else {
        let w = window_at(samples, n, hop, ((count - 1) * ts) as nat);
        spectrogram_rows(lift, weigh, bf, magnitude, tables, samples, n, hop, ts, fs, (count - 1) as nat)
            + decimated(spectrum(lift, weigh, bf, magnitude, tables, w), fs)
    }
}

/// Turns windows of samples into magnitude spectra with one transform size,
/// reusing its twiddle cache and its working buffer on every window. One
/// instance must not be used from two threads at once.
pub struct SpectrogramProcessor<T> {
    fft_size: usize,
    twiddle_cache: TwiddleCache<T>,
    buffer: Vec<T>,
    time_stride: usize,
    freq_stride: usize,
}

impl<T> SpectrogramProcessor<T> {
    /// The transform size.
    pub closed spec fn size(&self) -> nat {
        self.fft_size as nat
    }

    /// The twiddle tables of the owned cache.
    pub closed spec fn tables(&self) -> Seq<Seq<T>> {
        self.twiddle_cache@
    }

    /// The step between the windows that a batch keeps.
    pub closed spec fn spec_time_stride(&self) -> nat {
        self.time_stride as nat
    }

    /// The step between the bins that a batch keeps.
    pub closed spec fn spec_freq_stride(&self) -> nat {
        self.freq_stride as nat
    }

    /// The cache serves the size, the buffer holds one window, strides are at
    /// least one.
    pub closed spec fn wf(&self) -> bool {
        &&& self.twiddle_cache.wf()
        &&& self.twiddle_cache.size() == self.fft_size
        &&& self.buffer.len() == self.fft_size
        &&& self.time_stride >= 1
        &&& self.freq_stride >= 1
    }

    /// The size is `2^k` for the `k` tables of the cache.
    pub proof fn lemma_wf(&self)
        requires
            self.wf(),
        ensures
            self.size() == exp2(self.tables().len()),
            self.spec_time_stride() >= 1,
            self.spec_freq_stride() >= 1,
    {
    }
}

impl<T: Copy> SpectrogramProcessor<T> {
    /// A processor for windows of `fft_size` samples, with a zeroed buffer,
    /// the twiddle cache for that size (`root(k, L)` gives `W_L^k`) and both
    /// strides at one. Fails where `fft_size` is not a power of two.
    pub fn new<R: Fn(usize, usize) -> T>(fft_size: usize, zero: T, root: &R) -> (r: Result<
        Self,
        ConfigError,
    >)
        requires
            is_function2(*root),
        ensures
            r is Err <==> !is_power_of_two(fft_size as nat),
            r is Err ==> r == Err::<Self, ConfigError>(ConfigError::SizeNotPowerOfTwo),
            r matches Ok(p) ==> {
                &&& p.wf()
                &&& p.size() == fft_size
                &&& p.tables() == twiddle_tables(*root, p.tables().len())
                &&& p.spec_time_stride() == 1
                &&& p.spec_freq_stride() == 1
            },
    {
        let twiddle_cache = match TwiddleCache::new(fft_size, root) {
            Ok(c) => c,
            Err(e) => return Err(e),
        };
        let mut buffer: Vec<T> = Vec::new();
        while buffer.len() < fft_size
            invariant
                buffer.len() <= fft_size,
            decreases fft_size - buffer.len(),
        {
            buffer.push(zero);
        }
        Ok(SpectrogramProcessor { fft_size, twiddle_cache, buffer, time_stride: 1, freq_stride: 1 })
    }

    /// The transform size.
    pub fn fft_size(&self) -> (r: usize)
        ensures
            r == self.size(),
    {
        self.fft_size
    }

    /// The step between the windows that a batch keeps.
    pub fn time_stride(&self) -> (r: usize)
        ensures
            r == self.spec_time_stride(),
    {
        self.time_stride
    }

    /// The step between the bins that a batch keeps.
    pub fn freq_stride(&self) -> (r: usize)
        ensures
            r == self.spec_freq_stride(),
    {
        self.freq_stride
    }

    /// Sets both strides; fails, changing nothing, where either is below one.
    pub fn set_strides(&mut self, time_stride: usize, freq_stride: usize) -> (r: Result<
        (),
        ConfigError,
    >)
        requires
            old(self).wf(),
        ensures
            final(self).wf(),
            final(self).size() == old(self).size(),
            final(self).tables() == old(self).tables(),
            r is Err <==> time_stride < 1 || freq_stride < 1,
            r is Err ==> r == Err::<(), ConfigError>(ConfigError::StrideBelowOne),
            r is Err ==> final(self).spec_time_stride() == old(self).spec_time_stride(),
            r is Err ==> final(self).spec_freq_stride() == old(self).spec_freq_stride(),
            r is Ok ==> final(self).spec_time_stride() == time_stride,
            r is Ok ==> final(self).spec_freq_stride() == freq_stride,
    {
        if time_stride < 1 || freq_stride < 1 {
            return Err(ConfigError::StrideBelowOne);
        }
        self.time_stride = time_stride;
        self.freq_stride = freq_stride;
        Ok(())
    }

    /// This processor with both strides set; fails where either is below one.
    pub fn with_strides(self, time_stride: usize, freq_stride: usize) -> (r: Result<
        Self,
        ConfigError,
    >)
        requires
            self.wf(),
        ensures
            r is Err <==> time_stride < 1 || freq_stride < 1,
            r is Err ==> r == Err::<Self, ConfigError>(ConfigError::StrideBelowOne),
            r matches Ok(p) ==> {
                &&& p.wf()
                &&& p.size() == self.size()
                &&& p.tables() == self.tables()
                &&& p.spec_time_stride() == time_stride
                &&& p.spec_freq_stride() == freq_stride
            },
    {
        let mut p = self;
        match p.set_strides(time_stride, freq_stride) {
            Ok(()) => Ok(p),
            Err(e) => Err(e),
        }
    }
}

impl<T: Copy> SpectrogramProcessor<T> {
    /// The spectrum of the window of `samples` that starts at `start`,
    /// computed in the working buffer.
    fn spectrum_at<
        S: Copy,
        M: Copy,
        L: Fn(S) -> T,
        W: Fn(T, usize, usize) -> T,
        B: Fn(T, T, T) -> (T, T),
        G: Fn(T) -> M,
    >(
        &mut self,
        samples: &[S],
        start: usize,
        lift: &L,
        weigh: &W,
        butterfly: &B,
        magnitude: &G,
    ) -> (r: Vec<M>)
        requires
            old(self).wf(),
            start + old(self).size() <= samples.len(),
            kernels_ok(*lift, *weigh, *butterfly, *magnitude),
        ensures
            final(self).wf(),
            final(self).size() == old(self).size(),
            final(self).tables() == old(self).tables(),
            final(self).spec_time_stride() == old(self).spec_time_stride(),
            final(self).spec_freq_stride() == old(self).spec_freq_stride(),
            r@ == spectrum(
                *lift,
                *weigh,
                *butterfly,
                *magnitude,
                old(self).tables(),
                samples@.subrange(start as int, start + old(self).size()),
            ),
    {
        let n = self.fft_size;
        let ghost w = samples@.subrange(start as int, start + n);
        let ghost cache = self.twiddle_cache;
        let ghost ts = self.time_stride;
        let ghost fs = self.freq_stride;
        let mut i: usize = 0;
        while i < n
            invariant
                self.fft_size == n,
                self.buffer.len() == n,
                self.twiddle_cache == cache,
                self.time_stride == ts,
                self.freq_stride == fs,
                start + n <= samples.len(),
                w == samples@.subrange(start as int, start + n),
                i <= n,
                is_function1(*lift),
                forall|p: int| 0 <= p < i ==> #[trigger] self.buffer@[p] == result_of1(*lift, w[p]),
            decreases n - i,
        {
            let v = lift(samples[start + i]);
            self.buffer.set(i, v);
            i = i + 1;
        }
        assert(self.buffer@ =~= Seq::new(w.len(), |p: int| result_of1(*lift, w[p])));
        apply_hann_window(&mut self.buffer, weigh);
        fft_with_cache(&mut self.buffer, &self.twiddle_cache, butterfly);
        let half = n / 2;
        let mut out: Vec<M> = Vec::new();
        while out.len() < half
            invariant
                self.buffer.len() == n,
                half == n / 2,
                out.len() <= half,
                is_function1(*magnitude),
                forall|p: int|
                    0 <= p < out.len() ==> #[trigger] out@[p] == result_of1(*magnitude, self.buffer@[p]),
            decreases half - out.len(),
        {
            let m = magnitude(self.buffer[out.len()]);
            out.push(m);
        }
        assert(out@ =~= spectrum(*lift, *weigh, *butterfly, *magnitude, cache@, w));
        out
    }
}

/// `ceil(a / b)` is the least multiple count of `b` that reaches `a`.
pub proof fn lemma_ceil_div(a: nat, b: nat)
    requires
        b >= 1,
    ensures
        ceil_div(a, b) * b >= a,
        ceil_div(a, b) >= 1 ==> (ceil_div(a, b) - 1) * b < a,
{
    if a > 0 {
        let r = ceil_div(a, b);
        let q = (a - 1) as nat / b;
        vstd::arithmetic::div_mod::lemma_fundamental_div_mod((a - 1) as int, b as int);
        assert(r * b >= a) by (nonlinear_arith)
            requires
                (a - 1) as int == b * q + (a - 1) as int % b as int,
                (a - 1) as int % b as int <= b - 1,
                r == q + 1,
        ;
        assert((r - 1) * b < a) by (nonlinear_arith)
            requires
                (a - 1) as int == b * q + (a - 1) as int % b as int,
                (a - 1) as int % b as int >= 0,
                r == q + 1,
        ;
    }
}

/// `ceil(a / b)` without overflow.
fn ceil_div_exec(a: usize, b: usize) -> (r: usize)
    requires
        b >= 1,
    ensures
        r == ceil_div(a as nat, b as nat),
        r as int * b as int >= a as int,
        r >= 1 ==> (r - 1) * b < a,
{
    proof {
        lemma_ceil_div(a as nat, b as nat);
    }
    if a == 0 {
        0
    } else {
        (a - 1) / b + 1
    }
}

impl<T: Copy> SpectrogramProcessor<T> {
    /// The magnitude spectrum of one window: the first `fft_size / 2` bins of
    /// the transform of the Hann-windowed samples. A window whose length is
    /// not the transform size gives an empty result.
    pub fn process_window<
        S: Copy,
        M: Copy,
        L: Fn(S) -> T,
        W: Fn(T, usize, usize) -> T,
        B: Fn(T, T, T) -> (T, T),
        G: Fn(T) -> M,
    >(
        &mut self,
        samples: &[S],
        lift: &L,
        weigh: &W,
        butterfly: &B,
        magnitude: &G,
    ) -> (r: Vec<M>)
        requires
            old(self).wf(),
            kernels_ok(*lift, *weigh, *butterfly, *magnitude),
        ensures
            final(self).wf(),
            final(self).size() == old(self).size(),
            final(self).tables() == old(self).tables(),
            final(self).spec_time_stride() == old(self).spec_time_stride(),
            final(self).spec_freq_stride() == old(self).spec_freq_stride(),
            samples.len() != old(self).size() ==> r.len() == 0,
            samples.len() == old(self).size() ==> r.len() == old(self).size() / 2,
            samples.len() == old(self).size() ==> r@ == spectrum(
                *lift, *weigh, *butterfly, *magnitude,
                old(self).tables(),
                samples@,
            ),
    {
        if samples.len() != self.fft_size {
            return Vec::new();
        }
        let r = self.spectrum_at(samples, 0, lift, weigh, butterfly, magnitude);
        assert(samples@.subrange(0, samples.len() as int) =~= samples@);
        r
    }

    /// The spectra of windows `0, ts, 2*ts, ...` (`count` of them, `hop`
    /// samples between consecutive windows), each cut to every `fs`-th bin.
    fn collect_rows<
        S: Copy,
        M: Copy,
        L: Fn(S) -> T,
        W: Fn(T, usize, usize) -> T,
        B: Fn(T, T, T) -> (T, T),
        G: Fn(T) -> M,
    >(
        &mut self,
        samples: &[S],
        hop: usize,
        ts: usize,
        fs: usize,
        count: usize,
        lift: &L,
        weigh: &W,
        butterfly: &B,
        magnitude: &G,
    ) -> (r: Vec<M>)
        requires
            old(self).wf(),
            kernels_ok(*lift, *weigh, *butterfly, *magnitude),
            fs >= 1,
            hop >= 1,
            count >= 1 ==> (count - 1) * ts * hop + old(self).size() <= samples.len(),
        ensures
            final(self).wf(),
            final(self).size() == old(self).size(),
            final(self).tables() == old(self).tables(),
            final(self).spec_time_stride() == old(self).spec_time_stride(),
            final(self).spec_freq_stride() == old(self).spec_freq_stride(),
            r@ == spectrogram_rows(
                *lift, *weigh, *butterfly, *magnitude,
                old(self).tables(),
                samples@,
                old(self).size(),
                hop as nat,
                ts as nat,
                fs as nat,
                count as nat,
            ),
            r.len() == count * ceil_div(old(self).size() / 2, fs as nat),
    {
        let n = self.fft_size;
        let ghost tables = self.tables();
        let ghost time_stride = self.time_stride;
        let ghost freq_stride = self.freq_stride;
        let reduced = ceil_div_exec(n / 2, fs);
        let mut out: Vec<M> = Vec::new();
        let mut row: usize = 0;
        while row < count
            invariant
                self.wf(),
                self.size() == n,
                self.tables() == tables,
                self.time_stride == time_stride,
                self.freq_stride == freq_stride,
                kernels_ok(*lift, *weigh, *butterfly, *magnitude),
                fs >= 1,
                hop >= 1,
                count >= 1 ==> (count - 1) * ts * hop + n <= samples.len(),
                reduced == ceil_div((n / 2) as nat, fs as nat),
                reduced * fs >= n / 2,
                reduced >= 1 ==> (reduced - 1) * fs < n / 2,
                row <= count,
                out.len() == row * reduced,
                out@ == spectrogram_rows(
                    *lift, *weigh, *butterfly, *magnitude,
                    tables,
                    samples@,
                    n as nat,
                    hop as nat,
                    ts as nat,
                    fs as nat,
                    row as nat,
                ),
            decreases count - row,
        {
            proof {
                assert(row * ts * hop <= (count - 1) * ts * hop) by (nonlinear_arith)
                    requires
                        row <= count - 1,
                ;
                assert(row * ts <= row * ts * hop) by (nonlinear_arith)
                    requires
                        hop >= 1,
                ;
                assert((row + 1) * reduced == row * reduced + reduced) by (nonlinear_arith);
            }
            let start = row * ts * hop;
            let mags = self.spectrum_at(samples, start, lift, weigh, butterfly, magnitude);
            let ghost before = out@;
            let ghost kept = decimated(mags@, fs as nat);
            let mut j: usize = 0;
            while j < reduced
                invariant
                    mags.len() == n / 2,
                    fs >= 1,
                    reduced == ceil_div((n / 2) as nat, fs as nat),
                    reduced >= 1 ==> (reduced - 1) * fs < n / 2,
                    kept == decimated(mags@, fs as nat),
                    j <= reduced,
                    out@ == before + kept.take(j as int),
                decreases reduced - j,
            {
                proof {
                    assert(j * fs <= (reduced - 1) * fs) by (nonlinear_arith)
                        requires
                            j <= reduced - 1,
                    ;
                }
                out.push(mags[j * fs]);
                j = j + 1;
                proof {
                    assert(kept.take(j as int) =~= kept.take(j - 1).push(kept[j - 1]));
                }
            }
            row = row + 1;
            proof {
                assert(kept.take(j as int) =~= kept);
                assert(row * ts == (row - 1) * ts + ts) by (nonlinear_arith);
            }
        }
        out
    }
}

/// The last full window starts at most `len - n` samples in.
proof fn lemma_last_window_fits(len: nat, n: nat, hop: nat, w: nat)
    requires
        n <= len,
        hop >= 1,
        w <= (len - n) as nat / hop,
    ensures
        w * hop + n <= len,
{
    let a = (len - n) as nat;
    vstd::arithmetic::div_mod::lemma_fundamental_div_mod(a as int, hop as int);
    assert(w * hop <= a) by (nonlinear_arith)
        requires
            w <= a / hop,
            a == hop * (a / hop) + a % hop,
            a % hop >= 0,
            hop >= 1,
    ;
}

impl<T: Copy> SpectrogramProcessor<T> {
    /// The spectra of all full windows of `samples`, `hop_size` samples
    /// apart, one after another (window-major). Samples after the last full
    /// window are dropped; fewer samples than one window give nothing.
    pub fn compute_spectrogram<
        S: Copy,
        M: Copy,
        L: Fn(S) -> T,
        W: Fn(T, usize, usize) -> T,
        B: Fn(T, T, T) -> (T, T),
        G: Fn(T) -> M,
    >(
        &mut self,
        samples: &[S],
        hop_size: usize,
        lift: &L,
        weigh: &W,
        butterfly: &B,
        magnitude: &G,
    ) -> (r: Vec<M>)
        requires
            old(self).wf(),
            kernels_ok(*lift, *weigh, *butterfly, *magnitude),
            hop_size >= 1 || samples.len() < old(self).size(),
        ensures
            final(self).wf(),
            final(self).size() == old(self).size(),
            final(self).tables() == old(self).tables(),
            final(self).spec_time_stride() == old(self).spec_time_stride(),
            final(self).spec_freq_stride() == old(self).spec_freq_stride(),
            r@ == spectrogram_rows(
                *lift, *weigh, *butterfly, *magnitude,
                old(self).tables(),
                samples@,
                old(self).size(),
                hop_size as nat,
                1,
                1,
                window_count(samples.len() as nat, old(self).size(), hop_size as nat),
            ),
            r.len() == window_count(samples.len() as nat, old(self).size(), hop_size as nat) * (
            old(self).size() / 2),
    {
        let n = self.fft_size;
        if samples.len() < n {
            assert(0 * (n / 2) == 0);
            return Vec::new();
        }
        proof {
            self.lemma_wf();
            lemma_exp2_pos(self.tables().len());
            assert((samples.len() - n) / hop_size as int <= samples.len() - n) by (nonlinear_arith)
                requires
                    hop_size >= 1,
                    samples.len() >= n,
            ;
        }
        let count = (samples.len() - n) / hop_size + 1;
        proof {
            lemma_last_window_fits(samples.len() as nat, n as nat, hop_size as nat, (count - 1) as nat);
            assert(ceil_div((n / 2) as nat, 1) == n / 2);
        }
        self.collect_rows(samples, hop_size, 1, 1, count, lift, weigh, butterfly, magnitude)
    }

    /// Like [`Self::compute_spectrogram`], keeping only windows `0, ts, 2*ts,
    /// ...` and in each only bins `0, fs, 2*fs, ...`, where `ts` and `fs` are
    /// the strides. Returns the flattened magnitudes, the number of windows
    /// kept and the number of bins kept per window; fewer samples than one
    /// window give no magnitudes, no windows and `fft_size / 2` bins.
    pub fn process_windows<
        S: Copy,
        M: Copy,
        L: Fn(S) -> T,
        W: Fn(T, usize, usize) -> T,
        B: Fn(T, T, T) -> (T, T),
        G: Fn(T) -> M,
    >(
        &mut self,
        samples: &[S],
        hop_size: usize,
        lift: &L,
        weigh: &W,
        butterfly: &B,
        magnitude: &G,
    ) -> (r: (Vec<M>, usize, usize))
        requires
            old(self).wf(),
            kernels_ok(*lift, *weigh, *butterfly, *magnitude),
            hop_size >= 1 || samples.len() < old(self).size(),
        ensures
            final(self).wf(),
            final(self).size() == old(self).size(),
            final(self).tables() == old(self).tables(),
            final(self).spec_time_stride() == old(self).spec_time_stride(),
            final(self).spec_freq_stride() == old(self).spec_freq_stride(),
            r.0.len() == r.1 * r.2,
            samples.len() < old(self).size() ==> r.0.len() == 0 && r.1 == 0 && r.2 == old(
                self,
            ).size() / 2,
            samples.len() >= old(self).size() ==> r.1 == ceil_div(
                window_count(samples.len() as nat, old(self).size(), hop_size as nat),
                old(self).spec_time_stride(),
            ),
            samples.len() >= old(self).size() ==> r.2 == ceil_div(
                old(self).size() / 2,
                old(self).spec_freq_stride(),
            ),
            samples.len() >= old(self).size() ==> r.0@ == spectrogram_rows(
                *lift, *weigh, *butterfly, *magnitude,
                old(self).tables(),
                samples@,
                old(self).size(),
                hop_size as nat,
                old(self).spec_time_stride(),
                old(self).spec_freq_stride(),
                r.1 as nat,
            ),
    {
        let n = self.fft_size;
        let freq_bins = n / 2;
        if samples.len() < n {
            return (Vec::new(), 0, freq_bins);
        }
        proof {
            self.lemma_wf();
            lemma_exp2_pos(self.tables().len());
            assert((samples.len() - n) / hop_size as int <= samples.len() - n) by (nonlinear_arith)
                requires
                    hop_size >= 1,
                    samples.len() >= n,
            ;
        }
        let total_windows = (samples.len() - n) / hop_size + 1;
        let num_windows = ceil_div_exec(total_windows, self.time_stride);
        let reduced_bins = ceil_div_exec(freq_bins, self.freq_stride);
        proof {
            if num_windows >= 1 {
                let last = ((num_windows - 1) * self.time_stride) as nat;
                lemma_last_window_fits(samples.len() as nat, n as nat, hop_size as nat, last);
            }
        }
        let ts = self.time_stride;
        let fs = self.freq_stride;
        let data = self.collect_rows(samples, hop_size, ts, fs, num_windows, lift, weigh, butterfly, magnitude);
        (data, num_windows, reduced_bins)
    }
}

proof fn lemma_rows_len<
    S,
    T,
    M,
    L: Fn(S) -> T,
    W: Fn(T, usize, usize) -> T,
    B: Fn(T, T, T) -> (T, T),
    G: Fn(T) -> M,
>(
    lift: L,
    weigh: W,
    bf: B,
    magnitude: G,
    tables: Seq<Seq<T>>,
    samples: Seq<S>,
    n: nat,
    hop: nat,
    ts: nat,
    fs: nat,
    count: nat,
)
    requires
        count >= 1 ==> (count - 1) * ts * hop + n <= samples.len(),
    ensures
        spectrogram_rows(lift, weigh, bf, magnitude, tables, samples, n, hop, ts, fs, count).len() == count * ceil_div(n / 2, fs),
    decreases count,
{
    if count == 0 {
        assert(0 * ceil_div(n / 2, fs) == 0);
    } else {
        let c = (count - 1) as nat;
        if c >= 1 {
            assert((c - 1) * ts * hop <= c * ts * hop) by (nonlinear_arith)
                requires
                    c >= 1,
            ;
        }
        lemma_rows_len(lift, weigh, bf, magnitude, tables, samples, n, hop, ts, fs, c);
        assert(window_at(samples, n, hop, c * ts).len() == n);
        assert(count * ceil_div(n / 2, fs) == c * ceil_div(n / 2, fs) + ceil_div(n / 2, fs))
            by (nonlinear_arith)
            requires
                count == c + 1,
        ;
    }
}

proof fn lemma_rows_index<
    S,
    T,
    M,
    L: Fn(S) -> T,
    W: Fn(T, usize, usize) -> T,
    B: Fn(T, T, T) -> (T, T),
    G: Fn(T) -> M,
>(
    lift: L,
    weigh: W,
    bf: B,
    magnitude: G,
    tables: Seq<Seq<T>>,
    samples: Seq<S>,
    n: nat,
    hop: nat,
    ts: nat,
    fs: nat,
    count: nat,
    w: nat,
    b: nat,
)
    requires
        count >= 1 ==> (count - 1) * ts * hop + n <= samples.len(),
        w < count,
        b < ceil_div(n / 2, fs),
    ensures
        w * ceil_div(n / 2, fs) + b < spectrogram_rows(lift, weigh, bf, magnitude, tables, samples, n, hop, ts, fs, count).len(),
        spectrogram_rows(lift, weigh, bf, magnitude, tables, samples, n, hop, ts, fs, count)[(w * ceil_div(n / 2, fs) + b) as int] == decimated(
            spectrum(lift, weigh, bf, magnitude, tables, window_at(samples, n, hop, w * ts)),
            fs,
        )[b as int],
    decreases count,
{
    let red = ceil_div(n / 2, fs);
    let c = (count - 1) as nat;
    if c >= 1 {
        assert((c - 1) * ts * hop <= c * ts * hop) by (nonlinear_arith)
            requires
                c >= 1,
        ;
    }
    lemma_rows_len(lift, weigh, bf, magnitude, tables, samples, n, hop, ts, fs, c);
    lemma_rows_len(lift, weigh, bf, magnitude, tables, samples, n, hop, ts, fs, count);
    assert(w * red + b < count * red) by (nonlinear_arith)
        requires
            w < count,
            b < red,
    ;
    assert(c * red == count * red - red) by (nonlinear_arith)
        requires
            count == c + 1,
    ;
    if w < c {
        lemma_rows_index(lift, weigh, bf, magnitude, tables, samples, n, hop, ts, fs, c, w, b);
        assert(w * red + b < c * red) by (nonlinear_arith)
            requires
                w < c,
                b < red,
        ;
    } else {
        assert(w == c);
    }
}

/// A strided batch keeps `ceil(total / ts)` of the `total` windows and
/// `ceil(bins / fs)` of the `bins` bins of each, and its bin `b` of kept
/// window `w` is bin `b * fs` of window `w * ts` of the unstrided spectrogram.
pub proof fn lemma_strided_batch_picks_from_full<
    S,
    T,
    M,
    L: Fn(S) -> T,
    W: Fn(T, usize, usize) -> T,
    B: Fn(T, T, T) -> (T, T),
    G: Fn(T) -> M,
>(
    lift: L,
    weigh: W,
    bf: B,
    magnitude: G,
    tables: Seq<Seq<T>>,
    samples: Seq<S>,
    n: nat,
    hop: nat,
    ts: nat,
    fs: nat,
    w: nat,
    b: nat,
)
    requires
        n <= samples.len(),
        hop >= 1,
        ts >= 1,
        fs >= 1,
        w < ceil_div(window_count(samples.len(), n, hop), ts),
        b < ceil_div(n / 2, fs),
    ensures
        ({
            let total = window_count(samples.len(), n, hop);
            let kept = ceil_div(total, ts);
            let red = ceil_div(n / 2, fs);
            let strided = spectrogram_rows(lift, weigh, bf, magnitude, tables, samples, n, hop, ts, fs, kept);
            let full = spectrogram_rows(lift, weigh, bf, magnitude, tables, samples, n, hop, 1, 1, total);
            &&& strided.len() == kept * red
            &&& full.len() == total * (n / 2)
            &&& strided[(w * red + b) as int] == full[((w * ts) * (n / 2) + b * fs) as int]
        }),
{
    let total = window_count(samples.len(), n, hop);
    let kept = ceil_div(total, ts);
    let red = ceil_div(n / 2, fs);
    let half = n / 2;
    let a = (samples.len() - n) as nat;
    vstd::arithmetic::div_mod::lemma_fundamental_div_mod(a as int, hop as int);
    assert(total == a / hop + 1);
    assert((total - 1) * hop <= a) by (nonlinear_arith)
        requires
            total - 1 == a / hop,
            a == hop * (a / hop) + a % hop,
            a % hop >= 0,
    ;
    assert((total - 1) * 1 * hop + n <= samples.len());
    lemma_ceil_div(total, ts);
    lemma_ceil_div(half, fs);
    assert(w * ts <= (kept - 1) * ts) by (nonlinear_arith)
        requires
            w <= kept - 1,
    ;
    if kept >= 1 {
        assert((kept - 1) * ts * hop <= (total - 1) * hop) by (nonlinear_arith)
            requires
                (kept - 1) * ts <= total - 1,
                hop >= 1,
        ;
    }
    assert(half >= 1);
    assert(b * fs <= (red - 1) * fs) by (nonlinear_arith)
        requires
            b <= red - 1,
    ;
    assert(ceil_div(half, 1) == half);
    lemma_rows_len(lift, weigh, bf, magnitude, tables, samples, n, hop, ts, fs, kept);
    lemma_rows_len(lift, weigh, bf, magnitude, tables, samples, n, hop, 1, 1, total);
    lemma_rows_index(lift, weigh, bf, magnitude, tables, samples, n, hop, ts, fs, kept, w, b);
    lemma_rows_index(lift, weigh, bf, magnitude, tables, samples, n, hop, 1, 1, total, w * ts, b * fs);
    assert(w * ts * 1 == w * ts);
    let win = window_at(samples, n, hop, w * ts);
    assert(w * ts * hop + n <= samples.len()) by (nonlinear_arith)
        requires
            w * ts <= total - 1,
            (total - 1) * hop + n <= samples.len(),
            hop >= 1,
    ;
    assert(win.len() == n);
    assert(b * fs * 1 == b * fs);
}

} // verus!
