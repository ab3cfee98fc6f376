use vstd::prelude::*;
use crate::utils::{is_function3, result_of3};

verus! {

/// `x` with each sample passed through `weigh(sample, i, n)`, where `i` is
/// its position and `n` the length of `x`.
pub open spec fn windowed<T, W: Fn(T, usize, usize) -> T>(weigh: W, x: Seq<T>) -> Seq<T> {
    Seq::new(x.len(), |i: int| result_of3(weigh, x[i], i as usize, x.len() as usize))
}

/// Applies the Hann window to `signal` in place. `weigh(sample, i, n)` returns
/// the sample multiplied by the coefficient `0.5 * (1 - cos(2*pi*i / (n - 1)))`,
/// computed on the fly for each position rather than read from a table.
pub fn apply_hann_window<T: Copy, W: Fn(T, usize, usize) -> T>(signal: &mut Vec<T>, weigh: &W)
    requires
        is_function3(*weigh),
    ensures
        final(signal)@ == windowed(*weigh, old(signal)@),
{
    let ghost x = signal@;
    let n = signal.len();
    let mut i: usize = 0;
    while i < n
        invariant
            n == signal.len() == x.len(),
            i <= n,
            is_function3(*weigh),
            forall|p: int|
                0 <= p < n ==> #[trigger] signal@[p] == if p < i {
                    result_of3(*weigh, x[p], p as usize, n)
                } else {
                    x[p]
                },
        decreases n - i,
    {
        let w = weigh(signal[i], i, n);
        signal.set(i, w);
        i = i + 1;
    }
    assert(signal@ =~= windowed(*weigh, x));
}

} // verus!
