use vstd::prelude::*;

verus! {

/// The sample counts that the receiver's input blocks start with: there are
/// `nfft / time_overlap` blocks of `nfft` samples, and block `n` starts with
/// `(count - n) * time_overlap` samples, so that the blocks fill up one
/// `time_overlap` after another.
pub fn staggered_fill_levels(nfft: usize, time_overlap: usize) -> (r: Vec<usize>)
    requires
        time_overlap > 0,
    ensures
        r@.len() == nfft / time_overlap,
        forall|n: int| 0 <= n < r@.len() ==> #[trigger] r@[n] == (r@.len() - n) * time_overlap,
{
    let count = nfft / time_overlap;
    assert(count * time_overlap <= nfft) by (nonlinear_arith)
        requires
            time_overlap > 0,
            count == nfft / time_overlap,
    ;
    let mut r: Vec<usize> = Vec::new();
    let mut n: usize = 0;
    while n < count
        invariant
            n <= count,
            count * time_overlap <= nfft,
            r@.len() == n,
            forall|j: int| 0 <= j < n ==> #[trigger] r@[j] == (count - j) * time_overlap,
        decreases count - n,
    {
        assert((count - n) * time_overlap <= count * time_overlap) by (nonlinear_arith)
            requires
                n <= count,
        ;
        r.push((count - n) * time_overlap);
        n += 1;
    }
    r
}

/// The blocks never start over-full, and each holds a different count.
pub proof fn law_fill_levels_staggered(levels: Seq<usize>, nfft: int, time_overlap: int)
    requires
        time_overlap > 0,
        0 <= nfft,
        levels.len() == nfft / time_overlap,
        forall|n: int| 0 <= n < levels.len() ==> #[trigger] levels[n] == (levels.len() - n) * time_overlap,
    ensures
        forall|n: int| 0 <= n < levels.len() ==> #[trigger] levels[n] <= nfft,
        forall|i: int, j: int| 0 <= i < j < levels.len() ==> levels[i] > levels[j],
{
    let count = levels.len() as int;
    assert(count * time_overlap <= nfft) by (nonlinear_arith)
        requires
            time_overlap > 0,
            count == nfft / time_overlap,
            0 <= nfft,
    ;
    assert forall|n: int| 0 <= n < levels.len() implies #[trigger] levels[n] <= nfft by {
        assert((count - n) * time_overlap <= count * time_overlap) by (nonlinear_arith)
            requires
                0 <= n,
                time_overlap > 0,
        ;
    }
    assert forall|i: int, j: int| 0 <= i < j < levels.len() implies levels[i] > levels[j] by {
        assert((count - i) * time_overlap > (count - j) * time_overlap) by (nonlinear_arith)
            requires
                i < j,
                time_overlap > 0,
        ;
    }
}

} // verus!
