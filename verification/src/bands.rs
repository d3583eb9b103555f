use vstd::prelude::*;

verus! {

/// A band of frequency bins searched for signals, from bin `from` to bin `to`.
#[derive(Debug)]
pub struct FreqBinRange {
    from: usize,
    to: usize,
}

impl View for FreqBinRange {
    type V = (int, int);

    closed spec fn view(&self) -> (int, int) {
        (self.from as int, self.to as int)
    }
}

impl FreqBinRange {
    /// The first bin of the band.
    pub fn from(&self) -> (r: usize)
        ensures r == self@.0,
    {
        self.from
    }

    /// The end bin of the band.
    pub fn to(&self) -> (r: usize)
        ensures r == self@.1,
    {
        self.to
    }
}

/// The bands of fixed width `freq_bins / num_of_bands`, one starting at each
/// multiple of the width; a band that would reach into the last
/// `7 * freq_osr` bins (where a Costas pattern no longer fits) ends there.
pub open spec fn spec_fixed_band(freq_bins: int, freq_osr: int, num_of_bands: int, i: int) -> (int, int) {
    let step = freq_bins / num_of_bands;
    let costas_max = 7 * freq_osr;
    let bin = i * step;
    if bin + step >= freq_bins - costas_max { (bin, freq_bins - costas_max) } else { (bin, bin + step) }
}

/// The number of bands of fixed width: one per multiple of the width below `freq_bins`.
pub open spec fn fixed_band_count(freq_bins: int, num_of_bands: int) -> int {
    let step = freq_bins / num_of_bands;
    (freq_bins + step - 1) / step
}

/// Splits the bins into bands of equal width.
pub fn fixed_freq_bands(freq_bins: usize, freq_osr: usize, num_of_bands: usize) -> (r: Vec<FreqBinRange>)
    requires
        num_of_bands > 0,
        freq_bins >= num_of_bands,
        7 * freq_osr <= freq_bins,
        freq_bins <= usize::MAX / 2,
    ensures
        r@.len() == fixed_band_count(freq_bins as int, num_of_bands as int),
        forall|i: int| 0 <= i < r@.len() ==> #[trigger] r@[i]@
            == spec_fixed_band(freq_bins as int, freq_osr as int, num_of_bands as int, i),
{
    let mut freq_bin_ranges: Vec<FreqBinRange> = Vec::new();
    let costas_max_bins: usize = 7 * freq_osr;
    let step = freq_bins / num_of_bands;
    assert(step >= 1) by (nonlinear_arith)
        requires freq_bins >= num_of_bands, num_of_bands > 0, step == freq_bins / num_of_bands;
    assert(step <= freq_bins) by (nonlinear_arith)
        requires num_of_bands > 0, step == freq_bins / num_of_bands;
    let mut bin: usize = 0;
    let mut i: usize = 0;
    while bin < freq_bins
        invariant
            step >= 1,
            step <= freq_bins,
            step == freq_bins / num_of_bands,
            costas_max_bins == 7 * freq_osr,
            costas_max_bins <= freq_bins,
            freq_bins <= usize::MAX / 2,
            bin == i * step,
            bin < freq_bins + step,
            i == freq_bin_ranges@.len(),
            i * step < freq_bins ==> i <= fixed_band_count(freq_bins as int, num_of_bands as int),
            i * step >= freq_bins ==> i == fixed_band_count(freq_bins as int, num_of_bands as int),
            forall|k: int| 0 <= k < i ==> #[trigger] freq_bin_ranges@[k]@
                == spec_fixed_band(freq_bins as int, freq_osr as int, num_of_bands as int, k),
        decreases freq_bins + step - bin,
    {
        proof {
            lemma_band_count(freq_bins as int, step as int, i as int);
            assert(i <= i * step) by (nonlinear_arith)
                requires step >= 1, i >= 0;
        }
        let costas_max = costas_max_bins;
        if bin + step >= freq_bins - costas_max {
            freq_bin_ranges.push(FreqBinRange { from: bin, to: freq_bins - costas_max });
        } else {
            freq_bin_ranges.push(FreqBinRange { from: bin, to: bin + step });
        }
        proof {
            assert((i + 1) * step == i * step + step) by (nonlinear_arith);
            lemma_band_count(freq_bins as int, step as int, i as int + 1);
        }
        bin = bin + step;
        i = i + 1;
    }
    freq_bin_ranges
}

proof fn lemma_band_count(n: int, step: int, i: int)
    requires n >= 1, step >= 1, i >= 0,
    ensures
        i * step < n ==> i < (n + step - 1) / step,
        i * step >= n && (i - 1) * step < n ==> i == (n + step - 1) / step,
{
    let q = (n + step - 1) / step;
    let r = (n + step - 1) % step;
    vstd::arithmetic::div_mod::lemma_fundamental_div_mod(n + step - 1, step);
    assert(0 <= r < step) by {
        vstd::arithmetic::div_mod::lemma_mod_pos_bound(n + step - 1, step);
    }
    assert(n + step - 1 == step * q + r);
    if i * step < n {
        assert(i < q) by (nonlinear_arith)
            requires i * step < n, n + step - 1 == step * q + r, 0 <= r < step, step >= 1;
    }
    if i * step >= n && (i - 1) * step < n {
        assert(i == q) by (nonlinear_arith)
            requires i * step >= n, (i - 1) * step < n, n + step - 1 == step * q + r, 0 <= r < step, step >= 1;
    }
}

/// The state of the automatic band split after the first `f` bins: the bands
/// marked so far, the active bins counted since the last mark, and where the
/// open band starts.
pub open spec fn auto_state(active: Seq<bool>, average: int, f: nat) -> (Seq<(int, int)>, int, int)
    decreases f,
{
    if f == 0 {
        (Seq::empty(), 0, 0)
    } else {
        let s = auto_state(active, average, (f - 1) as nat);
        let c = if active[f - 1] { s.1 + 1 } else { s.1 };
        if c > average { (s.0.push((s.2, f - 1)), 0, f - 1) } else { (s.0, c, s.2) }
    }
}

/// Splits the bins into bands that each hold about the same number of active
/// bins: a band is closed at the bin where the count of active bins since the
/// last band passes `over_threshold / num_of_bands`.
pub fn auto_freq_bands(over_threshold: usize, active: &[bool], num_of_bands: usize) -> (r: Vec<FreqBinRange>)
    requires num_of_bands > 0,
    ensures
        r@.len() == auto_state(active@, (over_threshold / num_of_bands) as int, active@.len()).0.len(),
        forall|i: int| 0 <= i < r@.len() ==> #[trigger] r@[i]@
            == auto_state(active@, (over_threshold / num_of_bands) as int, active@.len()).0[i],
{
    let mut freq_bin_ranges: Vec<FreqBinRange> = Vec::new();
    let average = over_threshold / num_of_bands;
    let mut from: usize = 0;
    let mut count: usize = 0;
    let mut f: usize = 0;
    while f < active.len()
        invariant
            f <= active@.len(),
            average == over_threshold / num_of_bands,
            count <= f,
            from <= f,
            auto_state(active@, average as int, f as nat).1 == count,
            auto_state(active@, average as int, f as nat).2 == from,
            auto_state(active@, average as int, f as nat).0.len() == freq_bin_ranges@.len(),
            forall|i: int| 0 <= i < freq_bin_ranges@.len() ==> #[trigger] freq_bin_ranges@[i]@
                == auto_state(active@, average as int, f as nat).0[i],
        decreases active@.len() - f,
    {
        if active[f] {
            count += 1;
        }
        if count > average {
            count = 0;
            let to = f;
            freq_bin_ranges.push(FreqBinRange { from, to });
            from = to;
        }
        f += 1;
    }
    freq_bin_ranges
}

/// The bins from `lo` up to `hi` for which `passes` holds, in increasing order.
pub open spec fn passing_bins(passes: Seq<bool>, lo: int, hi: int) -> Seq<usize>
    decreases hi - lo,
{
    if lo >= hi {
        Seq::empty()
    } else {
        let rest = passing_bins(passes, lo + 1, hi);
        if passes[lo] { seq![lo as usize] + rest } else { rest }
    }
}

/// A bin is a candidate of a band exactly when it lies in the searched range
/// and its sync score passed, and the candidates come in increasing order.
pub proof fn law_passing_bins_members(passes: Seq<bool>, lo: int, hi: int)
    requires
        0 <= lo,
        hi <= passes.len(),
        hi <= usize::MAX,
    ensures
        forall|f: usize| #[trigger] passing_bins(passes, lo, hi).contains(f) <==> (lo <= f < hi && passes[f as int]),
        forall|i: int, j: int| 0 <= i < j < passing_bins(passes, lo, hi).len()
            ==> passing_bins(passes, lo, hi)[i] < passing_bins(passes, lo, hi)[j],
        forall|i: int| 0 <= i < passing_bins(passes, lo, hi).len()
            ==> lo <= #[trigger] passing_bins(passes, lo, hi)[i] < hi,
    decreases hi - lo,
{
    if lo < hi {
        law_passing_bins_members(passes, lo + 1, hi);
        let rest = passing_bins(passes, lo + 1, hi);
        let pb = passing_bins(passes, lo, hi);
        if passes[lo] {
            assert(pb == seq![lo as usize] + rest);
            assert forall|f: usize| #[trigger] pb.contains(f) <==> (lo <= f < hi && passes[f as int]) by {
                if pb.contains(f) {
                    let k = choose|k: int| 0 <= k < pb.len() && pb[k] == f;
                    if k > 0 {
                        assert(rest[k - 1] == f);
                        assert(rest.contains(f));
                    }
                }
                if lo <= f < hi && passes[f as int] {
                    if f == lo {
                        assert(pb[0] == f);
                    } else {
                        assert(rest.contains(f));
                        let k = choose|k: int| 0 <= k < rest.len() && rest[k] == f;
                        assert(pb[k + 1] == f);
                    }
                }
            }
            assert forall|i: int| 0 <= i < pb.len() implies lo <= #[trigger] pb[i] < hi by {
                if i > 0 {
                    assert(pb[i] == rest[i - 1]);
                }
            }
            assert forall|i: int, j: int| 0 <= i < j < pb.len() implies pb[i] < pb[j] by {
                assert(pb[j] == rest[j - 1]);
                if i > 0 {
                    assert(pb[i] == rest[i - 1]);
                }
            }
        } else {
            assert forall|f: usize| #[trigger] pb.contains(f) <==> (lo <= f < hi && passes[f as int]) by {
                if f == lo {
                    assert(!rest.contains(f));
                }
            }
        }
    } else {
        assert forall|f: usize| #[trigger] passing_bins(passes, lo, hi).contains(f) <==> (lo <= f < hi && passes[f as int]) by {
        }
    }
}

/// The fixed-width bands start at the multiples of the width, the first at
/// bin 0.
pub proof fn law_fixed_bands_start(freq_bins: int, freq_osr: int, num_of_bands: int, i: int)
    ensures
        spec_fixed_band(freq_bins, freq_osr, num_of_bands, i).0 == i * (freq_bins / num_of_bands),
        spec_fixed_band(freq_bins, freq_osr, num_of_bands, 0).0 == 0,
{
}

/// The candidate bins of a band: of the bins from one oversampling step past
/// its start to its end less the width of the tone set, those whose sync
/// score passed (`passes`), in increasing order.
pub fn select_candidate_bins(range: &FreqBinRange, freq_osr: usize, token_tones: usize, passes: &[bool]) -> (r: Vec<usize>)
    requires
        range@.0 + freq_osr <= usize::MAX,
        token_tones * freq_osr <= range@.1,
        range@.1 - token_tones * freq_osr <= passes@.len(),
    ensures
        r@ == passing_bins(passes@, range@.0 + freq_osr, range@.1 - token_tones * freq_osr),
{
    let lo = range.from() + freq_osr;
    let hi = range.to() - token_tones * freq_osr;
    let mut r: Vec<usize> = Vec::new();
    let mut f = lo;
    if f >= hi {
        return r;
    }
    while f < hi
        invariant
            lo <= f <= hi,
            hi <= passes@.len(),
            r@ + passing_bins(passes@, f as int, hi as int) == passing_bins(passes@, lo as int, hi as int),
        decreases hi - f,
    {
        if passes[f] {
            let ghost before = r@;
            r.push(f);
            assert(before + passing_bins(passes@, f as int, hi as int)
                =~= r@ + passing_bins(passes@, f as int + 1, hi as int));
        }
        f += 1;
    }
    assert(passing_bins(passes@, hi as int, hi as int) =~= Seq::<usize>::empty());
    assert(r@ + Seq::<usize>::empty() =~= r@);
    r
}

} // verus!
