//! 256-bin histograms of byte samples and their running counts.

use vstd::prelude::*;

verus! {

/// Number of samples in bins `0 .. n`.
pub open spec fn weight(h: Seq<u64>, n: int) -> int
    decreases n,
{
    if n <= 0 {
        0
    } else {
        weight(h, n - 1) + h[n - 1] as int
    }
}

/// Total sample count.
pub open spec fn hist_total(h: Seq<u64>) -> int {
    weight(h, 256)
}

/// Occurrences of `v` in `s`.
pub open spec fn count(s: Seq<u8>, v: int) -> nat
    decreases s.len(),
{
    if s.len() == 0 {
        0
    } else {
        count(s.drop_last(), v) + if s.last() == v {
            1nat
        } else {
            0nat
        }
    }
}

/// The 256-bin histogram of `s`.
pub open spec fn hist_of(s: Seq<u8>) -> Seq<u64> {
    Seq::new(256, |v: int| count(s, v) as u64)
}

pub proof fn lemma_count_le_len(s: Seq<u8>, v: int)
    ensures
        count(s, v) <= s.len(),
    decreases s.len(),
{
    if s.len() > 0 {
        lemma_count_le_len(s.drop_last(), v);
    }
}

pub proof fn lemma_weight_bump(h1: Seq<u64>, h2: Seq<u64>, x: int, n: int)
    requires
        h1.len() == 256,
        h2.len() == 256,
        0 <= x < 256,
        0 <= n <= 256,
        h2[x] == h1[x] + 1,
        forall|v: int| 0 <= v < 256 && v != x ==> h2[v] == h1[v],
    ensures
        weight(h2, n) == weight(h1, n) + if x < n {
            1int
        } else {
            0int
        },
    decreases n,
{
    if n > 0 {
        lemma_weight_bump(h1, h2, x, n - 1);
    }
}

/// The histogram of `s` holds `s.len()` samples.
pub proof fn lemma_hist_total(s: Seq<u8>)
    requires
        s.len() <= u64::MAX,
    ensures
        hist_total(hist_of(s)) == s.len(),
    decreases s.len(),
{
    if s.len() == 0 {
        assert(hist_total(hist_of(s)) == 0) by {
            assert forall|n: int| 0 <= n <= 256 implies weight(hist_of(s), n) == 0 by {
                lemma_weight_zero(hist_of(s), n);
            }
        }
    } else {
        let p = s.drop_last();
        lemma_hist_total(p);
        lemma_count_le_len(s, s.last() as int);
        assert forall|v: int| 0 <= v < 256 implies count(s, v) <= s.len() by {
            lemma_count_le_len(s, v);
        }
        assert forall|v: int| 0 <= v < 256 implies count(p, v) <= p.len() by {
            lemma_count_le_len(p, v);
        }
        lemma_weight_bump(hist_of(p), hist_of(s), s.last() as int, 256);
    }
}

pub proof fn lemma_weight_zero(h: Seq<u64>, n: int)
    requires
        0 <= n <= h.len(),
        forall|v: int| 0 <= v < h.len() ==> h[v] == 0,
    ensures
        weight(h, n) == 0,
    decreases n,
{
    if n > 0 {
        lemma_weight_zero(h, n - 1);
    }
}

/// Builds the 256-bin histogram of `samples`.
pub fn histogram(samples: &[u8]) -> (hist: [u64; 256])
    ensures
        hist@ == hist_of(samples@),
{
    let mut hist = [0u64; 256];
    let n = samples.len();
    let mut i: usize = 0;
    while i < n
        invariant
            0 <= i <= n,
            n == samples@.len(),
            hist@ == hist_of(samples@.take(i as int)),
        decreases n - i,
    {
        let v = samples[i];
        proof {
            let p = samples@.take(i as int);
            let q = samples@.take(i + 1);
            assert(q.drop_last() =~= p);
            lemma_count_le_len(p, v as int);
        }
        let c = hist[v as usize];
        hist[v as usize] = c + 1;
        i = i + 1;
        proof {
            let q = samples@.take(i as int);
            assert(hist@ =~= hist_of(q));
        }
    }
    assert(samples@.take(n as int) =~= samples@);
    if n == 0 {
        assert(hist@ =~= hist_of(samples@));
    }
    hist
}

} // verus!

verus! {

/// Running counts never decrease.
pub proof fn lemma_weight_monotone(h: Seq<u64>, m: int, n: int)
    requires
        0 <= m <= n,
    ensures
        weight(h, m) <= weight(h, n),
    decreases n - m,
{
    if m < n {
        lemma_weight_monotone(h, m, n - 1);
    }
}

/// A zero running count up to `n` means every bin below `n` is empty.
pub proof fn lemma_weight_zero_bins(h: Seq<u64>, n: int, v: int)
    requires
        0 <= v < n,
        weight(h, n) == 0,
    ensures
        h[v] == 0,
{
    lemma_weight_monotone(h, v + 1, n);
    lemma_weight_monotone(h, 0, v);
}

/// A sequence of one repeated value counts only that value.
pub proof fn lemma_count_flat(s: Seq<u8>, c: u8, u: int)
    requires
        forall|i: int| 0 <= i < s.len() ==> #[trigger] s[i] == c,
    ensures
        count(s, u) == if u == c as int {
            s.len()
        } else {
            0
        },
    decreases s.len(),
{
    if s.len() > 0 {
        let p = s.drop_last();
        assert forall|i: int| 0 <= i < p.len() implies #[trigger] p[i] == c by {
            assert(p[i] == s[i]);
        }
        lemma_count_flat(p, c, u);
        assert(s.last() == s[s.len() - 1]);
    }
}

} // verus!
