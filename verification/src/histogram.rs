use vstd::prelude::*;

verus! {

/// Position `i` of `h` is a valley: strictly below its left neighbour and no
/// higher than its right neighbour.
pub open spec fn is_valley(h: Seq<u64>, i: int) -> bool {
    &&& 1 <= i
    &&& i + 1 < h.len()
    &&& h[i] < h[i - 1]
    &&& h[i] <= h[i + 1]
}

/// Position `i` of `h` is a peak: strictly above its left neighbour and no
/// lower than its right neighbour.
pub open spec fn is_peak(h: Seq<u64>, i: int) -> bool {
    &&& 1 <= i
    &&& i + 1 < h.len()
    &&& h[i] > h[i - 1]
    &&& h[i] >= h[i + 1]
}

/// The first valley strictly after `start`, or the last position of `h` when
/// there is none.
///
/// The values are order keys: `a < b` exactly when the bin of `a` holds less
/// than the bin of `b`.
pub fn find_next_valley(histogram: &[u64], start: usize) -> (result: usize)
    requires
        histogram@.len() >= 1,
        start < usize::MAX,
    ensures
        result < histogram@.len(),
        forall|j: int| start < j < result ==> !is_valley(histogram@, j),
        result + 1 == histogram@.len() || (start < result && is_valley(histogram@, result as int)),
        forall|a: int, j: int, c: int|
            #![trigger histogram@[a], histogram@[j], histogram@[c]]
            a + 1 == j && j + 1 == c && start < j < result && 0 <= a && c < histogram@.len() ==> !(
            histogram@[j] < histogram@[a] && histogram@[j] <= histogram@[c]),
        result + 1 == histogram@.len() || (start < result && 1 <= result && result + 1 < histogram@.len()
            && histogram@[result as int] < histogram@[result - 1] && histogram@[result as int]
            <= histogram@[result + 1]),
{
    let n = histogram.len();
    let mut i = start + 1;
    while i < n - 1
        invariant
            n == histogram@.len(),
            n >= 1,
            start < i,
            forall|j: int| start < j < i ==> !is_valley(histogram@, j),
        decreases n - i,
    {
        if histogram[i] < histogram[i - 1] && histogram[i] <= histogram[i + 1] {
            proof {
                assert(next_valley_position(histogram@, start as int, i as int));
                law_next_valley_first(histogram@, start as int, i as int);
            }
            return i;
        }
        i = i + 1;
    }
    proof {
        assert forall|j: int| start < j < n - 1 implies !is_valley(histogram@, j) by {
            if j >= i {
                assert(j + 1 >= n);
            }
        }
        assert(next_valley_position(histogram@, start as int, n - 1));
        law_next_valley_first(histogram@, start as int, n - 1);
    }
    n - 1
}

/// Some position of `h` is a peak.
pub open spec fn has_peak(h: Seq<u64>) -> bool {
    exists|i: int| is_peak(h, i)
}

/// `r` is the highest peak of `h`, the first one among equally high peaks.
pub open spec fn is_largest_peak(h: Seq<u64>, r: int) -> bool {
    &&& is_peak(h, r)
    &&& forall|j: int| #[trigger] is_peak(h, j) ==> h[j] <= h[r] && (j < r ==> h[j] < h[r])
}

/// `r` is a position of the largest value of `h`, the last one among equal
/// maxima.
pub open spec fn is_last_maximum(h: Seq<u64>, r: int) -> bool {
    &&& 0 <= r < h.len()
    &&& forall|j: int| 0 <= j < h.len() ==> #[trigger] h[j] <= h[r] && (j > r ==> h[j] < h[r])
}

/// The position of the highest peak (the first of equally high ones); when
/// the histogram has no peak, the position of its largest value (the last of
/// equal ones).
///
/// The values are order keys: `a < b` exactly when the bin of `a` holds less
/// than the bin of `b`.
pub fn find_largest_peak(histogram: &[u64]) -> (result: usize)
    requires
        histogram@.len() >= 1,
    ensures
        result < histogram@.len(),
        has_peak(histogram@) ==> is_largest_peak(histogram@, result as int),
        !has_peak(histogram@) ==> is_last_maximum(histogram@, result as int),
        forall|a: int, i: int, c: int|
            #![trigger histogram@[a], histogram@[i], histogram@[c]]
            a + 1 == i && i + 1 == c && 0 <= a && c < histogram@.len() && histogram@[i] > histogram@[a] && histogram@[i] >= histogram@[c] ==> histogram@[(result as int)] >= histogram@[i] && (histogram@[(result as int)] == histogram@[i] ==> (result as int) <= i),
        (exists|a: int, i: int, c: int|
            #![trigger histogram@[a], histogram@[i], histogram@[c]]
            a + 1 == i && i + 1 == c && 0 <= a && c < histogram@.len() && histogram@[i] > histogram@[a] && histogram@[i] >= histogram@[c]) ==> 1 <= result && result + 1 < histogram@.len() && histogram@[result as int] > histogram@[result - 1] && histogram@[result as int] >= histogram@[result + 1],
        (forall|a: int, i: int, c: int|
            #![trigger histogram@[a], histogram@[i], histogram@[c]]
            a + 1 == i && i + 1 == c && 0 <= a && c < histogram@.len() ==> !(histogram@[i] > histogram@[a] && histogram@[i] >= histogram@[c])) ==> forall|j: int| 0 <= j < histogram@.len() ==> #[trigger] histogram@[j] <= histogram@[result as int] && (j > result ==> histogram@[j] < histogram@[result as int]),
{
    let r = locate_largest_peak(histogram);
    proof {
        assert(largest_peak_position(histogram@, r as int));
        law_largest_peak_dominates(histogram@, r as int);
    }
    r
}

fn locate_largest_peak(histogram: &[u64]) -> (result: usize)
    requires
        histogram@.len() >= 1,
    ensures
        result < histogram@.len(),
        has_peak(histogram@) ==> is_largest_peak(histogram@, result as int),
        !has_peak(histogram@) ==> is_last_maximum(histogram@, result as int),
{
    let ghost h = histogram@;
    let n = histogram.len();
    let mut best: Option<usize> = None;
    let mut i: usize = 1;
    while i < n - 1
        invariant
            n == h.len(),
            h == histogram@,
            n >= 1,
            1 <= i,
            i < n || n == 1,
            match best {
                None => forall|j: int| j < i ==> !#[trigger] is_peak(h, j),
                Some(b) => {
                    &&& b < i
                    &&& is_peak(h, b as int)
                    &&& forall|j: int|
                        j < i && #[trigger] is_peak(h, j) ==> h[j] <= h[b as int] && (j < b
                            ==> h[j] < h[b as int])
                },
            },
        decreases n - i,
    {
        let better = match best {
            None => true,
            Some(b) => histogram[i] > histogram[b],
        };
        if histogram[i] > histogram[i - 1] && histogram[i] >= histogram[i + 1] && better {
            best = Some(i);
        }
        i = i + 1;
    }
    match best {
        Some(b) => {
            proof {
                assert forall|j: int| #[trigger] is_peak(h, j) implies h[j] <= h[b as int] && (j
                    < b ==> h[j] < h[b as int]) by {
                    if j >= i {
                        assert(j + 1 >= n);
                    }
                }
            }
            b
        },
        None => {
            proof {
                assert forall|j: int| !#[trigger] is_peak(h, j) by {
                    if j >= i && is_peak(h, j) {
                        assert(j + 1 >= n);
                    }
                }
            }
            let mut m: usize = 0;
            let mut k: usize = 1;
            while k < n
                invariant
                    n == h.len(),
                    h == histogram@,
                    1 <= k <= n,
                    m < k,
                    forall|j: int| 0 <= j < k ==> #[trigger] h[j] <= h[m as int] && (j > m ==> h[j]
                        < h[m as int]),
                decreases n - k,
            {
                if histogram[k] >= histogram[m] {
                    m = k;
                }
                k = k + 1;
            }
            m
        },
    }
}

/// `r` is where the largest peak of `h` lies, as `find_largest_peak`
/// finds it.
pub open spec fn largest_peak_position(h: Seq<u64>, r: int) -> bool {
    &&& 0 <= r < h.len()
    &&& has_peak(h) ==> is_largest_peak(h, r)
    &&& !has_peak(h) ==> is_last_maximum(h, r)
}

/// `r` is where the next valley of `h` after `start` lies, as
/// `find_next_valley` finds it.
pub open spec fn next_valley_position(h: Seq<u64>, start: int, r: int) -> bool {
    &&& 0 <= r < h.len()
    &&& forall|j: int| start < j < r ==> !#[trigger] is_valley(h, j)
    &&& r + 1 == h.len() || (start < r && is_valley(h, r))
}

/// The largest peak dominates every rise: at every position that is
/// strictly above its left neighbour and no lower than its right one (a
/// plateau's left end included), the value is at most that of the chosen
/// position, and if equal, the chosen position comes no later. When there is
/// such a position the chosen one is one; when there is none, the chosen
/// position holds the largest value, after which every value is smaller.
pub proof fn law_largest_peak_dominates(h: Seq<u64>, r: int)
    requires
        largest_peak_position(h, r),
    ensures
        forall|a: int, i: int, c: int|
            #![trigger h[a], h[i], h[c]]
            a + 1 == i && i + 1 == c && 0 <= a && c < h.len() && h[i] > h[a] && h[i] >= h[c] ==> h[r] >= h[i] && (h[r] == h[i] ==> r <= i),
        (exists|a: int, i: int, c: int|
            #![trigger h[a], h[i], h[c]]
            a + 1 == i && i + 1 == c && 0 <= a && c < h.len() && h[i] > h[a] && h[i] >= h[c]) ==> 1 <= r && r + 1 < h.len() && h[r] > h[r - 1] && h[r] >= h[r + 1],
        (forall|a: int, i: int, c: int|
            #![trigger h[a], h[i], h[c]]
            a + 1 == i && i + 1 == c && 0 <= a && c < h.len() ==> !(h[i] > h[a] && h[i] >= h[c])) ==> forall|j: int| 0 <= j < h.len() ==> #[trigger] h[j] <= h[r] && (j > r ==> h[j] < h[r]),
{
    assert forall|a: int, i: int, c: int|
        #![trigger h[a], h[i], h[c]]
        a + 1 == i && i + 1 == c && 0 <= a && c < h.len() && h[i] > h[a] && h[i] >= h[c] implies h[r] >= h[i] && (h[r] == h[i] ==> r <= i) by {
        assert(is_peak(h, i));
    }
    if (exists|a: int, i: int, c: int|
            #![trigger h[a], h[i], h[c]]
            a + 1 == i && i + 1 == c && 0 <= a && c < h.len() && h[i] > h[a] && h[i] >= h[c]) {
        let (a, i, c) = choose|a: int, i: int, c: int|
            #![trigger h[a], h[i], h[c]]
            a + 1 == i && i + 1 == c && 0 <= a && c < h.len() && h[i] > h[a] && h[i] >= h[c];
        assert(is_peak(h, i));
    }
    if (forall|a: int, i: int, c: int|
            #![trigger h[a], h[i], h[c]]
            a + 1 == i && i + 1 == c && 0 <= a && c < h.len() ==> !(h[i] > h[a] && h[i] >= h[c])) {
        assert forall|i: int| !#[trigger] is_peak(h, i) by {
            if is_peak(h, i) {
                assert(h[i] > h[i - 1]);
                assert(h[i - 1] == h[i - 1] && h[i + 1] == h[i + 1]);
            }
        }
    }
}

/// The next valley after `start` is the first position after `start`
/// strictly below its left neighbour and no higher than its right one; with
/// no such position it is the last position.
pub proof fn law_next_valley_first(h: Seq<u64>, start: int, r: int)
    requires
        next_valley_position(h, start, r),
    ensures
        forall|a: int, j: int, c: int|
            #![trigger h[a], h[j], h[c]]
            a + 1 == j && j + 1 == c && start < j < r && 0 <= a && c < h.len() ==> !(h[j] < h[a] && h[j] <= h[c]),
        r + 1 == h.len() || (start < r && 1 <= r && r + 1 < h.len() && h[r] < h[r - 1] && h[r] <= h[r + 1]),
{
    assert forall|a: int, j: int, c: int|
        #![trigger h[a], h[j], h[c]]
        a + 1 == j && j + 1 == c && start < j < r && 0 <= a && c < h.len() implies !(h[j] < h[a] && h[j] <= h[c]) by {
        assert(!is_valley(h, j));
    }
}

/// At most one position is the largest peak.
pub proof fn law_largest_peak_unique(h: Seq<u64>, p: int, q: int)
    requires
        largest_peak_position(h, p),
        largest_peak_position(h, q),
    ensures
        p == q,
{
    if has_peak(h) {
        assert(is_peak(h, p) && is_peak(h, q));
    } else {
        assert(h[p] <= h[q] && h[q] <= h[p]);
    }
}

/// At most one position is the next valley after `start`.
pub proof fn law_next_valley_unique(h: Seq<u64>, start: int, p: int, q: int)
    requires
        next_valley_position(h, start, p),
        next_valley_position(h, start, q),
    ensures
        p == q,
{
    if p < q {
        assert(!is_valley(h, p));
    } else if q < p {
        assert(!is_valley(h, q));
    }
}

/// The bin that separates ground from the rest in a smoothed histogram of
/// elevation offsets: the first valley after the largest peak, or the last
/// bin when no valley follows it.
pub fn valley_after_largest_peak(histogram: &[u64]) -> (result: usize)
    requires
        histogram@.len() >= 1,
    ensures
        exists|p: int|
            #[trigger] largest_peak_position(histogram@, p) && next_valley_position(
                histogram@,
                p,
                result as int,
            ),
{
    let n = histogram.len();
    let first_peak = find_largest_peak(histogram);
    assert(first_peak < n);
    let valley_bin = find_next_valley(histogram, first_peak);
    assert(largest_peak_position(histogram@, first_peak as int));
    assert(next_valley_position(histogram@, first_peak as int, valley_bin as int));
    valley_bin
}

/// The sum of a sequence of counts.
pub open spec fn seq_sum(s: Seq<usize>) -> int
    decreases s.len(),
{
    if s.len() == 0 {
        0
    } else {
        seq_sum(s.drop_last()) + s.last()
    }
}

/// The bin that a raw bin index lands in when the histogram has `num_bins`
/// bins: indices past the end go to the last bin.
pub open spec fn clamp_bin(x: usize, num_bins: usize) -> int {
    if x < num_bins {
        x as int
    } else {
        num_bins - 1
    }
}

/// How many of the raw bin indices `bins` land in bin `b`.
pub open spec fn bin_count(bins: Seq<usize>, num_bins: usize, b: int) -> nat
    decreases bins.len(),
{
    if bins.len() == 0 {
        0
    } else {
        bin_count(bins.drop_last(), num_bins, b) + if clamp_bin(bins.last(), num_bins) == b {
            1nat
        } else {
            0nat
        }
    }
}

proof fn lemma_bin_count_bounded(bins: Seq<usize>, num_bins: usize, b: int)
    ensures
        bin_count(bins, num_bins, b) <= bins.len(),
    decreases bins.len(),
{
    if bins.len() > 0 {
        lemma_bin_count_bounded(bins.drop_last(), num_bins, b);
    }
}

/// A bin other than the last counts exactly the indices equal to it.
pub proof fn law_inner_bin_counts_value(bins: Seq<usize>, num_bins: usize, b: usize)
    requires
        b + 1 < num_bins,
    ensures
        bin_count(bins, num_bins, b as int) == bins.to_multiset().count(b),
    decreases bins.len(),
{
    broadcast use vstd::seq_lib::group_to_multiset_ensures;

    if bins.len() > 0 {
        law_inner_bin_counts_value(bins.drop_last(), num_bins, b);
        vstd::seq_lib::to_multiset_build(bins.drop_last(), bins.last());
        assert(bins.drop_last().push(bins.last()) =~= bins);
    } else {
        assert(bins.to_multiset() =~= vstd::multiset::Multiset::empty());
    }
}

/// Replacing one element changes the sum by the difference.
pub proof fn lemma_seq_sum_update(s: Seq<usize>, k: int, v: usize)
    requires
        0 <= k < s.len(),
    ensures
        seq_sum(s.update(k, v)) == seq_sum(s) - s[k] + v,
    decreases s.len(),
{
    let t = s.update(k, v);
    if k == s.len() - 1 {
        assert(t.drop_last() =~= s.drop_last());
    } else {
        lemma_seq_sum_update(s.drop_last(), k, v);
        assert(t.drop_last() =~= s.drop_last().update(k, v));
    }
}

/// The histogram of raw bin indices: `result[b]` counts the indices that land
/// in bin `b`, an index past the end counting for the last bin. Every index
/// is counted exactly once.
pub fn bin_counts(bins: &[usize], num_bins: usize) -> (result: Vec<usize>)
    requires
        num_bins > 0,
    ensures
        result@.len() == num_bins,
        forall|b: int| 0 <= b < num_bins ==> #[trigger] result@[b] == bin_count(bins@, num_bins, b),
        seq_sum(result@) == bins@.len(),
        forall|b: usize| b + 1 < num_bins ==> #[trigger] result@[b as int] == bins@.to_multiset().count(b),
{
    let mut result: Vec<usize> = Vec::new();
    let mut k: usize = 0;
    while k < num_bins
        invariant
            k <= num_bins,
            result@.len() == k,
            forall|b: int| 0 <= b < k ==> #[trigger] result@[b] == 0,
            seq_sum(result@) == 0,
        decreases num_bins - k,
    {
        proof {
            assert(result@.push(0).drop_last() =~= result@);
        }
        result.push(0);
        k = k + 1;
    }
    let n = bins.len();
    let mut i: usize = 0;
    while i < n
        invariant
            n == bins@.len(),
            i <= n,
            num_bins > 0,
            result@.len() == num_bins,
            forall|b: int|
                0 <= b < num_bins ==> #[trigger] result@[b] == bin_count(
                    bins@.take(i as int),
                    num_bins,
                    b,
                ),
            seq_sum(result@) == i,
        decreases n - i,
    {
        let x = bins[i];
        let b: usize = if x < num_bins {
            x
        } else {
            num_bins - 1
        };
        proof {
            lemma_bin_count_bounded(bins@.take(i as int), num_bins, b as int);
            assert(bins@.take(i + 1).drop_last() =~= bins@.take(i as int));
            lemma_seq_sum_update(result@, b as int, (result@[b as int] + 1) as usize);
        }
        let c = result[b];
        result.set(b, c + 1);
        i = i + 1;
        proof {
            assert forall|b2: int| 0 <= b2 < num_bins implies #[trigger] result@[b2] == bin_count(
                bins@.take(i as int),
                num_bins,
                b2,
            ) by {
                assert(bins@.take(i as int).last() == x);
            }
        }
    }
    proof {
        assert(bins@.take(n as int) =~= bins@);
        assert forall|b: usize| b + 1 < num_bins implies #[trigger] result@[b as int] == bins@.to_multiset().count(
            b,
        ) by {
            assert(result@[b as int] == bin_count(bins@.take(n as int), num_bins, b as int));
            law_inner_bin_counts_value(bins@, num_bins, b);
        }
    }
    result
}

/// First position of the smoothing window around bin `i`.
pub open spec fn window_start(i: int, half: int) -> int {
    if i >= half {
        i - half
    } else {
        0
    }
}

/// One past the last position of the smoothing window around bin `i` in a
/// histogram of `n` bins.
pub open spec fn window_end(i: int, half: int, n: int) -> int {
    if i + half + 1 <= n {
        i + half + 1
    } else {
        n
    }
}

/// The sum of the smoothing window around bin `i`.
pub open spec fn window_sum(h: Seq<usize>, half: int, i: int) -> int {
    seq_sum(h.subrange(window_start(i, half), window_end(i, half, h.len() as int)))
}

proof fn lemma_seq_sum_split(s: Seq<usize>, lo: int, hi: int)
    requires
        0 <= lo <= hi <= s.len(),
    ensures
        seq_sum(s.subrange(0, hi)) == seq_sum(s.subrange(0, lo)) + seq_sum(s.subrange(lo, hi)),
    decreases hi - lo,
{
    if hi > lo {
        lemma_seq_sum_split(s, lo, hi - 1);
        assert(s.subrange(0, hi).drop_last() =~= s.subrange(0, hi - 1));
        assert(s.subrange(lo, hi).drop_last() =~= s.subrange(lo, hi - 1));
    } else {
        assert(s.subrange(lo, hi).len() == 0);
    }
}

proof fn lemma_seq_sum_nonneg(s: Seq<usize>)
    ensures
        seq_sum(s) >= 0,
    decreases s.len(),
{
    if s.len() > 0 {
        lemma_seq_sum_nonneg(s.drop_last());
    }
}

proof fn lemma_window_sum_bounded(s: Seq<usize>, lo: int, hi: int)
    requires
        0 <= lo <= hi <= s.len(),
    ensures
        0 <= seq_sum(s.subrange(lo, hi)) <= seq_sum(s),
{
    lemma_seq_sum_split(s, lo, hi);
    lemma_seq_sum_split(s, hi, s.len() as int);
    lemma_seq_sum_nonneg(s.subrange(0, lo));
    lemma_seq_sum_nonneg(s.subrange(lo, hi));
    lemma_seq_sum_nonneg(s.subrange(hi, s.len() as int));
    assert(s.subrange(0, s.len() as int) =~= s);
}

/// The sum of `histogram[lo..hi]`.
fn range_sum(histogram: &[usize], lo: usize, hi: usize) -> (sum: usize)
    requires
        lo <= hi <= histogram@.len(),
        seq_sum(histogram@.subrange(lo as int, hi as int)) <= usize::MAX,
    ensures
        sum == seq_sum(histogram@.subrange(lo as int, hi as int)),
{
    let ghost h = histogram@;
    let mut sum: usize = 0;
    let mut k: usize = lo;
    while k < hi
        invariant
            lo <= k <= hi <= h.len(),
            h == histogram@,
            seq_sum(h.subrange(lo as int, hi as int)) <= usize::MAX,
            sum == seq_sum(h.subrange(lo as int, k as int)),
        decreases hi - k,
    {
        proof {
            assert(h.subrange(lo as int, k + 1).drop_last() =~= h.subrange(lo as int, k as int));
            let w = h.subrange(lo as int, hi as int);
            assert(w.subrange(0, k + 1 - lo) =~= h.subrange(lo as int, k + 1));
            lemma_window_sum_bounded(w, 0, k + 1 - lo);
        }
        sum = sum + histogram[k];
        k = k + 1;
    }
    sum
}

/// The moving-window sums of a histogram: for every bin `i`, the sum of the
/// bins within `window / 2` of it (the window cut off at both ends of the
/// histogram) and the number of bins in that window. Their quotient is the
/// smoothed value of bin `i`.
pub fn smoothing_windows(histogram: &[usize], window: usize) -> (result: Vec<(usize, usize)>)
    requires
        histogram@.len() + window / 2 <= usize::MAX,
        forall|i: int|
            0 <= i < histogram@.len() ==> #[trigger] window_sum(histogram@, (window / 2) as int, i)
                <= usize::MAX,
    ensures
        result@.len() == histogram@.len(),
        forall|i: int|
            0 <= i < histogram@.len() ==> {
                let lo = window_start(i, (window / 2) as int);
                let hi = window_end(i, (window / 2) as int, histogram@.len() as int);
                &&& #[trigger] result@[i].0 == seq_sum(histogram@.subrange(lo, hi))
                &&& result@[i].1 == hi - lo
                &&& result@[i].1 >= 1
            },
{
    let ghost h = histogram@;
    let n = histogram.len();
    let half = window / 2;
    let mut result: Vec<(usize, usize)> = Vec::new();
    let mut i: usize = 0;
    while i < n
        invariant
            n == h.len(),
            h == histogram@,
            half == window / 2,
            n + half <= usize::MAX,
            forall|ii: int| 0 <= ii < n ==> #[trigger] window_sum(h, half as int, ii) <= usize::MAX,
            i <= n,
            result@.len() == i,
            forall|j: int|
                0 <= j < i ==> #[trigger] result@[j] == (window_sum(h, half as int, j) as usize, (window_end(
                    j,
                    half as int,
                    n as int,
                ) - window_start(j, half as int)) as usize),
        decreases n - i,
    {
        let lo: usize = if i >= half {
            i - half
        } else {
            0
        };
        let hi: usize = if i + half + 1 <= n {
            i + half + 1
        } else {
            n
        };
        proof {
            assert(window_sum(h, half as int, i as int) <= usize::MAX);
        }
        let sum = range_sum(histogram, lo, hi);
        let ghost prev = result@;
        result.push((sum, hi - lo));
        proof {
            assert forall|j: int| 0 <= j < i + 1 implies #[trigger] result@[j] == (window_sum(
                h,
                half as int,
                j,
            ) as usize, (window_end(j, half as int, n as int) - window_start(j, half as int)) as usize) by {
                if j < i {
                    assert(result@[j] == prev[j]);
                }
            }
        }
        i = i + 1;
    }
    proof {
        assert forall|j: int| 0 <= j < n implies {
            let lo = window_start(j, (window / 2) as int);
            let hi = window_end(j, (window / 2) as int, n as int);
            &&& #[trigger] result@[j].0 == seq_sum(h.subrange(lo, hi))
            &&& result@[j].1 == hi - lo
            &&& result@[j].1 >= 1
        } by {
            assert(result@[j] == (window_sum(h, half as int, j) as usize, (window_end(
                j,
                half as int,
                n as int,
            ) - window_start(j, half as int)) as usize));
            lemma_window_sum_bounded(h, window_start(j, half as int), window_end(j, half as int, n as int));
        }
    }
    result
}

} // verus!
