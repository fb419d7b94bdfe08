use vstd::prelude::*;

verus! {

/// Class code of ground points in the reference classification.
pub const GROUND_CLASS: u8 = 2;

/// How many of the first `n` points have ground flag `ground` and, as to
/// their reference class being ground, `reference`.
pub open spec fn tally(is_ground: Seq<bool>, classes: Seq<u8>, n: int, ground: bool, reference: bool) -> nat
    decreases n,
{
    if n <= 0 {
        0
    } else {
        tally(is_ground, classes, n - 1, ground, reference) + if is_ground[n - 1] == ground && (classes[n
            - 1] == GROUND_CLASS) == reference {
            1nat
        } else {
            0nat
        }
    }
}

/// How many of the first `n` points are flagged ground.
pub open spec fn flagged_count(is_ground: Seq<bool>, n: int) -> nat
    decreases n,
{
    if n <= 0 {
        0
    } else {
        flagged_count(is_ground, n - 1) + if is_ground[n - 1] {
            1nat
        } else {
            0nat
        }
    }
}

/// How many of the first `n` points are ground in the reference.
pub open spec fn reference_count(classes: Seq<u8>, n: int) -> nat
    decreases n,
{
    if n <= 0 {
        0
    } else {
        reference_count(classes, n - 1) + if classes[n - 1] == GROUND_CLASS {
            1nat
        } else {
            0nat
        }
    }
}

/// The error mark of a point after scoring: 1 for a false positive, 2 for a
/// false negative, the old mark otherwise.
pub open spec fn error_mark(is_ground: bool, class: u8, old_mark: u8) -> u8 {
    if is_ground && class != GROUND_CLASS {
        1
    } else if !is_ground && class == GROUND_CLASS {
        2
    } else {
        old_mark
    }
}

/// Counts of a comparison of the ground flags with a reference
/// classification.
pub struct Confusion {
    /// Flagged ground, ground in the reference.
    pub true_positives: usize,
    /// Flagged ground, not ground in the reference.
    pub false_positives: usize,
    /// Not flagged ground, ground in the reference.
    pub false_negatives: usize,
}

/// Flags every listed point as ground.
pub fn mark_ground(is_ground: &mut Vec<bool>, indices: &[usize])
    requires
        forall|k: int| 0 <= k < indices@.len() ==> #[trigger] indices@[k] < old(is_ground)@.len(),
    ensures
        final(is_ground)@.len() == old(is_ground)@.len(),
        forall|v: int|
            0 <= v < old(is_ground)@.len() ==> #[trigger] final(is_ground)@[v] == (old(is_ground)@[v]
                || indices@.contains(v as usize)),
{
    let ghost init = is_ground@;
    let len0 = is_ground.len();
    let m = indices.len();
    let mut k: usize = 0;
    while k < m
        invariant
            m == indices@.len(),
            k <= m,
            is_ground@.len() == init.len(),
            init.len() == len0,
            forall|kk: int| 0 <= kk < indices@.len() ==> #[trigger] indices@[kk] < init.len(),
            forall|v: int|
                0 <= v < init.len() ==> #[trigger] is_ground@[v] == (init[v] || indices@.take(
                    k as int,
                ).contains(v as usize)),
        decreases m - k,
    {
        let i = indices[k];
        is_ground.set(i, true);
        proof {
            assert(indices@.take(k + 1) =~= indices@.take(k as int).push(i));
        }
        k = k + 1;
        proof {
            assert forall|v: int| 0 <= v < init.len() implies #[trigger] is_ground@[v] == (init[v]
                || indices@.take(k as int).contains(v as usize)) by {
                let prev = indices@.take(k - 1);
                assert(indices@.take(k as int) =~= prev.push(i));
                if v == i {
                    assert(prev.push(i)[k - 1] == i);
                } else if prev.push(i).contains(v as usize) {
                    let t = choose|t: int| 0 <= t < prev.push(i).len() && prev.push(i)[t] == v as usize;
                    assert(t != prev.len());
                    assert(prev[t] == v as usize);
                }
            }
        }
    }
    proof {
        assert(indices@.take(m as int) =~= indices@);
    }
}

proof fn lemma_tally_bounded(is_ground: Seq<bool>, classes: Seq<u8>, n: int, ground: bool, reference: bool)
    requires
        n >= 0,
    ensures
        tally(is_ground, classes, n, ground, reference) <= n,
    decreases n,
{
    if n > 0 {
        lemma_tally_bounded(is_ground, classes, n - 1, ground, reference);
    }
}

/// Compares the ground flags with the reference classes, point by point over
/// as many points as both hold, and marks each false positive with 1 and
/// each false negative with 2 in `wrong`.
pub fn score_classification(is_ground: &[bool], classes: &[u8], wrong: &mut Vec<u8>) -> (result: Confusion)
    requires
        old(wrong)@.len() == is_ground@.len(),
    ensures
        ({
            let n = if is_ground@.len() <= classes@.len() {
                is_ground@.len() as int
            } else {
                classes@.len() as int
            };
            &&& result.true_positives == tally(is_ground@, classes@, n, true, true)
            &&& result.false_positives == tally(is_ground@, classes@, n, true, false)
            &&& result.false_negatives == tally(is_ground@, classes@, n, false, true)
            &&& final(wrong)@.len() == old(wrong)@.len()
            &&& forall|i: int|
                0 <= i < is_ground@.len() ==> #[trigger] final(wrong)@[i] == if i < n {
                    error_mark(is_ground@[i], classes@[i], old(wrong)@[i])
                } else {
                    old(wrong)@[i]
                }
            &&& forall|i: int|
                0 <= i < n && is_ground@[i] && classes@[i] != 2 ==> #[trigger] final(wrong)@[i] == 1
            &&& forall|i: int|
                0 <= i < n && !is_ground@[i] && classes@[i] == 2 ==> #[trigger] final(wrong)@[i] == 2
            &&& forall|i: int|
                0 <= i < is_ground@.len() && (i >= n || is_ground@[i] == (classes@[i] == 2)) ==> #[trigger] final(wrong)@[i]
                    == old(wrong)@[i]
            &&& result.true_positives + result.false_positives == is_ground@.take(n).to_multiset().count(true)
            &&& result.true_positives + result.false_negatives == classes@.take(n).to_multiset().count(2u8)
        }),
{
    let ghost old_wrong = wrong@;
    let result = tally_classification(is_ground, classes, wrong);
    proof {
        let n = if is_ground@.len() <= classes@.len() {
            is_ground@.len() as int
        } else {
            classes@.len() as int
        };
        assert forall|i: int| 0 <= i < n implies {
            let m = #[trigger] error_mark(is_ground@[i], classes@[i], old_wrong[i]);
            &&& (is_ground@[i] && classes@[i] != 2 ==> m == 1)
            &&& (!is_ground@[i] && classes@[i] == 2 ==> m == 2)
            &&& (is_ground@[i] == (classes@[i] == 2) ==> m == old_wrong[i])
        } by {
            law_error_mark_meaning(is_ground@[i], classes@[i], old_wrong[i]);
        }
        law_confusion_partitions(is_ground@, classes@, n);
        law_flagged_count_multiset(is_ground@, n);
        law_reference_count_multiset(classes@, n);
    }
    result
}

fn tally_classification(is_ground: &[bool], classes: &[u8], wrong: &mut Vec<u8>) -> (result: Confusion)
    requires
        old(wrong)@.len() == is_ground@.len(),
    ensures
        ({
            let n = if is_ground@.len() <= classes@.len() {
                is_ground@.len() as int
            } else {
                classes@.len() as int
            };
            &&& result.true_positives == tally(is_ground@, classes@, n, true, true)
            &&& result.false_positives == tally(is_ground@, classes@, n, true, false)
            &&& result.false_negatives == tally(is_ground@, classes@, n, false, true)
            &&& final(wrong)@.len() == old(wrong)@.len()
            &&& forall|i: int|
                0 <= i < is_ground@.len() ==> #[trigger] final(wrong)@[i] == if i < n {
                    error_mark(is_ground@[i], classes@[i], old(wrong)@[i])
                } else {
                    old(wrong)@[i]
                }
        }),
{
    let ghost old_wrong = wrong@;
    let n = if is_ground.len() <= classes.len() {
        is_ground.len()
    } else {
        classes.len()
    };
    let mut tp: usize = 0;
    let mut fp: usize = 0;
    let mut fneg: usize = 0;
    let mut i: usize = 0;
    while i < n
        invariant
            n <= is_ground@.len(),
            n <= classes@.len(),
            i <= n,
            wrong@.len() == old_wrong.len(),
            old_wrong.len() == is_ground@.len(),
            tp == tally(is_ground@, classes@, i as int, true, true),
            fp == tally(is_ground@, classes@, i as int, true, false),
            fneg == tally(is_ground@, classes@, i as int, false, true),
            forall|j: int|
                0 <= j < is_ground@.len() ==> #[trigger] wrong@[j] == if j < i {
                    error_mark(is_ground@[j], classes@[j], old_wrong[j])
                } else {
                    old_wrong[j]
                },
        decreases n - i,
    {
        proof {
            lemma_tally_bounded(is_ground@, classes@, i as int, true, true);
            lemma_tally_bounded(is_ground@, classes@, i as int, true, false);
            lemma_tally_bounded(is_ground@, classes@, i as int, false, true);
        }
        if is_ground[i] {
            if classes[i] == GROUND_CLASS {
                tp = tp + 1;
            } else {
                fp = fp + 1;
                wrong.set(i, 1);
            }
        } else {
            if classes[i] == GROUND_CLASS {
                fneg = fneg + 1;
                wrong.set(i, 2);
            }
        }
        i = i + 1;
    }
    Confusion { true_positives: tp, false_positives: fp, false_negatives: fneg }
}

/// A false positive (flagged ground, reference class not 2) is marked 1, a
/// false negative (not flagged, reference class 2) is marked 2, and a point
/// flagged as its reference says keeps its mark.
pub proof fn law_error_mark_meaning(is_ground: bool, class: u8, old_mark: u8)
    ensures
        is_ground && class != 2 ==> error_mark(is_ground, class, old_mark) == 1,
        !is_ground && class == 2 ==> error_mark(is_ground, class, old_mark) == 2,
        is_ground == (class == 2) ==> error_mark(is_ground, class, old_mark) == old_mark,
{
}

/// The points counted as flagged ground are those whose flag is set.
pub proof fn law_flagged_count_multiset(is_ground: Seq<bool>, n: int)
    requires
        0 <= n <= is_ground.len(),
    ensures
        flagged_count(is_ground, n) == is_ground.take(n).to_multiset().count(true),
    decreases n,
{
    broadcast use vstd::seq_lib::group_to_multiset_ensures;

    if n > 0 {
        law_flagged_count_multiset(is_ground, n - 1);
        vstd::seq_lib::to_multiset_build(is_ground.take(n - 1), is_ground[n - 1]);
        assert(is_ground.take(n - 1).push(is_ground[n - 1]) =~= is_ground.take(n));
    } else {
        assert(is_ground.take(n).to_multiset() =~= vstd::multiset::Multiset::empty());
    }
}

/// The points counted as ground in the reference are those of class 2.
pub proof fn law_reference_count_multiset(classes: Seq<u8>, n: int)
    requires
        0 <= n <= classes.len(),
    ensures
        reference_count(classes, n) == classes.take(n).to_multiset().count(2u8),
    decreases n,
{
    broadcast use vstd::seq_lib::group_to_multiset_ensures;

    if n > 0 {
        law_reference_count_multiset(classes, n - 1);
        vstd::seq_lib::to_multiset_build(classes.take(n - 1), classes[n - 1]);
        assert(classes.take(n - 1).push(classes[n - 1]) =~= classes.take(n));
    } else {
        assert(classes.take(n).to_multiset() =~= vstd::multiset::Multiset::empty());
    }
}

/// The points flagged ground split into true and false positives, and the
/// points ground in the reference into true positives and false negatives.
pub proof fn law_confusion_partitions(is_ground: Seq<bool>, classes: Seq<u8>, n: int)
    requires
        0 <= n <= is_ground.len(),
        n <= classes.len(),
    ensures
        tally(is_ground, classes, n, true, true) + tally(is_ground, classes, n, true, false)
            == flagged_count(is_ground, n),
        tally(is_ground, classes, n, true, true) + tally(is_ground, classes, n, false, true)
            == reference_count(classes, n),
    decreases n,
{
    if n > 0 {
        law_confusion_partitions(is_ground, classes, n - 1);
    }
}

} // verus!
