use vstd::prelude::*;
use std::collections::{HashSet, VecDeque};

verus! {

broadcast use vstd::std_specs::hash::group_hash_axioms;

/// The neighbour lists as sequences.
pub open spec fn neighbour_lists(neighbours: Seq<Vec<usize>>) -> Seq<Seq<usize>> {
    neighbours.map_values(|l: Vec<usize>| l@)
}

/// Ground may grow from `a` to `b`: `b` is an accepted neighbour of `a` and
/// was not ground to begin with.
pub open spec fn growth_step(g: Seq<Seq<usize>>, init: Seq<bool>, a: usize, b: usize) -> bool {
    &&& g[a as int].contains(b)
    &&& !init[b as int]
}

/// Step `t` of the path `p` is a growth step.
pub open spec fn path_step(g: Seq<Seq<usize>>, init: Seq<bool>, p: Seq<usize>, t: int) -> bool {
    growth_step(g, init, p[t], p[t + 1])
}

/// `p` starts at a seed and follows growth steps.
pub open spec fn is_growth_path(g: Seq<Seq<usize>>, seeds: Seq<usize>, init: Seq<bool>, p: Seq<usize>) -> bool {
    &&& p.len() >= 1
    &&& seeds.contains(p[0])
    &&& forall|t: int| 0 <= t < p.len() - 1 ==> #[trigger] path_step(g, init, p, t)
}

/// Point `u` is reached by the region growing: some growth path ends at it.
pub open spec fn reached(g: Seq<Seq<usize>>, seeds: Seq<usize>, init: Seq<bool>, u: usize) -> bool {
    exists|p: Seq<usize>| #[trigger] is_growth_path(g, seeds, init, p) && p.last() == u
}

/// Point `v` becomes ground: it is an accepted neighbour of a reached point.
pub open spec fn grown(g: Seq<Seq<usize>>, seeds: Seq<usize>, init: Seq<bool>, v: usize) -> bool {
    exists|u: usize| #[trigger] reached(g, seeds, init, u) && g[u as int].contains(v)
}

/// Some point among the first `head` of the queue `q` has `v` among its
/// accepted neighbours.
pub open spec fn processed_reach(g: Seq<Seq<usize>>, q: Seq<usize>, head: int, v: usize) -> bool {
    exists|t: int| 0 <= t < head && #[trigger] g[q[t] as int].contains(v)
}

/// How many entries of `s` are set.
pub open spec fn count_set(s: Seq<bool>) -> nat
    decreases s.len(),
{
    if s.len() == 0 {
        0
    } else {
        count_set(s.drop_last()) + if s.last() {
            1nat
        } else {
            0nat
        }
    }
}

proof fn lemma_count_set_bounded(s: Seq<bool>)
    ensures
        count_set(s) <= s.len(),
    decreases s.len(),
{
    if s.len() > 0 {
        lemma_count_set_bounded(s.drop_last());
    }
}

proof fn lemma_count_set_none(s: Seq<bool>)
    requires
        forall|v: int| 0 <= v < s.len() ==> !#[trigger] s[v],
    ensures
        count_set(s) == 0,
    decreases s.len(),
{
    if s.len() > 0 {
        lemma_count_set_none(s.drop_last());
    }
}

proof fn lemma_count_set_update(s: Seq<bool>, k: int)
    requires
        0 <= k < s.len(),
        !s[k],
    ensures
        count_set(s.update(k, true)) == count_set(s) + 1,
    decreases s.len(),
{
    let t = s.update(k, true);
    if k == s.len() - 1 {
        assert(t.drop_last() =~= s.drop_last());
    } else {
        lemma_count_set_update(s.drop_last(), k);
        assert(t.drop_last() =~= s.drop_last().update(k, true));
    }
}

proof fn lemma_processed_reach_push(g: Seq<Seq<usize>>, q: Seq<usize>, head: int, w: usize, v: usize)
    requires
        0 <= head <= q.len(),
    ensures
        processed_reach(g, q.push(w), head, v) == processed_reach(g, q, head, v),
{
    if processed_reach(g, q, head, v) {
        let t = choose|t: int| 0 <= t < head && #[trigger] g[q[t] as int].contains(v);
        assert(q.push(w)[t] == q[t]);
        assert(g[q.push(w)[t] as int].contains(v));
    }
    if processed_reach(g, q.push(w), head, v) {
        let t = choose|t: int| 0 <= t < head && #[trigger] g[q.push(w)[t] as int].contains(v);
        assert(q.push(w)[t] == q[t]);
        assert(g[q[t] as int].contains(v));
    }
}

proof fn lemma_processed_reach_next(g: Seq<Seq<usize>>, q: Seq<usize>, head: int, v: usize)
    requires
        0 <= head < q.len(),
    ensures
        processed_reach(g, q, head + 1, v) == (processed_reach(g, q, head, v) || g[q[head] as int].contains(v)),
{
    if processed_reach(g, q, head + 1, v) {
        let t = choose|t: int| 0 <= t < head + 1 && #[trigger] g[q[t] as int].contains(v);
        if t < head {
            assert(processed_reach(g, q, head, v));
        }
    }
    if processed_reach(g, q, head, v) {
        let t = choose|t: int| 0 <= t < head && #[trigger] g[q[t] as int].contains(v);
        assert(processed_reach(g, q, head + 1, v));
    }
    if g[q[head] as int].contains(v) {
        assert(g[q[head] as int].contains(v));
        assert(processed_reach(g, q, head + 1, v));
    }
}

proof fn lemma_extend_path(g: Seq<Seq<usize>>, seeds: Seq<usize>, init: Seq<bool>, p: Seq<usize>, w: usize)
    requires
        is_growth_path(g, seeds, init, p),
        growth_step(g, init, p.last(), w),
    ensures
        is_growth_path(g, seeds, init, p.push(w)),
        p.push(w).last() == w,
{
    let p2 = p.push(w);
    assert forall|t: int| 0 <= t < p2.len() - 1 implies #[trigger] path_step(g, init, p2, t) by {
        if t < p.len() - 1 {
            assert(path_step(g, init, p, t));
        }
    }
}

/// Every point that a growth path reaches is in a queue that starts with the
/// seeds and is closed under growth steps.
proof fn lemma_reached_in_queue(
    g: Seq<Seq<usize>>,
    seeds: Seq<usize>,
    init: Seq<bool>,
    q: Seq<usize>,
    queued: Seq<bool>,
    p: Seq<usize>,
)
    requires
        is_growth_path(g, seeds, init, p),
        seeds.len() <= q.len(),
        forall|k: int| 0 <= k < seeds.len() ==> #[trigger] q[k] == seeds[k],
        forall|t: int, w: usize|
            0 <= t < q.len() && #[trigger] g[q[t] as int].contains(w) && !init[w as int] ==> queued[w as int],
        forall|v: int| 0 <= v < queued.len() && #[trigger] queued[v] ==> q.contains(v as usize),
        forall|t: int, j: int|
            0 <= t < q.len() && 0 <= j < g[q[t] as int].len() ==> #[trigger] g[q[t] as int][j] < queued.len(),
    ensures
        q.contains(p.last()),
    decreases p.len(),
{
    if p.len() == 1 {
        let k = choose|k: int| 0 <= k < seeds.len() && seeds[k] == p[0];
        assert(q[k] == p[0]);
    } else {
        let p0 = p.drop_last();
        assert forall|t: int| 0 <= t < p0.len() - 1 implies #[trigger] path_step(g, init, p0, t) by {
            assert(path_step(g, init, p, t));
        }
        lemma_reached_in_queue(g, seeds, init, q, queued, p0);
        let u = p0.last();
        let t = choose|t: int| 0 <= t < q.len() && q[t] == u;
        assert(path_step(g, init, p, p.len() - 2));
        let w = p.last();
        assert(g[q[t] as int].contains(w));
        let j = choose|j: int| 0 <= j < g[q[t] as int].len() && g[q[t] as int][j] == w;
        assert(w < queued.len());
        assert(queued[w as int]);
    }
}

/// Region growing of the ground class.
///
/// `neighbours[u]` lists the neighbours of point `u` that ground may spread
/// to from `u` (those that pass the slope test; empty when `u` has too few
/// neighbours to judge). Starting from the queued `seeds`, each queued point
/// marks as ground those of its listed neighbours that are not ground yet,
/// and queues every point it marks that was never queued before.
///
/// Whatever the order of processing, the outcome is this: a point is ground
/// afterwards exactly when it was ground before, or it is a listed neighbour
/// of a point reached from a seed by a chain of listed neighbours, none of
/// them ground to begin with.
pub fn propagate_ground(neighbours: &Vec<Vec<usize>>, seeds: &[usize], is_ground: &mut Vec<bool>)
    requires
        old(is_ground)@.len() == neighbours@.len(),
        forall|u: int, j: int|
            0 <= u < neighbours@.len() && 0 <= j < neighbours@[u]@.len() ==> #[trigger] neighbours@[u]@[j]
                < neighbours@.len(),
        forall|k: int| 0 <= k < seeds@.len() ==> #[trigger] seeds@[k] < neighbours@.len(),
    ensures
        final(is_ground)@.len() == old(is_ground)@.len(),
        forall|v: int|
            0 <= v < old(is_ground)@.len() ==> #[trigger] final(is_ground)@[v] == (old(is_ground)@[v] || grown(
                neighbour_lists(neighbours@),
                seeds@,
                old(is_ground)@,
                v as usize,
            )),
        final(is_ground)@ == grown_flags(neighbour_lists(neighbours@), seeds@, old(is_ground)@),
        forall|v: int| 0 <= v < old(is_ground)@.len() && #[trigger] old(is_ground)@[v] ==> final(is_ground)@[v],
        forall|k: int, x: usize|
            0 <= k < seeds@.len() && #[trigger] neighbours@[seeds@[k] as int]@.contains(x) ==> final(is_ground)@[x as int],
        forall|u: int, x: usize|
            0 <= u < old(is_ground)@.len() && final(is_ground)@[u] && !old(is_ground)@[u]
                && #[trigger] neighbours@[u]@.contains(x) ==> final(is_ground)@[x as int],
        forall|v: int|
            0 <= v < old(is_ground)@.len() && #[trigger] final(is_ground)@[v] && !old(is_ground)@[v] ==> exists|u: int|
                0 <= u < old(is_ground)@.len() && (seeds@.contains(u as usize) || (final(is_ground)@[u]
                    && !old(is_ground)@[u])) && #[trigger] neighbours@[u]@.contains(v as usize),
{
    let ghost init = is_ground@;
    let ghost g = neighbour_lists(neighbours@);
    let n = is_ground.len();
    grow_ground(neighbours, seeds, is_ground);
    proof {
        assert forall|uu: int, x: usize| 0 <= uu < g.len() && #[trigger] g[uu].contains(x) implies x < init.len() by {
            let jj = choose|jj: int| 0 <= jj < g[uu].len() && g[uu][jj] == x;
            assert(neighbours@[uu]@[jj] < n);
        }
        law_growth_closed(g, seeds@, init);
        assert forall|k: int, x: usize|
            0 <= k < seeds@.len() && #[trigger] neighbours@[seeds@[k] as int]@.contains(x) implies is_ground@[x as int] by {
            assert(g[seeds@[k] as int] == neighbours@[seeds@[k] as int]@);
            assert(g[seeds@[k] as int].contains(x));
        }
        assert forall|u: int, x: usize|
            0 <= u < init.len() && is_ground@[u] && !init[u] && #[trigger] neighbours@[u]@.contains(x) implies is_ground@[x as int] by {
            assert(g[u] == neighbours@[u]@);
            assert(g[u].contains(x));
        }
        assert forall|v: int|
            0 <= v < init.len() && #[trigger] is_ground@[v] && !init[v] implies exists|u: int|
                0 <= u < init.len() && (seeds@.contains(u as usize) || (is_ground@[u] && !init[u]))
                    && #[trigger] neighbours@[u]@.contains(v as usize) by {
            let u = choose|u: int|
                0 <= u < init.len() && (seeds@.contains(u as usize) || (is_ground@[u] && !init[u]))
                    && #[trigger] g[u].contains(v as usize);
            assert(g[u] == neighbours@[u]@);
        }
    }
}

fn grow_ground(neighbours: &Vec<Vec<usize>>, seeds: &[usize], is_ground: &mut Vec<bool>)
    requires
        old(is_ground)@.len() == neighbours@.len(),
        forall|u: int, j: int|
            0 <= u < neighbours@.len() && 0 <= j < neighbours@[u]@.len() ==> #[trigger] neighbours@[u]@[j]
                < neighbours@.len(),
        forall|k: int| 0 <= k < seeds@.len() ==> #[trigger] seeds@[k] < neighbours@.len(),
    ensures
        final(is_ground)@.len() == old(is_ground)@.len(),
        forall|v: int|
            0 <= v < old(is_ground)@.len() ==> #[trigger] final(is_ground)@[v] == (old(is_ground)@[v] || grown(
                neighbour_lists(neighbours@),
                seeds@,
                old(is_ground)@,
                v as usize,
            )),
        final(is_ground)@ == grown_flags(neighbour_lists(neighbours@), seeds@, old(is_ground)@),
{
    let ghost init = is_ground@;
    let ghost g = neighbour_lists(neighbours@);
    let ghost sd = seeds@;
    let n = is_ground.len();
    let mut queue: VecDeque<usize> = VecDeque::new();
    let mut queued: HashSet<usize> = HashSet::new();
    // Everything ever queued, in queue order, and which points that covers.
    let ghost mut hist: Seq<usize> = Seq::empty();
    let ghost mut flags: Seq<bool> = Seq::new(n as nat, |v: int| false);
    let ghost mut paths: Seq<Seq<usize>> = Seq::empty();
    proof {
        assert forall|v: int| 0 <= v < n implies #[trigger] flags[v] == false by {}
        lemma_count_set_none(flags);
    }
    let m = seeds.len();
    let mut k: usize = 0;
    while k < m
        invariant
            n == init.len(),
            n == g.len(),
            g == neighbour_lists(neighbours@),
            sd == seeds@,
            m == sd.len(),
            is_ground@ == init,
            forall|kk: int| 0 <= kk < sd.len() ==> #[trigger] sd[kk] < n,
            k <= m,
            flags.len() == n,
            hist == sd.take(k as int),
            queue@ == hist,
            forall|v: int| 0 <= v < n ==> (#[trigger] flags[v] <==> hist.contains(v as usize)),
            forall|v: int| 0 <= v < n ==> (#[trigger] queued@.contains(v as usize) <==> flags[v]),
            count_set(flags) <= hist.len(),
            paths.len() == hist.len(),
            forall|t: int|
                0 <= t < paths.len() ==> is_growth_path(g, sd, init, #[trigger] paths[t]) && paths[t].last()
                    == hist[t],
        decreases m - k,
    {
        let s = seeds[k];
        let ghost old_hist = hist;
        let ghost old_flags = flags;
        let ghost old_queued = queued@;
        proof {
            let p = seq![s];
            assert(sd[k as int] == s);
            assert(is_growth_path(g, sd, init, p));
            paths = paths.push(p);
            if !flags[s as int] {
                lemma_count_set_update(flags, s as int);
            } else {
                assert(flags.update(s as int, true) =~= flags);
            }
            flags = flags.update(s as int, true);
            hist = hist.push(s);
        }
        queue.push_back(s);
        queued.insert(s);
        k = k + 1;
        proof {
            assert(hist =~= sd.take(k as int));
            assert forall|v: int| 0 <= v < n implies (#[trigger] flags[v] <==> hist.contains(v as usize)) by {
                if v == s {
                    assert(hist[hist.len() - 1] == s);
                } else if old_flags[v] {
                    let t = choose|t: int| 0 <= t < old_hist.len() && old_hist[t] == v;
                    assert(hist[t] == v);
                } else if hist.contains(v as usize) {
                    let t = choose|t: int| 0 <= t < hist.len() && hist[t] == v;
                    assert(old_hist[t] == v);
                }
            }
            assert forall|v: int| 0 <= v < n implies (#[trigger] queued@.contains(v as usize) <==> flags[v]) by {
                assert(old_queued.contains(v as usize) <==> old_flags[v]);
            }
        }
    }
    proof {
        lemma_count_set_bounded(flags);
        assert forall|uu: int, x: usize| 0 <= uu < n && #[trigger] g[uu].contains(x) implies x < n by {
            let jj = choose|jj: int| 0 <= jj < g[uu].len() && g[uu][jj] == x;
            assert(neighbours@[uu]@[jj] < n);
        }
    }
    let ghost mut head: int = 0;
    while queue.len() > 0
        invariant
            n == init.len(),
            n == g.len(),
            g == neighbour_lists(neighbours@),
            forall|u: int, j: int|
                0 <= u < neighbours@.len() && 0 <= j < neighbours@[u]@.len() ==> #[trigger] neighbours@[u]@[j]
                    < neighbours@.len(),
            sd == seeds@,
            m == sd.len(),
            forall|kk: int| 0 <= kk < sd.len() ==> #[trigger] sd[kk] < n,
            is_ground@.len() == n,
            flags.len() == n,
            0 <= head <= hist.len(),
            queue@ == hist.subrange(head, hist.len() as int),
            m <= hist.len(),
            hist.len() + (n - count_set(flags)) <= m + n,
            count_set(flags) <= n,
            forall|kk: int| 0 <= kk < m ==> #[trigger] hist[kk] == sd[kk],
            forall|t: int| 0 <= t < hist.len() ==> #[trigger] hist[t] < n,
            forall|uu: int, x: usize| 0 <= uu < n && #[trigger] g[uu].contains(x) ==> x < n,
            forall|v: int| 0 <= v < n ==> (#[trigger] flags[v] <==> hist.contains(v as usize)),
            forall|v: int| 0 <= v < n ==> (#[trigger] queued@.contains(v as usize) <==> flags[v]),
            paths.len() == hist.len(),
            forall|t: int|
                0 <= t < paths.len() ==> is_growth_path(g, sd, init, #[trigger] paths[t]) && paths[t].last()
                    == hist[t],
            forall|v: int|
                0 <= v < n ==> #[trigger] is_ground@[v] == (init[v] || processed_reach(g, hist, head, v as usize)),
            forall|t: int, w: usize|
                0 <= t < head && #[trigger] g[hist[t] as int].contains(w) ==> is_ground@[w as int] && (
                !init[w as int] ==> flags[w as int]),
            forall|v: int| 0 <= v < n && #[trigger] is_ground@[v] && !init[v] ==> flags[v],
        decreases m + n - head,
    {
        let ghost hist_before = hist;
        let popped = queue.pop_front();
        let u = match popped {
            Some(u) => u,
            None => {
                proof {
                    assert(false);
                }
                0
            },
        };
        proof {
            assert(u == hist[head]);
            assert(queue@ =~= hist.subrange(head + 1, hist.len() as int));
        }
        let list = &neighbours[u];
        let ghost gu = g[u as int];
        assert(gu == list@);
        let len = list.len();
        let mut j: usize = 0;
        while j < len
            invariant
                n == init.len(),
                n == g.len(),
                g == neighbour_lists(neighbours@),
                gu == list@,
                gu == g[u as int],
                len == gu.len(),
                u == hist[head],
                u < n,
                forall|jj: int| 0 <= jj < gu.len() ==> #[trigger] gu[jj] < n,
                sd == seeds@,
                m == sd.len(),
                is_ground@.len() == n,
                flags.len() == n,
                0 <= head < hist.len(),
                queue@ == hist.subrange(head + 1, hist.len() as int),
                j <= len,
                m <= hist.len(),
                hist.len() + (n - count_set(flags)) <= m + n,
                count_set(flags) <= n,
                forall|kk: int| 0 <= kk < m ==> #[trigger] hist[kk] == sd[kk],
                forall|t: int| 0 <= t < hist.len() ==> #[trigger] hist[t] < n,
                forall|uu: int, x: usize| 0 <= uu < n && #[trigger] g[uu].contains(x) ==> x < n,
                forall|v: int| 0 <= v < n ==> (#[trigger] flags[v] <==> hist.contains(v as usize)),
                forall|v: int| 0 <= v < n ==> (#[trigger] queued@.contains(v as usize) <==> flags[v]),
                paths.len() == hist.len(),
                forall|t: int|
                    0 <= t < paths.len() ==> is_growth_path(g, sd, init, #[trigger] paths[t])
                        && paths[t].last() == hist[t],
                forall|v: int|
                    0 <= v < n ==> #[trigger] is_ground@[v] == (init[v] || processed_reach(
                        g,
                        hist,
                        head,
                        v as usize,
                    ) || gu.take(j as int).contains(v as usize)),
                forall|t: int, w: usize|
                    0 <= t < head && #[trigger] g[hist[t] as int].contains(w) ==> is_ground@[w as int]
                        && (!init[w as int] ==> flags[w as int]),
                forall|w: usize|
                    #[trigger] gu.take(j as int).contains(w) ==> is_ground@[w as int] && (!init[w as int]
                        ==> flags[w as int]),
                forall|v: int| 0 <= v < n && #[trigger] is_ground@[v] && !init[v] ==> flags[v],
            decreases len - j,
        {
            let w = list[j];
            let ghost old_hist = hist;
            let ghost old_ground = is_ground@;
            let ghost old_flags = flags;
            let ghost old_queued = queued@;
            let ghost old_queue = queue@;
            proof {
                assert(gu.take(j + 1) =~= gu.take(j as int).push(w));
            }
            if !is_ground[w] {
                is_ground.set(w, true);
                let inserted = queued.insert(w);
                if inserted {
                    proof {
                        assert(!flags[w as int]);
                        assert(!init[w as int]);
                        assert(growth_step(g, init, u, w)) by {
                            assert(gu[j as int] == w);
                        }
                        lemma_extend_path(g, sd, init, paths[head], w);
                        paths = paths.push(paths[head].push(w));
                        lemma_count_set_update(flags, w as int);
                        lemma_count_set_bounded(flags.update(w as int, true));
                        flags = flags.update(w as int, true);
                        hist = hist.push(w);
                    }
                    queue.push_back(w);
                    proof {
                        assert(queue@ =~= hist.subrange(head + 1, hist.len() as int));
                        assert forall|v: int| 0 <= v < n implies (#[trigger] flags[v] <==> hist.contains(v as usize)) by {
                            if v == w {
                                assert(hist[hist.len() - 1] == w);
                            } else if old_flags[v] {
                                let t = choose|t: int| 0 <= t < old_hist.len() && old_hist[t] == v;
                                assert(hist[t] == v);
                            } else if hist.contains(v as usize) {
                                let t = choose|t: int| 0 <= t < hist.len() && hist[t] == v;
                                assert(old_hist[t] == v);
                            }
                        }
                        assert forall|v: int| 0 <= v < n implies (#[trigger] queued@.contains(v as usize) <==> flags[v]) by {
                            assert(old_queued.contains(v as usize) <==> old_flags[v]);
                        }
                        assert forall|vv: usize| true implies processed_reach(g, hist, head, vv)
                            == processed_reach(g, old_hist, head, vv) by {
                            lemma_processed_reach_push(g, old_hist, head, w, vv);
                        }
                    }
                } else {
                    proof {
                        assert(queued@ =~= old_queued);
                    }
                }
            }
            j = j + 1;
            proof {
                assert forall|v: int| 0 <= v < n && #[trigger] old_ground[v] implies is_ground@[v] by {}
                assert forall|v: int| 0 <= v < n && #[trigger] old_flags[v] implies flags[v] by {}
                assert forall|t: int, x: usize|
                    0 <= t < head && #[trigger] g[hist[t] as int].contains(x) implies is_ground@[x as int]
                        && (!init[x as int] ==> flags[x as int]) by {
                    assert(hist[t] == old_hist[t]);
                    assert(g[old_hist[t] as int].contains(x));
                    assert(x < n);
                    assert(old_ground[x as int]);
                }
                assert forall|x: usize| #[trigger] gu.take(j as int).contains(x) implies is_ground@[x as int]
                    && (!init[x as int] ==> flags[x as int]) by {
                    if x != w {
                        assert(gu.take(j - 1).contains(x));
                    }
                }
                assert forall|v: int| 0 <= v < n implies #[trigger] is_ground@[v] == (init[v] || processed_reach(
                    g,
                    hist,
                    head,
                    v as usize,
                ) || gu.take(j as int).contains(v as usize)) by {
                    if v != w {
                        if gu.take(j as int).contains(v as usize) {
                            assert(gu.take(j - 1).contains(v as usize));
                        }
                    } else {
                        assert(gu.take(j as int)[j - 1] == w);
                    }
                }
            }
        }
        proof {
            assert(gu.take(len as int) =~= gu);
            assert forall|vv: usize| true implies processed_reach(g, hist, head + 1, vv) == (
            processed_reach(g, hist, head, vv) || gu.contains(vv)) by {
                lemma_processed_reach_next(g, hist, head, vv);
            }
            head = head + 1;
            assert forall|t: int, x: usize|
                0 <= t < head && #[trigger] g[hist[t] as int].contains(x) implies is_ground@[x as int]
                    && (!init[x as int] ==> flags[x as int]) by {
                if t == head - 1 {
                    assert(gu.take(len as int).contains(x));
                }
            }
        }
    }
    proof {
        assert(head == hist.len()) by {
            assert(queue@.len() == 0);
        }
        assert forall|v: int| 0 <= v < n implies #[trigger] is_ground@[v] == (init[v] || grown(
            g,
            sd,
            init,
            v as usize,
        )) by {
            if processed_reach(g, hist, head, v as usize) {
                let t = choose|t: int| 0 <= t < head && #[trigger] g[hist[t] as int].contains(v as usize);
                let u = hist[t];
                assert(is_growth_path(g, sd, init, paths[t]));
                assert(reached(g, sd, init, u));
            }
            if grown(g, sd, init, v as usize) {
                let u = choose|u: usize| #[trigger] reached(g, sd, init, u) && g[u as int].contains(v as usize);
                let p = choose|p: Seq<usize>| #[trigger] is_growth_path(g, sd, init, p) && p.last() == u;
                assert forall|t: int, jj: int|
                    0 <= t < hist.len() && 0 <= jj < g[hist[t] as int].len() implies #[trigger] g[hist[t] as int][jj] < flags.len() by {
                    assert(neighbours@[hist[t] as int]@[jj] < n);
                }
                lemma_reached_in_queue(g, sd, init, hist, flags, p);
                let t = choose|t: int| 0 <= t < hist.len() && hist[t] == u;
                assert(g[hist[t] as int].contains(v as usize));
                assert(processed_reach(g, hist, head, v as usize));
            }
        }
        assert(is_ground@ =~= grown_flags(g, sd, init));
    }
}

/// Fewest neighbours a point needs before ground may spread from it.
pub const MIN_NEIGHBOURS: usize = 3;

/// The neighbours in `nb` whose test in `pass` succeeded, in order.
pub open spec fn passing(nb: Seq<usize>, pass: Seq<bool>) -> Seq<usize>
    decreases nb.len(),
{
    if nb.len() == 0 {
        Seq::empty()
    } else {
        let rest = passing(nb.drop_last(), pass.subrange(0, nb.len() - 1));
        if pass[nb.len() - 1] {
            rest.push(nb.last())
        } else {
            rest
        }
    }
}

/// The neighbours ground may spread to from a point with neighbourhood
/// `nb`: none when it has fewer than `MIN_NEIGHBOURS`, else those that pass.
pub open spec fn spread_list(nb: Seq<usize>, pass: Seq<bool>) -> Seq<usize> {
    if nb.len() < MIN_NEIGHBOURS {
        Seq::empty()
    } else {
        passing(nb, pass)
    }
}

proof fn lemma_passing_within(nb: Seq<usize>, pass: Seq<bool>, x: usize)
    requires
        pass.len() == nb.len(),
        passing(nb, pass).contains(x),
    ensures
        nb.contains(x),
    decreases nb.len(),
{
    let rest = passing(nb.drop_last(), pass.subrange(0, nb.len() - 1));
    if pass[nb.len() - 1] && x == nb.last() {
        assert(nb[nb.len() - 1] == x);
    } else {
        if pass[nb.len() - 1] {
            let t = choose|t: int| 0 <= t < rest.push(nb.last()).len() && rest.push(nb.last())[t] == x;
            assert(t < rest.len());
            assert(rest[t] == x);
        }
        assert(rest.contains(x));
        lemma_passing_within(nb.drop_last(), pass.subrange(0, nb.len() - 1), x);
        let t = choose|t: int| 0 <= t < nb.drop_last().len() && nb.drop_last()[t] == x;
        assert(nb[t] == x);
    }
}

/// Every neighbour that passes is kept, and nothing else is.
proof fn lemma_passing_exact(nb: Seq<usize>, pass: Seq<bool>)
    requires
        pass.len() == nb.len(),
    ensures
        forall|j: int| 0 <= j < nb.len() && #[trigger] pass[j] ==> passing(nb, pass).contains(nb[j]),
        forall|x: usize|
            #[trigger] passing(nb, pass).contains(x) ==> exists|j: int|
                0 <= j < nb.len() && pass[j] && #[trigger] nb[j] == x,
    decreases nb.len(),
{
    if nb.len() > 0 {
        let nb0 = nb.drop_last();
        let pass0 = pass.subrange(0, nb.len() - 1);
        lemma_passing_exact(nb0, pass0);
        let rest = passing(nb0, pass0);
        let last = nb.len() - 1;
        assert forall|j: int| 0 <= j < nb.len() && #[trigger] pass[j] implies passing(nb, pass).contains(
            nb[j],
        ) by {
            if j < last {
                assert(pass0[j] == pass[j]);
                assert(nb0[j] == nb[j]);
                assert(rest.contains(nb[j]));
                if pass[last] {
                    let t = choose|t: int| 0 <= t < rest.len() && rest[t] == nb[j];
                    assert(rest.push(nb.last())[t] == nb[j]);
                }
            } else {
                assert(rest.push(nb.last())[rest.len() as int] == nb[j]);
            }
        }
        assert forall|x: usize| #[trigger] passing(nb, pass).contains(x) implies exists|j: int|
            0 <= j < nb.len() && pass[j] && #[trigger] nb[j] == x by {
            if pass[last] && x == nb.last() {
                assert(nb[last] == x);
            } else {
                if pass[last] {
                    let t = choose|t: int| 0 <= t < rest.push(nb.last()).len() && rest.push(nb.last())[t] == x;
                    assert(t < rest.len());
                    assert(rest[t] == x);
                }
                assert(rest.contains(x));
                let j = choose|j: int| 0 <= j < nb0.len() && pass0[j] && #[trigger] nb0[j] == x;
                assert(nb[j] == x && pass[j]);
            }
        }
    }
}

/// Ground spreads from a point with fewer than `MIN_NEIGHBOURS` neighbours
/// to none of them; from any other point, to exactly its neighbours whose
/// test passed.
pub proof fn law_spread_list_members(nb: Seq<usize>, pass: Seq<bool>)
    requires
        pass.len() == nb.len(),
    ensures
        nb.len() < 3 ==> spread_list(nb, pass).len() == 0,
        nb.len() >= 3 ==> forall|j: int| 0 <= j < nb.len() && #[trigger] pass[j] ==> spread_list(nb, pass).contains(nb[j]),
        forall|x: usize|
            #[trigger] spread_list(nb, pass).contains(x) ==> nb.len() >= 3 && exists|j: int|
                0 <= j < nb.len() && pass[j] && #[trigger] nb[j] == x,
{
    lemma_passing_exact(nb, pass);
}

/// The neighbour lists that region growing follows: for each point, no
/// neighbour when its neighbourhood has fewer than `MIN_NEIGHBOURS` points,
/// else the neighbours whose slope test (`passes[u][j]` for the `j`-th
/// neighbour of `u`) succeeded, in neighbourhood order.
pub fn spreading_neighbours(neighbourhoods: &Vec<Vec<usize>>, passes: &Vec<Vec<bool>>) -> (result: Vec<
    Vec<usize>,
>)
    requires
        passes@.len() == neighbourhoods@.len(),
        forall|u: int| 0 <= u < neighbourhoods@.len() ==> #[trigger] passes@[u]@.len() == neighbourhoods@[u]@.len(),
    ensures
        result@.len() == neighbourhoods@.len(),
        forall|u: int|
            0 <= u < result@.len() ==> #[trigger] result@[u]@ == spread_list(neighbourhoods@[u]@, passes@[u]@),
        forall|u: int, x: usize|
            0 <= u < result@.len() && #[trigger] result@[u]@.contains(x) ==> neighbourhoods@[u]@.contains(x),
        forall|u: int| 0 <= u < result@.len() && neighbourhoods@[u]@.len() < 3 ==> #[trigger] result@[u]@.len() == 0,
        forall|u: int, j: int|
            0 <= u < result@.len() && neighbourhoods@[u]@.len() >= 3 && 0 <= j < neighbourhoods@[u]@.len()
                && #[trigger] passes@[u]@[j] ==> result@[u]@.contains(neighbourhoods@[u]@[j]),
        forall|u: int, x: usize|
            0 <= u < result@.len() && #[trigger] result@[u]@.contains(x) ==> neighbourhoods@[u]@.len() >= 3
                && exists|j: int|
                0 <= j < neighbourhoods@[u]@.len() && passes@[u]@[j] && #[trigger] neighbourhoods@[u]@[j] == x,
{
    let n = neighbourhoods.len();
    let mut result: Vec<Vec<usize>> = Vec::new();
    let mut u: usize = 0;
    while u < n
        invariant
            n == neighbourhoods@.len(),
            passes@.len() == n,
            forall|uu: int| 0 <= uu < n ==> #[trigger] passes@[uu]@.len() == neighbourhoods@[uu]@.len(),
            u <= n,
            result@.len() == u,
            forall|uu: int|
                0 <= uu < u ==> #[trigger] result@[uu]@ == spread_list(neighbourhoods@[uu]@, passes@[uu]@),
            forall|uu: int, x: usize|
                0 <= uu < u && #[trigger] result@[uu]@.contains(x) ==> neighbourhoods@[uu]@.contains(x),
        decreases n - u,
    {
        let nb = &neighbourhoods[u];
        let pass = &passes[u];
        let mut list: Vec<usize> = Vec::new();
        if nb.len() >= MIN_NEIGHBOURS {
            let mut j: usize = 0;
            while j < nb.len()
                invariant
                    pass@.len() == nb@.len(),
                    j <= nb@.len(),
                    list@ == passing(nb@.take(j as int), pass@.take(j as int)),
                decreases nb@.len() - j,
            {
                proof {
                    assert(nb@.take(j + 1).drop_last() =~= nb@.take(j as int));
                    assert(pass@.take(j + 1).subrange(0, j as int) =~= pass@.take(j as int));
                }
                if pass[j] {
                    list.push(nb[j]);
                }
                j = j + 1;
            }
            proof {
                assert(nb@.take(j as int) =~= nb@);
                assert(pass@.take(j as int) =~= pass@);
            }
        }
        proof {
            assert forall|x: usize| #[trigger] list@.contains(x) implies nb@.contains(x) by {
                lemma_passing_within(nb@, pass@, x);
            }
        }
        result.push(list);
        u = u + 1;
    }
    proof {
        assert forall|uu: int| 0 <= uu < n implies {
            &&& (neighbourhoods@[uu]@.len() < 3 ==> #[trigger] result@[uu]@.len() == 0)
            &&& (neighbourhoods@[uu]@.len() >= 3 ==> forall|j: int|
                0 <= j < neighbourhoods@[uu]@.len() && #[trigger] passes@[uu]@[j] ==> result@[uu]@.contains(
                    neighbourhoods@[uu]@[j],
                ))
            &&& forall|x: usize|
                #[trigger] result@[uu]@.contains(x) ==> neighbourhoods@[uu]@.len() >= 3 && exists|j: int|
                    0 <= j < neighbourhoods@[uu]@.len() && passes@[uu]@[j] && #[trigger] neighbourhoods@[uu]@[j]
                        == x
        } by {
            law_spread_list_members(neighbourhoods@[uu]@, passes@[uu]@);
        }
    }
    result
}

/// The ground flags after region growing from `seeds` over `g`, starting
/// from the flags `init`.
pub open spec fn grown_flags(g: Seq<Seq<usize>>, seeds: Seq<usize>, init: Seq<bool>) -> Seq<bool> {
    Seq::new(init.len(), |v: int| init[v] || grown(g, seeds, init, v as usize))
}

/// What region growing guarantees, in terms of the neighbour lists alone:
/// nothing ground stops being ground; every listed neighbour of a seed, and
/// of every point that became ground, is ground afterwards; and every point
/// that became ground is a listed neighbour of a seed or of another point
/// that became ground.
pub proof fn law_growth_closed(g: Seq<Seq<usize>>, seeds: Seq<usize>, init: Seq<bool>)
    requires
        g.len() == init.len(),
        init.len() <= usize::MAX,
        forall|k: int| 0 <= k < seeds.len() ==> #[trigger] seeds[k] < init.len(),
        forall|u: int, w: usize| 0 <= u < g.len() && #[trigger] g[u].contains(w) ==> w < init.len(),
    ensures
        grown_flags(g, seeds, init).len() == init.len(),
        forall|v: int| 0 <= v < init.len() && #[trigger] init[v] ==> grown_flags(g, seeds, init)[v],
        forall|k: int, x: usize|
            0 <= k < seeds.len() && #[trigger] g[seeds[k] as int].contains(x) ==> grown_flags(g, seeds, init)[x as int],
        forall|u: int, x: usize|
            0 <= u < init.len() && grown_flags(g, seeds, init)[u] && !init[u] && #[trigger] g[u].contains(x)
                ==> grown_flags(g, seeds, init)[x as int],
        forall|v: int|
            0 <= v < init.len() && #[trigger] grown_flags(g, seeds, init)[v] && !init[v] ==> exists|u: int|
                0 <= u < init.len() && (seeds.contains(u as usize) || (grown_flags(g, seeds, init)[u] && !init[u]))
                    && #[trigger] g[u].contains(v as usize),
{
    let after = grown_flags(g, seeds, init);
    assert forall|k: int, x: usize|
        0 <= k < seeds.len() && #[trigger] g[seeds[k] as int].contains(x) implies after[x as int] by {
        let s = seeds[k];
        assert(is_growth_path(g, seeds, init, seq![s]));
        assert(reached(g, seeds, init, s));
        let j = choose|j: int| 0 <= j < g[s as int].len() && g[s as int][j] == x;
        assert(x < init.len());
        assert(grown(g, seeds, init, x));
    }
    assert forall|u: int, x: usize|
        0 <= u < init.len() && after[u] && !init[u] && #[trigger] g[u].contains(x) implies after[x as int] by {
        assert(grown(g, seeds, init, u as usize));
        let w = choose|w: usize| #[trigger] reached(g, seeds, init, w) && g[w as int].contains(u as usize);
        let p = choose|p: Seq<usize>| #[trigger] is_growth_path(g, seeds, init, p) && p.last() == w;
        lemma_extend_path(g, seeds, init, p, u as usize);
        assert(reached(g, seeds, init, u as usize));
        let j = choose|j: int| 0 <= j < g[u].len() && g[u][j] == x;
        assert(x < init.len());
        assert(grown(g, seeds, init, x));
    }
    assert forall|v: int|
        0 <= v < init.len() && #[trigger] after[v] && !init[v] implies exists|u: int|
            0 <= u < init.len() && (seeds.contains(u as usize) || (after[u] && !init[u])) && #[trigger] g[u].contains(
                v as usize,
            ) by {
        assert(grown(g, seeds, init, v as usize));
        let w = choose|w: usize| #[trigger] reached(g, seeds, init, w) && g[w as int].contains(v as usize);
        let p = choose|p: Seq<usize>| #[trigger] is_growth_path(g, seeds, init, p) && p.last() == w;
        if p.len() == 1 {
            let k = choose|k: int| 0 <= k < seeds.len() && seeds[k] == p[0];
            assert(w < init.len());
        } else {
            let p0 = p.drop_last();
            assert forall|t: int| 0 <= t < p0.len() - 1 implies #[trigger] path_step(g, init, p0, t) by {
                assert(path_step(g, init, p, t));
            }
            assert(is_growth_path(g, seeds, init, p0));
            assert(path_step(g, init, p, p.len() - 2));
            let prev = p0.last();
            assert(reached(g, seeds, init, prev));
            assert(g[prev as int].contains(w));
            assert(grown(g, seeds, init, w));
            if p0.len() == 1 {
                let k = choose|k: int| 0 <= k < seeds.len() && seeds[k] == p0[0];
                assert(prev < init.len());
            } else {
                assert(path_step(g, init, p0, p0.len() - 2));
                let pp = p0[p0.len() - 2];
                let j = choose|j: int| 0 <= j < g[pp as int].len() && g[pp as int][j] == prev;
                assert(prev < init.len()) by {
                    let k = choose|k: int| 0 <= k < seeds.len() && seeds[k] == p0[0];
                    lemma_path_in_range(g, seeds, init, p0);
                }
            }
            assert(w < init.len()) by {
                lemma_path_in_range(g, seeds, init, p);
            }
            assert(!init[w as int]);
            assert(after[w as int]);
        }
    }
}

/// Every point on a growth path is a point of the cloud.
proof fn lemma_path_in_range(g: Seq<Seq<usize>>, seeds: Seq<usize>, init: Seq<bool>, p: Seq<usize>)
    requires
        g.len() == init.len(),
        forall|k: int| 0 <= k < seeds.len() ==> #[trigger] seeds[k] < init.len(),
        forall|u: int, w: usize| 0 <= u < g.len() && #[trigger] g[u].contains(w) ==> w < init.len(),
        is_growth_path(g, seeds, init, p),
    ensures
        forall|t: int| 0 <= t < p.len() ==> #[trigger] p[t] < init.len(),
    decreases p.len(),
{
    if p.len() == 1 {
        let k = choose|k: int| 0 <= k < seeds.len() && seeds[k] == p[0];
    } else {
        let p0 = p.drop_last();
        assert forall|t: int| 0 <= t < p0.len() - 1 implies #[trigger] path_step(g, init, p0, t) by {
            assert(path_step(g, init, p, t));
        }
        lemma_path_in_range(g, seeds, init, p0);
        assert(path_step(g, init, p, p.len() - 2));
        assert(p0[p0.len() - 1] < init.len());
        assert forall|t: int| 0 <= t < p.len() implies #[trigger] p[t] < init.len() by {
            if t < p.len() - 1 {
                assert(p[t] == p0[t]);
            }
        }
    }
}

/// Growing again from the same seeds changes nothing: once the region
/// growing has run, a second run over the same neighbour lists and seeds
/// marks no further point.
pub proof fn law_propagation_idempotent(g: Seq<Seq<usize>>, seeds: Seq<usize>, init: Seq<bool>)
    requires
        g.len() == init.len(),
        forall|k: int| 0 <= k < seeds.len() ==> #[trigger] seeds[k] < init.len(),
        forall|u: int, w: usize| 0 <= u < g.len() && #[trigger] g[u].contains(w) ==> w < init.len(),
    ensures
        grown_flags(g, seeds, grown_flags(g, seeds, init)) == grown_flags(g, seeds, init),
{
    let after = grown_flags(g, seeds, init);
    assert forall|v: int| 0 <= v < after.len() implies #[trigger] grown_flags(g, seeds, after)[v] == after[v] by {
        if grown(g, seeds, after, v as usize) {
            let u = choose|u: usize| #[trigger] reached(g, seeds, after, u) && g[u as int].contains(v as usize);
            let p = choose|p: Seq<usize>| #[trigger] is_growth_path(g, seeds, after, p) && p.last() == u;
            lemma_paths_after_growth_are_seeds(g, seeds, init, p);
            let q = seq![u];
            assert(is_growth_path(g, seeds, init, q));
            assert(reached(g, seeds, init, u));
            assert(grown(g, seeds, init, v as usize));
        }
    }
    assert(grown_flags(g, seeds, after) =~= after);
}

/// After growing, no growth step remains from a point reachable from the
/// seeds, so every growth path over the new flags is a lone seed.
proof fn lemma_paths_after_growth_are_seeds(g: Seq<Seq<usize>>, seeds: Seq<usize>, init: Seq<bool>, p: Seq<usize>)
    requires
        g.len() == init.len(),
        forall|k: int| 0 <= k < seeds.len() ==> #[trigger] seeds[k] < init.len(),
        forall|u: int, w: usize| 0 <= u < g.len() && #[trigger] g[u].contains(w) ==> w < init.len(),
        is_growth_path(g, seeds, grown_flags(g, seeds, init), p),
    ensures
        p.len() == 1,
{
    let after = grown_flags(g, seeds, init);
    if p.len() > 1 {
        let k = choose|k: int| 0 <= k < seeds.len() && seeds[k] == p[0];
        assert(is_growth_path(g, seeds, init, seq![p[0]]));
        assert(reached(g, seeds, init, p[0]));
        assert(path_step(g, after, p, 0));
        let w = p[1];
        assert(g[p[0] as int].contains(w));
        assert(p[0] < init.len());
        assert(w < init.len());
        assert(grown(g, seeds, init, w));
        assert(after[w as int]);
    }
}

} // verus!
