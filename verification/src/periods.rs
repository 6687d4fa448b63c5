//! Runs of blocks: consecutive index ranges, the maximal runs of flagged
//! blocks (expensive periods, price regions) and the valley-peak windows of
//! a day's prices. The price comparisons that flag or classify the blocks
//! are made by the caller; these functions shape the runs.

use vstd::prelude::*;

verus! {

broadcast use vstd::slice::group_slice_axioms;

/// The maximal runs `[start, end)` of `true` in `f`, in order.
pub open spec fn true_runs(f: Seq<bool>) -> Seq<(int, int)>
    decreases f.len(),
{
    if f.len() == 0 {
        Seq::empty()
    } else {
        let r = true_runs(f.drop_last());
        let n = f.len() as int;
        if !f.last() {
            r
        } else if n >= 2 && f[n - 2] {
            r.update(r.len() - 1, (r.last().0, n))
        } else {
            r.push((n - 1, n))
        }
    }
}

/// A run ending in a flagged block ends at the end of the flags.
proof fn lemma_true_runs_last(f: Seq<bool>)
    requires
        f.len() > 0,
        f.last(),
    ensures
        true_runs(f).len() > 0,
        true_runs(f).last().1 == f.len(),
    decreases f.len(),
{
    let n = f.len() as int;
    if n >= 2 && f[n - 2] {
        lemma_true_runs_last(f.drop_last());
    }
}

/// Each run of `true_runs` is a maximal run of flagged blocks, and the runs
/// come in increasing order.
pub proof fn lemma_true_runs_maximal(f: Seq<bool>)
    ensures
        forall|k: int|
            #![trigger true_runs(f)[k]]
            0 <= k < true_runs(f).len() ==> {
                let (a, b) = true_runs(f)[k];
                &&& 0 <= a < b <= f.len()
                &&& forall|j: int| a <= j < b ==> #[trigger] f[j]
                &&& a == 0 || !f[a - 1]
                &&& b == f.len() || !f[b]
            },
        forall|k: int|
            0 <= k < true_runs(f).len() - 1 ==> #[trigger] true_runs(f)[k].1 < true_runs(f)[k + 1].0,
    decreases f.len(),
{
    if f.len() > 0 {
        let g = f.drop_last();
        lemma_true_runs_maximal(g);
        let n = f.len() as int;
        let r = true_runs(g);
        if f.last() && n >= 2 && f[n - 2] {
            lemma_true_runs_last(g);
        }
        if f.last() && !(n >= 2 && f[n - 2]) && r.len() > 0 {
            let (a, b) = r[r.len() - 1];
            assert(b <= n - 1);
            if b == n - 1 {
                assert(f[n - 2] == g[n - 2]);
                assert(g[b - 1]);
            }
        }
        assert forall|k: int|
            #![trigger true_runs(f)[k]]
            0 <= k < true_runs(f).len() implies {
            let (a, b) = true_runs(f)[k];
            &&& 0 <= a < b <= f.len()
            &&& forall|j: int| a <= j < b ==> #[trigger] f[j]
            &&& a == 0 || !f[a - 1]
            &&& b == f.len() || !f[b]
        } by {
            let (a, b) = true_runs(f)[k];
            if k < r.len() {
                let (a0, b0) = r[k];
                assert forall|j: int| a0 <= j < b0 implies #[trigger] f[j] by {
                    assert(g[j] == f[j]);
                }
                if a0 > 0 {
                    assert(g[a0 - 1] == f[a0 - 1]);
                }
                if b0 < g.len() {
                    assert(g[b0] == f[b0]);
                }
            }
        }
    }
}

/// Every flagged block lies in one of the runs of `true_runs`.
pub proof fn lemma_true_runs_cover(f: Seq<bool>)
    ensures
        forall|j: int|
            0 <= j < f.len() && #[trigger] f[j] ==> exists|k: int|
                0 <= k < true_runs(f).len() && true_runs(f)[k].0 <= j < #[trigger] true_runs(f)[k].1,
    decreases f.len(),
{
    if f.len() > 0 {
        let g = f.drop_last();
        lemma_true_runs_cover(g);
        let n = f.len() as int;
        let r = true_runs(g);
        let t = true_runs(f);
        lemma_true_runs_maximal(g);
        if f.last() && n >= 2 && f[n - 2] {
            lemma_true_runs_last(g);
            assert(t == r.update(r.len() - 1, (r.last().0, n)));
            assert(r[r.len() - 1].0 < r[r.len() - 1].1);
        }
        assert forall|j: int| 0 <= j < f.len() && #[trigger] f[j] implies exists|k: int|
            0 <= k < t.len() && t[k].0 <= j < #[trigger] t[k].1 by {
            if j < n - 1 {
                assert(g[j] == f[j]);
                let k = choose|k: int| 0 <= k < r.len() && r[k].0 <= j < #[trigger] r[k].1;
                let rk = r[k];
                assert(rk.1 <= g.len());
                if f.last() && n >= 2 && f[n - 2] {
                    if k == r.len() - 1 {
                        assert(t[k] == (rk.0, n));
                    } else {
                        assert(t[k] == rk);
                    }
                    assert(t[k].0 <= j < t[k].1);
                } else {
                    assert(t[k] == r[k]);
                    assert(t[k].0 <= j < t[k].1);
                }
            } else {
                if n >= 2 && f[n - 2] {
                    assert(t[t.len() - 1].0 <= j < t[t.len() - 1].1);
                } else {
                    assert(t[t.len() - 1] == (n - 1, n));
                    assert(t[t.len() - 1].0 <= j < t[t.len() - 1].1);
                }
            }
        }
    }
}

/// The maximal runs of `true` in `flags`, as `(start, end)` with `end`
/// exclusive.
pub fn true_runs_of(flags: &[bool]) -> (r: Vec<(usize, usize)>)
    ensures
        r@.len() == true_runs(flags@).len(),
        forall|k: int|
            0 <= k < r@.len() ==> (#[trigger] r@[k]).0 as int == true_runs(flags@)[k].0 && r@[k].1 as int
                == true_runs(flags@)[k].1,
{
    let mut runs: Vec<(usize, usize)> = Vec::new();
    let mut in_run = false;
    let mut run_start: usize = 0;
    let mut i: usize = 0;
    while i < flags.len()
        invariant
            i <= flags@.len(),
            in_run == (i > 0 && flags@[i - 1]),
            in_run ==> run_start < i,
            ({
                let t = true_runs(flags@.take(i as int));
                &&& t.len() == runs@.len() + (if in_run {
                    1int
                } else {
                    0
                })
                &&& forall|k: int|
                    0 <= k < runs@.len() ==> (#[trigger] runs@[k]).0 as int == t[k].0 && runs@[k].1 as int
                        == t[k].1
                &&& in_run ==> t.last() == (run_start as int, i as int)
            }),
        decreases flags.len() - i,
    {
        proof {
            let f = flags@.take(i + 1);
            assert(f.drop_last() =~= flags@.take(i as int));
            assert(f.last() == flags@[i as int]);
            if i > 0 {
                assert(f[i - 1] == flags@[i - 1]);
            }
        }
        if flags[i] {
            if !in_run {
                run_start = i;
                in_run = true;
            }
        } else if in_run {
            runs.push((run_start, i));
            in_run = false;
        }
        i = i + 1;
    }
    if in_run {
        runs.push((run_start, flags.len()));
    }
    assert(flags@.take(flags@.len() as int) =~= flags@);
    runs
}

/// The periods of blocks priced above the median from `current_index`
/// onwards: `above_median[k]` tells whether block `current_index + k` is
/// priced above the median of those blocks. Periods are given in absolute
/// block indices, the end exclusive.
pub fn find_expensive_periods(above_median: &[bool], current_index: usize) -> (r: Vec<(usize, usize)>)
    requires
        current_index + above_median@.len() <= usize::MAX,
    ensures
        r@.len() == true_runs(above_median@).len(),
        forall|k: int|
            0 <= k < r@.len() ==> (#[trigger] r@[k]).0 as int == current_index + true_runs(above_median@)[k].0
                && r@[k].1 as int == current_index + true_runs(above_median@)[k].1,
{
    let runs = true_runs_of(above_median);
    proof {
        lemma_true_runs_maximal(above_median@);
    }
    let mut periods: Vec<(usize, usize)> = Vec::new();
    let mut k: usize = 0;
    while k < runs.len()
        invariant
            k <= runs@.len(),
            current_index + above_median@.len() <= usize::MAX,
            runs@.len() == true_runs(above_median@).len(),
            forall|x: int|
                0 <= x < runs@.len() ==> (#[trigger] runs@[x]).0 as int == true_runs(above_median@)[x].0
                    && runs@[x].1 as int == true_runs(above_median@)[x].1,
            forall|x: int|
                #![trigger true_runs(above_median@)[x]]
                0 <= x < true_runs(above_median@).len() ==> 0 <= true_runs(above_median@)[x].0 < true_runs(
                    above_median@,
                )[x].1 <= above_median@.len(),
            periods@.len() == k,
            forall|x: int|
                0 <= x < k ==> (#[trigger] periods@[x]).0 as int == current_index + true_runs(
                    above_median@,
                )[x].0 && periods@[x].1 as int == current_index + true_runs(above_median@)[x].1,
        decreases runs.len() - k,
    {
        let (a, b) = runs[k];
        assert(0 <= true_runs(above_median@)[k as int].0);
        periods.push((current_index + a, current_index + b));
        k = k + 1;
    }
    periods
}

/// The regions of at least two consecutive flagged blocks, as the lists of
/// their block indices (regions of a single block are left out).
pub open spec fn long_regions(flags: Seq<bool>) -> Seq<(int, int)> {
    true_runs(flags).filter(|run: (int, int)| run.1 - run.0 >= 2)
}

/// The regions are exactly the maximal runs of at least two flagged blocks,
/// wherever they lie (one that ends at the last block included): `[a, b)` is
/// a region exactly when it holds at least two blocks, all of them flagged,
/// and the blocks just before and just after it, where there are such
/// blocks, are not flagged.
pub proof fn lemma_long_regions_exact(flags: Seq<bool>, a: int, b: int)
    ensures
        long_regions(flags).contains((a, b)) <==> {
            &&& 0 <= a
            &&& b - a >= 2
            &&& b <= flags.len()
            &&& forall|j: int| a <= j < b ==> #[trigger] flags[j]
            &&& a == 0 || !flags[a - 1]
            &&& b == flags.len() || !flags[b]
        },
{
    let t = true_runs(flags);
    let pred = |run: (int, int)| run.1 - run.0 >= 2;
    lemma_true_runs_maximal(flags);
    lemma_true_runs_cover(flags);
    if long_regions(flags).contains((a, b)) {
        t.lemma_filter_contains_rev(pred, (a, b));
        let i = choose|i: int| 0 <= i < t.filter(pred).len() && t.filter(pred)[i] == (a, b);
        t.lemma_filter_pred(pred, i);
        let k = choose|k: int| 0 <= k < t.len() && t[k] == (a, b);
        assert(t[k] == (a, b));
    }
    if 0 <= a && b - a >= 2 && b <= flags.len() && (forall|j: int| a <= j < b ==> #[trigger] flags[j])
        && (a == 0 || !flags[a - 1]) && (b == flags.len() || !flags[b]) {
        assert(flags[a]);
        let k = choose|k: int| 0 <= k < t.len() && t[k].0 <= a < #[trigger] t[k].1;
        let (a2, b2) = t[k];
        if a2 < a {
            assert(flags[a - 1]);
        }
        if b2 < b {
            assert(flags[b2]);
        }
        if b2 > b {
            assert(flags[b]);
        }
        assert(t[k] == (a, b));
        t.lemma_filter_contains(pred, k);
    }
}

/// The regions of at least two consecutive blocks whose flag is set, each
/// as the list of its block indices in increasing order.
pub fn find_price_regions(flags: &[bool]) -> (r: Vec<Vec<usize>>)
    ensures
        r@.len() == long_regions(flags@).len(),
        forall|k: int|
            0 <= k < r@.len() ==> (#[trigger] r@[k])@ == Seq::new(
                (long_regions(flags@)[k].1 - long_regions(flags@)[k].0) as nat,
                |j: int| (long_regions(flags@)[k].0 + j) as usize,
            ),
{
    let runs = true_runs_of(flags);
    let ghost t = true_runs(flags@);
    proof {
        lemma_true_runs_maximal(flags@);
    }
    let mut regions: Vec<Vec<usize>> = Vec::new();
    let mut k: usize = 0;
    while k < runs.len()
        invariant
            k <= runs@.len(),
            t == true_runs(flags@),
            runs@.len() == t.len(),
            forall|x: int|
                0 <= x < runs@.len() ==> (#[trigger] runs@[x]).0 as int == t[x].0 && runs@[x].1 as int
                    == t[x].1,
            forall|x: int| #![trigger t[x]] 0 <= x < t.len() ==> 0 <= t[x].0 < t[x].1 <= flags@.len(),
            regions@.len() == t.take(k as int).filter(|run: (int, int)| run.1 - run.0 >= 2).len(),
            forall|x: int|
                0 <= x < regions@.len() ==> (#[trigger] regions@[x])@ == Seq::new(
                    (t.take(k as int).filter(|run: (int, int)| run.1 - run.0 >= 2)[x].1 - t.take(
                        k as int,
                    ).filter(|run: (int, int)| run.1 - run.0 >= 2)[x].0) as nat,
                    |j: int|
                        (t.take(k as int).filter(|run: (int, int)| run.1 - run.0 >= 2)[x].0
                            + j) as usize,
                ),
        decreases runs.len() - k,
    {
        let ghost pre = t.take(k as int).filter(|run: (int, int)| run.1 - run.0 >= 2);
        proof {
            assert(t.take(k + 1).drop_last() =~= t.take(k as int));
            reveal_with_fuel(Seq::filter, 1);
        }
        let (a, b) = runs[k];
        if b - a >= 2 {
            let mut region: Vec<usize> = Vec::new();
            let mut j = a;
            while j < b
                invariant
                    a <= j <= b,
                    region@ == Seq::new((j - a) as nat, |x: int| (a + x) as usize),
                decreases b - j,
            {
                region.push(j);
                assert(region@ =~= Seq::new((j + 1 - a) as nat, |x: int| (a + x) as usize));
                j = j + 1;
            }
            regions.push(region);
            proof {
                let post = t.take(k + 1).filter(|run: (int, int)| run.1 - run.0 >= 2);
                assert(post == pre.push(t[k as int]));
                assert forall|x: int| 0 <= x < regions@.len() implies (#[trigger] regions@[x])@
                    == Seq::new(
                    (post[x].1 - post[x].0) as nat,
                    |j: int| (post[x].0 + j) as usize,
                ) by {
                    if x < pre.len() {
                        assert(post[x] == pre[x]);
                    }
                }
            }
        } else {
            proof {
                let post = t.take(k + 1).filter(|run: (int, int)| run.1 - run.0 >= 2);
                assert(post == pre);
            }
        }
        k = k + 1;
    }
    assert(t.take(runs.len() as int) =~= t);
    regions
}

/// The ranges `[start, end)` of consecutive values in a list of block
/// indices, in order: a value that is one more than its predecessor extends
/// the current range, any other value starts a new one.
pub open spec fn index_ranges(s: Seq<usize>) -> Seq<(int, int)>
    decreases s.len(),
{
    if s.len() == 0 {
        Seq::empty()
    } else {
        let r = index_ranges(s.drop_last());
        let n = s.len() as int;
        if n >= 2 && s[n - 1] == s[n - 2] + 1 {
            r.update(r.len() - 1, (r.last().0, s[n - 1] + 1))
        } else {
            r.push((s[n - 1] as int, s[n - 1] + 1))
        }
    }
}

proof fn lemma_index_ranges_last(s: Seq<usize>)
    requires
        s.len() > 0,
    ensures
        index_ranges(s).len() > 0,
        index_ranges(s).last().1 == s.last() + 1,
    decreases s.len(),
{
    let n = s.len() as int;
    if n >= 2 && s[n - 1] == s[n - 2] + 1 {
        lemma_index_ranges_last(s.drop_last());
    }
}

/// The ranges of consecutive block indices in a list sorted by index (see
/// `index_ranges`).
pub fn consecutive_ranges(sorted: &[usize]) -> (r: Vec<(usize, usize)>)
    requires
        forall|i: int| 0 <= i < sorted@.len() ==> #[trigger] sorted@[i] < usize::MAX,
    ensures
        r@.len() == index_ranges(sorted@).len(),
        forall|k: int|
            0 <= k < r@.len() ==> (#[trigger] r@[k]).0 as int == index_ranges(sorted@)[k].0 && r@[k].1 as int
                == index_ranges(sorted@)[k].1,
{
    let mut ranges: Vec<(usize, usize)> = Vec::new();
    if sorted.len() == 0 {
        return ranges;
    }
    let mut range_start = sorted[0];
    let mut prev = sorted[0];
    proof {
        let f = sorted@.take(1);
        assert(f.drop_last() =~= Seq::<usize>::empty());
        assert(index_ranges(f.drop_last()) =~= Seq::<(int, int)>::empty());
        assert(f[0] == sorted@[0]);
        assert(index_ranges(f) =~= seq![(sorted@[0] as int, sorted@[0] + 1)]);
    }
    let mut i: usize = 1;
    while i < sorted.len()
        invariant
            1 <= i <= sorted@.len(),
            forall|x: int| 0 <= x < sorted@.len() ==> #[trigger] sorted@[x] < usize::MAX,
            prev == sorted@[i - 1],
            ({
                let t = index_ranges(sorted@.take(i as int));
                &&& t.len() == ranges@.len() + 1
                &&& forall|k: int|
                    0 <= k < ranges@.len() ==> (#[trigger] ranges@[k]).0 as int == t[k].0 && ranges@[k].1 as int
                        == t[k].1
                &&& t.last() == (range_start as int, prev + 1)
            }),
        decreases sorted.len() - i,
    {
        let curr = sorted[i];
        proof {
            let f = sorted@.take(i + 1);
            assert(f.drop_last() =~= sorted@.take(i as int));
            assert(f[i as int] == curr);
            assert(f[i - 1] == prev);
            lemma_index_ranges_last(sorted@.take(i as int));
        }
        if curr != prev + 1 {
            ranges.push((range_start, prev + 1));
            range_start = curr;
        }
        prev = curr;
        i = i + 1;
    }
    ranges.push((range_start, prev + 1));
    assert(sorted@.take(sorted@.len() as int) =~= sorted@);
    ranges
}

/// How a block's price compares with the day's average: well below (a
/// valley), well above (a peak), or in between.
#[derive(Debug, Clone, Copy, PartialEq, Eq, Structural)]
pub enum PriceClass {
    Valley,
    Peak,
    Neutral,
}

/// The scan state after a prefix of the classified blocks: the windows
/// completed, the phase (0 seeking a valley, 1 in a valley, 2 in a peak),
/// and the valley and peak blocks of the window being built.
pub open spec fn window_scan(classes: Seq<PriceClass>) -> (
    Seq<(Seq<usize>, Seq<usize>)>,
    int,
    Seq<usize>,
    Seq<usize>,
)
    decreases classes.len(),
{
    if classes.len() == 0 {
        (Seq::empty(), 0, Seq::empty(), Seq::empty())
    } else {
        let (w, st, v, p) = window_scan(classes.drop_last());
        let idx = (classes.len() - 1) as usize;
        let c = classes.last();
        if st == 0 {
            if c is Valley {
                (w, 1, v.push(idx), p)
            } else {
                (w, 0, v, p)
            }
        } else if st == 1 {
            if c is Peak {
                (w, 2, v, p.push(idx))
            } else {
                (w, 1, v.push(idx), p)
            }
        } else {
            if c is Valley {
                (
                    if v.len() > 0 && p.len() > 0 {
                        w.push((v, p))
                    } else {
                        w
                    },
                    1,
                    seq![idx],
                    Seq::empty(),
                )
            } else {
                (w, 2, v, p.push(idx))
            }
        }
    }
}

/// The valley-peak windows of a day: a valley (cheap blocks, with the
/// neutral blocks that follow it) up to a peak (expensive blocks, with the
/// neutral blocks that follow it), closed by the next valley or by the end of
/// the day. Fewer than eight blocks give no window.
pub open spec fn arbitrage_windows(classes: Seq<PriceClass>) -> Seq<(Seq<usize>, Seq<usize>)> {
    if classes.len() < 8 {
        Seq::empty()
    } else {
        let (w, st, v, p) = window_scan(classes);
        if v.len() > 0 && p.len() > 0 {
            w.push((v, p))
        } else {
            w
        }
    }
}

/// Whether the values of `s` increase strictly.
pub open spec fn strictly_increasing(s: Seq<usize>) -> bool {
    forall|i: int, j: int| 0 <= i < j < s.len() ==> s[i] < s[j]
}

/// Whether a window is a non-empty valley followed by a non-empty peak,
/// in block order, within the first `n` blocks.
pub open spec fn well_shaped_window(w: (Seq<usize>, Seq<usize>), n: int) -> bool {
    &&& w.0.len() > 0
    &&& w.1.len() > 0
    &&& strictly_increasing(w.0 + w.1)
    &&& (w.0 + w.1).last() < n
}

/// The scan state's shape: completed windows are well shaped and in order,
/// and the window being built is a valley (then a peak) after them.
spec fn scan_shape(
    w: Seq<(Seq<usize>, Seq<usize>)>,
    st: int,
    v: Seq<usize>,
    p: Seq<usize>,
    n: int,
) -> bool {
    &&& forall|k: int| 0 <= k < w.len() ==> well_shaped_window(#[trigger] w[k], n)
    &&& forall|k: int, k2: int|
        0 <= k < k2 < w.len() ==> (#[trigger] w[k].0 + w[k].1).last() < (#[trigger] w[k2]).0[0]
    &&& 0 <= st <= 2
    &&& st == 0 ==> v.len() == 0 && p.len() == 0
    &&& st == 1 ==> v.len() > 0 && p.len() == 0
    &&& st == 2 ==> v.len() > 0 && p.len() > 0
    &&& st > 0 ==> strictly_increasing(v + p) && (v + p).last() < n && (w.len() > 0 ==> (w.last().0
        + w.last().1).last() < v[0])
}

proof fn lemma_window_first_le_last(w: (Seq<usize>, Seq<usize>), n: int)
    requires
        well_shaped_window(w, n),
    ensures
        w.0[0] <= (w.0 + w.1).last(),
{
    let c = w.0 + w.1;
    assert(c[0] == w.0[0]);
    if c.len() > 1 {
        assert(c[0] < c[c.len() - 1]);
    }
}

proof fn lemma_window_scan_shape(classes: Seq<PriceClass>)
    requires
        classes.len() <= usize::MAX,
    ensures
        ({
            let (w, st, v, p) = window_scan(classes);
            scan_shape(w, st, v, p, classes.len() as int)
        }),
    decreases classes.len(),
{
    if classes.len() > 0 {
        let init = classes.drop_last();
        lemma_window_scan_shape(init);
        let (w, st, v, p) = window_scan(init);
        let n = init.len() as int;
        let idx = n as usize;
        let c = classes.last();
        let w2 = window_scan(classes).0;
        assert(idx == n);
        // windows completed before stay well shaped with the larger bound
        assert forall|k: int| 0 <= k < w.len() implies well_shaped_window(#[trigger] w[k], n + 1) by {}
        if st > 0 {
            assert((v + p).push(idx) =~= v + p.push(idx));
            assert(strictly_increasing((v + p).push(idx))) by {
                let q = (v + p).push(idx);
                assert forall|i: int, j: int| 0 <= i < j < q.len() implies q[i] < q[j] by {
                    if j < q.len() - 1 {
                        assert(q[i] == (v + p)[i] && q[j] == (v + p)[j]);
                    } else {
                        assert(q[i] == (v + p)[i]);
                        if i < (v + p).len() - 1 {
                            assert((v + p)[i] < (v + p)[(v + p).len() - 1]);
                        }
                    }
                }
            }
        }
        if st == 0 && c is Valley {
            assert(v.push(idx) =~= seq![idx]);
            assert(v.push(idx) + p =~= seq![idx]);
            if w.len() > 0 {
                assert(well_shaped_window(w.last(), n));
            }
        } else if st == 1 && c is Peak {
            assert(v + p.push(idx) =~= (v + p).push(idx));
        } else if st == 1 {
            assert(p =~= Seq::<usize>::empty());
            assert(v.push(idx) + p =~= (v + p).push(idx));
        } else if st == 2 && c is Valley {
            let win = (v, p);
            assert(well_shaped_window(win, n + 1));
            assert(w2 == w.push(win));
            assert(seq![idx] + Seq::<usize>::empty() =~= seq![idx]);
            assert forall|k: int, k2: int| 0 <= k < k2 < w2.len() implies (#[trigger] w2[k].0 + w2[k].1).last()
                < (#[trigger] w2[k2]).0[0] by {
                if k2 < w.len() {
                    assert(w2[k] == w[k] && w2[k2] == w[k2]);
                } else {
                    assert(w2[k2] == win);
                    assert(w2[k] == w[k]);
                    if k < w.len() - 1 {
                        assert((w[k].0 + w[k].1).last() < w[w.len() - 1].0[0]);
                        lemma_window_first_le_last(w[w.len() - 1], n);
                    }
                }
            }
            assert forall|k: int| 0 <= k < w2.len() implies well_shaped_window(#[trigger] w2[k], n + 1) by {
                if k < w.len() {
                    assert(w2[k] == w[k]);
                }
            }
            assert(w2.last() == win);
        } else if st == 2 {
            assert(v + p.push(idx) =~= (v + p).push(idx));
        }
    } else {
        assert(window_scan(classes) == (
            Seq::<(Seq<usize>, Seq<usize>)>::empty(),
            0int,
            Seq::<usize>::empty(),
            Seq::<usize>::empty(),
        ));
    }
}

/// Every valley-peak window is a non-empty valley followed by a non-empty
/// peak, in block order, and each window ends before the next one begins.
pub proof fn lemma_arbitrage_windows_shape(classes: Seq<PriceClass>)
    requires
        classes.len() <= usize::MAX,
    ensures
        forall|k: int|
            0 <= k < arbitrage_windows(classes).len() ==> well_shaped_window(
                #[trigger] arbitrage_windows(classes)[k],
                classes.len() as int,
            ),
        forall|k: int, k2: int|
            0 <= k < k2 < arbitrage_windows(classes).len() ==> (#[trigger] arbitrage_windows(classes)[k].0
                + arbitrage_windows(classes)[k].1).last() < (#[trigger] arbitrage_windows(classes)[k2]).0[0],
{
    if classes.len() >= 8 {
        lemma_window_scan_shape(classes);
        let (w, st, v, p) = window_scan(classes);
        let n = classes.len() as int;
        if v.len() > 0 && p.len() > 0 {
            let r = w.push((v, p));
            assert(st == 2);
            assert forall|k: int| 0 <= k < r.len() implies well_shaped_window(#[trigger] r[k], n) by {
                if k < w.len() {
                    assert(r[k] == w[k]);
                }
            }
            assert forall|k: int, k2: int| 0 <= k < k2 < r.len() implies (#[trigger] r[k].0 + r[k].1).last()
                < (#[trigger] r[k2]).0[0] by {
                if k2 < w.len() {
                    assert(r[k] == w[k] && r[k2] == w[k2]);
                } else {
                    assert(r[k] == w[k]);
                    if k < w.len() - 1 {
                        assert((w[k].0 + w[k].1).last() < w[w.len() - 1].0[0]);
                        lemma_window_first_le_last(w[w.len() - 1], n);
                    }
                }
            }
        }
    }
}

/// Whether `s` holds consecutive block indices, in increasing order.
pub open spec fn consecutive_blocks(s: Seq<usize>) -> bool {
    forall|i: int| 0 <= i < s.len() ==> #[trigger] s[i] == s[0] + i
}

/// Whether a window fits the classes: its valley and peak slots together are
/// consecutive blocks of the day; the valley starts at a valley block and
/// holds no peak block; the peak starts at a peak block and holds no valley
/// block.
pub open spec fn window_fits(win: (Seq<usize>, Seq<usize>), classes: Seq<PriceClass>) -> bool {
    &&& win.0.len() > 0
    &&& win.1.len() > 0
    &&& consecutive_blocks(win.0 + win.1)
    &&& (win.0 + win.1).last() < classes.len()
    &&& classes[win.0[0] as int] is Valley
    &&& forall|i: int| 0 <= i < win.0.len() ==> !(classes[#[trigger] win.0[i] as int] is Peak)
    &&& classes[win.1[0] as int] is Peak
    &&& forall|i: int| 0 <= i < win.1.len() ==> !(classes[#[trigger] win.1[i] as int] is Valley)
}

/// Whether block `j` is one of the peak slots of one of the windows.
pub open spec fn in_some_peak(wins: Seq<(Seq<usize>, Seq<usize>)>, j: int) -> bool {
    exists|k: int, x: int| 0 <= k < wins.len() && 0 <= x < wins[k].1.len() && #[trigger] wins[k].1[x] == j
}

/// The scan after the first `m` blocks: completed windows fit and follow one
/// another without a gap; the window being built is consecutive up to block
/// `m - 1` and follows the last completed one; no valley block comes before
/// the first window.
spec fn scan_covers(classes: Seq<PriceClass>, m: int) -> bool {
    let (w, st, v, p) = window_scan(classes.take(m));
    &&& forall|k: int| 0 <= k < w.len() ==> window_fits(#[trigger] w[k], classes)
    &&& forall|k: int|
        0 <= k < w.len() - 1 ==> (#[trigger] w[k].0 + w[k].1).last() + 1 == w[k + 1].0[0]
    &&& 0 <= st <= 2
    &&& st == 0 ==> w.len() == 0 && v.len() == 0 && p.len() == 0 && forall|j: int|
        0 <= j < m ==> !(#[trigger] classes[j] is Valley)
    &&& st > 0 ==> {
        &&& v.len() > 0
        &&& consecutive_blocks(v + p)
        &&& (v + p).last() == m - 1
        &&& classes[v[0] as int] is Valley
        &&& forall|i: int| 0 <= i < v.len() ==> !(classes[#[trigger] v[i] as int] is Peak)
        &&& forall|j: int|
            0 <= j < (if w.len() > 0 {
                w[0].0[0] as int
            } else {
                v[0] as int
            }) ==> !(#[trigger] classes[j] is Valley)
        &&& w.len() > 0 ==> (w.last().0 + w.last().1).last() + 1 == v[0]
    }
    &&& st == 1 ==> p.len() == 0
    &&& st == 2 ==> p.len() > 0 && classes[p[0] as int] is Peak && forall|i: int|
        0 <= i < p.len() ==> !(classes[#[trigger] p[i] as int] is Valley)
}

/// The scan after the first `m` blocks has taken every peak block that
/// follows a valley block into a completed window or into the peak being
/// built.
spec fn scan_takes_peaks(classes: Seq<PriceClass>, m: int) -> bool {
    let (w, st, v, p) = window_scan(classes.take(m));
    forall|j: int|
        0 <= j < m && #[trigger] classes[j] is Peak && (exists|i: int| 0 <= i < j && classes[i] is Valley)
            ==> in_some_peak(w, j) || p.contains(j as usize)
}

proof fn lemma_scan_takes_peaks(classes: Seq<PriceClass>, m: int)
    requires
        0 <= m <= classes.len() <= usize::MAX,
    ensures
        scan_takes_peaks(classes, m),
    decreases m,
{
    if m > 0 {
        lemma_scan_takes_peaks(classes, m - 1);
        lemma_scan_covers(classes, m - 1);
        let pre = classes.take(m - 1);
        let cur = classes.take(m);
        assert(cur.drop_last() =~= pre);
        assert(cur.last() == classes[m - 1]);
        let (w, st, v, p) = window_scan(pre);
        let (w2, st2, v2, p2) = window_scan(cur);
        let idx = (m - 1) as usize;
        let c = classes[m - 1];
        assert(idx == m - 1);
        assert forall|j: int|
            0 <= j < m && #[trigger] classes[j] is Peak && (exists|i: int| 0 <= i < j && classes[i] is Valley)
                implies in_some_peak(w2, j) || p2.contains(j as usize) by {
            if j < m - 1 {
                if in_some_peak(w, j) {
                    let (k, x) = choose|k: int, x: int|
                        0 <= k < w.len() && 0 <= x < w[k].1.len() && #[trigger] w[k].1[x] == j;
                    if st == 2 && c is Valley {
                        assert(w2[k] == w[k]);
                    }
                    assert(w2[k] == w[k]);
                    assert(w2[k].1[x] == j);
                } else {
                    let x = choose|x: int| 0 <= x < p.len() && p[x] == j as usize;
                    if st == 2 && c is Valley {
                        assert(w2[w.len() as int] == (v, p));
                        assert(w2[w.len() as int].1[x] == j);
                    } else {
                        assert(p2[x] == p[x]);
                    }
                }
            } else {
                let i = choose|i: int| 0 <= i < j && classes[i] is Valley;
                assert(st != 0);
                assert(p2[p2.len() - 1] == idx);
            }
        }
    } else {
        assert(classes.take(0) =~= Seq::<PriceClass>::empty());
    }
}

proof fn lemma_consecutive_push(s: Seq<usize>, x: usize)
    requires
        s.len() > 0,
        consecutive_blocks(s),
        x == s.last() + 1,
    ensures
        consecutive_blocks(s.push(x)),
        s.push(x)[0] == s[0],
{
    let t = s.push(x);
    assert(s[s.len() - 1] == s[0] + s.len() - 1);
    assert forall|i: int| 0 <= i < t.len() implies #[trigger] t[i] == t[0] + i by {
        if i < s.len() {
            assert(t[i] == s[i]);
        }
    }
}

proof fn lemma_scan_covers(classes: Seq<PriceClass>, m: int)
    requires
        0 <= m <= classes.len() <= usize::MAX,
    ensures
        scan_covers(classes, m),
    decreases m,
{
    if m == 0 {
        assert(classes.take(0) =~= Seq::<PriceClass>::empty());
    } else {
        lemma_scan_covers(classes, m - 1);
        let pre = classes.take(m - 1);
        let cur = classes.take(m);
        assert(cur.drop_last() =~= pre);
        assert(cur.last() == classes[m - 1]);
        let (w, st, v, p) = window_scan(pre);
        let (w2, st2, v2, p2) = window_scan(cur);
        let idx = (m - 1) as usize;
        let c = classes[m - 1];
        assert(idx == m - 1);
        if st == 0 {
            if c is Valley {
                assert(v2 =~= seq![idx]);
                assert(v2 + p2 =~= seq![idx]);
            }
        } else if st == 1 {
            assert(p =~= Seq::<usize>::empty());
            assert(v + p =~= v);
            if c is Peak {
                assert(v2 + p2 =~= (v + p).push(idx));
                lemma_consecutive_push(v + p, idx);
                assert(p2[0] == idx);
                assert forall|i: int| 0 <= i < p2.len() implies !(classes[#[trigger] p2[i] as int] is Valley) by {
                    assert(p2[i] == idx);
                }
            } else {
                assert(v2 + p2 =~= (v + p).push(idx));
                lemma_consecutive_push(v + p, idx);
                assert(v2[0] == v[0]);
                assert forall|i: int| 0 <= i < v2.len() implies !(classes[#[trigger] v2[i] as int] is Peak) by {
                    if i < v.len() {
                        assert(v2[i] == v[i]);
                    }
                }
            }
        } else {
            if c is Valley {
                let win = (v, p);
                assert(w2 == w.push(win));
                assert(window_fits(win, classes));
                assert(v2 =~= seq![idx]);
                assert(v2 + p2 =~= seq![idx]);
                assert(w2.last() == win);
                assert forall|k: int| 0 <= k < w2.len() implies window_fits(#[trigger] w2[k], classes) by {
                    if k < w.len() {
                        assert(w2[k] == w[k]);
                    }
                }
                assert forall|k: int| 0 <= k < w2.len() - 1 implies (#[trigger] w2[k].0 + w2[k].1).last() + 1
                    == w2[k + 1].0[0] by {
                    assert(w2[k] == w[k]);
                    if k < w.len() - 1 {
                        assert(w2[k + 1] == w[k + 1]);
                    }
                }
                if w.len() > 0 {
                    assert(w2[0] == w[0]);
                }
            } else {
                assert(v2 + p2 =~= (v + p).push(idx));
                lemma_consecutive_push(v + p, idx);
                assert(p2[0] == p[0]);
                assert forall|i: int| 0 <= i < p2.len() implies !(classes[#[trigger] p2[i] as int] is Valley) by {
                    if i < p.len() {
                        assert(p2[i] == p[i]);
                    }
                }
            }
        }
    }
}

/// The valley-peak windows cover the day without gaps from the first valley
/// block on: each window fits the classes (its valley and peak slots
/// together are consecutive blocks, the valley starts at a valley block and
/// holds no peak block, the peak starts at a peak block and holds no valley
/// block); no valley block comes before the first window; each window ends
/// just before the next one begins; and the last one ends at the end of the
/// day or just before a valley block. So every peak or neutral block after a
/// window's first peak block and before the next valley block is one of
/// that window's peak slots.
pub proof fn lemma_arbitrage_windows_cover(classes: Seq<PriceClass>)
    requires
        classes.len() <= usize::MAX,
    ensures
        ({
            let w = arbitrage_windows(classes);
            &&& forall|k: int| 0 <= k < w.len() ==> window_fits(#[trigger] w[k], classes)
            &&& w.len() > 0 ==> forall|j: int| 0 <= j < w[0].0[0] ==> !(#[trigger] classes[j] is Valley)
            &&& forall|k: int|
                0 <= k < w.len() - 1 ==> (#[trigger] w[k].0 + w[k].1).last() + 1 == w[k + 1].0[0]
            &&& w.len() > 0 ==> {
                let e = (w.last().0 + w.last().1).last() as int;
                e == classes.len() - 1 || classes[e + 1] is Valley
            }
        }),
{
    let n = classes.len() as int;
    if n >= 8 {
        lemma_scan_covers(classes, n);
        assert(classes.take(n) =~= classes);
        let (w, st, v, p) = window_scan(classes);
        if v.len() > 0 && p.len() > 0 {
            let r = w.push((v, p));
            assert(st == 2);
            assert(r.last() == (v, p));
            assert forall|k: int| 0 <= k < r.len() implies window_fits(#[trigger] r[k], classes) by {
                if k < w.len() {
                    assert(r[k] == w[k]);
                }
            }
            assert forall|k: int| 0 <= k < r.len() - 1 implies (#[trigger] r[k].0 + r[k].1).last() + 1
                == r[k + 1].0[0] by {
                assert(r[k] == w[k]);
                if k < w.len() - 1 {
                    assert(r[k + 1] == w[k + 1]);
                }
            }
            if w.len() > 0 {
                assert(r[0] == w[0]);
            }
        } else if w.len() > 0 {
            assert(st == 1);
        }
    }
}

/// On a day of at least eight blocks, every peak block that comes after a
/// valley block is a peak slot of one of the windows: no window that the
/// classes call for is left out.
pub proof fn lemma_arbitrage_windows_take_peaks(classes: Seq<PriceClass>, j: int)
    requires
        classes.len() <= usize::MAX,
        classes.len() >= 8,
        0 <= j < classes.len(),
        classes[j] is Peak,
        exists|i: int| 0 <= i < j && classes[i] is Valley,
    ensures
        in_some_peak(arbitrage_windows(classes), j),
{
    let n = classes.len() as int;
    lemma_scan_covers(classes, n);
    lemma_scan_takes_peaks(classes, n);
    assert(classes.take(n) =~= classes);
    let (w, st, v, p) = window_scan(classes);
    assert(classes[j] is Peak);
    if v.len() > 0 && p.len() > 0 {
        let r = w.push((v, p));
        if in_some_peak(w, j) {
            let (k, x) = choose|k: int, x: int| 0 <= k < w.len() && 0 <= x < w[k].1.len() && #[trigger] w[k].1[x] == j;
            assert(r[k] == w[k]);
            assert(r[k].1[x] == j);
        } else {
            let x = choose|x: int| 0 <= x < p.len() && p[x] == j as usize;
            assert(r[w.len() as int] == (v, p));
            assert(r[w.len() as int].1[x] == j);
        }
    } else {
        assert(p.len() == 0);
        assert(!p.contains(j as usize));
    }
}

/// The slots of a valley-peak window.
#[derive(Debug, Clone)]
pub struct WindowSlots {
    /// Indices of valley slots (cheap charging period)
    pub valley_slots: Vec<usize>,
    /// Indices of peak slots (expensive discharge period)
    pub peak_slots: Vec<usize>,
}

impl View for WindowSlots {
    type V = (Seq<usize>, Seq<usize>);

    open spec fn view(&self) -> (Seq<usize>, Seq<usize>) {
        (self.valley_slots@, self.peak_slots@)
    }
}

/// The valley-peak windows of a day (see `arbitrage_windows`).
pub fn detect_window_slots(classes: &[PriceClass]) -> (r: Vec<WindowSlots>)
    ensures
        r@.map_values(|w: WindowSlots| w@) == arbitrage_windows(classes@),
{
    let mut windows: Vec<WindowSlots> = Vec::new();
    if classes.len() < 8 {
        assert(windows@.map_values(|w: WindowSlots| w@) =~= Seq::<(Seq<usize>, Seq<usize>)>::empty());
        return windows;
    }
    let mut state: u8 = 0;
    let mut valley: Vec<usize> = Vec::new();
    let mut peak: Vec<usize> = Vec::new();
    let mut i: usize = 0;
    while i < classes.len()
        invariant
            i <= classes@.len(),
            ({
                let (w, st, v, p) = window_scan(classes@.take(i as int));
                &&& windows@.map_values(|x: WindowSlots| x@) == w
                &&& state as int == st
                &&& valley@ == v
                &&& peak@ == p
            }),
        decreases classes.len() - i,
    {
        proof {
            let f = classes@.take(i + 1);
            assert(f.drop_last() =~= classes@.take(i as int));
            assert(f.last() == classes@[i as int]);
        }
        let ghost before = windows@.map_values(|x: WindowSlots| x@);
        let c = classes[i];
        if state == 0 {
            if c == PriceClass::Valley {
                valley.push(i);
                state = 1;
            }
        } else if state == 1 {
            if c == PriceClass::Peak {
                peak.push(i);
                state = 2;
            } else {
                valley.push(i);
            }
        } else {
            if c == PriceClass::Valley {
                if valley.len() > 0 && peak.len() > 0 {
                    let v = valley;
                    let p = peak;
                    valley = Vec::new();
                    peak = Vec::new();
                    windows.push(WindowSlots { valley_slots: v, peak_slots: p });
                    assert(windows@.map_values(|x: WindowSlots| x@) =~= before.push(
                        windows@.last()@,
                    ));
                } else {
                    valley = Vec::new();
                    peak = Vec::new();
                }
                valley.push(i);
                assert(valley@ =~= seq![i]);
                state = 1;
            } else {
                peak.push(i);
            }
        }
        i = i + 1;
    }
    assert(classes@.take(classes@.len() as int) =~= classes@);
    if valley.len() > 0 && peak.len() > 0 {
        let ghost before = windows@.map_values(|x: WindowSlots| x@);
        windows.push(WindowSlots { valley_slots: valley, peak_slots: peak });
        assert(windows@.map_values(|x: WindowSlots| x@) =~= before.push(windows@.last()@));
    }
    windows
}

} // verus!
