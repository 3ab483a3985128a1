//! The quantizer: constructs a candidate color set of a target size from a
//! histogram by incremental construction (repeated splits) with periodic
//! clustering refinement, under a squared-distance metric over all four
//! channels.

use vstd::prelude::*;
use crate::color::{lemma_rnd_bounds, rnd, Color};
use crate::error::Error;
use crate::histogram::{sum_counts, HistEntry, Histogram};

verus! {

/// Squared distance between two colors, summed over all four channels.
pub open spec fn spec_dist(x: Color, y: Color) -> int {
    let dr = x.r - y.r;
    let dg = x.g - y.g;
    let db = x.b - y.b;
    let da = x.a - y.a;
    dr * dr + dg * dg + db * db + da * da
}

/// The squared distance over four 8-bit channels is at most 4 * 255 * 255.
pub proof fn lemma_dist_bounds(x: Color, y: Color)
    ensures
        0 <= spec_dist(x, y) <= 260100,
{
    lemma_sq_bounds(x.r - y.r);
    lemma_sq_bounds(x.g - y.g);
    lemma_sq_bounds(x.b - y.b);
    lemma_sq_bounds(x.a - y.a);
}

proof fn lemma_sq_bounds(d: int)
    requires
        -255 <= d <= 255,
    ensures
        0 <= d * d <= 65025,
{
    assert(0 <= d * d <= 65025) by (nonlinear_arith)
        requires -255 <= d <= 255;
}

pub fn dist(x: &Color, y: &Color) -> (d: u32)
    ensures
        d == spec_dist(*x, *y),
{
    let dr = x.r as i32 - y.r as i32;
    let dg = x.g as i32 - y.g as i32;
    let db = x.b as i32 - y.b as i32;
    let da = x.a as i32 - y.a as i32;
    proof {
        lemma_sq_bounds(dr as int);
        lemma_sq_bounds(dg as int);
        lemma_sq_bounds(db as int);
        lemma_sq_bounds(da as int);
    }
    (dr * dr + dg * dg + db * db + da * da) as u32
}

/// The least squared distance from `c` to any color of `reps`.
pub open spec fn min_dist(reps: Seq<Color>, c: Color) -> int
    recommends
        reps.len() >= 1,
    decreases reps.len(),
{
    if reps.len() <= 1 {
        spec_dist(reps[0], c)
    } else {
        let rest = min_dist(reps.drop_last(), c);
        let dl = spec_dist(reps.last(), c);
        if dl < rest {
            dl
        } else {
            rest
        }
    }
}

/// The first index of `reps` whose color is at the least squared distance
/// from `c`: a later entry replaces an earlier one only when strictly
/// closer.
pub open spec fn nearest_idx(reps: Seq<Color>, c: Color) -> int
    decreases reps.len(),
{
    if reps.len() <= 1 {
        0
    } else {
        let j = nearest_idx(reps.drop_last(), c);
        if spec_dist(reps.last(), c) < spec_dist(reps[j], c) {
            reps.len() - 1
        } else {
            j
        }
    }
}

/// The nearest index is in range, attains the least distance, and no
/// earlier index does.
pub proof fn lemma_nearest(reps: Seq<Color>, c: Color)
    requires
        reps.len() >= 1,
    ensures
        0 <= nearest_idx(reps, c) < reps.len(),
        spec_dist(reps[nearest_idx(reps, c)], c) == min_dist(reps, c),
        forall|j: int| 0 <= j < reps.len() ==> min_dist(reps, c) <= spec_dist(#[trigger] reps[j], c),
        forall|j: int|
            0 <= j < nearest_idx(reps, c) ==> min_dist(reps, c) < spec_dist(#[trigger] reps[j], c),
    decreases reps.len(),
{
    if reps.len() > 1 {
        let rest = reps.drop_last();
        lemma_nearest(rest, c);
        assert forall|j: int| 0 <= j < reps.len() implies min_dist(reps, c) <= spec_dist(
            #[trigger] reps[j],
            c,
        ) by {
            if j < reps.len() - 1 {
                assert(reps[j] == rest[j]);
                assert(min_dist(rest, c) <= spec_dist(rest[j], c));
            }
        }
        assert forall|j: int| 0 <= j < nearest_idx(reps, c) implies min_dist(reps, c) < spec_dist(
            #[trigger] reps[j],
            c,
        ) by {
            assert(reps[j] == rest[j]);
            assert(min_dist(rest, c) <= spec_dist(rest[j], c));
            if j < nearest_idx(rest, c) {
                assert(min_dist(rest, c) < spec_dist(rest[j], c));
            }
        }
    }
}

/// The first color of `reps` at the least squared distance from `c`.
pub fn nearest(reps: &Vec<Color>, c: &Color) -> (best: usize)
    requires
        reps@.len() >= 1,
    ensures
        best == nearest_idx(reps@, *c),
        best < reps@.len(),
{
    let mut best: usize = 0;
    let mut best_d: u32 = dist(&reps[0], c);
    let mut j: usize = 1;
    proof {
        assert(reps@.take(1).len() == 1);
        assert(reps@.take(1)[0] == reps@[0]);
    }
    while j < reps.len()
        invariant
            1 <= j <= reps@.len(),
            reps@.len() >= 1,
            best == nearest_idx(reps@.take(j as int), *c),
            0 <= best < j,
            best_d == spec_dist(reps@[best as int], *c),
        decreases reps@.len() - j,
    {
        proof {
            assert(reps@.take(j + 1).drop_last() =~= reps@.take(j as int));
            assert(reps@.take(j + 1).last() == reps@[j as int]);
        }
        let d = dist(&reps[j], c);
        if d < best_d {
            best = j;
            best_d = d;
        }
        j += 1;
    }
    proof {
        assert(reps@.take(j as int) =~= reps@);
    }
    best
}

/// The weight an optimizer strategy gives one bucket: the pixel count for
/// the frequency-weighted strategy, 1 for the unweighted one.
pub open spec fn weight(e: HistEntry, weighted: bool) -> int {
    if weighted {
        e.count as int
    } else {
        1
    }
}

/// The total weight of all buckets under a strategy.
pub open spec fn wtotal(entries: Seq<HistEntry>, weighted: bool) -> int {
    if weighted {
        sum_counts(entries) as int
    } else {
        entries.len() as int
    }
}

/// Channel `ch` of a color: r, g, b, a for 0, 1, 2, 3.
pub open spec fn channel(c: Color, ch: int) -> int {
    if ch == 0 {
        c.r as int
    } else if ch == 1 {
        c.g as int
    } else if ch == 2 {
        c.b as int
    } else {
        c.a as int
    }
}

/// The weighted sum of channel `ch` over all buckets.
pub open spec fn wsum(entries: Seq<HistEntry>, weighted: bool, ch: int) -> int
    decreases entries.len(),
{
    if entries.len() == 0 {
        0
    } else {
        wsum(entries.drop_last(), weighted, ch) + weight(entries.last(), weighted) * channel(
            entries.last().color,
            ch,
        )
    }
}

/// The weighted centroid of all buckets, rounding each channel to the
/// nearest integer; an empty histogram yields opaque black.
pub open spec fn spec_centroid(entries: Seq<HistEntry>, weighted: bool) -> Color {
    if entries.len() == 0 {
        Color { r: 0, g: 0, b: 0, a: 255 }
    } else {
        let den = wtotal(entries, weighted);
        Color {
            r: rnd(wsum(entries, weighted, 0), den) as u8,
            g: rnd(wsum(entries, weighted, 1), den) as u8,
            b: rnd(wsum(entries, weighted, 2), den) as u8,
            a: rnd(wsum(entries, weighted, 3), den) as u8,
        }
    }
}

/// Weighted channel sums stay between 0 and 255 times the total weight,
/// and the total weight is nonnegative.
proof fn lemma_wsum_bounds(entries: Seq<HistEntry>, weighted: bool, ch: int)
    ensures
        0 <= wtotal(entries, weighted),
        0 <= wsum(entries, weighted, ch) <= 255 * wtotal(entries, weighted),
    decreases entries.len(),
{
    if entries.len() > 0 {
        lemma_wsum_bounds(entries.drop_last(), weighted, ch);
        let w = weight(entries.last(), weighted);
        let c = channel(entries.last().color, ch);
        assert(0 <= w * c <= 255 * w) by (nonlinear_arith)
            requires 0 <= w, 0 <= c <= 255;
        assert(wtotal(entries, weighted) == wtotal(entries.drop_last(), weighted) + w);
    }
}

/// When every bucket color has alpha at least 1, the weighted alpha sum is
/// at least the total weight.
proof fn lemma_wsum_alpha(entries: Seq<HistEntry>, weighted: bool)
    requires
        forall|i: int| 0 <= i < entries.len() ==> (#[trigger] entries[i]).color.a >= 1,
    ensures
        wsum(entries, weighted, 3) >= wtotal(entries, weighted),
    decreases entries.len(),
{
    if entries.len() > 0 {
        lemma_wsum_alpha(entries.drop_last(), weighted);
        let w = weight(entries.last(), weighted);
        let c = channel(entries.last().color, 3);
        assert(w * c >= w) by (nonlinear_arith)
            requires 0 <= w, 1 <= c;
        assert(wtotal(entries, weighted) == wtotal(entries.drop_last(), weighted) + w);
    }
}

/// With every bucket count at least 1, the sum of counts dominates the
/// number of buckets.
proof fn lemma_sum_counts_ge_len(entries: Seq<HistEntry>)
    requires
        forall|i: int| 0 <= i < entries.len() ==> (#[trigger] entries[i]).count >= 1,
    ensures
        sum_counts(entries) >= entries.len(),
    decreases entries.len(),
{
    if entries.len() > 0 {
        lemma_sum_counts_ge_len(entries.drop_last());
    }
}

/// A prefix of the buckets sums to no more than the whole.
proof fn lemma_sum_counts_take_le(entries: Seq<HistEntry>, i: int)
    requires
        0 <= i <= entries.len(),
    ensures
        sum_counts(entries.take(i)) <= sum_counts(entries),
    decreases entries.len() - i,
{
    if i < entries.len() {
        lemma_sum_counts_take_le(entries, i + 1);
        assert(entries.take(i + 1).drop_last() =~= entries.take(i));
    } else {
        assert(entries.take(i) =~= entries);
    }
}

/// The weighted centroid of all buckets; an empty histogram yields opaque
/// black. When every bucket color is opaque the centroid is opaque too.
pub fn centroid(entries: &Vec<HistEntry>, weighted: bool) -> (c: Color)
    requires
        forall|i: int| 0 <= i < entries@.len() ==> (#[trigger] entries@[i]).count >= 1,
        sum_counts(entries@) <= u64::MAX,
    ensures
        c == spec_centroid(entries@, weighted),
        (forall|i: int|
            0 <= i < entries@.len() ==> (#[trigger] entries@[i]).color.a >= 1) ==> c.a >= 1,
{
    if entries.len() == 0 {
        return Color { r: 0, g: 0, b: 0, a: 255 };
    }
    let ghost all = entries@;
    let mut sr: u128 = 0;
    let mut sg: u128 = 0;
    let mut sb: u128 = 0;
    let mut sa: u128 = 0;
    let mut sw: u128 = 0;
    let mut i: usize = 0;
    while i < entries.len()
        invariant
            0 <= i <= all.len(),
            entries@ == all,
            forall|j: int| 0 <= j < all.len() ==> (#[trigger] all[j]).count >= 1,
            sum_counts(all) <= u64::MAX,
            sr == wsum(all.take(i as int), weighted, 0),
            sg == wsum(all.take(i as int), weighted, 1),
            sb == wsum(all.take(i as int), weighted, 2),
            sa == wsum(all.take(i as int), weighted, 3),
            sw == wtotal(all.take(i as int), weighted),
        decreases all.len() - i,
    {
        proof {
            assert(all.take(i + 1).drop_last() =~= all.take(i as int));
            assert(all.take(i + 1).last() == all[i as int]);
            lemma_sum_counts_take_le(all, i + 1);
            if !weighted {
                assert(all.take(i + 1).len() == i + 1);
            }
        }
        let e = entries[i];
        let w: u128 = if weighted {
            e.count as u128
        } else {
            1
        };
        proof {
            lemma_wsum_bounds(all.take(i as int), weighted, 0);
            lemma_wsum_bounds(all.take(i as int), weighted, 1);
            lemma_wsum_bounds(all.take(i as int), weighted, 2);
            lemma_wsum_bounds(all.take(i as int), weighted, 3);
            assert(w * (e.color.r as u128) <= w * 255 && w * (e.color.g as u128) <= w * 255 && w
                * (e.color.b as u128) <= w * 255 && w * (e.color.a as u128) <= w * 255)
                by (nonlinear_arith)
                requires w >= 0;
        }
        sr = sr + w * (e.color.r as u128);
        sg = sg + w * (e.color.g as u128);
        sb = sb + w * (e.color.b as u128);
        sa = sa + w * (e.color.a as u128);
        sw = sw + w;
        i += 1;
    }
    proof {
        assert(all.take(i as int) =~= all);
        if weighted {
            lemma_sum_counts_ge_len(all);
        }
        lemma_wsum_bounds(all, weighted, 0);
        lemma_wsum_bounds(all, weighted, 1);
        lemma_wsum_bounds(all, weighted, 2);
        lemma_wsum_bounds(all, weighted, 3);
        lemma_rnd_bounds(sr as int, sw as int, 0, 255);
        lemma_rnd_bounds(sg as int, sw as int, 0, 255);
        lemma_rnd_bounds(sb as int, sw as int, 0, 255);
        lemma_rnd_bounds(sa as int, sw as int, 0, 255);
        if forall|j: int| 0 <= j < all.len() ==> (#[trigger] all[j]).color.a >= 1 {
            lemma_wsum_alpha(all, weighted);
            lemma_rnd_bounds(sa as int, sw as int, 1, 255);
        }
    }
    Color {
        r: crate::color::rnd_u128(sr, sw) as u8,
        g: crate::color::rnd_u128(sg, sw) as u8,
        b: crate::color::rnd_u128(sb, sw) as u8,
        a: crate::color::rnd_u128(sa, sw) as u8,
    }
}

/// The total weight of the buckets whose nearest representative is `j`.
pub open spec fn cluster_w(entries: Seq<HistEntry>, reps: Seq<Color>, j: int, weighted: bool) -> int
    decreases entries.len(),
{
    if entries.len() == 0 {
        0
    } else {
        cluster_w(entries.drop_last(), reps, j, weighted) + (if nearest_idx(
            reps,
            entries.last().color,
        ) == j {
            weight(entries.last(), weighted)
        } else {
            0
        })
    }
}

/// The weighted sum of channel `ch` over the buckets whose nearest
/// representative is `j`.
pub open spec fn cluster_wsum(
    entries: Seq<HistEntry>,
    reps: Seq<Color>,
    j: int,
    weighted: bool,
    ch: int,
) -> int
    decreases entries.len(),
{
    if entries.len() == 0 {
        0
    } else {
        cluster_wsum(entries.drop_last(), reps, j, weighted, ch) + (if nearest_idx(
            reps,
            entries.last().color,
        ) == j {
            weight(entries.last(), weighted) * channel(entries.last().color, ch)
        } else {
            0
        })
    }
}

/// Where one clustering refinement pass puts representative `j`: the
/// rounded weighted centroid of its cluster, or the old position when the
/// cluster is empty.
pub open spec fn spec_refined_rep(
    entries: Seq<HistEntry>,
    reps: Seq<Color>,
    j: int,
    weighted: bool,
) -> Color {
    let cw = cluster_w(entries, reps, j, weighted);
    if cw == 0 {
        reps[j]
    } else {
        Color {
            r: rnd(cluster_wsum(entries, reps, j, weighted, 0), cw) as u8,
            g: rnd(cluster_wsum(entries, reps, j, weighted, 1), cw) as u8,
            b: rnd(cluster_wsum(entries, reps, j, weighted, 2), cw) as u8,
            a: rnd(cluster_wsum(entries, reps, j, weighted, 3), cw) as u8,
        }
    }
}

/// One whole clustering refinement pass over all representatives.
pub open spec fn spec_refined(entries: Seq<HistEntry>, reps: Seq<Color>, weighted: bool) -> Seq<
    Color,
> {
    Seq::new(reps.len(), |j: int| spec_refined_rep(entries, reps, j, weighted))
}

/// `n` clustering refinement passes in a row.
pub open spec fn spec_refined_n(
    entries: Seq<HistEntry>,
    reps: Seq<Color>,
    weighted: bool,
    n: nat,
) -> Seq<Color>
    decreases n,
{
    if n == 0 {
        reps
    } else {
        spec_refined(entries, spec_refined_n(entries, reps, weighted, (n - 1) as nat), weighted)
    }
}

/// Cluster weights and sums obey the same bounds as the whole-histogram
/// sums: the cluster weight is within the total weight, each channel sum
/// is within 255 times the cluster weight, and with every bucket opaque
/// the alpha sum is at least the cluster weight.
proof fn lemma_cluster_bounds(
    entries: Seq<HistEntry>,
    reps: Seq<Color>,
    j: int,
    weighted: bool,
    ch: int,
)
    ensures
        0 <= cluster_w(entries, reps, j, weighted) <= wtotal(entries, weighted),
        0 <= cluster_wsum(entries, reps, j, weighted, ch) <= 255 * cluster_w(
            entries,
            reps,
            j,
            weighted,
        ),
        (forall|i: int|
            0 <= i < entries.len() ==> (#[trigger] entries[i]).color.a >= 1) ==> cluster_wsum(
            entries,
            reps,
            j,
            weighted,
            3,
        ) >= cluster_w(entries, reps, j, weighted),
    decreases entries.len(),
{
    if entries.len() > 0 {
        lemma_cluster_bounds(entries.drop_last(), reps, j, weighted, ch);
        if ch != 3 {
            lemma_cluster_bounds(entries.drop_last(), reps, j, weighted, 3);
        }
        let w = weight(entries.last(), weighted);
        let c = channel(entries.last().color, ch);
        assert(0 <= w * c <= 255 * w) by (nonlinear_arith)
            requires 0 <= w, 0 <= c <= 255;
        let ca = channel(entries.last().color, 3);
        if entries.last().color.a >= 1 {
            assert(w * ca >= w) by (nonlinear_arith)
                requires 0 <= w, 1 <= ca;
        }
        assert(wtotal(entries, weighted) == wtotal(entries.drop_last(), weighted) + w);
    }
}

/// Total weighted quantization error of a representative set against the
/// buckets: each bucket's squared distance to its nearest representative,
/// weighted by the strategy.
pub open spec fn total_err(entries: Seq<HistEntry>, reps: Seq<Color>, weighted: bool) -> int
    decreases entries.len(),
{
    if entries.len() == 0 {
        0
    } else {
        total_err(entries.drop_last(), reps, weighted) + weight(entries.last(), weighted)
            * min_dist(reps, entries.last().color)
    }
}

/// Error with the assignment frozen: each bucket is matched to the cluster
/// its nearest `anchor` representative names, but measured against the
/// corresponding position in `reps`.
spec fn assigned_err(
    entries: Seq<HistEntry>,
    anchor: Seq<Color>,
    reps: Seq<Color>,
    weighted: bool,
) -> int
    decreases entries.len(),
{
    if entries.len() == 0 {
        0
    } else {
        assigned_err(entries.drop_last(), anchor, reps, weighted) + weight(
            entries.last(),
            weighted,
        ) * spec_dist(reps[nearest_idx(anchor, entries.last().color)], entries.last().color)
    }
}

/// The weighted error of the buckets assigned (by their nearest `anchor`
/// representative) to cluster `j`, measured against the position `rep`.
spec fn cluster_err(
    entries: Seq<HistEntry>,
    anchor: Seq<Color>,
    j: int,
    rep: Color,
    weighted: bool,
) -> int
    decreases entries.len(),
{
    if entries.len() == 0 {
        0
    } else {
        cluster_err(entries.drop_last(), anchor, j, rep, weighted) + (if nearest_idx(
            anchor,
            entries.last().color,
        ) == j {
            weight(entries.last(), weighted) * spec_dist(rep, entries.last().color)
        } else {
            0
        })
    }
}

/// The weighted sum of squared channels over cluster `j`: the constant
/// part of that cluster's quadratic error.
spec fn cluster_q(entries: Seq<HistEntry>, anchor: Seq<Color>, j: int, weighted: bool) -> int
    decreases entries.len(),
{
    if entries.len() == 0 {
        0
    } else {
        cluster_q(entries.drop_last(), anchor, j, weighted) + (if nearest_idx(
            anchor,
            entries.last().color,
        ) == j {
            let c = entries.last().color;
            weight(entries.last(), weighted) * (c.r * c.r + c.g * c.g + c.b * c.b + c.a * c.a)
        } else {
            0
        })
    }
}

/// The cluster errors of the first `k` clusters, summed.
spec fn sum_cluster_errs(
    entries: Seq<HistEntry>,
    anchor: Seq<Color>,
    reps: Seq<Color>,
    weighted: bool,
    k: nat,
) -> int
    decreases k,
{
    if k == 0 {
        0
    } else {
        sum_cluster_errs(entries, anchor, reps, weighted, (k - 1) as nat) + cluster_err(
            entries,
            anchor,
            k - 1,
            reps[k - 1],
            weighted,
        )
    }
}

/// Freezing the assignment at the representatives themselves measures the
/// true total error.
proof fn lemma_assigned_is_total(entries: Seq<HistEntry>, reps: Seq<Color>, weighted: bool)
    requires
        reps.len() >= 1,
    ensures
        assigned_err(entries, reps, reps, weighted) == total_err(entries, reps, weighted),
    decreases entries.len(),
{
    if entries.len() > 0 {
        lemma_assigned_is_total(entries.drop_last(), reps, weighted);
        lemma_nearest(reps, entries.last().color);
    }
}

/// The true total error never exceeds the error under a frozen assignment.
proof fn lemma_total_le_assigned(
    entries: Seq<HistEntry>,
    anchor: Seq<Color>,
    reps: Seq<Color>,
    weighted: bool,
)
    requires
        anchor.len() >= 1,
        reps.len() == anchor.len(),
    ensures
        total_err(entries, reps, weighted) <= assigned_err(entries, anchor, reps, weighted),
    decreases entries.len(),
{
    if entries.len() > 0 {
        lemma_total_le_assigned(entries.drop_last(), anchor, reps, weighted);
        let c = entries.last().color;
        let w = weight(entries.last(), weighted);
        lemma_nearest(anchor, c);
        lemma_nearest(reps, c);
        let j = nearest_idx(anchor, c);
        assert(min_dist(reps, c) <= spec_dist(reps[j], c));
        assert(w * min_dist(reps, c) <= w * spec_dist(reps[j], c)) by (nonlinear_arith)
            requires 0 <= w, min_dist(reps, c) <= spec_dist(reps[j], c);
    }
}

/// Dropping the last bucket removes exactly its term from the summed
/// cluster errors of the first `k` clusters.
proof fn lemma_sum_cluster_errs_step(
    entries: Seq<HistEntry>,
    anchor: Seq<Color>,
    reps: Seq<Color>,
    weighted: bool,
    k: nat,
)
    requires
        entries.len() >= 1,
    ensures
        sum_cluster_errs(entries, anchor, reps, weighted, k) == sum_cluster_errs(
            entries.drop_last(),
            anchor,
            reps,
            weighted,
            k,
        ) + (if 0 <= nearest_idx(anchor, entries.last().color) < k {
            weight(entries.last(), weighted) * spec_dist(
                reps[nearest_idx(anchor, entries.last().color)],
                entries.last().color,
            )
        } else {
            0
        }),
    decreases k,
{
    if k > 0 {
        lemma_sum_cluster_errs_step(entries, anchor, reps, weighted, (k - 1) as nat);
    }
}

/// The frozen-assignment error regroups into per-cluster errors.
proof fn lemma_assigned_regroups(
    entries: Seq<HistEntry>,
    anchor: Seq<Color>,
    reps: Seq<Color>,
    weighted: bool,
)
    requires
        anchor.len() >= 1,
    ensures
        assigned_err(entries, anchor, reps, weighted) == sum_cluster_errs(
            entries,
            anchor,
            reps,
            weighted,
            anchor.len(),
        ),
    decreases entries.len(),
{
    if entries.len() == 0 {
        lemma_sum_cluster_errs_empty(entries, anchor, reps, weighted, anchor.len());
    } else {
        lemma_assigned_regroups(entries.drop_last(), anchor, reps, weighted);
        lemma_nearest(anchor, entries.last().color);
        lemma_sum_cluster_errs_step(entries, anchor, reps, weighted, anchor.len());
    }
}

proof fn lemma_sum_cluster_errs_empty(
    entries: Seq<HistEntry>,
    anchor: Seq<Color>,
    reps: Seq<Color>,
    weighted: bool,
    k: nat,
)
    requires
        entries.len() == 0,
    ensures
        sum_cluster_errs(entries, anchor, reps, weighted, k) == 0,
    decreases k,
{
    if k > 0 {
        lemma_sum_cluster_errs_empty(entries, anchor, reps, weighted, (k - 1) as nat);
    }
}

/// One cluster's error against any position is the quadratic form in that
/// position's channels, with the cluster weight and channel sums as
/// coefficients.
proof fn lemma_cluster_err_quadratic(
    entries: Seq<HistEntry>,
    anchor: Seq<Color>,
    j: int,
    rep: Color,
    weighted: bool,
)
    ensures
        cluster_err(entries, anchor, j, rep, weighted) == cluster_w(entries, anchor, j, weighted)
            * (rep.r * rep.r + rep.g * rep.g + rep.b * rep.b + rep.a * rep.a) - 2 * (cluster_wsum(
            entries,
            anchor,
            j,
            weighted,
            0,
        ) * rep.r + cluster_wsum(entries, anchor, j, weighted, 1) * rep.g + cluster_wsum(
            entries,
            anchor,
            j,
            weighted,
            2,
        ) * rep.b + cluster_wsum(entries, anchor, j, weighted, 3) * rep.a) + cluster_q(
            entries,
            anchor,
            j,
            weighted,
        ),
    decreases entries.len(),
{
    if entries.len() > 0 {
        let rest = entries.drop_last();
        lemma_cluster_err_quadratic(rest, anchor, j, rep, weighted);
        let q = rep.r * rep.r + rep.g * rep.g + rep.b * rep.b + rep.a * rep.a;
        if nearest_idx(anchor, entries.last().color) == j {
            let c = entries.last().color;
            let w = weight(entries.last(), weighted);
            let dr = rep.r - c.r;
            let dg = rep.g - c.g;
            let db = rep.b - c.b;
            let da = rep.a - c.a;
            assert(spec_dist(rep, c) == dr * dr + dg * dg + db * db + da * da);
            assert(w * spec_dist(rep, c) == w * (dr * dr) + w * (dg * dg) + w * (db * db) + w * (da
                * da)) by (nonlinear_arith)
                requires spec_dist(rep, c) == dr * dr + dg * dg + db * db + da * da;
            assert(w * (dr * dr) == w * (rep.r * rep.r) - 2 * ((w * c.r) * rep.r) + w * (c.r
                * c.r)) by (nonlinear_arith)
                requires dr == rep.r - c.r;
            assert(w * (dg * dg) == w * (rep.g * rep.g) - 2 * ((w * c.g) * rep.g) + w * (c.g
                * c.g)) by (nonlinear_arith)
                requires dg == rep.g - c.g;
            assert(w * (db * db) == w * (rep.b * rep.b) - 2 * ((w * c.b) * rep.b) + w * (c.b
                * c.b)) by (nonlinear_arith)
                requires db == rep.b - c.b;
            assert(w * (da * da) == w * (rep.a * rep.a) - 2 * ((w * c.a) * rep.a) + w * (c.a
                * c.a)) by (nonlinear_arith)
                requires da == rep.a - c.a;
            let w0 = cluster_w(rest, anchor, j, weighted);
            assert((w0 + w) * q == w0 * q + w * q) by (nonlinear_arith);
            assert(w * (rep.r * rep.r + rep.g * rep.g + rep.b * rep.b + rep.a * rep.a) == w * (rep.r
                * rep.r) + w * (rep.g * rep.g) + w * (rep.b * rep.b) + w * (rep.a * rep.a))
                by (nonlinear_arith);
            let s0 = cluster_wsum(rest, anchor, j, weighted, 0);
            let s1 = cluster_wsum(rest, anchor, j, weighted, 1);
            let s2 = cluster_wsum(rest, anchor, j, weighted, 2);
            let s3 = cluster_wsum(rest, anchor, j, weighted, 3);
            assert((s0 + w * c.r) * rep.r == s0 * rep.r + (w * c.r) * rep.r) by (nonlinear_arith);
            assert((s1 + w * c.g) * rep.g == s1 * rep.g + (w * c.g) * rep.g) by (nonlinear_arith);
            assert((s2 + w * c.b) * rep.b == s2 * rep.b + (w * c.b) * rep.b) by (nonlinear_arith);
            assert((s3 + w * c.a) * rep.a == s3 * rep.a + (w * c.a) * rep.a) by (nonlinear_arith);
            assert(w * (c.r * c.r + c.g * c.g + c.b * c.b + c.a * c.a) == w * (c.r * c.r) + w * (c.g
                * c.g) + w * (c.b * c.b) + w * (c.a * c.a)) by (nonlinear_arith);
            assert(cluster_w(entries, anchor, j, weighted) == w0 + w);
            assert(cluster_wsum(entries, anchor, j, weighted, 0) == s0 + w * c.r);
            assert(cluster_wsum(entries, anchor, j, weighted, 1) == s1 + w * c.g);
            assert(cluster_wsum(entries, anchor, j, weighted, 2) == s2 + w * c.b);
            assert(cluster_wsum(entries, anchor, j, weighted, 3) == s3 + w * c.a);
        }
    }
}

/// Rounding the ratio of the weighted channel sum to the cluster weight
/// minimizes the per-channel quadratic `W*v*v - 2*S*v` over all integers.
proof fn lemma_rounded_mean_minimizes(big_w: int, s: int, r: int)
    requires
        big_w >= 1,
    ensures
        big_w * (rnd(s, big_w) * rnd(s, big_w)) - 2 * (s * rnd(s, big_w)) <= big_w * (r * r) - 2 * (
        s * r),
{
    let v = rnd(s, big_w);
    vstd::arithmetic::div_mod::lemma_fundamental_div_mod(2 * s + big_w, 2 * big_w);
    let rem = (2 * s + big_w) % (2 * big_w);
    assert(0 <= rem < 2 * big_w) by {
        vstd::arithmetic::div_mod::lemma_mod_bound(2 * s + big_w, 2 * big_w);
    }
    assert(2 * s + big_w == (2 * big_w) * v + rem);
    // hence 2*W*v - 2*s lies in (-W, W]
    assert(2 * big_w * v - 2 * s == big_w - rem);
    assert((big_w * (r * r) - 2 * (s * r)) - (big_w * (v * v) - 2 * (s * v)) == (r - v) * (big_w * (
    r + v) - 2 * s)) by (nonlinear_arith);
    if r > v {
        assert(big_w * (r + v) - 2 * s >= big_w * (2 * v + 1) - 2 * s) by (nonlinear_arith)
            requires big_w >= 1, r >= v + 1;
        assert(big_w * (2 * v + 1) - 2 * s == (2 * big_w * v - 2 * s) + big_w) by (nonlinear_arith);
        assert((r - v) * (big_w * (r + v) - 2 * s) >= 0) by (nonlinear_arith)
            requires r - v >= 1, big_w * (r + v) - 2 * s >= 0;
    } else if r < v {
        assert(big_w * (r + v) - 2 * s <= big_w * (2 * v - 1) - 2 * s) by (nonlinear_arith)
            requires big_w >= 1, r <= v - 1;
        assert(big_w * (2 * v - 1) - 2 * s == (2 * big_w * v - 2 * s) - big_w) by (nonlinear_arith);
        assert((r - v) * (big_w * (r + v) - 2 * s) >= 0) by (nonlinear_arith)
            requires r - v <= -1, big_w * (r + v) - 2 * s <= 0;
    }
}

/// An empty cluster contributes no error wherever its representative sits.
proof fn lemma_cluster_err_empty(
    entries: Seq<HistEntry>,
    anchor: Seq<Color>,
    j: int,
    rep: Color,
    weighted: bool,
)
    requires
        cluster_w(entries, anchor, j, weighted) == 0,
        forall|i: int| 0 <= i < entries.len() ==> (#[trigger] entries[i]).count >= 1,
    ensures
        cluster_err(entries, anchor, j, rep, weighted) == 0,
    decreases entries.len(),
{
    if entries.len() > 0 {
        lemma_cluster_bounds(entries.drop_last(), anchor, j, weighted, 0);
        if nearest_idx(anchor, entries.last().color) == j {
            assert(weight(entries.last(), weighted) >= 1);
        }
        lemma_cluster_err_empty(entries.drop_last(), anchor, j, rep, weighted);
        if nearest_idx(anchor, entries.last().color) == j {
            let w = weight(entries.last(), weighted);
            let c = entries.last().color;
            lemma_dist_bounds(rep, c);
            assert(w * spec_dist(rep, c) >= 0) by (nonlinear_arith)
                requires w >= 0, spec_dist(rep, c) >= 0;
            assert(false);
        }
    }
}

/// One refinement pass cannot worsen any cluster: the rounded weighted
/// centroid is the best integer position for the bucket set it serves.
proof fn lemma_refined_rep_improves(
    entries: Seq<HistEntry>,
    anchor: Seq<Color>,
    j: int,
    weighted: bool,
)
    requires
        0 <= j < anchor.len(),
        forall|i: int| 0 <= i < entries.len() ==> (#[trigger] entries[i]).count >= 1,
    ensures
        cluster_err(entries, anchor, j, spec_refined_rep(entries, anchor, j, weighted), weighted)
            <= cluster_err(entries, anchor, j, anchor[j], weighted),
{
    let big_w = cluster_w(entries, anchor, j, weighted);
    let refined = spec_refined_rep(entries, anchor, j, weighted);
    if big_w == 0 {
        lemma_cluster_err_empty(entries, anchor, j, refined, weighted);
        lemma_cluster_err_empty(entries, anchor, j, anchor[j], weighted);
    } else {
        let old = anchor[j];
        let s0 = cluster_wsum(entries, anchor, j, weighted, 0);
        let s1 = cluster_wsum(entries, anchor, j, weighted, 1);
        let s2 = cluster_wsum(entries, anchor, j, weighted, 2);
        let s3 = cluster_wsum(entries, anchor, j, weighted, 3);
        lemma_cluster_bounds(entries, anchor, j, weighted, 0);
        lemma_cluster_bounds(entries, anchor, j, weighted, 1);
        lemma_cluster_bounds(entries, anchor, j, weighted, 2);
        lemma_cluster_bounds(entries, anchor, j, weighted, 3);
        lemma_rnd_bounds(s0, big_w, 0, 255);
        lemma_rnd_bounds(s1, big_w, 0, 255);
        lemma_rnd_bounds(s2, big_w, 0, 255);
        lemma_rnd_bounds(s3, big_w, 0, 255);
        assert(refined.r == rnd(s0, big_w) && refined.g == rnd(s1, big_w) && refined.b == rnd(
            s2,
            big_w,
        ) && refined.a == rnd(s3, big_w));
        lemma_cluster_err_quadratic(entries, anchor, j, refined, weighted);
        lemma_cluster_err_quadratic(entries, anchor, j, old, weighted);
        lemma_rounded_mean_minimizes(big_w, s0, old.r as int);
        lemma_rounded_mean_minimizes(big_w, s1, old.g as int);
        lemma_rounded_mean_minimizes(big_w, s2, old.b as int);
        lemma_rounded_mean_minimizes(big_w, s3, old.a as int);
        assert(big_w * (refined.r * refined.r + refined.g * refined.g + refined.b * refined.b
            + refined.a * refined.a) == big_w * (refined.r * refined.r) + big_w * (refined.g
            * refined.g) + big_w * (refined.b * refined.b) + big_w * (refined.a * refined.a))
            by (nonlinear_arith);
        assert(big_w * (old.r * old.r + old.g * old.g + old.b * old.b + old.a * old.a) == big_w * (
        old.r * old.r) + big_w * (old.g * old.g) + big_w * (old.b * old.b) + big_w * (old.a
            * old.a)) by (nonlinear_arith);
    }
}

/// The summed cluster errors of a refined set are no worse than those of
/// the set it came from.
proof fn lemma_sum_cluster_errs_improve(
    entries: Seq<HistEntry>,
    anchor: Seq<Color>,
    weighted: bool,
    k: nat,
)
    requires
        k <= anchor.len(),
        forall|i: int| 0 <= i < entries.len() ==> (#[trigger] entries[i]).count >= 1,
    ensures
        sum_cluster_errs(entries, anchor, spec_refined(entries, anchor, weighted), weighted, k)
            <= sum_cluster_errs(entries, anchor, anchor, weighted, k),
    decreases k,
{
    if k > 0 {
        lemma_sum_cluster_errs_improve(entries, anchor, weighted, (k - 1) as nat);
        lemma_refined_rep_improves(entries, anchor, k - 1, weighted);
        assert(spec_refined(entries, anchor, weighted)[k - 1] == spec_refined_rep(
            entries,
            anchor,
            k - 1,
            weighted,
        ));
    }
}

/// One clustering refinement pass never increases the total weighted
/// quantization error: reassignment matches each bucket at least as well,
/// and each cluster's rounded weighted centroid is the best integer
/// position for the buckets it serves.
pub proof fn lemma_refine_non_increasing(
    entries: Seq<HistEntry>,
    reps: Seq<Color>,
    weighted: bool,
)
    requires
        reps.len() >= 1,
        forall|i: int| 0 <= i < entries.len() ==> (#[trigger] entries[i]).count >= 1,
    ensures
        total_err(entries, spec_refined(entries, reps, weighted), weighted) <= total_err(
            entries,
            reps,
            weighted,
        ),
{
    let refined = spec_refined(entries, reps, weighted);
    lemma_total_le_assigned(entries, reps, refined, weighted);
    lemma_assigned_regroups(entries, reps, refined, weighted);
    lemma_sum_cluster_errs_improve(entries, reps, weighted, reps.len());
    lemma_assigned_regroups(entries, reps, reps, weighted);
    lemma_assigned_is_total(entries, reps, weighted);
}

/// Adding a representative never increases the total weighted error: each
/// bucket's nearest distance can only shrink.
pub proof fn lemma_split_non_increasing(
    entries: Seq<HistEntry>,
    reps: Seq<Color>,
    c: Color,
    weighted: bool,
)
    requires
        reps.len() >= 1,
    ensures
        total_err(entries, reps.push(c), weighted) <= total_err(entries, reps, weighted),
    decreases entries.len(),
{
    if entries.len() > 0 {
        lemma_split_non_increasing(entries.drop_last(), reps, c, weighted);
        let x = entries.last().color;
        let w = weight(entries.last(), weighted);
        assert(reps.push(c).drop_last() =~= reps);
        assert(min_dist(reps.push(c), x) <= min_dist(reps, x));
        assert(w * min_dist(reps.push(c), x) <= w * min_dist(reps, x)) by (nonlinear_arith)
            requires 0 <= w, min_dist(reps.push(c), x) <= min_dist(reps, x);
    }
}

/// The first bucket with the greatest pixel-count-weighted squared
/// distance to its nearest representative: the bucket the next split
/// duplicates. A later bucket replaces an earlier one only when strictly
/// worse represented.
pub open spec fn split_idx(entries: Seq<HistEntry>, reps: Seq<Color>) -> int
    decreases entries.len(),
{
    if entries.len() <= 1 {
        0
    } else {
        let m = split_idx(entries.drop_last(), reps);
        if entries.last().count * min_dist(reps, entries.last().color) > entries[m].count
            * min_dist(reps, entries[m].color) {
            entries.len() - 1
        } else {
            m
        }
    }
}

/// One split: the worst-represented bucket's color joins the working set;
/// an empty histogram contributes opaque black.
pub open spec fn spec_split(entries: Seq<HistEntry>, reps: Seq<Color>) -> Seq<Color> {
    if entries.len() == 0 {
        reps.push(Color { r: 0, g: 0, b: 0, a: 255 })
    } else {
        reps.push(entries[split_idx(entries, reps)].color)
    }
}

/// The representative set the quantizer grows from `reps` to `target`
/// colors: each split is followed by four refinement passes, on every
/// addition when `every_step` holds and otherwise only on every 64th.
pub open spec fn spec_grown(
    entries: Seq<HistEntry>,
    reps: Seq<Color>,
    weighted: bool,
    target: int,
    every_step: bool,
) -> Seq<Color>
    decreases target - reps.len(),
    via spec_grown_decreases
{
    if reps.len() >= target {
        reps
    } else {
        let split = spec_split(entries, reps);
        let refined = if every_step || split.len() % 64 == 0 {
            spec_refined_n(entries, split, weighted, 4)
        } else {
            split
        };
        spec_grown(entries, refined, weighted, target, every_step)
    }
}

#[via_fn]
proof fn spec_grown_decreases(
    entries: Seq<HistEntry>,
    reps: Seq<Color>,
    weighted: bool,
    target: int,
    every_step: bool,
) {
    if reps.len() < target {
        lemma_refined_n_len(entries, spec_split(entries, reps), weighted, 4);
    }
}

/// Refinement keeps the number of representatives.
proof fn lemma_refined_n_len(entries: Seq<HistEntry>, reps: Seq<Color>, weighted: bool, n: nat)
    ensures
        spec_refined_n(entries, reps, weighted, n).len() == reps.len(),
    decreases n,
{
    if n > 0 {
        lemma_refined_n_len(entries, reps, weighted, (n - 1) as nat);
    }
}

/// A vector of `n` zeroed accumulators.
fn zeros(n: usize) -> (v: Vec<u128>)
    ensures
        v@.len() == n,
        forall|j: int| 0 <= j < n ==> v@[j] == 0,
{
    let mut v: Vec<u128> = Vec::new();
    let mut i: usize = 0;
    while i < n
        invariant
            i <= n,
            v@.len() == i,
            forall|j: int| 0 <= j < i ==> v@[j] == 0,
        decreases n - i,
    {
        v.push(0);
        i += 1;
    }
    v
}

/// The closed set of optimizer strategies: plain clustering, or clustering
/// weighted by each color's pixel count.
#[derive(Clone, Copy, PartialEq, Eq, Structural, Debug)]
pub enum Optimizer {
    KMeans,
    WeightedKMeans,
}

impl Optimizer {
    /// Whether the strategy weights each color by its pixel count.
    pub open spec fn spec_weighted(self) -> bool {
        self is WeightedKMeans
    }

    pub fn weighted(&self) -> (w: bool)
        ensures
            w == self.spec_weighted(),
    {
        match self {
            Optimizer::KMeans => false,
            Optimizer::WeightedKMeans => true,
        }
    }

    /// Select a strategy from its name; any name outside the closed set
    /// fails.
    pub fn from_name(name: &str) -> (r: Result<Optimizer, Error>)
        ensures
            r == (if name@ == "kmeans"@ {
                Ok::<Optimizer, Error>(Optimizer::KMeans)
            } else if name@ == "weightedkmeans"@ {
                Ok::<Optimizer, Error>(Optimizer::WeightedKMeans)
            } else {
                Err::<Optimizer, Error>(Error::UnknownStrategy)
            }),
    {
        let owned = name.to_owned();
        if owned == "kmeans".to_owned() {
            Ok(Optimizer::KMeans)
        } else if owned == "weightedkmeans".to_owned() {
            Ok(Optimizer::WeightedKMeans)
        } else {
            Err(Error::UnknownStrategy)
        }
    }
}

/// The quantizer state: a snapshot of the histogram buckets and the
/// working set of representative colors, grown by splits and repositioned
/// by refinement passes.
pub struct Quantizer {
    pub entries: Vec<HistEntry>,
    pub total: u64,
    pub reps: Vec<Color>,
}

impl Quantizer {
    pub open spec fn wf(self) -> bool {
        &&& forall|i: int|
            0 <= i < self.entries@.len() ==> (#[trigger] self.entries@[i]).color.a >= 1
        &&& forall|i: int| 0 <= i < self.entries@.len() ==> (#[trigger] self.entries@[i]).count >= 1
        &&& sum_counts(self.entries@) == self.total
        &&& self.reps@.len() >= 1
        &&& forall|i: int| 0 <= i < self.reps@.len() ==> (#[trigger] self.reps@[i]).a >= 1
    }

    /// Initialize from a histogram: the snapshot of its buckets, and the
    /// weighted centroid as the initial singleton representative set.
    pub fn new(hist: &Histogram) -> (q: Quantizer)
        requires
            hist.wf(),
        ensures
            q.wf(),
            q.entries@ == hist.buckets(),
            q.reps@.len() == 1,
            q.reps@[0] == spec_centroid(hist.buckets(), true),
    {
        let src = hist.entries();
        let mut entries: Vec<HistEntry> = Vec::new();
        let mut i: usize = 0;
        while i < src.len()
            invariant
                i <= src@.len(),
                entries@ == src@.take(i as int),
                src@ == hist.buckets(),
            decreases src@.len() - i,
        {
            entries.push(src[i]);
            proof {
                assert(entries@ =~= src@.take(i + 1));
            }
            i += 1;
        }
        proof {
            assert(src@.take(i as int) =~= src@);
        }
        let c = centroid(&entries, true);
        let mut reps: Vec<Color> = Vec::new();
        reps.push(c);
        Quantizer { entries, total: hist.total, reps }
    }

    /// How many representative colors the working set holds.
    pub fn num_colors(&self) -> (n: usize)
        ensures
            n == self.reps@.len(),
    {
        self.reps.len()
    }

    /// A copy of the working set.
    pub fn colors(&self) -> (v: Vec<Color>)
        ensures
            v@ == self.reps@,
    {
        let mut v: Vec<Color> = Vec::new();
        let mut i: usize = 0;
        while i < self.reps.len()
            invariant
                i <= self.reps@.len(),
                v@ == self.reps@.take(i as int),
            decreases self.reps@.len() - i,
        {
            v.push(self.reps[i]);
            proof {
                assert(v@ =~= self.reps@.take(i + 1));
            }
            i += 1;
        }
        proof {
            assert(self.reps@.take(i as int) =~= self.reps@);
        }
        v
    }

    /// One split: add to the working set the histogram color that is worst
    /// represented, weighing each bucket's distance to its nearest
    /// representative by its pixel count. An empty histogram contributes
    /// opaque black.
    pub fn step(&mut self)
        requires
            old(self).wf(),
        ensures
            final(self).wf(),
            final(self).entries@ == old(self).entries@,
            final(self).total == old(self).total,
            final(self).reps@.len() == old(self).reps@.len() + 1,
            final(self).reps@.drop_last() == old(self).reps@,
            final(self).reps@ == spec_split(old(self).entries@, old(self).reps@),
            forall|weighted: bool|
                total_err(old(self).entries@, final(self).reps@, weighted) <= total_err(
                    old(self).entries@,
                    old(self).reps@,
                    weighted,
                ),
            old(self).entries@.len() == 0 ==> final(self).reps@.last() == (Color {
                r: 0,
                g: 0,
                b: 0,
                a: 255,
            }),
            old(self).entries@.len() > 0 ==> exists|m: int|
                0 <= m < old(self).entries@.len() && final(self).reps@.last() == (
                #[trigger] old(self).entries@[m]).color && forall|j: int|
                    0 <= j < old(self).entries@.len() ==> (#[trigger] old(self).entries@[j]).count
                        * min_dist(old(self).reps@, old(self).entries@[j].color) <= old(
                        self,
                    ).entries@[m].count * min_dist(old(self).reps@, old(self).entries@[m].color),
    {
        if self.entries.len() == 0 {
            self.reps.push(Color { r: 0, g: 0, b: 0, a: 255 });
            proof {
                assert(final(self).reps@.drop_last() =~= old(self).reps@);
                lemma_split_non_increasing(
                    old(self).entries@,
                    old(self).reps@,
                    Color { r: 0, g: 0, b: 0, a: 255 },
                    true,
                );
                lemma_split_non_increasing(
                    old(self).entries@,
                    old(self).reps@,
                    Color { r: 0, g: 0, b: 0, a: 255 },
                    false,
                );
            }
            return ;
        }
        let ghost reps0 = self.reps@;
        let mut best: usize = 0;
        let mut best_key: u128 = self.split_key(0);
        let mut i: usize = 1;
        proof {
            assert(self.entries@.take(1).len() == 1);
            assert(self.entries@.take(1)[0] == self.entries@[0]);
        }
        while i < self.entries.len()
            invariant
                self == old(self),
                old(self).wf(),
                old(self).entries@.len() > 0,
                1 <= i <= self.entries@.len(),
                0 <= best < i,
                best == split_idx(self.entries@.take(i as int), self.reps@),
                best_key == self.entries@[best as int].count * min_dist(
                    self.reps@,
                    self.entries@[best as int].color,
                ),
                forall|j: int|
                    0 <= j < i ==> (#[trigger] self.entries@[j]).count * min_dist(
                        self.reps@,
                        self.entries@[j].color,
                    ) <= best_key,
            decreases self.entries@.len() - i,
        {
            proof {
                assert(self.entries@.take(i + 1).drop_last() =~= self.entries@.take(i as int));
                assert(self.entries@.take(i + 1).last() == self.entries@[i as int]);
            }
            let key = self.split_key(i);
            if key > best_key {
                best = i;
                best_key = key;
            }
            i += 1;
        }
        proof {
            assert(self.entries@.take(i as int) =~= self.entries@);
        }
        let c = self.entries[best].color;
        self.reps.push(c);
        proof {
            assert(final(self).reps@.drop_last() =~= old(self).reps@);
            assert(final(self).reps@.last() == old(self).entries@[best as int].color);
            lemma_split_non_increasing(old(self).entries@, old(self).reps@, c, true);
            lemma_split_non_increasing(old(self).entries@, old(self).reps@, c, false);
        }
    }

    /// One clustering refinement pass: assign every bucket to its nearest
    /// representative, then move each representative to the rounded
    /// weighted centroid of its cluster; a representative with an empty
    /// cluster keeps its position.
    pub fn refine_pass(&mut self, weighted: bool)
        requires
            old(self).wf(),
        ensures
            final(self).wf(),
            final(self).entries@ == old(self).entries@,
            final(self).total == old(self).total,
            final(self).reps@ == spec_refined(old(self).entries@, old(self).reps@, weighted),
            total_err(old(self).entries@, final(self).reps@, weighted) <= total_err(
                old(self).entries@,
                old(self).reps@,
                weighted,
            ),
    {
        proof {
            lemma_refine_non_increasing(self.entries@, self.reps@, weighted);
        }
        let ghost all = self.entries@;
        let ghost reps0 = self.reps@;
        let k = self.reps.len();
        let mut cw = zeros(k);
        let mut cr = zeros(k);
        let mut cg = zeros(k);
        let mut cb = zeros(k);
        let mut ca = zeros(k);
        let mut i: usize = 0;
        while i < self.entries.len()
            invariant
                self == old(self),
                old(self).wf(),
                all == self.entries@,
                reps0 == self.reps@,
                k == reps0.len(),
                i <= all.len(),
                cw@.len() == k,
                cr@.len() == k,
                cg@.len() == k,
                cb@.len() == k,
                ca@.len() == k,
                forall|j: int|
                    0 <= j < k ==> cw@[j] == cluster_w(all.take(i as int), reps0, j, weighted),
                forall|j: int|
                    0 <= j < k ==> cr@[j] == cluster_wsum(all.take(i as int), reps0, j, weighted, 0),
                forall|j: int|
                    0 <= j < k ==> cg@[j] == cluster_wsum(all.take(i as int), reps0, j, weighted, 1),
                forall|j: int|
                    0 <= j < k ==> cb@[j] == cluster_wsum(all.take(i as int), reps0, j, weighted, 2),
                forall|j: int|
                    0 <= j < k ==> ca@[j] == cluster_wsum(all.take(i as int), reps0, j, weighted, 3),
            decreases all.len() - i,
        {
            proof {
                assert(all.take(i + 1).drop_last() =~= all.take(i as int));
                assert(all.take(i + 1).last() == all[i as int]);
            }
            let e = self.entries[i];
            let ji = nearest(&self.reps, &e.color);
            let w: u128 = if weighted {
                e.count as u128
            } else {
                1
            };
            proof {
                let prefix = all.take(i as int);
                let next = all.take(i + 1);
                assert(w == weight(all[i as int], weighted));
                assert(cluster_w(next, reps0, ji as int, weighted) == cluster_w(
                    prefix,
                    reps0,
                    ji as int,
                    weighted,
                ) + weight(all[i as int], weighted));
                assert(w * (e.color.r as u128) <= 255 * w && w * (e.color.g as u128) <= 255 * w
                    && w * (e.color.b as u128) <= 255 * w && w * (e.color.a as u128) <= 255 * w
                    && w * (e.color.r as u128) == weight(all[i as int], weighted) * channel(
                    all[i as int].color,
                    0,
                ) && w * (e.color.g as u128) == weight(all[i as int], weighted) * channel(
                    all[i as int].color,
                    1,
                ) && w * (e.color.b as u128) == weight(all[i as int], weighted) * channel(
                    all[i as int].color,
                    2,
                ) && w * (e.color.a as u128) == weight(all[i as int], weighted) * channel(
                    all[i as int].color,
                    3,
                )) by (nonlinear_arith)
                    requires
                        w >= 0,
                        w == weight(all[i as int], weighted),
                        e.color == all[i as int].color,
                ;
                lemma_cluster_bounds(next, reps0, ji as int, weighted, 0);
                lemma_cluster_bounds(next, reps0, ji as int, weighted, 1);
                lemma_cluster_bounds(next, reps0, ji as int, weighted, 2);
                lemma_cluster_bounds(next, reps0, ji as int, weighted, 3);
                lemma_sum_counts_take_le(all, i + 1);
                assert(next.len() == i + 1);
            }
            let t0 = cw[ji];
            cw[ji] = t0 + w;
            let t1 = cr[ji];
            cr[ji] = t1 + w * (e.color.r as u128);
            let t2 = cg[ji];
            cg[ji] = t2 + w * (e.color.g as u128);
            let t3 = cb[ji];
            cb[ji] = t3 + w * (e.color.b as u128);
            let t4 = ca[ji];
            ca[ji] = t4 + w * (e.color.a as u128);
            i += 1;
        }
        proof {
            assert(all.take(i as int) =~= all);
        }
        let n_entries = self.entries.len();
        let mut new_reps: Vec<Color> = Vec::new();
        let mut j: usize = 0;
        while j < k
            invariant
                self == old(self),
                old(self).wf(),
                all == self.entries@,
                reps0 == self.reps@,
                k == reps0.len(),
                j <= k,
                cw@.len() == k,
                cr@.len() == k,
                cg@.len() == k,
                cb@.len() == k,
                ca@.len() == k,
                forall|jj: int| 0 <= jj < k ==> cw@[jj] == cluster_w(all, reps0, jj, weighted),
                forall|jj: int|
                    0 <= jj < k ==> cr@[jj] == cluster_wsum(all, reps0, jj, weighted, 0),
                forall|jj: int|
                    0 <= jj < k ==> cg@[jj] == cluster_wsum(all, reps0, jj, weighted, 1),
                forall|jj: int|
                    0 <= jj < k ==> cb@[jj] == cluster_wsum(all, reps0, jj, weighted, 2),
                forall|jj: int|
                    0 <= jj < k ==> ca@[jj] == cluster_wsum(all, reps0, jj, weighted, 3),
                n_entries == all.len(),
                new_reps@.len() == j,
                forall|jj: int|
                    0 <= jj < j ==> new_reps@[jj] == spec_refined_rep(all, reps0, jj, weighted),
                forall|jj: int| 0 <= jj < j ==> (#[trigger] new_reps@[jj]).a >= 1,
            decreases k - j,
        {
            if cw[j] == 0 {
                new_reps.push(self.reps[j]);
            } else {
                proof {
                    if weighted {
                        assert(wtotal(all, weighted) == sum_counts(all));
                    } else {
                        assert(wtotal(all, weighted) == all.len());
                        assert(all.len() == n_entries && n_entries <= usize::MAX);
                    }
                    lemma_cluster_bounds(all, reps0, j as int, weighted, 0);
                    lemma_cluster_bounds(all, reps0, j as int, weighted, 1);
                    lemma_cluster_bounds(all, reps0, j as int, weighted, 2);
                    lemma_cluster_bounds(all, reps0, j as int, weighted, 3);
                    lemma_rnd_bounds(cr@[j as int] as int, cw@[j as int] as int, 0, 255);
                    lemma_rnd_bounds(cg@[j as int] as int, cw@[j as int] as int, 0, 255);
                    lemma_rnd_bounds(cb@[j as int] as int, cw@[j as int] as int, 0, 255);
                    lemma_rnd_bounds(ca@[j as int] as int, cw@[j as int] as int, 1, 255);
                }
                let c = Color {
                    r: crate::color::rnd_u128(cr[j], cw[j]) as u8,
                    g: crate::color::rnd_u128(cg[j], cw[j]) as u8,
                    b: crate::color::rnd_u128(cb[j], cw[j]) as u8,
                    a: crate::color::rnd_u128(ca[j], cw[j]) as u8,
                };
                new_reps.push(c);
            }
            j += 1;
        }
        self.reps = new_reps;
        proof {
            assert(final(self).reps@ =~= spec_refined(all, reps0, weighted));
        }
    }

    /// `iterations` refinement passes in a row under the chosen strategy.
    pub fn optimize(&mut self, optimizer: Optimizer, iterations: usize)
        requires
            old(self).wf(),
        ensures
            final(self).wf(),
            final(self).entries@ == old(self).entries@,
            final(self).total == old(self).total,
            final(self).reps@ == spec_refined_n(
                old(self).entries@,
                old(self).reps@,
                old(self).spec_weighted_of(optimizer),
                iterations as nat,
            ),
            final(self).reps@.len() == old(self).reps@.len(),
            total_err(old(self).entries@, final(self).reps@, optimizer.spec_weighted())
                <= total_err(old(self).entries@, old(self).reps@, optimizer.spec_weighted()),
    {
        let weighted = optimizer.weighted();
        let mut i: usize = 0;
        while i < iterations
            invariant
                self.wf(),
                self.entries@ == old(self).entries@,
                self.total == old(self).total,
                self.reps@ == spec_refined_n(old(self).entries@, old(self).reps@, weighted, i as nat),
                total_err(old(self).entries@, self.reps@, weighted) <= total_err(
                    old(self).entries@,
                    old(self).reps@,
                    weighted,
                ),
                weighted == optimizer.spec_weighted(),
                i <= iterations,
            decreases iterations - i,
        {
            self.refine_pass(weighted);
            i += 1;
        }
        proof {
            lemma_refined_n_len(old(self).entries@, old(self).reps@, weighted, iterations as nat);
        }
    }

    /// The strategy's weighting, spelled out so contracts can name it.
    pub open spec fn spec_weighted_of(self, optimizer: Optimizer) -> bool {
        optimizer.spec_weighted()
    }

    /// A bucket's pixel count times its squared distance to the nearest
    /// representative.
    fn split_key(&self, i: usize) -> (key: u128)
        requires
            self.wf(),
            i < self.entries@.len(),
        ensures
            key == self.entries@[i as int].count * min_dist(
                self.reps@,
                self.entries@[i as int].color,
            ),
    {
        let e = self.entries[i];
        let j = nearest(&self.reps, &e.color);
        proof {
            lemma_nearest(self.reps@, e.color);
        }
        let d = dist(&self.reps[j], &e.color);
        proof {
            lemma_dist_bounds(self.reps@[j as int], e.color);
            assert((e.count as int) * (d as int) <= (u64::MAX as int) * 260100)
                by (nonlinear_arith)
                requires 0 <= e.count <= u64::MAX, 0 <= d <= 260100;
        }
        (e.count as u128) * (d as u128)
    }
}

} // verus!
