//! Deterministic k-means clustering of RGB pixels.
//!
//! The pixel set is partitioned into exactly [`K`] clusters by iterative
//! centroid relaxation: centroids start at evenly spaced pixels of the
//! row-major pixel list, and for a fixed number of rounds every pixel is
//! assigned to its nearest centroid (squared Euclidean distance, ties to the
//! lowest index) and each centroid is recomputed as the componentwise integer
//! mean of its pixels, unchanged when no pixel was assigned to it.  All
//! arithmetic is exact integer arithmetic, so the result is a function of the
//! pixel sequence alone.

use vstd::prelude::*;

verus! {

/// Number of clusters in every palette.
pub const K: usize = 8;

/// Number of centroid relaxation rounds.
pub const ITERS: usize = 20;

/// Largest pixel count the clustering functions accept; the decoder bounds
/// its output by this (a 128 x 128 working resolution).
pub const MAX_PIXELS: usize = 16384;

/// A dominant-color cluster: a centroid color and its member pixel count.
#[derive(Clone, Copy)]
pub struct Cluster {
    pub r: u8,
    pub g: u8,
    pub b: u8,
    pub count: usize,
}

/// Distance between channel values, as a nonnegative difference.
pub open spec fn chan_diff(a: u8, b: u8) -> int {
    if a >= b {
        a - b
    } else {
        b - a
    }
}

/// Squared Euclidean distance between two RGB colors.
pub open spec fn dist2(c: (u8, u8, u8), p: (u8, u8, u8)) -> int {
    chan_diff(c.0, p.0) * chan_diff(c.0, p.0) + chan_diff(c.1, p.1) * chan_diff(c.1, p.1)
        + chan_diff(c.2, p.2) * chan_diff(c.2, p.2)
}

/// Index of the centroid among `cs[0..n]` nearest to `p`, ties to the lowest
/// index.
pub open spec fn nearest_upto(cs: Seq<(u8, u8, u8)>, p: (u8, u8, u8), n: int) -> int
    decreases n,
{
    if n <= 1 {
        0
    } else {
        let prev = nearest_upto(cs, p, n - 1);
        if dist2(cs[n - 1], p) < dist2(cs[prev], p) {
            n - 1
        } else {
            prev
        }
    }
}

/// Index of the centroid of `cs` nearest to `p`, ties to the lowest index.
pub open spec fn nearest(cs: Seq<(u8, u8, u8)>, p: (u8, u8, u8)) -> int {
    nearest_upto(cs, p, cs.len() as int)
}

pub proof fn lemma_nearest_upto_range(cs: Seq<(u8, u8, u8)>, p: (u8, u8, u8), n: int)
    requires
        n >= 1,
    ensures
        0 <= nearest_upto(cs, p, n) < n,
    decreases n,
{
    if n > 1 {
        lemma_nearest_upto_range(cs, p, n - 1);
    }
}

/// Per-cluster channel sums and member count after assigning every pixel of
/// `ps` to its nearest centroid of `cs`: entry `j` is
/// `(sum r, sum g, sum b, count)` of the pixels assigned to centroid `j`.
pub open spec fn accum(cs: Seq<(u8, u8, u8)>, ps: Seq<(u8, u8, u8)>) -> Seq<(int, int, int, int)>
    decreases ps.len(),
{
    if ps.len() == 0 {
        Seq::new(cs.len(), |j: int| (0int, 0int, 0int, 0int))
    } else {
        let prev = accum(cs, ps.drop_last());
        let p = ps.last();
        let j = nearest(cs, p);
        prev.update(j, (prev[j].0 + p.0, prev[j].1 + p.1, prev[j].2 + p.2, prev[j].3 + 1))
    }
}

pub proof fn lemma_accum_bounds(cs: Seq<(u8, u8, u8)>, ps: Seq<(u8, u8, u8)>)
    requires
        cs.len() >= 1,
    ensures
        accum(cs, ps).len() == cs.len(),
        forall|j: int|
            0 <= j < cs.len() ==> {
                let a = #[trigger] accum(cs, ps)[j];
                0 <= a.3 <= ps.len() && 0 <= a.0 <= 255 * a.3 && 0 <= a.1 <= 255 * a.3 && 0 <= a.2
                    <= 255 * a.3
            },
    decreases ps.len(),
{
    if ps.len() > 0 {
        lemma_accum_bounds(cs, ps.drop_last());
        lemma_nearest_upto_range(cs, ps.last(), cs.len() as int);
    }
}

/// The recomputed centroid `j`: the mean of the assigned pixels, or the old
/// centroid when nothing was assigned to it.
pub open spec fn mean_color(a: (int, int, int, int), old_c: (u8, u8, u8)) -> (u8, u8, u8) {
    if a.3 == 0 {
        old_c
    } else {
        (((a.0 / a.3) as u8), ((a.1 / a.3) as u8), ((a.2 / a.3) as u8))
    }
}

/// One relaxation round: assign every pixel, then recompute every centroid.
pub open spec fn step(cs: Seq<(u8, u8, u8)>, ps: Seq<(u8, u8, u8)>) -> Seq<(u8, u8, u8)> {
    Seq::new(cs.len(), |j: int| mean_color(accum(cs, ps)[j], cs[j]))
}

/// Initial centroids: evenly spaced pixels of the list, or mid-gray for an
/// empty pixel set.
pub open spec fn init_centroids(ps: Seq<(u8, u8, u8)>) -> Seq<(u8, u8, u8)> {
    if ps.len() == 0 {
        Seq::new(K as nat, |j: int| (128u8, 128u8, 128u8))
    } else {
        Seq::new(K as nat, |j: int| ps[(j * ps.len()) / (K as int)])
    }
}

/// Centroids after `n` relaxation rounds.
pub open spec fn iterate(ps: Seq<(u8, u8, u8)>, n: nat) -> Seq<(u8, u8, u8)>
    decreases n,
{
    if n == 0 {
        init_centroids(ps)
    } else {
        step(iterate(ps, (n - 1) as nat), ps)
    }
}

/// The clusters produced by the full run: the centroids after [`ITERS`]
/// rounds, each with the member count of the final assignment.
pub open spec fn kmeans_clusters(ps: Seq<(u8, u8, u8)>) -> Seq<Cluster> {
    let pre = iterate(ps, (ITERS - 1) as nat);
    let a = accum(pre, ps);
    let cs = step(pre, ps);
    Seq::new(
        K as nat,
        |j: int|
            Cluster { r: cs[j].0, g: cs[j].1, b: cs[j].2, count: a[j].3 as usize },
    )
}

/// Squared Euclidean distance, executably.
fn dist2_exec(c: (u8, u8, u8), p: (u8, u8, u8)) -> (d: u32)
    ensures
        d == dist2(c, p),
{
    let dr: u32 = if c.0 >= p.0 {
        (c.0 - p.0) as u32
    } else {
        (p.0 - c.0) as u32
    };
    let dg: u32 = if c.1 >= p.1 {
        (c.1 - p.1) as u32
    } else {
        (p.1 - c.1) as u32
    };
    let db: u32 = if c.2 >= p.2 {
        (c.2 - p.2) as u32
    } else {
        (p.2 - c.2) as u32
    };
    assert(dr * dr <= 65025 && dg * dg <= 65025 && db * db <= 65025) by (nonlinear_arith)
        requires
            dr <= 255 && dg <= 255 && db <= 255,
    ;
    dr * dr + dg * dg + db * db
}

/// Index of the centroid nearest to `p`, ties to the lowest index.
fn nearest_centroid(cs: &Vec<(u8, u8, u8)>, p: (u8, u8, u8)) -> (j: usize)
    requires
        cs@.len() >= 1,
    ensures
        j == nearest(cs@, p),
        j < cs@.len(),
{
    let mut best: usize = 0;
    let mut best_d: u32 = dist2_exec(cs[0], p);
    let mut i: usize = 1;
    while i < cs.len()
        invariant
            1 <= i <= cs@.len(),
            best == nearest_upto(cs@, p, i as int),
            0 <= best < i,
            best_d == dist2(cs@[best as int], p),
        decreases cs@.len() - i,
    {
        let d = dist2_exec(cs[i], p);
        if d < best_d {
            best = i;
            best_d = d;
        }
        i = i + 1;
    }
    proof {
        lemma_nearest_upto_range(cs@, p, cs@.len() as int);
    }
    best
}

/// One assignment pass: channel sums and member counts per centroid.
fn assign_pass(cs: &Vec<(u8, u8, u8)>, pixels: &Vec<(u8, u8, u8)>) -> (acc: (
    Vec<u32>,
    Vec<u32>,
    Vec<u32>,
    Vec<u32>,
))
    requires
        cs@.len() >= 1,
        pixels@.len() <= MAX_PIXELS,
    ensures
        acc.0@.len() == cs@.len() && acc.1@.len() == cs@.len() && acc.2@.len() == cs@.len()
            && acc.3@.len() == cs@.len(),
        forall|j: int|
            0 <= j < cs@.len() ==> {
                let a = #[trigger] accum(cs@, pixels@)[j];
                acc.0@[j] == a.0 && acc.1@[j] == a.1 && acc.2@[j] == a.2 && acc.3@[j] == a.3
            },
{
    let n = cs.len();
    let mut sr: Vec<u32> = Vec::new();
    let mut sg: Vec<u32> = Vec::new();
    let mut sb: Vec<u32> = Vec::new();
    let mut cnt: Vec<u32> = Vec::new();
    let mut j: usize = 0;
    while j < n
        invariant
            j <= n,
            n == cs@.len(),
            sr@.len() == j && sg@.len() == j && sb@.len() == j && cnt@.len() == j,
            forall|k: int| 0 <= k < j ==> sr@[k] == 0 && sg@[k] == 0 && sb@[k] == 0 && cnt@[k] == 0,
        decreases n - j,
    {
        sr.push(0);
        sg.push(0);
        sb.push(0);
        cnt.push(0);
        j = j + 1;
    }
    let mut i: usize = 0;
    while i < pixels.len()
        invariant
            i <= pixels@.len(),
            pixels@.len() <= MAX_PIXELS,
            cs@.len() >= 1,
            sr@.len() == cs@.len() && sg@.len() == cs@.len() && sb@.len() == cs@.len()
                && cnt@.len() == cs@.len(),
            forall|k: int|
                0 <= k < cs@.len() ==> {
                    let a = #[trigger] accum(cs@, pixels@.take(i as int))[k];
                    sr@[k] == a.0 && sg@[k] == a.1 && sb@[k] == a.2 && cnt@[k] == a.3
                },
        decreases pixels@.len() - i,
    {
        proof {
            lemma_accum_bounds(cs@, pixels@.take(i as int));
        }
        let p = pixels[i];
        let j = nearest_centroid(cs, p);
        proof {
            let a = accum(cs@, pixels@.take(i as int))[j as int];
            assert(cnt@[j as int] == a.3 && sr@[j as int] == a.0 && sg@[j as int] == a.1
                && sb@[j as int] == a.2);
            assert(a.3 <= i && a.0 <= 255 * a.3 && a.1 <= 255 * a.3 && a.2 <= 255 * a.3);
            assert(255 * a.3 <= 255 * MAX_PIXELS) by (nonlinear_arith)
                requires
                    0 <= a.3 <= MAX_PIXELS,
            ;
        }
        sr.set(j, sr[j] + p.0 as u32);
        sg.set(j, sg[j] + p.1 as u32);
        sb.set(j, sb[j] + p.2 as u32);
        cnt.set(j, cnt[j] + 1);
        proof {
            let prefix = pixels@.take(i as int);
            let next = pixels@.take(i + 1);
            let px = pixels@[i as int];
            let jn = nearest(cs@, px);
            let a = accum(cs@, prefix)[jn];
            assert(next.drop_last() =~= prefix);
            assert(next.last() == px);
            assert(accum(cs@, next) == accum(cs@, prefix).update(
                jn,
                (a.0 + px.0, a.1 + px.1, a.2 + px.2, a.3 + 1),
            ));
        }
        i = i + 1;
    }
    proof {
        assert(pixels@.take(pixels@.len() as int) =~= pixels@);
    }
    (sr, sg, sb, cnt)
}

/// Recompute every centroid from an assignment pass.
fn recompute(
    cs: &Vec<(u8, u8, u8)>,
    pixels: &Vec<(u8, u8, u8)>,
    acc: &(Vec<u32>, Vec<u32>, Vec<u32>, Vec<u32>),
) -> (res: Vec<(u8, u8, u8)>)
    requires
        cs@.len() >= 1,
        acc.0@.len() == cs@.len() && acc.1@.len() == cs@.len() && acc.2@.len() == cs@.len()
            && acc.3@.len() == cs@.len(),
        forall|j: int|
            0 <= j < cs@.len() ==> {
                let a = #[trigger] accum(cs@, pixels@)[j];
                acc.0@[j] == a.0 && acc.1@[j] == a.1 && acc.2@[j] == a.2 && acc.3@[j] == a.3
            },
    ensures
        res@ == step(cs@, pixels@),
        res@.len() == cs@.len(),
{
    let n = cs.len();
    let mut res: Vec<(u8, u8, u8)> = Vec::new();
    let mut j: usize = 0;
    while j < n
        invariant
            j <= n,
            n == cs@.len(),
            cs@.len() >= 1,
            acc.0@.len() == cs@.len() && acc.1@.len() == cs@.len() && acc.2@.len() == cs@.len()
                && acc.3@.len() == cs@.len(),
            forall|k: int|
                0 <= k < cs@.len() ==> {
                    let a = #[trigger] accum(cs@, pixels@)[k];
                    acc.0@[k] == a.0 && acc.1@[k] == a.1 && acc.2@[k] == a.2 && acc.3@[k] == a.3
                },
            res@.len() == j,
            forall|k: int| 0 <= k < j ==> res@[k] == mean_color(accum(cs@, pixels@)[k], cs@[k]),
        decreases n - j,
    {
        proof {
            lemma_accum_bounds(cs@, pixels@);
        }
        let c = cnt_at(&acc.3, j);
        let color: (u8, u8, u8) = if c == 0 {
            cs[j]
        } else {
            let ghost a = accum(cs@, pixels@)[j as int];
            assert(a.0 / a.3 <= 255 && a.1 / a.3 <= 255 && a.2 / a.3 <= 255) by (nonlinear_arith)
                requires
                    a.3 >= 1 && 0 <= a.0 <= 255 * a.3 && 0 <= a.1 <= 255 * a.3 && 0 <= a.2 <= 255
                        * a.3,
            ;
            ((acc.0[j] / c) as u8, (acc.1[j] / c) as u8, (acc.2[j] / c) as u8)
        };
        res.push(color);
        j = j + 1;
    }
    proof {
        assert(res@ =~= step(cs@, pixels@));
    }
    res
}

/// Read one count; a named helper keeps borrowing simple at the call site.
fn cnt_at(cnt: &Vec<u32>, j: usize) -> (c: u32)
    requires
        j < cnt@.len(),
    ensures
        c == cnt@[j as int],
{
    cnt[j]
}

/// Partition `pixels` into exactly [`K`] clusters by deterministic k-means.
///
/// An empty pixel set yields [`K`] mid-gray clusters with zero count.
pub fn cluster_pixels(pixels: &Vec<(u8, u8, u8)>) -> (res: Vec<Cluster>)
    requires
        pixels@.len() <= MAX_PIXELS,
    ensures
        res@ == kmeans_clusters(pixels@),
        res@.len() == K,
{
    let n = pixels.len();
    let mut cs: Vec<(u8, u8, u8)> = Vec::new();
    let mut j: usize = 0;
    while j < K
        invariant
            j <= K,
            n == pixels@.len(),
            pixels@.len() <= MAX_PIXELS,
            cs@.len() == j,
            forall|k: int| 0 <= k < j ==> cs@[k] == init_centroids(pixels@)[k],
        decreases K - j,
    {
        if n == 0 {
            cs.push((128u8, 128u8, 128u8));
        } else {
            proof {
                assert(j * n < 8 * n && j * n <= 7 * MAX_PIXELS) by (nonlinear_arith)
                    requires
                        0 <= j < 8 && 1 <= n <= MAX_PIXELS,
                ;
                vstd::arithmetic::div_mod::lemma_multiply_divide_lt((j * n) as int, 8, n as int);
            }
            cs.push(pixels[(j * n) / K]);
        }
        j = j + 1;
    }
    proof {
        assert(cs@ =~= init_centroids(pixels@));
    }
    let mut it: usize = 0;
    while it < ITERS - 1
        invariant
            it <= ITERS - 1,
            n == pixels@.len(),
            pixels@.len() <= MAX_PIXELS,
            cs@ == iterate(pixels@, it as nat),
            cs@.len() == K,
        decreases ITERS - 1 - it,
    {
        let acc = assign_pass(&cs, pixels);
        cs = recompute(&cs, pixels, &acc);
        it = it + 1;
    }
    let acc = assign_pass(&cs, pixels);
    let cs2 = recompute(&cs, pixels, &acc);
    proof {
        lemma_accum_bounds(cs@, pixels@);
    }
    let mut res: Vec<Cluster> = Vec::new();
    let mut j2: usize = 0;
    while j2 < K
        invariant
            j2 <= K,
            cs@ == iterate(pixels@, (ITERS - 1) as nat),
            cs@.len() == K,
            cs2@ == step(cs@, pixels@),
            cs2@.len() == K,
            acc.3@.len() == K,
            forall|k: int| 0 <= k < K ==> #[trigger] acc.3@[k] == accum(cs@, pixels@)[k].3,
            forall|k: int| 0 <= k < K ==> 0 <= #[trigger] accum(cs@, pixels@)[k].3 <= MAX_PIXELS,
            res@.len() == j2,
            forall|k: int| 0 <= k < j2 ==> res@[k] == kmeans_clusters(pixels@)[k],
        decreases K - j2,
    {
        let c = cnt_at(&acc.3, j2);
        let col = cs2[j2];
        res.push(Cluster { r: col.0, g: col.1, b: col.2, count: c as usize });
        j2 = j2 + 1;
    }
    proof {
        assert(res@ =~= kmeans_clusters(pixels@));
    }
    res
}

} // verus!
