//! Vibrancy scoring and deterministic ranking of clusters.
//!
//! Every score is an exact rational in the integer scale of the standard
//! RGB-to-HSL transform: for a color with channel maximum `max` and minimum
//! `min` (both in `0..=255`), lightness is `(max + min) / 510` and saturation
//! is `(max - min) / sden` where `sden = min(max + min, 510 - (max + min))`.
//! The primary score `saturation^3 * (1 - 2*|lightness - 1/2|)` simplifies to
//! `chroma^3 / (255 * sden^2)`, so scores are compared by cross-multiplying,
//! with no rounding anywhere.  A cluster is admissible when its lightness
//! lies in `[0.15, 0.85]` and its saturation is at least `0.25`; inadmissible
//! clusters all score the same flat negative value, so they sort after every
//! admissible cluster and keep their input order.
//!
//! When no cluster is admissible the palette is re-scored by the fallback
//! score `count * (1 + saturation)` within the wider lightness band
//! `(0.08, 0.92)`; out-of-band clusters again score the same negative value.
//!
//! Ranking is a stable descending sort: equal scores keep input order.

use vstd::prelude::*;
use crate::cluster::Cluster;

verus! {

/// Largest channel value of a cluster's centroid.
pub open spec fn cmax(c: Cluster) -> int {
    if c.r >= c.g && c.r >= c.b {
        c.r as int
    } else if c.g >= c.b {
        c.g as int
    } else {
        c.b as int
    }
}

/// Smallest channel value of a cluster's centroid.
pub open spec fn cmin(c: Cluster) -> int {
    if c.r <= c.g && c.r <= c.b {
        c.r as int
    } else if c.g <= c.b {
        c.g as int
    } else {
        c.b as int
    }
}

/// Twice the lightness, in the scale `0..=510`.
pub open spec fn lsum(c: Cluster) -> int {
    cmax(c) + cmin(c)
}

/// The chroma range `max - min`, in `0..=255`.
pub open spec fn chroma(c: Cluster) -> int {
    cmax(c) - cmin(c)
}

/// The saturation denominator: saturation is `chroma / sden`.
pub open spec fn sden(c: Cluster) -> int {
    if lsum(c) <= 255 {
        lsum(c)
    } else {
        510 - lsum(c)
    }
}

/// Admissible for the primary score: lightness in `[0.15, 0.85]`
/// (`77 <= lsum <= 433` in integers, the bounds `76.5` and `433.5` being
/// unreachable) and saturation at least `0.25` (`4 * chroma >= sden`).
pub open spec fn admissible(c: Cluster) -> bool {
    77 <= lsum(c) <= 433 && 4 * chroma(c) >= sden(c)
}

/// Primary scores strictly descending: `a` scores above `b`.  Among two
/// admissible clusters this compares `chroma^3 / (255 * sden^2)` by
/// cross-multiplying; an inadmissible cluster never scores above anything.
pub open spec fn prim_gt(a: Cluster, b: Cluster) -> bool {
    if !admissible(a) {
        false
    } else if !admissible(b) {
        true
    } else {
        chroma(a) * chroma(a) * chroma(a) * (sden(b) * sden(b)) > chroma(b) * chroma(b) * chroma(b)
            * (sden(a) * sden(a))
    }
}

/// In the wider fallback lightness band `(0.08, 0.92)` (in integers
/// `41 <= lsum <= 469`, the open bounds `40.8` and `469.2` being
/// unreachable).
pub open spec fn fb_inband(c: Cluster) -> bool {
    41 <= lsum(c) <= 469
}

/// Numerator of the fallback score `count * (1 + saturation)`.
pub open spec fn fb_num(c: Cluster) -> int {
    if chroma(c) == 0 {
        c.count as int
    } else {
        c.count * (sden(c) + chroma(c))
    }
}

/// Denominator of the fallback score.
pub open spec fn fb_den(c: Cluster) -> int {
    if chroma(c) == 0 {
        1
    } else {
        sden(c)
    }
}

/// Fallback scores strictly descending: `a` scores above `b`.  A gray
/// centroid has saturation `0`; an out-of-band cluster never scores above
/// anything.
pub open spec fn fb_gt(a: Cluster, b: Cluster) -> bool {
    if !fb_inband(a) {
        false
    } else if !fb_inband(b) {
        true
    } else {
        fb_num(a) * fb_den(b) > fb_num(b) * fb_den(a)
    }
}

/// The comparison in force: the fallback score when `fallback` is set, the
/// primary score otherwise.
pub open spec fn score_gt(fallback: bool, a: Cluster, b: Cluster) -> bool {
    if fallback {
        fb_gt(a, b)
    } else {
        prim_gt(a, b)
    }
}

/// Insertion into a descending-sorted sequence: `x` goes before the first
/// element it scores strictly above, so an element inserted later never
/// overtakes an equal-scoring earlier one.
pub open spec fn insert_desc(fallback: bool, s: Seq<Cluster>, x: Cluster) -> Seq<Cluster>
    decreases s.len(),
{
    if s.len() == 0 {
        seq![x]
    } else if score_gt(fallback, x, s[0]) {
        seq![x] + s
    } else {
        seq![s[0]] + insert_desc(fallback, s.drop_first(), x)
    }
}

/// Stable descending sort by score.
pub open spec fn sort_desc(fallback: bool, s: Seq<Cluster>) -> Seq<Cluster>
    decreases s.len(),
{
    if s.len() == 0 {
        Seq::empty()
    } else {
        insert_desc(fallback, sort_desc(fallback, s.drop_last()), s.last())
    }
}

/// Whether any cluster is admissible for the primary score.
pub open spec fn any_admissible(s: Seq<Cluster>) -> bool {
    exists|i: int| 0 <= i < s.len() && admissible(#[trigger] s[i])
}

/// The ranked palette: all centroid colors, sorted descending by the primary
/// score, or by the fallback score when every cluster is inadmissible.
pub open spec fn rank_spec(s: Seq<Cluster>) -> Seq<(u8, u8, u8)> {
    sort_desc(!any_admissible(s), s).map(|i: int, c: Cluster| (c.r, c.g, c.b))
}

pub proof fn lemma_insert_desc_len(fallback: bool, s: Seq<Cluster>, x: Cluster)
    ensures
        insert_desc(fallback, s, x).len() == s.len() + 1,
    decreases s.len(),
{
    if s.len() > 0 && !score_gt(fallback, x, s[0]) {
        lemma_insert_desc_len(fallback, s.drop_first(), x);
    }
}

pub proof fn lemma_sort_desc_len(fallback: bool, s: Seq<Cluster>)
    ensures
        sort_desc(fallback, s).len() == s.len(),
    decreases s.len(),
{
    if s.len() > 0 {
        lemma_sort_desc_len(fallback, s.drop_last());
        lemma_insert_desc_len(fallback, sort_desc(fallback, s.drop_last()), s.last());
    }
}

/// Inserting at the first position whose element `x` scores strictly above
/// is what [`insert_desc`] does.
proof fn lemma_insert_desc_at(fallback: bool, s: Seq<Cluster>, x: Cluster, pos: int)
    requires
        0 <= pos <= s.len(),
        forall|k: int| 0 <= k < pos ==> !score_gt(fallback, x, #[trigger] s[k]),
        pos < s.len() ==> score_gt(fallback, x, s[pos]),
    ensures
        insert_desc(fallback, s, x) == s.insert(pos, x),
    decreases s.len(),
{
    if s.len() == 0 {
        assert(insert_desc(fallback, s, x) =~= s.insert(0, x));
    } else if score_gt(fallback, x, s[0]) {
        assert(pos == 0);
        assert(seq![x] + s =~= s.insert(0, x));
    } else {
        assert(pos >= 1);
        lemma_insert_desc_at(fallback, s.drop_first(), x, pos - 1);
        assert(seq![s[0]] + s.drop_first().insert(pos - 1, x) =~= s.insert(pos, x));
    }
}

/// Admissibility of a bare color; the member count plays no part in it.
pub open spec fn admissible_color(c: (u8, u8, u8)) -> bool {
    admissible(Cluster { r: c.0, g: c.1, b: c.2, count: 0 })
}

/// No admissible entry stands after an inadmissible one.
pub open spec fn adm_partitioned(s: Seq<Cluster>) -> bool {
    forall|i: int, j: int|
        0 <= i < j < s.len() ==> !(!admissible(#[trigger] s[i]) && admissible(#[trigger] s[j]))
}

proof fn lemma_insert_all_inadm(t: Seq<Cluster>, x: Cluster)
    requires
        forall|k: int| 0 <= k < t.len() ==> !admissible(#[trigger] t[k]),
        !admissible(x),
    ensures
        forall|k: int|
            0 <= k < insert_desc(false, t, x).len() ==> !admissible(
                #[trigger] insert_desc(false, t, x)[k],
            ),
    decreases t.len(),
{
    if t.len() == 0 {
        assert(insert_desc(false, t, x) =~= seq![x]);
    } else {
        assert(!score_gt(false, x, t[0]));
        lemma_insert_all_inadm(t.drop_first(), x);
        assert forall|k: int| 0 <= k < insert_desc(false, t, x).len() implies !admissible(
            #[trigger] insert_desc(false, t, x)[k],
        ) by {
            if k == 0 {
                assert(insert_desc(false, t, x)[0] == t[0]);
            } else {
                assert(insert_desc(false, t, x)[k] == insert_desc(false, t.drop_first(), x)[k - 1]);
            }
        }
    }
}

proof fn lemma_sort_all_inadm(s: Seq<Cluster>)
    requires
        !any_admissible(s),
    ensures
        forall|k: int|
            0 <= k < sort_desc(false, s).len() ==> !admissible(#[trigger] sort_desc(false, s)[k]),
    decreases s.len(),
{
    if s.len() > 0 {
        assert(!any_admissible(s.drop_last())) by {
            assert(forall|i: int|
                0 <= i < s.drop_last().len() ==> s.drop_last()[i] == #[trigger] s[i]);
        }
        lemma_sort_all_inadm(s.drop_last());
        assert(!admissible(s.last()));
        lemma_insert_all_inadm(sort_desc(false, s.drop_last()), s.last());
    }
}

proof fn lemma_insert_partition(t: Seq<Cluster>, x: Cluster)
    requires
        adm_partitioned(t),
    ensures
        adm_partitioned(insert_desc(false, t, x)),
    decreases t.len(),
{
    let r = insert_desc(false, t, x);
    if t.len() == 0 {
        assert(r =~= seq![x]);
    } else if score_gt(false, x, t[0]) {
        assert(admissible(x));
        assert(r =~= seq![x] + t);
        assert forall|i: int, j: int| 0 <= i < j < r.len() implies !(!admissible(#[trigger] r[i])
            && admissible(#[trigger] r[j])) by {
            if i > 0 {
                assert(r[i] == t[i - 1] && r[j] == t[j - 1]);
            }
        }
    } else if admissible(t[0]) {
        assert(adm_partitioned(t.drop_first())) by {
            assert(forall|k: int|
                0 <= k < t.drop_first().len() ==> #[trigger] t.drop_first()[k] == t[k + 1]);
        }
        lemma_insert_partition(t.drop_first(), x);
        let rest = insert_desc(false, t.drop_first(), x);
        assert forall|i: int, j: int| 0 <= i < j < r.len() implies !(!admissible(#[trigger] r[i])
            && admissible(#[trigger] r[j])) by {
            if i > 0 {
                assert(r[i] == rest[i - 1] && r[j] == rest[j - 1]);
            }
        }
    } else {
        assert(!admissible(x));
        assert(forall|k: int| 0 <= k < t.drop_first().len() ==> !admissible(
            #[trigger] t.drop_first()[k],
        )) by {
            assert(forall|k: int|
                0 <= k < t.drop_first().len() ==> #[trigger] t.drop_first()[k] == t[k + 1]);
        }
        lemma_insert_all_inadm(t.drop_first(), x);
        let rest = insert_desc(false, t.drop_first(), x);
        assert forall|i: int, j: int| 0 <= i < j < r.len() implies !(!admissible(#[trigger] r[i])
            && admissible(#[trigger] r[j])) by {
            if j > 0 {
                assert(r[j] == rest[j - 1]);
                assert(!admissible(rest[j - 1]));
            }
        }
    }
}

proof fn lemma_sort_partition(s: Seq<Cluster>)
    ensures
        adm_partitioned(sort_desc(false, s)),
    decreases s.len(),
{
    if s.len() > 0 {
        lemma_sort_partition(s.drop_last());
        lemma_insert_partition(sort_desc(false, s.drop_last()), s.last());
    }
}

proof fn lemma_sort_first_adm(s: Seq<Cluster>)
    requires
        any_admissible(s),
    ensures
        sort_desc(false, s).len() == s.len(),
        admissible(sort_desc(false, s)[0]),
    decreases s.len(),
{
    lemma_sort_desc_len(false, s);
    let t = sort_desc(false, s.drop_last());
    let x = s.last();
    lemma_sort_desc_len(false, s.drop_last());
    if any_admissible(s.drop_last()) {
        lemma_sort_first_adm(s.drop_last());
        if score_gt(false, x, t[0]) {
            assert(sort_desc(false, s)[0] == x);
            assert(admissible(x));
        } else {
            assert(sort_desc(false, s)[0] == t[0]);
        }
    } else {
        assert(admissible(x)) by {
            let i = choose|i: int| 0 <= i < s.len() && admissible(#[trigger] s[i]);
            if i < s.len() - 1 {
                assert(s.drop_last()[i] == s[i]);
                assert(any_admissible(s.drop_last()));
            }
        }
        lemma_sort_all_inadm(s.drop_last());
        if t.len() == 0 {
            assert(insert_desc(false, t, x) =~= seq![x]);
        } else {
            assert(!admissible(t[0]));
            assert(score_gt(false, x, t[0]));
            assert(sort_desc(false, s)[0] == x);
        }
    }
}

/// Admissibility ordering: whenever any cluster is admissible for the
/// primary score, the ranked palette puts every admissible color before
/// every inadmissible one; in particular its dominant entry is admissible.
pub proof fn lemma_admissible_ranks_first(s: Seq<Cluster>)
    requires
        any_admissible(s),
    ensures
        rank_spec(s).len() == s.len(),
        admissible_color(rank_spec(s)[0]),
        forall|i: int, j: int|
            0 <= i < j < s.len() ==> !(!admissible_color(#[trigger] rank_spec(s)[i])
                && admissible_color(#[trigger] rank_spec(s)[j])),
{
    let t = sort_desc(false, s);
    lemma_sort_first_adm(s);
    lemma_sort_partition(s);
    assert(forall|k: int|
        0 <= k < t.len() ==> admissible_color(#[trigger] rank_spec(s)[k]) == admissible(t[k]));
}

/// The exact rational score comparison, executably.
fn cluster_gt(fallback: bool, a: &Cluster, b: &Cluster) -> (r: bool)
    ensures
        r == score_gt(fallback, *a, *b),
{
    let amax: u32 = max3(a.r, a.g, a.b);
    let amin: u32 = min3(a.r, a.g, a.b);
    let bmax: u32 = max3(b.r, b.g, b.b);
    let bmin: u32 = min3(b.r, b.g, b.b);
    let alsum: u32 = amax + amin;
    let blsum: u32 = bmax + bmin;
    let achroma: u32 = amax - amin;
    let bchroma: u32 = bmax - bmin;
    let asden: u32 = if alsum <= 255 {
        alsum
    } else {
        510 - alsum
    };
    let bsden: u32 = if blsum <= 255 {
        blsum
    } else {
        510 - blsum
    };
    if fallback {
        let a_in = 41 <= alsum && alsum <= 469;
        let b_in = 41 <= blsum && blsum <= 469;
        if !a_in {
            false
        } else if !b_in {
            true
        } else {
            proof {
                assert(a.count as u128 * ((asden + achroma) as u128) <= 0xffff_ffff_ffff_ffff
                    * 765 && b.count as u128 * ((bsden + bchroma) as u128) <= 0xffff_ffff_ffff_ffff
                    * 765) by (nonlinear_arith)
                    requires
                        0 <= a.count <= 0xffff_ffff_ffff_ffff && 0 <= (asden + achroma) <= 765 && 0
                            <= b.count <= 0xffff_ffff_ffff_ffff && 0 <= (bsden + bchroma) <= 765,
                ;
            }
            let anum: u128 = if achroma == 0 {
                a.count as u128
            } else {
                a.count as u128 * ((asden + achroma) as u128)
            };
            let aden: u128 = if achroma == 0 {
                1
            } else {
                asden as u128
            };
            let bnum: u128 = if bchroma == 0 {
                b.count as u128
            } else {
                b.count as u128 * ((bsden + bchroma) as u128)
            };
            let bden: u128 = if bchroma == 0 {
                1
            } else {
                bsden as u128
            };
            proof {
                assert(fb_num(*a) == anum && fb_den(*a) == aden && fb_num(*b) == bnum && fb_den(
                    *b,
                ) == bden);
                assert(anum * bden < 0x1_0000_0000_0000_0000_0000_0000 && bnum * aden
                    < 0x1_0000_0000_0000_0000_0000_0000) by (nonlinear_arith)
                    requires
                        0 <= anum <= 0xffff_ffff_ffff_ffff * 765 && 0 <= bden <= 510 && 0 <= bnum
                            <= 0xffff_ffff_ffff_ffff * 765 && 0 <= aden <= 510,
                ;
            }
            anum * bden > bnum * aden
        }
    } else {
        let a_adm = 77 <= alsum && alsum <= 433 && 4 * achroma >= asden;
        let b_adm = 77 <= blsum && blsum <= 433 && 4 * bchroma >= bsden;
        if !a_adm {
            false
        } else if !b_adm {
            true
        } else {
            let ac: u64 = achroma as u64;
            let bc: u64 = bchroma as u64;
            let asd: u64 = asden as u64;
            let bsd: u64 = bsden as u64;
            proof {
                assert(ac * ac <= 65025 && ac * ac * ac <= 16581375 && bsd * bsd <= 65025 && bc
                    * bc <= 65025 && bc * bc * bc <= 16581375 && asd * asd <= 65025 && ac * ac * ac
                    * (bsd * bsd) < 0x4000_0000_0000 && bc * bc * bc * (asd * asd)
                    < 0x4000_0000_0000) by (nonlinear_arith)
                    requires
                        0 <= ac <= 255 && 0 <= bc <= 255 && 0 <= asd <= 255 && 0 <= bsd <= 255,
                ;
            }
            ac * ac * ac * (bsd * bsd) > bc * bc * bc * (asd * asd)
        }
    }
}

fn max3(r: u8, g: u8, b: u8) -> (m: u32)
    ensures
        m == cmax(Cluster { r, g, b, count: 0 }),
        m <= 255,
{
    if r >= g && r >= b {
        r as u32
    } else if g >= b {
        g as u32
    } else {
        b as u32
    }
}

fn min3(r: u8, g: u8, b: u8) -> (m: u32)
    ensures
        m == cmin(Cluster { r, g, b, count: 0 }),
        m <= 255,
{
    if r <= g && r <= b {
        r as u32
    } else if g <= b {
        g as u32
    } else {
        b as u32
    }
}

/// Whether any cluster of `s` is admissible, executably.
fn has_admissible(s: &Vec<Cluster>) -> (r: bool)
    ensures
        r == any_admissible(s@),
{
    let mut i: usize = 0;
    while i < s.len()
        invariant
            i <= s@.len(),
            forall|k: int| 0 <= k < i ==> !admissible(#[trigger] s@[k]),
        decreases s@.len() - i,
    {
        let c = s[i];
        let mx: u32 = max3(c.r, c.g, c.b);
        let mn: u32 = min3(c.r, c.g, c.b);
        let ls: u32 = mx + mn;
        let ch: u32 = mx - mn;
        let sd: u32 = if ls <= 255 {
            ls
        } else {
            510 - ls
        };
        if 77 <= ls && ls <= 433 && 4 * ch >= sd {
            assert(admissible(s@[i as int]));
            return true;
        }
        i = i + 1;
    }
    false
}

/// Rank all clusters into a palette: every centroid color, ordered
/// descending by vibrancy score, equal scores keeping input order.  The
/// result has one entry per cluster, in particular always [`crate::cluster::K`]
/// entries for the clusters of a full clustering run.
pub fn rank_clusters(clusters: &Vec<Cluster>) -> (r: Vec<(u8, u8, u8)>)
    ensures
        r@ == rank_spec(clusters@),
        r@.len() == clusters@.len(),
{
    let fallback = !has_admissible(clusters);
    let mut sorted: Vec<Cluster> = Vec::new();
    let mut i: usize = 0;
    while i < clusters.len()
        invariant
            i <= clusters@.len(),
            fallback == !any_admissible(clusters@),
            sorted@ == sort_desc(fallback, clusters@.take(i as int)),
            sorted@.len() == i,
        decreases clusters@.len() - i,
    {
        let x = clusters[i];
        let mut pos: usize = 0;
        while pos < sorted.len()
            invariant_except_break
                pos <= sorted@.len(),
                forall|k: int| 0 <= k < pos ==> !score_gt(fallback, x, #[trigger] sorted@[k]),
            ensures
                pos <= sorted@.len(),
                forall|k: int| 0 <= k < pos ==> !score_gt(fallback, x, #[trigger] sorted@[k]),
                pos < sorted@.len() ==> score_gt(fallback, x, sorted@[pos as int]),
            decreases sorted@.len() - pos,
        {
            if cluster_gt(fallback, &x, &sorted[pos]) {
                break ;
            }
            pos = pos + 1;
        }
        proof {
            lemma_insert_desc_at(fallback, sorted@, x, pos as int);
            let next = clusters@.take(i + 1);
            assert(next.drop_last() =~= clusters@.take(i as int));
            assert(next.last() == x);
        }
        sorted.insert(pos, x);
        i = i + 1;
    }
    proof {
        assert(clusters@.take(clusters@.len() as int) =~= clusters@);
    }
    let mut out: Vec<(u8, u8, u8)> = Vec::new();
    let mut j: usize = 0;
    while j < sorted.len()
        invariant
            j <= sorted@.len(),
            sorted@ == sort_desc(!any_admissible(clusters@), clusters@),
            sorted@.len() == clusters@.len(),
            out@.len() == j,
            forall|k: int|
                0 <= k < j ==> out@[k] == (sorted@[k].r, sorted@[k].g, sorted@[k].b),
        decreases sorted@.len() - j,
    {
        let c = sorted[j];
        out.push((c.r, c.g, c.b));
        j = j + 1;
    }
    proof {
        assert(out@ =~= rank_spec(clusters@));
    }
    out
}

} // verus!
