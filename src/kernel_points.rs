//! Keypoints: the positions that a codebook matches best, and distances between point sets.
use vstd::prelude::*;
use crate::euclidean_distance::{euclidean_distance, lemma_squared_error_bound, squared_error};
use crate::grid::{Grid, side_for, window};
use crate::image::Image;
use crate::convolutional::views;

verus! {

/// The squared distance from the window of `cells` centred on `(x, y)` to `kernel`, the window
/// having the kernel's side.
pub open spec fn kernel_match(cells: Seq<u8>, kernel: Seq<u8>, x: int, y: int) -> nat {
    let w = side_for(kernel.len()) as int;
    squared_error(window(cells, side_for(cells.len()) as int, x - w / 2, y - w / 2, w, 0u8), kernel)
}

/// The smallest `kernel_match` over the non-empty `kernels`.
pub open spec fn best_kernel_match(cells: Seq<u8>, kernels: Seq<Seq<u8>>, x: int, y: int) -> nat
    decreases kernels.len(),
{
    if kernels.len() <= 1 {
        kernel_match(cells, kernels[0], x, y)
    } else {
        let m = best_kernel_match(cells, kernels.drop_last(), x, y);
        let d = kernel_match(cells, kernels.last(), x, y);
        if d < m {
            d
        } else {
            m
        }
    }
}

/// Every kernel is a full square window of side at most 257, so that a squared distance to
/// it fits in `u32`.
pub open spec fn small_kernels(kernels: Seq<Image>) -> bool {
    forall|i: int|
        0 <= i < kernels.len() ==> (#[trigger] kernels[i]).wf() && kernels[i]@.len()
            == kernels[i].side_nat() * kernels[i].side_nat() && kernels[i].side_nat() <= 257
}

/// The distance from the window centred on `(x, y)` to the kernel that matches it best.
pub fn best_matching_kernel_distance(kernels: &Vec<Image>, img: &Image, x: usize, y: usize) -> (r:
    u32)
    requires
        img.wf(),
        kernels@.len() > 0,
        small_kernels(kernels@),
        x + 257 <= isize::MAX,
        y + 257 <= isize::MAX,
    ensures
        r == best_kernel_match(img@, views(kernels@), x as int, y as int),
{
    let ghost ks = views(kernels@);
    let mut best: u32 = 0;
    let mut i: usize = 0;
    while i < kernels.len()
        invariant
            img.wf(),
            ks == views(kernels@),
            small_kernels(kernels@),
            x + 257 <= isize::MAX,
            y + 257 <= isize::MAX,
            i <= kernels@.len(),
            i > 0 ==> best == best_kernel_match(img@, ks.subrange(0, i as int), x as int, y as int),
        decreases kernels@.len() - i,
    {
        let kernel = &kernels[i];
        let side = kernel.side();
        proof {
            img.lemma_side();
            kernel.lemma_side();
            assert(side * side <= 66049) by (nonlinear_arith)
                requires
                    side <= 257,
            ;
        }
        let sub = img.subimage(x, y, side);
        proof {
            lemma_squared_error_bound(sub@, kernel@);
        }
        let d = euclidean_distance(&sub, kernel);
        proof {
            assert(ks.subrange(0, i + 1).drop_last() =~= ks.subrange(0, i as int));
            assert(d == kernel_match(img@, ks[i as int], x as int, y as int));
        }
        if i == 0 || d < best {
            best = d;
        }
        i = i + 1;
    }
    proof {
        assert(ks.subrange(0, i as int) =~= ks);
    }
    best
}

/// `a` comes no later than `b` in lexicographic order.
pub open spec fn triple_le(a: (u32, usize, usize), b: (u32, usize, usize)) -> bool {
    a.0 < b.0 || (a.0 == b.0 && (a.1 < b.1 || (a.1 == b.1 && a.2 <= b.2)))
}

/// Relies on `slice::sort`: it keeps every element and orders them by `Ord`, which for tuples
/// is lexicographic.
#[verifier::external_body]
fn sort_triples(v: &mut Vec<(u32, usize, usize)>)
    ensures
        final(v)@.to_multiset() == old(v)@.to_multiset(),
        forall|i: int, j: int|
            0 <= i < j < final(v)@.len() ==> triple_le(#[trigger] final(v)@[i], #[trigger] final(v)@[j]),
{
    v.sort();
}

/// For each position of the image, row by row, the distance of its best kernel match and the
/// position.
pub open spec fn match_triples(cells: Seq<u8>, kernels: Seq<Seq<u8>>) -> Seq<(u32, usize, usize)> {
    let s = side_for(cells.len());
    Seq::new(
        s * s,
        |k: int|
            (
                best_kernel_match(cells, kernels, k % s as int, k / s as int) as u32,
                (k % s as int) as usize,
                (k / s as int) as usize,
            ),
    )
}

/// The `num_keypoints` positions of the image whose windows the kernels match best, best
/// first; ties go to the earlier row, then the earlier column.
pub fn find_keypoints(img: &Image, kernels: &Vec<Image>, num_keypoints: usize) -> (r: Vec<
    (usize, usize),
>)
    requires
        img.wf(),
        img.side_nat() + 257 <= isize::MAX,
        kernels@.len() > 0,
        small_kernels(kernels@),
    ensures
        exists|sorted: Seq<(u32, usize, usize)>|
            {
                &&& sorted.to_multiset() == match_triples(img@, views(kernels@)).to_multiset()
                &&& forall|i: int, j: int|
                    0 <= i < j < sorted.len() ==> triple_le(#[trigger] sorted[i], #[trigger] sorted[j])
                &&& r@ == Seq::new(
                    if num_keypoints < sorted.len() {
                        num_keypoints as nat
                    } else {
                        sorted.len()
                    },
                    |i: int| (sorted[i].1, sorted[i].2),
                )
            },
{
    proof {
        img.lemma_side();
    }
    let s = img.side();
    let ghost triples = match_triples(img@, views(kernels@));
    let mut dists: Vec<(u32, usize, usize)> = Vec::new();
    let mut y: usize = 0;
    while y < s
        invariant
            img.wf(),
            s == img.side_nat(),
            s == side_for(img@.len()),
            s + 257 <= isize::MAX,
            kernels@.len() > 0,
            small_kernels(kernels@),
            triples == match_triples(img@, views(kernels@)),
            y <= s,
            dists@ == triples.subrange(0, y * s),
        decreases s - y,
    {
        let mut x: usize = 0;
        while x < s
            invariant
                img.wf(),
                s == img.side_nat(),
                s == side_for(img@.len()),
                s + 257 <= isize::MAX,
                kernels@.len() > 0,
                small_kernels(kernels@),
                triples == match_triples(img@, views(kernels@)),
                y < s,
                x <= s,
                dists@ == triples.subrange(0, y * s + x),
            decreases s - x,
        {
            let d = best_matching_kernel_distance(kernels, img, x, y);
            proof {
                let k = y * s + x;
                crate::grid::lemma_row_major(k, s as int, y as int, x as int);
                assert(k < s * s) by (nonlinear_arith)
                    requires
                        k == y * s + x,
                        y < s,
                        x < s,
                ;
                assert(triples.subrange(0, k + 1) =~= triples.subrange(0, k).push((d, x, y)));
            }
            dists.push((d, x, y));
            x = x + 1;
        }
        proof {
            assert(y * s + s == (y + 1) * s) by (nonlinear_arith);
        }
        y = y + 1;
    }
    proof {
        assert(dists@ =~= triples);
    }
    sort_triples(&mut dists);
    let count = if num_keypoints < dists.len() {
        num_keypoints
    } else {
        dists.len()
    };
    let mut out: Vec<(usize, usize)> = Vec::new();
    let mut i: usize = 0;
    while i < count
        invariant
            count <= dists@.len(),
            i <= count,
            out@ == Seq::new(i as nat, |j: int| (dists@[j].1, dists@[j].2)),
        decreases count - i,
    {
        let (_, x, y) = dists[i];
        out.push((x, y));
        proof {
            assert(out@ =~= Seq::new((i + 1) as nat, |j: int| (dists@[j].1, dists@[j].2)));
        }
        i = i + 1;
    }
    proof {
        assert(out@ =~= Seq::new(
            if num_keypoints < dists@.len() {
                num_keypoints as nat
            } else {
                dists@.len()
            },
            |i: int| (dists@[i].1, dists@[i].2),
        ));
    }
    out
}

/// The squared difference of two coordinates.
pub fn squared_diff(x1: usize, x2: usize) -> (r: usize)
    requires
        (x1 - x2) * (x1 - x2) <= usize::MAX,
    ensures
        r == (x1 - x2) * (x1 - x2),
{
    let (min, max) = if x1 < x2 {
        (x1, x2)
    } else {
        (x2, x1)
    };
    proof {
        assert((max - min) * (max - min) == (x1 - x2) * (x1 - x2)) by (nonlinear_arith)
            requires
                (max - min == x1 - x2) || (max - min == x2 - x1),
        ;
    }
    (max - min) * (max - min)
}

/// The squared Euclidean distance between two points.
pub open spec fn point_distance(p: (usize, usize), q: (usize, usize)) -> int {
    (p.0 - q.0) * (p.0 - q.0) + (p.1 - q.1) * (p.1 - q.1)
}

/// The squared distance from `p` to the nearest point of the non-empty `qs`.
pub open spec fn nearest_point(p: (usize, usize), qs: Seq<(usize, usize)>) -> int
    decreases qs.len(),
{
    if qs.len() <= 1 {
        point_distance(p, qs[0])
    } else {
        let m = nearest_point(p, qs.drop_last());
        let d = point_distance(p, qs.last());
        if d < m {
            d
        } else {
            m
        }
    }
}

/// The sum, over the points of `ps`, of the squared distance to the nearest point of `qs`.
pub open spec fn one_way_points(ps: Seq<(usize, usize)>, qs: Seq<(usize, usize)>) -> int
    decreases ps.len(),
{
    if ps.len() == 0 {
        0
    } else {
        one_way_points(ps.drop_last(), qs) + nearest_point(ps.last(), qs)
    }
}

/// Every squared distance between a point of `ps` and a point of `qs` fits in `usize`.
pub open spec fn point_distances_fit(ps: Seq<(usize, usize)>, qs: Seq<(usize, usize)>) -> bool {
    forall|i: int, j: int|
        0 <= i < ps.len() && 0 <= j < qs.len() ==> point_distance(#[trigger] ps[i], #[trigger] qs[j])
            <= usize::MAX
}

proof fn lemma_point_distance_parts(p: (usize, usize), q: (usize, usize))
    ensures
        0 <= (p.0 - q.0) * (p.0 - q.0) <= point_distance(p, q),
        0 <= (p.1 - q.1) * (p.1 - q.1) <= point_distance(p, q),
{
    assert(0 <= (p.0 - q.0) * (p.0 - q.0)) by (nonlinear_arith);
    assert(0 <= (p.1 - q.1) * (p.1 - q.1)) by (nonlinear_arith);
}

proof fn lemma_nearest_point_nonneg(p: (usize, usize), qs: Seq<(usize, usize)>)
    requires
        qs.len() > 0,
    ensures
        nearest_point(p, qs) >= 0,
    decreases qs.len(),
{
    lemma_point_distance_parts(p, qs.last());
    lemma_point_distance_parts(p, qs[0]);
    if qs.len() > 1 {
        lemma_nearest_point_nonneg(p, qs.drop_last());
    }
}

proof fn lemma_one_way_points_prefix(ps: Seq<(usize, usize)>, qs: Seq<(usize, usize)>, i: int)
    requires
        0 <= i <= ps.len(),
        qs.len() > 0,
    ensures
        0 <= one_way_points(ps.subrange(0, i), qs) <= one_way_points(ps, qs),
        i < ps.len() ==> one_way_points(ps.subrange(0, i + 1), qs) == one_way_points(
            ps.subrange(0, i),
            qs,
        ) + nearest_point(ps[i], qs),
    decreases ps.len() - i,
{
    if i < ps.len() {
        lemma_one_way_points_prefix(ps, qs, i + 1);
        assert(ps.subrange(0, i + 1).drop_last() =~= ps.subrange(0, i));
        lemma_nearest_point_nonneg(ps[i], qs);
    } else {
        assert(ps.subrange(0, i) =~= ps);
    }
    lemma_one_way_points_nonneg(ps.subrange(0, i), qs);
}

proof fn lemma_one_way_points_nonneg(ps: Seq<(usize, usize)>, qs: Seq<(usize, usize)>)
    requires
        qs.len() > 0,
    ensures
        one_way_points(ps, qs) >= 0,
    decreases ps.len(),
{
    if ps.len() > 0 {
        lemma_one_way_points_nonneg(ps.drop_last(), qs);
        lemma_nearest_point_nonneg(ps.last(), qs);
    }
}

/// The squared distance from `candidate` to the nearest of the non-empty `references`.
pub fn best_matching_distance(candidate: (usize, usize), references: &Vec<(usize, usize)>) -> (r:
    usize)
    requires
        references@.len() > 0,
        point_distances_fit(seq![candidate], references@),
    ensures
        r == nearest_point(candidate, references@),
{
    let ghost qs = references@;
    let mut best: usize = 0;
    let mut j: usize = 0;
    while j < references.len()
        invariant
            qs == references@,
            point_distances_fit(seq![candidate], qs),
            j <= qs.len(),
            j > 0 ==> best == nearest_point(candidate, qs.subrange(0, j as int)),
        decreases qs.len() - j,
    {
        let (x, y) = references[j];
        proof {
            assert(seq![candidate][0] == candidate);
            assert(point_distance(seq![candidate][0], qs[j as int]) <= usize::MAX);
            lemma_point_distance_parts(candidate, (x, y));
            assert((x - candidate.0) * (x - candidate.0) == (candidate.0 - x) * (candidate.0 - x))
                by (nonlinear_arith);
            assert((y - candidate.1) * (y - candidate.1) == (candidate.1 - y) * (candidate.1 - y))
                by (nonlinear_arith);
        }
        let dx = squared_diff(x, candidate.0);
        let dy = squared_diff(y, candidate.1);
        proof {
            assert(qs.subrange(0, j + 1).drop_last() =~= qs.subrange(0, j as int));
        }
        let d = dx + dy;
        if j == 0 || d < best {
            best = d;
        }
        j = j + 1;
    }
    proof {
        assert(qs.subrange(0, j as int) =~= qs);
    }
    best
}

/// The sum, over the points of `group1`, of the squared distance to the nearest point of
/// `group2`.
pub fn closest_for_all_one_way(group1: &Vec<(usize, usize)>, group2: &Vec<(usize, usize)>) -> (r:
    usize)
    requires
        group1@.len() > 0 ==> group2@.len() > 0,
        point_distances_fit(group1@, group2@),
        one_way_points(group1@, group2@) <= usize::MAX,
    ensures
        r == one_way_points(group1@, group2@),
{
    let ghost (ps, qs) = (group1@, group2@);
    let mut sum: usize = 0;
    let mut i: usize = 0;
    while i < group1.len()
        invariant
            ps == group1@,
            qs == group2@,
            ps.len() > 0 ==> qs.len() > 0,
            point_distances_fit(ps, qs),
            one_way_points(ps, qs) <= usize::MAX,
            i <= ps.len(),
            sum == one_way_points(ps.subrange(0, i as int), qs),
        decreases ps.len() - i,
    {
        proof {
            lemma_one_way_points_prefix(ps, qs, i as int);
            lemma_one_way_points_prefix(ps, qs, i + 1);
            assert forall|a: int, b: int|
                0 <= a < 1 && 0 <= b < qs.len() implies point_distance(
                #[trigger] seq![ps[i as int]][a],
                #[trigger] qs[b],
            ) <= usize::MAX by {
                assert(seq![ps[i as int]][a] == ps[i as int]);
            }
        }
        let d = best_matching_distance(group1[i], group2);
        sum = sum + d;
        i = i + 1;
    }
    proof {
        assert(ps.subrange(0, i as int) =~= ps);
    }
    sum
}

/// How far apart two point sets are: the distance from each point to the nearest point of the
/// other set, summed in both directions.
pub fn closest_for_all(group1: &Vec<(usize, usize)>, group2: &Vec<(usize, usize)>) -> (r: usize)
    requires
        group1@.len() > 0 <==> group2@.len() > 0,
        point_distances_fit(group1@, group2@),
        point_distances_fit(group2@, group1@),
        one_way_points(group1@, group2@) + one_way_points(group2@, group1@) <= usize::MAX,
    ensures
        r == one_way_points(group1@, group2@) + one_way_points(group2@, group1@),
{
    proof {
        if group2@.len() > 0 {
            lemma_one_way_points_nonneg(group1@, group2@);
            lemma_one_way_points_nonneg(group2@, group1@);
        }
    }
    let forward = closest_for_all_one_way(group1, group2);
    let backward = closest_for_all_one_way(group2, group1);
    forward + backward
}

} // verus!
