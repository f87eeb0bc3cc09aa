//! Splitting a group of pixels too large for one dot: its bounding box as a mask, the distance
//! of each pixel to the nearest background pixel of the box (4-neighbour steps), and the local
//! maxima of that distance, which become the centers of the dots.
use vstd::prelude::*;
use std::collections::VecDeque;

use crate::binary_groups::{
    adjacent, lemma_adjacent_distance, lemma_adjacent_symmetric, lemma_closed_covers, lemma_neighbors,
    lemma_positive_dims, lemma_row_bound, lemma_step_toward, manhattan,
};

verus! {

// ---------------------------------------------------------------------------
// Distance to the background
// ---------------------------------------------------------------------------
/// Pixel `i` of the `w` x `h` mask is `d` steps from the nearest zero: some zero is at Manhattan
/// distance `d` and none is nearer.
pub open spec fn distance_is(mask: Seq<u8>, w: int, h: int, i: int, d: int) -> bool {
    &&& exists|z: int| 0 <= z < w * h && mask[z] == 0 && #[trigger] manhattan(w, i, z) == d
    &&& forall|z: int| 0 <= z < w * h && mask[z] == 0 ==> #[trigger] manhattan(w, i, z) >= d
}

/// The mask has a zero.
pub open spec fn has_zero(mask: Seq<u8>, w: int, h: int) -> bool {
    exists|z: int| 0 <= z < w * h && #[trigger] mask[z] == 0
}

/// Number of the first `n` distances that are set (not negative).
spec fn count_set(dist: Seq<i32>, n: int) -> int
    decreases n,
{
    if n <= 0 {
        0
    } else {
        count_set(dist, n - 1) + (if dist[n - 1] >= 0 {
            1int
        } else {
            0int
        })
    }
}

proof fn lemma_count_set_update(dist: Seq<i32>, n: int, i: int, v: i32)
    requires
        0 <= i < n <= dist.len(),
        dist[i] < 0,
        v >= 0,
    ensures
        count_set(dist.update(i, v), n) == count_set(dist, n) + 1,
    decreases n,
{
    if n - 1 > i {
        lemma_count_set_update(dist, n - 1, i, v);
    } else {
        lemma_count_set_same(dist, dist.update(i, v), n - 1);
    }
}

proof fn lemma_count_set_same(a: Seq<i32>, b: Seq<i32>, n: int)
    requires
        0 <= n <= a.len(),
        n <= b.len(),
        forall|i: int| 0 <= i < n ==> a[i] == b[i],
    ensures
        count_set(a, n) == count_set(b, n),
    decreases n,
{
    if n > 0 {
        lemma_count_set_same(a, b, n - 1);
    }
}

proof fn lemma_count_set_bound(dist: Seq<i32>, n: int)
    requires
        0 <= n <= dist.len(),
    ensures
        0 <= count_set(dist, n) <= n,
    decreases n,
{
    if n > 0 {
        lemma_count_set_bound(dist, n - 1);
    }
}

/// State of the breadth-first search from all zeros: the queue holds the pixels whose distance
/// is set, in non-decreasing distance (spanning at most one step from `head` on); set distances
/// are right; pixels before `head` have all neighbours set; every pixel nearer to a zero than
/// the one at `head` is set.
spec fn dt_state(mask: Seq<u8>, w: int, h: int, dist: Seq<i32>, queue: Seq<usize>, head: int) -> bool {
    let n = w * h;
    &&& 0 < w
    &&& 0 < h
    &&& n <= usize::MAX
    &&& w + h <= i32::MAX
    &&& mask.len() == n
    &&& dist.len() == n
    &&& 0 <= head <= queue.len()
    &&& queue.len() == count_set(dist, n)
    &&& forall|i: int| 0 <= i < n ==> #[trigger] dist[i] >= -1
    &&& forall|k: int| 0 <= k < queue.len() ==> (#[trigger] queue[k]) < n && dist[queue[k] as int] >= 0
    &&& forall|i: int|
        0 <= i < n && #[trigger] dist[i] >= 0 ==> queue.contains(i as usize) && distance_is(mask, w, h, i, dist[i] as int)
    &&& forall|z: int| 0 <= z < n && mask[z] == 0 ==> #[trigger] dist[z] == 0
    &&& forall|k1: int, k2: int|
        0 <= k1 <= k2 < queue.len() ==> dist[#[trigger] queue[k1] as int] <= dist[#[trigger] queue[k2] as int]
    &&& head < queue.len() ==> dist[queue[queue.len() - 1] as int] <= dist[queue[head] as int] + 1
    &&& forall|k: int, j: int| 0 <= k < head && #[trigger] adjacent(w, h, queue[k] as int, j) ==> #[trigger] dist[j] >= 0
    &&& head < queue.len() ==> forall|i: int, z: int|
        0 <= i < n && 0 <= z < n && mask[z] == 0 && #[trigger] manhattan(w, i, z) < dist[queue[head] as int] ==> dist[i]
            >= 0
}

/// `dist` and `queue` extend `d0` and `q0` by unset 4-neighbours of `p`, set to `d + 1`.
spec fn dt_expansion(w: int, h: int, p: int, d: int, d0: Seq<i32>, q0: Seq<usize>, dist: Seq<i32>, q: Seq<usize>) -> bool {
    let n = w * h;
    &&& dist.len() == n
    &&& d0.len() == n
    &&& q.len() >= q0.len()
    &&& forall|k: int| 0 <= k < q0.len() ==> #[trigger] q[k] == q0[k]
    &&& forall|k: int|
        q0.len() <= k < q.len() ==> adjacent(w, h, p, #[trigger] q[k] as int) && d0[q[k] as int] < 0 && dist[q[k] as int]
            == d + 1
    &&& forall|i: int|
        0 <= i < n && #[trigger] dist[i] != d0[i] ==> d0[i] < 0 && dist[i] == d + 1 && q.subrange(
            q0.len() as int,
            q.len() as int,
        ).contains(i as usize)
    &&& q.len() - q0.len() == count_set(dist, n) - count_set(d0, n)
}

/// An expansion of the pending part of the queue is one of the whole queue.
proof fn lemma_dt_expansion_after(
    w: int,
    h: int,
    p: int,
    d: int,
    d0: Seq<i32>,
    a0: Seq<usize>,
    dist: Seq<i32>,
    a: Seq<usize>,
    pre: Seq<usize>,
)
    requires
        dt_expansion(w, h, p, d, d0, a0, dist, a),
    ensures
        dt_expansion(w, h, p, d, d0, pre + a0, dist, pre + a),
{
    let q0 = pre + a0;
    let q = pre + a;
    assert forall|k: int| 0 <= k < q0.len() implies #[trigger] q[k] == q0[k] by {
        if k >= pre.len() {
            assert(a[k - pre.len()] == a0[k - pre.len()]);
        }
    }
    assert forall|k: int| q0.len() <= k < q.len() implies adjacent(w, h, p, #[trigger] q[k] as int) && d0[q[k] as int] < 0
        && dist[q[k] as int] == d + 1 by {
        assert(q[k] == a[k - pre.len()]);
    }
    assert(q.subrange(q0.len() as int, q.len() as int) =~= a.subrange(a0.len() as int, a.len() as int));
}

/// Sets the distance of `r`, a 4-neighbour of `p`, to `d + 1` when it was not set.
fn set_if_unset(
    dist: &mut Vec<i32>,
    queue: &mut VecDeque<usize>,
    width: usize,
    height: usize,
    p: usize,
    d: i32,
    r: usize,
    d0: Ghost<Seq<i32>>,
    q0: Ghost<Seq<usize>>,
)
    requires
        width * height <= usize::MAX,
        0 <= d < i32::MAX,
        adjacent(width as int, height as int, p as int, r as int),
        dt_expansion(width as int, height as int, p as int, d as int, d0@, q0@, old(dist)@, old(queue)@),
    ensures
        dt_expansion(width as int, height as int, p as int, d as int, d0@, q0@, final(dist)@, final(queue)@),
        final(dist)@[r as int] >= 0,
        forall|i: int| 0 <= i < width * height && old(dist)@[i] >= 0 ==> #[trigger] final(dist)@[i] == old(dist)@[i],
{
    if dist[r] < 0 {
        proof {
            lemma_count_set_update(dist@, width * height, r as int, (d + 1) as i32);
        }
        let ghost db = dist@;
        let ghost qb = queue@;
        dist.set(r, d + 1);
        queue.push_back(r);
        proof {
            let dv = dist@;
            let q = queue@;
            let lo = q0@.len() as int;
            assert forall|k: int| q0@.len() <= k < q.len() implies adjacent(width as int, height as int, p as int, #[trigger] q[k] as int)
                && d0@[q[k] as int] < 0 && dv[q[k] as int] == d + 1 by {
                if k < qb.len() {
                    assert(q[k] == qb[k]);
                } else {
                    assert(q[k] == r);
                    if d0@[r as int] >= 0 {
                        assert(db[r as int] == d0@[r as int]);
                    }
                }
            }
            assert forall|i: int| 0 <= i < width * height && #[trigger] dv[i] != d0@[i] implies d0@[i] < 0 && dv[i] == d + 1
                && q.subrange(lo, q.len() as int).contains(i as usize) by {
                if i == r {
                    if d0@[r as int] >= 0 {
                        assert(db[r as int] == d0@[r as int]);
                    }
                    assert(q.subrange(lo, q.len() as int)[q.len() - 1 - lo] == r);
                } else {
                    assert(db[i] == dv[i]);
                    let k = choose|k: int| 0 <= k < qb.subrange(lo, qb.len() as int).len() && qb.subrange(lo, qb.len() as int)[k]
                        == i as usize;
                    assert(q.subrange(lo, q.len() as int)[k] == i as usize);
                }
            }
        }
    }
}

/// Manhattan distance is symmetric.
proof fn lemma_manhattan_symmetric(w: int, a: int, b: int)
    ensures
        manhattan(w, a, b) == manhattan(w, b, a),
{
}

/// One step of the search: after taking the pixel at `head` and setting its unset neighbours,
/// the state holds at `head + 1`.
proof fn lemma_dt_advance(
    mask: Seq<u8>,
    w: int,
    h: int,
    d0: Seq<i32>,
    q0: Seq<usize>,
    head: int,
    dist: Seq<i32>,
    q: Seq<usize>,
)
    requires
        dt_state(mask, w, h, d0, q0, head),
        head < q0.len(),
        dt_expansion(w, h, q0[head] as int, d0[q0[head] as int] as int, d0, q0, dist, q),
        forall|j: int| #[trigger] adjacent(w, h, q0[head] as int, j) ==> dist[j] >= 0,
    ensures
        dt_state(mask, w, h, dist, q, head + 1),
{
    let n = w * h;
    let p = q0[head] as int;
    let d = d0[p] as int;
    let lo = q0.len() as int;
    // A pixel that is set after the step but was not is a new neighbour of p, and its distance
    // d + 1 is right.
    assert forall|i: int| 0 <= i < n && #[trigger] dist[i] >= 0 implies q.contains(i as usize) && distance_is(
        mask,
        w,
        h,
        i,
        dist[i] as int,
    ) by {
        if dist[i] == d0[i] && d0[i] >= 0 {
            let k = choose|k: int| 0 <= k < q0.len() && q0[k] == i as usize;
            assert(q[k] == i as usize);
        } else {
            let k = choose|k: int| 0 <= k < q.subrange(lo, q.len() as int).len() && q.subrange(lo, q.len() as int)[k] == i as usize;
            assert(q[lo + k] == i as usize);
            assert(adjacent(w, h, p, i));
            // Some zero is d + 1 away: the one nearest to p.
            let z = choose|z: int| 0 <= z < n && mask[z] == 0 && #[trigger] manhattan(w, p, z) == d;
            lemma_adjacent_distance(w, h, z, p, i);
            lemma_manhattan_symmetric(w, p, z);
            lemma_manhattan_symmetric(w, i, z);
            if manhattan(w, i, z) == d - 1 {
                assert(manhattan(w, i, z) < d0[q0[head] as int]);
                assert(d0[i] >= 0);
            }
            // No zero is nearer than d + 1.
            assert forall|z2: int| 0 <= z2 < n && mask[z2] == 0 implies #[trigger] manhattan(w, i, z2) >= d + 1 by {
                if manhattan(w, i, z2) < d {
                    assert(d0[i] >= 0);
                } else if manhattan(w, i, z2) == d {
                    if i == z2 {
                        assert(d0[i] == 0);
                    } else {
                        lemma_manhattan_symmetric(w, i, z2);
                        let m = lemma_step_toward(w, h, z2, i);
                        lemma_row_bound(w, h, m);
                        lemma_manhattan_symmetric(w, m, z2);
                        assert(manhattan(w, m, z2) < d0[q0[head] as int]);
                        assert(d0[m] >= 0);
                        assert(d0[m] <= manhattan(w, m, z2));
                        let km = choose|km: int| 0 <= km < q0.len() && q0[km] == m as usize;
                        if km >= head {
                            assert(d0[q0[head] as int] <= d0[q0[km] as int]);
                        }
                        lemma_adjacent_symmetric(w, h, i, m);
                        assert(adjacent(w, h, q0[km] as int, i));
                        assert(d0[i] >= 0);
                    }
                }
            }
        }
    }
    assert forall|k: int| lo <= k < q.len() implies dist[#[trigger] q[k] as int] == d + 1 by {}
    assert(dist[q0[lo - 1] as int] <= d + 1) by {
        assert(d0[q0[lo - 1] as int] <= d + 1);
        assert(d0[q0[lo - 1] as int] >= 0);
    }
    assert forall|k: int| 0 <= k < lo implies dist[#[trigger] q0[k] as int] == d0[q0[k] as int] by {
        assert(d0[q0[k] as int] >= 0);
    }
    assert forall|k1: int, k2: int| 0 <= k1 <= k2 < q.len() implies dist[#[trigger] q[k1] as int] <= dist[
        #[trigger] q[k2] as int] by {
        if k2 < lo {
            assert(q[k1] == q0[k1] && q[k2] == q0[k2]);
        } else if k1 < lo {
            assert(q[k1] == q0[k1]);
            assert(d0[q0[k1] as int] <= d0[q0[lo - 1] as int]);
        }
    }
    assert forall|k: int| 0 <= k < q.len() implies (#[trigger] q[k]) < n && dist[q[k] as int] >= 0 by {
        if k < lo {
            assert(q[k] == q0[k]);
        }
    }
    assert forall|i: int| 0 <= i < n implies #[trigger] dist[i] >= -1 by {
        if dist[i] != d0[i] {
            assert(d0[p] >= 0);
        }
    }
    assert forall|z: int| 0 <= z < n && mask[z] == 0 implies #[trigger] dist[z] == 0 by {
        assert(d0[z] == 0);
    }
    assert forall|k: int, j: int| 0 <= k < head + 1 && #[trigger] adjacent(w, h, q[k] as int, j) implies #[trigger] dist[j]
        >= 0 by {
        assert(q[k] == q0[k]);
        if k < head {
            assert(d0[j] >= 0);
        }
    }
    if head + 1 < q.len() {
        let e = q[head + 1] as int;
        assert(d <= dist[e]) by {
            assert(q[head] == q0[head]);
        }
        assert(dist[e] <= d + 1);
        assert(dist[q[q.len() - 1] as int] <= dist[e] + 1) by {
            if q.len() - 1 < lo {
                assert(q[q.len() - 1] == q0[lo - 1]);
            }
        }
        assert forall|i: int, z: int|
            0 <= i < n && 0 <= z < n && mask[z] == 0 && #[trigger] manhattan(w, i, z) < dist[e] implies dist[i] >= 0 by {
            if manhattan(w, i, z) < d {
                assert(d0[i] >= 0);
            } else if i == z {
                assert(d0[i] == 0);
            } else {
                let m = lemma_step_toward(w, h, z, i);
                lemma_row_bound(w, h, m);
                lemma_manhattan_symmetric(w, i, z);
                lemma_manhattan_symmetric(w, m, z);
                assert(manhattan(w, m, z) < d0[q0[head] as int]);
                assert(d0[m] >= 0);
                assert(d0[m] <= manhattan(w, m, z));
                let km = choose|km: int| 0 <= km < q0.len() && q0[km] == m as usize;
                if km >= head {
                    assert(d0[q0[head] as int] <= d0[q0[km] as int]);
                }
                lemma_adjacent_symmetric(w, h, i, m);
                assert(adjacent(w, h, q0[km] as int, i));
            }
        }
    }
}

/// Distance 0 on the zeros of the mask, unset (-1) elsewhere, and the zeros in order.
fn initial_distances(mask: &Vec<u8>, width: usize, height: usize) -> (r: (Vec<i32>, VecDeque<usize>))
    requires
        mask@.len() == width * height,
        width + height <= i32::MAX,
        0 < width,
        0 < height,
    ensures
        dt_state(mask@, width as int, height as int, r.0@, r.1@, 0),
{
    let ghost w = width as int;
    let ghost h = height as int;
    let n = mask.len();
    let mut dist: Vec<i32> = Vec::new();
    let mut queue: VecDeque<usize> = VecDeque::new();
    for i in 0..n
        invariant
            n == w * h,
            mask@.len() == n,
            dist@.len() == i,
            queue@.len() == count_set(dist@, i as int),
            forall|k: int| 0 <= k < i ==> #[trigger] dist@[k] == (if mask@[k] == 0 { 0i32 } else { -1i32 }),
            forall|k: int| 0 <= k < queue@.len() ==> (#[trigger] queue@[k]) < i && dist@[queue@[k] as int] == 0,
            forall|k: int| 0 <= k < i && mask@[k] == 0 ==> queue@.contains(k as usize),
    {
        let ghost before = dist@;
        let ghost qb = queue@;
        if mask[i] == 0 {
            dist.push(0);
            queue.push_back(i);
            proof {
                lemma_count_set_same(before, dist@, i as int);
                assert(queue@[queue@.len() - 1] == i);
                assert forall|k: int| 0 <= k < i + 1 && mask@[k] == 0 implies queue@.contains(k as usize) by {
                    if k < i {
                        let j = choose|j: int| 0 <= j < qb.len() && qb[j] == k as usize;
                        assert(queue@[j] == k as usize);
                    }
                }
            }
        } else {
            dist.push(-1);
            proof {
                lemma_count_set_same(before, dist@, i as int);
            }
        }
    }
    proof {
        let dv = dist@;
        assert forall|i: int| 0 <= i < n && #[trigger] dv[i] >= 0 implies queue@.contains(i as usize) && distance_is(
            mask@,
            w,
            h,
            i,
            dv[i] as int,
        ) by {
            assert(mask@[i] == 0);
            assert(manhattan(w, i, i) == 0);
        }
        assert forall|k1: int, k2: int| 0 <= k1 <= k2 < queue@.len() implies dv[#[trigger] queue@[k1] as int] <= dv[
            #[trigger] queue@[k2] as int] by {}
    }
    (dist, queue)
}

/// The distance of each pixel of the `width` x `height` mask to its nearest zero, in
/// 4-neighbour steps (the Manhattan distance); -1 everywhere when the mask has no zero.
#[verifier::spinoff_prover]
#[verifier::rlimit(50)]
pub fn distance_to_background(mask: &Vec<u8>, width: usize, height: usize) -> (dist: Vec<i32>)
    requires
        mask@.len() == width * height,
        width + height <= i32::MAX,
    ensures
        dist@.len() == width * height,
        has_zero(mask@, width as int, height as int) ==> forall|i: int|
            0 <= i < width * height ==> distance_is(mask@, width as int, height as int, i, #[trigger] dist@[i] as int),
        !has_zero(mask@, width as int, height as int) ==> forall|i: int| 0 <= i < width * height ==> #[trigger] dist@[i]
            == -1,
{
    let ghost w = width as int;
    let ghost h = height as int;
    let n = mask.len();
    if n == 0 {
        return Vec::new();
    }
    proof {
        lemma_positive_dims(w, h, 0);
    }
    let (mut dist, mut queue) = initial_distances(mask, width, height);
    let ghost mut seen: Seq<usize> = queue@;
    let ghost mut head: int = 0;
    assert(queue@ =~= seen.subrange(head, seen.len() as int));
    while queue.len() > 0
        invariant
            w == width,
            h == height,
            n == w * h,
            dt_state(mask@, w, h, dist@, seen, head),
            queue@ == seen.subrange(head, seen.len() as int),
        decreases n - head,
    {
        proof {
            lemma_count_set_bound(dist@, n as int);
        }
        let p = match queue.pop_front() {
            Some(p) => p,
            None => {
                return dist;
            },
        };
        assert(p == seen[head]);
        let d = dist[p];
        let ghost d0 = dist@;
        let ghost a0 = queue@;
        proof {
            lemma_row_bound(w, h, p as int);
            lemma_neighbors(w, h, p as int);
            let z = choose|z: int| 0 <= z < n && mask@[z] == 0 && #[trigger] manhattan(w, p as int, z) == d as int;
            lemma_row_bound(w, h, z);
            assert(d < i32::MAX);
            assert(dt_expansion(w, h, p as int, d as int, d0, a0, d0, a0)) by {
                assert forall|i: int| 0 <= i < n && #[trigger] d0[i] != d0[i] implies d0[i] < 0 && d0[i] == d + 1
                    && a0.subrange(a0.len() as int, a0.len() as int).contains(i as usize) by {}
            }
        }
        let x = p % width;
        let y = p / width;
        if x > 0 {
            set_if_unset(&mut dist, &mut queue, width, height, p, d, p - 1, Ghost(d0), Ghost(a0));
        }
        if x + 1 < width {
            set_if_unset(&mut dist, &mut queue, width, height, p, d, p + 1, Ghost(d0), Ghost(a0));
        }
        if y > 0 {
            set_if_unset(&mut dist, &mut queue, width, height, p, d, p - width, Ghost(d0), Ghost(a0));
        }
        if y + 1 < height {
            set_if_unset(&mut dist, &mut queue, width, height, p, d, p + width, Ghost(d0), Ghost(a0));
        }
        proof {
            assert forall|j: int| #[trigger] adjacent(w, h, p as int, j) implies dist@[j] >= 0 by {}
            let pre = seen.subrange(0, head + 1);
            lemma_dt_expansion_after(w, h, p as int, d as int, d0, a0, dist@, queue@, pre);
            assert(pre + a0 =~= seen);
            let seen1 = pre + queue@;
            lemma_dt_advance(mask@, w, h, d0, seen, head, dist@, seen1);
            assert(queue@ =~= seen1.subrange(head + 1, seen1.len() as int));
            seen = seen1;
            head = head + 1;
        }
    }
    proof {
        let dv = dist@;
        if has_zero(mask@, w, h) {
            let z = choose|z: int| 0 <= z < w * h && #[trigger] mask@[z] == 0;
            let vis = Seq::new(n as nat, |i: int| dv[i] >= 0);
            assert forall|a: int, b: int| #[trigger] adjacent(w, h, a, b) && vis[a] implies vis[b] by {
                let k = choose|k: int| 0 <= k < seen.len() && seen[k] == a as usize;
                assert(adjacent(w, h, seen[k] as int, b));
            }
            assert forall|i: int| 0 <= i < n implies distance_is(mask@, w, h, i, #[trigger] dv[i] as int) by {
                lemma_closed_covers(w, h, z, vis, i);
            }
        } else {
            assert forall|i: int| 0 <= i < n implies #[trigger] dv[i] == -1 by {
                if dv[i] >= 0 {
                    let zz = choose|zz: int| 0 <= zz < w * h && mask@[zz] == 0 && #[trigger] manhattan(w, i, zz) == dv[i] as int;
                    assert(mask@[zz] == 0);
                }
            }
        }
    }
    dist
}

// ---------------------------------------------------------------------------
// Local maxima of the distance
// ---------------------------------------------------------------------------
/// Pixel `i` is a peak: foreground, at a positive distance, and no 4-neighbour farther.
pub open spec fn is_peak(mask: Seq<u8>, dist: Seq<i32>, w: int, h: int, i: int) -> bool {
    &&& mask[i] != 0
    &&& dist[i] > 0
    &&& forall|j: int| #[trigger] adjacent(w, h, i, j) ==> dist[j] <= dist[i]
}

/// The peaks among the first `n` pixels in row order, as `(column, row, distance)`.
pub open spec fn peaks_upto(mask: Seq<u8>, dist: Seq<i32>, w: int, h: int, n: int) -> Seq<(usize, usize, i32)>
    decreases n,
{
    if n <= 0 {
        Seq::empty()
    } else if is_peak(mask, dist, w, h, n - 1) {
        peaks_upto(mask, dist, w, h, n - 1).push((((n - 1) % w) as usize, ((n - 1) / w) as usize, dist[n - 1]))
    } else {
        peaks_upto(mask, dist, w, h, n - 1)
    }
}

/// The entries of `ps` at distance `d`, in order.
pub open spec fn at_distance(ps: Seq<(usize, usize, i32)>, d: int) -> Seq<(usize, usize, i32)>
    decreases ps.len(),
{
    if ps.len() == 0 {
        Seq::empty()
    } else if ps.last().2 == d {
        at_distance(ps.drop_last(), d).push(ps.last())
    } else {
        at_distance(ps.drop_last(), d)
    }
}

/// The entries of `ps` at distances `hi` down to `lo + 1`, by decreasing distance, each
/// distance's entries in their order in `ps`.
pub open spec fn by_distance(ps: Seq<(usize, usize, i32)>, hi: int, lo: int) -> Seq<(usize, usize, i32)>
    decreases hi - lo,
{
    if hi <= lo {
        Seq::empty()
    } else {
        at_distance(ps, hi) + by_distance(ps, hi - 1, lo)
    }
}

/// The largest distance among the entries of `ps` (0 when there is none above 0).
pub open spec fn max_distance(ps: Seq<(usize, usize, i32)>) -> int
    decreases ps.len(),
{
    if ps.len() == 0 {
        0
    } else {
        let m = max_distance(ps.drop_last());
        if ps.last().2 > m {
            ps.last().2 as int
        } else {
            m
        }
    }
}

/// Pixel `i` is a foreground pixel at a positive distance with no 4-neighbour strictly farther.
pub open spec fn local_maximum(mask: Seq<u8>, dist: Seq<i32>, w: int, h: int, i: int) -> bool {
    &&& mask[i] != 0
    &&& dist[i] > 0
    &&& forall|j: int| adjacent(w, h, i, j) ==> #[trigger] dist[j] <= dist[i]
}

/// The entry that lists pixel `i`: its column, its row and its distance.
pub open spec fn peak_entry(dist: Seq<i32>, w: int, i: int) -> (usize, usize, i32) {
    ((i % w) as usize, (i / w) as usize, dist[i])
}

proof fn lemma_peaks_upto_contains(mask: Seq<u8>, dist: Seq<i32>, w: int, h: int, n: int, e: (usize, usize, i32))
    ensures
        peaks_upto(mask, dist, w, h, n).contains(e) <==> exists|i: int|
            0 <= i < n && #[trigger] is_peak(mask, dist, w, h, i) && e == peak_entry(dist, w, i),
    decreases n,
{
    if n > 0 {
        lemma_peaks_upto_contains(mask, dist, w, h, n - 1, e);
        let prev = peaks_upto(mask, dist, w, h, n - 1);
        if is_peak(mask, dist, w, h, n - 1) {
            let cur = prev.push(peak_entry(dist, w, n - 1));
            assert(peaks_upto(mask, dist, w, h, n) == cur);
            if cur.contains(e) {
                let k = choose|k: int| 0 <= k < cur.len() && cur[k] == e;
                if k < prev.len() {
                    assert(prev[k] == e);
                }
            }
            if prev.contains(e) {
                let k = choose|k: int| 0 <= k < prev.len() && prev[k] == e;
                assert(cur[k] == e);
            }
            if e == peak_entry(dist, w, n - 1) {
                assert(cur[prev.len() as int] == e);
            }
        }
    }
}

proof fn lemma_at_distance_contains(ps: Seq<(usize, usize, i32)>, d: int, e: (usize, usize, i32))
    ensures
        at_distance(ps, d).contains(e) <==> ps.contains(e) && e.2 == d,
        forall|k: int| 0 <= k < at_distance(ps, d).len() ==> #[trigger] at_distance(ps, d)[k].2 == d,
    decreases ps.len(),
{
    if ps.len() > 0 {
        let pre = ps.drop_last();
        lemma_at_distance_contains(pre, d, e);
        let a = at_distance(pre, d);
        if ps.contains(e) {
            let k = choose|k: int| 0 <= k < ps.len() && ps[k] == e;
            if k < pre.len() {
                assert(pre[k] == e);
            }
        }
        if pre.contains(e) {
            let k = choose|k: int| 0 <= k < pre.len() && pre[k] == e;
            assert(ps[k] == e);
        }
        if ps.last().2 == d {
            let cur = a.push(ps.last());
            if cur.contains(e) {
                let k = choose|k: int| 0 <= k < cur.len() && cur[k] == e;
                if k < a.len() {
                    assert(a[k] == e);
                }
            }
            if a.contains(e) {
                let k = choose|k: int| 0 <= k < a.len() && a[k] == e;
                assert(cur[k] == e);
            }
            if e == ps.last() {
                assert(cur[a.len() as int] == e);
                assert(ps[ps.len() - 1] == e);
            }
            assert forall|k: int| 0 <= k < cur.len() implies #[trigger] cur[k].2 == d by {
                if k < a.len() {
                    assert(cur[k] == a[k]);
                }
            }
        } else {
            if e == ps.last() {
                assert(ps[ps.len() - 1] == e);
            }
        }
    }
}

proof fn lemma_by_distance_contains(ps: Seq<(usize, usize, i32)>, hi: int, lo: int, e: (usize, usize, i32))
    ensures
        by_distance(ps, hi, lo).contains(e) <==> ps.contains(e) && lo < e.2 <= hi,
        forall|k1: int, k2: int|
            0 <= k1 < k2 < by_distance(ps, hi, lo).len() ==> #[trigger] by_distance(ps, hi, lo)[k1].2 >= #[trigger] by_distance(
                ps,
                hi,
                lo,
            )[k2].2,
        forall|k: int| 0 <= k < by_distance(ps, hi, lo).len() ==> lo < #[trigger] by_distance(ps, hi, lo)[k].2 <= hi,
    decreases hi - lo,
{
    if hi > lo {
        lemma_by_distance_contains(ps, hi - 1, lo, e);
        lemma_at_distance_contains(ps, hi, e);
        let a = at_distance(ps, hi);
        let b = by_distance(ps, hi - 1, lo);
        let c = a + b;
        assert(by_distance(ps, hi, lo) == c);
        if c.contains(e) {
            let k = choose|k: int| 0 <= k < c.len() && c[k] == e;
            if k < a.len() {
                assert(a[k] == e);
            } else {
                assert(b[k - a.len()] == e);
            }
        }
        if a.contains(e) {
            let k = choose|k: int| 0 <= k < a.len() && a[k] == e;
            assert(c[k] == e);
        }
        if b.contains(e) {
            let k = choose|k: int| 0 <= k < b.len() && b[k] == e;
            assert(c[a.len() + k] == e);
        }
        assert forall|k: int| 0 <= k < c.len() implies lo < #[trigger] c[k].2 <= hi by {
            if k < a.len() {
                assert(c[k] == a[k]);
            } else {
                assert(c[k] == b[k - a.len()]);
            }
        }
        assert forall|k1: int, k2: int| 0 <= k1 < k2 < c.len() implies #[trigger] c[k1].2 >= #[trigger] c[k2].2 by {
            if k2 < a.len() {
                assert(c[k1] == a[k1] && c[k2] == a[k2]);
            } else if k1 < a.len() {
                assert(c[k1] == a[k1] && c[k2] == b[k2 - a.len()]);
            } else {
                assert(c[k1] == b[k1 - a.len()] && c[k2] == b[k2 - a.len()]);
            }
        }
    }
}

proof fn lemma_max_distance_bounds(ps: Seq<(usize, usize, i32)>)
    ensures
        forall|k: int| 0 <= k < ps.len() ==> #[trigger] ps[k].2 <= max_distance(ps),
    decreases ps.len(),
{
    if ps.len() > 0 {
        lemma_max_distance_bounds(ps.drop_last());
        assert forall|k: int| 0 <= k < ps.len() implies #[trigger] ps[k].2 <= max_distance(ps) by {
            if k < ps.len() - 1 {
                assert(ps[k] == ps.drop_last()[k]);
            }
        }
    }
}

/// The dot centers of a distance map: exactly the foreground pixels at a positive distance with
/// no 4-neighbour strictly farther (plateau maxima included), as `(column, row, distance)`,
/// listed by non-increasing distance; in particular a foreground pixel at the largest distance
/// of the map is listed whenever that distance is positive.
pub proof fn lemma_peaks_are_local_maxima(mask: Seq<u8>, dist: Seq<i32>, w: int, h: int)
    ensures
        ({
            let ps = peaks_upto(mask, dist, w, h, w * h);
            let out = by_distance(ps, max_distance(ps), 0);
            &&& forall|i: int|
                0 <= i < w * h && #[trigger] local_maximum(mask, dist, w, h, i) ==> out.contains(peak_entry(dist, w, i))
            &&& forall|e: (usize, usize, i32)|
                #[trigger] out.contains(e) ==> exists|i: int|
                    0 <= i < w * h && #[trigger] local_maximum(mask, dist, w, h, i) && e == peak_entry(dist, w, i)
            &&& forall|k1: int, k2: int| 0 <= k1 < k2 < out.len() ==> #[trigger] out[k1].2 >= #[trigger] out[k2].2
            &&& forall|i: int|
                0 <= i < w * h && mask[i] != 0 && dist[i] > 0 && (forall|j: int| 0 <= j < w * h ==> dist[j] <= dist[i])
                    ==> #[trigger] out.contains(peak_entry(dist, w, i))
        }),
{
    let ps = peaks_upto(mask, dist, w, h, w * h);
    let hi = max_distance(ps);
    let out = by_distance(ps, hi, 0);
    lemma_max_distance_bounds(ps);
    assert forall|i: int| 0 <= i < w * h && #[trigger] local_maximum(mask, dist, w, h, i) implies out.contains(
        peak_entry(dist, w, i),
    ) by {
        let e = peak_entry(dist, w, i);
        assert(is_peak(mask, dist, w, h, i));
        lemma_peaks_upto_contains(mask, dist, w, h, w * h, e);
        let k = choose|k: int| 0 <= k < ps.len() && ps[k] == e;
        assert(ps[k].2 <= hi);
        lemma_by_distance_contains(ps, hi, 0, e);
    }
    assert forall|e: (usize, usize, i32)| #[trigger] out.contains(e) implies exists|i: int|
        0 <= i < w * h && #[trigger] local_maximum(mask, dist, w, h, i) && e == peak_entry(dist, w, i) by {
        lemma_by_distance_contains(ps, hi, 0, e);
        lemma_peaks_upto_contains(mask, dist, w, h, w * h, e);
        let i = choose|i: int| 0 <= i < w * h && #[trigger] is_peak(mask, dist, w, h, i) && e == peak_entry(dist, w, i);
        assert(local_maximum(mask, dist, w, h, i));
    }
    assert forall|i: int|
        0 <= i < w * h && mask[i] != 0 && dist[i] > 0 && (forall|j: int| 0 <= j < w * h ==> dist[j] <= dist[i])
            implies #[trigger] out.contains(peak_entry(dist, w, i)) by {
        assert(local_maximum(mask, dist, w, h, i));
    }
    lemma_by_distance_contains(ps, hi, 0, (0usize, 0usize, 0i32));
}

/// Row-major position of the pixel that entry `e` lists, in a map `w` pixels wide.
pub open spec fn pixel_index(e: (usize, usize, i32), w: int) -> int {
    e.1 * w + e.0
}

/// The entries of `s` list pixels in strictly increasing row-major position.
pub open spec fn strictly_row_major(s: Seq<(usize, usize, i32)>, w: int) -> bool {
    forall|k1: int, k2: int| #![trigger s[k1], s[k2]] 0 <= k1 < k2 < s.len() ==> pixel_index(s[k1], w) < pixel_index(s[k2], w)
}

/// Entries of `s` at one distance list their pixels in strictly increasing row-major position.
pub open spec fn row_major_within_distance(s: Seq<(usize, usize, i32)>, w: int) -> bool {
    forall|k1: int, k2: int|
        #![trigger s[k1], s[k2]]
        0 <= k1 < k2 < s.len() && s[k1].2 == s[k2].2 ==> pixel_index(s[k1], w) < pixel_index(s[k2], w)
}

proof fn lemma_peaks_upto_row_major(mask: Seq<u8>, dist: Seq<i32>, w: int, h: int, n: int)
    requires
        0 <= w,
        0 <= h,
        0 <= n <= w * h,
        w * h <= usize::MAX,
    ensures
        strictly_row_major(peaks_upto(mask, dist, w, h, n), w),
        forall|k: int|
            0 <= k < peaks_upto(mask, dist, w, h, n).len() ==> #[trigger] pixel_index(
                peaks_upto(mask, dist, w, h, n)[k],
                w,
            ) < n,
    decreases n,
{
    if n > 0 {
        lemma_peaks_upto_row_major(mask, dist, w, h, n - 1);
        let prev = peaks_upto(mask, dist, w, h, n - 1);
        if is_peak(mask, dist, w, h, n - 1) {
            let p = n - 1;
            lemma_positive_dims(w, h, p);
            lemma_row_bound(w, h, p);
            let q = p / w;
            assert(q <= q * w) by (nonlinear_arith)
                requires
                    q >= 0,
                    w >= 1,
            ;
            let e = peak_entry(dist, w, p);
            assert(e.0 == p % w);
            assert(e.1 == p / w);
            assert(pixel_index(e, w) == p);
            let cur = prev.push(e);
            assert(peaks_upto(mask, dist, w, h, n) == cur);
            assert forall|k1: int, k2: int| 0 <= k1 < k2 < cur.len() implies pixel_index(#[trigger] cur[k1], w)
                < pixel_index(#[trigger] cur[k2], w) by {
                assert(cur[k1] == prev[k1]);
                if k2 < prev.len() {
                    assert(cur[k2] == prev[k2]);
                }
            }
            assert forall|k: int| 0 <= k < cur.len() implies #[trigger] pixel_index(cur[k], w) < n by {
                if k < prev.len() {
                    assert(cur[k] == prev[k]);
                }
            }
        }
    }
}

proof fn lemma_at_distance_row_major(ps: Seq<(usize, usize, i32)>, w: int, d: int)
    requires
        strictly_row_major(ps, w),
    ensures
        strictly_row_major(at_distance(ps, d), w),
    decreases ps.len(),
{
    if ps.len() > 0 {
        let pre = ps.drop_last();
        assert forall|k1: int, k2: int| 0 <= k1 < k2 < pre.len() implies pixel_index(#[trigger] pre[k1], w)
            < pixel_index(#[trigger] pre[k2], w) by {
            assert(pre[k1] == ps[k1] && pre[k2] == ps[k2]);
        }
        lemma_at_distance_row_major(pre, w, d);
        let a = at_distance(pre, d);
        if ps.last().2 == d {
            let cur = a.push(ps.last());
            assert forall|k1: int, k2: int| 0 <= k1 < k2 < cur.len() implies pixel_index(#[trigger] cur[k1], w)
                < pixel_index(#[trigger] cur[k2], w) by {
                assert(cur[k1] == a[k1]);
                if k2 < a.len() {
                    assert(cur[k2] == a[k2]);
                } else {
                    lemma_at_distance_contains(pre, d, a[k1]);
                    assert(a.contains(a[k1]));
                    let j = choose|j: int| 0 <= j < pre.len() && pre[j] == a[k1];
                    assert(ps[j] == pre[j]);
                    assert(ps[ps.len() - 1] == ps.last());
                }
            }
        }
    }
}

proof fn lemma_by_distance_row_major(ps: Seq<(usize, usize, i32)>, w: int, hi: int, lo: int)
    requires
        strictly_row_major(ps, w),
    ensures
        row_major_within_distance(by_distance(ps, hi, lo), w),
    decreases hi - lo,
{
    if hi > lo {
        lemma_by_distance_row_major(ps, w, hi - 1, lo);
        lemma_at_distance_row_major(ps, w, hi);
        lemma_at_distance_contains(ps, hi, (0usize, 0usize, 0i32));
        lemma_by_distance_contains(ps, hi - 1, lo, (0usize, 0usize, 0i32));
        let a = at_distance(ps, hi);
        let b = by_distance(ps, hi - 1, lo);
        let c = a + b;
        assert(by_distance(ps, hi, lo) == c);
        assert forall|k1: int, k2: int| 0 <= k1 < k2 < c.len() && (#[trigger] c[k1]).2 == (#[trigger] c[k2]).2 implies pixel_index(
            c[k1],
            w,
        ) < pixel_index(c[k2], w) by {
            if k2 < a.len() {
                assert(c[k1] == a[k1] && c[k2] == a[k2]);
            } else if k1 < a.len() {
                assert(c[k1] == a[k1] && c[k2] == b[k2 - a.len()]);
                assert(a[k1].2 == hi);
                assert(b[k2 - a.len()].2 <= hi - 1);
            } else {
                assert(c[k1] == b[k1 - a.len()] && c[k2] == b[k2 - a.len()]);
            }
        }
    }
}

/// The dot centers of a distance map that are at one distance come in row-major order of their
/// pixels (row by row, left to right), none twice.
pub proof fn lemma_peaks_row_major(mask: Seq<u8>, dist: Seq<i32>, w: int, h: int)
    requires
        0 <= w,
        0 <= h,
        w * h <= usize::MAX,
    ensures
        ({
            let ps = peaks_upto(mask, dist, w, h, w * h);
            row_major_within_distance(by_distance(ps, max_distance(ps), 0), w)
        }),
{
    let ps = peaks_upto(mask, dist, w, h, w * h);
    lemma_peaks_upto_row_major(mask, dist, w, h, w * h);
    lemma_by_distance_row_major(ps, w, max_distance(ps), 0);
}

proof fn lemma_by_distance_extend(ps: Seq<(usize, usize, i32)>, hi: int, lo: int)
    requires
        lo <= hi,
    ensures
        by_distance(ps, hi, lo - 1) == by_distance(ps, hi, lo) + at_distance(ps, lo),
    decreases hi - lo,
{
    if hi > lo {
        lemma_by_distance_extend(ps, hi - 1, lo);
        assert(by_distance(ps, hi, lo - 1) =~= at_distance(ps, hi) + by_distance(ps, hi - 1, lo - 1));
        assert(by_distance(ps, hi, lo) =~= at_distance(ps, hi) + by_distance(ps, hi - 1, lo));
        assert(by_distance(ps, hi, lo - 1) =~= by_distance(ps, hi, lo) + at_distance(ps, lo));
    } else {
        assert(by_distance(ps, lo - 1, lo - 1) =~= Seq::<(usize, usize, i32)>::empty());
        assert(by_distance(ps, lo, lo) =~= Seq::<(usize, usize, i32)>::empty());
        assert(by_distance(ps, lo, lo - 1) =~= at_distance(ps, lo) + by_distance(ps, lo - 1, lo - 1));
        assert(by_distance(ps, hi, lo - 1) =~= by_distance(ps, hi, lo) + at_distance(ps, lo));
    }
}

fn entries_at(ps: &Vec<(usize, usize, i32)>, d: i32, out: &mut Vec<(usize, usize, i32)>)
    ensures
        final(out)@ == old(out)@ + at_distance(ps@, d as int),
{
    let ghost o0 = out@;
    for k in 0..ps.len()
        invariant
            out@ == o0 + at_distance(ps@.take(k as int), d as int),
    {
        proof {
            assert(ps@.take(k + 1).drop_last() =~= ps@.take(k as int));
            assert(ps@.take(k + 1).last() == ps@[k as int]);
        }
        if ps[k].2 == d {
            out.push(ps[k]);
        }
        proof {
            assert(out@ =~= o0 + at_distance(ps@.take(k + 1), d as int));
        }
    }
    assert(ps@.take(ps@.len() as int) =~= ps@);
}

/// The peaks of the distance map of the `width` x `height` mask, `(column, row, distance)`,
/// ordered by decreasing distance, peaks at equal distance in row order.
pub fn distance_peaks(mask: &Vec<u8>, dist: &Vec<i32>, width: usize, height: usize) -> (out: Vec<(usize, usize, i32)>)
    requires
        mask@.len() == width * height,
        dist@.len() == width * height,
    ensures
        ({
            let ps = peaks_upto(mask@, dist@, width as int, height as int, (width * height) as int);
            out@ == by_distance(ps, max_distance(ps), 0)
        }),
        forall|i: int|
            0 <= i < width * height && #[trigger] local_maximum(mask@, dist@, width as int, height as int, i)
                ==> out@.contains(peak_entry(dist@, width as int, i)),
        forall|e: (usize, usize, i32)|
            #[trigger] out@.contains(e) ==> exists|i: int|
                0 <= i < width * height && #[trigger] local_maximum(mask@, dist@, width as int, height as int, i) && e
                    == peak_entry(dist@, width as int, i),
        forall|k1: int, k2: int| 0 <= k1 < k2 < out@.len() ==> #[trigger] out@[k1].2 >= #[trigger] out@[k2].2,
        row_major_within_distance(out@, width as int),
        forall|i: int|
            0 <= i < width * height && mask@[i] != 0 && dist@[i] > 0 && (forall|j: int|
                0 <= j < width * height ==> dist@[j] <= dist@[i]) ==> #[trigger] out@.contains(
                peak_entry(dist@, width as int, i),
            ),
{
    let ghost w = width as int;
    let ghost h = height as int;
    let n = mask.len();
    let mut ps: Vec<(usize, usize, i32)> = Vec::new();
    for i in 0..n
        invariant
            w == width,
            h == height,
            n == w * h,
            mask@.len() == n,
            dist@.len() == n,
            ps@ == peaks_upto(mask@, dist@, w, h, i as int),
    {
        proof {
            lemma_positive_dims(w, h, i as int);
            lemma_row_bound(w, h, i as int);
            lemma_neighbors(w, h, i as int);
        }
        let d = dist[i];
        if mask[i] != 0 && d > 0 {
            let x = i % width;
            let y = i / width;
            let mut peak = true;
            if x > 0 && dist[i - 1] > d {
                peak = false;
            }
            if x + 1 < width && dist[i + 1] > d {
                peak = false;
            }
            if y > 0 && dist[i - width] > d {
                peak = false;
            }
            if y + 1 < height && dist[i + width] > d {
                peak = false;
            }
            proof {
                if !peak {
                    if x > 0 && dist@[i - 1] > d {
                        assert(adjacent(w, h, i as int, i - 1));
                    } else if x + 1 < width && dist@[i + 1] > d {
                        assert(adjacent(w, h, i as int, i + 1));
                    } else if y > 0 && dist@[i - w] > d {
                        assert(adjacent(w, h, i as int, i - w));
                    } else {
                        assert(adjacent(w, h, i as int, i + w));
                    }
                }
            }
            if peak {
                ps.push((x, y, d));
            }
        }
    }
    let mut maxd: i32 = 0;
    for k in 0..ps.len()
        invariant
            maxd == max_distance(ps@.take(k as int)),
            maxd >= 0,
    {
        proof {
            assert(ps@.take(k + 1).drop_last() =~= ps@.take(k as int));
        }
        if ps[k].2 > maxd {
            maxd = ps[k].2;
        }
    }
    assert(ps@.take(ps@.len() as int) =~= ps@);
    let mut out: Vec<(usize, usize, i32)> = Vec::new();
    let mut d = maxd;
    while d > 0
        invariant
            0 <= d <= maxd,
            out@ == by_distance(ps@, maxd as int, d as int),
        decreases d,
    {
        entries_at(&ps, d, &mut out);
        proof {
            lemma_by_distance_extend(ps@, maxd as int, d as int);
        }
        d = d - 1;
    }
    proof {
        lemma_peaks_are_local_maxima(mask@, dist@, w, h);
        lemma_peaks_row_major(mask@, dist@, w, h);
    }
    out
}

// ---------------------------------------------------------------------------
// The box of a group
// ---------------------------------------------------------------------------
/// The bounding box of a group of pixels as a mask.
pub struct BoxMask {
    pub min_x: usize,
    pub min_y: usize,
    pub width: usize,
    pub height: usize,
    /// 1 on the group's pixels, 0 elsewhere, row by row.
    pub mask: Vec<u8>,
}

/// Column of pixel `p` of an image `w` pixels wide.
pub open spec fn col_of(w: int, p: usize) -> int {
    p as int % w
}

/// Row of pixel `p` of an image `w` pixels wide.
pub open spec fn row_of(w: int, p: usize) -> int {
    p as int / w
}

/// Some pixel of the group has column `x` and row `y` in an image `w` pixels wide.
pub open spec fn holds_pixel(pixels: Seq<usize>, w: int, x: int, y: int) -> bool {
    exists|k: int| 0 <= k < pixels.len() && #[trigger] col_of(w, pixels[k]) == x && row_of(w, pixels[k]) == y
}

/// The mask of the bounding box of the pixels (indices into a `width` x `height` image): the box
/// spans the least to the greatest column and row of the pixels, and holds 1 where a pixel lies.
#[verifier::spinoff_prover]
#[verifier::rlimit(40)]
pub fn component_mask(pixels: &Vec<usize>, width: usize, height: usize) -> (b: BoxMask)
    requires
        pixels@.len() > 0,
        width * height <= usize::MAX,
        forall|k: int| 0 <= k < pixels@.len() ==> #[trigger] pixels@[k] < width * height,
    ensures
        exists|k: int| 0 <= k < pixels@.len() && #[trigger] col_of(width as int, pixels@[k]) == b.min_x,
        exists|k: int| 0 <= k < pixels@.len() && #[trigger] row_of(width as int, pixels@[k]) == b.min_y,
        exists|k: int| 0 <= k < pixels@.len() && #[trigger] col_of(width as int, pixels@[k]) == b.min_x + b.width - 1,
        exists|k: int| 0 <= k < pixels@.len() && #[trigger] row_of(width as int, pixels@[k]) == b.min_y + b.height - 1,
        forall|k: int|
            0 <= k < pixels@.len() ==> b.min_x <= #[trigger] col_of(width as int, pixels@[k]) < b.min_x + b.width
                && b.min_y <= row_of(width as int, pixels@[k]) < b.min_y + b.height,
        b.width * b.height <= width * height,
        b.mask@.len() == b.width * b.height,
        forall|sy: int, sx: int|
            0 <= sy < b.height && 0 <= sx < b.width ==> #[trigger] b.mask@[sy * b.width + sx] == (if holds_pixel(
                pixels@,
                width as int,
                b.min_x + sx,
                b.min_y + sy,
            ) {
                1u8
            } else {
                0u8
            }),
{
    let ghost w = width as int;
    let ghost h = height as int;
    proof {
        lemma_positive_dims(w, h, pixels@[0] as int);
    }
    let mut min_x = width;
    let mut min_y = height;
    let mut max_x: usize = 0;
    let mut max_y: usize = 0;
    for k in 0..pixels.len()
        invariant
            w == width,
            h == height,
            0 < w,
            0 < h,
            forall|j: int| 0 <= j < pixels@.len() ==> #[trigger] pixels@[j] < w * h,
            k > 0 ==> exists|j: int| 0 <= j < k && #[trigger] col_of(w, pixels@[j]) == min_x,
            k > 0 ==> exists|j: int| 0 <= j < k && #[trigger] row_of(w, pixels@[j]) == min_y,
            k > 0 ==> exists|j: int| 0 <= j < k && #[trigger] col_of(w, pixels@[j]) == max_x,
            k > 0 ==> exists|j: int| 0 <= j < k && #[trigger] row_of(w, pixels@[j]) == max_y,
            k == 0 ==> min_x == width && min_y == height && max_x == 0 && max_y == 0,
            forall|j: int|
                0 <= j < k ==> min_x <= #[trigger] col_of(w, pixels@[j]) <= max_x && min_y <= row_of(w, pixels@[j]) <= max_y,
            max_x < w,
            max_y < h,
    {
        let p = pixels[k];
        proof {
            lemma_row_bound(w, h, p as int);
        }
        let x = p % width;
        let y = p / width;
        if x < min_x {
            min_x = x;
        }
        if x > max_x {
            max_x = x;
        }
        if y < min_y {
            min_y = y;
        }
        if y > max_y {
            max_y = y;
        }
        proof {
            assert(pixels@[k as int] == p);
            assert(col_of(w, pixels@[k as int]) == x as int);
            assert(row_of(w, pixels@[k as int]) == y as int);
        }
    }
    let bw = max_x - min_x + 1;
    let bh = max_y - min_y + 1;
    proof {
        assert(bw * bh <= w * h) by (nonlinear_arith)
            requires
                1 <= bw <= w,
                1 <= bh <= h,
        ;
    }
    let total = bw * bh;
    let mut mask: Vec<u8> = Vec::new();
    for i in 0..total
        invariant
            mask@ == Seq::new(i as nat, |j: int| 0u8),
            forall|j: int|
                0 <= j < pixels@.len() ==> min_x <= #[trigger] col_of(w, pixels@[j]) <= max_x && min_y <= row_of(w, pixels@[j]) <= max_y,
    {
        mask.push(0u8);
        assert(mask@ =~= Seq::new((i + 1) as nat, |j: int| 0u8));
    }
    proof {
        assert forall|sy: int, sx: int| 0 <= sy < bh && 0 <= sx < bw implies #[trigger] mask@[sy * bw + sx] == 0u8 by {
            assert(sy * bw + sx < total) by (nonlinear_arith)
                requires
                    0 <= sx < bw,
                    0 <= sy < bh,
                    total == bw * bh,
            ;
            assert(0 <= sy * bw) by (nonlinear_arith)
                requires
                    0 <= sy,
                    0 <= bw,
            ;
        }
    }
    for k in 0..pixels.len()
        invariant
            w == width,
            h == height,
            0 < w,
            0 < h,
            forall|j: int| 0 <= j < pixels@.len() ==> #[trigger] pixels@[j] < w * h,
            forall|j: int|
                0 <= j < pixels@.len() ==> min_x <= #[trigger] col_of(w, pixels@[j]) <= max_x && min_y <= row_of(w, pixels@[j]) <= max_y,
            bw == max_x - min_x + 1,
            bh == max_y - min_y + 1,
            total == bw * bh,
            mask@.len() == total,
            forall|sy: int, sx: int|
                0 <= sy < bh && 0 <= sx < bw ==> #[trigger] mask@[sy * bw + sx] == (if exists|j: int|
                    0 <= j < k && #[trigger] col_of(w, pixels@[j]) == min_x + sx && row_of(w, pixels@[j]) == min_y + sy {
                    1u8
                } else {
                    0u8
                }),
    {
        let p = pixels[k];
        proof {
            lemma_row_bound(w, h, p as int);
            assert(pixels@[k as int] == p);
            assert(min_x <= col_of(w, pixels@[k as int]) <= max_x);
            assert(min_y <= row_of(w, pixels@[k as int]) <= max_y);
        }
        let sx = p % width - min_x;
        let sy = p / width - min_y;
        proof {
            assert(sy * bw + sx < total) by (nonlinear_arith)
                requires
                    sx < bw,
                    sy < bh,
                    total == bw * bh,
            ;
        }
        let ghost before = mask@;
        mask.set(sy * bw + sx, 1u8);
        proof {
            assert forall|ty: int, tx: int| 0 <= ty < bh && 0 <= tx < bw implies #[trigger] mask@[ty * bw + tx] == (if exists|j: int|
                0 <= j < k + 1 && #[trigger] col_of(w, pixels@[j]) == min_x + tx && row_of(w, pixels@[j]) == min_y + ty {
                1u8
            } else {
                0u8
            }) by {
                lemma_fundamental_pair(ty, tx, sy as int, sx as int, bw as int);
                assert(0 <= ty * bw + tx < total) by (nonlinear_arith)
                    requires
                        0 <= tx < bw,
                        0 <= ty < bh,
                        total == bw * bh,
                ;
                if ty == sy && tx == sx {
                    assert(pixels@[k as int] == p);
                } else {
                    assert(mask@[ty * bw + tx] == before[ty * bw + tx]);
                    if exists|j: int| 0 <= j < k + 1 && #[trigger] col_of(w, pixels@[j]) == min_x + tx && row_of(w, pixels@[j]) == min_y + ty {
                        let j = choose|j: int| 0 <= j < k + 1 && #[trigger] col_of(w, pixels@[j]) == min_x + tx && row_of(w, pixels@[j]) == min_y + ty;
                        assert(j != k);
                    }
                }
            }
        }
    }
    BoxMask { min_x, min_y, width: bw, height: bh, mask }
}

/// Positions in a box `bw` wide are equal exactly when their rows and columns are.
proof fn lemma_fundamental_pair(y1: int, x1: int, y2: int, x2: int, bw: int)
    requires
        0 <= x1 < bw,
        0 <= x2 < bw,
        0 <= y1,
        0 <= y2,
    ensures
        (y1 * bw + x1 == y2 * bw + x2) <==> (y1 == y2 && x1 == x2),
{
    if y1 * bw + x1 == y2 * bw + x2 {
        vstd::arithmetic::div_mod::lemma_fundamental_div_mod_converse(y1 * bw + x1, bw, y1, x1);
        vstd::arithmetic::div_mod::lemma_fundamental_div_mod_converse(y2 * bw + x2, bw, y2, x2);
    }
}

} // verus!
