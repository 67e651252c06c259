//! Sorting points into the order of their checksums.
use vstd::prelude::*;
use crate::point::{Point, point_le};
use crate::ring::{in_order, lemma_with_hash, lemma_with_hash_concat, with_hash};

verus! {

/// Points of which none has the given checksum hold no point with it.
proof fn lemma_without_hash(points: Seq<Point>, hash: u32)
    requires
        forall|k: int| 0 <= k < points.len() ==> (#[trigger] points[k]).hash != hash,
    ensures
        with_hash(points, hash) == Seq::<Point>::empty(),
    decreases points.len(),
{
    if points.len() > 0 {
        let front = points.drop_last();
        assert forall|k: int| 0 <= k < front.len() implies (#[trigger] front[k]).hash != hash by {
            assert(points[k].hash != hash);
        }
        lemma_without_hash(front, hash);
        assert(points[points.len() - 1].hash != hash);
    }
    assert(with_hash(points, hash) =~= Seq::<Point>::empty());
}

/// Points have one arrangement that is in order and keeps the points of
/// each checksum as they stood.
pub proof fn lemma_sorted_once(first: Seq<Point>, second: Seq<Point>)
    requires
        in_order(first),
        in_order(second),
        first.len() == second.len(),
        forall|h: u32| #[trigger] with_hash(first, h) == with_hash(second, h),
    ensures
        first == second,
    decreases first.len(),
{
    if first.len() == 0 {
        assert(first =~= second);
    } else {
        let n = first.len() as int;
        let a = first.last();
        let b = second.last();
        let f = first.drop_last();
        let s = second.drop_last();
        assert(with_hash(first, a.hash) == with_hash(second, a.hash));
        assert(with_hash(first, b.hash) == with_hash(second, b.hash));
        lemma_with_hash(second, a);
        lemma_with_hash(first, b);
        assert(a.hash == b.hash) by {
            let k = choose|k: int| 0 <= k < n && (#[trigger] second[k]).hash == a.hash;
            assert(point_le(second[k], second[n - 1]) || k == n - 1);
            let m = choose|m: int| 0 <= m < n && (#[trigger] first[m]).hash == b.hash;
            assert(point_le(first[m], first[n - 1]) || m == n - 1);
        }
        assert(a == b) by {
            assert(with_hash(first, a.hash).last() == a);
            assert(with_hash(second, a.hash).last() == b);
        }
        assert forall|i: int, j: int| 0 <= i < j < f.len() implies point_le(
            #[trigger] f[i],
            #[trigger] f[j],
        ) by {
            assert(point_le(first[i], first[j]));
        }
        assert forall|i: int, j: int| 0 <= i < j < s.len() implies point_le(
            #[trigger] s[i],
            #[trigger] s[j],
        ) by {
            assert(point_le(second[i], second[j]));
        }
        assert forall|h: u32| #[trigger] with_hash(f, h) == with_hash(s, h) by {
            assert(with_hash(first, h) == with_hash(second, h));
            if h == a.hash {
                assert(with_hash(f, h) =~= with_hash(first, h).drop_last());
                assert(with_hash(s, h) =~= with_hash(second, h).drop_last());
            }
        }
        lemma_sorted_once(f, s);
        assert(first =~= f.push(a));
        assert(second =~= s.push(b));
    }
}

/// Merges two runs that are in order into one. Of two points with one
/// checksum the point of the left run comes first.
fn merge(left: &Vec<Point>, right: &Vec<Point>) -> (out: Vec<Point>)
    requires
        in_order(left@),
        in_order(right@),
    ensures
        in_order(out@),
        out@.len() == left@.len() + right@.len(),
        forall|h: u32| #[trigger] with_hash(out@, h) == with_hash(left@, h) + with_hash(right@, h),
{
    let mut out: Vec<Point> = Vec::new();
    let mut i: usize = 0;
    let mut j: usize = 0;
    assert forall|h: u32| #[trigger] with_hash(out@, h) == with_hash(left@.subrange(0, 0), h)
        + with_hash(right@.subrange(0, 0), h) by {
        assert(left@.subrange(0, 0) =~= out@);
        assert(right@.subrange(0, 0) =~= out@);
    }
    while i < left.len() || j < right.len()
        invariant
            i <= left.len(),
            j <= right.len(),
            out@.len() == i + j,
            in_order(left@),
            in_order(right@),
            in_order(out@),
            forall|k: int, m: int|
                0 <= k < out@.len() && i <= m < left@.len() ==> point_le(
                    #[trigger] out@[k],
                    #[trigger] left@[m],
                ),
            forall|k: int, m: int|
                0 <= k < out@.len() && j <= m < right@.len() ==> point_le(
                    #[trigger] out@[k],
                    #[trigger] right@[m],
                ),
            forall|m: int|
                0 <= m < j && i < left@.len() ==> (#[trigger] right@[m]).hash
                    < left@[i as int].hash,
            forall|h: u32| #[trigger]
                with_hash(out@, h) == with_hash(left@.subrange(0, i as int), h) + with_hash(
                    right@.subrange(0, j as int),
                    h,
                ),
        decreases left.len() - i + (right.len() - j),
    {
        let take_left = if i == left.len() {
            false
        } else if j == right.len() {
            true
        } else {
            left[i].le(&right[j])
        };
        let ghost before = out@;
        let ghost taken_left = left@.subrange(0, i as int);
        let ghost taken_right = right@.subrange(0, j as int);
        if take_left {
            let p = left[i];
            proof {
                assert forall|m: int| j <= m < right@.len() implies point_le(
                    p,
                    #[trigger] right@[m],
                ) by {
                    assert(point_le(right@[j as int], right@[m]) || m == j);
                }
                assert forall|m: int| i < m < left@.len() implies point_le(
                    p,
                    #[trigger] left@[m],
                ) by {
                    assert(point_le(left@[i as int], left@[m]));
                }
                assert forall|m: int| 0 <= m < j && i + 1 < left@.len() implies (
                #[trigger] right@[m]).hash < left@[i + 1].hash by {
                    assert(point_le(left@[i as int], left@[i + 1]));
                }
                assert forall|m: int| 0 <= m < taken_right.len() implies (
                #[trigger] taken_right[m]).hash != p.hash by {
                    assert(right@[m].hash < left@[i as int].hash);
                }
                lemma_without_hash(taken_right, p.hash);
            }
            out.push(p);
            i = i + 1;
            proof {
                let now_left = left@.subrange(0, i as int);
                assert(now_left.drop_last() =~= taken_left);
                assert(out@.drop_last() =~= before);
                assert forall|h: u32| #[trigger] with_hash(out@, h) == with_hash(now_left, h)
                    + with_hash(taken_right, h) by {
                    assert(with_hash(before, h) == with_hash(taken_left, h) + with_hash(
                        taken_right,
                        h,
                    ));
                    if h == p.hash {
                        assert(with_hash(out@, h) =~= with_hash(now_left, h) + with_hash(
                            taken_right,
                            h,
                        ));
                    }
                }
            }
        } else {
            let p = right[j];
            proof {
                assert forall|m: int| i <= m < left@.len() implies point_le(
                    p,
                    #[trigger] left@[m],
                ) by {
                    assert(point_le(left@[i as int], left@[m]) || m == i);
                }
                assert forall|m: int| j < m < right@.len() implies point_le(
                    p,
                    #[trigger] right@[m],
                ) by {
                    assert(point_le(right@[j as int], right@[m]));
                }
                assert forall|m: int| 0 <= m < j + 1 && i < left@.len() implies (
                #[trigger] right@[m]).hash < left@[i as int].hash by {
                    assert(point_le(right@[m], right@[j as int]) || m == j);
                }
            }
            out.push(p);
            j = j + 1;
            proof {
                let now_right = right@.subrange(0, j as int);
                assert(now_right.drop_last() =~= taken_right);
                assert(out@.drop_last() =~= before);
                assert forall|h: u32| #[trigger] with_hash(out@, h) == with_hash(taken_left, h)
                    + with_hash(now_right, h) by {
                    assert(with_hash(before, h) == with_hash(taken_left, h) + with_hash(
                        taken_right,
                        h,
                    ));
                    if h == p.hash {
                        assert(with_hash(out@, h) =~= with_hash(taken_left, h) + with_hash(
                            now_right,
                            h,
                        ));
                    }
                }
            }
        }
        assert forall|a: int, b: int| 0 <= a < b < out@.len() implies point_le(
            #[trigger] out@[a],
            #[trigger] out@[b],
        ) by {
            if b < before.len() {
                assert(point_le(before[a], before[b]));
            }
        }
    }
    assert(left@.subrange(0, i as int) =~= left@);
    assert(right@.subrange(0, j as int) =~= right@);
    out
}

/// Sorts the points `points[lo..hi]` into a vector of their own.
fn sort_range(points: &Vec<Point>, lo: usize, hi: usize) -> (out: Vec<Point>)
    requires
        lo <= hi <= points.len(),
    ensures
        in_order(out@),
        out@.len() == hi - lo,
        forall|h: u32| #[trigger]
            with_hash(out@, h) == with_hash(points@.subrange(lo as int, hi as int), h),
    decreases hi - lo,
{
    if hi - lo <= 1 {
        let mut out: Vec<Point> = Vec::new();
        if lo < hi {
            out.push(points[lo]);
        }
        assert(out@ =~= points@.subrange(lo as int, hi as int));
        out
    } else {
        let mid: usize = lo + (hi - lo) / 2;
        let left = sort_range(points, lo, mid);
        let right = sort_range(points, mid, hi);
        let out = merge(&left, &right);
        proof {
            let a = points@.subrange(lo as int, mid as int);
            let b = points@.subrange(mid as int, hi as int);
            assert(a + b =~= points@.subrange(lo as int, hi as int));
            assert forall|h: u32| #[trigger]
                with_hash(out@, h) == with_hash(points@.subrange(lo as int, hi as int), h) by {
                lemma_with_hash_concat(a, b, h);
            }
        }
        out
    }
}

/// Sorts points by checksum.
///
/// The result holds the given points in the order of their checksums, and
/// points that share a checksum stay in the order in which they were given:
/// nothing is added, dropped or merged.
pub fn sort_points(points: &Vec<Point>) -> (sorted: Vec<Point>)
    ensures
        in_order(sorted@),
        sorted@.len() == points@.len(),
        forall|h: u32| #[trigger] with_hash(sorted@, h) == with_hash(points@, h),
{
    let sorted = sort_range(points, 0, points.len());
    proof {
        assert(points@.subrange(0, points@.len() as int) =~= points@);
    }
    sorted
}

} // verus!
