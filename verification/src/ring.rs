//! The ring as a sequence of points: what it holds and where a checksum lands.
use vstd::prelude::*;
use crate::addr::NodeAddr;
use crate::point::{Point, point_le};

verus! {

/// Strictly ascending by checksum: in order, and no checksum twice.
pub open spec fn ascending(ring: Seq<Point>) -> bool {
    forall|i: int, j: int| 0 <= i < j < ring.len() ==> ring[i].hash < ring[j].hash
}

/// In the order of points: no point comes before one with a lower checksum.
pub open spec fn in_order(points: Seq<Point>) -> bool {
    forall|i: int, j: int|
        0 <= i < j < points.len() ==> point_le(#[trigger] points[i], #[trigger] points[j])
}

/// Whether every point is owned by one of the first `nodes` nodes.
pub open spec fn owned_within(points: Seq<Point>, nodes: nat) -> bool {
    forall|k: int| 0 <= k < points.len() ==> (#[trigger] points[k]).node_index < nodes
}

/// Whether no two of the points share a checksum.
pub open spec fn distinct_hashes(points: Seq<Point>) -> bool {
    forall|i: int, j: int| 0 <= i < j < points.len() ==> points[i].hash != points[j].hash
}

/// Whether some point has the given checksum.
pub open spec fn has_hash(points: Seq<Point>, hash: u32) -> bool {
    exists|k: int| 0 <= k < points.len() && (#[trigger] points[k]).hash == hash
}

/// The points with the given checksum, in the order in which they stand.
pub open spec fn with_hash(points: Seq<Point>, hash: u32) -> Seq<Point>
    decreases points.len(),
{
    if points.len() == 0 {
        points
    } else {
        let before = with_hash(points.drop_last(), hash);
        if points.last().hash == hash {
            before.push(points.last())
        } else {
            before
        }
    }
}

/// How many of the points the node with the given index owns.
pub open spec fn owned_by(points: Seq<Point>, node: int) -> nat
    decreases points.len(),
{
    if points.len() == 0 {
        0
    } else {
        owned_by(points.drop_last(), node) + if points.last().node_index == node {
            1nat
        } else {
            0nat
        }
    }
}

/// Whether the point at `i` is the first with its checksum.
pub open spec fn first_at(points: Seq<Point>, i: int) -> bool {
    &&& 0 <= i < points.len()
    &&& forall|j: int| 0 <= j < i ==> (#[trigger] points[j]).hash != points[i].hash
}

/// Whether `p` is the one of the given points that stands for its checksum:
/// the first of them, in the order given, that has it.
pub open spec fn leads(points: Seq<Point>, p: Point) -> bool {
    exists|i: int| #[trigger] first_at(points, i) && points[i] == p
}

/// Drops every point whose checksum equals that of the point before it.
pub open spec fn first_of_each_hash(points: Seq<Point>) -> Seq<Point>
    decreases points.len(),
{
    if points.len() == 0 {
        points
    } else {
        let kept = first_of_each_hash(points.drop_last());
        if points.len() >= 2 && points[points.len() - 2].hash == points.last().hash {
            kept
        } else {
            kept.push(points.last())
        }
    }
}

/// The index of the first point whose checksum is at least `hash`, or the
/// length of the ring if there is none.
pub open spec fn first_at_or_after(ring: Seq<Point>, hash: u32) -> nat
    decreases ring.len(),
{
    if ring.len() == 0 || ring[0].hash >= hash {
        0
    } else {
        1 + first_at_or_after(ring.drop_first(), hash)
    }
}

/// The ring with `p` put at its place, unless a point with its checksum is
/// on the ring already.
pub open spec fn place(ring: Seq<Point>, p: Point) -> Seq<Point> {
    let i = first_at_or_after(ring, p.hash) as int;
    if i < ring.len() && ring[i].hash == p.hash {
        ring
    } else {
        ring.insert(i, p)
    }
}

/// The ring that a collection of points makes: the points in order of
/// checksum, one for each checksum. Of points with one checksum the ring
/// holds the one that comes first in the collection.
pub open spec fn ring_of(points: Seq<Point>) -> Seq<Point>
    decreases points.len(),
{
    if points.len() == 0 {
        points
    } else {
        place(ring_of(points.drop_last()), points.last())
    }
}

/// The index of the point that serves `hash`: the first point at or after
/// it, and the first point of the ring when `hash` lies beyond the last.
pub open spec fn landing(ring: Seq<Point>, hash: u32) -> nat {
    let i = first_at_or_after(ring, hash);
    if i == ring.len() {
        0
    } else {
        i
    }
}

/// The node that serves `hash`: the owner of the point on which it lands.
/// A ring without points serves nothing.
pub open spec fn serving(ring: Seq<Point>, addrs: Seq<NodeAddr>, hash: u32) -> Option<NodeAddr> {
    if ring.len() == 0 {
        None
    } else {
        Some(addrs[ring[landing(ring, hash) as int].node_index as int])
    }
}

/// The cursor that follows `cursor` on a ring of `len` points.
pub open spec fn step(cursor: nat, len: nat) -> nat {
    if len == 0 {
        cursor
    } else {
        (cursor + 1) % len
    }
}

/// What [`first_at_or_after`] finds: every point before it lies below
/// `hash`, and the point at it, if there is one, does not.
pub proof fn lemma_first_at_or_after(ring: Seq<Point>, hash: u32)
    ensures
        first_at_or_after(ring, hash) <= ring.len(),
        forall|j: int| 0 <= j < first_at_or_after(ring, hash) ==> (#[trigger] ring[j]).hash < hash,
        first_at_or_after(ring, hash) < ring.len() ==> ring[first_at_or_after(
            ring,
            hash,
        ) as int].hash >= hash,
    decreases ring.len(),
{
    if ring.len() == 0 || ring[0].hash >= hash {
    } else {
        let rest = ring.drop_first();
        lemma_first_at_or_after(rest, hash);
        assert forall|j: int| 0 <= j < first_at_or_after(ring, hash) implies (
        #[trigger] ring[j]).hash < hash by {
            if j > 0 {
                assert(ring[j] == rest[j - 1]);
            }
        }
    }
}

/// A split of the ring into points below `hash` and points at or above it
/// is the split that [`first_at_or_after`] finds.
pub proof fn lemma_first_at_or_after_is(ring: Seq<Point>, hash: u32, i: int)
    requires
        0 <= i <= ring.len(),
        forall|j: int| 0 <= j < i ==> (#[trigger] ring[j]).hash < hash,
        i < ring.len() ==> ring[i].hash >= hash,
    ensures
        first_at_or_after(ring, hash) == i,
{
    lemma_first_at_or_after(ring, hash);
}

/// A checksum lands on the first point at or after it, and on the first
/// point of the ring if it lies beyond every point.
pub proof fn lemma_landing(ring: Seq<Point>, hash: u32)
    requires
        ring.len() > 0,
    ensures
        landing(ring, hash) < ring.len(),
        (forall|k: int| 0 <= k < ring.len() ==> (#[trigger] ring[k]).hash < hash) ==> landing(
            ring,
            hash,
        ) == 0,
        (exists|k: int| 0 <= k < ring.len() && (#[trigger] ring[k]).hash >= hash) ==> {
            &&& ring[landing(ring, hash) as int].hash >= hash
            &&& forall|j: int| 0 <= j < landing(ring, hash) ==> (#[trigger] ring[j]).hash < hash
        },
{
    lemma_first_at_or_after(ring, hash);
}

/// Of the points that share a checksum with the point at `k`, one comes
/// first.
pub proof fn lemma_first_occurrence(points: Seq<Point>, k: int) -> (i: int)
    requires
        0 <= k < points.len(),
    ensures
        0 <= i <= k,
        first_at(points, i),
        points[i].hash == points[k].hash,
    decreases k,
{
    if exists|j: int| 0 <= j < k && (#[trigger] points[j]).hash == points[k].hash {
        let j = choose|j: int| 0 <= j < k && (#[trigger] points[j]).hash == points[k].hash;
        lemma_first_occurrence(points, j)
    } else {
        k
    }
}

/// A point leads a collection with one more point if it led before, or if
/// it is the new point and its checksum is new.
pub proof fn lemma_leads_push(front: Seq<Point>, last: Point, p: Point)
    ensures
        leads(front.push(last), p) <==> leads(front, p) || (p == last && !has_hash(
            front,
            last.hash,
        )),
{
    let points = front.push(last);
    if leads(points, p) {
        let i = choose|i: int| #[trigger] first_at(points, i) && points[i] == p;
        if i < front.len() {
            assert forall|j: int| 0 <= j < i implies (#[trigger] front[j]).hash
                != front[i].hash by {
                assert(points[j].hash != points[i].hash);
            }
            assert(first_at(front, i));
        } else {
            assert forall|j: int| 0 <= j < front.len() implies (#[trigger] front[j]).hash
                != last.hash by {
                assert(points[j].hash != points[i].hash);
            }
        }
    }
    if leads(front, p) {
        let i = choose|i: int| #[trigger] first_at(front, i) && front[i] == p;
        assert forall|j: int| 0 <= j < i implies (#[trigger] points[j]).hash != points[i].hash by {
            assert(front[j].hash != front[i].hash);
        }
        assert(first_at(points, i));
    }
    if p == last && !has_hash(front, last.hash) {
        let i = front.len() as int;
        assert forall|j: int| 0 <= j < i implies (#[trigger] points[j]).hash != points[i].hash by {
            assert(front[j].hash == points[j].hash);
        }
        assert(first_at(points, i));
    }
}

/// What putting a point at its place does to a ring.
pub proof fn lemma_place(ring: Seq<Point>, p: Point)
    requires
        ascending(ring),
    ensures
        ascending(place(ring, p)),
        place(ring, p).len() == ring.len() + if has_hash(ring, p.hash) { 0int } else { 1int },
        forall|q: Point| #[trigger]
            place(ring, p).contains(q) <==> ring.contains(q) || (q == p && !has_hash(ring, p.hash)),
{
    lemma_first_at_or_after(ring, p.hash);
    let i = first_at_or_after(ring, p.hash) as int;
    let placed = place(ring, p);
    if i < ring.len() && ring[i].hash == p.hash {
    } else {
        assert forall|k: int| 0 <= k < ring.len() implies (#[trigger] ring[k]).hash != p.hash by {
            if k > i {
                assert(ring[i].hash < ring[k].hash);
            }
        }
        assert forall|a: int, b: int| 0 <= a < b < placed.len() implies placed[a].hash
            < placed[b].hash by {
            if b < i {
                assert(ring[a].hash < ring[b].hash);
            } else if b == i {
            } else if a == i {
                if b - 1 > i {
                    assert(ring[i].hash < ring[b - 1].hash);
                }
            } else if a < i {
                assert(ring[a].hash < ring[b - 1].hash);
            } else {
                assert(ring[a - 1].hash < ring[b - 1].hash);
            }
        }
        assert forall|q: Point| #[trigger] placed.contains(q) <==> ring.contains(q) || q == p by {
            if placed.contains(q) {
                let k = choose|k: int| 0 <= k < placed.len() && placed[k] == q;
                if k < i {
                    assert(ring[k] == q);
                } else if k > i {
                    assert(ring[k - 1] == q);
                }
            }
            if ring.contains(q) {
                let k = choose|k: int| 0 <= k < ring.len() && ring[k] == q;
                if k < i {
                    assert(placed[k] == q);
                } else {
                    assert(placed[k + 1] == q);
                }
            }
            assert(placed[i] == p);
        }
    }
}

/// What the ring of a collection of points holds: the points are strictly
/// ascending, the checksums are those of the collection, and a point is on
/// the ring exactly if it is the first in the collection with its checksum.
/// The ring holds as many points as were given exactly if no two of them
/// share a checksum; otherwise it holds fewer.
pub proof fn lemma_ring_of(points: Seq<Point>)
    ensures
        ascending(ring_of(points)),
        ring_of(points).len() <= points.len(),
        ring_of(points).len() == points.len() <==> distinct_hashes(points),
        forall|h: u32| #[trigger] has_hash(ring_of(points), h) <==> has_hash(points, h),
        forall|p: Point| #[trigger] ring_of(points).contains(p) <==> leads(points, p),
    decreases points.len(),
{
    let ring = ring_of(points);
    if points.len() > 0 {
        let front = points.drop_last();
        let last = points.last();
        let before = ring_of(front);
        let n = points.len() as int;
        lemma_ring_of(front);
        lemma_place(before, last);
        assert(points =~= front.push(last));
        assert forall|p: Point| #[trigger] ring.contains(p) <==> leads(points, p) by {
            lemma_leads_push(front, last, p);
        }
        assert forall|h: u32| #[trigger] has_hash(ring, h) <==> has_hash(points, h) by {
            if has_hash(ring, h) {
                let k = choose|k: int| 0 <= k < ring.len() && (#[trigger] ring[k]).hash == h;
                assert(ring.contains(ring[k]));
                let i = choose|i: int| #[trigger] first_at(points, i) && points[i] == ring[k];
                assert(points[i].hash == h);
            }
            if has_hash(points, h) {
                let k = choose|k: int| 0 <= k < points.len() && (#[trigger] points[k]).hash == h;
                let i = lemma_first_occurrence(points, k);
                assert(leads(points, points[i]));
                assert(ring.contains(points[i]));
                let m = choose|m: int| 0 <= m < ring.len() && ring[m] == points[i];
                assert(ring[m].hash == h);
            }
        }
        if distinct_hashes(points) {
            assert forall|i: int, j: int| 0 <= i < j < front.len() implies front[i].hash
                != front[j].hash by {
                assert(points[i].hash != points[j].hash);
            }
            assert forall|k: int| 0 <= k < front.len() implies (#[trigger] front[k]).hash
                != last.hash by {
                assert(points[k].hash != points[n - 1].hash);
            }
        }
        if distinct_hashes(front) && !has_hash(front, last.hash) {
            assert forall|i: int, j: int| 0 <= i < j < n implies points[i].hash
                != points[j].hash by {
                if j < n - 1 {
                    assert(front[i].hash != front[j].hash);
                } else {
                    assert(front[i].hash == points[i].hash);
                }
            }
        }
    }
}

/// Two strictly ascending rings that hold the same points are one ring.
pub proof fn lemma_ascending_unique(first: Seq<Point>, second: Seq<Point>)
    requires
        ascending(first),
        ascending(second),
        forall|p: Point| first.contains(p) <==> second.contains(p),
    ensures
        first == second,
    decreases first.len(),
{
    if first.len() == 0 {
        if second.len() > 0 {
            assert(second.contains(second[0]));
        }
        assert(first =~= second);
    } else {
        let a = first.last();
        assert(first.contains(a));
        assert(second.contains(a));
        let k = choose|k: int| 0 <= k < second.len() && second[k] == a;
        let b = second.last();
        assert(second.contains(b));
        assert(first.contains(b));
        let m = choose|m: int| 0 <= m < first.len() && first[m] == b;
        if k < second.len() - 1 {
            assert(second[k].hash < second[second.len() - 1].hash);
            if m < first.len() - 1 {
                assert(first[m].hash < first[first.len() - 1].hash);
            }
        }
        assert(a == b);
        let f = first.drop_last();
        let s = second.drop_last();
        assert forall|p: Point| f.contains(p) <==> s.contains(p) by {
            if f.contains(p) {
                let i = choose|i: int| 0 <= i < f.len() && f[i] == p;
                assert(first[i] == p);
                assert(first[i].hash < first[first.len() - 1].hash);
                assert(first.contains(p));
                let j = choose|j: int| 0 <= j < second.len() && second[j] == p;
                assert(s[j] == p);
            }
            if s.contains(p) {
                let i = choose|i: int| 0 <= i < s.len() && s[i] == p;
                assert(second[i] == p);
                assert(second[i].hash < second[second.len() - 1].hash);
                assert(second.contains(p));
                let j = choose|j: int| 0 <= j < first.len() && first[j] == p;
                assert(f[j] == p);
            }
        }
        lemma_ascending_unique(f, s);
        assert(first =~= f.push(a));
        assert(second =~= s.push(b));
    }
}

/// A node owns of two collections, one after the other, what it owns of
/// each.
pub proof fn lemma_owned_by_concat(first: Seq<Point>, second: Seq<Point>, node: int)
    ensures
        owned_by(first + second, node) == owned_by(first, node) + owned_by(second, node),
    decreases second.len(),
{
    if second.len() == 0 {
        assert(first + second =~= first);
    } else {
        assert((first + second).drop_last() =~= first + second.drop_last());
        lemma_owned_by_concat(first, second.drop_last(), node);
    }
}

/// Where no two points share a checksum, the ring holds them all: a point
/// is on the ring exactly if it was given, and every node owns as many
/// points of the ring as it was given.
pub proof fn lemma_ring_of_distinct(points: Seq<Point>)
    requires
        distinct_hashes(points),
    ensures
        forall|p: Point| #[trigger] ring_of(points).contains(p) <==> points.contains(p),
        forall|node: int| #[trigger] owned_by(ring_of(points), node) == owned_by(points, node),
    decreases points.len(),
{
    lemma_ring_of(points);
    assert forall|p: Point| #[trigger] ring_of(points).contains(p) <==> points.contains(p) by {
        if points.contains(p) {
            let i = choose|i: int| 0 <= i < points.len() && points[i] == p;
            assert(first_at(points, i));
        }
        if leads(points, p) {
            let i = choose|i: int| #[trigger] first_at(points, i) && points[i] == p;
        }
    }
    if points.len() > 0 {
        let n = points.len() as int;
        let front = points.drop_last();
        let last = points.last();
        let before = ring_of(front);
        assert forall|i: int, j: int| 0 <= i < j < front.len() implies front[i].hash
            != front[j].hash by {
            assert(points[i].hash != points[j].hash);
        }
        assert forall|k: int| 0 <= k < front.len() implies (#[trigger] front[k]).hash
            != last.hash by {
            assert(points[k].hash != points[n - 1].hash);
        }
        lemma_ring_of_distinct(front);
        lemma_ring_of(front);
        assert(!has_hash(before, last.hash));
        lemma_first_at_or_after(before, last.hash);
        let i = first_at_or_after(before, last.hash) as int;
        if i < before.len() {
            assert(before[i].hash != last.hash);
        }
        let low = before.subrange(0, i);
        let high = before.subrange(i, before.len() as int);
        assert(before =~= low + high);
        assert(ring_of(points) =~= low.push(last) + high);
        assert(low.push(last).drop_last() =~= low);
        assert forall|node: int| #[trigger]
            owned_by(ring_of(points), node) == owned_by(points, node) by {
            lemma_owned_by_concat(low, high, node);
            lemma_owned_by_concat(low.push(last), high, node);
            assert(owned_by(before, node) == owned_by(front, node));
        }
    }
}

/// The points with a checksum, of two collections one after the other.
pub proof fn lemma_with_hash_concat(first: Seq<Point>, second: Seq<Point>, hash: u32)
    ensures
        with_hash(first + second, hash) == with_hash(first, hash) + with_hash(second, hash),
    decreases second.len(),
{
    if second.len() == 0 {
        assert(first + second =~= first);
    } else {
        assert((first + second).drop_last() =~= first + second.drop_last());
        lemma_with_hash_concat(first, second.drop_last(), hash);
    }
}

/// A collection has points with a checksum exactly if some point has it,
/// and the first of them is the point that leads.
pub proof fn lemma_with_hash(points: Seq<Point>, p: Point)
    ensures
        with_hash(points, p.hash).len() > 0 <==> has_hash(points, p.hash),
        leads(points, p) <==> with_hash(points, p.hash).len() > 0 && with_hash(
            points,
            p.hash,
        )[0] == p,
    decreases points.len(),
{
    if points.len() == 0 {
        if leads(points, p) {
            let i = choose|i: int| #[trigger] first_at(points, i) && points[i] == p;
        }
    } else {
        let front = points.drop_last();
        let last = points.last();
        lemma_with_hash(front, p);
        assert(points =~= front.push(last));
        lemma_leads_push(front, last, p);
        if has_hash(points, p.hash) && !has_hash(front, p.hash) {
            let k = choose|k: int| 0 <= k < points.len() && (#[trigger] points[k]).hash == p.hash;
            if k < front.len() {
                assert(front[k].hash == p.hash);
            }
        }
        if has_hash(front, p.hash) {
            let k = choose|k: int| 0 <= k < front.len() && (#[trigger] front[k]).hash == p.hash;
            assert(points[k].hash == p.hash);
        }
        if last.hash == p.hash {
            assert(points[points.len() - 1].hash == p.hash);
        }
        if leads(front, p) {
            let i = choose|i: int| #[trigger] first_at(front, i) && front[i] == p;
            assert(front[i].hash == p.hash);
        }
    }
}

/// What [`first_of_each_hash`] leaves of points that are in order: a strictly
/// ascending ring of the points that lead.
pub proof fn lemma_first_of_each_hash(points: Seq<Point>)
    requires
        in_order(points),
    ensures
        ascending(first_of_each_hash(points)),
        forall|p: Point| #[trigger] first_of_each_hash(points).contains(p) <==> leads(points, p),
    decreases points.len(),
{
    let kept_all = first_of_each_hash(points);
    if points.len() > 0 {
        let n = points.len() as int;
        let front = points.drop_last();
        let last = points.last();
        let kept = first_of_each_hash(front);
        assert forall|i: int, j: int| 0 <= i < j < front.len() implies point_le(
            #[trigger] front[i],
            #[trigger] front[j],
        ) by {
            assert(point_le(points[i], points[j]));
        }
        lemma_first_of_each_hash(front);
        assert(points =~= front.push(last));
        let twin = n >= 2 && points[n - 2].hash == last.hash;
        assert(twin <==> has_hash(front, last.hash)) by {
            if twin {
                assert(front[n - 2].hash == last.hash);
            }
            if has_hash(front, last.hash) {
                let k = choose|k: int|
                    0 <= k < front.len() && (#[trigger] front[k]).hash == last.hash;
                assert(point_le(points[k], points[n - 2]) || k == n - 2);
                assert(point_le(points[n - 2], points[n - 1]));
            }
        }
        assert forall|p: Point| #[trigger] kept_all.contains(p) <==> leads(points, p) by {
            lemma_leads_push(front, last, p);
            if !twin {
                if kept_all.contains(p) {
                    let i = choose|i: int| 0 <= i < kept_all.len() && kept_all[i] == p;
                    if i < kept.len() {
                        assert(kept[i] == p);
                    }
                }
                if kept.contains(p) {
                    let i = choose|i: int| 0 <= i < kept.len() && kept[i] == p;
                    assert(kept_all[i] == p);
                }
                assert(kept_all[kept.len() as int] == last);
            }
        }
        if !twin {
            assert forall|i: int, j: int| 0 <= i < j < kept_all.len() implies kept_all[i].hash
                < kept_all[j].hash by {
                if j == kept.len() {
                    assert(kept.contains(kept[i]));
                    assert(leads(front, kept[i]));
                    let k = choose|k: int| #[trigger] first_at(front, k) && front[k] == kept[i];
                    assert(point_le(points[k], points[n - 1]));
                    assert(front[k].hash != last.hash);
                }
            }
        }
    }
}

/// Sorting the points without disturbing the order of points that share a
/// checksum, and then keeping the first of each checksum, gives the ring.
pub proof fn lemma_ring_from_sorted(points: Seq<Point>, sorted: Seq<Point>)
    requires
        in_order(sorted),
        forall|h: u32| #[trigger] with_hash(sorted, h) == with_hash(points, h),
    ensures
        first_of_each_hash(sorted) == ring_of(points),
{
    let kept = first_of_each_hash(sorted);
    lemma_first_of_each_hash(sorted);
    lemma_ring_of(points);
    assert forall|p: Point| kept.contains(p) <==> ring_of(points).contains(p) by {
        lemma_with_hash(sorted, p);
        lemma_with_hash(points, p);
        assert(with_hash(sorted, p.hash) == with_hash(points, p.hash));
    }
    lemma_ascending_unique(kept, ring_of(points));
}

/// Drops every point whose checksum equals that of the point before it.
pub fn dedup_hashes(points: &Vec<Point>) -> (kept: Vec<Point>)
    ensures
        kept@ == first_of_each_hash(points@),
{
    let mut kept: Vec<Point> = Vec::new();
    let mut i: usize = 0;
    while i < points.len()
        invariant
            i <= points.len(),
            kept@ == first_of_each_hash(points@.subrange(0, i as int)),
        decreases points.len() - i,
    {
        let ghost next = points@.subrange(0, i + 1);
        assert(next.drop_last() =~= points@.subrange(0, i as int));
        if i == 0 || points[i - 1].hash != points[i].hash {
            kept.push(points[i]);
        }
        i = i + 1;
    }
    assert(points@.subrange(0, i as int) =~= points@);
    kept
}

/// Finds where `hash` lands on a ring by bisection.
pub fn search(ring: &Vec<Point>, hash: u32) -> (i: usize)
    requires
        ascending(ring@),
    ensures
        i == landing(ring@, hash),
{
    let mut lo: usize = 0;
    let mut hi: usize = ring.len();
    while lo < hi
        invariant
            lo <= hi <= ring.len(),
            ascending(ring@),
            forall|j: int| 0 <= j < lo ==> (#[trigger] ring@[j]).hash < hash,
            forall|j: int| hi <= j < ring.len() ==> (#[trigger] ring@[j]).hash >= hash,
        decreases hi - lo,
    {
        let mid: usize = lo + (hi - lo) / 2;
        if ring[mid].hash < hash {
            lo = mid + 1;
        } else {
            hi = mid;
        }
    }
    proof {
        lemma_first_at_or_after_is(ring@, hash, lo as int);
    }
    if lo == ring.len() {
        0
    } else {
        lo
    }
}

} // verus!
