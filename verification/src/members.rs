//! Which points a list of nodes puts on the ring.
use vstd::prelude::*;
use crate::addr::NodeAddr;
use crate::bucket::Bucket;
use crate::point::{Point, chain_hash, node_points};
use crate::ring::{
    distinct_hashes, first_at, leads, lemma_first_occurrence, lemma_owned_by_concat, lemma_ring_of,
    lemma_ring_of_distinct, owned_by, owned_within, ring_of,
};

verus! {

/// The addresses of the given nodes, in the order given.
pub open spec fn nodes_of(buckets: Seq<Bucket>) -> Seq<NodeAddr> {
    Seq::new(buckets.len(), |i: int| buckets[i].node())
}

/// How many points the nodes are given in all: for each node, its weight
/// times `per_weight`.
pub open spec fn total_points(buckets: Seq<Bucket>, per_weight: nat) -> nat
    decreases buckets.len(),
{
    if buckets.len() == 0 {
        0
    } else {
        total_points(buckets.drop_last(), per_weight) + buckets.last().weight() as nat * per_weight
    }
}

/// The points of all nodes, node after node in the order given.
pub open spec fn all_points(buckets: Seq<Bucket>, per_weight: nat) -> Seq<Point>
    decreases buckets.len(),
{
    if buckets.len() == 0 {
        Seq::empty()
    } else {
        all_points(buckets.drop_last(), per_weight) + node_points(
            buckets.last().node().identity(),
            (buckets.len() - 1) as usize,
            buckets.last().weight() as nat * per_weight,
        )
    }
}

/// As many points are generated as [`total_points`] says, and each is owned
/// by one of the nodes given.
pub proof fn lemma_all_points(buckets: Seq<Bucket>, per_weight: nat)
    requires
        buckets.len() <= usize::MAX,
    ensures
        all_points(buckets, per_weight).len() == total_points(buckets, per_weight),
        owned_within(all_points(buckets, per_weight), buckets.len()),
    decreases buckets.len(),
{
    if buckets.len() > 0 {
        lemma_all_points(buckets.drop_last(), per_weight);
    }
}

/// Whether the node has a point with the given checksum.
pub open spec fn has_point(bucket: Bucket, per_weight: nat, hash: u32) -> bool {
    exists|j: nat|
        j < bucket.weight() as nat * per_weight && #[trigger] chain_hash(
            bucket.node().identity(),
            j,
        ) == hash
}

/// Whether `p` is a point of the node that it names as its owner.
pub open spec fn generated(buckets: Seq<Bucket>, per_weight: nat, p: Point) -> bool {
    p.node_index < buckets.len() && has_point(buckets[p.node_index as int], per_weight, p.hash)
}

/// Whether `p` is a point of its owner and no node before the owner has a
/// point with the same checksum.
pub open spec fn first_owned(buckets: Seq<Bucket>, per_weight: nat, p: Point) -> bool {
    &&& generated(buckets, per_weight, p)
    &&& forall|i: int|
        0 <= i < p.node_index ==> !has_point(#[trigger] buckets[i], per_weight, p.hash)
}

/// The points that are generated for a list of nodes are the points of
/// each of the nodes.
pub proof fn lemma_all_points_hold(buckets: Seq<Bucket>, per_weight: nat, p: Point)
    requires
        buckets.len() <= usize::MAX,
    ensures
        all_points(buckets, per_weight).contains(p) <==> generated(buckets, per_weight, p),
    decreases buckets.len(),
{
    if buckets.len() > 0 {
        let front = buckets.drop_last();
        let last = buckets.last();
        let index = (buckets.len() - 1) as usize;
        let count = last.weight() as nat * per_weight;
        let head = all_points(front, per_weight);
        let tail = node_points(last.node().identity(), index, count);
        let all = all_points(buckets, per_weight);
        lemma_all_points_hold(front, per_weight, p);
        lemma_all_points(front, per_weight);
        if all.contains(p) {
            let k = choose|k: int| 0 <= k < all.len() && all[k] == p;
            if k < head.len() {
                assert(head[k] == p);
                assert(front[p.node_index as int] == buckets[p.node_index as int]);
            } else {
                let j = (k - head.len()) as nat;
                assert(tail[j as int] == p);
                assert(chain_hash(last.node().identity(), j) == p.hash);
            }
        }
        if generated(buckets, per_weight, p) {
            if p.node_index < front.len() {
                assert(front[p.node_index as int] == buckets[p.node_index as int]);
                let k = choose|k: int| 0 <= k < head.len() && head[k] == p;
                assert(all[k] == p);
            } else {
                let j = choose|j: nat|
                    j < count && #[trigger] chain_hash(last.node().identity(), j) == p.hash;
                assert(tail[j as int] == p);
                assert(all[(head.len() + j) as int] == p);
            }
        }
    }
}

/// The points of a list of nodes stand node after node: a later point is
/// not owned by an earlier node.
pub proof fn lemma_all_points_by_node(buckets: Seq<Bucket>, per_weight: nat)
    requires
        buckets.len() <= usize::MAX,
    ensures
        forall|i: int, j: int|
            0 <= i <= j < all_points(buckets, per_weight).len() ==> (#[trigger] all_points(
                buckets,
                per_weight,
            )[i]).node_index <= (#[trigger] all_points(buckets, per_weight)[j]).node_index,
    decreases buckets.len(),
{
    if buckets.len() > 0 {
        let front = buckets.drop_last();
        let head = all_points(front, per_weight);
        let all = all_points(buckets, per_weight);
        lemma_all_points_by_node(front, per_weight);
        lemma_all_points(front, per_weight);
        assert forall|i: int, j: int| 0 <= i <= j < all.len() implies (#[trigger] all[i]).node_index
            <= (#[trigger] all[j]).node_index by {
            if j < head.len() {
                assert(head[i].node_index <= head[j].node_index);
            } else if i < head.len() {
                assert(head[i].node_index < front.len());
            }
        }
    }
}

/// The ring of a list of nodes holds, for each checksum that any node's
/// points have, the point of the first node that has it, and nothing else.
pub proof fn lemma_ring_holds(buckets: Seq<Bucket>, per_weight: nat, p: Point)
    requires
        buckets.len() <= usize::MAX,
    ensures
        ring_of(all_points(buckets, per_weight)).contains(p) <==> first_owned(
            buckets,
            per_weight,
            p,
        ),
{
    let points = all_points(buckets, per_weight);
    lemma_ring_of(points);
    lemma_all_points_by_node(buckets, per_weight);
    assert forall|q: Point| #[trigger]
        points.contains(q) <==> generated(buckets, per_weight, q) by {
        lemma_all_points_hold(buckets, per_weight, q);
    }
    if leads(points, p) {
        let i = choose|i: int| #[trigger] first_at(points, i) && points[i] == p;
        assert(points.contains(p));
        assert forall|k: int| 0 <= k < p.node_index implies !has_point(
            #[trigger] buckets[k],
            per_weight,
            p.hash,
        ) by {
            if has_point(buckets[k], per_weight, p.hash) {
                let q = Point { hash: p.hash, node_index: k as usize };
                assert(generated(buckets, per_weight, q));
                assert(points.contains(q));
                let j = choose|j: int| 0 <= j < points.len() && points[j] == q;
                if i <= j {
                    assert(points[i].node_index <= points[j].node_index);
                } else {
                    assert(points[j].hash != points[i].hash);
                }
            }
        }
    }
    if first_owned(buckets, per_weight, p) {
        assert(points.contains(p));
        let at = choose|at: int| 0 <= at < points.len() && points[at] == p;
        let i = lemma_first_occurrence(points, at);
        let q = points[i];
        assert(points.contains(q));
        assert(generated(buckets, per_weight, q));
        assert(points[i].node_index <= points[at].node_index);
        if q.node_index < p.node_index {
            assert(!has_point(buckets[q.node_index as int], per_weight, p.hash));
        }
        assert(q == p);
    }
}

/// Of its own points a node owns every one, and of another node's none.
pub proof fn lemma_node_points_owned(identity: Seq<u8>, node_index: usize, count: nat, node: int)
    ensures
        owned_by(node_points(identity, node_index, count), node) == if node == node_index {
            count
        } else {
            0
        },
    decreases count,
{
    if count > 0 {
        let points = node_points(identity, node_index, count);
        assert(points.drop_last() =~= node_points(identity, node_index, (count - 1) as nat));
        lemma_node_points_owned(identity, node_index, (count - 1) as nat, node);
    }
}

/// Of the points of a list of nodes each node owns as many as its weight
/// times `per_weight`.
pub proof fn lemma_all_points_owned(buckets: Seq<Bucket>, per_weight: nat, node: int)
    requires
        buckets.len() <= usize::MAX,
    ensures
        owned_by(all_points(buckets, per_weight), node) == if 0 <= node < buckets.len() {
            buckets[node].weight() as nat * per_weight
        } else {
            0
        },
    decreases buckets.len(),
{
    if buckets.len() > 0 {
        let front = buckets.drop_last();
        let last = buckets.last();
        let index = (buckets.len() - 1) as usize;
        let count = last.weight() as nat * per_weight;
        lemma_all_points_owned(front, per_weight, node);
        lemma_node_points_owned(last.node().identity(), index, count, node);
        lemma_owned_by_concat(
            all_points(front, per_weight),
            node_points(last.node().identity(), index, count),
            node,
        );
        if 0 <= node < front.len() {
            assert(front[node] == buckets[node]);
        }
    }
}

/// Where no two points of any nodes share a checksum, every node owns as
/// many points of the ring as its weight times `per_weight`, and the ring
/// holds every point of every node.
pub proof fn lemma_shares(buckets: Seq<Bucket>, per_weight: nat)
    requires
        buckets.len() <= usize::MAX,
        distinct_hashes(all_points(buckets, per_weight)),
    ensures
        ring_of(all_points(buckets, per_weight)).len() == total_points(buckets, per_weight),
        forall|node: int|
            0 <= node < buckets.len() ==> #[trigger] owned_by(
                ring_of(all_points(buckets, per_weight)),
                node,
            ) == buckets[node].weight() as nat * per_weight,
        forall|p: Point| #[trigger]
            ring_of(all_points(buckets, per_weight)).contains(p) <==> generated(
                buckets,
                per_weight,
                p,
            ),
{
    let points = all_points(buckets, per_weight);
    lemma_all_points(buckets, per_weight);
    lemma_ring_of(points);
    lemma_ring_of_distinct(points);
    assert forall|node: int| 0 <= node < buckets.len() implies #[trigger] owned_by(
        ring_of(points),
        node,
    ) == buckets[node].weight() as nat * per_weight by {
        lemma_all_points_owned(buckets, per_weight, node);
    }
    assert forall|p: Point| #[trigger]
        ring_of(points).contains(p) <==> generated(buckets, per_weight, p) by {
        lemma_all_points_hold(buckets, per_weight, p);
    }
}

/// Of the nodes that have a point with the given checksum, one comes first.
pub proof fn lemma_first_owner(
    buckets: Seq<Bucket>,
    per_weight: nat,
    hash: u32,
    i: int,
) -> (first: int)
    requires
        0 <= i < buckets.len() <= usize::MAX,
        has_point(buckets[i], per_weight, hash),
    ensures
        0 <= first <= i,
        first_owned(buckets, per_weight, Point { hash, node_index: first as usize }),
    decreases i,
{
    if exists|k: int| 0 <= k < i && has_point(#[trigger] buckets[k], per_weight, hash) {
        let k = choose|k: int| 0 <= k < i && has_point(#[trigger] buckets[k], per_weight, hash);
        lemma_first_owner(buckets, per_weight, hash, k)
    } else {
        i
    }
}

} // verus!
