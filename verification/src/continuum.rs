//! The continuum: a ring of points together with the nodes that own them.
use vstd::prelude::*;
use crate::addr::NodeAddr;
use crate::bucket::Bucket;
use crate::crc::{checksum, crc32};
use crate::point::{Point, push_node_points};
use crate::members::{
    all_points, first_owned, lemma_all_points, lemma_ring_holds, lemma_shares, nodes_of,
    total_points,
};
use crate::ring::{
    ascending, dedup_hashes, distinct_hashes, first_at, landing, lemma_landing,
    lemma_ring_from_sorted, lemma_ring_of, owned_by, owned_within, ring_of, search, serving, step,
};
use crate::sort::sort_points;

verus! {

/// A ring of virtual points and the table of the nodes that own them.
///
/// The points are strictly ascending by checksum, and each is owned by a node
/// of the table.
pub struct Continuum {
    ring: Vec<Point>,
    addrs: Vec<NodeAddr>,
}

impl Continuum {
    /// How many points a node is given for each unit of weight, unless the
    /// caller says otherwise.
    pub const DEFAULT_NUM_VIRTUAL_POINTS: usize = 160;

    #[verifier::type_invariant]
    spec fn inv(self) -> bool {
        &&& ascending(self.ring@)
        &&& owned_within(self.ring@, self.addrs@.len())
    }

    /// The points of the ring, in order.
    pub closed spec fn points(&self) -> Seq<Point> {
        self.ring@
    }

    /// The node table: a point's `node_index` is an index into it.
    pub closed spec fn addrs(&self) -> Seq<NodeAddr> {
        self.addrs@
    }

    /// What holds of every continuum: the points are strictly ascending by
    /// checksum and each is owned by a node of the table.
    pub open spec fn well_formed(&self) -> bool {
        &&& ascending(self.points())
        &&& owned_within(self.points(), self.addrs().len())
    }

    /// Whether this is the continuum of the given nodes, each with
    /// `per_weight` points for each unit of its weight.
    pub open spec fn built_from(&self, buckets: Seq<Bucket>, per_weight: nat) -> bool {
        &&& self.addrs() == nodes_of(buckets)
        &&& self.points() == ring_of(all_points(buckets, per_weight))
    }

    /// The node that serves a key with the given checksum.
    pub open spec fn owner(&self, hash: u32) -> Option<NodeAddr> {
        serving(self.points(), self.addrs(), hash)
    }

    /// Sorts the points, keeps one for each checksum and joins them to the
    /// node table.
    fn assemble(addrs: Vec<NodeAddr>, points: &Vec<Point>) -> (c: Self)
        requires
            owned_within(points@, addrs@.len()),
        ensures
            c.addrs() == addrs@,
            c.points() == ring_of(points@),
            c.well_formed(),
    {
        let sorted = sort_points(points);
        let ring = dedup_hashes(&sorted);
        proof {
            lemma_ring_from_sorted(points@, sorted@);
            lemma_ring_of(points@);
            assert forall|k: int| 0 <= k < ring@.len() implies (#[trigger] ring@[k]).node_index
                < addrs@.len() by {
                assert(ring@.contains(ring@[k]));
                let i = choose|i: int| #[trigger] first_at(points@, i) && points@[i] == ring@[k];
                assert(points@[i].node_index < addrs@.len());
            }
        }
        Continuum { ring, addrs }
    }

    /// The continuum of the given points and node table, if every point is
    /// owned by a node of the table.
    ///
    /// The ring holds the points in order of checksum. Of points with one
    /// checksum it holds the one that comes first in `points`.
    pub fn from_points(addrs: Vec<NodeAddr>, points: &Vec<Point>) -> (made: Option<Self>)
        ensures
            made is Some <==> owned_within(points@, addrs@.len()),
            made is Some ==> {
                &&& made->Some_0.addrs() == addrs@
                &&& made->Some_0.points() == ring_of(points@)
                &&& made->Some_0.well_formed()
            },
    {
        let mut k: usize = 0;
        while k < points.len()
            invariant
                k <= points.len(),
                owned_within(points@.subrange(0, k as int), addrs@.len()),
            decreases points.len() - k,
        {
            if points[k].node_index >= addrs.len() {
                return None;
            }
            k = k + 1;
        }
        assert(points@.subrange(0, k as int) =~= points@);
        Some(Self::assemble(addrs, points))
    }

    /// The continuum of the given nodes.
    ///
    /// Each node is given `num_virtual_points` points for each unit of its
    /// weight. The ring holds one point for each checksum that any node's
    /// points have; where nodes share a checksum, the point of the node that
    /// comes first in `buckets` is kept.
    pub fn new(buckets: &[Bucket], num_virtual_points: usize) -> (c: Self)
        ensures
            c.built_from(buckets@, num_virtual_points as nat),
            c.well_formed(),
            c.points().len() <= total_points(buckets@, num_virtual_points as nat),
            c.points().len() == total_points(buckets@, num_virtual_points as nat)
                <==> distinct_hashes(all_points(buckets@, num_virtual_points as nat)),
            forall|p: Point| #[trigger]
                c.points().contains(p) <==> first_owned(buckets@, num_virtual_points as nat, p),
            distinct_hashes(all_points(buckets@, num_virtual_points as nat)) ==> forall|node: int|
                0 <= node < buckets@.len() ==> #[trigger] owned_by(c.points(), node)
                    == buckets@[node].weight() as nat * num_virtual_points as nat,
            buckets@.len() == 0 ==> c.points().len() == 0 && c.addrs().len() == 0,
    {
        let ghost per_weight = num_virtual_points as nat;
        let mut points: Vec<Point> = Vec::new();
        let mut addrs: Vec<NodeAddr> = Vec::new();
        let mut i: usize = 0;
        while i < buckets.len()
            invariant
                i <= buckets.len(),
                addrs@ == nodes_of(buckets@.subrange(0, i as int)),
                points@ == all_points(buckets@.subrange(0, i as int), per_weight),
                per_weight == num_virtual_points as nat,
            decreases buckets.len() - i,
        {
            let bucket = &buckets[i];
            assert(buckets@.subrange(0, i + 1).drop_last() =~= buckets@.subrange(0, i as int));
            let node = bucket.node();
            addrs.push(node);
            let identity = node.identity_bytes();
            push_node_points(&mut points, &identity, i, bucket.weight(), num_virtual_points);
            i = i + 1;
        }
        proof {
            assert(buckets@.subrange(0, i as int) =~= buckets@);
            lemma_all_points(buckets@, per_weight);
            lemma_ring_of(points@);
            if distinct_hashes(points@) {
                lemma_shares(buckets@, per_weight);
            }
            assert forall|p: Point| #[trigger]
                ring_of(points@).contains(p) <==> first_owned(buckets@, per_weight, p) by {
                lemma_ring_holds(buckets@, per_weight, p);
            }
        }
        Self::assemble(addrs, &points)
    }

    /// The continuum of the given nodes, each with
    /// [`Continuum::DEFAULT_NUM_VIRTUAL_POINTS`] points for each unit of its
    /// weight.
    pub fn with_default_points(buckets: &[Bucket]) -> (c: Self)
        ensures
            c.built_from(buckets@, Self::DEFAULT_NUM_VIRTUAL_POINTS as nat),
            c.well_formed(),
            c.points().len() <= total_points(buckets@, Self::DEFAULT_NUM_VIRTUAL_POINTS as nat),
            c.points().len() == total_points(buckets@, Self::DEFAULT_NUM_VIRTUAL_POINTS as nat)
                <==> distinct_hashes(all_points(buckets@, Self::DEFAULT_NUM_VIRTUAL_POINTS as nat)),
            forall|p: Point| #[trigger]
                c.points().contains(p) <==> first_owned(
                    buckets@,
                    Self::DEFAULT_NUM_VIRTUAL_POINTS as nat,
                    p,
                ),
            distinct_hashes(all_points(buckets@, Self::DEFAULT_NUM_VIRTUAL_POINTS as nat))
                ==> forall|node: int|
                0 <= node < buckets@.len() ==> #[trigger] owned_by(c.points(), node)
                    == buckets@[node].weight() as nat * Self::DEFAULT_NUM_VIRTUAL_POINTS as nat,
            buckets@.len() == 0 ==> c.points().len() == 0 && c.addrs().len() == 0,
    {
        Self::new(buckets, Self::DEFAULT_NUM_VIRTUAL_POINTS)
    }

    /// How many points the ring holds.
    pub fn len(&self) -> (n: usize)
        ensures
            n == self.points().len(),
    {
        self.ring.len()
    }

    /// The points of the ring, in order.
    pub fn ring(&self) -> (ring: &Vec<Point>)
        ensures
            ring@ == self.points(),
            ascending(ring@),
            owned_within(ring@, self.addrs().len()),
    {
        proof {
            use_type_invariant(self);
        }
        &self.ring
    }

    /// The node table, in the order in which the nodes were given.
    pub fn nodes(&self) -> (nodes: &Vec<NodeAddr>)
        ensures
            nodes@ == self.addrs(),
    {
        &self.addrs
    }

    /// The index of the point that serves a key with the given checksum:
    /// the first point at or after it, or the first point of the ring when
    /// the checksum lies beyond the last point. On a ring without points it
    /// is zero.
    pub fn point_idx(&self, hash: u32) -> (i: usize)
        ensures
            i == landing(self.points(), hash),
            self.points().len() > 0 ==> i < self.points().len(),
            (forall|k: int|
                0 <= k < self.points().len() ==> (#[trigger] self.points()[k]).hash < hash) ==> i
                == 0,
            (exists|k: int|
                0 <= k < self.points().len() && (#[trigger] self.points()[k]).hash >= hash) ==> {
                &&& self.points()[i as int].hash >= hash
                &&& forall|j: int| 0 <= j < i ==> (#[trigger] self.points()[j]).hash < hash
            },
    {
        proof {
            use_type_invariant(self);
            if self.ring@.len() > 0 {
                lemma_landing(self.ring@, hash);
            }
        }
        search(&self.ring, hash)
    }

    /// The index of the point that serves the key `input`.
    pub fn node_idx(&self, input: &[u8]) -> (i: usize)
        ensures
            i == landing(self.points(), crc32(input@)),
            self.points().len() > 0 ==> i < self.points().len(),
            (forall|k: int|
                0 <= k < self.points().len() ==> (#[trigger] self.points()[k]).hash < crc32(
                    input@,
                )) ==> i == 0,
            (exists|k: int|
                0 <= k < self.points().len() && (#[trigger] self.points()[k]).hash >= crc32(
                    input@,
                )) ==> {
                &&& self.points()[i as int].hash >= crc32(input@)
                &&& forall|j: int|
                    0 <= j < i ==> (#[trigger] self.points()[j]).hash < crc32(input@)
            },
    {
        self.point_idx(checksum(input))
    }

    /// The node that serves a key with the given checksum, if the ring has
    /// any points.
    pub fn node_at(&self, hash: u32) -> (node: Option<NodeAddr>)
        ensures
            node == self.owner(hash),
            self.points().len() == 0 <==> node is None,
    {
        proof {
            use_type_invariant(self);
        }
        if self.ring.len() == 0 {
            None
        } else {
            let i = self.point_idx(hash);
            Some(self.addrs[self.ring[i].node_index])
        }
    }

    /// The node that serves the key `hash_key`, if the ring has any points.
    pub fn node(&self, hash_key: &[u8]) -> (node: Option<NodeAddr>)
        ensures
            node == self.owner(crc32(hash_key@)),
            self.points().len() == 0 <==> node is None,
    {
        self.node_at(checksum(hash_key))
    }

    /// A cursor over the ring that starts at the point that serves the key
    /// `hash_key`.
    pub fn node_iter(&self, hash_key: &[u8]) -> (iter: NodeIterator<'_>)
        ensures
            iter.continuum() == *self,
            iter.cursor() == landing(self.points(), crc32(hash_key@)),
    {
        NodeIterator { idx: self.node_idx(hash_key), continuum: self }
    }

    /// The owner of the point at `*point_index`, after which the index moves
    /// on by one point and from the last point to the first. An index that is
    /// not on the ring gives nothing and stays as it is.
    pub fn get_addr(&self, point_index: &mut usize) -> (addr: Option<&NodeAddr>)
        ensures
            *old(point_index) < self.points().len() ==> {
                &&& addr == Some(
                    &self.addrs()[self.points()[*old(point_index) as int].node_index as int],
                )
                &&& *final(point_index) == step(*old(point_index) as nat, self.points().len())
            },
            *old(point_index) >= self.points().len() ==> {
                &&& addr is None
                &&& *final(point_index) == *old(point_index)
            },
    {
        proof {
            use_type_invariant(self);
        }
        let at: usize = *point_index;
        if at < self.ring.len() {
            *point_index = (at + 1) % self.ring.len();
            Some(&self.addrs[self.ring[at].node_index])
        } else {
            None
        }
    }
}

/// A cursor over a continuum: it yields the owner of one point after
/// another and goes on from the last point to the first.
///
/// The cursor is always on the ring, unless the ring has no points.
pub struct NodeIterator<'a> {
    idx: usize,
    continuum: &'a Continuum,
}

impl<'a> NodeIterator<'a> {
    #[verifier::type_invariant]
    spec fn inv(self) -> bool {
        self.continuum.ring@.len() > 0 ==> self.idx < self.continuum.ring@.len()
    }

    /// The index of the point that comes next.
    pub closed spec fn cursor(&self) -> nat {
        self.idx as nat
    }

    /// The continuum that the cursor runs over.
    pub closed spec fn continuum(&self) -> Continuum {
        *self.continuum
    }

    /// The index of the point that comes next.
    pub fn position(&self) -> (at: usize)
        ensures
            at == self.cursor(),
            self.continuum().points().len() > 0 ==> at < self.continuum().points().len(),
    {
        proof {
            use_type_invariant(self);
        }
        self.idx
    }

    /// The owner of the point at the cursor, after which the cursor moves on
    /// by one point and from the last point to the first. On a ring without
    /// points there is nothing to yield, however often it is asked.
    pub fn next(&mut self) -> (addr: Option<&'a NodeAddr>)
        ensures
            final(self).continuum() == old(self).continuum(),
            final(self).cursor() == step(old(self).cursor(), old(self).continuum().points().len()),
            old(self).continuum().points().len() == 0 ==> addr is None,
            old(self).continuum().points().len() > 0 ==> addr == Some(
                &old(self).continuum().addrs()[old(self).continuum().points()[old(
                    self,
                ).cursor() as int].node_index as int],
            ),
    {
        proof {
            use_type_invariant(&*self);
        }
        let ring = self.continuum;
        let mut at: usize = self.idx;
        let addr = ring.get_addr(&mut at);
        self.idx = at;
        addr
    }
}

} // verus!
