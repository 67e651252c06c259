//! Virtual points: the positions that nodes occupy on the ring.
use vstd::prelude::*;
use crate::crc::{checksum, crc32};

verus! {

/// One position on the ring: a checksum and the node that owns it.
#[derive(Clone, Copy, Debug, PartialEq, Eq)]
pub struct Point {
    /// Where the point lies on the ring.
    pub hash: u32,
    /// Index of the owning node in the ring's address table.
    pub node_index: usize,
}

/// The order of points: that of their checksums. The owner takes no part
/// in it, so two points with one checksum are equal in order.
pub open spec fn point_le(a: Point, b: Point) -> bool {
    a.hash <= b.hash
}

impl Point {
    /// Whether this point comes no later than `other` in the order of points.
    pub fn le(&self, other: &Point) -> (r: bool)
        ensures
            r == (self.hash <= other.hash),
            r == point_le(*self, *other),
    {
        self.hash <= other.hash
    }
}

/// The four bytes of `x`, least significant first.
pub open spec fn le_bytes(x: u32) -> Seq<u8> {
    seq![
        (x % 256) as u8,
        (x / 256 % 256) as u8,
        (x / 65536 % 256) as u8,
        (x / 16777216) as u8,
    ]
}

/// The checksum of a node's `j`-th point.
///
/// Each is the checksum of the node's identity followed by the previous
/// point's checksum, least significant byte first; the first point is
/// chained to zero.
pub open spec fn chain_hash(identity: Seq<u8>, j: nat) -> u32
    decreases j,
{
    let prev: u32 = if j == 0 {
        0
    } else {
        chain_hash(identity, (j - 1) as nat)
    };
    crc32(identity + le_bytes(prev))
}

/// The first `count` points of the node with the given identity.
pub open spec fn node_points(identity: Seq<u8>, node_index: usize, count: nat) -> Seq<Point> {
    Seq::new(count, |j: int| Point { hash: chain_hash(identity, j as nat), node_index })
}

/// Appends the four bytes of `x`, least significant first.
fn push_le_bytes(out: &mut Vec<u8>, x: u32)
    ensures
        final(out)@ == old(out)@ + le_bytes(x),
{
    out.push((x % 256) as u8);
    out.push((x / 256 % 256) as u8);
    out.push((x / 65536 % 256) as u8);
    out.push((x / 16777216) as u8);
}

/// Appends the points of one node: `weight * per_weight` of them.
pub fn push_node_points(
    points: &mut Vec<Point>,
    identity: &Vec<u8>,
    node_index: usize,
    weight: u32,
    per_weight: usize,
)
    ensures
        final(points)@ == old(points)@ + node_points(
            identity@,
            node_index,
            weight as nat * per_weight as nat,
        ),
{
    let mut input: Vec<u8> = identity.clone();
    let mut prev: u32 = 0;
    let mut round: u32 = 0;
    let ghost mut made: nat = 0;
    while round < weight
        invariant
            round <= weight,
            made == round as nat * per_weight as nat,
            input@ == identity@,
            prev == if made == 0 { 0 } else { chain_hash(identity@, (made - 1) as nat) },
            points@ == old(points)@ + node_points(identity@, node_index, made),
        decreases weight - round,
    {
        let mut k: usize = 0;
        let ghost start = made;
        while k < per_weight
            invariant
                k <= per_weight,
                made == start + k,
                input@ == identity@,
                prev == if made == 0 { 0 } else { chain_hash(identity@, (made - 1) as nat) },
                points@ == old(points)@ + node_points(identity@, node_index, made),
            decreases per_weight - k,
        {
            push_le_bytes(&mut input, prev);
            let hash = checksum(input.as_slice());
            input.truncate(identity.len());
            points.push(Point { hash, node_index });
            prev = hash;
            k = k + 1;
            proof {
                made = made + 1;
            }
        }
        round = round + 1;
        assert(made == round as nat * per_weight as nat) by (nonlinear_arith)
            requires
                made == start + per_weight,
                start == (round - 1) as nat * per_weight as nat,
                round >= 1,
        ;
    }
}

} // verus!
