//! What holds of continuums in general.
use vstd::prelude::*;
use vstd::arithmetic::div_mod::lemma_small_mod;
use crate::bucket::Bucket;
use crate::continuum::Continuum;
use crate::members::{
    all_points, first_owned, has_point, lemma_all_points_hold, lemma_first_owner,
    lemma_ring_holds, lemma_shares, nodes_of,
};
use crate::point::{Point, chain_hash, node_points};
use crate::ring::{
    ascending, distinct_hashes, first_at_or_after, has_hash, landing, lemma_first_at_or_after,
    lemma_first_at_or_after_is, lemma_landing, lemma_owned_by_concat, lemma_ring_of, owned_by,
    step,
};

verus! {

/// Where a cursor stands after it has moved on `count` times.
pub open spec fn steps(cursor: nat, len: nat, count: nat) -> nat
    decreases count,
{
    if count == 0 {
        cursor
    } else {
        step(steps(cursor, len, (count - 1) as nat), len)
    }
}

/// Two continuums built from the same nodes, in the same order and with the
/// same number of points for each unit of weight, serve every key alike.
pub proof fn lemma_same_nodes_serve_alike(
    first: Continuum,
    second: Continuum,
    buckets: Seq<Bucket>,
    per_weight: nat,
    hash: u32,
)
    requires
        first.built_from(buckets, per_weight),
        second.built_from(buckets, per_weight),
    ensures
        first.points() == second.points(),
        first.addrs() == second.addrs(),
        first.owner(hash) == second.owner(hash),
        landing(first.points(), hash) == landing(second.points(), hash),
{
}

/// On a strictly ascending ring two points with one checksum are one point.
proof fn lemma_one_place(ring: Seq<Point>, i: int, j: int)
    requires
        ascending(ring),
        0 <= i < ring.len(),
        0 <= j < ring.len(),
        ring[i].hash == ring[j].hash,
    ensures
        i == j,
{
    if i < j {
        assert(ring[i].hash < ring[j].hash);
    } else if j < i {
        assert(ring[j].hash < ring[i].hash);
    }
}

/// Where a second ring has every checksum of a first, a checksum that lands
/// in the second on a checksum of the first lands on it in the first too.
proof fn lemma_landing_kept(first: Seq<Point>, second: Seq<Point>, hash: u32)
    requires
        ascending(first),
        ascending(second),
        forall|k: int| 0 <= k < first.len() ==> has_hash(second, (#[trigger] first[k]).hash),
        second.len() > 0,
        has_hash(first, second[landing(second, hash) as int].hash),
    ensures
        first.len() > 0,
        first[landing(first, hash) as int].hash == second[landing(second, hash) as int].hash,
{
    lemma_first_at_or_after(second, hash);
    lemma_landing(second, hash);
    let f = first_at_or_after(second, hash) as int;
    let at = landing(second, hash) as int;
    let target = second[at].hash;
    let m = choose|m: int| 0 <= m < first.len() && (#[trigger] first[m]).hash == target;
    if f < second.len() {
        assert forall|j: int| 0 <= j < m implies (#[trigger] first[j]).hash < hash by {
            let h = first[j].hash;
            assert(h < first[m].hash);
            assert(has_hash(second, h));
            let k = choose|k: int| 0 <= k < second.len() && (#[trigger] second[k]).hash == h;
            if k >= f {
                if k > f {
                    assert(second[f].hash < second[k].hash);
                }
            }
        }
        lemma_first_at_or_after_is(first, hash, m);
    } else {
        assert forall|j: int| 0 <= j < first.len() implies (#[trigger] first[j]).hash < hash by {
            let h = first[j].hash;
            assert(has_hash(second, h));
            let k = choose|k: int| 0 <= k < second.len() && (#[trigger] second[k]).hash == h;
        }
        lemma_first_at_or_after_is(first, hash, first.len() as int);
        if m > 0 {
            let h = first[0].hash;
            assert(h < first[m].hash);
            assert(has_hash(second, h));
            let k = choose|k: int| 0 <= k < second.len() && (#[trigger] second[k]).hash == h;
            if k > 0 {
                assert(second[0].hash < second[k].hash);
            }
        }
    }
}

/// Adding a node to the list, at any place in it, moves a key only to that
/// node: a key is served as before unless it now lands on a point of the
/// node added.
pub proof fn lemma_adding_a_node(
    before: Continuum,
    after: Continuum,
    buckets: Seq<Bucket>,
    at: int,
    added: Bucket,
    per_weight: nat,
    hash: u32,
)
    requires
        0 <= at <= buckets.len() < usize::MAX,
        before.built_from(buckets, per_weight),
        after.built_from(buckets.insert(at, added), per_weight),
    ensures
        after.owner(hash) != before.owner(hash) ==> {
            &&& after.owner(hash) == Some(added.node())
            &&& after.points().len() > 0
            &&& after.points()[landing(after.points(), hash) as int].node_index == at
        },
{
    let grown = buckets.insert(at, added);
    let old_ring = before.points();
    let new_ring = after.points();
    lemma_ring_of(all_points(buckets, per_weight));
    lemma_ring_of(all_points(grown, per_weight));
    assert forall|p: Point| #[trigger] old_ring.contains(p) <==> first_owned(
        buckets,
        per_weight,
        p,
    ) by {
        lemma_ring_holds(buckets, per_weight, p);
    }
    assert forall|p: Point| #[trigger] new_ring.contains(p) <==> first_owned(
        grown,
        per_weight,
        p,
    ) by {
        lemma_ring_holds(grown, per_weight, p);
    }
    assert forall|k: int| 0 <= k < old_ring.len() implies has_hash(
        new_ring,
        (#[trigger] old_ring[k]).hash,
    ) by {
        let p = old_ring[k];
        assert(old_ring.contains(p));
        let i = p.node_index as int;
        let moved = if i < at {
            i
        } else {
            i + 1
        };
        assert(grown[moved] == buckets[i]);
        let first = lemma_first_owner(grown, per_weight, p.hash, moved);
        let q = Point { hash: p.hash, node_index: first as usize };
        assert(new_ring.contains(q));
        let m = choose|m: int| 0 <= m < new_ring.len() && new_ring[m] == q;
        assert(new_ring[m].hash == p.hash);
    }
    if new_ring.len() == 0 {
        if old_ring.len() > 0 {
            assert(has_hash(new_ring, old_ring[0].hash));
        }
    } else {
        lemma_landing(new_ring, hash);
        let q = new_ring[landing(new_ring, hash) as int];
        assert(new_ring.contains(q));
        assert(first_owned(grown, per_weight, q));
        if q.node_index != at {
            let j = q.node_index as int;
            let i = if j < at {
                j
            } else {
                j - 1
            };
            assert(buckets[i] == grown[j]);
            let p = Point { hash: q.hash, node_index: i as usize };
            assert forall|k: int| 0 <= k < i implies !has_point(
                #[trigger] buckets[k],
                per_weight,
                q.hash,
            ) by {
                let moved = if k < at {
                    k
                } else {
                    k + 1
                };
                assert(grown[moved] == buckets[k]);
            }
            assert(first_owned(buckets, per_weight, p));
            assert(old_ring.contains(p));
            let m = choose|m: int| 0 <= m < old_ring.len() && old_ring[m] == p;
            assert(old_ring[m].hash == q.hash);
            lemma_landing_kept(old_ring, new_ring, hash);
            lemma_landing(old_ring, hash);
            lemma_one_place(old_ring, m, landing(old_ring, hash) as int);
            assert(nodes_of(buckets)[i] == nodes_of(grown)[j]);
        }
    }
}

/// Taking a node out of the list moves only the keys that it served.
pub proof fn lemma_removing_a_node(
    before: Continuum,
    after: Continuum,
    buckets: Seq<Bucket>,
    at: int,
    per_weight: nat,
    hash: u32,
)
    requires
        0 <= at < buckets.len() <= usize::MAX,
        before.built_from(buckets, per_weight),
        after.built_from(buckets.remove(at), per_weight),
    ensures
        after.owner(hash) != before.owner(hash) ==> {
            &&& before.owner(hash) == Some(buckets[at].node())
            &&& before.points().len() > 0
            &&& before.points()[landing(before.points(), hash) as int].node_index == at
        },
{
    assert(buckets.remove(at).insert(at, buckets[at]) =~= buckets);
    lemma_adding_a_node(after, before, buckets.remove(at), at, buckets[at], per_weight, hash);
}

/// Raising a node's weight moves a key only to that node: a key is served
/// as before unless it now lands on a point of the node whose weight was
/// raised.
pub proof fn lemma_raising_a_weight(
    before: Continuum,
    after: Continuum,
    buckets: Seq<Bucket>,
    at: int,
    heavier: Bucket,
    per_weight: nat,
    hash: u32,
)
    requires
        0 <= at < buckets.len() <= usize::MAX,
        heavier.node() == buckets[at].node(),
        heavier.weight() >= buckets[at].weight(),
        before.built_from(buckets, per_weight),
        after.built_from(buckets.update(at, heavier), per_weight),
    ensures
        after.owner(hash) != before.owner(hash) ==> {
            &&& after.owner(hash) == Some(heavier.node())
            &&& after.points().len() > 0
            &&& after.points()[landing(after.points(), hash) as int].node_index == at
        },
{
    let raised = buckets.update(at, heavier);
    let old_ring = before.points();
    let new_ring = after.points();
    lemma_ring_of(all_points(buckets, per_weight));
    lemma_ring_of(all_points(raised, per_weight));
    assert forall|p: Point| #[trigger] old_ring.contains(p) <==> first_owned(
        buckets,
        per_weight,
        p,
    ) by {
        lemma_ring_holds(buckets, per_weight, p);
    }
    assert forall|p: Point| #[trigger] new_ring.contains(p) <==> first_owned(
        raised,
        per_weight,
        p,
    ) by {
        lemma_ring_holds(raised, per_weight, p);
    }
    assert forall|h: u32| has_point(buckets[at], per_weight, h) implies has_point(
        heavier,
        per_weight,
        h,
    ) by {
        lemma_heavier_has_points(buckets[at], heavier, per_weight, h);
    }
    assert forall|k: int| 0 <= k < old_ring.len() implies has_hash(
        new_ring,
        (#[trigger] old_ring[k]).hash,
    ) by {
        let p = old_ring[k];
        assert(old_ring.contains(p));
        let i = p.node_index as int;
        assert(has_point(raised[i], per_weight, p.hash));
        let first = lemma_first_owner(raised, per_weight, p.hash, i);
        let q = Point { hash: p.hash, node_index: first as usize };
        assert(new_ring.contains(q));
        let m = choose|m: int| 0 <= m < new_ring.len() && new_ring[m] == q;
        assert(new_ring[m].hash == p.hash);
    }
    if new_ring.len() == 0 {
        if old_ring.len() > 0 {
            assert(has_hash(new_ring, old_ring[0].hash));
        }
    } else {
        lemma_landing(new_ring, hash);
        let q = new_ring[landing(new_ring, hash) as int];
        assert(new_ring.contains(q));
        assert(first_owned(raised, per_weight, q));
        if q.node_index != at {
            let j = q.node_index as int;
            assert(buckets[j] == raised[j]);
            assert forall|k: int| 0 <= k < j implies !has_point(
                #[trigger] buckets[k],
                per_weight,
                q.hash,
            ) by {
                assert(!has_point(raised[k], per_weight, q.hash));
            }
            assert(first_owned(buckets, per_weight, q));
            assert(old_ring.contains(q));
            let m = choose|m: int| 0 <= m < old_ring.len() && old_ring[m] == q;
            assert(old_ring[m].hash == q.hash);
            lemma_landing_kept(old_ring, new_ring, hash);
            lemma_landing(old_ring, hash);
            lemma_one_place(old_ring, m, landing(old_ring, hash) as int);
            assert(nodes_of(buckets)[j] == nodes_of(raised)[j]);
        }
    }
}

/// Lowering a node's weight moves only keys that the node served.
pub proof fn lemma_lowering_a_weight(
    before: Continuum,
    after: Continuum,
    buckets: Seq<Bucket>,
    at: int,
    lighter: Bucket,
    per_weight: nat,
    hash: u32,
)
    requires
        0 <= at < buckets.len() <= usize::MAX,
        lighter.node() == buckets[at].node(),
        lighter.weight() <= buckets[at].weight(),
        before.built_from(buckets, per_weight),
        after.built_from(buckets.update(at, lighter), per_weight),
    ensures
        after.owner(hash) != before.owner(hash) ==> {
            &&& before.owner(hash) == Some(lighter.node())
            &&& before.points().len() > 0
            &&& before.points()[landing(before.points(), hash) as int].node_index == at
        },
{
    let lowered = buckets.update(at, lighter);
    assert(lowered.update(at, buckets[at]) =~= buckets);
    lemma_raising_a_weight(after, before, lowered, at, buckets[at], per_weight, hash);
}

/// The point with the owner's index as it stands once the node at `at` is
/// taken out of the list.
pub open spec fn without_node(p: Point, at: int) -> Point {
    Point {
        hash: p.hash,
        node_index: if p.node_index > at {
            (p.node_index - 1) as usize
        } else {
            p.node_index
        },
    }
}

/// Taking a node out of the list leaves the points of the other nodes on
/// the ring, and puts no point on it but where the node had one.
pub proof fn lemma_removing_keeps_other_points(
    before: Continuum,
    after: Continuum,
    buckets: Seq<Bucket>,
    at: int,
    per_weight: nat,
)
    requires
        0 <= at < buckets.len() <= usize::MAX,
        before.built_from(buckets, per_weight),
        after.built_from(buckets.remove(at), per_weight),
    ensures
        forall|p: Point|
            p.node_index != at && #[trigger] before.points().contains(p)
                ==> after.points().contains(without_node(p, at)),
        forall|q: Point| #[trigger]
            after.points().contains(q) ==> has_hash(before.points(), q.hash),
{
    let fewer = buckets.remove(at);
    lemma_ring_of(all_points(buckets, per_weight));
    lemma_ring_of(all_points(fewer, per_weight));
    assert forall|p: Point| p.node_index != at && #[trigger] before.points().contains(
        p,
    ) implies after.points().contains(without_node(p, at)) by {
        lemma_ring_holds(buckets, per_weight, p);
        let q = without_node(p, at);
        assert(fewer[q.node_index as int] == buckets[p.node_index as int]);
        assert forall|k: int| 0 <= k < q.node_index implies !has_point(
            #[trigger] fewer[k],
            per_weight,
            q.hash,
        ) by {
            let from = if k < at {
                k
            } else {
                k + 1
            };
            assert(fewer[k] == buckets[from]);
            assert(!has_point(buckets[from], per_weight, p.hash));
        }
        lemma_ring_holds(fewer, per_weight, q);
    }
    assert forall|q: Point| #[trigger] after.points().contains(q) implies has_hash(
        before.points(),
        q.hash,
    ) by {
        lemma_ring_holds(fewer, per_weight, q);
        let from = if q.node_index < at {
            q.node_index as int
        } else {
            q.node_index + 1
        };
        assert(fewer[q.node_index as int] == buckets[from]);
        let first = lemma_first_owner(buckets, per_weight, q.hash, from);
        let p = Point { hash: q.hash, node_index: first as usize };
        lemma_ring_holds(buckets, per_weight, p);
        let m = choose|m: int| 0 <= m < before.points().len() && before.points()[m] == p;
        assert(before.points()[m].hash == q.hash);
    }
}

/// What a node has of points it has at any greater weight.
pub proof fn lemma_heavier_has_points(lighter: Bucket, heavier: Bucket, per_weight: nat, hash: u32)
    requires
        heavier.node() == lighter.node(),
        heavier.weight() >= lighter.weight(),
        has_point(lighter, per_weight, hash),
    ensures
        has_point(heavier, per_weight, hash),
{
    let j = choose|j: nat|
        j < lighter.weight() as nat * per_weight && #[trigger] chain_hash(
            lighter.node().identity(),
            j,
        ) == hash;
    assert(j < heavier.weight() as nat * per_weight) by (nonlinear_arith)
        requires
            j < lighter.weight() as nat * per_weight,
            heavier.weight() >= lighter.weight(),
    ;
    assert(chain_hash(heavier.node().identity(), j) == hash);
}

/// Where no two points of a list of nodes share a checksum, none do when
/// nodes of the list have lower weights.
pub proof fn lemma_lighter_stay_distinct(
    lighter: Seq<Bucket>,
    heavier: Seq<Bucket>,
    per_weight: nat,
)
    requires
        lighter.len() == heavier.len() <= usize::MAX,
        forall|k: int|
            0 <= k < lighter.len() ==> (#[trigger] heavier[k]).node() == lighter[k].node()
                && heavier[k].weight() >= lighter[k].weight(),
        distinct_hashes(all_points(heavier, per_weight)),
    ensures
        distinct_hashes(all_points(lighter, per_weight)),
    decreases lighter.len(),
{
    if lighter.len() > 0 {
        let light_front = lighter.drop_last();
        let heavy_front = heavier.drop_last();
        let index = (lighter.len() - 1) as usize;
        let identity = lighter.last().node().identity();
        let light_head = all_points(light_front, per_weight);
        let heavy_head = all_points(heavy_front, per_weight);
        let light_tail = node_points(identity, index, lighter.last().weight() as nat * per_weight);
        let heavy_tail = node_points(identity, index, heavier.last().weight() as nat * per_weight);
        let light = all_points(lighter, per_weight);
        let heavy = all_points(heavier, per_weight);
        assert(heavier[heavier.len() - 1].node() == lighter[lighter.len() - 1].node());
        assert(heavy == heavy_head + heavy_tail);
        assert(light == light_head + light_tail);
        assert(light_tail.len() <= heavy_tail.len()) by (nonlinear_arith)
            requires
                light_tail.len() == lighter.last().weight() as nat * per_weight,
                heavy_tail.len() == heavier.last().weight() as nat * per_weight,
                heavier.last().weight() >= lighter.last().weight(),
        ;
        assert forall|i: int, j: int| 0 <= i < j < heavy_head.len() implies heavy_head[i].hash
            != heavy_head[j].hash by {
            assert(heavy[i].hash != heavy[j].hash);
        }
        assert forall|k: int| 0 <= k < light_front.len() implies (#[trigger] heavy_front[k]).node()
            == light_front[k].node() && heavy_front[k].weight() >= light_front[k].weight() by {
            assert(heavier[k].node() == lighter[k].node());
        }
        lemma_lighter_stay_distinct(light_front, heavy_front, per_weight);
        assert forall|i: int, j: int| 0 <= i < j < light.len() implies light[i].hash
            != light[j].hash by {
            if j < light_head.len() {
                assert(light_head[i].hash != light_head[j].hash);
            } else {
                let c = j - light_head.len();
                assert(light[j] == heavy[heavy_head.len() + c]);
                if i < light_head.len() {
                    let p = light_head[i];
                    assert(light_head.contains(p));
                    lemma_all_points_hold(light_front, per_weight, p);
                    lemma_heavier_has_points(
                        light_front[p.node_index as int],
                        heavy_front[p.node_index as int],
                        per_weight,
                        p.hash,
                    );
                    lemma_all_points_hold(heavy_front, per_weight, p);
                    let m = choose|m: int| 0 <= m < heavy_head.len() && heavy_head[m] == p;
                    assert(heavy[m].hash != heavy[heavy_head.len() + c].hash);
                } else {
                    let b = i - light_head.len();
                    assert(light[i] == heavy[heavy_head.len() + b]);
                    assert(heavy[heavy_head.len() + b].hash != heavy[heavy_head.len() + c].hash);
                }
            }
        }
    }
}

/// Where no two points share a checksum, nodes of equal weight own equally
/// many points of the ring.
pub proof fn lemma_equal_weights_equal_shares(
    ring: Continuum,
    buckets: Seq<Bucket>,
    per_weight: nat,
    one: int,
    other: int,
)
    requires
        buckets.len() <= usize::MAX,
        ring.built_from(buckets, per_weight),
        distinct_hashes(all_points(buckets, per_weight)),
        0 <= one < buckets.len(),
        0 <= other < buckets.len(),
        buckets[one].weight() == buckets[other].weight(),
    ensures
        owned_by(ring.points(), one) == buckets[one].weight() as nat * per_weight,
        owned_by(ring.points(), one) == owned_by(ring.points(), other),
{
    lemma_shares(buckets, per_weight);
}

/// Where no two points share a checksum, a node whose weight is doubled
/// owns twice as many points of the ring, and every other node owns the
/// points that it owned.
pub proof fn lemma_double_weight_double_share(
    before: Continuum,
    after: Continuum,
    buckets: Seq<Bucket>,
    at: int,
    doubled: Bucket,
    per_weight: nat,
)
    requires
        0 <= at < buckets.len() <= usize::MAX,
        doubled.node() == buckets[at].node(),
        doubled.weight() == 2 * buckets[at].weight(),
        before.built_from(buckets, per_weight),
        after.built_from(buckets.update(at, doubled), per_weight),
        distinct_hashes(all_points(buckets.update(at, doubled), per_weight)),
    ensures
        owned_by(after.points(), at) == 2 * owned_by(before.points(), at),
        forall|node: int|
            0 <= node < buckets.len() && node != at ==> #[trigger] owned_by(after.points(), node)
                == owned_by(before.points(), node),
        forall|p: Point|
            p.node_index != at ==> (#[trigger] after.points().contains(p)
                <==> before.points().contains(p)),
{
    let raised = buckets.update(at, doubled);
    lemma_lighter_stay_distinct(buckets, raised, per_weight);
    lemma_shares(buckets, per_weight);
    lemma_shares(raised, per_weight);
    assert(owned_by(after.points(), at) == 2 * owned_by(before.points(), at)) by {
        assert(raised[at] == doubled);
        assert(doubled.weight() as nat * per_weight == 2 * (buckets[at].weight() as nat
            * per_weight)) by (nonlinear_arith)
            requires
                doubled.weight() == 2 * buckets[at].weight(),
        ;
    }
    assert forall|node: int| 0 <= node < buckets.len() && node != at implies #[trigger] owned_by(
        after.points(),
        node,
    ) == owned_by(before.points(), node) by {
        assert(raised[node] == buckets[node]);
    }
    assert forall|p: Point| p.node_index != at implies (#[trigger] after.points().contains(p)
        <==> before.points().contains(p)) by {
        if p.node_index < buckets.len() {
            assert(raised[p.node_index as int] == buckets[p.node_index as int]);
        }
    }
}

/// A cursor on a ring that moves on as many times as the ring has points
/// is back where it started.
pub proof fn lemma_full_cycle(cursor: nat, len: nat)
    requires
        cursor < len,
    ensures
        steps(cursor, len, len) == cursor,
{
    lemma_steps(cursor, len, len);
    assert((cursor + len) % len == cursor) by (nonlinear_arith)
        requires
            cursor < len,
    ;
}

/// The points of a ring in the order in which a cursor that starts at
/// `cursor` meets them on one full cycle.
pub open spec fn cycle_from(ring: Seq<Point>, cursor: int) -> Seq<Point> {
    ring.subrange(cursor, ring.len() as int) + ring.subrange(0, cursor)
}

/// One full cycle meets every point of the ring once: the point met after
/// `count` moves is the one at that place of [`cycle_from`], and every node
/// owns as many of the points met as it owns of the ring.
pub proof fn lemma_full_cycle_meets_all(ring: Seq<Point>, cursor: nat, count: nat, node: int)
    requires
        cursor < ring.len(),
        count < ring.len(),
    ensures
        cycle_from(ring, cursor as int).len() == ring.len(),
        cycle_from(ring, cursor as int)[count as int] == ring[steps(
            cursor,
            ring.len(),
            count,
        ) as int],
        owned_by(cycle_from(ring, cursor as int), node) == owned_by(ring, node),
{
    let len = ring.len();
    let tail = ring.subrange(cursor as int, len as int);
    let head = ring.subrange(0, cursor as int);
    lemma_steps(cursor, len, count);
    if cursor + count < len {
        lemma_small_mod(cursor + count, len);
    } else {
        assert((cursor + count) % len == cursor + count - len) by (nonlinear_arith)
            requires
                len <= cursor + count < 2 * len,
        ;
    }
    assert(ring =~= head + tail);
    lemma_owned_by_concat(head, tail, node);
    lemma_owned_by_concat(tail, head, node);
}

/// Moving on `count` times adds `count` to the cursor, modulo the length.
pub proof fn lemma_steps(cursor: nat, len: nat, count: nat)
    requires
        cursor < len,
    ensures
        steps(cursor, len, count) == (cursor + count) % len,
    decreases count,
{
    if count == 0 {
        lemma_small_mod(cursor, len);
    } else {
        lemma_steps(cursor, len, (count - 1) as nat);
        let before = (cursor + count - 1) as int;
        assert((before % (len as int) + 1) % (len as int) == (before + 1) % (len as int))
            by (nonlinear_arith)
            requires
                len > 0,
                before >= 0,
        ;
    }
}

} // verus!
