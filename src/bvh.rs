//! Bounding-volume hierarchy over the boxes of a scene's primitives.
//!
//! Boxes live on an integer grid: a caller lays a primitive's extents on it
//! rounding outwards, so that the grid box holds the primitive. Primitives
//! are named by their index in the scene's list of boxes.

use vstd::prelude::*;
use vstd::relations::{sorted_by, total_ordering};
use vstd::seq_lib::{lemma_sorted_unique, to_multiset_insert, lemma_multiset_commutative};

verus! {

broadcast use vstd::seq_lib::group_to_multiset_ensures;

/// Largest magnitude of a grid coordinate.
pub const COORD_LIMIT: i64 = 1073741824;

/// A point of the integer grid on which bounding boxes are laid.
#[derive(Clone, Copy, Debug, PartialEq, Eq, Structural)]
pub struct GridPoint {
    pub x: i64,
    pub y: i64,
    pub z: i64,
}

/// An axis-aligned box, `min` to `max` on each axis.
#[derive(Clone, Copy, Debug, PartialEq, Eq, Structural)]
pub struct Aabb {
    pub min: GridPoint,
    pub max: GridPoint,
}

/// Coordinate of a grid point on axis 0 (x), 1 (y) or 2 (z).
pub open spec fn coord(p: GridPoint, axis: int) -> int {
    if axis == 0 {
        p.x as int
    } else if axis == 1 {
        p.y as int
    } else {
        p.z as int
    }
}

/// `v` lies within the grid.
pub open spec fn in_grid(v: int) -> bool {
    -COORD_LIMIT <= v <= COORD_LIMIT
}

/// On every axis `min <= max`, both inside the grid.
pub open spec fn valid_box(b: Aabb) -> bool {
    &&& in_grid(b.min.x as int) && in_grid(b.max.x as int) && b.min.x <= b.max.x
    &&& in_grid(b.min.y as int) && in_grid(b.max.y as int) && b.min.y <= b.max.y
    &&& in_grid(b.min.z as int) && in_grid(b.max.z as int) && b.min.z <= b.max.z
}

/// Every box is valid.
pub open spec fn valid_boxes(boxes: Seq<Aabb>) -> bool {
    forall|i: int| 0 <= i < boxes.len() ==> valid_box(#[trigger] boxes[i])
}

/// `inner` lies within `outer`.
pub open spec fn box_contains(outer: Aabb, inner: Aabb) -> bool {
    &&& outer.min.x <= inner.min.x && inner.max.x <= outer.max.x
    &&& outer.min.y <= inner.min.y && inner.max.y <= outer.max.y
    &&& outer.min.z <= inner.min.z && inner.max.z <= outer.max.z
}

/// The smaller of two coordinates.
pub open spec fn min_i(a: i64, b: i64) -> i64 {
    if a <= b {
        a
    } else {
        b
    }
}

/// The larger of two coordinates.
pub open spec fn max_i(a: i64, b: i64) -> i64 {
    if a >= b {
        a
    } else {
        b
    }
}

/// The smallest box holding both boxes.
pub open spec fn join(a: Aabb, b: Aabb) -> Aabb {
    Aabb {
        min: GridPoint { x: min_i(a.min.x, b.min.x), y: min_i(a.min.y, b.min.y), z: min_i(a.min.z, b.min.z) },
        max: GridPoint { x: max_i(a.max.x, b.max.x), y: max_i(a.max.y, b.max.y), z: max_i(a.max.z, b.max.z) },
    }
}

/// The tight box of the primitives `ids` (meaningful when `ids` is not empty).
pub open spec fn union_of(boxes: Seq<Aabb>, ids: Seq<usize>) -> Aabb
    decreases ids.len(),
{
    if ids.len() <= 1 {
        boxes[ids[0] as int]
    } else {
        join(union_of(boxes, ids.drop_last()), boxes[ids.last() as int])
    }
}

/// Each of `ids` names a box of `boxes`.
pub open spec fn ids_in_range(boxes: Seq<Aabb>, ids: Seq<usize>) -> bool {
    forall|i: int| 0 <= i < ids.len() ==> #[trigger] ids[i] < boxes.len()
}

/// Twice the centre of a box on an axis.
pub open spec fn mid_key(b: Aabb, axis: int) -> int {
    coord(b.min, axis) + coord(b.max, axis)
}

/// Order of primitives by the centre of their box on `axis`, ties by index.
pub open spec fn axis_leq(boxes: Seq<Aabb>, axis: int) -> spec_fn(usize, usize) -> bool {
    |a: usize, b: usize|
        mid_key(boxes[a as int], axis) < mid_key(boxes[b as int], axis) || (mid_key(
            boxes[a as int],
            axis,
        ) == mid_key(boxes[b as int], axis) && a <= b)
}

/// The primitives `ids` sorted along `axis`.
pub open spec fn axis_order(boxes: Seq<Aabb>, ids: Seq<usize>, axis: int) -> Seq<usize> {
    ids.sort_by(axis_leq(boxes, axis))
}

/// The order along an axis is a total order.
pub proof fn lemma_axis_leq_total(boxes: Seq<Aabb>, axis: int)
    ensures
        total_ordering(axis_leq(boxes, axis)),
{
}

impl GridPoint {
    /// Coordinate on axis 0 (x), 1 (y) or 2 (z).
    pub fn coord(&self, axis: usize) -> (v: i64)
        requires
            axis < 3,
        ensures
            v == coord(*self, axis as int),
    {
        if axis == 0 {
            self.x
        } else if axis == 1 {
            self.y
        } else {
            self.z
        }
    }
}

/// The smaller of two coordinates.
fn min_of(a: i64, b: i64) -> (r: i64)
    ensures
        r == min_i(a, b),
{
    if a <= b {
        a
    } else {
        b
    }
}

/// The larger of two coordinates.
fn max_of(a: i64, b: i64) -> (r: i64)
    ensures
        r == max_i(a, b),
{
    if a >= b {
        a
    } else {
        b
    }
}

impl Aabb {
    /// The smallest box holding `self` and `other`.
    pub fn join(&self, other: &Aabb) -> (r: Aabb)
        ensures
            r == join(*self, *other),
    {
        Aabb {
            min: GridPoint {
                x: min_of(self.min.x, other.min.x),
                y: min_of(self.min.y, other.min.y),
                z: min_of(self.min.z, other.min.z),
            },
            max: GridPoint {
                x: max_of(self.max.x, other.max.x),
                y: max_of(self.max.y, other.max.y),
                z: max_of(self.max.z, other.max.z),
            },
        }
    }

    /// Twice the centre of the box on `axis`.
    pub fn mid_key(&self, axis: usize) -> (k: i64)
        requires
            axis < 3,
            valid_box(*self),
        ensures
            k == mid_key(*self, axis as int),
    {
        self.min.coord(axis) + self.max.coord(axis)
    }
}

/// The join of two valid boxes is valid and holds both.
pub proof fn lemma_join_valid(a: Aabb, b: Aabb)
    requires
        valid_box(a),
        valid_box(b),
    ensures
        valid_box(join(a, b)),
        box_contains(join(a, b), a),
        box_contains(join(a, b), b),
{
}

/// The tight box of `ids` is valid and contains the box of each of them.
pub proof fn lemma_union_contains(boxes: Seq<Aabb>, ids: Seq<usize>)
    requires
        valid_boxes(boxes),
        ids_in_range(boxes, ids),
        ids.len() > 0,
    ensures
        valid_box(union_of(boxes, ids)),
        forall|i: int| 0 <= i < ids.len() ==> box_contains(union_of(boxes, ids), #[trigger] boxes[ids[i] as int]),
    decreases ids.len(),
{
    assert(valid_box(boxes[ids[0] as int]));
    if ids.len() > 1 {
        let init = ids.drop_last();
        lemma_union_contains(boxes, init);
        assert(valid_box(boxes[ids.last() as int]));
        lemma_join_valid(union_of(boxes, init), boxes[ids.last() as int]);
        assert forall|i: int| 0 <= i < ids.len() implies box_contains(union_of(boxes, ids), #[trigger] boxes[ids[i] as int]) by {
            if i < ids.len() - 1 {
                assert(ids[i] == init[i]);
                assert(box_contains(union_of(boxes, init), boxes[init[i] as int]));
            }
        }
    }
}

/// Tight box of `ids[from..to]`.
fn union_range(boxes: &Vec<Aabb>, ids: &Vec<usize>, from: usize, to: usize) -> (r: Aabb)
    requires
        from < to <= ids@.len(),
        ids_in_range(boxes@, ids@),
    ensures
        r == union_of(boxes@, ids@.subrange(from as int, to as int)),
{
    let mut acc: Aabb = boxes[ids[from]];
    let mut i: usize = from + 1;
    assert(ids@.subrange(from as int, i as int).len() == 1);
    while i < to
        invariant
            from < i <= to,
            to <= ids@.len(),
            ids_in_range(boxes@, ids@),
            acc == union_of(boxes@, ids@.subrange(from as int, i as int)),
        decreases to - i,
    {
        acc = acc.join(&boxes[ids[i]]);
        assert(ids@.subrange(from as int, i + 1).drop_last() =~= ids@.subrange(from as int, i as int));
        i = i + 1;
    }
    acc
}

/// Whether primitive `a` comes no later than primitive `b` along `axis`.
fn axis_before(boxes: &Vec<Aabb>, a: usize, b: usize, axis: usize) -> (r: bool)
    requires
        axis < 3,
        a < boxes@.len(),
        b < boxes@.len(),
        valid_boxes(boxes@),
    ensures
        r == axis_leq(boxes@, axis as int)(a, b),
{
    let ka = boxes[a].mid_key(axis);
    let kb = boxes[b].mid_key(axis);
    ka < kb || (ka == kb && a <= b)
}

/// Sorts `ids` along `axis` (see `axis_order`).
fn sort_on_axis(boxes: &Vec<Aabb>, ids: &Vec<usize>, axis: usize) -> (r: Vec<usize>)
    requires
        axis < 3,
        valid_boxes(boxes@),
        ids_in_range(boxes@, ids@),
    ensures
        r@ == axis_order(boxes@, ids@, axis as int),
        r@.len() == ids@.len(),
        ids_in_range(boxes@, r@),
{
    let ghost leq = axis_leq(boxes@, axis as int);
    let mut out: Vec<usize> = Vec::new();
    let mut i: usize = 0;
    while i < ids.len()
        invariant
            axis < 3,
            i <= ids@.len(),
            valid_boxes(boxes@),
            ids_in_range(boxes@, ids@),
            leq == axis_leq(boxes@, axis as int),
            sorted_by(out@, leq),
            out@.to_multiset() == ids@.subrange(0, i as int).to_multiset(),
            ids_in_range(boxes@, out@),
        decreases ids@.len() - i,
    {
        let x = ids[i];
        let mut p: usize = 0;
        while p < out.len() && axis_before(boxes, out[p], x, axis)
            invariant
                axis < 3,
                p <= out@.len(),
                valid_boxes(boxes@),
                ids_in_range(boxes@, out@),
                x < boxes@.len(),
                leq == axis_leq(boxes@, axis as int),
                forall|q: int| 0 <= q < p ==> leq(#[trigger] out@[q], x),
            decreases out@.len() - p,
        {
            p = p + 1;
        }
        proof {
            lemma_axis_leq_total(boxes@, axis as int);
            assert forall|q: int| p <= q < out@.len() implies leq(x, #[trigger] out@[q]) by {
                assert(!leq(out@[p as int], x));
                assert(leq(x, out@[p as int]));
                if q > p {
                    assert(leq(out@[p as int], out@[q]));
                }
            }
            to_multiset_insert(out@, p as int, x);
        }
        let ghost prev = out@;
        out.insert(p, x);
        proof {
            assert(out@ == prev.insert(p as int, x));
            assert forall|a: int, b: int| 0 <= a < b < out@.len() implies #[trigger] leq(out@[a], out@[b]) by {
                if a < p && b == p {
                } else if a < p && b > p {
                    assert(out@[b] == prev[b - 1]);
                } else if a == p {
                    assert(out@[b] == prev[b - 1]);
                } else if a > p {
                    assert(out@[a] == prev[a - 1] && out@[b] == prev[b - 1]);
                } else {
                    assert(out@[a] == prev[a] && out@[b] == prev[b]);
                }
            }
            assert(ids@.subrange(0, i + 1) =~= ids@.subrange(0, i as int).push(x));
            assert(ids_in_range(boxes@, out@));
        }
        i = i + 1;
    }
    proof {
        assert(ids@.subrange(0, i as int) =~= ids@);
        lemma_axis_leq_total(boxes@, axis as int);
        ids@.lemma_sort_by_ensures(leq);
        lemma_sorted_unique(out@, ids@.sort_by(leq), leq);
        vstd::seq_lib::to_multiset_len(out@);
        vstd::seq_lib::to_multiset_len(ids@);
    }
    out
}

/// Extent of a box on an axis.
pub open spec fn extent(b: Aabb, axis: int) -> int {
    coord(b.max, axis) - coord(b.min, axis)
}

/// Half the surface area of a box: the sum of its three face areas.
pub open spec fn area(b: Aabb) -> int {
    extent(b, 0) * extent(b, 1) + extent(b, 0) * extent(b, 2) + extent(b, 1) * extent(b, 2)
}

/// Surface-area cost of cutting `order` before position `at`.
pub open spec fn split_cost(boxes: Seq<Aabb>, order: Seq<usize>, at: int) -> int {
    area(union_of(boxes, order.take(at))) * at + area(union_of(boxes, order.skip(at))) * (
    order.len() - at)
}

/// Cutting the order along `axis` before `at` costs no more than any other
/// cut along any axis.
pub open spec fn is_best_split(boxes: Seq<Aabb>, ids: Seq<usize>, axis: int, at: int) -> bool {
    &&& 0 <= axis < 3
    &&& 1 <= at < ids.len()
    &&& forall|a: int, j: int|
        0 <= a < 3 && 1 <= j < ids.len() ==> split_cost(boxes, axis_order(boxes, ids, axis), at)
            <= #[trigger] split_cost(boxes, axis_order(boxes, ids, a), j)
}

/// Bound on `area` of a valid box: three faces of at most 2^62 each.
const AREA_LIMIT: u128 = 13835058055282163712;

/// `area` of a valid box.
fn box_area(b: &Aabb) -> (r: u128)
    requires
        valid_box(*b),
    ensures
        r == area(*b),
        r <= AREA_LIMIT,
{
    let dx: u128 = (b.max.x - b.min.x) as u128;
    let dy: u128 = (b.max.y - b.min.y) as u128;
    let dz: u128 = (b.max.z - b.min.z) as u128;
    assert(dx * dy <= 4611686018427387904 && dx * dz <= 4611686018427387904 && dy * dz
        <= 4611686018427387904) by (nonlinear_arith)
        requires
            dx <= 2147483648,
            dy <= 2147483648,
            dz <= 2147483648,
    ;
    dx * dy + dx * dz + dy * dz
}

/// Surface-area cost of cutting `order` before `at`.
fn cost_at(boxes: &Vec<Aabb>, order: &Vec<usize>, at: usize) -> (r: u128)
    requires
        1 <= at < order@.len(),
        valid_boxes(boxes@),
        ids_in_range(boxes@, order@),
    ensures
        r == split_cost(boxes@, order@, at as int),
{
    let n = order.len();
    let left = union_range(boxes, order, 0, at);
    let right = union_range(boxes, order, at, n);
    proof {
        assert(order@.subrange(0, at as int) =~= order@.take(at as int));
        assert(order@.subrange(at as int, n as int) =~= order@.skip(at as int));
        lemma_union_contains(boxes@, order@.take(at as int));
        lemma_union_contains(boxes@, order@.skip(at as int));
    }
    let al = box_area(&left);
    let ar = box_area(&right);
    let nl: u128 = at as u128;
    let nr: u128 = (n - at) as u128;
    assert(al * nl + ar * nr <= AREA_LIMIT * (nl + nr)) by (nonlinear_arith)
        requires
            al <= AREA_LIMIT,
            ar <= AREA_LIMIT,
    ;
    assert(AREA_LIMIT * (nl + nr) < 0x1_0000_0000_0000_0000 * 0x1_0000_0000_0000_0000) by (
    nonlinear_arith)
        requires
            nl + nr < 0x1_0000_0000_0000_0000,
    ;
    al * nl + ar * nr
}

/// The cheapest cut over the three axes: its axis, the order of `ids` along
/// it and the position of the cut.
fn best_split(boxes: &Vec<Aabb>, ids: &Vec<usize>) -> (r: (usize, Vec<usize>, usize))
    requires
        ids@.len() >= 2,
        valid_boxes(boxes@),
        ids_in_range(boxes@, ids@),
    ensures
        is_best_split(boxes@, ids@, r.0 as int, r.2 as int),
        r.1@ == axis_order(boxes@, ids@, r.0 as int),
        r.1@.len() == ids@.len(),
        ids_in_range(boxes@, r.1@),
{
    let n = ids.len();
    let mut best_axis: usize = 0;
    let mut best_order: Vec<usize> = sort_on_axis(boxes, ids, 0);
    let mut best_at: usize = 1;
    let mut best_cost: u128 = cost_at(boxes, &best_order, 1);
    let mut axis: usize = 0;
    while axis < 3
        invariant
            n == ids@.len(),
            n >= 2,
            axis <= 3,
            valid_boxes(boxes@),
            ids_in_range(boxes@, ids@),
            best_axis < 3,
            1 <= best_at < n,
            best_order@ == axis_order(boxes@, ids@, best_axis as int),
            best_order@.len() == n,
            ids_in_range(boxes@, best_order@),
            best_cost == split_cost(boxes@, best_order@, best_at as int),
            forall|a: int, j: int|
                0 <= a < axis && 1 <= j < n ==> best_cost <= #[trigger] split_cost(
                    boxes@,
                    axis_order(boxes@, ids@, a),
                    j,
                ),
        decreases 3 - axis,
    {
        let order = sort_on_axis(boxes, ids, axis);
        let mut i: usize = 1;
        let mut found = false;
        let mut found_at: usize = 1;
        while i < n
            invariant
                n == ids@.len(),
                n >= 2,
                axis < 3,
                1 <= i <= n,
                valid_boxes(boxes@),
                order@ == axis_order(boxes@, ids@, axis as int),
                order@.len() == n,
                ids_in_range(boxes@, order@),
                best_axis < 3,
                1 <= best_at < n,
                1 <= found_at < n,
                found ==> best_cost == split_cost(boxes@, order@, found_at as int),
                !found ==> best_order@ == axis_order(boxes@, ids@, best_axis as int),
                !found ==> best_cost == split_cost(boxes@, best_order@, best_at as int),
                forall|a: int, j: int|
                    0 <= a < axis && 1 <= j < n ==> best_cost <= #[trigger] split_cost(
                        boxes@,
                        axis_order(boxes@, ids@, a),
                        j,
                    ),
                forall|j: int|
                    1 <= j < i ==> best_cost <= #[trigger] split_cost(boxes@, order@, j),
            decreases n - i,
        {
            let c = cost_at(boxes, &order, i);
            if c < best_cost {
                best_cost = c;
                found = true;
                found_at = i;
            }
            i = i + 1;
        }
        if found {
            best_axis = axis;
            best_order = order;
            best_at = found_at;
        }
        axis = axis + 1;
    }
    (best_axis, best_order, best_at)
}

/// A node of the bounding-volume hierarchy. Primitives are named by their
/// index in the scene's list of boxes.
pub enum BVHNode {
    Leaf { bounds: Aabb, objects: Vec<usize> },
    Split { bounds: Aabb, left: Box<BVHNode>, right: Box<BVHNode> },
}

/// Why a hierarchy could not be built.
#[derive(Clone, Copy, Debug, PartialEq, Eq, Structural)]
pub enum BuildError {
    /// The scene holds no primitive.
    EmptyScene,
}

/// The box of a node.
pub open spec fn bounds_of(node: BVHNode) -> Aabb {
    match node {
        BVHNode::Leaf { bounds, .. } => bounds,
        BVHNode::Split { bounds, .. } => bounds,
    }
}

/// The primitives of the leaves, left to right.
pub open spec fn items_of(node: BVHNode) -> Seq<usize>
    decreases node,
{
    match node {
        BVHNode::Leaf { objects, .. } => objects@,
        BVHNode::Split { left, right, .. } => items_of(*left) + items_of(*right),
    }
}

/// `node` is the hierarchy of the primitives `ids` for leaf capacity `cap`:
/// its box is their tight box; up to `cap` of them make a leaf; more are cut
/// at the cheapest cut along the cheapest axis, and each side is built in
/// turn.
pub open spec fn built(boxes: Seq<Aabb>, cap: nat, ids: Seq<usize>, node: BVHNode) -> bool
    decreases node,
{
    ids.len() > 0 && bounds_of(node) == union_of(boxes, ids) && match node {
        BVHNode::Leaf { objects, .. } => ids.len() <= cap && objects@ == ids,
        BVHNode::Split { left, right, .. } => ids.len() > cap && exists|axis: int, at: int|
            #![trigger is_best_split(boxes, ids, axis, at)]
            is_best_split(boxes, ids, axis, at) && built(
                boxes,
                cap,
                axis_order(boxes, ids, axis).take(at),
                *left,
            ) && built(boxes, cap, axis_order(boxes, ids, axis).skip(at), *right),
    }
}

/// Every box of the tree holds what lies below it: a leaf's box holds its
/// primitives' boxes, a split's box holds both children's boxes.
pub open spec fn containing(boxes: Seq<Aabb>, node: BVHNode) -> bool
    decreases node,
{
    match node {
        BVHNode::Leaf { bounds, objects } => forall|i: int|
            0 <= i < objects@.len() ==> box_contains(bounds, #[trigger] boxes[objects@[i] as int]),
        BVHNode::Split { bounds, left, right } => box_contains(bounds, bounds_of(*left))
            && box_contains(bounds, bounds_of(*right)) && containing(boxes, *left) && containing(
            boxes,
            *right,
        ),
    }
}

/// The indices `0 .. n` in order.
pub open spec fn all_ids(n: nat) -> Seq<usize> {
    Seq::new(n, |i: int| i as usize)
}

/// `v[from..to]` as a vector of its own.
fn copy_range(v: &Vec<usize>, from: usize, to: usize) -> (r: Vec<usize>)
    requires
        from <= to <= v@.len(),
    ensures
        r@ == v@.subrange(from as int, to as int),
{
    let mut out: Vec<usize> = Vec::new();
    let mut i: usize = from;
    while i < to
        invariant
            from <= i <= to,
            to <= v@.len(),
            out@ == v@.subrange(from as int, i as int),
        decreases to - i,
    {
        out.push(v[i]);
        i = i + 1;
        assert(out@ =~= v@.subrange(from as int, i as int));
    }
    out
}

/// The hierarchy of the primitives `ids` (see `built`).
fn build_node(boxes: &Vec<Aabb>, ids: Vec<usize>, cap: usize) -> (node: BVHNode)
    requires
        ids@.len() >= 1,
        cap >= 1,
        valid_boxes(boxes@),
        ids_in_range(boxes@, ids@),
    ensures
        built(boxes@, cap as nat, ids@, node),
    decreases ids@.len(),
{
    let n = ids.len();
    let bounds = union_range(boxes, &ids, 0, n);
    assert(ids@.subrange(0, n as int) =~= ids@);
    if n <= cap {
        BVHNode::Leaf { bounds, objects: ids }
    } else {
        let (axis, order, at) = best_split(boxes, &ids);
        let left_ids = copy_range(&order, 0, at);
        let right_ids = copy_range(&order, at, n);
        assert(left_ids@ =~= order@.take(at as int));
        assert(right_ids@ =~= order@.skip(at as int));
        assert(ids_in_range(boxes@, left_ids@));
        assert(ids_in_range(boxes@, right_ids@));
        let left = build_node(boxes, left_ids, cap);
        let right = build_node(boxes, right_ids, cap);
        let node = BVHNode::Split { bounds, left: Box::new(left), right: Box::new(right) };
        assert(is_best_split(boxes@, ids@, axis as int, at as int));
        node
    }
}

impl Aabb {
    /// The box is valid on `axis`.
    fn axis_ok(&self, axis: usize) -> (r: bool)
        requires
            axis < 3,
        ensures
            r == (in_grid(coord(self.min, axis as int)) && in_grid(coord(self.max, axis as int))
                && coord(self.min, axis as int) <= coord(self.max, axis as int)),
    {
        let lo = self.min.coord(axis);
        let hi = self.max.coord(axis);
        -COORD_LIMIT <= lo && lo <= hi && hi <= COORD_LIMIT
    }

    /// Whether the box lies inside the grid with `min <= max` on every axis.
    pub fn is_valid(&self) -> (r: bool)
        ensures
            r == valid_box(*self),
    {
        let ok = self.axis_ok(0) && self.axis_ok(1) && self.axis_ok(2);
        ok
    }
}

impl BVHNode {
    /// Builds the hierarchy of all primitives of the scene, whose boxes are
    /// `boxes`, with at most `capability` primitives per leaf.
    pub fn build(boxes: &Vec<Aabb>, capability: usize) -> (r: Result<BVHNode, BuildError>)
        requires
            capability >= 1,
            valid_boxes(boxes@),
        ensures
            boxes@.len() == 0 <==> r == Err::<BVHNode, BuildError>(BuildError::EmptyScene),
            r is Ok ==> built(boxes@, capability as nat, all_ids(boxes@.len()), r->Ok_0),
            r is Ok ==> containing(boxes@, r->Ok_0),
            r is Ok ==> forall|i: usize| #![trigger items_of(r->Ok_0).to_multiset().count(i)]
                i < boxes@.len() ==> items_of(r->Ok_0).to_multiset().count(i) == 1,
    {
        let n = boxes.len();
        if n == 0 {
            return Err(BuildError::EmptyScene);
        }
        let mut ids: Vec<usize> = Vec::new();
        let mut i: usize = 0;
        while i < n
            invariant
                i <= n,
                n == boxes@.len(),
                ids@ == all_ids(i as nat),
            decreases n - i,
        {
            ids.push(i);
            i = i + 1;
            assert(ids@ =~= all_ids(i as nat));
        }
        let tree = build_node(boxes, ids, capability);
        proof {
            lemma_scene_hierarchy(boxes@, capability as nat, tree);
        }
        Ok(tree)
    }

    /// The box of this node.
    pub fn bounds(&self) -> (b: Aabb)
        ensures
            b == bounds_of(*self),
    {
        match self {
            BVHNode::Leaf { bounds, .. } => *bounds,
            BVHNode::Split { bounds, .. } => *bounds,
        }
    }
}

/// Containment is transitive.
proof fn lemma_contains_trans(a: Aabb, b: Aabb, c: Aabb)
    requires
        box_contains(a, b),
        box_contains(b, c),
    ensures
        box_contains(a, c),
{
}

/// A box holding two boxes holds their join.
proof fn lemma_join_within(outer: Aabb, a: Aabb, b: Aabb)
    requires
        box_contains(outer, a),
        box_contains(outer, b),
    ensures
        box_contains(outer, join(a, b)),
{
}

/// A box that holds the box of each of `ids` holds their tight box.
proof fn lemma_union_within(boxes: Seq<Aabb>, ids: Seq<usize>, outer: Aabb)
    requires
        ids.len() > 0,
        forall|i: int| 0 <= i < ids.len() ==> box_contains(outer, #[trigger] boxes[ids[i] as int]),
    ensures
        box_contains(outer, union_of(boxes, ids)),
    decreases ids.len(),
{
    assert(box_contains(outer, boxes[ids[0] as int]));
    if ids.len() > 1 {
        let init = ids.drop_last();
        assert forall|i: int| 0 <= i < init.len() implies box_contains(outer, #[trigger] boxes[init[i] as int]) by {
            assert(init[i] == ids[i]);
        }
        lemma_union_within(boxes, init, outer);
        assert(box_contains(outer, boxes[ids[ids.len() - 1] as int]));
        lemma_join_within(outer, union_of(boxes, init), boxes[ids.last() as int]);
    }
}

/// The two sides of a cut together are exactly the primitives that were cut.
proof fn lemma_cut_multiset(boxes: Seq<Aabb>, ids: Seq<usize>, axis: int, at: int)
    requires
        0 <= at <= ids.len(),
    ensures
        axis_order(boxes, ids, axis).take(at).to_multiset().add(
            axis_order(boxes, ids, axis).skip(at).to_multiset(),
        ) == ids.to_multiset(),
        axis_order(boxes, ids, axis).len() == ids.len(),
        forall|x: usize| #[trigger] axis_order(boxes, ids, axis).contains(x) ==> ids.contains(x),
{
    let leq = axis_leq(boxes, axis);
    lemma_axis_leq_total(boxes, axis);
    ids.lemma_sort_by_ensures(leq);
    let order = axis_order(boxes, ids, axis);
    vstd::seq_lib::to_multiset_len(order);
    vstd::seq_lib::to_multiset_len(ids);
    assert(order.take(at) + order.skip(at) =~= order);
    lemma_multiset_commutative(order.take(at), order.skip(at));
    assert forall|x: usize| #[trigger] order.contains(x) implies ids.contains(x) by {
        if !ids.contains(x) {
            assert(!order.contains(x));
        }
    }
}

/// Each primitive handed to the builder stands in the leaves as often as it
/// was handed in: the leaves partition the primitives.
pub proof fn lemma_built_items(boxes: Seq<Aabb>, cap: nat, ids: Seq<usize>, node: BVHNode)
    requires
        built(boxes, cap, ids, node),
    ensures
        items_of(node).to_multiset() == ids.to_multiset(),
    decreases node,
{
    match node {
        BVHNode::Leaf { .. } => {},
        BVHNode::Split { left, right, .. } => {
            let (axis, at) = choose|axis: int, at: int|
                #![trigger is_best_split(boxes, ids, axis, at)]
                is_best_split(boxes, ids, axis, at) && built(
                    boxes,
                    cap,
                    axis_order(boxes, ids, axis).take(at),
                    *left,
                ) && built(boxes, cap, axis_order(boxes, ids, axis).skip(at), *right);
            let order = axis_order(boxes, ids, axis);
            lemma_built_items(boxes, cap, order.take(at), *left);
            lemma_built_items(boxes, cap, order.skip(at), *right);
            lemma_cut_multiset(boxes, ids, axis, at);
            lemma_multiset_commutative(items_of(*left), items_of(*right));
        },
    }
}

/// Every box of a built hierarchy holds what lies below it.
pub proof fn lemma_built_containing(boxes: Seq<Aabb>, cap: nat, ids: Seq<usize>, node: BVHNode)
    requires
        built(boxes, cap, ids, node),
        valid_boxes(boxes),
        ids_in_range(boxes, ids),
    ensures
        containing(boxes, node),
    decreases node,
{
    lemma_union_contains(boxes, ids);
    match node {
        BVHNode::Leaf { bounds, objects } => {},
        BVHNode::Split { bounds, left, right } => {
            let (axis, at) = choose|axis: int, at: int|
                #![trigger is_best_split(boxes, ids, axis, at)]
                is_best_split(boxes, ids, axis, at) && built(
                    boxes,
                    cap,
                    axis_order(boxes, ids, axis).take(at),
                    *left,
                ) && built(boxes, cap, axis_order(boxes, ids, axis).skip(at), *right);
            let order = axis_order(boxes, ids, axis);
            lemma_cut_multiset(boxes, ids, axis, at);
            let parts = seq![order.take(at), order.skip(at)];
            assert forall|p: int| 0 <= p < 2 implies ids_in_range(boxes, #[trigger] parts[p])
                && box_contains(bounds, union_of(boxes, parts[p])) by {
                let part = parts[p];
                assert forall|i: int| 0 <= i < part.len() implies #[trigger] part[i] < boxes.len()
                    && box_contains(bounds, boxes[part[i] as int]) by {
                    let k = if p == 0 { i } else { i + at };
                    assert(part[i] == order[k]);
                    assert(order.contains(part[i]));
                    assert(ids.contains(part[i]));
                    let j = choose|j: int| 0 <= j < ids.len() && ids[j] == part[i];
                    assert(box_contains(union_of(boxes, ids), boxes[ids[j] as int]));
                }
                lemma_union_within(boxes, part, bounds);
            }
            assert(ids_in_range(boxes, parts[0]) && ids_in_range(boxes, parts[1]));
            lemma_built_containing(boxes, cap, order.take(at), *left);
            lemma_built_containing(boxes, cap, order.skip(at), *right);
        },
    }
}

/// In the hierarchy of a whole scene of `n` primitives every primitive
/// stands in exactly one leaf, and nothing else does; every box holds what
/// lies below it.
pub proof fn lemma_scene_hierarchy(boxes: Seq<Aabb>, cap: nat, node: BVHNode)
    requires
        built(boxes, cap, all_ids(boxes.len()), node),
        valid_boxes(boxes),
        boxes.len() <= usize::MAX,
    ensures
        forall|i: usize| #![trigger items_of(node).to_multiset().count(i)]
            i < boxes.len() ==> items_of(node).to_multiset().count(i) == 1,
        forall|k: int| 0 <= k < items_of(node).len() ==> #[trigger] items_of(node)[k] < boxes.len(),
        containing(boxes, node),
{
    let ids = all_ids(boxes.len());
    lemma_built_items(boxes, cap, ids, node);
    assert forall|a: int, b: int| 0 <= a < ids.len() && 0 <= b < ids.len() && a != b implies ids[a]
        != ids[b] by {
    }
    ids.lemma_multiset_has_no_duplicates();
    assert forall|i: usize| i < boxes.len() implies #[trigger] items_of(node).to_multiset().count(i) == 1 by {
        assert(ids[i as int] == i);
        assert(ids.contains(i));
    }
    vstd::seq_lib::to_multiset_len(items_of(node));
    assert forall|k: int| 0 <= k < items_of(node).len() implies #[trigger] items_of(node)[k] < boxes.len() by {
        let x = items_of(node)[k];
        assert(items_of(node).contains(x));
        assert(items_of(node).to_multiset().count(x) > 0);
        assert(ids.contains(x));
    }
    lemma_built_containing(boxes, cap, ids, node);
}

/// Every answer that `test` may give on box `b` is yes.
pub open spec fn surely_passes<F: Fn(Aabb) -> bool>(test: F, b: Aabb) -> bool {
    forall|r: bool| call_ensures(test, (b,), r) ==> r
}

/// Primitive `p` stands in a leaf that is reached by descending from `node`
/// through boxes that all surely pass `test`.
pub open spec fn reached<F: Fn(Aabb) -> bool>(node: BVHNode, test: F, p: usize) -> bool
    decreases node,
{
    surely_passes(test, bounds_of(node)) && match node {
        BVHNode::Leaf { objects, .. } => objects@.contains(p),
        BVHNode::Split { left, right, .. } => reached(*left, test, p) || reached(
            *right,
            test,
            p,
        ),
    }
}

impl BVHNode {
    /// The primitives of the leaves reached by descending through the boxes
    /// that pass `test`, leaf by leaf from left to right. A box that fails
    /// the test cuts off everything below it.
    pub fn candidates<F: Fn(Aabb) -> bool>(&self, test: &F) -> (r: Vec<usize>)
        requires
            forall|b: Aabb| call_requires(*test, (b,)),
        ensures
            forall|k: int| 0 <= k < r@.len() ==> items_of(*self).contains(#[trigger] r@[k]),
            forall|p: usize| reached(*self, *test, p) ==> r@.contains(p),
        decreases *self,
    {
        match self {
            BVHNode::Leaf { bounds, objects } => {
                if test(*bounds) {
                    let out = copy_range(objects, 0, objects.len());
                    assert(objects@.subrange(0, objects@.len() as int) =~= objects@);
                    out
                } else {
                    Vec::new()
                }
            },
            BVHNode::Split { bounds, left, right } => {
                if test(*bounds) {
                    let mut out = left.candidates(test);
                    let mut rest = right.candidates(test);
                    let ghost l = out@;
                    let ghost rr = rest@;
                    out.append(&mut rest);
                    proof {
                        assert(out@ == l + rr);
                        assert forall|k: int| 0 <= k < out@.len() implies items_of(*self).contains(
                            #[trigger] out@[k],
                        ) by {
                            if k < l.len() {
                                assert(out@[k] == l[k]);
                                let j = choose|j: int| 0 <= j < items_of(**left).len() && items_of(**left)[j] == l[k];
                                assert(items_of(*self)[j] == l[k]);
                            } else {
                                assert(out@[k] == rr[k - l.len()]);
                                let j = choose|j: int| 0 <= j < items_of(**right).len() && items_of(**right)[j] == rr[k - l.len()];
                                assert(items_of(*self)[items_of(**left).len() + j] == rr[k - l.len()]);
                            }
                        }
                        assert forall|p: usize| reached(*self, *test, p) implies out@.contains(p) by {
                            if reached(**left, *test, p) {
                                assert(l.contains(p));
                                let j = choose|j: int| 0 <= j < l.len() && l[j] == p;
                                assert(out@[j] == p);
                            } else {
                                assert(rr.contains(p));
                                let j = choose|j: int| 0 <= j < rr.len() && rr[j] == p;
                                assert(out@[l.len() + j] == p);
                            }
                        }
                    }
                    out
                } else {
                    Vec::new()
                }
            },
        }
    }
}

/// In a hierarchy whose boxes hold what lies below them, a node's box holds
/// the box of each of its primitives.
proof fn lemma_node_holds_items(boxes: Seq<Aabb>, node: BVHNode)
    requires
        containing(boxes, node),
    ensures
        forall|k: int| 0 <= k < items_of(node).len() ==> box_contains(bounds_of(node), #[trigger] boxes[items_of(node)[k] as int]),
    decreases node,
{
    match node {
        BVHNode::Leaf { .. } => {},
        BVHNode::Split { bounds, left, right } => {
            lemma_node_holds_items(boxes, *left);
            lemma_node_holds_items(boxes, *right);
            let l = items_of(*left);
            assert forall|k: int| 0 <= k < items_of(node).len() implies box_contains(bounds, #[trigger] boxes[items_of(node)[k] as int]) by {
                if k < l.len() {
                    assert(items_of(node)[k] == l[k]);
                    lemma_contains_trans(bounds, bounds_of(*left), boxes[l[k] as int]);
                } else {
                    assert(items_of(node)[k] == items_of(*right)[k - l.len()]);
                    lemma_contains_trans(bounds, bounds_of(*right), boxes[items_of(*right)[k - l.len()] as int]);
                }
            }
        },
    }
}

/// A primitive of the hierarchy is reached by every test that surely passes
/// each box holding the primitive's box: a query that cuts off only boxes
/// which the ray misses loses no primitive that the ray can hit.
pub proof fn lemma_candidates_complete<F: Fn(Aabb) -> bool>(boxes: Seq<Aabb>, node: BVHNode, test: F, p: usize)
    requires
        containing(boxes, node),
        items_of(node).contains(p),
        forall|b: Aabb| box_contains(b, boxes[p as int]) ==> #[trigger] surely_passes(test, b),
    ensures
        reached(node, test, p),
    decreases node,
{
    lemma_node_holds_items(boxes, node);
    let k = choose|k: int| 0 <= k < items_of(node).len() && items_of(node)[k] == p;
    assert(box_contains(bounds_of(node), boxes[items_of(node)[k] as int]));
    assert(surely_passes(test, bounds_of(node)));
    match node {
        BVHNode::Leaf { .. } => {},
        BVHNode::Split { left, right, .. } => {
            let l = items_of(*left);
            if k < l.len() {
                assert(l[k] == p);
                lemma_candidates_complete(boxes, *left, test, p);
            } else {
                assert(items_of(*right)[k - l.len()] == p);
                lemma_candidates_complete(boxes, *right, test, p);
            }
        },
    }
}

} // verus!
