//! The bounding-volume hierarchy: a binary tree of boxes over the members of
//! a flat collection, built once and queried per ray.
use vstd::prelude::*;
use crate::aabb::{AABB, surrounding, lemma_surrounding_symmetric_enclosing, lemma_encloses_trans,
    lemma_inside_enclosed, lemma_inside_point_hits};
use crate::hittable::{HitRecord, Hittable, nearest};
use crate::ray::{Ratio, Interval, Ray, ratio_lt, ratio_eq, lemma_lt_le_trans};

verus! {

/// A node of the hierarchy. A leaf names a member by its index in the
/// collection; a branch caches the box around both of its children.
#[derive(Debug)]
pub enum BvhNode {
    Leaf(usize),
    Branch { bbox: AABB, left: Box<BvhNode>, right: Box<BvhNode> },
}

/// Member `i` lies under `node`.
pub open spec fn holds(node: BvhNode, i: int) -> bool
    decreases node,
{
    match node {
        BvhNode::Leaf(j) => j == i,
        BvhNode::Branch { left, right, .. } => holds(*left, i) || holds(*right, i),
    }
}

/// The box of a node: the member's own box for a leaf, the cached one for a
/// branch.
pub open spec fn box_of(node: BvhNode, boxes: Seq<AABB>) -> AABB {
    match node {
        BvhNode::Leaf(j) => boxes[j as int],
        BvhNode::Branch { bbox, .. } => bbox,
    }
}

/// Leaves name existing members, and each branch caches the surrounding box
/// of its two children.
pub open spec fn node_wf(node: BvhNode, boxes: Seq<AABB>) -> bool
    decreases node,
{
    match node {
        BvhNode::Leaf(j) => j < boxes.len(),
        BvhNode::Branch { bbox, left, right } => {
            &&& bbox == surrounding(box_of(*left, boxes), box_of(*right, boxes))
            &&& node_wf(*left, boxes)
            &&& node_wf(*right, boxes)
        },
    }
}

/// The number of leaves under a node.
pub open spec fn leaf_count(node: BvhNode) -> nat
    decreases node,
{
    match node {
        BvhNode::Leaf(_) => 1,
        BvhNode::Branch { left, right, .. } => leaf_count(*left) + leaf_count(*right),
    }
}

/// The number of branches under a node, itself included.
pub open spec fn branch_count(node: BvhNode) -> nat
    decreases node,
{
    match node {
        BvhNode::Leaf(_) => 0,
        BvhNode::Branch { left, right, .. } => 1 + branch_count(*left) + branch_count(*right),
    }
}

/// Every member under a well-formed node has its box inside the node's box.
pub proof fn lemma_node_encloses(node: BvhNode, boxes: Seq<AABB>, i: int)
    requires
        node_wf(node, boxes),
        holds(node, i),
    ensures
        0 <= i < boxes.len(),
        box_of(node, boxes).encloses(boxes[i]),
    decreases node,
{
    match node {
        BvhNode::Leaf(j) => {
            lemma_surrounding_symmetric_enclosing(boxes[i], boxes[i]);
        },
        BvhNode::Branch { bbox, left, right } => {
            lemma_surrounding_symmetric_enclosing(box_of(*left, boxes), box_of(*right, boxes));
            if holds(*left, i) {
                lemma_node_encloses(*left, boxes, i);
                lemma_encloses_trans(bbox, box_of(*left, boxes), boxes[i]);
            } else {
                lemma_node_encloses(*right, boxes, i);
                lemma_encloses_trans(bbox, box_of(*right, boxes), boxes[i]);
            }
        },
    }
}

/// Member `i` is named somewhere in `idx`.
pub open spec fn listed(idx: Seq<usize>, i: int) -> bool {
    exists|k: int| 0 <= k < idx.len() && idx[k] as int == i
}

/// `idx` is ordered by the minimum of the members' boxes along `axis`.
pub open spec fn sorted_on(idx: Seq<usize>, boxes: Seq<AABB>, axis: int) -> bool {
    forall|a: int, b: int|
        #![trigger idx[a], idx[b]]
        0 <= a < b < idx.len() ==> boxes[idx[a] as int].min.at(axis) <= boxes[idx[b] as int].min.at(
            axis,
        )
}

fn node_box(node: &BvhNode, boxes: &Vec<AABB>) -> (r: AABB)
    requires
        node_wf(*node, boxes@),
    ensures
        r == box_of(*node, boxes@),
{
    match node {
        BvhNode::Leaf(j) => boxes[*j],
        BvhNode::Branch { bbox, .. } => *bbox,
    }
}

/// The members of `idx` in order of the minimum of their boxes along `axis`.
fn sort_by_min(boxes: &Vec<AABB>, idx: &Vec<usize>, axis: usize) -> (r: Vec<usize>)
    requires
        axis < 3,
        forall|k: int| 0 <= k < idx.len() ==> #[trigger] idx@[k] < boxes.len(),
    ensures
        r.len() == idx.len(),
        forall|k: int| 0 <= k < r.len() ==> #[trigger] r@[k] < boxes.len(),
        forall|i: int| listed(r@, i) <==> listed(idx@, i),
        sorted_on(r@, boxes@, axis as int),
{
    let mut out: Vec<usize> = Vec::new();
    let mut k: usize = 0;
    while k < idx.len()
        invariant
            axis < 3,
            k <= idx.len(),
            out.len() == k,
            forall|q: int| 0 <= q < idx.len() ==> #[trigger] idx@[q] < boxes.len(),
            forall|q: int| 0 <= q < out.len() ==> #[trigger] out@[q] < boxes.len(),
            forall|i: int| listed(out@, i) <==> listed(idx@.subrange(0, k as int), i),
            sorted_on(out@, boxes@, axis as int),
        decreases idx.len() - k,
    {
        let x = idx[k];
        let kx = boxes[x].min.get(axis);
        let mut p: usize = 0;
        while p < out.len() && boxes[out[p]].min.get(axis) <= kx
            invariant
                axis < 3,
                p <= out.len(),
                x < boxes.len(),
                kx == boxes@[x as int].min.at(axis as int),
                forall|q: int| 0 <= q < out.len() ==> #[trigger] out@[q] < boxes.len(),
                forall|q: int|
                    0 <= q < p ==> #[trigger] boxes@[out@[q] as int].min.at(axis as int) <= kx,
            decreases out.len() - p,
        {
            p = p + 1;
        }
        let ghost before = out@;
        out.insert(p, x);
        proof {
            before.insert_ensures(p as int, x);
            let pre = idx@.subrange(0, k as int);
            let pre1 = idx@.subrange(0, k as int + 1);
            assert forall|i: int| listed(out@, i) <==> listed(pre1, i) by {
                if listed(out@, i) {
                    let q = choose|q: int| 0 <= q < out@.len() && out@[q] as int == i;
                    if q < p {
                        assert(before[q] as int == i);
                        assert(listed(before, i));
                    } else if q == p {
                        assert(pre1[k as int] as int == i);
                    } else {
                        assert(before[q - 1] as int == i);
                        assert(listed(before, i));
                    }
                    if q != p {
                        assert(listed(pre, i));
                        let w = choose|w: int| 0 <= w < pre.len() && pre[w] as int == i;
                        assert(pre1[w] as int == i);
                    }
                }
                if listed(pre1, i) {
                    let w = choose|w: int| 0 <= w < pre1.len() && pre1[w] as int == i;
                    if w == k {
                        assert(out@[p as int] as int == i);
                    } else {
                        assert(pre[w] as int == i);
                        assert(listed(pre, i));
                        assert(listed(before, i));
                        let q = choose|q: int| 0 <= q < before.len() && before[q] as int == i;
                        if q < p {
                            assert(out@[q] as int == i);
                        } else {
                            assert(out@[q + 1] as int == i);
                        }
                    }
                }
            }
            assert forall|a: int, b: int|
                #![trigger out@[a], out@[b]]
                0 <= a < b < out@.len() implies boxes@[out@[a] as int].min.at(axis as int)
                <= boxes@[out@[b] as int].min.at(axis as int) by {
                if b < p {
                    assert(out@[a] == before[a] && out@[b] == before[b]);
                } else if b == p {
                    assert(out@[a] == before[a]);
                } else if a < p {
                    assert(out@[a] == before[a] && out@[b] == before[b - 1]);
                    assert(boxes@[before[p as int] as int].min.at(axis as int) > kx);
                    if b - 1 > p {
                        assert(before[p as int] == before[p as int] && before[b - 1] == before[b
                            - 1]);
                    }
                } else if a == p {
                    assert(out@[b] == before[b - 1]);
                    assert(boxes@[before[p as int] as int].min.at(axis as int) > kx);
                    if b - 1 > p {
                        assert(before[p as int] == before[p as int] && before[b - 1] == before[b
                            - 1]);
                    }
                } else {
                    assert(out@[a] == before[a - 1] && out@[b] == before[b - 1]);
                }
            }
        }
        k = k + 1;
    }
    assert(idx@.subrange(0, idx.len() as int) == idx@);
    out
}

/// A hierarchy over the members of a flat collection.
pub struct Bvh<H: Hittable> {
    objects: Vec<H>,
    boxes: Vec<AABB>,
    root: BvhNode,
}

/// The axis along which the boxes of `idx` spread furthest.
fn longest_axis(boxes: &Vec<AABB>, idx: &Vec<usize>) -> (r: usize)
    requires
        idx.len() > 0,
        forall|k: int| 0 <= k < idx.len() ==> #[trigger] idx@[k] < boxes.len(),
    ensures
        r < 3,
{
    let mut total = boxes[idx[0]];
    let mut k: usize = 1;
    while k < idx.len()
        invariant
            forall|q: int| 0 <= q < idx.len() ==> #[trigger] idx@[q] < boxes.len(),
        decreases idx.len() - k,
    {
        total = AABB::surrounding_box(total, boxes[idx[k]]);
        k = k + 1;
    }
    let ex = total.max.x as i64 - total.min.x as i64;
    let ey = total.max.y as i64 - total.min.y as i64;
    let ez = total.max.z as i64 - total.min.z as i64;
    if ex >= ey && ex >= ez {
        0
    } else if ey >= ez {
        1
    } else {
        2
    }
}

/// Builds the subtree over the members named in `idx`: one member is a
/// leaf; more are sorted along the longest axis of their boxes and split at
/// the middle.
fn build(boxes: &Vec<AABB>, idx: Vec<usize>) -> (r: BvhNode)
    requires
        idx.len() > 0,
        forall|k: int| 0 <= k < idx.len() ==> #[trigger] idx@[k] < boxes.len(),
    ensures
        node_wf(r, boxes@),
        forall|i: int| holds(r, i) <==> listed(idx@, i),
        leaf_count(r) == idx.len(),
        branch_count(r) + 1 == idx.len(),
    decreases idx.len(),
{
    if idx.len() == 1 {
        let node = BvhNode::Leaf(idx[0]);
        proof {
            assert forall|i: int| holds(node, i) <==> listed(idx@, i) by {
                if holds(node, i) {
                    assert(idx@[0] as int == i);
                }
            }
        }
        return node;
    }
    let axis = longest_axis(boxes, &idx);
    let sorted = sort_by_min(boxes, &idx, axis);
    let mid = sorted.len() / 2;
    let mut left_idx: Vec<usize> = Vec::new();
    let mut right_idx: Vec<usize> = Vec::new();
    let mut k: usize = 0;
    while k < sorted.len()
        invariant
            k <= sorted.len(),
            mid == sorted.len() / 2,
            k <= mid ==> left_idx@ == sorted@.subrange(0, k as int) && right_idx@.len() == 0,
            k > mid ==> left_idx@ == sorted@.subrange(0, mid as int) && right_idx@
                == sorted@.subrange(mid as int, k as int),
        decreases sorted.len() - k,
    {
        if k < mid {
            left_idx.push(sorted[k]);
        } else {
            right_idx.push(sorted[k]);
        }
        k = k + 1;
    }
    proof {
        assert forall|i: int| listed(sorted@, i) <==> listed(left_idx@, i) || listed(right_idx@, i) by {
            if listed(sorted@, i) {
                let w = choose|w: int| 0 <= w < sorted@.len() && sorted@[w] as int == i;
                if w < mid {
                    assert(left_idx@[w] as int == i);
                } else {
                    assert(right_idx@[w - mid] as int == i);
                }
            }
            if listed(left_idx@, i) {
                let w = choose|w: int| 0 <= w < left_idx@.len() && left_idx@[w] as int == i;
                assert(sorted@[w] as int == i);
            }
            if listed(right_idx@, i) {
                let w = choose|w: int| 0 <= w < right_idx@.len() && right_idx@[w] as int == i;
                assert(sorted@[w + mid] as int == i);
            }
        }
    }
    let left = build(boxes, left_idx);
    let right = build(boxes, right_idx);
    let bbox = AABB::surrounding_box(node_box(&left, boxes), node_box(&right, boxes));
    let node = BvhNode::Branch { bbox, left: Box::new(left), right: Box::new(right) };
    proof {
        assert forall|i: int| holds(node, i) <==> listed(idx@, i) by {
            assert(holds(node, i) == (holds(left, i) || holds(right, i)));
        }
    }
    node
}

impl<H: Hittable> Bvh<H> {
    /// Every member has the box recorded for it and lies under the root,
    /// and the root is well formed.
    #[verifier::type_invariant]
    pub closed spec fn wf(self) -> bool {
        &&& self.objects.len() == self.boxes.len()
        &&& forall|i: int|
            0 <= i < self.objects.len() ==> #[trigger] self.objects@[i].bounds() == Some(
                self.boxes@[i],
            )
        &&& node_wf(self.root, self.boxes@)
        &&& forall|i: int| 0 <= i < self.objects.len() ==> #[trigger] holds(self.root, i)
    }

    /// The members, in the order of the collection the hierarchy was built
    /// from.
    pub closed spec fn members(self) -> Seq<H> {
        self.objects@
    }

    pub closed spec fn root_view(self) -> BvhNode {
        self.root
    }

    /// The box around member `i`.
    pub closed spec fn member_box(self, i: int) -> AABB {
        self.boxes@[i]
    }

    /// Builds the hierarchy over a non-empty collection; none when a member
    /// has no bounding box.
    pub fn new(objects: Vec<H>) -> (r: Option<Bvh<H>>)
        requires
            objects.len() > 0,
        ensures
            r is Some <==> forall|i: int|
                0 <= i < objects.len() ==> (#[trigger] objects@[i].bounds()) is Some,
            r is Some ==> r->Some_0.members() == objects@,
            r is Some ==> leaf_count(r->Some_0.root_view()) == objects.len(),
            r is Some ==> branch_count(r->Some_0.root_view()) + 1 == objects.len(),
            r is Some ==> forall|i: int|
                0 <= i < objects.len() ==> Some(r->Some_0.member_box(i))
                    == #[trigger] objects@[i].bounds(),
    {
        let mut boxes: Vec<AABB> = Vec::new();
        let mut idx: Vec<usize> = Vec::new();
        let mut i: usize = 0;
        while i < objects.len()
            invariant
                i <= objects.len(),
                boxes.len() == i,
                idx.len() == i,
                forall|q: int| 0 <= q < i ==> #[trigger] objects@[q].bounds() == Some(boxes@[q]),
                forall|q: int| 0 <= q < i ==> #[trigger] idx@[q] == q,
            decreases objects.len() - i,
        {
            match objects[i].bounding_box() {
                Some(b) => {
                    boxes.push(b);
                    idx.push(i);
                },
                None => {
                    return None;
                },
            }
            i = i + 1;
        }
        let root = build(&boxes, idx);
        proof {
            assert forall|q: int| 0 <= q < objects.len() implies #[trigger] holds(root, q) by {
                assert(idx@[q] as int == q);
            }
        }
        Some(Bvh { objects, boxes, root })
    }

    pub fn root(&self) -> (r: &BvhNode)
        ensures
            *r == self.root_view(),
    {
        &self.root
    }

    pub fn objects(&self) -> (r: &Vec<H>)
        ensures
            r@ == self.members(),
    {
        &self.objects
    }

    /// The nearest hit among the members under `node`.
    fn hit_node(&self, node: &BvhNode, ray: &Ray, interval: &Interval) -> (r: Option<
        HitRecord<H::Material>,
    >)
        requires
            self.wf(),
            interval.wf(),
            node_wf(*node, self.boxes@),
        ensures
            match r {
                None => forall|i: int, t: Ratio|
                    holds(*node, i) && t.wf() && interval.contains(t)
                        ==> !#[trigger] self.objects@[i].hits_at(*ray, t),
                Some(rec) => {
                    &&& rec.t.wf()
                    &&& interval.contains(rec.t)
                    &&& exists|i: int|
                        holds(*node, i) && 0 <= i < self.objects.len()
                            && #[trigger] self.objects@[i].hits_at(*ray, rec.t)
                    &&& forall|i: int, t: Ratio|
                        holds(*node, i) && t.wf() && interval.contains(t) && ratio_lt(t, rec.t)
                            ==> !#[trigger] self.objects@[i].hits_at(*ray, t)
                },
            },
        decreases node,
    {
        match node {
            BvhNode::Leaf(j) => {
                proof {
                    lemma_node_encloses(*node, self.boxes@, *j as int);
                }
                let r = self.objects[*j].hit(ray, interval);
                proof {
                    if r is Some {
                        assert(holds(*node, *j as int));
                    }
                }
                r
            },
            BvhNode::Branch { bbox, left, right } => {
                if !bbox.hit(ray, interval) {
                    proof {
                        assert forall|i: int, t: Ratio|
                            holds(*node, i) && t.wf() && interval.contains(t)
                                implies !#[trigger] self.objects@[i].hits_at(*ray, t) by {
                            if self.objects@[i].hits_at(*ray, t) {
                                lemma_node_encloses(*node, self.boxes@, i);
                                self.objects@[i].lemma_hit_inside_bounds(*ray, t);
                                lemma_inside_enclosed(*bbox, self.boxes@[i], *ray, t);
                                lemma_inside_point_hits(*bbox, *ray, *interval, t);
                            }
                        }
                    }
                    return None;
                }
                let hit_left = self.hit_node(left, ray, interval);
                match hit_left {
                    Some(lrec) => {
                        let narrowed = Interval::new(interval.start, Some(lrec.t));
                        let hit_right = self.hit_node(right, ray, &narrowed);
                        match hit_right {
                            Some(rrec) => {
                                proof {
                                    let lt = lrec.t;
                                    let rt = rrec.t;
                                    match interval.end {
                                        Some(e) => {
                                            lemma_lt_le_trans(rt, lt, e);
                                        },
                                        None => {},
                                    }
                                    assert forall|i: int, t: Ratio|
                                        holds(*node, i) && t.wf() && interval.contains(t)
                                            && ratio_lt(t, rt) implies !#[trigger] self.objects@[
                                        i
                                    ].hits_at(*ray, t) by {
                                        lemma_lt_le_trans(t, rt, lt);
                                        if holds(**right, i) {
                                            assert(narrowed.contains(t));
                                        }
                                    }
                                    let w = choose|w: int|
                                        holds(**right, w) && 0 <= w < self.objects.len()
                                            && #[trigger] self.objects@[w].hits_at(*ray, rt);
                                    assert(holds(*node, w));
                                }
                                Some(rrec)
                            },
                            None => {
                                proof {
                                    let lt = lrec.t;
                                    assert forall|i: int, t: Ratio|
                                        holds(*node, i) && t.wf() && interval.contains(t)
                                            && ratio_lt(t, lt) implies !#[trigger] self.objects@[
                                        i
                                    ].hits_at(*ray, t) by {
                                        if holds(**right, i) {
                                            assert(narrowed.contains(t));
                                        }
                                    }
                                    let w = choose|w: int|
                                        holds(**left, w) && 0 <= w < self.objects.len()
                                            && #[trigger] self.objects@[w].hits_at(*ray, lt);
                                    assert(holds(*node, w));
                                }
                                Some(lrec)
                            },
                        }
                    },
                    None => {
                        let hit_right = self.hit_node(right, ray, interval);
                        proof {
                            if hit_right is Some {
                                let rt = hit_right->Some_0.t;
                                let w = choose|w: int|
                                    holds(**right, w) && 0 <= w < self.objects.len()
                                        && #[trigger] self.objects@[w].hits_at(*ray, rt);
                                assert(holds(*node, w));
                            }
                        }
                        hit_right
                    },
                }
            },
        }
    }
}

/// The hierarchy is met wherever one of its members is met.
impl<H: Hittable> Hittable for Bvh<H> {
    type Material = H::Material;

    closed spec fn hits_at(&self, ray: Ray, t: Ratio) -> bool {
        exists|i: int| 0 <= i < self.objects.len() && #[trigger] self.objects@[i].hits_at(ray, t)
    }

    /// The root's box.
    closed spec fn bounds(&self) -> Option<AABB> {
        if self.wf() {
            Some(box_of(self.root, self.boxes@))
        } else {
            None
        }
    }

    proof fn lemma_hit_inside_bounds(&self, ray: Ray, t: Ratio) {
        if self.wf() {
            let i = choose|i: int|
                0 <= i < self.objects.len() && #[trigger] self.objects@[i].hits_at(ray, t);
            lemma_node_encloses(self.root, self.boxes@, i);
            self.objects@[i].lemma_hit_inside_bounds(ray, t);
            lemma_inside_enclosed(box_of(self.root, self.boxes@), self.boxes@[i], ray, t);
        }
    }

    /// Tests a branch's box before its children, and searches the right
    /// child only up to the left child's hit.
    fn hit(&self, ray: &Ray, interval: &Interval) -> (r: Option<HitRecord<H::Material>>) {
        proof {
            use_type_invariant(self);
        }
        let r = self.hit_node(&self.root, ray, interval);
        proof {
            if r is Some {
                let rt = r->Some_0.t;
                let w = choose|w: int|
                    holds(self.root, w) && 0 <= w < self.objects.len()
                        && #[trigger] self.objects@[w].hits_at(*ray, rt);
                assert(self.hits_at(*ray, rt));
            }
        }
        r
    }

    fn bounding_box(&self) -> (r: Option<AABB>) {
        proof {
            use_type_invariant(self);
        }
        Some(node_box(&self.root, &self.boxes))
    }
}

/// Querying the hierarchy and scanning the collection it was built from give
/// the same answer: both miss, or both hit at the same parameter.
pub proof fn lemma_bvh_agrees_with_flat<H: Hittable>(
    bvh: Bvh<H>,
    flat: Vec<H>,
    ray: Ray,
    iv: Interval,
    from_bvh: Option<HitRecord<H::Material>>,
    from_flat: Option<HitRecord<H::Material>>,
)
    requires
        flat@ == bvh.members(),
        iv.wf(),
        nearest(&bvh, ray, iv, from_bvh),
        nearest(&flat, ray, iv, from_flat),
    ensures
        from_bvh is Some <==> from_flat is Some,
        from_bvh is Some ==> ratio_eq(from_bvh->Some_0.t, from_flat->Some_0.t),
{
    assert forall|t: Ratio| bvh.hits_at(ray, t) == flat.hits_at(ray, t) by {
        if bvh.hits_at(ray, t) {
            let i = choose|i: int|
                0 <= i < bvh.objects.len() && #[trigger] bvh.objects@[i].hits_at(ray, t);
            assert(flat@[i].hits_at(ray, t));
        }
        if flat.hits_at(ray, t) {
            let i = choose|i: int| 0 <= i < flat.len() && #[trigger] flat@[i].hits_at(ray, t);
            assert(bvh.objects@[i].hits_at(ray, t));
        }
    }
    if from_bvh is Some {
        assert(flat.hits_at(ray, from_bvh->Some_0.t));
    }
    if from_flat is Some {
        assert(bvh.hits_at(ray, from_flat->Some_0.t));
    }
}

} // verus!
