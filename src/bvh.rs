//! Bounding volume hierarchy over the bounding boxes of a scene's primitives.
//!
//! The tree lives in an arena: a node refers to its children by index, a
//! child node always stands before its parent, and the root is the last node.
use crate::aabb::{
    lemma_holds_reflexive, lemma_holds_transitive, lemma_surrounding_axis, lemma_surrounding_holds,
    AABB,
};
use rand::Rng;
use vstd::arithmetic::power2::{lemma2_to64, lemma_pow2_unfold, pow2};
use vstd::prelude::*;

verus! {

broadcast use vstd::seq_lib::group_to_multiset_ensures;

/// Relies on rand's `thread_rng` and `Rng::gen_range`: a value drawn from
/// `0..3` (the range is not empty, so the call does not panic).
#[verifier::external_body]
fn random_axis() -> (r: usize)
    ensures
        r < 3,
{
    rand::thread_rng().gen_range(0..3)
}

/// The key of the lowest corner of primitive `p`'s box along `axis`.
pub open spec fn min_on(boxes: Seq<AABB>, axis: int, p: usize) -> i64 {
    boxes[p as int].min.axis(axis)
}

/// `order` lists primitives by the lowest corner of their boxes along `axis`.
pub open spec fn sorted_on(boxes: Seq<AABB>, axis: int, order: Seq<usize>) -> bool {
    forall|i: int, j: int|
        0 <= i < j < order.len() ==> min_on(boxes, axis, order[i]) <= min_on(
            boxes,
            axis,
            order[j],
        )
}

/// Sorts the primitive indices in `order` by the lowest corner of their boxes
/// along `axis`, keeping the indices themselves.
pub fn sort_by_axis(boxes: &Vec<AABB>, order: Vec<usize>, axis: usize) -> (r: Vec<usize>)
    requires
        axis < 3,
        forall|k: int| 0 <= k < order.len() ==> order[k] < boxes.len(),
    ensures
        r@.to_multiset() == order@.to_multiset(),
        r@.len() == order@.len(),
        sorted_on(boxes@, axis as int, r@),
{
    let mut r: Vec<usize> = Vec::new();
    let mut i: usize = 0;
    while i < order.len()
        invariant
            axis < 3,
            0 <= i <= order.len(),
            forall|k: int| 0 <= k < order.len() ==> order[k] < boxes.len(),
            r@.to_multiset() == order@.subrange(0, i as int).to_multiset(),
            r@.len() == i,
            forall|k: int| 0 <= k < r.len() ==> r[k] < boxes.len(),
            sorted_on(boxes@, axis as int, r@),
        decreases order.len() - i,
    {
        let p = order[i];
        let key = boxes[p].min.get(axis);
        // the first place whose key is above that of p
        let mut pos: usize = 0;
        while pos < r.len() && boxes[r[pos]].min.get(axis) <= key
            invariant
                axis < 3,
                0 <= pos <= r.len(),
                p < boxes.len(),
                key == min_on(boxes@, axis as int, p),
                forall|k: int| 0 <= k < r.len() ==> r[k] < boxes.len(),
                forall|k: int| 0 <= k < pos ==> min_on(boxes@, axis as int, r[k]) <= key,
            decreases r.len() - pos,
        {
            pos = pos + 1;
        }
        proof {
            assert(pos < r.len() ==> key < min_on(boxes@, axis as int, r[pos as int]));
        }
        let ghost old_r = r@;
        r.insert(pos, p);
        proof {
            vstd::seq_lib::to_multiset_insert(old_r, pos as int, p);
            assert(order@.subrange(0, i + 1) == order@.subrange(0, i as int).push(p));
            assert forall|a: int, b: int| 0 <= a < b < r.len() implies min_on(
                boxes@,
                axis as int,
                r@[a],
            ) <= min_on(boxes@, axis as int, r@[b]) by {
                if a < pos && pos < b {
                    // p sits between them: a's key is at most p's, b's above it
                    assert(min_on(boxes@, axis as int, old_r[pos as int]) > key);
                }
            }
        }
        i = i + 1;
    }
    proof {
        assert(order@.subrange(0, order.len() as int) == order@);
    }
    r
}

/// A child of a node: a primitive, by its index in the list the tree was
/// built from, or another node, by its index in the arena.
#[derive(Clone, Copy, Debug, PartialEq, Eq, Structural)]
pub enum Child {
    Primitive(usize),
    Node(usize),
}

/// A node of the tree: one or two children and the box that holds them.
#[derive(Clone, Copy, Debug)]
pub struct BvhNode {
    pub left: Child,
    pub right: Option<Child>,
    pub bounding_box: AABB,
}

/// Why a hierarchy could not be built.
#[derive(Clone, Copy, Debug, PartialEq, Eq, Structural)]
pub enum BvhError {
    /// There were no primitives to build it from.
    Empty,
}

/// The box of a child.
pub open spec fn child_box(nodes: Seq<BvhNode>, boxes: Seq<AABB>, c: Child) -> AABB {
    match c {
        Child::Primitive(p) => boxes[p as int],
        Child::Node(j) => nodes[j as int].bounding_box,
    }
}

/// Child `c` of node `i` refers to a primitive that exists or to a node
/// before `i`.
pub open spec fn child_ok(boxes: Seq<AABB>, i: int, c: Child) -> bool {
    match c {
        Child::Primitive(p) => p < boxes.len(),
        Child::Node(j) => j < i,
    }
}

/// The box of node `i` is that of its only child, or the surrounding box of
/// its two children.
pub open spec fn node_box(nodes: Seq<BvhNode>, boxes: Seq<AABB>, i: int) -> AABB {
    match nodes[i].right {
        None => child_box(nodes, boxes, nodes[i].left),
        Some(c) => AABB::surrounding_spec(
            child_box(nodes, boxes, nodes[i].left),
            child_box(nodes, boxes, c),
        ),
    }
}

/// Node `i` refers to children that exist, and its box is theirs.
pub open spec fn node_ok(nodes: Seq<BvhNode>, boxes: Seq<AABB>, i: int) -> bool {
    &&& child_ok(boxes, i, nodes[i].left)
    &&& (nodes[i].right matches Some(c) ==> child_ok(boxes, i, c))
    &&& nodes[i].bounding_box == node_box(nodes, boxes, i)
}

/// Every node is well-formed.
pub open spec fn nodes_ok(nodes: Seq<BvhNode>, boxes: Seq<AABB>) -> bool {
    forall|i: int| 0 <= i < nodes.len() ==> #[trigger] node_ok(nodes, boxes, i)
}

/// Primitive `p` lies in the subtree of node `i`.
pub open spec fn covers(nodes: Seq<BvhNode>, i: int, p: usize) -> bool
    decreases i,
{
    if 0 <= i < nodes.len() {
        let in_left = match nodes[i].left {
            Child::Primitive(q) => q == p,
            Child::Node(j) => 0 <= j < i && covers(nodes, j as int, p),
        };
        let in_right = match nodes[i].right {
            Some(Child::Primitive(q)) => q == p,
            Some(Child::Node(j)) => 0 <= j < i && covers(nodes, j as int, p),
            None => false,
        };
        in_left || in_right
    } else {
        false
    }
}

/// Nodes added after node `i` change nothing below it.
proof fn lemma_covers_prefix(nodes: Seq<BvhNode>, more: Seq<BvhNode>, i: int, p: usize)
    requires
        0 <= i < nodes.len(),
        nodes.len() <= more.len(),
        forall|k: int| 0 <= k < nodes.len() ==> more[k] == nodes[k],
    ensures
        covers(more, i, p) == covers(nodes, i, p),
    decreases i,
{
    match nodes[i].left {
        Child::Node(j) => {
            if 0 <= j < i {
                lemma_covers_prefix(nodes, more, j as int, p);
            }
        },
        _ => {},
    }
    match nodes[i].right {
        Some(Child::Node(j)) => {
            if 0 <= j < i {
                lemma_covers_prefix(nodes, more, j as int, p);
            }
        },
        _ => {},
    }
}

/// Nodes added after the well-formed ones leave those well-formed.
proof fn lemma_nodes_ok_prefix(nodes: Seq<BvhNode>, more: Seq<BvhNode>, boxes: Seq<AABB>, i: int)
    requires
        0 <= i < nodes.len(),
        nodes.len() <= more.len(),
        forall|k: int| 0 <= k < nodes.len() ==> more[k] == nodes[k],
        node_ok(nodes, boxes, i),
    ensures
        node_ok(more, boxes, i),
{
    assert(more[i] == nodes[i]);
    match nodes[i].left {
        Child::Node(j) => {
            assert(more[j as int] == nodes[j as int]);
        },
        _ => {},
    }
    match nodes[i].right {
        Some(Child::Node(j)) => {
            assert(more[j as int] == nodes[j as int]);
        },
        _ => {},
    }
}

/// The box of a node holds the box of every primitive under it, and every
/// primitive under it exists.
pub proof fn lemma_covered_box(nodes: Seq<BvhNode>, boxes: Seq<AABB>, i: int, p: usize)
    requires
        nodes_ok(nodes, boxes),
        covers(nodes, i, p),
    ensures
        p < boxes.len(),
        nodes[i].bounding_box.holds(boxes[p as int]),
    decreases i,
{
    assert(node_ok(nodes, boxes, i));
    let l = child_box(nodes, boxes, nodes[i].left);
    match nodes[i].right {
        Some(c) => {
            lemma_surrounding_holds(l, child_box(nodes, boxes, c));
        },
        None => {
            lemma_holds_reflexive(l);
        },
    }
    let in_left = match nodes[i].left {
        Child::Primitive(q) => q == p,
        Child::Node(j) => 0 <= j < i && covers(nodes, j as int, p),
    };
    if in_left {
        match nodes[i].left {
            Child::Node(j) => {
                lemma_covered_box(nodes, boxes, j as int, p);
                lemma_holds_transitive(
                    nodes[i].bounding_box,
                    nodes[j as int].bounding_box,
                    boxes[p as int],
                );
            },
            _ => {},
        }
    } else {
        match nodes[i].right {
            Some(Child::Node(j)) => {
                lemma_covered_box(nodes, boxes, j as int, p);
                lemma_holds_transitive(
                    nodes[i].bounding_box,
                    nodes[j as int].bounding_box,
                    boxes[p as int],
                );
            },
            _ => {},
        }
    }
}

/// The low face of child `c` on axis `a` is that of primitive `p`, which
/// lies under node `i`.
spec fn low_face_at(nodes: Seq<BvhNode>, boxes: Seq<AABB>, i: int, c: Child, a: int, p: usize) -> bool {
    covers(nodes, i, p) && child_box(nodes, boxes, c).min.axis(a) == boxes[p as int].min.axis(a)
}

/// The high face of child `c` on axis `a` is that of primitive `p`, which
/// lies under node `i`.
spec fn high_face_at(nodes: Seq<BvhNode>, boxes: Seq<AABB>, i: int, c: Child, a: int, p: usize) -> bool {
    covers(nodes, i, p) && child_box(nodes, boxes, c).max.axis(a) == boxes[p as int].max.axis(a)
}

/// Each face of a node's box is the face of a primitive under it.
proof fn lemma_box_tight(nodes: Seq<BvhNode>, boxes: Seq<AABB>, i: int, a: int)
    requires
        nodes_ok(nodes, boxes),
        0 <= i < nodes.len(),
    ensures
        exists|p: usize|
            covers(nodes, i, p) && nodes[i].bounding_box.min.axis(a) == boxes[p as int].min.axis(a),
        exists|p: usize|
            covers(nodes, i, p) && nodes[i].bounding_box.max.axis(a) == boxes[p as int].max.axis(a),
    decreases i,
{
    assert(node_ok(nodes, boxes, i));
    let bb = nodes[i].bounding_box;
    let left = nodes[i].left;
    match left {
        Child::Primitive(q) => {
            assert(low_face_at(nodes, boxes, i, left, a, q) && high_face_at(nodes, boxes, i, left, a, q));
        },
        Child::Node(j) => {
            lemma_box_tight(nodes, boxes, j as int, a);
            let p1 = choose|p: usize|
                covers(nodes, j as int, p) && nodes[j as int].bounding_box.min.axis(a)
                    == boxes[p as int].min.axis(a);
            let p2 = choose|p: usize|
                covers(nodes, j as int, p) && nodes[j as int].bounding_box.max.axis(a)
                    == boxes[p as int].max.axis(a);
            assert(low_face_at(nodes, boxes, i, left, a, p1) && high_face_at(nodes, boxes, i, left, a, p2));
        },
    }
    let lp1 = choose|p: usize| #[trigger] low_face_at(nodes, boxes, i, left, a, p);
    let lp2 = choose|p: usize| #[trigger] high_face_at(nodes, boxes, i, left, a, p);
    match nodes[i].right {
        None => {
            assert(covers(nodes, i, lp1) && bb.min.axis(a) == boxes[lp1 as int].min.axis(a));
            assert(covers(nodes, i, lp2) && bb.max.axis(a) == boxes[lp2 as int].max.axis(a));
        },
        Some(right) => {
            match right {
                Child::Primitive(q) => {
                    assert(low_face_at(nodes, boxes, i, right, a, q) && high_face_at(nodes, boxes, i, right, a, q));
                },
                Child::Node(j) => {
                    lemma_box_tight(nodes, boxes, j as int, a);
                    let p1 = choose|p: usize|
                        covers(nodes, j as int, p) && nodes[j as int].bounding_box.min.axis(a)
                            == boxes[p as int].min.axis(a);
                    let p2 = choose|p: usize|
                        covers(nodes, j as int, p) && nodes[j as int].bounding_box.max.axis(a)
                            == boxes[p as int].max.axis(a);
                    assert(low_face_at(nodes, boxes, i, right, a, p1) && high_face_at(nodes, boxes, i, right, a, p2));
                },
            }
            let rp1 = choose|p: usize| #[trigger] low_face_at(nodes, boxes, i, right, a, p);
            let rp2 = choose|p: usize| #[trigger] high_face_at(nodes, boxes, i, right, a, p);
            let lb = child_box(nodes, boxes, left);
            let rb = child_box(nodes, boxes, right);
            lemma_surrounding_axis(lb, rb, a);
            if lb.min.axis(a) <= rb.min.axis(a) {
                assert(covers(nodes, i, lp1) && bb.min.axis(a) == boxes[lp1 as int].min.axis(a));
            } else {
                assert(covers(nodes, i, rp1) && bb.min.axis(a) == boxes[rp1 as int].min.axis(a));
            }
            if lb.max.axis(a) >= rb.max.axis(a) {
                assert(covers(nodes, i, lp2) && bb.max.axis(a) == boxes[lp2 as int].max.axis(a));
            } else {
                assert(covers(nodes, i, rp2) && bb.max.axis(a) == boxes[rp2 as int].max.axis(a));
            }
        },
    }
}

/// The primitives under node `i`, from left to right.
pub open spec fn leaves(nodes: Seq<BvhNode>, i: int) -> Seq<usize>
    decreases i,
{
    if 0 <= i < nodes.len() {
        let l = match nodes[i].left {
            Child::Primitive(q) => seq![q],
            Child::Node(j) => if 0 <= j < i {
                leaves(nodes, j as int)
            } else {
                Seq::empty()
            },
        };
        let r = match nodes[i].right {
            Some(Child::Primitive(q)) => seq![q],
            Some(Child::Node(j)) => if 0 <= j < i {
                leaves(nodes, j as int)
            } else {
                Seq::empty()
            },
            None => Seq::empty(),
        };
        l + r
    } else {
        Seq::empty()
    }
}

/// The number of splits on the longest way down from node `i` to a
/// primitive: a node of two children splits, a node of one does not.
pub open spec fn depth(nodes: Seq<BvhNode>, i: int) -> nat
    decreases i,
{
    if 0 <= i < nodes.len() {
        let dl = match nodes[i].left {
            Child::Node(j) => if 0 <= j < i {
                depth(nodes, j as int)
            } else {
                0
            },
            _ => 0,
        };
        let dr = match nodes[i].right {
            Some(Child::Node(j)) => if 0 <= j < i {
                depth(nodes, j as int)
            } else {
                0
            },
            _ => 0,
        };
        match nodes[i].right {
            None => dl,
            Some(_) => 1 + if dl >= dr {
                dl
            } else {
                dr
            },
        }
    } else {
        0
    }
}

/// Along `axis`, the lowest corner of every primitive in `lo` is at most
/// that of every primitive in `hi`.
pub open spec fn split_on(boxes: Seq<AABB>, axis: int, lo: Seq<usize>, hi: Seq<usize>) -> bool {
    forall|x: int, y: int|
        0 <= x < lo.len() && 0 <= y < hi.len() ==> min_on(boxes, axis, lo[x]) <= min_on(
            boxes,
            axis,
            hi[y],
        )
}

/// Node `i` and every node under it are built by the construction's rule:
/// one primitive makes a node with that primitive alone; two make a node
/// with both, in order along some axis; more make a node of two subtrees,
/// the first over half of them (rounded down), which along some axis all
/// come no later than those of the second.
pub open spec fn shaped(nodes: Seq<BvhNode>, boxes: Seq<AABB>, i: int) -> bool
    decreases i,
{
    if 0 <= i < nodes.len() {
        match (nodes[i].left, nodes[i].right) {
            (Child::Primitive(_), None) => true,
            (Child::Primitive(p), Some(Child::Primitive(q))) => exists|a: int|
                0 <= a < 3 && #[trigger] split_on(boxes, a, seq![p], seq![q]),
            (Child::Node(j), Some(Child::Node(k))) => if 0 <= j < i && 0 <= k < i {
                &&& shaped(nodes, boxes, j as int)
                &&& shaped(nodes, boxes, k as int)
                &&& leaves(nodes, i).len() > 2
                &&& leaves(nodes, j as int).len() == leaves(nodes, i).len() / 2
                &&& exists|a: int|
                    0 <= a < 3 && #[trigger] split_on(
                        boxes,
                        a,
                        leaves(nodes, j as int),
                        leaves(nodes, k as int),
                    )
            } else {
                false
            },
            _ => false,
        }
    } else {
        false
    }
}

/// The indices `0..n`.
pub open spec fn indices(n: nat) -> Seq<usize> {
    Seq::new(n, |k: int| k as usize)
}

/// Nodes added after node `i` change neither what lies under it nor how it
/// is built.
proof fn lemma_tree_prefix(nodes: Seq<BvhNode>, more: Seq<BvhNode>, boxes: Seq<AABB>, i: int)
    requires
        0 <= i < nodes.len(),
        nodes.len() <= more.len(),
        forall|k: int| 0 <= k < nodes.len() ==> more[k] == nodes[k],
    ensures
        leaves(more, i) == leaves(nodes, i),
        depth(more, i) == depth(nodes, i),
        shaped(more, boxes, i) == shaped(nodes, boxes, i),
    decreases i,
{
    assert(more[i] == nodes[i]);
    match nodes[i].left {
        Child::Node(j) => {
            if 0 <= j < i {
                lemma_tree_prefix(nodes, more, boxes, j as int);
            }
        },
        _ => {},
    }
    match nodes[i].right {
        Some(Child::Node(j)) => {
            if 0 <= j < i {
                lemma_tree_prefix(nodes, more, boxes, j as int);
            }
        },
        _ => {},
    }
}

/// A node pushed after well-formed ones, well-formed itself, keeps them all
/// well-formed.
proof fn lemma_push_ok(before: Seq<BvhNode>, after: Seq<BvhNode>, boxes: Seq<AABB>)
    requires
        nodes_ok(before, boxes),
        after.len() == before.len() + 1,
        forall|k: int| 0 <= k < before.len() ==> after[k] == before[k],
        node_ok(after, boxes, before.len() as int),
    ensures
        nodes_ok(after, boxes),
{
    assert forall|i: int| 0 <= i < after.len() implies #[trigger] node_ok(after, boxes, i) by {
        if i < before.len() {
            lemma_nodes_ok_prefix(before, after, boxes, i);
        }
    }
}

/// Splitting `n > 2` primitives into halves of depth bound each gives a
/// depth bound for the whole: the depth stays at most the ceiling of
/// `log2(n)`.
proof fn lemma_depth_bound(n: nat, dl: nat, dr: nat)
    requires
        n > 2,
        pow2(dl) < 2 * (n / 2),
        pow2(dr) < 2 * (n - n / 2) as nat,
    ensures
        pow2(1 + if dl >= dr {
            dl
        } else {
            dr
        }) < 2 * n,
{
    let m: nat = if dl >= dr {
        dl
    } else {
        dr
    };
    lemma_pow2_unfold(m + 1);
    assert((m + 1 - 1) as nat == m);
    if m == dr && n % 2 == 1 && dr > 0 {
        lemma_pow2_unfold(dr);
        assert(pow2(dr) != n);
    }
    if dr == 0 {
        lemma2_to64();
    }
    assert(pow2(m) < n);
}

/// Builds the subtree over the primitives in `order`, pushing its nodes onto
/// `nodes`; its root is the last node pushed. The primitives are sorted along
/// an axis picked at random; one or two of them make a node of their own,
/// more are split in the middle into two subtrees.
fn build(boxes: &Vec<AABB>, order: Vec<usize>, nodes: &mut Vec<BvhNode>) -> (r: usize)
    requires
        order.len() > 0,
        forall|k: int| 0 <= k < order.len() ==> order[k] < boxes.len(),
        nodes_ok(old(nodes)@, boxes@),
    ensures
        final(nodes)@.len() > old(nodes)@.len(),
        forall|k: int| 0 <= k < old(nodes)@.len() ==> final(nodes)@[k] == old(nodes)@[k],
        nodes_ok(final(nodes)@, boxes@),
        r == final(nodes)@.len() - 1,
        forall|p: usize| order@.contains(p) ==> covers(final(nodes)@, r as int, p),
        leaves(final(nodes)@, r as int).to_multiset() == order@.to_multiset(),
        shaped(final(nodes)@, boxes@, r as int),
        pow2(depth(final(nodes)@, r as int)) < 2 * order@.len(),
    decreases order.len(),
{
    let axis = random_axis();
    let ghost given = order@;
    let sorted = sort_by_axis(boxes, order, axis);
    proof {
        assert forall|p: usize| given.contains(p) implies sorted@.contains(p) by {
            assert(given.to_multiset().count(p) > 0);
        }
        assert forall|k: int| 0 <= k < sorted.len() implies sorted[k] < boxes.len() by {
            assert(sorted@.contains(sorted[k]));
            assert(given.to_multiset().count(sorted[k]) > 0);
        }
    }
    let n = sorted.len();
    let ghost before = nodes@;
    if n == 1 {
        let p = sorted[0];
        nodes.push(BvhNode { left: Child::Primitive(p), right: None, bounding_box: boxes[p] });
        proof {
            let i = before.len() as int;
            lemma_push_ok(before, nodes@, boxes@);
            assert(sorted@ =~= seq![p]);
            assert(leaves(nodes@, i) =~= seq![p]);
            lemma2_to64();
            assert forall|q: usize| given.contains(q) implies covers(nodes@, i, q) by {
                assert(sorted@.contains(q));
            }
        }
    } else if n == 2 {
        let p = sorted[0];
        let q = sorted[1];
        nodes.push(
            BvhNode {
                left: Child::Primitive(p),
                right: Some(Child::Primitive(q)),
                bounding_box: AABB::surrounding(boxes[p], boxes[q]),
            },
        );
        proof {
            let i = before.len() as int;
            lemma_push_ok(before, nodes@, boxes@);
            assert(sorted@ =~= seq![p, q]);
            assert(leaves(nodes@, i) =~= seq![p, q]);
            assert(split_on(boxes@, axis as int, seq![p], seq![q]));
            lemma2_to64();
            assert forall|x: usize| given.contains(x) implies covers(nodes@, i, x) by {
                assert(sorted@.contains(x));
            }
        }
    } else {
        let mut lower = sorted;
        let upper = lower.split_off(n / 2);
        let ghost all = sorted@;
        let l = build(boxes, lower, nodes);
        let ghost mid_nodes = nodes@;
        let r = build(boxes, upper, nodes);
        let ghost both = nodes@;
        let node = BvhNode {
            left: Child::Node(l),
            right: Some(Child::Node(r)),
            bounding_box: AABB::surrounding(nodes[l].bounding_box, nodes[r].bounding_box),
        };
        nodes.push(node);
        proof {
            let i = both.len() as int;
            lemma_push_ok(both, nodes@, boxes@);
            lemma_tree_prefix(mid_nodes, both, boxes@, l as int);
            lemma_tree_prefix(both, nodes@, boxes@, l as int);
            lemma_tree_prefix(both, nodes@, boxes@, r as int);
            let ll = leaves(nodes@, l as int);
            let rl = leaves(nodes@, r as int);
            assert(leaves(nodes@, i) == ll + rl);
            assert(all =~= lower@ + upper@);
            vstd::seq_lib::lemma_multiset_commutative(ll, rl);
            vstd::seq_lib::lemma_multiset_commutative(lower@, upper@);
            assert(ll.len() == lower@.len()) by {
                assert(ll.to_multiset().len() == lower@.to_multiset().len());
            }
            assert(rl.len() == upper@.len()) by {
                assert(rl.to_multiset().len() == upper@.to_multiset().len());
            }
            assert forall|x: int, y: int| 0 <= x < ll.len() && 0 <= y < rl.len() implies min_on(
                boxes@,
                axis as int,
                ll[x],
            ) <= min_on(boxes@, axis as int, rl[y]) by {
                assert(ll.contains(ll[x]));
                assert(lower@.to_multiset().count(ll[x]) > 0);
                assert(rl.contains(rl[y]));
                assert(upper@.to_multiset().count(rl[y]) > 0);
                let a = choose|a: int| 0 <= a < lower@.len() && lower@[a] == ll[x];
                let b = choose|b: int| 0 <= b < upper@.len() && upper@[b] == rl[y];
                assert(all[a] == ll[x]);
                assert(all[b + n / 2] == rl[y]);
            }
            assert(split_on(boxes@, axis as int, ll, rl));
            lemma_depth_bound(n as nat, depth(nodes@, l as int), depth(nodes@, r as int));
            assert forall|p: usize| given.contains(p) implies covers(nodes@, i, p) by {
                assert(all.contains(p));
                let k = choose|k: int| 0 <= k < all.len() && all[k] == p;
                if k < n / 2 {
                    assert(lower@[k] == p);
                    assert(lower@.contains(p));
                    lemma_covers_prefix(mid_nodes, both, l as int, p);
                    lemma_covers_prefix(both, nodes@, l as int, p);
                } else {
                    assert(upper@[k - n / 2] == p);
                    assert(upper@.contains(p));
                    lemma_covers_prefix(both, nodes@, r as int, p);
                }
            }
        }
    }
    nodes.len() - 1
}

/// A hit of a ray on a primitive: the order key of the ray parameter `t` at
/// which it happens, and whatever the caller records with it.
#[derive(Debug)]
pub struct Hit<T> {
    pub t: i64,
    pub record: T,
}

/// `hit` is one that `prim_hit` may return for primitive `p`.
pub open spec fn hits<T, H: Fn(usize) -> Option<Hit<T>>>(prim_hit: H, p: usize, hit: Hit<T>) -> bool {
    prim_hit.ensures((p,), Some(hit))
}

/// `prim_hit` may be asked about every primitive below `n`, and gives one
/// answer for each.
pub open spec fn hit_query_ok<T, H: Fn(usize) -> Option<Hit<T>>>(prim_hit: H, n: nat) -> bool {
    &&& forall|p: usize| p < n ==> prim_hit.requires((p,))
    &&& forall|p: usize, a: Option<Hit<T>>, b: Option<Hit<T>>|
        p < n && prim_hit.ensures((p,), a) && prim_hit.ensures((p,), b) ==> a == b
}

/// `r` is the nearest hit among the primitives for which `among` holds: none
/// of them is hit if `r` is `None`; otherwise `r` is a hit of one of them and
/// no hit of any of them comes before it.
pub open spec fn nearest_among<T, H: Fn(usize) -> Option<Hit<T>>>(
    prim_hit: H,
    among: spec_fn(usize) -> bool,
    r: Option<Hit<T>>,
) -> bool {
    match r {
        None => forall|p: usize, h: Hit<T>| among(p) ==> !hits(prim_hit, p, h),
        Some(h) => {
            &&& exists|p: usize| among(p) && hits(prim_hit, p, h)
            &&& forall|q: usize, h2: Hit<T>| among(q) && hits(prim_hit, q, h2) ==> h.t <= h2.t
        },
    }
}

/// `r` is the nearest hit among the primitives below `n`.
pub open spec fn is_nearest<T, H: Fn(usize) -> Option<Hit<T>>>(
    prim_hit: H,
    n: nat,
    r: Option<Hit<T>>,
) -> bool {
    nearest_among(prim_hit, |p: usize| p < n, r)
}

/// The box test never rejects a box that holds the box of a primitive the
/// ray hits: a ray that hits a primitive passes through every box around it.
pub open spec fn box_test_sound<T, B: Fn(AABB) -> bool, H: Fn(usize) -> Option<Hit<T>>>(
    boxes: Seq<AABB>,
    box_hit: B,
    prim_hit: H,
) -> bool {
    forall|bb: AABB, p: usize, h: Hit<T>|
        p < boxes.len() && bb.holds(boxes[p as int]) && #[trigger] hits(prim_hit, p, h)
            ==> !#[trigger] box_hit.ensures((bb,), false)
}

/// Of two answers, the one with the smaller `t`; the second on a tie.
pub fn closer<T>(a: Option<Hit<T>>, b: Option<Hit<T>>) -> (r: Option<Hit<T>>)
    ensures
        a is None ==> r == b,
        b is None ==> r == a,
        a is Some && b is Some ==> r == if a->Some_0.t < b->Some_0.t {
            a
        } else {
            b
        },
{
    let pick_a = match (&a, &b) {
        (Some(x), Some(y)) => x.t < y.t,
        (Some(_), None) => true,
        (None, _) => false,
    };
    if pick_a {
        a
    } else {
        b
    }
}

/// The nearest hit over all primitives below `n`, by asking each in turn.
pub fn nearest_hit<T, H: Fn(usize) -> Option<Hit<T>>>(n: usize, prim_hit: &H) -> (r: Option<
    Hit<T>,
>)
    requires
        hit_query_ok(*prim_hit, n as nat),
    ensures
        is_nearest(*prim_hit, n as nat, r),
{
    let mut best: Option<Hit<T>> = None;
    let mut i: usize = 0;
    while i < n
        invariant
            i <= n,
            hit_query_ok(*prim_hit, n as nat),
            is_nearest(*prim_hit, i as nat, best),
        decreases n - i,
    {
        let here = prim_hit(i);
        let ghost this = here;
        best = closer(best, here);
        proof {
            match this {
                None => {
                    assert forall|p: usize, h: Hit<T>| p == i implies !hits(*prim_hit, p, h) by {}
                },
                Some(hh) => {
                    assert(hits(*prim_hit, i, hh));
                    assert forall|q: usize, h2: Hit<T>| q == i && hits(*prim_hit, q, h2) implies h2
                        == hh by {}
                },
            }
        }
        i = i + 1;
    }
    best
}

/// The answer for a single primitive is the nearest hit among that one.
proof fn lemma_nearest_single<T, H: Fn(usize) -> Option<Hit<T>>>(
    prim_hit: H,
    n: nat,
    p: usize,
    r: Option<Hit<T>>,
)
    requires
        hit_query_ok(prim_hit, n),
        p < n,
        prim_hit.ensures((p,), r),
    ensures
        nearest_among(prim_hit, |q: usize| q == p, r),
{
    match r {
        None => {
            assert forall|q: usize, h: Hit<T>| q == p implies !hits(prim_hit, q, h) by {
                if hits(prim_hit, q, h) {
                    assert(prim_hit.ensures((p,), Some(h)));
                }
            }
        },
        Some(h) => {
            assert(hits(prim_hit, p, h));
            assert forall|q: usize, h2: Hit<T>|
                q == p && hits(prim_hit, q, h2) implies h.t <= h2.t by {
                assert(prim_hit.ensures((p,), Some(h2)));
            }
        },
    }
}

/// The closer of the nearest hits over two sets of primitives is the nearest
/// hit over both.
proof fn lemma_nearest_union<T, H: Fn(usize) -> Option<Hit<T>>>(
    prim_hit: H,
    s1: spec_fn(usize) -> bool,
    s2: spec_fn(usize) -> bool,
    both: spec_fn(usize) -> bool,
    a: Option<Hit<T>>,
    b: Option<Hit<T>>,
    r: Option<Hit<T>>,
)
    requires
        nearest_among(prim_hit, s1, a),
        nearest_among(prim_hit, s2, b),
        forall|p: usize| #[trigger] both(p) <==> s1(p) || s2(p),
        a is None ==> r == b,
        b is None ==> r == a,
        a is Some && b is Some ==> r == if a->Some_0.t < b->Some_0.t {
            a
        } else {
            b
        },
    ensures
        nearest_among(prim_hit, both, r),
{
    match r {
        None => {},
        Some(h) => {
            if r == a {
                let p = choose|p: usize| s1(p) && hits(prim_hit, p, h);
                assert(both(p));
            } else {
                let p = choose|p: usize| s2(p) && hits(prim_hit, p, h);
                assert(both(p));
            }
        },
    }
}

/// At most one primitive below `n` is hit at `t`.
pub open spec fn single_hit_at<T, H: Fn(usize) -> Option<Hit<T>>>(prim_hit: H, n: nat, t: i64) -> bool {
    forall|p: usize, q: usize, h1: Hit<T>, h2: Hit<T>|
        p < n && q < n && #[trigger] hits(prim_hit, p, h1) && #[trigger] hits(prim_hit, q, h2)
            && h1.t == t && h2.t == t ==> p == q
}

/// Whatever answers a tree query or a scan over every primitive gives, both
/// find a hit or neither does, and the hits they find lie at the same `t`.
/// Where a single primitive is hit at that `t`, they are the same hit.
pub proof fn lemma_bvh_matches_linear_scan<T, H: Fn(usize) -> Option<Hit<T>>>(
    prim_hit: H,
    n: nat,
    tree: Option<Hit<T>>,
    scan: Option<Hit<T>>,
)
    requires
        hit_query_ok(prim_hit, n),
        is_nearest(prim_hit, n, tree),
        is_nearest(prim_hit, n, scan),
    ensures
        tree is Some <==> scan is Some,
        tree is Some ==> tree->Some_0.t == scan->Some_0.t,
        tree is Some && single_hit_at(prim_hit, n, tree->Some_0.t) ==> tree == scan,
{
    match (tree, scan) {
        (Some(x), Some(y)) => {
            let p = choose|p: usize| p < n && hits(prim_hit, p, x);
            let q = choose|q: usize| q < n && hits(prim_hit, q, y);
            if single_hit_at(prim_hit, n, x.t) {
                assert(p == q);
                assert(prim_hit.ensures((p,), Some(x)));
                assert(prim_hit.ensures((p,), Some(y)));
            }
        },
        (Some(x), None) => {
            let p = choose|p: usize| p < n && hits(prim_hit, p, x);
        },
        (None, Some(y)) => {
            let q = choose|q: usize| q < n && hits(prim_hit, q, y);
        },
        (None, None) => {},
    }
}

/// `v` is the key of the low face on axis `a` of one of `boxes`.
pub open spec fn low_face_of(boxes: Seq<AABB>, v: i64, a: int) -> bool {
    exists|p: usize| p < boxes.len() && v == boxes[p as int].min.axis(a)
}

/// `v` is the key of the high face on axis `a` of one of `boxes`.
pub open spec fn high_face_of(boxes: Seq<AABB>, v: i64, a: int) -> bool {
    exists|p: usize| p < boxes.len() && v == boxes[p as int].max.axis(a)
}

/// A bounding volume hierarchy over a list of primitives, each given by its
/// bounding box.
pub struct BVH {
    /// The nodes of the tree; the root is the last one.
    pub nodes: Vec<BvhNode>,
    /// The boxes of the primitives, in the order the tree was built from.
    pub boxes: Vec<AABB>,
}

impl BVH {
    /// The boxes of the primitives, in the order the tree was built from.
    pub open spec fn primitives(&self) -> Seq<AABB> {
        self.boxes@
    }

    /// The nodes of the tree; the root is the last one.
    pub open spec fn node_list(&self) -> Seq<BvhNode> {
        self.nodes@
    }

    /// The index of the root.
    pub open spec fn root(&self) -> int {
        self.nodes@.len() - 1
    }

    /// The tree is well-formed: it has a root, every node refers to children
    /// that exist and holds their boxes, and every primitive lies under the
    /// root.
    pub open spec fn wf(&self) -> bool {
        &&& self.boxes@.len() > 0
        &&& self.nodes@.len() > 0
        &&& nodes_ok(self.nodes@, self.boxes@)
        &&& forall|p: usize| p < self.boxes@.len() ==> #[trigger] covers(self.nodes@, self.nodes@.len() - 1, p)
    }

    /// Builds the hierarchy over the primitives whose bounding boxes are
    /// `objects`. Each node sorts its primitives along an axis picked at
    /// random and splits them in the middle; one or two primitives make a
    /// node of their own. No primitives at all is an error.
    ///
    /// Each primitive stands in exactly one leaf, every node is built by that
    /// rule, and the tree is at most the ceiling of `log2(n)` splits deep.
    pub fn from_vec(objects: Vec<AABB>) -> (r: Result<BVH, BvhError>)
        ensures
            objects@.len() == 0 <==> r is Err,
            r is Err ==> r == Err::<BVH, BvhError>(BvhError::Empty),
            r matches Ok(bvh) ==> {
                &&& bvh.wf()
                &&& bvh.primitives() == objects@
                &&& leaves(bvh.node_list(), bvh.root()).to_multiset() == indices(
                    objects@.len(),
                ).to_multiset()
                &&& shaped(bvh.node_list(), objects@, bvh.root())
                &&& pow2(depth(bvh.node_list(), bvh.root())) < 2 * objects@.len()
            },
    {
        if objects.len() == 0 {
            return Err(BvhError::Empty);
        }
        let mut order: Vec<usize> = Vec::new();
        let mut i: usize = 0;
        while i < objects.len()
            invariant
                i <= objects.len(),
                order@.len() == i,
                forall|k: int| 0 <= k < i ==> order@[k] == k,
            decreases objects.len() - i,
        {
            order.push(i);
            i = i + 1;
        }
        let mut nodes: Vec<BvhNode> = Vec::new();
        let ghost all = order@;
        build(&objects, order, &mut nodes);
        proof {
            assert(all =~= indices(objects@.len()));
            assert forall|p: usize| p < objects@.len() implies #[trigger] covers(nodes@, nodes@.len() - 1, p) by {
                assert(all[p as int] == p);
                assert(all.contains(p));
            }
        }
        Ok(BVH { nodes, boxes: objects })
    }

    /// The number of primitives.
    pub fn len(&self) -> (r: usize)
        ensures
            r == self.primitives().len(),
    {
        self.boxes.len()
    }

    /// The box around all the primitives: it holds each of them, and each of
    /// its faces is the face of one of them.
    pub fn bounding_box(&self) -> (r: AABB)
        requires
            self.wf(),
        ensures
            forall|p: usize| p < self.primitives().len() ==> r.holds(#[trigger] self.primitives()[p as int]),
            forall|a: int| #[trigger] low_face_of(self.primitives(), r.min.axis(a), a),
            forall|a: int| #[trigger] high_face_of(self.primitives(), r.max.axis(a), a),
    {
        let root = self.nodes.len() - 1;
        let bb = self.nodes[root].bounding_box;
        proof {
            let nodes = self.nodes@;
            assert forall|a: int| #[trigger] low_face_of(self.boxes@, bb.min.axis(a), a) by {
                lemma_box_tight(nodes, self.boxes@, root as int, a);
                let p = choose|p: usize|
                    covers(nodes, root as int, p) && bb.min.axis(a) == self.boxes@[p as int].min.axis(a);
                lemma_covered_box(nodes, self.boxes@, root as int, p);
            }
            assert forall|a: int| #[trigger] high_face_of(self.boxes@, bb.max.axis(a), a) by {
                lemma_box_tight(nodes, self.boxes@, root as int, a);
                let p = choose|p: usize|
                    covers(nodes, root as int, p) && bb.max.axis(a) == self.boxes@[p as int].max.axis(a);
                lemma_covered_box(nodes, self.boxes@, root as int, p);
            }
            assert forall|p: usize| p < self.primitives().len() implies bb.holds(
                #[trigger] self.primitives()[p as int],
            ) by {
                lemma_covered_box(self.nodes@, self.boxes@, root as int, p);
            }
        }
        bb
    }

    /// The nearest hit among the primitives under node `i`; a node whose box
    /// the ray misses is not searched further.
    fn hit_node<T, B: Fn(AABB) -> bool, H: Fn(usize) -> Option<Hit<T>>>(
        &self,
        i: usize,
        box_hit: &B,
        prim_hit: &H,
    ) -> (r: Option<Hit<T>>)
        requires
            self.wf(),
            i < self.node_list().len(),
            hit_query_ok(*prim_hit, self.primitives().len()),
            forall|bb: AABB| box_hit.requires((bb,)),
            box_test_sound(self.primitives(), *box_hit, *prim_hit),
        ensures
            nearest_among(*prim_hit, |p: usize| covers(self.node_list(), i as int, p), r),
        decreases i,
    {
        let node = self.nodes[i];
        let ghost nodes = self.nodes@;
        let ghost boxes = self.boxes@;
        assert(node_ok(nodes, boxes, i as int));
        if !box_hit(node.bounding_box) {
            proof {
                assert forall|p: usize, h: Hit<T>| covers(nodes, i as int, p) implies !hits(
                    *prim_hit,
                    p,
                    h,
                ) by {
                    lemma_covered_box(nodes, boxes, i as int, p);
                    if hits(*prim_hit, p, h) {
                        assert(box_hit.ensures((node.bounding_box,), false));
                    }
                }
            }
            return None;
        }
        let ghost in_left = |p: usize|
            match node.left {
                Child::Primitive(q) => q == p,
                Child::Node(j) => 0 <= j < i && covers(nodes, j as int, p),
            };
        let ghost in_right = |p: usize|
            match node.right {
                Some(Child::Primitive(q)) => q == p,
                Some(Child::Node(j)) => 0 <= j < i && covers(nodes, j as int, p),
                None => false,
            };
        let left = match node.left {
            Child::Primitive(p) => {
                let x = prim_hit(p);
                proof {
                    lemma_nearest_single(*prim_hit, boxes.len(), p, x);
                    assert(in_left =~= |q: usize| q == p);
                }
                x
            },
            Child::Node(j) => {
                let x = self.hit_node(j, box_hit, prim_hit);
                proof {
                    assert(in_left =~= |p: usize| covers(nodes, j as int, p));
                }
                x
            },
        };
        let right = match node.right {
            Some(Child::Primitive(p)) => {
                let x = prim_hit(p);
                proof {
                    lemma_nearest_single(*prim_hit, boxes.len(), p, x);
                    assert(in_right =~= |q: usize| q == p);
                }
                x
            },
            Some(Child::Node(j)) => {
                let x = self.hit_node(j, box_hit, prim_hit);
                proof {
                    assert(in_right =~= |p: usize| covers(nodes, j as int, p));
                }
                x
            },
            None => {
                proof {
                    assert forall|p: usize, h: Hit<T>| in_right(p) implies !hits(*prim_hit, p, h) by {}
                }
                None
            },
        };
        let ghost l = left;
        let ghost rr = right;
        let r = closer(left, right);
        proof {
            lemma_nearest_union(
                *prim_hit,
                in_left,
                in_right,
                |p: usize| covers(nodes, i as int, p),
                l,
                rr,
                r,
            );
        }
        r
    }

    /// The nearest hit of a ray among all the primitives. `box_hit` tells
    /// whether the ray passes through a box, `prim_hit` whether and where it
    /// hits a primitive; a subtree whose box the ray misses is skipped. The
    /// answer is the one a scan over every primitive gives.
    pub fn intersect<T, B: Fn(AABB) -> bool, H: Fn(usize) -> Option<Hit<T>>>(
        &self,
        box_hit: &B,
        prim_hit: &H,
    ) -> (r: Option<Hit<T>>)
        requires
            self.wf(),
            hit_query_ok(*prim_hit, self.primitives().len()),
            forall|bb: AABB| box_hit.requires((bb,)),
            box_test_sound(self.primitives(), *box_hit, *prim_hit),
        ensures
            is_nearest(*prim_hit, self.primitives().len(), r),
    {
        let root = self.nodes.len() - 1;
        let r = self.hit_node(root, box_hit, prim_hit);
        proof {
            let n = self.boxes@.len();
            assert forall|p: usize| covers(self.nodes@, root as int, p) <==> p < n by {
                if covers(self.nodes@, root as int, p) {
                    lemma_covered_box(self.nodes@, self.boxes@, root as int, p);
                }
            }
            assert((|p: usize| covers(self.nodes@, root as int, p)) =~= (|p: usize| p < n));
        }
        r
    }
}

} // verus!
