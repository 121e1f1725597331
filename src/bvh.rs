use vstd::prelude::*;
use crate::aabb::{lemma_slab_hit_mono, slab_hit, AABB};
use crate::hittable::{
    closer, first, is_nearest, lemma_nearest_combine, lemma_nearest_single, lemma_nearest_unique, lemma_scan_nearest,
    scan, scan_record, union_all, Hit_Record, Hittable, Hittable_List, Sphere,
};
use crate::scalar::{in_range, LIMIT};
use crate::interval::Interval;
use crate::ray::Ray;

verus! {

/// A child edge of a branch: a primitive, or another branch of the arena.
#[derive(Clone, Copy, Debug, PartialEq, Eq, Structural)]
pub enum Child {
    Leaf(usize),
    Node(usize),
}

/// An inner node of the hierarchy over the primitives `start..end`, with the
/// box that holds them all. A single primitive is both children at once.
#[derive(Clone, Copy, Debug)]
pub struct Branch {
    pub left: Child,
    pub right: Child,
    pub bbox: AABB,
    pub start: usize,
    pub end: usize,
}

/// A bounding-volume hierarchy: the primitives, the arena of branches (each
/// after its children), and the root branch.
pub struct BVH_Node {
    pub prims: Vec<Sphere>,
    pub nodes: Vec<Branch>,
    pub root: usize,
}

/// The key that the primitives are sorted by along `axis`.
pub open spec fn key(s: Sphere, axis: int) -> int {
    s.bbox.axis_spec(axis).min as int
}

/// `axis` is the box's longest axis, the lowest such on a tie.
pub open spec fn is_longest_axis(b: AABB, axis: int) -> bool {
    &&& 0 <= axis < 3
    &&& forall|k: int| 0 <= k < 3 ==> b.axis_spec(k).size_spec() <= b.axis_spec(axis).size_spec()
    &&& forall|k: int| 0 <= k < axis ==> b.axis_spec(k).size_spec() < b.axis_spec(axis).size_spec()
}

/// Every primitive of `start..mid` comes at or before every primitive of
/// `mid..end` by the key along `axis`.
pub open spec fn split_by_key(prims: Seq<Sphere>, start: int, mid: int, end: int, axis: int) -> bool {
    forall|a: int, b: int| start <= a < mid <= b < end ==> key(prims[a], axis) <= key(prims[b], axis)
}

/// Branch `i` is well formed: its range is nonempty, its box holds every
/// primitive of the range, and its children split the range at its middle,
/// after ordering it along the box's longest axis.
pub open spec fn node_wf(prims: Seq<Sphere>, nodes: Seq<Branch>, i: int) -> bool {
    let n = nodes[i];
    let count = n.end - n.start;
    &&& n.start < n.end <= prims.len()
    &&& n.bbox.wf()
    &&& forall|k: int| n.start <= k < n.end ==> (#[trigger] prims[k]).bbox.within(n.bbox)
    &&& count == 1 ==> n.left == Child::Leaf(n.start) && n.right == Child::Leaf(n.start)
    &&& count == 2 ==> n.left == Child::Leaf(n.start) && n.right == Child::Leaf((n.start + 1) as usize)
    &&& count > 2 ==> {
        &&& n.left matches Child::Node(j) && j < i && nodes[j as int].start == n.start
            && nodes[j as int].end == n.start + count / 2
        &&& n.right matches Child::Node(j) && j < i && nodes[j as int].start == n.start + count / 2
            && nodes[j as int].end == n.end
        &&& exists|axis: int|
            is_longest_axis(n.bbox, axis) && split_by_key(prims, n.start as int, n.start + count / 2, n.end as int, axis)
    }
}

pub open spec fn tree_wf(prims: Seq<Sphere>, nodes: Seq<Branch>) -> bool {
    &&& forall|i: int| 0 <= i < prims.len() ==> (#[trigger] prims[i]).wf()
    &&& forall|i: int| 0 <= i < nodes.len() ==> node_wf(prims, nodes, i)
}

/// `x` stands at some position of `s` within `start..end`.
pub open spec fn occurs_in(x: Sphere, s: Seq<Sphere>, start: int, end: int) -> bool {
    exists|j: int| start <= j < end && s[j] == x
}

/// `new` reorders the range `start..end` of `old`: the range holds the same
/// elements, each as many times (so every position holds an element of the
/// old range and every element of the old range is still there), and every
/// other position is unchanged.
#[verifier::opaque]
pub open spec fn permutes_within(old: Seq<Sphere>, new: Seq<Sphere>, start: int, end: int) -> bool {
    &&& new.len() == old.len()
    &&& new.subrange(start, end).to_multiset() == old.subrange(start, end).to_multiset()
    &&& forall|k: int| 0 <= k < old.len() && !(start <= k < end) ==> new[k] == old[k]
    &&& forall|k: int| start <= k < end ==> occurs_in(#[trigger] new[k], old, start, end)
    &&& forall|j: int| start <= j < end ==> occurs_in(#[trigger] old[j], new, start, end)
}

pub open spec fn sorted_by_key(s: Seq<Sphere>, start: int, end: int, axis: int) -> bool {
    forall|a: int, b: int| start <= a < b < end ==> key(s[a], axis) <= key(s[b], axis)
}

proof fn lemma_permutes_refl(s: Seq<Sphere>, start: int, end: int)
    requires
        0 <= start <= end <= s.len(),
    ensures
        permutes_within(s, s, start, end),
{
    reveal(permutes_within);
    assert forall|k: int| start <= k < end implies occurs_in(#[trigger] s[k], s, start, end) by {
        assert(s[k] == s[k]);
    }
}

proof fn lemma_swap_multiset(t: Seq<Sphere>, i: int, j: int)
    requires
        0 <= i < t.len(),
        0 <= j < t.len(),
    ensures
        t.update(i, t[j]).update(j, t[i]).to_multiset() == t.to_multiset(),
{
    broadcast use vstd::seq_lib::to_multiset_update, vstd::seq_lib::to_multiset_contains, vstd::multiset::group_multiset_axioms;
    if i == j {
        assert(t.update(i, t[j]).update(j, t[i]) == t);
    } else {
        let u1 = t.update(i, t[j]);
        assert(u1[j] == t[j]);
        assert(t.contains(t[i]));
        assert(u1.to_multiset() == t.to_multiset().insert(t[j]).remove(t[i]));
        assert(u1.update(j, t[i]).to_multiset() == u1.to_multiset().insert(t[i]).remove(t[j]));
        assert(t.to_multiset().count(t[i]) > 0);
        assert(u1.update(j, t[i]).to_multiset() =~= t.to_multiset());
    }
}

/// The multiset of a range is that of its three consecutive parts.
proof fn lemma_range_multiset_split(x: Seq<Sphere>, s: int, s2: int, e2: int, e: int)
    requires
        0 <= s <= s2 <= e2 <= e <= x.len(),
    ensures
        x.subrange(s, e).to_multiset() == x.subrange(s, s2).to_multiset().add(x.subrange(s2, e2).to_multiset()).add(
            x.subrange(e2, e).to_multiset(),
        ),
{
    broadcast use vstd::seq_lib::lemma_multiset_commutative;
    assert(x.subrange(s, e) == x.subrange(s, s2) + x.subrange(s2, e2) + x.subrange(e2, e));
    assert((x.subrange(s, s2) + x.subrange(s2, e2)).to_multiset() == x.subrange(s, s2).to_multiset().add(
        x.subrange(s2, e2).to_multiset(),
    ));
}

proof fn lemma_permutes_swap(o: Seq<Sphere>, before: Seq<Sphere>, now: Seq<Sphere>, start: int, end: int, a: int, b: int)
    requires
        permutes_within(o, before, start, end),
        0 <= start,
        end <= before.len(),
        start <= a < end,
        start <= b < end,
        now == before.update(a, before[b]).update(b, before[a]),
    ensures
        permutes_within(o, now, start, end),
{
    reveal(permutes_within);
    let t = before.subrange(start, end);
    lemma_swap_multiset(t, a - start, b - start);
    assert(now.subrange(start, end) == t.update(a - start, t[b - start]).update(b - start, t[a - start]));
    assert forall|k: int| start <= k < end implies occurs_in(#[trigger] now[k], o, start, end) by {
        let src = if k == a {
            b
        } else if k == b {
            a
        } else {
            k
        };
        assert(now[k] == before[src]);
        assert(occurs_in(before[src], o, start, end));
    }
    assert forall|m: int| start <= m < end implies occurs_in(#[trigger] o[m], now, start, end) by {
        assert(occurs_in(o[m], before, start, end));
        let k0 = choose|k: int| start <= k < end && before[k] == o[m];
        let dst = if k0 == a {
            b
        } else if k0 == b {
            a
        } else {
            k0
        };
        assert(now[dst] == before[k0]);
    }
}

/// Sorts `objects[start..end]` by the minimum of their boxes along `axis`.
fn sort_range(objects: &mut Vec<Sphere>, start: usize, end: usize, axis: usize)
    requires
        start <= end <= old(objects).len(),
        axis < 3,
    ensures
        permutes_within(old(objects)@, final(objects)@, start as int, end as int),
        sorted_by_key(final(objects)@, start as int, end as int, axis as int),
{
    proof {
        lemma_permutes_refl(objects@, start as int, end as int);
    }
    let mut i: usize = start;
    while i < end
        invariant
            start <= i <= end <= objects@.len(),
            axis < 3,
            permutes_within(old(objects)@, objects@, start as int, end as int),
            sorted_by_key(objects@, start as int, i as int, axis as int),
        decreases end - i,
    {
        let mut j: usize = i;
        while j > start && objects[j - 1].bbox.axis_interval(axis).min > objects[j].bbox.axis_interval(
            axis,
        ).min
            invariant
                start <= j <= i < end <= objects@.len(),
                axis < 3,
                permutes_within(old(objects)@, objects@, start as int, end as int),
                sorted_by_key(objects@, start as int, j as int, axis as int),
                sorted_by_key(objects@, j as int, i as int + 1, axis as int),
                j < i && start < j ==> key(objects@[j - 1], axis as int) <= key(objects@[j + 1], axis as int),
            decreases j,
        {
            let ghost before = objects@;
            let a = objects[j - 1];
            let b = objects[j];
            objects.set(j - 1, b);
            objects.set(j, a);
            proof {
                lemma_permutes_swap(old(objects)@, before, objects@, start as int, end as int, j - 1, j as int);
            }
            j = j - 1;
        }
        i = i + 1;
    }
}

/// Bound on the number of primitives, so that the arena's indices fit.
pub const MAX_PRIMS: usize = 0x1000_0000;

proof fn lemma_perm_within_box(o: Seq<Sphere>, n: Seq<Sphere>, start: int, end: int, b: AABB)
    requires
        permutes_within(o, n, start, end),
        0 <= start <= end <= o.len(),
        forall|k: int| start <= k < end ==> (#[trigger] o[k]).bbox.within(b),
    ensures
        forall|k: int| start <= k < end ==> (#[trigger] n[k]).bbox.within(b),
{
    reveal(permutes_within);
    assert forall|k: int| start <= k < end implies (#[trigger] n[k]).bbox.within(b) by {
        assert(occurs_in(n[k], o, start, end));
        let j = choose|j: int| start <= j < end && o[j] == n[k];
        assert(o[j].bbox.within(b));
    }
}

proof fn lemma_perm_wf(o: Seq<Sphere>, n: Seq<Sphere>, start: int, end: int)
    requires
        permutes_within(o, n, start, end),
        0 <= start <= end <= o.len(),
        forall|k: int| 0 <= k < o.len() ==> (#[trigger] o[k]).wf(),
    ensures
        n.len() == o.len(),
        forall|k: int| 0 <= k < n.len() ==> (#[trigger] n[k]).wf(),
{
    reveal(permutes_within);
    assert forall|k: int| 0 <= k < n.len() implies (#[trigger] n[k]).wf() by {
        if start <= k < end {
            assert(occurs_in(n[k], o, start, end));
            let j = choose|j: int| start <= j < end && o[j] == n[k];
            assert(0 <= j < o.len()) by {
                if !(0 <= j < o.len()) {
                    assert(o[j] == n[k]);
                }
            }
            assert(o[j].wf());
        } else {
            assert(n[k] == o[k]);
        }
    }
}

/// A permutation of a sub-range followed by a permutation of a smaller one is
/// a permutation of the larger.
proof fn lemma_perm_trans(a: Seq<Sphere>, b: Seq<Sphere>, c: Seq<Sphere>, s: int, e: int, s2: int, e2: int)
    requires
        permutes_within(a, b, s, e),
        permutes_within(b, c, s2, e2),
        0 <= s <= s2,
        s2 <= e2 <= e <= a.len(),
    ensures
        permutes_within(a, c, s, e),
{
    reveal(permutes_within);
    lemma_range_multiset_split(b, s, s2, e2, e);
    lemma_range_multiset_split(c, s, s2, e2, e);
    assert(c.subrange(s, s2) == b.subrange(s, s2));
    assert(c.subrange(e2, e) == b.subrange(e2, e));
    assert forall|k: int| s <= k < e implies occurs_in(#[trigger] c[k], a, s, e) by {
        if s2 <= k < e2 {
            assert(occurs_in(c[k], b, s2, e2));
            let j = choose|j: int| s2 <= j < e2 && b[j] == c[k];
            assert(occurs_in(b[j], a, s, e));
        } else {
            if 0 <= k < b.len() {
                assert(c[k] == b[k]);
            }
            assert(occurs_in(b[k], a, s, e));
        }
    }
    assert forall|m: int| s <= m < e implies occurs_in(#[trigger] a[m], c, s, e) by {
        assert(occurs_in(a[m], b, s, e));
        let j = choose|j: int| s <= j < e && b[j] == a[m];
        if s2 <= j < e2 {
            assert(occurs_in(b[j], c, s2, e2));
            let k = choose|k: int| s2 <= k < e2 && c[k] == b[j];
            assert(c[k] == a[m]);
        } else {
            if 0 <= j < b.len() {
                assert(c[j] == b[j]);
            }
        }
    }
}

/// A branch stays well formed when the primitives of its range are unchanged
/// and the branches before it too.
proof fn lemma_node_wf_frame(p1: Seq<Sphere>, p2: Seq<Sphere>, n1: Seq<Branch>, n2: Seq<Branch>, i: int)
    requires
        0 <= i < n1.len() <= n2.len(),
        node_wf(p1, n1, i),
        p1.len() == p2.len(),
        forall|k: int| n1[i].start <= k < n1[i].end ==> p2[k] == p1[k],
        forall|j: int| 0 <= j <= i ==> n2[j] == n1[j],
    ensures
        node_wf(p2, n2, i),
{
}

proof fn lemma_within_union(a: AABB, b: AABB)
    ensures
        a.within(AABB::union_spec(a, b)),
        b.within(AABB::union_spec(a, b)),
{
}

proof fn lemma_within_trans(a: AABB, b: AABB, c: AABB)
    requires
        a.within(b),
        b.within(c),
    ensures
        a.within(c),
{
    assert forall|k: int| 0 <= k < 3 implies c.axis_spec(k).min <= a.axis_spec(k).min && a.axis_spec(k).max
        <= c.axis_spec(k).max by {
        assert(b.axis_spec(k).min <= a.axis_spec(k).min);
        assert(c.axis_spec(k).min <= b.axis_spec(k).min);
        assert(a.axis_spec(k).max <= b.axis_spec(k).max);
        assert(b.axis_spec(k).max <= c.axis_spec(k).max);
    }
}

/// The union of the boxes of `objs[start..end]`.
#[verifier::opaque]
pub open spec fn range_union(objs: Seq<Sphere>, start: int, end: int) -> AABB {
    union_all(objs.subrange(start, end))
}

/// The union of the boxes of `objects[start..end]`, which holds each of them.
fn union_of_range(objects: &Vec<Sphere>, start: usize, end: usize) -> (bbox: AABB)
    requires
        start <= end <= objects@.len(),
        forall|k: int| 0 <= k < objects@.len() ==> (#[trigger] objects@[k]).wf(),
    ensures
        bbox.wf(),
        bbox == range_union(objects@, start as int, end as int),
        forall|k: int| start <= k < end ==> (#[trigger] objects@[k]).bbox.within(bbox),
{
    reveal(range_union);
    let ghost objs0 = objects@;
    let mut bbox = AABB::empty();
    let mut i: usize = start;
    while i < end
        invariant
            start <= i <= end <= objects@.len(),
            objects@ == objs0,
            forall|k: int| 0 <= k < objects@.len() ==> (#[trigger] objects@[k]).wf(),
            bbox.wf(),
            forall|k: int| start <= k < i ==> (#[trigger] objects@[k]).bbox.within(bbox),
            bbox == union_all(objs0.subrange(start as int, i as int)),
        decreases end - i,
    {
        let ghost prev = bbox;
        bbox = AABB::new_from_bbox(bbox, objects[i].bbox);
        proof {
            assert(objs0.subrange(start as int, i + 1).drop_last() == objs0.subrange(start as int, i as int));
            lemma_within_union(prev, objects@[i as int].bbox);
            assert forall|k: int| start <= k < i + 1 implies (#[trigger] objects@[k]).bbox.within(bbox) by {
                if k < i {
                    lemma_within_trans(objects@[k].bbox, prev, bbox);
                }
            }
            assert(objects@[i as int].wf());
        }
        i = i + 1;
    }
    bbox
}

/// The branches over `objects[start..end]`, appended to `nodes`; the range is
/// sorted in place on the way down. Returns the index of the top branch.
fn build(objects: &mut Vec<Sphere>, start: usize, end: usize, nodes: &mut Vec<Branch>) -> (idx: usize)
    requires
        start < end <= old(objects)@.len(),
        forall|k: int| 0 <= k < old(objects)@.len() ==> (#[trigger] old(objects)@[k]).wf(),
        forall|i: int| 0 <= i < old(nodes)@.len() ==> node_wf(old(objects)@, old(nodes)@, i),
        forall|i: int|
            0 <= i < old(nodes)@.len() ==> (#[trigger] old(nodes)@[i]).end <= start || old(nodes)@[i].start >= end,
        old(nodes)@.len() + 2 * (end - start) <= 2 * MAX_PRIMS,
    ensures
        permutes_within(old(objects)@, final(objects)@, start as int, end as int),
        forall|k: int| 0 <= k < final(objects)@.len() ==> (#[trigger] final(objects)@[k]).wf(),
        old(nodes)@.len() < final(nodes)@.len() <= old(nodes)@.len() + 2 * (end - start) - 1,
        forall|i: int| 0 <= i < old(nodes)@.len() ==> final(nodes)@[i] == old(nodes)@[i],
        forall|i: int| 0 <= i < final(nodes)@.len() ==> node_wf(final(objects)@, final(nodes)@, i),
        forall|i: int|
            old(nodes)@.len() <= i < final(nodes)@.len() ==> start <= (#[trigger] final(nodes)@[i]).start
                && final(nodes)@[i].end <= end,
        idx == final(nodes)@.len() - 1,
        final(nodes)@[idx as int].start == start,
        final(nodes)@[idx as int].end == end,
        final(nodes)@[idx as int].bbox == range_union(old(objects)@, start as int, end as int),
        end - start <= 2 ==> final(objects)@ == old(objects)@,
    decreases end - start,
{
    let ghost objs0 = objects@;
    let ghost nodes0 = nodes@;
    let bbox = union_of_range(objects, start, end);
    let count = end - start;
    let left: Child;
    let right: Child;
    let ghost mut split_axis: int = 0;
    if count == 1 {
        left = Child::Leaf(start);
        right = Child::Leaf(start);
        proof {
            lemma_permutes_refl(objects@, start as int, end as int);
        }
    } else if count == 2 {
        left = Child::Leaf(start);
        right = Child::Leaf(end - 1);
        proof {
            lemma_permutes_refl(objects@, start as int, end as int);
        }
    } else {
        let axis = bbox.longest_axis();
        sort_range(objects, start, end, axis);
        let ghost objs1 = objects@;
        proof {
            lemma_perm_within_box(objs0, objs1, start as int, end as int, bbox);
            lemma_perm_wf(objs0, objs1, start as int, end as int);
            reveal(permutes_within);
            assert forall|i: int| 0 <= i < nodes0.len() implies node_wf(objs1, nodes0, i) by {
                assert(node_wf(objs0, nodes0, i));
                assert forall|k: int| nodes0[i].start <= k < nodes0[i].end implies objs1[k] == objs0[k] by {
                    assert(nodes0[i].end <= start || nodes0[i].start >= end);
                }
                lemma_node_wf_frame(objs0, objs1, nodes0, nodes0, i);
            }
        }
        let mid = start + count / 2;
        let l = build(objects, start, mid, nodes);
        let ghost objs2 = objects@;
        let ghost nodes2 = nodes@;
        proof {
            lemma_perm_within_box(objs1, objs2, start as int, mid as int, bbox);
            reveal(permutes_within);
            assert forall|i: int| 0 <= i < nodes2.len() implies (#[trigger] nodes2[i]).end <= mid
                || nodes2[i].start >= end by {
                if i < nodes0.len() {
                    assert(nodes2[i] == nodes0[i]);
                }
            }
        }
        let r = build(objects, mid, end, nodes);
        let ghost objs3 = objects@;
        proof {
            lemma_perm_within_box(objs2, objs3, mid as int, end as int, bbox);
            reveal(permutes_within);
            assert forall|k: int| start <= k < mid implies (#[trigger] objs3[k]).bbox.within(bbox) by {
                assert(objs3[k] == objs2[k]);
            }
            lemma_permutes_refl(objs1, start as int, end as int);
            lemma_perm_trans(objs1, objs1, objs2, start as int, end as int, start as int, mid as int);
            lemma_perm_trans(objs1, objs2, objs3, start as int, end as int, mid as int, end as int);
            lemma_perm_trans(objs0, objs1, objs3, start as int, end as int, start as int, end as int);
            assert(nodes@[l as int] == nodes2[l as int]);
            assert forall|a: int, b: int| start <= a < mid <= b < end implies key(objs3[a], axis as int) <= key(
                objs3[b],
                axis as int,
            ) by {
                assert(objs3[a] == objs2[a]);
                assert(occurs_in(objs2[a], objs1, start as int, mid as int));
                let a1 = choose|j: int| start <= j < mid && objs1[j] == objs2[a];
                assert(occurs_in(objs3[b], objs2, mid as int, end as int));
                let b2 = choose|j: int| mid <= j < end && objs2[j] == objs3[b];
                assert(objs2[b2] == objs1[b2]);
            }
            assert(is_longest_axis(bbox, axis as int));
            assert(split_by_key(objs3, start as int, mid as int, end as int, axis as int));
            split_axis = axis as int;
        }
        left = Child::Node(l);
        right = Child::Node(r);
    }
    let ghost objs_f = objects@;
    let ghost nodes_f = nodes@;
    nodes.push(Branch { left, right, bbox, start, end });
    proof {
        let nf = nodes@;
        assert forall|i: int| 0 <= i < nodes_f.len() implies node_wf(objs_f, nf, i) by {
            lemma_node_wf_frame(objs_f, objs_f, nodes_f, nf, i);
        }
        let n = nf[nf.len() - 1];
        if count > 2 {
            assert(is_longest_axis(n.bbox, split_axis));
            assert(split_by_key(objs_f, n.start as int, n.start + (n.end - n.start) / 2, n.end as int, split_axis));
        }
        assert(node_wf(objs_f, nf, nf.len() - 1));
    }
    nodes.len() - 1
}

pub open spec fn measure(c: Child) -> nat {
    match c {
        Child::Leaf(_) => 0,
        Child::Node(j) => j as nat + 1,
    }
}

/// The traversal from child `c` within `(lo, hi)`: the parameter and the
/// primitive of the hit it reports. A branch whose box the ray misses is
/// skipped; otherwise the right child is searched only closer than the left
/// child's hit, and its hit is preferred.
pub open spec fn node_hit(prims: Seq<Sphere>, nodes: Seq<Branch>, c: Child, r: Ray, lo: int, hi: int) -> Option<(int, int)>
    decreases measure(c),
{
    match c {
        Child::Leaf(k) => {
            if k < prims.len() {
                match prims[k as int].hit_t(r, lo, hi) {
                    Some(t) => Some((t, k as int)),
                    None => None,
                }
            } else {
                None
            }
        },
        Child::Node(j) => {
            if j >= nodes.len() {
                None
            } else {
                let n = nodes[j as int];
                if !slab_hit(n.bbox, r, Interval { min: lo as i64, max: hi as i64 }) {
                    None
                } else if measure(n.left) >= measure(c) || measure(n.right) >= measure(c) {
                    None
                } else {
                    let left = node_hit(prims, nodes, n.left, r, lo, hi);
                    if n.left == n.right {
                        left
                    } else {
                        let closer = match left {
                            Some(p) => p.0,
                            None => hi,
                        };
                        match node_hit(prims, nodes, n.right, r, lo, closer) {
                            Some(p) => Some(p),
                            None => left,
                        }
                    }
                }
            }
        },
    }
}

pub open spec fn child_in(c: Child, np: int, nn: int) -> bool {
    match c {
        Child::Leaf(k) => k < np,
        Child::Node(j) => j < nn,
    }
}

pub proof fn lemma_node_hit_bounds(prims: Seq<Sphere>, nodes: Seq<Branch>, c: Child, r: Ray, lo: int, hi: int)
    ensures
        match node_hit(prims, nodes, c, r, lo, hi) {
            Some(p) => lo < p.0 < hi && 0 <= p.1 < prims.len(),
            None => true,
        },
    decreases measure(c),
{
    match c {
        Child::Leaf(k) => {},
        Child::Node(j) => {
            if j < nodes.len() {
                let n = nodes[j as int];
                if measure(n.left) < measure(c) && measure(n.right) < measure(c) {
                    lemma_node_hit_bounds(prims, nodes, n.left, r, lo, hi);
                    let closer = match node_hit(prims, nodes, n.left, r, lo, hi) {
                        Some(p) => p.0,
                        None => hi,
                    };
                    lemma_node_hit_bounds(prims, nodes, n.right, r, lo, closer);
                }
            }
        },
    }
}

impl BVH_Node {
    pub open spec fn wf(self) -> bool {
        &&& tree_wf(self.prims@, self.nodes@)
        &&& self.root < self.nodes@.len()
    }

    /// The hierarchy over `objects[start..end]`, which it sorts in place.
    pub fn new_from_objects(objects: &mut Vec<Sphere>, start: usize, end: usize) -> (bvh: BVH_Node)
        requires
            start < end <= old(objects)@.len() <= MAX_PRIMS,
            forall|k: int| 0 <= k < old(objects)@.len() ==> (#[trigger] old(objects)@[k]).wf(),
        ensures
            permutes_within(old(objects)@, final(objects)@, start as int, end as int),
            bvh.wf(),
            bvh.prims@ == final(objects)@,
            bvh.nodes@[bvh.root as int].start == start,
            bvh.nodes@[bvh.root as int].end == end,
            bvh.box_spec() == range_union(old(objects)@, start as int, end as int),
            end - start <= 2 ==> final(objects)@ == old(objects)@,
    {
        let mut nodes: Vec<Branch> = Vec::new();
        let root = build(objects, start, end, &mut nodes);
        let mut prims: Vec<Sphere> = Vec::new();
        let mut i: usize = 0;
        while i < objects.len()
            invariant
                0 <= i <= objects@.len(),
                prims@ == objects@.subrange(0, i as int),
            decreases objects@.len() - i,
        {
            prims.push(objects[i]);
            i = i + 1;
        }
        assert(prims@ == objects@);
        BVH_Node { prims, nodes, root }
    }

    /// The hierarchy over all spheres of the list, whose order it changes.
    pub fn new(hittable_list: &mut Hittable_List) -> (bvh: BVH_Node)
        requires
            old(hittable_list).wf(),
            0 < old(hittable_list).objects@.len() <= MAX_PRIMS,
        ensures
            permutes_within(old(hittable_list).objects@, final(hittable_list).objects@, 0, old(hittable_list).objects@.len() as int),
            final(hittable_list).wf(),
            final(hittable_list).bbox == old(hittable_list).bbox,
            bvh.wf(),
            bvh.prims@ == final(hittable_list).objects@,
            bvh.nodes@[bvh.root as int].start == 0,
            bvh.nodes@[bvh.root as int].end == bvh.prims@.len(),
            bvh.box_spec() == old(hittable_list).bbox,
    {
        let size = hittable_list.objects.len();
        let ghost before = hittable_list.objects@;
        let bvh = BVH_Node::new_from_objects(&mut hittable_list.objects, 0, size);
        proof {
            lemma_union_all_perm(before, hittable_list.objects@);
            reveal(range_union);
            assert(before.subrange(0, size as int) == before);
            lemma_perm_wf(before, hittable_list.objects@, 0, size as int);
        }
        bvh
    }

    fn hit_child(&self, c: Child, r: &Ray, ray_t: Interval) -> (res: Option<Hit_Record>)
        requires
            tree_wf(self.prims@, self.nodes@),
            child_in(c, self.prims@.len() as int, self.nodes@.len() as int),
            r.wf(),
            ray_t.wf(),
        ensures
            res == scan_record(self.prims@, *r, node_hit(self.prims@, self.nodes@, c, *r, ray_t.min as int, ray_t.max as int)),
        decreases measure(c),
    {
        match c {
            Child::Leaf(k) => self.prims[k].hit(r, ray_t),
            Child::Node(j) => {
                let n = self.nodes[j];
                assert(node_wf(self.prims@, self.nodes@, j as int));
                if !n.bbox.hit(r, ray_t) {
                    return None;
                }
                let left = self.hit_child(n.left, r, ray_t);
                if n.left == n.right {
                    return left;
                }
                proof {
                    lemma_node_hit_bounds(self.prims@, self.nodes@, n.left, *r, ray_t.min as int, ray_t.max as int);
                }
                let mut window = ray_t;
                match left {
                    Some(rec) => {
                        window.max = rec.t;
                    },
                    None => {},
                }
                let right = self.hit_child(n.right, r, window);
                match right {
                    Some(_) => right,
                    None => left,
                }
            },
        }
    }

}

/// The union of the boxes of the spheres, axis by axis: below every minimum
/// and attaining one (or the empty bound), above every maximum and attaining
/// one (or the empty bound).
proof fn lemma_union_all_bounds(objs: Seq<Sphere>, k: int)
    requires
        0 <= k < 3,
        forall|i: int| 0 <= i < objs.len() ==> (#[trigger] objs[i]).wf(),
    ensures
        ({
            let m = union_all(objs).axis_spec(k);
            &&& forall|i: int| 0 <= i < objs.len() ==> m.min <= (#[trigger] objs[i]).bbox.axis_spec(k).min
            &&& m.min == LIMIT || exists|i: int| 0 <= i < objs.len() && (#[trigger] objs[i]).bbox.axis_spec(k).min == m.min
            &&& m.min <= LIMIT
            &&& forall|i: int| 0 <= i < objs.len() ==> (#[trigger] objs[i]).bbox.axis_spec(k).max <= m.max
            &&& m.max == -LIMIT || exists|i: int| 0 <= i < objs.len() && (#[trigger] objs[i]).bbox.axis_spec(k).max == m.max
            &&& m.max >= -LIMIT
        }),
    decreases objs.len(),
{
    if objs.len() > 0 {
        let init = objs.drop_last();
        assert forall|i: int| 0 <= i < init.len() implies (#[trigger] init[i]).wf() by {
            assert(init[i] == objs[i]);
        }
        lemma_union_all_bounds(init, k);
        let m = union_all(objs).axis_spec(k);
        let p = union_all(init).axis_spec(k);
        let last = objs.last();
        assert(last.wf());
        assert(forall|i: int| 0 <= i < init.len() ==> init[i] == objs[i]);
        if p.min != LIMIT {
            let i0 = choose|i: int| 0 <= i < init.len() && (#[trigger] init[i]).bbox.axis_spec(k).min == p.min;
            assert(objs[i0] == init[i0]);
        }
        if p.max != -LIMIT {
            let i1 = choose|i: int| 0 <= i < init.len() && (#[trigger] init[i]).bbox.axis_spec(k).max == p.max;
            assert(objs[i1] == init[i1]);
        }
        assert(objs[objs.len() - 1] == last);
    }
}

/// The union of the boxes does not depend on the order of the spheres.
proof fn lemma_union_all_perm(a: Seq<Sphere>, b: Seq<Sphere>)
    requires
        permutes_within(a, b, 0, a.len() as int),
        forall|i: int| 0 <= i < a.len() ==> (#[trigger] a[i]).wf(),
    ensures
        union_all(a) == union_all(b),
{
    reveal(permutes_within);
    assert forall|i: int| 0 <= i < b.len() implies (#[trigger] b[i]).wf() by {
        assert(occurs_in(b[i], a, 0, a.len() as int));
    }
    assert forall|k: int| 0 <= k < 3 implies union_all(a).axis_spec(k) == union_all(b).axis_spec(k) by {
        lemma_union_all_bounds(a, k);
        lemma_union_all_bounds(b, k);
        let ma = union_all(a).axis_spec(k);
        let mb = union_all(b).axis_spec(k);
        if mb.min != LIMIT {
            let i = choose|i: int| 0 <= i < b.len() && (#[trigger] b[i]).bbox.axis_spec(k).min == mb.min;
            assert(occurs_in(b[i], a, 0, a.len() as int));
        }
        if ma.min != LIMIT {
            let i = choose|i: int| 0 <= i < a.len() && (#[trigger] a[i]).bbox.axis_spec(k).min == ma.min;
            assert(occurs_in(a[i], b, 0, a.len() as int));
        }
        if mb.max != -LIMIT {
            let i = choose|i: int| 0 <= i < b.len() && (#[trigger] b[i]).bbox.axis_spec(k).max == mb.max;
            assert(occurs_in(b[i], a, 0, a.len() as int));
        }
        if ma.max != -LIMIT {
            let i = choose|i: int| 0 <= i < a.len() && (#[trigger] a[i]).bbox.axis_spec(k).max == ma.max;
            assert(occurs_in(a[i], b, 0, a.len() as int));
        }
        assert forall|j: int| 0 <= j < b.len() implies ma.min <= (#[trigger] b[j]).bbox.axis_spec(k).min
            && b[j].bbox.axis_spec(k).max <= ma.max by {
            assert(occurs_in(b[j], a, 0, a.len() as int));
        }
        assert forall|j: int| 0 <= j < a.len() implies mb.min <= (#[trigger] a[j]).bbox.axis_spec(k).min
            && a[j].bbox.axis_spec(k).max <= mb.max by {
            assert(occurs_in(a[j], b, 0, a.len() as int));
        }
    }
    let ua = union_all(a);
    let ub = union_all(b);
    assert(ua.axis_spec(0) == ub.axis_spec(0));
    assert(ua.axis_spec(1) == ub.axis_spec(1));
    assert(ua.axis_spec(2) == ub.axis_spec(2));
}

impl Hittable for BVH_Node {
    open spec fn well_formed(&self) -> bool {
        self.wf()
    }

    /// The nearest hit over the spheres of the root's range.
    open spec fn nearest_spec(&self, r: Ray, lo: int, hi: int, t: Option<int>) -> bool {
        is_nearest(
            self.prims@,
            r,
            lo,
            hi,
            self.nodes@[self.root as int].start as int,
            self.nodes@[self.root as int].end as int,
            t,
        )
    }

    /// The record of the hit that the traversal from the root reports.
    open spec fn hit_spec(&self, r: Ray, lo: int, hi: int) -> Option<Hit_Record> {
        scan_record(self.prims@, r, node_hit(self.prims@, self.nodes@, Child::Node(self.root), r, lo, hi))
    }

    open spec fn box_spec(&self) -> AABB {
        self.nodes@[self.root as int].bbox
    }

    fn bounding_box(&self) -> (b: AABB) {
        self.nodes[self.root].bbox
    }

    /// The nearest hit within `ray_t`, found by descending only into the
    /// branches whose boxes the ray meets.
    fn hit(&self, r: &Ray, ray_t: Interval) -> (res: Option<Hit_Record>) {
        proof {
            lemma_node_hit_bounds(
                self.prims@,
                self.nodes@,
                Child::Node(self.root),
                *r,
                ray_t.min as int,
                ray_t.max as int,
            );
            let found = node_hit(self.prims@, self.nodes@, Child::Node(self.root), *r, ray_t.min as int, ray_t.max as int);
            if found is Some {
                assert(self.prims@[found->Some_0.1].wf());
            }
            lemma_node_nearest(self.prims@, self.nodes@, self.root, *r, ray_t.min as int, ray_t.max as int);
        }
        self.hit_child(Child::Node(self.root), r, ray_t)
    }
}

/// A branch whose box the ray misses within the window holds no sphere that
/// the ray hits there.
proof fn lemma_pruned_branch_misses(prims: Seq<Sphere>, nodes: Seq<Branch>, j: int, r: Ray, lo: int, hi: int)
    requires
        tree_wf(prims, nodes),
        0 <= j < nodes.len(),
        in_range(lo),
        in_range(hi),
        !slab_hit(nodes[j].bbox, r, Interval { min: lo as i64, max: hi as i64 }),
    ensures
        forall|k: int| nodes[j].start <= k < nodes[j].end ==> (#[trigger] prims[k].hit_t(r, lo, hi)) is None,
{
    let n = nodes[j];
    assert(node_wf(prims, nodes, j));
    assert forall|k: int| n.start <= k < n.end implies (#[trigger] prims[k].hit_t(r, lo, hi)) is None by {
        if prims[k].hit_t(r, lo, hi) is Some {
            let t = prims[k].hit_t(r, lo, hi)->Some_0;
            assert(prims[k].wf());
            assert(prims[k].bbox.within(n.bbox));
            lemma_slab_hit_mono(
                prims[k].bbox,
                n.bbox,
                r,
                Interval { min: lo as i64, max: (t + 1) as i64 },
                Interval { min: lo as i64, max: hi as i64 },
            );
        }
    }
}

/// One step of the traversal at a well-formed branch that the ray's window
/// meets.
proof fn lemma_node_hit_step(prims: Seq<Sphere>, nodes: Seq<Branch>, j: usize, r: Ray, lo: int, hi: int)
    requires
        tree_wf(prims, nodes),
        j < nodes.len(),
        slab_hit(nodes[j as int].bbox, r, Interval { min: lo as i64, max: hi as i64 }),
    ensures
        ({
            let n = nodes[j as int];
            let left = node_hit(prims, nodes, n.left, r, lo, hi);
            node_hit(prims, nodes, Child::Node(j), r, lo, hi) == if n.left == n.right {
                left
            } else {
                match node_hit(prims, nodes, n.right, r, lo, closer(first(left), hi)) {
                    Some(p) => Some(p),
                    None => left,
                }
            }
        }),
{
    assert(node_wf(prims, nodes, j as int));
    let n = nodes[j as int];
    let left = node_hit(prims, nodes, n.left, r, lo, hi);
    assert(closer(first(left), hi) == match left {
        Some(p) => p.0,
        None => hi,
    });
}

/// Each branch reports the nearest hit over the spheres of its range.
#[verifier::rlimit(40)]
pub proof fn lemma_node_nearest(prims: Seq<Sphere>, nodes: Seq<Branch>, j: usize, r: Ray, lo: int, hi: int)
    requires
        tree_wf(prims, nodes),
        j < nodes.len(),
        in_range(lo),
        in_range(hi),
    ensures
        is_nearest(
            prims,
            r,
            lo,
            hi,
            nodes[j as int].start as int,
            nodes[j as int].end as int,
            first(node_hit(prims, nodes, Child::Node(j), r, lo, hi)),
        ),
    decreases j,
{
    let n = nodes[j as int];
    let s = n.start as int;
    let e = n.end as int;
    let count = e - s;
    assert(node_wf(prims, nodes, j as int));
    if !slab_hit(n.bbox, r, Interval { min: lo as i64, max: hi as i64 }) {
        assert(node_hit(prims, nodes, Child::Node(j), r, lo, hi) is None);
        lemma_pruned_branch_misses(prims, nodes, j as int, r, lo, hi);
        return;
    }
    lemma_node_hit_step(prims, nodes, j, r, lo, hi);
    let left = first(node_hit(prims, nodes, n.left, r, lo, hi));
    let right = first(node_hit(prims, nodes, n.right, r, lo, closer(left, hi)));
    if count == 1 {
        lemma_nearest_single(prims, r, lo, hi, s);
    } else if count == 2 {
        lemma_nearest_single(prims, r, lo, hi, s);
        lemma_nearest_single(prims, r, lo, closer(left, hi), s + 1);
        lemma_nearest_combine(prims, r, lo, hi, s, s + 1, e, left, right);
    } else {
        let jl = n.left->Node_0;
        let jr = n.right->Node_0;
        assert(nodes[jl as int].start != nodes[jr as int].start);
        lemma_node_nearest(prims, nodes, jl, r, lo, hi);
        lemma_node_hit_bounds(prims, nodes, n.left, r, lo, hi);
        lemma_node_nearest(prims, nodes, jr, r, lo, closer(left, hi));
        lemma_nearest_combine(prims, r, lo, hi, s, nodes[jl as int].end as int, e, left, right);
    }
}

/// A hierarchy over the spheres of a list reports, for every ray and window,
/// the same nearest hit parameter as the linear scan of that list.
pub proof fn lemma_bvh_matches_list(bvh: BVH_Node, list: Hittable_List, r: Ray, ray_t: Interval)
    requires
        bvh.wf(),
        bvh.prims@ == list.objects@,
        bvh.nodes@[bvh.root as int].start == 0,
        bvh.nodes@[bvh.root as int].end == list.objects@.len(),
        ray_t.wf(),
    ensures
        first(node_hit(bvh.prims@, bvh.nodes@, Child::Node(bvh.root), r, ray_t.min as int, ray_t.max as int))
            == first(scan(list.objects@, r, ray_t.min as int, ray_t.max as int, list.objects@.len() as int)),
{
    let lo = ray_t.min as int;
    let hi = ray_t.max as int;
    lemma_node_nearest(bvh.prims@, bvh.nodes@, bvh.root, r, lo, hi);
    lemma_scan_nearest(list.objects@, r, lo, hi, list.objects@.len() as int);
    lemma_nearest_unique(
        list.objects@,
        r,
        lo,
        hi,
        0,
        list.objects@.len() as int,
        first(node_hit(bvh.prims@, bvh.nodes@, Child::Node(bvh.root), r, lo, hi)),
        first(scan(list.objects@, r, lo, hi, list.objects@.len() as int)),
    );
}

} // verus!
