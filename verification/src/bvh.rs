//! Shape of the bounding volume hierarchy over a list of objects: the objects
//! are ordered by the low corner of their bounding boxes along the x axis and
//! split at the median, recursively, down to nodes of one or two objects.
//!
//! An object is given as `(key, id)`: `key` orders the objects as their boxes
//! do, `id` finds the object again. The boxes themselves are computed around
//! this library.
use vstd::prelude::*;

verus! {

/// One side of a node: an object, or a further node.
pub enum BvhChild {
    Object(usize),
    Node(Box<BvhNode>),
}

/// A node of the hierarchy, with its two sides.
pub struct BvhNode {
    pub left_ch: BvhChild,
    pub right_ch: BvhChild,
}

/// `a` comes no later than `b` in the order of keys.
pub open spec fn key_leq(a: (u64, usize), b: (u64, usize)) -> bool {
    a.0 <= b.0
}

/// The keys of `s` do not decrease.
pub open spec fn sorted_by_key(s: Seq<(u64, usize)>) -> bool {
    forall|i: int, j: int| 0 <= i <= j < s.len() ==> #[trigger] s[i].0 <= #[trigger] s[j].0
}

/// The node built over the objects `s[lo..hi]`, which are in the order of
/// their keys when there are more than two: one object fills both sides; two
/// objects go left and right by key (the first one left only when its key is
/// strictly smaller); more are split at the middle `lo + (hi - lo) / 2`.
pub open spec fn bvh_range(s: Seq<(u64, usize)>, lo: int, hi: int) -> BvhNode
    decreases hi - lo,
{
    if hi - lo <= 1 {
        BvhNode { left_ch: BvhChild::Object(s[lo].1), right_ch: BvhChild::Object(s[lo].1) }
    } else if hi - lo == 2 {
        if s[lo].0 < s[lo + 1].0 {
            BvhNode { left_ch: BvhChild::Object(s[lo].1), right_ch: BvhChild::Object(s[lo + 1].1) }
        } else {
            BvhNode { left_ch: BvhChild::Object(s[lo + 1].1), right_ch: BvhChild::Object(s[lo].1) }
        }
    } else {
        let mid = lo + (hi - lo) / 2;
        BvhNode {
            left_ch: BvhChild::Node(Box::new(bvh_range(s, lo, mid))),
            right_ch: BvhChild::Node(Box::new(bvh_range(s, mid, hi))),
        }
    }
}

/// Number of nodes in the hierarchy over `n` objects.
pub open spec fn nodes_for(n: nat) -> nat
    decreases n,
{
    if n <= 2 {
        1
    } else {
        1 + nodes_for(n / 2) + nodes_for((n - n / 2) as nat)
    }
}

/// Number of nodes below and including `node`.
pub open spec fn node_count(node: BvhNode) -> nat
    decreases node,
{
    1 + child_node_count(node.left_ch) + child_node_count(node.right_ch)
}

/// Number of nodes inside one side of a node.
pub open spec fn child_node_count(c: BvhChild) -> nat
    decreases c,
{
    match c {
        BvhChild::Object(_) => 0,
        BvhChild::Node(n) => node_count(*n),
    }
}

/// The objects that `node` reaches.
pub open spec fn objects(node: BvhNode) -> Set<usize>
    decreases node,
{
    child_objects(node.left_ch) + child_objects(node.right_ch)
}

/// The objects that one side of a node reaches.
pub open spec fn child_objects(c: BvhChild) -> Set<usize>
    decreases c,
{
    match c {
        BvhChild::Object(id) => set![id],
        BvhChild::Node(n) => objects(*n),
    }
}

/// The ids of `s[lo..hi]`.
pub open spec fn ids_in(s: Seq<(u64, usize)>, lo: int, hi: int) -> Set<usize> {
    Set::new(|id: usize| exists|k: int| lo <= k < hi && #[trigger] s[k].1 == id)
}

/// Sorts `v` by key with `slice::sort_by_key`.
///
/// Claimed of std's `sort_by_key`: the result is the stable sort of the input
/// by key (equal keys keep their order), so it is ordered by key and holds the
/// same entries. The stable sort is written with vstd's `Seq::sort_by`, a
/// stable merge sort.
#[verifier::external_body]
fn sort_by_x_key(v: &mut Vec<(u64, usize)>)
    ensures
        final(v)@ == old(v)@.sort_by(|a: (u64, usize), b: (u64, usize)| key_leq(a, b)),
        sorted_by_key(final(v)@),
        final(v)@.to_multiset() == old(v)@.to_multiset(),
        final(v)@.len() == old(v)@.len(),
{
    v.sort_by_key(|p| p.0)
}

fn build_range(s: &Vec<(u64, usize)>, lo: usize, hi: usize, num_nodes: &mut i32) -> (node: BvhNode)
    requires
        lo < hi <= s@.len(),
        *old(num_nodes) + nodes_for((hi - lo) as nat) <= i32::MAX,
    ensures
        node == bvh_range(s@, lo as int, hi as int),
        *final(num_nodes) == *old(num_nodes) + nodes_for((hi - lo) as nat),
    decreases hi - lo,
{
    let n = hi - lo;
    let node = if n == 1 {
        BvhNode { left_ch: BvhChild::Object(s[lo].1), right_ch: BvhChild::Object(s[lo].1) }
    } else if n == 2 {
        if s[lo].0 < s[lo + 1].0 {
            BvhNode { left_ch: BvhChild::Object(s[lo].1), right_ch: BvhChild::Object(s[lo + 1].1) }
        } else {
            BvhNode { left_ch: BvhChild::Object(s[lo + 1].1), right_ch: BvhChild::Object(s[lo].1) }
        }
    } else {
        let mid = lo + n / 2;
        assert(nodes_for(n as nat) == 1 + nodes_for((n / 2) as nat) + nodes_for((n - n / 2) as nat));
        let left = build_range(s, lo, mid, num_nodes);
        let right = build_range(s, mid, hi, num_nodes);
        BvhNode { left_ch: BvhChild::Node(Box::new(left)), right_ch: BvhChild::Node(Box::new(right)) }
    };
    *num_nodes = *num_nodes + 1;
    node
}

impl BvhNode {
    /// Builds the hierarchy over `obj_list`, counting the nodes it creates in
    /// `num_nodes`. With more than two objects the list is first sorted by key
    /// in place (equal keys keep their order), so the caller's list ends up
    /// ordered by key.
    ///
    /// The list must not be empty (the split would never end), and the node
    /// counter, an `i32`, must not overflow.
    pub fn new(obj_list: &mut Vec<(u64, usize)>, num_nodes: &mut i32) -> (node: BvhNode)
        requires
            old(obj_list)@.len() > 0,
            *old(num_nodes) + nodes_for(old(obj_list)@.len()) <= i32::MAX,
        ensures
            old(obj_list)@.len() <= 2 ==> final(obj_list)@ == old(obj_list)@,
            old(obj_list)@.len() > 2 ==> final(obj_list)@ == old(obj_list)@.sort_by(
                |a: (u64, usize), b: (u64, usize)| key_leq(a, b),
            ),
            old(obj_list)@.len() > 2 ==> sorted_by_key(final(obj_list)@),
            final(obj_list)@.to_multiset() == old(obj_list)@.to_multiset(),
            node == bvh_range(final(obj_list)@, 0, old(obj_list)@.len() as int),
            *final(num_nodes) == *old(num_nodes) + nodes_for(old(obj_list)@.len()),
    {
        if obj_list.len() > 2 {
            sort_by_x_key(obj_list);
        }
        let n = obj_list.len();
        build_range(obj_list, 0, n, num_nodes)
    }
}

/// Number of nodes that building the hierarchy over `n` objects creates, which
/// is what `BvhNode::new` adds to its node counter.
pub fn nodes_needed(n: u64) -> (count: u64)
    requires
        n >= 1,
        n <= u64::MAX / 2,
    ensures
        count == nodes_for(n as nat),
    decreases n,
{
    if n <= 2 {
        1
    } else {
        let half: u64 = n / 2;
        let left: u64 = nodes_needed(half);
        let right: u64 = nodes_needed(n - half);
        proof {
            lemma_nodes_below_twice_objects(half as nat);
            lemma_nodes_below_twice_objects((n - half) as nat);
        }
        1 + left + right
    }
}

/// The number of nodes that the builder counts is the number of nodes in the
/// hierarchy it returns.
pub proof fn lemma_node_count(s: Seq<(u64, usize)>, lo: int, hi: int)
    requires
        0 <= lo < hi <= s.len(),
    ensures
        node_count(bvh_range(s, lo, hi)) == nodes_for((hi - lo) as nat),
    decreases hi - lo,
{
    if hi - lo > 2 {
        let mid = lo + (hi - lo) / 2;
        lemma_node_count(s, lo, mid);
        lemma_node_count(s, mid, hi);
        assert(mid - lo == (hi - lo) / 2);
    }
}

/// The hierarchy reaches every object of the list, and no other.
pub proof fn lemma_holds_every_object(s: Seq<(u64, usize)>, lo: int, hi: int)
    requires
        0 <= lo < hi <= s.len(),
    ensures
        objects(bvh_range(s, lo, hi)) == ids_in(s, lo, hi),
    decreases hi - lo,
{
    if hi - lo <= 1 {
        assert(objects(bvh_range(s, lo, hi)) =~= ids_in(s, lo, hi));
    } else if hi - lo == 2 {
        assert(objects(bvh_range(s, lo, hi)) =~= ids_in(s, lo, hi));
    } else {
        let mid = lo + (hi - lo) / 2;
        lemma_holds_every_object(s, lo, mid);
        lemma_holds_every_object(s, mid, hi);
        assert forall|id: usize| ids_in(s, lo, hi).contains(id) implies #[trigger] (ids_in(
            s,
            lo,
            mid,
        ) + ids_in(s, mid, hi)).contains(id) by {
            let k = choose|k: int| lo <= k < hi && #[trigger] s[k].1 == id;
            if k < mid {
                assert(ids_in(s, lo, mid).contains(id));
            } else {
                assert(ids_in(s, mid, hi).contains(id));
            }
        }
        assert(objects(bvh_range(s, lo, hi)) =~= ids_in(s, lo, hi));
    }
}

/// A hierarchy over `n` objects has fewer than `2 * n` nodes, so building it
/// raises the node counter by less than twice the number of objects.
pub proof fn lemma_nodes_below_twice_objects(n: nat)
    requires
        n >= 1,
    ensures
        nodes_for(n) < 2 * n,
        n >= 2 ==> nodes_for(n) + 3 <= 2 * n,
    decreases n,
{
    if n > 2 {
        lemma_nodes_below_twice_objects(n / 2);
        lemma_nodes_below_twice_objects((n - n / 2) as nat);
    }
}

/// Over a list ordered by key, a node of more than two objects holds the lower
/// half of the list on its left and the upper half on its right: no object on
/// the left has a greater key than an object on the right.
pub proof fn lemma_split_by_key(s: Seq<(u64, usize)>, lo: int, hi: int)
    requires
        0 <= lo,
        hi <= s.len(),
        hi - lo > 2,
        sorted_by_key(s),
    ensures
        ({
            let mid = lo + (hi - lo) / 2;
            let node = bvh_range(s, lo, hi);
            &&& node.left_ch == BvhChild::Node(Box::new(bvh_range(s, lo, mid)))
            &&& node.right_ch == BvhChild::Node(Box::new(bvh_range(s, mid, hi)))
            &&& objects(bvh_range(s, lo, mid)) == ids_in(s, lo, mid)
            &&& objects(bvh_range(s, mid, hi)) == ids_in(s, mid, hi)
            &&& forall|a: int, b: int| lo <= a < mid <= b < hi ==> #[trigger] s[a].0 <= #[trigger] s[b].0
        }),
{
    let mid = lo + (hi - lo) / 2;
    lemma_holds_every_object(s, lo, mid);
    lemma_holds_every_object(s, mid, hi);
}

/// A node over two objects holds both, one on each side: the one with the
/// strictly smaller key on the left, or, when the keys are equal or the second
/// key is smaller, the second object on the left. So the left key is never
/// greater than the right key.
pub proof fn lemma_two_object_node(s: Seq<(u64, usize)>, lo: int)
    requires
        0 <= lo,
        lo + 2 <= s.len(),
    ensures
        ({
            let node = bvh_range(s, lo, lo + 2);
            ||| (node.left_ch == BvhChild::Object(s[lo].1) && node.right_ch == BvhChild::Object(
                s[lo + 1].1,
            ) && s[lo].0 < s[lo + 1].0)
            ||| (node.left_ch == BvhChild::Object(s[lo + 1].1) && node.right_ch == BvhChild::Object(
                s[lo].1,
            ) && s[lo + 1].0 <= s[lo].0)
        }),
{
}

/// A node over one object holds it on both sides.
pub proof fn lemma_one_object_node(s: Seq<(u64, usize)>, lo: int)
    requires
        0 <= lo < s.len(),
    ensures
        bvh_range(s, lo, lo + 1).left_ch == BvhChild::Object(s[lo].1),
        bvh_range(s, lo, lo + 1).right_ch == BvhChild::Object(s[lo].1),
{
}

} // verus!
