//! The tree that the pages form: what it means for the pages to be a
//! B+ tree, and the rows that the tree holds.
//!
//! The pages are read as a sequence of nodes, indexed by page number. The
//! shape of the tree is written down beside them: for every node its height
//! and the range of keys that may lie below it, and the leaves in key
//! order. A tree is well formed where every node agrees with its
//! neighbours on these.

use vstd::prelude::*;
use crate::layout::{
    le_u32, INTERNAL_NODE_MAX_CELLS, LEAF_NODE_MAX_CELLS, ROW_SIZE, TABLE_MAX_PAGES,
};
use crate::node::{Entry, Node};

verus! {

/// A bound above every key.
pub open spec fn key_inf() -> int {
    0x1_0000_0000
}

/// The shape of a tree: for each page number the height of the node and
/// the bounds of the keys below it (`lo` exclusive, `hi` inclusive), and
/// the leaves from left to right.
pub struct Shape {
    pub height: Map<int, int>,
    pub lo: Map<int, int>,
    pub hi: Map<int, int>,
    pub leaves: Seq<int>,
}

/// What an insertion has still to do. Between the split of a node and the
/// insertion of the new sibling into the parent the tree is well formed
/// but for that one sibling.
pub enum Pending {
    /// Nothing: the tree is whole.
    Nothing,
    /// `child` is to become a child of `parent`, behind the child at index
    /// `after`.
    Child { parent: int, child: int, after: int },
    /// The root was split, and `child` holds its upper half: a new root is
    /// to be made above the two.
    Root { child: int },
}

/// Whether `p` is the node that waits for its place.
pub open spec fn is_pending_child(pend: Pending, p: int) -> bool {
    match pend {
        Pending::Nothing => false,
        Pending::Child { parent, child, after } => child == p,
        Pending::Root { child } => child == p,
    }
}

/// Whether `child` is yet to be put behind child `i` of `p`.
pub open spec fn pending_after(pend: Pending, p: int, i: int) -> bool {
    pend matches Pending::Child { parent, child, after } && parent == p && after == i
}

/// The node that waits for its place.
pub open spec fn pending_child(pend: Pending) -> int {
    match pend {
        Pending::Nothing => 0,
        Pending::Child { parent, child, after } => child,
        Pending::Root { child } => child,
    }
}

/// The parent pointer of `p` leads to an internal node that lists `p`
/// among its children.
pub open spec fn attached(t: Seq<Node>, p: int) -> bool {
    let q = t[p].parent as int;
    &&& 0 <= q < t.len()
    &&& !t[q].leaf
    &&& exists|i: int| 0 <= i < t[q].kids.len() && #[trigger] t[q].kids[i] == p
}

/// The bound below the keys of child `i` of `p`.
pub open spec fn lower(t: Seq<Node>, sh: Shape, pend: Pending, p: int, i: int) -> int {
    if i == 0 {
        sh.lo[p]
    } else if pending_after(pend, p, i - 1) {
        sh.hi[pending_child(pend)]
    } else {
        t[p].keys[i - 1] as int
    }
}

/// The bound up to which the keys of child `i` of `p` go.
pub open spec fn upper(t: Seq<Node>, sh: Shape, pend: Pending, p: int, i: int) -> int {
    if i < t[p].keys.len() {
        t[p].keys[i] as int
    } else if pending_after(pend, p, i) {
        sh.lo[pending_child(pend)]
    } else {
        sh.hi[p]
    }
}

/// Child `i` of `p` is a page of the tree one level below `p`, points
/// back at `p`, and covers the keys between the keys around it.
pub open spec fn link_ok(t: Seq<Node>, sh: Shape, pend: Pending, p: int, i: int) -> bool {
    let c = t[p].kids[i] as int;
    &&& 0 < c < t.len()
    &&& t[c].parent == p
    &&& sh.height[c] + 1 == sh.height[p]
    &&& sh.lo[c] == lower(t, sh, pend, p, i)
    &&& sh.hi[c] == upper(t, sh, pend, p, i)
}

/// What holds of the leaf on page `p` of a well-formed tree: its keys ascend
/// inside its range, each row holds its key as its id, the next leaf begins
/// where its range ends, and it stands among the leaves.
pub open spec fn leaf_ok(t: Seq<Node>, sh: Shape, p: int) -> bool {
    let nd = t[p];
    &&& sh.height[p] == 0
    &&& nd.cells.len() <= LEAF_NODE_MAX_CELLS
    &&& p != 0 ==> nd.cells.len() >= 1
    &&& forall|i: int, j: int|
        0 <= i < j < nd.cells.len() ==> (#[trigger] nd.cells[i]).key < (#[trigger] nd.cells[j]).key
    &&& forall|i: int|
        0 <= i < nd.cells.len() ==> sh.lo[p] < (#[trigger] nd.cells[i]).key <= sh.hi[p]
    &&& forall|i: int|
        0 <= i < nd.cells.len() ==> (#[trigger] nd.cells[i]).value.len() == ROW_SIZE && le_u32(
            nd.cells[i].value,
            0,
        ) == nd.cells[i].key
    &&& sh.hi[p] < key_inf() ==> nd.cells.len() >= 1 && nd.cells[nd.cells.len() - 1].key
        == sh.hi[p]
    &&& if sh.hi[p] == key_inf() {
        nd.next == 0
    } else {
        &&& 0 < nd.next < t.len()
        &&& t[nd.next as int].leaf
        &&& sh.lo[nd.next as int] == sh.hi[p]
    }
    &&& exists|r: int| 0 <= r < sh.leaves.len() && #[trigger] sh.leaves[r] == p
}

/// What holds of the internal node on page `p` of a well-formed tree: it
/// has one to three keys and a child for each and one more, and is linked
/// with each of them.
pub open spec fn internal_ok(t: Seq<Node>, sh: Shape, pend: Pending, p: int) -> bool {
    let nd = t[p];
    &&& sh.height[p] >= 1
    &&& 1 <= nd.keys.len() <= INTERNAL_NODE_MAX_CELLS
    &&& nd.kids.len() == nd.keys.len() + 1
    &&& forall|i: int| 0 <= i < nd.kids.len() ==> #[trigger] link_ok(t, sh, pend, p, i)
}

/// What holds of the node on page `p` of a well-formed tree.
pub open spec fn node_ok(t: Seq<Node>, sh: Shape, pend: Pending, p: int) -> bool {
    let nd = t[p];
    &&& nd.is_root == (p == 0)
    &&& -1 <= sh.lo[p] < sh.hi[p] <= key_inf()
    &&& 0 <= sh.height[p] <= sh.height[0]
    &&& p == 0 ==> sh.lo[p] == -1 && if pend is Root {
        sh.hi[p] < key_inf()
    } else {
        sh.hi[p] == key_inf()
    }
    &&& p != 0 && !is_pending_child(pend, p) ==> attached(t, p)
    &&& if nd.leaf {
        leaf_ok(t, sh, p)
    } else {
        internal_ok(t, sh, pend, p)
    }
}

/// The leaf at place `r` is followed by the leaf at place `r + 1`, whose
/// range begins where its own ends.
pub open spec fn chained(t: Seq<Node>, sh: Shape, r: int) -> bool {
    &&& t[sh.leaves[r]].next == sh.leaves[r + 1]
    &&& sh.hi[sh.leaves[r]] == sh.lo[sh.leaves[r + 1]]
}

/// The leaves of the shape are the chain of leaves from the leftmost to
/// the rightmost.
pub open spec fn leaves_ok(t: Seq<Node>, sh: Shape) -> bool {
    &&& 1 <= sh.leaves.len() <= t.len()
    &&& forall|r: int|
        0 <= r < sh.leaves.len() ==> 0 <= (#[trigger] sh.leaves[r]) < t.len()
            && t[sh.leaves[r]].leaf
    &&& sh.lo[sh.leaves[0]] == -1
    &&& sh.hi[sh.leaves[sh.leaves.len() - 1]] == key_inf()
    &&& forall|r: int| 0 <= r < sh.leaves.len() - 1 ==> #[trigger] chained(t, sh, r)
}

/// What holds of the node that waits for its place.
pub open spec fn pending_ok(t: Seq<Node>, sh: Shape, pend: Pending) -> bool {
    match pend {
        Pending::Nothing => true,
        Pending::Child { parent, child, after } => {
            &&& 0 <= parent < t.len()
            &&& !t[parent].leaf
            &&& 0 < child < t.len()
            &&& child != parent
            &&& 0 <= after < t[parent].kids.len()
            &&& t[child].parent == parent
            &&& sh.height[child] + 1 == sh.height[parent]
            &&& sh.lo[child] == sh.hi[t[parent].kids[after] as int]
            &&& sh.hi[child] == if after + 1 < t[parent].kids.len() {
                sh.lo[t[parent].kids[after + 1] as int]
            } else {
                sh.hi[parent]
            }
        },
        Pending::Root { child } => {
            &&& 0 < child < t.len()
            &&& sh.lo[child] == sh.hi[0]
            &&& sh.hi[child] == key_inf()
            &&& sh.height[child] == sh.height[0]
            &&& t[child].leaf == t[0].leaf
        },
    }
}

/// The pages are a B+ tree of the given shape, but for what is pending.
pub open spec fn inv(t: Seq<Node>, sh: Shape, pend: Pending) -> bool {
    &&& 1 <= t.len() <= TABLE_MAX_PAGES
    &&& sh.height[0] < t.len()
    &&& pending_ok(t, sh, pend)
    &&& forall|p: int| 0 <= p < t.len() ==> #[trigger] node_ok(t, sh, pend, p)
    &&& leaves_ok(t, sh)
}

/// The cells of the given leaves, one leaf after the other.
pub open spec fn flat(t: Seq<Node>, ls: Seq<int>) -> Seq<Entry>
    decreases ls.len(),
{
    if ls.len() == 0 {
        Seq::empty()
    } else {
        flat(t, ls.drop_last()) + t[ls.last()].cells
    }
}

/// The leaf that is reached from `p` by going to the first child at most
/// `fuel` times.
pub open spec fn first_leaf(t: Seq<Node>, p: int, fuel: nat) -> int
    decreases fuel,
{
    if fuel == 0 || !(0 <= p < t.len()) || t[p].leaf || t[p].kids.len() == 0 {
        p
    } else {
        first_leaf(t, t[p].kids[0] as int, (fuel - 1) as nat)
    }
}

/// The cells of the leaf `p` and of at most `fuel` leaves that follow it
/// in the chain.
pub open spec fn chain(t: Seq<Node>, p: int, fuel: nat) -> Seq<Entry>
    decreases fuel,
{
    if !(0 <= p < t.len()) {
        Seq::empty()
    } else if fuel == 0 || t[p].next == 0 {
        t[p].cells
    } else {
        t[p].cells + chain(t, t[p].next as int, (fuel - 1) as nat)
    }
}

/// The rows of the table in the order of a full scan: the cells of the
/// leftmost leaf and of every leaf that follows it.
pub open spec fn rows_of(t: Seq<Node>) -> Seq<Entry> {
    chain(t, first_leaf(t, 0, TABLE_MAX_PAGES as nat), TABLE_MAX_PAGES as nat)
}

/// The largest key below `p`: the last key of the rightmost leaf.
pub open spec fn max_key_of(t: Seq<Node>, p: int, fuel: nat) -> u32
    decreases fuel,
{
    if !(0 <= p < t.len()) {
        0
    } else if t[p].leaf {
        if t[p].cells.len() == 0 {
            0
        } else {
            t[p].cells[t[p].cells.len() - 1].key
        }
    } else if fuel == 0 || t[p].kids.len() == 0 {
        0
    } else {
        max_key_of(t, t[p].kids[t[p].kids.len() - 1] as int, (fuel - 1) as nat)
    }
}

// ---------------------------------------------------------------------------
// What follows from well-formedness.
// ---------------------------------------------------------------------------
/// The keys of an internal node ascend strictly.
pub proof fn lemma_internal_keys_ascend(t: Seq<Node>, sh: Shape, pend: Pending, p: int)
    requires
        inv(t, sh, pend),
        0 <= p < t.len(),
        !t[p].leaf,
    ensures
        forall|i: int, j: int| 0 <= i < j < t[p].keys.len() ==> t[p].keys[i] < t[p].keys[j],
{
    assert(node_ok(t, sh, pend, p));
    let nd = t[p];
    assert forall|i: int| 0 <= i < nd.keys.len() - 1 implies (#[trigger] nd.keys[i]) < nd.keys[i
        + 1] by {
        assert(link_ok(t, sh, pend, p, i));
        assert(link_ok(t, sh, pend, p, i + 1));
        let c = nd.kids[i + 1] as int;
        assert(node_ok(t, sh, pend, c));
        if pending_after(pend, p, i) {
            let x = pending_child(pend);
            assert(node_ok(t, sh, pend, x));
        }
    }
    assert forall|i: int, j: int| 0 <= i < j < nd.keys.len() implies nd.keys[i] < nd.keys[j] by {
        if j == i + 1 {
        } else if j == i + 2 {
            assert(nd.keys[i] < nd.keys[i + 1]);
        }
    }
}

/// Leaves further right hold larger keys: the range of a leaf ends where
/// the ranges of the leaves behind it begin.
pub proof fn lemma_leaves_ordered(t: Seq<Node>, sh: Shape, pend: Pending, r1: int, r2: int)
    requires
        inv(t, sh, pend),
        0 <= r1 < r2 < sh.leaves.len(),
    ensures
        sh.hi[sh.leaves[r1]] <= sh.lo[sh.leaves[r2]],
    decreases r2 - r1,
{
    let a = sh.leaves[r2 - 1];
    let b = sh.leaves[r2];
    assert(node_ok(t, sh, pend, a));
    assert(node_ok(t, sh, pend, b));
    assert(chained(t, sh, r2 - 1));
    if r1 < r2 - 1 {
        lemma_leaves_ordered(t, sh, pend, r1, r2 - 1);
    }
}

/// Every leaf stands at exactly one place among the leaves.
pub proof fn lemma_leaf_rank(t: Seq<Node>, sh: Shape, pend: Pending, p: int) -> (r: int)
    requires
        inv(t, sh, pend),
        0 <= p < t.len(),
        t[p].leaf,
    ensures
        0 <= r < sh.leaves.len(),
        sh.leaves[r] == p,
        forall|q: int| 0 <= q < sh.leaves.len() && sh.leaves[q] == p ==> q == r,
{
    assert(node_ok(t, sh, pend, p));
    let r = choose|r: int| 0 <= r < sh.leaves.len() && #[trigger] sh.leaves[r] == p;
    assert forall|q: int| 0 <= q < sh.leaves.len() && sh.leaves[q] == p implies q == r by {
        if q < r {
            lemma_leaves_ordered(t, sh, pend, q, r);
        } else if r < q {
            lemma_leaves_ordered(t, sh, pend, r, q);
        }
    }
    r
}

/// The leaf whose range begins below every key is the first leaf.
pub proof fn lemma_leftmost_leaf(t: Seq<Node>, sh: Shape, pend: Pending, p: int)
    requires
        inv(t, sh, pend),
        0 <= p < t.len(),
        t[p].leaf,
        sh.lo[p] == -1,
    ensures
        sh.leaves[0] == p,
{
    let r = lemma_leaf_rank(t, sh, pend, p);
    if r > 0 {
        lemma_leaves_ordered(t, sh, pend, 0, r);
        assert(node_ok(t, sh, pend, sh.leaves[0]));
    }
}

/// Going down along the first children from a node at the left edge ends
/// at the first leaf.
pub proof fn lemma_first_leaf(t: Seq<Node>, sh: Shape, pend: Pending, p: int, fuel: nat)
    requires
        inv(t, sh, pend),
        0 <= p < t.len(),
        sh.lo[p] == -1,
        fuel >= sh.height[p],
    ensures
        first_leaf(t, p, fuel) == sh.leaves[0],
    decreases fuel,
{
    assert(node_ok(t, sh, pend, p));
    if t[p].leaf {
        lemma_leftmost_leaf(t, sh, pend, p);
    } else {
        assert(link_ok(t, sh, pend, p, 0));
        lemma_first_leaf(t, sh, pend, t[p].kids[0] as int, (fuel - 1) as nat);
    }
}

/// The chain from the leaf at place `r` holds the cells of the leaves from
/// `r` on.
pub proof fn lemma_chain(t: Seq<Node>, sh: Shape, pend: Pending, r: int, fuel: nat)
    requires
        inv(t, sh, pend),
        0 <= r < sh.leaves.len(),
        fuel >= sh.leaves.len() - r,
    ensures
        chain(t, sh.leaves[r], fuel) == flat(t, sh.leaves.subrange(r, sh.leaves.len() as int)),
    decreases sh.leaves.len() - r,
{
    let p = sh.leaves[r];
    let n = sh.leaves.len() as int;
    assert(node_ok(t, sh, pend, p));
    if r == n - 1 {
        let one = sh.leaves.subrange(r, n);
        assert(one.drop_last() =~= Seq::<int>::empty());
        assert(flat(t, one.drop_last()) =~= Seq::<Entry>::empty());
        assert(flat(t, one) =~= t[p].cells);
    } else {
        lemma_leaves_ordered(t, sh, pend, r, r + 1);
        assert(chained(t, sh, r));
        assert(node_ok(t, sh, pend, sh.leaves[r + 1]));
        lemma_chain(t, sh, pend, r + 1, (fuel - 1) as nat);
        lemma_flat_front(t, sh.leaves.subrange(r, n));
        assert(sh.leaves.subrange(r, n).subrange(1, n - r) =~= sh.leaves.subrange(r + 1, n));
    }
}

/// The cells of some leaves are those of the first and then those of the
/// rest.
pub proof fn lemma_flat_front(t: Seq<Node>, ls: Seq<int>)
    requires
        ls.len() >= 1,
    ensures
        flat(t, ls) == t[ls[0]].cells + flat(t, ls.subrange(1, ls.len() as int)),
    decreases ls.len(),
{
    let n = ls.len() as int;
    if n == 1 {
        assert(ls.drop_last() =~= Seq::<int>::empty());
        assert(ls.subrange(1, n) =~= Seq::<int>::empty());
        assert(flat(t, ls) =~= t[ls[0]].cells + flat(t, ls.subrange(1, n)));
    } else {
        lemma_flat_front(t, ls.drop_last());
        assert(ls.drop_last().subrange(1, n - 1) =~= ls.subrange(1, n).drop_last());
        assert(flat(t, ls) =~= t[ls[0]].cells + flat(t, ls.subrange(1, n)));
    }
}

/// The rows of a well-formed tree are the cells of its leaves in order.
pub proof fn lemma_rows(t: Seq<Node>, sh: Shape, pend: Pending)
    requires
        inv(t, sh, pend),
    ensures
        rows_of(t) == flat(t, sh.leaves),
{
    assert(node_ok(t, sh, pend, 0));
    lemma_first_leaf(t, sh, pend, 0, TABLE_MAX_PAGES as nat);
    lemma_chain(t, sh, pend, 0, TABLE_MAX_PAGES as nat);
    assert(sh.leaves.subrange(0, sh.leaves.len() as int) =~= sh.leaves);
}

/// Whether the part of the tree below `p` is whole while `pend` waits.
pub open spec fn settled(sh: Shape, pend: Pending, p: int) -> bool {
    match pend {
        Pending::Child { parent, child, after } => sh.height[p] < sh.height[parent] || p
            == parent,
        _ => true,
    }
}

/// The bound up to which the keys below `p` go at present: while a child
/// waits for its place behind the right child of `p`, the keys of that
/// child are not yet below `p`.
pub open spec fn reach(t: Seq<Node>, sh: Shape, pend: Pending, p: int) -> int {
    if !t[p].leaf && pending_after(pend, p, t[p].kids.len() - 1) {
        sh.lo[pending_child(pend)]
    } else {
        sh.hi[p]
    }
}

/// The largest key below a node lies in the range of the node, and is the
/// upper bound of the range where that is a key.
pub proof fn lemma_max_key(t: Seq<Node>, sh: Shape, pend: Pending, p: int, fuel: nat)
    requires
        inv(t, sh, pend),
        0 <= p < t.len(),
        fuel >= sh.height[p],
        settled(sh, pend, p),
        !(t[p].leaf && t[p].cells.len() == 0),
    ensures
        sh.lo[p] < max_key_of(t, p, fuel) <= reach(t, sh, pend, p),
        reach(t, sh, pend, p) < key_inf() ==> max_key_of(t, p, fuel) == reach(t, sh, pend, p),
    decreases fuel,
{
    assert(node_ok(t, sh, pend, p));
    if t[p].leaf {
    } else {
        let last = t[p].kids.len() - 1;
        assert(link_ok(t, sh, pend, p, last));
        let c = t[p].kids[last] as int;
        assert(node_ok(t, sh, pend, c));
        lemma_max_key(t, sh, pend, c, (fuel - 1) as nat);
        lemma_internal_keys_ascend(t, sh, pend, p);
        assert(link_ok(t, sh, pend, p, 0));
        assert(node_ok(t, sh, pend, t[p].kids[0] as int));
        if pending_after(pend, p, last - 1) {
            assert(link_ok(t, sh, pend, p, last - 1));
            assert(node_ok(t, sh, pend, pending_child(pend)));
        }
        assert(sh.lo[p] < t[p].keys[0]);
        assert(t[p].keys[0] <= t[p].keys[last - 1]);
        assert(sh.lo[p] <= sh.lo[c]);
        if t[c].leaf {
        } else {
            assert(!pending_after(pend, c, t[c].kids.len() - 1));
        }
    }
}

/// Going down along the last children from `p` ends, after at most `fuel`
/// steps, at a leaf that holds a key.
pub open spec fn spine_ok(t: Seq<Node>, p: int, fuel: nat) -> bool
    decreases fuel,
{
    &&& 0 <= p < t.len()
    &&& if t[p].leaf {
        t[p].cells.len() >= 1
    } else {
        &&& fuel > 0
        &&& t[p].kids.len() >= 1
        &&& spine_ok(t, t[p].kids[t[p].kids.len() - 1] as int, (fuel - 1) as nat)
    }
}

/// In a well-formed tree the way down along the last children ends at a
/// leaf that holds a key.
pub proof fn lemma_spine(t: Seq<Node>, sh: Shape, pend: Pending, p: int, fuel: nat)
    requires
        inv(t, sh, pend),
        0 <= p < t.len(),
        fuel >= sh.height[p],
        !(t[p].leaf && t[p].cells.len() == 0),
    ensures
        spine_ok(t, p, fuel),
    decreases fuel,
{
    assert(node_ok(t, sh, pend, p));
    if !t[p].leaf {
        let last = t[p].kids.len() - 1;
        assert(link_ok(t, sh, pend, p, last));
        let c = t[p].kids[last] as int;
        assert(node_ok(t, sh, pend, c));
        lemma_spine(t, sh, pend, c, (fuel - 1) as nat);
    }
}

/// The largest key below a node is the same for every number of steps
/// that reaches down to the leaf.
pub proof fn lemma_max_key_steps(t: Seq<Node>, p: int, fuel: nat, other: nat)
    requires
        spine_ok(t, p, fuel),
        spine_ok(t, p, other),
    ensures
        max_key_of(t, p, fuel) == max_key_of(t, p, other),
    decreases fuel,
{
    if !t[p].leaf {
        lemma_max_key_steps(
            t,
            t[p].kids[t[p].kids.len() - 1] as int,
            (fuel - 1) as nat,
            (other - 1) as nat,
        );
    }
}

/// The largest key below a node depends on the kinds, the cells and the
/// children of the nodes only.
pub proof fn lemma_max_key_frame(t: Seq<Node>, t2: Seq<Node>, p: int, fuel: nat)
    requires
        t.len() <= t2.len(),
        forall|q: int|
            0 <= q < t.len() ==> (#[trigger] t2[q]).leaf == t[q].leaf && t2[q].cells == t[q].cells
                && t2[q].kids == t[q].kids,
        spine_ok(t, p, fuel),
    ensures
        spine_ok(t2, p, fuel),
        max_key_of(t2, p, fuel) == max_key_of(t, p, fuel),
    decreases fuel,
{
    assert(t2[p].leaf == t[p].leaf);
    if !t[p].leaf {
        lemma_max_key_frame(t, t2, t[p].kids[t[p].kids.len() - 1] as int, (fuel - 1) as nat);
    }
}

} // verus!
