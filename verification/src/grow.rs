//! How an insertion changes the tree: each step of it, stated over the
//! nodes and the shape, with the proof that the tree stays well formed.

use vstd::prelude::*;
use crate::layout::{le_u32, LEAF_NODE_MAX_CELLS, ROW_SIZE};
use crate::node::{Entry, Node};
use crate::rows::{
    count_below, has_key, is_cell_lower_bound, lemma_flat_alike, lemma_flat_same, lemma_flat_split,
    lemma_rows_insert,
};
use crate::tree::{
    attached, chained, flat, internal_ok, inv, is_pending_child, key_inf, leaf_ok, leaves_ok,
    lemma_flat_front, lemma_internal_keys_ascend, lemma_leaf_rank, lemma_leftmost_leaf, link_ok,
    node_ok, pending_ok, Pending, Shape,
};

verus! {

/// A node whose parent lists it at place `w` is attached.
pub proof fn lemma_attached(t: Seq<Node>, q: int, w: int)
    requires
        0 <= t[q].parent < t.len(),
        !t[t[q].parent as int].leaf,
        0 <= w < t[t[q].parent as int].kids.len(),
        t[t[q].parent as int].kids[w] == q,
    ensures
        attached(t, q),
{
}

/// The place at which the parent of an attached node lists it.
pub open spec fn slot_of(t: Seq<Node>, q: int) -> int {
    choose|w: int|
        0 <= w < t[t[q].parent as int].kids.len() && #[trigger] t[t[q].parent as int].kids[w] == q
}

/// The parent of an attached node lists it at its place.
pub proof fn lemma_slot(t: Seq<Node>, q: int) -> (w: int)
    requires
        attached(t, q),
    ensures
        w == slot_of(t, q),
        0 <= w < t[t[q].parent as int].kids.len(),
        t[t[q].parent as int].kids[w] == q,
{
    slot_of(t, q)
}

/// A row that goes into ascending cells in front of the first cell with a
/// key at least as large, where no cell has its key, leaves them
/// ascending.
pub proof fn lemma_cells_insert(nd: Node, i: int, e: Entry)
    requires
        is_cell_lower_bound(nd, e.key, i),
        i < nd.cells.len() ==> nd.cells[i].key != e.key,
        forall|a: int, b: int|
            0 <= a < b < nd.cells.len() ==> (#[trigger] nd.cells[a]).key < (
            #[trigger] nd.cells[b]).key,
    ensures
        forall|a: int, b: int|
            0 <= a < b < nd.cells.len() + 1 ==> (#[trigger] nd.cells.insert(i, e)[a]).key < (
            #[trigger] nd.cells.insert(i, e)[b]).key,
        forall|a: int|
            0 <= a < nd.cells.len() + 1 ==> #[trigger] nd.cells.insert(i, e)[a] == (if a < i {
                nd.cells[a]
            } else if a == i {
                e
            } else {
                nd.cells[a - 1]
            }),
{
    let old_cells = nd.cells;
    let all = old_cells.insert(i, e);
    assert forall|j: int| i <= j < old_cells.len() implies (#[trigger] old_cells[j]).key
        > e.key by {
        if j > i {
            assert(old_cells[i].key < old_cells[j].key);
        }
    }
    assert forall|a: int, b: int| 0 <= a < b < all.len() implies (#[trigger] all[a]).key < (
    #[trigger] all[b]).key by {
        let a0 = if a < i { a } else { a - 1 };
        let b0 = if b < i { b } else { b - 1 };
        if a != i && b != i {
            assert(old_cells[a0].key < old_cells[b0].key);
        } else if a == i {
            assert(old_cells[b0].key > e.key);
        } else {
            assert(old_cells[a0].key < e.key);
        }
    }
}

/// A row goes into a leaf that has room: the tree stays well formed, and
/// its rows get the row at the place where it belongs.
pub proof fn lemma_leaf_insert(t: Seq<Node>, sh: Shape, p: int, i: int, e: Entry, t2: Seq<Node>)
    requires
        inv(t, sh, Pending::Nothing),
        0 <= p < t.len(),
        t[p].leaf,
        sh.lo[p] < e.key <= sh.hi[p],
        is_cell_lower_bound(t[p], e.key, i),
        i < t[p].cells.len() ==> t[p].cells[i].key != e.key,
        t[p].cells.len() < LEAF_NODE_MAX_CELLS,
        e.value.len() == ROW_SIZE,
        le_u32(e.value, 0) == e.key,
        t2 == t.update(p, Node { cells: t[p].cells.insert(i, e), ..t[p] }),
    ensures
        inv(t2, sh, Pending::Nothing),
        flat(t2, sh.leaves) == flat(t, sh.leaves).insert(
            count_below(flat(t, sh.leaves), e.key),
            e,
        ),
        !has_key(flat(t, sh.leaves), e.key),
{
    let pend = Pending::Nothing;
    let old_cells = t[p].cells;
    let new_cells = old_cells.insert(i, e);
    assert(node_ok(t, sh, pend, p));
    assert forall|j: int| i <= j < old_cells.len() implies (#[trigger] old_cells[j]).key
        > e.key by {
        if j > i {
            assert(old_cells[i].key < old_cells[j].key);
        }
    }
    assert forall|q: int| 0 <= q < t2.len() implies #[trigger] node_ok(t2, sh, pend, q) by {
        assert(node_ok(t, sh, pend, q));
        if q != 0 {
            let w = lemma_slot(t, q);
            lemma_attached(t2, q, w);
        }
        if q == p {
            assert forall|a: int, b: int| 0 <= a < b < new_cells.len() implies (
            #[trigger] new_cells[a]).key < (#[trigger] new_cells[b]).key by {
                let a0 = if a < i { a } else { a - 1 };
                let b0 = if b < i { b } else { b - 1 };
                if a != i && b != i {
                    assert(old_cells[a0].key < old_cells[b0].key);
                } else if a == i {
                    assert(old_cells[b0].key > e.key);
                } else {
                    assert(old_cells[a0].key < e.key);
                }
            }
            assert forall|a: int| 0 <= a < new_cells.len() implies sh.lo[p] < (
            #[trigger] new_cells[a]).key <= sh.hi[p] && new_cells[a].value.len() == ROW_SIZE
                && le_u32(new_cells[a].value, 0) == new_cells[a].key by {
                if a < i {
                    assert(new_cells[a] == old_cells[a]);
                } else if a > i {
                    assert(new_cells[a] == old_cells[a - 1]);
                }
            }
            if sh.hi[p] < key_inf() {
                assert(i < old_cells.len()) by {
                    assert(old_cells[old_cells.len() - 1].key == sh.hi[p]);
                }
                assert(new_cells[new_cells.len() - 1] == old_cells[old_cells.len() - 1]);
            }
            assert(leaf_ok(t2, sh, q));
        } else if t[q].leaf {
            assert(leaf_ok(t2, sh, q));
        } else {
            assert forall|k: int| 0 <= k < t2[q].kids.len() implies #[trigger] link_ok(
                t2,
                sh,
                pend,
                q,
                k,
            ) by {
                assert(link_ok(t, sh, pend, q, k));
            }
        }
    }
    let r = lemma_leaf_rank(t, sh, pend, p);
    let n = sh.leaves.len() as int;
    let a = sh.leaves.subrange(0, r);
    let b = sh.leaves.subrange(r + 1, n);
    lemma_flat_split(t2, sh.leaves, r);
    assert forall|k: int| 0 <= k < a.len() implies t2[#[trigger] a[k]].cells
        == t[a[k]].cells by {
        assert(a[k] == sh.leaves[k]);
    }
    assert forall|k: int| 0 <= k < b.len() implies t2[#[trigger] b[k]].cells
        == t[b[k]].cells by {
        assert(b[k] == sh.leaves[r + 1 + k]);
    }
    lemma_flat_same(t, t2, a);
    lemma_flat_same(t, t2, b);
    lemma_rows_insert(t, sh, pend, r, i, e, flat(t2, sh.leaves));
    assert forall|k: int| 0 <= k < sh.leaves.len() - 1 implies #[trigger] chained(t2, sh, k) by {
        assert(chained(t, sh, k));
    }
    assert(leaves_ok(t2, sh));
}

/// The node that waits for its place goes into its parent, which has
/// room: the tree is whole again.
///
/// Where the node goes in front of another child, its cell holds the bound
/// of its own keys. Where it becomes the right child, the child that was
/// the right child gets a cell with the bound of that child's keys.
pub proof fn lemma_internal_insert(
    t: Seq<Node>,
    sh: Shape,
    parent: int,
    child: int,
    after: int,
    key: u32,
    t2: Seq<Node>,
)
    requires
        inv(t, sh, Pending::Child { parent, child, after }),
        t[parent].keys.len() < 3,
        after < t[parent].keys.len() ==> key == sh.hi[child],
        after == t[parent].keys.len() ==> key == sh.lo[child],
        t2 == t.update(
            parent,
            Node {
                keys: if after < t[parent].keys.len() {
                    t[parent].keys.insert(after + 1, key)
                } else {
                    t[parent].keys.push(key)
                },
                kids: t[parent].kids.insert(after + 1, child as u32),
                ..t[parent]
            },
        ),
    ensures
        inv(t2, sh, Pending::Nothing),
        flat(t2, sh.leaves) == flat(t, sh.leaves),
{
    let pend = Pending::Child { parent, child, after };
    let none = Pending::Nothing;
    let keys = t[parent].keys;
    let kids = t[parent].kids;
    let keys2 = t2[parent].keys;
    let kids2 = t2[parent].kids;
    let nk = keys.len() as int;
    assert(node_ok(t, sh, pend, parent));
    assert(node_ok(t, sh, pend, child));
    assert(link_ok(t, sh, pend, parent, after));
    assert forall|q: int| 0 <= q < t2.len() implies #[trigger] node_ok(t2, sh, none, q) by {
        assert(node_ok(t, sh, pend, q));
        if q != 0 {
            if q == child {
                lemma_attached(t2, q, after + 1);
            } else {
                let par = t[q].parent as int;
                let w = lemma_slot(t, q);
                if par == parent {
                    if w <= after {
                        lemma_attached(t2, q, w);
                    } else {
                        lemma_attached(t2, q, w + 1);
                    }
                } else {
                    lemma_attached(t2, q, w);
                }
            }
        }
        if q == parent {
            assert forall|k: int| 0 <= k < kids2.len() implies #[trigger] link_ok(
                t2,
                sh,
                none,
                q,
                k,
            ) by {
                if k <= after {
                    assert(link_ok(t, sh, pend, q, k));
                    assert(kids2[k] == kids[k]);
                } else if k == after + 1 {
                    assert(kids2[k] == child);
                } else {
                    assert(link_ok(t, sh, pend, q, k - 1));
                    assert(kids2[k] == kids[k - 1]);
                }
            }
            assert(internal_ok(t2, sh, none, q));
        } else if t[q].leaf {
            assert(leaf_ok(t2, sh, q));
        } else {
            assert forall|k: int| 0 <= k < t2[q].kids.len() implies #[trigger] link_ok(
                t2,
                sh,
                none,
                q,
                k,
            ) by {
                assert(link_ok(t, sh, pend, q, k));
            }
        }
    }
    assert forall|k: int| 0 <= k < sh.leaves.len() implies t2[#[trigger] sh.leaves[k]].cells
        == t[sh.leaves[k]].cells by {}
    lemma_flat_same(t, t2, sh.leaves);
    assert forall|k: int| 0 <= k < sh.leaves.len() - 1 implies #[trigger] chained(t2, sh, k) by {
        assert(chained(t, sh, k));
    }
    assert(leaves_ok(t2, sh));
}

/// The place of the leaf `p` among the leaves.
pub open spec fn rank_of(sh: Shape, p: int) -> int {
    choose|r: int| 0 <= r < sh.leaves.len() && #[trigger] sh.leaves[r] == p
}

/// The shape after the leaf `p` was split at key `mid`, its upper half
/// going to the new page `x`.
pub open spec fn leaf_split_shape(sh: Shape, p: int, x: int, mid: int) -> Shape {
    Shape {
        height: sh.height.insert(x, 0),
        lo: sh.lo.insert(x, mid),
        hi: sh.hi.insert(p, mid).insert(x, sh.hi[p]),
        leaves: sh.leaves.insert(rank_of(sh, p) + 1, x),
    }
}

/// What waits after the node `p` was split and its upper half went to the
/// page `x`: a new root where `p` is the root, else the insertion of `x`
/// into the parent of `p`, behind `p`, which is child `slot` there.
pub open spec fn split_pending(t: Seq<Node>, p: int, x: int, slot: int) -> Pending {
    if p == 0 {
        Pending::Root { child: x }
    } else {
        Pending::Child { parent: t[p].parent as int, child: x, after: slot }
    }
}

/// The nodes after a full leaf `p` was split for the row `e`, which
/// belongs at cell `i`: the first seven of the fourteen rows stay, the
/// other seven go to a new leaf on the next unused page, and the key of
/// `p` in its parent becomes the largest key that stays.
pub open spec fn leaf_split_nodes(t: Seq<Node>, p: int, i: int, e: Entry, slot: int) -> Seq<Node> {
    let all = t[p].cells.insert(i, e);
    let x = t.len() as int;
    let base = t.update(p, Node { cells: all.subrange(0, 7), next: x as u32, ..t[p] }).push(
        Node {
            leaf: true,
            is_root: false,
            parent: t[p].parent,
            cells: all.subrange(7, 14),
            next: t[p].next,
            keys: Seq::empty(),
            kids: Seq::empty(),
        },
    );
    let par = t[p].parent as int;
    if p == 0 || slot >= t[par].keys.len() {
        base
    } else {
        base.update(par, Node { keys: t[par].keys.update(slot, all[6].key), ..t[par] })
    }
}

/// What `lemma_leaf_split` asks for.
pub open spec fn leaf_split_pre(t: Seq<Node>, sh: Shape, p: int, i: int, e: Entry, slot: int) -> bool {
    &&& inv(t, sh, Pending::Nothing)
    &&& t.len() < 100
    &&& 0 <= p < t.len()
    &&& t[p].leaf
    &&& sh.lo[p] < e.key <= sh.hi[p]
    &&& is_cell_lower_bound(t[p], e.key, i)
    &&& i < t[p].cells.len() ==> t[p].cells[i].key != e.key
    &&& t[p].cells.len() == 13
    &&& e.value.len() == ROW_SIZE
    &&& le_u32(e.value, 0) == e.key
    &&& p != 0 ==> 0 <= slot < t[t[p].parent as int].kids.len() && t[t[p].parent as int].kids[slot]
        == p
}

/// The key at which a full leaf is split.
pub open spec fn leaf_split_mid(t: Seq<Node>, p: int, i: int, e: Entry) -> int {
    t[p].cells.insert(i, e)[6].key as int
}

/// Of the fourteen rows of a leaf that is split, the order and the bounds.
proof fn lemma_leaf_split_cells(t: Seq<Node>, sh: Shape, p: int, i: int, e: Entry, slot: int)
    requires
        leaf_split_pre(t, sh, p, i, e, slot),
    ensures
        forall|a: int, b: int|
            0 <= a < b < 14 ==> (#[trigger] t[p].cells.insert(i, e)[a]).key < (
            #[trigger] t[p].cells.insert(i, e)[b]).key,
        forall|a: int|
            0 <= a < 14 ==> sh.lo[p] < (#[trigger] t[p].cells.insert(i, e)[a]).key <= sh.hi[p]
                && t[p].cells.insert(i, e)[a].value.len() == ROW_SIZE && le_u32(
                t[p].cells.insert(i, e)[a].value,
                0,
            ) == t[p].cells.insert(i, e)[a].key,
        sh.hi[p] < key_inf() ==> t[p].cells.insert(i, e)[13].key == sh.hi[p],
        sh.lo[p] < leaf_split_mid(t, p, i, e) < sh.hi[p],
{
    let none = Pending::Nothing;
    let old_cells = t[p].cells;
    let all = old_cells.insert(i, e);
    assert(node_ok(t, sh, none, p));
    lemma_cells_insert(t[p], i, e);
    assert forall|a: int| 0 <= a < 14 implies sh.lo[p] < (#[trigger] all[a]).key <= sh.hi[p]
        && all[a].value.len() == ROW_SIZE && le_u32(all[a].value, 0) == all[a].key by {
        if a < i {
            assert(all[a] == old_cells[a]);
        } else if a > i {
            assert(all[a] == old_cells[a - 1]);
        }
    }
    if sh.hi[p] < key_inf() {
        assert(i < 13) by {
            assert(old_cells[12].key == sh.hi[p]);
        }
        assert(all[13] == old_cells[12]);
    }
    assert(all[6].key < all[13].key);
}

/// After the split of a leaf the two halves are well-formed leaves.
proof fn lemma_leaf_split_halves(t: Seq<Node>, sh: Shape, p: int, i: int, e: Entry, slot: int)
    requires
        leaf_split_pre(t, sh, p, i, e, slot),
    ensures
        leaf_ok(
            leaf_split_nodes(t, p, i, e, slot),
            leaf_split_shape(sh, p, t.len() as int, leaf_split_mid(t, p, i, e)),
            p,
        ),
        leaf_ok(
            leaf_split_nodes(t, p, i, e, slot),
            leaf_split_shape(sh, p, t.len() as int, leaf_split_mid(t, p, i, e)),
            t.len() as int,
        ),
{
    let none = Pending::Nothing;
    let x = t.len() as int;
    let all = t[p].cells.insert(i, e);
    let mid = leaf_split_mid(t, p, i, e);
    let t2 = leaf_split_nodes(t, p, i, e, slot);
    let sh2 = leaf_split_shape(sh, p, x, mid);
    let r = lemma_leaf_rank(t, sh, none, p);
    assert(rank_of(sh, p) == r);
    assert(node_ok(t, sh, none, p));
    lemma_leaf_split_cells(t, sh, p, i, e, slot);
    if p != 0 {
        assert(!t[t[p].parent as int].leaf);
    }
    assert(t2[p].cells == all.subrange(0, 7));
    assert(t2[x].cells == all.subrange(7, 14));
    let c = t2[x].cells;
    assert forall|a: int, b: int| 0 <= a < b < c.len() implies (#[trigger] c[a]).key < (
    #[trigger] c[b]).key by {
        assert(all[a + 7].key < all[b + 7].key);
    }
    assert forall|a: int| 0 <= a < c.len() implies sh2.lo[x] < (#[trigger] c[a]).key <= sh2.hi[x]
        && c[a].value.len() == ROW_SIZE && le_u32(c[a].value, 0) == c[a].key by {
        assert(c[a] == all[a + 7]);
        assert(all[6].key < all[a + 7].key);
    }
    assert(c[6] == all[13]);
    assert(sh2.leaves[r + 1] == x);
    if t[p].next != 0 {
        assert(node_ok(t, sh, none, t[p].next as int));
    }
    assert(leaf_ok(t2, sh2, x));
    let d = t2[p].cells;
    assert forall|a: int, b: int| 0 <= a < b < d.len() implies (#[trigger] d[a]).key < (
    #[trigger] d[b]).key by {
        assert(all[a].key < all[b].key);
    }
    assert forall|a: int| 0 <= a < d.len() implies sh2.lo[p] < (#[trigger] d[a]).key <= sh2.hi[p]
        && d[a].value.len() == ROW_SIZE && le_u32(d[a].value, 0) == d[a].key by {
        assert(d[a] == all[a]);
        if a < 6 {
            assert(all[a].key < all[6].key);
        }
    }
    assert(d[6] == all[6]);
    assert(sh2.leaves[r] == p);
    assert(leaf_ok(t2, sh2, p));
}

/// After the split of a leaf every node is as it has to be.
proof fn lemma_leaf_split_node(
    t: Seq<Node>,
    sh: Shape,
    p: int,
    i: int,
    e: Entry,
    slot: int,
    q: int,
)
    requires
        leaf_split_pre(t, sh, p, i, e, slot),
        0 <= q <= t.len(),
    ensures
        node_ok(
            leaf_split_nodes(t, p, i, e, slot),
            leaf_split_shape(sh, p, t.len() as int, leaf_split_mid(t, p, i, e)),
            split_pending(t, p, t.len() as int, slot),
            q,
        ),
{
    let none = Pending::Nothing;
    let x = t.len() as int;
    let mid = leaf_split_mid(t, p, i, e);
    let t2 = leaf_split_nodes(t, p, i, e, slot);
    let sh2 = leaf_split_shape(sh, p, x, mid);
    let pend2 = split_pending(t, p, x, slot);
    let par = t[p].parent as int;
    let r = lemma_leaf_rank(t, sh, none, p);
    assert(rank_of(sh, p) == r);
    assert(node_ok(t, sh, none, p));
    assert(node_ok(t, sh, none, 0));
    lemma_leaf_split_cells(t, sh, p, i, e, slot);
    lemma_leaf_split_halves(t, sh, p, i, e, slot);
    if p != 0 {
        assert(node_ok(t, sh, none, par));
        assert(link_ok(t, sh, none, par, slot));
    }
    if q == x {
    } else {
        assert(node_ok(t, sh, none, q));
        if q != 0 {
            let w = lemma_slot(t, q);
            lemma_attached(t2, q, w);
        }
        if q == p {
        } else if t[q].leaf {
            let rq = lemma_leaf_rank(t, sh, none, q);
            if rq < r {
                assert(sh2.leaves[rq] == q);
            } else {
                assert(sh2.leaves[rq + 1] == q);
            }
            if t[q].next != 0 {
                assert(node_ok(t, sh, none, t[q].next as int));
            }
            assert(leaf_ok(t2, sh2, q));
        } else {
            assert forall|k: int| 0 <= k < t2[q].kids.len() implies #[trigger] link_ok(
                t2,
                sh2,
                pend2,
                q,
                k,
            ) by {
                assert(link_ok(t, sh, none, q, k));
                if k > 0 {
                    assert(link_ok(t, sh, none, q, k - 1));
                }
                let c = t[q].kids[k] as int;
                if c == p && k != slot {
                    lemma_internal_keys_ascend(t, sh, none, q);
                    assert(link_ok(t, sh, none, q, slot));
                    assert(node_ok(t, sh, none, p));
                    if k < slot {
                        assert(t[q].keys[k] <= t[q].keys[slot - 1]);
                    } else {
                        assert(t[q].keys[slot] <= t[q].keys[k - 1]);
                    }
                    assert(false);
                }
            }
            assert(internal_ok(t2, sh2, pend2, q));
        }
    }
}

/// After the split of a leaf the leaves are the chain of leaves.
proof fn lemma_leaf_split_leaves(t: Seq<Node>, sh: Shape, p: int, i: int, e: Entry, slot: int)
    requires
        leaf_split_pre(t, sh, p, i, e, slot),
    ensures
        leaves_ok(
            leaf_split_nodes(t, p, i, e, slot),
            leaf_split_shape(sh, p, t.len() as int, leaf_split_mid(t, p, i, e)),
        ),
{
    let none = Pending::Nothing;
    let x = t.len() as int;
    let mid = leaf_split_mid(t, p, i, e);
    let t2 = leaf_split_nodes(t, p, i, e, slot);
    let sh2 = leaf_split_shape(sh, p, x, mid);
    let r = lemma_leaf_rank(t, sh, none, p);
    assert(rank_of(sh, p) == r);
    let n = sh.leaves.len() as int;
    assert(node_ok(t, sh, none, p));
    if p != 0 {
        assert(!t[t[p].parent as int].leaf);
    }
    assert forall|k: int| 0 <= k < sh2.leaves.len() implies 0 <= (#[trigger] sh2.leaves[k])
        < t2.len() && t2[sh2.leaves[k]].leaf by {
        if k <= r {
            assert(sh2.leaves[k] == sh.leaves[k]);
        } else if k > r + 1 {
            assert(sh2.leaves[k] == sh.leaves[k - 1]);
        }
    }
    assert forall|k: int| 0 <= k < sh2.leaves.len() - 1 implies #[trigger] chained(
        t2,
        sh2,
        k,
    ) by {
        if k < r {
            assert(chained(t, sh, k));
            assert(sh2.leaves[k] == sh.leaves[k]);
            assert(sh2.leaves[k + 1] == sh.leaves[k + 1]);
            lemma_leaf_rank(t, sh, none, sh.leaves[k]);
        } else if k == r {
            assert(sh2.leaves[k] == p);
            assert(sh2.leaves[k + 1] == x);
        } else if k == r + 1 {
            assert(chained(t, sh, r));
            assert(sh2.leaves[k] == x);
            assert(sh2.leaves[k + 1] == sh.leaves[r + 1]);
        } else {
            assert(chained(t, sh, k - 1));
            assert(sh2.leaves[k] == sh.leaves[k - 1]);
            assert(sh2.leaves[k + 1] == sh.leaves[k]);
            lemma_leaf_rank(t, sh, none, sh.leaves[k - 1]);
        }
    }
    if r == n - 1 {
        assert(sh2.leaves[n] == x);
    } else {
        assert(sh2.leaves[n] == sh.leaves[n - 1]);
    }
    assert(sh2.leaves[0] == sh.leaves[0]);
}

/// After the split of a leaf the rows are those from before and the new
/// one.
proof fn lemma_leaf_split_rows(t: Seq<Node>, sh: Shape, p: int, i: int, e: Entry, slot: int)
    requires
        leaf_split_pre(t, sh, p, i, e, slot),
    ensures
        flat(
            leaf_split_nodes(t, p, i, e, slot),
            leaf_split_shape(sh, p, t.len() as int, leaf_split_mid(t, p, i, e)).leaves,
        ) == flat(t, sh.leaves).insert(count_below(flat(t, sh.leaves), e.key), e),
        !has_key(flat(t, sh.leaves), e.key),
{
    let none = Pending::Nothing;
    let x = t.len() as int;
    let all = t[p].cells.insert(i, e);
    let mid = leaf_split_mid(t, p, i, e);
    let t2 = leaf_split_nodes(t, p, i, e, slot);
    let sh2 = leaf_split_shape(sh, p, x, mid);
    let r = lemma_leaf_rank(t, sh, none, p);
    assert(rank_of(sh, p) == r);
    let n = sh.leaves.len() as int;
    assert(node_ok(t, sh, none, p));
    if p != 0 {
        assert(!t[t[p].parent as int].leaf);
    }
    assert(t2[p].cells == all.subrange(0, 7));
    assert(t2[x].cells == all.subrange(7, 14));
    let a = sh.leaves.subrange(0, r);
    let b = sh.leaves.subrange(r + 1, n);
    let ls2 = sh2.leaves;
    lemma_flat_split(t2, ls2, r);
    let rest = ls2.subrange(r + 1, n + 1);
    lemma_flat_front(t2, rest);
    assert(rest[0] == x);
    assert(ls2.subrange(0, r) =~= a);
    assert(rest.subrange(1, rest.len() as int) =~= b);
    assert forall|k: int| 0 <= k < a.len() implies t2[#[trigger] a[k]].cells
        == t[a[k]].cells by {
        assert(a[k] == sh.leaves[k]);
    }
    assert forall|k: int| 0 <= k < b.len() implies t2[#[trigger] b[k]].cells
        == t[b[k]].cells by {
        assert(b[k] == sh.leaves[r + 1 + k]);
    }
    lemma_flat_same(t, t2, a);
    lemma_flat_same(t, t2, b);
    assert(all.subrange(0, 7) + all.subrange(7, 14) =~= all);
    assert(flat(t2, ls2) =~= flat(t, a) + all + flat(t, b));
    lemma_rows_insert(t, sh, none, r, i, e, flat(t2, ls2));
}

/// A row goes into a full leaf, which is split: the tree is well formed
/// but for the new leaf, which waits for its place, and the rows get the
/// row at the place where it belongs.
pub proof fn lemma_leaf_split(t: Seq<Node>, sh: Shape, p: int, i: int, e: Entry, slot: int)
    requires
        leaf_split_pre(t, sh, p, i, e, slot),
    ensures
        inv(
            leaf_split_nodes(t, p, i, e, slot),
            leaf_split_shape(sh, p, t.len() as int, leaf_split_mid(t, p, i, e)),
            split_pending(t, p, t.len() as int, slot),
        ),
        flat(
            leaf_split_nodes(t, p, i, e, slot),
            leaf_split_shape(sh, p, t.len() as int, leaf_split_mid(t, p, i, e)).leaves,
        ) == flat(t, sh.leaves).insert(count_below(flat(t, sh.leaves), e.key), e),
        !has_key(flat(t, sh.leaves), e.key),
{
    let none = Pending::Nothing;
    let x = t.len() as int;
    let mid = leaf_split_mid(t, p, i, e);
    let t2 = leaf_split_nodes(t, p, i, e, slot);
    let sh2 = leaf_split_shape(sh, p, x, mid);
    let pend2 = split_pending(t, p, x, slot);
    let par = t[p].parent as int;
    assert(node_ok(t, sh, none, p));
    assert(node_ok(t, sh, none, 0));
    lemma_leaf_split_cells(t, sh, p, i, e, slot);
    if p != 0 {
        assert(node_ok(t, sh, none, par));
        assert(link_ok(t, sh, none, par, slot));
        if slot + 1 < t[par].kids.len() {
            assert(link_ok(t, sh, none, par, slot + 1));
        }
    }
    assert(pending_ok(t2, sh2, pend2));
    assert forall|q: int| 0 <= q < t2.len() implies #[trigger] node_ok(t2, sh2, pend2, q) by {
        lemma_leaf_split_node(t, sh, p, i, e, slot, q);
    }
    lemma_leaf_split_leaves(t, sh, p, i, e, slot);
    lemma_leaf_split_rows(t, sh, p, i, e, slot);
}

/// The nodes after a new root was made above the old root and the node
/// `x` that holds its upper half: the old root moves to the next unused
/// page, and the root page becomes an internal node with these two
/// children.
pub open spec fn new_root_nodes(t: Seq<Node>, sh: Shape, x: int) -> Seq<Node> {
    let left = t.len() as int;
    Seq::new(
        t.len() + 1,
        |q: int|
            if q == 0 {
                Node {
                    leaf: false,
                    is_root: true,
                    parent: t[0].parent,
                    cells: Seq::empty(),
                    next: 0,
                    keys: seq![sh.hi[0] as u32],
                    kids: seq![left as u32, x as u32],
                }
            } else if q == left {
                Node { is_root: false, parent: 0, ..t[0] }
            } else if q == x {
                Node { parent: 0, ..t[q] }
            } else if t[q].parent == 0 {
                Node { parent: left as u32, ..t[q] }
            } else {
                t[q]
            },
    )
}

/// The shape after a new root was made.
pub open spec fn new_root_shape(t: Seq<Node>, sh: Shape) -> Shape {
    let left = t.len() as int;
    Shape {
        height: sh.height.insert(left, sh.height[0]).insert(0, sh.height[0] + 1),
        lo: sh.lo.insert(left, -1),
        hi: sh.hi.insert(left, sh.hi[0]).insert(0, key_inf()),
        leaves: if t[0].leaf {
            sh.leaves.update(0, left)
        } else {
            sh.leaves
        },
    }
}

/// What `lemma_new_root` asks for.
pub open spec fn new_root_pre(t: Seq<Node>, sh: Shape, x: int) -> bool {
    &&& inv(t, sh, Pending::Root { child: x })
    &&& t.len() < 100
}

/// After a new root was made every node is as it has to be.
proof fn lemma_new_root_node(t: Seq<Node>, sh: Shape, x: int, q: int)
    requires
        new_root_pre(t, sh, x),
        0 <= q <= t.len(),
    ensures
        node_ok(new_root_nodes(t, sh, x), new_root_shape(t, sh), Pending::Nothing, q),
{
    let pend = Pending::Root { child: x };
    let none = Pending::Nothing;
    let left = t.len() as int;
    let t2 = new_root_nodes(t, sh, x);
    let sh2 = new_root_shape(t, sh);
    assert(node_ok(t, sh, pend, 0));
    assert(node_ok(t, sh, pend, x));
    if t[0].leaf {
        lemma_leftmost_leaf(t, sh, pend, 0);
    }
    if q == 0 {
        assert forall|k: int| 0 <= k < t2[0].kids.len() implies #[trigger] link_ok(
            t2,
            sh2,
            none,
            0,
            k,
        ) by {}
        assert(internal_ok(t2, sh2, none, 0));
    } else if q == left {
        lemma_attached(t2, q, 0);
        if t[0].leaf {
            if t[0].next != 0 {
                assert(node_ok(t, sh, pend, t[0].next as int));
            }
            assert(sh2.leaves[0] == left);
            assert(leaf_ok(t2, sh2, q));
        } else {
            assert forall|k: int| 0 <= k < t2[q].kids.len() implies #[trigger] link_ok(
                t2,
                sh2,
                none,
                q,
                k,
            ) by {
                assert(link_ok(t, sh, pend, 0, k));
                let c = t[0].kids[k] as int;
                assert(node_ok(t, sh, pend, c));
            }
            assert(internal_ok(t2, sh2, none, q));
        }
    } else {
        assert(node_ok(t, sh, pend, q));
        if q == x {
            lemma_attached(t2, q, 1);
        } else {
            let w = lemma_slot(t, q);
            lemma_attached(t2, q, w);
        }
        if t[q].leaf {
            let rq = lemma_leaf_rank(t, sh, pend, q);
            assert(sh2.leaves[rq] == q);
            if t[q].next != 0 {
                assert(node_ok(t, sh, pend, t[q].next as int));
            }
            assert(leaf_ok(t2, sh2, q));
        } else {
            assert forall|k: int| 0 <= k < t2[q].kids.len() implies #[trigger] link_ok(
                t2,
                sh2,
                none,
                q,
                k,
            ) by {
                assert(link_ok(t, sh, pend, q, k));
                let c = t[q].kids[k] as int;
                assert(node_ok(t, sh, pend, c));
            }
            assert(internal_ok(t2, sh2, none, q));
        }
    }
}

/// A new root is made above the root that was split: the tree is whole
/// again, one level higher, and holds the same rows.
pub proof fn lemma_new_root(t: Seq<Node>, sh: Shape, x: int)
    requires
        new_root_pre(t, sh, x),
    ensures
        inv(new_root_nodes(t, sh, x), new_root_shape(t, sh), Pending::Nothing),
        flat(new_root_nodes(t, sh, x), new_root_shape(t, sh).leaves) == flat(t, sh.leaves),
{
    let pend = Pending::Root { child: x };
    let none = Pending::Nothing;
    let left = t.len() as int;
    let t2 = new_root_nodes(t, sh, x);
    let sh2 = new_root_shape(t, sh);
    assert(node_ok(t, sh, pend, 0));
    assert(node_ok(t, sh, pend, x));
    assert forall|q: int| 0 <= q < t2.len() implies #[trigger] node_ok(t2, sh2, none, q) by {
        lemma_new_root_node(t, sh, x, q);
    }
    if t[0].leaf {
        lemma_leftmost_leaf(t, sh, pend, 0);
    }
    assert forall|k: int| 0 <= k < sh2.leaves.len() implies 0 <= (#[trigger] sh2.leaves[k])
        < t2.len() && t2[sh2.leaves[k]].leaf && t2[sh2.leaves[k]].cells
        == t[sh.leaves[k]].cells && t2[sh2.leaves[k]].next == t[sh.leaves[k]].next by {
        lemma_leaf_rank(t, sh, pend, sh.leaves[k]);
        if k > 0 {
            assert(sh2.leaves[k] == sh.leaves[k]);
        }
    }
    assert forall|k: int| 0 <= k < sh2.leaves.len() - 1 implies #[trigger] chained(
        t2,
        sh2,
        k,
    ) by {
        assert(chained(t, sh, k));
        lemma_leaf_rank(t, sh, pend, sh.leaves[k]);
        lemma_leaf_rank(t, sh, pend, sh.leaves[k + 1]);
        assert(sh2.leaves[k + 1] == sh.leaves[k + 1]);
    }
    let last = sh.leaves.len() - 1;
    lemma_leaf_rank(t, sh, pend, sh.leaves[last]);
    lemma_leaves_ordered_all(t, sh, pend);
    assert(leaves_ok(t2, sh2));
    lemma_flat_alike(t, sh.leaves, t2, sh2.leaves);
}

/// No leaf but the last has a range that reaches up to the bound above
/// every key.
pub proof fn lemma_leaves_ordered_all(t: Seq<Node>, sh: Shape, pend: Pending)
    requires
        inv(t, sh, pend),
    ensures
        forall|r: int|
            0 <= r < sh.leaves.len() - 1 ==> sh.hi[#[trigger] sh.leaves[r]] < key_inf(),
{
    assert forall|r: int| 0 <= r < sh.leaves.len() - 1 implies sh.hi[#[trigger] sh.leaves[r]]
        < key_inf() by {
        assert(chained(t, sh, r));
        assert(node_ok(t, sh, pend, sh.leaves[r + 1]));
    }
}

/// The children of `parent` with the waiting child at its place.
pub open spec fn virt_kids(t: Seq<Node>, parent: int, child: int, after: int) -> Seq<u32> {
    t[parent].kids.insert(after + 1, child as u32)
}

/// The keys between the children of `parent` with the waiting child at its
/// place.
pub open spec fn virt_keys(t: Seq<Node>, sh: Shape, parent: int, child: int, after: int) -> Seq<
    u32,
> {
    if after < t[parent].keys.len() {
        t[parent].keys.insert(after + 1, sh.hi[child] as u32)
    } else {
        t[parent].keys.push(sh.lo[child] as u32)
    }
}

/// With the waiting child at its place, the children of its parent cover
/// the range of the parent without a gap, each up to the key behind it.
pub proof fn lemma_virtual_chain(t: Seq<Node>, sh: Shape, parent: int, child: int, after: int)
    requires
        inv(t, sh, Pending::Child { parent, child, after }),
    ensures
        virt_kids(t, parent, child, after).len() == t[parent].keys.len() + 2,
        virt_keys(t, sh, parent, child, after).len() == t[parent].keys.len() + 1,
        forall|k: int|
            0 <= k < t[parent].keys.len() + 2 ==> {
                let c = (#[trigger] virt_kids(t, parent, child, after)[k]) as int;
                &&& 0 < c < t.len()
                &&& c != parent
                &&& t[c].parent == parent
                &&& sh.height[c] + 1 == sh.height[parent]
                &&& sh.lo[c] < sh.hi[c]
                &&& sh.lo[c] == if k == 0 {
                    sh.lo[parent]
                } else {
                    virt_keys(t, sh, parent, child, after)[k - 1] as int
                }
                &&& sh.hi[c] == if k < t[parent].keys.len() + 1 {
                    virt_keys(t, sh, parent, child, after)[k] as int
                } else {
                    sh.hi[parent]
                }
            },
{
    let pend = Pending::Child { parent, child, after };
    let v = virt_kids(t, parent, child, after);
    let ks = virt_keys(t, sh, parent, child, after);
    let kids = t[parent].kids;
    let keys = t[parent].keys;
    let nk = keys.len() as int;
    assert(node_ok(t, sh, pend, parent));
    assert(node_ok(t, sh, pend, child));
    assert(link_ok(t, sh, pend, parent, after));
    assert(node_ok(t, sh, pend, kids[after] as int));
    assert forall|k: int| 0 <= k < nk + 2 implies {
        let c = (#[trigger] v[k]) as int;
        &&& 0 < c < t.len()
        &&& c != parent
        &&& t[c].parent == parent
        &&& sh.height[c] + 1 == sh.height[parent]
        &&& sh.lo[c] < sh.hi[c]
        &&& sh.lo[c] == if k == 0 {
            sh.lo[parent]
        } else {
            ks[k - 1] as int
        }
        &&& sh.hi[c] == if k < nk + 1 {
            ks[k] as int
        } else {
            sh.hi[parent]
        }
    } by {
        if k <= after {
            assert(link_ok(t, sh, pend, parent, k));
            assert(v[k] == kids[k]);
            assert(node_ok(t, sh, pend, kids[k] as int));
        } else if k == after + 1 {
            assert(v[k] == child);
            if after + 1 < kids.len() {
                assert(link_ok(t, sh, pend, parent, after + 1));
                assert(node_ok(t, sh, pend, kids[after + 1] as int));
            }
        } else {
            assert(link_ok(t, sh, pend, parent, k - 1));
            assert(v[k] == kids[k - 1]);
            assert(node_ok(t, sh, pend, kids[k - 1] as int));
        }
    }
}

/// How many of the five children stay in a full node that is split.
pub open spec fn split_left(after: int) -> int {
    if after == 0 {
        3
    } else {
        2
    }
}

/// The key at which a full internal node is split.
pub open spec fn internal_split_mid(t: Seq<Node>, sh: Shape, parent: int, child: int, after: int) -> u32 {
    virt_keys(t, sh, parent, child, after)[split_left(after) - 1]
}

/// The nodes after the full internal node `parent` was split for the
/// waiting child: the lower children stay, the upper ones go to a new node
/// on the next unused page, and the key of `parent` in its own parent
/// becomes the bound of the children that stay.
pub open spec fn internal_split_nodes(
    t: Seq<Node>,
    sh: Shape,
    parent: int,
    child: int,
    after: int,
    slot: int,
) -> Seq<Node> {
    let v = virt_kids(t, parent, child, after);
    let ks = virt_keys(t, sh, parent, child, after);
    let l = split_left(after);
    let y = t.len() as int;
    let up = t[parent].parent as int;
    Seq::new(
        t.len() + 1,
        |q: int|
            if q == parent {
                Node { keys: ks.subrange(0, l - 1), kids: v.subrange(0, l), ..t[parent] }
            } else if q == y {
                Node {
                    leaf: false,
                    is_root: false,
                    parent: t[parent].parent,
                    cells: Seq::empty(),
                    next: 0,
                    keys: ks.subrange(l, 4),
                    kids: v.subrange(l, 5),
                }
            } else if parent != 0 && q == up {
                if slot < t[up].keys.len() {
                    Node { keys: t[up].keys.update(slot, ks[l - 1]), ..t[up] }
                } else {
                    t[up]
                }
            } else if (l == 2 && q == v[2]) || q == v[3] || q == v[4] {
                Node { parent: y as u32, ..t[q] }
            } else {
                t[q]
            },
    )
}

/// The shape after a full internal node was split.
pub open spec fn internal_split_shape(
    t: Seq<Node>,
    sh: Shape,
    parent: int,
    child: int,
    after: int,
) -> Shape {
    let y = t.len() as int;
    let mid = internal_split_mid(t, sh, parent, child, after) as int;
    Shape {
        height: sh.height.insert(y, sh.height[parent]),
        lo: sh.lo.insert(y, mid),
        hi: sh.hi.insert(parent, mid).insert(y, sh.hi[parent]),
        leaves: sh.leaves,
    }
}

/// What `lemma_internal_split` asks for.
pub open spec fn internal_split_pre(
    t: Seq<Node>,
    sh: Shape,
    parent: int,
    child: int,
    after: int,
    slot: int,
) -> bool {
    &&& inv(t, sh, Pending::Child { parent, child, after })
    &&& t.len() < 100
    &&& t[parent].keys.len() == 3
    &&& parent != 0 ==> 0 <= slot < t[t[parent].parent as int].kids.len()
        && t[t[parent].parent as int].kids[slot] == parent
}

/// After the split of an internal node the two halves are as they have to
/// be.
proof fn lemma_internal_split_halves(
    t: Seq<Node>,
    sh: Shape,
    parent: int,
    child: int,
    after: int,
    slot: int,
    q: int,
)
    requires
        internal_split_pre(t, sh, parent, child, after, slot),
        q == parent || q == t.len(),
    ensures
        node_ok(
            internal_split_nodes(t, sh, parent, child, after, slot),
            internal_split_shape(t, sh, parent, child, after),
            split_pending(t, parent, t.len() as int, slot),
            q,
        ),
{
    let pend = Pending::Child { parent, child, after };
    let v = virt_kids(t, parent, child, after);
    let ks = virt_keys(t, sh, parent, child, after);
    let l = split_left(after);
    let y = t.len() as int;
    let up = t[parent].parent as int;
    let t2 = internal_split_nodes(t, sh, parent, child, after, slot);
    let sh2 = internal_split_shape(t, sh, parent, child, after);
    let pend2 = split_pending(t, parent, y, slot);
    lemma_virtual_chain(t, sh, parent, child, after);
    assert(node_ok(t, sh, pend, parent));
    assert(node_ok(t, sh, pend, 0));
    let c0 = v[0] as int;
    let c1 = v[1] as int;
    let c2 = v[2] as int;
    let c3 = v[3] as int;
    let c4 = v[4] as int;
    if parent != 0 {
        assert(node_ok(t, sh, pend, up));
        assert(link_ok(t, sh, pend, up, slot));
    }
    assert(t2[c0].parent == (if 0 < l { parent } else { y }));
    assert(t2[c1].parent == (if 1 < l { parent } else { y }));
    assert(t2[c2].parent == (if 2 < l { parent } else { y }));
    assert(t2[c3].parent == y);
    assert(t2[c4].parent == y);
    if q == parent {
        if parent != 0 {
            assert(node_ok(t, sh, pend, up));
            lemma_attached(t2, q, slot);
        }
        assert forall|k: int| 0 <= k < t2[q].kids.len() implies #[trigger] link_ok(
            t2,
            sh2,
            pend2,
            q,
            k,
        ) by {
            assert(t2[q].kids[k] == v[k]);
        }
        assert(internal_ok(t2, sh2, pend2, q));
    } else {
        assert forall|k: int| 0 <= k < t2[q].kids.len() implies #[trigger] link_ok(
            t2,
            sh2,
            pend2,
            q,
            k,
        ) by {
            assert(t2[q].kids[k] == v[l + k]);
        }
        assert(internal_ok(t2, sh2, pend2, q));
    }
}

/// After the split of an internal node every node but the two halves and
/// the root is listed by its parent.
proof fn lemma_internal_split_attached(
    t: Seq<Node>,
    sh: Shape,
    parent: int,
    child: int,
    after: int,
    slot: int,
    q: int,
)
    requires
        internal_split_pre(t, sh, parent, child, after, slot),
        0 < q < t.len(),
        q != parent,
    ensures
        attached(internal_split_nodes(t, sh, parent, child, after, slot), q),
{
    let pend = Pending::Child { parent, child, after };
    let v = virt_kids(t, parent, child, after);
    let l = split_left(after);
    let y = t.len() as int;
    let up = t[parent].parent as int;
    let t2 = internal_split_nodes(t, sh, parent, child, after, slot);
    lemma_virtual_chain(t, sh, parent, child, after);
    assert(node_ok(t, sh, pend, parent));
    assert(node_ok(t, sh, pend, q));
    let c0 = v[0] as int;
    let c1 = v[1] as int;
    let c2 = v[2] as int;
    let c3 = v[3] as int;
    let c4 = v[4] as int;
    if parent != 0 {
        assert(node_ok(t, sh, pend, up));
        assert(link_ok(t, sh, pend, up, slot));
    }
    if q == child {
        assert(v[after + 1] == q);
        if after + 1 < l {
            lemma_attached(t2, q, after + 1);
        } else {
            lemma_attached(t2, q, after + 1 - l);
        }
    } else {
        let w = lemma_slot(t, q);
        if t[q].parent == parent {
            let wv = if w <= after { w } else { w + 1 };
            assert(v[wv] == q);
            if wv < l {
                lemma_attached(t2, q, wv);
            } else {
                lemma_attached(t2, q, wv - l);
            }
        } else {
            let qp = t[q].parent as int;
            assert(q != c0 && q != c1 && q != c2 && q != c3 && q != c4);
            assert(t2[q].parent == qp);
            assert(t2[qp].kids == t[qp].kids);
            lemma_attached(t2, q, w);
        }
    }
}

/// After the split of an internal node every node but the two halves is as
/// it has to be.
proof fn lemma_internal_split_other(
    t: Seq<Node>,
    sh: Shape,
    parent: int,
    child: int,
    after: int,
    slot: int,
    q: int,
)
    requires
        internal_split_pre(t, sh, parent, child, after, slot),
        0 <= q < t.len(),
        q != parent,
    ensures
        node_ok(
            internal_split_nodes(t, sh, parent, child, after, slot),
            internal_split_shape(t, sh, parent, child, after),
            split_pending(t, parent, t.len() as int, slot),
            q,
        ),
{
    let pend = Pending::Child { parent, child, after };
    let v = virt_kids(t, parent, child, after);
    let ks = virt_keys(t, sh, parent, child, after);
    let l = split_left(after);
    let y = t.len() as int;
    let up = t[parent].parent as int;
    let t2 = internal_split_nodes(t, sh, parent, child, after, slot);
    let sh2 = internal_split_shape(t, sh, parent, child, after);
    let pend2 = split_pending(t, parent, y, slot);
    lemma_virtual_chain(t, sh, parent, child, after);
    assert(node_ok(t, sh, pend, parent));
    assert(node_ok(t, sh, pend, 0));
    assert(node_ok(t, sh, pend, q));
    if q != 0 {
        lemma_internal_split_attached(t, sh, parent, child, after, slot, q);
    }
    if parent != 0 {
        assert(node_ok(t, sh, pend, up));
        assert(link_ok(t, sh, pend, up, slot));
    }
    assert(t2[q].leaf == t[q].leaf);
    assert(t2[q].cells == t[q].cells);
    assert(t2[q].next == t[q].next);
    assert(t2[q].kids == t[q].kids);
    assert(t2[q].is_root == t[q].is_root);
    if t[q].leaf {
        let rq = lemma_leaf_rank(t, sh, pend, q);
        assert(sh2.leaves[rq] == q);
        if t[q].next != 0 {
            let nx = t[q].next as int;
            assert(node_ok(t, sh, pend, nx));
            assert(t2[nx].leaf);
            assert(sh2.lo[nx] == sh.lo[nx]);
        }
        assert(sh2.hi[q] == sh.hi[q]);
        assert(sh2.lo[q] == sh.lo[q]);
        assert(sh2.height[q] == sh.height[q]);
        assert(leaf_ok(t, sh, q));
        assert(leaf_ok(t2, sh2, q));
    } else {
        assert forall|k: int| 0 <= k < t2[q].kids.len() implies #[trigger] link_ok(
            t2,
            sh2,
            pend2,
            q,
            k,
        ) by {
            assert(link_ok(t, sh, pend, q, k));
            if k > 0 {
                assert(link_ok(t, sh, pend, q, k - 1));
            }
            let c = t[q].kids[k] as int;
            assert(t[c].parent == q);
            assert(t2[c].parent == q);
            if c == parent && k != slot {
                lemma_internal_keys_ascend(t, sh, pend, q);
                if k < slot {
                    assert(t[q].keys[k] <= t[q].keys[slot - 1]);
                } else {
                    assert(t[q].keys[slot] <= t[q].keys[k - 1]);
                }
                assert(false);
            }
        }
        assert(internal_ok(t2, sh2, pend2, q));
    }
}

/// After the split of an internal node every node is as it has to be.
proof fn lemma_internal_split_node(
    t: Seq<Node>,
    sh: Shape,
    parent: int,
    child: int,
    after: int,
    slot: int,
    q: int,
)
    requires
        internal_split_pre(t, sh, parent, child, after, slot),
        0 <= q <= t.len(),
    ensures
        node_ok(
            internal_split_nodes(t, sh, parent, child, after, slot),
            internal_split_shape(t, sh, parent, child, after),
            split_pending(t, parent, t.len() as int, slot),
            q,
        ),
{
    if q == parent || q == t.len() {
        lemma_internal_split_halves(t, sh, parent, child, after, slot, q);
    } else {
        lemma_internal_split_other(t, sh, parent, child, after, slot, q);
    }
}

/// The waiting child goes into its parent, which is full and is split: the
/// tree is well formed but for the new node, which waits for its place,
/// and holds the same rows.
pub proof fn lemma_internal_split(
    t: Seq<Node>,
    sh: Shape,
    parent: int,
    child: int,
    after: int,
    slot: int,
)
    requires
        internal_split_pre(t, sh, parent, child, after, slot),
    ensures
        inv(
            internal_split_nodes(t, sh, parent, child, after, slot),
            internal_split_shape(t, sh, parent, child, after),
            split_pending(t, parent, t.len() as int, slot),
        ),
        flat(
            internal_split_nodes(t, sh, parent, child, after, slot),
            internal_split_shape(t, sh, parent, child, after).leaves,
        ) == flat(t, sh.leaves),
{
    let pend = Pending::Child { parent, child, after };
    let v = virt_kids(t, parent, child, after);
    let y = t.len() as int;
    let up = t[parent].parent as int;
    let t2 = internal_split_nodes(t, sh, parent, child, after, slot);
    let sh2 = internal_split_shape(t, sh, parent, child, after);
    let pend2 = split_pending(t, parent, y, slot);
    lemma_virtual_chain(t, sh, parent, child, after);
    assert(node_ok(t, sh, pend, parent));
    assert(node_ok(t, sh, pend, 0));
    if parent != 0 {
        assert(node_ok(t, sh, pend, up));
        assert(link_ok(t, sh, pend, up, slot));
        if slot + 1 < t[up].kids.len() {
            assert(link_ok(t, sh, pend, up, slot + 1));
        }
    }
    assert(pending_ok(t2, sh2, pend2));
    assert forall|q: int| 0 <= q < t2.len() implies #[trigger] node_ok(t2, sh2, pend2, q) by {
        lemma_internal_split_node(t, sh, parent, child, after, slot, q);
    }
    assert forall|k: int| 0 <= k < sh.leaves.len() implies t2[#[trigger] sh.leaves[k]].cells
        == t[sh.leaves[k]].cells && t2[sh.leaves[k]].leaf && t2[sh.leaves[k]].next
        == t[sh.leaves[k]].next by {}
    assert forall|k: int| 0 <= k < sh.leaves.len() - 1 implies #[trigger] chained(t2, sh2, k) by {
        assert(chained(t, sh, k));
        lemma_leaf_rank(t, sh, pend, sh.leaves[k]);
        lemma_leaf_rank(t, sh, pend, sh.leaves[k + 1]);
    }
    let last = sh.leaves.len() - 1;
    lemma_leaf_rank(t, sh, pend, sh.leaves[last]);
    lemma_leaf_rank(t, sh, pend, sh.leaves[0]);
    assert(leaves_ok(t2, sh2));
    lemma_flat_same(t, t2, sh.leaves);
}

/// The number of pages that the insertion of a child into the internal
/// node `p` takes: none where the node has room; else one for the split of
/// the node and what the insertion into its parent takes, or two where the
/// node is the root, which gets a new root above it.
pub open spec fn need_insert(t: Seq<Node>, p: int, fuel: nat) -> int
    decreases fuel,
{
    if fuel == 0 || !(0 <= p < t.len()) || t[p].keys.len() < 3 {
        0
    } else if p == 0 {
        2
    } else {
        1 + need_insert(t, t[p].parent as int, (fuel - 1) as nat)
    }
}

/// The number of pages that the insertion of a row into the leaf `p`
/// takes.
pub open spec fn need_leaf(t: Seq<Node>, sh: Shape, p: int) -> int {
    if t[p].cells.len() < 13 {
        0
    } else if p == 0 {
        2
    } else {
        1 + need_insert(t, t[p].parent as int, levels_above(sh, t[p].parent as int))
    }
}

/// What an insertion into `p` takes depends on the nodes from `p` up
/// only.
pub proof fn lemma_need_frame(
    t: Seq<Node>,
    sh: Shape,
    pend: Pending,
    t2: Seq<Node>,
    p: int,
    fuel: nat,
)
    requires
        inv(t, sh, pend),
        0 <= p < t.len() <= t2.len(),
        !t[p].leaf,
        forall|q: int|
            0 <= q < t.len() && sh.height[q] >= sh.height[p] ==> (#[trigger] t2[q]).keys.len()
                == t[q].keys.len() && t2[q].parent == t[q].parent,
        forall|q: int| #[trigger] is_pending_child(pend, q) ==> sh.height[q] < sh.height[p],
    ensures
        need_insert(t2, p, fuel) == need_insert(t, p, fuel),
    decreases fuel,
{
    assert(node_ok(t, sh, pend, p));
    assert(t2[p].keys.len() == t[p].keys.len());
    if fuel > 0 && t[p].keys.len() >= 3 && p != 0 {
        let up = t[p].parent as int;
        assert(!is_pending_child(pend, p)) by {
            if is_pending_child(pend, p) {
                assert(sh.height[p] < sh.height[p]);
            }
        }
        let w = lemma_slot(t, p);
        assert(node_ok(t, sh, pend, up));
        assert(link_ok(t, sh, pend, up, w));
        lemma_need_frame(t, sh, pend, t2, up, (fuel - 1) as nat);
    }
}

/// In ascending keys the place of the first key that is at least a given
/// key is one place only.
pub proof fn lemma_bound_unique(keys: Seq<u32>, key: u32, a: int, b: int)
    requires
        forall|i: int, j: int| 0 <= i < j < keys.len() ==> keys[i] < keys[j],
        0 <= a <= keys.len(),
        0 <= b <= keys.len(),
        forall|i: int| 0 <= i < a ==> keys[i] < key,
        a < keys.len() ==> keys[a] >= key,
        forall|i: int| 0 <= i < b ==> keys[i] < key,
        b < keys.len() ==> keys[b] >= key,
    ensures
        a == b,
{
    if a < b {
        assert(keys[a] < key);
    } else if b < a {
        assert(keys[b] < key);
    }
}

/// Where the largest key below the waiting child stands among the keys of
/// its parent, and how it compares with the largest key below the right
/// child of the parent.
pub proof fn lemma_insert_place(
    t: Seq<Node>,
    sh: Shape,
    parent: int,
    child: int,
    after: int,
    child_max: u32,
    right_max: u32,
)
    requires
        inv(t, sh, Pending::Child { parent, child, after }),
        sh.lo[child] < child_max <= sh.hi[child],
        sh.hi[child] < key_inf() ==> child_max == sh.hi[child],
        ({
            let rc = t[parent].kids[t[parent].kids.len() - 1] as int;
            sh.lo[rc] < right_max <= sh.hi[rc] && (sh.hi[rc] < key_inf() ==> right_max
                == sh.hi[rc])
        }),
    ensures
        after == t[parent].keys.len() <==> child_max > right_max,
        after == t[parent].keys.len() ==> right_max == sh.lo[child],
        after < t[parent].keys.len() ==> child_max == sh.hi[child],
        forall|i: int| 0 <= i <= after && i < t[parent].keys.len() ==> t[parent].keys[i] < child_max,
        forall|i: int| after < i < t[parent].keys.len() ==> t[parent].keys[i] > child_max,
        forall|i: int, j: int|
            0 <= i < j < t[parent].keys.len() ==> t[parent].keys[i] < t[parent].keys[j],
{
    let pend = Pending::Child { parent, child, after };
    let keys = t[parent].keys;
    let kids = t[parent].kids;
    let nk = keys.len() as int;
    lemma_internal_keys_ascend(t, sh, pend, parent);
    assert(node_ok(t, sh, pend, parent));
    assert(node_ok(t, sh, pend, child));
    assert(link_ok(t, sh, pend, parent, after));
    assert(link_ok(t, sh, pend, parent, nk));
    let rc = kids[nk] as int;
    assert(node_ok(t, sh, pend, rc));
    if after < nk {
        assert(link_ok(t, sh, pend, parent, after + 1));
        let nx = kids[after + 1] as int;
        assert(node_ok(t, sh, pend, nx));
        assert(keys[after] == sh.lo[child]);
        assert(sh.hi[child] == sh.lo[nx]);
        if after + 1 < nk {
            assert(keys[after + 1] == sh.hi[nx]);
            assert(keys[after + 1] <= keys[nk - 1]);
            assert(sh.lo[rc] == keys[nk - 1]);
        }
        assert forall|i: int| 0 <= i <= after && i < nk implies keys[i] < child_max by {
            if i < after {
                assert(keys[i] < keys[after]);
            }
        }
        assert forall|i: int| after < i < nk implies keys[i] > child_max by {
            if i > after + 1 {
                assert(keys[after + 1] < keys[i]);
            }
        }
    } else {
        assert forall|i: int| 0 <= i <= after && i < nk implies keys[i] < child_max by {
            assert(sh.lo[rc] == keys[nk - 1]);
            if i < nk - 1 {
                assert(keys[i] < keys[nk - 1]);
            }
        }
    }
}

/// The number of levels from the node `p` up to the root, both counted.
pub open spec fn levels_above(sh: Shape, p: int) -> nat {
    (sh.height[0] - sh.height[p] + 1) as nat
}

/// The place behind which the node `child` waits to go into `parent`.
pub open spec fn waits_behind(t: Seq<Node>, sh: Shape, parent: int, child: int) -> int {
    choose|after: int| inv(t, sh, Pending::Child { parent, child, after })
}

/// A node that waits for its place waits behind one child only.
pub proof fn lemma_waits_behind(t: Seq<Node>, sh: Shape, parent: int, child: int, after: int)
    requires
        inv(t, sh, Pending::Child { parent, child, after }),
    ensures
        waits_behind(t, sh, parent, child) == after,
{
    let other = waits_behind(t, sh, parent, child);
    let one = Pending::Child { parent, child, after };
    let two = Pending::Child { parent, child, after: other };
    assert(inv(t, sh, two));
    let keys = t[parent].keys;
    let kids = t[parent].kids;
    let nk = keys.len() as int;
    assert(node_ok(t, sh, one, parent));
    assert(node_ok(t, sh, one, child));
    lemma_internal_keys_ascend(t, sh, one, parent);
    if other != after {
        let a = if after < other {
            after
        } else {
            other
        };
        let b = if after < other {
            other
        } else {
            after
        };
        // under either reading child `a` ends where the waiting node begins, and so does
        // child `b`
        assert(link_ok(t, sh, one, parent, a));
        assert(link_ok(t, sh, one, parent, b));
        assert(link_ok(t, sh, one, parent, after));
        assert(node_ok(t, sh, one, kids[b] as int));
        assert(node_ok(t, sh, one, kids[a] as int));
        if a + 1 < kids.len() {
            assert(link_ok(t, sh, one, parent, a + 1));
            assert(node_ok(t, sh, one, kids[a + 1] as int));
        }
        assert(sh.hi[kids[a] as int] == sh.lo[child]);
        assert(sh.hi[kids[b] as int] == sh.lo[child]);
        if b < nk {
            assert(keys[a] < keys[b]);
        }
        if a + 1 < b {
            assert(link_ok(t, sh, one, parent, b - 1));
            if b - 1 < nk && a + 1 < b - 1 {
                assert(keys[a + 1] <= keys[b - 1]);
            }
        }
        assert(false);
    }
}

} // verus!
