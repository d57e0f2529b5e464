//! The rows of a tree as one sequence: how the cells of the leaves make it
//! up, that it ascends, and where a key stands in it.

use vstd::prelude::*;
use crate::node::{Entry, Node};
use crate::tree::{flat, inv, lemma_leaves_ordered, node_ok, Pending, Shape};

verus! {

/// `r` is the index of the first cell of the leaf whose key is at least
/// `key`, or the number of cells.
pub open spec fn is_cell_lower_bound(nd: Node, key: u32, r: int) -> bool {
    &&& 0 <= r <= nd.cells.len()
    &&& forall|i: int| 0 <= i < r ==> (#[trigger] nd.cells[i]).key < key
    &&& r < nd.cells.len() ==> nd.cells[r].key >= key
}

/// The keys of the rows ascend strictly.
pub open spec fn ascending(rows: Seq<Entry>) -> bool {
    forall|i: int, j: int| 0 <= i < j < rows.len() ==> (#[trigger] rows[i]).key < (
    #[trigger] rows[j]).key
}

/// The number of rows whose key is smaller than `key`: in ascending rows,
/// the place where a row with that key belongs.
pub open spec fn count_below(rows: Seq<Entry>, key: u32) -> int
    decreases rows.len(),
{
    if rows.len() == 0 {
        0
    } else {
        count_below(rows.drop_last(), key) + if rows.last().key < key {
            1int
        } else {
            0int
        }
    }
}

/// Whether a row has the key.
pub open spec fn has_key(rows: Seq<Entry>, key: u32) -> bool {
    exists|i: int| 0 <= i < rows.len() && (#[trigger] rows[i]).key == key
}

/// The rows of two runs of leaves, one after the other.
pub proof fn lemma_flat_concat(t: Seq<Node>, a: Seq<int>, b: Seq<int>)
    ensures
        flat(t, a + b) == flat(t, a) + flat(t, b),
    decreases b.len(),
{
    if b.len() == 0 {
        assert(a + b =~= a);
        assert(flat(t, a) + flat(t, b) =~= flat(t, a));
    } else {
        lemma_flat_concat(t, a, b.drop_last());
        assert((a + b).drop_last() =~= a + b.drop_last());
        assert(flat(t, a + b) =~= flat(t, a) + flat(t, b));
    }
}

/// The cells of the leaves are those in front of leaf `r`, then those of
/// leaf `r`, then those behind it.
pub proof fn lemma_flat_split(t: Seq<Node>, ls: Seq<int>, r: int)
    requires
        0 <= r < ls.len(),
    ensures
        flat(t, ls) == flat(t, ls.subrange(0, r)) + t[ls[r]].cells + flat(
            t,
            ls.subrange(r + 1, ls.len() as int),
        ),
{
    let a = ls.subrange(0, r);
    let one = seq![ls[r]];
    let b = ls.subrange(r + 1, ls.len() as int);
    assert(ls =~= (a + one) + b);
    lemma_flat_concat(t, a + one, b);
    lemma_flat_concat(t, a, one);
    assert(one.drop_last() =~= Seq::<int>::empty());
    assert(flat(t, one.drop_last()) =~= Seq::<Entry>::empty());
    assert(one.last() == ls[r]);
    assert(flat(t, one) =~= t[ls[r]].cells);
}

/// Leaves with the same cells give the same rows.
pub proof fn lemma_flat_same(t: Seq<Node>, t2: Seq<Node>, ls: Seq<int>)
    requires
        forall|i: int| 0 <= i < ls.len() ==> t2[#[trigger] ls[i]].cells == t[ls[i]].cells,
    ensures
        flat(t2, ls) == flat(t, ls),
    decreases ls.len(),
{
    if ls.len() > 0 {
        let d = ls.drop_last();
        assert forall|i: int| 0 <= i < d.len() implies t2[#[trigger] d[i]].cells
            == t[d[i]].cells by {
            assert(d[i] == ls[i]);
        }
        lemma_flat_same(t, t2, d);
        assert(ls.last() == ls[ls.len() - 1]);
    }
}

/// Two runs of leaves that hold the same cells, leaf for leaf, give the
/// same rows.
pub proof fn lemma_flat_alike(t: Seq<Node>, ls: Seq<int>, t2: Seq<Node>, ls2: Seq<int>)
    requires
        ls.len() == ls2.len(),
        forall|i: int| 0 <= i < ls.len() ==> t2[#[trigger] ls2[i]].cells == t[ls[i]].cells,
    ensures
        flat(t2, ls2) == flat(t, ls),
    decreases ls.len(),
{
    if ls.len() > 0 {
        let d = ls.drop_last();
        let d2 = ls2.drop_last();
        assert forall|i: int| 0 <= i < d.len() implies t2[#[trigger] d2[i]].cells
            == t[d[i]].cells by {
            assert(d2[i] == ls2[i]);
            assert(d[i] == ls[i]);
        }
        lemma_flat_alike(t, d, t2, d2);
        assert(ls2.last() == ls2[ls.len() - 1]);
    }
}

/// Every row is a cell of one of the leaves.
pub proof fn lemma_flat_index(t: Seq<Node>, ls: Seq<int>, idx: int) -> (rc: (int, int))
    requires
        0 <= idx < flat(t, ls).len(),
    ensures
        0 <= rc.0 < ls.len(),
        0 <= rc.1 < t[ls[rc.0]].cells.len(),
        flat(t, ls)[idx] == t[ls[rc.0]].cells[rc.1],
    decreases ls.len(),
{
    let d = ls.drop_last();
    if idx < flat(t, d).len() {
        let rc = lemma_flat_index(t, d, idx);
        rc
    } else {
        (ls.len() - 1, idx - flat(t, d).len())
    }
}

/// The rows of the first `k` leaves ascend, and none is above the range of
/// the last of these leaves.
pub proof fn lemma_prefix_ascending(t: Seq<Node>, sh: Shape, pend: Pending, k: int)
    requires
        inv(t, sh, pend),
        0 <= k <= sh.leaves.len(),
    ensures
        ascending(flat(t, sh.leaves.subrange(0, k))),
        forall|i: int|
            0 <= i < flat(t, sh.leaves.subrange(0, k)).len() ==> k > 0 && (#[trigger] flat(
                t,
                sh.leaves.subrange(0, k),
            )[i]).key <= sh.hi[sh.leaves[k - 1]],
    decreases k,
{
    let ls = sh.leaves.subrange(0, k);
    if k > 0 {
        lemma_prefix_ascending(t, sh, pend, k - 1);
        let d = sh.leaves.subrange(0, k - 1);
        assert(ls.drop_last() =~= d);
        let p = sh.leaves[k - 1];
        assert(ls.last() == p);
        assert(node_ok(t, sh, pend, p));
        let front = flat(t, d);
        let rows = flat(t, ls);
        assert(rows == front + t[p].cells);
        if k > 1 {
            lemma_leaves_ordered(t, sh, pend, k - 2, k - 1);
            assert(node_ok(t, sh, pend, sh.leaves[k - 2]));
        }
        assert forall|i: int, j: int| 0 <= i < j < rows.len() implies (#[trigger] rows[i]).key < (
        #[trigger] rows[j]).key by {
            if j < front.len() {
                assert(rows[i] == front[i]);
                assert(rows[j] == front[j]);
            } else if i < front.len() {
                assert(rows[i] == front[i]);
                assert(rows[j] == t[p].cells[j - front.len()]);
            } else {
                assert(rows[i] == t[p].cells[i - front.len()]);
                assert(rows[j] == t[p].cells[j - front.len()]);
            }
        }
        assert forall|i: int| 0 <= i < rows.len() implies (#[trigger] rows[i]).key
            <= sh.hi[p] by {
            if i < front.len() {
                assert(rows[i] == front[i]);
            } else {
                assert(rows[i] == t[p].cells[i - front.len()]);
            }
        }
    }
}

/// The rows of a tree ascend.
pub proof fn lemma_rows_ascending(t: Seq<Node>, sh: Shape, pend: Pending)
    requires
        inv(t, sh, pend),
    ensures
        ascending(flat(t, sh.leaves)),
{
    lemma_prefix_ascending(t, sh, pend, sh.leaves.len() as int);
    assert(sh.leaves.subrange(0, sh.leaves.len() as int) =~= sh.leaves);
}

/// The rows behind leaf `r` have keys above the range of that leaf.
pub proof fn lemma_suffix_above(t: Seq<Node>, sh: Shape, pend: Pending, r: int)
    requires
        inv(t, sh, pend),
        0 <= r < sh.leaves.len(),
    ensures
        forall|i: int|
            0 <= i < flat(t, sh.leaves.subrange(r + 1, sh.leaves.len() as int)).len() ==> (
            #[trigger] flat(t, sh.leaves.subrange(r + 1, sh.leaves.len() as int))[i]).key
                > sh.hi[sh.leaves[r]],
{
    let ls = sh.leaves.subrange(r + 1, sh.leaves.len() as int);
    let rows = flat(t, ls);
    assert forall|i: int| 0 <= i < rows.len() implies (#[trigger] rows[i]).key
        > sh.hi[sh.leaves[r]] by {
        let rc = lemma_flat_index(t, ls, i);
        let q = ls[rc.0];
        assert(q == sh.leaves[r + 1 + rc.0]);
        lemma_leaves_ordered(t, sh, pend, r, r + 1 + rc.0);
        assert(node_ok(t, sh, pend, q));
    }
}

/// The rows below a key in two runs of rows, one after the other.
pub proof fn lemma_count_concat(a: Seq<Entry>, b: Seq<Entry>, key: u32)
    ensures
        count_below(a + b, key) == count_below(a, key) + count_below(b, key),
    decreases b.len(),
{
    if b.len() == 0 {
        assert(a + b =~= a);
    } else {
        lemma_count_concat(a, b.drop_last(), key);
        assert((a + b).drop_last() =~= a + b.drop_last());
    }
}

/// Where the first `r` rows are below the key and the others are not, `r`
/// rows are below it.
pub proof fn lemma_count_bound(a: Seq<Entry>, key: u32, r: int)
    requires
        0 <= r <= a.len(),
        forall|i: int| 0 <= i < r ==> (#[trigger] a[i]).key < key,
        forall|i: int| r <= i < a.len() ==> (#[trigger] a[i]).key >= key,
    ensures
        count_below(a, key) == r,
    decreases a.len(),
{
    if a.len() > 0 {
        let d = a.drop_last();
        if r == a.len() {
            lemma_count_bound(d, key, r - 1);
        } else {
            lemma_count_bound(d, key, r);
        }
    }
}

/// Where the row `e` goes into leaf `r` at cell `i`, in front of the first
/// cell with a key at least as large, and no cell has its key, the rows
/// get `e` at the place where it belongs.
pub proof fn lemma_rows_insert(
    t: Seq<Node>,
    sh: Shape,
    pend: Pending,
    r: int,
    i: int,
    e: Entry,
    rows2: Seq<Entry>,
)
    requires
        inv(t, sh, pend),
        0 <= r < sh.leaves.len(),
        sh.lo[sh.leaves[r]] < e.key <= sh.hi[sh.leaves[r]],
        is_cell_lower_bound(t[sh.leaves[r]], e.key, i),
        i < t[sh.leaves[r]].cells.len() ==> t[sh.leaves[r]].cells[i].key != e.key,
        rows2 == flat(t, sh.leaves.subrange(0, r)) + t[sh.leaves[r]].cells.insert(i, e) + flat(
            t,
            sh.leaves.subrange(r + 1, sh.leaves.len() as int),
        ),
    ensures
        rows2 == flat(t, sh.leaves).insert(count_below(flat(t, sh.leaves), e.key), e),
        !has_key(flat(t, sh.leaves), e.key),
{
    let p = sh.leaves[r];
    let front = flat(t, sh.leaves.subrange(0, r));
    let cells = t[p].cells;
    let back = flat(t, sh.leaves.subrange(r + 1, sh.leaves.len() as int));
    let rows = flat(t, sh.leaves);
    lemma_flat_split(t, sh.leaves, r);
    assert(node_ok(t, sh, pend, p));
    lemma_prefix_ascending(t, sh, pend, r);
    if r > 0 {
        lemma_leaves_ordered(t, sh, pend, r - 1, r);
    }
    lemma_suffix_above(t, sh, pend, r);
    lemma_count_bound(front, e.key, front.len() as int);
    assert forall|j: int| i <= j < cells.len() implies (#[trigger] cells[j]).key > e.key by {
        if j > i {
            assert(cells[i].key < cells[j].key);
        }
    }
    lemma_count_bound(cells, e.key, i);
    lemma_count_bound(back, e.key, 0);
    lemma_count_concat(front + cells, back, e.key);
    lemma_count_concat(front, cells, e.key);
    assert(rows2 =~= rows.insert(front.len() + i, e));
    assert forall|j: int| 0 <= j < rows.len() implies (#[trigger] rows[j]).key != e.key by {
        if j < front.len() {
            assert(rows[j] == front[j]);
        } else if j < front.len() + cells.len() {
            assert(rows[j] == cells[j - front.len()]);
        } else {
            assert(rows[j] == back[j - front.len() - cells.len()]);
        }
    }
}

/// A key that stands in a cell of a leaf is the key of a row.
pub proof fn lemma_rows_hold(t: Seq<Node>, sh: Shape, pend: Pending, r: int, i: int)
    requires
        inv(t, sh, pend),
        0 <= r < sh.leaves.len(),
        0 <= i < t[sh.leaves[r]].cells.len(),
    ensures
        has_key(flat(t, sh.leaves), t[sh.leaves[r]].cells[i].key),
{
    let front = flat(t, sh.leaves.subrange(0, r));
    let rows = flat(t, sh.leaves);
    lemma_flat_split(t, sh.leaves, r);
    assert(rows[front.len() + i] == t[sh.leaves[r]].cells[i]);
}

} // verus!
