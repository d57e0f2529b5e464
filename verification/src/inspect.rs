//! Whether the pages of a table form a tree: a shape is worked out from
//! the pages, and then every node is held against it.

use vstd::prelude::*;
use crate::layout::{
    get_u32_at, internal_node_key, internal_node_num_keys, internal_node_right_child, is_node_root,
    le_u32, leaf_node_cell_offset, leaf_node_key, leaf_node_num_cells, lemma_constants,
    lemma_le_u32_depends, spec_internal_child, spec_internal_key, spec_leaf_cell,
    INTERNAL_NODE_MAX_CELLS, LEAF_NODE_MAX_CELLS, PAGE_SIZE, TABLE_MAX_PAGES,
};
use crate::node::{entry_of, lemma_leaf_cell_entry, node_of, page_fits, Node};
use crate::pager::get_page;
use crate::table::{lemma_stored_kept, page_read, Table};
use crate::grow::lemma_leaves_ordered_all;
use crate::tree::{
    attached, chained, internal_ok, inv, leaf_ok, leaves_ok, lemma_leaf_rank, lemma_leftmost_leaf,
    link_ok, node_ok, Pending, Shape,
};

verus! {

/// What is read of every node before the tree is held against a shape.
pub struct Summary {
    pub leaf: Vec<bool>,
    pub parent: Vec<u32>,
    pub next: Vec<u32>,
}

/// A shape, worked out from the pages.
pub struct Guess {
    pub height: Vec<i64>,
    pub lo: Vec<i64>,
    pub hi: Vec<i64>,
    /// The leaves in the order of the chain.
    pub leaves: Vec<usize>,
    /// For each leaf its place in the chain.
    pub rank: Vec<usize>,
}

impl Summary {
    /// The summary tells of each node of the table what the node says.
    pub open spec fn of(&self, t: Seq<Node>) -> bool {
        &&& self.leaf@.len() == t.len()
        &&& self.parent@.len() == t.len()
        &&& self.next@.len() == t.len()
        &&& forall|p: int|
            0 <= p < t.len() ==> (#[trigger] self.leaf@[p]) == t[p].leaf && self.parent@[p]
                == t[p].parent && self.next@[p] == t[p].next
    }
}

impl Guess {
    /// The guess has a place for each of `n` pages.
    pub open spec fn sized(&self, n: int) -> bool {
        &&& self.height@.len() == n
        &&& self.lo@.len() == n
        &&& self.hi@.len() == n
        &&& self.rank@.len() == n
        &&& self.leaves@.len() <= n
    }

    /// The shape that the guess stands for.
    pub open spec fn shape(&self) -> Shape {
        Shape {
            height: Map::new(|p: int| true, |p: int| self.height@[p] as int),
            lo: Map::new(|p: int| true, |p: int| self.lo@[p] as int),
            hi: Map::new(|p: int| true, |p: int| self.hi@[p] as int),
            leaves: Seq::new(self.leaves@.len(), |r: int| self.leaves@[r] as int),
        }
    }
}

impl Table {
    /// The table has between one and a hundred pages, each of which holds
    /// a node whose cells lie inside the page, and its file holds whole
    /// pages and not more than are in use.
    pub open spec fn laid_out(&self) -> bool {
        &&& self.root_page_num == 0
        &&& 1 <= self.pager.num_pages <= TABLE_MAX_PAGES
        &&& self.pager.file@.len() % 4096 == 0
        &&& self.pager.file@.len() <= 4096 * self.pager.num_pages
        &&& forall|p: int|
            0 <= p < self.pager.num_pages ==> page_fits(#[trigger] self.pager.page_view(p))
    }

    /// The pages of the table form a tree.
    pub open spec fn is_tree(&self) -> bool {
        self.laid_out() && exists|sh: Shape| inv(self.nodes(), sh, Pending::Nothing)
    }
}

/// Reads every page of the table and makes sure that each holds a node
/// whose cells lie inside the page. Gives what each node says of itself.
fn read_pages(table: &mut Table) -> (summary: Option<Summary>)
    requires
        old(table).pager.wf(),
    ensures
        final(table).same_pages(old(table)),
        final(table).shape == old(table).shape,
        final(table).pager.wf(),
        final(table).nodes() == old(table).nodes(),
        summary is Some <==> old(table).laid_out(),
        summary matches Some(s) ==> final(table).stored() && s.of(final(table).nodes())
            && final(table).pager.num_pages >= 1,
{
    let num_pages: usize = table.pager.num_pages;
    let file_length: usize = table.pager.file.len();
    if table.root_page_num != 0 || num_pages == 0 || num_pages > TABLE_MAX_PAGES {
        return None;
    }
    if file_length % PAGE_SIZE != 0 || file_length > PAGE_SIZE * num_pages {
        return None;
    }
    let mut summary = Summary { leaf: Vec::new(), parent: Vec::new(), next: Vec::new() };
    let mut p: usize = 0;
    while p < num_pages
        invariant
            p <= num_pages <= TABLE_MAX_PAGES,
            num_pages == table.pager.num_pages,
            table.pager.wf(),
            table.same_pages(old(table)),
            table.shape == old(table).shape,
            table.root_page_num == 0,
            table.pager.file == old(table).pager.file,
            summary.leaf@.len() == p,
            summary.parent@.len() == p,
            summary.next@.len() == p,
            forall|q: int|
                0 <= q < p ==> page_fits(#[trigger] table.pager.page_view(q))
                    && table.pager.resident(q),
            forall|q: int|
                0 <= q < p ==> (#[trigger] summary.leaf@[q]) == node_of(
                    table.pager.page_view(q),
                ).leaf && summary.parent@[q] == node_of(table.pager.page_view(q)).parent
                    && summary.next@[q] == node_of(table.pager.page_view(q)).next,
        decreases num_pages - p,
    {
        let ghost before = table.pager;
        let ghost old_leaf = summary.leaf@;
        let ghost old_parent = summary.parent@;
        let ghost old_next = summary.next@;
        let node = get_page(&mut table.pager, p);
        let kind: u8 = node[0];
        let leaf: bool = kind == 1;
        let count: u32 = get_u32_at(node, 6);
        let link: u32 = get_u32_at(node, 10);
        let parent: u32 = get_u32_at(node, 2);
        let ghost read = node@;
        proof {
            lemma_constants();
            assert(read == old(table).pager.page_view(p as int));
        }
        if kind > 1 || (leaf && count > LEAF_NODE_MAX_CELLS as u32) || (!leaf && count
            > INTERNAL_NODE_MAX_CELLS as u32) {
            proof {
                assert(!page_fits(old(table).pager.page_view(p as int)));
                assert(table.nodes() =~= old(table).nodes());
            }
            return None;
        }
        let next: u32 = if leaf {
            link
        } else {
            0
        };
        summary.leaf.push(leaf);
        summary.parent.push(parent);
        summary.next.push(next);
        let ghost done = p as int;
        p = p + 1;
        proof {
            let bytes = table.pager.page_view(done);
            assert(bytes == read);
            assert(page_fits(bytes));
            assert(node_of(bytes).leaf == leaf);
            assert(node_of(bytes).parent == parent);
            assert(node_of(bytes).next == next);
            assert forall|q: int| 0 <= q < p implies page_fits(
                #[trigger] table.pager.page_view(q),
            ) && table.pager.resident(q) by {
                if q < done {
                    assert(page_fits(before.page_view(q)));
                    assert(before.resident(q));
                }
            }
            assert forall|q: int| 0 <= q < p implies (#[trigger] summary.leaf@[q]) == node_of(
                table.pager.page_view(q),
            ).leaf && summary.parent@[q] == node_of(table.pager.page_view(q)).parent
                && summary.next@[q] == node_of(table.pager.page_view(q)).next by {
                if q < done {
                    assert(table.pager.page_view(q) == before.page_view(q));
                    assert(summary.leaf@[q] == old_leaf[q]);
                    assert(summary.parent@[q] == old_parent[q]);
                    assert(summary.next@[q] == old_next[q]);
                }
            }
        }
    }
    proof {
        assert(table.stored());
        assert(summary.of(table.nodes()));
        assert(table.nodes() =~= old(table).nodes());
        assert forall|q: int| 0 <= q < old(table).pager.num_pages implies page_fits(
            #[trigger] old(table).pager.page_view(q),
        ) by {
            assert(page_fits(table.pager.page_view(q)));
        }
    }
    Some(summary)
}

/// Child `i` of the internal node on page `p`, whatever it is.
fn kid_at(table: &mut Table, p: usize, i: u32) -> (kid: u32)
    requires
        old(table).stored(),
        p < old(table).pager.num_pages,
        !old(table).nodes()[p as int].leaf,
        i <= old(table).nodes()[p as int].keys.len(),
    ensures
        final(table).stored(),
        final(table).same_as(old(table)),
        final(table).nodes() == old(table).nodes(),
        kid == old(table).nodes()[p as int].kids[i as int],
{
    let ghost bytes = table.pager.page_view(p as int);
    proof {
        lemma_constants();
        assert(table.nodes()[p as int] == node_of(bytes));
        assert(node_of(bytes).kids[i as int] == spec_internal_child(bytes, i as int));
    }
    let node = page_read(table, p);
    if i == internal_node_num_keys(node) {
        internal_node_right_child(node)
    } else {
        get_u32_at(node, 14 + 8 * (i as usize))
    }
}

/// Key `i` of the internal node on page `p`.
fn key_at(table: &mut Table, p: usize, i: u32) -> (key: u32)
    requires
        old(table).stored(),
        p < old(table).pager.num_pages,
        !old(table).nodes()[p as int].leaf,
        i < old(table).nodes()[p as int].keys.len(),
    ensures
        final(table).stored(),
        final(table).same_as(old(table)),
        final(table).nodes() == old(table).nodes(),
        key == old(table).nodes()[p as int].keys[i as int],
{
    let ghost bytes = table.pager.page_view(p as int);
    proof {
        lemma_constants();
        assert(table.nodes()[p as int] == node_of(bytes));
        assert(node_of(bytes).keys[i as int] == spec_internal_key(bytes, i as int));
    }
    let node = page_read(table, p);
    internal_node_key(node, i as usize)
}

/// The number of keys of the internal node on page `p`.
fn keys_of(table: &mut Table, p: usize) -> (count: u32)
    requires
        old(table).stored(),
        p < old(table).pager.num_pages,
        !old(table).nodes()[p as int].leaf,
    ensures
        final(table).stored(),
        final(table).same_as(old(table)),
        final(table).nodes() == old(table).nodes(),
        count == old(table).nodes()[p as int].keys.len(),
        count <= 3,
{
    let ghost bytes = table.pager.page_view(p as int);
    proof {
        lemma_constants();
        assert(table.nodes()[p as int] == node_of(bytes));
    }
    let node = page_read(table, p);
    internal_node_num_keys(node)
}

/// The guess says of every page what the shape says, has its leaves, and
/// knows the place of each leaf.
pub open spec fn agrees(guess: &Guess, w: Shape, n: int) -> bool {
    &&& guess.sized(n)
    &&& forall|p: int|
        0 <= p < n ==> (#[trigger] guess.height@[p]) == w.height[p] && guess.lo@[p] == w.lo[p]
            && guess.hi@[p] == w.hi[p]
    &&& guess.leaves@.len() == w.leaves.len()
    &&& forall|r: int| 0 <= r < w.leaves.len() ==> (#[trigger] guess.leaves@[r]) == w.leaves[r]
    &&& guess.knows_places()
}

impl Guess {
    /// Each leaf of the guess has its place as its rank.
    pub open spec fn knows_places(&self) -> bool {
        forall|r: int|
            0 <= r < self.leaves@.len() ==> 0 <= (#[trigger] self.leaves@[r]) < self.rank@.len()
                && self.rank@[self.leaves@[r] as int] == r
    }
}

/// The place at which the internal node on page `q` lists page `p` among
/// its children: the first, where there are more.
fn index_in_parent(table: &mut Table, q: usize, p: usize) -> (place: Option<u32>)
    requires
        old(table).stored(),
        q < old(table).pager.num_pages,
        !old(table).nodes()[q as int].leaf,
    ensures
        final(table).stored(),
        final(table).same_as(old(table)),
        final(table).nodes() == old(table).nodes(),
        place matches Some(i) ==> i <= old(table).nodes()[q as int].keys.len() && old(
            table,
        ).nodes()[q as int].kids[i as int] == p,
        place is None ==> forall|i: int|
            0 <= i < old(table).nodes()[q as int].kids.len() ==> old(
                table,
            ).nodes()[q as int].kids[i] != p,
{
    let ghost t = table.nodes();
    let count: u32 = keys_of(table, q);
    proof {
        assert(t[q as int] == node_of(table.pager.page_view(q as int)));
    }
    let mut i: u32 = 0;
    while i <= count
        invariant
            table.stored(),
            table.same_as(old(table)),
            table.nodes() == t,
            t == old(table).nodes(),
            q < t.len(),
            !t[q as int].leaf,
            count == t[q as int].keys.len(),
            t[q as int].kids.len() == count + 1,
            count <= 3,
            i <= count + 1,
            forall|k: int| 0 <= k < i ==> t[q as int].kids[k] != p,
        decreases count + 1 - i,
    {
        if kid_at(table, q, i) as usize == p {
            return Some(i);
        }
        i = i + 1;
    }
    None
}

/// The height of the node on page `p`, if the pages form a tree: the
/// number of steps down to a leaf.
fn guess_height(table: &mut Table, summary: &Summary, p: usize, Ghost(w): Ghost<Shape>) -> (height:
    i64)
    requires
        old(table).stored(),
        p < old(table).pager.num_pages,
        summary.of(old(table).nodes()),
    ensures
        final(table).stored(),
        final(table).same_as(old(table)),
        final(table).nodes() == old(table).nodes(),
        0 <= height <= TABLE_MAX_PAGES,
        inv(old(table).nodes(), w, Pending::Nothing) ==> height == w.height[p as int],
{
    let ghost t = table.nodes();
    let n: usize = table.pager.num_pages;
    let mut q: usize = p;
    let mut steps: usize = 0;
    while steps < n
        invariant
            n == t.len(),
            n <= TABLE_MAX_PAGES,
            table.stored(),
            table.same_as(old(table)),
            table.nodes() == t,
            t == old(table).nodes(),
            summary.of(t),
            p < n,
            q < n,
            steps <= n,
            inv(t, w, Pending::Nothing) ==> w.height[q as int] + steps == w.height[p as int],
        decreases n - steps,
    {
        proof {
            assert(summary.leaf@[q as int] == t[q as int].leaf);
            if inv(t, w, Pending::Nothing) {
                assert(node_ok(t, w, Pending::Nothing, q as int));
                if !t[q as int].leaf {
                    assert(link_ok(t, w, Pending::Nothing, q as int, 0));
                }
            }
        }
        if summary.leaf[q] {
            return steps as i64;
        }
        let kid: u32 = kid_at(table, q, 0);
        if kid as usize >= n {
            return steps as i64;
        }
        q = kid as usize;
        steps = steps + 1;
    }
    proof {
        if inv(t, w, Pending::Nothing) {
            assert(node_ok(t, w, Pending::Nothing, q as int));
            assert(node_ok(t, w, Pending::Nothing, p as int));
            assert(node_ok(t, w, Pending::Nothing, 0));
        }
    }
    steps as i64
}

/// The bound below or above the keys of the node on page `p`, if the
/// pages form a tree: the key in front of the node in its parent, or
/// behind it. A node that stands at the edge of its parent has the bound
/// of the parent, and the root has the bounds of all keys.
fn guess_bound(
    table: &mut Table,
    summary: &Summary,
    p: usize,
    upper: bool,
    Ghost(w): Ghost<Shape>,
) -> (bound: i64)
    requires
        old(table).stored(),
        p < old(table).pager.num_pages,
        summary.of(old(table).nodes()),
    ensures
        final(table).stored(),
        final(table).same_as(old(table)),
        final(table).nodes() == old(table).nodes(),
        -1 <= bound <= 0x1_0000_0000,
        inv(old(table).nodes(), w, Pending::Nothing) ==> bound == if upper {
            w.hi[p as int]
        } else {
            w.lo[p as int]
        },
{
    let ghost t = table.nodes();
    let ghost none = Pending::Nothing;
    let n: usize = table.pager.num_pages;
    let edge: i64 = if upper {
        0x1_0000_0000
    } else {
        -1
    };
    let mut q: usize = p;
    let mut steps: usize = 0;
    while steps < n
        invariant
            n == t.len(),
            n <= TABLE_MAX_PAGES,
            table.stored(),
            table.same_as(old(table)),
            table.nodes() == t,
            t == old(table).nodes(),
            summary.of(t),
            none == Pending::Nothing,
            p < n,
            q < n,
            steps <= n,
            edge == (if upper {
                0x1_0000_0000i64
            } else {
                -1i64
            }),
            inv(t, w, none) ==> w.height[q as int] == w.height[p as int] + steps,
            inv(t, w, none) ==> w.lo[q as int] == w.lo[p as int] || upper,
            inv(t, w, none) ==> w.hi[q as int] == w.hi[p as int] || !upper,
        decreases n - steps,
    {
        proof {
            assert(summary.leaf@[q as int] == t[q as int].leaf);
            if inv(t, w, none) {
                assert(node_ok(t, w, none, q as int));
                assert(node_ok(t, w, none, 0));
            }
        }
        if q == 0 {
            return edge;
        }
        let parent: usize = summary.parent[q] as usize;
        if parent >= n {
            return edge;
        }
        proof {
            assert(summary.leaf@[parent as int] == t[parent as int].leaf);
        }
        if summary.leaf[parent] {
            return edge;
        }
        let count: u32 = keys_of(table, parent);
        match index_in_parent(table, parent, q) {
            None => {
                return edge;
            },
            Some(i) => {
                proof {
                    if inv(t, w, none) {
                        assert(node_ok(t, w, none, parent as int));
                        assert(link_ok(t, w, none, parent as int, i as int));
                    }
                }
                if upper {
                    if i < count {
                        return key_at(table, parent, i) as i64;
                    }
                } else {
                    if i > 0 {
                        return key_at(table, parent, i - 1) as i64;
                    }
                }
                q = parent;
            },
        }
        steps = steps + 1;
    }
    proof {
        if inv(t, w, none) {
            assert(node_ok(t, w, none, q as int));
            assert(node_ok(t, w, none, p as int));
            assert(node_ok(t, w, none, 0));
        }
    }
    edge
}

/// A vector of `n` times the value.
fn filled(n: usize, value: usize) -> (v: Vec<usize>)
    ensures
        v@.len() == n,
{
    let mut v: Vec<usize> = Vec::new();
    let mut i: usize = 0;
    while i < n
        invariant
            i <= n,
            v@.len() == i,
        decreases n - i,
    {
        v.push(value);
        i = i + 1;
    }
    v
}

/// The leaves along their chain, and for each leaf its place, if the
/// pages form a tree: the chain begins at the leaf that is reached from
/// the root by going to the first child.
fn guess_leaves(table: &mut Table, summary: &Summary, Ghost(w): Ghost<Shape>) -> (chain: (
    Vec<usize>,
    Vec<usize>,
))
    requires
        old(table).stored(),
        old(table).pager.num_pages >= 1,
        summary.of(old(table).nodes()),
    ensures
        final(table).stored(),
        final(table).same_as(old(table)),
        final(table).nodes() == old(table).nodes(),
        chain.0@.len() <= old(table).pager.num_pages,
        chain.1@.len() == old(table).pager.num_pages,
        inv(old(table).nodes(), w, Pending::Nothing) ==> {
            &&& chain.0@.len() == w.leaves.len()
            &&& forall|r: int| 0 <= r < w.leaves.len() ==> (#[trigger] chain.0@[r]) == w.leaves[r]
            &&& forall|r: int|
                0 <= r < w.leaves.len() ==> chain.1@[#[trigger] w.leaves[r]] == r
        },
{
    let ghost t = table.nodes();
    let ghost none = Pending::Nothing;
    let n: usize = table.pager.num_pages;
    // down from the root along the first children
    let mut p: usize = 0;
    let mut steps: usize = 0;
    proof {
        if inv(t, w, none) {
            assert(node_ok(t, w, none, 0));
        }
    }
    while steps < n && !summary.leaf[p]
        invariant
            n == t.len(),
            1 <= n <= TABLE_MAX_PAGES,
            table.stored(),
            table.same_as(old(table)),
            table.nodes() == t,
            t == old(table).nodes(),
            summary.of(t),
            none == Pending::Nothing,
            p < n,
            steps <= n,
            inv(t, w, none) ==> w.lo[p as int] == -1 && w.height[p as int] + steps
                == w.height[0],
        decreases n - steps,
    {
        proof {
            assert(summary.leaf@[p as int] == t[p as int].leaf);
            if inv(t, w, none) {
                assert(node_ok(t, w, none, p as int));
                assert(link_ok(t, w, none, p as int, 0));
            }
        }
        let kid: u32 = kid_at(table, p, 0);
        if kid as usize >= n {
            return (Vec::new(), filled(n, n));
        }
        p = kid as usize;
        steps = steps + 1;
    }
    proof {
        assert(summary.leaf@[p as int] == t[p as int].leaf);
        if inv(t, w, none) {
            assert(node_ok(t, w, none, p as int));
            assert(node_ok(t, w, none, 0));
            lemma_leftmost_leaf(t, w, none, p as int);
        }
    }
    // along the chain
    let mut leaves: Vec<usize> = Vec::new();
    let mut rank: Vec<usize> = filled(n, n);
    let mut count: usize = 0;
    let mut more: bool = true;
    while more && count < n
        invariant
            n == t.len(),
            summary.of(t),
            none == Pending::Nothing,
            p < n,
            count <= n,
            leaves@.len() == count,
            rank@.len() == n,
            inv(t, w, none) ==> {
                &&& count <= w.leaves.len()
                &&& more ==> count < w.leaves.len() && p == w.leaves[count as int]
                &&& !more ==> count == w.leaves.len()
                &&& forall|r: int| 0 <= r < count ==> (#[trigger] leaves@[r]) == w.leaves[r]
                &&& forall|r: int| 0 <= r < count ==> rank@[#[trigger] w.leaves[r]] == r
            },
        decreases n - count,
    {
        let ghost before_rank = rank@;
        let ghost before_leaves = leaves@;
        leaves.push(p);
        rank[p] = count;
        let next: usize = summary.next[p] as usize;
        proof {
            assert(summary.leaf@[p as int] == t[p as int].leaf);
            if inv(t, w, none) {
                let r0 = count as int;
                assert(node_ok(t, w, none, p as int));
                lemma_leaves_ordered_all(t, w, none);
                assert forall|r: int| 0 <= r < count + 1 implies (#[trigger] leaves@[r])
                    == w.leaves[r] by {
                    if r < count {
                        assert(leaves@[r] == before_leaves[r]);
                    }
                }
                assert forall|r: int| 0 <= r < count + 1 implies rank@[#[trigger] w.leaves[r]]
                    == r by {
                    if r < count {
                        lemma_leaf_rank(t, w, none, w.leaves[r]);
                        assert(w.leaves[r] != p);
                        assert(rank@[w.leaves[r]] == before_rank[w.leaves[r]]);
                    }
                }
                if r0 < w.leaves.len() - 1 {
                    assert(chained(t, w, r0));
                    assert(node_ok(t, w, none, w.leaves[r0 + 1]));
                }
            }
        }
        count = count + 1;
        if next == 0 || next >= n {
            more = false;
        } else {
            p = next;
        }
    }
    (leaves, rank)
}

/// Works out the shape that the pages have if they form a tree.
fn guess_shape(table: &mut Table, summary: &Summary, Ghost(w): Ghost<Shape>) -> (guess: Guess)
    requires
        old(table).stored(),
        old(table).pager.num_pages >= 1,
        summary.of(old(table).nodes()),
    ensures
        final(table).stored(),
        final(table).same_as(old(table)),
        final(table).nodes() == old(table).nodes(),
        guess.sized(old(table).pager.num_pages as int),
        inv(old(table).nodes(), w, Pending::Nothing) ==> agrees(
            &guess,
            w,
            old(table).pager.num_pages as int,
        ),
{
    let ghost t = table.nodes();
    let n: usize = table.pager.num_pages;
    let mut height: Vec<i64> = Vec::new();
    let mut lo: Vec<i64> = Vec::new();
    let mut hi: Vec<i64> = Vec::new();
    let mut p: usize = 0;
    while p < n
        invariant
            p <= n,
            n == t.len(),
            n == table.pager.num_pages,
            table.stored(),
            table.same_as(old(table)),
            table.nodes() == t,
            t == old(table).nodes(),
            summary.of(t),
            height@.len() == p,
            lo@.len() == p,
            hi@.len() == p,
            inv(t, w, Pending::Nothing) ==> forall|q: int|
                0 <= q < p ==> (#[trigger] height@[q]) == w.height[q] && lo@[q] == w.lo[q]
                    && hi@[q] == w.hi[q],
        decreases n - p,
    {
        let h: i64 = guess_height(table, summary, p, Ghost(w));
        let l: i64 = guess_bound(table, summary, p, false, Ghost(w));
        let u: i64 = guess_bound(table, summary, p, true, Ghost(w));
        height.push(h);
        lo.push(l);
        hi.push(u);
        p = p + 1;
    }
    let chain = guess_leaves(table, summary, Ghost(w));
    let guess = Guess { height, lo, hi, leaves: chain.0, rank: chain.1 };
    proof {
        if inv(t, w, Pending::Nothing) {
            assert forall|r: int| 0 <= r < guess.leaves@.len() implies 0 <= (
            #[trigger] guess.leaves@[r]) < guess.rank@.len() && guess.rank@[guess.leaves@[r] as int]
                == r by {
                assert(guess.leaves@[r] == w.leaves[r]);
                assert(guess.rank@[w.leaves[r]] == r);
            }
        }
    }
    guess
}

/// A tree of one shape is a tree of every shape that says the same of its
/// pages.
proof fn lemma_same_shape(t: Seq<Node>, w: Shape, guess: &Guess)
    requires
        inv(t, w, Pending::Nothing),
        agrees(guess, w, t.len() as int),
    ensures
        inv(t, guess.shape(), Pending::Nothing),
{
    let none = Pending::Nothing;
    let gs = guess.shape();
    assert(gs.leaves =~= w.leaves);
    assert(node_ok(t, w, none, 0));
    assert(guess.height@[0] == w.height[0]);
    assert forall|p: int| 0 <= p < t.len() implies #[trigger] node_ok(t, gs, none, p) by {
        assert(node_ok(t, w, none, p));
        assert(guess.height@[p] == w.height[p]);
        if t[p].leaf {
            if t[p].next != 0 && w.hi[p] < crate::tree::key_inf() {
                assert(guess.height@[t[p].next as int] == w.height[t[p].next as int]);
            }
            assert(leaf_ok(t, gs, p));
        } else {
            assert forall|i: int| 0 <= i < t[p].kids.len() implies #[trigger] link_ok(
                t,
                gs,
                none,
                p,
                i,
            ) by {
                assert(link_ok(t, w, none, p, i));
                let c = t[p].kids[i] as int;
                assert(guess.height@[c] == w.height[c]);
            }
            assert(internal_ok(t, gs, none, p));
        }
    }
    assert forall|r: int| 0 <= r < gs.leaves.len() - 1 implies #[trigger] chained(t, gs, r) by {
        assert(chained(t, w, r));
        assert(guess.leaves@[r] == w.leaves[r]);
        assert(guess.leaves@[r + 1] == w.leaves[r + 1]);
        assert(guess.height@[w.leaves[r]] == w.height[w.leaves[r]]);
        assert(guess.height@[w.leaves[r + 1]] == w.height[w.leaves[r + 1]]);
    }
    let first = w.leaves[0];
    let last = w.leaves[w.leaves.len() - 1];
    assert(guess.leaves@[0] == first);
    assert(guess.leaves@[w.leaves.len() - 1] == last);
    assert(guess.height@[first] == w.height[first]);
    assert(guess.height@[last] == w.height[last]);
    assert(leaves_ok(t, gs));
}

/// Whether the leaf on page `p` is as the shape says.
#[verifier::loop_isolation(false)]
fn leaf_holds(table: &mut Table, p: usize, summary: &Summary, guess: &Guess) -> (ok: bool)
    requires
        old(table).stored(),
        p < old(table).pager.num_pages,
        old(table).nodes()[p as int].leaf,
        summary.of(old(table).nodes()),
        guess.sized(old(table).pager.num_pages as int),
    ensures
        final(table).stored(),
        final(table).same_as(old(table)),
        final(table).nodes() == old(table).nodes(),
        ok ==> leaf_ok(old(table).nodes(), guess.shape(), p as int),
        leaf_ok(old(table).nodes(), guess.shape(), p as int) && guess.knows_places() ==> ok,
{
    let ghost t = table.nodes();
    let ghost sh = guess.shape();
    let ghost bytes = table.pager.page_view(p as int);
    let ghost nd = t[p as int];
    let n: usize = table.pager.num_pages;
    proof {
        lemma_constants();
        assert(nd == node_of(bytes));
        assert(summary.leaf@[p as int] == t[p as int].leaf);
        assert(sh.lo[p as int] == guess.lo@[p as int]);
        assert(sh.hi[p as int] == guess.hi@[p as int]);
        assert(sh.height[p as int] == guess.height@[p as int]);
    }
    let lo: i64 = guess.lo[p];
    let hi: i64 = guess.hi[p];
    if guess.height[p] != 0 {
        return false;
    }
    let next: u32 = summary.next[p];
    if hi == 0x1_0000_0000 {
        if next != 0 {
            return false;
        }
    } else {
        if next == 0 || next as usize >= n {
            return false;
        }
        proof {
            assert(summary.leaf@[next as int] == t[next as int].leaf);
            assert(sh.lo[next as int] == guess.lo@[next as int]);
        }
        if !summary.leaf[next as usize] || guess.lo[next as usize] != hi {
            return false;
        }
    }
    let place: usize = guess.rank[p];
    if place >= guess.leaves.len() || guess.leaves[place] != p {
        proof {
            if leaf_ok(t, sh, p as int) && guess.knows_places() {
                let r = choose|r: int| 0 <= r < sh.leaves.len() && #[trigger] sh.leaves[r] == p;
                assert(guess.leaves@[r] == p);
                assert(guess.rank@[guess.leaves@[r] as int] == r);
            }
        }
        return false;
    }
    proof {
        assert(sh.leaves[place as int] == p);
    }
    let node = page_read(table, p);
    let num_cells: u32 = leaf_node_num_cells(node);
    if p != 0 && num_cells == 0 {
        return false;
    }
    if hi < 0x1_0000_0000 && num_cells == 0 {
        return false;
    }
    let mut i: u32 = 0;
    let mut below: i64 = lo;
    while i < num_cells
        invariant
            i <= num_cells <= 13,
            node@ == bytes,
            page_fits(bytes),
            nd == node_of(bytes),
            nd.leaf,
            num_cells == nd.cells.len(),
            lo <= below,
            i > 0 ==> below == nd.cells[i - 1].key,
            i == 0 ==> below == lo,
            forall|a: int, b: int|
                0 <= a < b < i ==> (#[trigger] nd.cells[a]).key < (#[trigger] nd.cells[b]).key,
            forall|a: int| 0 <= a < i ==> lo < (#[trigger] nd.cells[a]).key,
            forall|a: int|
                0 <= a < i ==> (#[trigger] nd.cells[a]).value.len() == 291 && le_u32(
                    nd.cells[a].value,
                    0,
                ) == nd.cells[a].key,
        decreases num_cells - i,
    {
        proof {
            lemma_leaf_cell_entry(bytes, i as int);
            let cell = spec_leaf_cell(bytes, i as int);
            lemma_le_u32_depends(entry_of(cell).value, bytes, 0, 14 + 295 * i + 4);
        }
        let key: u32 = leaf_node_key(node, i as usize);
        if key as i64 <= below {
            proof {
                if leaf_ok(t, sh, p as int) {
                    if i > 0 {
                        assert(nd.cells[i - 1].key < nd.cells[i as int].key);
                    } else {
                        assert(sh.lo[p as int] < nd.cells[i as int].key);
                    }
                }
            }
            return false;
        }
        let offset: usize = leaf_node_cell_offset(i as usize);
        let id: u32 = get_u32_at(node, offset + 4);
        if id != key {
            proof {
                if leaf_ok(t, sh, p as int) {
                    assert(le_u32(nd.cells[i as int].value, 0) == nd.cells[i as int].key);
                }
            }
            return false;
        }
        proof {
            assert forall|a: int, b: int| 0 <= a < b < i + 1 implies (#[trigger] nd.cells[a]).key
                < (#[trigger] nd.cells[b]).key by {
                if b == i && a < i - 1 {
                    assert(nd.cells[a].key < nd.cells[i - 1].key);
                }
            }
        }
        below = key as i64;
        i = i + 1;
    }
    if num_cells > 0 && below > hi {
        proof {
            if leaf_ok(t, sh, p as int) {
                assert(nd.cells[num_cells - 1].key <= sh.hi[p as int]);
            }
        }
        return false;
    }
    if hi < 0x1_0000_0000 && below != hi {
        return false;
    }
    proof {
        assert forall|a: int| 0 <= a < nd.cells.len() implies (#[trigger] nd.cells[a]).key
            <= sh.hi[p as int] by {
            if a < nd.cells.len() - 1 {
                assert(nd.cells[a].key < nd.cells[nd.cells.len() - 1].key);
            }
        }
        assert(nd.next == next);
        assert(sh.leaves[place as int] == p);
        assert(leaf_ok(t, sh, p as int));
    }
    true
}

/// Whether the internal node on page `p` is as the shape says.
fn internal_holds(table: &mut Table, p: usize, summary: &Summary, guess: &Guess) -> (ok: bool)
    requires
        old(table).stored(),
        p < old(table).pager.num_pages,
        !old(table).nodes()[p as int].leaf,
        summary.of(old(table).nodes()),
        guess.sized(old(table).pager.num_pages as int),
    ensures
        final(table).stored(),
        final(table).same_as(old(table)),
        final(table).nodes() == old(table).nodes(),
        ok == internal_ok(old(table).nodes(), guess.shape(), Pending::Nothing, p as int),
{
    let ghost t = table.nodes();
    let ghost sh = guess.shape();
    let ghost none = Pending::Nothing;
    let n: usize = table.pager.num_pages;
    let above: i64 = guess.height[p];
    proof {
        assert(sh.height[p as int] == guess.height@[p as int]);
    }
    if above < 1 {
        return false;
    }
    let count: u32 = keys_of(table, p);
    if count < 1 {
        return false;
    }
    proof {
        assert(t[p as int] == node_of(table.pager.page_view(p as int)));
    }
    let mut i: u32 = 0;
    while i <= count
        invariant
            table.stored(),
            table.same_as(old(table)),
            table.nodes() == t,
            t == old(table).nodes(),
            sh == guess.shape(),
            none == Pending::Nothing,
            summary.of(t),
            guess.sized(n as int),
            n == t.len(),
            p < n,
            !t[p as int].leaf,
            count == t[p as int].keys.len(),
            t[p as int].kids.len() == count + 1,
            1 <= count <= 3,
            i <= count + 1,
            above >= 1,
            above == guess.height@[p as int],
            forall|k: int| 0 <= k < i ==> #[trigger] link_ok(t, sh, none, p as int, k),
        decreases count + 1 - i,
    {
        let kid: usize = kid_at(table, p, i) as usize;
        let ghost c = kid as int;
        proof {
            assert(t[p as int].kids[i as int] == c);
            assert(sh.height[p as int] == guess.height@[p as int]);
            assert(sh.lo[p as int] == guess.lo@[p as int]);
            assert(sh.hi[p as int] == guess.hi@[p as int]);
            if internal_ok(t, sh, none, p as int) {
                assert(link_ok(t, sh, none, p as int, i as int));
            }
        }
        if kid == 0 || kid >= n {
            return false;
        }
        proof {
            assert(summary.leaf@[c] == t[c].leaf);
            assert(sh.height[c] == guess.height@[c]);
            assert(sh.lo[c] == guess.lo@[c]);
            assert(sh.hi[c] == guess.hi@[c]);
        }
        if summary.parent[kid] as usize != p {
            return false;
        }
        if guess.height[kid] != above - 1 {
            return false;
        }
        let lower: i64 = if i == 0 {
            guess.lo[p]
        } else {
            key_at(table, p, i - 1) as i64
        };
        let upper: i64 = if i < count {
            key_at(table, p, i) as i64
        } else {
            guess.hi[p]
        };
        proof {
            assert(crate::tree::lower(t, sh, none, p as int, i as int) == lower);
            assert(crate::tree::upper(t, sh, none, p as int, i as int) == upper);
        }
        if guess.lo[kid] != lower || guess.hi[kid] != upper {
            return false;
        }
        proof {
            assert(link_ok(t, sh, none, p as int, i as int));
        }
        i = i + 1;
    }
    true
}

/// Whether the node on page `p` is as the shape says.
fn node_holds(table: &mut Table, p: usize, summary: &Summary, guess: &Guess) -> (ok: bool)
    requires
        old(table).stored(),
        p < old(table).pager.num_pages,
        summary.of(old(table).nodes()),
        guess.sized(old(table).pager.num_pages as int),
    ensures
        final(table).stored(),
        final(table).same_as(old(table)),
        final(table).nodes() == old(table).nodes(),
        ok ==> node_ok(old(table).nodes(), guess.shape(), Pending::Nothing, p as int),
        node_ok(old(table).nodes(), guess.shape(), Pending::Nothing, p as int)
            && guess.knows_places() ==> ok,
{
    let ghost t = table.nodes();
    let ghost sh = guess.shape();
    let ghost none = Pending::Nothing;
    let n: usize = table.pager.num_pages;
    proof {
        assert(t[p as int] == node_of(table.pager.page_view(p as int)));
        assert(summary.leaf@[p as int] == t[p as int].leaf);
        assert(sh.height[p as int] == guess.height@[p as int]);
        assert(sh.height[0] == guess.height@[0]);
        assert(sh.lo[p as int] == guess.lo@[p as int]);
        assert(sh.hi[p as int] == guess.hi@[p as int]);
    }
    let node = page_read(table, p);
    let root: bool = is_node_root(node);
    if root != (p == 0) {
        return false;
    }
    let lo: i64 = guess.lo[p];
    let hi: i64 = guess.hi[p];
    let height: i64 = guess.height[p];
    if lo < -1 || lo >= hi || hi > 0x1_0000_0000 {
        return false;
    }
    if height < 0 || height > guess.height[0] {
        return false;
    }
    if p == 0 {
        if lo != -1 || hi != 0x1_0000_0000 {
            return false;
        }
    } else {
        let parent: usize = summary.parent[p] as usize;
        if parent >= n {
            return false;
        }
        proof {
            assert(summary.leaf@[parent as int] == t[parent as int].leaf);
        }
        if summary.leaf[parent] {
            return false;
        }
        if index_in_parent(table, parent, p).is_none() {
            proof {
                if attached(t, p as int) {
                    let i = choose|i: int|
                        0 <= i < t[parent as int].kids.len() && #[trigger] t[parent as int].kids[i]
                            == p;
                    assert(false);
                }
            }
            return false;
        }
        proof {
            assert(t[p as int].parent == parent);
            assert(attached(t, p as int));
        }
    }
    if summary.leaf[p] {
        leaf_holds(table, p, summary, guess)
    } else {
        internal_holds(table, p, summary, guess)
    }
}

/// Whether the leaves of the shape are the chain of leaves.
fn leaves_hold(summary: &Summary, guess: &Guess, Ghost(t): Ghost<Seq<Node>>) -> (ok: bool)
    requires
        summary.of(t),
        guess.sized(t.len() as int),
    ensures
        ok == leaves_ok(t, guess.shape()),
{
    let ghost sh = guess.shape();
    let n: usize = summary.leaf.len();
    let count: usize = guess.leaves.len();
    if count < 1 {
        return false;
    }
    let mut r: usize = 0;
    while r < count
        invariant
            r <= count,
            count == guess.leaves@.len(),
            1 <= count <= n,
            n == t.len(),
            summary.of(t),
            guess.sized(n as int),
            sh == guess.shape(),
            forall|k: int|
                0 <= k < r ==> 0 <= (#[trigger] sh.leaves[k]) < t.len() && t[sh.leaves[k]].leaf,
            forall|k: int| 0 <= k < r && k < count - 1 ==> #[trigger] chained(t, sh, k),
        decreases count - r,
    {
        let p: usize = guess.leaves[r];
        proof {
            assert(sh.leaves[r as int] == p);
        }
        if p >= n {
            return false;
        }
        proof {
            assert(summary.leaf@[p as int] == t[p as int].leaf);
            assert(sh.hi[p as int] == guess.hi@[p as int]);
        }
        if !summary.leaf[p] {
            return false;
        }
        if r + 1 < count {
            let q: usize = guess.leaves[r + 1];
            proof {
                assert(sh.leaves[r + 1] == q);
                if leaves_ok(t, sh) {
                    assert(chained(t, sh, r as int));
                    assert(0 <= sh.leaves[r + 1] < t.len());
                }
            }
            if q >= n {
                return false;
            }
            proof {
                assert(sh.lo[q as int] == guess.lo@[q as int]);
            }
            if summary.next[p] as usize != q || guess.hi[p] != guess.lo[q] {
                return false;
            }
            proof {
                assert(chained(t, sh, r as int));
            }
        }
        r = r + 1;
    }
    let first: usize = guess.leaves[0];
    let last: usize = guess.leaves[count - 1];
    proof {
        assert(sh.leaves[0] == first);
        assert(sh.leaves[count - 1] == last);
        assert(0 <= sh.leaves[0] < t.len());
        assert(0 <= sh.leaves[count - 1] < t.len());
        assert(sh.lo[first as int] == guess.lo@[first as int]);
        assert(sh.hi[last as int] == guess.hi@[last as int]);
    }
    guess.lo[first] == -1 && guess.hi[last] == 0x1_0000_0000
}

/// Whether the pages of the table form a tree. A table of which this was
/// found is well formed.
pub fn table_is_tree(table: &mut Table) -> (ok: bool)
    requires
        old(table).pager.wf(),
    ensures
        final(table).same_pages(old(table)),
        final(table).nodes() == old(table).nodes(),
        final(table).pager.wf(),
        ok == old(table).is_tree(),
        ok ==> final(table).wf(),
{
    let summary: Summary = match read_pages(table) {
        Some(summary) => summary,
        None => {
            return false;
        },
    };
    let ghost t = table.nodes();
    let ghost none = Pending::Nothing;
    let ghost w = choose|sh: Shape| inv(t, sh, Pending::Nothing);
    let guess: Guess = guess_shape(table, &summary, Ghost(w));
    let ghost sh = guess.shape();
    let n: usize = table.pager.num_pages;
    proof {
        assert(sh.height[0] == guess.height@[0]);
        if old(table).is_tree() {
            assert(inv(t, w, none));
            lemma_same_shape(t, w, &guess);
        }
    }
    if guess.height[0] >= n as i64 {
        return false;
    }
    if !leaves_hold(&summary, &guess, Ghost(t)) {
        return false;
    }
    let mut p: usize = 0;
    while p < n
        invariant
            p <= n,
            n == table.pager.num_pages,
            table.stored(),
            table.same_pages(old(table)),
            table.nodes() == t,
            t == old(table).nodes(),
            summary.of(t),
            guess.sized(n as int),
            sh == guess.shape(),
            none == Pending::Nothing,
            old(table).laid_out(),
            old(table).is_tree() ==> inv(t, sh, none) && guess.knows_places(),
            forall|q: int| 0 <= q < p ==> #[trigger] node_ok(t, sh, none, q),
        decreases n - p,
    {
        proof {
            if old(table).is_tree() {
                assert(node_ok(t, sh, none, p as int));
            }
        }
        if !node_holds(table, p, &summary, &guess) {
            return false;
        }
        p = p + 1;
    }
    let ghost before = *table;
    table.shape = Ghost(guess.shape());
    proof {
        lemma_stored_kept(before, *table);
        assert(inv(t, sh, none));
    }
    true
}

} // verus!
