//! The table: a pager and the tree that its pages form, with the cursor
//! that walks the leaves.

use vstd::prelude::*;
use crate::layout::{
    get_node_type, internal_node_child, internal_node_find_child, internal_node_right_child,
    leaf_node_key, leaf_node_next_leaf, leaf_node_num_cells, leaf_node_value, lemma_constants,
    spec_internal_key, spec_internal_num_keys, NodeType, PAGE_SIZE, ROW_SIZE, TABLE_MAX_PAGES,
};
use crate::node::{lemma_leaf_cell_entry, node_of, page_fits, Entry, Node};
use crate::pager::{get_page, Pager};
use crate::rows::is_cell_lower_bound;
use crate::tree::{
    first_leaf, inv, lemma_first_leaf, lemma_internal_keys_ascend, lemma_leaf_rank,
    lemma_leaves_ordered, lemma_leftmost_leaf, link_ok, max_key_of, node_ok, rows_of, spine_ok,
    Pending, Shape,
};

verus! {

/// A table: the pager with its pages, which form the tree.
pub struct Table {
    /// The page of the root: always 0.
    pub root_page_num: usize,
    pub pager: Pager,
    /// The shape of the tree that the pages form.
    pub shape: Ghost<Shape>,
}

/// A place in the table: a cell of a leaf, or the end.
#[derive(Debug, Clone, Copy, PartialEq, Eq, Structural)]
pub struct Cursor {
    pub page_num: usize,
    pub cell_num: usize,
    pub end_of_table: bool,
}

impl Table {
    /// The pages in use, each read as a node.
    pub open spec fn nodes(&self) -> Seq<Node> {
        Seq::new(self.pager.num_pages as nat, |p: int| node_of(self.pager.page_view(p)))
    }

    /// The pages in use are nodes, and each is in the cache or in the
    /// file, which holds whole pages only.
    pub open spec fn stored(&self) -> bool {
        &&& self.pager.wf()
        &&& self.root_page_num == 0
        &&& self.pager.num_pages <= TABLE_MAX_PAGES
        &&& self.pager.file@.len() % 4096 == 0
        &&& self.pager.file@.len() <= 4096 * self.pager.num_pages
        &&& forall|p: int|
            0 <= p < self.pager.num_pages ==> {
                &&& page_fits(#[trigger] self.pager.page_view(p))
                &&& self.pager.resident(p) || 4096 * (p + 1) <= self.pager.file@.len()
            }
    }

    /// The pages form a B+ tree, but for what is pending.
    pub open spec fn inv_with(&self, pend: Pending) -> bool {
        self.stored() && inv(self.nodes(), self.shape@, pend)
    }

    /// The pages form a B+ tree.
    pub open spec fn wf(&self) -> bool {
        self.inv_with(Pending::Nothing)
    }

    /// The rows of the table in key order, each with its key.
    pub open spec fn view(&self) -> Seq<Entry> {
        rows_of(self.nodes())
    }

    /// The two tables hold the same pages and form the same tree. They may
    /// differ in which pages are in the cache.
    pub open spec fn same_as(&self, other: &Table) -> bool {
        &&& self.root_page_num == other.root_page_num
        &&& self.pager.num_pages == other.pager.num_pages
        &&& self.pager.file == other.pager.file
        &&& self.shape == other.shape
        &&& forall|p: int| self.pager.page_view(p) == other.pager.page_view(p)
    }

    /// The two tables hold the same pages. They may differ in what of them
    /// is in the cache and what in the file.
    pub open spec fn same_pages(&self, other: &Table) -> bool {
        &&& self.root_page_num == other.root_page_num
        &&& self.pager.num_pages == other.pager.num_pages
        &&& forall|p: int| self.pager.page_view(p) == other.pager.page_view(p)
    }

    /// The table holds the nodes `nodes`, in the shape of `before`.
    pub open spec fn rewritten(&self, before: &Table, nodes: Seq<Node>) -> bool {
        &&& self.stored()
        &&& self.shape == before.shape
        &&& self.nodes() == nodes
        &&& self.pager.num_pages == nodes.len()
    }

    /// The height of the tree: the number of levels above the leaves.
    pub open spec fn height(&self) -> int {
        self.shape@.height[0]
    }

    /// The page of the leaf under which `key` belongs.
    pub open spec fn leaf_of(&self, key: u32) -> int {
        choose|p: int| self.covers(p, key)
    }

    /// The leaf on page `p` is the one under which `key` belongs.
    pub open spec fn covers(&self, p: int, key: u32) -> bool {
        &&& 0 <= p < self.pager.num_pages
        &&& self.nodes()[p].leaf
        &&& self.shape@.lo[p] < key <= self.shape@.hi[p]
    }
}

/// A write to page `p`, which is in use or the next unused page, changes
/// the node on that page and no other.
pub proof fn lemma_page_written(before: Table, after: Table, p: int)
    requires
        before.stored(),
        0 <= p <= before.pager.num_pages,
        p < TABLE_MAX_PAGES,
        after.root_page_num == before.root_page_num,
        after.pager.wf(),
        after.pager.file == before.pager.file,
        after.pager.num_pages == if p == before.pager.num_pages {
            p + 1
        } else {
            before.pager.num_pages as int
        },
        after.pager.resident(p),
        forall|m: int| m != p ==> after.pager.page_view(m) == before.pager.page_view(m),
        forall|m: int| m != p ==> after.pager.resident(m) == before.pager.resident(m),
        page_fits(after.pager.page_view(p)),
    ensures
        after.stored(),
        after.nodes() == if p < before.pager.num_pages {
            before.nodes().update(p, node_of(after.pager.page_view(p)))
        } else {
            before.nodes().push(node_of(after.pager.page_view(p)))
        },
{
    assert forall|q: int| 0 <= q < after.pager.num_pages implies page_fits(
        #[trigger] after.pager.page_view(q),
    ) && (after.pager.resident(q) || 4096 * (q + 1) <= after.pager.file@.len()) by {
        if q != p {
            assert(after.pager.page_view(q) == before.pager.page_view(q));
            assert(page_fits(before.pager.page_view(q)));
            assert(after.pager.resident(q) == before.pager.resident(q));
        }
    }
    assert(after.stored());
    if p < before.pager.num_pages {
        assert(after.nodes() =~= before.nodes().update(p, node_of(after.pager.page_view(p))));
    } else {
        assert(after.nodes() =~= before.nodes().push(node_of(after.pager.page_view(p))));
    }
}

/// Page `page_num` for reading, brought into the cache if it was not
/// there.
pub fn page_read(table: &mut Table, page_num: usize) -> (page: &[u8; PAGE_SIZE])
    requires
        old(table).stored(),
        page_num < old(table).pager.num_pages,
    ensures
        page@ == old(table).pager.page_view(page_num as int),
        final(table).stored(),
        final(table).same_as(old(table)),
        final(table).nodes() =~= old(table).nodes(),
{
    let page = get_page(&mut table.pager, page_num);
    &*page
}

/// Binary search in the leaf on page `page_num` for the cell of `key`, or
/// for the place where `key` would go.
#[verifier::loop_isolation(false)]
pub fn leaf_node_find(table: &mut Table, page_num: usize, key: u32) -> (cursor: Cursor)
    requires
        old(table).wf(),
        page_num < old(table).pager.num_pages,
        old(table).nodes()[page_num as int].leaf,
    ensures
        final(table).wf(),
        final(table).same_as(old(table)),
        final(table).nodes() == old(table).nodes(),
        cursor.page_num == page_num,
        is_cell_lower_bound(old(table).nodes()[page_num as int], key, cursor.cell_num as int),
        !cursor.end_of_table,
{
    let ghost nd = table.nodes()[page_num as int];
    proof {
        lemma_constants();
        assert(node_ok(table.nodes(), table.shape@, Pending::Nothing, page_num as int));
    }
    let node = page_read(table, page_num);
    let num_cells: u32 = leaf_node_num_cells(node);
    let mut min_index: u32 = 0;
    let mut one_past_max_index: u32 = num_cells;
    while min_index != one_past_max_index
        invariant
            node@.len() == PAGE_SIZE,
            nd == node_of(node@),
            nd.leaf,
            num_cells == nd.cells.len(),
            num_cells <= 13,
            min_index <= one_past_max_index <= num_cells,
            forall|i: int, j: int|
                0 <= i < j < nd.cells.len() ==> (#[trigger] nd.cells[i]).key < (
                #[trigger] nd.cells[j]).key,
            forall|i: int| 0 <= i < min_index ==> (#[trigger] nd.cells[i]).key < key,
            forall|i: int|
                one_past_max_index <= i < num_cells ==> (#[trigger] nd.cells[i]).key > key,
        decreases one_past_max_index - min_index,
    {
        let index: u32 = min_index + (one_past_max_index - min_index) / 2;
        let key_at_index: u32 = leaf_node_key(node, index as usize);
        proof {
            lemma_leaf_cell_entry(node@, index as int);
            assert(nd.cells[index as int].key == key_at_index);
        }
        if key == key_at_index {
            return Cursor { page_num, cell_num: index as usize, end_of_table: false };
        } else if key < key_at_index {
            one_past_max_index = index;
        } else {
            min_index = index + 1;
        }
    }
    Cursor { page_num, cell_num: min_index as usize, end_of_table: false }
}

/// Goes down from the internal node on page `page_num` to a leaf, at each
/// node to the child in front of the first key that is at least `key`, and
/// searches that leaf. Where the keys below the node may include `key`, as
/// they may below the root, the leaf is the one under which `key` belongs.
pub fn internal_node_find(table: &mut Table, page_num: usize, key: u32) -> (cursor: Cursor)
    requires
        old(table).wf(),
        page_num < old(table).pager.num_pages,
        !old(table).nodes()[page_num as int].leaf,
    ensures
        final(table).wf(),
        final(table).same_as(old(table)),
        final(table).nodes() == old(table).nodes(),
        cursor.page_num < old(table).pager.num_pages,
        old(table).nodes()[cursor.page_num as int].leaf,
        old(table).shape@.lo[page_num as int] < key <= old(table).shape@.hi[page_num as int]
            ==> old(table).covers(cursor.page_num as int, key),
        is_cell_lower_bound(
            old(table).nodes()[cursor.page_num as int],
            key,
            cursor.cell_num as int,
        ),
        !cursor.end_of_table,
    decreases old(table).shape@.height[page_num as int],
{
    let ghost t = table.nodes();
    let ghost sh = table.shape@;
    proof {
        lemma_constants();
        assert(node_ok(t, sh, Pending::Nothing, page_num as int));
        lemma_internal_keys_ascend(t, sh, Pending::Nothing, page_num as int);
    }
    let node = page_read(table, page_num);
    proof {
        assert(node_of(node@) == t[page_num as int]);
        assert forall|i: int, j: int|
            0 <= i < j < spec_internal_num_keys(node@) implies spec_internal_key(node@, i)
            < spec_internal_key(node@, j) by {
            assert(t[page_num as int].keys[i] < t[page_num as int].keys[j]);
        }
    }
    let child_index: u32 = internal_node_find_child(node, key);
    proof {
        assert(link_ok(t, sh, Pending::Nothing, page_num as int, child_index as int));
        assert(forall|i: int|
            0 <= i < child_index ==> t[page_num as int].keys[i] == spec_internal_key(node@, i));
    }
    let child_page_num: usize = internal_node_child(node, child_index as usize) as usize;
    proof {
        assert(node_ok(t, sh, Pending::Nothing, child_page_num as int));
        if child_index > 0 {
            assert(t[page_num as int].keys[child_index - 1] == spec_internal_key(node@, child_index - 1));
        }
    }
    let child = page_read(table, child_page_num);
    match get_node_type(child) {
        NodeType::Leaf => leaf_node_find(table, child_page_num, key),
        NodeType::Internal => internal_node_find(table, child_page_num, key),
    }
}

/// The place of `key` in the table: the cell that holds it, or the cell in
/// front of which it would go.
pub fn table_find(table: &mut Table, key: u32) -> (cursor: Cursor)
    requires
        old(table).wf(),
    ensures
        final(table).wf(),
        final(table).same_as(old(table)),
        final(table).nodes() == old(table).nodes(),
        old(table).covers(cursor.page_num as int, key),
        is_cell_lower_bound(
            old(table).nodes()[cursor.page_num as int],
            key,
            cursor.cell_num as int,
        ),
        !cursor.end_of_table,
{
    let root_page_num: usize = table.root_page_num;
    proof {
        assert(node_ok(table.nodes(), table.shape@, Pending::Nothing, 0));
    }
    let root_node = page_read(table, root_page_num);
    if get_node_type(root_node) == NodeType::Leaf {
        leaf_node_find(table, root_page_num, key)
    } else {
        internal_node_find(table, root_page_num, key)
    }
}

/// The largest key below the node on page `page_num`: the last key of the
/// leaf that is reached by going to the right child again and again. That
/// leaf must be there and hold a key.
pub fn get_node_max_key(table: &mut Table, page_num: usize) -> (key: u32)
    requires
        old(table).stored(),
        exists|fuel: nat| spine_ok(old(table).nodes(), page_num as int, fuel),
    ensures
        final(table).stored(),
        final(table).same_as(old(table)),
        final(table).nodes() == old(table).nodes(),
        forall|fuel: nat|
            spine_ok(old(table).nodes(), page_num as int, fuel) ==> key == #[trigger] max_key_of(
                old(table).nodes(),
                page_num as int,
                fuel,
            ),
{
    let ghost t = table.nodes();
    let ghost start = choose|fuel: nat| spine_ok(t, page_num as int, fuel);
    let ghost mut fuel: nat = start;
    let mut page: usize = page_num;
    proof {
        lemma_constants();
    }
    loop
        invariant_except_break
            spine_ok(t, page as int, fuel),
            max_key_of(t, page as int, fuel) == max_key_of(t, page_num as int, start),
        invariant
            table.stored(),
            table.same_as(old(table)),
            table.nodes() == t,
            t == old(table).nodes(),
            spine_ok(t, page_num as int, start),
        ensures
            spine_ok(t, page as int, fuel),
            t[page as int].leaf,
            max_key_of(t, page as int, fuel) == max_key_of(t, page_num as int, start),
        decreases fuel,
    {
        let ghost bytes = table.pager.page_view(page as int);
        proof {
            assert(t[page as int] == node_of(bytes));
        }
        let node = page_read(table, page);
        match get_node_type(node) {
            NodeType::Leaf => {
                break ;
            },
            NodeType::Internal => {
                let right_child_page_num: usize = internal_node_right_child(node) as usize;
                proof {
                    let last = t[page as int].kids.len() - 1;
                    assert(t[page as int].kids[last] == right_child_page_num);
                    fuel = (fuel - 1) as nat;
                }
                page = right_child_page_num;
            },
        }
    }
    let ghost bytes = table.pager.page_view(page as int);
    proof {
        assert(t[page as int] == node_of(bytes));
    }
    let node = page_read(table, page);
    let num_cells: u32 = leaf_node_num_cells(node);
    proof {
        lemma_leaf_cell_entry(node@, num_cells - 1);
        let last = crate::layout::spec_leaf_key(node@, num_cells - 1);
        assert forall|other: nat| spine_ok(t, page_num as int, other) implies last
            == #[trigger] max_key_of(t, page_num as int, other) by {
            crate::tree::lemma_max_key_steps(t, page_num as int, start, other);
        }
    }
    leaf_node_key(node, (num_cells - 1) as usize)
}

/// A cursor at the first cell of the leftmost leaf. It is at the end of
/// the table where that leaf is empty.
pub fn table_start(table: &mut Table) -> (cursor: Cursor)
    requires
        old(table).wf(),
    ensures
        final(table).wf(),
        final(table).same_as(old(table)),
        final(table).nodes() == old(table).nodes(),
        cursor.page_num == first_leaf(old(table).nodes(), 0, TABLE_MAX_PAGES as nat),
        cursor.page_num < old(table).pager.num_pages,
        old(table).nodes()[cursor.page_num as int].leaf,
        cursor.cell_num == 0,
        cursor.end_of_table == (old(table).nodes()[cursor.page_num as int].cells.len() == 0),
{
    let ghost t = table.nodes();
    let ghost sh = table.shape@;
    let mut page_num: usize = table.root_page_num;
    proof {
        lemma_constants();
        assert(node_ok(t, sh, Pending::Nothing, 0));
        lemma_first_leaf(t, sh, Pending::Nothing, 0, TABLE_MAX_PAGES as nat);
    }
    loop
        invariant
            table.wf(),
            table.same_as(old(table)),
            table.nodes() == t,
            table.shape@ == sh,
            page_num < table.pager.num_pages,
            sh.lo[page_num as int] == -1,
        ensures
            table.wf(),
            table.same_as(old(table)),
            table.nodes() == t,
            page_num < table.pager.num_pages,
            t[page_num as int].leaf,
            sh.lo[page_num as int] == -1,
        decreases sh.height[page_num as int],
    {
        proof {
            assert(node_ok(t, sh, Pending::Nothing, page_num as int));
        }
        let node = page_read(table, page_num);
        match get_node_type(node) {
            NodeType::Leaf => {
                break ;
            },
            NodeType::Internal => {
                proof {
                    assert(link_ok(t, sh, Pending::Nothing, page_num as int, 0));
                }
                page_num = internal_node_child(node, 0) as usize;
            },
        }
    }
    proof {
        lemma_leftmost_leaf(t, sh, Pending::Nothing, page_num as int);
    }
    let node = page_read(table, page_num);
    let num_cells: u32 = leaf_node_num_cells(node);
    Cursor { page_num, cell_num: 0, end_of_table: num_cells == 0 }
}

/// The value of the cell at the cursor: `ROW_SIZE` bytes.
pub fn cursor_value<'a>(table: &'a mut Table, cursor: &Cursor) -> (value: Option<&'a [u8]>)
    requires
        old(table).wf(),
        cursor.page_num < old(table).pager.num_pages,
        old(table).nodes()[cursor.page_num as int].leaf,
        cursor.cell_num < old(table).nodes()[cursor.page_num as int].cells.len(),
    ensures
        final(table).wf(),
        final(table).same_as(old(table)),
        final(table).nodes() == old(table).nodes(),
        value matches Some(v) && v@ == old(
            table,
        ).nodes()[cursor.page_num as int].cells[cursor.cell_num as int].value,
{
    let page_num: usize = cursor.page_num;
    let cell_num: usize = cursor.cell_num;
    proof {
        lemma_constants();
        assert(node_ok(table.nodes(), table.shape@, Pending::Nothing, page_num as int));
    }
    let page = page_read(table, page_num);
    proof {
        lemma_leaf_cell_entry(page@, cell_num as int);
    }
    Some(leaf_node_value(page, cell_num))
}

/// Moves the cursor to the next cell: the next cell of its leaf, or the
/// first cell of the next leaf, or the end of the table behind the last
/// cell of the last leaf.
pub fn cursor_advance(table: &mut Table, cursor: &mut Cursor)
    requires
        old(table).wf(),
        old(cursor).page_num < old(table).pager.num_pages,
        old(table).nodes()[old(cursor).page_num as int].leaf,
        old(cursor).cell_num < old(table).nodes()[old(cursor).page_num as int].cells.len(),
    ensures
        final(table).wf(),
        final(table).same_as(old(table)),
        final(table).nodes() == old(table).nodes(),
        ({
            let nd = old(table).nodes()[old(cursor).page_num as int];
            if old(cursor).cell_num + 1 < nd.cells.len() {
                *final(cursor) == (Cursor {
                    cell_num: (old(cursor).cell_num + 1) as usize,
                    ..*old(cursor)
                })
            } else if nd.next == 0 {
                *final(cursor) == (Cursor {
                    cell_num: (old(cursor).cell_num + 1) as usize,
                    end_of_table: true,
                    ..*old(cursor)
                })
            } else {
                *final(cursor) == (Cursor {
                    page_num: nd.next as usize,
                    cell_num: 0,
                    end_of_table: old(cursor).end_of_table,
                })
            }
        }),
{
    let page_num: usize = cursor.page_num;
    proof {
        lemma_constants();
        assert(node_ok(table.nodes(), table.shape@, Pending::Nothing, page_num as int));
    }
    let node = page_read(table, page_num);
    cursor.cell_num = cursor.cell_num + 1;
    let num_cells: u32 = leaf_node_num_cells(node);
    if cursor.cell_num >= num_cells as usize {
        let next_page_num: u32 = leaf_node_next_leaf(node);
        if next_page_num == 0 {
            cursor.end_of_table = true;
        } else {
            cursor.page_num = next_page_num as usize;
            cursor.cell_num = 0;
        }
    }
}

/// What holds of the pages of a table does not depend on its shape.
pub proof fn lemma_stored_kept(before: Table, after: Table)
    requires
        before.stored(),
        after.pager == before.pager,
        after.root_page_num == before.root_page_num,
    ensures
        after.stored(),
        after.nodes() == before.nodes(),
{
    assert forall|q: int| 0 <= q < after.pager.num_pages implies page_fits(
        #[trigger] after.pager.page_view(q),
    ) && (after.pager.resident(q) || 4096 * (q + 1) <= after.pager.file@.len()) by {
        assert(page_fits(before.pager.page_view(q)));
    }
    assert(after.nodes() =~= before.nodes());
}

/// A table with the same pages and the same shape as a well-formed one is
/// well formed.
pub proof fn lemma_stored_same(before: Table, after: Table)
    requires
        before.wf(),
        after.stored(),
        after.nodes() == before.nodes(),
        after.shape == before.shape,
    ensures
        after.wf(),
        after@ == before@,
{
}

/// A key belongs under one leaf only.
pub proof fn lemma_leaf_of(table: &Table, p: int, key: u32)
    requires
        table.wf(),
        table.covers(p, key),
    ensures
        table.leaf_of(key) == p,
{
    let t = table.nodes();
    let sh = table.shape@;
    let none = Pending::Nothing;
    let q = table.leaf_of(key);
    assert(table.covers(q, key));
    let rp = lemma_leaf_rank(t, sh, none, p);
    let rq = lemma_leaf_rank(t, sh, none, q);
    if rp < rq {
        lemma_leaves_ordered(t, sh, none, rp, rq);
    } else if rq < rp {
        lemma_leaves_ordered(t, sh, none, rq, rp);
    }
}

} // verus!
