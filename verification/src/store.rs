//! Opening a table over the bytes of a file, closing it, and the full
//! scan.

use vstd::prelude::*;
use crate::layout::{
    initialize_leaf_node, lemma_constants, set_node_root, ROW_SIZE, TABLE_MAX_PAGES,
};
use crate::node::{lemma_init_leaf, lemma_set_root, node_of, page_fits, Entry, Node};
use crate::pager::{
    file_page, file_with_page, get_page, lemma_file_with_page, pager_flush, pager_open, Pager,
    PagerError,
};
use crate::row::Row;
use crate::rows::lemma_flat_split;
use crate::table::{cursor_advance, cursor_value, table_start, Cursor, Table};
use crate::grow::lemma_leaves_ordered_all;
use crate::tree::{
    chained, flat, inv, key_inf, leaf_ok, leaves_ok, lemma_first_leaf, lemma_leaf_rank, lemma_rows,
    node_ok, Pending, Shape,
};

verus! {

/// The pages of a file, each read as a node.
pub open spec fn image_nodes(file: Seq<u8>) -> Seq<Node> {
    Seq::new(file.len() / 4096, |p: int| node_of(file_page(file, p)))
}

/// The file holds a tree: a whole number of pages, at most as many as a
/// table can have, that form a B+ tree.
pub open spec fn image_ok(file: Seq<u8>) -> bool {
    &&& file.len() % 4096 == 0
    &&& file.len() <= 4096 * TABLE_MAX_PAGES
    &&& forall|p: int| 0 <= p < file.len() / 4096 ==> page_fits(#[trigger] file_page(file, p))
    &&& exists|sh: Shape| inv(image_nodes(file), sh, Pending::Nothing)
}

/// The shape of an empty table: the root is a leaf, and the only one.
pub open spec fn empty_shape() -> Shape {
    Shape {
        height: Map::empty().insert(0int, 0int),
        lo: Map::empty().insert(0int, -1int),
        hi: Map::empty().insert(0int, key_inf()),
        leaves: seq![0int],
    }
}

/// A table over the bytes of a file. The file must hold a whole number of
/// pages. In an empty file page 0 is made the root, an empty leaf.
pub fn db_open(file: Vec<u8>) -> (opened: Result<Table, PagerError>)
    ensures
        file@.len() % 4096 != 0 <==> opened is Err,
        opened matches Ok(table) ==> {
            &&& table.pager.file@ == file@
            &&& file@.len() == 0 ==> table.wf() && table@ == Seq::<Entry>::empty()
                && table.pager.num_pages == 1
            &&& file@.len() > 0 ==> {
                &&& table.pager.num_pages == file@.len() / 4096
                &&& forall|p: int| table.pager.page_view(p) == file_page(file@, p)
                &&& table.nodes() == image_nodes(file@)
                &&& image_ok(file@) ==> table.wf()
            }
        },
{
    let ghost image = file@;
    let pager: Pager = match pager_open(file) {
        Ok(pager) => pager,
        Err(e) => {
            return Err(e);
        },
    };
    let root_page_num: usize = 0;
    if pager.num_pages == 0 {
        let mut table = Table { pager, root_page_num, shape: Ghost(empty_shape()) };
        let ghost fresh = table.pager.page_view(0);
        {
            let root_node = get_page(&mut table.pager, root_page_num);
            initialize_leaf_node(root_node);
            let ghost blank = root_node@;
            set_node_root(root_node, true);
            proof {
                lemma_constants();
                lemma_init_leaf(fresh);
                lemma_set_root(blank, true);
            }
        }
        proof {
            let t = table.nodes();
            let sh = empty_shape();
            assert(t.len() == 1);
            assert(t[0] == node_of(table.pager.page_view(0)));
            assert(t[0].cells =~= Seq::<Entry>::empty());
            assert(sh.leaves[0] == 0);
            assert(leaf_ok(t, sh, 0));
            assert(node_ok(t, sh, Pending::Nothing, 0));
            assert(leaves_ok(t, sh));
            assert(inv(t, sh, Pending::Nothing));
            lemma_rows(t, sh, Pending::Nothing);
            assert(sh.leaves.drop_last() =~= Seq::<int>::empty());
            assert(flat(t, sh.leaves) =~= Seq::<Entry>::empty());
        }
        Ok(table)
    } else {
        let ghost shape = choose|sh: Shape| inv(image_nodes(image), sh, Pending::Nothing);
        let table = Table { pager, root_page_num, shape: Ghost(shape) };
        proof {
            assert forall|p: int| table.pager.page_view(p) == file_page(image, p) by {}
            assert(table.nodes() =~= image_nodes(image));
        }
        Ok(table)
    }
}

impl Table {
    /// An empty table over an empty file.
    pub fn new() -> (table: Table)
        ensures
            table.wf(),
            table@ == Seq::<Entry>::empty(),
            table.pager.num_pages == 1,
    {
        match db_open(Vec::new()) {
            Ok(table) => table,
            Err(_) => vstd::pervasive::unreached(),
        }
    }
}

/// Writes every page that is in the cache to the file and takes it out of
/// the cache. The file then holds every page of the table.
pub fn db_close(table: &mut Table)
    requires
        old(table).stored(),
    ensures
        final(table).stored(),
        final(table).same_pages(old(table)),
        final(table).nodes() == old(table).nodes(),
        final(table).shape == old(table).shape,
        forall|p: int| !final(table).pager.resident(p),
        final(table).pager.file@.len() == 4096 * old(table).pager.num_pages,
{
    let num_pages: usize = table.pager.num_pages;
    let mut i: usize = 0;
    while i < num_pages
        invariant
            i <= num_pages,
            num_pages == table.pager.num_pages,
            num_pages == old(table).pager.num_pages,
            table.stored(),
            table.shape == old(table).shape,
            table.root_page_num == old(table).root_page_num,
            forall|p: int| table.pager.page_view(p) == old(table).pager.page_view(p),
            forall|p: int| 0 <= p < i ==> !table.pager.resident(p),
        decreases num_pages - i,
    {
        if table.pager.pages[i].is_some() {
            let ghost before = table.pager;
            pager_flush(&mut table.pager, i);
            let ghost flushed = table.pager;
            table.pager.pages[i] = None;
            proof {
                let page = before.page_view(i as int);
                assert(page_fits(page));
                assert(table.pager.file@ == file_with_page(before.file@, i as int, page));
                assert forall|p: int| table.pager.page_view(p) == before.page_view(p)
                    && table.pager.resident(p) == (p != i && before.resident(p)) by {
                    lemma_file_with_page(before.file@, i as int, page, p);
                }
                assert forall|p: int| 0 <= p < table.pager.num_pages implies page_fits(
                    #[trigger] table.pager.page_view(p),
                ) && (table.pager.resident(p) || 4096 * (p + 1) <= table.pager.file@.len()) by {
                    assert(page_fits(before.page_view(p)));
                }
                assert(table.stored());
                assert forall|p: int| 0 <= p < i + 1 implies !(#[trigger] table.pager.resident(
                    p,
                )) by {
                    if p < i {
                        assert(!before.resident(p));
                    }
                }
            }
        } else {
            proof {
                assert(!table.pager.resident(i as int));
            }
        }
        i = i + 1;
    }
    proof {
        assert forall|p: int| !table.pager.resident(p) by {
            if 0 <= p < table.pager.pages@.len() && p >= num_pages {
                assert(table.pager.pages@[p] is None);
            }
        }
        if num_pages > 0 {
            assert(page_fits(table.pager.page_view(num_pages - 1)));
        }
        assert(table.nodes() =~= old(table).nodes());
    }
}

/// The number of rows in the leaves in front of the leaf at place `r`.
pub open spec fn rows_before(t: Seq<Node>, sh: Shape, r: int) -> int {
    flat(t, sh.leaves.subrange(0, r)).len() as int
}

/// The rows of leaf `r` stand in the rows of the table behind those of the
/// leaves in front of it.
proof fn lemma_rows_at(t: Seq<Node>, sh: Shape, r: int)
    requires
        inv(t, sh, Pending::Nothing),
        0 <= r < sh.leaves.len(),
    ensures
        rows_before(t, sh, r) + t[sh.leaves[r]].cells.len() <= flat(t, sh.leaves).len(),
        forall|c: int|
            0 <= c < t[sh.leaves[r]].cells.len() ==> flat(t, sh.leaves)[rows_before(t, sh, r) + c]
                == #[trigger] t[sh.leaves[r]].cells[c],
        r + 1 < sh.leaves.len() ==> rows_before(t, sh, r + 1) == rows_before(t, sh, r)
            + t[sh.leaves[r]].cells.len(),
        r + 1 == sh.leaves.len() ==> flat(t, sh.leaves).len() == rows_before(t, sh, r)
            + t[sh.leaves[r]].cells.len(),
{
    lemma_flat_split(t, sh.leaves, r);
    let n = sh.leaves.len() as int;
    if r + 1 < n {
        let next = sh.leaves.subrange(0, r + 1);
        assert(next.drop_last() =~= sh.leaves.subrange(0, r));
        assert(next.last() == sh.leaves[r]);
    } else {
        assert(sh.leaves.subrange(r + 1, n) =~= Seq::<int>::empty());
    }
}

/// Where the root is a leaf it is the only leaf.
proof fn lemma_root_leaf(t: Seq<Node>, sh: Shape)
    requires
        inv(t, sh, Pending::Nothing),
        t[0].leaf,
    ensures
        sh.leaves.len() == 1,
        sh.leaves[0] == 0,
{
    let none = Pending::Nothing;
    assert(node_ok(t, sh, none, 0));
    let r0 = lemma_leaf_rank(t, sh, none, 0);
    if sh.leaves.len() > 1 {
        let other = if r0 == 0 {
            1int
        } else {
            0int
        };
        let q = sh.leaves[other];
        assert(node_ok(t, sh, none, q));
        let up = t[q].parent as int;
        assert(node_ok(t, sh, none, up));
        let w = crate::grow::lemma_slot(t, q);
        assert(crate::tree::link_ok(t, sh, none, up, w));
    }
    crate::tree::lemma_leftmost_leaf(t, sh, none, 0);
}

/// All rows of the table in the order of their keys.
pub fn select(table: &mut Table) -> (rows: Vec<Row>)
    requires
        old(table).wf(),
    ensures
        final(table).wf(),
        final(table).same_as(old(table)),
        final(table)@ == old(table)@,
        rows@.len() == old(table)@.len(),
        forall|k: int|
            0 <= k < rows@.len() ==> (#[trigger] rows@[k]).stored_in(old(table)@[k].value),
{
    let ghost t = table.nodes();
    let ghost sh = table.shape@;
    let ghost none = Pending::Nothing;
    let ghost all = flat(t, sh.leaves);
    let mut rows: Vec<Row> = Vec::new();
    let mut cursor: Cursor = table_start(table);
    let ghost mut r: int = 0;
    proof {
        lemma_constants();
        lemma_rows(t, sh, none);
        assert(node_ok(t, sh, none, 0));
        lemma_first_leaf(t, sh, none, 0, TABLE_MAX_PAGES as nat);
        lemma_rows_at(t, sh, 0);
        assert(sh.leaves.subrange(0, 0) =~= Seq::<int>::empty());
        if cursor.end_of_table {
            assert(node_ok(t, sh, none, sh.leaves[0]));
            lemma_root_leaf(t, sh);
        }
    }
    while !cursor.end_of_table
        invariant
            table.wf(),
            table.same_as(old(table)),
            table.nodes() == t,
            table.shape@ == sh,
            none == Pending::Nothing,
            all == flat(t, sh.leaves),
            0 <= r < sh.leaves.len(),
            cursor.page_num == sh.leaves[r],
            rows@.len() == rows_before(t, sh, r) + cursor.cell_num,
            !cursor.end_of_table ==> cursor.cell_num < t[sh.leaves[r]].cells.len(),
            cursor.end_of_table ==> rows@.len() == all.len(),
            rows@.len() <= all.len(),
            cursor.cell_num <= 13,
            forall|k: int| 0 <= k < rows@.len() ==> (#[trigger] rows@[k]).stored_in(all[k].value),
        ensures
            rows@.len() == all.len(),
        decreases (sh.leaves.len() - r) * 14 - cursor.cell_num,
    {
        let ghost p = sh.leaves[r];
        proof {
            lemma_constants();
            assert(node_ok(t, sh, none, p));
            lemma_rows_at(t, sh, r);
            lemma_leaves_ordered_all(t, sh, none);
            assert(t[p].cells[cursor.cell_num as int].value.len() == ROW_SIZE);
        }
        match cursor_value(table, &cursor) {
            Some(slot) => {
                let row = Row::deserialize(slot);
                rows.push(row);
            },
            None => {
                break ;
            },
        }
        cursor_advance(table, &mut cursor);
        proof {
            if cursor.end_of_table {
                assert(r == sh.leaves.len() - 1);
            } else if cursor.cell_num == 0 {
                assert(chained(t, sh, r));
                assert(node_ok(t, sh, none, sh.leaves[r + 1]));
                r = r + 1;
            }
        }
    }
    rows
}

} // verus!
