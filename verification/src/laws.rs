//! What holds of every well-formed table, and how the operations on a
//! table go together.

use vstd::prelude::*;
use crate::grow::{leaf_split_nodes, lemma_slot};
use crate::insert::{insert_done, row_placed, ExecuteResult};
use crate::row::lemma_row_bytes;
use crate::layout::{le_u32, lemma_constants, TABLE_MAX_PAGES};
use crate::node::{Entry};
use crate::pager::file_page;
use crate::row::Row;
use crate::rows::{ascending, count_below, has_key, lemma_flat_index, lemma_rows_ascending};
use crate::store::{image_nodes, image_ok};
use crate::table::{lemma_leaf_of, Table};
use crate::tree::{
    attached, chained, first_leaf, flat, inv, lemma_first_leaf, lemma_internal_keys_ascend,
    lemma_leaf_rank, lemma_leaves_ordered, lemma_max_key, lemma_rows, link_ok, max_key_of, node_ok,
    Pending,
};

verus! {

/// In every leaf the keys ascend strictly.
pub proof fn law_leaf_keys_ascend(table: &Table, p: int)
    requires
        table.wf(),
        0 <= p < table.pager.num_pages,
        table.nodes()[p].leaf,
    ensures
        forall|i: int, j: int|
            0 <= i < j < table.nodes()[p].cells.len() ==> table.nodes()[p].cells[i].key
                < table.nodes()[p].cells[j].key,
{
    assert(node_ok(table.nodes(), table.shape@, Pending::Nothing, p));
}

/// In every internal node the keys ascend strictly, and each key is the
/// largest key below the child in front of it.
pub proof fn law_internal_keys(table: &Table, p: int)
    requires
        table.wf(),
        0 <= p < table.pager.num_pages,
        !table.nodes()[p].leaf,
    ensures
        forall|i: int, j: int|
            0 <= i < j < table.nodes()[p].keys.len() ==> table.nodes()[p].keys[i]
                < table.nodes()[p].keys[j],
        forall|i: int|
            0 <= i < table.nodes()[p].keys.len() ==> #[trigger] table.nodes()[p].keys[i]
                == max_key_of(
                table.nodes(),
                table.nodes()[p].kids[i] as int,
                TABLE_MAX_PAGES as nat,
            ),
{
    let t = table.nodes();
    let sh = table.shape@;
    let none = Pending::Nothing;
    lemma_internal_keys_ascend(t, sh, none, p);
    assert(node_ok(t, sh, none, p));
    assert(node_ok(t, sh, none, 0));
    assert forall|i: int| 0 <= i < t[p].keys.len() implies #[trigger] t[p].keys[i] == max_key_of(
        t,
        t[p].kids[i] as int,
        TABLE_MAX_PAGES as nat,
    ) by {
        assert(link_ok(t, sh, none, p, i));
        let c = t[p].kids[i] as int;
        assert(node_ok(t, sh, none, c));
        lemma_max_key(t, sh, none, c, TABLE_MAX_PAGES as nat);
    }
}

/// The chain of leaves begins at the leftmost leaf, goes from each leaf to
/// the next, ends where the next leaf is 0, visits every leaf exactly
/// once, and comes to larger keys with every step.
pub proof fn law_leaf_chain(table: &Table)
    requires
        table.wf(),
    ensures
        ({
            let t = table.nodes();
            let chain = table.shape@.leaves;
            &&& chain.len() >= 1
            &&& chain[0] == first_leaf(t, 0, TABLE_MAX_PAGES as nat)
            &&& forall|r: int| 0 <= r < chain.len() - 1 ==> t[#[trigger] chain[r]].next == chain[r + 1]
            &&& t[chain[chain.len() - 1]].next == 0
            &&& forall|r: int|
                0 <= r < chain.len() ==> 0 <= #[trigger] chain[r] < t.len() && t[chain[r]].leaf
            &&& forall|p: int|
                0 <= p < t.len() && t[p].leaf ==> exists|r: int|
                    0 <= r < chain.len() && #[trigger] chain[r] == p
            &&& forall|r1: int, r2: int|
                0 <= r1 < r2 < chain.len() ==> #[trigger] chain[r1] != #[trigger] chain[r2]
            &&& forall|r1: int, r2: int, i: int, j: int|
                0 <= r1 < r2 < chain.len() && 0 <= i < t[chain[r1]].cells.len() && 0 <= j
                    < t[chain[r2]].cells.len() ==> (#[trigger] t[chain[r1]].cells[i]).key < (
                #[trigger] t[chain[r2]].cells[j]).key
        }),
{
    let t = table.nodes();
    let sh = table.shape@;
    let none = Pending::Nothing;
    let chain = sh.leaves;
    assert(node_ok(t, sh, none, 0));
    lemma_first_leaf(t, sh, none, 0, TABLE_MAX_PAGES as nat);
    assert forall|r: int| 0 <= r < chain.len() - 1 implies t[#[trigger] chain[r]].next
        == chain[r + 1] by {
        assert(chained(t, sh, r));
    }
    assert(node_ok(t, sh, none, chain[chain.len() - 1]));
    assert forall|p: int| 0 <= p < t.len() && t[p].leaf implies exists|r: int|
        0 <= r < chain.len() && #[trigger] chain[r] == p by {
        lemma_leaf_rank(t, sh, none, p);
    }
    assert forall|r1: int, r2: int| 0 <= r1 < r2 < chain.len() implies #[trigger] chain[r1]
        != #[trigger] chain[r2] by {
        lemma_leaf_rank(t, sh, none, chain[r1]);
    }
    assert forall|r1: int, r2: int, i: int, j: int|
        0 <= r1 < r2 < chain.len() && 0 <= i < t[chain[r1]].cells.len() && 0 <= j
            < t[chain[r2]].cells.len() implies (#[trigger] t[chain[r1]].cells[i]).key < (
    #[trigger] t[chain[r2]].cells[j]).key by {
        lemma_leaves_ordered(t, sh, none, r1, r2);
        assert(node_ok(t, sh, none, chain[r1]));
        assert(node_ok(t, sh, none, chain[r2]));
    }
}

/// The parent pointer of every node but the root leads to an internal
/// node that lists the node among its children.
pub proof fn law_parent_pointers(table: &Table, p: int)
    requires
        table.wf(),
        0 < p < table.pager.num_pages,
    ensures
        attached(table.nodes(), p),
        0 <= table.nodes()[p].parent < table.pager.num_pages,
        !table.nodes()[table.nodes()[p].parent as int].leaf,
        exists|i: int|
            0 <= i < table.nodes()[table.nodes()[p].parent as int].kids.len()
                && #[trigger] table.nodes()[table.nodes()[p].parent as int].kids[i] == p,
{
    assert(node_ok(table.nodes(), table.shape@, Pending::Nothing, p));
}

/// One node is the root, and it stands on page 0.
pub proof fn law_one_root(table: &Table)
    requires
        table.wf(),
    ensures
        table.pager.num_pages >= 1,
        forall|p: int|
            0 <= p < table.pager.num_pages ==> (#[trigger] table.nodes()[p]).is_root == (p == 0),
{
    let t = table.nodes();
    assert forall|p: int| 0 <= p < table.pager.num_pages implies (#[trigger] t[p]).is_root == (p
        == 0) by {
        assert(node_ok(t, table.shape@, Pending::Nothing, p));
    }
}

/// The rows of a table ascend by their keys, and the key of a row is the
/// id that the row holds.
pub proof fn law_rows_ascend(table: &Table)
    requires
        table.wf(),
    ensures
        ascending(table@),
        forall|i: int|
            0 <= i < table@.len() ==> le_u32((#[trigger] table@[i]).value, 0) == table@[i].key,
{
    let t = table.nodes();
    let sh = table.shape@;
    let none = Pending::Nothing;
    lemma_rows(t, sh, none);
    lemma_rows_ascending(t, sh, none);
    assert forall|i: int| 0 <= i < table@.len() implies le_u32((#[trigger] table@[i]).value, 0)
        == table@[i].key by {
        let rc = lemma_flat_index(t, sh.leaves, i);
        assert(node_ok(t, sh, none, sh.leaves[rc.0]));
    }
}

/// In ascending rows the rows below a key are those in front of the place
/// where the key belongs.
pub proof fn lemma_count_below(rows: Seq<Entry>, key: u32)
    requires
        ascending(rows),
    ensures
        0 <= count_below(rows, key) <= rows.len(),
        forall|i: int| 0 <= i < count_below(rows, key) ==> (#[trigger] rows[i]).key < key,
        forall|i: int| count_below(rows, key) <= i < rows.len() ==> (#[trigger] rows[i]).key >= key,
    decreases rows.len(),
{
    if rows.len() > 0 {
        let d = rows.drop_last();
        assert forall|i: int, j: int| 0 <= i < j < d.len() implies (#[trigger] d[i]).key < (
        #[trigger] d[j]).key by {
            assert(d[i] == rows[i]);
            assert(d[j] == rows[j]);
        }
        lemma_count_below(d, key);
        let c = count_below(d, key);
        assert forall|i: int| 0 <= i < count_below(rows, key) implies (#[trigger] rows[i]).key
            < key by {
            if i < d.len() {
                assert(rows[i] == d[i]);
                if i >= c {
                    assert(rows[i].key < rows[rows.len() - 1].key || i == rows.len() - 1);
                }
            }
        }
        assert forall|i: int| count_below(rows, key) <= i < rows.len() implies (
        #[trigger] rows[i]).key >= key by {
            if i < d.len() {
                assert(rows[i] == d[i]);
                if rows.last().key < key {
                    assert(c <= d.len());
                    if c < d.len() {
                        assert(d[c].key >= key);
                        assert(rows[c] == d[c]);
                        assert(rows[c].key < rows[rows.len() - 1].key);
                    }
                }
            }
        }
    }
}

/// A row that was inserted is found by the scan exactly once, at the place
/// where its key belongs among the keys that were there: the rows in
/// front of it are those with smaller keys, the rows behind it those with
/// larger keys, and all are as they were.
pub proof fn law_insert_then_select(before: &Table, after: &Table, row: &Row, selected: Seq<Row>)
    requires
        before.wf(),
        after.wf(),
        !has_key(before@, row.id),
        after@ == before@.insert(
            count_below(before@, row.id),
            Entry { key: row.id, value: row.bytes() },
        ),
        selected.len() == after@.len(),
        forall|k: int| 0 <= k < selected.len() ==> (#[trigger] selected[k]).stored_in(after@[k].value),
    ensures
        ({
            let place = count_below(before@, row.id);
            &&& 0 <= place <= before@.len()
            &&& selected.len() == before@.len() + 1
            &&& selected[place].id == row.id
            &&& selected[place].username@ == row.username@
            &&& selected[place].email@ == row.email@
            &&& forall|k: int| 0 <= k < place ==> (#[trigger] selected[k]).stored_in(before@[k].value)
                && selected[k].id < row.id
            &&& forall|k: int|
                place < k < selected.len() ==> (#[trigger] selected[k]).stored_in(
                    before@[k - 1].value,
                ) && selected[k].id > row.id
            &&& forall|i: int, j: int|
                0 <= i < j < selected.len() ==> (#[trigger] selected[i]).id < (
                #[trigger] selected[j]).id
        }),
{
    let place = count_below(before@, row.id);
    law_rows_ascend(before);
    law_rows_ascend(after);
    lemma_count_below(before@, row.id);
    lemma_constants();
    crate::row::lemma_row_bytes(*row);
    assert(after@[place] == (Entry { key: row.id, value: row.bytes() }));
    assert(selected[place].stored_in(row.bytes()));
    assert forall|k: int| 0 <= k < selected.len() implies (#[trigger] selected[k]).id
        == after@[k].key by {}
    assert forall|k: int| 0 <= k < place implies (#[trigger] selected[k]).stored_in(
        before@[k].value,
    ) && selected[k].id < row.id by {
        assert(after@[k] == before@[k]);
    }
    assert forall|k: int| place < k < selected.len() implies (#[trigger] selected[k]).stored_in(
        before@[k - 1].value,
    ) && selected[k].id > row.id by {
        assert(after@[k] == before@[k - 1]);
        assert(before@[k - 1].key >= row.id);
    }
    assert forall|i: int, j: int| 0 <= i < j < selected.len() implies (#[trigger] selected[i]).id
        < (#[trigger] selected[j]).id by {
        assert(after@[i].key < after@[j].key);
    }
}

/// A table that was closed and opened again from its file is well formed
/// and holds the same rows.
pub proof fn law_close_then_open(before: &Table, closed: &Table, opened: &Table)
    requires
        before.wf(),
        closed.stored(),
        closed.same_pages(before),
        forall|p: int| !closed.pager.resident(p),
        closed.pager.file@.len() == 4096 * before.pager.num_pages,
        opened.pager.num_pages == closed.pager.file@.len() / 4096,
        opened.nodes() == image_nodes(closed.pager.file@),
        image_ok(closed.pager.file@) ==> opened.wf(),
    ensures
        image_ok(closed.pager.file@),
        opened.wf(),
        opened@ == before@,
        opened.nodes() == before.nodes(),
{
    let file = closed.pager.file@;
    assert(image_nodes(file) =~= before.nodes());
    assert forall|p: int| 0 <= p < file.len() / 4096 implies crate::node::page_fits(
        #[trigger] file_page(file, p),
    ) by {
        assert(crate::node::page_fits(closed.pager.page_view(p)));
    }
    assert(inv(image_nodes(file), before.shape@, Pending::Nothing));
}

/// Where the root is a leaf the table has one page.
pub proof fn lemma_root_leaf_alone(table: &Table)
    requires
        table.wf(),
        table.nodes()[0].leaf,
    ensures
        table.pager.num_pages == 1,
        table.height() == 0,
        table@ == table.nodes()[0].cells,
        forall|key: u32| #[trigger] table.leaf_of(key) == 0,
{
    let t = table.nodes();
    let sh = table.shape@;
    let none = Pending::Nothing;
    assert(node_ok(t, sh, none, 0));
    if t.len() > 1 {
        assert(node_ok(t, sh, none, 1));
        let up = t[1].parent as int;
        assert(node_ok(t, sh, none, up));
        let w = lemma_slot(t, 1);
        assert(link_ok(t, sh, none, up, w));
    }
    lemma_rows(t, sh, none);
    lemma_leaf_rank(t, sh, none, 0);
    assert(sh.leaves.len() == 1);
    assert(sh.leaves.drop_last() =~= Seq::<int>::empty());
    assert(flat(t, sh.leaves.drop_last()) =~= Seq::<Entry>::empty());
    assert(flat(t, sh.leaves) =~= t[0].cells);
    assert forall|key: u32| #[trigger] table.leaf_of(key) == 0 by {
        assert(table.covers(0, key));
        lemma_leaf_of(table, 0, key);
    }
}

/// The fourteenth row splits the root: a table whose root is a leaf with
/// thirteen rows has, after one more row was inserted, three pages; its
/// root is an internal node with two children, both leaves; and it holds
/// the fourteen rows.
pub proof fn law_first_split(before: &Table, after: &Table, row: &Row)
    requires
        before.wf(),
        before.nodes()[0].leaf,
        before@.len() == 13,
        after.wf(),
        !has_key(before@, row.id),
        after@ == before@.insert(
            count_below(before@, row.id),
            Entry { key: row.id, value: row.bytes() },
        ),
        after.pager.num_pages == before.pager.num_pages + before.pages_needed(row.id),
        after.height() == before.height() + if before.pages_needed(row.id) == before.height()
            + 2 {
            1int
        } else {
            0int
        },
        (after.nodes(), after.shape@) == row_placed(
            before.nodes(),
            before.shape@,
            before.leaf_of(row.id),
            count_below(before.nodes()[before.leaf_of(row.id)].cells, row.id),
            Entry { key: row.id, value: row.bytes() },
        ),
    ensures
        after.pager.num_pages == 3,
        after.height() == 1,
        !after.nodes()[0].leaf,
        after.nodes()[0].kids == seq![2u32, 1u32],
        after.nodes()[0].keys == seq![after@[6].key],
        after.nodes()[2].leaf,
        after.nodes()[1].leaf,
        after.nodes()[2].cells == after@.subrange(0, 7),
        after.nodes()[1].cells == after@.subrange(7, 14),
        after.nodes()[2].next == 1,
        after.nodes()[1].next == 0,
        after@.len() == 14,
        forall|i: int| 0 <= i < 13 ==> after@.contains(#[trigger] before@[i]),
{
    lemma_root_leaf_alone(before);
    lemma_constants();
    let t = after.nodes();
    let sh = after.shape@;
    let none = Pending::Nothing;
    assert(before.leaf_of(row.id) == 0);
    assert(node_ok(t, sh, none, 0));
    let kids = t[0].kids;
    assert(link_ok(t, sh, none, 0, 0));
    assert(link_ok(t, sh, none, 0, 1));
    assert(node_ok(t, sh, none, kids[0] as int));
    assert(node_ok(t, sh, none, kids[1] as int));
    if kids.len() > 2 {
        assert(link_ok(t, sh, none, 0, 2));
        assert(node_ok(t, sh, none, kids[2] as int));
        lemma_internal_keys_ascend(t, sh, none, 0);
    }
    let place = count_below(before@, row.id);
    lemma_count_below_bounds(before@, row.id);
    let b = before.nodes();
    assert(node_ok(b, before.shape@, none, 0));
    assert(b[0].next == 0);
    let e = Entry { key: row.id, value: row.bytes() };
    let all = b[0].cells.insert(place, e);
    assert(after@ == all);
    let split = leaf_split_nodes(b, 0, place, e, 0);
    assert(t[2].cells =~= all.subrange(0, 7));
    assert(t[1].cells =~= all.subrange(7, 14));
    assert(t[0].kids =~= seq![2u32, 1u32]);
    lemma_row_bytes(*row);
    assert(before.covers(0, row.id));
    lemma_count_below(before@, row.id);
    law_rows_ascend(before);
    assert(t[0].keys =~= seq![after@[6].key]);
    assert forall|i: int| 0 <= i < 13 implies after@.contains(#[trigger] before@[i]) by {
        if i < place {
            assert(after@[i] == before@[i]);
        } else {
            assert(after@[i + 1] == before@[i]);
        }
    }
}

/// The number of rows below a key is at most the number of rows.
pub proof fn lemma_count_below_bounds(rows: Seq<Entry>, key: u32)
    ensures
        0 <= count_below(rows, key) <= rows.len(),
    decreases rows.len(),
{
    if rows.len() > 0 {
        lemma_count_below_bounds(rows.drop_last(), key);
    }
}

/// Ascending rows are given by the rows that are among them: two tables
/// that hold the same rows give them in the same order, in whatever order
/// the rows were inserted.
pub proof fn law_order_of_insertion(a: Seq<Entry>, b: Seq<Entry>)
    requires
        ascending(a),
        ascending(b),
        forall|e: Entry| a.contains(e) <==> b.contains(e),
    ensures
        a == b,
    decreases a.len(),
{
    if a.len() == 0 {
        if b.len() > 0 {
            assert(b.contains(b[0]));
            assert(a.contains(b[0]));
        }
        assert(a =~= b);
    } else {
        let la = a.last();
        assert(a.contains(la)) by {
            assert(a[a.len() - 1] == la);
        }
        assert(b.contains(la));
        let j = choose|j: int| 0 <= j < b.len() && b[j] == la;
        let lb = b.last();
        assert(b.contains(lb)) by {
            assert(b[b.len() - 1] == lb);
        }
        let i = choose|i: int| 0 <= i < a.len() && a[i] == lb;
        if j < b.len() - 1 {
            assert(b[j].key < b[b.len() - 1].key);
            if i < a.len() - 1 {
                assert(a[i].key < a[a.len() - 1].key);
            }
            assert(false);
        }
        let da = a.drop_last();
        let db = b.drop_last();
        assert forall|e: Entry| da.contains(e) <==> db.contains(e) by {
            if da.contains(e) {
                let k = choose|k: int| 0 <= k < da.len() && da[k] == e;
                assert(a[k] == e);
                assert(a.contains(e));
                assert(a[k].key < a[a.len() - 1].key);
                let m = choose|m: int| 0 <= m < b.len() && b[m] == e;
                assert(m < b.len() - 1);
                assert(db[m] == e);
            }
            if db.contains(e) {
                let k = choose|k: int| 0 <= k < db.len() && db[k] == e;
                assert(b[k] == e);
                assert(b.contains(e));
                assert(b[k].key < b[b.len() - 1].key);
                let m = choose|m: int| 0 <= m < a.len() && a[m] == e;
                assert(m < a.len() - 1);
                assert(da[m] == e);
            }
        }
        assert forall|x: int, y: int| 0 <= x < y < da.len() implies (#[trigger] da[x]).key < (
        #[trigger] da[y]).key by {
            assert(da[x] == a[x] && da[y] == a[y]);
        }
        assert forall|x: int, y: int| 0 <= x < y < db.len() implies (#[trigger] db[x]).key < (
        #[trigger] db[y]).key by {
            assert(db[x] == b[x] && db[y] == b[y]);
        }
        law_order_of_insertion(da, db);
        assert(a =~= da.push(la));
        assert(b =~= db.push(lb));
    }
}

/// An insertion adds the row to the rows of the table and takes none
/// away.
pub proof fn law_insert_adds(rows: Seq<Entry>, place: int, e: Entry, x: Entry)
    requires
        0 <= place <= rows.len(),
    ensures
        rows.insert(place, e).contains(x) <==> rows.contains(x) || x == e,
{
    let after = rows.insert(place, e);
    if rows.contains(x) {
        let k = choose|k: int| 0 <= k < rows.len() && rows[k] == x;
        if k < place {
            assert(after[k] == x);
        } else {
            assert(after[k + 1] == x);
        }
    }
    if x == e {
        assert(after[place] == x);
    }
    if after.contains(x) {
        let k = choose|k: int| 0 <= k < after.len() && after[k] == x;
        if k < place {
            assert(rows[k] == x);
        } else if k > place {
            assert(rows[k - 1] == x);
        }
    }
}

/// The tree is shown in the same lines before and after an operation that
/// leaves the table as it is, such as a scan, an insertion that is
/// refused, or the showing of the tree itself.
pub proof fn law_tree_text_kept(before: &Table, after: &Table)
    requires
        before.wf(),
        after.same_as(before),
        after.nodes() == before.nodes(),
    ensures
        after.tree_text(0, 0) == before.tree_text(0, 0),
{
}

/// An insertion makes the tree higher by one level where it splits every
/// node from the leaf up to the root, and leaves its height alone
/// otherwise. Whichever it is, the table is well formed afterwards, and no
/// row but the new one came or went.
pub proof fn law_split_adds_a_level(before: &Table, after: &Table, row: &Row)
    requires
        before.wf(),
        after.wf(),
        insert_done(before, after, row, ExecuteResult::Success),
    ensures
        after.height() == before.height() || after.height() == before.height() + 1,
        after.height() == before.height() + 1 <==> before.pages_needed(row.id) == before.height()
            + 2,
        after@.len() == before@.len() + 1,
        ascending(after@),
        forall|x: Entry|
            after@.contains(x) <==> before@.contains(x) || x == (Entry {
                key: row.id,
                value: row.bytes(),
            }),
{
    let e = Entry { key: row.id, value: row.bytes() };
    let place = count_below(before@, row.id);
    lemma_count_below_bounds(before@, row.id);
    law_rows_ascend(after);
    assert forall|x: Entry| after@.contains(x) <==> before@.contains(x) || x == e by {
        law_insert_adds(before@, place, e, x);
    }
}

} // verus!
