//! Insertion: a row goes into its leaf, a full leaf is split, and the
//! split goes up the tree as far as the nodes above are full.

use vstd::prelude::*;
use crate::grow::{
    internal_split_mid, internal_split_nodes, internal_split_pre, internal_split_shape,
    leaf_split_mid, leaf_split_nodes, leaf_split_pre, leaf_split_shape, lemma_bound_unique,
    lemma_insert_place, lemma_internal_insert, lemma_internal_split, lemma_leaf_insert,
    lemma_leaf_split, lemma_need_frame, lemma_new_root, lemma_slot, lemma_virtual_chain,
    lemma_waits_behind, levels_above, need_insert, need_leaf, new_root_nodes, new_root_shape,
    slot_of, split_left, split_pending, virt_keys, virt_kids, waits_behind,
};
use crate::layout::{
    copy_into, get_leaf_node_next_leaf, get_node_type, initialize_internal_node,
    initialize_leaf_node, internal_node_child, internal_node_key, internal_node_num_keys,
    internal_node_right_child, is_internal_lower_bound, is_node_root, key_updated_at, leaf_node_key,
    leaf_node_num_cells, lemma_constants, lemma_put_u32, node_parent, set_leaf_node_next_leaf,
    set_node_parent, set_node_root, spec_internal_key, spec_internal_keys_ascending,
    update_internal_node_key, INTERNAL_NODE_MAX_CELLS, LEAF_NODE_LEFT_SPLIT_COUNT,
    LEAF_NODE_MAX_CELLS, LEAF_NODE_RIGHT_SPLIT_COUNT, NodeType, PAGE_SIZE, ROW_SIZE,
    TABLE_MAX_PAGES,
};
use crate::node::{
    cell_inserted_at, init_internal_root, internal_fill, internal_insert_cell, leaf_fill_cells,
    leaf_gather_cells, leaf_insert_cell, lemma_init_internal, lemma_init_leaf,
    lemma_leaf_cell_entry, lemma_set_key, lemma_set_next, lemma_set_parent, lemma_set_root, node_of,
    page_fits, Entry, Node,
};
use crate::pager::{get_page, get_unused_page_num};
use crate::row::{serialize_row, Row};
use crate::rows::{
    count_below, has_key, is_cell_lower_bound, lemma_count_bound, lemma_rows_hold,
    lemma_rows_insert,
};
use crate::table::{
    get_node_max_key, lemma_leaf_of, lemma_page_written, lemma_stored_kept, page_read, table_find,
    Cursor, Table,
};
use crate::tree::{
    inv, lemma_internal_keys_ascend, lemma_leaf_rank, lemma_max_key, lemma_max_key_frame,
    lemma_rows, lemma_spine, link_ok, max_key_of, node_ok, rows_of, spine_ok, Pending, Shape,
};

verus! {

/// Sets the parent pointer of the node on page `page_num`.
pub fn set_page_parent(table: &mut Table, page_num: usize, parent: u32)
    requires
        old(table).stored(),
        page_num < old(table).pager.num_pages,
    ensures
        final(table).rewritten(
            old(table),
            old(table).nodes().update(
                page_num as int,
                Node { parent, ..old(table).nodes()[page_num as int] },
            ),
        ),
{
    let ghost before = *table;
    let node = get_page(&mut table.pager, page_num);
    set_node_parent(node, parent);
    proof {
        lemma_set_parent(before.pager.page_view(page_num as int), parent);
        lemma_page_written(before, *table, page_num as int);
    }
}

/// Whether `q` is one of the children at the places `from .. upto`.
pub open spec fn among(kids: Seq<u32>, from: int, upto: int, q: int) -> bool
    decreases upto - from,
{
    from < upto && (kids[upto - 1] == q || among(kids, from, upto - 1, q))
}

/// Each of the first `upto` children is among them.
proof fn lemma_among(kids: Seq<u32>, upto: int, k: int)
    requires
        0 <= k < upto,
    ensures
        among(kids, 0, upto, kids[k] as int),
    decreases upto,
{
    if k < upto - 1 {
        lemma_among(kids, upto - 1, k);
    }
}

/// A page that is among the first `upto` children stands at one of their
/// places.
proof fn lemma_among_index(kids: Seq<u32>, upto: int, q: int) -> (k: int)
    requires
        among(kids, 0, upto, q),
    ensures
        0 <= k < upto,
        kids[k] == q,
    decreases upto,
{
    if kids[upto - 1] == q {
        upto - 1
    } else {
        lemma_among_index(kids, upto - 1, q)
    }
}

/// The nodes while a new root is made: the old root stands on its new
/// page, and the first `upto` of its children point at it.
pub open spec fn new_root_moving(t: Seq<Node>, upto: int) -> Seq<Node> {
    let left = t.len() as int;
    Seq::new(
        t.len() + 1,
        |q: int|
            if q == left {
                Node { is_root: false, ..t[0] }
            } else if among(t[0].kids, 0, upto, q) {
                Node { parent: left as u32, ..t[q] }
            } else {
                t[q]
            },
    )
}

/// Makes a new root above the root, which was split, and the node on page
/// `right_child_page_num`, which holds its upper half. The root moves to
/// the next unused page, and the root page becomes an internal node with
/// these two children.
pub fn create_new_root(table: &mut Table, right_child_page_num: usize)
    requires
        old(table).inv_with(Pending::Root { child: right_child_page_num as int }),
        old(table).pager.num_pages < TABLE_MAX_PAGES,
    ensures
        final(table).wf(),
        final(table)@ == old(table)@,
        final(table).pager.num_pages == old(table).pager.num_pages + 1,
        final(table).height() == old(table).height() + 1,
        final(table).nodes() == new_root_nodes(
            old(table).nodes(),
            old(table).shape@,
            right_child_page_num as int,
        ),
        final(table).shape@ == new_root_shape(old(table).nodes(), old(table).shape@),
{
    let ghost t = table.nodes();
    let ghost sh = table.shape@;
    let ghost x = right_child_page_num as int;
    let ghost pend = Pending::Root { child: x };
    let ghost fuel = sh.height[0] as nat;
    proof {
        lemma_constants();
        assert(node_ok(t, sh, pend, 0));
        assert(node_ok(t, sh, pend, x));
        lemma_spine(t, sh, pend, 0, fuel);
        lemma_max_key(t, sh, pend, 0, fuel);
        lemma_rows(t, sh, pend);
    }
    let root_page_num: usize = table.root_page_num;
    let left_child_page_num: usize = get_unused_page_num(&table.pager);
    let root = page_read(table, root_page_num);
    let root_is_internal: bool = get_node_type(root) == NodeType::Internal;
    let root_data: [u8; PAGE_SIZE] = *root;
    let ghost before = *table;
    {
        let left_child = get_page(&mut table.pager, left_child_page_num);
        copy_into(left_child, 0, &root_data);
        set_node_root(left_child, false);
    }
    proof {
        let s = before.pager.page_view(0);
        assert(root_data@ == s);
        let copied = crate::layout::put_bytes(
            before.pager.page_view(left_child_page_num as int),
            0,
            s,
        );
        assert(copied =~= s);
        lemma_set_root(s, false);
        lemma_page_written(before, *table, left_child_page_num as int);
        assert(table.nodes() =~= new_root_moving(t, 0));
    }
    if root_is_internal {
        let ghost bytes = table.pager.page_view(left_child_page_num as int);
        proof {
            assert(table.nodes()[left_child_page_num as int] == node_of(bytes));
            assert(node_of(bytes).kids == t[0].kids);
        }
        let left_child = page_read(table, left_child_page_num);
        let num_keys: u32 = internal_node_num_keys(left_child);
        let mut i: usize = 0;
        while i <= num_keys as usize
            invariant
                i <= num_keys + 1,
                num_keys + 1 == t[0].kids.len(),
                num_keys <= 3,
                !t[0].leaf,
                inv(t, sh, pend),
                t.len() < TABLE_MAX_PAGES,
                left_child_page_num == t.len(),
                table.rewritten(&before, new_root_moving(t, i as int)),
            decreases num_keys + 1 - i,
        {
            let ghost now = table.nodes();
            let ghost bytes = table.pager.page_view(left_child_page_num as int);
            proof {
                assert(node_ok(t, sh, pend, 0));
                assert(link_ok(t, sh, pend, 0, i as int));
                assert(now[left_child_page_num as int] == node_of(bytes));
                assert(node_of(bytes).kids == t[0].kids);
                assert(node_of(bytes).kids[i as int] == t[0].kids[i as int]);
            }
            let left_child = page_read(table, left_child_page_num);
            let child_page_num: u32 = internal_node_child(left_child, i);
            set_page_parent(table, child_page_num as usize, left_child_page_num as u32);
            proof {
                let c = child_page_num as int;
                let next = new_root_moving(t, i + 1);
                assert(among(t[0].kids, 0, i + 1, c));
                assert forall|q: int| 0 <= q < next.len() implies table.nodes()[q] == next[q] by {
                    if q == c {
                    } else {
                        assert(table.nodes()[q] == now[q]);
                    }
                }
                assert(table.nodes() =~= next);
            }
            i = i + 1;
        }
    }
    let ghost upto = t[0].kids.len() as int;
    let ghost moved = table.nodes();
    proof {
        assert(moved == new_root_moving(t, upto));
        assert forall|q: int| 0 <= q < t.len() implies (#[trigger] moved[q]).leaf == t[q].leaf
            && moved[q].cells == t[q].cells && moved[q].kids == t[q].kids by {}
        if !t[0].leaf {
            let last = t[0].kids.len() - 1;
            assert(link_ok(t, sh, pend, 0, last));
            lemma_max_key_frame(t, moved, t[0].kids[last] as int, (fuel - 1) as nat);
        }
        assert(spine_ok(moved, left_child_page_num as int, fuel));
        assert(max_key_of(moved, left_child_page_num as int, fuel) == max_key_of(t, 0, fuel));
    }
    let left_max_key: u32 = get_node_max_key(table, left_child_page_num);
    let ghost before_root = *table;
    proof {
        assert(moved[0] == node_of(table.pager.page_view(0)));
        if among(t[0].kids, 0, upto, 0) {
            let k = lemma_among_index(t[0].kids, upto, 0);
            assert(link_ok(t, sh, pend, 0, k));
        }
        assert(moved[0] == t[0]);
    }
    {
        let root = get_page(&mut table.pager, root_page_num);
        init_internal_root(
            root,
            left_child_page_num as u32,
            left_max_key,
            right_child_page_num as u32,
        );
    }
    proof {
        lemma_page_written(before_root, *table, 0);
    }
    let ghost rooted = table.nodes();
    set_page_parent(table, left_child_page_num, root_page_num as u32);
    let ghost lefted = table.nodes();
    set_page_parent(table, right_child_page_num, root_page_num as u32);
    proof {
        let t2 = new_root_nodes(t, sh, x);
        let left = t.len() as int;
        assert(rooted == moved.update(0, rooted[0]));
        assert(lefted == rooted.update(left, Node { parent: 0, ..rooted[left] }));
        assert(table.nodes() == lefted.update(x, Node { parent: 0, ..lefted[x] }));
        assert(rooted[0].keys =~= seq![sh.hi[0] as u32]);
        assert(rooted[0] == t2[0]);
        assert forall|q: int| 0 <= q < t2.len() implies table.nodes()[q] == t2[q] by {
            if q == 0 {
            } else if q == left {
                assert(table.nodes()[q] == lefted[q]);
            } else if q == x {
                assert(lefted[x] == moved[x]);
                if among(t[0].kids, 0, upto, q) {
                    let k = lemma_among_index(t[0].kids, upto, q);
                    assert(link_ok(t, sh, pend, 0, k));
                }
            } else {
                assert(table.nodes()[q] == moved[q]);
                assert(node_ok(t, sh, pend, q));
                if t[q].parent == 0 {
                    let w = lemma_slot(t, q);
                    lemma_among(t[0].kids, upto, w);
                } else if among(t[0].kids, 0, upto, q) {
                    let k = lemma_among_index(t[0].kids, upto, q);
                    assert(link_ok(t, sh, pend, 0, k));
                }
            }
        }
        assert(table.nodes() =~= t2);
        lemma_new_root(t, sh, x);
    }
    let ghost done = table.nodes();
    let ghost stored_before = *table;
    table.shape = Ghost(new_root_shape(t, sh));
    proof {
        lemma_stored_kept(stored_before, *table);
        lemma_rows(table.nodes(), table.shape@, Pending::Nothing);
    }
}

/// What the two functions that put a child into an internal node ask
/// for: the child waits for its place in the node, and the pages that the
/// insertion takes are there.
pub open spec fn insert_pre(table: &Table, parent: int, child: int) -> bool {
    &&& table.inv_with(
        Pending::Child {
            parent,
            child,
            after: waits_behind(table.nodes(), table.shape@, parent, child),
        },
    )
    &&& table.pager.num_pages + need_insert(
        table.nodes(),
        parent,
        levels_above(table.shape@, parent),
    ) <= TABLE_MAX_PAGES
}

/// What the two functions that put a child into an internal node leave:
/// the tree is whole, holds the same rows, and has grown by the pages that
/// the insertion takes, and by one level where the root was split. The
/// nodes are those after the child went in.
pub open spec fn insert_post(before: &Table, after: &Table, parent: int, child: int) -> bool {
    let fuel = levels_above(before.shape@, parent);
    &&& after.wf()
    &&& after@ == before@
    &&& after.pager.num_pages == before.pager.num_pages + need_insert(
        before.nodes(),
        parent,
        fuel,
    )
    &&& after.height() == before.height() + if need_insert(before.nodes(), parent, fuel)
        == fuel + 1 {
        1int
    } else {
        0int
    }
    &&& (after.nodes(), after.shape@) == child_placed(
        before.nodes(),
        before.shape@,
        parent,
        child,
        waits_behind(before.nodes(), before.shape@, parent, child),
        fuel,
    )
}

/// The nodes after the node `child` went into its parent, which has room,
/// behind the child at place `after`.
pub open spec fn child_inserted(t: Seq<Node>, sh: Shape, parent: int, child: int, after: int) -> Seq<
    Node,
> {
    t.update(
        parent,
        Node {
            keys: virt_keys(t, sh, parent, child, after),
            kids: virt_kids(t, parent, child, after),
            ..t[parent]
        },
    )
}

/// The nodes and the shape after the node `child` went into `parent`,
/// behind the child at place `after`.
///
/// A parent that has room takes the child. A full parent is split: the new
/// node goes into the parent of the parent in the same way, and where the
/// parent is the root, a new root is made above the two halves.
pub open spec fn child_placed(
    t: Seq<Node>,
    sh: Shape,
    parent: int,
    child: int,
    after: int,
    fuel: nat,
) -> (Seq<Node>, Shape)
    decreases fuel,
{
    if fuel == 0 || t[parent].keys.len() < 3 {
        (child_inserted(t, sh, parent, child, after), sh)
    } else {
        let slot = if parent == 0 {
            0
        } else {
            slot_of(t, parent)
        };
        let split = internal_split_nodes(t, sh, parent, child, after, slot);
        let shape = internal_split_shape(t, sh, parent, child, after);
        if parent == 0 {
            (new_root_nodes(split, shape, t.len() as int), new_root_shape(split, shape))
        } else {
            child_placed(
                split,
                shape,
                t[parent].parent as int,
                t.len() as int,
                slot,
                (fuel - 1) as nat,
            )
        }
    }
}

/// Puts the child on page `child_page_num`, which waits for its place,
/// into the internal node on page `parent_page_num`. A node that is full
/// is split.
///
/// The parent is a node of the tree, so its right child is set. A child
/// with keys above those of the right child becomes the right child, and
/// the old right child moves into a new last cell; any other child goes
/// into a new cell in front of the first key that is at least its largest
/// key.
pub fn internal_node_insert(table: &mut Table, parent_page_num: usize, child_page_num: usize)
    requires
        insert_pre(old(table), parent_page_num as int, child_page_num as int),
    ensures
        insert_post(old(table), final(table), parent_page_num as int, child_page_num as int),
    decreases levels_above(old(table).shape@, parent_page_num as int), 1int,
{
    let ghost t = table.nodes();
    let ghost sh = table.shape@;
    let ghost parent = parent_page_num as int;
    let ghost child = child_page_num as int;
    let ghost after = waits_behind(t, sh, parent, child);
    let ghost fuel = levels_above(sh, parent);
    let ghost pend = Pending::Child { parent, child, after };
    let ghost h = sh.height[child] as nat;
    proof {
        lemma_constants();
        assert(node_ok(t, sh, pend, parent));
        assert(node_ok(t, sh, pend, child));
        lemma_spine(t, sh, pend, child, h);
        lemma_max_key(t, sh, pend, child, h);
        lemma_rows(t, sh, pend);
    }
    let child_max_key: u32 = get_node_max_key(table, child_page_num);
    let ghost bytes = table.pager.page_view(parent);
    proof {
        assert(t[parent] == node_of(bytes));
    }
    let parent_node = page_read(table, parent_page_num);
    let num_keys: u32 = internal_node_num_keys(parent_node);
    let right_child_page_num: u32 = internal_node_right_child(parent_node);
    if num_keys >= INTERNAL_NODE_MAX_CELLS as u32 {
        internal_node_split_and_insert(table, parent_page_num, child_page_num);
        return ;
    }
    let ghost nk = t[parent].keys.len() as int;
    let ghost rc = t[parent].kids[nk] as int;
    proof {
        assert(rc == right_child_page_num);
        assert(link_ok(t, sh, pend, parent, nk));
        assert(node_ok(t, sh, pend, rc));
        lemma_spine(t, sh, pend, rc, h);
        lemma_max_key(t, sh, pend, rc, h);
    }
    let right_max_key: u32 = get_node_max_key(table, right_child_page_num as usize);
    let ghost before = *table;
    {
        let parent_node = get_page(&mut table.pager, parent_page_num);
        internal_insert_cell(
            parent_node,
            child_page_num as u32,
            child_max_key,
            right_max_key,
        );
    }
    proof {
        lemma_page_written(before, *table, parent);
        let done = node_of(table.pager.page_view(parent));
        let index = choose|index: int|
            {
                &&& #[trigger] cell_inserted_at(
                    t[parent],
                    done,
                    child_page_num as u32,
                    child_max_key,
                    right_max_key,
                    index,
                )
                &&& spec_internal_keys_ascending(bytes) ==> is_internal_lower_bound(
                    bytes,
                    child_max_key,
                    index,
                )
            };
        lemma_insert_place(t, sh, parent, child, after, child_max_key, right_max_key);
        assert forall|i: int| 0 <= i < nk implies t[parent].keys[i] == spec_internal_key(
            bytes,
            i,
        ) by {}
        if after < nk {
            lemma_bound_unique(t[parent].keys, child_max_key, index, after + 1);
            assert(done.kids =~= t[parent].kids.insert(after + 1, child_page_num as u32));
        } else {
            assert(done.kids =~= t[parent].kids.insert(after + 1, child_page_num as u32));
        }
        let key = if after < nk {
            child_max_key
        } else {
            right_max_key
        };
        lemma_internal_insert(t, sh, parent, child, after, key, table.nodes());
        lemma_rows(table.nodes(), sh, Pending::Nothing);
        assert(done.keys =~= virt_keys(t, sh, parent, child, after));
        assert(table.nodes() =~= child_inserted(t, sh, parent, child, after));
        assert(fuel > 0);
    }
}

/// The children of the full node `parent_page_num` and the keys between
/// them, with the waiting child at its place.
fn gather_children(
    table: &mut Table,
    parent_page_num: usize,
    child_page_num: usize,
    child_max_key: u32,
    Ghost(after): Ghost<int>,
) -> (lists: (Vec<u32>, Vec<u32>))
    requires
        old(table).inv_with(
            Pending::Child { parent: parent_page_num as int, child: child_page_num as int, after },
        ),
        old(table).nodes()[parent_page_num as int].keys.len() == 3,
        child_max_key == max_key_of(
            old(table).nodes(),
            child_page_num as int,
            old(table).shape@.height[child_page_num as int] as nat,
        ),
    ensures
        final(table).stored(),
        final(table).same_as(old(table)),
        final(table).nodes() == old(table).nodes(),
        lists.0@ == virt_kids(
            old(table).nodes(),
            parent_page_num as int,
            child_page_num as int,
            after,
        ),
        lists.1@ == virt_keys(
            old(table).nodes(),
            old(table).shape@,
            parent_page_num as int,
            child_page_num as int,
            after,
        ),
{
    let ghost t = table.nodes();
    let ghost sh = table.shape@;
    let ghost parent = parent_page_num as int;
    let ghost child = child_page_num as int;
    let ghost pend = Pending::Child { parent, child, after };
    let ghost h = sh.height[child] as nat;
    let ghost bytes = table.pager.page_view(parent);
    proof {
        lemma_constants();
        assert(node_ok(t, sh, pend, parent));
        assert(node_ok(t, sh, pend, child));
        lemma_spine(t, sh, pend, child, h);
        lemma_max_key(t, sh, pend, child, h);
        assert(t[parent] == node_of(bytes));
        assert(link_ok(t, sh, pend, parent, 0));
        assert(link_ok(t, sh, pend, parent, 1));
        assert(link_ok(t, sh, pend, parent, 2));
        assert(link_ok(t, sh, pend, parent, 3));
    }
    let mut kids: Vec<u32> = Vec::new();
    let mut keys: Vec<u32> = Vec::new();
    let node = page_read(table, parent_page_num);
    let mut i: usize = 0;
    while i < INTERNAL_NODE_MAX_CELLS
        invariant
            i <= 3,
            node@ == bytes,
            page_fits(bytes),
            t[parent] == node_of(bytes),
            !t[parent].leaf,
            t[parent].keys.len() == 3,
            t[parent].kids.len() == 4,
            forall|k: int| 0 <= k < 4 ==> t[parent].kids[k] < 100,
            kids@ == t[parent].kids.subrange(0, i as int),
            keys@ == t[parent].keys.subrange(0, i as int),
        decreases 3 - i,
    {
        proof {
            assert(t[parent].kids[i as int] == crate::layout::spec_internal_child(
                bytes,
                i as int,
            ));
            assert(t[parent].keys[i as int] == spec_internal_key(bytes, i as int));
        }
        kids.push(internal_node_child(node, i));
        keys.push(internal_node_key(node, i));
        proof {
            assert(kids@ =~= t[parent].kids.subrange(0, i + 1));
            assert(keys@ =~= t[parent].keys.subrange(0, i + 1));
        }
        i = i + 1;
    }
    let right_child_page_num: u32 = internal_node_right_child(node);
    kids.push(right_child_page_num);
    let ghost rc = t[parent].kids[3] as int;
    proof {
        assert(kids@ =~= t[parent].kids);
        assert(keys@ =~= t[parent].keys);
        assert(node_ok(t, sh, pend, rc));
        lemma_spine(t, sh, pend, rc, h);
        lemma_max_key(t, sh, pend, rc, h);
    }
    let right_max_key: u32 = get_node_max_key(table, right_child_page_num as usize);
    proof {
        lemma_insert_place(t, sh, parent, child, after, child_max_key, right_max_key);
    }
    if child_max_key > right_max_key {
        keys.push(right_max_key);
        kids.push(child_page_num as u32);
        proof {
            assert(kids@ =~= virt_kids(t, parent, child, after));
        }
    } else {
        let mut index: usize = 0;
        while index < 3 && keys[index] < child_max_key
            invariant
                index <= 3,
                keys@ == t[parent].keys,
                t[parent].keys.len() == 3,
                forall|k: int| 0 <= k < index ==> t[parent].keys[k] < child_max_key,
            decreases 3 - index,
        {
            index = index + 1;
        }
        proof {
            lemma_bound_unique(t[parent].keys, child_max_key, index as int, after + 1);
        }
        keys.insert(index, child_max_key);
        kids.insert(index, child_page_num as u32);
    }
    (kids, keys)
}

/// Overwrites, in the internal node on page `page_num`, the key of the
/// child under which `old_key` belongs. That child is child `slot`; where
/// it is the right child, which has no key, the node stays as it is.
fn update_page_key(
    table: &mut Table,
    page_num: usize,
    old_key: u32,
    new_key: u32,
    Ghost(slot): Ghost<int>,
)
    requires
        old(table).stored(),
        page_num < old(table).pager.num_pages,
        !old(table).nodes()[page_num as int].leaf,
        forall|i: int, j: int|
            0 <= i < j < old(table).nodes()[page_num as int].keys.len() ==> old(
                table,
            ).nodes()[page_num as int].keys[i] < old(table).nodes()[page_num as int].keys[j],
        0 <= slot <= old(table).nodes()[page_num as int].keys.len(),
        forall|i: int| 0 <= i < slot ==> old(table).nodes()[page_num as int].keys[i] < old_key,
        slot < old(table).nodes()[page_num as int].keys.len() ==> old(
            table,
        ).nodes()[page_num as int].keys[slot] >= old_key,
    ensures
        final(table).rewritten(
            old(table),
            old(table).nodes().update(
                page_num as int,
                if slot < old(table).nodes()[page_num as int].keys.len() {
                    Node {
                        keys: old(table).nodes()[page_num as int].keys.update(slot, new_key),
                        ..old(table).nodes()[page_num as int]
                    }
                } else {
                    old(table).nodes()[page_num as int]
                },
            ),
        ),
{
    let ghost before = *table;
    let ghost bytes = table.pager.page_view(page_num as int);
    let ghost nd = table.nodes()[page_num as int];
    proof {
        lemma_constants();
        assert(nd == node_of(bytes));
    }
    {
        let node = get_page(&mut table.pager, page_num);
        update_internal_node_key(node, old_key, new_key);
    }
    proof {
        let index = choose|index: int| #[trigger]
            key_updated_at(
                bytes,
                table.pager.page_view(page_num as int),
                old_key,
                new_key,
                index,
            );
        assert forall|i: int| 0 <= i < nd.keys.len() implies nd.keys[i] == spec_internal_key(
            bytes,
            i,
        ) by {}
        lemma_bound_unique(nd.keys, old_key, index, slot);
        lemma_set_key(bytes, slot, new_key);
        lemma_page_written(before, *table, page_num as int);
    }
}

/// The nodes while a full internal node is split: the node and its new
/// sibling are written, and of the children that go to the sibling those
/// in front of place `upto` point at it.
pub open spec fn internal_split_moving(
    t: Seq<Node>,
    sh: Shape,
    parent: int,
    child: int,
    after: int,
    upto: int,
) -> Seq<Node> {
    let v = virt_kids(t, parent, child, after);
    let ks = virt_keys(t, sh, parent, child, after);
    let l = split_left(after);
    let y = t.len() as int;
    Seq::new(
        t.len() + 1,
        |q: int|
            if q == parent {
                Node { keys: ks.subrange(0, l - 1), kids: v.subrange(0, l), ..t[parent] }
            } else if q == y {
                Node {
                    leaf: false,
                    is_root: false,
                    parent: t[parent].parent,
                    cells: Seq::empty(),
                    next: 0,
                    keys: ks.subrange(l, 4),
                    kids: v.subrange(l, 5),
                }
            } else if among(v, l, upto, q) {
                Node { parent: y as u32, ..t[q] }
            } else {
                t[q]
            },
    )
}

/// Writes the two halves of a full internal node that is split: the
/// first `left_count` of the five children stay in the node, the others
/// go to a new node on the next unused page and get it as their parent.
fn split_internal_pages(
    table: &mut Table,
    parent_page_num: usize,
    kids: &Vec<u32>,
    keys: &Vec<u32>,
    left_count: usize,
    Ghost(child): Ghost<int>,
    Ghost(after): Ghost<int>,
)
    requires
        old(table).inv_with(Pending::Child { parent: parent_page_num as int, child, after }),
        old(table).nodes()[parent_page_num as int].keys.len() == 3,
        old(table).pager.num_pages < TABLE_MAX_PAGES,
        kids@ == virt_kids(old(table).nodes(), parent_page_num as int, child, after),
        keys@ == virt_keys(
            old(table).nodes(),
            old(table).shape@,
            parent_page_num as int,
            child,
            after,
        ),
        left_count == split_left(after),
    ensures
        final(table).rewritten(
            old(table),
            internal_split_moving(
                old(table).nodes(),
                old(table).shape@,
                parent_page_num as int,
                child,
                after,
                5,
            ),
        ),
{
    let ghost t = table.nodes();
    let ghost sh = table.shape@;
    let ghost parent = parent_page_num as int;
    let ghost pend = Pending::Child { parent, child, after };
    let ghost start = *table;
    proof {
        lemma_constants();
        assert(node_ok(t, sh, pend, parent));
        lemma_virtual_chain(t, sh, parent, child, after);
        assert(t[parent] == node_of(table.pager.page_view(parent)));
    }
    let new_page_num: usize = get_unused_page_num(&table.pager);
    let node = page_read(table, parent_page_num);
    let grand_page_num: u32 = node_parent(node);
    let ghost before = *table;
    {
        let old_node = get_page(&mut table.pager, parent_page_num);
        internal_fill(old_node, kids, keys, 0, left_count);
    }
    proof {
        lemma_page_written(before, *table, parent);
    }
    let ghost before = *table;
    {
        let new_node = get_page(&mut table.pager, new_page_num);
        let ghost fresh = new_node@;
        initialize_internal_node(new_node);
        let ghost blank = new_node@;
        set_node_parent(new_node, grand_page_num);
        proof {
            lemma_init_internal(fresh);
            lemma_set_parent(blank, grand_page_num);
        }
        internal_fill(new_node, kids, keys, left_count, 5 - left_count);
    }
    proof {
        lemma_page_written(before, *table, new_page_num as int);
        assert(table.nodes() =~= internal_split_moving(
            t,
            sh,
            parent,
            child,
            after,
            left_count as int,
        ));
    }
    let mut k: usize = left_count;
    while k < 5
        invariant
            left_count <= k <= 5,
            left_count == split_left(after),
            parent == parent_page_num,
            pend == (Pending::Child { parent, child, after }),
            inv(t, sh, pend),
            t.len() < TABLE_MAX_PAGES,
            new_page_num == t.len(),
            t[parent].keys.len() == 3,
            kids@ == virt_kids(t, parent, child, after),
            table.rewritten(&start, internal_split_moving(t, sh, parent, child, after, k as int)),
        decreases 5 - k,
    {
        let ghost now = table.nodes();
        proof {
            lemma_virtual_chain(t, sh, parent, child, after);
        }
        let moved_page_num: u32 = kids[k];
        set_page_parent(table, moved_page_num as usize, new_page_num as u32);
        proof {
            let v = virt_kids(t, parent, child, after);
            let c = moved_page_num as int;
            assert(c == v[k as int]);
            let next = internal_split_moving(t, sh, parent, child, after, k + 1);
            assert(among(v, left_count as int, k + 1, c));
            assert forall|q: int| 0 <= q < next.len() implies table.nodes()[q] == next[q] by {
                if q == c {
                } else {
                    assert(table.nodes()[q] == now[q]);
                }
            }
            assert(table.nodes() =~= next);
        }
        k = k + 1;
    }
}

/// After the two halves are written and the key in the parent is set, the
/// nodes are those of the split.
proof fn lemma_split_written(
    t: Seq<Node>,
    sh: Shape,
    parent: int,
    child: int,
    after: int,
    slot: int,
    now: Seq<Node>,
)
    requires
        internal_split_pre(t, sh, parent, child, after, slot),
        ({
            let moving = internal_split_moving(t, sh, parent, child, after, 5);
            let up = t[parent].parent as int;
            now == if parent == 0 {
                moving
            } else {
                moving.update(
                    up,
                    if slot < moving[up].keys.len() {
                        Node {
                            keys: moving[up].keys.update(
                                slot,
                                internal_split_mid(t, sh, parent, child, after),
                            ),
                            ..moving[up]
                        }
                    } else {
                        moving[up]
                    },
                )
            }
        }),
    ensures
        now == internal_split_nodes(t, sh, parent, child, after, slot),
{
    let pend = Pending::Child { parent, child, after };
    let t2 = internal_split_nodes(t, sh, parent, child, after, slot);
    let moving = internal_split_moving(t, sh, parent, child, after, 5);
    reveal_with_fuel(among, 4);
    lemma_virtual_chain(t, sh, parent, child, after);
    let v = virt_kids(t, parent, child, after);
    assert(node_ok(t, sh, pend, parent));
    if parent != 0 {
        let up = t[parent].parent as int;
        assert(node_ok(t, sh, pend, up));
        assert(link_ok(t, sh, pend, up, slot));
        assert(moving[up] == t[up]);
    }
    assert forall|q: int| 0 <= q < t2.len() implies now[q] == t2[q] by {
        assert(among(v, 2, 5, q) == (q == v[2] || q == v[3] || q == v[4]));
        assert(among(v, 3, 5, q) == (q == v[3] || q == v[4]));
    }
    assert(now =~= t2);
}

/// An insertion takes no negative number of pages.
proof fn lemma_need_nonneg(t: Seq<Node>, p: int, fuel: nat)
    ensures
        need_insert(t, p, fuel) >= 0,
    decreases fuel,
{
    if fuel > 0 && 0 <= p < t.len() && t[p].keys.len() >= 3 && p != 0 {
        lemma_need_nonneg(t, t[p].parent as int, (fuel - 1) as nat);
    }
}

/// What is known before a full internal node is split.
proof fn lemma_split_facts(
    t: Seq<Node>,
    sh: Shape,
    parent: int,
    child: int,
    after: int,
    fuel: nat,
)
    requires
        inv(t, sh, Pending::Child { parent, child, after }),
        t[parent].keys.len() == 3,
        fuel > sh.height[0] - sh.height[parent],
    ensures
        sh.height[parent] >= 1,
        spine_ok(t, parent, sh.height[parent] as nat),
        spine_ok(t, child, (sh.height[parent] - 1) as nat),
        need_insert(t, parent, fuel) >= 1,
        parent != 0 ==> need_insert(t, parent, fuel) == 1 + need_insert(
            t,
            t[parent].parent as int,
            (fuel - 1) as nat,
        ),
        parent == 0 ==> need_insert(t, parent, fuel) == 2,
        t[parent].is_root == (parent == 0),
        !t[parent].leaf,
        0 <= parent < t.len(),
        0 < child < t.len(),
        parent != 0 ==> 0 <= t[parent].parent < t.len() && !t[t[parent].parent as int].leaf
            && sh.height[t[parent].parent as int] == sh.height[parent] + 1,
        parent != 0 ==> crate::tree::attached(t, parent),
        ({
            let m = max_key_of(t, parent, sh.height[parent] as nat);
            let c = max_key_of(t, child, (sh.height[parent] - 1) as nat);
            &&& (c < t[parent].keys[1]) == (after == 0)
            &&& sh.lo[parent] < m <= sh.hi[parent]
        }),
{
    let pend = Pending::Child { parent, child, after };
    let h = sh.height[parent] as nat;
    let rc = t[parent].kids[3] as int;
    assert(node_ok(t, sh, pend, parent));
    assert(node_ok(t, sh, pend, child));
    assert(node_ok(t, sh, pend, 0));
    assert(link_ok(t, sh, pend, parent, 3));
    assert(node_ok(t, sh, pend, rc));
    lemma_spine(t, sh, pend, parent, h);
    lemma_max_key(t, sh, pend, parent, h);
    lemma_spine(t, sh, pend, child, (h - 1) as nat);
    lemma_max_key(t, sh, pend, child, (h - 1) as nat);
    lemma_max_key(t, sh, pend, rc, (h - 1) as nat);
    if parent != 0 {
        lemma_need_nonneg(t, t[parent].parent as int, (fuel - 1) as nat);
        let w = lemma_slot(t, parent);
        let up = t[parent].parent as int;
        assert(node_ok(t, sh, pend, up));
        assert(link_ok(t, sh, pend, up, w));
    }
    let m = max_key_of(t, parent, h);
    let c = max_key_of(t, child, (h - 1) as nat);
    assert(m == max_key_of(t, rc, (h - 1) as nat));
    lemma_insert_place(t, sh, parent, child, after, c, m);
}

/// Where the key of a node that is split stands among the keys of its
/// parent.
proof fn lemma_split_key_place(
    t: Seq<Node>,
    sh: Shape,
    parent: int,
    child: int,
    after: int,
    slot: int,
    old_max: u32,
)
    requires
        internal_split_pre(t, sh, parent, child, after, slot),
        parent != 0,
        sh.lo[parent] < old_max <= sh.hi[parent],
    ensures
        ({
            let up = t[parent].parent as int;
            let moving = internal_split_moving(t, sh, parent, child, after, 5);
            &&& 0 <= up < t.len()
            &&& moving[up] == t[up]
            &&& !t[up].leaf
            &&& forall|i: int, j: int| 0 <= i < j < t[up].keys.len() ==> t[up].keys[i] < t[up].keys[j]
            &&& 0 <= slot <= t[up].keys.len()
            &&& forall|i: int| 0 <= i < slot ==> t[up].keys[i] < old_max
            &&& slot < t[up].keys.len() ==> t[up].keys[slot] >= old_max
        }),
{
    let pend = Pending::Child { parent, child, after };
    let up = t[parent].parent as int;
    assert(node_ok(t, sh, pend, parent));
    assert(node_ok(t, sh, pend, up));
    assert(link_ok(t, sh, pend, up, slot));
    lemma_virtual_chain(t, sh, parent, child, after);
    let v = virt_kids(t, parent, child, after);
    assert(internal_split_moving(t, sh, parent, child, after, 5)[up] == t[up]) by {
        reveal_with_fuel(among, 4);
    }
    lemma_internal_keys_ascend(t, sh, pend, up);
    if slot > 0 {
        assert forall|i: int| 0 <= i < slot implies t[up].keys[i] < old_max by {
            if i < slot - 1 {
                assert(t[up].keys[i] < t[up].keys[slot - 1]);
            }
        }
    }
}

/// After the pages of a split are written the tree is well formed but for
/// the new node, holds the same rows, and what the insertion of the new
/// node takes is what was counted.
proof fn lemma_split_done(
    t: Seq<Node>,
    sh: Shape,
    parent: int,
    child: int,
    after: int,
    slot: int,
    fuel: nat,
    now: Seq<Node>,
)
    requires
        internal_split_pre(t, sh, parent, child, after, slot),
        fuel > sh.height[0] - sh.height[parent],
        parent != 0 ==> slot == slot_of(t, parent),
        parent == 0 ==> slot == 0,
        ({
            let moving = internal_split_moving(t, sh, parent, child, after, 5);
            let up = t[parent].parent as int;
            now == if parent == 0 {
                moving
            } else {
                moving.update(
                    up,
                    if slot < moving[up].keys.len() {
                        Node {
                            keys: moving[up].keys.update(
                                slot,
                                internal_split_mid(t, sh, parent, child, after),
                            ),
                            ..moving[up]
                        }
                    } else {
                        moving[up]
                    },
                )
            }
        }),
    ensures
        inv(
            now,
            internal_split_shape(t, sh, parent, child, after),
            split_pending(t, parent, t.len() as int, slot),
        ),
        crate::tree::rows_of(now) == crate::tree::rows_of(t),
        parent != 0 ==> need_insert(now, t[parent].parent as int, (fuel - 1) as nat)
            == need_insert(t, t[parent].parent as int, (fuel - 1) as nat),
        parent != 0 ==> (fuel - 1) > internal_split_shape(t, sh, parent, child, after).height[0]
            - internal_split_shape(t, sh, parent, child, after).height[t[parent].parent as int],
        now == internal_split_nodes(t, sh, parent, child, after, slot),
        parent != 0 && fuel == levels_above(sh, parent) ==> levels_above(
            internal_split_shape(t, sh, parent, child, after),
            t[parent].parent as int,
        ) == fuel - 1,
        child_placed(t, sh, parent, child, after, fuel) == if parent == 0 {
            (
                new_root_nodes(
                    now,
                    internal_split_shape(t, sh, parent, child, after),
                    t.len() as int,
                ),
                new_root_shape(now, internal_split_shape(t, sh, parent, child, after)),
            )
        } else {
            child_placed(
                now,
                internal_split_shape(t, sh, parent, child, after),
                t[parent].parent as int,
                t.len() as int,
                slot,
                (fuel - 1) as nat,
            )
        },
{
    let pend = Pending::Child { parent, child, after };
    let t2 = internal_split_nodes(t, sh, parent, child, after, slot);
    let sh2 = internal_split_shape(t, sh, parent, child, after);
    lemma_split_written(t, sh, parent, child, after, slot, now);
    lemma_internal_split(t, sh, parent, child, after, slot);
    lemma_rows(t, sh, pend);
    lemma_rows(t2, sh2, split_pending(t, parent, t.len() as int, slot));
    assert(node_ok(t, sh, pend, parent));
    if parent != 0 {
        let up = t[parent].parent as int;
        assert(node_ok(t, sh, pend, up));
        assert(link_ok(t, sh, pend, up, slot));
        lemma_virtual_chain(t, sh, parent, child, after);
        let v = virt_kids(t, parent, child, after);
        assert forall|q: int|
            0 <= q < t.len() && sh.height[q] >= sh.height[up] implies (#[trigger] t2[q]).keys.len()
            == t[q].keys.len() && t2[q].parent == t[q].parent by {
            assert(node_ok(t, sh, pend, q));
        }
        lemma_need_frame(t, sh, pend, t2, up, (fuel - 1) as nat);
    }
}

/// Splits the full internal node on page `parent_page_num` for the child
/// on page `child_page_num`, which waits for its place in it. Of the five
/// children the lower ones stay and the upper ones go to a new node; the
/// new child stays where its keys are below those of the second of the
/// old children. The new node then goes into the parent of the node that
/// was split, or a new root is made above the two.
pub fn internal_node_split_and_insert(
    table: &mut Table,
    parent_page_num: usize,
    child_page_num: usize,
)
    requires
        insert_pre(old(table), parent_page_num as int, child_page_num as int),
        old(table).nodes()[parent_page_num as int].keys.len() == 3,
    ensures
        insert_post(old(table), final(table), parent_page_num as int, child_page_num as int),
    decreases levels_above(old(table).shape@, parent_page_num as int), 0int,
{
    let ghost t = table.nodes();
    let ghost sh = table.shape@;
    let ghost parent = parent_page_num as int;
    let ghost child = child_page_num as int;
    let ghost after = waits_behind(t, sh, parent, child);
    let ghost fuel = levels_above(sh, parent);
    let ghost h = sh.height[parent] as nat;
    proof {
        lemma_constants();
        lemma_split_facts(t, sh, parent, child, after, fuel);
    }
    let old_max: u32 = get_node_max_key(table, parent_page_num);
    let child_max: u32 = get_node_max_key(table, child_page_num);
    let new_page_num: usize = get_unused_page_num(&table.pager);
    let lists = gather_children(table, parent_page_num, child_page_num, child_max, Ghost(after));
    let kids: Vec<u32> = lists.0;
    let keys: Vec<u32> = lists.1;
    let ghost bytes = table.pager.page_view(parent);
    proof {
        assert(t[parent] == node_of(bytes));
        assert(t[parent].keys[1] == spec_internal_key(bytes, 1));
    }
    let node = page_read(table, parent_page_num);
    let splitting_root: bool = is_node_root(node);
    let grand_page_num: u32 = node_parent(node);
    let middle_key: u32 = internal_node_key(node, INTERNAL_NODE_MAX_CELLS / 2);
    let left_count: usize = if child_max < middle_key {
        3
    } else {
        2
    };
    let new_old_max: u32 = keys[left_count - 1];
    split_internal_pages(
        table,
        parent_page_num,
        &kids,
        &keys,
        left_count,
        Ghost(child),
        Ghost(after),
    );
    let ghost slot = if parent == 0 {
        0
    } else {
        lemma_slot(t, parent)
    };
    if !splitting_root {
        proof {
            lemma_split_key_place(t, sh, parent, child, after, slot, old_max);
        }
        update_page_key(table, grand_page_num as usize, old_max, new_old_max, Ghost(slot));
    }
    proof {
        lemma_split_done(t, sh, parent, child, after, slot, fuel, table.nodes());
    }
    let ghost done = table.nodes();
    let ghost stored_before = *table;
    table.shape = Ghost(internal_split_shape(t, sh, parent, child, after));
    proof {
        lemma_stored_kept(stored_before, *table);
    }
    if splitting_root {
        create_new_root(table, new_page_num);
    } else {
        proof {
            lemma_waits_behind(
                table.nodes(),
                table.shape@,
                grand_page_num as int,
                new_page_num as int,
                slot,
            );
        }
        internal_node_insert(table, grand_page_num as usize, new_page_num);
    }
}

/// The bytes of a row in a buffer of their own.
fn row_bytes(value: &Row) -> (bytes: [u8; ROW_SIZE])
    ensures
        bytes@ == value.bytes(),
{
    let mut bytes: [u8; ROW_SIZE] = [0u8; ROW_SIZE];
    let ghost blank = bytes@;
    serialize_row(value, &mut bytes);
    proof {
        lemma_constants();
        let inner = Seq::new(
            ROW_SIZE as nat,
            |k: int|
                if k < 4 {
                    0u8
                } else if k < 36 {
                    value.username@[k - 4]
                } else {
                    value.email@[k - 36]
                },
        );
        lemma_put_u32(inner, 0, value.id);
        assert(value.bytes() == crate::layout::put_u32(inner, 0, value.id));
        assert(bytes@ =~= value.bytes());
    }
    bytes
}

/// What the functions that put a row into a leaf ask for: the cursor
/// stands in the leaf under which the key belongs, at the first cell with
/// a key at least as large, no cell has the key, and the pages that the
/// insertion takes are there.
pub open spec fn leaf_insert_pre(table: &Table, cursor: &Cursor, key: u32, value: &Row) -> bool {
    &&& table.wf()
    &&& key == value.id
    &&& table.covers(cursor.page_num as int, key)
    &&& is_cell_lower_bound(table.nodes()[cursor.page_num as int], key, cursor.cell_num as int)
    &&& cursor.cell_num < table.nodes()[cursor.page_num as int].cells.len()
        ==> table.nodes()[cursor.page_num as int].cells[cursor.cell_num as int].key != key
    &&& table.pager.num_pages + need_leaf(table.nodes(), table.shape@, cursor.page_num as int)
        <= TABLE_MAX_PAGES
}

/// What the functions that put a row into a leaf leave: the tree is whole,
/// holds the row at the place where its key belongs, and has grown by the
/// pages that the insertion takes.
pub open spec fn leaf_insert_post(
    before: &Table,
    after: &Table,
    cursor: &Cursor,
    key: u32,
    value: &Row,
) -> bool {
    let need = need_leaf(before.nodes(), before.shape@, cursor.page_num as int);
    &&& after.wf()
    &&& !has_key(before@, key)
    &&& after@ == before@.insert(
        count_below(before@, key),
        Entry { key, value: value.bytes() },
    )
    &&& after.pager.num_pages == before.pager.num_pages + need
    &&& after.height() == before.height() + if need == before.height() + 2 {
        1int
    } else {
        0int
    }
    &&& (after.nodes(), after.shape@) == row_placed(
        before.nodes(),
        before.shape@,
        cursor.page_num as int,
        cursor.cell_num as int,
        Entry { key, value: value.bytes() },
    )
}

/// The nodes and the shape after the row `e` went into the leaf `p` at
/// cell `i`.
///
/// A leaf that has room takes the row. A full leaf is split: it keeps the
/// first seven of the fourteen rows, and the other seven go to a new leaf
/// on the next unused page. Where the leaf is the root, the lower half
/// moves to one more page and the root page becomes an internal node above
/// the two. Else the new leaf goes into the parent, behind the old leaf,
/// whose key becomes the largest key that stays.
pub open spec fn row_placed(t: Seq<Node>, sh: Shape, p: int, i: int, e: Entry) -> (
    Seq<Node>,
    Shape,
) {
    if t[p].cells.len() < 13 {
        (t.update(p, Node { cells: t[p].cells.insert(i, e), ..t[p] }), sh)
    } else {
        let slot = if p == 0 {
            0
        } else {
            slot_of(t, p)
        };
        let split = leaf_split_nodes(t, p, i, e, slot);
        let shape = leaf_split_shape(sh, p, t.len() as int, leaf_split_mid(t, p, i, e));
        if p == 0 {
            (new_root_nodes(split, shape, t.len() as int), new_root_shape(split, shape))
        } else {
            child_placed(
                split,
                shape,
                t[p].parent as int,
                t.len() as int,
                slot,
                levels_above(sh, t[p].parent as int),
            )
        }
    }
}

/// The two halves of a full leaf, written to the pages: the first seven of
/// the fourteen rows stay, the other seven go to a new leaf on the next
/// unused page, which follows the old leaf in the chain of leaves.
fn split_leaf_pages(table: &mut Table, cursor: &Cursor, key: u32, value: &Row)
    requires
        old(table).stored(),
        cursor.page_num < old(table).pager.num_pages,
        old(table).pager.num_pages < TABLE_MAX_PAGES,
        old(table).nodes()[cursor.page_num as int].leaf,
        old(table).nodes()[cursor.page_num as int].cells.len() == 13,
        cursor.cell_num <= 13,
    ensures
        final(table).rewritten(
            old(table),
            ({
                let t = old(table).nodes();
                let p = cursor.page_num as int;
                let all = t[p].cells.insert(
                    cursor.cell_num as int,
                    Entry { key, value: value.bytes() },
                );
                t.update(
                    p,
                    Node { cells: all.subrange(0, 7), next: t.len() as u32, ..t[p] },
                ).push(
                    Node {
                        leaf: true,
                        is_root: false,
                        parent: t[p].parent,
                        cells: all.subrange(7, 14),
                        next: t[p].next,
                        keys: Seq::empty(),
                        kids: Seq::empty(),
                    },
                )
            }),
        ),
{
    let ghost t = table.nodes();
    let ghost p = cursor.page_num as int;
    let ghost bytes = table.pager.page_view(p);
    proof {
        lemma_constants();
        assert(t[p] == node_of(bytes));
    }
    let old_page_num: usize = cursor.page_num;
    let new_page_num: usize = get_unused_page_num(&table.pager);
    let value_bytes: [u8; ROW_SIZE] = row_bytes(value);
    let old_node = page_read(table, old_page_num);
    let old_next_leaf: u32 = get_leaf_node_next_leaf(old_node);
    let parent_page_num: u32 = node_parent(old_node);
    let all_cells: Vec<u8> = leaf_gather_cells(old_node, cursor.cell_num, key, &value_bytes);
    proof {
        assert(value_bytes@.subrange(0, ROW_SIZE as int) =~= value.bytes());
    }
    let ghost before = *table;
    {
        let new_node = get_page(&mut table.pager, new_page_num);
        let ghost fresh = new_node@;
        initialize_leaf_node(new_node);
        let ghost blank = new_node@;
        set_leaf_node_next_leaf(new_node, old_next_leaf);
        let ghost linked = new_node@;
        set_node_parent(new_node, parent_page_num);
        proof {
            lemma_init_leaf(fresh);
            lemma_set_next(blank, old_next_leaf);
            lemma_set_parent(linked, parent_page_num);
        }
        leaf_fill_cells(
            new_node,
            all_cells.as_slice(),
            LEAF_NODE_LEFT_SPLIT_COUNT,
            LEAF_NODE_RIGHT_SPLIT_COUNT,
        );
    }
    proof {
        lemma_page_written(before, *table, new_page_num as int);
    }
    let ghost before = *table;
    {
        let old_node = get_page(&mut table.pager, old_page_num);
        let ghost start = old_node@;
        set_leaf_node_next_leaf(old_node, new_page_num as u32);
        proof {
            lemma_set_next(start, new_page_num as u32);
        }
        leaf_fill_cells(old_node, all_cells.as_slice(), 0, LEAF_NODE_LEFT_SPLIT_COUNT);
    }
    proof {
        lemma_page_written(before, *table, p);
        let all = t[p].cells.insert(cursor.cell_num as int, Entry { key, value: value.bytes() });
        let want = t.update(
            p,
            Node { cells: all.subrange(0, 7), next: t.len() as u32, ..t[p] },
        ).push(
            Node {
                leaf: true,
                is_root: false,
                parent: t[p].parent,
                cells: all.subrange(7, 14),
                next: t[p].next,
                keys: Seq::empty(),
                kids: Seq::empty(),
            },
        );
        assert(table.nodes() =~= want);
    }
}

/// What is known before a full leaf is split.
proof fn lemma_leaf_split_facts(t: Seq<Node>, sh: Shape, p: int, i: int, key: u32)
    requires
        inv(t, sh, Pending::Nothing),
        0 <= p < t.len(),
        t[p].leaf,
        t[p].cells.len() == 13,
        sh.lo[p] < key <= sh.hi[p],
    ensures
        spine_ok(t, p, 0),
        max_key_of(t, p, 0) == t[p].cells[12].key,
        t[p].is_root == (p == 0),
        p == 0 ==> need_leaf(t, sh, p) == 2,
        p != 0 ==> need_leaf(t, sh, p) >= 1 && crate::tree::attached(t, p),
        p != 0 ==> levels_above(sh, t[p].parent as int) == sh.height[0],
        p != 0 ==> ({
            let up = t[p].parent as int;
            let slot = slot_of(t, p);
            &&& 0 <= up < t.len()
            &&& up != p
            &&& !t[up].leaf
            &&& sh.height[up] == 1
            &&& forall|a: int, b: int| 0 <= a < b < t[up].keys.len() ==> t[up].keys[a] < t[up].keys[b]
            &&& 0 <= slot <= t[up].keys.len()
            &&& forall|a: int| 0 <= a < slot ==> t[up].keys[a] < t[p].cells[12].key
            &&& slot < t[up].keys.len() ==> t[up].keys[slot] >= t[p].cells[12].key
        }),
{
    let none = Pending::Nothing;
    assert(node_ok(t, sh, none, p));
    assert(node_ok(t, sh, none, 0));
    if p != 0 {
        let up = t[p].parent as int;
        let slot = lemma_slot(t, p);
        lemma_need_nonneg(t, up, levels_above(sh, up));
        assert(node_ok(t, sh, none, up));
        assert(link_ok(t, sh, none, up, slot));
        lemma_internal_keys_ascend(t, sh, none, up);
        if slot > 0 {
            assert forall|a: int| 0 <= a < slot implies t[up].keys[a] < t[p].cells[12].key by {
                if a < slot - 1 {
                    assert(t[up].keys[a] < t[up].keys[slot - 1]);
                }
            }
        }
    }
}

/// After the pages of the split of a leaf are written the tree is well
/// formed but for the new leaf, holds the new row, and what the insertion
/// of the new leaf takes is what was counted.
proof fn lemma_leaf_split_done(
    t: Seq<Node>,
    sh: Shape,
    p: int,
    i: int,
    e: Entry,
    slot: int,
    fuel: nat,
    now: Seq<Node>,
)
    requires
        leaf_split_pre(t, sh, p, i, e, slot),
        p != 0 ==> fuel == levels_above(sh, t[p].parent as int),
        now == leaf_split_nodes(t, p, i, e, slot),
    ensures
        inv(
            now,
            leaf_split_shape(sh, p, t.len() as int, leaf_split_mid(t, p, i, e)),
            split_pending(t, p, t.len() as int, slot),
        ),
        !has_key(rows_of(t), e.key),
        rows_of(now) == rows_of(t).insert(count_below(rows_of(t), e.key), e),
        p != 0 ==> need_insert(now, t[p].parent as int, fuel) == need_insert(
            t,
            t[p].parent as int,
            fuel,
        ),
        p != 0 ==> levels_above(
            leaf_split_shape(sh, p, t.len() as int, leaf_split_mid(t, p, i, e)),
            t[p].parent as int,
        ) == fuel,
{
    let none = Pending::Nothing;
    let sh2 = leaf_split_shape(sh, p, t.len() as int, leaf_split_mid(t, p, i, e));
    lemma_leaf_split(t, sh, p, i, e, slot);
    lemma_rows(t, sh, none);
    lemma_rows(now, sh2, split_pending(t, p, t.len() as int, slot));
    assert(node_ok(t, sh, none, p));
    if p != 0 {
        let up = t[p].parent as int;
        assert(node_ok(t, sh, none, up));
        assert(link_ok(t, sh, none, up, slot));
        assert forall|q: int|
            0 <= q < t.len() && sh.height[q] >= sh.height[up] implies (#[trigger] now[q]).keys.len()
            == t[q].keys.len() && now[q].parent == t[q].parent by {
            assert(node_ok(t, sh, none, q));
        }
        lemma_need_frame(t, sh, none, now, up, fuel);
    }
}

/// Splits the full leaf at the cursor for a row that belongs at the
/// cursor's cell: of the fourteen rows the first seven stay, the other
/// seven go to a new leaf. The new leaf then goes into the parent of the
/// old one, or a new root is made above the two.
pub fn leaf_node_split_and_insert(table: &mut Table, cursor: &Cursor, key: u32, value: &Row)
    requires
        leaf_insert_pre(old(table), cursor, key, value),
        old(table).nodes()[cursor.page_num as int].cells.len() == 13,
    ensures
        leaf_insert_post(old(table), final(table), cursor, key, value),
{
    let ghost t = table.nodes();
    let ghost sh = table.shape@;
    let ghost p = cursor.page_num as int;
    let ghost fuel = levels_above(sh, t[p].parent as int);
    let ghost i = cursor.cell_num as int;
    let ghost e = Entry { key, value: value.bytes() };
    proof {
        lemma_constants();
        lemma_leaf_split_facts(t, sh, p, i, key);
        let inner = Seq::new(
            ROW_SIZE as nat,
            |k: int|
                if k < 4 {
                    0u8
                } else if k < 36 {
                    value.username@[k - 4]
                } else {
                    value.email@[k - 36]
                },
        );
        lemma_put_u32(inner, 0, value.id);
    }
    let old_page_num: usize = cursor.page_num;
    let new_page_num: usize = get_unused_page_num(&table.pager);
    let old_max_before: u32 = get_node_max_key(table, old_page_num);
    proof {
        assert(old_max_before == max_key_of(t, p, 0));
    }
    let old_node = page_read(table, old_page_num);
    let is_root: bool = is_node_root(old_node);
    let parent_page_num: u32 = node_parent(old_node);
    split_leaf_pages(table, cursor, key, value);
    let ghost slot = if p == 0 {
        0
    } else {
        lemma_slot(t, p)
    };
    if !is_root {
        proof {
            assert(spine_ok(table.nodes(), p, 0));
        }
        let old_max: u32 = get_node_max_key(table, old_page_num);
        proof {
            assert(old_max == max_key_of(table.nodes(), p, 0));
        }
        update_page_key(table, parent_page_num as usize, old_max_before, old_max, Ghost(slot));
    }
    proof {
        assert(table.nodes() =~= leaf_split_nodes(t, p, i, e, slot));
        lemma_leaf_split_done(t, sh, p, i, e, slot, fuel, table.nodes());
    }
    let ghost done = table.nodes();
    let ghost stored_before = *table;
    table.shape = Ghost(leaf_split_shape(sh, p, t.len() as int, leaf_split_mid(t, p, i, e)));
    proof {
        lemma_stored_kept(stored_before, *table);
    }
    if is_root {
        create_new_root(table, new_page_num);
    } else {
        proof {
            lemma_waits_behind(
                table.nodes(),
                table.shape@,
                parent_page_num as int,
                new_page_num as int,
                slot,
            );
        }
        internal_node_insert(table, parent_page_num as usize, new_page_num);
    }
}

/// Puts a row into the leaf at the cursor, at the cursor's cell: the cells
/// from there on move up by one. A leaf that is full is split.
pub fn leaf_node_insert(table: &mut Table, cursor: &Cursor, key: u32, value: &Row)
    requires
        leaf_insert_pre(old(table), cursor, key, value),
    ensures
        leaf_insert_post(old(table), final(table), cursor, key, value),
{
    let ghost t = table.nodes();
    let ghost sh = table.shape@;
    let ghost p = cursor.page_num as int;
    let ghost bytes = table.pager.page_view(p);
    proof {
        lemma_constants();
        assert(node_ok(t, sh, Pending::Nothing, p));
        assert(t[p] == node_of(bytes));
        lemma_rows(t, sh, Pending::Nothing);
    }
    let page_num: usize = cursor.page_num;
    let node = page_read(table, page_num);
    let num_cells: u32 = leaf_node_num_cells(node);
    if num_cells >= LEAF_NODE_MAX_CELLS as u32 {
        leaf_node_split_and_insert(table, cursor, key, value);
        return ;
    }
    let value_bytes: [u8; ROW_SIZE] = row_bytes(value);
    let ghost before = *table;
    {
        let node = get_page(&mut table.pager, page_num);
        leaf_insert_cell(node, cursor.cell_num, key, &value_bytes);
    }
    proof {
        lemma_page_written(before, *table, p);
        let e = Entry { key, value: value.bytes() };
        assert(value_bytes@.subrange(0, ROW_SIZE as int) =~= value.bytes());
        let inner = Seq::new(
            ROW_SIZE as nat,
            |k: int|
                if k < 4 {
                    0u8
                } else if k < 36 {
                    value.username@[k - 4]
                } else {
                    value.email@[k - 36]
                },
        );
        lemma_put_u32(inner, 0, value.id);
        lemma_leaf_insert(t, sh, p, cursor.cell_num as int, e, table.nodes());
        lemma_rows(table.nodes(), sh, Pending::Nothing);
        assert(need_leaf(t, sh, p) == 0);
    }
}

/// How an insertion ended.
#[derive(Debug, Clone, Copy, PartialEq, Eq, Structural)]
pub enum ExecuteResult {
    Success,
    /// The pages that the insertion takes are not there.
    TableFull,
    /// A row with the key is in the table.
    DuplicateKey,
}

impl Table {
    /// The number of pages that the insertion of a row with the key
    /// takes: one for each node that is split, and one more for a new root.
    pub open spec fn pages_needed(&self, key: u32) -> int {
        need_leaf(self.nodes(), self.shape@, self.leaf_of(key))
    }
}

/// The number of pages that the insertion of a row into the leaf on page
/// `leaf_page_num` takes.
pub fn pages_needed(table: &mut Table, leaf_page_num: usize) -> (pages: usize)
    requires
        old(table).wf(),
        leaf_page_num < old(table).pager.num_pages,
        old(table).nodes()[leaf_page_num as int].leaf,
    ensures
        final(table).wf(),
        final(table).same_as(old(table)),
        final(table).nodes() == old(table).nodes(),
        pages == need_leaf(old(table).nodes(), old(table).shape@, leaf_page_num as int),
        pages <= TABLE_MAX_PAGES + 1,
{
    let ghost t = table.nodes();
    let ghost sh = table.shape@;
    let ghost none = Pending::Nothing;
    let ghost leaf = leaf_page_num as int;
    proof {
        lemma_constants();
        assert(node_ok(t, sh, none, leaf));
        assert(node_ok(t, sh, none, 0));
        assert(t[leaf] == node_of(table.pager.page_view(leaf)));
    }
    let node = page_read(table, leaf_page_num);
    if leaf_node_num_cells(node) < LEAF_NODE_MAX_CELLS as u32 {
        return 0;
    }
    if is_node_root(node) {
        return 2;
    }
    let mut pages: usize = 1;
    let mut page_num: usize = node_parent(node) as usize;
    proof {
        let w = lemma_slot(t, leaf);
        assert(node_ok(t, sh, none, page_num as int));
        assert(link_ok(t, sh, none, page_num as int, w));
    }
    loop
        invariant_except_break
            page_num < t.len(),
            !t[page_num as int].leaf,
            pages == sh.height[page_num as int],
            pages + need_insert(t, page_num as int, levels_above(sh, page_num as int))
                == need_leaf(t, sh, leaf),
        invariant
            table.wf(),
            table.same_as(old(table)),
            table.nodes() == t,
            table.shape@ == sh,
            none == Pending::Nothing,
            inv(t, sh, none),
        ensures
            pages == need_leaf(t, sh, leaf),
            pages <= TABLE_MAX_PAGES + 1,
        decreases sh.height[0] - sh.height[page_num as int],
    {
        proof {
            assert(node_ok(t, sh, none, page_num as int));
            assert(node_ok(t, sh, none, 0));
            assert(t[page_num as int] == node_of(table.pager.page_view(page_num as int)));
        }
        let node = page_read(table, page_num);
        if internal_node_num_keys(node) < INTERNAL_NODE_MAX_CELLS as u32 {
            break ;
        }
        if is_node_root(node) {
            pages = pages + 2;
            break ;
        }
        let parent_page_num: usize = node_parent(node) as usize;
        proof {
            let w = lemma_slot(t, page_num as int);
            assert(node_ok(t, sh, none, parent_page_num as int));
            assert(link_ok(t, sh, none, parent_page_num as int, w));
        }
        pages = pages + 1;
        page_num = parent_page_num;
    }
    pages
}

/// Whether `result` and the table `after` are what the insertion of the
/// row into the table `before` comes to.
///
/// A row whose key is in the table is refused, and so is a row for which
/// the table has not the pages; the table then stays as it is. Else the
/// rows get the row at the place where its key belongs, the nodes are
/// those after the row went into its leaf, and the table has grown by the
/// pages that this takes and by one level where the root was split.
pub open spec fn insert_done(before: &Table, after: &Table, row: &Row, result: ExecuteResult) -> bool {
    match result {
        ExecuteResult::DuplicateKey => {
            &&& has_key(before@, row.id)
            &&& after.same_as(before)
            &&& after@ == before@
        },
        ExecuteResult::TableFull => {
            &&& !has_key(before@, row.id)
            &&& before.pager.num_pages + before.pages_needed(row.id) > TABLE_MAX_PAGES
            &&& after.same_as(before)
            &&& after@ == before@
        },
        ExecuteResult::Success => {
            &&& !has_key(before@, row.id)
            &&& before.pager.num_pages + before.pages_needed(row.id) <= TABLE_MAX_PAGES
            &&& after@ == before@.insert(
                count_below(before@, row.id),
                Entry { key: row.id, value: row.bytes() },
            )
            &&& after.pager.num_pages == before.pager.num_pages + before.pages_needed(row.id)
            &&& after.height() == before.height() + if before.pages_needed(row.id)
                == before.height() + 2 {
                1int
            } else {
                0int
            }
            &&& (after.nodes(), after.shape@) == row_placed(
                before.nodes(),
                before.shape@,
                before.leaf_of(row.id),
                count_below(before.nodes()[before.leaf_of(row.id)].cells, row.id),
                Entry { key: row.id, value: row.bytes() },
            )
        },
    }
}

/// Puts a row into the table at the place where its key belongs. A row
/// whose key is in the table is not put in, and neither is a row for which
/// the table has not the pages.
pub fn table_insert(table: &mut Table, row: &Row) -> (result: ExecuteResult)
    requires
        old(table).wf(),
    ensures
        final(table).wf(),
        insert_done(old(table), final(table), row, result),
        has_key(old(table)@, row.id) <==> result is DuplicateKey,
{
    let ghost t = table.nodes();
    let ghost sh = table.shape@;
    let ghost none = Pending::Nothing;
    let key_to_insert: u32 = row.id;
    let cursor = table_find(table, key_to_insert);
    let ghost p = cursor.page_num as int;
    let ghost i = cursor.cell_num as int;
    proof {
        lemma_constants();
        lemma_rows(t, sh, none);
        lemma_leaf_of(old(table), p, key_to_insert);
        assert(node_ok(t, sh, none, p));
        assert(node_ok(t, sh, none, 0));
        assert(t[p] == node_of(table.pager.page_view(p)));
    }
    let page_num: usize = cursor.page_num;
    let node = page_read(table, page_num);
    let num_cells: u32 = leaf_node_num_cells(node);
    if cursor.cell_num < num_cells as usize {
        proof {
            lemma_leaf_cell_entry(node@, i);
        }
        let key_at_index: u32 = leaf_node_key(node, cursor.cell_num);
        if key_at_index == key_to_insert {
            proof {
                let r = lemma_leaf_rank(t, sh, none, p);
                lemma_rows_hold(t, sh, none, r, i);
            }
            return ExecuteResult::DuplicateKey;
        }
    }
    let needed: usize = pages_needed(table, page_num);
    if table.pager.num_pages + needed > TABLE_MAX_PAGES {
        proof {
            let r = lemma_leaf_rank(t, sh, none, p);
            let e = Entry { key: key_to_insert, value: row.bytes() };
            let rows2 = crate::tree::flat(t, sh.leaves.subrange(0, r)) + t[p].cells.insert(i, e)
                + crate::tree::flat(t, sh.leaves.subrange(r + 1, sh.leaves.len() as int));
            lemma_rows_insert(t, sh, none, r, i, e, rows2);
        }
        return ExecuteResult::TableFull;
    }
    proof {
        let cells = t[p].cells;
        assert forall|j: int| i <= j < cells.len() implies (#[trigger] cells[j]).key
            >= key_to_insert by {
            if j > i {
                assert(cells[i].key < cells[j].key);
            }
        }
        lemma_count_bound(cells, key_to_insert, i);
    }
    leaf_node_insert(table, &cursor, key_to_insert, row);
    ExecuteResult::Success
}

} // verus!
