//! What a page means as a node of the tree, and the operations that change
//! one node, each stated over that meaning.

use vstd::prelude::*;
use crate::layout::{
    copy_into, copy_within, initialize_internal_node, internal_node_cell_mut,
    internal_node_find_child, internal_node_num_keys, internal_node_right_child,
    is_internal_lower_bound, le_u32, leaf_node_cell, leaf_node_cell_offset, leaf_node_num_cells,
    leaf_node_value_mut, lemma_constants, lemma_get_put_same, lemma_le_u32_depends, lemma_put_u32,
    lemma_put_u32_bytes, lemma_put_u32_len, node_type_byte, put_u32, set_internal_node_num_keys,
    set_internal_node_right_child, set_leaf_node_key, set_leaf_node_num_cells, set_node_root,
    set_u32_at, spec_internal_cell_child, spec_internal_child, spec_internal_key,
    spec_internal_keys_ascending, spec_internal_num_keys, spec_internal_right_child, spec_is_leaf,
    spec_is_root, spec_leaf_cell, spec_leaf_cell_offset, spec_leaf_key, spec_leaf_next,
    spec_leaf_num_cells, spec_leaf_value, spec_parent, INTERNAL_NODE_MAX_CELLS, INVALID_PAGE_NUM,
    LEAF_NODE_CELL_SIZE, LEAF_NODE_KEY_SIZE, LEAF_NODE_MAX_CELLS, PAGE_SIZE, ROW_SIZE,
};

verus! {

/// One cell of a leaf: a key and the bytes of its row.
pub struct Entry {
    pub key: u32,
    pub value: Seq<u8>,
}

/// A page read as a node.
pub struct Node {
    /// Whether the node is a leaf; an internal node otherwise.
    pub leaf: bool,
    pub is_root: bool,
    /// The page number of the parent.
    pub parent: u32,
    /// Leaf: the cells in order. Internal: empty.
    pub cells: Seq<Entry>,
    /// Leaf: the page number of the next leaf, 0 for none. Internal: 0.
    pub next: u32,
    /// Internal: the keys in order. Leaf: empty.
    pub keys: Seq<u32>,
    /// Internal: the children in order, the right child last. Leaf: empty.
    pub kids: Seq<u32>,
}

/// The key and value that the bytes of a leaf cell hold.
pub open spec fn entry_of(cell: Seq<u8>) -> Entry {
    Entry {
        key: le_u32(cell, 0),
        value: cell.subrange(LEAF_NODE_KEY_SIZE as int, LEAF_NODE_CELL_SIZE as int),
    }
}

/// The node that the bytes of a page hold.
pub open spec fn node_of(s: Seq<u8>) -> Node {
    if spec_is_leaf(s) {
        Node {
            leaf: true,
            is_root: spec_is_root(s),
            parent: spec_parent(s),
            cells: Seq::new(
                spec_leaf_num_cells(s) as nat,
                |i: int| entry_of(spec_leaf_cell(s, i)),
            ),
            next: spec_leaf_next(s),
            keys: Seq::empty(),
            kids: Seq::empty(),
        }
    } else {
        Node {
            leaf: false,
            is_root: spec_is_root(s),
            parent: spec_parent(s),
            cells: Seq::empty(),
            next: 0,
            keys: Seq::new(spec_internal_num_keys(s) as nat, |i: int| spec_internal_key(s, i)),
            kids: Seq::new(
                (spec_internal_num_keys(s) + 1) as nat,
                |i: int| spec_internal_child(s, i),
            ),
        }
    }
}

/// The page is a whole page and its cells lie inside it.
pub open spec fn page_fits(s: Seq<u8>) -> bool {
    &&& s.len() == PAGE_SIZE
    &&& node_type_byte(s) <= 1
    &&& spec_is_leaf(s) ==> spec_leaf_num_cells(s) <= LEAF_NODE_MAX_CELLS
    &&& !spec_is_leaf(s) ==> spec_internal_num_keys(s) <= INTERNAL_NODE_MAX_CELLS
}

/// A cell's key and value are those that the leaf accessors read.
pub proof fn lemma_leaf_cell_entry(s: Seq<u8>, i: int)
    requires
        0 <= i,
        spec_leaf_cell_offset(i) + LEAF_NODE_CELL_SIZE <= s.len(),
    ensures
        entry_of(spec_leaf_cell(s, i)).key == spec_leaf_key(s, i),
        entry_of(spec_leaf_cell(s, i)).value == spec_leaf_value(s, i),
{
    lemma_le_u32_depends(spec_leaf_cell(s, i), s, 0, spec_leaf_cell_offset(i));
    assert(entry_of(spec_leaf_cell(s, i)).value =~= spec_leaf_value(s, i));
}

/// Setting the parent pointer changes the parent and nothing else.
pub proof fn lemma_set_parent(s: Seq<u8>, p: u32)
    requires
        page_fits(s),
    ensures
        node_of(put_u32(s, 2, p)) == (Node { parent: p, ..node_of(s) }),
        page_fits(put_u32(s, 2, p)),
{
    let t = put_u32(s, 2, p);
    lemma_constants();
    lemma_put_u32_len(s, 2, p);
    lemma_get_put_same(s, 2, p);
    assert forall|k: int| 0 <= k < s.len() && !(2 <= k < 6) implies t[k] == s[k] by {
        lemma_put_u32_bytes(s, 2, p, k);
    }
    let u = t.update(2, s[2]).update(3, s[3]).update(4, s[4]).update(5, s[5]);
    assert(u =~= s);
    lemma_le_u32_depends(s, t, 6, 6);
    lemma_le_u32_depends(s, t, 10, 10);
    if spec_is_leaf(s) {
        assert forall|i: int| 0 <= i < spec_leaf_num_cells(s) implies spec_leaf_cell(s, i)
            == spec_leaf_cell(t, i) by {
            assert(spec_leaf_cell(s, i) =~= spec_leaf_cell(t, i));
        }
        assert(node_of(s).cells =~= node_of(t).cells);
    } else {
        assert forall|i: int| 0 <= i < spec_internal_num_keys(s) implies spec_internal_key(s, i)
            == spec_internal_key(t, i) && spec_internal_cell_child(s, i)
            == spec_internal_cell_child(t, i) by {
            lemma_le_u32_depends(s, t, 14 + 8 * i, 14 + 8 * i);
            lemma_le_u32_depends(s, t, 18 + 8 * i, 18 + 8 * i);
        }
        assert(node_of(s).keys =~= node_of(t).keys);
        assert(node_of(s).kids =~= node_of(t).kids);
    }
}

/// The cells of a leaf with one more cell at `cell_num`, those behind it
/// moved up by one. The leaf must have room.
pub fn leaf_insert_cell(node: &mut [u8], cell_num: usize, key: u32, value: &[u8])
    requires
        page_fits(old(node)@),
        spec_is_leaf(old(node)@),
        spec_leaf_num_cells(old(node)@) < LEAF_NODE_MAX_CELLS,
        cell_num <= spec_leaf_num_cells(old(node)@),
        value@.len() >= ROW_SIZE,
    ensures
        page_fits(final(node)@),
        node_of(final(node)@) == (Node {
            cells: node_of(old(node)@).cells.insert(
                cell_num as int,
                Entry { key, value: value@.subrange(0, ROW_SIZE as int) },
            ),
            ..node_of(old(node)@)
        }),
{
    proof {
        lemma_constants();
    }
    let num_cells: u32 = leaf_node_num_cells(node);
    if cell_num < num_cells as usize {
        let mut i: usize = num_cells as usize;
        while i > cell_num
            invariant
                cell_num <= i <= num_cells < 13,
                node@.len() == 4096,
                forall|k: int|
                    0 <= k < 4096 ==> node@[k] == if 14 + 295 * (i + 1) <= k < 14 + 295 * (
                    num_cells + 1) {
                        old(node)@[k - 295]
                    } else {
                        old(node)@[k]
                    },
            decreases i,
        {
            let src: usize = leaf_node_cell_offset(i - 1);
            let dest: usize = leaf_node_cell_offset(i);
            copy_within(node, src, dest, LEAF_NODE_CELL_SIZE);
            i = i - 1;
        }
    }
    let ghost shifted = node@;
    let ghost off = 14 + 295 * cell_num;
    set_leaf_node_num_cells(node, num_cells + 1);
    let ghost counted = node@;
    proof {
        lemma_put_u32(shifted, 6, (num_cells + 1) as u32);
    }
    set_leaf_node_key(node, cell_num, key);
    let ghost keyed = node@;
    proof {
        lemma_put_u32(counted, off, key);
    }
    leaf_node_value_mut(node, cell_num, value);
    proof {
        let s = old(node)@;
        let t = node@;
        assert(shifted.len() == 4096);
        assert forall|k: int| 0 <= k < 4096 implies shifted[k] == if 14 + 295 * (cell_num + 1)
            <= k < 14 + 295 * (num_cells + 1) {
            s[k - 295]
        } else {
            s[k]
        } by {}
        assert(t.len() == 4096);
        assert forall|k: int|
            0 <= k < 4096 && !(6 <= k < 10) && !(off <= k < off + 295) implies t[k]
            == shifted[k] by {}
        lemma_le_u32_depends(t, counted, 6, 6);
        lemma_le_u32_depends(t, keyed, off, off);
        lemma_le_u32_depends(t, s, 2, 2);
        lemma_le_u32_depends(t, s, 10, 10);
        let e = Entry { key, value: value@.subrange(0, ROW_SIZE as int) };
        let want = node_of(s).cells.insert(cell_num as int, e);
        assert(node_of(t).cells.len() == want.len());
        assert forall|j: int| 0 <= j < want.len() implies node_of(t).cells[j] == want[j] by {
            if j < cell_num {
                assert(spec_leaf_cell(t, j) =~= spec_leaf_cell(s, j));
            } else if j == cell_num {
                lemma_le_u32_depends(spec_leaf_cell(t, j), t, 0, off);
                assert(entry_of(spec_leaf_cell(t, j)).value =~= e.value);
            } else {
                assert(spec_leaf_cell(t, j) =~= spec_leaf_cell(s, j - 1));
            }
        }
        assert(node_of(t).cells =~= want);
    }
}

/// The bytes of one leaf cell with the given key and value.
pub fn make_leaf_cell(key: u32, value: &[u8]) -> (cell: Vec<u8>)
    requires
        value@.len() >= ROW_SIZE,
    ensures
        cell@.len() == LEAF_NODE_CELL_SIZE,
        entry_of(cell@) == (Entry { key, value: value@.subrange(0, ROW_SIZE as int) }),
{
    proof {
        lemma_constants();
    }
    let mut cell: Vec<u8> = Vec::new();
    let mut k: usize = 0;
    while k < LEAF_NODE_CELL_SIZE
        invariant
            k <= LEAF_NODE_CELL_SIZE,
            cell@.len() == k,
        decreases LEAF_NODE_CELL_SIZE - k,
    {
        cell.push(0u8);
        k = k + 1;
    }
    let ghost blank = cell@;
    set_u32_at(cell.as_mut_slice(), 0, key);
    let ghost keyed = cell@;
    proof {
        lemma_put_u32(blank, 0, key);
    }
    copy_into(
        cell.as_mut_slice(),
        LEAF_NODE_KEY_SIZE,
        vstd::slice::slice_subrange(value, 0, ROW_SIZE),
    );
    proof {
        lemma_le_u32_depends(cell@, keyed, 0, 0);
        assert(entry_of(cell@).value =~= value@.subrange(0, ROW_SIZE as int));
    }
    cell
}

/// The entries that a run of leaf cells holds.
pub open spec fn entries_of(all: Seq<u8>) -> Seq<Entry> {
    Seq::new(
        (all.len() / 295) as nat,
        |j: int| entry_of(all.subrange(295 * j, 295 * j + 295)),
    )
}

/// The cells of a full leaf and one more at `cell_num`, in order, as one
/// run of bytes.
pub fn leaf_gather_cells(node: &[u8], cell_num: usize, key: u32, value: &[u8]) -> (all: Vec<u8>)
    requires
        page_fits(node@),
        spec_is_leaf(node@),
        spec_leaf_num_cells(node@) == LEAF_NODE_MAX_CELLS,
        cell_num <= LEAF_NODE_MAX_CELLS,
        value@.len() >= ROW_SIZE,
    ensures
        all@.len() == (LEAF_NODE_MAX_CELLS + 1) * LEAF_NODE_CELL_SIZE,
        entries_of(all@) == node_of(node@).cells.insert(
            cell_num as int,
            Entry { key, value: value@.subrange(0, ROW_SIZE as int) },
        ),
{
    proof {
        lemma_constants();
    }
    let new_cell: Vec<u8> = make_leaf_cell(key, value);
    let ghost e = Entry { key, value: value@.subrange(0, ROW_SIZE as int) };
    let ghost want = node_of(node@).cells.insert(cell_num as int, e);
    let mut all: Vec<u8> = Vec::new();
    let mut j: usize = 0;
    while j < LEAF_NODE_MAX_CELLS + 1
        invariant
            j <= 14,
            LEAF_NODE_MAX_CELLS == 13,
            cell_num <= 13,
            page_fits(node@),
            spec_is_leaf(node@),
            spec_leaf_num_cells(node@) == 13,
            new_cell@.len() == 295,
            entry_of(new_cell@) == e,
            want == node_of(node@).cells.insert(cell_num as int, e),
            all@.len() == 295 * j,
            forall|i: int|
                0 <= i < j ==> entry_of(#[trigger] all@.subrange(295 * i, 295 * i + 295))
                    == want[i],
        decreases 14 - j,
    {
        let ghost before = all@;
        if j == cell_num {
            all.extend_from_slice(new_cell.as_slice());
            assert(all@.subrange(295 * j, 295 * j + 295) =~= new_cell@);
        } else {
            let idx: usize = if j < cell_num {
                j
            } else {
                (j - 1) as usize
            };
            let cell = leaf_node_cell(node, idx);
            all.extend_from_slice(cell);
            assert(all@.subrange(295 * j, 295 * j + 295) =~= spec_leaf_cell(node@, idx as int));
        }
        assert forall|i: int| 0 <= i < j implies entry_of(
            #[trigger] all@.subrange(295 * i, 295 * i + 295),
        ) == want[i] by {
            assert(all@.subrange(295 * i, 295 * i + 295) =~= before.subrange(
                295 * i,
                295 * i + 295,
            ));
        }
        j = j + 1;
    }
    assert(entries_of(all@) =~= want);
    all
}

/// Makes cells `first .. first + count` of the run `all` the cells of the
/// leaf.
pub fn leaf_fill_cells(node: &mut [u8], all: &[u8], first: usize, count: usize)
    requires
        page_fits(old(node)@),
        spec_is_leaf(old(node)@),
        count <= LEAF_NODE_MAX_CELLS,
        all@.len() == (LEAF_NODE_MAX_CELLS + 1) * LEAF_NODE_CELL_SIZE,
        first + count <= LEAF_NODE_MAX_CELLS + 1,
    ensures
        page_fits(final(node)@),
        node_of(final(node)@) == (Node {
            cells: entries_of(all@).subrange(first as int, first + count),
            ..node_of(old(node)@)
        }),
{
    proof {
        lemma_constants();
    }
    let mut i: usize = 0;
    while i < count
        invariant
            i <= count <= 13,
            first + count <= 14,
            all@.len() == 14 * 295,
            node@.len() == 4096,
            forall|k: int| 0 <= k < 14 ==> node@[k] == old(node)@[k],
            forall|j: int|
                0 <= j < i ==> #[trigger] spec_leaf_cell(node@, j) == all@.subrange(
                    295 * (first + j),
                    295 * (first + j) + 295,
                ),
        decreases count - i,
    {
        let ghost before = node@;
        let offset: usize = leaf_node_cell_offset(i);
        let src_offset: usize = (first + i) * LEAF_NODE_CELL_SIZE;
        copy_into(
            node,
            offset,
            vstd::slice::slice_subrange(all, src_offset, src_offset + LEAF_NODE_CELL_SIZE),
        );
        assert forall|j: int| 0 <= j < i + 1 implies #[trigger] spec_leaf_cell(node@, j)
            == all@.subrange(295 * (first + j), 295 * (first + j) + 295) by {
            if j < i {
                assert(spec_leaf_cell(node@, j) =~= spec_leaf_cell(before, j));
            } else {
                assert(spec_leaf_cell(node@, j) =~= all@.subrange(
                    295 * (first + j),
                    295 * (first + j) + 295,
                ));
            }
        }
        i = i + 1;
    }
    let ghost filled = node@;
    set_leaf_node_num_cells(node, count as u32);
    proof {
        let s = old(node)@;
        let t = node@;
        lemma_put_u32(filled, 6, count as u32);
        lemma_le_u32_depends(t, s, 2, 2);
        lemma_le_u32_depends(t, s, 10, 10);
        let want = entries_of(all@).subrange(first as int, first + count);
        assert forall|j: int| 0 <= j < count implies node_of(t).cells[j] == want[j] by {
            assert(spec_leaf_cell(t, j) =~= spec_leaf_cell(filled, j));
        }
        assert(node_of(t).cells =~= want);
    }
}

/// Two pages that agree from byte 14 on hold the same cells.
pub proof fn lemma_body_depends(s: Seq<u8>, t: Seq<u8>)
    requires
        s.len() == PAGE_SIZE,
        t.len() == PAGE_SIZE,
        forall|k: int| 14 <= k < PAGE_SIZE ==> s[k] == t[k],
    ensures
        forall|i: int|
            0 <= i < 13 ==> #[trigger] spec_leaf_cell(s, i) == spec_leaf_cell(t, i),
        forall|i: int|
            0 <= i <= 3 ==> #[trigger] spec_internal_key(s, i) == spec_internal_key(t, i),
        forall|i: int|
            0 <= i <= 3 ==> #[trigger] spec_internal_cell_child(s, i) == spec_internal_cell_child(
                t,
                i,
            ),
{
    lemma_constants();
    assert forall|i: int| 0 <= i < 13 implies #[trigger] spec_leaf_cell(s, i) == spec_leaf_cell(
        t,
        i,
    ) by {
        assert(spec_leaf_cell(s, i) =~= spec_leaf_cell(t, i));
    }
    assert forall|i: int| 0 <= i <= 3 implies #[trigger] spec_internal_key(s, i)
        == spec_internal_key(t, i) by {
        lemma_le_u32_depends(s, t, 18 + 8 * i, 18 + 8 * i);
    }
    assert forall|i: int| 0 <= i <= 3 implies #[trigger] spec_internal_cell_child(s, i)
        == spec_internal_cell_child(t, i) by {
        lemma_le_u32_depends(s, t, 14 + 8 * i, 14 + 8 * i);
    }
}

/// Setting the root flag changes the flag and nothing else.
pub proof fn lemma_set_root(s: Seq<u8>, b: bool)
    requires
        page_fits(s),
    ensures
        node_of(s.update(1, if b { 1u8 } else { 0u8 })) == (Node { is_root: b, ..node_of(s) }),
        page_fits(s.update(1, if b { 1u8 } else { 0u8 })),
{
    let t = s.update(1, if b { 1u8 } else { 0u8 });
    lemma_body_depends(s, t);
    lemma_le_u32_depends(s, t, 2, 2);
    lemma_le_u32_depends(s, t, 6, 6);
    lemma_le_u32_depends(s, t, 10, 10);
    lemma_constants();
    assert(node_of(s).cells =~= node_of(t).cells);
    assert(node_of(s).keys =~= node_of(t).keys);
    assert(node_of(s).kids =~= node_of(t).kids);
}

/// Setting the next leaf of a leaf changes that and nothing else.
pub proof fn lemma_set_next(s: Seq<u8>, v: u32)
    requires
        page_fits(s),
        spec_is_leaf(s),
    ensures
        node_of(put_u32(s, 10, v)) == (Node { next: v, ..node_of(s) }),
        page_fits(put_u32(s, 10, v)),
{
    let t = put_u32(s, 10, v);
    lemma_put_u32(s, 10, v);
    lemma_body_depends(s, t);
    lemma_le_u32_depends(s, t, 2, 2);
    lemma_le_u32_depends(s, t, 6, 6);
    lemma_constants();
    assert(node_of(s).cells =~= node_of(t).cells);
}

/// The bytes of a freshly initialised leaf.
pub open spec fn leaf_init_bytes(s: Seq<u8>) -> Seq<u8> {
    put_u32(put_u32(s.update(0, 1u8).update(1, 0u8), 6, 0), 10, 0)
}

/// A freshly initialised leaf is an empty leaf that is not the root, has
/// no next leaf and keeps the parent pointer of the page.
pub proof fn lemma_init_leaf(s: Seq<u8>)
    requires
        s.len() == PAGE_SIZE,
    ensures
        page_fits(leaf_init_bytes(s)),
        node_of(leaf_init_bytes(s)) == (Node {
            leaf: true,
            is_root: false,
            parent: spec_parent(s),
            cells: Seq::empty(),
            next: 0,
            keys: Seq::empty(),
            kids: Seq::empty(),
        }),
{
    let a = s.update(0, 1u8).update(1, 0u8);
    let b = put_u32(a, 6, 0);
    let t = put_u32(b, 10, 0);
    lemma_put_u32(a, 6, 0);
    lemma_put_u32(b, 10, 0);
    lemma_le_u32_depends(t, s, 2, 2);
    lemma_le_u32_depends(t, b, 6, 6);
    assert(node_of(t).cells =~= Seq::empty());
}

/// The bytes of a freshly initialised internal node.
pub open spec fn internal_init_bytes(s: Seq<u8>) -> Seq<u8> {
    put_u32(put_u32(s.update(0, 0u8).update(1, 0u8), 6, 0), 10, INVALID_PAGE_NUM)
}

/// A freshly initialised internal node has no key, and no right child
/// yet.
pub proof fn lemma_init_internal(s: Seq<u8>)
    requires
        s.len() == PAGE_SIZE,
    ensures
        page_fits(internal_init_bytes(s)),
        node_of(internal_init_bytes(s)) == (Node {
            leaf: false,
            is_root: false,
            parent: spec_parent(s),
            cells: Seq::empty(),
            next: 0,
            keys: Seq::empty(),
            kids: seq![INVALID_PAGE_NUM],
        }),
{
    let a = s.update(0, 0u8).update(1, 0u8);
    let b = put_u32(a, 6, 0);
    let t = put_u32(b, 10, INVALID_PAGE_NUM);
    lemma_put_u32(a, 6, 0);
    lemma_put_u32(b, 10, INVALID_PAGE_NUM);
    lemma_le_u32_depends(t, s, 2, 2);
    lemma_le_u32_depends(t, b, 6, 6);
    assert(node_of(t).keys =~= Seq::empty());
    assert(node_of(t).kids =~= seq![INVALID_PAGE_NUM]);
}

/// Overwriting the key of cell `index` changes that key where the cell is
/// in use, and nothing where it is the unused cell behind the last key.
pub proof fn lemma_set_key(s: Seq<u8>, index: int, key: u32)
    requires
        page_fits(s),
        !spec_is_leaf(s),
        0 <= index <= spec_internal_num_keys(s),
    ensures
        page_fits(put_u32(s, 18 + 8 * index, key)),
        node_of(put_u32(s, 18 + 8 * index, key)) == if index < spec_internal_num_keys(s) {
            Node { keys: node_of(s).keys.update(index, key), ..node_of(s) }
        } else {
            node_of(s)
        },
{
    let o = 18 + 8 * index;
    let t = put_u32(s, o, key);
    lemma_constants();
    lemma_put_u32(s, o, key);
    lemma_le_u32_depends(t, s, 2, 2);
    lemma_le_u32_depends(t, s, 6, 6);
    lemma_le_u32_depends(t, s, 10, 10);
    let nk = spec_internal_num_keys(s) as int;
    assert forall|i: int| 0 <= i < nk implies spec_internal_cell_child(t, i)
        == spec_internal_cell_child(s, i) by {
        lemma_le_u32_depends(t, s, 14 + 8 * i, 14 + 8 * i);
    }
    assert forall|i: int| 0 <= i < nk && i != index implies spec_internal_key(t, i)
        == spec_internal_key(s, i) by {
        lemma_le_u32_depends(t, s, 18 + 8 * i, 18 + 8 * i);
    }
    assert(node_of(t).kids =~= node_of(s).kids);
    if index < nk {
        assert(node_of(t).keys =~= node_of(s).keys.update(index, key));
    } else {
        assert(node_of(t).keys =~= node_of(s).keys);
    }
}

/// Makes `count` children from `first` on, with the keys between them, the
/// content of the internal node: the last of them becomes the right child.
pub fn internal_fill(node: &mut [u8], kids: &Vec<u32>, keys: &Vec<u32>, first: usize, count: usize)
    requires
        page_fits(old(node)@),
        !spec_is_leaf(old(node)@),
        2 <= count <= INTERNAL_NODE_MAX_CELLS + 1,
        first + count <= kids@.len(),
        first + count - 1 <= keys@.len(),
    ensures
        page_fits(final(node)@),
        node_of(final(node)@) == (Node {
            keys: keys@.subrange(first as int, first + count - 1),
            kids: kids@.subrange(first as int, first + count),
            ..node_of(old(node)@)
        }),
{
    let mut i: usize = 0;
    let total: usize = kids.len();
    while i < count - 1
        invariant
            i <= count - 1,
            kids@.len() == total,
            2 <= count <= 4,
            first + count <= kids@.len(),
            first + count - 1 <= keys@.len(),
            node@.len() == 4096,
            forall|k: int| 0 <= k < 14 ==> node@[k] == old(node)@[k],
            forall|j: int|
                0 <= j < i ==> #[trigger] spec_internal_key(node@, j) == keys@[first + j],
            forall|j: int|
                0 <= j < i ==> #[trigger] spec_internal_cell_child(node@, j) == kids@[first + j],
        decreases count - 1 - i,
    {
        let ghost before = node@;
        internal_node_cell_mut(node, i, kids[first + i], keys[first + i]);
        proof {
            let o = 14 + 8 * i;
            let mid = put_u32(before, o, kids@[first + i]);
            lemma_put_u32(before, o, kids@[first + i]);
            lemma_put_u32(mid, o + 4, keys@[first + i]);
            lemma_le_u32_depends(node@, mid, o, o);
            assert forall|j: int| 0 <= j < i implies #[trigger] spec_internal_key(node@, j)
                == keys@[first + j] by {
                lemma_le_u32_depends(node@, before, 18 + 8 * j, 18 + 8 * j);
                assert(spec_internal_key(before, j) == keys@[first + j]);
            }
            assert forall|j: int| 0 <= j < i implies #[trigger] spec_internal_cell_child(node@, j)
                == kids@[first + j] by {
                lemma_le_u32_depends(node@, before, 14 + 8 * j, 14 + 8 * j);
                assert(spec_internal_cell_child(before, j) == kids@[first + j]);
            }
        }
        i = i + 1;
    }
    let ghost filled = node@;
    set_internal_node_num_keys(node, (count - 1) as u32);
    let ghost counted = node@;
    proof {
        lemma_put_u32(filled, 6, (count - 1) as u32);
    }
    set_internal_node_right_child(node, kids[first + count - 1]);
    proof {
        let s = old(node)@;
        let t = node@;
        lemma_put_u32(counted, 10, kids@[first + count - 1]);
        lemma_le_u32_depends(t, s, 2, 2);
        lemma_le_u32_depends(t, counted, 6, 6);
        assert forall|j: int| 0 <= j < count - 1 implies spec_internal_key(t, j) == keys@[first
            + j] by {
            lemma_le_u32_depends(t, filled, 18 + 8 * j, 18 + 8 * j);
            assert(spec_internal_key(filled, j) == keys@[first + j]);
        }
        assert forall|j: int| 0 <= j < count - 1 implies spec_internal_cell_child(t, j)
            == kids@[first + j] by {
            lemma_le_u32_depends(t, filled, 14 + 8 * j, 14 + 8 * j);
            assert(spec_internal_cell_child(filled, j) == kids@[first + j]);
        }
        assert(node_of(t).keys =~= keys@.subrange(first as int, first + count - 1));
        assert(node_of(t).kids =~= kids@.subrange(first as int, first + count));
    }
}

/// Makes the page the root: an internal node with one key between two
/// children.
pub fn init_internal_root(node: &mut [u8], left: u32, key: u32, right: u32)
    requires
        old(node)@.len() == PAGE_SIZE,
    ensures
        page_fits(final(node)@),
        node_of(final(node)@) == (Node {
            leaf: false,
            is_root: true,
            parent: spec_parent(old(node)@),
            cells: Seq::empty(),
            next: 0,
            keys: seq![key],
            kids: seq![left, right],
        }),
{
    initialize_internal_node(node);
    proof {
        lemma_init_internal(old(node)@);
    }
    let ghost a = node@;
    set_node_root(node, true);
    proof {
        lemma_set_root(a, true);
    }
    let mut kids: Vec<u32> = Vec::new();
    kids.push(left);
    kids.push(right);
    let mut keys: Vec<u32> = Vec::new();
    keys.push(key);
    internal_fill(node, &kids, &keys, 0, 2);
    proof {
        assert(keys@.subrange(0, 1) =~= seq![key]);
        assert(kids@.subrange(0, 2) =~= seq![left, right]);
    }
}

/// What `internal_insert_cell` does to a node with a right child, where
/// its search for `child_max` ends at `index`.
pub open spec fn cell_inserted_at(
    before: Node,
    after: Node,
    child: u32,
    child_max: u32,
    right_max: u32,
    index: int,
) -> bool {
    &&& 0 <= index <= before.keys.len()
    &&& if child_max > right_max {
        after == (Node {
            keys: before.keys.push(right_max),
            kids: before.kids.push(child),
            ..before
        })
    } else {
        after == (Node {
            keys: before.keys.insert(index, child_max),
            kids: before.kids.insert(index, child),
            ..before
        })
    }
}

/// Adds a child to an internal node that has room. `child_max` is the
/// largest key below the child, `right_max` the largest below the node's
/// right child.
///
/// A node whose right child is not set takes the child as its right child.
/// Otherwise a child with `child_max > right_max` becomes the right child,
/// and the old right child moves into a new last cell with key `right_max`;
/// any other child goes into a new cell in front of the first key that is
/// at least `child_max`.
pub fn internal_insert_cell(node: &mut [u8], child: u32, child_max: u32, right_max: u32)
    requires
        page_fits(old(node)@),
        !spec_is_leaf(old(node)@),
        spec_internal_num_keys(old(node)@) < INTERNAL_NODE_MAX_CELLS,
    ensures
        page_fits(final(node)@),
        spec_internal_right_child(old(node)@) == INVALID_PAGE_NUM ==> node_of(final(node)@) == (Node {
            kids: node_of(old(node)@).kids.update(
                spec_internal_num_keys(old(node)@) as int,
                child,
            ),
            ..node_of(old(node)@)
        }),
        spec_internal_right_child(old(node)@) != INVALID_PAGE_NUM ==> exists|index: int|
            {
                &&& #[trigger] cell_inserted_at(
                    node_of(old(node)@),
                    node_of(final(node)@),
                    child,
                    child_max,
                    right_max,
                    index,
                )
                &&& spec_internal_keys_ascending(old(node)@) ==> is_internal_lower_bound(
                    old(node)@,
                    child_max,
                    index,
                )
            },
{
    proof {
        lemma_constants();
    }
    let ghost s = node@;
    let num_keys: u32 = internal_node_num_keys(node);
    let right_child: u32 = internal_node_right_child(node);
    if right_child == INVALID_PAGE_NUM {
        set_internal_node_right_child(node, child);
        proof {
            let t = node@;
            lemma_put_u32(s, 10, child);
            lemma_body_depends(s, t);
            lemma_le_u32_depends(t, s, 2, 2);
            lemma_le_u32_depends(t, s, 6, 6);
            assert(node_of(t).keys =~= node_of(s).keys);
            assert(node_of(t).kids =~= node_of(s).kids.update(num_keys as int, child));
        }
        return ;
    }
    let index: usize = internal_node_find_child(node, child_max) as usize;
    if child_max > right_max {
        internal_node_cell_mut(node, num_keys as usize, right_child, right_max);
        let ghost celled = node@;
        proof {
            let o = 14 + 8 * num_keys;
            let mid = put_u32(s, o, right_child);
            lemma_put_u32(s, o, right_child);
            lemma_put_u32(mid, o + 4, right_max);
            lemma_le_u32_depends(celled, mid, o, o);
        }
        set_internal_node_right_child(node, child);
        let ghost righted = node@;
        proof {
            lemma_put_u32(celled, 10, child);
        }
        set_internal_node_num_keys(node, num_keys + 1);
        proof {
            let t = node@;
            lemma_put_u32(righted, 6, (num_keys + 1) as u32);
            lemma_le_u32_depends(t, s, 2, 2);
            lemma_le_u32_depends(t, righted, 10, 10);
            assert forall|j: int| 0 <= j <= num_keys implies spec_internal_key(t, j) == (if j
                < num_keys {
                spec_internal_key(s, j)
            } else {
                right_max
            }) && spec_internal_cell_child(t, j) == (if j < num_keys {
                spec_internal_cell_child(s, j)
            } else {
                right_child
            }) by {
                if j < num_keys {
                    lemma_le_u32_depends(t, s, 18 + 8 * j, 18 + 8 * j);
                    lemma_le_u32_depends(t, s, 14 + 8 * j, 14 + 8 * j);
                } else {
                    lemma_le_u32_depends(t, celled, 18 + 8 * j, 18 + 8 * j);
                    lemma_le_u32_depends(t, celled, 14 + 8 * j, 14 + 8 * j);
                }
            }
            assert(node_of(t).keys =~= node_of(s).keys.push(right_max));
            assert(node_of(t).kids =~= node_of(s).kids.push(child));
            assert(cell_inserted_at(
                node_of(s),
                node_of(t),
                child,
                child_max,
                right_max,
                index as int,
            ));
        }
    } else {
        let mut i: usize = num_keys as usize;
        while i > index
            invariant
                index <= i <= num_keys < 3,
                node@.len() == 4096,
                forall|k: int|
                    0 <= k < 4096 ==> node@[k] == if 14 + 8 * (i + 1) <= k < 14 + 8 * (num_keys
                        + 1) {
                        s[k - 8]
                    } else {
                        s[k]
                    },
            decreases i,
        {
            let src: usize = 14 + 8 * (i - 1);
            let dest: usize = 14 + 8 * i;
            copy_within(node, src, dest, 8);
            i = i - 1;
        }
        let ghost shifted = node@;
        internal_node_cell_mut(node, index, child, child_max);
        let ghost celled = node@;
        proof {
            let o = 14 + 8 * index;
            let mid = put_u32(shifted, o, child);
            lemma_put_u32(shifted, o, child);
            lemma_put_u32(mid, o + 4, child_max);
            lemma_le_u32_depends(celled, mid, o, o);
        }
        set_internal_node_num_keys(node, num_keys + 1);
        proof {
            let t = node@;
            lemma_put_u32(celled, 6, (num_keys + 1) as u32);
            lemma_le_u32_depends(t, s, 2, 2);
            lemma_le_u32_depends(t, s, 10, 10);
            assert forall|j: int| 0 <= j <= num_keys implies spec_internal_key(t, j) == (if j
                < index {
                spec_internal_key(s, j)
            } else if j == index {
                child_max
            } else {
                spec_internal_key(s, j - 1)
            }) && spec_internal_cell_child(t, j) == (if j < index {
                spec_internal_cell_child(s, j)
            } else if j == index {
                child
            } else {
                spec_internal_cell_child(s, j - 1)
            }) by {
                if j < index {
                    lemma_le_u32_depends(t, s, 18 + 8 * j, 18 + 8 * j);
                    lemma_le_u32_depends(t, s, 14 + 8 * j, 14 + 8 * j);
                } else if j == index {
                    lemma_le_u32_depends(t, celled, 18 + 8 * j, 18 + 8 * j);
                    lemma_le_u32_depends(t, celled, 14 + 8 * j, 14 + 8 * j);
                } else {
                    lemma_le_u32_depends(t, s, 18 + 8 * j, 18 + 8 * (j - 1));
                    lemma_le_u32_depends(t, s, 14 + 8 * j, 14 + 8 * (j - 1));
                }
            }
            assert(node_of(t).keys =~= node_of(s).keys.insert(index as int, child_max));
            assert(node_of(t).kids =~= node_of(s).kids.insert(index as int, child));
            assert(cell_inserted_at(
                node_of(s),
                node_of(t),
                child,
                child_max,
                right_max,
                index as int,
            ));
        }
    }
}

} // verus!
