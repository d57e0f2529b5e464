//! Byte layout of a page: the common node header, the leaf and internal
//! headers, the packed cells, and the accessors that read and write them.
//!
//! Every page is one node. All integers are stored little-endian.

use vstd::prelude::*;

verus! {

pub const COLUMN_USERNAME_SIZE: usize = 32;

pub const COLUMN_EMAIL_SIZE: usize = 255;

pub const ID_SIZE: usize = 4;

pub const USERNAME_SIZE: usize = COLUMN_USERNAME_SIZE;

pub const EMAIL_SIZE: usize = COLUMN_EMAIL_SIZE;

pub const ID_OFFSET: usize = 0;

pub const USERNAME_OFFSET: usize = ID_OFFSET + ID_SIZE;

pub const EMAIL_OFFSET: usize = USERNAME_OFFSET + USERNAME_SIZE;

pub const ROW_SIZE: usize = ID_SIZE + USERNAME_SIZE + EMAIL_SIZE;

pub const PAGE_SIZE: usize = 4096;

pub const TABLE_MAX_PAGES: usize = 100;

pub const NODE_TYPE_SIZE: usize = 1;

pub const NODE_TYPE_OFFSET: usize = 0;

pub const IS_ROOT_SIZE: usize = 1;

pub const IS_ROOT_OFFSET: usize = NODE_TYPE_OFFSET + NODE_TYPE_SIZE;

pub const PARENT_POINTER_SIZE: usize = 4;

pub const PARENT_POINTER_OFFSET: usize = IS_ROOT_OFFSET + IS_ROOT_SIZE;

pub const COMMON_NODE_HEADER_SIZE: usize = NODE_TYPE_SIZE + IS_ROOT_SIZE + PARENT_POINTER_SIZE;

pub const LEAF_NODE_NUM_CELLS_SIZE: usize = 4;

pub const LEAF_NODE_NUM_CELLS_OFFSET: usize = COMMON_NODE_HEADER_SIZE;

pub const LEAF_NODE_NEXT_LEAF_SIZE: usize = 4;

pub const LEAF_NODE_NEXT_LEAF_OFFSET: usize = LEAF_NODE_NUM_CELLS_OFFSET
    + LEAF_NODE_NUM_CELLS_SIZE;

pub const LEAF_NODE_HEADER_SIZE: usize = COMMON_NODE_HEADER_SIZE + LEAF_NODE_NUM_CELLS_SIZE
    + LEAF_NODE_NEXT_LEAF_SIZE;

pub const LEAF_NODE_KEY_SIZE: usize = 4;

pub const LEAF_NODE_KEY_OFFSET: usize = 0;

pub const LEAF_NODE_VALUE_SIZE: usize = ROW_SIZE;

pub const LEAF_NODE_VALUE_OFFSET: usize = LEAF_NODE_KEY_OFFSET + LEAF_NODE_KEY_SIZE;

pub const LEAF_NODE_CELL_SIZE: usize = LEAF_NODE_KEY_SIZE + LEAF_NODE_VALUE_SIZE;

pub const LEAF_NODE_SPACE_FOR_CELLS: usize = PAGE_SIZE - LEAF_NODE_HEADER_SIZE;

pub const LEAF_NODE_MAX_CELLS: usize = LEAF_NODE_SPACE_FOR_CELLS / LEAF_NODE_CELL_SIZE;

pub const LEAF_NODE_RIGHT_SPLIT_COUNT: usize = (LEAF_NODE_MAX_CELLS + 1) / 2;

pub const LEAF_NODE_LEFT_SPLIT_COUNT: usize = (LEAF_NODE_MAX_CELLS + 1)
    - LEAF_NODE_RIGHT_SPLIT_COUNT;

pub const INTERNAL_NODE_NUM_KEYS_SIZE: usize = 4;

pub const INTERNAL_NODE_NUM_KEYS_OFFSET: usize = COMMON_NODE_HEADER_SIZE;

pub const INTERNAL_NODE_RIGHT_CHILD_SIZE: usize = 4;

pub const INTERNAL_NODE_RIGHT_CHILD_OFFSET: usize = INTERNAL_NODE_NUM_KEYS_OFFSET
    + INTERNAL_NODE_NUM_KEYS_SIZE;

pub const INTERNAL_NODE_HEADER_SIZE: usize = COMMON_NODE_HEADER_SIZE
    + INTERNAL_NODE_NUM_KEYS_SIZE + INTERNAL_NODE_RIGHT_CHILD_SIZE;

pub const INTERNAL_NODE_KEY_SIZE: usize = 4;

pub const INTERNAL_NODE_CHILD_SIZE: usize = 4;

pub const INTERNAL_NODE_KEY_OFFSET: usize = INTERNAL_NODE_CHILD_SIZE;

pub const INTERNAL_NODE_CELL_SIZE: usize = INTERNAL_NODE_CHILD_SIZE + INTERNAL_NODE_KEY_SIZE;

pub const INTERNAL_NODE_MAX_CELLS: usize = 3;

/// The page number that marks an internal node's right child as not yet set.
pub const INVALID_PAGE_NUM: u32 = 0xFFFF_FFFF;

/// The values that the layout constants come to.
pub proof fn lemma_constants()
    ensures
        ROW_SIZE == 291,
        COMMON_NODE_HEADER_SIZE == 6,
        LEAF_NODE_HEADER_SIZE == 14,
        LEAF_NODE_CELL_SIZE == 295,
        LEAF_NODE_MAX_CELLS == 13,
        LEAF_NODE_LEFT_SPLIT_COUNT == 7,
        LEAF_NODE_RIGHT_SPLIT_COUNT == 7,
        INTERNAL_NODE_HEADER_SIZE == 14,
        INTERNAL_NODE_CELL_SIZE == 8,
{
    assert(LEAF_NODE_SPACE_FOR_CELLS == 4082);
    assert(LEAF_NODE_CELL_SIZE == 295);
    assert(4082usize / 295usize == 13);
    assert(LEAF_NODE_MAX_CELLS == 13);
    assert(14usize / 2usize == 7);
}

/// The two kinds of node, as stored in the first byte of a page.
#[derive(Debug, Clone, Copy, PartialEq, Eq, Structural)]
pub enum NodeType {
    Internal,
    Leaf,
}

impl NodeType {
    /// The byte that stands for this kind on disk.
    pub open spec fn byte(self) -> u8 {
        match self {
            NodeType::Internal => 0u8,
            NodeType::Leaf => 1u8,
        }
    }
}

/// The 32-bit value that the four bytes from `o` on encode, little-endian.
#[verifier::opaque]
pub open spec fn le_u32(s: Seq<u8>, o: int) -> u32 {
    (s[o] as int + 256 * (s[o + 1] as int) + 65536 * (s[o + 2] as int) + 16777216 * (s[o
        + 3] as int)) as u32
}

/// `s` with the four bytes from `o` on replaced by the little-endian
/// encoding of `v`.
#[verifier::opaque]
pub open spec fn put_u32(s: Seq<u8>, o: int, v: u32) -> Seq<u8> {
    s.update(o, (v % 256) as u8).update(o + 1, ((v / 256) % 256) as u8).update(
        o + 2,
        ((v / 65536) % 256) as u8,
    ).update(o + 3, (v / 16777216) as u8)
}

/// `s` with the bytes from `o` on replaced by `b`.
pub open spec fn put_bytes(s: Seq<u8>, o: int, b: Seq<u8>) -> Seq<u8> {
    Seq::new(s.len(), |k: int| if o <= k < o + b.len() { b[k - o] } else { s[k] })
}

/// A write keeps the length.
pub proof fn lemma_put_u32_len(s: Seq<u8>, o: int, v: u32)
    requires
        0 <= o,
        o + 4 <= s.len(),
    ensures
        put_u32(s, o, v).len() == s.len(),
{
    reveal(put_u32);
}

/// Writing then reading at the same offset gives back the value.
pub proof fn lemma_get_put_same(s: Seq<u8>, o: int, v: u32)
    requires
        0 <= o,
        o + 4 <= s.len(),
    ensures
        le_u32(put_u32(s, o, v), o) == v,
{
    reveal(put_u32);
    reveal(le_u32);
    let b0 = (v % 256) as int;
    let b1 = ((v / 256) % 256) as int;
    let b2 = ((v / 65536) % 256) as int;
    let b3 = (v / 16777216) as int;
    assert(b0 + 256 * b1 + 65536 * b2 + 16777216 * b3 == v);
}

/// A write leaves every byte outside its four alone.
pub proof fn lemma_put_u32_bytes(s: Seq<u8>, o: int, v: u32, k: int)
    requires
        0 <= o,
        o + 4 <= s.len(),
        0 <= k < s.len(),
        k < o || o + 4 <= k,
    ensures
        put_u32(s, o, v)[k] == s[k],
{
    reveal(put_u32);
}

/// A value depends on its four bytes only.
pub proof fn lemma_le_u32_depends(s1: Seq<u8>, s2: Seq<u8>, o1: int, o2: int)
    requires
        s1[o1] == s2[o2],
        s1[o1 + 1] == s2[o2 + 1],
        s1[o1 + 2] == s2[o2 + 2],
        s1[o1 + 3] == s2[o2 + 3],
    ensures
        le_u32(s1, o1) == le_u32(s2, o2),
{
    reveal(le_u32);
}

/// The bytes that encode a value, one by one.
pub proof fn lemma_put_u32_at(s: Seq<u8>, o: int, v: u32)
    requires
        0 <= o,
        o + 4 <= s.len(),
    ensures
        put_u32(s, o, v)[o] == (v % 256) as u8,
        put_u32(s, o, v)[o + 1] == ((v / 256) % 256) as u8,
        put_u32(s, o, v)[o + 2] == ((v / 65536) % 256) as u8,
        put_u32(s, o, v)[o + 3] == (v / 16777216) as u8,
{
    reveal(put_u32);
}

/// The length of a slice fits in `usize`.
pub proof fn lemma_len_fits(s: &[u8])
    ensures
        s@.len() <= usize::MAX,
{
    assert(s.len() == s@.len());
}

/// Reads the little-endian 32-bit value at `offset`.
pub fn get_u32_at(data: &[u8], offset: usize) -> (v: u32)
    requires
        offset + 4 <= data@.len(),
    ensures
        v == le_u32(data@, offset as int),
{
    proof {
        reveal(le_u32);
    }
    let b0: u32 = data[offset] as u32;
    let b1: u32 = data[offset + 1] as u32;
    let b2: u32 = data[offset + 2] as u32;
    let b3: u32 = data[offset + 3] as u32;
    b0 + 256 * b1 + 65536 * b2 + 16777216 * b3
}

/// Writes `v` little-endian at `offset`.
pub fn set_u32_at(data: &mut [u8], offset: usize, v: u32)
    requires
        offset + 4 <= old(data)@.len(),
    ensures
        final(data)@ == put_u32(old(data)@, offset as int, v),
{
    proof {
        reveal(put_u32);
    }
    data[offset] = (v % 256) as u8;
    data[offset + 1] = ((v / 256) % 256) as u8;
    data[offset + 2] = ((v / 65536) % 256) as u8;
    data[offset + 3] = (v / 16777216) as u8;
}

/// Copies `src` over the bytes of `data` from `offset` on.
pub fn copy_into(data: &mut [u8], offset: usize, src: &[u8])
    requires
        offset + src@.len() <= old(data)@.len(),
    ensures
        final(data)@ == put_bytes(old(data)@, offset as int, src@),
{
    let n: usize = src.len();
    let mut k: usize = 0;
    proof {
        lemma_len_fits(data);
    }
    while k < n
        invariant
            n == src@.len(),
            data@.len() <= usize::MAX,
            k <= n,
            offset + n <= data@.len(),
            data@.len() == old(data)@.len(),
            forall|j: int| 0 <= j < data@.len() ==> data@[j] == if offset <= j < offset + k {
                src@[j - offset]
            } else {
                old(data)@[j]
            },
        decreases n - k,
    {
        data[offset + k] = src[k];
        k = k + 1;
    }
    assert(data@ =~= put_bytes(old(data)@, offset as int, src@));
}

/// Copies `len` bytes inside `data` from `src` to `dest`, the destination
/// lying behind the bytes that are copied.
pub fn copy_within(data: &mut [u8], src: usize, dest: usize, len: usize)
    requires
        src + len <= dest,
        dest + len <= old(data)@.len(),
    ensures
        final(data)@ == put_bytes(
            old(data)@,
            dest as int,
            old(data)@.subrange(src as int, src + len),
        ),
{
    let mut k: usize = 0;
    proof {
        lemma_len_fits(data);
    }
    while k < len
        invariant
            k <= len,
            src + len <= dest,
            dest + len <= data@.len(),
            data@.len() <= usize::MAX,
            data@.len() == old(data)@.len(),
            forall|j: int| 0 <= j < data@.len() ==> data@[j] == if dest <= j < dest + k {
                old(data)@[j - dest + src]
            } else {
                old(data)@[j]
            },
        decreases len - k,
    {
        let b: u8 = data[src + k];
        data[dest + k] = b;
        k = k + 1;
    }
    assert(data@ =~= put_bytes(
        old(data)@,
        dest as int,
        old(data)@.subrange(src as int, src + len),
    ));
}

/// What a write of a value changes and what it leaves alone.
pub proof fn lemma_put_u32(s: Seq<u8>, o: int, v: u32)
    requires
        0 <= o,
        o + 4 <= s.len(),
    ensures
        put_u32(s, o, v).len() == s.len(),
        le_u32(put_u32(s, o, v), o) == v,
        forall|k: int|
            0 <= k < s.len() && !(o <= k < o + 4) ==> #[trigger] put_u32(s, o, v)[k] == s[k],
{
    lemma_put_u32_len(s, o, v);
    lemma_get_put_same(s, o, v);
    assert forall|k: int| 0 <= k < s.len() && !(o <= k < o + 4) implies put_u32(s, o, v)[k]
        == s[k] by {
        lemma_put_u32_bytes(s, o, v, k);
    }
}

// ---------------------------------------------------------------------------
// What the bytes of a page mean.
// ---------------------------------------------------------------------------
/// The kind byte of the node.
pub open spec fn node_type_byte(s: Seq<u8>) -> u8 {
    s[NODE_TYPE_OFFSET as int]
}

/// Whether the node is a leaf.
pub open spec fn spec_is_leaf(s: Seq<u8>) -> bool {
    node_type_byte(s) == 1
}

/// Whether the node is marked as the root.
pub open spec fn spec_is_root(s: Seq<u8>) -> bool {
    s[IS_ROOT_OFFSET as int] != 0
}

/// The page number of the parent.
pub open spec fn spec_parent(s: Seq<u8>) -> u32 {
    le_u32(s, PARENT_POINTER_OFFSET as int)
}

/// The number of cells of a leaf.
pub open spec fn spec_leaf_num_cells(s: Seq<u8>) -> u32 {
    le_u32(s, LEAF_NODE_NUM_CELLS_OFFSET as int)
}

/// The page number of the next leaf, 0 for none.
pub open spec fn spec_leaf_next(s: Seq<u8>) -> u32 {
    le_u32(s, LEAF_NODE_NEXT_LEAF_OFFSET as int)
}

/// Where cell `i` of a leaf starts.
pub open spec fn spec_leaf_cell_offset(i: int) -> int {
    14 + 295 * i
}

/// The key of cell `i` of a leaf.
pub open spec fn spec_leaf_key(s: Seq<u8>, i: int) -> u32 {
    le_u32(s, spec_leaf_cell_offset(i))
}

/// The value of cell `i` of a leaf.
pub open spec fn spec_leaf_value(s: Seq<u8>, i: int) -> Seq<u8> {
    s.subrange(
        spec_leaf_cell_offset(i) + LEAF_NODE_KEY_SIZE as int,
        spec_leaf_cell_offset(i) + LEAF_NODE_CELL_SIZE as int,
    )
}

/// The bytes of cell `i` of a leaf, key and value.
pub open spec fn spec_leaf_cell(s: Seq<u8>, i: int) -> Seq<u8> {
    s.subrange(spec_leaf_cell_offset(i), spec_leaf_cell_offset(i) + LEAF_NODE_CELL_SIZE as int)
}

/// The number of keys of an internal node.
pub open spec fn spec_internal_num_keys(s: Seq<u8>) -> u32 {
    le_u32(s, INTERNAL_NODE_NUM_KEYS_OFFSET as int)
}

/// The right child of an internal node as stored.
pub open spec fn spec_internal_right_child(s: Seq<u8>) -> u32 {
    le_u32(s, INTERNAL_NODE_RIGHT_CHILD_OFFSET as int)
}

/// Where cell `i` of an internal node starts.
pub open spec fn spec_internal_cell_offset(i: int) -> int {
    14 + 8 * i
}

/// The child pointer stored in cell `i`.
pub open spec fn spec_internal_cell_child(s: Seq<u8>, i: int) -> u32 {
    le_u32(s, spec_internal_cell_offset(i))
}

/// The key of cell `i` of an internal node.
pub open spec fn spec_internal_key(s: Seq<u8>, i: int) -> u32 {
    le_u32(s, spec_internal_cell_offset(i) + INTERNAL_NODE_CHILD_SIZE as int)
}

/// The `i`-th child: the child of cell `i`, or the right child where `i`
/// is the number of keys.
pub open spec fn spec_internal_child(s: Seq<u8>, i: int) -> u32 {
    if i == spec_internal_num_keys(s) {
        spec_internal_right_child(s)
    } else {
        spec_internal_cell_child(s, i)
    }
}

/// The bytes of cell `i` of an internal node, child and key.
pub open spec fn spec_internal_cell(s: Seq<u8>, i: int) -> Seq<u8> {
    s.subrange(
        spec_internal_cell_offset(i),
        spec_internal_cell_offset(i) + INTERNAL_NODE_CELL_SIZE as int,
    )
}

/// The first `n` internal keys of the node ascend strictly.
pub open spec fn spec_internal_keys_ascending(s: Seq<u8>) -> bool {
    forall|i: int, j: int|
        0 <= i < j < spec_internal_num_keys(s) ==> spec_internal_key(s, i) < spec_internal_key(
            s,
            j,
        )
}

/// `r` is the smallest index whose internal key is at least `key`, or the
/// number of keys where every key is smaller.
pub open spec fn is_internal_lower_bound(s: Seq<u8>, key: u32, r: int) -> bool {
    &&& 0 <= r <= spec_internal_num_keys(s)
    &&& forall|i: int| 0 <= i < r ==> spec_internal_key(s, i) < key
    &&& r < spec_internal_num_keys(s) ==> spec_internal_key(s, r) >= key
}

// ---------------------------------------------------------------------------
// Common header.
// ---------------------------------------------------------------------------
/// The kind of the node. A page holds a node only where its first byte is
/// 0 or 1.
pub fn get_node_type(node: &[u8]) -> (t: NodeType)
    requires
        node@.len() > NODE_TYPE_OFFSET,
        node_type_byte(node@) <= 1,
    ensures
        t.byte() == node_type_byte(node@),
{
    if node[NODE_TYPE_OFFSET] == 0 {
        NodeType::Internal
    } else {
        NodeType::Leaf
    }
}

/// Sets the kind of the node.
pub fn set_node_type(node: &mut [u8], node_type: NodeType)
    requires
        old(node)@.len() > NODE_TYPE_OFFSET,
    ensures
        final(node)@ == old(node)@.update(NODE_TYPE_OFFSET as int, node_type.byte()),
{
    let b: u8 = match node_type {
        NodeType::Internal => 0,
        NodeType::Leaf => 1,
    };
    node[NODE_TYPE_OFFSET] = b;
}

/// Whether the node is marked as the root.
pub fn is_node_root(node: &[u8]) -> (r: bool)
    requires
        node@.len() > IS_ROOT_OFFSET,
    ensures
        r == spec_is_root(node@),
{
    node[IS_ROOT_OFFSET] != 0
}

/// Marks the node as the root, or as not the root.
pub fn set_node_root(node: &mut [u8], is_root: bool)
    requires
        old(node)@.len() > IS_ROOT_OFFSET,
    ensures
        final(node)@ == old(node)@.update(
            IS_ROOT_OFFSET as int,
            if is_root {
                1u8
            } else {
                0u8
            },
        ),
{
    let b: u8 = if is_root {
        1
    } else {
        0
    };
    node[IS_ROOT_OFFSET] = b;
}

/// The page number of the parent.
pub fn node_parent(node: &[u8]) -> (p: u32)
    requires
        node@.len() >= COMMON_NODE_HEADER_SIZE,
    ensures
        p == spec_parent(node@),
{
    get_u32_at(node, PARENT_POINTER_OFFSET)
}

/// Sets the page number of the parent.
pub fn set_node_parent(node: &mut [u8], parent_page_num: u32)
    requires
        old(node)@.len() >= COMMON_NODE_HEADER_SIZE,
    ensures
        final(node)@ == put_u32(old(node)@, PARENT_POINTER_OFFSET as int, parent_page_num),
{
    set_u32_at(node, PARENT_POINTER_OFFSET, parent_page_num);
}

// ---------------------------------------------------------------------------
// Leaf nodes.
// ---------------------------------------------------------------------------
/// The number of cells of a leaf.
pub fn leaf_node_num_cells(node: &[u8]) -> (n: u32)
    requires
        node@.len() >= LEAF_NODE_HEADER_SIZE,
    ensures
        n == spec_leaf_num_cells(node@),
{
    get_u32_at(node, LEAF_NODE_NUM_CELLS_OFFSET)
}

/// Sets the number of cells of a leaf.
pub fn set_leaf_node_num_cells(node: &mut [u8], num_cells: u32)
    requires
        old(node)@.len() >= LEAF_NODE_HEADER_SIZE,
    ensures
        final(node)@ == put_u32(old(node)@, LEAF_NODE_NUM_CELLS_OFFSET as int, num_cells),
{
    set_u32_at(node, LEAF_NODE_NUM_CELLS_OFFSET, num_cells);
}

/// The page number of the next leaf, 0 where there is none.
pub fn leaf_node_next_leaf(node: &[u8]) -> (n: u32)
    requires
        node@.len() >= LEAF_NODE_HEADER_SIZE,
    ensures
        n == spec_leaf_next(node@),
{
    get_u32_at(node, LEAF_NODE_NEXT_LEAF_OFFSET)
}

/// The page number of the next leaf, 0 where there is none.
pub fn get_leaf_node_next_leaf(node: &[u8]) -> (n: u32)
    requires
        node@.len() >= LEAF_NODE_HEADER_SIZE,
    ensures
        n == spec_leaf_next(node@),
{
    leaf_node_next_leaf(node)
}

/// Sets the page number of the next leaf.
pub fn set_leaf_node_next_leaf(node: &mut [u8], next_leaf: u32)
    requires
        old(node)@.len() >= LEAF_NODE_HEADER_SIZE,
    ensures
        final(node)@ == put_u32(old(node)@, LEAF_NODE_NEXT_LEAF_OFFSET as int, next_leaf),
{
    set_u32_at(node, LEAF_NODE_NEXT_LEAF_OFFSET, next_leaf);
}

/// Where cell `cell_num` of a leaf starts.
pub fn leaf_node_cell_offset(cell_num: usize) -> (o: usize)
    requires
        spec_leaf_cell_offset(cell_num as int) <= usize::MAX,
    ensures
        o == spec_leaf_cell_offset(cell_num as int),
{
    assert(cell_num * LEAF_NODE_CELL_SIZE == 295 * cell_num) by (nonlinear_arith)
        requires
            LEAF_NODE_CELL_SIZE == 295,
    ;
    LEAF_NODE_HEADER_SIZE + cell_num * LEAF_NODE_CELL_SIZE
}

/// The key of cell `cell_num` of a leaf.
pub fn leaf_node_key(node: &[u8], cell_num: usize) -> (k: u32)
    requires
        spec_leaf_cell_offset(cell_num as int) + LEAF_NODE_KEY_SIZE <= node@.len(),
    ensures
        k == spec_leaf_key(node@, cell_num as int),
{
    proof {
        lemma_len_fits(node);
    }
    let offset: usize = leaf_node_cell_offset(cell_num);
    get_u32_at(node, offset)
}

/// Sets the key of cell `cell_num` of a leaf.
pub fn set_leaf_node_key(node: &mut [u8], cell_num: usize, key: u32)
    requires
        spec_leaf_cell_offset(cell_num as int) + LEAF_NODE_KEY_SIZE <= old(node)@.len(),
    ensures
        final(node)@ == put_u32(old(node)@, spec_leaf_cell_offset(cell_num as int), key),
{
    proof {
        lemma_len_fits(node);
    }
    let offset: usize = leaf_node_cell_offset(cell_num);
    set_u32_at(node, offset, key);
}

/// The value of cell `cell_num`: a slice of `ROW_SIZE` bytes.
pub fn leaf_node_value(node: &[u8], cell_num: usize) -> (v: &[u8])
    requires
        spec_leaf_cell_offset(cell_num as int) + LEAF_NODE_CELL_SIZE <= node@.len(),
    ensures
        v@ == spec_leaf_value(node@, cell_num as int),
        v@.len() == ROW_SIZE,
{
    proof {
        lemma_len_fits(node);
    }
    let offset: usize = leaf_node_cell_offset(cell_num) + LEAF_NODE_KEY_SIZE;
    vstd::slice::slice_subrange(node, offset, offset + ROW_SIZE)
}

/// Overwrites the value of cell `cell_num` with the first `ROW_SIZE`
/// bytes of `value`.
pub fn leaf_node_value_mut(node: &mut [u8], cell_num: usize, value: &[u8])
    requires
        spec_leaf_cell_offset(cell_num as int) + LEAF_NODE_CELL_SIZE <= old(node)@.len(),
        value@.len() >= ROW_SIZE,
    ensures
        final(node)@ == put_bytes(
            old(node)@,
            spec_leaf_cell_offset(cell_num as int) + LEAF_NODE_KEY_SIZE,
            value@.subrange(0, ROW_SIZE as int),
        ),
{
    proof {
        lemma_len_fits(node);
    }
    let offset: usize = leaf_node_cell_offset(cell_num) + LEAF_NODE_KEY_SIZE;
    copy_into(node, offset, vstd::slice::slice_subrange(value, 0, ROW_SIZE));
}

/// Cell `cell_num` of a leaf, key and value: a slice of
/// `LEAF_NODE_CELL_SIZE` bytes.
pub fn leaf_node_cell(node: &[u8], cell_num: usize) -> (c: &[u8])
    requires
        spec_leaf_cell_offset(cell_num as int) + LEAF_NODE_CELL_SIZE <= node@.len(),
    ensures
        c@ == spec_leaf_cell(node@, cell_num as int),
        c@.len() == LEAF_NODE_CELL_SIZE,
{
    proof {
        lemma_len_fits(node);
    }
    let offset: usize = leaf_node_cell_offset(cell_num);
    vstd::slice::slice_subrange(node, offset, offset + LEAF_NODE_CELL_SIZE)
}

/// Makes the page an empty leaf that is not the root and has no next leaf.
pub fn initialize_leaf_node(node: &mut [u8])
    requires
        old(node)@.len() >= LEAF_NODE_HEADER_SIZE,
    ensures
        final(node)@ == put_u32(
            put_u32(
                old(node)@.update(NODE_TYPE_OFFSET as int, 1u8).update(IS_ROOT_OFFSET as int, 0u8),
                LEAF_NODE_NUM_CELLS_OFFSET as int,
                0,
            ),
            LEAF_NODE_NEXT_LEAF_OFFSET as int,
            0,
        ),
{
    set_node_type(node, NodeType::Leaf);
    set_node_root(node, false);
    proof {
        lemma_put_u32_len(node@, LEAF_NODE_NUM_CELLS_OFFSET as int, 0);
    }
    set_leaf_node_num_cells(node, 0);
    set_leaf_node_next_leaf(node, 0);
}

// ---------------------------------------------------------------------------
// Internal nodes.
// ---------------------------------------------------------------------------
/// The number of keys of an internal node.
pub fn internal_node_num_keys(node: &[u8]) -> (n: u32)
    requires
        node@.len() >= INTERNAL_NODE_HEADER_SIZE,
    ensures
        n == spec_internal_num_keys(node@),
{
    get_u32_at(node, INTERNAL_NODE_NUM_KEYS_OFFSET)
}

/// Sets the number of keys of an internal node.
pub fn set_internal_node_num_keys(node: &mut [u8], value: u32)
    requires
        old(node)@.len() >= INTERNAL_NODE_HEADER_SIZE,
    ensures
        final(node)@ == put_u32(old(node)@, INTERNAL_NODE_NUM_KEYS_OFFSET as int, value),
{
    set_u32_at(node, INTERNAL_NODE_NUM_KEYS_OFFSET, value);
}

/// The right child as stored, `INVALID_PAGE_NUM` where none is set.
pub fn internal_node_right_child(node: &[u8]) -> (c: u32)
    requires
        node@.len() >= INTERNAL_NODE_HEADER_SIZE,
    ensures
        c == spec_internal_right_child(node@),
{
    get_u32_at(node, INTERNAL_NODE_RIGHT_CHILD_OFFSET)
}

/// Sets the right child of an internal node.
pub fn set_internal_node_right_child(node: &mut [u8], page_num: u32)
    requires
        old(node)@.len() >= INTERNAL_NODE_HEADER_SIZE,
    ensures
        final(node)@ == put_u32(old(node)@, INTERNAL_NODE_RIGHT_CHILD_OFFSET as int, page_num),
{
    set_u32_at(node, INTERNAL_NODE_RIGHT_CHILD_OFFSET, page_num);
}

/// Where cell `cell_num` of an internal node starts.
pub fn internal_node_cell_offset(cell_num: usize) -> (o: usize)
    requires
        spec_internal_cell_offset(cell_num as int) <= usize::MAX,
    ensures
        o == spec_internal_cell_offset(cell_num as int),
{
    assert(cell_num * INTERNAL_NODE_CELL_SIZE == 8 * cell_num) by (nonlinear_arith)
        requires
            INTERNAL_NODE_CELL_SIZE == 8,
    ;
    INTERNAL_NODE_HEADER_SIZE + cell_num * INTERNAL_NODE_CELL_SIZE
}

/// The `child_num`-th child of the node: the right child where `child_num`
/// is the number of keys. The child must be set.
pub fn internal_node_child(node: &[u8], child_num: usize) -> (c: u32)
    requires
        node@.len() >= INTERNAL_NODE_HEADER_SIZE,
        child_num <= spec_internal_num_keys(node@),
        child_num < spec_internal_num_keys(node@) ==> spec_internal_cell_offset(child_num as int)
            + INTERNAL_NODE_CELL_SIZE <= node@.len(),
        spec_internal_child(node@, child_num as int) != INVALID_PAGE_NUM,
    ensures
        c == spec_internal_child(node@, child_num as int),
        c != INVALID_PAGE_NUM,
{
    let num_keys: u32 = internal_node_num_keys(node);
    if child_num == num_keys as usize {
        internal_node_right_child(node)
    } else {
        proof {
        lemma_len_fits(node);
    }
    let offset: usize = internal_node_cell_offset(child_num);
        get_u32_at(node, offset)
    }
}

/// Sets the `child_num`-th child of the node: the right child where
/// `child_num` is the number of keys.
pub fn set_internal_node_child(node: &mut [u8], child_num: usize, page_num: u32)
    requires
        old(node)@.len() >= INTERNAL_NODE_HEADER_SIZE,
        child_num <= spec_internal_num_keys(old(node)@),
        child_num < spec_internal_num_keys(old(node)@) ==> spec_internal_cell_offset(
            child_num as int,
        ) + INTERNAL_NODE_CELL_SIZE <= old(node)@.len(),
    ensures
        final(node)@ == put_u32(
            old(node)@,
            if child_num == spec_internal_num_keys(old(node)@) {
                INTERNAL_NODE_RIGHT_CHILD_OFFSET as int
            } else {
                spec_internal_cell_offset(child_num as int)
            },
            page_num,
        ),
{
    let num_keys: u32 = internal_node_num_keys(node);
    if child_num == num_keys as usize {
        set_internal_node_right_child(node, page_num);
    } else {
        proof {
        lemma_len_fits(node);
    }
    let offset: usize = internal_node_cell_offset(child_num);
        set_u32_at(node, offset, page_num);
    }
}

/// The key of cell `key_num` of an internal node.
pub fn internal_node_key_at(node: &[u8], key_num: usize) -> (k: u32)
    requires
        spec_internal_cell_offset(key_num as int) + INTERNAL_NODE_CELL_SIZE <= node@.len(),
    ensures
        k == spec_internal_key(node@, key_num as int),
{
    proof {
        lemma_len_fits(node);
    }
    let offset: usize = internal_node_cell_offset(key_num) + INTERNAL_NODE_CHILD_SIZE;
    get_u32_at(node, offset)
}

/// The key of cell `key_num` of an internal node.
pub fn internal_node_key(node: &[u8], key_num: usize) -> (k: u32)
    requires
        spec_internal_cell_offset(key_num as int) + INTERNAL_NODE_CELL_SIZE <= node@.len(),
    ensures
        k == spec_internal_key(node@, key_num as int),
{
    internal_node_key_at(node, key_num)
}

/// Sets the key of cell `index` of an internal node.
pub fn set_internal_node_key(node: &mut [u8], index: usize, key: u32)
    requires
        spec_internal_cell_offset(index as int) + INTERNAL_NODE_CELL_SIZE <= old(node)@.len(),
    ensures
        final(node)@ == put_u32(
            old(node)@,
            spec_internal_cell_offset(index as int) + INTERNAL_NODE_CHILD_SIZE,
            key,
        ),
{
    proof {
        lemma_len_fits(node);
    }
    assert(index * INTERNAL_NODE_CELL_SIZE == 8 * index) by (nonlinear_arith)
        requires
            INTERNAL_NODE_CELL_SIZE == 8,
    ;
    let offset: usize = INTERNAL_NODE_HEADER_SIZE + index * INTERNAL_NODE_CELL_SIZE
        + INTERNAL_NODE_KEY_OFFSET;
    set_u32_at(node, offset, key);
}

/// Cell `cell_num` of an internal node, child and key: a slice of
/// `INTERNAL_NODE_CELL_SIZE` bytes.
pub fn internal_node_cell(node: &[u8], cell_num: usize) -> (c: &[u8])
    requires
        spec_internal_cell_offset(cell_num as int) + INTERNAL_NODE_CELL_SIZE <= node@.len(),
    ensures
        c@ == spec_internal_cell(node@, cell_num as int),
        c@.len() == INTERNAL_NODE_CELL_SIZE,
{
    proof {
        lemma_len_fits(node);
    }
    let offset: usize = internal_node_cell_offset(cell_num);
    vstd::slice::slice_subrange(node, offset, offset + INTERNAL_NODE_CELL_SIZE)
}

/// Overwrites cell `cell_num` of an internal node with a child and a key.
pub fn internal_node_cell_mut(node: &mut [u8], cell_num: usize, child: u32, key: u32)
    requires
        spec_internal_cell_offset(cell_num as int) + INTERNAL_NODE_CELL_SIZE <= old(node)@.len(),
    ensures
        final(node)@ == put_u32(
            put_u32(old(node)@, spec_internal_cell_offset(cell_num as int), child),
            spec_internal_cell_offset(cell_num as int) + INTERNAL_NODE_CHILD_SIZE,
            key,
        ),
{
    proof {
        lemma_len_fits(node);
    }
    let offset: usize = internal_node_cell_offset(cell_num);
    set_u32_at(node, offset, child);
    proof {
        lemma_put_u32_len(old(node)@, offset as int, child);
    }
    set_u32_at(node, offset + INTERNAL_NODE_CHILD_SIZE, key);
}

/// Makes the page an internal node without keys that is not the root and
/// has no right child yet.
pub fn initialize_internal_node(node: &mut [u8])
    requires
        old(node)@.len() >= INTERNAL_NODE_HEADER_SIZE,
    ensures
        final(node)@ == put_u32(
            put_u32(
                old(node)@.update(NODE_TYPE_OFFSET as int, 0u8).update(IS_ROOT_OFFSET as int, 0u8),
                INTERNAL_NODE_NUM_KEYS_OFFSET as int,
                0,
            ),
            INTERNAL_NODE_RIGHT_CHILD_OFFSET as int,
            INVALID_PAGE_NUM,
        ),
{
    set_node_type(node, NodeType::Internal);
    set_node_root(node, false);
    proof {
        lemma_put_u32_len(node@, INTERNAL_NODE_NUM_KEYS_OFFSET as int, 0);
    }
    set_internal_node_num_keys(node, 0);
    set_internal_node_right_child(node, INVALID_PAGE_NUM);
}

/// Binary search among the keys of an internal node for the child that
/// covers `key`.
pub fn internal_node_find_child(node: &[u8], key: u32) -> (index: u32)
    requires
        node@.len() >= INTERNAL_NODE_HEADER_SIZE,
        spec_internal_cell_offset(spec_internal_num_keys(node@) as int) <= node@.len(),
    ensures
        index <= spec_internal_num_keys(node@),
        spec_internal_keys_ascending(node@) ==> is_internal_lower_bound(node@, key, index as int),
{
    let num_keys: u32 = get_u32_at(node, INTERNAL_NODE_NUM_KEYS_OFFSET);
    let mut left: u32 = 0;
    let mut right: u32 = num_keys;
    proof {
        lemma_len_fits(node);
    }
    while left != right
        invariant
            node@.len() >= INTERNAL_NODE_HEADER_SIZE,
            node@.len() <= usize::MAX,
            num_keys == spec_internal_num_keys(node@),
            spec_internal_cell_offset(num_keys as int) <= node@.len(),
            left <= right <= num_keys,
            spec_internal_keys_ascending(node@) ==> forall|i: int|
                0 <= i < left ==> spec_internal_key(node@, i) < key,
            spec_internal_keys_ascending(node@) ==> forall|i: int|
                right <= i < num_keys ==> spec_internal_key(node@, i) >= key,
        decreases right - left,
    {
        let mid: u32 = left + (right - left) / 2;
        let mid_key: u32 = internal_node_key_at(node, mid as usize);
        if key <= mid_key {
            right = mid;
        } else {
            left = mid + 1;
        }
    }
    left
}

/// What `update_internal_node_key` does where its search ends at `index`.
pub open spec fn key_updated_at(
    before: Seq<u8>,
    after: Seq<u8>,
    old_key: u32,
    new_key: u32,
    index: int,
) -> bool {
    &&& 0 <= index <= spec_internal_num_keys(before)
    &&& spec_internal_keys_ascending(before) ==> is_internal_lower_bound(before, old_key, index)
    &&& after == put_u32(
        before,
        spec_internal_cell_offset(index) + INTERNAL_NODE_CHILD_SIZE,
        new_key,
    )
}

/// Overwrites the key of the cell that a search for `old_key` finds. Where
/// every key is smaller than `old_key`, that is the unused cell behind the
/// last key.
pub fn update_internal_node_key(node: &mut [u8], old_key: u32, new_key: u32)
    requires
        old(node)@.len() >= INTERNAL_NODE_HEADER_SIZE,
        spec_internal_cell_offset(spec_internal_num_keys(old(node)@) as int)
            + INTERNAL_NODE_CELL_SIZE <= old(node)@.len(),
    ensures
        exists|index: int| #[trigger] key_updated_at(old(node)@, final(node)@, old_key, new_key, index),
{
    let child_index: u32 = internal_node_find_child(node, old_key);
    set_internal_node_key(node, child_index as usize, new_key);
    assert(key_updated_at(old(node)@, node@, old_key, new_key, child_index as int));
}

} // verus!
