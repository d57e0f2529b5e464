use btree_store::layout::{
    copy_into, copy_within, get_leaf_node_next_leaf, get_node_type, get_u32_at,
    initialize_internal_node, initialize_leaf_node, internal_node_cell, internal_node_cell_mut,
    internal_node_cell_offset, internal_node_child, internal_node_find_child, internal_node_key,
    internal_node_key_at, internal_node_num_keys, internal_node_right_child, is_node_root,
    leaf_node_cell, leaf_node_cell_offset, leaf_node_key, leaf_node_next_leaf,
    leaf_node_num_cells, leaf_node_value, leaf_node_value_mut, node_parent, set_internal_node_child,
    set_internal_node_key, set_internal_node_num_keys, set_internal_node_right_child,
    set_leaf_node_key, set_leaf_node_next_leaf, set_leaf_node_num_cells, set_node_parent,
    set_node_root, set_node_type, set_u32_at, update_internal_node_key, NodeType,
    COMMON_NODE_HEADER_SIZE, EMAIL_OFFSET, ID_OFFSET, INTERNAL_NODE_CELL_SIZE,
    INTERNAL_NODE_HEADER_SIZE, INTERNAL_NODE_MAX_CELLS, INVALID_PAGE_NUM, LEAF_NODE_CELL_SIZE,
    LEAF_NODE_HEADER_SIZE, LEAF_NODE_LEFT_SPLIT_COUNT, LEAF_NODE_MAX_CELLS,
    LEAF_NODE_RIGHT_SPLIT_COUNT, LEAF_NODE_SPACE_FOR_CELLS, PAGE_SIZE, ROW_SIZE,
    TABLE_MAX_PAGES, USERNAME_OFFSET,
};
use btree_store::node::{
    init_internal_root, internal_fill, internal_insert_cell, leaf_fill_cells, leaf_gather_cells,
    leaf_insert_cell, make_leaf_cell,
};

fn page() -> Vec<u8> {
    vec![0xAAu8; PAGE_SIZE]
}

#[test]
fn constants_of_the_layout() {
    assert_eq!(ROW_SIZE, 291);
    assert_eq!(ID_OFFSET, 0);
    assert_eq!(USERNAME_OFFSET, 4);
    assert_eq!(EMAIL_OFFSET, 36);
    assert_eq!(PAGE_SIZE, 4096);
    assert_eq!(TABLE_MAX_PAGES, 100);
    assert_eq!(COMMON_NODE_HEADER_SIZE, 6);
    assert_eq!(LEAF_NODE_HEADER_SIZE, 14);
    assert_eq!(LEAF_NODE_CELL_SIZE, 295);
    assert_eq!(LEAF_NODE_SPACE_FOR_CELLS, 4082);
    assert_eq!(LEAF_NODE_MAX_CELLS, 13);
    assert_eq!(LEAF_NODE_LEFT_SPLIT_COUNT, 7);
    assert_eq!(LEAF_NODE_RIGHT_SPLIT_COUNT, 7);
    assert_eq!(INTERNAL_NODE_HEADER_SIZE, 14);
    assert_eq!(INTERNAL_NODE_CELL_SIZE, 8);
    assert_eq!(INTERNAL_NODE_MAX_CELLS, 3);
    assert_eq!(INVALID_PAGE_NUM, u32::MAX);
}

#[test]
fn numbers_are_little_endian() {
    let mut data = vec![0u8; 8];
    set_u32_at(&mut data, 2, 0x0403_0201);
    assert_eq!(data, vec![0, 0, 1, 2, 3, 4, 0, 0]);
    assert_eq!(get_u32_at(&data, 2), 0x0403_0201);
    set_u32_at(&mut data, 0, u32::MAX);
    assert_eq!(get_u32_at(&data, 0), u32::MAX);
    assert_eq!(&data[..4], &[255, 255, 255, 255]);
    set_u32_at(&mut data, 4, 0);
    assert_eq!(get_u32_at(&data, 4), 0);
    assert_eq!(get_u32_at(&[0x78, 0x56, 0x34, 0x12], 0), 0x1234_5678);
}

#[test]
fn bytes_are_copied() {
    let mut data = vec![0u8; 10];
    copy_into(&mut data, 3, &[1, 2, 3]);
    assert_eq!(data, vec![0, 0, 0, 1, 2, 3, 0, 0, 0, 0]);
    copy_within(&mut data, 3, 6, 3);
    assert_eq!(data, vec![0, 0, 0, 1, 2, 3, 1, 2, 3, 0]);
    copy_into(&mut data, 0, &[]);
    copy_within(&mut data, 0, 9, 0);
    assert_eq!(data, vec![0, 0, 0, 1, 2, 3, 1, 2, 3, 0]);
}

#[test]
fn common_header() {
    let mut node = page();
    set_node_type(&mut node, NodeType::Leaf);
    assert_eq!(node[0], 1);
    assert_eq!(get_node_type(&node), NodeType::Leaf);
    set_node_type(&mut node, NodeType::Internal);
    assert_eq!(node[0], 0);
    assert_eq!(get_node_type(&node), NodeType::Internal);
    set_node_root(&mut node, true);
    assert_eq!(node[1], 1);
    assert!(is_node_root(&node));
    set_node_root(&mut node, false);
    assert_eq!(node[1], 0);
    assert!(!is_node_root(&node));
    node[1] = 7;
    assert!(is_node_root(&node));
    set_node_parent(&mut node, 0x0102_0304);
    assert_eq!(&node[2..6], &[4, 3, 2, 1]);
    assert_eq!(node_parent(&node), 0x0102_0304);
    assert_eq!(node[6], 0xAA);
}

#[test]
fn leaf_header_and_cells() {
    let mut node = page();
    initialize_leaf_node(&mut node);
    assert_eq!(get_node_type(&node), NodeType::Leaf);
    assert!(!is_node_root(&node));
    assert_eq!(leaf_node_num_cells(&node), 0);
    assert_eq!(leaf_node_next_leaf(&node), 0);
    assert_eq!(get_leaf_node_next_leaf(&node), 0);
    // the parent pointer and the cells are left alone
    assert_eq!(node_parent(&node), 0xAAAA_AAAA);
    assert_eq!(node[14], 0xAA);
    set_leaf_node_num_cells(&mut node, 5);
    assert_eq!(&node[6..10], &[5, 0, 0, 0]);
    assert_eq!(leaf_node_num_cells(&node), 5);
    set_leaf_node_next_leaf(&mut node, 9);
    assert_eq!(&node[10..14], &[9, 0, 0, 0]);
    assert_eq!(leaf_node_next_leaf(&node), 9);
    assert_eq!(leaf_node_cell_offset(0), 14);
    assert_eq!(leaf_node_cell_offset(1), 309);
    assert_eq!(leaf_node_cell_offset(12), 14 + 12 * 295);
    set_leaf_node_key(&mut node, 2, 77);
    assert_eq!(&node[604..608], &[77, 0, 0, 0]);
    assert_eq!(leaf_node_key(&node, 2), 77);
    let value: Vec<u8> = (0..300).map(|i| (i % 251) as u8).collect();
    leaf_node_value_mut(&mut node, 2, &value);
    assert_eq!(leaf_node_value(&node, 2), &value[..291]);
    assert_eq!(leaf_node_value(&node, 2).len(), 291);
    assert_eq!(leaf_node_cell(&node, 2).len(), 295);
    assert_eq!(&leaf_node_cell(&node, 2)[..4], &[77, 0, 0, 0]);
    assert_eq!(&leaf_node_cell(&node, 2)[4..], &value[..291]);
    // the cell behind it is left alone
    assert_eq!(leaf_node_key(&node, 3), 0xAAAA_AAAA);
}

#[test]
fn internal_header_and_cells() {
    let mut node = page();
    initialize_internal_node(&mut node);
    assert_eq!(get_node_type(&node), NodeType::Internal);
    assert!(!is_node_root(&node));
    assert_eq!(internal_node_num_keys(&node), 0);
    assert_eq!(internal_node_right_child(&node), INVALID_PAGE_NUM);
    assert_eq!(&node[10..14], &[255, 255, 255, 255]);
    assert_eq!(internal_node_cell_offset(0), 14);
    assert_eq!(internal_node_cell_offset(3), 38);
    set_internal_node_num_keys(&mut node, 2);
    set_internal_node_right_child(&mut node, 30);
    internal_node_cell_mut(&mut node, 0, 10, 100);
    internal_node_cell_mut(&mut node, 1, 20, 200);
    assert_eq!(&node[14..30], &[10, 0, 0, 0, 100, 0, 0, 0, 20, 0, 0, 0, 200, 0, 0, 0]);
    assert_eq!(internal_node_cell(&node, 1), &[20, 0, 0, 0, 200, 0, 0, 0]);
    assert_eq!(internal_node_child(&node, 0), 10);
    assert_eq!(internal_node_child(&node, 1), 20);
    // the child behind the last key is the right child
    assert_eq!(internal_node_child(&node, 2), 30);
    assert_eq!(internal_node_key(&node, 0), 100);
    assert_eq!(internal_node_key_at(&node, 1), 200);
    set_internal_node_key(&mut node, 1, 250);
    assert_eq!(internal_node_key(&node, 1), 250);
    set_internal_node_child(&mut node, 0, 11);
    assert_eq!(internal_node_child(&node, 0), 11);
    set_internal_node_child(&mut node, 2, 31);
    assert_eq!(internal_node_right_child(&node), 31);
    assert_eq!(internal_node_num_keys(&node), 2);
}

#[test]
fn search_among_internal_keys() {
    let mut node = page();
    initialize_internal_node(&mut node);
    assert_eq!(internal_node_find_child(&node, 5), 0);
    set_internal_node_num_keys(&mut node, 3);
    internal_node_cell_mut(&mut node, 0, 1, 10);
    internal_node_cell_mut(&mut node, 1, 2, 20);
    internal_node_cell_mut(&mut node, 2, 3, 30);
    set_internal_node_right_child(&mut node, 4);
    assert_eq!(internal_node_find_child(&node, 0), 0);
    assert_eq!(internal_node_find_child(&node, 10), 0);
    assert_eq!(internal_node_find_child(&node, 11), 1);
    assert_eq!(internal_node_find_child(&node, 20), 1);
    assert_eq!(internal_node_find_child(&node, 21), 2);
    assert_eq!(internal_node_find_child(&node, 30), 2);
    assert_eq!(internal_node_find_child(&node, 31), 3);
    assert_eq!(internal_node_find_child(&node, u32::MAX), 3);
    update_internal_node_key(&mut node, 20, 15);
    assert_eq!(internal_node_key(&node, 0), 10);
    assert_eq!(internal_node_key(&node, 1), 15);
    assert_eq!(internal_node_key(&node, 2), 30);
    // a key above every key is looked for behind the last key
    update_internal_node_key(&mut node, 99, 98);
    assert_eq!(internal_node_key(&node, 2), 30);
    assert_eq!(internal_node_num_keys(&node), 3);
    assert_eq!(get_u32_at(&node, 14 + 3 * 8 + 4), 98);
}

#[test]
fn a_cell_goes_into_a_leaf() {
    let mut node = page();
    initialize_leaf_node(&mut node);
    let value = |b: u8| vec![b; 291];
    leaf_insert_cell(&mut node, 0, 20, &value(2));
    leaf_insert_cell(&mut node, 1, 40, &value(4));
    leaf_insert_cell(&mut node, 0, 10, &value(1));
    leaf_insert_cell(&mut node, 2, 30, &value(3));
    assert_eq!(leaf_node_num_cells(&node), 4);
    for i in 0..4 {
        assert_eq!(leaf_node_key(&node, i), 10 * (i as u32 + 1));
        assert_eq!(leaf_node_value(&node, i), &value(i as u8 + 1)[..]);
    }
    assert_eq!(get_node_type(&node), NodeType::Leaf);
    assert_eq!(leaf_node_next_leaf(&node), 0);
}

#[test]
fn fourteen_cells_are_gathered_and_dealt_out() {
    let mut node = page();
    initialize_leaf_node(&mut node);
    for i in 0..13u32 {
        leaf_insert_cell(&mut node, i as usize, 2 * i + 2, &vec![i as u8; 291]);
    }
    let cell = make_leaf_cell(7, &vec![99u8; 291]);
    assert_eq!(cell.len(), 295);
    assert_eq!(&cell[..4], &[7, 0, 0, 0]);
    assert!(cell[4..].iter().all(|b| *b == 99));
    let all = leaf_gather_cells(&node, 3, 7, &vec![99u8; 291]);
    assert_eq!(all.len(), 14 * 295);
    let keys: Vec<u32> = (0..14).map(|j| get_u32_at(&all, 295 * j)).collect();
    assert_eq!(keys, vec![2, 4, 6, 7, 8, 10, 12, 14, 16, 18, 20, 22, 24, 26]);
    assert_eq!(all[295 * 3 + 4], 99);
    assert_eq!(all[295 * 4 + 4], 3);
    // at the end
    let last = leaf_gather_cells(&node, 13, 100, &vec![99u8; 291]);
    assert_eq!(get_u32_at(&last, 295 * 13), 100);
    assert_eq!(get_u32_at(&last, 295 * 12), 26);
    let mut right = page();
    initialize_leaf_node(&mut right);
    leaf_fill_cells(&mut right, &all, 7, 7);
    leaf_fill_cells(&mut node, &all, 0, 7);
    assert_eq!(leaf_node_num_cells(&node), 7);
    assert_eq!(leaf_node_num_cells(&right), 7);
    assert_eq!((0..7).map(|i| leaf_node_key(&node, i)).collect::<Vec<_>>(), vec![2, 4, 6, 7, 8, 10, 12]);
    assert_eq!(
        (0..7).map(|i| leaf_node_key(&right, i)).collect::<Vec<_>>(),
        vec![14, 16, 18, 20, 22, 24, 26]
    );
    assert_eq!(leaf_node_value(&node, 3), &vec![99u8; 291][..]);
}

#[test]
fn a_child_goes_into_an_internal_node() {
    let mut node = page();
    initialize_internal_node(&mut node);
    // a node without a right child takes the child as its right child
    internal_insert_cell(&mut node, 5, 50, 0);
    assert_eq!(internal_node_num_keys(&node), 0);
    assert_eq!(internal_node_right_child(&node), 5);
    // a child above the right child becomes the right child
    internal_insert_cell(&mut node, 9, 90, 50);
    assert_eq!(internal_node_num_keys(&node), 1);
    assert_eq!(internal_node_child(&node, 0), 5);
    assert_eq!(internal_node_key(&node, 0), 50);
    assert_eq!(internal_node_right_child(&node), 9);
    // a child below goes in front of the first key that is at least its own
    internal_insert_cell(&mut node, 2, 20, 90);
    assert_eq!(internal_node_num_keys(&node), 2);
    assert_eq!(internal_node_child(&node, 0), 2);
    assert_eq!(internal_node_key(&node, 0), 20);
    assert_eq!(internal_node_child(&node, 1), 5);
    assert_eq!(internal_node_key(&node, 1), 50);
    internal_insert_cell(&mut node, 7, 70, 90);
    assert_eq!(internal_node_num_keys(&node), 3);
    assert_eq!((0..3).map(|i| internal_node_key(&node, i)).collect::<Vec<_>>(), vec![20, 50, 70]);
    assert_eq!((0..4).map(|i| internal_node_child(&node, i)).collect::<Vec<_>>(), vec![2, 5, 7, 9]);
}

#[test]
fn an_internal_node_is_filled() {
    let mut node = page();
    initialize_internal_node(&mut node);
    let kids = vec![11, 12, 13, 14, 15];
    let keys = vec![100, 200, 300, 400];
    internal_fill(&mut node, &kids, &keys, 2, 3);
    assert_eq!(internal_node_num_keys(&node), 2);
    assert_eq!((0..3).map(|i| internal_node_child(&node, i)).collect::<Vec<_>>(), vec![13, 14, 15]);
    assert_eq!((0..2).map(|i| internal_node_key(&node, i)).collect::<Vec<_>>(), vec![300, 400]);
    internal_fill(&mut node, &kids, &keys, 0, 2);
    assert_eq!(internal_node_num_keys(&node), 1);
    assert_eq!(internal_node_child(&node, 0), 11);
    assert_eq!(internal_node_key(&node, 0), 100);
    assert_eq!(internal_node_right_child(&node), 12);
    let mut root = page();
    init_internal_root(&mut root, 2, 7, 1);
    assert_eq!(get_node_type(&root), NodeType::Internal);
    assert!(is_node_root(&root));
    assert_eq!(internal_node_num_keys(&root), 1);
    assert_eq!(internal_node_child(&root, 0), 2);
    assert_eq!(internal_node_key(&root, 0), 7);
    assert_eq!(internal_node_right_child(&root), 1);
}
