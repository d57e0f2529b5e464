use btree_store::insert::{
    leaf_node_insert, leaf_node_split_and_insert, pages_needed, set_page_parent, table_insert,
    ExecuteResult,
};
use btree_store::layout::node_parent;
use btree_store::store::select;
use btree_store::row::Row;
use btree_store::table::{
    cursor_advance, cursor_value, get_node_max_key, internal_node_find, leaf_node_find, page_read,
    table_find, table_start, Cursor, Table,
};

fn row(id: u32) -> Row {
    let mut username = [0u8; 32];
    username[0] = (id % 200) as u8 + 1;
    Row { id, username, email: [7u8; 255] }
}

fn filled(ids: impl Iterator<Item = u32>) -> Table {
    let mut table = Table::new();
    for id in ids {
        assert_eq!(table_insert(&mut table, &row(id)), ExecuteResult::Success);
    }
    table
}

#[test]
fn the_start_of_an_empty_table_is_its_end() {
    let mut table = Table::new();
    assert_eq!(table_start(&mut table), Cursor { page_num: 0, cell_num: 0, end_of_table: true });
    assert_eq!(table_find(&mut table, 5), Cursor { page_num: 0, cell_num: 0, end_of_table: false });
}

#[test]
fn a_key_is_found_in_a_leaf() {
    let mut table = filled((1..=10).map(|i| i * 10));
    for (key, cell) in [(5, 0), (10, 0), (11, 1), (50, 4), (55, 5), (100, 9), (101, 10), (u32::MAX, 10)] {
        assert_eq!(
            table_find(&mut table, key),
            Cursor { page_num: 0, cell_num: cell, end_of_table: false },
            "key {}",
            key
        );
        assert_eq!(leaf_node_find(&mut table, 0, key).cell_num, cell);
    }
}

#[test]
fn a_key_is_found_below_internal_nodes() {
    let mut table = filled(1..=60);
    // the leaves of 1..=60: seven keys each but the last
    for key in 1..=60u32 {
        let cursor = table_find(&mut table, key);
        assert!(!cursor.end_of_table);
        let value = cursor_value(&mut table, &cursor).unwrap().to_vec();
        assert_eq!(&value[..4], &key.to_le_bytes());
        assert_eq!(internal_node_find(&mut table, 0, key), cursor);
    }
    // a key above every key belongs behind the last cell of the last leaf
    let cursor = table_find(&mut table, 1000);
    let last = table_find(&mut table, 60);
    assert_eq!(cursor.page_num, last.page_num);
    assert_eq!(cursor.cell_num, last.cell_num + 1);
    // a key between two leaves belongs into the leaf with the larger keys
    let mut gaps = filled((1..=30).map(|i| i * 2));
    let at = table_find(&mut gaps, 15);
    let value = cursor_value(&mut gaps, &at).unwrap().to_vec();
    assert_eq!(&value[..4], &16u32.to_le_bytes());
    assert_eq!(at.cell_num, 0);
}

#[test]
fn the_cursor_walks_all_rows_in_order() {
    let mut table = filled((1..=100).rev());
    let mut cursor = table_start(&mut table);
    assert_eq!(cursor.cell_num, 0);
    assert!(!cursor.end_of_table);
    let mut seen = Vec::new();
    let mut pages = Vec::new();
    while !cursor.end_of_table {
        let value = cursor_value(&mut table, &cursor).unwrap();
        assert_eq!(value.len(), 291);
        seen.push(u32::from_le_bytes([value[0], value[1], value[2], value[3]]));
        if pages.last() != Some(&cursor.page_num) {
            pages.push(cursor.page_num);
        }
        cursor_advance(&mut table, &mut cursor);
    }
    assert_eq!(seen, (1..=100).collect::<Vec<u32>>());
    // each leaf is visited once
    let mut sorted = pages.clone();
    sorted.sort();
    sorted.dedup();
    assert_eq!(sorted.len(), pages.len());
}

#[test]
fn the_cursor_moves_by_one_cell() {
    let mut table = filled(1..=14);
    // the leaf with 1..=7 is on page 2, the leaf with 8..=14 on page 1
    let mut cursor = Cursor { page_num: 2, cell_num: 5, end_of_table: false };
    cursor_advance(&mut table, &mut cursor);
    assert_eq!(cursor, Cursor { page_num: 2, cell_num: 6, end_of_table: false });
    cursor_advance(&mut table, &mut cursor);
    assert_eq!(cursor, Cursor { page_num: 1, cell_num: 0, end_of_table: false });
    let mut cursor = Cursor { page_num: 1, cell_num: 6, end_of_table: false };
    cursor_advance(&mut table, &mut cursor);
    assert_eq!(cursor, Cursor { page_num: 1, cell_num: 7, end_of_table: true });
}

#[test]
fn pages_that_an_insertion_takes() {
    let mut table = filled(1..=12);
    assert_eq!(pages_needed(&mut table, 0), 0);
    assert_eq!(table_insert(&mut table, &row(13)), ExecuteResult::Success);
    // the root is a full leaf: a split takes a page for the new leaf and one for the new root
    assert_eq!(pages_needed(&mut table, 0), 2);
    assert_eq!(table.pager.num_pages, 1);
    assert_eq!(table_insert(&mut table, &row(14)), ExecuteResult::Success);
    assert_eq!(table.pager.num_pages, 3);
    assert_eq!(pages_needed(&mut table, 1), 0);
    assert_eq!(pages_needed(&mut table, 2), 0);
    // 1..=34: the root has three keys, and the last leaf is full
    let mut table = filled(1..=34);
    let before = table.pager.num_pages;
    assert_eq!(before, 5);
    let last = table_find(&mut table, 35).page_num;
    // the leaf, the root, and a new root
    assert_eq!(pages_needed(&mut table, last), 3);
    assert_eq!(table_insert(&mut table, &row(35)), ExecuteResult::Success);
    assert_eq!(table.pager.num_pages, before + 3);
}

#[test]
fn reading_a_page_changes_nothing() {
    let mut table = filled(1..=20);
    let first = page_read(&mut table, 1).to_vec();
    let again = page_read(&mut table, 1).to_vec();
    assert_eq!(first, again);
    assert_eq!(table.pager.num_pages, 3);
}

#[test]
fn the_largest_key_below_a_node() {
    let mut table = filled((1..=60).map(|i| i * 5));
    assert_eq!(get_node_max_key(&mut table, 0), 300);
    // the leaf with the smallest keys is on page 2 and holds seven of them
    assert_eq!(get_node_max_key(&mut table, 2), 35);
    let last = table_find(&mut table, 300).page_num;
    assert_eq!(get_node_max_key(&mut table, last), 300);
    let mut small = filled([9u32, 4, 6].into_iter());
    assert_eq!(get_node_max_key(&mut small, 0), 9);
}

#[test]
fn a_row_goes_into_the_leaf_at_the_cursor() {
    let mut table = filled([10u32, 30].into_iter());
    let cursor = table_find(&mut table, 20);
    assert_eq!(cursor.cell_num, 1);
    leaf_node_insert(&mut table, &cursor, 20, &row(20));
    let cursor = table_find(&mut table, 5);
    leaf_node_insert(&mut table, &cursor, 5, &row(5));
    let cursor = table_find(&mut table, 40);
    leaf_node_insert(&mut table, &cursor, 40, &row(40));
    let ids: Vec<u32> = select(&mut table).iter().map(|r| r.id).collect();
    assert_eq!(ids, vec![5, 10, 20, 30, 40]);
    assert_eq!(table.pager.num_pages, 1);
}

#[test]
fn a_full_leaf_is_split_in_the_middle() {
    // the new row at the front, in the middle and at the end of the fourteen
    for new in [1u32, 15, 99] {
        let mut table = filled((1..=13).map(|i| i * 2));
        let cursor = table_find(&mut table, new);
        leaf_node_split_and_insert(&mut table, &cursor, new, &row(new));
        let mut want: Vec<u32> = (1..=13).map(|i| i * 2).collect();
        want.push(new);
        want.sort();
        let ids: Vec<u32> = select(&mut table).iter().map(|r| r.id).collect();
        assert_eq!(ids, want);
        assert_eq!(table.pager.num_pages, 3);
        // seven rows stay, seven go to the new leaf
        assert_eq!(get_node_max_key(&mut table, 2), want[6]);
        assert_eq!(get_node_max_key(&mut table, 1), want[13]);
        let mut at = table_start(&mut table);
        assert_eq!(at.page_num, 2);
        for _ in 0..7 {
            cursor_advance(&mut table, &mut at);
        }
        assert_eq!(at, Cursor { page_num: 1, cell_num: 0, end_of_table: false });
    }
}

#[test]
fn the_parent_pointer_of_a_page_is_set() {
    let mut table = filled(1..=14);
    assert_eq!(node_parent(page_read(&mut table, 1)), 0);
    set_page_parent(&mut table, 1, 7);
    assert_eq!(node_parent(page_read(&mut table, 1)), 7);
    assert_eq!(node_parent(page_read(&mut table, 2)), 0);
    set_page_parent(&mut table, 1, 0);
    let ids: Vec<u32> = select(&mut table).iter().map(|r| r.id).collect();
    assert_eq!(ids, (1..=14).collect::<Vec<u32>>());
}
