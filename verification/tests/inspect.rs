use btree_store::insert::{table_insert, ExecuteResult};
use btree_store::inspect::table_is_tree;
use btree_store::layout::{
    set_internal_node_key, set_leaf_node_key, set_leaf_node_next_leaf, set_node_parent,
    set_node_root, set_node_type, NodeType,
};
use btree_store::pager::get_page;
use btree_store::row::Row;
use btree_store::store::{db_close, db_open, select};
use btree_store::table::Table;

fn row(id: u32) -> Row {
    Row { id, username: [b'u'; 32], email: [b'e'; 255] }
}

fn filled(n: u32) -> Table {
    let mut table = Table::new();
    for id in 1..=n {
        assert_eq!(table_insert(&mut table, &row(id * 3)), ExecuteResult::Success);
    }
    table
}

fn image(table: &mut Table) -> Vec<u8> {
    db_close(table);
    table.pager.file.clone()
}

#[test]
fn trees_that_were_built_are_trees() {
    for n in [0u32, 1, 13, 14, 27, 28, 60, 200, 300] {
        let mut table = filled(n);
        assert!(table_is_tree(&mut table), "{} rows", n);
        let mut again = db_open(image(&mut table)).unwrap();
        assert!(table_is_tree(&mut again), "{} rows, opened again", n);
        assert_eq!(select(&mut again).len(), n as usize);
        // the table that was looked at takes more rows
        assert_eq!(table_insert(&mut again, &row(1)), ExecuteResult::Success);
        assert!(table_is_tree(&mut again));
    }
}

#[test]
fn a_file_of_zeros_is_no_tree() {
    let mut table = db_open(vec![0u8; 4096]).unwrap();
    assert!(!table_is_tree(&mut table));
    let mut table = db_open(vec![0u8; 3 * 4096]).unwrap();
    assert!(!table_is_tree(&mut table));
}

#[test]
fn too_many_pages_are_no_tree() {
    let mut table = db_open(vec![0u8; 101 * 4096]).unwrap();
    assert!(!table_is_tree(&mut table));
}

#[test]
fn a_wrong_key_order_is_found() {
    let mut table = filled(40);
    // the first leaf is on page 2: its first key moves above the second
    set_leaf_node_key(get_page(&mut table.pager, 2), 0, 5);
    assert!(!table_is_tree(&mut table));
}

#[test]
fn a_wrong_parent_pointer_is_found() {
    let mut table = filled(40);
    set_node_parent(get_page(&mut table.pager, 1), 77);
    assert!(!table_is_tree(&mut table));
    let mut table = filled(40);
    set_node_parent(get_page(&mut table.pager, 1), 2);
    assert!(!table_is_tree(&mut table));
}

#[test]
fn a_second_root_is_found() {
    let mut table = filled(40);
    set_node_root(get_page(&mut table.pager, 1), true);
    assert!(!table_is_tree(&mut table));
    let mut table = filled(40);
    set_node_root(get_page(&mut table.pager, 0), false);
    assert!(!table_is_tree(&mut table));
}

#[test]
fn a_broken_chain_of_leaves_is_found() {
    let mut table = filled(40);
    set_leaf_node_next_leaf(get_page(&mut table.pager, 2), 0);
    assert!(!table_is_tree(&mut table));
    let mut table = filled(40);
    set_leaf_node_next_leaf(get_page(&mut table.pager, 2), 2);
    assert!(!table_is_tree(&mut table));
}

#[test]
fn a_wrong_internal_key_is_found() {
    let mut table = filled(14);
    set_internal_node_key(get_page(&mut table.pager, 0), 0, 22);
    assert!(!table_is_tree(&mut table));
}

#[test]
fn a_wrong_node_type_is_found() {
    let mut table = filled(14);
    set_node_type(get_page(&mut table.pager, 1), NodeType::Internal);
    assert!(!table_is_tree(&mut table));
    let mut table = filled(14);
    get_page(&mut table.pager, 1)[0] = 9;
    assert!(!table_is_tree(&mut table));
}

#[test]
fn a_row_under_a_wrong_key_is_found() {
    let mut table = filled(5);
    // the id in the row of the first cell no longer is the key of the cell
    get_page(&mut table.pager, 0)[14 + 4] = 200;
    assert!(!table_is_tree(&mut table));
}

#[test]
fn scattered_inserts_keep_the_pages_a_tree() {
    let mut table = Table::new();
    let mut model = std::collections::BTreeSet::new();
    let mut x: u64 = 0x2545_F491_4F6C_DD1D;
    for step in 0..400 {
        x ^= x << 13;
        x ^= x >> 7;
        x ^= x << 17;
        let id = (x % 500) as u32;
        let pages = table.pager.num_pages;
        match table_insert(&mut table, &row(id)) {
            ExecuteResult::Success => {
                assert!(model.insert(id), "step {}", step);
            }
            ExecuteResult::DuplicateKey => {
                assert!(model.contains(&id), "step {}", step);
                assert_eq!(table.pager.num_pages, pages);
            }
            ExecuteResult::TableFull => {
                assert!(!model.contains(&id), "step {}", step);
                assert_eq!(table.pager.num_pages, pages);
            }
        }
        assert!(table_is_tree(&mut table), "step {}", step);
        if step % 20 == 0 {
            let ids: Vec<u32> = select(&mut table).iter().map(|r| r.id).collect();
            assert_eq!(ids, model.iter().copied().collect::<Vec<u32>>());
        }
    }
    let ids: Vec<u32> = select(&mut table).iter().map(|r| r.id).collect();
    assert_eq!(ids, model.iter().copied().collect::<Vec<u32>>());
    assert!(model.len() > 200);
}
