use btree_store::insert::{table_insert, ExecuteResult};
use btree_store::layout::{
    get_node_type, internal_node_child, internal_node_key, internal_node_num_keys,
    internal_node_right_child, is_node_root, leaf_node_key, leaf_node_next_leaf,
    leaf_node_num_cells, node_parent, NodeType,
};
use btree_store::pager::get_page;
use btree_store::row::Row;
use btree_store::store::{db_close, db_open, select};
use btree_store::table::Table;

fn make_row(id: u32, username: &str, email: &str) -> Row {
    let mut u = [0u8; 32];
    let mut e = [0u8; 255];
    u[..username.len()].copy_from_slice(username.as_bytes());
    e[..email.len()].copy_from_slice(email.as_bytes());
    Row { id, username: u, email: e }
}

fn numbered(id: u32) -> Row {
    make_row(id, &format!("user{}", id), &format!("person{}@example.com", id))
}

fn ids(table: &mut Table) -> Vec<u32> {
    select(table).iter().map(|r| r.id).collect()
}

/// Walks the tree below `page` and makes sure of what holds of every node. Returns
/// the keys below the page in order, and the height.
fn walk_node(table: &mut Table, page: usize, parent: Option<usize>, leaves: &mut Vec<usize>) -> (Vec<u32>, usize) {
    let node = get_page(&mut table.pager, page).to_vec();
    assert_eq!(is_node_root(&node), page == 0);
    if let Some(p) = parent {
        assert_eq!(node_parent(&node) as usize, p);
    }
    match get_node_type(&node) {
        NodeType::Leaf => {
            let n = leaf_node_num_cells(&node) as usize;
            assert!(n <= 13);
            if page != 0 {
                assert!(n >= 1);
            }
            let keys: Vec<u32> = (0..n).map(|i| leaf_node_key(&node, i)).collect();
            for w in keys.windows(2) {
                assert!(w[0] < w[1]);
            }
            leaves.push(page);
            (keys, 0)
        }
        NodeType::Internal => {
            let n = internal_node_num_keys(&node) as usize;
            assert!(n >= 1 && n <= 3);
            let mut all = Vec::new();
            let mut height = None;
            for i in 0..=n {
                let child = internal_node_child(&node, i) as usize;
                let (keys, h) = walk_node(table, child, Some(page), leaves);
                match height {
                    None => height = Some(h),
                    Some(x) => assert_eq!(x, h),
                }
                if i < n {
                    assert_eq!(*keys.last().unwrap(), internal_node_key(&node, i));
                } else {
                    assert_eq!(child as u32, internal_node_right_child(&node));
                }
                all.extend(keys);
            }
            for w in all.windows(2) {
                assert!(w[0] < w[1]);
            }
            (all, height.unwrap() + 1)
        }
    }
}

fn walk_tree(table: &mut Table) -> (Vec<u32>, usize) {
    let mut leaves = Vec::new();
    let (keys, height) = walk_node(table, 0, None, &mut leaves);
    // the chain of leaves visits every leaf once, from left to right
    let mut chain = Vec::new();
    let mut page = leaves[0];
    loop {
        chain.push(page);
        let node = get_page(&mut table.pager, page).to_vec();
        let next = leaf_node_next_leaf(&node) as usize;
        if next == 0 {
            break;
        }
        page = next;
        assert!(chain.len() <= 100);
    }
    assert_eq!(chain, leaves);
    let mut roots = 0;
    for p in 0..table.pager.num_pages {
        let node = get_page(&mut table.pager, p).to_vec();
        if is_node_root(&node) {
            roots += 1;
        }
    }
    assert_eq!(roots, 1);
    assert_eq!(keys, ids(table));
    (keys, height)
}

#[test]
fn empty_table_has_no_rows() {
    let mut table = Table::new();
    assert!(select(&mut table).is_empty());
    walk_tree(&mut table);
    assert_eq!(table.pager.num_pages, 1);
    assert_eq!(table.root_page_num, 0);
    let root = get_page(&mut table.pager, 0).to_vec();
    assert_eq!(get_node_type(&root), NodeType::Leaf);
    assert!(is_node_root(&root));
    assert_eq!(leaf_node_num_cells(&root), 0);
    assert_eq!(leaf_node_next_leaf(&root), 0);
    // the file is empty until the table is closed
    assert!(table.pager.file.is_empty());
    db_close(&mut table);
    assert_eq!(table.pager.file.len(), 4096);
    assert!(table.pager.pages.iter().all(|p| p.is_none()));
}

#[test]
fn a_row_is_found_once_at_its_place() {
    let mut table = Table::new();
    let mut want: Vec<u32> = Vec::new();
    for id in [50u32, 10, 90, 30, 70, 20, 80, 40, 60, 100, 5, 95, 55, 45, 65, 35, 75, 25, 85, 15] {
        assert_eq!(table_insert(&mut table, &numbered(id)), ExecuteResult::Success);
        want.push(id);
        want.sort();
        let rows = select(&mut table);
        assert_eq!(rows.iter().map(|r| r.id).collect::<Vec<u32>>(), want);
        assert_eq!(rows.iter().filter(|r| r.id == id).count(), 1);
        let row = rows.iter().find(|r| r.id == id).unwrap();
        assert_eq!(row.get_username(), format!("user{}", id));
        assert_eq!(row.get_email(), format!("person{}@example.com", id));
    }
}

#[test]
fn small_insert_select() {
    let mut table = db_open(Vec::new()).unwrap();
    assert_eq!(table_insert(&mut table, &numbered(1)), ExecuteResult::Success);
    assert_eq!(table_insert(&mut table, &numbered(2)), ExecuteResult::Success);
    let rows = select(&mut table);
    let shown: Vec<String> = rows
        .iter()
        .map(|r| format!("({}, {}, {})", r.id, r.get_username(), r.get_email()))
        .collect();
    assert_eq!(shown, vec!["(1, user1, person1@example.com)", "(2, user2, person2@example.com)"]);
}

#[test]
fn duplicate_key_is_refused() {
    let mut table = Table::new();
    assert_eq!(table_insert(&mut table, &make_row(1, "a", "a@a")), ExecuteResult::Success);
    let before: Vec<Vec<u8>> = (0..table.pager.num_pages)
        .map(|p| get_page(&mut table.pager, p).to_vec())
        .collect();
    assert_eq!(table_insert(&mut table, &make_row(1, "b", "b@b")), ExecuteResult::DuplicateKey);
    let after: Vec<Vec<u8>> = (0..table.pager.num_pages)
        .map(|p| get_page(&mut table.pager, p).to_vec())
        .collect();
    assert_eq!(before, after);
    let rows = select(&mut table);
    assert_eq!(rows.len(), 1);
    assert_eq!(rows[0].get_username(), "a");
    assert_eq!(rows[0].get_email(), "a@a");
}

#[test]
fn fourteen_keys_split_the_root() {
    let mut table = Table::new();
    for id in 1..=14 {
        assert_eq!(table_insert(&mut table, &numbered(id)), ExecuteResult::Success);
    }
    assert_eq!(table.pager.num_pages, 3);
    let root = get_page(&mut table.pager, 0).to_vec();
    assert_eq!(get_node_type(&root), NodeType::Internal);
    assert!(is_node_root(&root));
    assert_eq!(internal_node_num_keys(&root), 1);
    assert_eq!(internal_node_key(&root, 0), 7);
    let left = internal_node_child(&root, 0) as usize;
    let right = internal_node_right_child(&root) as usize;
    assert_eq!(left, 2);
    assert_eq!(right, 1);
    let left_node = get_page(&mut table.pager, left).to_vec();
    let right_node = get_page(&mut table.pager, right).to_vec();
    assert_eq!(get_node_type(&left_node), NodeType::Leaf);
    assert_eq!(get_node_type(&right_node), NodeType::Leaf);
    assert_eq!(leaf_node_num_cells(&left_node), 7);
    assert_eq!(leaf_node_num_cells(&right_node), 7);
    let left_keys: Vec<u32> = (0..7).map(|i| leaf_node_key(&left_node, i)).collect();
    let right_keys: Vec<u32> = (0..7).map(|i| leaf_node_key(&right_node, i)).collect();
    assert_eq!(left_keys, vec![1, 2, 3, 4, 5, 6, 7]);
    assert_eq!(right_keys, vec![8, 9, 10, 11, 12, 13, 14]);
    assert_eq!(leaf_node_next_leaf(&left_node), 1);
    assert_eq!(leaf_node_next_leaf(&right_node), 0);
    assert_eq!(ids(&mut table), (1..=14).collect::<Vec<u32>>());
    let (_, height) = walk_tree(&mut table);
    assert_eq!(height, 1);
}

#[test]
fn ascending_inserts_keep_the_tree_well_formed() {
    let mut table = Table::new();
    let mut inserted = 0;
    for id in 1..=600u32 {
        match table_insert(&mut table, &numbered(id)) {
            ExecuteResult::Success => inserted += 1,
            ExecuteResult::TableFull => break,
            ExecuteResult::DuplicateKey => panic!("no key is inserted twice"),
        }
        if id % 37 == 0 {
            walk_tree(&mut table);
        }
    }
    let (keys, _) = walk_tree(&mut table);
    assert_eq!(keys, (1..=inserted).collect::<Vec<u32>>());
    assert!(table.pager.num_pages <= 100);
}

#[test]
fn descending_and_scattered_inserts_give_the_same_rows() {
    let n = 300u32;
    let mut ascending = Table::new();
    for id in 1..=n {
        assert_eq!(table_insert(&mut ascending, &numbered(id)), ExecuteResult::Success);
    }
    let mut descending = Table::new();
    for id in (1..=n).rev() {
        assert_eq!(table_insert(&mut descending, &numbered(id)), ExecuteResult::Success);
    }
    let mut scattered = Table::new();
    for i in 0..307u32 {
        let x = (i * 101 + 7) % 307;
        if x >= 1 && x <= n {
            assert_eq!(table_insert(&mut scattered, &numbered(x)), ExecuteResult::Success);
        }
        if i % 25 == 0 {
            walk_tree(&mut scattered);
        }
    }
    let want: Vec<u32> = (1..=n).collect();
    assert_eq!(walk_tree(&mut ascending).0, want);
    assert_eq!(walk_tree(&mut descending).0, want);
    assert_eq!(walk_tree(&mut scattered).0, want);
}

#[test]
fn internal_split_adds_one_level() {
    let mut table = Table::new();
    let mut id = 0u32;
    let mut height = 0;
    // fill until the root, an internal node, is split
    while height < 2 {
        id += 1;
        assert_eq!(table_insert(&mut table, &numbered(id)), ExecuteResult::Success);
        let (keys, h) = walk_tree(&mut table);
        assert!(h == height || h == height + 1);
        height = h;
        assert_eq!(keys, (1..=id).collect::<Vec<u32>>());
    }
    let root = get_page(&mut table.pager, 0).to_vec();
    assert_eq!(get_node_type(&root), NodeType::Internal);
    assert_eq!(internal_node_num_keys(&root), 1);
}

#[test]
fn close_and_reopen_keeps_the_rows() {
    let mut table = Table::new();
    for id in [5u32, 3, 9, 1, 7, 40, 41, 42, 2, 8, 6, 4, 10, 11, 12, 13, 14, 15, 16] {
        assert_eq!(table_insert(&mut table, &numbered(id)), ExecuteResult::Success);
    }
    let before: Vec<Vec<u8>> = select(&mut table)
        .iter()
        .map(|r| {
            let mut b = vec![0u8; 291];
            r.serialize_row(&mut b);
            b
        })
        .collect();
    db_close(&mut table);
    let image = table.pager.file.clone();
    assert_eq!(image.len(), 4096 * table.pager.num_pages);
    let mut again = db_open(image).unwrap();
    let after: Vec<Vec<u8>> = select(&mut again)
        .iter()
        .map(|r| {
            let mut b = vec![0u8; 291];
            r.serialize_row(&mut b);
            b
        })
        .collect();
    assert_eq!(before, after);
    walk_tree(&mut again);
    // the table that was closed still answers
    assert_eq!(ids(&mut table), ids(&mut again));
}

#[test]
fn table_full_leaves_the_table_alone() {
    let mut table = Table::new();
    let mut id = 0u32;
    let mut last = ExecuteResult::Success;
    while id < 5000 {
        id += 1;
        last = table_insert(&mut table, &numbered(id));
        if last != ExecuteResult::Success {
            break;
        }
    }
    assert_eq!(last, ExecuteResult::TableFull);
    let (keys, _) = walk_tree(&mut table);
    assert_eq!(keys, (1..id).collect::<Vec<u32>>());
    assert!(table.pager.num_pages <= 100);
    // a key that goes into a leaf with room is still taken
    let before = table.pager.num_pages;
    assert_eq!(table_insert(&mut table, &numbered(id)), ExecuteResult::TableFull);
    assert_eq!(table.pager.num_pages, before);
}

#[test]
fn corrupt_file_is_refused() {
    assert!(db_open(vec![0u8; 100]).is_err());
    assert!(db_open(vec![0u8; 4097]).is_err());
}
