use lib::constants::PAGE_SIZE;
use lib::node::{
    internal_node_child, internal_node_num_keys, leaf_node_next_leaf, leaf_node_num_cells, node_parent,
};
use lib::pager::{pager_open, PagerError};
use lib::print::{print_tree, TreeLine};
use lib::row::Row;
use lib::statement::prepare_statement;
use lib::table::{
    db_close, db_open, execute_insert, execute_select, execute_statement, table_end,
    table_find, table_start, ExecuteError, Executed, OpenError, Table,
};

fn row(id: u32) -> Row {
    let mut username = [0u8; 32];
    let name = format!("user{id}");
    username[..name.len()].copy_from_slice(name.as_bytes());
    let mut email = [0u8; 255];
    let mail = format!("person{id}@example.com");
    email[..mail.len()].copy_from_slice(mail.as_bytes());
    Row { id, username, email }
}

fn ids(table: &Table) -> Vec<u32> {
    execute_select(table).iter().map(|r| r.id).collect()
}

#[test]
fn empty_file_opens_as_an_empty_table() {
    let table = db_open(&[]).unwrap();
    assert!(execute_select(&table).is_empty());
    let bytes = db_close(&table);
    assert_eq!(bytes.len(), PAGE_SIZE);
    // A root leaf with no cells.
    assert_eq!(bytes[0], 1);
    assert_eq!(bytes[1], 1);
    assert_eq!(leaf_node_num_cells(&bytes), 0);
    assert_eq!(leaf_node_next_leaf(&bytes), 0);
    let (cursor, _) = table_start(&table);
    assert!(cursor.end_of_table);
}

#[test]
fn select_lists_rows_in_id_order() {
    let mut table = db_open(&[]).unwrap();
    for id in [5u32, 3, 9, 1, 7] {
        execute_insert(&row(id), &mut table).unwrap();
    }
    assert_eq!(ids(&table), vec![1, 3, 5, 7, 9]);
    let rows = execute_select(&table);
    assert_eq!(rows[2].username, row(5).username);
    assert_eq!(rows[2].email, row(5).email);
}

#[test]
fn duplicate_ids_are_refused_and_change_nothing() {
    let mut table = db_open(&[]).unwrap();
    execute_insert(&row(1), &mut table).unwrap();
    let before = db_close(&table);
    let mut other = row(1);
    other.username[0] = b'X';
    assert_eq!(execute_insert(&other, &mut table), Err(ExecuteError::DuplicateKey));
    assert_eq!(db_close(&table), before);
    assert_eq!(execute_select(&table)[0].username, row(1).username);
}

#[test]
fn inserted_row_is_found_again() {
    let mut table = db_open(&[]).unwrap();
    for id in 1..=200u32 {
        execute_insert(&row(id * 3 % 401), &mut table).unwrap();
    }
    let rows = execute_select(&table);
    assert_eq!(rows.len(), 200);
    for w in rows.windows(2) {
        assert!(w[0].id < w[1].id);
    }
    for id in 1..=200u32 {
        let key = id * 3 % 401;
        let cursor = table_find(&table, key);
        assert!(!cursor.end_of_table);
        let found = rows.iter().find(|r| r.id == key).unwrap();
        assert_eq!(found.email, row(key).email);
    }
}

#[test]
fn closed_table_reopens_with_the_same_rows() {
    let mut table = db_open(&[]).unwrap();
    for id in [18u32, 7, 10, 29, 23, 4, 14, 30, 15, 26, 22, 19, 2, 1, 21, 11, 6, 20, 5, 8] {
        execute_insert(&row(id), &mut table).unwrap();
    }
    let bytes = db_close(&table);
    assert_eq!(bytes.len() % PAGE_SIZE, 0);
    let reopened = db_open(&bytes).unwrap();
    assert_eq!(ids(&reopened), ids(&table));
    assert_eq!(print_tree(reopened.pager(), 0, 0), print_tree(table.pager(), 0, 0));
    assert_eq!(db_close(&reopened), bytes);
}

#[test]
fn reopened_table_takes_more_rows() {
    let mut table = db_open(&[]).unwrap();
    for id in 1..=20u32 {
        execute_insert(&row(id), &mut table).unwrap();
    }
    let mut reopened = db_open(&db_close(&table)).unwrap();
    for id in 21..=40u32 {
        execute_insert(&row(id), &mut reopened).unwrap();
    }
    assert_eq!(ids(&reopened), (1..=40).collect::<Vec<u32>>());
}

#[test]
fn files_that_are_not_whole_pages_are_refused() {
    assert_eq!(db_open(&[0u8; 10]).err(), Some(OpenError::NotWholePages));
    assert_eq!(db_open(&vec![0u8; PAGE_SIZE + 1]).err(), Some(OpenError::NotWholePages));
    assert!(matches!(pager_open(&[0u8; 7]), Err(PagerError::NotWholePages)));
}

#[test]
fn files_with_more_pages_than_a_table_grows_to_still_open() {
    let bytes = vec![0u8; PAGE_SIZE * 101];
    let pager = pager_open(&bytes).unwrap();
    assert_eq!(pager.num_pages(), 101);
    // Zeroed pages hold no tree.
    assert_eq!(db_open(&bytes).err(), Some(OpenError::Corrupt));
    // A stored table padded with unused zero pages opens, and refuses to grow.
    let mut table = db_open(&[]).unwrap();
    for id in 1..=13u32 {
        execute_insert(&row(id), &mut table).unwrap();
    }
    let mut bytes = db_close(&table);
    bytes.resize(PAGE_SIZE * 120, 0);
    let mut big = db_open(&bytes).unwrap();
    assert_eq!(ids(&big), (1..=13).collect::<Vec<u32>>());
    assert_eq!(execute_insert(&row(14), &mut big), Err(ExecuteError::TableFull));
    assert_eq!(ids(&big).len(), 13);
}

#[test]
fn pages_without_a_tree_are_refused() {
    // A zeroed page reads as an internal node with no keys.
    assert_eq!(db_open(&vec![0u8; PAGE_SIZE]).err(), Some(OpenError::Corrupt));
    // Unsorted keys in a leaf.
    let mut table = db_open(&[]).unwrap();
    execute_insert(&row(1), &mut table).unwrap();
    execute_insert(&row(2), &mut table).unwrap();
    let mut bytes = db_close(&table);
    bytes[14] = 9;
    assert_eq!(db_open(&bytes).err(), Some(OpenError::Corrupt));
    // A child pointing back at the root.
    let mut table = db_open(&[]).unwrap();
    for id in 1..=20u32 {
        execute_insert(&row(id), &mut table).unwrap();
    }
    let mut bytes = db_close(&table);
    assert_eq!(db_open(&bytes).is_ok(), true);
    bytes[14] = 0;
    bytes[15] = 0;
    bytes[16] = 0;
    bytes[17] = 0;
    assert_eq!(db_open(&bytes).err(), Some(OpenError::Corrupt));
}

#[test]
fn pager_open_splits_whole_pages() {
    let mut bytes = vec![0u8; PAGE_SIZE * 2];
    bytes[PAGE_SIZE] = 7;
    let mut pager = pager_open(&bytes).unwrap();
    assert_eq!(pager.num_pages(), 2);
    assert_eq!(pager.page(1)[0], 7);
    assert_eq!(pager.page(0)[0], 0);
    assert_eq!(pager.get_unused_page_num(), 2);
    let page = pager.get_page(4);
    assert_eq!(page, [0u8; PAGE_SIZE]);
    assert_eq!(pager.num_pages(), 5);
    assert!(pager.pager_flush(4).is_ok());
    assert!(pager.pager_flush(5).is_err());
}

#[test]
fn statements_run_against_the_table() {
    let mut table = db_open(&[]).unwrap();
    let insert = prepare_statement("insert 3 dave dave@example.com").unwrap();
    assert!(matches!(execute_statement(&insert, &mut table), Ok(Executed::Inserted)));
    assert!(matches!(execute_statement(&insert, &mut table), Err(ExecuteError::DuplicateKey)));
    let select = prepare_statement("select").unwrap();
    match execute_statement(&select, &mut table).unwrap() {
        Executed::Selected(rows) => {
            assert_eq!(rows.len(), 1);
            assert_eq!(rows[0].id, 3);
        }
        Executed::Inserted => panic!("select lists rows"),
    }
}

#[test]
fn table_end_stands_past_the_last_row() {
    let mut table = db_open(&[]).unwrap();
    execute_insert(&row(1), &mut table).unwrap();
    execute_insert(&row(2), &mut table).unwrap();
    let cursor = table_end(&table);
    assert!(cursor.end_of_table);
    assert_eq!(cursor.page_num, 0);
    assert_eq!(cursor.cell_num, 2);
}

#[test]
fn outline_leaf_entries_are_the_selected_ids() {
    let mut table = db_open(&[]).unwrap();
    for id in [40u32, 3, 77, 12, 56, 1, 90, 23, 65, 8, 31, 49, 70, 15, 5, 60, 27, 84] {
        execute_insert(&row(id), &mut table).unwrap();
    }
    let keys: Vec<u32> = print_tree(table.pager(), 0, 0)
        .iter()
        .filter_map(|l| match *l {
            TreeLine::Cell { key, .. } => Some(key),
            _ => None,
        })
        .collect();
    assert_eq!(keys, ids(&table));
    assert_eq!(keys.len(), 18);
}

#[test]
fn every_child_records_its_parent() {
    let mut table = db_open(&[]).unwrap();
    for id in 1..=300u32 {
        execute_insert(&row(id * 7 % 311), &mut table).unwrap();
    }
    let bytes = db_close(&table);
    let pages: Vec<&[u8]> = bytes.chunks(PAGE_SIZE).collect();
    let mut internal = 0;
    for (num, page) in pages.iter().enumerate() {
        if page[0] == 0 {
            internal += 1;
            let n = internal_node_num_keys(page);
            for i in 0..=n {
                let child = internal_node_child(page, i) as usize;
                assert_eq!(node_parent(pages[child]) as usize, num);
            }
        }
    }
    assert!(internal > 1);
}

#[test]
fn outline_of_a_given_page_at_a_given_level() {
    let mut bytes = vec![0u8; PAGE_SIZE * 6];
    {
        let page = &mut bytes[5 * PAGE_SIZE..6 * PAGE_SIZE];
        lib::node::initialize_leaf_node(page);
        lib::node::set_leaf_node_num_cells(page, 2);
        lib::node::set_leaf_node_key(page, 0, 3);
        lib::node::set_leaf_node_key(page, 1, 9);
    }
    let pager = pager_open(&bytes).unwrap();
    let lines = print_tree(&pager, 5, 1);
    assert_eq!(
        lines,
        vec![
            TreeLine::Leaf { level: 1, size: 2 },
            TreeLine::Cell { level: 2, key: 3 },
            TreeLine::Cell { level: 2, key: 9 },
        ]
    );
    assert_eq!(pager.page(5).to_vec(), bytes[5 * PAGE_SIZE..].to_vec());
}

/// Pages of a two-leaf tree under internal page 0 (key 10), plus a leaf at
/// page 3 holding `extra`.
fn two_leaves_and_a_spare(extra: u32) -> Vec<u8> {
    let mut bytes = vec![0u8; PAGE_SIZE * 4];
    {
        let page = &mut bytes[0..PAGE_SIZE];
        lib::node::initialize_internal_node(page);
        lib::node::set_node_root(page, true);
        lib::node::set_internal_node_num_keys(page, 1);
        lib::node::set_internal_node_cell_child(page, 0, 1);
        lib::node::set_internal_node_key(page, 0, 10);
        lib::node::set_internal_node_right_child(page, 2);
    }
    let leaves: [(usize, &[u32], u32); 3] = [(1, &[5, 10], 2), (2, &[20, 30], 0), (3, &[extra], 0)];
    for (num, keys, next) in leaves {
        let page = &mut bytes[num * PAGE_SIZE..(num + 1) * PAGE_SIZE];
        lib::node::initialize_leaf_node(page);
        lib::node::set_leaf_node_num_cells(page, keys.len() as u32);
        for (i, key) in keys.iter().enumerate() {
            lib::node::set_leaf_node_key(page, i as u32, *key);
        }
        lib::node::set_leaf_node_next_leaf(page, next);
    }
    bytes
}

#[test]
fn internal_node_insert_places_a_child_by_its_largest_key() {
    let bytes = two_leaves_and_a_spare(15);
    let mut pager = pager_open(&bytes).unwrap();
    lib::btree::internal_node_insert(&mut pager, 0, 3);
    let root = pager.page(0);
    assert_eq!(internal_node_num_keys(&root), 2);
    assert_eq!(internal_node_child(&root, 0), 1);
    assert_eq!(internal_node_child(&root, 1), 3);
    assert_eq!(internal_node_child(&root, 2), 2);
    assert_eq!(lib::node::internal_node_key(&root, 0), 10);
    assert_eq!(lib::node::internal_node_key(&root, 1), 15);
    for num in 1..4u32 {
        assert_eq!(pager.page(num).to_vec(), bytes[num as usize * PAGE_SIZE..(num as usize + 1) * PAGE_SIZE].to_vec());
    }
}

#[test]
fn internal_node_insert_makes_a_larger_child_the_right_child() {
    let bytes = two_leaves_and_a_spare(40);
    let mut pager = pager_open(&bytes).unwrap();
    lib::btree::internal_node_insert(&mut pager, 0, 3);
    let root = pager.page(0);
    assert_eq!(internal_node_num_keys(&root), 2);
    assert_eq!(internal_node_child(&root, 0), 1);
    assert_eq!(internal_node_child(&root, 1), 2);
    assert_eq!(internal_node_child(&root, 2), 3);
    assert_eq!(lib::node::internal_node_key(&root, 0), 10);
    assert_eq!(lib::node::internal_node_key(&root, 1), 30);
    assert!(lib::node::is_node_root(&root));
}

#[test]
fn opened_table_is_rooted_at_page_zero_and_outlines_from_there() {
    let mut table = db_open(&[]).unwrap();
    assert_eq!(table.root_page_num(), 0);
    for id in [3, 1, 2] {
        execute_insert(&row(id), &mut table).unwrap();
    }
    assert_eq!(table.root_page_num(), 0);
    assert_eq!(lib::table::table_outline(&table), print_tree(table.pager(), 0, 0));
    assert_eq!(
        lib::table::table_outline(&table),
        vec![
            TreeLine::Leaf { level: 0, size: 3 },
            TreeLine::Cell { level: 1, key: 1 },
            TreeLine::Cell { level: 1, key: 2 },
            TreeLine::Cell { level: 1, key: 3 },
        ]
    );
}
