use lib::constants::{LEAF_NODE_CELL_SIZE, PAGE_SIZE, ROW_SIZE};
use lib::node::{
    get_node_type, initialize_internal_node, initialize_leaf_node, internal_node_cell,
    internal_node_child, internal_node_find_child, internal_node_key, internal_node_num_keys,
    internal_node_right_child, is_node_root, leaf_node_cell, leaf_node_key, leaf_node_next_leaf,
    leaf_node_num_cells, leaf_node_value, leaf_node_value_mut, node_parent, set_internal_node_child,
    set_internal_node_key, set_internal_node_num_keys, set_internal_node_right_child,
    set_leaf_node_key, set_leaf_node_next_leaf, set_leaf_node_num_cells, set_node_parent,
    set_node_root, set_node_type, update_internal_node_key, NodeType,
};
use lib::row::{deserialize_row, empty_row, serialize_row, Row};

fn page() -> Vec<u8> {
    vec![0xAAu8; PAGE_SIZE]
}

#[test]
fn leaf_header_fields_read_back() {
    let mut p = page();
    initialize_leaf_node(&mut p);
    assert!(matches!(get_node_type(&p), NodeType::LeafNode));
    assert!(!is_node_root(&p));
    assert_eq!(leaf_node_num_cells(&p), 0);
    assert_eq!(leaf_node_next_leaf(&p), 0);
    set_leaf_node_num_cells(&mut p, 3);
    set_leaf_node_next_leaf(&mut p, 17);
    set_node_parent(&mut p, 0x01020304);
    set_node_root(&mut p, true);
    assert_eq!(leaf_node_num_cells(&p), 3);
    assert_eq!(leaf_node_next_leaf(&p), 17);
    assert_eq!(node_parent(&p), 0x01020304);
    assert!(is_node_root(&p));
    // Little-endian on the page.
    assert_eq!(&p[2..6], &[4, 3, 2, 1]);
    assert_eq!(&p[6..10], &[3, 0, 0, 0]);
}

#[test]
fn node_type_bytes() {
    let mut p = page();
    set_node_type(&mut p, NodeType::InternalNode);
    assert_eq!(p[0], 0);
    assert!(matches!(get_node_type(&p), NodeType::InternalNode));
    set_node_type(&mut p, NodeType::LeafNode);
    assert_eq!(p[0], 1);
    set_node_type(&mut p, NodeType::RootNode);
    assert_eq!(p[0], 2);
    assert!(matches!(get_node_type(&p), NodeType::RootNode));
}

#[test]
fn leaf_cells_hold_key_then_row() {
    let mut p = page();
    initialize_leaf_node(&mut p);
    set_leaf_node_key(&mut p, 2, 99);
    assert_eq!(leaf_node_key(&p, 2), 99);
    let start = 14 + 2 * LEAF_NODE_CELL_SIZE;
    assert_eq!(&p[start..start + 4], &[99, 0, 0, 0]);
    let cell = leaf_node_cell(&p, 2);
    assert_eq!(cell.len(), LEAF_NODE_CELL_SIZE);
    assert_eq!(cell[0], 99);
    {
        let value = leaf_node_value_mut(&mut p, 2);
        assert_eq!(value.len(), ROW_SIZE);
        value[0] = 5;
    }
    assert_eq!(leaf_node_value(&p, 2)[0], 5);
    assert_eq!(p[start + 4], 5);
    // The last cell that fits in a page.
    set_leaf_node_key(&mut p, 12, 7);
    assert_eq!(leaf_node_key(&p, 12), 7);
}

#[test]
fn rows_serialize_and_read_back() {
    let mut username = [0u8; 32];
    username[..3].copy_from_slice(b"bob");
    let mut email = [0u8; 255];
    email[..7].copy_from_slice(b"b@x.org");
    let row = Row { id: 0x0a0b0c0d, username, email };
    let mut buf = vec![0xFFu8; ROW_SIZE + 5];
    serialize_row(&row, &mut buf);
    assert_eq!(&buf[0..4], &[0x0d, 0x0c, 0x0b, 0x0a]);
    assert_eq!(&buf[4..7], b"bob");
    assert_eq!(buf[7], 0);
    assert_eq!(&buf[36..43], b"b@x.org");
    assert_eq!(&buf[ROW_SIZE..], &[0xFF; 5]);
    let mut back = empty_row();
    deserialize_row(&buf, &mut back);
    assert_eq!(back.id, row.id);
    assert_eq!(back.username, row.username);
    assert_eq!(back.email, row.email);
}

#[test]
fn internal_node_children_and_keys() {
    let mut p = page();
    initialize_internal_node(&mut p);
    assert!(matches!(get_node_type(&p), NodeType::InternalNode));
    assert_eq!(internal_node_num_keys(&p), 0);
    set_internal_node_num_keys(&mut p, 2);
    set_internal_node_child(&mut p, 0, 4);
    set_internal_node_key(&mut p, 0, 10);
    set_internal_node_child(&mut p, 1, 5);
    set_internal_node_key(&mut p, 1, 20);
    set_internal_node_child(&mut p, 2, 6);
    assert_eq!(internal_node_child(&p, 0), 4);
    assert_eq!(internal_node_child(&p, 1), 5);
    assert_eq!(internal_node_child(&p, 2), 6);
    assert_eq!(internal_node_key(&p, 0), 10);
    assert_eq!(internal_node_key(&p, 1), 20);
    assert_eq!(internal_node_right_child(&p), &[6, 0, 0, 0]);
    assert_eq!(internal_node_cell(&p, 1), &[5, 0, 0, 0, 20, 0, 0, 0]);
    set_internal_node_right_child(&mut p, 8);
    assert_eq!(internal_node_child(&p, 2), 8);
}

#[test]
fn find_child_picks_the_first_key_at_or_above() {
    let mut p = page();
    initialize_internal_node(&mut p);
    set_internal_node_num_keys(&mut p, 3);
    set_internal_node_key(&mut p, 0, 10);
    set_internal_node_key(&mut p, 1, 20);
    set_internal_node_key(&mut p, 2, 30);
    assert_eq!(internal_node_find_child(&p, 1), 0);
    assert_eq!(internal_node_find_child(&p, 10), 0);
    assert_eq!(internal_node_find_child(&p, 11), 1);
    assert_eq!(internal_node_find_child(&p, 20), 1);
    assert_eq!(internal_node_find_child(&p, 30), 2);
    assert_eq!(internal_node_find_child(&p, 31), 3);
}

#[test]
fn update_key_replaces_the_matching_key() {
    let mut p = page();
    initialize_internal_node(&mut p);
    set_internal_node_num_keys(&mut p, 2);
    set_internal_node_key(&mut p, 0, 10);
    set_internal_node_key(&mut p, 1, 20);
    update_internal_node_key(&mut p, 20, 25);
    assert_eq!(internal_node_key(&p, 0), 10);
    assert_eq!(internal_node_key(&p, 1), 25);
    update_internal_node_key(&mut p, 10, 12);
    assert_eq!(internal_node_key(&p, 0), 12);
}
