//! Layout of a node inside a page, and the accessors that read and write
//! its fields.
use vstd::prelude::*;
use vstd::bytes::spec_u32_from_le_bytes;
use vstd::slice::slice_subrange;
use crate::bytes::{
    group_splice, lemma_with_u32_read, read_u32, splice, subslice_mut, u32_at, with_u32, write_u32,
};
use crate::constants::{
    INTERNAL_NODE_CELL_SIZE, INTERNAL_NODE_CHILD_SIZE, INTERNAL_NODE_HEADER_SIZE,
    INTERNAL_NODE_NUM_KEYS_OFFSET, INTERNAL_NODE_RIGHT_CHILD_OFFSET, INTERNAL_NODE_RIGHT_CHILD_SIZE,
    IS_ROOT_OFFSET, LEAF_NODE_CELL_SIZE, LEAF_NODE_HEADER_SIZE, LEAF_NODE_KEY_OFFSET,
    LEAF_NODE_KEY_SIZE, LEAF_NODE_NEXT_LEAF_OFFSET, LEAF_NODE_NUM_CELLS_OFFSET,
    LEAF_NODE_VALUE_OFFSET, LEAF_NODE_VALUE_SIZE, NODE_TYPE_OFFSET, PAGE_SIZE,
    PARENT_POINTER_OFFSET,
};
use crate::tree::{child_index, keys_sorted, lemma_child_index_unique, node_keys};

verus! {

broadcast use group_splice, lemma_with_u32_read;

/// The three kinds of node a page may hold.
pub enum NodeType {
    LeafNode,
    InternalNode,
    RootNode,
}

/// The byte that stores a node type.
pub open spec fn node_type_byte(t: NodeType) -> u8 {
    match t {
        NodeType::InternalNode => 0,
        NodeType::LeafNode => 1,
        NodeType::RootNode => 2,
    }
}

/// Where cell `i` of a leaf starts in the page.
pub open spec fn leaf_cell_offset(i: int) -> int {
    14 + i * 295
}

/// Where cell `i` of an internal node starts in the page.
pub open spec fn internal_cell_offset(i: int) -> int {
    14 + i * 8
}

/// Cell `i` of a leaf fits inside a page.
pub open spec fn leaf_cell_fits(i: int) -> bool {
    0 <= i && 14 + i * 295 + 295 <= 4096
}

/// Cell `i` of an internal node fits inside a page.
pub open spec fn internal_cell_fits(i: int) -> bool {
    0 <= i && 14 + i * 8 + 8 <= 4096
}

/// The node type byte of a page.
pub open spec fn node_type_of(page: Seq<u8>) -> u8 {
    page[NODE_TYPE_OFFSET as int]
}

/// Whether a page is marked as the root.
pub open spec fn is_root_of(page: Seq<u8>) -> bool {
    page[IS_ROOT_OFFSET as int] != 0
}

/// The parent page number stored in a page.
pub open spec fn parent_of(page: Seq<u8>) -> u32 {
    u32_at(page, PARENT_POINTER_OFFSET as int)
}

/// The number of cells a leaf page records.
pub open spec fn num_cells_of(page: Seq<u8>) -> u32 {
    u32_at(page, LEAF_NODE_NUM_CELLS_OFFSET as int)
}

/// The page number of the leaf after this one; 0 for the last leaf.
pub open spec fn next_leaf_of(page: Seq<u8>) -> u32 {
    u32_at(page, LEAF_NODE_NEXT_LEAF_OFFSET as int)
}

/// The number of keys an internal page records.
pub open spec fn num_keys_of(page: Seq<u8>) -> u32 {
    u32_at(page, INTERNAL_NODE_NUM_KEYS_OFFSET as int)
}

/// The right child of an internal page.
pub open spec fn right_child_of(page: Seq<u8>) -> u32 {
    u32_at(page, INTERNAL_NODE_RIGHT_CHILD_OFFSET as int)
}

/// The bytes of leaf cell `i`: a key followed by a serialized row.
pub open spec fn leaf_cell_of(page: Seq<u8>, i: int) -> Seq<u8> {
    page.subrange(leaf_cell_offset(i), leaf_cell_offset(i) + LEAF_NODE_CELL_SIZE)
}

/// The key stored at the front of a leaf cell.
pub open spec fn cell_key(cell: Seq<u8>) -> u32 {
    spec_u32_from_le_bytes(cell.subrange(0, LEAF_NODE_KEY_SIZE as int))
}

/// The serialized row stored in a leaf cell.
pub open spec fn cell_value(cell: Seq<u8>) -> Seq<u8> {
    cell.subrange(LEAF_NODE_VALUE_OFFSET as int, LEAF_NODE_CELL_SIZE as int)
}

/// The key of cell `i` of a leaf, read from the page.
pub open spec fn leaf_key_of(page: Seq<u8>, i: int) -> u32 {
    u32_at(page, leaf_cell_offset(i))
}

/// The bytes of internal cell `i`: a child page number followed by a key.
pub open spec fn internal_cell_of(page: Seq<u8>, i: int) -> Seq<u8> {
    page.subrange(internal_cell_offset(i), internal_cell_offset(i) + INTERNAL_NODE_CELL_SIZE)
}

/// The child stored in cell `i` of an internal node.
pub open spec fn internal_child_of(page: Seq<u8>, i: int) -> u32 {
    u32_at(page, internal_cell_offset(i))
}

/// The key stored in cell `i` of an internal node.
pub open spec fn internal_key_of(page: Seq<u8>, i: int) -> u32 {
    u32_at(page, internal_cell_offset(i) + INTERNAL_NODE_CHILD_SIZE)
}

/// A leaf key read directly agrees with the key of its cell.
pub proof fn lemma_leaf_key_is_cell_key(page: Seq<u8>, i: int)
    requires
        page.len() == PAGE_SIZE,
        leaf_cell_fits(i),
    ensures
        leaf_key_of(page, i) == cell_key(leaf_cell_of(page, i)),
{
    assert(leaf_cell_of(page, i).subrange(0, 4) =~= page.subrange(
        leaf_cell_offset(i),
        leaf_cell_offset(i) + 4,
    ));
}

/// A header field or cell key reads back the value last written to it, and
/// writing one field leaves the others as they were.
pub proof fn lemma_node_fields_roundtrip(page: Seq<u8>, v: u32, i: int)
    requires
        page.len() == PAGE_SIZE,
        leaf_cell_fits(i),
    ensures
        num_cells_of(with_u32(page, LEAF_NODE_NUM_CELLS_OFFSET as int, v)) == v,
        next_leaf_of(with_u32(page, LEAF_NODE_NEXT_LEAF_OFFSET as int, v)) == v,
        parent_of(with_u32(page, PARENT_POINTER_OFFSET as int, v)) == v,
        num_keys_of(with_u32(page, INTERNAL_NODE_NUM_KEYS_OFFSET as int, v)) == v,
        right_child_of(with_u32(page, INTERNAL_NODE_RIGHT_CHILD_OFFSET as int, v)) == v,
        leaf_key_of(with_u32(page, leaf_cell_offset(i), v), i) == v,
        num_cells_of(with_u32(page, LEAF_NODE_NEXT_LEAF_OFFSET as int, v)) == num_cells_of(page),
        next_leaf_of(with_u32(page, LEAF_NODE_NUM_CELLS_OFFSET as int, v)) == next_leaf_of(page),
        parent_of(with_u32(page, LEAF_NODE_NUM_CELLS_OFFSET as int, v)) == parent_of(page),
        num_cells_of(with_u32(page, leaf_cell_offset(i), v)) == num_cells_of(page),
{
}

/// The number of cells of a leaf.
pub fn leaf_node_num_cells(node: &[u8]) -> (n: u32)
    requires
        node@.len() == PAGE_SIZE,
    ensures
        n == num_cells_of(node@),
{
    read_u32(node, LEAF_NODE_NUM_CELLS_OFFSET)
}

/// Store the number of cells of a leaf.
pub fn set_leaf_node_num_cells(node: &mut [u8], value: u32)
    requires
        old(node)@.len() == PAGE_SIZE,
    ensures
        final(node)@ == with_u32(old(node)@, LEAF_NODE_NUM_CELLS_OFFSET as int, value),
{
    write_u32(node, LEAF_NODE_NUM_CELLS_OFFSET, value);
}

/// The bytes of cell `cell_num` of a leaf.
pub fn leaf_node_cell(node: &[u8], cell_num: u32) -> (cell: &[u8])
    requires
        node@.len() == PAGE_SIZE,
        leaf_cell_fits(cell_num as int),
    ensures
        cell@ == leaf_cell_of(node@, cell_num as int),
{
    let start = LEAF_NODE_HEADER_SIZE + cell_num as usize * LEAF_NODE_CELL_SIZE;
    let end = start + LEAF_NODE_CELL_SIZE;
    slice_subrange(node, start, end)
}

/// The bytes of cell `cell_num` of a leaf, for writing.
pub fn leaf_node_cell_mut(node: &mut [u8], cell_num: u32) -> (cell: &mut [u8])
    requires
        old(node)@.len() == PAGE_SIZE,
        leaf_cell_fits(cell_num as int),
    ensures
        cell@ == leaf_cell_of(old(node)@, cell_num as int),
        final(cell)@.len() == LEAF_NODE_CELL_SIZE,
        final(node)@ == splice(old(node)@, leaf_cell_offset(cell_num as int), final(cell)@),
{
    let start = LEAF_NODE_HEADER_SIZE + cell_num as usize * LEAF_NODE_CELL_SIZE;
    let end = start + LEAF_NODE_CELL_SIZE;
    subslice_mut(node, start, end)
}

/// The key of cell `cell_num` of a leaf.
pub fn leaf_node_key(node: &[u8], cell_num: u32) -> (key: u32)
    requires
        node@.len() == PAGE_SIZE,
        leaf_cell_fits(cell_num as int),
    ensures
        key == leaf_key_of(node@, cell_num as int),
{
    let start = LEAF_NODE_HEADER_SIZE + cell_num as usize * LEAF_NODE_CELL_SIZE
        + LEAF_NODE_KEY_OFFSET;
    read_u32(node, start)
}

/// Store the key of cell `cell_num` of a leaf.
pub fn set_leaf_node_key(node: &mut [u8], cell_num: u32, value: u32)
    requires
        old(node)@.len() == PAGE_SIZE,
        leaf_cell_fits(cell_num as int),
    ensures
        final(node)@ == with_u32(old(node)@, leaf_cell_offset(cell_num as int), value),
{
    let start = LEAF_NODE_HEADER_SIZE + cell_num as usize * LEAF_NODE_CELL_SIZE
        + LEAF_NODE_KEY_OFFSET;
    write_u32(node, start, value);
}

/// The serialized row in cell `cell_num` of a leaf.
pub fn leaf_node_value(node: &[u8], cell_num: u32) -> (value: &[u8])
    requires
        node@.len() == PAGE_SIZE,
        leaf_cell_fits(cell_num as int),
    ensures
        value@ == cell_value(leaf_cell_of(node@, cell_num as int)),
{
    let start = LEAF_NODE_HEADER_SIZE + cell_num as usize * LEAF_NODE_CELL_SIZE
        + LEAF_NODE_VALUE_OFFSET;
    let end = start + LEAF_NODE_VALUE_SIZE;
    proof {
        assert(node@.subrange(start as int, end as int) =~= cell_value(
            leaf_cell_of(node@, cell_num as int),
        ));
    }
    slice_subrange(node, start, end)
}

/// The serialized row in cell `cell_num` of a leaf, for writing.
pub fn leaf_node_value_mut(node: &mut [u8], cell_num: u32) -> (value: &mut [u8])
    requires
        old(node)@.len() == PAGE_SIZE,
        leaf_cell_fits(cell_num as int),
    ensures
        value@ == cell_value(leaf_cell_of(old(node)@, cell_num as int)),
        final(value)@.len() == LEAF_NODE_VALUE_SIZE,
        final(node)@ == splice(
            old(node)@,
            leaf_cell_offset(cell_num as int) + LEAF_NODE_VALUE_OFFSET,
            final(value)@,
        ),
{
    let start = LEAF_NODE_HEADER_SIZE + cell_num as usize * LEAF_NODE_CELL_SIZE
        + LEAF_NODE_VALUE_OFFSET;
    let end = start + LEAF_NODE_VALUE_SIZE;
    proof {
        assert(old(node)@.subrange(start as int, end as int) =~= cell_value(
            leaf_cell_of(old(node)@, cell_num as int),
        ));
    }
    subslice_mut(node, start, end)
}

/// Store the node type of a page.
pub fn set_node_type(node: &mut [u8], node_type: NodeType)
    requires
        old(node)@.len() == PAGE_SIZE,
    ensures
        final(node)@ == old(node)@.update(NODE_TYPE_OFFSET as int, node_type_byte(node_type)),
{
    node[NODE_TYPE_OFFSET] = match node_type {
        NodeType::InternalNode => 0,
        NodeType::LeafNode => 1,
        NodeType::RootNode => 2,
    };
}

/// Read the node type; a byte that names no type is left out by `requires`.
pub fn get_node_type(node: &[u8]) -> (t: NodeType)
    requires
        node@.len() == PAGE_SIZE,
        node_type_of(node@) <= 2,
    ensures
        node_type_byte(t) == node_type_of(node@),
{
    let value = node[NODE_TYPE_OFFSET];
    if value == 0 {
        NodeType::InternalNode
    } else if value == 1 {
        NodeType::LeafNode
    } else {
        NodeType::RootNode
    }
}

/// Whether the node is marked as the root.
pub fn is_node_root(node: &[u8]) -> (r: bool)
    requires
        node@.len() == PAGE_SIZE,
    ensures
        r == is_root_of(node@),
{
    node[IS_ROOT_OFFSET] != 0
}

/// Mark the node as the root or not.
pub fn set_node_root(node: &mut [u8], is_root: bool)
    requires
        old(node)@.len() == PAGE_SIZE,
    ensures
        final(node)@ == old(node)@.update(IS_ROOT_OFFSET as int, if is_root { 1u8 } else { 0u8 }),
{
    let value: u8 = if is_root {
        1
    } else {
        0
    };
    node[IS_ROOT_OFFSET] = value;
}

/// The bytes of `page` after `initialize_leaf_node`.
pub open spec fn initialized_leaf(page: Seq<u8>) -> Seq<u8> {
    with_u32(
        with_u32(
            page.update(NODE_TYPE_OFFSET as int, 1u8).update(IS_ROOT_OFFSET as int, 0u8),
            LEAF_NODE_NUM_CELLS_OFFSET as int,
            0,
        ),
        LEAF_NODE_NEXT_LEAF_OFFSET as int,
        0,
    )
}

/// The page of a new, empty table: a root leaf with no cells.
pub open spec fn empty_root_page() -> Seq<u8> {
    initialized_leaf(Seq::new(PAGE_SIZE as nat, |i: int| 0u8)).update(IS_ROOT_OFFSET as int, 1u8)
}

/// The fields of the empty root page.
pub proof fn lemma_empty_root_page()
    ensures
        empty_root_page().len() == PAGE_SIZE,
        node_type_of(empty_root_page()) == 1,
        is_root_of(empty_root_page()),
        num_cells_of(empty_root_page()) == 0,
        next_leaf_of(empty_root_page()) == 0,
{
    let z = Seq::new(PAGE_SIZE as nat, |i: int| 0u8);
    let p1 = z.update(NODE_TYPE_OFFSET as int, 1u8).update(IS_ROOT_OFFSET as int, 0u8);
    let p2 = with_u32(p1, LEAF_NODE_NUM_CELLS_OFFSET as int, 0);
    let p3 = with_u32(p2, LEAF_NODE_NEXT_LEAF_OFFSET as int, 0);
    let page = empty_root_page();
    assert(u32_at(p2, 6) == 0);
    assert(u32_at(p3, 6) == 0);
    assert(u32_at(p3, 10) == 0);
    assert(page.subrange(6, 10) =~= p3.subrange(6, 10));
    assert(page.subrange(10, 14) =~= p3.subrange(10, 14));
    assert(page[0] == p3[0]);
}

/// Make the page an empty leaf that is not the root and has no next leaf.
pub fn initialize_leaf_node(node: &mut [u8])
    requires
        old(node)@.len() == PAGE_SIZE,
    ensures
        final(node)@ == initialized_leaf(old(node)@),
{
    set_node_type(node, NodeType::LeafNode);
    set_node_root(node, false);
    set_leaf_node_num_cells(node, 0);
    set_leaf_node_next_leaf(node, 0);
}

/// The bytes of `page` after `initialize_internal_node`.
pub open spec fn initialized_internal(page: Seq<u8>) -> Seq<u8> {
    with_u32(
        page.update(NODE_TYPE_OFFSET as int, 0u8).update(IS_ROOT_OFFSET as int, 0u8),
        INTERNAL_NODE_NUM_KEYS_OFFSET as int,
        0,
    )
}

/// Make the page an internal node with no keys that is not the root.
pub fn initialize_internal_node(node: &mut [u8])
    requires
        old(node)@.len() == PAGE_SIZE,
    ensures
        final(node)@ == initialized_internal(old(node)@),
{
    set_node_type(node, NodeType::InternalNode);
    set_node_root(node, false);
    set_internal_node_num_keys(node, 0);
}

/// The number of keys of an internal node.
pub fn internal_node_num_keys(node: &[u8]) -> (n: u32)
    requires
        node@.len() == PAGE_SIZE,
    ensures
        n == num_keys_of(node@),
{
    read_u32(node, INTERNAL_NODE_NUM_KEYS_OFFSET)
}

/// Store the number of keys of an internal node.
pub fn set_internal_node_num_keys(node: &mut [u8], num_keys: u32)
    requires
        old(node)@.len() == PAGE_SIZE,
    ensures
        final(node)@ == with_u32(old(node)@, INTERNAL_NODE_NUM_KEYS_OFFSET as int, num_keys),
{
    write_u32(node, INTERNAL_NODE_NUM_KEYS_OFFSET, num_keys);
}

/// The bytes of the right child of an internal node.
pub fn internal_node_right_child(node: &[u8]) -> (bytes: &[u8])
    requires
        node@.len() == PAGE_SIZE,
    ensures
        bytes@ == node@.subrange(
            INTERNAL_NODE_RIGHT_CHILD_OFFSET as int,
            INTERNAL_NODE_RIGHT_CHILD_OFFSET + INTERNAL_NODE_RIGHT_CHILD_SIZE,
        ),
        spec_u32_from_le_bytes(bytes@) == right_child_of(node@),
{
    let start = INTERNAL_NODE_RIGHT_CHILD_OFFSET;
    let end = start + INTERNAL_NODE_RIGHT_CHILD_SIZE;
    slice_subrange(node, start, end)
}

/// Store the right child of an internal node.
pub fn set_internal_node_right_child(node: &mut [u8], value: u32)
    requires
        old(node)@.len() == PAGE_SIZE,
    ensures
        final(node)@ == with_u32(old(node)@, INTERNAL_NODE_RIGHT_CHILD_OFFSET as int, value),
{
    write_u32(node, INTERNAL_NODE_RIGHT_CHILD_OFFSET, value);
}

/// The bytes of the right child of an internal node, for writing.
pub fn internal_node_right_child_mut(node: &mut [u8]) -> (bytes: &mut [u8])
    requires
        old(node)@.len() == PAGE_SIZE,
    ensures
        bytes@ == old(node)@.subrange(
            INTERNAL_NODE_RIGHT_CHILD_OFFSET as int,
            INTERNAL_NODE_RIGHT_CHILD_OFFSET + INTERNAL_NODE_RIGHT_CHILD_SIZE,
        ),
        final(bytes)@.len() == INTERNAL_NODE_RIGHT_CHILD_SIZE,
        final(node)@ == splice(old(node)@, INTERNAL_NODE_RIGHT_CHILD_OFFSET as int, final(bytes)@),
{
    let start = INTERNAL_NODE_RIGHT_CHILD_OFFSET;
    let end = start + INTERNAL_NODE_RIGHT_CHILD_SIZE;
    subslice_mut(node, start, end)
}

/// The bytes of cell `cell_num` of an internal node: a child, then a key.
pub fn internal_node_cell(node: &[u8], cell_num: u32) -> (cell: &[u8])
    requires
        node@.len() == PAGE_SIZE,
        internal_cell_fits(cell_num as int),
    ensures
        cell@ == internal_cell_of(node@, cell_num as int),
{
    let start = INTERNAL_NODE_HEADER_SIZE + cell_num as usize * INTERNAL_NODE_CELL_SIZE;
    let end = start + INTERNAL_NODE_CELL_SIZE;
    slice_subrange(node, start, end)
}

/// The bytes of cell `cell_num` of an internal node, for writing.
pub fn internal_node_cell_mut(node: &mut [u8], cell_num: u32) -> (cell: &mut [u8])
    requires
        old(node)@.len() == PAGE_SIZE,
        internal_cell_fits(cell_num as int),
    ensures
        cell@ == internal_cell_of(old(node)@, cell_num as int),
        final(cell)@.len() == INTERNAL_NODE_CELL_SIZE,
        final(node)@ == splice(old(node)@, internal_cell_offset(cell_num as int), final(cell)@),
{
    let start = INTERNAL_NODE_HEADER_SIZE + cell_num as usize * INTERNAL_NODE_CELL_SIZE;
    let end = start + INTERNAL_NODE_CELL_SIZE;
    subslice_mut(node, start, end)
}

/// Key `key_num` of an internal node.
pub fn internal_node_key(node: &[u8], key_num: u32) -> (key: u32)
    requires
        node@.len() == PAGE_SIZE,
        internal_cell_fits(key_num as int),
    ensures
        key == internal_key_of(node@, key_num as int),
{
    let start = INTERNAL_NODE_HEADER_SIZE + key_num as usize * INTERNAL_NODE_CELL_SIZE
        + INTERNAL_NODE_CHILD_SIZE;
    read_u32(node, start)
}

/// Store key `key_num` of an internal node.
pub fn set_internal_node_key(node: &mut [u8], key_num: u32, value: u32)
    requires
        old(node)@.len() == PAGE_SIZE,
        internal_cell_fits(key_num as int),
    ensures
        final(node)@ == with_u32(
            old(node)@,
            internal_cell_offset(key_num as int) + INTERNAL_NODE_CHILD_SIZE,
            value,
        ),
{
    let start = INTERNAL_NODE_HEADER_SIZE + key_num as usize * INTERNAL_NODE_CELL_SIZE
        + INTERNAL_NODE_CHILD_SIZE;
    write_u32(node, start, value);
}

/// Read the child page number stored in internal cell `child_num`.
pub fn internal_node_cell_child(node: &[u8], child_num: u32) -> (child: u32)
    requires
        node@.len() == PAGE_SIZE,
        internal_cell_fits(child_num as int),
    ensures
        child == internal_child_of(node@, child_num as int),
{
    let start = INTERNAL_NODE_HEADER_SIZE + child_num as usize * INTERNAL_NODE_CELL_SIZE;
    read_u32(node, start)
}

/// Store a child page number in internal cell `child_num`.
pub fn set_internal_node_cell_child(node: &mut [u8], child_num: u32, value: u32)
    requires
        old(node)@.len() == PAGE_SIZE,
        internal_cell_fits(child_num as int),
    ensures
        final(node)@ == with_u32(old(node)@, internal_cell_offset(child_num as int), value),
{
    let start = INTERNAL_NODE_HEADER_SIZE + child_num as usize * INTERNAL_NODE_CELL_SIZE;
    write_u32(node, start, value);
}

/// The page number of the leaf after this one; 0 for the last leaf.
pub fn leaf_node_next_leaf(node: &[u8]) -> (next: u32)
    requires
        node@.len() == PAGE_SIZE,
    ensures
        next == next_leaf_of(node@),
{
    read_u32(node, LEAF_NODE_NEXT_LEAF_OFFSET)
}

/// Store the page number of the leaf after this one.
pub fn set_leaf_node_next_leaf(node: &mut [u8], value: u32)
    requires
        old(node)@.len() == PAGE_SIZE,
    ensures
        final(node)@ == with_u32(old(node)@, LEAF_NODE_NEXT_LEAF_OFFSET as int, value),
{
    write_u32(node, LEAF_NODE_NEXT_LEAF_OFFSET, value);
}

/// The parent page number of a node.
pub fn node_parent(node: &[u8]) -> (parent: u32)
    requires
        node@.len() == PAGE_SIZE,
    ensures
        parent == parent_of(node@),
{
    read_u32(node, PARENT_POINTER_OFFSET)
}

/// Store the parent page number of a node.
pub fn set_node_parent(node: &mut [u8], value: u32)
    requires
        old(node)@.len() == PAGE_SIZE,
    ensures
        final(node)@ == with_u32(old(node)@, PARENT_POINTER_OFFSET as int, value),
{
    write_u32(node, PARENT_POINTER_OFFSET, value);
}

/// Index of the child that should contain `key`: the first key at or above
/// `key`, or the number of keys (the right child) when every key is below it.
pub fn internal_node_find_child(node: &[u8], key: u32) -> (index: u32)
    requires
        node@.len() == PAGE_SIZE,
        internal_cell_offset(num_keys_of(node@) as int) <= PAGE_SIZE,
    ensures
        index <= num_keys_of(node@),
        index == 0 || internal_key_of(node@, index - 1) < key,
        index == num_keys_of(node@) || internal_key_of(node@, index as int) >= key,
        keys_sorted(node_keys(node@)) ==> index == child_index(node_keys(node@), key),
{
    let num_keys = internal_node_num_keys(node);
    let mut min_index: u32 = 0;
    let mut max_index: u32 = num_keys;
    while min_index != max_index
        invariant
            node@.len() == PAGE_SIZE,
            num_keys == num_keys_of(node@),
            internal_cell_offset(num_keys as int) <= PAGE_SIZE,
            min_index <= max_index <= num_keys,
            min_index == 0 || internal_key_of(node@, min_index - 1) < key,
            max_index == num_keys || internal_key_of(node@, max_index as int) >= key,
        decreases max_index - min_index,
    {
        let index = min_index + (max_index - min_index) / 2;
        let key_to_right = internal_node_key(node, index);
        if key_to_right >= key {
            max_index = index;
        } else {
            min_index = index + 1;
        }
    }
    proof {
        let keys = node_keys(node@);
        if keys_sorted(keys) {
            lemma_child_index_unique(keys, key, min_index as int);
        }
    }
    min_index
}

/// Replace the key of the child that `old_key` leads to with `new_key`.
pub fn update_internal_node_key(node: &mut [u8], old_key: u32, new_key: u32)
    requires
        old(node)@.len() == PAGE_SIZE,
        internal_cell_fits(num_keys_of(old(node)@) as int),
    ensures
        exists|i: u32|
            {
                &&& i <= num_keys_of(old(node)@)
                &&& (i == 0 || internal_key_of(old(node)@, i - 1) < old_key)
                &&& (i == num_keys_of(old(node)@) || internal_key_of(old(node)@, i as int)
                    >= old_key)
                &&& final(node)@ == with_u32(
                    old(node)@,
                    internal_cell_offset(i as int) + INTERNAL_NODE_CHILD_SIZE,
                    new_key,
                )
                &&& keys_sorted(node_keys(old(node)@)) ==> i == child_index(node_keys(old(node)@), old_key)
            },
{
    let old_child_index = internal_node_find_child(node, old_key);
    set_internal_node_key(node, old_child_index, new_key);
}

/// Child `child_num` of an internal node: a cell's child, or the right
/// child for `child_num == num_keys`. A larger `child_num` is left out by
/// `requires`.
pub fn internal_node_child(node: &[u8], child_num: u32) -> (child: u32)
    requires
        node@.len() == PAGE_SIZE,
        child_num <= num_keys_of(node@),
        internal_cell_fits(child_num as int) || child_num == num_keys_of(node@),
    ensures
        child == if child_num == num_keys_of(node@) {
            right_child_of(node@)
        } else {
            internal_child_of(node@, child_num as int)
        },
{
    let num_keys = internal_node_num_keys(node);
    if child_num == num_keys {
        read_u32(node, INTERNAL_NODE_RIGHT_CHILD_OFFSET)
    } else {
        internal_node_cell_child(node, child_num)
    }
}

/// Store `value` as child `child_num` of an internal node: in a cell, or as
/// the right child for `child_num == num_keys`.
pub fn set_internal_node_child(node: &mut [u8], child_num: u32, value: u32)
    requires
        old(node)@.len() == PAGE_SIZE,
        child_num <= num_keys_of(old(node)@),
        internal_cell_fits(child_num as int) || child_num == num_keys_of(old(node)@),
    ensures
        final(node)@ == if child_num == num_keys_of(old(node)@) {
            with_u32(old(node)@, INTERNAL_NODE_RIGHT_CHILD_OFFSET as int, value)
        } else {
            with_u32(old(node)@, internal_cell_offset(child_num as int), value)
        },
{
    let num_keys = internal_node_num_keys(node);
    if child_num == num_keys {
        set_internal_node_right_child(node, value);
    } else {
        set_internal_node_cell_child(node, child_num, value);
    }
}

} // verus!
