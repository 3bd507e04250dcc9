//! Searching and inserting in the B-tree held by the pager.
use vstd::prelude::*;
use vstd::bytes::spec_u32_to_le_bytes;
use crate::bytes::{copy_bytes, group_splice, lemma_with_u32_read, splice};
use crate::constants::{
    lemma_layout_values, INTERNAL_NODE_MAX_CELLS, LEAF_NODE_CELL_SIZE, LEAF_NODE_LEFT_SPLIT_COUNT,
    LEAF_NODE_MAX_CELLS, PAGE_SIZE, ROW_SIZE, TABLE_MAX_PAGES,
};
use crate::node::{
    cell_key, get_node_type, initialize_internal_node, initialize_leaf_node, internal_child_of,
    internal_key_of, internal_node_child, internal_node_find_child, internal_node_key,
    internal_node_num_keys, is_root_of, leaf_cell_of, leaf_cell_offset, leaf_key_of, leaf_node_cell,
    leaf_node_cell_mut, leaf_node_key, leaf_node_next_leaf, leaf_node_num_cells,
    lemma_leaf_key_is_cell_key, next_leaf_of, node_parent, node_type_of, num_cells_of, num_keys_of,
    parent_of, right_child_of, set_internal_node_cell_child, set_internal_node_key,
    set_internal_node_num_keys, set_internal_node_right_child, set_leaf_node_next_leaf,
    set_leaf_node_num_cells, set_node_parent, set_node_root, NodeType,
};
use crate::pager::Pager;
use crate::shape::{
    insert_shape, lemma_kids_shapes_index, lemma_shape_absorbs, lemma_shape_child_grew,
    lemma_shape_max, lemma_shape_splits, shape,
};
use crate::parents::{
    kid_parent_ok, lemma_kids_parents_forall, lemma_parents_absorbs, lemma_parents_child_grew,
    lemma_parents_splits, parents_ok,
};
use crate::row::{lemma_row_bytes_len, row_bytes, serialize_row, Row};
use crate::tree::{lemma_height_unique, 
    cell_keys, child_index, child_split_post, content_eq, find_leaf, first_leaf, insert_sorted,
    keys_sorted, kid_hi, kid_lo, kid_next, kid_ok, leaf_cells, lemma_cells_split_ok,
    lemma_child_grew, lemma_child_index, lemma_child_index_unique, lemma_descend,
    lemma_insert_sorted_ok, lemma_kids_pages_member, lemma_kids_wf_forall, lemma_leaf_found,
    lemma_new_root, lemma_parent_absorbs, lemma_parent_splits, lemma_split_halves,
    lemma_sub_cells_nonempty, lemma_sub_cells_ok, lemma_sub_page_set_bounds, max_key, node_keys, node_kids, path_alloc,
    path_splits, split_keys, split_kids, sub_cells, sub_page_set, sub_wf, tree_cells, tree_wf,
    unchanged_outside, within_or_new,
};

verus! {

broadcast use group_splice, lemma_with_u32_read;

/// The cell that stores `row` under `key`.
pub open spec fn new_cell(key: u32, row: Row) -> Seq<u8> {
    spec_u32_to_le_bytes(key) + row_bytes(row)
}

/// The views of a list of byte vectors.
pub open spec fn views(cells: Seq<Vec<u8>>) -> Seq<Seq<u8>> {
    cells.map_values(|c: Vec<u8>| c@)
}

/// Build the cell that stores `row` under `key`.
pub fn make_cell(key: u32, row: &Row) -> (cell: Vec<u8>)
    ensures
        cell@ == new_cell(key, *row),
        cell@.len() == LEAF_NODE_CELL_SIZE,
        cell_key(cell@) == key,
{
    proof {
        vstd::bytes::lemma_auto_spec_u32_to_from_le_bytes();
        lemma_row_bytes_len(*row);
    }
    let mut cell: Vec<u8> = vstd::bytes::u32_to_le_bytes(key);
    let mut value: Vec<u8> = Vec::new();
    let mut i: usize = 0;
    while i < ROW_SIZE
        invariant
            value@.len() == i,
            i <= ROW_SIZE,
            forall|j: int| 0 <= j < i ==> value@[j] == 0,
        decreases ROW_SIZE - i,
    {
        value.push(0);
        i += 1;
    }
    serialize_row(row, value.as_mut_slice());
    proof {
        assert(value@ =~= row_bytes(*row));
    }
    let ghost c0 = cell@;
    cell.append(&mut value);
    proof {
        assert(cell@ =~= new_cell(key, *row));
        assert(cell@.subrange(0, 4) =~= c0);
    }
    cell
}

/// The cells of a leaf, copied out.
pub fn read_leaf_cells(page: &[u8]) -> (cells: Vec<Vec<u8>>)
    requires
        page@.len() == PAGE_SIZE,
        num_cells_of(page@) <= LEAF_NODE_MAX_CELLS,
    ensures
        views(cells@) == leaf_cells(page@),
        forall|i: int| 0 <= i < cells@.len() ==> #[trigger] cells@[i]@.len() == LEAF_NODE_CELL_SIZE,
{
    proof {
        lemma_layout_values();
    }
    let n = leaf_node_num_cells(page);
    let mut cells: Vec<Vec<u8>> = Vec::new();
    let mut i: u32 = 0;
    while i < n
        invariant
            page@.len() == PAGE_SIZE,
            n == num_cells_of(page@),
            n <= LEAF_NODE_MAX_CELLS,
            LEAF_NODE_MAX_CELLS == 13,
            i <= n,
            cells@.len() == i,
            forall|j: int| 0 <= j < i ==> #[trigger] cells@[j]@ == leaf_cell_of(page@, j),
            forall|j: int| 0 <= j < i ==> #[trigger] cells@[j]@.len() == LEAF_NODE_CELL_SIZE,
        decreases n - i,
    {
        let cell = leaf_node_cell(page, i);
        cells.push(vstd::slice::slice_to_vec(cell));
        i += 1;
    }
    proof {
        assert(views(cells@) =~= leaf_cells(page@));
    }
    cells
}

/// Store `cells` as the cells of a leaf, and their number as its cell count.
pub fn write_leaf_cells(page: &mut [u8], cells: &Vec<Vec<u8>>)
    requires
        old(page)@.len() == PAGE_SIZE,
        cells@.len() <= LEAF_NODE_MAX_CELLS,
        forall|i: int| 0 <= i < cells@.len() ==> #[trigger] cells@[i]@.len() == LEAF_NODE_CELL_SIZE,
    ensures
        final(page)@.len() == PAGE_SIZE,
        leaf_cells(final(page)@) == views(cells@),
        final(page)@.subrange(0, 6) == old(page)@.subrange(0, 6),
        next_leaf_of(final(page)@) == next_leaf_of(old(page)@),
        node_type_of(final(page)@) == node_type_of(old(page)@),
        is_root_of(final(page)@) == is_root_of(old(page)@),
        parent_of(final(page)@) == parent_of(old(page)@),
{
    proof {
        lemma_layout_values();
    }
    let n = cells.len();
    set_leaf_node_num_cells(page, n as u32);
    let ghost p1 = page@;
    let mut i: usize = 0;
    while i < n
        invariant
            page@.len() == PAGE_SIZE,
            n == cells@.len(),
            n <= LEAF_NODE_MAX_CELLS,
            LEAF_NODE_MAX_CELLS == 13,
            i <= n,
            forall|k: int| 0 <= k < n ==> #[trigger] cells@[k]@.len() == LEAF_NODE_CELL_SIZE,
            page@.subrange(0, 14) == p1.subrange(0, 14),
            num_cells_of(p1) == n,
            forall|j: int| 0 <= j < i ==> #[trigger] leaf_cell_of(page@, j) == cells@[j]@,
        decreases n - i,
    {
        let ghost before = page@;
        {
            let dest = leaf_node_cell_mut(page, i as u32);
            copy_bytes(dest, cells[i].as_slice());
        }
        proof {
            assert(page@ == splice(before, leaf_cell_offset(i as int), cells@[i as int]@));
            assert forall|j: int| 0 <= j < i + 1 implies #[trigger] leaf_cell_of(page@, j)
                == cells@[j]@ by {
                if j < i {
                    assert(leaf_cell_of(before, j) == cells@[j]@);
                }
            }
            assert(page@.subrange(0, 14) =~= before.subrange(0, 14));
        }
        i += 1;
    }
    proof {
        let fin = page@;
        assert(fin.subrange(6, 10) =~= fin.subrange(0, 14).subrange(6, 10));
        assert(p1.subrange(6, 10) =~= p1.subrange(0, 14).subrange(6, 10));
        assert(fin.subrange(10, 14) =~= fin.subrange(0, 14).subrange(10, 14));
        assert(p1.subrange(10, 14) =~= p1.subrange(0, 14).subrange(10, 14));
        assert(old(page)@.subrange(10, 14) =~= p1.subrange(10, 14));
        assert(fin.subrange(2, 6) =~= fin.subrange(0, 14).subrange(2, 6));
        assert(p1.subrange(2, 6) =~= p1.subrange(0, 14).subrange(2, 6));
        assert(old(page)@.subrange(2, 6) =~= p1.subrange(2, 6));
        assert(fin[0] == fin.subrange(0, 14)[0]);
        assert(fin[1] == fin.subrange(0, 14)[1]);
        assert(num_cells_of(fin) == n);
        assert(leaf_cells(fin) =~= views(cells@));
        assert(fin.subrange(0, 6) =~= old(page)@.subrange(0, 6));
    }
}

/// The children and keys of an internal node, copied out.
pub fn read_internal(page: &[u8]) -> (r: (Vec<u32>, Vec<u32>))
    requires
        page@.len() == PAGE_SIZE,
        num_keys_of(page@) <= INTERNAL_NODE_MAX_CELLS,
    ensures
        r.0@ == node_kids(page@),
        r.1@ == node_keys(page@),
{
    let n = internal_node_num_keys(page);
    let mut kids: Vec<u32> = Vec::new();
    let mut keys: Vec<u32> = Vec::new();
    let mut i: u32 = 0;
    while i < n
        invariant
            page@.len() == PAGE_SIZE,
            n == num_keys_of(page@),
            n <= INTERNAL_NODE_MAX_CELLS,
            i <= n,
            kids@.len() == i,
            keys@.len() == i,
            forall|j: int| 0 <= j < i ==> #[trigger] kids@[j] == internal_child_of(page@, j),
            forall|j: int| 0 <= j < i ==> #[trigger] keys@[j] == internal_key_of(page@, j),
        decreases n - i,
    {
        kids.push(internal_node_child(page, i));
        keys.push(internal_node_key(page, i));
        i += 1;
    }
    kids.push(internal_node_child(page, n));
    proof {
        assert(kids@ =~= node_kids(page@));
        assert(keys@ =~= node_keys(page@));
    }
    (kids, keys)
}

/// Store `kids` and `keys` as the children and keys of an internal node.
pub fn write_internal(page: &mut [u8], kids: &Vec<u32>, keys: &Vec<u32>)
    requires
        old(page)@.len() == PAGE_SIZE,
        keys@.len() <= INTERNAL_NODE_MAX_CELLS,
        kids@.len() == keys@.len() + 1,
    ensures
        final(page)@.len() == PAGE_SIZE,
        node_kids(final(page)@) == kids@,
        node_keys(final(page)@) == keys@,
        final(page)@.subrange(0, 6) == old(page)@.subrange(0, 6),
        node_type_of(final(page)@) == node_type_of(old(page)@),
        is_root_of(final(page)@) == is_root_of(old(page)@),
        parent_of(final(page)@) == parent_of(old(page)@),
{
    let n = keys.len();
    set_internal_node_num_keys(page, n as u32);
    let mut i: usize = 0;
    while i < n
        invariant
            page@.len() == PAGE_SIZE,
            n == keys@.len(),
            n <= INTERNAL_NODE_MAX_CELLS,
            kids@.len() == n + 1,
            i <= n,
            num_keys_of(page@) == n,
            page@.subrange(0, 6) == old(page)@.subrange(0, 6),
            forall|j: int| 0 <= j < i ==> #[trigger] internal_child_of(page@, j) == kids@[j],
            forall|j: int| 0 <= j < i ==> #[trigger] internal_key_of(page@, j) == keys@[j],
        decreases n - i,
    {
        let ghost before = page@;
        set_internal_node_cell_child(page, i as u32, kids[i]);
        set_internal_node_key(page, i as u32, keys[i]);
        proof {
            assert(page@.subrange(0, 6) =~= before.subrange(0, 6));
            assert forall|j: int| 0 <= j < i + 1 implies #[trigger] internal_child_of(page@, j)
                == kids@[j] && internal_key_of(page@, j) == keys@[j] by {
                if j < i {
                    assert(internal_child_of(before, j) == kids@[j]);
                    assert(internal_key_of(before, j) == keys@[j]);
                }
            }
            assert forall|j: int| 0 <= j < i + 1 implies #[trigger] internal_key_of(page@, j)
                == keys@[j] by {
                assert(internal_child_of(page@, j) == kids@[j]);
            }
        }
        i += 1;
    }
    let ghost before = page@;
    set_internal_node_right_child(page, kids[n]);
    proof {
        let fin = page@;
        assert(fin.subrange(0, 6) =~= before.subrange(0, 6));
        assert(num_keys_of(fin) == n);
        assert forall|j: int| 0 <= j < n implies #[trigger] internal_child_of(fin, j) == kids@[j]
            && internal_key_of(fin, j) == keys@[j] by {
            assert(internal_child_of(before, j) == kids@[j]);
            assert(internal_key_of(before, j) == keys@[j]);
        }
        assert forall|j: int| 0 <= j < n implies #[trigger] internal_key_of(fin, j) == keys@[j] by {
            assert(internal_child_of(fin, j) == kids@[j]);
        }
        assert(right_child_of(fin) == kids@[n as int]);
        assert(node_kids(fin) =~= kids@);
        assert(node_keys(fin) =~= keys@);
        assert(fin[0] == fin.subrange(0, 6)[0]);
        assert(old(page)@[0] == old(page)@.subrange(0, 6)[0]);
        assert(fin[1] == fin.subrange(0, 6)[1]);
        assert(old(page)@[1] == old(page)@.subrange(0, 6)[1]);
        assert(fin.subrange(2, 6) =~= fin.subrange(0, 6).subrange(2, 6));
        assert(old(page)@.subrange(2, 6) =~= old(page)@.subrange(0, 6).subrange(2, 6));
    }
}

/// A position in the table: a cell of a leaf, or the end of the table.
pub struct Cursor {
    pub page_num: u32,
    pub cell_num: u32,
    pub end_of_table: bool,
}

/// The largest key in the subtree of height `h` at page `page_num`,
/// found by following right children down to a leaf.
pub fn get_node_max_key(
    pager: &Pager,
    page_num: u32,
    Ghost(h): Ghost<nat>,
    Ghost(lo): Ghost<int>,
    Ghost(hi): Ghost<int>,
    Ghost(next): Ghost<int>,
    Ghost(root): Ghost<bool>,
) -> (key: u32)
    requires
        pager.wf(),
        sub_wf(pager@, page_num as int, h, lo, hi, next, root),
        sub_cells(pager@, page_num as int, h).len() > 0,
    ensures
        key == max_key(sub_cells(pager@, page_num as int, h)),
{
    let mut p = page_num;
    let ghost mut hh = h;
    let ghost mut l = lo;
    let ghost mut u = hi;
    let ghost mut nx = next;
    let ghost mut r = root;
    loop
        invariant
            pager.wf(),
            sub_wf(pager@, p as int, hh, l, u, nx, r),
            sub_cells(pager@, p as int, hh).len() > 0,
            max_key(sub_cells(pager@, page_num as int, h)) == max_key(
                sub_cells(pager@, p as int, hh),
            ),
        decreases hh,
    {
        proof {
            pager.lemma_wf();
            lemma_layout_values();
        }
        let page = pager.page(p);
        match get_node_type(&page) {
            NodeType::LeafNode => {
                assert(hh == 0);
                let n = leaf_node_num_cells(&page);
                proof {
                    lemma_leaf_key_is_cell_key(page@, n - 1);
                    assert(leaf_cells(page@)[n - 1] == leaf_cell_of(page@, n - 1));
                }
                return leaf_node_key(&page, n - 1);
            },
            _ => {
                assert(hh > 0);
                let n = internal_node_num_keys(&page);
                let child = internal_node_child(&page, n);
                proof {
                    let keys = node_keys(page@);
                    let kids = node_kids(page@);
                    let hc = (hh - 1) as nat;
                    lemma_sub_cells_ok(pager@, p as int, hh, l, u, nx, r);
                    lemma_kids_wf_forall(pager@, kids, keys, hc, l, u, nx, p as int, kids.len());
                    assert(kid_ok(pager@, kids, keys, hc, l, u, nx, p as int, n as int));
                    lemma_sub_cells_ok(
                        pager@,
                        child as int,
                        hc,
                        kid_lo(keys, l, n as int),
                        kid_hi(keys, u, n as int),
                        kid_next(pager@, kids, hc, nx, n as int),
                        false,
                    );
                    l = kid_lo(keys, l, n as int);
                    u = kid_hi(keys, u, n as int);
                    nx = kid_next(pager@, kids, hc, nx, n as int);
                    r = false;
                    hh = hc;
                }
                p = child;
            },
        }
    }
}

/// Position of `key` in a leaf: the first cell whose key is at or above it.
pub fn leaf_node_find(pager: &Pager, page_num: u32, key: u32, Ghost(lo): Ghost<int>, Ghost(hi): Ghost<int>, Ghost(next): Ghost<int>, Ghost(root): Ghost<bool>) -> (cursor: Cursor)
    requires
        pager.wf(),
        sub_wf(pager@, page_num as int, 0, lo, hi, next, root),
    ensures
        cursor.page_num == page_num,
        !cursor.end_of_table,
        cursor.cell_num == child_index(cell_keys(leaf_cells(pager@[page_num as int])), key),
{
    proof {
        pager.lemma_wf();
        lemma_layout_values();
    }
    let page = pager.page(page_num);
    let ghost ks = cell_keys(leaf_cells(page@));
    let num_cells = leaf_node_num_cells(&page);
    assert forall|i: int| 0 <= i < num_cells implies #[trigger] ks[i] == leaf_key_of(page@, i) by {
        lemma_leaf_key_is_cell_key(page@, i);
    }
    let mut min_index: u32 = 0;
    let mut one_past_max_index: u32 = num_cells;
    while one_past_max_index != min_index
        invariant
            page@.len() == PAGE_SIZE,
            page@ == pager@[page_num as int],
            num_cells == num_cells_of(page@),
            num_cells <= 13,
            ks == cell_keys(leaf_cells(page@)),
            ks.len() == num_cells,
            keys_sorted(ks),
            forall|i: int| 0 <= i < num_cells ==> #[trigger] ks[i] == leaf_key_of(page@, i),
            min_index <= one_past_max_index <= num_cells,
            min_index == 0 || ks[min_index - 1] < key,
            one_past_max_index == num_cells || ks[one_past_max_index as int] >= key,
        decreases one_past_max_index - min_index,
    {
        let index = min_index + (one_past_max_index - min_index) / 2;
        let key_at_index = leaf_node_key(&page, index);
        if key == key_at_index {
            proof {
                if index > 0 {
                    assert(ks[index - 1] < ks[index as int]);
                }
                lemma_child_index_unique(ks, key, index as int);
            }
            return Cursor { page_num, cell_num: index, end_of_table: false };
        }
        if key < key_at_index {
            one_past_max_index = index;
        } else {
            min_index = index + 1;
        }
    }
    proof {
        lemma_child_index_unique(ks, key, min_index as int);
    }
    Cursor { page_num, cell_num: min_index, end_of_table: false }
}

/// Search from internal node `page_num` for the leaf position of `key`.
pub fn internal_node_find(
    pager: &Pager,
    page_num: u32,
    key: u32,
    Ghost(h): Ghost<nat>,
    Ghost(lo): Ghost<int>,
    Ghost(hi): Ghost<int>,
    Ghost(next): Ghost<int>,
    Ghost(root): Ghost<bool>,
) -> (cursor: Cursor)
    requires
        pager.wf(),
        sub_wf(pager@, page_num as int, h, lo, hi, next, root),
        lo < key <= hi,
    ensures
        !cursor.end_of_table,
        cursor.page_num == find_leaf(pager@, page_num as int, h, key),
        cursor.cell_num == child_index(cell_keys(leaf_cells(pager@[cursor.page_num as int])), key),
        cell_keys(sub_cells(pager@, page_num as int, h)).contains(key) <==> (cursor.cell_num
            < num_cells_of(pager@[cursor.page_num as int]) && leaf_key_of(
            pager@[cursor.page_num as int],
            cursor.cell_num as int,
        ) == key),
    decreases h,
{
    proof {
        pager.lemma_wf();
    }
    let page = pager.page(page_num);
    match get_node_type(&page) {
        NodeType::LeafNode => {
            assert(h == 0);
            let cursor = leaf_node_find(pager, page_num, key, Ghost(lo), Ghost(hi), Ghost(next), Ghost(root));
            proof {
                lemma_leaf_found(pager@[page_num as int], key, lo, hi, next, root);
            }
            cursor
        },
        _ => {
            assert(h > 0);
            let child_index = internal_node_find_child(&page, key);
            let child_num = internal_node_child(&page, child_index);
            proof {
                let keys = node_keys(page@);
                let kids = node_kids(page@);
                lemma_descend(pager@, page_num as int, h, lo, hi, next, root, key);
                assert forall|i: int| 0 <= i < keys.len() implies keys[i] == internal_key_of(page@, i) by {}
                lemma_child_index_unique(keys, key, child_index as int);
            }
            let ghost keys = node_keys(page@);
            let ghost kids = node_kids(page@);
            let ghost j = child_index as int;
            internal_node_find(
                pager,
                child_num,
                key,
                Ghost((h - 1) as nat),
                Ghost(kid_lo(keys, lo, j)),
                Ghost(kid_hi(keys, hi, j)),
                Ghost(kid_next(pager@, kids, (h - 1) as nat, next, j)),
                Ghost(false),
            )
        },
    }
}

/// Insert `value` under `key` at the cursor's cell of a leaf that has room.
pub fn leaf_node_insert(pager: &mut Pager, cursor: &Cursor, key: u32, value: &Row)
    requires
        old(pager).wf(),
        cursor.page_num < old(pager).spec_num_pages(),
        num_cells_of(old(pager)@[cursor.page_num as int]) < LEAF_NODE_MAX_CELLS,
        cursor.cell_num <= num_cells_of(old(pager)@[cursor.page_num as int]),
    ensures
        final(pager).wf(),
        final(pager).spec_num_pages() == old(pager).spec_num_pages(),
        final(pager)@.len() == old(pager)@.len(),
        forall|q: int|
            0 <= q < old(pager)@.len() && q != cursor.page_num ==> #[trigger] final(pager)@[q]
                == old(pager)@[q],
        ({
            let before = old(pager)@[cursor.page_num as int];
            let after = final(pager)@[cursor.page_num as int];
            &&& after.len() == PAGE_SIZE
            &&& leaf_cells(after) == leaf_cells(before).insert(
                cursor.cell_num as int,
                new_cell(key, *value),
            )
            &&& after.subrange(0, 6) == before.subrange(0, 6)
            &&& next_leaf_of(after) == next_leaf_of(before)
        }),
{
    proof {
        old(pager).lemma_wf();
        lemma_layout_values();
    }
    let p = cursor.page_num;
    let mut page = pager.page(p);
    let mut cells = read_leaf_cells(&page);
    let cell = make_cell(key, value);
    let ghost before = views(cells@);
    assert(cells@.len() == before.len());
    cells.insert(cursor.cell_num as usize, cell);
    proof {
        assert(views(cells@) =~= before.insert(cursor.cell_num as int, new_cell(key, *value)));
        assert forall|i: int| 0 <= i < cells@.len() implies #[trigger] cells@[i]@.len()
            == LEAF_NODE_CELL_SIZE by {
            if i != cursor.cell_num {
                assert(views(cells@)[i] == cells@[i]@);
            }
        }
    }
    write_leaf_cells(&mut page, &cells);
    pager.set_page(p, page);
}

/// Insert `value` under `key` at the cursor's cell of a full leaf: the
/// cells, with the new one, are split between the leaf and a new page.
/// Only these two pages change; `insert_into_subtree` links the new page
/// into the parent, and `create_new_root` puts a root above a split root.
pub fn split_leaf_and_insert(
    pager: &mut Pager,
    cursor: &Cursor,
    key: u32,
    value: &Row,
) -> (new_page_num: u32)
    requires
        old(pager).wf(),
        cursor.page_num < old(pager).spec_num_pages(),
        old(pager).spec_num_pages() < TABLE_MAX_PAGES,
        num_cells_of(old(pager)@[cursor.page_num as int]) == LEAF_NODE_MAX_CELLS,
        cursor.cell_num <= num_cells_of(old(pager)@[cursor.page_num as int]),
    ensures
        final(pager).wf(),
        new_page_num == old(pager)@.len(),
        final(pager)@.len() == old(pager)@.len() + 1,
        forall|q: int|
            0 <= q < old(pager)@.len() && q != cursor.page_num ==> #[trigger] final(pager)@[q]
                == old(pager)@[q],
        ({
            let before = old(pager)@[cursor.page_num as int];
            let left = final(pager)@[cursor.page_num as int];
            let right = final(pager)@[new_page_num as int];
            let all = leaf_cells(before).insert(cursor.cell_num as int, new_cell(key, *value));
            &&& left.len() == PAGE_SIZE
            &&& right.len() == PAGE_SIZE
            &&& leaf_cells(left) == all.take(LEAF_NODE_LEFT_SPLIT_COUNT as int)
            &&& leaf_cells(right) == all.skip(LEAF_NODE_LEFT_SPLIT_COUNT as int)
            &&& left.subrange(0, 6) == before.subrange(0, 6)
            &&& next_leaf_of(left) == new_page_num
            &&& node_type_of(right) == 1
            &&& !is_root_of(right)
            &&& parent_of(right) == parent_of(before)
            &&& next_leaf_of(right) == next_leaf_of(before)
        }),
{
    proof {
        old(pager).lemma_wf();
        lemma_layout_values();
    }
    let old_page_num = cursor.page_num;
    let new_page_num = pager.get_unused_page_num();
    let mut old_node = pager.page(old_page_num);
    let mut cells = read_leaf_cells(&old_node);
    let cell = make_cell(key, value);
    let ghost before = views(cells@);
    assert(cells@.len() == before.len());
    cells.insert(cursor.cell_num as usize, cell);
    let ghost all = views(cells@);
    proof {
        assert(all =~= before.insert(cursor.cell_num as int, new_cell(key, *value)));
        assert forall|i: int| 0 <= i < cells@.len() implies #[trigger] cells@[i]@.len()
            == LEAF_NODE_CELL_SIZE by {
            if i != cursor.cell_num {
                assert(views(cells@)[i] == cells@[i]@);
            }
        }
    }
    let ghost full = cells@;
    let right_cells = cells.split_off(LEAF_NODE_LEFT_SPLIT_COUNT);
    proof {
        assert(cells@.len() == LEAF_NODE_LEFT_SPLIT_COUNT);
        assert forall|i: int| 0 <= i < cells@.len() implies #[trigger] cells@[i]@.len()
            == LEAF_NODE_CELL_SIZE by {
            assert(cells@[i] == full[i]);
        }
        assert(views(cells@) =~= all.take(LEAF_NODE_LEFT_SPLIT_COUNT as int));
        assert(views(right_cells@) =~= all.skip(LEAF_NODE_LEFT_SPLIT_COUNT as int));
        assert forall|i: int| 0 <= i < right_cells@.len() implies #[trigger] right_cells@[i]@.len()
            == LEAF_NODE_CELL_SIZE by {
            assert(right_cells@[i] == full[LEAF_NODE_LEFT_SPLIT_COUNT + i]);
        }
    }
    let mut new_node = pager.get_page(new_page_num);
    initialize_leaf_node(&mut new_node);
    set_node_parent(&mut new_node, node_parent(&old_node));
    set_leaf_node_next_leaf(&mut new_node, leaf_node_next_leaf(&old_node));
    write_leaf_cells(&mut new_node, &right_cells);
    set_leaf_node_next_leaf(&mut old_node, new_page_num);
    write_leaf_cells(&mut old_node, &cells);
    pager.set_page(old_page_num, old_node);
    pager.set_page(new_page_num, new_node);
    new_page_num
}

/// Put child `child_page_num` right after child `index` of an internal node
/// with room, and make `left_max` the key of child `index`.
pub fn insert_internal_child(
    pager: &mut Pager,
    parent_page_num: u32,
    index: u32,
    child_page_num: u32,
    left_max: u32,
)
    requires
        old(pager).wf(),
        parent_page_num < old(pager).spec_num_pages(),
        num_keys_of(old(pager)@[parent_page_num as int]) < INTERNAL_NODE_MAX_CELLS,
        index <= num_keys_of(old(pager)@[parent_page_num as int]),
    ensures
        final(pager).wf(),
        final(pager)@.len() == old(pager)@.len(),
        forall|q: int|
            0 <= q < old(pager)@.len() && q != parent_page_num ==> #[trigger] final(pager)@[q]
                == old(pager)@[q],
        ({
            let before = old(pager)@[parent_page_num as int];
            let after = final(pager)@[parent_page_num as int];
            &&& after.len() == PAGE_SIZE
            &&& node_kids(after) == node_kids(before).insert(index + 1, child_page_num)
            &&& node_keys(after) == node_keys(before).insert(index as int, left_max)
            &&& after.subrange(0, 6) == before.subrange(0, 6)
        }),
{
    proof {
        old(pager).lemma_wf();
    }
    let mut page = pager.page(parent_page_num);
    let (mut kids, mut keys) = read_internal(&page);
    kids.insert(index as usize + 1, child_page_num);
    keys.insert(index as usize, left_max);
    write_internal(&mut page, &kids, &keys);
    pager.set_page(parent_page_num, page);
}

/// Page `p` roots a well-formed subtree of height `h` that is not the
/// whole tree.
pub open spec fn subtree_of_height(pages: Seq<Seq<u8>>, p: int, h: nat) -> bool {
    exists|lo: int, hi: int, next: int| #[trigger] sub_wf(pages, p, h, lo, hi, next, false)
}

/// Parent page `parent` of `pages` became `after` by taking child
/// `child`, a subtree of height `hc`, at the place its largest key gives it.
pub open spec fn child_placed(pages: Seq<Seq<u8>>, parent: int, child: u32, hc: nat, after: Seq<u8>) -> bool {
    let before = pages[parent];
    let kids = node_kids(before);
    let keys = node_keys(before);
    let m = max_key(sub_cells(pages, child as int, hc));
    let rm = max_key(sub_cells(pages, kids.last() as int, hc));
    &&& after.len() == PAGE_SIZE
    &&& after.subrange(0, 6) == before.subrange(0, 6)
    &&& m > rm ==> node_kids(after) == kids.push(child) && node_keys(after) == keys.push(rm)
    &&& m <= rm ==> exists|idx: int|
        {
            &&& 0 <= idx <= keys.len()
            &&& (idx == 0 || keys[idx - 1] < m)
            &&& (idx == keys.len() || keys[idx] >= m)
            &&& (keys_sorted(keys) ==> idx == child_index(keys, m))
            &&& (keys_sorted(keys) && !keys.contains(m) ==> keys_sorted(node_keys(after)))
            &&& node_kids(after) == kids.insert(idx, child)
            &&& node_keys(after) == keys.insert(idx, m)
        }
}

/// Add `child_page_num` to an internal node with room, in the place its
/// largest key gives it: when that key is above every key under the right
/// child, the child becomes the new right child and the old right child
/// takes a cell keyed by its own largest key; otherwise the child takes a
/// cell, keyed by its largest key, before the first key at or above it.
pub fn internal_node_insert(pager: &mut Pager, parent_page_num: u32, child_page_num: u32)
    requires
        old(pager).wf(),
        parent_page_num < old(pager).spec_num_pages(),
        num_keys_of(old(pager)@[parent_page_num as int]) < INTERNAL_NODE_MAX_CELLS,
        exists|hc: nat|
            #![trigger subtree_of_height(old(pager)@, child_page_num as int, hc)]
            subtree_of_height(old(pager)@, child_page_num as int, hc) && subtree_of_height(
                old(pager)@,
                node_kids(old(pager)@[parent_page_num as int]).last() as int,
                hc,
            ),
    ensures
        final(pager).wf(),
        final(pager)@.len() == old(pager)@.len(),
        forall|q: int|
            0 <= q < old(pager)@.len() && q != parent_page_num ==> #[trigger] final(pager)@[q]
                == old(pager)@[q],
        forall|hc: nat|
            #![trigger subtree_of_height(old(pager)@, child_page_num as int, hc)]
            subtree_of_height(old(pager)@, child_page_num as int, hc) && subtree_of_height(
                old(pager)@,
                node_kids(old(pager)@[parent_page_num as int]).last() as int,
                hc,
            ) ==> child_placed(old(pager)@, parent_page_num as int, child_page_num, hc, final(pager)@[parent_page_num as int]),
{
    let ghost right0 = node_kids(old(pager)@[parent_page_num as int]).last() as int;
    let ghost hc = choose|hc: nat|
        #![trigger subtree_of_height(old(pager)@, child_page_num as int, hc)]
        subtree_of_height(old(pager)@, child_page_num as int, hc) && subtree_of_height(
            old(pager)@,
            right0,
            hc,
        );
    let ghost child_bounds = choose|lo: int, hi: int, next: int|
        sub_wf(old(pager)@, child_page_num as int, hc, lo, hi, next, false);
    let ghost right_bounds = choose|lo: int, hi: int, next: int|
        sub_wf(old(pager)@, right0, hc, lo, hi, next, false);
    proof {
        old(pager).lemma_wf();
        lemma_layout_values();
        lemma_sub_cells_nonempty(
            old(pager)@,
            child_page_num as int,
            hc,
            child_bounds.0,
            child_bounds.1,
            child_bounds.2,
            false,
        );
    }
    let ghost pages = pager@;
    let child_max = get_node_max_key(
        pager,
        child_page_num,
        Ghost(hc),
        Ghost(child_bounds.0),
        Ghost(child_bounds.1),
        Ghost(child_bounds.2),
        Ghost(false),
    );
    let mut page = pager.page(parent_page_num);
    let num_keys = internal_node_num_keys(&page);
    let right_child = internal_node_child(&page, num_keys);
    proof {
        assert(node_kids(page@).last() == right_child);
        lemma_sub_cells_nonempty(
            pages,
            right_child as int,
            hc,
            right_bounds.0,
            right_bounds.1,
            right_bounds.2,
            false,
        );
    }
    let right_max = get_node_max_key(
        pager,
        right_child,
        Ghost(hc),
        Ghost(right_bounds.0),
        Ghost(right_bounds.1),
        Ghost(right_bounds.2),
        Ghost(false),
    );
    let (mut kids, mut keys) = read_internal(&page);
    if child_max > right_max {
        kids.push(child_page_num);
        keys.push(right_max);
    } else {
        let index = internal_node_find_child(&page, child_max);
        proof {
            assert forall|i: int| 0 <= i < keys@.len() implies keys@[i] == internal_key_of(page@, i) by {}
        }
        let ghost ks = keys@;
        kids.insert(index as usize, child_page_num);
        keys.insert(index as usize, child_max);
        proof {
            if keys_sorted(ks) && !ks.contains(child_max) {
                assert forall|i: int, j: int| 0 <= i < j < keys@.len() implies keys@[i]
                    < keys@[j] by {
                    if j < index {
                    } else if j == index {
                    } else if i < index {
                        assert(ks[index as int] != child_max);
                    } else if i == index {
                        assert(ks[index as int] != child_max);
                    }
                }
            }
        }
    }
    write_internal(&mut page, &kids, &keys);
    pager.set_page(parent_page_num, page);
    proof {
        let after = pager@[parent_page_num as int];
        assert(child_placed(pages, parent_page_num as int, child_page_num, hc, after));
        assert forall|h2: nat|
            #![trigger subtree_of_height(pages, child_page_num as int, h2)]
            subtree_of_height(pages, child_page_num as int, h2) && subtree_of_height(
                pages,
                right0,
                h2,
            ) implies child_placed(pages, parent_page_num as int, child_page_num, h2, after) by {
            let (lo, hi, next) = choose|lo: int, hi: int, next: int|
                sub_wf(pages, child_page_num as int, h2, lo, hi, next, false);
            lemma_height_unique(
                pages,
                child_page_num as int,
                hc,
                h2,
                child_bounds.0,
                child_bounds.1,
                child_bounds.2,
                false,
                lo,
                hi,
                next,
                false,
            );
        }
    }
}

/// Put child `child_page_num` right after child `index` of a full internal
/// node, with `left_max` the key of child `index`, and split the node: the
/// front children stay, the back ones move to a new page, which is
/// returned and which becomes their parent. The node's own parent is left
/// as it is; `insert_into_subtree` links the new page into it.
pub fn split_internal_and_insert(
    pager: &mut Pager,
    parent_page_num: u32,
    index: u32,
    child_page_num: u32,
    left_max: u32,
) -> (new_page_num: u32)
    requires
        old(pager).wf(),
        parent_page_num < old(pager).spec_num_pages(),
        old(pager).spec_num_pages() < TABLE_MAX_PAGES,
        num_keys_of(old(pager)@[parent_page_num as int]) == INTERNAL_NODE_MAX_CELLS,
        index <= num_keys_of(old(pager)@[parent_page_num as int]),
        child_page_num < old(pager).spec_num_pages(),
        child_page_num != parent_page_num,
        forall|i: int|
            0 <= i < node_kids(old(pager)@[parent_page_num as int]).len() ==> #[trigger] node_kids(
                old(pager)@[parent_page_num as int],
            )[i] < old(pager).spec_num_pages() && node_kids(old(pager)@[parent_page_num as int])[i]
                != parent_page_num,
    ensures
        final(pager).wf(),
        new_page_num == old(pager)@.len(),
        final(pager)@.len() == old(pager)@.len() + 1,
        ({
            let mid = old(pager)@;
            let fin = final(pager)@;
            let p = parent_page_num as int;
            let kids2 = node_kids(mid[p]).insert(index + 1, child_page_num);
            let keys2 = node_keys(mid[p]).insert(index as int, left_max);
            let s: int = if index == 0 {
                3
            } else {
                2
            };
            &&& fin[p].len() == PAGE_SIZE
            &&& node_kids(fin[p]) == kids2.take(s)
            &&& node_keys(fin[p]) == keys2.take(s - 1)
            &&& fin[p].subrange(0, 6) == mid[p].subrange(0, 6)
            &&& fin[new_page_num as int].len() == PAGE_SIZE
            &&& node_kids(fin[new_page_num as int]) == kids2.skip(s)
            &&& node_keys(fin[new_page_num as int]) == keys2.skip(s)
            &&& node_type_of(fin[new_page_num as int]) == 0
            &&& !is_root_of(fin[new_page_num as int])
            &&& parent_of(fin[new_page_num as int]) == parent_of(mid[p])
            &&& forall|i: int| s <= i < kids2.len() ==> parent_of(#[trigger] fin[kids2[i] as int]) == new_page_num
            &&& forall|q: int|
                0 <= q < mid.len() && q != p && #[trigger] fin[q] != mid[q] ==> content_eq(
                    mid[q],
                    fin[q],
                ) && exists|i: int| s <= i < kids2.len() && kids2[i] == q
        }),
{
    proof {
        old(pager).lemma_wf();
    }
    let ghost mid = pager@;
    let p = parent_page_num;
    let mut page = pager.page(p);
    let (mut kids, mut keys) = read_internal(&page);
    kids.insert(index as usize + 1, child_page_num);
    keys.insert(index as usize, left_max);
    let ghost kids2 = kids@;
    let ghost keys2 = keys@;
    let split: usize = if index == 0 {
        3
    } else {
        2
    };
    let right_kids = kids.split_off(split);
    let right_keys = keys.split_off(split);
    keys.truncate(split - 1);
    proof {
        assert(kids@ =~= kids2.take(split as int));
        assert(right_kids@ =~= kids2.skip(split as int));
        assert(keys@ =~= keys2.take(split - 1));
        assert(right_keys@ =~= keys2.skip(split as int));
        assert forall|i: int| 0 <= i < kids2.len() implies kids2[i] < mid.len() && kids2[i] != p by {
            if i <= index {
                assert(kids2[i] == node_kids(mid[p as int])[i]);
            } else if i > index + 1 {
                assert(kids2[i] == node_kids(mid[p as int])[i - 1]);
            }
        }
    }
    let new_page_num = pager.get_unused_page_num();
    let mut new_node = pager.get_page(new_page_num);
    initialize_internal_node(&mut new_node);
    set_node_parent(&mut new_node, node_parent(&page));
    write_internal(&mut new_node, &right_kids, &right_keys);
    write_internal(&mut page, &kids, &keys);
    pager.set_page(p, page);
    pager.set_page(new_page_num, new_node);
    let ghost fin0 = pager@;
    let mut i: usize = 0;
    while i < right_kids.len()
        invariant
            pager.wf(),
            pager@.len() == mid.len() + 1,
            new_page_num == mid.len(),
            0 <= i <= right_kids@.len(),
            right_kids@ == kids2.skip(split as int),
            split == 2 || split == 3,
            kids2.len() == 5,
            forall|k: int| 0 <= k < kids2.len() ==> kids2[k] < mid.len() && kids2[k] != p,
            forall|q: int| 0 <= q < mid.len() ==> #[trigger] mid[q].len() == PAGE_SIZE,
            p < mid.len(),
            pager@[p as int] == fin0[p as int],
            pager@[new_page_num as int] == fin0[new_page_num as int],
            forall|q: int|
                0 <= q < mid.len() && q != p && #[trigger] pager@[q] != mid[q] ==> content_eq(
                    mid[q],
                    pager@[q],
                ) && exists|k: int| split <= k < split + i && kids2[k] == q,
            forall|q: int| 0 <= q < mid.len() && q != p ==> #[trigger] fin0[q] == mid[q],
            forall|k: int| split <= k < split + i ==> parent_of(#[trigger] pager@[kids2[k] as int]) == new_page_num,
        decreases right_kids@.len() - i,
    {
        let c = right_kids[i];
        proof {
            assert(c == kids2[split + i]);
            assert(c != p);
            pager.lemma_wf();
        }
        let ghost before = pager@;
        let mut child = pager.page(c);
        set_node_parent(&mut child, new_page_num);
        pager.set_page(c, child);
        proof {
            assert forall|k: int| split <= k < split + i + 1 implies parent_of(#[trigger] pager@[kids2[k] as int]) == new_page_num by {
                if kids2[k] != c {
                    assert(pager@[kids2[k] as int] == before[kids2[k] as int]);
                }
            }
            assert(content_eq(before[c as int], pager@[c as int])) by {
                assert(pager@[c as int][0] == before[c as int][0]);
                assert(pager@[c as int].subrange(6, PAGE_SIZE as int) =~= before[c as int].subrange(
                    6,
                    PAGE_SIZE as int,
                ));
            }
            assert forall|q: int|
                0 <= q < mid.len() && q != p && #[trigger] pager@[q] != mid[q] implies content_eq(
                mid[q],
                pager@[q],
            ) && exists|k: int| split <= k < split + i + 1 && kids2[k] == q by {
                if q == c {
                    assert(kids2[split + i] == q);
                    if before[q] != mid[q] {
                        assert(content_eq(mid[q], before[q]));
                        assert(mid[q].subrange(6, PAGE_SIZE as int) == pager@[q].subrange(6, PAGE_SIZE as int));
                    } else {
                    }
                } else {
                    assert(pager@[q] == before[q]);
                    let k = choose|k: int| split <= k < split + i && kids2[k] == q;
                    assert(split <= k < split + i + 1 && kids2[k] == q);
                }
            }
        }
        i += 1;
    }
    proof {
        let fin = pager@;
        assert(fin[new_page_num as int] == fin0[new_page_num as int]);
        assert(fin0[new_page_num as int][0] == fin0[new_page_num as int].subrange(0, 6)[0]);
    }
    new_page_num
}

/// The cell for a key holds that key.
pub proof fn lemma_new_cell(key: u32, row: Row)
    ensures
        cell_key(new_cell(key, row)) == key,
        new_cell(key, row).len() == LEAF_NODE_CELL_SIZE,
{
    vstd::bytes::lemma_auto_spec_u32_to_from_le_bytes();
    lemma_row_bytes_len(row);
    assert(new_cell(key, row).subrange(0, 4) =~= spec_u32_to_le_bytes(key));
}

/// Insert `value` under `key` into the subtree of height `h` at page `p`.
/// When the subtree's root splits, the new right sibling's page is returned.
pub fn insert_into_subtree(
    pager: &mut Pager,
    p: u32,
    key: u32,
    value: &Row,
    Ghost(h): Ghost<nat>,
    Ghost(lo): Ghost<int>,
    Ghost(hi): Ghost<int>,
    Ghost(next): Ghost<int>,
    Ghost(root): Ghost<bool>,
) -> (split: Option<u32>)
    requires
        old(pager).wf(),
        sub_wf(old(pager)@, p as int, h, lo, hi, next, root),
        lo < key <= hi,
        !cell_keys(sub_cells(old(pager)@, p as int, h)).contains(key),
        old(pager).spec_num_pages() + path_alloc(old(pager)@, p as int, h, key) <= TABLE_MAX_PAGES,
    ensures
        final(pager).wf(),
        final(pager)@.len() == old(pager)@.len() + path_alloc(old(pager)@, p as int, h, key),
        unchanged_outside(old(pager)@, final(pager)@, sub_page_set(old(pager)@, p as int, h)),
        split is Some <==> path_splits(old(pager)@, p as int, h, key),
        parent_of(final(pager)@[p as int]) == parent_of(old(pager)@[p as int]),
        split matches Some(n) ==> parent_of(final(pager)@[n as int]) == parent_of(
            old(pager)@[p as int],
        ),
        parents_ok(old(pager)@, p as int, h) ==> {
            &&& parents_ok(final(pager)@, p as int, h)
            &&& split matches Some(n) ==> parents_ok(final(pager)@, n as int, h)
        },
        ({
            let ins = insert_shape(shape(old(pager)@, p as int, h), new_cell(key, *value), h);
            &&& shape(final(pager)@, p as int, h) == ins.0
            &&& match split {
                Some(n) => ins.1 == Some(shape(final(pager)@, n as int, h)),
                None => ins.1 is None,
            }
        }),
        ({
            let old_pages = old(pager)@;
            let pages = final(pager)@;
            let cells = insert_sorted(sub_cells(old_pages, p as int, h), new_cell(key, *value));
            match split {
                None => {
                    &&& sub_wf(pages, p as int, h, lo, hi, next, root)
                    &&& sub_cells(pages, p as int, h) == cells
                    &&& within_or_new(
                        sub_page_set(pages, p as int, h),
                        sub_page_set(old_pages, p as int, h),
                        old_pages.len() as int,
                        pages.len() as int,
                    )
                    &&& first_leaf(pages, p as int, h) == first_leaf(old_pages, p as int, h)
                },
                Some(n) => {
                    let m = max_key(sub_cells(pages, p as int, h));
                    &&& old_pages.len() <= n < pages.len()
                    &&& sub_wf(pages, p as int, h, lo, m as int, first_leaf(pages, n as int, h), false)
                    &&& sub_wf(pages, n as int, h, m as int, hi, next, false)
                    &&& sub_cells(pages, p as int, h) + sub_cells(pages, n as int, h) == cells
                    &&& within_or_new(
                        sub_page_set(pages, p as int, h),
                        sub_page_set(old_pages, p as int, h),
                        old_pages.len() as int,
                        pages.len() as int,
                    )
                    &&& within_or_new(
                        sub_page_set(pages, n as int, h),
                        sub_page_set(old_pages, p as int, h),
                        old_pages.len() as int,
                        pages.len() as int,
                    )
                    &&& sub_page_set(pages, p as int, h).disjoint(sub_page_set(pages, n as int, h))
                    &&& first_leaf(pages, p as int, h) == first_leaf(old_pages, p as int, h)
                },
            }
        }),
    decreases h,
{
    proof {
        old(pager).lemma_wf();
        lemma_layout_values();
        lemma_new_cell(key, *value);
    }
    let ghost old_pages = pager@;
    let ghost c = new_cell(key, *value);
    let page = pager.page(p);
    match get_node_type(&page) {
        NodeType::LeafNode => {
            assert(h == 0);
            let cursor = leaf_node_find(pager, p, key, Ghost(lo), Ghost(hi), Ghost(next), Ghost(root));
            let num_cells = leaf_node_num_cells(&page);
            let ghost cells = leaf_cells(old_pages[p as int]);
            proof {
                assert(cell_keys(sub_cells(old_pages, p as int, h)) == cell_keys(cells));
                lemma_insert_sorted_ok(cells, c, lo, hi);
                lemma_child_index(cell_keys(cells), key);
                assert(cell_keys(cells).len() == num_cells);
            }
            if num_cells >= LEAF_NODE_MAX_CELLS as u32 {
                let n = split_leaf_and_insert(pager, &cursor, key, value);
                proof {
                    let pages = pager@;
                    let all = insert_sorted(cells, c);
                    lemma_cells_split_ok(all, lo, hi, LEAF_NODE_LEFT_SPLIT_COUNT as int);
                    let left = pages[p as int];
                    let right = pages[n as int];
                    assert(left[0] == left.subrange(0, 6)[0]);
                    assert(old_pages[p as int][0] == old_pages[p as int].subrange(0, 6)[0]);
                    assert(sub_page_set(pages, p as int, 0) =~= set![p as int]);
                    assert(sub_page_set(pages, n as int, 0) =~= set![n as int]);
                    assert(sub_page_set(old_pages, p as int, 0) =~= set![p as int]);
                    assert(cells.len() == num_cells);
                    assert(leaf_cells(old_pages[p as int]) == cells);
                    assert(left.subrange(2, 6) =~= left.subrange(0, 6).subrange(2, 6));
                    assert(old_pages[p as int].subrange(2, 6) =~= old_pages[p as int].subrange(0, 6).subrange(2, 6));
                }
                Some(n)
            } else {
                leaf_node_insert(pager, &cursor, key, value);
                proof {
                    let pages = pager@;
                    let leaf = pages[p as int];
                    assert(leaf[0] == leaf.subrange(0, 6)[0]);
                    assert(old_pages[p as int][0] == old_pages[p as int].subrange(0, 6)[0]);
                    assert(sub_page_set(pages, p as int, 0) =~= set![p as int]);
                    assert(sub_page_set(old_pages, p as int, 0) =~= set![p as int]);
                    assert(cells.len() == num_cells);
                    assert(leaf.subrange(2, 6) =~= leaf.subrange(0, 6).subrange(2, 6));
                    assert(old_pages[p as int].subrange(2, 6) =~= old_pages[p as int].subrange(0, 6).subrange(2, 6));
                }
                None
            }
        },
        _ => {
            assert(h > 0);
            let ghost keys = node_keys(old_pages[p as int]);
            let ghost kids = node_kids(old_pages[p as int]);
            let ghost hc = (h - 1) as nat;
            let index = internal_node_find_child(&page, key);
            proof {
                assert forall|i: int| 0 <= i < keys.len() implies keys[i] == internal_key_of(
                    page@,
                    i,
                ) by {}
                lemma_child_index_unique(keys, key, index as int);
                lemma_descend(old_pages, p as int, h, lo, hi, next, root, key);
            }
            let child = internal_node_child(&page, index);
            let ghost j = index as int;
            let ghost clo = kid_lo(keys, lo, j);
            let ghost chi = kid_hi(keys, hi, j);
            let ghost cnext = kid_next(old_pages, kids, hc, next, j);
            proof {
                assert(child == kids[j]);
                assert(path_alloc(old_pages, p as int, h, key) >= path_alloc(
                    old_pages,
                    child as int,
                    hc,
                    key,
                ));
            }
            let r = insert_into_subtree(
                pager,
                child,
                key,
                value,
                Ghost(hc),
                Ghost(clo),
                Ghost(chi),
                Ghost(cnext),
                Ghost(false),
            );
            match r {
                None => {
                    proof {
                        lemma_child_grew(old_pages, pager@, p as int, h, lo, hi, next, root, c);
                        lemma_kids_wf_forall(old_pages, kids, keys, hc, lo, hi, next, p as int, kids.len());
                        assert(kid_ok(old_pages, kids, keys, hc, lo, hi, next, p as int, j));
                        lemma_sub_page_set_bounds(old_pages, child as int, hc, clo, chi, cnext, false);
                        assert(pager@[p as int] == old_pages[p as int]);
                        if parents_ok(old_pages, p as int, h) {
                            lemma_kids_parents_forall(old_pages, kids, p as int, hc, kids.len());
                            assert(kid_parent_ok(old_pages, kids, p as int, hc, j));
                            lemma_parents_child_grew(old_pages, pager@, p as int, h, lo, hi, next, root, j);
                        }
                        lemma_kids_shapes_index(old_pages, kids, hc, kids.len());
                        lemma_shape_child_grew(
                            old_pages,
                            pager@,
                            p as int,
                            h,
                            lo,
                            hi,
                            next,
                            root,
                            j,
                            shape(pager@, child as int, hc),
                        );
                    }
                    None
                },
                Some(n) => {
                    let ghost mid = pager@;
                    proof {
                        assert(child_split_post(old_pages, mid, p as int, h, lo, hi, next, c, n));
                        lemma_split_halves(old_pages, mid, p as int, h, lo, hi, next, root, c, n);
                        lemma_sub_cells_ok(
                            mid,
                            child as int,
                            hc,
                            clo,
                            max_key(sub_cells(mid, child as int, hc)) as int,
                            first_leaf(mid, n as int, hc),
                            false,
                        );
                        pager.lemma_wf();
                    }
                    let left_max = get_node_max_key(
                        pager,
                        child,
                        Ghost(hc),
                        Ghost(clo),
                        Ghost(max_key(sub_cells(mid, child as int, hc)) as int),
                        Ghost(first_leaf(mid, n as int, hc)),
                        Ghost(false),
                    );
                    let num_keys = internal_node_num_keys(&page);
                    if num_keys < INTERNAL_NODE_MAX_CELLS as u32 {
                        insert_internal_child(pager, p, index, n, left_max);
                        proof {
                            lemma_parent_absorbs(
                                old_pages,
                                mid,
                                pager@,
                                p as int,
                                h,
                                lo,
                                hi,
                                next,
                                root,
                                c,
                                n,
                            );
                            lemma_kids_wf_forall(old_pages, kids, keys, hc, lo, hi, next, p as int, kids.len());
                            assert(kid_ok(old_pages, kids, keys, hc, lo, hi, next, p as int, j));
                            lemma_sub_page_set_bounds(old_pages, child as int, hc, clo, chi, cnext, false);
                            assert(mid[p as int] == old_pages[p as int]);
                            assert(pager@[p as int].subrange(2, 6) =~= mid[p as int].subrange(2, 6)) by {
                                assert(pager@[p as int].subrange(2, 6) =~= pager@[p as int].subrange(0, 6).subrange(2, 6));
                                assert(mid[p as int].subrange(2, 6) =~= mid[p as int].subrange(0, 6).subrange(2, 6));
                            }
                            if parents_ok(old_pages, p as int, h) {
                                lemma_kids_parents_forall(old_pages, kids, p as int, hc, kids.len());
                                assert(kid_parent_ok(old_pages, kids, p as int, hc, j));
                                lemma_parents_absorbs(old_pages, mid, pager@, p as int, h, lo, hi, next, root, j, n);
                            }
                            lemma_kids_shapes_index(old_pages, kids, hc, kids.len());
                            lemma_shape_max(
                                mid,
                                child as int,
                                hc,
                                clo,
                                max_key(sub_cells(mid, child as int, hc)) as int,
                                first_leaf(mid, n as int, hc),
                                false,
                            );
                            lemma_shape_absorbs(
                                old_pages,
                                mid,
                                pager@,
                                p as int,
                                h,
                                lo,
                                hi,
                                next,
                                root,
                                j,
                                n,
                                left_max,
                                shape(mid, child as int, hc),
                                shape(mid, n as int, hc),
                            );
                        }
                        None
                    } else {
                        proof {
                            lemma_kids_wf_forall(old_pages, kids, keys, hc, lo, hi, next, p as int, kids.len());
                            lemma_sub_page_set_bounds(old_pages, p as int, h, lo, hi, next, root);
                            assert forall|i: int| 0 <= i < kids.len() implies #[trigger] kids[i]
                                < mid.len() && kids[i] != p by {
                                assert(kid_ok(old_pages, kids, keys, hc, lo, hi, next, p as int, i));
                                lemma_sub_page_set_bounds(
                                    old_pages,
                                    kids[i] as int,
                                    hc,
                                    kid_lo(keys, lo, i),
                                    kid_hi(keys, hi, i),
                                    kid_next(old_pages, kids, hc, next, i),
                                    false,
                                );
                            }
                        }
                        let nn = split_internal_and_insert(pager, p, index, n, left_max);
                        proof {
                            let s: int = if index == 0 {
                                3
                            } else {
                                2
                            };
                            let fin = pager@;
                            let kids2 = split_kids(old_pages, p as int, c, n);
                            let kk = node_kids(mid[p as int]).insert(index + 1, n);
                            assert(kk == kids2);
                            assert forall|q: int|
                                0 <= q < mid.len() && q != p && #[trigger] fin[q] != mid[q] implies content_eq(
                                mid[q],
                                fin[q],
                            ) && exists|i: int| s <= i < kids2.len() && kids2[i] == q by {
                                let i = choose|i: int| s <= i < kk.len() && kk[i] == q;
                                assert(s <= i < kids2.len() && kids2[i] == q);
                            }
                            lemma_parent_splits(
                                old_pages,
                                mid,
                                pager@,
                                p as int,
                                h,
                                lo,
                                hi,
                                next,
                                root,
                                c,
                                n,
                                nn,
                                s,
                            );
                            assert(kid_ok(old_pages, kids, keys, hc, lo, hi, next, p as int, j));
                            lemma_sub_page_set_bounds(old_pages, child as int, hc, clo, chi, cnext, false);
                            assert(mid[p as int] == old_pages[p as int]);
                            assert(fin[p as int].subrange(2, 6) =~= mid[p as int].subrange(2, 6)) by {
                                assert(fin[p as int].subrange(2, 6) =~= fin[p as int].subrange(0, 6).subrange(2, 6));
                                assert(mid[p as int].subrange(2, 6) =~= mid[p as int].subrange(0, 6).subrange(2, 6));
                            }
                            if parents_ok(old_pages, p as int, h) {
                                lemma_kids_parents_forall(old_pages, kids, p as int, hc, kids.len());
                                assert(kid_parent_ok(old_pages, kids, p as int, hc, j));
                                let sep = split_keys(old_pages, mid, p as int, h, c)[s - 1];
                                lemma_parents_splits(
                                    old_pages,
                                    mid,
                                    fin,
                                    p as int,
                                    h,
                                    lo,
                                    hi,
                                    next,
                                    root,
                                    j,
                                    n,
                                    nn,
                                    s,
                                    lo,
                                    sep as int,
                                    first_leaf(fin, nn as int, h),
                                    sep as int,
                                    hi,
                                    next,
                                );
                            }
                            lemma_kids_shapes_index(old_pages, kids, hc, kids.len());
                            lemma_shape_max(
                                mid,
                                child as int,
                                hc,
                                clo,
                                max_key(sub_cells(mid, child as int, hc)) as int,
                                first_leaf(mid, n as int, hc),
                                false,
                            );
                            let sep2 = split_keys(old_pages, mid, p as int, h, c)[s - 1];
                            lemma_shape_splits(
                                old_pages,
                                mid,
                                fin,
                                p as int,
                                h,
                                lo,
                                hi,
                                next,
                                root,
                                j,
                                n,
                                nn,
                                s,
                                left_max,
                                shape(mid, child as int, hc),
                                shape(mid, n as int, hc),
                                lo,
                                sep2 as int,
                                first_leaf(fin, nn as int, h),
                                sep2 as int,
                                hi,
                                next,
                            );
                        }
                        Some(nn)
                    }
                },
            }
        },
    }
}

/// Put a new root above the two halves of a split root: the left half moves
/// from page 0 to a new page, and page 0 becomes an internal node over the
/// left half and `right_child_page_num`.
pub fn create_new_root(pager: &mut Pager, right_child_page_num: u32, Ghost(h): Ghost<nat>)
    requires
        old(pager).wf(),
        old(pager).spec_num_pages() < TABLE_MAX_PAGES,
        sub_wf(
            old(pager)@,
            0,
            h,
            -1,
            max_key(sub_cells(old(pager)@, 0, h)) as int,
            first_leaf(old(pager)@, right_child_page_num as int, h),
            false,
        ),
        sub_wf(
            old(pager)@,
            right_child_page_num as int,
            h,
            max_key(sub_cells(old(pager)@, 0, h)) as int,
            u32::MAX as int,
            0,
            false,
        ),
        sub_page_set(old(pager)@, 0, h).disjoint(
            sub_page_set(old(pager)@, right_child_page_num as int, h),
        ),
    ensures
        final(pager).wf(),
        final(pager)@.len() == old(pager)@.len() + 1,
        tree_wf(final(pager)@, h + 1),
        tree_cells(final(pager)@, h + 1) == sub_cells(old(pager)@, 0, h) + sub_cells(
            old(pager)@,
            right_child_page_num as int,
            h,
        ),
        ({
            let l = old(pager)@.len() as int;
            let root = final(pager)@[0];
            &&& node_type_of(root) == 0
            &&& is_root_of(root)
            &&& node_kids(root) == seq![l as u32, right_child_page_num]
            &&& node_keys(root) == seq![max_key(sub_cells(old(pager)@, 0, h))]
            &&& content_eq(old(pager)@[0], final(pager)@[l])
            &&& content_eq(
                old(pager)@[right_child_page_num as int],
                final(pager)@[right_child_page_num as int],
            )
            &&& !is_root_of(final(pager)@[l])
            &&& parent_of(final(pager)@[l]) == 0
            &&& parent_of(final(pager)@[right_child_page_num as int]) == 0
            &&& h > 0 ==> forall|i: int|
                0 <= i < node_kids(old(pager)@[0]).len() ==> parent_of(
                    #[trigger] final(pager)@[node_kids(old(pager)@[0])[i] as int],
                ) == l
            &&& forall|q: int|
                0 <= q < old(pager)@.len() && q != 0 && q != right_child_page_num
                    && #[trigger] final(pager)@[q] != old(pager)@[q] ==> h > 0 && content_eq(
                    old(pager)@[q],
                    final(pager)@[q],
                ) && exists|i: int|
                    0 <= i < node_kids(old(pager)@[0]).len() && #[trigger] node_kids(
                        old(pager)@[0],
                    )[i] == q
        }),
{
    proof {
        old(pager).lemma_wf();
    }
    let ghost old_pages = pager@;
    let ghost m = max_key(sub_cells(old_pages, 0, h));
    let ghost fl = first_leaf(old_pages, right_child_page_num as int, h);
    proof {
        lemma_sub_cells_ok(old_pages, 0, h, -1, m as int, fl, false);
        lemma_sub_page_set_bounds(old_pages, 0, h, -1, m as int, fl, false);
        lemma_sub_page_set_bounds(old_pages, right_child_page_num as int, h, m as int, u32::MAX as int, 0, false);
    }
    let left_max = get_node_max_key(pager, 0, Ghost(h), Ghost(-1), Ghost(m as int), Ghost(fl), Ghost(false));
    let root = pager.page(0);
    let left_child_page_num = pager.get_unused_page_num();
    let _fresh = pager.get_page(left_child_page_num);
    let mut left_child = root;
    set_node_root(&mut left_child, false);
    set_node_parent(&mut left_child, 0);
    pager.set_page(left_child_page_num, left_child);
    let ghost l = left_child_page_num as int;
    let ghost mid = pager@;
    proof {
        assert(content_eq(old_pages[0], mid[l])) by {
            assert(mid[l][0] == old_pages[0][0]);
            assert(mid[l].subrange(6, PAGE_SIZE as int) =~= old_pages[0].subrange(6, PAGE_SIZE as int));
        }
        assert forall|q: int| 0 <= q < old_pages.len() implies #[trigger] mid[q] == old_pages[q] by {}
    }
    let ghost kids0 = node_kids(old_pages[0]);
    let is_internal = match get_node_type(&root) {
        NodeType::InternalNode => true,
        _ => false,
    };
    if is_internal {
        let (kids, _keys) = read_internal(&root);
        proof {
            let keys0 = node_keys(old_pages[0]);
            let hc = (h - 1) as nat;
            lemma_kids_wf_forall(old_pages, kids0, keys0, hc, -1, m as int, fl, 0, kids0.len());
            assert forall|i: int| 0 <= i < kids0.len() implies #[trigger] kids0[i] < old_pages.len()
                && kids0[i] != 0 && sub_page_set(old_pages, 0, h).contains(kids0[i] as int) by {
                assert(kid_ok(old_pages, kids0, keys0, hc, -1, m as int, fl, 0, i));
                lemma_sub_page_set_bounds(
                    old_pages,
                    kids0[i] as int,
                    hc,
                    kid_lo(keys0, -1, i),
                    kid_hi(keys0, m as int, i),
                    kid_next(old_pages, kids0, hc, fl, i),
                    false,
                );
                lemma_kids_pages_member(old_pages, kids0, hc, kids0.len(), kids0[i] as int);
            }
        }
        let mut i: usize = 0;
        while i < kids.len()
            invariant
                pager.wf(),
                pager@.len() == old_pages.len() + 1,
                l == old_pages.len(),
                kids@ == kids0,
                0 <= i <= kids@.len(),
                forall|k: int| 0 <= k < kids0.len() ==> #[trigger] kids0[k] < old_pages.len()
                    && kids0[k] != 0 && sub_page_set(old_pages, 0, h).contains(kids0[k] as int),
                forall|q: int| 0 <= q < old_pages.len() ==> #[trigger] old_pages[q].len() == PAGE_SIZE,
                pager@[l] == mid[l],
                left_child_page_num as int == l,
                pager@[0] == old_pages[0],
                forall|q: int|
                    0 <= q < old_pages.len() && #[trigger] pager@[q] != old_pages[q] ==> content_eq(
                        old_pages[q],
                        pager@[q],
                    ) && exists|k: int| 0 <= k < i && kids0[k] == q,
                forall|k: int| 0 <= k < i ==> parent_of(#[trigger] pager@[kids0[k] as int]) == l,
            decreases kids@.len() - i,
        {
            let c = kids[i];
            proof {
                pager.lemma_wf();
            }
            let ghost before = pager@;
            let mut child = pager.page(c);
            set_node_parent(&mut child, left_child_page_num);
            pager.set_page(c, child);
            proof {
                assert(kids0[i as int] == c);
                assert forall|k: int| 0 <= k < i + 1 implies parent_of(#[trigger] pager@[kids0[k] as int]) == l by {
                    if kids0[k] != c {
                        assert(pager@[kids0[k] as int] == before[kids0[k] as int]);
                    }
                }
                assert(pager@[c as int][0] == before[c as int][0]);
                assert(pager@[c as int].subrange(6, PAGE_SIZE as int) =~= before[c as int].subrange(6, PAGE_SIZE as int));
                assert forall|q: int|
                    0 <= q < old_pages.len() && #[trigger] pager@[q] != old_pages[q] implies content_eq(
                    old_pages[q],
                    pager@[q],
                ) && exists|k: int| 0 <= k < i + 1 && kids0[k] == q by {
                    if q == c {
                        assert(kids0[i as int] == q);
                        if before[q] != old_pages[q] {
                            assert(content_eq(old_pages[q], before[q]));
                        }
                        assert(old_pages[q].subrange(6, PAGE_SIZE as int) == pager@[q].subrange(6, PAGE_SIZE as int));
                    } else {
                        assert(pager@[q] == before[q]);
                        let k = choose|k: int| 0 <= k < i && kids0[k] == q;
                        assert(0 <= k < i + 1 && kids0[k] == q);
                    }
                }
            }
            i += 1;
        }
    }
    proof {
        pager.lemma_wf();
        if !is_internal {
            assert forall|q: int| 0 <= q < old_pages.len() && #[trigger] pager@[q] != old_pages[q] implies false by {}
        }
    }
    let ghost mid2 = pager@;
    let mut right_child = pager.page(right_child_page_num);
    set_node_parent(&mut right_child, 0);
    pager.set_page(right_child_page_num, right_child);
    let mut new_root = root;
    initialize_internal_node(&mut new_root);
    set_node_root(&mut new_root, true);
    let mut kids: Vec<u32> = Vec::new();
    kids.push(left_child_page_num);
    kids.push(right_child_page_num);
    let mut keys: Vec<u32> = Vec::new();
    keys.push(left_max);
    write_internal(&mut new_root, &kids, &keys);
    pager.set_page(0, new_root);
    proof {
        let fin = pager@;
        pager.lemma_wf();
        let n = right_child_page_num as int;
        assert(n != 0) by {
            assert(sub_page_set(old_pages, n, h).contains(n));
        }
        assert(content_eq(old_pages[n], fin[n])) by {
            if mid2[n] != old_pages[n] {
                assert(content_eq(old_pages[n], mid2[n]));
            }
            assert(fin[n][0] == mid2[n][0]);
            assert(fin[n].subrange(6, PAGE_SIZE as int) =~= mid2[n].subrange(6, PAGE_SIZE as int));
        }
        assert(fin[0][0] == fin[0].subrange(0, 6)[0]);
        assert(kids@ =~= seq![left_child_page_num, right_child_page_num]);
        assert(keys@ =~= seq![m]);
        assert forall|q: int|
            0 <= q < old_pages.len() && q != 0 && q != n && #[trigger] fin[q] != old_pages[q] implies content_eq(
            old_pages[q],
            fin[q],
        ) && sub_page_set(old_pages, 0, h).contains(q) by {
            assert(fin[q] == mid2[q]);
            if is_internal {
                let k = choose|k: int| 0 <= k < kids0.len() && kids0[k] == q;
                assert(kids0[k] < old_pages.len()
                    && kids0[k] != 0 && sub_page_set(old_pages, 0, h).contains(kids0[k] as int));
            }
        }
        lemma_new_root(old_pages, fin, h, right_child_page_num, left_child_page_num);
    }
}

/// The number of new pages inserting `key` below page `p` takes, capped
/// at 200, and whether `p` splits.
pub fn pages_needed(
    pager: &Pager,
    p: u32,
    key: u32,
    Ghost(h): Ghost<nat>,
    Ghost(lo): Ghost<int>,
    Ghost(hi): Ghost<int>,
    Ghost(next): Ghost<int>,
    Ghost(root): Ghost<bool>,
) -> (r: (u32, bool))
    requires
        pager.wf(),
        sub_wf(pager@, p as int, h, lo, hi, next, root),
        lo < key <= hi,
    ensures
        r.0 == if path_alloc(pager@, p as int, h, key) <= 200 {
            path_alloc(pager@, p as int, h, key)
        } else {
            200
        },
        r.1 == path_splits(pager@, p as int, h, key),
    decreases h,
{
    proof {
        pager.lemma_wf();
        lemma_layout_values();
    }
    let page = pager.page(p);
    match get_node_type(&page) {
        NodeType::LeafNode => {
            assert(h == 0);
            if leaf_node_num_cells(&page) >= LEAF_NODE_MAX_CELLS as u32 {
                (1, true)
            } else {
                (0, false)
            }
        },
        _ => {
            assert(h > 0);
            let ghost keys = node_keys(pager@[p as int]);
            let ghost kids = node_kids(pager@[p as int]);
            let ghost hc = (h - 1) as nat;
            let index = internal_node_find_child(&page, key);
            proof {
                assert forall|i: int| 0 <= i < keys.len() implies keys[i] == internal_key_of(
                    page@,
                    i,
                ) by {}
                lemma_child_index_unique(keys, key, index as int);
                lemma_descend(pager@, p as int, h, lo, hi, next, root, key);
            }
            let child = internal_node_child(&page, index);
            let ghost j = index as int;
            let (below, child_splits) = pages_needed(
                pager,
                child,
                key,
                Ghost(hc),
                Ghost(kid_lo(keys, lo, j)),
                Ghost(kid_hi(keys, hi, j)),
                Ghost(kid_next(pager@, kids, hc, next, j)),
                Ghost(false),
            );
            let splits = child_splits && internal_node_num_keys(&page) >= INTERNAL_NODE_MAX_CELLS as u32;
            let total = if !splits {
                below
            } else if below >= 200 {
                200
            } else {
                below + 1
            };
            (total, splits)
        },
    }
}

} // verus!
