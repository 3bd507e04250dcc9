//! The table: a B-tree of rows keyed by id, stored in the pager's pages.
use vstd::prelude::*;
use crate::btree::{
    create_new_root, insert_into_subtree, internal_node_find, lemma_new_cell, new_cell,
    pages_needed, Cursor,
};
use crate::bytes::read_u32;
use crate::constants::{
    lemma_layout_values, LEAF_NODE_CELL_SIZE, LEAF_NODE_MAX_CELLS, PAGE_SIZE, ROW_SIZE,
    TABLE_MAX_PAGES,
};
use crate::node::{
    cell_key, cell_value, empty_root_page, initialize_leaf_node, leaf_key_of, leaf_node_cell,
    leaf_node_key, leaf_node_next_leaf, leaf_node_num_cells, leaf_node_value, num_cells_of,
    set_node_root,
};
use crate::pager::{file_bytes, lemma_file_bytes, pager_open, pages_of_bytes, Pager, PagerError};
use crate::parents::{lemma_parents_new_root, parents_ok};
use crate::print::{cell_line_keys, lemma_sub_line_keys, print_tree, shape_lines, sub_lines, TreeLine};
use crate::shape::{insert_shape, leaf_shape, lemma_shape_max, lemma_shape_new_root, lemma_shape_nodes_pages, lemma_table_insert_shape_nodes, shape, shape_nodes, table_insert_shape, Shape};
use crate::row::{deserialize_row, empty_row, row_id_of, row_matches, Row};
use crate::statement::{Statement, StatementType};
use crate::tree::{sub_wf, sub_page_set, lemma_sub_page_set_len, 
    cell_keys, child_index, find_leaf, first_leaf, insert_sorted, keys_sorted, leaf_cells,
    leaf_link, leaves_cells, lemma_child_index, lemma_find_zero, lemma_height_bound,
    lemma_height_unique, lemma_leaf_chain, lemma_leaves_cells_at, lemma_sub_cells_ok, max_key,
    path_alloc, path_splits, sub_cells, sub_leaves, tree_cells, tree_wf,
};
use crate::validate::validate_tree;

verus! {

/// A table of rows, kept in a B-tree whose root is page 0.
pub struct Table {
    pub(crate) pager: Pager,
    pub root_page_num: u32,
    pub(crate) height: Ghost<nat>,
}

/// Why an insert was refused.
#[derive(PartialEq, Eq, Structural, Debug, Clone, Copy)]
pub enum ExecuteError {
    /// A row with the same id is already in the table.
    DuplicateKey,
    /// The insert needs more pages than the table may have.
    TableFull,
}

/// Each cell's key is the id of the row it holds.
pub open spec fn ids_match(cells: Seq<Seq<u8>>) -> bool {
    forall|i: int| 0 <= i < cells.len() ==> cell_key(#[trigger] cells[i]) == row_id_of(cell_value(cells[i]))
}

impl Table {
    /// The table's pages hold a well-formed B-tree rooted at page 0.
    pub closed spec fn tree_ok(&self) -> bool {
        &&& self.pager.wf()
        &&& self.pager@.len() * PAGE_SIZE <= u32::MAX
        &&& self.root_page_num == 0
        &&& tree_wf(self.pager@, self.height@)
    }

    /// The table's pages hold a well-formed B-tree rooted at page 0 whose
    /// cells are keyed by the ids of their rows.
    pub closed spec fn wf(&self) -> bool {
        &&& self.tree_ok()
        &&& ids_match(self@)
    }

    /// The cells of the table in key order: each the key, little-endian,
    /// followed by the serialized row.
    pub closed spec fn view(&self) -> Seq<Seq<u8>> {
        tree_cells(self.pager@, self.height@)
    }

    /// The height of the B-tree.
    pub closed spec fn spec_height(&self) -> nat {
        self.height@
    }

    /// The leaves of the B-tree, left to right.
    pub closed spec fn leaves(&self) -> Seq<int> {
        sub_leaves(self.pager@, 0, self.height@)
    }

    /// `cursor` stands at row `r` of the table: in leaf `li`, or past the
    /// last row.
    pub closed spec fn cursor_at(&self, cursor: Cursor, li: int, r: int) -> bool {
        let ls = self.leaves();
        let pages = self.pager@;
        if cursor.end_of_table {
            r == self@.len()
        } else {
            &&& 0 <= li < ls.len()
            &&& cursor.page_num == ls[li]
            &&& cursor.cell_num < num_cells_of(pages[ls[li]])
            &&& r == leaves_cells(pages, ls.take(li)).len() + cursor.cell_num
        }
    }

    /// The shape of the table's B-tree: which cells each leaf holds, and the
    /// keys and children of each internal node.
    pub closed spec fn shape(&self) -> Shape {
        shape(self.pager@, 0, self.height@)
    }

    /// The page number of the root of the B-tree.
    pub closed spec fn spec_root_page_num(&self) -> u32 {
        self.root_page_num
    }

    /// The page number of the root of the B-tree.
    #[verifier::when_used_as_spec(spec_root_page_num)]
    pub fn root_page_num(&self) -> (r: u32)
        ensures
            r == self.spec_root_page_num(),
    {
        self.root_page_num
    }

    /// The pager that holds the table's pages.
    pub fn pager(&self) -> (pager: &Pager)
        ensures
            pager@ == self.pages(),
            self.tree_ok() ==> pager.wf(),
    {
        &self.pager
    }

    /// Every node of the B-tree below the root records its parent's page.
    pub closed spec fn parents_linked(&self) -> bool {
        parents_ok(self.pager@, 0, self.height@)
    }

    /// The page numbers of the nodes of the B-tree.
    pub closed spec fn node_pages(&self) -> Set<int> {
        sub_page_set(self.pager@, 0, self.height@)
    }

    /// The bytes of the table's pages.
    pub closed spec fn pages(&self) -> Seq<Seq<u8>> {
        self.pager@
    }

    /// The number of new pages that inserting `key` takes: one for each
    /// node that splits, and one more when the root splits.
    pub closed spec fn pages_for_insert(&self, key: u32) -> nat {
        path_alloc(self.pager@, 0, self.height@, key) + if path_splits(
            self.pager@,
            0,
            self.height@,
            key,
        ) {
            1nat
        } else {
            0nat
        }
    }
}

/// What inserting `row` into `old` did, giving `new` and result `r`: a
/// row with the same id refuses it, so does a lack of pages, and both leave
/// the table as it was; otherwise the row's cell joins the others at its
/// key's place.
pub open spec fn insert_done(old: Table, new: Table, row: Row, r: Result<(), ExecuteError>) -> bool {
    match r {
        Err(ExecuteError::DuplicateKey) => {
            &&& cell_keys(old@).contains(row.id)
            &&& new == old
        },
        Err(ExecuteError::TableFull) => {
            &&& !cell_keys(old@).contains(row.id)
            &&& old.pages().len() + old.pages_for_insert(row.id) > TABLE_MAX_PAGES
            &&& new == old
        },
        Ok(()) => {
            &&& !cell_keys(old@).contains(row.id)
            &&& old.pages().len() + old.pages_for_insert(row.id) <= TABLE_MAX_PAGES
            &&& new@ == insert_sorted(old@, new_cell(row.id, row))
        },
    }
}

/// `rows` are the rows the table's cells hold, in order.
pub open spec fn selected(table: Table, rows: Seq<Row>) -> bool {
    &&& rows.len() == table@.len()
    &&& forall|i: int| 0 <= i < rows.len() ==> row_matches(#[trigger] rows[i], cell_value(table@[i]))
}

/// Find the leaf position where `key` is or would go.
pub fn table_find(table: &Table, key: u32) -> (cursor: Cursor)
    requires
        table.tree_ok(),
    ensures
        !cursor.end_of_table,
        cursor.page_num < table.pages().len(),
        cursor.cell_num <= num_cells_of(table.pages()[cursor.page_num as int]),
        num_cells_of(table.pages()[cursor.page_num as int]) <= LEAF_NODE_MAX_CELLS,
        table.pages()[cursor.page_num as int].len() == PAGE_SIZE,
        cursor.page_num == find_leaf(table.pages(), 0, table.spec_height(), key),
        cursor.cell_num == child_index(
            cell_keys(leaf_cells(table.pages()[cursor.page_num as int])),
            key,
        ),
        cell_keys(table@).contains(key) <==> (cursor.cell_num < num_cells_of(
            table.pages()[cursor.page_num as int],
        ) && leaf_key_of(table.pages()[cursor.page_num as int], cursor.cell_num as int) == key),
{
    proof {
        table.pager.lemma_wf();
        crate::tree::lemma_find_leaf_ok(table.pager@, 0, table.height@, -1, u32::MAX as int, 0, true, key);
    }
    internal_node_find(
        &table.pager,
        table.root_page_num,
        key,
        Ghost(table.height@),
        Ghost(-1),
        Ghost(u32::MAX as int),
        Ghost(0),
        Ghost(true),
    )
}

/// Insert `row` under its id. A row with the same id already there, or too
/// few pages left for the insert, refuse it and leave the table as it was.
pub fn execute_insert(row: &Row, table: &mut Table) -> (r: Result<(), ExecuteError>)
    requires
        old(table).wf(),
    ensures
        final(table).wf(),
        insert_done(*old(table), *final(table), *row, r),
        r is Ok ==> final(table).pages().len() == old(table).pages().len()
            + old(table).pages_for_insert(row.id),
        r is Ok ==> final(table).spec_height() == old(table).spec_height() + if insert_shape(
            old(table).shape(),
            new_cell(row.id, *row),
            old(table).spec_height(),
        ).1 is Some {
            1nat
        } else {
            0nat
        },
        r is Ok ==> final(table).shape() == table_insert_shape(
            old(table).shape(),
            new_cell(row.id, *row),
            old(table).spec_height(),
        ),
        r is Ok ==> final(table).pages().len() - old(table).pages().len()
            == final(table).node_pages().len() - old(table).node_pages().len(),
        r == Err::<(), ExecuteError>(ExecuteError::TableFull) ==> old(table).pages().len()
            + inserted_nodes(old(table).shape(), new_cell(row.id, *row), old(table).spec_height())
            > TABLE_MAX_PAGES,
        old(table).parents_linked() ==> final(table).parents_linked(),
{
    proof {
        table.pager.lemma_wf();
        lemma_layout_values();
    }
    let key_to_insert = row.id;
    let cursor = table_find(table, key_to_insert);
    let node = table.pager.page(cursor.page_num);
    let num_cells = leaf_node_num_cells(&node);
    if cursor.cell_num < num_cells {
        let key_at_index = leaf_node_key(&node, cursor.cell_num);
        if key_at_index == key_to_insert {
            return Err(ExecuteError::DuplicateKey);
        }
    }
    let (below, root_splits) = pages_needed(
        &table.pager,
        table.root_page_num,
        key_to_insert,
        Ghost(table.height@),
        Ghost(-1),
        Ghost(u32::MAX as int),
        Ghost(0),
        Ghost(true),
    );
    let extra: u32 = if root_splits { 1 } else { 0 };
    proof {
        lemma_insert_page_cost(*old(table), *row);
    }
    if table.pager.num_pages() as u64 + below as u64 + extra as u64 > TABLE_MAX_PAGES as u64 {
        return Err(ExecuteError::TableFull);
    }
    let ghost h = table.height@;
    let ghost old_pages = table.pager@;
    let split = insert_into_subtree(
        &mut table.pager,
        0,
        key_to_insert,
        row,
        Ghost(h),
        Ghost(-1),
        Ghost(u32::MAX as int),
        Ghost(0),
        Ghost(true),
    );
    proof {
        lemma_new_cell(key_to_insert, *row);
        table.pager.lemma_wf();
    }
    match split {
        None => {},
        Some(right) => {
            let ghost mid = table.pager@;
            create_new_root(&mut table.pager, right, Ghost(h));
            table.height = Ghost(h + 1);
            proof {
                table.pager.lemma_wf();
                let m0 = max_key(sub_cells(mid, 0, h));
                lemma_shape_max(mid, 0, h, -1, m0 as int, first_leaf(mid, right as int, h), false);
                lemma_shape_new_root(
                    mid,
                    table.pager@,
                    h,
                    right,
                    mid.len() as u32,
                    m0,
                    -1,
                    m0 as int,
                    first_leaf(mid, right as int, h),
                    m0 as int,
                    u32::MAX as int,
                    0,
                );
                if parents_ok(old_pages, 0, h) {
                    table.pager.lemma_wf();
                    let m = max_key(sub_cells(mid, 0, h));
                    lemma_parents_new_root(
                        mid,
                        table.pager@,
                        h,
                        right,
                        mid.len() as u32,
                        -1,
                        m as int,
                        first_leaf(mid, right as int, h),
                        m as int,
                        u32::MAX as int,
                        0,
                    );
                }
            }
        },
    }
    proof {
        lemma_sub_cells_ok(old_pages, 0, h, -1, u32::MAX as int, 0, true);
        lemma_insert_ids_match(old(table)@, *row);
        lemma_node_pages_count(*old(table));
        lemma_node_pages_count(*table);
    }
    Ok(())
}

/// The number of nodes that inserting cell `c` adds to a tree of shape `t`
/// and height `h`, a new root included.
pub open spec fn inserted_nodes(t: Shape, c: Seq<u8>, h: nat) -> int {
    let h2 = if insert_shape(t, c, h).1 is Some {
        h + 1
    } else {
        h
    };
    shape_nodes(table_insert_shape(t, c, h), h2) - shape_nodes(t, h)
}

/// The nodes of a table's B-tree are distinct pages of the table, as many
/// as its shape has nodes.
pub proof fn lemma_node_pages_count(table: Table)
    requires
        table.tree_ok(),
    ensures
        table.node_pages().finite(),
        table.node_pages().len() == shape_nodes(table.shape(), table.spec_height()),
        table.node_pages().len() <= table.pages().len(),
{
    lemma_shape_nodes_pages(table.pager@, 0, table.height@, -1, u32::MAX as int, 0, true);
    lemma_sub_page_set_len(table.pager@, 0, table.height@, -1, u32::MAX as int, 0, true);
}

/// The pages an insert takes are the nodes it adds to the tree: one for
/// every node on the key's path that splits, and one for a new root.
pub proof fn lemma_insert_page_cost(table: Table, row: Row)
    requires
        table.tree_ok(),
    ensures
        table.pages_for_insert(row.id) == inserted_nodes(
            table.shape(),
            new_cell(row.id, row),
            table.spec_height(),
        ),
{
    lemma_new_cell(row.id, row);
    lemma_table_insert_shape_nodes(table.pager@, table.height@, new_cell(row.id, row));
}

/// Inserting a row's cell keeps every cell keyed by its row's id.
proof fn lemma_insert_ids_match(cells: Seq<Seq<u8>>, row: Row)
    requires
        ids_match(cells),
        crate::tree::cells_ok(cells, -1, u32::MAX as int),
        !cell_keys(cells).contains(row.id),
    ensures
        ids_match(insert_sorted(cells, new_cell(row.id, row))),
{
    let c = new_cell(row.id, row);
    lemma_new_cell(row.id, row);
    crate::tree::lemma_insert_sorted_ok(cells, c, -1, u32::MAX as int);
    crate::row::lemma_row_bytes_len(row);
    crate::row::lemma_row_roundtrip(row);
    assert(cell_value(c) =~= crate::row::row_bytes(row));
    let pos = child_index(cell_keys(cells), row.id) as int;
    lemma_child_index(cell_keys(cells), row.id);
    let all = insert_sorted(cells, c);
    assert forall|i: int| 0 <= i < all.len() implies cell_key(#[trigger] all[i]) == row_id_of(
        cell_value(all[i]),
    ) by {
        if i < pos {
            assert(all[i] == cells[i]);
        } else if i > pos {
            assert(all[i] == cells[i - 1]);
        }
    }
}

/// A cursor at the first row of the table, or at its end when it is empty.
pub fn table_start(table: &Table) -> (r: (Cursor, Ghost<int>))
    requires
        table.tree_ok(),
    ensures
        table.cursor_at(r.0, r.1@, 0),
{
    proof {
        table.pager.lemma_wf();
        lemma_find_zero(table.pager@, 0, table.height@);
        lemma_leaf_chain(table.pager@, 0, table.height@, -1, u32::MAX as int, 0, true);
    }
    let page_num = {
        let cursor = table_find(table, 0);
        cursor.page_num
    };
    let num_cells = {
        let node = table.pager.page(page_num);
        leaf_node_num_cells(&node)
    };
    let mut cursor = table_find(table, 0);
    cursor.end_of_table = num_cells == 0;
    proof {
        let ls = table.leaves();
        let pages = table.pager@;
        assert(ls.take(0) =~= Seq::<int>::empty());
        assert(leaves_cells(pages, Seq::<int>::empty()) == Seq::<Seq<u8>>::empty());
        assert(leaf_link(pages, ls, 0, 0, true, table.height@));
        lemma_child_index(cell_keys(leaf_cells(pages[ls[0]])), 0);
        if num_cells == 0 {
            assert(table.height@ == 0);
            assert(ls.len() == 1) by {
                reveal_with_fuel(sub_leaves, 1);
            }
            lemma_leaves_cells_at(pages, ls, 0);
            assert(ls.skip(1) =~= Seq::<int>::empty());
            assert(leaf_cells(pages[ls[0]]).len() == 0);
        }
    }
    (cursor, Ghost(0))
}

/// A cursor past the last row of the table, on the root page.
pub fn table_end(table: &Table) -> (cursor: Cursor)
    requires
        table.tree_ok(),
    ensures
        table.cursor_at(cursor, 0, table@.len() as int),
        cursor.page_num == 0,
        cursor.cell_num == num_cells_of(table.pages()[0]),
{
    proof {
        table.pager.lemma_wf();
    }
    let root_node = table.pager.page(table.root_page_num);
    let num_cells = leaf_node_num_cells(&root_node);
    Cursor { page_num: table.root_page_num, end_of_table: true, cell_num: num_cells }
}

/// The serialized row at the cursor.
pub fn cursor_value(table: &Table, cursor: &Cursor, Ghost(li): Ghost<int>, Ghost(r): Ghost<int>) -> (value: Vec<u8>)
    requires
        table.tree_ok(),
        table.cursor_at(*cursor, li, r),
        !cursor.end_of_table,
    ensures
        0 <= r < table@.len(),
        value@ == cell_value(table@[r]),
        value@.len() == ROW_SIZE,
{
    proof {
        table.pager.lemma_wf();
        lemma_layout_values();
        lemma_leaf_chain(table.pager@, 0, table.height@, -1, u32::MAX as int, 0, true);
    }
    let ghost ls = table.leaves();
    let ghost pages = table.pager@;
    proof {
        assert(leaf_link(pages, ls, li, 0, true, table.height@));
    }
    let page = table.pager.page(cursor.page_num);
    let value = leaf_node_value(&page, cursor.cell_num);
    proof {
        lemma_leaves_cells_at(pages, ls, li);
        let before = leaves_cells(pages, ls.take(li));
        let cells = leaf_cells(pages[ls[li]]);
        assert((before + cells)[r] == cells[cursor.cell_num as int]);
        assert(table@ == before + cells + leaves_cells(pages, ls.skip(li + 1)));
        assert(table@[r] == (before + cells)[r]);
    }
    vstd::slice::slice_to_vec(value)
}

/// The whole cell at the cursor: the key, then the serialized row.
fn cursor_cell(table: &Table, cursor: &Cursor, Ghost(li): Ghost<int>, Ghost(r): Ghost<int>) -> (cell: Vec<u8>)
    requires
        table.tree_ok(),
        table.cursor_at(*cursor, li, r),
        !cursor.end_of_table,
    ensures
        0 <= r < table@.len(),
        cell@ == table@[r],
        cell@.len() == LEAF_NODE_CELL_SIZE,
{
    proof {
        table.pager.lemma_wf();
        lemma_layout_values();
        lemma_leaf_chain(table.pager@, 0, table.height@, -1, u32::MAX as int, 0, true);
    }
    let ghost ls = table.leaves();
    let ghost pages = table.pager@;
    proof {
        assert(leaf_link(pages, ls, li, 0, true, table.height@));
    }
    let page = table.pager.page(cursor.page_num);
    let cell = leaf_node_cell(&page, cursor.cell_num);
    proof {
        lemma_leaves_cells_at(pages, ls, li);
        let before = leaves_cells(pages, ls.take(li));
        let cells = leaf_cells(pages[ls[li]]);
        assert((before + cells)[r] == cells[cursor.cell_num as int]);
        assert(table@ == before + cells + leaves_cells(pages, ls.skip(li + 1)));
        assert(table@[r] == (before + cells)[r]);
    }
    vstd::slice::slice_to_vec(cell)
}

/// Whether every cell of the table is keyed by the id of its row.
fn cells_keyed_by_id(table: &Table) -> (b: bool)
    requires
        table.tree_ok(),
    ensures
        b == ids_match(table@),
{
    let (mut cursor, Ghost(li0)) = table_start(table);
    let ghost mut li = li0;
    let ghost mut r: int = 0;
    while !cursor.end_of_table
        invariant
            table.tree_ok(),
            table.cursor_at(cursor, li, r),
            0 <= r <= table@.len(),
            forall|i: int|
                0 <= i < r ==> cell_key(#[trigger] table@[i]) == row_id_of(cell_value(table@[i])),
        decreases table@.len() - r,
    {
        let cell = cursor_cell(table, &cursor, Ghost(li), Ghost(r));
        let key = read_u32(cell.as_slice(), 0);
        let id = read_u32(cell.as_slice(), 4);
        proof {
            assert(cell@.subrange(0, 4) =~= cell@.subrange(0, 4));
            assert(cell_value(cell@).subrange(0, 4) =~= cell@.subrange(4, 8));
        }
        if key != id {
            return false;
        }
        let Ghost(next_li) = cursor_advance(table, &mut cursor, Ghost(li), Ghost(r));
        proof {
            li = next_li;
            r = r + 1;
        }
    }
    true
}

/// Move the cursor to the next row, or past the last row.
pub fn cursor_advance(table: &Table, cursor: &mut Cursor, Ghost(li): Ghost<int>, Ghost(r): Ghost<int>) -> (next_li: Ghost<int>)
    requires
        table.tree_ok(),
        table.cursor_at(*old(cursor), li, r),
        !old(cursor).end_of_table,
    ensures
        table.cursor_at(*final(cursor), next_li@, r + 1),
{
    proof {
        table.pager.lemma_wf();
        lemma_layout_values();
        lemma_leaf_chain(table.pager@, 0, table.height@, -1, u32::MAX as int, 0, true);
    }
    let ghost ls = table.leaves();
    let ghost pages = table.pager@;
    let ghost h = table.height@;
    proof {
        assert(leaf_link(pages, ls, li, 0, true, h));
        lemma_leaves_cells_at(pages, ls, li);
    }
    let page_num = cursor.page_num;
    let node = table.pager.page(page_num);
    cursor.cell_num = cursor.cell_num + 1;
    if cursor.cell_num >= leaf_node_num_cells(&node) {
        let next_page_num = leaf_node_next_leaf(&node);
        if next_page_num == 0 {
            cursor.end_of_table = true;
            proof {
                if li + 1 < ls.len() {
                    assert(ls[li + 1] != 0);
                }
                assert(ls.skip(li + 1) =~= Seq::<int>::empty());
                assert(leaves_cells(pages, Seq::<int>::empty()) == Seq::<Seq<u8>>::empty());
            }
            Ghost(li + 1)
        } else {
            cursor.page_num = next_page_num;
            cursor.cell_num = 0;
            proof {
                if li + 1 >= ls.len() {
                    assert(next_page_num == 0);
                }
                assert(leaf_link(pages, ls, li + 1, 0, true, h));
                if h == 0 {
                    assert(ls.len() == 1);
                }
            }
            Ghost(li + 1)
        }
    } else {
        Ghost(li)
    }
}

/// Every row of the table, in key order.
pub fn execute_select(table: &Table) -> (rows: Vec<Row>)
    requires
        table.wf(),
    ensures
        selected(*table, rows@),
        forall|i: int, j: int| 0 <= i < j < rows.len() ==> rows@[i].id < rows@[j].id,
{
    let (mut cursor, Ghost(li0)) = table_start(table);
    let ghost mut li = li0;
    let ghost mut r: int = 0;
    let mut rows: Vec<Row> = Vec::new();
    while !cursor.end_of_table
        invariant
            table.wf(),
            table.cursor_at(cursor, li, r),
            rows.len() == r,
            0 <= r <= table@.len(),
            forall|i: int| 0 <= i < rows.len() ==> row_matches(#[trigger] rows@[i], cell_value(table@[i])),
        decreases table@.len() - r,
    {
        let value = cursor_value(table, &cursor, Ghost(li), Ghost(r));
        let mut row = empty_row();
        proof {
            vstd::bytes::lemma_auto_spec_u32_to_from_le_bytes();
        }
        deserialize_row(value.as_slice(), &mut row);
        rows.push(row);
        let Ghost(next_li) = cursor_advance(table, &mut cursor, Ghost(li), Ghost(r));
        proof {
            li = next_li;
            r = r + 1;
        }
    }
    proof {
        lemma_table_keys_sorted(*table);
        assert forall|i: int, j: int| 0 <= i < j < rows.len() implies rows@[i].id < rows@[j].id by {
            assert(cell_keys(table@)[i] == cell_key(table@[i]));
            assert(cell_keys(table@)[j] == cell_key(table@[j]));
        }
    }
    rows
}

/// The outline that `.btree` prints for the table: its tree from the root,
/// at no indentation.
pub fn table_outline(table: &Table) -> (lines: Vec<TreeLine>)
    requires
        table.wf(),
    ensures
        lines@ == sub_lines(table.pages(), 0, table.spec_height(), 0),
        lines@ == shape_lines(table.shape(), table.spec_height(), 0),
{
    proof {
        table.pager.lemma_wf();
        assert(sub_wf(table.pager@, 0, table.height@, -1, u32::MAX as int, 0, true));
    }
    print_tree(&table.pager, table.root_page_num, 0)
}

/// What running a statement produced.
pub enum Executed {
    /// The row was inserted.
    Inserted,
    /// The rows of the table, in key order.
    Selected(Vec<Row>),
}

/// Run `statement` against the table.
pub fn execute_statement(statement: &Statement, table: &mut Table) -> (r: Result<Executed, ExecuteError>)
    requires
        old(table).wf(),
    ensures
        final(table).wf(),
        old(table).parents_linked() ==> final(table).parents_linked(),
        statement.statement_type == StatementType::Insert ==> {
            &&& (r is Err || r matches Ok(Executed::Inserted))
            &&& r is Ok ==> final(table).shape() == table_insert_shape(
                old(table).shape(),
                new_cell(statement.row_to_insert.id, statement.row_to_insert),
                old(table).spec_height(),
            )
            &&& r is Ok ==> final(table).spec_height() == old(table).spec_height() + if insert_shape(
                old(table).shape(),
                new_cell(statement.row_to_insert.id, statement.row_to_insert),
                old(table).spec_height(),
            ).1 is Some {
                1nat
            } else {
                0nat
            }
            &&& insert_done(
                *old(table),
                *final(table),
                statement.row_to_insert,
                match r {
                    Ok(_) => Ok(()),
                    Err(e) => Err(e),
                },
            )
        },
        statement.statement_type == StatementType::Select ==> {
            &&& *final(table) == *old(table)
            &&& r matches Ok(Executed::Selected(rows)) && selected(*old(table), rows@) && forall|
                i: int,
                j: int,
            | 0 <= i < j < rows.len() ==> rows@[i].id < rows@[j].id
        },
{
    match statement.statement_type {
        StatementType::Insert => match execute_insert(&statement.row_to_insert, table) {
            Ok(()) => Ok(Executed::Inserted),
            Err(e) => Err(e),
        },
        StatementType::Select => Ok(Executed::Selected(execute_select(table))),
    }
}

/// Why a database file could not be opened.
#[derive(PartialEq, Eq, Structural, Debug, Clone, Copy)]
pub enum OpenError {
    /// The file length is not a whole number of pages.
    NotWholePages,
    /// The pages hold no well-formed B-tree rooted at page 0.
    Corrupt,
}

/// Open the table stored in the bytes `file` of a database file. An empty
/// file gives an empty table whose root is a leaf.
pub fn db_open(file: &[u8]) -> (r: Result<Table, OpenError>)
    requires
        file@.len() <= u32::MAX,
    ensures
        match r {
            Ok(table) => {
                &&& table.wf()
                &&& table.root_page_num() == 0
                &&& file@.len() % (PAGE_SIZE as nat) == 0
                &&& file@.len() == 0 ==> table.pages() == seq![empty_root_page()] && table@.len() == 0
                    && table.parents_linked() && table.spec_height() == 0 && table.shape()
                    == leaf_shape(Seq::empty())
                &&& file@.len() > 0 ==> table.pages() == pages_of_bytes(file@)
            },
            Err(OpenError::NotWholePages) => file@.len() % (PAGE_SIZE as nat) != 0,
            Err(OpenError::Corrupt) => {
                &&& file@.len() > 0
                &&& file@.len() % (PAGE_SIZE as nat) == 0
                &&& forall|h: nat|
                    !(tree_wf(pages_of_bytes(file@), h) && ids_match(tree_cells(pages_of_bytes(file@), h)))
            },
        },
{
    let mut pager = match pager_open(file) {
        Ok(pager) => pager,
        Err(PagerError::NotWholePages) => {
            return Err(OpenError::NotWholePages);
        },
    };
    if pager.num_pages() == 0 {
        proof {
            lemma_layout_values();
            pager.lemma_wf();
        }
        let mut root = pager.get_page(0);
        proof {
            assert(root@ == crate::pager::zero_page());
        }
        initialize_leaf_node(&mut root);
        set_node_root(&mut root, true);
        proof {
            assert(root@ =~= empty_root_page());
        }
        pager.set_page(0, root);
        proof {
            pager.lemma_wf();
            let page = pager@[0];
            assert(page == empty_root_page());
            crate::node::lemma_empty_root_page();
            assert(pager@ =~= seq![empty_root_page()]);
            assert(leaf_cells(page).len() == 0);
            assert(keys_sorted(cell_keys(leaf_cells(page))));
            assert(tree_wf(pager@, 0));
        }
        let table = Table { pager, root_page_num: 0, height: Ghost(0) };
        proof {
            assert(table@ =~= Seq::<Seq<u8>>::empty());
            assert(leaf_cells(table.pager@[0]) =~= Seq::<Seq<u8>>::empty());
        }
        return Ok(table);
    }
    proof {
        pager.lemma_wf();
    }
    match validate_tree(&pager) {
        None => Err(OpenError::Corrupt),
        Some(h) => {
            let table = Table { pager, root_page_num: 0, height: Ghost(h as nat) };
            if cells_keyed_by_id(&table) {
                Ok(table)
            } else {
                proof {
                    assert(table.pages() == pages_of_bytes(file@));
                    assert(!ids_match(tree_cells(table.pages(), h as nat)));
                    assert forall|h2: nat| !(tree_wf(pages_of_bytes(file@), h2) && ids_match(tree_cells(pages_of_bytes(file@), h2))) by {
                        if tree_wf(table.pages(), h2) {
                            lemma_height_unique(table.pages(), 0, h as nat, h2, -1, u32::MAX as int, 0, true, -1, u32::MAX as int, 0, true);
                        }
                    }
                }
                Err(OpenError::Corrupt)
            }
        },
    }
}

/// The bytes of the database file that stores the table: its pages one
/// after another.
pub fn db_close(table: &Table) -> (bytes: Vec<u8>)
    requires
        table.wf(),
    ensures
        bytes@ == file_bytes(table.pages()),
{
    proof {
        table.pager.lemma_wf();
    }
    let ghost pages = table.pager@;
    let n = table.pager.num_pages();
    let mut bytes: Vec<u8> = Vec::new();
    let mut i: u32 = 0;
    while i < n
        invariant
            table.wf(),
            pages == table.pager@,
            n == pages.len(),
            n == table.pager.spec_num_pages(),
            forall|j: int| 0 <= j < pages.len() ==> #[trigger] pages[j].len() == PAGE_SIZE,
            i <= n,
            bytes@ == file_bytes(pages.take(i as int)),
        decreases n - i,
    {
        let page = match table.pager.pager_flush(i) {
            Ok(page) => page,
            Err(()) => {
                return bytes;
            },
        };
        let ghost before = bytes@;
        let mut k: usize = 0;
        while k < PAGE_SIZE
            invariant
                page@.len() == PAGE_SIZE,
                k <= PAGE_SIZE,
                bytes@ == before + page@.take(k as int),
            decreases PAGE_SIZE - k,
        {
            bytes.push(page[k]);
            proof {
                assert(page@.take(k + 1) =~= page@.take(k as int).push(page@[k as int]));
            }
            k += 1;
        }
        proof {
            assert(page@.take(PAGE_SIZE as int) =~= page@);
            assert(pages.take(i + 1).drop_last() =~= pages.take(i as int));
            assert(pages.take(i + 1).last() == pages[i as int]);
        }
        i += 1;
    }
    proof {
        assert(pages.take(n as int) =~= pages);
    }
    bytes
}

/// Two well-formed tables on the same pages hold the same rows.
pub proof fn lemma_same_pages_same_rows(a: Table, b: Table)
    requires
        a.wf(),
        b.wf(),
        a.pages() == b.pages(),
    ensures
        a@ == b@,
        a.spec_height() == b.spec_height(),
{
    lemma_height_unique(
        a.pager@,
        0,
        a.height@,
        b.height@,
        -1,
        u32::MAX as int,
        0,
        true,
        -1,
        u32::MAX as int,
        0,
        true,
    );
}

/// The bytes that store a table open again as the same pages: a whole
/// number of pages whose length fits a `u32`, holding a well-formed B-tree
/// of the table's height.
pub proof fn lemma_close_then_open(table: Table)
    requires
        table.wf(),
    ensures
        file_bytes(table.pages()).len() > 0,
        file_bytes(table.pages()).len() % (PAGE_SIZE as nat) == 0,
        file_bytes(table.pages()).len() <= u32::MAX,
        pages_of_bytes(file_bytes(table.pages())) == table.pages(),
        tree_wf(pages_of_bytes(file_bytes(table.pages())), table.spec_height()),
        ids_match(tree_cells(pages_of_bytes(file_bytes(table.pages())), table.spec_height())),
{
    table.pager.lemma_wf();
    lemma_file_bytes(table.pager@);
    let n = table.pager@.len();
    assert(n > 0);
    assert(((n * PAGE_SIZE) as nat) % (PAGE_SIZE as nat) == 0) by {
        vstd::arithmetic::div_mod::lemma_mod_multiples_basic(n as int, PAGE_SIZE as int);
    }
}

/// The cells of a table strictly increase in key.
pub proof fn lemma_table_keys_sorted(table: Table)
    requires
        table.wf(),
    ensures
        keys_sorted(cell_keys(table@)),
{
    lemma_sub_cells_ok(table.pager@, 0, table.height@, -1, u32::MAX as int, 0, true);
}

/// After `row` is inserted, select lists it at the position of its id:
/// the rows that match the new table's cells hold `row` there.
pub proof fn lemma_select_finds_inserted(before: Table, after: Table, row: Row, rows: Seq<Row>)
    requires
        before.wf(),
        insert_done(before, after, row, Ok(())),
        selected(after, rows),
    ensures
        0 <= child_index(cell_keys(before@), row.id) < rows.len(),
        rows[child_index(cell_keys(before@), row.id) as int] == row,
{
    lemma_sub_cells_ok(before.pager@, 0, before.height@, -1, u32::MAX as int, 0, true);
    lemma_new_cell(row.id, row);
    let c = new_cell(row.id, row);
    crate::tree::lemma_insert_sorted_ok(before@, c, -1, u32::MAX as int);
    let i = child_index(cell_keys(before@), row.id) as int;
    lemma_child_index(cell_keys(before@), row.id);
    assert(after@[i] == c);
    crate::row::lemma_row_roundtrip(row);
    assert(cell_value(c) =~= crate::row::row_bytes(row));
    crate::row::lemma_row_matches_unique(rows[i], row, cell_value(c));
}

/// A successful insert keeps every cell the table had and adds the new
/// row's cell at its key's place; the keys stay strictly increasing.
pub proof fn lemma_insert_keeps_cells(before: Table, after: Table, row: Row)
    requires
        before.wf(),
        after.wf(),
        insert_done(before, after, row, Ok(())),
    ensures
        after@ == before@.insert(
            child_index(cell_keys(before@), row.id) as int,
            new_cell(row.id, row),
        ),
        after@.len() == before@.len() + 1,
        forall|i: int| 0 <= i < before@.len() ==> after@.contains(#[trigger] before@[i]),
        cell_keys(after@).contains(row.id),
        keys_sorted(cell_keys(after@)),
{
    lemma_sub_cells_ok(before.pager@, 0, before.height@, -1, u32::MAX as int, 0, true);
    lemma_sub_cells_ok(after.pager@, 0, after.height@, -1, u32::MAX as int, 0, true);
    lemma_new_cell(row.id, row);
    let c = new_cell(row.id, row);
    crate::tree::lemma_insert_sorted_ok(before@, c, -1, u32::MAX as int);
    let pos = child_index(cell_keys(before@), row.id) as int;
    lemma_child_index(cell_keys(before@), row.id);
    assert forall|i: int| 0 <= i < before@.len() implies after@.contains(#[trigger] before@[i]) by {
        if i < pos {
            assert(after@[i] == before@[i]);
        } else {
            assert(after@[i + 1] == before@[i]);
        }
    }
    assert(cell_keys(after@)[pos] == row.id);
}

/// A table holds at least one page, each a whole page, and its file length
/// fits a `u32`.
pub proof fn lemma_table_page_limit(table: Table)
    requires
        table.wf(),
    ensures
        0 < table.pages().len(),
        table.pages().len() * PAGE_SIZE <= u32::MAX,
        forall|i: int| 0 <= i < table.pages().len() ==> #[trigger] table.pages()[i].len() == PAGE_SIZE,
{
    table.pager.lemma_wf();
}

/// An insert is refused as a duplicate exactly when a select lists a row
/// with the same id.
pub proof fn lemma_duplicate_iff_selected(table: Table, rows: Seq<Row>, id: u32)
    requires
        table.wf(),
        selected(table, rows),
    ensures
        cell_keys(table@).contains(id) <==> exists|i: int| 0 <= i < rows.len() && #[trigger] rows[i].id == id,
{
    if cell_keys(table@).contains(id) {
        let i = choose|i: int| 0 <= i < cell_keys(table@).len() && cell_keys(table@)[i] == id;
        assert(rows[i].id == id);
    }
    if exists|i: int| 0 <= i < rows.len() && #[trigger] rows[i].id == id {
        let i = choose|i: int| 0 <= i < rows.len() && #[trigger] rows[i].id == id;
        assert(cell_keys(table@)[i] == id);
    }
}

/// The leaf entries of the tree's outline are the ids of the rows a select
/// lists, in the same order.
pub proof fn lemma_outline_lists_ids(table: Table, rows: Seq<Row>)
    requires
        table.wf(),
        selected(table, rows),
    ensures
        cell_line_keys(sub_lines(table.pages(), 0, table.spec_height(), 0)) == rows.map_values(
            |r: Row| r.id,
        ),
{
    lemma_sub_line_keys(table.pager@, 0, table.height@, 0);
    assert(cell_keys(table@) =~= rows.map_values(|r: Row| r.id)) by {
        assert forall|i: int| 0 <= i < rows.len() implies cell_keys(table@)[i] == rows[i].id by {
            assert(cell_keys(table@)[i] == cell_key(table@[i]));
        }
    }
}

/// A well-formed table's pages hold a well-formed B-tree of its height,
/// and its cells are keyed by their rows' ids.
pub proof fn lemma_wf_tree_ok(table: Table)
    requires
        table.wf(),
    ensures
        table.tree_ok(),
        table.root_page_num() == 0,
        table.pages().len() >= 1,
        tree_wf(table.pages(), table.spec_height()),
        ids_match(table@),
        table@ == tree_cells(table.pages(), table.spec_height()),
        table.shape() == shape(table.pages(), 0, table.spec_height()),
{
}

/// Where a cursor stands: past the last row, or on a cell of a leaf that
/// holds row `r` of the table.
pub proof fn lemma_cursor_at(table: Table, cursor: Cursor, li: int, r: int)
    requires
        table.tree_ok(),
        table.cursor_at(cursor, li, r),
    ensures
        cursor.end_of_table ==> r == table@.len(),
        !cursor.end_of_table ==> {
            &&& 0 <= r < table@.len()
            &&& cursor.page_num < table.pages().len()
            &&& cursor.cell_num < num_cells_of(table.pages()[cursor.page_num as int])
            &&& leaf_cells(table.pages()[cursor.page_num as int])[cursor.cell_num as int]
                == table@[r]
        },
{
    if !cursor.end_of_table {
        table.pager.lemma_wf();
        lemma_layout_values();
        lemma_leaf_chain(table.pager@, 0, table.height@, -1, u32::MAX as int, 0, true);
        let ls = table.leaves();
        let pages = table.pager@;
        assert(leaf_link(pages, ls, li, 0, true, table.height@));
        lemma_leaves_cells_at(pages, ls, li);
        let before = leaves_cells(pages, ls.take(li));
        let cells = leaf_cells(pages[ls[li]]);
        assert((before + cells)[r] == cells[cursor.cell_num as int]);
        assert(table@ == before + cells + leaves_cells(pages, ls.skip(li + 1)));
        assert(table@[r] == (before + cells)[r]);
    }
}

} // verus!
