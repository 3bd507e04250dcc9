//! The outline of the B-tree, one line per node, key and leaf entry.
use vstd::prelude::*;
use crate::btree::read_internal;
use crate::constants::lemma_layout_values;
use crate::node::{
    cell_key, get_node_type, leaf_key_of, leaf_node_key, leaf_node_num_cells, node_type_of, num_cells_of,
    num_keys_of,
    NodeType,
};
use crate::constants::{LEAF_NODE_MAX_CELLS, PAGE_SIZE};
use crate::pager::Pager;
use crate::shape::{kids_shapes, lemma_kids_shapes_index, shape, Shape};
use crate::tree::{
    lemma_height_unique, lemma_sub_page_set_len,
    cell_keys, kid_hi, kid_lo, kid_next, kid_ok, kids_cells, leaf_cells, lemma_kids_wf_forall,
    lemma_leaf_key_list, node_keys, node_kids, sub_cells, sub_wf,
};

verus! {

/// One line of the tree's outline; `level` is its depth of indentation.
#[derive(PartialEq, Eq, Structural, Debug, Clone, Copy)]
pub enum TreeLine {
    /// An internal node with `size` keys.
    Internal { level: u32, size: u32 },
    /// A key of an internal node, between two of its children.
    Key { level: u32, key: u32 },
    /// A leaf with `size` cells.
    Leaf { level: u32, size: u32 },
    /// The key of a cell in a leaf.
    Cell { level: u32, key: u32 },
}

/// The outline of a leaf: its header line, then one line per key.
pub open spec fn leaf_lines(page: Seq<u8>, level: u32) -> Seq<TreeLine> {
    let keys = cell_keys(leaf_cells(page));
    seq![TreeLine::Leaf { level, size: keys.len() as u32 }] + keys.map_values(
        |k: u32| TreeLine::Cell { level: (level + 1) as u32, key: k },
    )
}

/// The outline of the subtree of height `h` rooted at page `p`: a node's
/// line, then its children in order, each followed by the key after it.
pub open spec fn sub_lines(pages: Seq<Seq<u8>>, p: int, h: nat, level: u32) -> Seq<TreeLine>
    decreases h, 0nat,
{
    if h == 0 {
        leaf_lines(pages[p], level)
    } else {
        let keys = node_keys(pages[p]);
        let kids = node_kids(pages[p]);
        seq![TreeLine::Internal { level, size: keys.len() as u32 }] + kids_lines(
            pages,
            kids,
            keys,
            (h - 1) as nat,
            (level + 1) as u32,
            kids.len(),
        )
    }
}

/// The outlines of the first `n` of `kids`, each followed by its key when
/// it has one.
pub open spec fn kids_lines(
    pages: Seq<Seq<u8>>,
    kids: Seq<u32>,
    keys: Seq<u32>,
    hc: nat,
    level: u32,
    n: nat,
) -> Seq<TreeLine>
    decreases hc, n,
{
    if n == 0 {
        Seq::empty()
    } else {
        let i = n - 1;
        kids_lines(pages, kids, keys, hc, level, (n - 1) as nat) + sub_lines(
            pages,
            kids[i] as int,
            hc,
            level,
        ) + if i < keys.len() {
            seq![TreeLine::Key { level, key: keys[i] }]
        } else {
            Seq::empty()
        }
    }
}

/// The keys of the leaf entries of an outline, in order.
pub open spec fn cell_line_keys(lines: Seq<TreeLine>) -> Seq<u32>
    decreases lines.len(),
{
    if lines.len() == 0 {
        Seq::empty()
    } else {
        cell_line_keys(lines.drop_last()) + match lines.last() {
            TreeLine::Cell { level, key } => seq![key],
            _ => Seq::empty(),
        }
    }
}

/// The leaf entries of two outlines one after the other.
pub proof fn lemma_cell_line_keys_concat(a: Seq<TreeLine>, b: Seq<TreeLine>)
    ensures
        cell_line_keys(a + b) == cell_line_keys(a) + cell_line_keys(b),
    decreases b.len(),
{
    if b.len() == 0 {
        assert(a + b =~= a);
    } else {
        lemma_cell_line_keys_concat(a, b.drop_last());
        assert((a + b).drop_last() =~= a + b.drop_last());
        assert((a + b).last() == b.last());
    }
}

/// The leaf entry of a single line.
proof fn lemma_cell_line_keys_one(l: TreeLine)
    ensures
        cell_line_keys(seq![l]) == match l {
            TreeLine::Cell { level, key } => seq![key],
            _ => Seq::<u32>::empty(),
        },
{
    let one = seq![l];
    assert(one.drop_last() =~= Seq::<TreeLine>::empty());
    assert(one.last() == l);
    assert(cell_line_keys(Seq::<TreeLine>::empty()) == Seq::<u32>::empty());
    assert(Seq::<u32>::empty() + seq![0u32] =~= seq![0u32]);
    match l {
        TreeLine::Cell { level, key } => {
            assert(Seq::<u32>::empty() + seq![key] =~= seq![key]);
        },
        _ => {
            assert(Seq::<u32>::empty() + Seq::<u32>::empty() =~= Seq::<u32>::empty());
        },
    }
}

/// The leaf entries of a leaf's outline are its keys.
proof fn lemma_leaf_line_keys(keys: Seq<u32>, level: u32)
    ensures
        cell_line_keys(keys.map_values(|k: u32| TreeLine::Cell { level, key: k })) == keys,
    decreases keys.len(),
{
    let f = |k: u32| TreeLine::Cell { level, key: k };
    if keys.len() > 0 {
        lemma_leaf_line_keys(keys.drop_last(), level);
        assert(keys.map_values(f).drop_last() =~= keys.drop_last().map_values(f));
        assert(keys.drop_last() + seq![keys.last()] =~= keys);
    }
}

/// The leaf entries of a subtree's outline are the keys of its cells, in
/// order, whatever the pages hold.
pub proof fn lemma_sub_line_keys(pages: Seq<Seq<u8>>, p: int, h: nat, level: u32)
    ensures
        cell_line_keys(sub_lines(pages, p, h, level)) == cell_keys(sub_cells(pages, p, h)),
    decreases h, 0nat,
{
    if h == 0 {
        let keys = cell_keys(leaf_cells(pages[p]));
        let rest = keys.map_values(|k: u32| TreeLine::Cell { level: (level + 1) as u32, key: k });
        lemma_cell_line_keys_concat(seq![TreeLine::Leaf { level, size: keys.len() as u32 }], rest);
        lemma_leaf_line_keys(keys, (level + 1) as u32);
        lemma_cell_line_keys_one(TreeLine::Leaf { level, size: keys.len() as u32 });
        assert(Seq::<u32>::empty() + keys =~= keys);
    } else {
        let keys = node_keys(pages[p]);
        let kids = node_kids(pages[p]);
        let one = seq![TreeLine::Internal { level, size: keys.len() as u32 }];
        let rest = kids_lines(pages, kids, keys, (h - 1) as nat, (level + 1) as u32, kids.len());
        lemma_cell_line_keys_concat(one, rest);
        lemma_cell_line_keys_one(TreeLine::Internal { level, size: keys.len() as u32 });
        lemma_kids_line_keys(pages, kids, keys, (h - 1) as nat, (level + 1) as u32, kids.len());
        assert(cell_line_keys(one) + cell_line_keys(rest) =~= cell_line_keys(rest));
    }
}

/// The leaf entries of the children's outlines are the keys of their cells.
pub proof fn lemma_kids_line_keys(
    pages: Seq<Seq<u8>>,
    kids: Seq<u32>,
    keys: Seq<u32>,
    hc: nat,
    level: u32,
    n: nat,
)
    ensures
        cell_line_keys(kids_lines(pages, kids, keys, hc, level, n)) == cell_keys(
            kids_cells(pages, kids, hc, n),
        ),
    decreases hc, n,
{
    if n == 0 {
        assert(cell_keys(Seq::<Seq<u8>>::empty()) =~= Seq::<u32>::empty());
    } else {
        let i = n - 1;
        let prev = kids_lines(pages, kids, keys, hc, level, (n - 1) as nat);
        let sub = sub_lines(pages, kids[i] as int, hc, level);
        let tail = if i < keys.len() {
            seq![TreeLine::Key { level, key: keys[i] }]
        } else {
            Seq::empty()
        };
        lemma_kids_line_keys(pages, kids, keys, hc, level, (n - 1) as nat);
        lemma_sub_line_keys(pages, kids[i] as int, hc, level);
        lemma_cell_line_keys_concat(prev, sub);
        lemma_cell_line_keys_concat(prev + sub, tail);
        if i < keys.len() {
            lemma_cell_line_keys_one(TreeLine::Key { level, key: keys[i] });
        }
        assert(cell_line_keys(Seq::<TreeLine>::empty()) == Seq::<u32>::empty());
        assert(cell_line_keys(tail) =~= Seq::<u32>::empty());
        crate::tree::lemma_cell_keys_concat(
            kids_cells(pages, kids, hc, (n - 1) as nat),
            sub_cells(pages, kids[i] as int, hc),
        );
    }
}

/// The outline of a shape of height `h`, as `sub_lines` gives it for the
/// pages the shape is read from.
pub open spec fn shape_lines(t: Shape, h: nat, level: u32) -> Seq<TreeLine>
    decreases h, 0nat, 0nat,
{
    match t {
        Shape::Leaf { cells } => {
            let keys = cell_keys(cells);
            seq![TreeLine::Leaf { level, size: keys.len() as u32 }] + keys.map_values(
                |k: u32| TreeLine::Cell { level: (level + 1) as u32, key: k },
            )
        },
        Shape::Internal { keys, kids } => if h == 0 {
            Seq::empty()
        } else {
            seq![TreeLine::Internal { level, size: keys.len() as u32 }] + kids_shape_lines(
                kids,
                keys,
                (h - 1) as nat,
                (level + 1) as u32,
                kids.len(),
            )
        },
    }
}

/// The outlines of the first `n` of the shapes `kids`, each followed by its
/// key when it has one.
pub open spec fn kids_shape_lines(kids: Seq<Shape>, keys: Seq<u32>, hc: nat, level: u32, n: nat) -> Seq<
    TreeLine,
>
    decreases hc, 1nat, n,
{
    if n == 0 || n > kids.len() {
        Seq::empty()
    } else {
        let i = n - 1;
        kids_shape_lines(kids, keys, hc, level, (n - 1) as nat) + shape_lines(kids[i], hc, level)
            + if i < keys.len() {
            seq![TreeLine::Key { level, key: keys[i] }]
        } else {
            Seq::empty()
        }
    }
}

/// The outline of a subtree is the outline of its shape.
pub proof fn lemma_sub_lines_shape(pages: Seq<Seq<u8>>, p: int, h: nat, level: u32)
    ensures
        sub_lines(pages, p, h, level) == shape_lines(shape(pages, p, h), h, level),
    decreases h, 0nat,
{
    if h > 0 {
        let kids = node_kids(pages[p]);
        let keys = node_keys(pages[p]);
        lemma_kids_shapes_index(pages, kids, (h - 1) as nat, kids.len());
        lemma_kids_lines_shape(pages, kids, keys, (h - 1) as nat, (level + 1) as u32, kids.len(), kids.len());
    }
}

/// The outlines of the children are the outlines of their shapes.
pub proof fn lemma_kids_lines_shape(
    pages: Seq<Seq<u8>>,
    kids: Seq<u32>,
    keys: Seq<u32>,
    hc: nat,
    level: u32,
    n: nat,
    total: nat,
)
    requires
        n <= total,
        total <= kids.len(),
    ensures
        kids_lines(pages, kids, keys, hc, level, n) == kids_shape_lines(
            kids_shapes(pages, kids, hc, total),
            keys,
            hc,
            level,
            n,
        ),
    decreases hc, n,
{
    lemma_kids_shapes_index(pages, kids, hc, total);
    if n > 0 {
        lemma_kids_lines_shape(pages, kids, keys, hc, level, (n - 1) as nat, total);
        lemma_sub_lines_shape(pages, kids[n - 1] as int, hc, level);
    }
}

/// Append the outline of the subtree of height `h` rooted at `page_num`,
/// indented by `indentation_level`, to `out`.
pub fn append_tree_lines(
    pager: &Pager,
    page_num: u32,
    indentation_level: u32,
    out: &mut Vec<TreeLine>,
    Ghost(h): Ghost<nat>,
    Ghost(lo): Ghost<int>,
    Ghost(hi): Ghost<int>,
    Ghost(next): Ghost<int>,
    Ghost(root): Ghost<bool>,
)
    requires
        pager.wf(),
        sub_wf(pager@, page_num as int, h, lo, hi, next, root),
        indentation_level + h < u32::MAX,
    ensures
        final(out)@ == old(out)@ + sub_lines(pager@, page_num as int, h, indentation_level),
    decreases h,
{
    proof {
        pager.lemma_wf();
        lemma_layout_values();
    }
    let page = pager.page(page_num);
    match get_node_type(&page) {
        NodeType::LeafNode => {
            assert(h == 0);
            let num_cells = leaf_node_num_cells(&page);
            out.push(TreeLine::Leaf { level: indentation_level, size: num_cells });
            let ghost start = out@;
            let ghost keys = cell_keys(leaf_cells(page@));
            proof {
                lemma_leaf_key_list(page@);
            }
            let mut i: u32 = 0;
            while i < num_cells
                invariant
                    page@.len() == 4096,
                    num_cells == num_cells_of(page@),
                    num_cells <= 13,
                    keys == cell_keys(leaf_cells(page@)),
                    keys.len() == num_cells,
                    forall|j: int| 0 <= j < num_cells ==> #[trigger] keys[j] == leaf_key_of(page@, j),
                    indentation_level < u32::MAX,
                    i <= num_cells,
                    out@ == start + keys.take(i as int).map_values(
                        |k: u32| TreeLine::Cell { level: (indentation_level + 1) as u32, key: k },
                    ),
                decreases num_cells - i,
            {
                let key = leaf_node_key(&page, i);
                out.push(TreeLine::Cell { level: indentation_level + 1, key });
                proof {
                    assert(keys.take(i + 1) =~= keys.take(i as int).push(keys[i as int]));
                }
                i += 1;
            }
            proof {
                assert(keys.take(i as int) =~= keys);
            }
        },
        _ => {
            assert(h > 0);
            let ghost hc = (h - 1) as nat;
            let ghost pages = pager@;
            let (kids, keys) = read_internal(&page);
            let ghost gkids = node_kids(page@);
            let ghost gkeys = node_keys(page@);
            proof {
                lemma_kids_wf_forall(pages, gkids, gkeys, hc, lo, hi, next, page_num as int, gkids.len());
            }
            out.push(TreeLine::Internal { level: indentation_level, size: keys.len() as u32 });
            let ghost start = out@;
            let level = indentation_level + 1;
            let mut i: usize = 0;
            while i < kids.len()
                invariant
                    pager.wf(),
                    pages == pager@,
                    kids@ == gkids,
                    keys@ == gkeys,
                    kids@.len() == keys@.len() + 1,
                    h > 0,
                    hc == h - 1,
                    level == indentation_level + 1,
                    level + hc < u32::MAX,
                    forall|j: int|
                        0 <= j < gkids.len() ==> #[trigger] kid_ok(
                            pages,
                            gkids,
                            gkeys,
                            hc,
                            lo,
                            hi,
                            next,
                            page_num as int,
                            j,
                        ),
                    i <= kids.len(),
                    out@ == start + kids_lines(pages, gkids, gkeys, hc, level, i as nat),
                decreases kids.len() - i,
            {
                proof {
                    assert(kid_ok(pages, gkids, gkeys, hc, lo, hi, next, page_num as int, i as int));
                }
                append_tree_lines(
                    pager,
                    kids[i],
                    level,
                    out,
                    Ghost(hc),
                    Ghost(kid_lo(gkeys, lo, i as int)),
                    Ghost(kid_hi(gkeys, hi, i as int)),
                    Ghost(kid_next(pages, gkids, hc, next, i as int)),
                    Ghost(false),
                );
                if i < keys.len() {
                    out.push(TreeLine::Key { level, key: keys[i] });
                }
                proof {
                    let prev = kids_lines(pages, gkids, gkeys, hc, level, i as nat);
                    assert(kids_lines(pages, gkids, gkeys, hc, level, (i + 1) as nat) == prev
                        + sub_lines(pages, gkids[i as int] as int, hc, level) + if i < gkeys.len() {
                        seq![TreeLine::Key { level, key: gkeys[i as int] }]
                    } else {
                        Seq::<TreeLine>::empty()
                    });
                }
                i += 1;
            }
        },
    }
}

/// Page `p` roots a well-formed subtree of some height.
pub open spec fn roots_subtree(pages: Seq<Seq<u8>>, p: int) -> bool {
    exists|h: nat, lo: int, hi: int, next: int, root: bool|
        #[trigger] sub_wf(pages, p, h, lo, hi, next, root)
}

/// The outline of the subtree rooted at page `page_num`, indented by
/// `indentation_level`.
pub fn print_tree(pager: &Pager, page_num: u32, indentation_level: u32) -> (lines: Vec<TreeLine>)
    requires
        pager.wf(),
        roots_subtree(pager@, page_num as int),
        indentation_level + pager@.len() < u32::MAX,
    ensures
        forall|h: nat, lo: int, hi: int, next: int, root: bool|
            #[trigger] sub_wf(pager@, page_num as int, h, lo, hi, next, root) ==> lines@
                == sub_lines(pager@, page_num as int, h, indentation_level) && lines@ == shape_lines(
                shape(pager@, page_num as int, h),
                h,
                indentation_level,
            ),
{
    let ghost (h, lo, hi, next, root) = choose|h: nat, lo: int, hi: int, next: int, root: bool|
        #[trigger] sub_wf(pager@, page_num as int, h, lo, hi, next, root);
    proof {
        lemma_sub_page_set_len(pager@, page_num as int, h, lo, hi, next, root);
    }
    let mut lines: Vec<TreeLine> = Vec::new();
    append_tree_lines(
        pager,
        page_num,
        indentation_level,
        &mut lines,
        Ghost(h),
        Ghost(lo),
        Ghost(hi),
        Ghost(next),
        Ghost(root),
    );
    proof {
        assert(lines@ =~= sub_lines(pager@, page_num as int, h, indentation_level));
        assert forall|h2: nat, lo2: int, hi2: int, next2: int, root2: bool|
            #[trigger] sub_wf(pager@, page_num as int, h2, lo2, hi2, next2, root2) implies lines@
                == sub_lines(pager@, page_num as int, h2, indentation_level) && lines@ == shape_lines(
                shape(pager@, page_num as int, h2),
                h2,
                indentation_level,
            ) by {
            lemma_height_unique(pager@, page_num as int, h, h2, lo, hi, next, root, lo2, hi2, next2, root2);
            lemma_sub_lines_shape(pager@, page_num as int, h2, indentation_level);
        }
    }
    lines
}


/// The outline of a leaf page, at any level, is a line for the leaf giving
/// its number of cells, even when it holds none, followed by one line per
/// cell with that cell's key, one level deeper.
pub proof fn lemma_leaf_outline(pages: Seq<Seq<u8>>, p: int, level: u32)
    requires
        0 <= p < pages.len(),
        pages[p].len() == PAGE_SIZE,
        num_cells_of(pages[p]) <= LEAF_NODE_MAX_CELLS,
        level < u32::MAX,
    ensures
        sub_lines(pages, p, 0, level).len() == num_cells_of(pages[p]) + 1,
        sub_lines(pages, p, 0, level)[0] == (TreeLine::Leaf { level, size: num_cells_of(pages[p]) }),
        forall|i: int|
            0 <= i < num_cells_of(pages[p]) ==> #[trigger] sub_lines(pages, p, 0, level)[i + 1] == (
            TreeLine::Cell { level: (level + 1) as u32, key: leaf_key_of(pages[p], i) }),
{
    lemma_leaf_key_list(pages[p]);
    let lines = sub_lines(pages, p, 0, level);
    assert forall|i: int| 0 <= i < num_cells_of(pages[p]) implies #[trigger] lines[i + 1] == (
    TreeLine::Cell { level: (level + 1) as u32, key: leaf_key_of(pages[p], i) }) by {
        assert(cell_keys(leaf_cells(pages[p]))[i] == leaf_key_of(pages[p], i));
    }
}

/// The outline of a leaf's shape is a line for the leaf giving its number
/// of cells, even when it holds none, followed by one line per cell key.
pub proof fn lemma_leaf_shape_outline(cells: Seq<Seq<u8>>, h: nat, level: u32)
    requires
        cells.len() <= u32::MAX,
        level < u32::MAX,
    ensures
        shape_lines(Shape::Leaf { cells }, h, level).len() == cells.len() + 1,
        shape_lines(Shape::Leaf { cells }, h, level)[0] == (TreeLine::Leaf {
            level,
            size: cells.len() as u32,
        }),
        forall|i: int|
            0 <= i < cells.len() ==> #[trigger] shape_lines(Shape::Leaf { cells }, h, level)[i + 1]
                == (TreeLine::Cell { level: (level + 1) as u32, key: cell_key(cells[i]) }),
{
}

/// The outline of a table that holds no rows is a single line: its root
/// leaf, with no cells.
pub proof fn lemma_empty_table_outline(pages: Seq<Seq<u8>>)
    requires
        pages.len() >= 1,
        pages[0].len() == PAGE_SIZE,
        node_type_of(pages[0]) == 1,
        num_cells_of(pages[0]) == 0,
    ensures
        sub_lines(pages, 0, 0, 0) == seq![TreeLine::Leaf { level: 0, size: 0 }],
{
    lemma_layout_values();
    lemma_leaf_outline(pages, 0, 0);
    assert(sub_lines(pages, 0, 0, 0) =~= seq![TreeLine::Leaf { level: 0, size: 0 }]);
}


/// The outline of an internal node, at any level, starts with a line for
/// the node giving its number of keys.
pub proof fn lemma_internal_outline_head(pages: Seq<Seq<u8>>, p: int, h: nat, level: u32)
    requires
        h > 0,
    ensures
        sub_lines(pages, p, h, level)[0] == (TreeLine::Internal {
            level,
            size: num_keys_of(pages[p]),
        }),
{
}

} // verus!
