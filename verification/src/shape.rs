//! The shape of the B-tree: which cells each leaf holds, and the keys and
//! children of each internal node.
use vstd::prelude::*;
use crate::constants::{lemma_layout_values, INTERNAL_NODE_MAX_CELLS, LEAF_NODE_LEFT_SPLIT_COUNT, LEAF_NODE_MAX_CELLS};
use crate::node::cell_key;
use crate::tree::{
    child_index, frame_ok, lemma_child_index, kids_pages, kids_wf, path_alloc, path_splits, insert_sorted, kid_hi, kid_lo, kid_next, kid_ok, leaf_cells,
    lemma_content_eq_views, lemma_kids_pages_member, lemma_kids_wf_forall,
    lemma_sub_cells_nonempty, lemma_sub_cells_ok, lemma_sub_page_set_bounds, max_key, node_keys,
    node_kids, sub_cells, sub_page_set, sub_wf, unchanged_outside, content_eq,
};
use crate::constants::PAGE_SIZE;

verus! {

/// A node of the B-tree as a mathematical value.
pub enum Shape {
    /// A leaf and its cells, in order.
    Leaf { cells: Seq<Seq<u8>> },
    /// An internal node, its keys and its children.
    Internal { keys: Seq<u32>, kids: Seq<Shape> },
}

/// A leaf's shape.
pub open spec fn leaf_shape(cells: Seq<Seq<u8>>) -> Shape {
    Shape::Leaf { cells }
}

/// An internal node's shape.
pub open spec fn internal_shape(keys: Seq<u32>, kids: Seq<Shape>) -> Shape {
    Shape::Internal { keys, kids }
}

/// The shape of the subtree of height `h` rooted at page `p`.
pub open spec fn shape(pages: Seq<Seq<u8>>, p: int, h: nat) -> Shape
    decreases h, 0nat,
{
    if h == 0 {
        Shape::Leaf { cells: leaf_cells(pages[p]) }
    } else {
        Shape::Internal {
            keys: node_keys(pages[p]),
            kids: kids_shapes(pages, node_kids(pages[p]), (h - 1) as nat, node_kids(pages[p]).len()),
        }
    }
}

/// The shapes of the first `n` of `kids`, subtrees of height `hc`.
pub open spec fn kids_shapes(pages: Seq<Seq<u8>>, kids: Seq<u32>, hc: nat, n: nat) -> Seq<Shape>
    decreases hc, n,
{
    if n == 0 {
        Seq::empty()
    } else {
        kids_shapes(pages, kids, hc, (n - 1) as nat).push(shape(pages, kids[n - 1] as int, hc))
    }
}

/// The largest key of a shape of height `h`: the last key of its last leaf.
pub open spec fn shape_max(t: Shape, h: nat) -> u32
    decreases h,
{
    match t {
        Shape::Leaf { cells } => cell_key(cells.last()),
        Shape::Internal { keys, kids } => if h == 0 {
            0
        } else {
            shape_max(kids.last(), (h - 1) as nat)
        },
    }
}

/// Insertion of cell `c` into a shape of height `h`: the shape it becomes,
/// and the shape of the new right sibling when it splits. A full leaf
/// keeps the first `LEAF_NODE_LEFT_SPLIT_COUNT` cells and gives the rest to
/// its sibling. A full internal node keeps three children when the new one
/// went in at the front, two otherwise, and gives the rest to its sibling;
/// the key between the halves goes up to the parent.
pub open spec fn insert_shape(t: Shape, c: Seq<u8>, h: nat) -> (Shape, Option<Shape>)
    decreases h,
{
    match t {
        Shape::Leaf { cells } => {
            let all = insert_sorted(cells, c);
            if cells.len() >= LEAF_NODE_MAX_CELLS {
                (
                    Shape::Leaf { cells: all.take(LEAF_NODE_LEFT_SPLIT_COUNT as int) },
                    Some(Shape::Leaf { cells: all.skip(LEAF_NODE_LEFT_SPLIT_COUNT as int) }),
                )
            } else {
                (Shape::Leaf { cells: all }, None)
            }
        },
        Shape::Internal { keys, kids } => if h == 0 {
            (t, None)
        } else {
            let j = child_index(keys, cell_key(c)) as int;
            let (l, r) = insert_shape(kids[j], c, (h - 1) as nat);
            match r {
                None => (Shape::Internal { keys, kids: kids.update(j, l) }, None),
                Some(rr) => {
                    let kids2 = kids.update(j, l).insert(j + 1, rr);
                    let keys2 = keys.insert(j, shape_max(l, (h - 1) as nat));
                    if keys.len() < INTERNAL_NODE_MAX_CELLS {
                        (Shape::Internal { keys: keys2, kids: kids2 }, None)
                    } else {
                        let s: int = if j == 0 {
                            3
                        } else {
                            2
                        };
                        (
                            Shape::Internal { keys: keys2.take(s - 1), kids: kids2.take(s) },
                            Some(Shape::Internal { keys: keys2.skip(s), kids: kids2.skip(s) }),
                        )
                    }
                },
            }
        },
    }
}

/// The shape of a whole tree of height `h` after inserting `c`: a split
/// root gets a new root above its two halves.
pub open spec fn table_insert_shape(t: Shape, c: Seq<u8>, h: nat) -> Shape {
    let (l, r) = insert_shape(t, c, h);
    match r {
        None => l,
        Some(rr) => Shape::Internal { keys: seq![shape_max(l, h)], kids: seq![l, rr] },
    }
}

/// The children's shapes, one by one.
pub proof fn lemma_kids_shapes_index(pages: Seq<Seq<u8>>, kids: Seq<u32>, hc: nat, n: nat)
    ensures
        kids_shapes(pages, kids, hc, n).len() == n,
        forall|i: int| 0 <= i < n ==> #[trigger] kids_shapes(pages, kids, hc, n)[i] == shape(pages, kids[i] as int, hc),
    decreases n,
{
    if n > 0 {
        lemma_kids_shapes_index(pages, kids, hc, (n - 1) as nat);
    }
}

/// A subtree whose pages keep their nodes keeps its shape.
pub proof fn lemma_shape_frame(
    pages: Seq<Seq<u8>>,
    pages2: Seq<Seq<u8>>,
    p: int,
    h: nat,
    lo: int,
    hi: int,
    next: int,
    root: bool,
)
    requires
        sub_wf(pages, p, h, lo, hi, next, root),
        frame_ok(pages, pages2, sub_page_set(pages, p, h)),
    ensures
        shape(pages2, p, h) == shape(pages, p, h),
    decreases h,
{
    lemma_sub_page_set_bounds(pages, p, h, lo, hi, next, root);
    assert(sub_page_set(pages, p, h).contains(p));
    lemma_content_eq_views(pages[p], pages2[p]);
    if h > 0 {
        let keys = node_keys(pages[p]);
        let kids = node_kids(pages[p]);
        let hc = (h - 1) as nat;
        lemma_kids_wf_forall(pages, kids, keys, hc, lo, hi, next, p, kids.len());
        lemma_kids_shapes_index(pages, kids, hc, kids.len());
        lemma_kids_shapes_index(pages2, kids, hc, kids.len());
        assert forall|i: int| 0 <= i < kids.len() implies shape(pages2, kids[i] as int, hc) == shape(
            pages,
            kids[i] as int,
            hc,
        ) by {
            assert(kid_ok(pages, kids, keys, hc, lo, hi, next, p, i));
            assert forall|q: int| #[trigger] sub_page_set(pages, kids[i] as int, hc).contains(q) implies sub_page_set(
                pages,
                p,
                h,
            ).contains(q) by {
                lemma_kids_pages_member(pages, kids, hc, kids.len(), q);
            }
            lemma_shape_frame(
                pages,
                pages2,
                kids[i] as int,
                hc,
                kid_lo(keys, lo, i),
                kid_hi(keys, hi, i),
                kid_next(pages, kids, hc, next, i),
                false,
            );
        }
        assert(kids_shapes(pages2, kids, hc, kids.len()) =~= kids_shapes(pages, kids, hc, kids.len()));
    }
}

/// The largest key of a subtree, read off its shape.
pub proof fn lemma_shape_max(
    pages: Seq<Seq<u8>>,
    p: int,
    h: nat,
    lo: int,
    hi: int,
    next: int,
    root: bool,
)
    requires
        sub_wf(pages, p, h, lo, hi, next, root),
    ensures
        shape_max(shape(pages, p, h), h) == max_key(sub_cells(pages, p, h)),
    decreases h,
{
    if h > 0 {
        let keys = node_keys(pages[p]);
        let kids = node_kids(pages[p]);
        let hc = (h - 1) as nat;
        let n = kids.len();
        lemma_sub_cells_ok(pages, p, h, lo, hi, next, root);
        lemma_kids_wf_forall(pages, kids, keys, hc, lo, hi, next, p, n);
        assert(kid_ok(pages, kids, keys, hc, lo, hi, next, p, n - 1));
        lemma_kids_shapes_index(pages, kids, hc, n);
        assert(keys.len() as int == n - 1);
        lemma_shape_max(
            pages,
            kids[n - 1] as int,
            hc,
            kid_lo(keys, lo, n - 1),
            kid_hi(keys, hi, n - 1),
            kid_next(pages, kids, hc, next, n - 1),
            false,
        );
    }
}

/// A child other than `j` keeps its shape when only the pages of child
/// `j`'s subtree change.
pub proof fn lemma_shape_sibling(
    old: Seq<Seq<u8>>,
    mid: Seq<Seq<u8>>,
    p: int,
    h: nat,
    lo: int,
    hi: int,
    next: int,
    root: bool,
    j: int,
    i: int,
)
    requires
        sub_wf(old, p, h, lo, hi, next, root),
        h > 0,
        0 <= j < node_kids(old[p]).len(),
        0 <= i < node_kids(old[p]).len(),
        i != j,
        unchanged_outside(old, mid, sub_page_set(old, node_kids(old[p])[j] as int, (h - 1) as nat)),
    ensures
        shape(mid, node_kids(old[p])[i] as int, (h - 1) as nat) == shape(
            old,
            node_kids(old[p])[i] as int,
            (h - 1) as nat,
        ),
{
    let keys = node_keys(old[p]);
    let kids = node_kids(old[p]);
    let hc = (h - 1) as nat;
    let k = kids[i] as int;
    let cj = kids[j] as int;
    lemma_kids_wf_forall(old, kids, keys, hc, lo, hi, next, p, kids.len());
    assert(kid_ok(old, kids, keys, hc, lo, hi, next, p, i));
    let (lk, hk, nk) = (kid_lo(keys, lo, i), kid_hi(keys, hi, i), kid_next(old, kids, hc, next, i));
    lemma_sub_page_set_bounds(old, k, hc, lk, hk, nk, false);
    let sk = sub_page_set(old, k, hc);
    let sj = sub_page_set(old, cj, hc);
    if i < j {
        assert(sk.disjoint(sj));
    } else {
        assert(sj.disjoint(sk));
    }
    assert forall|q: int| #[trigger] sk.contains(q) implies 0 <= q < old.len() && q < mid.len()
        && content_eq(old[q], mid[q]) by {
        assert(!sj.contains(q));
        assert(mid[q] == old[q]);
        assert(old[q].subrange(6, PAGE_SIZE as int) =~= mid[q].subrange(6, PAGE_SIZE as int));
    }
    lemma_shape_frame(old, mid, k, hc, lk, hk, nk, false);
}

/// After child `j` split off page `n`, each entry of the children list with
/// `n` put after child `j` has the shape that insertion gives it.
pub proof fn lemma_shape_split_kid(
    old: Seq<Seq<u8>>,
    mid: Seq<Seq<u8>>,
    p: int,
    h: nat,
    lo: int,
    hi: int,
    next: int,
    root: bool,
    j: int,
    n: u32,
    l: Shape,
    rr: Shape,
    i: int,
)
    requires
        sub_wf(old, p, h, lo, hi, next, root),
        h > 0,
        0 <= j < node_kids(old[p]).len(),
        0 <= i <= node_kids(old[p]).len(),
        unchanged_outside(old, mid, sub_page_set(old, node_kids(old[p])[j] as int, (h - 1) as nat)),
        shape(mid, node_kids(old[p])[j] as int, (h - 1) as nat) == l,
        shape(mid, n as int, (h - 1) as nat) == rr,
    ensures
        shape(mid, node_kids(old[p]).insert(j + 1, n)[i] as int, (h - 1) as nat) == kids_shapes(
            old,
            node_kids(old[p]),
            (h - 1) as nat,
            node_kids(old[p]).len(),
        ).update(j, l).insert(j + 1, rr)[i],
{
    let kids = node_kids(old[p]);
    let hc = (h - 1) as nat;
    let kids2 = kids.insert(j + 1, n);
    let ks = kids_shapes(old, kids, hc, kids.len());
    lemma_kids_shapes_index(old, kids, hc, kids.len());
    let ks2 = ks.update(j, l).insert(j + 1, rr);
    if i < j {
        assert(kids2[i] == kids[i]);
        assert(ks2[i] == ks[i]);
        lemma_shape_sibling(old, mid, p, h, lo, hi, next, root, j, i);
    } else if i == j {
        assert(kids2[i] == kids[i]);
        assert(ks2[i] == l);
    } else if i == j + 1 {
        assert(kids2[i] == n);
        assert(ks2[i] == rr);
    } else {
        assert(kids2[i] == kids[i - 1]);
        assert(ks2[i] == ks[i - 1]);
        lemma_shape_sibling(old, mid, p, h, lo, hi, next, root, j, i - 1);
    }
}

/// After the child that a new cell went to took it without splitting, the
/// parent's shape has that child's new shape in its place.
pub proof fn lemma_shape_child_grew(
    old: Seq<Seq<u8>>,
    mid: Seq<Seq<u8>>,
    p: int,
    h: nat,
    lo: int,
    hi: int,
    next: int,
    root: bool,
    j: int,
    l: Shape,
)
    requires
        sub_wf(old, p, h, lo, hi, next, root),
        h > 0,
        0 <= j < node_kids(old[p]).len(),
        unchanged_outside(old, mid, sub_page_set(old, node_kids(old[p])[j] as int, (h - 1) as nat)),
        shape(mid, node_kids(old[p])[j] as int, (h - 1) as nat) == l,
        mid[p] == old[p],
    ensures
        shape(mid, p, h) == internal_shape(
            node_keys(old[p]),
            kids_shapes(old, node_kids(old[p]), (h - 1) as nat, node_kids(old[p]).len()).update(j, l),
        ),
{
    let kids = node_kids(old[p]);
    let hc = (h - 1) as nat;
    lemma_kids_shapes_index(old, kids, hc, kids.len());
    lemma_kids_shapes_index(mid, kids, hc, kids.len());
    assert forall|i: int| 0 <= i < kids.len() implies #[trigger] kids_shapes(mid, kids, hc, kids.len())[i]
        == kids_shapes(old, kids, hc, kids.len()).update(j, l)[i] by {
        if i != j {
            lemma_shape_sibling(old, mid, p, h, lo, hi, next, root, j, i);
        }
    }
    assert(kids_shapes(mid, kids, hc, kids.len()) =~= kids_shapes(old, kids, hc, kids.len()).update(j, l));
}

/// A child's shape carries over from `mid` to `fin` when its subtree's pages
/// are the same there, but for its own page keeping its node.
proof fn lemma_shape_carry(
    fin: Seq<Seq<u8>>,
    mid: Seq<Seq<u8>>,
    kids: Seq<u32>,
    keys: Seq<u32>,
    hc: nat,
    lo: int,
    hi: int,
    next: int,
    p: int,
    i: int,
)
    requires
        kid_ok(fin, kids, keys, hc, lo, hi, next, p, i),
        forall|q: int|
            #[trigger] sub_page_set(fin, kids[i] as int, hc).contains(q) ==> q < mid.len() && (
            fin[q] == mid[q] || (q == kids[i] && content_eq(fin[q], mid[q]))),
    ensures
        shape(fin, kids[i] as int, hc) == shape(mid, kids[i] as int, hc),
{
    let k = kids[i] as int;
    let (lk, hk, nk) = (kid_lo(keys, lo, i), kid_hi(keys, hi, i), kid_next(fin, kids, hc, next, i));
    lemma_sub_page_set_bounds(fin, k, hc, lk, hk, nk, false);
    assert forall|q: int| #[trigger] sub_page_set(fin, k, hc).contains(q) implies 0 <= q < fin.len()
        && q < mid.len() && content_eq(fin[q], mid[q]) by {
        if fin[q] == mid[q] {
            assert(mid[q].subrange(6, PAGE_SIZE as int) =~= fin[q].subrange(6, PAGE_SIZE as int));
        }
    }
    lemma_shape_frame(fin, mid, k, hc, lk, hk, nk, false);
}

/// After child `j` split off page `n` and `p` took `n` as a new child, with
/// `m` the key of child `j`, `p` has the shape that insertion gives it.
pub proof fn lemma_shape_absorbs(
    old: Seq<Seq<u8>>,
    mid: Seq<Seq<u8>>,
    fin: Seq<Seq<u8>>,
    p: int,
    h: nat,
    lo: int,
    hi: int,
    next: int,
    root: bool,
    j: int,
    n: u32,
    m: u32,
    l: Shape,
    rr: Shape,
)
    requires
        sub_wf(old, p, h, lo, hi, next, root),
        h > 0,
        0 <= j < node_kids(old[p]).len(),
        unchanged_outside(old, mid, sub_page_set(old, node_kids(old[p])[j] as int, (h - 1) as nat)),
        shape(mid, node_kids(old[p])[j] as int, (h - 1) as nat) == l,
        shape(mid, n as int, (h - 1) as nat) == rr,
        mid[p] == old[p],
        fin.len() == mid.len(),
        forall|q: int| 0 <= q < mid.len() && q != p ==> #[trigger] fin[q] == mid[q],
        node_kids(fin[p]) == node_kids(mid[p]).insert(j + 1, n),
        node_keys(fin[p]) == node_keys(mid[p]).insert(j, m),
        sub_wf(fin, p, h, lo, hi, next, root),
    ensures
        shape(fin, p, h) == internal_shape(
            node_keys(old[p]).insert(j, m),
            kids_shapes(old, node_kids(old[p]), (h - 1) as nat, node_kids(old[p]).len()).update(
                j,
                l,
            ).insert(j + 1, rr),
        ),
{
    let kids = node_kids(old[p]);
    let hc = (h - 1) as nat;
    let kids2 = kids.insert(j + 1, n);
    let keys2 = node_keys(fin[p]);
    let ks2 = kids_shapes(old, kids, hc, kids.len()).update(j, l).insert(j + 1, rr);
    lemma_kids_shapes_index(old, kids, hc, kids.len());
    lemma_kids_wf_forall(fin, kids2, keys2, hc, lo, hi, next, p, kids2.len());
    lemma_kids_shapes_index(fin, kids2, hc, kids2.len());
    assert forall|i: int| 0 <= i < kids2.len() implies #[trigger] kids_shapes(fin, kids2, hc, kids2.len())[i]
        == ks2[i] by {
        lemma_shape_split_kid(old, mid, p, h, lo, hi, next, root, j, n, l, rr, i);
        assert(kid_ok(fin, kids2, keys2, hc, lo, hi, next, p, i));
        lemma_sub_page_set_bounds(
            fin,
            kids2[i] as int,
            hc,
            kid_lo(keys2, lo, i),
            kid_hi(keys2, hi, i),
            kid_next(fin, kids2, hc, next, i),
            false,
        );
        assert forall|q: int| #[trigger] sub_page_set(fin, kids2[i] as int, hc).contains(q) implies q
            < mid.len() && (fin[q] == mid[q] || (q == kids2[i] && content_eq(fin[q], mid[q]))) by {
            assert(q != p);
        }
        lemma_shape_carry(fin, mid, kids2, keys2, hc, lo, hi, next, p, i);
    }
    assert(kids_shapes(fin, kids2, hc, kids2.len()) =~= ks2);
}

/// After a full node `p` split into `p` with the first `s` of `kids2` and a
/// new page `nn` with the rest, where only `p`, `nn` and the moved children
/// changed (those keeping their nodes), the pages under each kept child
/// are as they were, and so are those under each moved child but its own.
pub proof fn lemma_split_frame(
    mid: Seq<Seq<u8>>,
    fin: Seq<Seq<u8>>,
    p: int,
    h: nat,
    kids2: Seq<u32>,
    nn: u32,
    s: int,
    lo2: int,
    hi2: int,
    next2: int,
    lo3: int,
    hi3: int,
    next3: int,
)
    requires
        h > 0,
        0 < s < kids2.len(),
        nn == mid.len(),
        fin.len() == mid.len() + 1,
        node_kids(fin[p]) == kids2.take(s),
        node_kids(fin[nn as int]) == kids2.skip(s),
        forall|q: int|
            0 <= q < mid.len() && q != p && #[trigger] fin[q] != mid[q] ==> content_eq(mid[q], fin[q])
                && exists|i: int| s <= i < kids2.len() && #[trigger] kids2[i] == q,
        sub_wf(fin, p, h, lo2, hi2, next2, false),
        sub_wf(fin, nn as int, h, lo3, hi3, next3, false),
        sub_page_set(fin, p, h).disjoint(sub_page_set(fin, nn as int, h)),
    ensures
        forall|i: int, q: int|
            0 <= i < s && #[trigger] sub_page_set(fin, kids2[i] as int, (h - 1) as nat).contains(q)
                ==> q < mid.len() && fin[q] == mid[q],
        forall|i: int, q: int|
            s <= i < kids2.len() && #[trigger] sub_page_set(fin, kids2[i] as int, (h - 1) as nat).contains(
                q,
            ) ==> q < mid.len() && (fin[q] == mid[q] || (q == kids2[i] && content_eq(fin[q], mid[q]))),
{
    let hc = (h - 1) as nat;
    let left = kids2.take(s);
    let right = kids2.skip(s);
    let lkeys = node_keys(fin[p]);
    let rkeys = node_keys(fin[nn as int]);
    lemma_kids_wf_forall(fin, left, lkeys, hc, lo2, hi2, next2, p, left.len());
    lemma_kids_wf_forall(fin, right, rkeys, hc, lo3, hi3, next3, nn as int, right.len());
    lemma_sub_page_set_bounds(fin, p, h, lo2, hi2, next2, false);
    lemma_sub_page_set_bounds(fin, nn as int, h, lo3, hi3, next3, false);
    assert forall|i: int, q: int|
        0 <= i < s && #[trigger] sub_page_set(fin, kids2[i] as int, hc).contains(q) implies q
        < mid.len() && fin[q] == mid[q] by {
        assert(left[i] == kids2[i]);
        lemma_kids_pages_member(fin, left, hc, left.len(), q);
        assert(sub_page_set(fin, p, h).contains(q));
        assert(!sub_page_set(fin, nn as int, h).contains(q));
        assert(kid_ok(fin, left, lkeys, hc, lo2, hi2, next2, p, i));
        lemma_sub_page_set_bounds(
            fin,
            left[i] as int,
            hc,
            kid_lo(lkeys, lo2, i),
            kid_hi(lkeys, hi2, i),
            kid_next(fin, left, hc, next2, i),
            false,
        );
        if q != p && fin[q] != mid[q] {
            let k = choose|k: int| s <= k < kids2.len() && #[trigger] kids2[k] == q;
            assert(right[k - s] == q);
            assert(kid_ok(fin, right, rkeys, hc, lo3, hi3, next3, nn as int, k - s));
            lemma_sub_page_set_bounds(
                fin,
                right[k - s] as int,
                hc,
                kid_lo(rkeys, lo3, k - s),
                kid_hi(rkeys, hi3, k - s),
                kid_next(fin, right, hc, next3, k - s),
                false,
            );
            lemma_kids_pages_member(fin, right, hc, right.len(), q);
        }
    }
    assert forall|i: int, q: int|
        s <= i < kids2.len() && #[trigger] sub_page_set(fin, kids2[i] as int, hc).contains(q) implies q
        < mid.len() && (fin[q] == mid[q] || (q == kids2[i] && content_eq(fin[q], mid[q]))) by {
        let i0 = i - s;
        assert(right[i0] == kids2[i]);
        lemma_kids_pages_member(fin, right, hc, right.len(), q);
        assert(sub_page_set(fin, nn as int, h).contains(q));
        assert(!sub_page_set(fin, p, h).contains(q));
        assert(kid_ok(fin, right, rkeys, hc, lo3, hi3, next3, nn as int, i0));
        lemma_sub_page_set_bounds(
            fin,
            right[i0] as int,
            hc,
            kid_lo(rkeys, lo3, i0),
            kid_hi(rkeys, hi3, i0),
            kid_next(fin, right, hc, next3, i0),
            false,
        );
        if fin[q] != mid[q] {
            let k = choose|k: int| s <= k < kids2.len() && #[trigger] kids2[k] == q;
            if k - s != i0 {
                assert(right[k - s] == q);
                assert(kid_ok(fin, right, rkeys, hc, lo3, hi3, next3, nn as int, k - s));
                lemma_sub_page_set_bounds(
                    fin,
                    right[k - s] as int,
                    hc,
                    kid_lo(rkeys, lo3, k - s),
                    kid_hi(rkeys, hi3, k - s),
                    kid_next(fin, right, hc, next3, k - s),
                    false,
                );
                if i0 < k - s {
                    assert(sub_page_set(fin, right[i0] as int, hc).disjoint(
                        sub_page_set(fin, right[k - s] as int, hc),
                    ));
                } else {
                    assert(sub_page_set(fin, right[k - s] as int, hc).disjoint(
                        sub_page_set(fin, right[i0] as int, hc),
                    ));
                }
            }
        }
    }
}

/// After child `j` split off page `n` and full `p` split too, into `p` with
/// the first `s` children and the new page `nn` with the rest, `p` and `nn`
/// have the shapes that insertion gives them.
pub proof fn lemma_shape_splits(
    old: Seq<Seq<u8>>,
    mid: Seq<Seq<u8>>,
    fin: Seq<Seq<u8>>,
    p: int,
    h: nat,
    lo: int,
    hi: int,
    next: int,
    root: bool,
    j: int,
    n: u32,
    nn: u32,
    s: int,
    m: u32,
    l: Shape,
    rr: Shape,
    lo2: int,
    hi2: int,
    next2: int,
    lo3: int,
    hi3: int,
    next3: int,
)
    requires
        sub_wf(old, p, h, lo, hi, next, root),
        h > 0,
        0 <= j < node_kids(old[p]).len(),
        unchanged_outside(old, mid, sub_page_set(old, node_kids(old[p])[j] as int, (h - 1) as nat)),
        shape(mid, node_kids(old[p])[j] as int, (h - 1) as nat) == l,
        shape(mid, n as int, (h - 1) as nat) == rr,
        mid[p] == old[p],
        0 < s < node_kids(old[p]).len() + 1,
        nn == mid.len(),
        fin.len() == mid.len() + 1,
        node_kids(fin[p]) == node_kids(mid[p]).insert(j + 1, n).take(s),
        node_kids(fin[nn as int]) == node_kids(mid[p]).insert(j + 1, n).skip(s),
        node_keys(fin[p]) == node_keys(mid[p]).insert(j, m).take(s - 1),
        node_keys(fin[nn as int]) == node_keys(mid[p]).insert(j, m).skip(s),
        forall|q: int|
            0 <= q < mid.len() && q != p && #[trigger] fin[q] != mid[q] ==> content_eq(mid[q], fin[q])
                && exists|i: int|
                s <= i < node_kids(mid[p]).len() + 1 && #[trigger] node_kids(mid[p]).insert(j + 1, n)[i]
                    == q,
        sub_wf(fin, p, h, lo2, hi2, next2, false),
        sub_wf(fin, nn as int, h, lo3, hi3, next3, false),
        sub_page_set(fin, p, h).disjoint(sub_page_set(fin, nn as int, h)),
    ensures
        shape(fin, p, h) == internal_shape(
            node_keys(old[p]).insert(j, m).take(s - 1),
            kids_shapes(old, node_kids(old[p]), (h - 1) as nat, node_kids(old[p]).len()).update(
                j,
                l,
            ).insert(j + 1, rr).take(s),
        ),
        shape(fin, nn as int, h) == internal_shape(
            node_keys(old[p]).insert(j, m).skip(s),
            kids_shapes(old, node_kids(old[p]), (h - 1) as nat, node_kids(old[p]).len()).update(
                j,
                l,
            ).insert(j + 1, rr).skip(s),
        ),
{
    let kids = node_kids(old[p]);
    let hc = (h - 1) as nat;
    let kids2 = kids.insert(j + 1, n);
    let ks2 = kids_shapes(old, kids, hc, kids.len()).update(j, l).insert(j + 1, rr);
    lemma_kids_shapes_index(old, kids, hc, kids.len());
    lemma_split_frame(mid, fin, p, h, kids2, nn, s, lo2, hi2, next2, lo3, hi3, next3);
    let left = kids2.take(s);
    let right = kids2.skip(s);
    let lkeys = node_keys(fin[p]);
    let rkeys = node_keys(fin[nn as int]);
    lemma_kids_wf_forall(fin, left, lkeys, hc, lo2, hi2, next2, p, left.len());
    lemma_kids_wf_forall(fin, right, rkeys, hc, lo3, hi3, next3, nn as int, right.len());
    lemma_kids_shapes_index(fin, left, hc, left.len());
    lemma_kids_shapes_index(fin, right, hc, right.len());
    assert forall|i: int| 0 <= i < left.len() implies #[trigger] kids_shapes(fin, left, hc, left.len())[i]
        == ks2.take(s)[i] by {
        lemma_shape_split_kid(old, mid, p, h, lo, hi, next, root, j, n, l, rr, i);
        assert(left[i] == kids2[i]);
        assert(kid_ok(fin, left, lkeys, hc, lo2, hi2, next2, p, i));
        assert forall|q: int| #[trigger] sub_page_set(fin, left[i] as int, hc).contains(q) implies q
            < mid.len() && (fin[q] == mid[q] || (q == left[i] && content_eq(fin[q], mid[q]))) by {
            assert(sub_page_set(fin, kids2[i] as int, hc).contains(q));
        }
        lemma_shape_carry(fin, mid, left, lkeys, hc, lo2, hi2, next2, p, i);
    }
    assert forall|i: int| 0 <= i < right.len() implies #[trigger] kids_shapes(fin, right, hc, right.len())[i]
        == ks2.skip(s)[i] by {
        lemma_shape_split_kid(old, mid, p, h, lo, hi, next, root, j, n, l, rr, i + s);
        assert(right[i] == kids2[i + s]);
        assert(kid_ok(fin, right, rkeys, hc, lo3, hi3, next3, nn as int, i));
        assert forall|q: int| #[trigger] sub_page_set(fin, right[i] as int, hc).contains(q) implies q
            < mid.len() && (fin[q] == mid[q] || (q == right[i] && content_eq(fin[q], mid[q]))) by {
            assert(sub_page_set(fin, kids2[i + s] as int, hc).contains(q));
        }
        lemma_shape_carry(fin, mid, right, rkeys, hc, lo3, hi3, next3, nn as int, i);
    }
    assert(kids_shapes(fin, left, hc, left.len()) =~= ks2.take(s));
    assert(kids_shapes(fin, right, hc, right.len()) =~= ks2.skip(s));
}

/// When a new root at page 0 takes the old root, moved to page `l`, and
/// page `n` as its two children, with key `m` between them, the tree's
/// shape is a node over the two old shapes.
pub proof fn lemma_shape_new_root(
    old: Seq<Seq<u8>>,
    fin: Seq<Seq<u8>>,
    h: nat,
    n: u32,
    l: u32,
    m: u32,
    lo: int,
    hi: int,
    next: int,
    lo2: int,
    hi2: int,
    next2: int,
)
    requires
        forall|i: int| 0 <= i < old.len() ==> #[trigger] old[i].len() == PAGE_SIZE,
        forall|i: int| 0 <= i < fin.len() ==> #[trigger] fin[i].len() == PAGE_SIZE,
        sub_wf(old, 0, h, lo, hi, next, false),
        sub_wf(old, n as int, h, lo2, hi2, next2, false),
        sub_page_set(old, 0, h).disjoint(sub_page_set(old, n as int, h)),
        l == old.len(),
        fin.len() == old.len() + 1,
        content_eq(old[0], fin[l as int]),
        content_eq(old[n as int], fin[n as int]),
        node_kids(fin[0]) == seq![l, n],
        node_keys(fin[0]) == seq![m],
        forall|q: int|
            0 <= q < old.len() && q != 0 && q != n && #[trigger] fin[q] != old[q] ==> h > 0
                && content_eq(old[q], fin[q]) && exists|i: int|
                0 <= i < node_kids(old[0]).len() && #[trigger] node_kids(old[0])[i] == q,
    ensures
        shape(fin, 0, h + 1) == internal_shape(seq![m], seq![shape(old, 0, h), shape(old, n as int, h)]),
{
    lemma_layout_values();
    lemma_sub_page_set_bounds(old, 0, h, lo, hi, next, false);
    lemma_sub_page_set_bounds(old, n as int, h, lo2, hi2, next2, false);
    let kids0 = node_kids(old[0]);
    let keys0 = node_keys(old[0]);
    lemma_content_eq_views(old[0], fin[l as int]);
    if h > 0 {
        let hc = (h - 1) as nat;
        lemma_kids_wf_forall(old, kids0, keys0, hc, lo, hi, next, 0, kids0.len());
        lemma_kids_shapes_index(old, kids0, hc, kids0.len());
        lemma_kids_shapes_index(fin, kids0, hc, kids0.len());
        assert forall|i: int| 0 <= i < kids0.len() implies shape(fin, kids0[i] as int, hc) == shape(
            old,
            kids0[i] as int,
            hc,
        ) by {
            let k = kids0[i] as int;
            assert(kid_ok(old, kids0, keys0, hc, lo, hi, next, 0, i));
            let (lk, hk, nk) = (kid_lo(keys0, lo, i), kid_hi(keys0, hi, i), kid_next(old, kids0, hc, next, i));
            lemma_sub_page_set_bounds(old, k, hc, lk, hk, nk, false);
            assert forall|q: int| #[trigger] sub_page_set(old, k, hc).contains(q) implies 0 <= q
                < old.len() && q < fin.len() && content_eq(old[q], fin[q]) by {
                lemma_kids_pages_member(old, kids0, hc, kids0.len(), q);
                assert(sub_page_set(old, 0, h).contains(q));
                assert(q != n);
                if fin[q] == old[q] {
                    assert(old[q].subrange(6, PAGE_SIZE as int) =~= fin[q].subrange(6, PAGE_SIZE as int));
                }
            }
            lemma_shape_frame(old, fin, k, hc, lk, hk, nk, false);
        }
        assert(kids_shapes(fin, kids0, hc, kids0.len()) =~= kids_shapes(old, kids0, hc, kids0.len()));
    }
    assert(shape(fin, l as int, h) == shape(old, 0, h));
    assert forall|q: int| #[trigger] sub_page_set(old, n as int, h).contains(q) implies 0 <= q < old.len()
        && q < fin.len() && content_eq(old[q], fin[q]) by {
        assert(!sub_page_set(old, 0, h).contains(q));
        if q != n && fin[q] != old[q] {
            let i2 = choose|i2: int| 0 <= i2 < kids0.len() && #[trigger] kids0[i2] == q;
            lemma_kids_wf_forall(old, kids0, keys0, (h - 1) as nat, lo, hi, next, 0, kids0.len());
            assert(kid_ok(old, kids0, keys0, (h - 1) as nat, lo, hi, next, 0, i2));
            lemma_sub_page_set_bounds(
                old,
                q,
                (h - 1) as nat,
                kid_lo(keys0, lo, i2),
                kid_hi(keys0, hi, i2),
                kid_next(old, kids0, (h - 1) as nat, next, i2),
                false,
            );
            lemma_kids_pages_member(old, kids0, (h - 1) as nat, kids0.len(), q);
        }
        if fin[q] == old[q] {
            assert(old[q].subrange(6, PAGE_SIZE as int) =~= fin[q].subrange(6, PAGE_SIZE as int));
        }
    }
    lemma_shape_frame(old, fin, n as int, h, lo2, hi2, next2, false);
    let top = seq![l, n];
    lemma_kids_shapes_index(fin, top, h, 2);
    assert(kids_shapes(fin, top, h, 2) =~= seq![shape(old, 0, h), shape(old, n as int, h)]);
}


/// The number of nodes of a shape of height `h`.
pub open spec fn shape_nodes(t: Shape, h: nat) -> nat
    decreases h, 0nat,
{
    match t {
        Shape::Leaf { .. } => 1,
        Shape::Internal { kids, .. } => if h == 0 {
            1
        } else {
            1 + shapes_nodes(kids, (h - 1) as nat)
        },
    }
}

/// The number of nodes of the shapes `ts`, each of height `hc`.
pub open spec fn shapes_nodes(ts: Seq<Shape>, hc: nat) -> nat
    decreases hc, ts.len(),
{
    if ts.len() == 0 {
        0
    } else {
        shapes_nodes(ts.drop_last(), hc) + shape_nodes(ts.last(), hc)
    }
}

/// Node counts add up over two runs of shapes.
pub proof fn lemma_shapes_nodes_concat(a: Seq<Shape>, b: Seq<Shape>, hc: nat)
    ensures
        shapes_nodes(a + b, hc) == shapes_nodes(a, hc) + shapes_nodes(b, hc),
    decreases b.len(),
{
    if b.len() == 0 {
        assert(a + b =~= a);
    } else {
        lemma_shapes_nodes_concat(a, b.drop_last(), hc);
        assert((a + b).drop_last() =~= a + b.drop_last());
        assert((a + b).last() == b.last());
    }
}

/// The node count of a single shape in a run.
proof fn lemma_shapes_nodes_one(t: Shape, hc: nat)
    ensures
        shapes_nodes(seq![t], hc) == shape_nodes(t, hc),
{
    assert(seq![t].drop_last() =~= Seq::<Shape>::empty());
    assert(shapes_nodes(Seq::<Shape>::empty(), hc) == 0);
    assert(seq![t].last() == t);
    assert(seq![t].len() == 1);
}

/// Replacing the shape at `j` by `x` and `y` changes the count by theirs.
proof fn lemma_shapes_nodes_replace(ts: Seq<Shape>, j: int, x: Shape, y: Shape, hc: nat)
    requires
        0 <= j < ts.len(),
    ensures
        shapes_nodes(ts.update(j, x), hc) + shape_nodes(ts[j], hc) == shapes_nodes(ts, hc)
            + shape_nodes(x, hc),
        shapes_nodes(ts.update(j, x).insert(j + 1, y), hc) + shape_nodes(ts[j], hc) == shapes_nodes(
            ts,
            hc,
        ) + shape_nodes(x, hc) + shape_nodes(y, hc),
{
    let a = ts.take(j);
    let b = ts.skip(j + 1);
    assert(ts =~= a + seq![ts[j]] + b);
    assert(ts.update(j, x) =~= a + seq![x] + b);
    assert(ts.update(j, x).insert(j + 1, y) =~= a + seq![x] + seq![y] + b);
    lemma_shapes_nodes_concat(a + seq![ts[j]], b, hc);
    lemma_shapes_nodes_concat(a, seq![ts[j]], hc);
    lemma_shapes_nodes_concat(a + seq![x], b, hc);
    lemma_shapes_nodes_concat(a, seq![x], hc);
    lemma_shapes_nodes_concat(a + seq![x] + seq![y], b, hc);
    lemma_shapes_nodes_concat(a + seq![x], seq![y], hc);
    lemma_shapes_nodes_one(ts[j], hc);
    lemma_shapes_nodes_one(x, hc);
    lemma_shapes_nodes_one(y, hc);
}

/// Inserting a cell keyed `k` below page `p` adds as many nodes to the
/// shape, counting the new sibling when `p` splits, as the insert takes new
/// pages: one for every node on the key's path that splits. `p` splits
/// exactly when every node on that path is full.
pub proof fn lemma_insert_shape_nodes(
    pages: Seq<Seq<u8>>,
    p: int,
    h: nat,
    lo: int,
    hi: int,
    next: int,
    root: bool,
    c: Seq<u8>,
)
    requires
        sub_wf(pages, p, h, lo, hi, next, root),
    ensures
        ({
            let ins = insert_shape(shape(pages, p, h), c, h);
            &&& ins.1 is Some <==> path_splits(pages, p, h, cell_key(c))
            &&& shape_nodes(ins.0, h) + match ins.1 {
                Some(r) => shape_nodes(r, h),
                None => 0,
            } == shape_nodes(shape(pages, p, h), h) + path_alloc(pages, p, h, cell_key(c))
        }),
    decreases h,
{
    lemma_layout_values();
    if h > 0 {
        let k = cell_key(c);
        let page = pages[p];
        let keys = node_keys(page);
        let kids = node_kids(page);
        let hc = (h - 1) as nat;
        let ks = kids_shapes(pages, kids, hc, kids.len());
        lemma_kids_shapes_index(pages, kids, hc, kids.len());
        lemma_child_index(keys, k);
        let j = child_index(keys, k) as int;
        lemma_kids_wf_forall(pages, kids, keys, hc, lo, hi, next, p, kids.len());
        assert(kid_ok(pages, kids, keys, hc, lo, hi, next, p, j));
        lemma_insert_shape_nodes(
            pages,
            kids[j] as int,
            hc,
            kid_lo(keys, lo, j),
            kid_hi(keys, hi, j),
            kid_next(pages, kids, hc, next, j),
            false,
            c,
        );
        assert(ks[j] == shape(pages, kids[j] as int, hc));
        let (l, r) = insert_shape(ks[j], c, hc);
        match r {
            None => {
                lemma_shapes_nodes_replace(ks, j, l, l, hc);
            },
            Some(rr) => {
                lemma_shapes_nodes_replace(ks, j, l, rr, hc);
                if keys.len() >= INTERNAL_NODE_MAX_CELLS {
                    let kids2 = ks.update(j, l).insert(j + 1, rr);
                    let sp: int = if j == 0 {
                        3
                    } else {
                        2
                    };
                    assert(kids2 =~= kids2.take(sp) + kids2.skip(sp));
                    lemma_shapes_nodes_concat(kids2.take(sp), kids2.skip(sp), hc);
                }
            },
        }
    }
}


/// A well-formed subtree has as many pages as its shape has nodes.
pub proof fn lemma_shape_nodes_pages(
    pages: Seq<Seq<u8>>,
    p: int,
    h: nat,
    lo: int,
    hi: int,
    next: int,
    root: bool,
)
    requires
        sub_wf(pages, p, h, lo, hi, next, root),
    ensures
        sub_page_set(pages, p, h).finite(),
        sub_page_set(pages, p, h).len() == shape_nodes(shape(pages, p, h), h),
    decreases h, 0nat,
{
    if h > 0 {
        let keys = node_keys(pages[p]);
        let kids = node_kids(pages[p]);
        let hc = (h - 1) as nat;
        lemma_kids_nodes_pages(pages, kids, keys, hc, lo, hi, next, p, kids.len());
        let kp = kids_pages(pages, kids, hc, kids.len());
        assert(set![p].disjoint(kp));
        vstd::set_lib::lemma_set_disjoint_lens(set![p], kp);
        assert(set![p].len() == 1);
    }
}

/// The pages under the first `n` children of page `p` number as many as
/// the nodes of their shapes, and do not include `p`.
proof fn lemma_kids_nodes_pages(
    pages: Seq<Seq<u8>>,
    kids: Seq<u32>,
    keys: Seq<u32>,
    hc: nat,
    lo: int,
    hi: int,
    next: int,
    p: int,
    n: nat,
)
    requires
        kids_wf(pages, kids, keys, hc, lo, hi, next, p, n),
    ensures
        kids_pages(pages, kids, hc, n).finite(),
        kids_pages(pages, kids, hc, n).len() == shapes_nodes(kids_shapes(pages, kids, hc, n), hc),
        !kids_pages(pages, kids, hc, n).contains(p),
    decreases hc, n,
{
    if n > 0 {
        let i = n - 1;
        lemma_kids_nodes_pages(pages, kids, keys, hc, lo, hi, next, p, (n - 1) as nat);
        lemma_shape_nodes_pages(
            pages,
            kids[i] as int,
            hc,
            kid_lo(keys, lo, i),
            kid_hi(keys, hi, i),
            kid_next(pages, kids, hc, next, i),
            false,
        );
        let prev = kids_pages(pages, kids, hc, (n - 1) as nat);
        let mine = sub_page_set(pages, kids[i] as int, hc);
        vstd::set_lib::lemma_set_disjoint_lens(prev, mine);
        let ks = kids_shapes(pages, kids, hc, n);
        assert(ks.drop_last() =~= kids_shapes(pages, kids, hc, (n - 1) as nat));
        assert(ks.last() == shape(pages, kids[i] as int, hc));
    }
}

/// Inserting a cell keyed `k` into a whole tree adds as many nodes to its
/// shape as the insert takes new pages: one for every node on the key's
/// path that splits, and one more for a new root when the root splits.
pub proof fn lemma_table_insert_shape_nodes(pages: Seq<Seq<u8>>, h: nat, c: Seq<u8>)
    requires
        sub_wf(pages, 0, h, -1, u32::MAX as int, 0, true),
    ensures
        ({
            let t = shape(pages, 0, h);
            let splits = path_splits(pages, 0, h, cell_key(c));
            let h2 = if splits {
                h + 1
            } else {
                h
            };
            &&& insert_shape(t, c, h).1 is Some <==> splits
            &&& shape_nodes(table_insert_shape(t, c, h), h2) == shape_nodes(t, h) + path_alloc(
                pages,
                0,
                h,
                cell_key(c),
            ) + if splits {
                1nat
            } else {
                0nat
            }
        }),
{
    lemma_insert_shape_nodes(pages, 0, h, -1, u32::MAX as int, 0, true, c);
    let t = shape(pages, 0, h);
    let ins = insert_shape(t, c, h);
    if let Some(rr) = ins.1 {
        let l = ins.0;
        let kids = seq![l, rr];
        assert(kids =~= seq![l] + seq![rr]);
        lemma_shapes_nodes_concat(seq![l], seq![rr], h);
        lemma_shapes_nodes_one(l, h);
        lemma_shapes_nodes_one(rr, h);
    }
}

} // verus!
