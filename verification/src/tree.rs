//! The B-tree stored in the pages: what it holds and when it is well formed.
use vstd::prelude::*;
use crate::constants::{
    lemma_layout_values, INTERNAL_NODE_MAX_CELLS, LEAF_NODE_MAX_CELLS, PAGE_SIZE,
};
use crate::node::{
    cell_key, internal_child_of, internal_key_of, leaf_cell_of, leaf_key_of,
    lemma_leaf_key_is_cell_key, next_leaf_of, node_type_of, num_cells_of, num_keys_of,
    right_child_of,
};

verus! {

/// The cells of a leaf, in order.
pub open spec fn leaf_cells(page: Seq<u8>) -> Seq<Seq<u8>> {
    Seq::new(num_cells_of(page) as nat, |i: int| leaf_cell_of(page, i))
}

/// The keys of an internal node, in order.
pub open spec fn node_keys(page: Seq<u8>) -> Seq<u32> {
    Seq::new(num_keys_of(page) as nat, |i: int| internal_key_of(page, i))
}

/// The children of an internal node, in order; the right child last.
pub open spec fn node_kids(page: Seq<u8>) -> Seq<u32> {
    Seq::new(
        num_keys_of(page) as nat + 1,
        |i: int|
            if i < num_keys_of(page) {
                internal_child_of(page, i)
            } else {
                right_child_of(page)
            },
    )
}

/// The keys of a sequence of cells.
pub open spec fn cell_keys(cells: Seq<Seq<u8>>) -> Seq<u32> {
    cells.map_values(|c: Seq<u8>| cell_key(c))
}

/// All cells of the subtree of height `h` rooted at page `p`, in order.
pub open spec fn sub_cells(pages: Seq<Seq<u8>>, p: int, h: nat) -> Seq<Seq<u8>>
    decreases h, 0nat,
{
    if h == 0 {
        leaf_cells(pages[p])
    } else {
        kids_cells(pages, node_kids(pages[p]), (h - 1) as nat, node_kids(pages[p]).len())
    }
}

/// The cells under the first `n` of `kids`, subtrees of height `hc`, in order.
pub open spec fn kids_cells(pages: Seq<Seq<u8>>, kids: Seq<u32>, hc: nat, n: nat) -> Seq<
    Seq<u8>,
>
    decreases hc, n,
{
    if n == 0 {
        Seq::empty()
    } else {
        kids_cells(pages, kids, hc, (n - 1) as nat) + sub_cells(pages, kids[n - 1] as int, hc)
    }
}

/// The page numbers of the subtree of height `h` rooted at page `p`.
pub open spec fn sub_page_set(pages: Seq<Seq<u8>>, p: int, h: nat) -> Set<int>
    decreases h, 0nat,
{
    if h == 0 {
        set![p]
    } else {
        set![p].union(
            kids_pages(pages, node_kids(pages[p]), (h - 1) as nat, node_kids(pages[p]).len()),
        )
    }
}

/// The page numbers under the first `n` of `kids`.
pub open spec fn kids_pages(pages: Seq<Seq<u8>>, kids: Seq<u32>, hc: nat, n: nat) -> Set<int>
    decreases hc, n,
{
    if n == 0 {
        Set::empty()
    } else {
        kids_pages(pages, kids, hc, (n - 1) as nat).union(
            sub_page_set(pages, kids[n - 1] as int, hc),
        )
    }
}

/// The leaves of the subtree of height `h` rooted at page `p`, left to right.
pub open spec fn sub_leaves(pages: Seq<Seq<u8>>, p: int, h: nat) -> Seq<int>
    decreases h, 0nat,
{
    if h == 0 {
        seq![p]
    } else {
        kids_leaves(pages, node_kids(pages[p]), (h - 1) as nat, node_kids(pages[p]).len())
    }
}

/// The leaves under the first `n` of `kids`, left to right.
pub open spec fn kids_leaves(pages: Seq<Seq<u8>>, kids: Seq<u32>, hc: nat, n: nat) -> Seq<int>
    decreases hc, n,
{
    if n == 0 {
        Seq::empty()
    } else {
        kids_leaves(pages, kids, hc, (n - 1) as nat) + sub_leaves(pages, kids[n - 1] as int, hc)
    }
}

/// The leftmost leaf of the subtree of height `h` rooted at page `p`.
pub open spec fn first_leaf(pages: Seq<Seq<u8>>, p: int, h: nat) -> int
    decreases h,
{
    if h == 0 {
        p
    } else {
        first_leaf(pages, node_kids(pages[p])[0] as int, (h - 1) as nat)
    }
}

/// Keys strictly increase.
pub open spec fn keys_sorted(ks: Seq<u32>) -> bool {
    forall|i: int, j: int| 0 <= i < j < ks.len() ==> ks[i] < ks[j]
}

/// Every key lies above `lo` and at or below `hi`.
pub open spec fn keys_within(ks: Seq<u32>, lo: int, hi: int) -> bool {
    forall|i: int| 0 <= i < ks.len() ==> lo < #[trigger] ks[i] <= hi
}

/// Exclusive lower bound of the keys under child `i`.
pub open spec fn kid_lo(keys: Seq<u32>, lo: int, i: int) -> int {
    if i == 0 {
        lo
    } else {
        keys[i - 1] as int
    }
}

/// Inclusive upper bound of the keys under child `i`.
pub open spec fn kid_hi(keys: Seq<u32>, hi: int, i: int) -> int {
    if i < keys.len() {
        keys[i] as int
    } else {
        hi
    }
}

/// The leaf that follows the last leaf under child `i`.
pub open spec fn kid_next(pages: Seq<Seq<u8>>, kids: Seq<u32>, hc: nat, next: int, i: int) -> int {
    if i + 1 < kids.len() {
        first_leaf(pages, kids[i + 1] as int, hc)
    } else {
        next
    }
}

/// The largest key of a nonempty run of cells.
pub open spec fn max_key(cells: Seq<Seq<u8>>) -> u32 {
    cell_key(cells.last())
}

/// A leaf holding sorted keys in `(lo, hi]`, linked to `next`; only a root
/// leaf may be empty.
pub open spec fn leaf_ok(page: Seq<u8>, lo: int, hi: int, next: int, root: bool) -> bool {
    &&& node_type_of(page) == 1
    &&& num_cells_of(page) <= LEAF_NODE_MAX_CELLS
    &&& (root || num_cells_of(page) >= 1)
    &&& next_leaf_of(page) == next
    &&& keys_sorted(cell_keys(leaf_cells(page)))
    &&& keys_within(cell_keys(leaf_cells(page)), lo, hi)
}

/// The header of an internal node with keys in `(lo, hi]`.
pub open spec fn internal_ok(page: Seq<u8>, lo: int, hi: int) -> bool {
    &&& node_type_of(page) == 0
    &&& 1 <= num_keys_of(page) <= INTERNAL_NODE_MAX_CELLS
    &&& keys_sorted(node_keys(page))
    &&& keys_within(node_keys(page), lo, hi)
}

/// The subtree of height `h` at page `p` is a well-formed B-tree whose keys
/// lie in `(lo, hi]`, whose last leaf links to `next`, and whose pages are
/// all distinct.
pub open spec fn sub_wf(
    pages: Seq<Seq<u8>>,
    p: int,
    h: nat,
    lo: int,
    hi: int,
    next: int,
    root: bool,
) -> bool
    decreases h, 0nat,
{
    &&& 0 <= p < pages.len()
    &&& pages[p].len() == PAGE_SIZE
    &&& if h == 0 {
        leaf_ok(pages[p], lo, hi, next, root)
    } else {
        &&& internal_ok(pages[p], lo, hi)
        &&& kids_wf(
            pages,
            node_kids(pages[p]),
            node_keys(pages[p]),
            (h - 1) as nat,
            lo,
            hi,
            next,
            p,
            node_kids(pages[p]).len(),
        )
    }
}

/// The first `n` of `kids` are well-formed subtrees of height `hc` in the
/// key ranges `keys` assigns them, with pages apart from each other and
/// from the parent page `p`.
pub open spec fn kids_wf(
    pages: Seq<Seq<u8>>,
    kids: Seq<u32>,
    keys: Seq<u32>,
    hc: nat,
    lo: int,
    hi: int,
    next: int,
    p: int,
    n: nat,
) -> bool
    decreases hc, n,
{
    if n == 0 {
        true
    } else {
        let i = n - 1;
        &&& kids_wf(pages, kids, keys, hc, lo, hi, next, p, (n - 1) as nat)
        &&& sub_wf(
            pages,
            kids[i] as int,
            hc,
            kid_lo(keys, lo, i),
            kid_hi(keys, hi, i),
            kid_next(pages, kids, hc, next, i),
            false,
        )
        &&& (i < keys.len() ==> max_key(sub_cells(pages, kids[i] as int, hc)) == keys[i])
        &&& !sub_page_set(pages, kids[i] as int, hc).contains(p)
        &&& sub_page_set(pages, kids[i] as int, hc).disjoint(
            kids_pages(pages, kids, hc, (n - 1) as nat),
        )
    }
}

/// Child `i` taken alone: what `kids_wf` asks of it.
pub open spec fn kid_ok(
    pages: Seq<Seq<u8>>,
    kids: Seq<u32>,
    keys: Seq<u32>,
    hc: nat,
    lo: int,
    hi: int,
    next: int,
    p: int,
    i: int,
) -> bool {
    &&& sub_wf(
        pages,
        kids[i] as int,
        hc,
        kid_lo(keys, lo, i),
        kid_hi(keys, hi, i),
        kid_next(pages, kids, hc, next, i),
        false,
    )
    &&& (i < keys.len() ==> max_key(sub_cells(pages, kids[i] as int, hc)) == keys[i])
    &&& !sub_page_set(pages, kids[i] as int, hc).contains(p)
}

/// The B-tree of height `h` rooted at page 0 is well formed.
pub open spec fn tree_wf(pages: Seq<Seq<u8>>, h: nat) -> bool {
    &&& forall|i: int| 0 <= i < pages.len() ==> #[trigger] pages[i].len() == PAGE_SIZE
    &&& sub_wf(pages, 0, h, -1, u32::MAX as int, 0, true)
}

/// The cells of the table, in key order.
pub open spec fn tree_cells(pages: Seq<Seq<u8>>, h: nat) -> Seq<Seq<u8>> {
    sub_cells(pages, 0, h)
}

/// Cells with strictly increasing keys, all in `(lo, hi]`.
pub open spec fn cells_ok(cells: Seq<Seq<u8>>, lo: int, hi: int) -> bool {
    &&& keys_sorted(cell_keys(cells))
    &&& keys_within(cell_keys(cells), lo, hi)
}

/// `a` and `b` hold the same node: they differ at most in the root flag and
/// the parent pointer.
pub open spec fn content_eq(a: Seq<u8>, b: Seq<u8>) -> bool {
    &&& a.len() == PAGE_SIZE
    &&& b.len() == PAGE_SIZE
    &&& a[0] == b[0]
    &&& a.subrange(6, PAGE_SIZE as int) == b.subrange(6, PAGE_SIZE as int)
}

/// Pages in `s` may change only in ways that keep their node.
pub open spec fn frame_ok(pages: Seq<Seq<u8>>, pages2: Seq<Seq<u8>>, s: Set<int>) -> bool {
    forall|q: int|
        #[trigger] s.contains(q) ==> 0 <= q < pages.len() && q < pages2.len() && content_eq(
            pages[q],
            pages2[q],
        )
}

/// Pages with the same node agree on every region from byte 6 on.
pub proof fn lemma_content_eq_subrange(a: Seq<u8>, b: Seq<u8>, x: int, y: int)
    requires
        content_eq(a, b),
        6 <= x <= y <= PAGE_SIZE,
    ensures
        a.subrange(x, y) == b.subrange(x, y),
{
    assert(a.subrange(x, y) =~= a.subrange(6, PAGE_SIZE as int).subrange(x - 6, y - 6));
    assert(b.subrange(x, y) =~= b.subrange(6, PAGE_SIZE as int).subrange(x - 6, y - 6));
}

/// Two pages that hold the same node show the same node fields.
pub proof fn lemma_content_eq_views(a: Seq<u8>, b: Seq<u8>)
    requires
        content_eq(a, b),
    ensures
        node_type_of(a) == node_type_of(b),
        num_cells_of(a) == num_cells_of(b),
        next_leaf_of(a) == next_leaf_of(b),
        num_keys_of(a) == num_keys_of(b),
        right_child_of(a) == right_child_of(b),
        num_cells_of(a) <= LEAF_NODE_MAX_CELLS ==> leaf_cells(a) == leaf_cells(b),
        num_keys_of(a) <= INTERNAL_NODE_MAX_CELLS ==> node_keys(a) == node_keys(b),
        num_keys_of(a) <= INTERNAL_NODE_MAX_CELLS ==> node_kids(a) == node_kids(b),
{
    lemma_layout_values();
    lemma_content_eq_subrange(a, b, 6, 10);
    lemma_content_eq_subrange(a, b, 10, 14);
    if num_cells_of(a) <= LEAF_NODE_MAX_CELLS {
        assert forall|i: int| 0 <= i < num_cells_of(a) implies leaf_cell_of(a, i) == leaf_cell_of(
            b,
            i,
        ) by {
            lemma_content_eq_subrange(a, b, 14 + i * 295, 14 + i * 295 + 295);
        }
        assert(leaf_cells(a) =~= leaf_cells(b));
    }
    if num_keys_of(a) <= INTERNAL_NODE_MAX_CELLS {
        assert forall|i: int| 0 <= i < num_keys_of(a) implies internal_key_of(a, i)
            == internal_key_of(b, i) && internal_child_of(a, i) == internal_child_of(b, i) by {
            lemma_content_eq_subrange(a, b, 14 + i * 8, 14 + i * 8 + 4);
            lemma_content_eq_subrange(a, b, 14 + i * 8 + 4, 14 + i * 8 + 8);
        }
        assert(node_keys(a) =~= node_keys(b));
        assert(node_kids(a) =~= node_kids(b));
    }
}

/// Membership in the pages under the first `n` children.
pub proof fn lemma_kids_pages_member(
    pages: Seq<Seq<u8>>,
    kids: Seq<u32>,
    hc: nat,
    n: nat,
    q: int,
)
    ensures
        kids_pages(pages, kids, hc, n).contains(q) <==> exists|i: int|
            0 <= i < n && #[trigger] sub_page_set(pages, kids[i] as int, hc).contains(q),
    decreases n,
{
    if n > 0 {
        lemma_kids_pages_member(pages, kids, hc, (n - 1) as nat, q);
        if sub_page_set(pages, kids[n - 1] as int, hc).contains(q) {
            assert(0 <= n - 1 < n);
        }
    }
}

/// `kids_wf` asks each child for `kid_ok`, and the children's pages apart.
pub proof fn lemma_kids_wf_forall(
    pages: Seq<Seq<u8>>,
    kids: Seq<u32>,
    keys: Seq<u32>,
    hc: nat,
    lo: int,
    hi: int,
    next: int,
    p: int,
    n: nat,
)
    ensures
        kids_wf(pages, kids, keys, hc, lo, hi, next, p, n) <==> {
            &&& forall|i: int|
                0 <= i < n ==> #[trigger] kid_ok(pages, kids, keys, hc, lo, hi, next, p, i)
            &&& forall|i: int, j: int|
                0 <= i < j < n ==> #[trigger] sub_page_set(pages, kids[i] as int, hc).disjoint(
                    #[trigger] sub_page_set(pages, kids[j] as int, hc),
                )
        },
    decreases n,
{
    if n > 0 {
        let m = (n - 1) as nat;
        lemma_kids_wf_forall(pages, kids, keys, hc, lo, hi, next, p, m);
        let sm = sub_page_set(pages, kids[m as int] as int, hc);
        let km = kids_pages(pages, kids, hc, m);
        if sm.disjoint(km) {
            assert forall|i: int| 0 <= i < m implies #[trigger] sub_page_set(
                pages,
                kids[i] as int,
                hc,
            ).disjoint(sm) by {
                assert forall|q: int| #[trigger]
                    sub_page_set(pages, kids[i] as int, hc).contains(q) implies !sm.contains(q) by {
                    lemma_kids_pages_member(pages, kids, hc, m, q);
                }
            }
        }
        if forall|i: int|
            0 <= i < m ==> #[trigger] sub_page_set(pages, kids[i] as int, hc).disjoint(sm) {
            assert forall|q: int| sm.contains(q) implies !km.contains(q) by {
                lemma_kids_pages_member(pages, kids, hc, m, q);
                if km.contains(q) {
                    let i = choose|i: int|
                        0 <= i < m && #[trigger] sub_page_set(pages, kids[i] as int, hc).contains(
                            q,
                        );
                    assert(sub_page_set(pages, kids[i] as int, hc).disjoint(sm));
                }
            }
            assert(sm.disjoint(km));
        }
        let fa = forall|i: int|
            0 <= i < n ==> #[trigger] kid_ok(pages, kids, keys, hc, lo, hi, next, p, i);
        let da = forall|i: int, j: int|
            0 <= i < j < n ==> #[trigger] sub_page_set(pages, kids[i] as int, hc).disjoint(
                #[trigger] sub_page_set(pages, kids[j] as int, hc),
            );
        if kids_wf(pages, kids, keys, hc, lo, hi, next, p, n) {
            assert(kid_ok(pages, kids, keys, hc, lo, hi, next, p, m as int));
            assert forall|i: int| 0 <= i < n implies #[trigger] kid_ok(
                pages,
                kids,
                keys,
                hc,
                lo,
                hi,
                next,
                p,
                i,
            ) by {
                if i < m {
                    assert(kid_ok(pages, kids, keys, hc, lo, hi, next, p, i));
                }
            }
            assert forall|i: int, j: int| 0 <= i < j < n implies #[trigger] sub_page_set(
                pages,
                kids[i] as int,
                hc,
            ).disjoint(#[trigger] sub_page_set(pages, kids[j] as int, hc)) by {
                if j == m {
                    assert(sub_page_set(pages, kids[i] as int, hc).disjoint(sm));
                }
            }
        }
        if fa && da {
            assert forall|i: int| 0 <= i < m implies #[trigger] kid_ok(
                pages,
                kids,
                keys,
                hc,
                lo,
                hi,
                next,
                p,
                i,
            ) by {
                assert(kid_ok(pages, kids, keys, hc, lo, hi, next, p, i));
            }
            assert forall|i: int, j: int| 0 <= i < j < m implies #[trigger] sub_page_set(
                pages,
                kids[i] as int,
                hc,
            ).disjoint(#[trigger] sub_page_set(pages, kids[j] as int, hc)) by {
                assert(sub_page_set(pages, kids[i] as int, hc).disjoint(
                    sub_page_set(pages, kids[j] as int, hc),
                ));
            }
            assert forall|i: int| 0 <= i < m implies #[trigger] sub_page_set(
                pages,
                kids[i] as int,
                hc,
            ).disjoint(sm) by {
                assert(sub_page_set(pages, kids[i] as int, hc).disjoint(
                    sub_page_set(pages, kids[m as int] as int, hc),
                ));
            }
            assert(kid_ok(pages, kids, keys, hc, lo, hi, next, p, m as int));
        }
    }
}


/// Every page of a subtree is a page of the pager, and the root is one of them.
pub proof fn lemma_sub_page_set_bounds(
    pages: Seq<Seq<u8>>,
    p: int,
    h: nat,
    lo: int,
    hi: int,
    next: int,
    root: bool,
)
    requires
        sub_wf(pages, p, h, lo, hi, next, root),
    ensures
        sub_page_set(pages, p, h).contains(p),
        forall|q: int| #[trigger]
            sub_page_set(pages, p, h).contains(q) ==> 0 <= q < pages.len() && pages[q].len()
                == PAGE_SIZE,
    decreases h,
{
    if h > 0 {
        let keys = node_keys(pages[p]);
        let kids = node_kids(pages[p]);
        let hc = (h - 1) as nat;
        lemma_kids_wf_forall(pages, kids, keys, hc, lo, hi, next, p, kids.len());
        assert forall|q: int| #[trigger] sub_page_set(pages, p, h).contains(q) implies 0 <= q
            < pages.len() && pages[q].len() == PAGE_SIZE by {
            if q != p {
                lemma_kids_pages_member(pages, kids, hc, kids.len(), q);
                let i = choose|i: int|
                    0 <= i < kids.len() && #[trigger] sub_page_set(
                        pages,
                        kids[i] as int,
                        hc,
                    ).contains(q);
                assert(kid_ok(pages, kids, keys, hc, lo, hi, next, p, i));
                lemma_sub_page_set_bounds(
                    pages,
                    kids[i] as int,
                    hc,
                    kid_lo(keys, lo, i),
                    kid_hi(keys, hi, i),
                    kid_next(pages, kids, hc, next, i),
                    false,
                );
            }
        }
    }
}

/// Children that agree one by one give the same combined cells, pages and leaves.
pub proof fn lemma_kids_congruence(
    pages: Seq<Seq<u8>>,
    pages2: Seq<Seq<u8>>,
    kids: Seq<u32>,
    hc: nat,
    n: nat,
)
    requires
        forall|i: int|
            0 <= i < n ==> {
                &&& #[trigger] sub_cells(pages2, kids[i] as int, hc) == sub_cells(
                    pages,
                    kids[i] as int,
                    hc,
                )
                &&& sub_page_set(pages2, kids[i] as int, hc) == sub_page_set(
                    pages,
                    kids[i] as int,
                    hc,
                )
                &&& sub_leaves(pages2, kids[i] as int, hc) == sub_leaves(pages, kids[i] as int, hc)
            },
    ensures
        kids_cells(pages2, kids, hc, n) == kids_cells(pages, kids, hc, n),
        kids_pages(pages2, kids, hc, n) == kids_pages(pages, kids, hc, n),
        kids_leaves(pages2, kids, hc, n) == kids_leaves(pages, kids, hc, n),
    decreases n,
{
    if n > 0 {
        lemma_kids_congruence(pages, pages2, kids, hc, (n - 1) as nat);
        assert(sub_cells(pages2, kids[n - 1] as int, hc) == sub_cells(
            pages,
            kids[n - 1] as int,
            hc,
        ));
    }
}

/// A subtree whose pages keep their nodes keeps its shape and contents.
pub proof fn lemma_frame(
    pages: Seq<Seq<u8>>,
    pages2: Seq<Seq<u8>>,
    p: int,
    h: nat,
    lo: int,
    hi: int,
    next: int,
    root: bool,
)
    requires
        sub_wf(pages, p, h, lo, hi, next, root),
        frame_ok(pages, pages2, sub_page_set(pages, p, h)),
    ensures
        sub_wf(pages2, p, h, lo, hi, next, root),
        sub_cells(pages2, p, h) == sub_cells(pages, p, h),
        sub_page_set(pages2, p, h) == sub_page_set(pages, p, h),
        sub_leaves(pages2, p, h) == sub_leaves(pages, p, h),
        first_leaf(pages2, p, h) == first_leaf(pages, p, h),
    decreases h,
{
    lemma_sub_page_set_bounds(pages, p, h, lo, hi, next, root);
    assert(sub_page_set(pages, p, h).contains(p));
    lemma_content_eq_views(pages[p], pages2[p]);
    if h > 0 {
        let keys = node_keys(pages[p]);
        let kids = node_kids(pages[p]);
        let hc = (h - 1) as nat;
        lemma_kids_wf_forall(pages, kids, keys, hc, lo, hi, next, p, kids.len());
        assert forall|i: int| 0 <= i < kids.len() implies {
            &&& sub_wf(
                pages2,
                kids[i] as int,
                hc,
                kid_lo(keys, lo, i),
                kid_hi(keys, hi, i),
                kid_next(pages, kids, hc, next, i),
                false,
            )
            &&& #[trigger] sub_cells(pages2, kids[i] as int, hc) == sub_cells(
                pages,
                kids[i] as int,
                hc,
            )
            &&& sub_page_set(pages2, kids[i] as int, hc) == sub_page_set(pages, kids[i] as int, hc)
            &&& sub_leaves(pages2, kids[i] as int, hc) == sub_leaves(pages, kids[i] as int, hc)
            &&& first_leaf(pages2, kids[i] as int, hc) == first_leaf(pages, kids[i] as int, hc)
        } by {
            assert(kid_ok(pages, kids, keys, hc, lo, hi, next, p, i));
            assert forall|q: int| #[trigger]
                sub_page_set(pages, kids[i] as int, hc).contains(q) implies sub_page_set(
                pages,
                p,
                h,
            ).contains(q) by {
                lemma_kids_pages_member(pages, kids, hc, kids.len(), q);
            }
            lemma_frame(
                pages,
                pages2,
                kids[i] as int,
                hc,
                kid_lo(keys, lo, i),
                kid_hi(keys, hi, i),
                kid_next(pages, kids, hc, next, i),
                false,
            );
        }
        lemma_kids_congruence(pages, pages2, kids, hc, kids.len());
        assert forall|i: int| 0 <= i < kids.len() implies kid_next(pages2, kids, hc, next, i)
            == kid_next(pages, kids, hc, next, i) by {
            if i + 1 < kids.len() {
                assert(sub_cells(pages2, kids[i + 1] as int, hc) == sub_cells(
                    pages,
                    kids[i + 1] as int,
                    hc,
                ));
                assert(first_leaf(pages2, kids[i + 1] as int, hc) == first_leaf(
                    pages,
                    kids[i + 1] as int,
                    hc,
                ));
            }
        }
        assert forall|i: int| 0 <= i < kids.len() implies #[trigger] kid_ok(
            pages2,
            kids,
            keys,
            hc,
            lo,
            hi,
            next,
            p,
            i,
        ) by {
            assert(kid_ok(pages, kids, keys, hc, lo, hi, next, p, i));
            assert(sub_cells(pages2, kids[i] as int, hc) == sub_cells(pages, kids[i] as int, hc));
        }
        assert forall|i: int, j: int| 0 <= i < j < kids.len() implies #[trigger] sub_page_set(
            pages2,
            kids[i] as int,
            hc,
        ).disjoint(#[trigger] sub_page_set(pages2, kids[j] as int, hc)) by {
            assert(sub_cells(pages2, kids[i] as int, hc) == sub_cells(pages, kids[i] as int, hc));
            assert(sub_cells(pages2, kids[j] as int, hc) == sub_cells(pages, kids[j] as int, hc));
            assert(sub_page_set(pages, kids[i] as int, hc).disjoint(
                sub_page_set(pages, kids[j] as int, hc),
            ));
        }
        lemma_kids_wf_forall(pages2, kids, keys, hc, lo, hi, next, p, kids.len());
        assert(sub_cells(pages2, kids[0] as int, hc) == sub_cells(pages, kids[0] as int, hc));
    }
}


/// The keys of concatenated cells are the concatenated keys.
pub proof fn lemma_cell_keys_concat(a: Seq<Seq<u8>>, b: Seq<Seq<u8>>)
    ensures
        cell_keys(a + b) == cell_keys(a) + cell_keys(b),
{
    assert(cell_keys(a + b) =~= cell_keys(a) + cell_keys(b));
}

/// Two runs of sorted cells, the second above the first, make one.
pub proof fn lemma_cells_ok_concat(a: Seq<Seq<u8>>, b: Seq<Seq<u8>>, lo: int, mid: int, hi: int)
    requires
        cells_ok(a, lo, mid),
        cells_ok(b, mid, hi),
        lo <= mid <= hi,
    ensures
        cells_ok(a + b, lo, hi),
{
    lemma_cell_keys_concat(a, b);
    let ka = cell_keys(a);
    let kb = cell_keys(b);
    let k = cell_keys(a + b);
    assert forall|i: int, j: int| 0 <= i < j < k.len() implies k[i] < k[j] by {
        if j < ka.len() {
            assert(ka[i] < ka[j]);
        } else if i >= ka.len() {
            assert(kb[i - ka.len()] < kb[j - ka.len()]);
        } else {
            assert(ka[i] <= mid);
            assert(mid < kb[j - ka.len()]);
        }
    }
    assert forall|i: int| 0 <= i < k.len() implies lo < #[trigger] k[i] <= hi by {
        if i < ka.len() {
            assert(lo < ka[i] <= mid);
        } else {
            assert(mid < kb[i - ka.len()] <= hi);
        }
    }
}

/// The cells of a well-formed subtree are sorted within its key range; they
/// are nonempty unless the subtree is an empty root leaf.
pub proof fn lemma_sub_cells_ok(
    pages: Seq<Seq<u8>>,
    p: int,
    h: nat,
    lo: int,
    hi: int,
    next: int,
    root: bool,
)
    requires
        sub_wf(pages, p, h, lo, hi, next, root),
    ensures
        cells_ok(sub_cells(pages, p, h), lo, hi),
        (h > 0 || !root) ==> sub_cells(pages, p, h).len() > 0,
        h > 0 ==> max_key(sub_cells(pages, p, h)) == max_key(
            sub_cells(
                pages,
                node_kids(pages[p])[node_keys(pages[p]).len() as int] as int,
                (h - 1) as nat,
            ),
        ),
    decreases h, 0nat,
{
    if h == 0 {
        let page = pages[p];
        let cells = leaf_cells(page);
        assert(cell_keys(cells) =~= cell_keys(leaf_cells(page)));
    } else {
        let keys = node_keys(pages[p]);
        let kids = node_kids(pages[p]);
        let hc = (h - 1) as nat;
        lemma_kids_cells_ok(pages, kids, keys, hc, lo, hi, next, p, kids.len());
    }
}

/// The cells under the first `n` children are sorted within the range from
/// `lo` to the upper bound of child `n - 1`.
pub proof fn lemma_kids_cells_ok(
    pages: Seq<Seq<u8>>,
    kids: Seq<u32>,
    keys: Seq<u32>,
    hc: nat,
    lo: int,
    hi: int,
    next: int,
    p: int,
    n: nat,
)
    requires
        kids_wf(pages, kids, keys, hc, lo, hi, next, p, n),
        kids.len() == keys.len() + 1,
        n <= kids.len(),
        keys_sorted(keys),
        keys_within(keys, lo, hi),
    ensures
        n == 0 ==> kids_cells(pages, kids, hc, n).len() == 0,
        n > 0 ==> cells_ok(kids_cells(pages, kids, hc, n), lo, kid_hi(keys, hi, n - 1)),
        n > 0 ==> kids_cells(pages, kids, hc, n).len() > 0,
        n > 0 ==> max_key(kids_cells(pages, kids, hc, n)) == max_key(
            sub_cells(pages, kids[n - 1] as int, hc),
        ),
    decreases hc, n,
{
    if n > 0 {
        let m = (n - 1) as nat;
        let i = m as int;
        lemma_kids_cells_ok(pages, kids, keys, hc, lo, hi, next, p, m);
        lemma_sub_cells_ok(
            pages,
            kids[i] as int,
            hc,
            kid_lo(keys, lo, i),
            kid_hi(keys, hi, i),
            kid_next(pages, kids, hc, next, i),
            false,
        );
        let a = kids_cells(pages, kids, hc, m);
        let b = sub_cells(pages, kids[i] as int, hc);
        if m == 0 {
            assert(a + b =~= b);
        } else {
            assert(kid_hi(keys, hi, m - 1) == keys[m - 1]);
            assert(kid_lo(keys, lo, i) == keys[m - 1]);
            assert(lo < keys[m - 1]);
            assert(keys[m - 1] <= kid_hi(keys, hi, i)) by {
                if i < keys.len() {
                    assert(keys[m - 1] < keys[i]);
                }
            }
            lemma_cells_ok_concat(a, b, lo, keys[m - 1] as int, kid_hi(keys, hi, i));
        }
        assert((a + b).last() == b.last());
    }
}


/// Index of the first key at or above `k`; the number of keys when all are below.
pub open spec fn child_index(keys: Seq<u32>, k: u32) -> nat
    decreases keys.len(),
{
    if keys.len() == 0 {
        0
    } else if keys[0] >= k {
        0
    } else {
        1 + child_index(keys.drop_first(), k)
    }
}

/// Keys before `child_index` are below `k`; the key at it, if any, is not.
pub proof fn lemma_child_index(keys: Seq<u32>, k: u32)
    ensures
        child_index(keys, k) <= keys.len(),
        forall|i: int| 0 <= i < child_index(keys, k) ==> keys[i] < k,
        child_index(keys, k) < keys.len() ==> keys[child_index(keys, k) as int] >= k,
    decreases keys.len(),
{
    if keys.len() > 0 && keys[0] < k {
        lemma_child_index(keys.drop_first(), k);
        assert forall|i: int| 0 <= i < child_index(keys, k) implies keys[i] < k by {
            if i > 0 {
                assert(keys[i] == keys.drop_first()[i - 1]);
            }
        }
    }
}

/// In sorted keys, the index with keys below `k` before it and a key at or
/// above `k` at it is `child_index`.
pub proof fn lemma_child_index_unique(keys: Seq<u32>, k: u32, i: int)
    requires
        keys_sorted(keys),
        0 <= i <= keys.len(),
        i == 0 || keys[i - 1] < k,
        i == keys.len() || keys[i] >= k,
    ensures
        i == child_index(keys, k),
{
    lemma_child_index(keys, k);
    let c = child_index(keys, k) as int;
    if i < c {
        assert(keys[i] < k);
    } else if i > c {
        assert(keys[c] <= keys[i - 1]);
    }
}

/// Insert cell `c` into sorted cells at its key's place.
pub open spec fn insert_sorted(cells: Seq<Seq<u8>>, c: Seq<u8>) -> Seq<Seq<u8>>
    decreases cells.len(),
{
    if cells.len() == 0 {
        seq![c]
    } else if cell_key(c) < cell_key(cells[0]) {
        seq![c] + cells
    } else {
        seq![cells[0]] + insert_sorted(cells.drop_first(), c)
    }
}

/// Cells below the new key stay in front of it.
pub proof fn lemma_insert_sorted_below(a: Seq<Seq<u8>>, b: Seq<Seq<u8>>, c: Seq<u8>)
    requires
        forall|i: int| 0 <= i < a.len() ==> cell_key(#[trigger] a[i]) < cell_key(c),
    ensures
        insert_sorted(a + b, c) == a + insert_sorted(b, c),
    decreases a.len(),
{
    if a.len() == 0 {
        assert(a + b =~= b);
        assert(a + insert_sorted(b, c) =~= insert_sorted(b, c));
    } else {
        assert((a + b)[0] == a[0]);
        assert((a + b).drop_first() =~= a.drop_first() + b);
        lemma_insert_sorted_below(a.drop_first(), b, c);
        assert(a + insert_sorted(b, c) =~= seq![a[0]] + (a.drop_first() + insert_sorted(b, c)));
    }
}

/// Cells above the new key stay behind it.
pub proof fn lemma_insert_sorted_above(a: Seq<Seq<u8>>, b: Seq<Seq<u8>>, c: Seq<u8>)
    requires
        forall|i: int| 0 <= i < b.len() ==> cell_key(c) < cell_key(#[trigger] b[i]),
    ensures
        insert_sorted(a + b, c) == insert_sorted(a, c) + b,
    decreases a.len(),
{
    if a.len() == 0 {
        assert(a + b =~= b);
        if b.len() == 0 {
            assert(insert_sorted(a, c) + b =~= seq![c]);
        } else {
            assert(cell_key(c) < cell_key(b[0]));
            assert(insert_sorted(a, c) + b =~= seq![c] + b);
        }
    } else {
        assert((a + b)[0] == a[0]);
        if cell_key(c) < cell_key(a[0]) {
            assert(seq![c] + (a + b) =~= (seq![c] + a) + b);
        } else {
            assert((a + b).drop_first() =~= a.drop_first() + b);
            lemma_insert_sorted_above(a.drop_first(), b, c);
            assert(seq![a[0]] + (insert_sorted(a.drop_first(), c) + b) =~= (seq![a[0]]
                + insert_sorted(a.drop_first(), c)) + b);
        }
    }
}

/// Inserting into sorted cells puts the new cell at the first key above it.
pub proof fn lemma_insert_sorted_at(cells: Seq<Seq<u8>>, c: Seq<u8>, pos: int)
    requires
        0 <= pos <= cells.len(),
        forall|i: int| 0 <= i < pos ==> cell_key(#[trigger] cells[i]) < cell_key(c),
        forall|i: int| pos <= i < cells.len() ==> cell_key(c) < cell_key(#[trigger] cells[i]),
    ensures
        insert_sorted(cells, c) == cells.insert(pos, c),
{
    let a = cells.take(pos);
    let b = cells.skip(pos);
    assert(cells =~= a + b);
    lemma_insert_sorted_below(a, b, c);
    assert forall|i: int| 0 <= i < b.len() implies cell_key(c) < cell_key(#[trigger] b[i]) by {
        assert(b[i] == cells[pos + i]);
    }
    lemma_insert_sorted_above(Seq::empty(), b, c);
    assert(Seq::<Seq<u8>>::empty() + b =~= b);
    assert(insert_sorted(Seq::<Seq<u8>>::empty(), c) =~= seq![c]);
    assert(a + (seq![c] + b) =~= cells.insert(pos, c));
}

/// The cells under a list of children split at any point.
pub proof fn lemma_kids_cells_concat(pages: Seq<Seq<u8>>, x: Seq<u32>, y: Seq<u32>, hc: nat)
    ensures
        kids_cells(pages, x + y, hc, (x.len() + y.len()) as nat) == kids_cells(
            pages,
            x,
            hc,
            x.len(),
        ) + kids_cells(pages, y, hc, y.len()),
        kids_leaves(pages, x + y, hc, (x.len() + y.len()) as nat) == kids_leaves(
            pages,
            x,
            hc,
            x.len(),
        ) + kids_leaves(pages, y, hc, y.len()),
        kids_pages(pages, x + y, hc, (x.len() + y.len()) as nat) == kids_pages(
            pages,
            x,
            hc,
            x.len(),
        ).union(kids_pages(pages, y, hc, y.len())),
    decreases y.len(),
{
    if y.len() == 0 {
        assert(x + y =~= x);
        assert(kids_cells(pages, x, hc, x.len()) + Seq::<Seq<u8>>::empty() =~= kids_cells(
            pages,
            x,
            hc,
            x.len(),
        ));
        assert(kids_leaves(pages, x, hc, x.len()) + Seq::<int>::empty() =~= kids_leaves(
            pages,
            x,
            hc,
            x.len(),
        ));
        assert(kids_pages(pages, x, hc, x.len()).union(Set::empty()) =~= kids_pages(
            pages,
            x,
            hc,
            x.len(),
        ));
        lemma_kids_prefix(pages, x + y, x, hc, x.len());
    } else {
        let y1 = y.drop_last();
        lemma_kids_cells_concat(pages, x, y1, hc);
        let n = (x.len() + y.len()) as nat;
        lemma_kids_prefix(pages, x + y, x + y1, hc, (n - 1) as nat);
        lemma_kids_prefix(pages, y, y1, hc, y1.len());
        assert((x + y)[n - 1] == y[y.len() - 1]);
        assert(kids_pages(pages, x, hc, x.len()).union(kids_pages(pages, y1, hc, y1.len())).union(
            sub_page_set(pages, y[y.len() - 1] as int, hc),
        ) =~= kids_pages(pages, x, hc, x.len()).union(
            kids_pages(pages, y1, hc, y1.len()).union(
                sub_page_set(pages, y[y.len() - 1] as int, hc),
            ),
        ));
    }
}

/// The cells under the first `n` children depend only on those children.
pub proof fn lemma_kids_prefix(pages: Seq<Seq<u8>>, x: Seq<u32>, y: Seq<u32>, hc: nat, n: nat)
    requires
        n <= x.len(),
        n <= y.len(),
        forall|i: int| 0 <= i < n ==> x[i] == y[i],
    ensures
        kids_cells(pages, x, hc, n) == kids_cells(pages, y, hc, n),
        kids_leaves(pages, x, hc, n) == kids_leaves(pages, y, hc, n),
        kids_pages(pages, x, hc, n) == kids_pages(pages, y, hc, n),
    decreases n,
{
    if n > 0 {
        lemma_kids_prefix(pages, x, y, hc, (n - 1) as nat);
    }
}


/// A prefix of well-formed children is well formed.
pub proof fn lemma_kids_wf_prefix(
    pages: Seq<Seq<u8>>,
    kids: Seq<u32>,
    keys: Seq<u32>,
    hc: nat,
    lo: int,
    hi: int,
    next: int,
    p: int,
    n: nat,
    m: nat,
)
    requires
        kids_wf(pages, kids, keys, hc, lo, hi, next, p, n),
        m <= n,
    ensures
        kids_wf(pages, kids, keys, hc, lo, hi, next, p, m),
    decreases n,
{
    if m < n {
        lemma_kids_wf_prefix(pages, kids, keys, hc, lo, hi, next, p, (n - 1) as nat, m);
    }
}

/// The cells under `kids` are those under the children before `j`, those
/// under child `j`, and those under the children after it.
pub proof fn lemma_kids_cells_split(pages: Seq<Seq<u8>>, kids: Seq<u32>, hc: nat, j: int)
    requires
        0 <= j < kids.len(),
    ensures
        kids_cells(pages, kids, hc, kids.len()) == kids_cells(pages, kids.take(j), hc, j as nat)
            + sub_cells(pages, kids[j] as int, hc) + kids_cells(
            pages,
            kids.skip(j + 1),
            hc,
            (kids.len() - j - 1) as nat,
        ),
{
    let a = kids.take(j);
    let b = seq![kids[j]];
    let c = kids.skip(j + 1);
    assert(kids =~= a + (b + c));
    lemma_kids_cells_concat(pages, a, b + c, hc);
    lemma_kids_cells_concat(pages, b, c, hc);
    assert(kids_cells(pages, b, hc, 1) =~= sub_cells(pages, kids[j] as int, hc)) by {
        assert(kids_cells(pages, b, hc, 0) =~= Seq::<Seq<u8>>::empty());
    }
}

/// Going down to the child that `k` belongs to: the cells of the subtree are
/// those before the child, all below `k`, the child's, and those after it,
/// all above `k`.
pub proof fn lemma_descend(
    pages: Seq<Seq<u8>>,
    p: int,
    h: nat,
    lo: int,
    hi: int,
    next: int,
    root: bool,
    k: u32,
)
    requires
        sub_wf(pages, p, h, lo, hi, next, root),
        h > 0,
        lo < k <= hi,
    ensures
        ({
            let keys = node_keys(pages[p]);
            let kids = node_kids(pages[p]);
            let j = child_index(keys, k) as int;
            let hc = (h - 1) as nat;
            let a = kids_cells(pages, kids.take(j), hc, j as nat);
            let c = kids_cells(pages, kids.skip(j + 1), hc, (kids.len() - j - 1) as nat);
            &&& 0 <= j < kids.len()
            &&& kid_lo(keys, lo, j) < k <= kid_hi(keys, hi, j)
            &&& kid_ok(pages, kids, keys, hc, lo, hi, next, p, j)
            &&& sub_cells(pages, p, h) == a + sub_cells(pages, kids[j] as int, hc) + c
            &&& forall|i: int| 0 <= i < a.len() ==> cell_key(#[trigger] a[i]) < k
            &&& forall|i: int| 0 <= i < c.len() ==> k < cell_key(#[trigger] c[i])
            &&& (cell_keys(sub_cells(pages, p, h)).contains(k) <==> cell_keys(
                sub_cells(pages, kids[j] as int, hc),
            ).contains(k))
        }),
{
    let keys = node_keys(pages[p]);
    let kids = node_kids(pages[p]);
    let hc = (h - 1) as nat;
    lemma_child_index(keys, k);
    let j = child_index(keys, k) as int;
    lemma_kids_wf_forall(pages, kids, keys, hc, lo, hi, next, p, kids.len());
    assert(kid_ok(pages, kids, keys, hc, lo, hi, next, p, j));
    lemma_kids_cells_split(pages, kids, hc, j);
    let a = kids_cells(pages, kids.take(j), hc, j as nat);
    let b = sub_cells(pages, kids[j] as int, hc);
    let c = kids_cells(pages, kids.skip(j + 1), hc, (kids.len() - j - 1) as nat);
    let all = sub_cells(pages, p, h);
    lemma_sub_cells_ok(pages, p, h, lo, hi, next, root);
    lemma_sub_cells_ok(
        pages,
        kids[j] as int,
        hc,
        kid_lo(keys, lo, j),
        kid_hi(keys, hi, j),
        kid_next(pages, kids, hc, next, j),
        false,
    );
    assert(all == a + b + c);
    let ka = cell_keys(a);
    let kb = cell_keys(b);
    let kc = cell_keys(c);
    lemma_cell_keys_concat(a, b);
    lemma_cell_keys_concat(a + b, c);
    let kall = cell_keys(all);
    assert(kall == ka + kb + kc);
    assert(b.len() > 0);
    if j > 0 {
        lemma_kids_wf_prefix(pages, kids, keys, hc, lo, hi, next, p, kids.len(), j as nat);
        lemma_kids_prefix(pages, kids, kids.take(j), hc, j as nat);
        lemma_kids_cells_ok(pages, kids, keys, hc, lo, hi, next, p, j as nat);
        assert(kid_ok(pages, kids, keys, hc, lo, hi, next, p, j - 1));
        assert(max_key(a) == keys[j - 1]);
    }
    assert forall|i: int| 0 <= i < a.len() implies cell_key(#[trigger] a[i]) < k by {
        assert(kall[i] == ka[i]);
        assert(ka[i] == cell_key(a[i]));
        if i < a.len() - 1 {
            assert(kall[i] < kall[a.len() - 1]);
        }
        assert(kall[a.len() - 1] == ka[a.len() - 1]);
    }
    assert forall|i: int| 0 <= i < c.len() implies k < cell_key(#[trigger] c[i]) by {
        let last_b = a.len() + b.len() - 1;
        assert(kall[a.len() + b.len() + i] == kc[i]);
        assert(kall[last_b] == kb[b.len() - 1]);
        assert(kall[last_b] < kall[a.len() + b.len() + i]);
        assert(j < keys.len()) by {
            if j == keys.len() {
                assert(kids.skip(j + 1).len() == 0);
                assert(c.len() == 0);
            }
        }
        assert(kb[b.len() - 1] == max_key(b));
    }
    if kall.contains(k) {
        let x = choose|x: int| 0 <= x < kall.len() && kall[x] == k;
        if x < ka.len() {
            assert(kall[x] == ka[x]);
            assert(cell_key(a[x]) < k);
        } else if x >= ka.len() + kb.len() {
            assert(kall[x] == kc[x - ka.len() - kb.len()]);
            assert(k < cell_key(c[x - ka.len() - kb.len()]));
        } else {
            assert(kall[x] == kb[x - ka.len()]);
        }
    }
    if kb.contains(k) {
        let x = choose|x: int| 0 <= x < kb.len() && kb[x] == k;
        assert(kall[ka.len() + x] == kb[x]);
    }
}


/// The leaf that the search for `k` reaches from page `p`.
pub open spec fn find_leaf(pages: Seq<Seq<u8>>, p: int, h: nat, k: u32) -> int
    decreases h,
{
    if h == 0 {
        p
    } else {
        find_leaf(
            pages,
            node_kids(pages[p])[child_index(node_keys(pages[p]), k) as int] as int,
            (h - 1) as nat,
            k,
        )
    }
}


/// A key is in a sorted leaf exactly when the cell at its search position holds it.
pub proof fn lemma_leaf_found(page: Seq<u8>, k: u32, lo: int, hi: int, next: int, root: bool)
    requires
        page.len() == PAGE_SIZE,
        leaf_ok(page, lo, hi, next, root),
    ensures
        ({
            let pos = child_index(cell_keys(leaf_cells(page)), k);
            cell_keys(leaf_cells(page)).contains(k) <==> (pos < num_cells_of(page) && leaf_key_of(
                page,
                pos as int,
            ) == k)
        }),
{
    lemma_layout_values();
    let ks = cell_keys(leaf_cells(page));
    lemma_child_index(ks, k);
    let pos = child_index(ks, k) as int;
    if pos < num_cells_of(page) {
        lemma_leaf_key_is_cell_key(page, pos);
    }
    if ks.contains(k) {
        let x = choose|x: int| 0 <= x < ks.len() && ks[x] == k;
        if x < pos {
            assert(ks[x] < k);
        } else if x > pos {
            assert(ks[pos] < ks[x]);
        }
    }
}


/// Inserting a new key into sorted cells keeps them sorted and in range.
pub proof fn lemma_insert_sorted_ok(cells: Seq<Seq<u8>>, c: Seq<u8>, lo: int, hi: int)
    requires
        cells_ok(cells, lo, hi),
        lo < cell_key(c) <= hi,
        !cell_keys(cells).contains(cell_key(c)),
    ensures
        insert_sorted(cells, c) == cells.insert(child_index(cell_keys(cells), cell_key(c)) as int, c),
        cells_ok(insert_sorted(cells, c), lo, hi),
        insert_sorted(cells, c).len() == cells.len() + 1,
{
    let ks = cell_keys(cells);
    let k = cell_key(c);
    lemma_child_index(ks, k);
    let pos = child_index(ks, k) as int;
    assert forall|i: int| 0 <= i < pos implies cell_key(#[trigger] cells[i]) < k by {
        assert(ks[i] == cell_key(cells[i]));
    }
    assert forall|i: int| pos <= i < cells.len() implies k < cell_key(#[trigger] cells[i]) by {
        assert(ks[i] == cell_key(cells[i]));
        assert(ks[pos] >= k);
        if ks[pos] == k {
            assert(ks.contains(k));
        }
        if i > pos {
            assert(ks[pos] < ks[i]);
        }
    }
    lemma_insert_sorted_at(cells, c, pos);
    let r = cells.insert(pos, c);
    let kr = cell_keys(r);
    assert forall|i: int| 0 <= i < kr.len() implies kr[i] == if i < pos {
        ks[i]
    } else if i == pos {
        k
    } else {
        ks[i - 1]
    } by {}
    assert forall|i: int, j: int| 0 <= i < j < kr.len() implies kr[i] < kr[j] by {
        assert(kr[i] == if i < pos { ks[i] } else if i == pos { k } else { ks[i - 1] });
        assert(kr[j] == if j < pos { ks[j] } else if j == pos { k } else { ks[j - 1] });
        if j < pos {
        } else if j == pos {
            assert(cell_key(cells[i]) < k);
        } else if i < pos {
            assert(ks[i] < ks[j - 1]);
        } else if i == pos {
            assert(k < cell_key(cells[j - 1]));
        } else {
            assert(ks[i - 1] < ks[j - 1]);
        }
    }
    assert forall|i: int| 0 <= i < kr.len() implies lo < #[trigger] kr[i] <= hi by {
        assert(kr[i] == if i < pos { ks[i] } else if i == pos { k } else { ks[i - 1] });
    }
}

/// Sorted cells cut in two: the front keeps keys up to its largest, the back
/// the keys above that.
pub proof fn lemma_cells_split_ok(cells: Seq<Seq<u8>>, lo: int, hi: int, s: int)
    requires
        cells_ok(cells, lo, hi),
        0 < s < cells.len(),
    ensures
        cells_ok(cells.take(s), lo, max_key(cells.take(s)) as int),
        cells_ok(cells.skip(s), max_key(cells.take(s)) as int, hi),
        cells.take(s) + cells.skip(s) == cells,
        lo < max_key(cells.take(s)) <= hi,
{
    let ks = cell_keys(cells);
    let a = cells.take(s);
    let b = cells.skip(s);
    assert(a + b =~= cells);
    let ka = cell_keys(a);
    let kb = cell_keys(b);
    assert(max_key(a) == ks[s - 1]);
    assert forall|i: int, j: int| 0 <= i < j < ka.len() implies ka[i] < ka[j] by {
        assert(ka[i] == ks[i] && ka[j] == ks[j]);
    }
    assert forall|i: int| 0 <= i < ka.len() implies lo < #[trigger] ka[i] <= max_key(a) by {
        assert(ka[i] == ks[i]);
        if i < s - 1 {
            assert(ks[i] < ks[s - 1]);
        }
    }
    assert forall|i: int, j: int| 0 <= i < j < kb.len() implies kb[i] < kb[j] by {
        assert(kb[i] == ks[s + i] && kb[j] == ks[s + j]);
    }
    assert forall|i: int| 0 <= i < kb.len() implies max_key(a) < #[trigger] kb[i] <= hi by {
        assert(kb[i] == ks[s + i]);
        assert(ks[s - 1] < ks[s + i]);
    }
}

/// Inserting a key below the largest keeps the largest.
pub proof fn lemma_insert_sorted_max(cells: Seq<Seq<u8>>, c: Seq<u8>, lo: int, hi: int)
    requires
        cells_ok(cells, lo, hi),
        cells.len() > 0,
        lo < cell_key(c) < max_key(cells),
        !cell_keys(cells).contains(cell_key(c)),
    ensures
        max_key(insert_sorted(cells, c)) == max_key(cells),
{
    lemma_insert_sorted_ok(cells, c, lo, max_key(cells) as int);
    let ks = cell_keys(cells);
    lemma_child_index(ks, cell_key(c));
    let pos = child_index(ks, cell_key(c)) as int;
    assert(pos < cells.len()) by {
        if pos == cells.len() {
            assert(ks[cells.len() - 1] < cell_key(c));
        }
    }
    assert(cells.insert(pos, c).last() == cells.last());
}


/// Whether inserting `k` below page `p` splits `p`: its leaf is full and
/// every internal node on the way back up to `p` is full.
pub open spec fn path_splits(pages: Seq<Seq<u8>>, p: int, h: nat, k: u32) -> bool
    decreases h,
{
    if h == 0 {
        num_cells_of(pages[p]) >= LEAF_NODE_MAX_CELLS
    } else {
        &&& path_splits(
            pages,
            node_kids(pages[p])[child_index(node_keys(pages[p]), k) as int] as int,
            (h - 1) as nat,
            k,
        )
        &&& num_keys_of(pages[p]) >= INTERNAL_NODE_MAX_CELLS
    }
}

/// How many new pages inserting `k` below page `p` takes: one per split
/// node, `p` included.
pub open spec fn path_alloc(pages: Seq<Seq<u8>>, p: int, h: nat, k: u32) -> nat
    decreases h,
{
    if h == 0 {
        if num_cells_of(pages[p]) >= LEAF_NODE_MAX_CELLS {
            1
        } else {
            0
        }
    } else {
        path_alloc(
            pages,
            node_kids(pages[p])[child_index(node_keys(pages[p]), k) as int] as int,
            (h - 1) as nat,
            k,
        ) + if path_splits(pages, p, h, k) {
            1nat
        } else {
            0nat
        }
    }
}

/// Pages outside `s` keep their bytes; the pager may grow.
pub open spec fn unchanged_outside(old: Seq<Seq<u8>>, new: Seq<Seq<u8>>, s: Set<int>) -> bool {
    &&& old.len() <= new.len()
    &&& forall|q: int| 0 <= q < old.len() && !s.contains(q) ==> #[trigger] new[q] == old[q]
}

/// Every page of `t` is a page of `s` or a page numbered in `[lo, hi)`.
pub open spec fn within_or_new(t: Set<int>, s: Set<int>, lo: int, hi: int) -> bool {
    forall|q: int| #[trigger] t.contains(q) ==> s.contains(q) || (lo <= q < hi)
}


/// After the child that `k` belongs to took a new cell without splitting,
/// the parent's subtree holds the new cell and stays well formed.
pub proof fn lemma_child_grew(
    old: Seq<Seq<u8>>,
    mid: Seq<Seq<u8>>,
    p: int,
    h: nat,
    lo: int,
    hi: int,
    next: int,
    root: bool,
    c: Seq<u8>,
)
    requires
        sub_wf(old, p, h, lo, hi, next, root),
        h > 0,
        lo < cell_key(c) <= hi,
        !cell_keys(sub_cells(old, p, h)).contains(cell_key(c)),
        ({
            let keys = node_keys(old[p]);
            let kids = node_kids(old[p]);
            let j = child_index(keys, cell_key(c)) as int;
            let cj = kids[j] as int;
            let hc = (h - 1) as nat;
            &&& unchanged_outside(old, mid, sub_page_set(old, cj, hc))
            &&& sub_wf(
                mid,
                cj,
                hc,
                kid_lo(keys, lo, j),
                kid_hi(keys, hi, j),
                kid_next(old, kids, hc, next, j),
                false,
            )
            &&& sub_cells(mid, cj, hc) == insert_sorted(sub_cells(old, cj, hc), c)
            &&& within_or_new(sub_page_set(mid, cj, hc), sub_page_set(old, cj, hc), old.len() as int, mid.len() as int)
            &&& first_leaf(mid, cj, hc) == first_leaf(old, cj, hc)
        }),
    ensures
        sub_wf(mid, p, h, lo, hi, next, root),
        sub_cells(mid, p, h) == insert_sorted(sub_cells(old, p, h), c),
        within_or_new(sub_page_set(mid, p, h), sub_page_set(old, p, h), old.len() as int, mid.len() as int),
        first_leaf(mid, p, h) == first_leaf(old, p, h),
        unchanged_outside(old, mid, sub_page_set(old, p, h)),
{
    let k = cell_key(c);
    let keys = node_keys(old[p]);
    let kids = node_kids(old[p]);
    let hc = (h - 1) as nat;
    lemma_descend(old, p, h, lo, hi, next, root, k);
    let j = child_index(keys, k) as int;
    let cj = kids[j] as int;
    lemma_kids_wf_forall(old, kids, keys, hc, lo, hi, next, p, kids.len());
    lemma_sub_page_set_bounds(old, p, h, lo, hi, next, root);
    // The parent page itself is untouched.
    assert(!sub_page_set(old, cj, hc).contains(p));
    assert(mid[p] == old[p]);
    // Every other child keeps its subtree.
    assert forall|i: int| 0 <= i < kids.len() && i != j implies {
        &&& sub_wf(
            mid,
            kids[i] as int,
            hc,
            kid_lo(keys, lo, i),
            kid_hi(keys, hi, i),
            kid_next(old, kids, hc, next, i),
            false,
        )
        &&& #[trigger] sub_cells(mid, kids[i] as int, hc) == sub_cells(old, kids[i] as int, hc)
        &&& sub_page_set(mid, kids[i] as int, hc) == sub_page_set(old, kids[i] as int, hc)
        &&& sub_leaves(mid, kids[i] as int, hc) == sub_leaves(old, kids[i] as int, hc)
        &&& first_leaf(mid, kids[i] as int, hc) == first_leaf(old, kids[i] as int, hc)
    } by {
        assert(kid_ok(old, kids, keys, hc, lo, hi, next, p, i));
        let si = sub_page_set(old, kids[i] as int, hc);
        let sj = sub_page_set(old, cj, hc);
        assert(si.disjoint(sj)) by {
            if i < j {
                assert(sub_page_set(old, kids[i] as int, hc).disjoint(
                    sub_page_set(old, kids[j] as int, hc),
                ));
            } else {
                assert(sub_page_set(old, kids[j] as int, hc).disjoint(
                    sub_page_set(old, kids[i] as int, hc),
                ));
            }
        }
        lemma_sub_page_set_bounds(
            old,
            kids[i] as int,
            hc,
            kid_lo(keys, lo, i),
            kid_hi(keys, hi, i),
            kid_next(old, kids, hc, next, i),
            false,
        );
        assert forall|q: int| #[trigger] si.contains(q) implies 0 <= q < old.len() && q
            < mid.len() && content_eq(old[q], mid[q]) by {
            assert(!sj.contains(q));
            assert(mid[q] == old[q]);
        }
        lemma_frame(
            old,
            mid,
            kids[i] as int,
            hc,
            kid_lo(keys, lo, i),
            kid_hi(keys, hi, i),
            kid_next(old, kids, hc, next, i),
            false,
        );
    }
    assert forall|i: int| 0 <= i < kids.len() implies #[trigger] kid_next(mid, kids, hc, next, i)
        == kid_next(old, kids, hc, next, i) by {
        if i + 1 < kids.len() && i + 1 != j {
            assert(sub_cells(mid, kids[i + 1] as int, hc) == sub_cells(
                old,
                kids[i + 1] as int,
                hc,
            ));
        }
    }
    // The grown child stays clear of the parent page and of its siblings.
    let sj2 = sub_page_set(mid, cj, hc);
    assert forall|q: int| #[trigger] sj2.contains(q) implies sub_page_set(old, cj, hc).contains(q)
        || (old.len() <= q < mid.len()) by {}
    assert(!sj2.contains(p));
    // The parent's children are all well formed again.
    assert forall|i: int| 0 <= i < kids.len() implies #[trigger] kid_ok(
        mid,
        kids,
        keys,
        hc,
        lo,
        hi,
        next,
        p,
        i,
    ) by {
        assert(kid_next(mid, kids, hc, next, i) == kid_next(old, kids, hc, next, i));
        if i != j {
            assert(sub_cells(mid, kids[i] as int, hc) == sub_cells(old, kids[i] as int, hc));
            assert(kid_ok(old, kids, keys, hc, lo, hi, next, p, i));
        } else {
            if j < keys.len() {
                let cells_j = sub_cells(old, cj, hc);
                lemma_sub_cells_ok(
                    old,
                    cj,
                    hc,
                    kid_lo(keys, lo, j),
                    kid_hi(keys, hi, j),
                    kid_next(old, kids, hc, next, j),
                    false,
                );
                assert(max_key(cells_j) == keys[j]);
                assert(cell_keys(cells_j).contains(keys[j])) by {
                    assert(cell_keys(cells_j)[cells_j.len() - 1] == keys[j]);
                }
                assert(k != keys[j]) by {
                    if k == keys[j] {
                        assert(cell_keys(sub_cells(old, p, h)).contains(k));
                    }
                }
                lemma_insert_sorted_max(cells_j, c, kid_lo(keys, lo, j), kid_hi(keys, hi, j));
            }
        }
    }
    assert forall|a: int, b: int| 0 <= a < b < kids.len() implies #[trigger] sub_page_set(
        mid,
        kids[a] as int,
        hc,
    ).disjoint(#[trigger] sub_page_set(mid, kids[b] as int, hc)) by {
        assert(sub_page_set(old, kids[a] as int, hc).disjoint(
            sub_page_set(old, kids[b] as int, hc),
        ));
        if a == j {
            assert(sub_cells(mid, kids[b] as int, hc) == sub_cells(old, kids[b] as int, hc));
            assert(kid_ok(old, kids, keys, hc, lo, hi, next, p, b));
            lemma_sub_page_set_bounds(
                old,
                kids[b] as int,
                hc,
                kid_lo(keys, lo, b),
                kid_hi(keys, hi, b),
                kid_next(old, kids, hc, next, b),
                false,
            );
        } else if b == j {
            assert(sub_cells(mid, kids[a] as int, hc) == sub_cells(old, kids[a] as int, hc));
            assert(kid_ok(old, kids, keys, hc, lo, hi, next, p, a));
            lemma_sub_page_set_bounds(
                old,
                kids[a] as int,
                hc,
                kid_lo(keys, lo, a),
                kid_hi(keys, hi, a),
                kid_next(old, kids, hc, next, a),
                false,
            );
        } else {
            assert(sub_cells(mid, kids[a] as int, hc) == sub_cells(old, kids[a] as int, hc));
            assert(sub_cells(mid, kids[b] as int, hc) == sub_cells(old, kids[b] as int, hc));
        }
    }
    lemma_kids_wf_forall(mid, kids, keys, hc, lo, hi, next, p, kids.len());
    assert(sub_wf(mid, p, h, lo, hi, next, root));
    // Contents.
    let pre = kids.take(j);
    let post = kids.skip(j + 1);
    assert(pre.len() == j as nat);
    assert forall|i: int| 0 <= i < j as nat implies {
        &&& #[trigger] sub_cells(mid, pre[i] as int, hc) == sub_cells(old, pre[i] as int, hc)
        &&& sub_page_set(mid, pre[i] as int, hc) == sub_page_set(old, pre[i] as int, hc)
        &&& sub_leaves(mid, pre[i] as int, hc) == sub_leaves(old, pre[i] as int, hc)
    } by {
        assert(pre[i] == kids[i]);
        assert(sub_cells(mid, kids[i] as int, hc) == sub_cells(old, kids[i] as int, hc));
    }
    assert(post.len() == (kids.len() - j - 1) as nat);
    assert forall|i: int| 0 <= i < (kids.len() - j - 1) as nat implies {
        &&& #[trigger] sub_cells(mid, post[i] as int, hc) == sub_cells(old, post[i] as int, hc)
        &&& sub_page_set(mid, post[i] as int, hc) == sub_page_set(old, post[i] as int, hc)
        &&& sub_leaves(mid, post[i] as int, hc) == sub_leaves(old, post[i] as int, hc)
    } by {
        assert(post[i] == kids[j + 1 + i]);
        assert(sub_cells(mid, kids[j + 1 + i] as int, hc) == sub_cells(
            old,
            kids[j + 1 + i] as int,
            hc,
        ));
    }
    lemma_kids_congruence(old, mid, pre, hc, j as nat);
    lemma_kids_congruence(old, mid, post, hc, (kids.len() - j - 1) as nat);
    lemma_kids_cells_split(mid, kids, hc, j);
    let a = kids_cells(old, pre, hc, j as nat);
    let b = sub_cells(old, cj, hc);
    let cc = kids_cells(old, post, hc, (kids.len() - j - 1) as nat);
    lemma_insert_sorted_below(a, b + cc, c);
    lemma_insert_sorted_above(b, cc, c);
    assert(a + b + cc == a + (b + cc));
    assert(a + insert_sorted(b, c) + cc == a + (insert_sorted(b, c) + cc));
    // Pages.
    assert forall|q: int| #[trigger] sub_page_set(mid, p, h).contains(q) implies sub_page_set(
        old,
        p,
        h,
    ).contains(q) || (old.len() <= q < mid.len()) by {
        if q != p {
            lemma_kids_pages_member(mid, kids, hc, kids.len(), q);
            let i = choose|i: int|
                0 <= i < kids.len() && #[trigger] sub_page_set(mid, kids[i] as int, hc).contains(q);
            lemma_kids_pages_member(old, kids, hc, kids.len(), q);
            if i != j {
                assert(sub_cells(mid, kids[i] as int, hc) == sub_cells(old, kids[i] as int, hc));
                assert(sub_page_set(old, kids[i] as int, hc).contains(q));
            } else if !(old.len() <= q < mid.len()) {
                assert(sub_page_set(old, kids[i] as int, hc).contains(q));
            }
        }
    }
    assert forall|q: int| 0 <= q < old.len() && !sub_page_set(old, p, h).contains(q) implies #[trigger] mid[q]
        == old[q] by {
        if sub_page_set(old, cj, hc).contains(q) {
            lemma_kids_pages_member(old, kids, hc, kids.len(), q);
        }
    }
    if j != 0 {
        assert(sub_cells(mid, kids[0] as int, hc) == sub_cells(old, kids[0] as int, hc));
    }
}



/// A child other than `j` keeps its subtree when only child `j`'s pages change.
pub proof fn lemma_sibling_framed(
    old: Seq<Seq<u8>>,
    mid: Seq<Seq<u8>>,
    p: int,
    h: nat,
    lo: int,
    hi: int,
    next: int,
    root: bool,
    j: int,
    i: int,
)
    requires
        sub_wf(old, p, h, lo, hi, next, root),
        h > 0,
        0 <= j < node_kids(old[p]).len(),
        0 <= i < node_kids(old[p]).len(),
        i != j,
        unchanged_outside(old, mid, sub_page_set(old, node_kids(old[p])[j] as int, (h - 1) as nat)),
    ensures
        mid[p] == old[p],
        kid_ok(old, node_kids(old[p]), node_keys(old[p]), (h - 1) as nat, lo, hi, next, p, i),
        sub_wf(
            mid,
            node_kids(old[p])[i] as int,
            (h - 1) as nat,
            kid_lo(node_keys(old[p]), lo, i),
            kid_hi(node_keys(old[p]), hi, i),
            kid_next(old, node_kids(old[p]), (h - 1) as nat, next, i),
            false,
        ),
        sub_cells(mid, node_kids(old[p])[i] as int, (h - 1) as nat) == sub_cells(
            old,
            node_kids(old[p])[i] as int,
            (h - 1) as nat,
        ),
        sub_page_set(mid, node_kids(old[p])[i] as int, (h - 1) as nat) == sub_page_set(
            old,
            node_kids(old[p])[i] as int,
            (h - 1) as nat,
        ),
        sub_leaves(mid, node_kids(old[p])[i] as int, (h - 1) as nat) == sub_leaves(
            old,
            node_kids(old[p])[i] as int,
            (h - 1) as nat,
        ),
        first_leaf(mid, node_kids(old[p])[i] as int, (h - 1) as nat) == first_leaf(
            old,
            node_kids(old[p])[i] as int,
            (h - 1) as nat,
        ),
        sub_page_set(old, node_kids(old[p])[i] as int, (h - 1) as nat).disjoint(
            sub_page_set(old, node_kids(old[p])[j] as int, (h - 1) as nat),
        ),
        forall|q: int| #[trigger]
            sub_page_set(old, node_kids(old[p])[i] as int, (h - 1) as nat).contains(q) ==> 0 <= q
                < old.len(),
{
    let keys = node_keys(old[p]);
    let kids = node_kids(old[p]);
    let hc = (h - 1) as nat;
    let cj = kids[j] as int;
    lemma_kids_wf_forall(old, kids, keys, hc, lo, hi, next, p, kids.len());
    assert(kid_ok(old, kids, keys, hc, lo, hi, next, p, j));
    assert(kid_ok(old, kids, keys, hc, lo, hi, next, p, i));
    assert(mid[p] == old[p]);
    let si = sub_page_set(old, kids[i] as int, hc);
    let sj = sub_page_set(old, cj, hc);
    assert(si.disjoint(sj)) by {
        if i < j {
            assert(sub_page_set(old, kids[i] as int, hc).disjoint(
                sub_page_set(old, kids[j] as int, hc),
            ));
        } else {
            assert(sub_page_set(old, kids[j] as int, hc).disjoint(
                sub_page_set(old, kids[i] as int, hc),
            ));
        }
    }
    lemma_sub_page_set_bounds(
        old,
        kids[i] as int,
        hc,
        kid_lo(keys, lo, i),
        kid_hi(keys, hi, i),
        kid_next(old, kids, hc, next, i),
        false,
    );
    assert forall|q: int| #[trigger] si.contains(q) implies 0 <= q < old.len() && q < mid.len()
        && content_eq(old[q], mid[q]) by {
        assert(!sj.contains(q));
        assert(mid[q] == old[q]);
    }
    lemma_frame(
        old,
        mid,
        kids[i] as int,
        hc,
        kid_lo(keys, lo, i),
        kid_hi(keys, hi, i),
        kid_next(old, kids, hc, next, i),
        false,
    );
}

/// What the insertion below child `j` of page `p` left when that child split
/// off the new page `n`.
pub open spec fn child_split_post(
    old: Seq<Seq<u8>>,
    mid: Seq<Seq<u8>>,
    p: int,
    h: nat,
    lo: int,
    hi: int,
    next: int,
    c: Seq<u8>,
    n: u32,
) -> bool {
    let keys = node_keys(old[p]);
    let kids = node_kids(old[p]);
    let j = child_index(keys, cell_key(c)) as int;
    let cj = kids[j] as int;
    let hc = (h - 1) as nat;
    let m = max_key(sub_cells(mid, cj, hc));
    &&& old.len() <= n < mid.len()
    &&& unchanged_outside(old, mid, sub_page_set(old, cj, hc))
    &&& sub_wf(mid, cj, hc, kid_lo(keys, lo, j), m as int, first_leaf(mid, n as int, hc), false)
    &&& sub_wf(
        mid,
        n as int,
        hc,
        m as int,
        kid_hi(keys, hi, j),
        kid_next(old, kids, hc, next, j),
        false,
    )
    &&& sub_cells(mid, cj, hc) + sub_cells(mid, n as int, hc) == insert_sorted(
        sub_cells(old, cj, hc),
        c,
    )
    &&& within_or_new(
        sub_page_set(mid, cj, hc),
        sub_page_set(old, cj, hc),
        old.len() as int,
        mid.len() as int,
    )
    &&& within_or_new(
        sub_page_set(mid, n as int, hc),
        sub_page_set(old, cj, hc),
        old.len() as int,
        mid.len() as int,
    )
    &&& sub_page_set(mid, cj, hc).disjoint(sub_page_set(mid, n as int, hc))
    &&& first_leaf(mid, cj, hc) == first_leaf(old, cj, hc)
}

/// The children list with the split-off page `n` put after child `j`.
pub open spec fn split_kids(old: Seq<Seq<u8>>, p: int, c: Seq<u8>, n: u32) -> Seq<u32> {
    node_kids(old[p]).insert(child_index(node_keys(old[p]), cell_key(c)) as int + 1, n)
}

/// The key list with the left half's largest key put at `j`.
pub open spec fn split_keys(
    old: Seq<Seq<u8>>,
    mid: Seq<Seq<u8>>,
    p: int,
    h: nat,
    c: Seq<u8>,
) -> Seq<u32> {
    let keys = node_keys(old[p]);
    let j = child_index(keys, cell_key(c)) as int;
    keys.insert(
        j,
        max_key(sub_cells(mid, node_kids(old[p])[j] as int, (h - 1) as nat)),
    )
}

/// Facts about the two halves of the split child.
pub proof fn lemma_split_halves(
    old: Seq<Seq<u8>>,
    mid: Seq<Seq<u8>>,
    p: int,
    h: nat,
    lo: int,
    hi: int,
    next: int,
    root: bool,
    c: Seq<u8>,
    n: u32,
)
    requires
        sub_wf(old, p, h, lo, hi, next, root),
        h > 0,
        lo < cell_key(c) <= hi,
        !cell_keys(sub_cells(old, p, h)).contains(cell_key(c)),
        child_split_post(old, mid, p, h, lo, hi, next, c, n),
    ensures
        ({
            let keys = node_keys(old[p]);
            let kids = node_kids(old[p]);
            let j = child_index(keys, cell_key(c)) as int;
            let hc = (h - 1) as nat;
            let m = max_key(sub_cells(mid, kids[j] as int, hc));
            &&& 0 <= j < kids.len()
            &&& kid_lo(keys, lo, j) < cell_key(c) <= kid_hi(keys, hi, j)
            &&& kid_ok(old, kids, keys, hc, lo, hi, next, p, j)
            &&& kid_lo(keys, lo, j) < m
            &&& m < max_key(sub_cells(mid, n as int, hc))
            &&& max_key(sub_cells(mid, n as int, hc)) <= kid_hi(keys, hi, j)
            &&& (j < keys.len() ==> max_key(sub_cells(mid, n as int, hc)) == keys[j])
            &&& keys_sorted(split_keys(old, mid, p, h, c))
            &&& keys_within(split_keys(old, mid, p, h, c), lo, hi)
            &&& !sub_page_set(mid, kids[j] as int, hc).contains(p)
            &&& !sub_page_set(mid, n as int, hc).contains(p)
            &&& mid[p] == old[p]
        }),
{
    let k = cell_key(c);
    let keys = node_keys(old[p]);
    let kids = node_kids(old[p]);
    let hc = (h - 1) as nat;
    lemma_descend(old, p, h, lo, hi, next, root, k);
    let j = child_index(keys, k) as int;
    let cj = kids[j] as int;
    let m = max_key(sub_cells(mid, cj, hc));
    let keys2 = split_keys(old, mid, p, h, c);
    lemma_sub_page_set_bounds(old, p, h, lo, hi, next, root);
    lemma_kids_wf_forall(old, kids, keys, hc, lo, hi, next, p, kids.len());
    assert(!sub_page_set(old, cj, hc).contains(p));
    let cl = sub_cells(mid, cj, hc);
    let cr = sub_cells(mid, n as int, hc);
    let cold = sub_cells(old, cj, hc);
    lemma_sub_cells_ok(mid, cj, hc, kid_lo(keys, lo, j), m as int, first_leaf(mid, n as int, hc), false);
    lemma_sub_cells_ok(
        mid,
        n as int,
        hc,
        m as int,
        kid_hi(keys, hi, j),
        kid_next(old, kids, hc, next, j),
        false,
    );
    lemma_sub_cells_ok(
        old,
        cj,
        hc,
        kid_lo(keys, lo, j),
        kid_hi(keys, hi, j),
        kid_next(old, kids, hc, next, j),
        false,
    );
    assert(kid_lo(keys, lo, j) < m) by {
        assert(cell_keys(cl)[cl.len() - 1] == m);
    }
    assert(cell_keys(cr)[cr.len() - 1] == max_key(cr));
    if j < keys.len() {
        assert(max_key(cold) == keys[j]);
        assert(cell_keys(cold).contains(keys[j])) by {
            assert(cell_keys(cold)[cold.len() - 1] == keys[j]);
        }
        assert(k != keys[j]) by {
            if k == keys[j] {
                assert(cell_keys(sub_cells(old, p, h)).contains(k));
            }
        }
        lemma_insert_sorted_max(cold, c, kid_lo(keys, lo, j), kid_hi(keys, hi, j));
        assert((cl + cr).last() == cr.last());
    }
    assert forall|a: int, b: int| 0 <= a < b < keys2.len() implies keys2[a] < keys2[b] by {
        if b < j {
        } else if b == j {
            assert(kid_lo(keys, lo, j) == keys[j - 1]);
            if a < j - 1 {
                assert(keys[a] < keys[j - 1]);
            }
        } else if a < j {
            assert(keys[a] < keys[b - 1]);
        } else if a == j {
            assert(keys[b - 1] >= keys[j]);
        } else {
        }
    }
    assert forall|a: int| 0 <= a < keys2.len() implies lo < #[trigger] keys2[a] <= hi by {
        if a == j {
        } else if a < j {
            assert(keys2[a] == keys[a]);
        } else {
            assert(keys2[a] == keys[a - 1]);
        }
    }
}


/// The children list with the split-off page is well formed at `mid`.
#[verifier::rlimit(30)]
pub proof fn lemma_split_kids_wf(
    old: Seq<Seq<u8>>,
    mid: Seq<Seq<u8>>,
    p: int,
    h: nat,
    lo: int,
    hi: int,
    next: int,
    root: bool,
    c: Seq<u8>,
    n: u32,
)
    requires
        sub_wf(old, p, h, lo, hi, next, root),
        h > 0,
        lo < cell_key(c) <= hi,
        !cell_keys(sub_cells(old, p, h)).contains(cell_key(c)),
        child_split_post(old, mid, p, h, lo, hi, next, c, n),
    ensures
        kids_wf(
            mid,
            split_kids(old, p, c, n),
            split_keys(old, mid, p, h, c),
            (h - 1) as nat,
            lo,
            hi,
            next,
            p,
            split_kids(old, p, c, n).len(),
        ),
{
    let k = cell_key(c);
    let keys = node_keys(old[p]);
    let kids = node_kids(old[p]);
    let hc = (h - 1) as nat;
    lemma_split_halves(old, mid, p, h, lo, hi, next, root, c, n);
    let j = child_index(keys, k) as int;
    let cj = kids[j] as int;
    let m = max_key(sub_cells(mid, cj, hc));
    let kids2 = split_kids(old, p, c, n);
    let keys2 = split_keys(old, mid, p, h, c);
    assert forall|i: int| 0 <= i < kids2.len() implies #[trigger] kid_ok(
        mid,
        kids2,
        keys2,
        hc,
        lo,
        hi,
        next,
        p,
        i,
    ) by {
        if i < j {
            lemma_sibling_framed(old, mid, p, h, lo, hi, next, root, j, i);
            assert(kids2[i] == kids[i]);
            assert(kid_lo(keys2, lo, i) == kid_lo(keys, lo, i));
            assert(kid_hi(keys2, hi, i) == kid_hi(keys, hi, i));
            if i + 1 < j {
                lemma_sibling_framed(old, mid, p, h, lo, hi, next, root, j, i + 1);
            }
            assert(kid_next(mid, kids2, hc, next, i) == kid_next(old, kids, hc, next, i));
        } else if i == j {
            assert(kids2[i] == kids[j]);
            assert(kid_lo(keys2, lo, i) == kid_lo(keys, lo, j));
        } else if i == j + 1 {
            assert(kids2[i] == n);
            if j + 1 < kids.len() {
                lemma_sibling_framed(old, mid, p, h, lo, hi, next, root, j, j + 1);
            }
            assert(kid_next(mid, kids2, hc, next, i) == kid_next(old, kids, hc, next, j));
            assert(kid_hi(keys2, hi, i) == kid_hi(keys, hi, j));
        } else {
            let g = i - 1;
            lemma_sibling_framed(old, mid, p, h, lo, hi, next, root, j, g);
            assert(kids2[i] == kids[g]);
            assert(kid_lo(keys2, lo, i) == kid_lo(keys, lo, g));
            assert(kid_hi(keys2, hi, i) == kid_hi(keys, hi, g));
            if i + 1 < kids2.len() {
                lemma_sibling_framed(old, mid, p, h, lo, hi, next, root, j, g + 1);
            }
            assert(kid_next(mid, kids2, hc, next, i) == kid_next(old, kids, hc, next, g));
        }
    }
    assert forall|a: int, b: int| 0 <= a < b < kids2.len() implies #[trigger] sub_page_set(
        mid,
        kids2[a] as int,
        hc,
    ).disjoint(#[trigger] sub_page_set(mid, kids2[b] as int, hc)) by {
        let ga = if a <= j {
            a
        } else {
            a - 1
        };
        let gb = if b <= j {
            b
        } else {
            b - 1
        };
        let sa = sub_page_set(mid, kids2[a] as int, hc);
        let sb = sub_page_set(mid, kids2[b] as int, hc);
        if a == j && b == j + 1 {
        } else if (a == j || a == j + 1) {
            lemma_sibling_framed(old, mid, p, h, lo, hi, next, root, j, gb);
            assert forall|q: int| sa.contains(q) implies !sb.contains(q) by {
                if sb.contains(q) {
                    assert(sub_page_set(old, kids[gb] as int, hc).contains(q));
                }
            }
        } else if (b == j || b == j + 1) {
            lemma_sibling_framed(old, mid, p, h, lo, hi, next, root, j, ga);
            assert forall|q: int| sa.contains(q) implies !sb.contains(q) by {
                assert(sub_page_set(old, kids[ga] as int, hc).contains(q));
            }
        } else {
            lemma_sibling_framed(old, mid, p, h, lo, hi, next, root, j, ga);
            lemma_sibling_framed(old, mid, p, h, lo, hi, next, root, j, gb);
            lemma_kids_wf_forall(old, kids, keys, hc, lo, hi, next, p, kids.len());
            assert(sub_page_set(old, kids[ga] as int, hc).disjoint(
                sub_page_set(old, kids[gb] as int, hc),
            ));
        }
    }
    lemma_kids_wf_forall(mid, kids2, keys2, hc, lo, hi, next, p, kids2.len());
}


/// The children list with the split-off page holds the old cells with the
/// new one, on the old pages of the subtree and new pages.
#[verifier::rlimit(30)]
pub proof fn lemma_split_kids_contents(
    old: Seq<Seq<u8>>,
    mid: Seq<Seq<u8>>,
    p: int,
    h: nat,
    lo: int,
    hi: int,
    next: int,
    root: bool,
    c: Seq<u8>,
    n: u32,
)
    requires
        sub_wf(old, p, h, lo, hi, next, root),
        h > 0,
        lo < cell_key(c) <= hi,
        !cell_keys(sub_cells(old, p, h)).contains(cell_key(c)),
        child_split_post(old, mid, p, h, lo, hi, next, c, n),
    ensures
        ({
            let kids2 = split_kids(old, p, c, n);
            let hc = (h - 1) as nat;
            &&& kids_cells(mid, kids2, hc, kids2.len()) == insert_sorted(sub_cells(old, p, h), c)
            &&& within_or_new(
                kids_pages(mid, kids2, hc, kids2.len()),
                sub_page_set(old, p, h),
                old.len() as int,
                mid.len() as int,
            )
            &&& !kids_pages(mid, kids2, hc, kids2.len()).contains(p)
            &&& first_leaf(mid, kids2[0] as int, hc) == first_leaf(old, p, h)
            &&& unchanged_outside(old, mid, sub_page_set(old, p, h))
        }),
{
    let k = cell_key(c);
    let keys = node_keys(old[p]);
    let kids = node_kids(old[p]);
    let hc = (h - 1) as nat;
    lemma_descend(old, p, h, lo, hi, next, root, k);
    lemma_split_halves(old, mid, p, h, lo, hi, next, root, c, n);
    let j = child_index(keys, k) as int;
    let cj = kids[j] as int;
    let kids2 = split_kids(old, p, c, n);
    let cl = sub_cells(mid, cj, hc);
    let cr = sub_cells(mid, n as int, hc);
    let cold = sub_cells(old, cj, hc);
    let pre = kids.take(j);
    let post = kids.skip(j + 1);
    assert(pre.len() == j as nat);
    assert forall|i: int| 0 <= i < j as nat implies {
        &&& #[trigger] sub_cells(mid, pre[i] as int, hc) == sub_cells(old, pre[i] as int, hc)
        &&& sub_page_set(mid, pre[i] as int, hc) == sub_page_set(old, pre[i] as int, hc)
        &&& sub_leaves(mid, pre[i] as int, hc) == sub_leaves(old, pre[i] as int, hc)
    } by {
        assert(pre[i] == kids[i]);
        lemma_sibling_framed(old, mid, p, h, lo, hi, next, root, j, i);
    }
    assert(post.len() == (kids.len() - j - 1) as nat);
    assert forall|i: int| 0 <= i < (kids.len() - j - 1) as nat implies {
        &&& #[trigger] sub_cells(mid, post[i] as int, hc) == sub_cells(old, post[i] as int, hc)
        &&& sub_page_set(mid, post[i] as int, hc) == sub_page_set(old, post[i] as int, hc)
        &&& sub_leaves(mid, post[i] as int, hc) == sub_leaves(old, post[i] as int, hc)
    } by {
        assert(post[i] == kids[j + 1 + i]);
        lemma_sibling_framed(old, mid, p, h, lo, hi, next, root, j, j + 1 + i);
    }
    lemma_kids_congruence(old, mid, pre, hc, j as nat);
    lemma_kids_congruence(old, mid, post, hc, (kids.len() - j - 1) as nat);
    let two = seq![kids[j], n];
    assert(kids2 =~= pre + (two + post));
    lemma_kids_cells_concat(mid, pre, two + post, hc);
    lemma_kids_cells_concat(mid, two, post, hc);
    assert(kids_cells(mid, two, hc, 2) =~= cl + cr) by {
        assert(kids_cells(mid, two, hc, 0) =~= Seq::<Seq<u8>>::empty());
        assert(kids_cells(mid, two, hc, 1) =~= cl);
    }
    let a = kids_cells(old, pre, hc, j as nat);
    let cc = kids_cells(old, post, hc, (kids.len() - j - 1) as nat);
    lemma_insert_sorted_below(a, cold + cc, c);
    lemma_insert_sorted_above(cold, cc, c);
    assert(a + cold + cc == a + (cold + cc));
    assert(a + ((cl + cr) + cc) == a + (insert_sorted(cold, c) + cc));
    assert forall|q: int| #[trigger] kids_pages(mid, kids2, hc, kids2.len()).contains(q) implies (
    sub_page_set(old, p, h).contains(q) || (old.len() <= q < mid.len())) && q != p by {
        lemma_kids_pages_member(mid, kids2, hc, kids2.len(), q);
        let i = choose|i: int|
            0 <= i < kids2.len() && #[trigger] sub_page_set(mid, kids2[i] as int, hc).contains(q);
        lemma_kids_pages_member(old, kids, hc, kids.len(), q);
        if i == j || i == j + 1 {
            if !(old.len() <= q < mid.len()) {
                assert(sub_page_set(old, kids[j] as int, hc).contains(q));
            }
        } else {
            let g = if i < j {
                i
            } else {
                i - 1
            };
            lemma_sibling_framed(old, mid, p, h, lo, hi, next, root, j, g);
            assert(sub_page_set(old, kids[g] as int, hc).contains(q));
        }
    }
    assert forall|q: int| 0 <= q < old.len() && !sub_page_set(old, p, h).contains(q) implies #[trigger] mid[q]
        == old[q] by {
        if sub_page_set(old, cj, hc).contains(q) {
            lemma_kids_pages_member(old, kids, hc, kids.len(), q);
        }
    }
    if j != 0 {
        lemma_sibling_framed(old, mid, p, h, lo, hi, next, root, j, 0);
    }
    assert(kids2[0] == kids[0]);
}


/// Children whose pages keep their nodes stay well formed, with the same contents.
pub proof fn lemma_kids_frame(
    pages: Seq<Seq<u8>>,
    pages2: Seq<Seq<u8>>,
    kids: Seq<u32>,
    keys: Seq<u32>,
    hc: nat,
    lo: int,
    hi: int,
    next: int,
    pp: int,
    pp2: int,
)
    requires
        kids_wf(pages, kids, keys, hc, lo, hi, next, pp, kids.len()),
        frame_ok(pages, pages2, kids_pages(pages, kids, hc, kids.len())),
        !kids_pages(pages, kids, hc, kids.len()).contains(pp2),
        kids.len() > 0,
    ensures
        kids_wf(pages2, kids, keys, hc, lo, hi, next, pp2, kids.len()),
        kids_cells(pages2, kids, hc, kids.len()) == kids_cells(pages, kids, hc, kids.len()),
        kids_pages(pages2, kids, hc, kids.len()) == kids_pages(pages, kids, hc, kids.len()),
        kids_leaves(pages2, kids, hc, kids.len()) == kids_leaves(pages, kids, hc, kids.len()),
        first_leaf(pages2, kids[0] as int, hc) == first_leaf(pages, kids[0] as int, hc),
        forall|i: int| 0 <= i < kids.len() ==> #[trigger] sub_cells(pages2, kids[i] as int, hc) == sub_cells(pages, kids[i] as int, hc),
{
    lemma_kids_wf_forall(pages, kids, keys, hc, lo, hi, next, pp, kids.len());
    assert forall|i: int| 0 <= i < kids.len() implies {
        &&& sub_wf(
            pages2,
            kids[i] as int,
            hc,
            kid_lo(keys, lo, i),
            kid_hi(keys, hi, i),
            kid_next(pages, kids, hc, next, i),
            false,
        )
        &&& #[trigger] sub_cells(pages2, kids[i] as int, hc) == sub_cells(pages, kids[i] as int, hc)
        &&& sub_page_set(pages2, kids[i] as int, hc) == sub_page_set(pages, kids[i] as int, hc)
        &&& sub_leaves(pages2, kids[i] as int, hc) == sub_leaves(pages, kids[i] as int, hc)
        &&& first_leaf(pages2, kids[i] as int, hc) == first_leaf(pages, kids[i] as int, hc)
        &&& !sub_page_set(pages, kids[i] as int, hc).contains(pp2)
    } by {
        assert(kid_ok(pages, kids, keys, hc, lo, hi, next, pp, i));
        assert forall|q: int| #[trigger]
            sub_page_set(pages, kids[i] as int, hc).contains(q) implies kids_pages(
            pages,
            kids,
            hc,
            kids.len(),
        ).contains(q) by {
            lemma_kids_pages_member(pages, kids, hc, kids.len(), q);
        }
        lemma_frame(
            pages,
            pages2,
            kids[i] as int,
            hc,
            kid_lo(keys, lo, i),
            kid_hi(keys, hi, i),
            kid_next(pages, kids, hc, next, i),
            false,
        );
    }
    assert forall|i: int| 0 <= i < kids.len() implies #[trigger] kid_ok(
        pages2,
        kids,
        keys,
        hc,
        lo,
        hi,
        next,
        pp2,
        i,
    ) by {
        assert(sub_cells(pages2, kids[i] as int, hc) == sub_cells(pages, kids[i] as int, hc));
        if i + 1 < kids.len() {
            assert(sub_cells(pages2, kids[i + 1] as int, hc) == sub_cells(
                pages,
                kids[i + 1] as int,
                hc,
            ));
        }
        assert(kid_next(pages2, kids, hc, next, i) == kid_next(pages, kids, hc, next, i));
        assert(kid_ok(pages, kids, keys, hc, lo, hi, next, pp, i));
    }
    assert forall|a: int, b: int| 0 <= a < b < kids.len() implies #[trigger] sub_page_set(
        pages2,
        kids[a] as int,
        hc,
    ).disjoint(#[trigger] sub_page_set(pages2, kids[b] as int, hc)) by {
        assert(sub_cells(pages2, kids[a] as int, hc) == sub_cells(pages, kids[a] as int, hc));
        assert(sub_cells(pages2, kids[b] as int, hc) == sub_cells(pages, kids[b] as int, hc));
        assert(sub_page_set(pages, kids[a] as int, hc).disjoint(
            sub_page_set(pages, kids[b] as int, hc),
        ));
    }
    lemma_kids_wf_forall(pages2, kids, keys, hc, lo, hi, next, pp2, kids.len());
    lemma_kids_congruence(pages, pages2, kids, hc, kids.len());
    assert(sub_cells(pages2, kids[0] as int, hc) == sub_cells(pages, kids[0] as int, hc));
}

/// Well-formed children cut at `s` give two well-formed runs: the front one
/// bounded by the key of child `s - 1`, the back one starting above it.
pub proof fn lemma_kids_wf_split(
    pages: Seq<Seq<u8>>,
    kids: Seq<u32>,
    keys: Seq<u32>,
    hc: nat,
    lo: int,
    hi: int,
    next: int,
    pp: int,
    pp2: int,
    s: int,
)
    requires
        kids_wf(pages, kids, keys, hc, lo, hi, next, pp, kids.len()),
        kids.len() == keys.len() + 1,
        0 < s < kids.len(),
        !kids_pages(pages, kids, hc, kids.len()).contains(pp2),
    ensures
        kids_wf(
            pages,
            kids.take(s),
            keys.take(s - 1),
            hc,
            lo,
            keys[s - 1] as int,
            first_leaf(pages, kids[s] as int, hc),
            pp,
            s as nat,
        ),
        kids_wf(
            pages,
            kids.skip(s),
            keys.skip(s),
            hc,
            keys[s - 1] as int,
            hi,
            next,
            pp2,
            (kids.len() - s) as nat,
        ),
        max_key(sub_cells(pages, kids[s - 1] as int, hc)) == keys[s - 1],
{
    lemma_kids_wf_forall(pages, kids, keys, hc, lo, hi, next, pp, kids.len());
    let k1 = kids.take(s);
    let y1 = keys.take(s - 1);
    let k2 = kids.skip(s);
    let y2 = keys.skip(s);
    let f1 = first_leaf(pages, kids[s] as int, hc);
    assert(kid_ok(pages, kids, keys, hc, lo, hi, next, pp, s - 1));
    assert forall|i: int| 0 <= i < k1.len() implies #[trigger] kid_ok(
        pages,
        k1,
        y1,
        hc,
        lo,
        keys[s - 1] as int,
        f1,
        pp,
        i,
    ) by {
        assert(kid_ok(pages, kids, keys, hc, lo, hi, next, pp, i));
        assert(k1[i] == kids[i]);
        assert(kid_lo(y1, lo, i) == kid_lo(keys, lo, i));
        assert(kid_hi(y1, keys[s - 1] as int, i) == kid_hi(keys, hi, i));
        assert(kid_next(pages, k1, hc, f1, i) == kid_next(pages, kids, hc, next, i));
    }
    assert forall|a: int, b: int| 0 <= a < b < k1.len() implies #[trigger] sub_page_set(
        pages,
        k1[a] as int,
        hc,
    ).disjoint(#[trigger] sub_page_set(pages, k1[b] as int, hc)) by {
        assert(k1[a] == kids[a] && k1[b] == kids[b]);
        assert(sub_page_set(pages, kids[a] as int, hc).disjoint(
            sub_page_set(pages, kids[b] as int, hc),
        ));
    }
    lemma_kids_wf_forall(pages, k1, y1, hc, lo, keys[s - 1] as int, f1, pp, s as nat);
    assert forall|i: int| 0 <= i < k2.len() implies #[trigger] kid_ok(
        pages,
        k2,
        y2,
        hc,
        keys[s - 1] as int,
        hi,
        next,
        pp2,
        i,
    ) by {
        assert(kid_ok(pages, kids, keys, hc, lo, hi, next, pp, s + i));
        assert(k2[i] == kids[s + i]);
        assert(kid_lo(y2, keys[s - 1] as int, i) == kid_lo(keys, lo, s + i));
        assert(kid_hi(y2, hi, i) == kid_hi(keys, hi, s + i));
        assert(kid_next(pages, k2, hc, next, i) == kid_next(pages, kids, hc, next, s + i));
        lemma_kids_pages_member(pages, kids, hc, kids.len(), pp2);
        if sub_page_set(pages, kids[s + i] as int, hc).contains(pp2) {
            assert(kids_pages(pages, kids, hc, kids.len()).contains(pp2));
        }
    }
    assert forall|a: int, b: int| 0 <= a < b < k2.len() implies #[trigger] sub_page_set(
        pages,
        k2[a] as int,
        hc,
    ).disjoint(#[trigger] sub_page_set(pages, k2[b] as int, hc)) by {
        assert(k2[a] == kids[s + a] && k2[b] == kids[s + b]);
        assert(sub_page_set(pages, kids[s + a] as int, hc).disjoint(
            sub_page_set(pages, kids[s + b] as int, hc),
        ));
    }
    lemma_kids_wf_forall(pages, k2, y2, hc, keys[s - 1] as int, hi, next, pp2, (kids.len() - s) as nat);
}


/// Every page under well-formed children is a page of the pager.
pub proof fn lemma_kids_pages_bounds(
    pages: Seq<Seq<u8>>,
    kids: Seq<u32>,
    keys: Seq<u32>,
    hc: nat,
    lo: int,
    hi: int,
    next: int,
    pp: int,
)
    requires
        kids_wf(pages, kids, keys, hc, lo, hi, next, pp, kids.len()),
    ensures
        forall|q: int| #[trigger]
            kids_pages(pages, kids, hc, kids.len()).contains(q) ==> 0 <= q < pages.len()
                && pages[q].len() == PAGE_SIZE && q != pp,
{
    lemma_kids_wf_forall(pages, kids, keys, hc, lo, hi, next, pp, kids.len());
    assert forall|q: int| #[trigger] kids_pages(pages, kids, hc, kids.len()).contains(q) implies 0
        <= q < pages.len() && pages[q].len() == PAGE_SIZE && q != pp by {
        lemma_kids_pages_member(pages, kids, hc, kids.len(), q);
        let i = choose|i: int|
            0 <= i < kids.len() && #[trigger] sub_page_set(pages, kids[i] as int, hc).contains(q);
        assert(kid_ok(pages, kids, keys, hc, lo, hi, next, pp, i));
        lemma_sub_page_set_bounds(
            pages,
            kids[i] as int,
            hc,
            kid_lo(keys, lo, i),
            kid_hi(keys, hi, i),
            kid_next(pages, kids, hc, next, i),
            false,
        );
    }
}

/// A parent with room takes the split-off child: its subtree holds the new
/// cell and stays well formed.
#[verifier::rlimit(30)]
pub proof fn lemma_parent_absorbs(
    old: Seq<Seq<u8>>,
    mid: Seq<Seq<u8>>,
    fin: Seq<Seq<u8>>,
    p: int,
    h: nat,
    lo: int,
    hi: int,
    next: int,
    root: bool,
    c: Seq<u8>,
    n: u32,
)
    requires
        sub_wf(old, p, h, lo, hi, next, root),
        h > 0,
        lo < cell_key(c) <= hi,
        !cell_keys(sub_cells(old, p, h)).contains(cell_key(c)),
        child_split_post(old, mid, p, h, lo, hi, next, c, n),
        num_keys_of(old[p]) < INTERNAL_NODE_MAX_CELLS,
        fin.len() == mid.len(),
        forall|q: int| 0 <= q < mid.len() && q != p ==> #[trigger] fin[q] == mid[q],
        fin[p].len() == PAGE_SIZE,
        node_kids(fin[p]) == split_kids(old, p, c, n),
        node_keys(fin[p]) == split_keys(old, mid, p, h, c),
        fin[p].subrange(0, 6) == old[p].subrange(0, 6),
    ensures
        sub_wf(fin, p, h, lo, hi, next, root),
        sub_cells(fin, p, h) == insert_sorted(sub_cells(old, p, h), c),
        within_or_new(sub_page_set(fin, p, h), sub_page_set(old, p, h), old.len() as int, fin.len() as int),
        first_leaf(fin, p, h) == first_leaf(old, p, h),
        unchanged_outside(old, fin, sub_page_set(old, p, h)),
{
    let hc = (h - 1) as nat;
    let kids2 = split_kids(old, p, c, n);
    let keys2 = split_keys(old, mid, p, h, c);
    lemma_split_halves(old, mid, p, h, lo, hi, next, root, c, n);
    lemma_split_kids_wf(old, mid, p, h, lo, hi, next, root, c, n);
    lemma_split_kids_contents(old, mid, p, h, lo, hi, next, root, c, n);
    lemma_kids_pages_bounds(mid, kids2, keys2, hc, lo, hi, next, p);
    assert forall|q: int| #[trigger] kids_pages(mid, kids2, hc, kids2.len()).contains(q) implies 0 <= q
        < mid.len() && q < fin.len() && content_eq(mid[q], fin[q]) by {
        assert(fin[q] == mid[q]);
        assert(mid[q].subrange(6, PAGE_SIZE as int) == fin[q].subrange(6, PAGE_SIZE as int));
    }
    lemma_kids_frame(mid, fin, kids2, keys2, hc, lo, hi, next, p, p);
    assert(fin[p][0] == fin[p].subrange(0, 6)[0]);
    assert(old[p][0] == old[p].subrange(0, 6)[0]);
    lemma_sub_page_set_bounds(old, p, h, lo, hi, next, root);
    assert(sub_page_set(fin, p, h) =~= set![p].union(kids_pages(fin, kids2, hc, kids2.len())));
    assert(sub_wf(fin, p, h, lo, hi, next, root));
    assert forall|q: int| 0 <= q < old.len() && !sub_page_set(old, p, h).contains(q) implies #[trigger] fin[q]
        == old[q] by {
        assert(mid[q] == old[q]);
    }
}

/// A full parent splits when it takes the split-off child: the front
/// children stay on page `p`, the back ones go to the new page `nn`.
#[verifier::rlimit(40)]
pub proof fn lemma_parent_splits(
    old: Seq<Seq<u8>>,
    mid: Seq<Seq<u8>>,
    fin: Seq<Seq<u8>>,
    p: int,
    h: nat,
    lo: int,
    hi: int,
    next: int,
    root: bool,
    c: Seq<u8>,
    n: u32,
    nn: u32,
    s: int,
)
    requires
        sub_wf(old, p, h, lo, hi, next, root),
        h > 0,
        lo < cell_key(c) <= hi,
        !cell_keys(sub_cells(old, p, h)).contains(cell_key(c)),
        child_split_post(old, mid, p, h, lo, hi, next, c, n),
        num_keys_of(old[p]) == INTERNAL_NODE_MAX_CELLS,
        s == 2 || s == 3,
        nn == mid.len(),
        fin.len() == mid.len() + 1,
        fin[p].len() == PAGE_SIZE,
        node_kids(fin[p]) == split_kids(old, p, c, n).take(s),
        node_keys(fin[p]) == split_keys(old, mid, p, h, c).take(s - 1),
        fin[p].subrange(0, 6) == old[p].subrange(0, 6),
        fin[nn as int].len() == PAGE_SIZE,
        node_kids(fin[nn as int]) == split_kids(old, p, c, n).skip(s),
        node_keys(fin[nn as int]) == split_keys(old, mid, p, h, c).skip(s),
        node_type_of(fin[nn as int]) == 0,
        forall|q: int|
            0 <= q < mid.len() && q != p && #[trigger] fin[q] != mid[q] ==> content_eq(mid[q], fin[q])
                && exists|i: int|
                s <= i < split_kids(old, p, c, n).len() && split_kids(old, p, c, n)[i] == q,
    ensures
        ({
            let sep = split_keys(old, mid, p, h, c)[s - 1];
            &&& max_key(sub_cells(fin, p, h)) == sep
            &&& sub_wf(fin, p, h, lo, sep as int, first_leaf(fin, nn as int, h), false)
            &&& sub_wf(fin, nn as int, h, sep as int, hi, next, false)
            &&& sub_cells(fin, p, h) + sub_cells(fin, nn as int, h) == insert_sorted(
                sub_cells(old, p, h),
                c,
            )
            &&& within_or_new(sub_page_set(fin, p, h), sub_page_set(old, p, h), old.len() as int, fin.len() as int)
            &&& within_or_new(sub_page_set(fin, nn as int, h), sub_page_set(old, p, h), old.len() as int, fin.len() as int)
            &&& sub_page_set(fin, p, h).disjoint(sub_page_set(fin, nn as int, h))
            &&& first_leaf(fin, p, h) == first_leaf(old, p, h)
            &&& unchanged_outside(old, fin, sub_page_set(old, p, h))
        }),
{
    let hc = (h - 1) as nat;
    let kids2 = split_kids(old, p, c, n);
    let keys2 = split_keys(old, mid, p, h, c);
    lemma_split_halves(old, mid, p, h, lo, hi, next, root, c, n);
    lemma_split_kids_wf(old, mid, p, h, lo, hi, next, root, c, n);
    lemma_split_kids_contents(old, mid, p, h, lo, hi, next, root, c, n);
    lemma_kids_pages_bounds(mid, kids2, keys2, hc, lo, hi, next, p);
    let kp = kids_pages(mid, kids2, hc, kids2.len());
    assert forall|q: int| #[trigger] kp.contains(q) implies 0 <= q < mid.len() && q < fin.len()
        && content_eq(mid[q], fin[q]) by {
        if fin[q] == mid[q] {
            assert(mid[q].subrange(6, PAGE_SIZE as int) == fin[q].subrange(6, PAGE_SIZE as int));
        }
    }
    lemma_kids_frame(mid, fin, kids2, keys2, hc, lo, hi, next, p, p);
    assert(!kids_pages(fin, kids2, hc, kids2.len()).contains(nn as int));
    lemma_kids_wf_split(fin, kids2, keys2, hc, lo, hi, next, p, nn as int, s);
    let sep = keys2[s - 1];
    let k1 = kids2.take(s);
    let k2 = kids2.skip(s);
    let y1 = keys2.take(s - 1);
    let y2 = keys2.skip(s);
    // Both nodes are well formed.
    assert(fin[p][0] == fin[p].subrange(0, 6)[0]);
    assert(old[p][0] == old[p].subrange(0, 6)[0]);
    assert(keys_sorted(y1) && keys_within(y1, lo, sep as int)) by {
        assert forall|a: int| 0 <= a < y1.len() implies lo < #[trigger] y1[a] <= sep by {
            assert(y1[a] == keys2[a]);
            assert(keys2[a] < keys2[s - 1]);
        }
        assert forall|a: int, b: int| 0 <= a < b < y1.len() implies y1[a] < y1[b] by {
            assert(keys2[a] < keys2[b]);
        }
    }
    assert(keys_sorted(y2) && keys_within(y2, sep as int, hi)) by {
        assert forall|a: int| 0 <= a < y2.len() implies sep < #[trigger] y2[a] <= hi by {
            assert(y2[a] == keys2[s + a]);
            assert(keys2[s - 1] < keys2[s + a]);
        }
        assert forall|a: int, b: int| 0 <= a < b < y2.len() implies y2[a] < y2[b] by {
            assert(keys2[s + a] < keys2[s + b]);
        }
    }
    assert(k2[0] == kids2[s]);
    assert(first_leaf(fin, nn as int, h) == first_leaf(fin, kids2[s] as int, hc));
    assert(sub_wf(fin, p, h, lo, sep as int, first_leaf(fin, nn as int, h), false));
    assert(sub_wf(fin, nn as int, h, sep as int, hi, next, false));
    // The largest key of the front node.
    lemma_sub_cells_ok(fin, p, h, lo, sep as int, first_leaf(fin, nn as int, h), false);
    assert(k1[k1.len() - 1] == kids2[s - 1]);
    // Contents.
    assert(kids2 =~= k1 + k2);
    lemma_kids_cells_concat(fin, k1, k2, hc);
    // Pages.
    let s1 = sub_page_set(fin, p, h);
    let s2 = sub_page_set(fin, nn as int, h);
    assert(s1 =~= set![p].union(kids_pages(fin, k1, hc, k1.len())));
    assert(s2 =~= set![nn as int].union(kids_pages(fin, k2, hc, k2.len())));
    lemma_kids_wf_forall(fin, kids2, keys2, hc, lo, hi, next, p, kids2.len());
    assert forall|q: int| s1.contains(q) implies !s2.contains(q) by {
        if q != p && s2.contains(q) {
            lemma_kids_pages_member(fin, k1, hc, k1.len(), q);
            let a = choose|a: int| 0 <= a < k1.len() && #[trigger] sub_page_set(fin, k1[a] as int, hc).contains(q);
            if q != nn {
                lemma_kids_pages_member(fin, k2, hc, k2.len(), q);
                let b = choose|b: int| 0 <= b < k2.len() && #[trigger] sub_page_set(fin, k2[b] as int, hc).contains(q);
                assert(k1[a] == kids2[a]);
                assert(k2[b] == kids2[s + b]);
                assert(sub_page_set(fin, kids2[a] as int, hc).disjoint(sub_page_set(fin, kids2[s + b] as int, hc)));
            } else {
                assert(kids_pages(fin, kids2, hc, kids2.len()).contains(q));
            }
        }
        if q == p && s2.contains(q) {
            assert(kids_pages(fin, kids2, hc, kids2.len()).contains(q));
        }
    }
    assert(s1.disjoint(s2));
    lemma_sub_page_set_bounds(old, p, h, lo, hi, next, root);
    assert forall|q: int| 0 <= q < old.len() && !sub_page_set(old, p, h).contains(q) implies #[trigger] fin[q]
        == old[q] by {
        assert(mid[q] == old[q]);
        if fin[q] != mid[q] {
            let i = choose|i: int| s <= i < kids2.len() && kids2[i] == q;
            lemma_kids_wf_forall(mid, kids2, keys2, hc, lo, hi, next, p, kids2.len());
            assert(kid_ok(mid, kids2, keys2, hc, lo, hi, next, p, i));
            lemma_sub_page_set_bounds(
                mid,
                kids2[i] as int,
                hc,
                kid_lo(keys2, lo, i),
                kid_hi(keys2, hi, i),
                kid_next(mid, kids2, hc, next, i),
                false,
            );
            lemma_kids_pages_member(mid, kids2, hc, kids2.len(), q);
            assert(kp.contains(q));
        }
    }
    assert(max_key(sub_cells(fin, p, h)) == sep);
    assert(sub_cells(fin, p, h) + sub_cells(fin, nn as int, h) == insert_sorted(sub_cells(old, p, h), c));
    assert(kids_pages(fin, kids2, hc, kids2.len()) == kids_pages(fin, k1, hc, k1.len()).union(
        kids_pages(fin, k2, hc, k2.len()),
    ));
    assert forall|q: int| #[trigger] s1.contains(q) || s2.contains(q) implies sub_page_set(
        old,
        p,
        h,
    ).contains(q) || (old.len() <= q < fin.len()) by {
        if q != p && q != nn {
            assert(kp.contains(q));
        }
    }
    assert(within_or_new(s1, sub_page_set(old, p, h), old.len() as int, fin.len() as int));
    assert(within_or_new(s2, sub_page_set(old, p, h), old.len() as int, fin.len() as int));
    assert(first_leaf(fin, p, h) == first_leaf(old, p, h));
}


/// A node copied to another page, over children that keep their nodes, is
/// the same subtree there.
pub proof fn lemma_relocate(
    pages: Seq<Seq<u8>>,
    pages2: Seq<Seq<u8>>,
    p: int,
    q: int,
    h: nat,
    lo: int,
    hi: int,
    next: int,
    root: bool,
)
    requires
        sub_wf(pages, p, h, lo, hi, next, root),
        0 <= q < pages2.len(),
        content_eq(pages[p], pages2[q]),
        h > 0 ==> frame_ok(
            pages,
            pages2,
            kids_pages(pages, node_kids(pages[p]), (h - 1) as nat, node_kids(pages[p]).len()),
        ),
        h > 0 ==> !kids_pages(
            pages,
            node_kids(pages[p]),
            (h - 1) as nat,
            node_kids(pages[p]).len(),
        ).contains(q),
    ensures
        sub_wf(pages2, q, h, lo, hi, next, root),
        sub_cells(pages2, q, h) == sub_cells(pages, p, h),
        h > 0 ==> first_leaf(pages2, q, h) == first_leaf(pages, p, h),
        h == 0 ==> sub_page_set(pages2, q, h) == set![q],
        h > 0 ==> sub_page_set(pages2, q, h) == set![q].union(
            kids_pages(pages, node_kids(pages[p]), (h - 1) as nat, node_kids(pages[p]).len()),
        ),
{
    lemma_content_eq_views(pages[p], pages2[q]);
    if h > 0 {
        let keys = node_keys(pages[p]);
        let kids = node_kids(pages[p]);
        let hc = (h - 1) as nat;
        lemma_kids_frame(pages, pages2, kids, keys, hc, lo, hi, next, p, q);
        assert(node_kids(pages2[q]) == kids);
        assert(first_leaf(pages2, q, h) == first_leaf(pages2, kids[0] as int, hc));
    }
}

/// A new root over the two halves of the old root holds the same cells and
/// is a well-formed tree one level taller.
#[verifier::rlimit(40)]
pub proof fn lemma_new_root(
    old: Seq<Seq<u8>>,
    fin: Seq<Seq<u8>>,
    h: nat,
    n: u32,
    l: u32,
)
    requires
        forall|i: int| 0 <= i < old.len() ==> #[trigger] old[i].len() == PAGE_SIZE,
        forall|i: int| 0 <= i < fin.len() ==> #[trigger] fin[i].len() == PAGE_SIZE,
        sub_wf(
            old,
            0,
            h,
            -1,
            max_key(sub_cells(old, 0, h)) as int,
            first_leaf(old, n as int, h),
            false,
        ),
        sub_wf(old, n as int, h, max_key(sub_cells(old, 0, h)) as int, u32::MAX as int, 0, false),
        sub_page_set(old, 0, h).disjoint(sub_page_set(old, n as int, h)),
        l == old.len(),
        fin.len() == old.len() + 1,
        content_eq(old[0], fin[l as int]),
        node_type_of(fin[0]) == 0,
        node_kids(fin[0]) == seq![l, n],
        node_keys(fin[0]) == seq![max_key(sub_cells(old, 0, h))],
        content_eq(old[n as int], fin[n as int]),
        forall|q: int|
            0 <= q < old.len() && q != 0 && q != n && #[trigger] fin[q] != old[q] ==> content_eq(
                old[q],
                fin[q],
            ) && sub_page_set(old, 0, h).contains(q),
    ensures
        tree_wf(fin, h + 1),
        tree_cells(fin, h + 1) == sub_cells(old, 0, h) + sub_cells(old, n as int, h),
{
    let m = max_key(sub_cells(old, 0, h));
    let fl = first_leaf(old, n as int, h);
    lemma_sub_page_set_bounds(old, 0, h, -1, m as int, fl, false);
    lemma_sub_page_set_bounds(old, n as int, h, m as int, u32::MAX as int, 0, false);
    assert(n != 0) by {
        assert(sub_page_set(old, n as int, h).contains(n as int));
    }
    // The right half keeps its subtree.
    assert forall|q: int| #[trigger] sub_page_set(old, n as int, h).contains(q) implies 0 <= q
        < old.len() && q < fin.len() && content_eq(old[q], fin[q]) by {
        assert(!sub_page_set(old, 0, h).contains(q));
        if q != n && fin[q] == old[q] {
            assert(old[q].subrange(6, PAGE_SIZE as int) == fin[q].subrange(6, PAGE_SIZE as int));
        }
    }
    lemma_frame(old, fin, n as int, h, m as int, u32::MAX as int, 0, false);
    // The left half moves to page `l`.
    if h > 0 {
        let kids = node_kids(old[0]);
        let keys = node_keys(old[0]);
        let hc = (h - 1) as nat;
        lemma_kids_pages_bounds(old, kids, keys, hc, -1, m as int, fl, 0);
        assert forall|q: int| #[trigger] kids_pages(old, kids, hc, kids.len()).contains(q) implies 0
            <= q < old.len() && q < fin.len() && content_eq(old[q], fin[q]) by {
            assert(sub_page_set(old, 0, h).contains(q));
            assert(q != n as int) by {
                assert(sub_page_set(old, 0, h).disjoint(sub_page_set(old, n as int, h)));
            }
            if fin[q] == old[q] {
                assert(old[q].subrange(6, PAGE_SIZE as int) == fin[q].subrange(6, PAGE_SIZE as int));
            }
        }
    }
    lemma_relocate(old, fin, 0, l as int, h, -1, m as int, fl, false);
    // The new root.
    let kids = seq![l, n];
    let keys = seq![m];
    assert(kid_next(fin, kids, h, 0, 0) == fl);
    assert(!sub_page_set(fin, l as int, h).contains(0)) by {
        if h > 0 {
            let k0 = node_kids(old[0]);
            let hc = (h - 1) as nat;
            lemma_kids_pages_bounds(old, k0, node_keys(old[0]), hc, -1, m as int, fl, 0);
        }
    }
    assert(!sub_page_set(fin, n as int, h).contains(0)) by {
        assert(sub_page_set(old, 0, h).contains(0));
    }
    assert(sub_page_set(fin, l as int, h).disjoint(sub_page_set(fin, n as int, h))) by {
        assert forall|q: int| sub_page_set(fin, l as int, h).contains(q) implies !sub_page_set(
            fin,
            n as int,
            h,
        ).contains(q) by {
            if q != l {
                assert(sub_page_set(old, 0, h).contains(q)) by {
                    if h > 0 {
                        lemma_kids_pages_member(old, node_kids(old[0]), (h - 1) as nat, node_kids(old[0]).len(), q);
                    }
                }
            }
        }
    }
    lemma_sub_cells_ok(old, 0, h, -1, m as int, fl, false);
    assert(kid_ok(fin, kids, keys, h, -1, u32::MAX as int, 0, 0, 0));
    assert(kid_ok(fin, kids, keys, h, -1, u32::MAX as int, 0, 0, 1));
    lemma_kids_wf_forall(fin, kids, keys, h, -1, u32::MAX as int, 0, 0, 2);
    assert(kids_cells(fin, kids, h, 2) == sub_cells(fin, l as int, h) + sub_cells(fin, n as int, h)) by {
        assert(kids_cells(fin, kids, h, 0) =~= Seq::<Seq<u8>>::empty());
        assert(kids_cells(fin, kids, h, 1) =~= sub_cells(fin, l as int, h));
    }
    assert(sub_wf(fin, 0, h + 1, -1, u32::MAX as int, 0, true));
}


/// The search for a key ends in a page of the tree holding a leaf.
pub proof fn lemma_find_leaf_ok(
    pages: Seq<Seq<u8>>,
    p: int,
    h: nat,
    lo: int,
    hi: int,
    next: int,
    root: bool,
    k: u32,
)
    requires
        sub_wf(pages, p, h, lo, hi, next, root),
        lo < k <= hi,
    ensures
        0 <= find_leaf(pages, p, h, k) < pages.len(),
        pages[find_leaf(pages, p, h, k)].len() == PAGE_SIZE,
        num_cells_of(pages[find_leaf(pages, p, h, k)]) <= LEAF_NODE_MAX_CELLS,
        child_index(cell_keys(leaf_cells(pages[find_leaf(pages, p, h, k)])), k) <= num_cells_of(
            pages[find_leaf(pages, p, h, k)],
        ),
    decreases h,
{
    if h == 0 {
        lemma_child_index(cell_keys(leaf_cells(pages[p])), k);
    } else {
        lemma_descend(pages, p, h, lo, hi, next, root, k);
        let keys = node_keys(pages[p]);
        let kids = node_kids(pages[p]);
        let j = child_index(keys, k) as int;
        lemma_find_leaf_ok(
            pages,
            kids[j] as int,
            (h - 1) as nat,
            kid_lo(keys, lo, j),
            kid_hi(keys, hi, j),
            kid_next(pages, kids, (h - 1) as nat, next, j),
            false,
            k,
        );
    }
}


/// The cells of a run of leaves, in order.
pub open spec fn leaves_cells(pages: Seq<Seq<u8>>, ls: Seq<int>) -> Seq<Seq<u8>>
    decreases ls.len(),
{
    if ls.len() == 0 {
        Seq::empty()
    } else {
        leaves_cells(pages, ls.drop_last()) + leaf_cells(pages[ls.last()])
    }
}

/// The cells of concatenated leaf lists are the concatenated cells.
pub proof fn lemma_leaves_cells_concat(pages: Seq<Seq<u8>>, a: Seq<int>, b: Seq<int>)
    ensures
        leaves_cells(pages, a + b) == leaves_cells(pages, a) + leaves_cells(pages, b),
    decreases b.len(),
{
    if b.len() == 0 {
        assert(a + b =~= a);
        assert(leaves_cells(pages, a) + Seq::<Seq<u8>>::empty() =~= leaves_cells(pages, a));
    } else {
        assert((a + b).drop_last() =~= a + b.drop_last());
        lemma_leaves_cells_concat(pages, a, b.drop_last());
        assert((a + b).last() == b.last());
    }
}

/// Leaf `i` of the run `ls` is a leaf page linked to the leaf after it, or
/// to `next` for the last one.
pub open spec fn leaf_link(
    pages: Seq<Seq<u8>>,
    ls: Seq<int>,
    i: int,
    next: int,
    root: bool,
    h: nat,
) -> bool {
    &&& 0 <= ls[i] < pages.len()
    &&& pages[ls[i]].len() == PAGE_SIZE
    &&& node_type_of(pages[ls[i]]) == 1
    &&& num_cells_of(pages[ls[i]]) <= LEAF_NODE_MAX_CELLS
    &&& ((root && h == 0) || num_cells_of(pages[ls[i]]) >= 1)
    &&& next_leaf_of(pages[ls[i]]) == if i + 1 < ls.len() {
        ls[i + 1]
    } else {
        next
    }
}

/// The leaves of a well-formed subtree are linked left to right, end in
/// `next`, and hold its cells.
pub proof fn lemma_leaf_chain(
    pages: Seq<Seq<u8>>,
    p: int,
    h: nat,
    lo: int,
    hi: int,
    next: int,
    root: bool,
)
    requires
        sub_wf(pages, p, h, lo, hi, next, root),
    ensures
        ({
            let ls = sub_leaves(pages, p, h);
            &&& ls.len() >= 1
            &&& ls[0] == first_leaf(pages, p, h)
            &&& forall|i: int| 0 <= i < ls.len() ==> #[trigger] leaf_link(pages, ls, i, next, root, h)
            &&& leaves_cells(pages, ls) == sub_cells(pages, p, h)
            &&& forall|i: int| 0 <= i < ls.len() ==> (h > 0 ==> #[trigger] ls[i] != p)
        }),
    decreases h, 0nat,
{
    if h == 0 {
        let ls = sub_leaves(pages, p, h);
        assert(ls.drop_last() =~= Seq::<int>::empty());
        assert(leaves_cells(pages, Seq::<int>::empty()) == Seq::<Seq<u8>>::empty());
        assert(leaves_cells(pages, ls) =~= leaf_cells(pages[p]));
        assert(leaf_link(pages, ls, 0, next, root, h));
    } else {
        let kids = node_kids(pages[p]);
        let keys = node_keys(pages[p]);
        let hc = (h - 1) as nat;
        lemma_kids_leaf_chain(pages, kids, keys, hc, lo, hi, next, p, kids.len());
        let ls = sub_leaves(pages, p, h);
        assert(kid_next(pages, kids, hc, next, kids.len() - 1) == next);
        assert forall|i: int| 0 <= i < ls.len() implies #[trigger] leaf_link(pages, ls, i, next, root, h) by {
            assert(leaf_link(pages, ls, i, next, false, hc + 1));
        }
    }
}

/// The leaves under the first `n` children are linked left to right, end in
/// the leaf after child `n - 1`, and hold those children's cells.
pub proof fn lemma_kids_leaf_chain(
    pages: Seq<Seq<u8>>,
    kids: Seq<u32>,
    keys: Seq<u32>,
    hc: nat,
    lo: int,
    hi: int,
    next: int,
    pp: int,
    n: nat,
)
    requires
        kids_wf(pages, kids, keys, hc, lo, hi, next, pp, n),
        1 <= n <= kids.len(),
    ensures
        ({
            let ls = kids_leaves(pages, kids, hc, n);
            &&& ls.len() >= 1
            &&& ls[0] == first_leaf(pages, kids[0] as int, hc)
            &&& forall|i: int|
                0 <= i < ls.len() ==> #[trigger] leaf_link(
                    pages,
                    ls,
                    i,
                    kid_next(pages, kids, hc, next, n - 1),
                    false,
                    hc + 1,
                )
            &&& leaves_cells(pages, ls) == kids_cells(pages, kids, hc, n)
            &&& forall|i: int| 0 <= i < ls.len() ==> #[trigger] ls[i] != pp
        }),
    decreases hc, n,
{
    let m = (n - 1) as nat;
    let i = m as int;
    let c = kids[i] as int;
    let nx = kid_next(pages, kids, hc, next, i);
    lemma_leaf_chain(pages, c, hc, kid_lo(keys, lo, i), kid_hi(keys, hi, i), nx, false);
    lemma_sub_page_set_bounds(pages, c, hc, kid_lo(keys, lo, i), kid_hi(keys, hi, i), nx, false);
    let l2 = sub_leaves(pages, c, hc);
    lemma_leaf_members(pages, c, hc, kid_lo(keys, lo, i), kid_hi(keys, hi, i), nx, false);
    if m == 0 {
        let ls = kids_leaves(pages, kids, hc, n);
        assert(kids_leaves(pages, kids, hc, 0) =~= Seq::<int>::empty());
        assert(ls =~= l2);
        assert(kids_cells(pages, kids, hc, 0) =~= Seq::<Seq<u8>>::empty());
        assert(kids_cells(pages, kids, hc, n) =~= sub_cells(pages, c, hc));
        assert forall|x: int| 0 <= x < ls.len() implies #[trigger] leaf_link(pages, ls, x, nx, false, hc + 1) by {
            assert(leaf_link(pages, l2, x, nx, false, hc));
        }
        assert forall|x: int| 0 <= x < ls.len() implies #[trigger] ls[x] != pp by {
            assert(sub_page_set(pages, c, hc).contains(l2[x]));
        }
    } else {
        lemma_kids_leaf_chain(pages, kids, keys, hc, lo, hi, next, pp, m);
        let l1 = kids_leaves(pages, kids, hc, m);
        let ls = l1 + l2;
        assert(kid_next(pages, kids, hc, next, m - 1) == l2[0]);
        assert forall|x: int| 0 <= x < ls.len() implies #[trigger] leaf_link(pages, ls, x, nx, false, hc + 1) by {
            if x < l1.len() {
                assert(leaf_link(pages, l1, x, l2[0], false, hc + 1));
                if x + 1 < l1.len() {
                    assert(ls[x + 1] == l1[x + 1]);
                } else {
                    assert(ls[x + 1] == l2[0]);
                }
            } else {
                assert(leaf_link(pages, l2, x - l1.len(), nx, false, hc));
                assert(ls[x] == l2[x - l1.len()]);
                if x + 1 < ls.len() {
                    assert(ls[x + 1] == l2[x + 1 - l1.len()]);
                }
            }
        }
        lemma_leaves_cells_concat(pages, l1, l2);
        assert forall|x: int| 0 <= x < ls.len() implies #[trigger] ls[x] != pp by {
            if x < l1.len() {
                assert(ls[x] == l1[x]);
            } else {
                assert(ls[x] == l2[x - l1.len()]);
                assert(sub_page_set(pages, c, hc).contains(l2[x - l1.len()]));
            }
        }
    }
}

/// The leaves of a well-formed subtree are pages of the subtree.
pub proof fn lemma_leaf_members(
    pages: Seq<Seq<u8>>,
    p: int,
    h: nat,
    lo: int,
    hi: int,
    next: int,
    root: bool,
)
    requires
        sub_wf(pages, p, h, lo, hi, next, root),
    ensures
        forall|i: int| 0 <= i < sub_leaves(pages, p, h).len() ==> sub_page_set(pages, p, h).contains(#[trigger] sub_leaves(pages, p, h)[i]),
    decreases h,
{
    if h > 0 {
        let kids = node_kids(pages[p]);
        let keys = node_keys(pages[p]);
        let hc = (h - 1) as nat;
        lemma_kids_wf_forall(pages, kids, keys, hc, lo, hi, next, p, kids.len());
        assert forall|i: int| 0 <= i < sub_leaves(pages, p, h).len() implies sub_page_set(pages, p, h).contains(#[trigger] sub_leaves(pages, p, h)[i]) by {
            let x = sub_leaves(pages, p, h)[i];
            lemma_kids_leaves_member(pages, kids, hc, kids.len(), i);
            let k = choose|k: int| 0 <= k < kids.len() && #[trigger] sub_leaves(pages, kids[k] as int, hc).contains(x);
            assert(kid_ok(pages, kids, keys, hc, lo, hi, next, p, k));
            lemma_leaf_members(pages, kids[k] as int, hc, kid_lo(keys, lo, k), kid_hi(keys, hi, k), kid_next(pages, kids, hc, next, k), false);
            let y = choose|y: int| 0 <= y < sub_leaves(pages, kids[k] as int, hc).len() && sub_leaves(pages, kids[k] as int, hc)[y] == x;
            assert(sub_page_set(pages, kids[k] as int, hc).contains(sub_leaves(pages, kids[k] as int, hc)[y]));
            lemma_kids_pages_member(pages, kids, hc, kids.len(), x);
        }
    }
}

/// A leaf under the first `n` children is a leaf of one of them.
pub proof fn lemma_kids_leaves_member(pages: Seq<Seq<u8>>, kids: Seq<u32>, hc: nat, n: nat, i: int)
    requires
        0 <= i < kids_leaves(pages, kids, hc, n).len(),
    ensures
        exists|k: int| 0 <= k < n && #[trigger] sub_leaves(pages, kids[k] as int, hc).contains(kids_leaves(pages, kids, hc, n)[i]),
    decreases n,
{
    if n > 0 {
        let m = (n - 1) as nat;
        let l1 = kids_leaves(pages, kids, hc, m);
        let l2 = sub_leaves(pages, kids[m as int] as int, hc);
        if i < l1.len() {
            lemma_kids_leaves_member(pages, kids, hc, m, i);
            let k = choose|k: int| 0 <= k < m && #[trigger] sub_leaves(pages, kids[k] as int, hc).contains(l1[i]);
            assert((l1 + l2)[i] == l1[i]);
            assert(sub_leaves(pages, kids[k] as int, hc).contains(kids_leaves(pages, kids, hc, n)[i]));
        } else {
            assert((l1 + l2)[i] == l2[i - l1.len()]);
            assert(l2.contains(l2[i - l1.len()]));
            assert(sub_leaves(pages, kids[m as int] as int, hc).contains(kids_leaves(pages, kids, hc, n)[i]));
        }
    }
}


/// Searching for key 0 reaches the leftmost leaf.
pub proof fn lemma_find_zero(pages: Seq<Seq<u8>>, p: int, h: nat)
    ensures
        find_leaf(pages, p, h, 0) == first_leaf(pages, p, h),
    decreases h,
{
    if h > 0 {
        let keys = node_keys(pages[p]);
        assert(child_index(keys, 0) == 0);
        lemma_find_zero(pages, node_kids(pages[p])[0] as int, (h - 1) as nat);
    }
}

/// The cells of the leaves before leaf `li`, then leaf `li`'s, then the rest.
pub proof fn lemma_leaves_cells_at(pages: Seq<Seq<u8>>, ls: Seq<int>, li: int)
    requires
        0 <= li < ls.len(),
    ensures
        leaves_cells(pages, ls.take(li + 1)) == leaves_cells(pages, ls.take(li)) + leaf_cells(
            pages[ls[li]],
        ),
        leaves_cells(pages, ls) == leaves_cells(pages, ls.take(li + 1)) + leaves_cells(
            pages,
            ls.skip(li + 1),
        ),
        leaves_cells(pages, ls.take(ls.len() as int)) == leaves_cells(pages, ls),
{
    assert(ls.take(li + 1).drop_last() =~= ls.take(li));
    assert(ls =~= ls.take(li + 1) + ls.skip(li + 1));
    lemma_leaves_cells_concat(pages, ls.take(li + 1), ls.skip(li + 1));
    assert(ls.take(ls.len() as int) =~= ls);
}


/// A subtree of height `h` spans at least `h + 1` distinct pages of the pager.
pub proof fn lemma_sub_page_set_len(
    pages: Seq<Seq<u8>>,
    p: int,
    h: nat,
    lo: int,
    hi: int,
    next: int,
    root: bool,
)
    requires
        sub_wf(pages, p, h, lo, hi, next, root),
    ensures
        sub_page_set(pages, p, h).finite(),
        sub_page_set(pages, p, h).len() >= h + 1,
        sub_page_set(pages, p, h).len() <= pages.len(),
    decreases h,
{
    let s = sub_page_set(pages, p, h);
    let range = vstd::set_lib::set_int_range(0, pages.len() as int);
    lemma_sub_page_set_bounds(pages, p, h, lo, hi, next, root);
    vstd::set_lib::lemma_int_range(0, pages.len() as int);
    assert(s.subset_of(range));
    vstd::set_lib::lemma_len_subset(s, range);
    if h > 0 {
        let keys = node_keys(pages[p]);
        let kids = node_kids(pages[p]);
        let hc = (h - 1) as nat;
        let k = kids_pages(pages, kids, hc, kids.len());
        lemma_kids_wf_forall(pages, kids, keys, hc, lo, hi, next, p, kids.len());
        assert(kid_ok(pages, kids, keys, hc, lo, hi, next, p, 0));
        lemma_sub_page_set_len(
            pages,
            kids[0] as int,
            hc,
            kid_lo(keys, lo, 0),
            kid_hi(keys, hi, 0),
            kid_next(pages, kids, hc, next, 0),
            false,
        );
        let s0 = sub_page_set(pages, kids[0] as int, hc);
        assert(s0.subset_of(k)) by {
            assert forall|q: int| s0.contains(q) implies k.contains(q) by {
                lemma_kids_pages_member(pages, kids, hc, kids.len(), q);
            }
        }
        assert(!k.contains(p)) by {
            if k.contains(p) {
                lemma_kids_pages_member(pages, kids, hc, kids.len(), p);
                let i = choose|i: int|
                    0 <= i < kids.len() && #[trigger] sub_page_set(
                        pages,
                        kids[i] as int,
                        hc,
                    ).contains(p);
                assert(kid_ok(pages, kids, keys, hc, lo, hi, next, p, i));
            }
        }
        assert(k.subset_of(s));
        vstd::set_lib::lemma_len_subset(k, s);
        vstd::set_lib::lemma_len_subset(s0, k);
        assert(s =~= k.insert(p));
    }
}

/// The height of a well-formed tree is below the number of its pages.
pub proof fn lemma_height_bound(pages: Seq<Seq<u8>>, h: nat)
    requires
        tree_wf(pages, h),
    ensures
        h < pages.len(),
{
    lemma_sub_page_set_len(pages, 0, h, -1, u32::MAX as int, 0, true);
}

/// The keys of a leaf's cells, read one by one from the page.
pub proof fn lemma_leaf_key_list(page: Seq<u8>)
    requires
        page.len() == PAGE_SIZE,
        num_cells_of(page) <= LEAF_NODE_MAX_CELLS,
    ensures
        cell_keys(leaf_cells(page)).len() == num_cells_of(page),
        forall|j: int|
            0 <= j < num_cells_of(page) ==> #[trigger] cell_keys(leaf_cells(page))[j] == leaf_key_of(
                page,
                j,
            ),
{
    lemma_layout_values();
    assert forall|j: int| 0 <= j < num_cells_of(page) implies #[trigger] cell_keys(
        leaf_cells(page),
    )[j] == leaf_key_of(page, j) by {
        lemma_leaf_key_is_cell_key(page, j);
    }
}

/// A subtree holds at least one cell unless it is an empty root leaf.
pub proof fn lemma_sub_cells_nonempty(
    pages: Seq<Seq<u8>>,
    p: int,
    h: nat,
    lo: int,
    hi: int,
    next: int,
    root: bool,
)
    requires
        sub_wf(pages, p, h, lo, hi, next, root),
        h > 0 || !root,
    ensures
        sub_cells(pages, p, h).len() > 0,
    decreases h,
{
    if h > 0 {
        let keys = node_keys(pages[p]);
        let kids = node_kids(pages[p]);
        let hc = (h - 1) as nat;
        let n = kids.len();
        lemma_kids_wf_forall(pages, kids, keys, hc, lo, hi, next, p, n);
        assert(kid_ok(pages, kids, keys, hc, lo, hi, next, p, n - 1));
        lemma_sub_cells_nonempty(
            pages,
            kids[n - 1] as int,
            hc,
            kid_lo(keys, lo, n - 1),
            kid_hi(keys, hi, n - 1),
            kid_next(pages, kids, hc, next, n - 1),
            false,
        );
        assert(kids_cells(pages, kids, hc, n) == kids_cells(pages, kids, hc, (n - 1) as nat)
            + sub_cells(pages, kids[n - 1] as int, hc));
    }
}

/// A page roots well-formed subtrees of one height only.
pub proof fn lemma_height_unique(
    pages: Seq<Seq<u8>>,
    p: int,
    h1: nat,
    h2: nat,
    lo1: int,
    hi1: int,
    next1: int,
    root1: bool,
    lo2: int,
    hi2: int,
    next2: int,
    root2: bool,
)
    requires
        sub_wf(pages, p, h1, lo1, hi1, next1, root1),
        sub_wf(pages, p, h2, lo2, hi2, next2, root2),
    ensures
        h1 == h2,
    decreases h1,
{
    if h1 > 0 && h2 > 0 {
        let keys = node_keys(pages[p]);
        let kids = node_kids(pages[p]);
        lemma_kids_wf_forall(pages, kids, keys, (h1 - 1) as nat, lo1, hi1, next1, p, kids.len());
        lemma_kids_wf_forall(pages, kids, keys, (h2 - 1) as nat, lo2, hi2, next2, p, kids.len());
        assert(kid_ok(pages, kids, keys, (h1 - 1) as nat, lo1, hi1, next1, p, 0));
        assert(kid_ok(pages, kids, keys, (h2 - 1) as nat, lo2, hi2, next2, p, 0));
        lemma_height_unique(
            pages,
            kids[0] as int,
            (h1 - 1) as nat,
            (h2 - 1) as nat,
            kid_lo(keys, lo1, 0),
            kid_hi(keys, hi1, 0),
            kid_next(pages, kids, (h1 - 1) as nat, next1, 0),
            false,
            kid_lo(keys, lo2, 0),
            kid_hi(keys, hi2, 0),
            kid_next(pages, kids, (h2 - 1) as nat, next2, 0),
            false,
        );
    }
}

} // verus!
