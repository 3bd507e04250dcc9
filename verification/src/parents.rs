//! Parent pointers: every child in the B-tree records the page of its parent.
use vstd::prelude::*;
use crate::constants::{lemma_layout_values, PAGE_SIZE};
use crate::node::parent_of;
use crate::tree::{
    content_eq, kid_hi, kid_lo, kid_next, kid_ok, lemma_content_eq_views, lemma_kids_pages_member,
    lemma_kids_wf_forall, lemma_sub_page_set_bounds, node_keys, node_kids, sub_page_set, sub_wf,
    unchanged_outside,
};

verus! {

/// Every node below page `p`, in its subtree of height `h`, records its
/// parent's page.
pub open spec fn parents_ok(pages: Seq<Seq<u8>>, p: int, h: nat) -> bool
    decreases h, 0nat,
{
    if h == 0 {
        true
    } else {
        kids_parents_ok(pages, node_kids(pages[p]), p, (h - 1) as nat, node_kids(pages[p]).len())
    }
}

/// The first `n` of `kids` record `p` as their parent, and so do the nodes
/// below them.
pub open spec fn kids_parents_ok(pages: Seq<Seq<u8>>, kids: Seq<u32>, p: int, hc: nat, n: nat) -> bool
    decreases hc, n,
{
    if n == 0 {
        true
    } else {
        &&& kids_parents_ok(pages, kids, p, hc, (n - 1) as nat)
        &&& parent_of(pages[kids[n - 1] as int]) as int == p
        &&& parents_ok(pages, kids[n - 1] as int, hc)
    }
}

/// Child `i` records `p` as its parent, and the nodes below it theirs.
pub open spec fn kid_parent_ok(pages: Seq<Seq<u8>>, kids: Seq<u32>, p: int, hc: nat, i: int) -> bool {
    &&& parent_of(pages[kids[i] as int]) as int == p
    &&& parents_ok(pages, kids[i] as int, hc)
}

/// `kids_parents_ok` asks `kid_parent_ok` of each child.
pub proof fn lemma_kids_parents_forall(pages: Seq<Seq<u8>>, kids: Seq<u32>, p: int, hc: nat, n: nat)
    ensures
        kids_parents_ok(pages, kids, p, hc, n) <==> forall|i: int|
            0 <= i < n ==> #[trigger] kid_parent_ok(pages, kids, p, hc, i),
    decreases n,
{
    if n > 0 {
        lemma_kids_parents_forall(pages, kids, p, hc, (n - 1) as nat);
        assert(kid_parent_ok(pages, kids, p, hc, n - 1) == (parent_of(pages[kids[n - 1] as int])
            as int == p && parents_ok(pages, kids[n - 1] as int, hc)));
    }
}

/// Parent pointers below `x` stay right when the pages of its subtree keep
/// their nodes, and only `x` itself may record another parent.
pub proof fn lemma_parents_frame(
    old: Seq<Seq<u8>>,
    new: Seq<Seq<u8>>,
    x: int,
    h: nat,
    lo: int,
    hi: int,
    next: int,
    root: bool,
)
    requires
        sub_wf(old, x, h, lo, hi, next, root),
        forall|q: int| #[trigger]
            sub_page_set(old, x, h).contains(q) ==> {
                &&& q < new.len()
                &&& content_eq(old[q], new[q])
                &&& q != x ==> parent_of(new[q]) == parent_of(old[q])
            },
    ensures
        parents_ok(new, x, h) == parents_ok(old, x, h),
    decreases h,
{
    lemma_sub_page_set_bounds(old, x, h, lo, hi, next, root);
    if h > 0 {
        let keys = node_keys(old[x]);
        let kids = node_kids(old[x]);
        let hc = (h - 1) as nat;
        assert(sub_page_set(old, x, h).contains(x));
        lemma_content_eq_views(old[x], new[x]);
        assert(node_kids(new[x]) == kids);
        lemma_kids_wf_forall(old, kids, keys, hc, lo, hi, next, x, kids.len());
        assert forall|i: int| 0 <= i < kids.len() implies #[trigger] kid_parent_ok(
            new,
            kids,
            x,
            hc,
            i,
        ) == kid_parent_ok(old, kids, x, hc, i) by {
            let k = kids[i] as int;
            assert(kid_ok(old, kids, keys, hc, lo, hi, next, x, i));
            lemma_sub_page_set_bounds(
                old,
                k,
                hc,
                kid_lo(keys, lo, i),
                kid_hi(keys, hi, i),
                kid_next(old, kids, hc, next, i),
                false,
            );
            lemma_kids_pages_member(old, kids, hc, kids.len(), k);
            assert(sub_page_set(old, x, h).contains(k));
            assert forall|q: int| #[trigger] sub_page_set(old, k, hc).contains(q) implies {
                &&& q < new.len()
                &&& content_eq(old[q], new[q])
                &&& q != k ==> parent_of(new[q]) == parent_of(old[q])
            } by {
                lemma_kids_pages_member(old, kids, hc, kids.len(), q);
                assert(sub_page_set(old, x, h).contains(q));
            }
            lemma_parents_frame(
                old,
                new,
                k,
                hc,
                kid_lo(keys, lo, i),
                kid_hi(keys, hi, i),
                kid_next(old, kids, hc, next, i),
                false,
            );
        }
        lemma_kids_parents_forall(old, kids, x, hc, kids.len());
        lemma_kids_parents_forall(new, kids, x, hc, kids.len());
        if kids_parents_ok(old, kids, x, hc, kids.len()) {
            assert forall|i: int| 0 <= i < kids.len() implies #[trigger] kid_parent_ok(new, kids, x, hc, i) by {
                assert(kid_parent_ok(old, kids, x, hc, i));
            }
        }
        if kids_parents_ok(new, kids, x, hc, kids.len()) {
            assert forall|i: int| 0 <= i < kids.len() implies #[trigger] kid_parent_ok(old, kids, x, hc, i) by {
                assert(kid_parent_ok(new, kids, x, hc, i));
            }
        }
        assert(parents_ok(old, x, h) == kids_parents_ok(old, kids, x, hc, kids.len()));
        assert(parents_ok(new, x, h) == kids_parents_ok(new, kids, x, hc, kids.len()));
    }
}

/// A child other than `j` keeps its parent pointers when only the pages of
/// child `j`'s subtree change.
pub proof fn lemma_parents_sibling(
    old: Seq<Seq<u8>>,
    mid: Seq<Seq<u8>>,
    p: int,
    h: nat,
    lo: int,
    hi: int,
    next: int,
    root: bool,
    j: int,
    i: int,
)
    requires
        sub_wf(old, p, h, lo, hi, next, root),
        h > 0,
        0 <= j < node_kids(old[p]).len(),
        0 <= i < node_kids(old[p]).len(),
        i != j,
        unchanged_outside(old, mid, sub_page_set(old, node_kids(old[p])[j] as int, (h - 1) as nat)),
    ensures
        mid[node_kids(old[p])[i] as int] == old[node_kids(old[p])[i] as int],
        parents_ok(mid, node_kids(old[p])[i] as int, (h - 1) as nat) == parents_ok(
            old,
            node_kids(old[p])[i] as int,
            (h - 1) as nat,
        ),
        !sub_page_set(old, node_kids(old[p])[i] as int, (h - 1) as nat).contains(p),
{
    let keys = node_keys(old[p]);
    let kids = node_kids(old[p]);
    let hc = (h - 1) as nat;
    let k = kids[i] as int;
    let cj = kids[j] as int;
    lemma_kids_wf_forall(old, kids, keys, hc, lo, hi, next, p, kids.len());
    assert(kid_ok(old, kids, keys, hc, lo, hi, next, p, i));
    let (lk, hk, nk) = (kid_lo(keys, lo, i), kid_hi(keys, hi, i), kid_next(old, kids, hc, next, i));
    lemma_sub_page_set_bounds(old, k, hc, lk, hk, nk, false);
    let sk = sub_page_set(old, k, hc);
    let sj = sub_page_set(old, cj, hc);
    if i < j {
        assert(sk.disjoint(sj));
    } else {
        assert(sj.disjoint(sk));
    }
    assert forall|q: int| #[trigger] sk.contains(q) implies {
        &&& q < mid.len()
        &&& content_eq(old[q], mid[q])
        &&& q != k ==> parent_of(mid[q]) == parent_of(old[q])
    } by {
        assert(!sj.contains(q));
        assert(mid[q] == old[q]);
    }
    lemma_parents_frame(old, mid, k, hc, lk, hk, nk, false);
}

/// After the child that a new cell went to took it without splitting, the
/// parent pointers below `p` are still right.
pub proof fn lemma_parents_child_grew(
    old: Seq<Seq<u8>>,
    mid: Seq<Seq<u8>>,
    p: int,
    h: nat,
    lo: int,
    hi: int,
    next: int,
    root: bool,
    j: int,
)
    requires
        sub_wf(old, p, h, lo, hi, next, root),
        h > 0,
        0 <= j < node_kids(old[p]).len(),
        unchanged_outside(old, mid, sub_page_set(old, node_kids(old[p])[j] as int, (h - 1) as nat)),
        parents_ok(old, p, h),
        parents_ok(mid, node_kids(old[p])[j] as int, (h - 1) as nat),
        parent_of(mid[node_kids(old[p])[j] as int]) == parent_of(old[node_kids(old[p])[j] as int]),
    ensures
        parents_ok(mid, p, h),
        mid[p] == old[p],
{
    let keys = node_keys(old[p]);
    let kids = node_kids(old[p]);
    let hc = (h - 1) as nat;
    lemma_kids_wf_forall(old, kids, keys, hc, lo, hi, next, p, kids.len());
    assert(kid_ok(old, kids, keys, hc, lo, hi, next, p, j));
    assert(mid[p] == old[p]);
    lemma_kids_parents_forall(old, kids, p, hc, kids.len());
    lemma_kids_parents_forall(mid, kids, p, hc, kids.len());
    assert forall|i: int| 0 <= i < kids.len() implies #[trigger] kid_parent_ok(mid, kids, p, hc, i) by {
        assert(kid_parent_ok(old, kids, p, hc, i));
        if i != j {
            lemma_parents_sibling(old, mid, p, h, lo, hi, next, root, j, i);
        }
    }
}

/// After child `j` split off page `n`, every entry of the children list
/// with `n` put after child `j` records `p` as its parent, and the nodes
/// below it theirs.
pub proof fn lemma_parents_split_kid(
    old: Seq<Seq<u8>>,
    mid: Seq<Seq<u8>>,
    p: int,
    h: nat,
    lo: int,
    hi: int,
    next: int,
    root: bool,
    j: int,
    n: u32,
    i: int,
)
    requires
        sub_wf(old, p, h, lo, hi, next, root),
        h > 0,
        0 <= j < node_kids(old[p]).len(),
        0 <= i <= node_kids(old[p]).len(),
        unchanged_outside(old, mid, sub_page_set(old, node_kids(old[p])[j] as int, (h - 1) as nat)),
        parents_ok(old, p, h),
        parents_ok(mid, node_kids(old[p])[j] as int, (h - 1) as nat),
        parents_ok(mid, n as int, (h - 1) as nat),
        parent_of(mid[node_kids(old[p])[j] as int]) == parent_of(old[node_kids(old[p])[j] as int]),
        parent_of(mid[n as int]) == parent_of(old[node_kids(old[p])[j] as int]),
    ensures
        kid_parent_ok(mid, node_kids(old[p]).insert(j + 1, n), p, (h - 1) as nat, i),
{
    let keys = node_keys(old[p]);
    let kids = node_kids(old[p]);
    let hc = (h - 1) as nat;
    let kids2 = kids.insert(j + 1, n);
    lemma_kids_parents_forall(old, kids, p, hc, kids.len());
    assert(kid_parent_ok(old, kids, p, hc, j));
    if i <= j {
        assert(kids2[i] == kids[i]);
        assert(kid_parent_ok(old, kids, p, hc, i));
        if i != j {
            lemma_parents_sibling(old, mid, p, h, lo, hi, next, root, j, i);
        }
    } else if i == j + 1 {
        assert(kids2[i] == n);
    } else {
        assert(kids2[i] == kids[i - 1]);
        assert(kid_parent_ok(old, kids, p, hc, i - 1));
        lemma_parents_sibling(old, mid, p, h, lo, hi, next, root, j, i - 1);
    }
}

/// Parent pointers below a child of `p` carry over from `mid` to `fin`
/// when the child's subtree in `fin` keeps its nodes and, below the child
/// itself, its parent pointers.
proof fn lemma_parents_carry(
    fin: Seq<Seq<u8>>,
    mid: Seq<Seq<u8>>,
    kids: Seq<u32>,
    keys: Seq<u32>,
    hc: nat,
    lo: int,
    hi: int,
    next: int,
    p: int,
    i: int,
)
    requires
        kid_ok(fin, kids, keys, hc, lo, hi, next, p, i),
        forall|q: int|
            #[trigger] sub_page_set(fin, kids[i] as int, hc).contains(q) ==> q < mid.len() && (
            fin[q] == mid[q] || (q == kids[i] && content_eq(fin[q], mid[q]))),
    ensures
        parents_ok(fin, kids[i] as int, hc) == parents_ok(mid, kids[i] as int, hc),
        kids[i] != p,
{
    let k = kids[i] as int;
    let (lk, hk, nk) = (kid_lo(keys, lo, i), kid_hi(keys, hi, i), kid_next(fin, kids, hc, next, i));
    lemma_sub_page_set_bounds(fin, k, hc, lk, hk, nk, false);
    assert forall|q: int| #[trigger] sub_page_set(fin, k, hc).contains(q) implies {
        &&& q < mid.len()
        &&& content_eq(fin[q], mid[q])
        &&& q != k ==> parent_of(mid[q]) == parent_of(fin[q])
    } by {
        if fin[q] == mid[q] {
            assert(mid[q].subrange(6, PAGE_SIZE as int) =~= fin[q].subrange(6, PAGE_SIZE as int));
        }
    }
    lemma_parents_frame(fin, mid, k, hc, lk, hk, nk, false);
}

/// After child `j` split off page `n` and `p` took `n` as a new child,
/// the parent pointers below `p` are still right.
pub proof fn lemma_parents_absorbs(
    old: Seq<Seq<u8>>,
    mid: Seq<Seq<u8>>,
    fin: Seq<Seq<u8>>,
    p: int,
    h: nat,
    lo: int,
    hi: int,
    next: int,
    root: bool,
    j: int,
    n: u32,
)
    requires
        sub_wf(old, p, h, lo, hi, next, root),
        h > 0,
        0 <= j < node_kids(old[p]).len(),
        unchanged_outside(old, mid, sub_page_set(old, node_kids(old[p])[j] as int, (h - 1) as nat)),
        parents_ok(old, p, h),
        parents_ok(mid, node_kids(old[p])[j] as int, (h - 1) as nat),
        parents_ok(mid, n as int, (h - 1) as nat),
        parent_of(mid[node_kids(old[p])[j] as int]) == parent_of(old[node_kids(old[p])[j] as int]),
        parent_of(mid[n as int]) == parent_of(old[node_kids(old[p])[j] as int]),
        fin.len() == mid.len(),
        forall|q: int| 0 <= q < mid.len() && q != p ==> #[trigger] fin[q] == mid[q],
        node_kids(fin[p]) == node_kids(mid[p]).insert(j + 1, n),
        sub_wf(fin, p, h, lo, hi, next, root),
    ensures
        parents_ok(fin, p, h),
{
    let keys = node_keys(old[p]);
    let kids = node_kids(old[p]);
    let hc = (h - 1) as nat;
    lemma_kids_wf_forall(old, kids, keys, hc, lo, hi, next, p, kids.len());
    assert(kid_ok(old, kids, keys, hc, lo, hi, next, p, j));
    assert(mid[p] == old[p]);
    let kids2 = kids.insert(j + 1, n);
    let keys2 = node_keys(fin[p]);
    lemma_kids_wf_forall(fin, kids2, keys2, hc, lo, hi, next, p, kids2.len());
    lemma_kids_parents_forall(fin, kids2, p, hc, kids2.len());
    assert forall|i: int| 0 <= i < kids2.len() implies #[trigger] kid_parent_ok(fin, kids2, p, hc, i) by {
        lemma_parents_split_kid(old, mid, p, h, lo, hi, next, root, j, n, i);
        assert(kid_ok(fin, kids2, keys2, hc, lo, hi, next, p, i));
        lemma_sub_page_set_bounds(
            fin,
            kids2[i] as int,
            hc,
            kid_lo(keys2, lo, i),
            kid_hi(keys2, hi, i),
            kid_next(fin, kids2, hc, next, i),
            false,
        );
        assert forall|q: int| #[trigger] sub_page_set(fin, kids2[i] as int, hc).contains(q) implies q
            < mid.len() && (fin[q] == mid[q] || (q == kids2[i] && content_eq(fin[q], mid[q]))) by {
            assert(q != p);
        }
        lemma_parents_carry(fin, mid, kids2, keys2, hc, lo, hi, next, p, i);
        assert(fin[kids2[i] as int] == mid[kids2[i] as int]);
    }
}

/// After child `j` split off page `n` and `p` split too, into `p` holding
/// the first `s` children and the new page `nn` holding the rest (each of
/// which now records `nn` as its parent), the parent pointers below `p` and
/// below `nn` are right.
pub proof fn lemma_parents_splits(
    old: Seq<Seq<u8>>,
    mid: Seq<Seq<u8>>,
    fin: Seq<Seq<u8>>,
    p: int,
    h: nat,
    lo: int,
    hi: int,
    next: int,
    root: bool,
    j: int,
    n: u32,
    nn: u32,
    s: int,
    lo2: int,
    hi2: int,
    next2: int,
    lo3: int,
    hi3: int,
    next3: int,
)
    requires
        sub_wf(old, p, h, lo, hi, next, root),
        h > 0,
        0 <= j < node_kids(old[p]).len(),
        unchanged_outside(old, mid, sub_page_set(old, node_kids(old[p])[j] as int, (h - 1) as nat)),
        parents_ok(old, p, h),
        parents_ok(mid, node_kids(old[p])[j] as int, (h - 1) as nat),
        parents_ok(mid, n as int, (h - 1) as nat),
        parent_of(mid[node_kids(old[p])[j] as int]) == parent_of(old[node_kids(old[p])[j] as int]),
        parent_of(mid[n as int]) == parent_of(old[node_kids(old[p])[j] as int]),
        0 < s < node_kids(old[p]).len() + 1,
        nn == mid.len(),
        fin.len() == mid.len() + 1,
        node_kids(fin[p]) == node_kids(mid[p]).insert(j + 1, n).take(s),
        node_kids(fin[nn as int]) == node_kids(mid[p]).insert(j + 1, n).skip(s),
        forall|i: int|
            s <= i < node_kids(mid[p]).len() + 1 ==> parent_of(
                #[trigger] fin[node_kids(mid[p]).insert(j + 1, n)[i] as int],
            ) == nn,
        forall|q: int|
            0 <= q < mid.len() && q != p && #[trigger] fin[q] != mid[q] ==> content_eq(mid[q], fin[q])
                && exists|i: int|
                s <= i < node_kids(mid[p]).len() + 1 && #[trigger] node_kids(mid[p]).insert(j + 1, n)[i]
                    == q,
        sub_wf(fin, p, h, lo2, hi2, next2, false),
        sub_wf(fin, nn as int, h, lo3, hi3, next3, false),
        sub_page_set(fin, p, h).disjoint(sub_page_set(fin, nn as int, h)),
    ensures
        parents_ok(fin, p, h),
        parents_ok(fin, nn as int, h),
{
    let keys = node_keys(old[p]);
    let kids = node_kids(old[p]);
    let hc = (h - 1) as nat;
    lemma_kids_wf_forall(old, kids, keys, hc, lo, hi, next, p, kids.len());
    assert(kid_ok(old, kids, keys, hc, lo, hi, next, p, j));
    assert(mid[p] == old[p]);
    let kids2 = kids.insert(j + 1, n);
    let left = kids2.take(s);
    let right = kids2.skip(s);
    let lkeys = node_keys(fin[p]);
    let rkeys = node_keys(fin[nn as int]);
    lemma_kids_wf_forall(fin, left, lkeys, hc, lo2, hi2, next2, p, left.len());
    lemma_kids_wf_forall(fin, right, rkeys, hc, lo3, hi3, next3, nn as int, right.len());
    lemma_sub_page_set_bounds(fin, p, h, lo2, hi2, next2, false);
    lemma_sub_page_set_bounds(fin, nn as int, h, lo3, hi3, next3, false);
    // A page under the left half is no page of the right half.
    assert forall|i: int, q: int|
        0 <= i < left.len() && #[trigger] sub_page_set(fin, left[i] as int, hc).contains(q) implies
        sub_page_set(fin, p, h).contains(q) by {
        lemma_kids_pages_member(fin, left, hc, left.len(), q);
    }
    assert forall|i: int, q: int|
        0 <= i < right.len() && #[trigger] sub_page_set(fin, right[i] as int, hc).contains(q) implies
        sub_page_set(fin, nn as int, h).contains(q) by {
        lemma_kids_pages_member(fin, right, hc, right.len(), q);
    }
    lemma_kids_parents_forall(fin, left, p, hc, left.len());
    assert forall|i: int| 0 <= i < left.len() implies #[trigger] kid_parent_ok(fin, left, p, hc, i) by {
        lemma_parents_split_kid(old, mid, p, h, lo, hi, next, root, j, n, i);
        assert(left[i] == kids2[i]);
        assert(kid_ok(fin, left, lkeys, hc, lo2, hi2, next2, p, i));
        assert forall|q: int| #[trigger] sub_page_set(fin, left[i] as int, hc).contains(q) implies q
            < mid.len() && fin[q] == mid[q] by {
            assert(sub_page_set(fin, p, h).contains(q));
            assert(!sub_page_set(fin, nn as int, h).contains(q));
            assert(q != nn);
            if q != p && fin[q] != mid[q] {
                let k = choose|k: int| s <= k < kids2.len() && kids2[k] == q;
                assert(right[k - s] == q);
                assert(kid_ok(fin, right, rkeys, hc, lo3, hi3, next3, nn as int, k - s));
                lemma_sub_page_set_bounds(
                    fin,
                    right[k - s] as int,
                    hc,
                    kid_lo(rkeys, lo3, k - s),
                    kid_hi(rkeys, hi3, k - s),
                    kid_next(fin, right, hc, next3, k - s),
                    false,
                );
            }
        }
        lemma_sub_page_set_bounds(
            fin,
            left[i] as int,
            hc,
            kid_lo(lkeys, lo2, i),
            kid_hi(lkeys, hi2, i),
            kid_next(fin, left, hc, next2, i),
            false,
        );
        lemma_parents_carry(fin, mid, left, lkeys, hc, lo2, hi2, next2, p, i);
        assert(fin[left[i] as int] == mid[left[i] as int]);
    }
    lemma_kids_parents_forall(fin, right, nn as int, hc, right.len());
    assert forall|i: int| 0 <= i < right.len() implies #[trigger] kid_parent_ok(fin, right, nn as int, hc, i) by {
        lemma_parents_split_kid(old, mid, p, h, lo, hi, next, root, j, n, i + s);
        assert(right[i] == kids2[i + s]);
        assert(kid_ok(fin, right, rkeys, hc, lo3, hi3, next3, nn as int, i));
        assert forall|q: int| #[trigger] sub_page_set(fin, right[i] as int, hc).contains(q) implies q
            < mid.len() && (fin[q] == mid[q] || (q == right[i] && content_eq(fin[q], mid[q]))) by {
            assert(sub_page_set(fin, nn as int, h).contains(q));
            assert(!sub_page_set(fin, p, h).contains(q));
            assert(q != nn) by {
                assert(kid_ok(fin, right, rkeys, hc, lo3, hi3, next3, nn as int, i));
            }
            if fin[q] != mid[q] {
                let k = choose|k: int| s <= k < kids2.len() && kids2[k] == q;
                if k - s != i {
                    assert(right[k - s] == q);
                    assert(kid_ok(fin, right, rkeys, hc, lo3, hi3, next3, nn as int, k - s));
                    lemma_sub_page_set_bounds(
                        fin,
                        right[k - s] as int,
                        hc,
                        kid_lo(rkeys, lo3, k - s),
                        kid_hi(rkeys, hi3, k - s),
                        kid_next(fin, right, hc, next3, k - s),
                        false,
                    );
                    if i < k - s {
                        assert(sub_page_set(fin, right[i] as int, hc).disjoint(
                            sub_page_set(fin, right[k - s] as int, hc),
                        ));
                    } else {
                        assert(sub_page_set(fin, right[k - s] as int, hc).disjoint(
                            sub_page_set(fin, right[i] as int, hc),
                        ));
                    }
                }
            }
        }
        lemma_parents_carry(fin, mid, right, rkeys, hc, lo3, hi3, next3, nn as int, i);
        lemma_sub_page_set_bounds(
            fin,
            right[i] as int,
            hc,
            kid_lo(rkeys, lo3, i),
            kid_hi(rkeys, hi3, i),
            kid_next(fin, right, hc, next3, i),
            false,
        );
    }
}

/// When a new root at page 0 takes the old root, moved to page `l`, and page
/// `n` as its two children, and the old root's children now record `l` as
/// their parent, the parent pointers of the whole tree are right.
pub proof fn lemma_parents_new_root(
    old: Seq<Seq<u8>>,
    fin: Seq<Seq<u8>>,
    h: nat,
    n: u32,
    l: u32,
    lo: int,
    hi: int,
    next: int,
    lo2: int,
    hi2: int,
    next2: int,
)
    requires
        forall|i: int| 0 <= i < old.len() ==> #[trigger] old[i].len() == PAGE_SIZE,
        forall|i: int| 0 <= i < fin.len() ==> #[trigger] fin[i].len() == PAGE_SIZE,
        sub_wf(old, 0, h, lo, hi, next, false),
        sub_wf(old, n as int, h, lo2, hi2, next2, false),
        sub_page_set(old, 0, h).disjoint(sub_page_set(old, n as int, h)),
        parents_ok(old, 0, h),
        parents_ok(old, n as int, h),
        l == old.len(),
        fin.len() == old.len() + 1,
        content_eq(old[0], fin[l as int]),
        content_eq(old[n as int], fin[n as int]),
        node_kids(fin[0]) == seq![l, n],
        parent_of(fin[l as int]) == 0,
        parent_of(fin[n as int]) == 0,
        h > 0 ==> forall|i: int|
            0 <= i < node_kids(old[0]).len() ==> parent_of(#[trigger] fin[node_kids(old[0])[i] as int])
                == l,
        forall|q: int|
            0 <= q < old.len() && q != 0 && q != n && #[trigger] fin[q] != old[q] ==> h > 0
                && content_eq(old[q], fin[q]) && exists|i: int|
                0 <= i < node_kids(old[0]).len() && #[trigger] node_kids(old[0])[i] == q,
    ensures
        parents_ok(fin, 0, h + 1),
{
    lemma_layout_values();
    lemma_sub_page_set_bounds(old, 0, h, lo, hi, next, false);
    lemma_sub_page_set_bounds(old, n as int, h, lo2, hi2, next2, false);
    let top = seq![l, n];
    let kids0 = node_kids(old[0]);
    let keys0 = node_keys(old[0]);
    if h > 0 {
        let hc = (h - 1) as nat;
        lemma_kids_wf_forall(old, kids0, keys0, hc, lo, hi, next, 0, kids0.len());
        lemma_content_eq_views(old[0], fin[l as int]);
        assert(node_kids(fin[l as int]) == kids0);
        lemma_kids_parents_forall(old, kids0, 0, hc, kids0.len());
        lemma_kids_parents_forall(fin, kids0, l as int, hc, kids0.len());
        assert forall|i: int| 0 <= i < kids0.len() implies #[trigger] kid_parent_ok(fin, kids0, l as int, hc, i) by {
            let k = kids0[i] as int;
            assert(kid_ok(old, kids0, keys0, hc, lo, hi, next, 0, i));
            assert(kid_parent_ok(old, kids0, 0, hc, i));
            let (lk, hk, nk) = (kid_lo(keys0, lo, i), kid_hi(keys0, hi, i), kid_next(old, kids0, hc, next, i));
            lemma_sub_page_set_bounds(old, k, hc, lk, hk, nk, false);
            assert forall|q: int| #[trigger] sub_page_set(old, k, hc).contains(q) implies {
                &&& q < fin.len()
                &&& content_eq(old[q], fin[q])
                &&& q != k ==> parent_of(fin[q]) == parent_of(old[q])
            } by {
                lemma_kids_pages_member(old, kids0, hc, kids0.len(), q);
                assert(sub_page_set(old, 0, h).contains(q));
                assert(q != 0);
                assert(q != n);
                if fin[q] != old[q] {
                    let i2 = choose|i2: int| 0 <= i2 < kids0.len() && #[trigger] kids0[i2] == q;
                    if i2 != i {
                        assert(kid_ok(old, kids0, keys0, hc, lo, hi, next, 0, i2));
                        lemma_sub_page_set_bounds(
                            old,
                            q,
                            hc,
                            kid_lo(keys0, lo, i2),
                            kid_hi(keys0, hi, i2),
                            kid_next(old, kids0, hc, next, i2),
                            false,
                        );
                        if i < i2 {
                            assert(sub_page_set(old, k, hc).disjoint(sub_page_set(old, kids0[i2] as int, hc)));
                        } else {
                            assert(sub_page_set(old, kids0[i2] as int, hc).disjoint(sub_page_set(old, k, hc)));
                        }
                    }
                } else {
                    assert(old[q].subrange(6, PAGE_SIZE as int) =~= fin[q].subrange(6, PAGE_SIZE as int));
                }
            }
            lemma_parents_frame(old, fin, k, hc, lk, hk, nk, false);
        }
        assert(parents_ok(fin, l as int, h));
    }
    assert forall|q: int| #[trigger] sub_page_set(old, n as int, h).contains(q) implies {
        &&& q < fin.len()
        &&& content_eq(old[q], fin[q])
        &&& q != n ==> parent_of(fin[q]) == parent_of(old[q])
    } by {
        assert(!sub_page_set(old, 0, h).contains(q));
        if q != n && fin[q] != old[q] {
            let i2 = choose|i2: int| 0 <= i2 < kids0.len() && #[trigger] kids0[i2] == q;
            assert(kid_ok(old, kids0, keys0, (h - 1) as nat, lo, hi, next, 0, i2)) by {
                lemma_kids_wf_forall(old, kids0, keys0, (h - 1) as nat, lo, hi, next, 0, kids0.len());
            }
            lemma_sub_page_set_bounds(
                old,
                q,
                (h - 1) as nat,
                kid_lo(keys0, lo, i2),
                kid_hi(keys0, hi, i2),
                kid_next(old, kids0, (h - 1) as nat, next, i2),
                false,
            );
            lemma_kids_pages_member(old, kids0, (h - 1) as nat, kids0.len(), q);
        }
        if fin[q] == old[q] {
            assert(old[q].subrange(6, PAGE_SIZE as int) =~= fin[q].subrange(6, PAGE_SIZE as int));
        }
    }
    lemma_parents_frame(old, fin, n as int, h, lo2, hi2, next2, false);
    lemma_kids_parents_forall(fin, top, 0, h, 2);
    assert(kid_parent_ok(fin, top, 0, h, 0));
    assert(kid_parent_ok(fin, top, 0, h, 1));
}

} // verus!
