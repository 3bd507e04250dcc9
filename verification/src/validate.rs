//! Deciding whether the pages of a database file hold a well-formed B-tree.
use vstd::prelude::*;
use crate::btree::read_internal;
use crate::constants::{
    lemma_layout_values, INTERNAL_NODE_MAX_CELLS, LEAF_NODE_MAX_CELLS, PAGE_SIZE,
};
use crate::node::{
    internal_node_num_keys, leaf_key_of, leaf_node_key, leaf_node_next_leaf, leaf_node_num_cells,
    num_cells_of,
};
use crate::pager::Pager;
use crate::tree::{
    cell_keys, first_leaf, internal_ok, keys_sorted, keys_within, kid_next, kid_ok, kids_cells,
    leaf_cells, leaf_ok, lemma_height_bound, lemma_kids_pages_member, lemma_kids_wf_forall,
    lemma_leaf_key_list, lemma_sub_cells_nonempty, max_key, node_keys, node_kids, sub_cells,
    sub_page_set, sub_wf, tree_wf,
};

verus! {

/// Whether `keys` strictly increase and all lie in `(lo, hi]`.
fn keys_ordered_within(keys: &Vec<u32>, lo: i64, hi: i64) -> (b: bool)
    ensures
        b == (keys_sorted(keys@) && keys_within(keys@, lo as int, hi as int)),
{
    let mut i: usize = 0;
    while i < keys.len()
        invariant
            i <= keys@.len(),
            keys_sorted(keys@.take(i as int)),
            keys_within(keys@.take(i as int), lo as int, hi as int),
        decreases keys@.len() - i,
    {
        let k = keys[i];
        if !(lo < k as i64 && k as i64 <= hi) {
            proof {
                assert(!(lo < keys@[i as int] <= hi));
            }
            return false;
        }
        if i > 0 && keys[i - 1] >= k {
            proof {
                assert(!(keys@[i - 1] < keys@[i as int]));
            }
            return false;
        }
        proof {
            let t = keys@.take(i + 1);
            assert(t =~= keys@.take(i as int).push(k));
            assert forall|a: int, b: int| 0 <= a < b < t.len() implies t[a] < t[b] by {
                if b == i {
                    if a < i - 1 {
                        assert(keys@.take(i as int)[a] < keys@.take(i as int)[i - 1]);
                    }
                }
            }
        }
        i += 1;
    }
    proof {
        assert(keys@.take(keys@.len() as int) =~= keys@);
    }
    true
}

/// The keys of a leaf's cells, read from the page.
fn leaf_keys(page: &[u8]) -> (keys: Vec<u32>)
    requires
        page@.len() == PAGE_SIZE,
        num_cells_of(page@) <= LEAF_NODE_MAX_CELLS,
    ensures
        keys@ == cell_keys(leaf_cells(page@)),
{
    proof {
        lemma_layout_values();
        lemma_leaf_key_list(page@);
    }
    let n = leaf_node_num_cells(page);
    let mut keys: Vec<u32> = Vec::new();
    let mut i: u32 = 0;
    while i < n
        invariant
            page@.len() == PAGE_SIZE,
            n == num_cells_of(page@),
            n <= 13,
            cell_keys(leaf_cells(page@)).len() == n,
            forall|j: int|
                0 <= j < n ==> #[trigger] cell_keys(leaf_cells(page@))[j] == leaf_key_of(page@, j),
            i <= n,
            keys@ == cell_keys(leaf_cells(page@)).take(i as int),
        decreases n - i,
    {
        keys.push(leaf_node_key(page, i));
        proof {
            let all = cell_keys(leaf_cells(page@));
            assert(all.take(i + 1) =~= all.take(i as int).push(all[i as int]));
        }
        i += 1;
    }
    proof {
        assert(cell_keys(leaf_cells(page@)).take(n as int) =~= cell_keys(leaf_cells(page@)));
    }
    keys
}

/// Whether `page` is a leaf that `leaf_ok` accepts; when it is, also the
/// key of its last cell (0 for an empty leaf).
pub fn validate_leaf(page: &[u8], lo: i64, hi: i64, next: u32, root: bool) -> (r: Option<u32>)
    requires
        page@.len() == PAGE_SIZE,
    ensures
        r is Some <==> leaf_ok(page@, lo as int, hi as int, next as int, root),
        r matches Some(k) ==> leaf_cells(page@).len() > 0 ==> k == max_key(leaf_cells(page@)),
{
    proof {
        lemma_layout_values();
    }
    if page[0] != 1 {
        return None;
    }
    let n = leaf_node_num_cells(page);
    if n as usize > LEAF_NODE_MAX_CELLS {
        return None;
    }
    if !root && n == 0 {
        return None;
    }
    if leaf_node_next_leaf(page) != next {
        return None;
    }
    let keys = leaf_keys(page);
    if !keys_ordered_within(&keys, lo, hi) {
        return None;
    }
    if n == 0 {
        Some(0)
    } else {
        proof {
            lemma_leaf_key_list(page@);
            crate::node::lemma_leaf_key_is_cell_key(page@, n - 1);
        }
        Some(keys[keys.len() - 1])
    }
}

/// Whether `page` is an internal node that `internal_ok` accepts; when it
/// is, also its children and keys.
pub fn validate_internal(page: &[u8], lo: i64, hi: i64) -> (r: Option<(Vec<u32>, Vec<u32>)>)
    requires
        page@.len() == PAGE_SIZE,
    ensures
        r is Some <==> internal_ok(page@, lo as int, hi as int),
        r matches Some((kids, keys)) ==> {
            &&& kids@ == crate::tree::node_kids(page@)
            &&& keys@ == node_keys(page@)
        },
{
    if page[0] != 0 {
        return None;
    }
    let n = internal_node_num_keys(page);
    if n < 1 || n as usize > INTERNAL_NODE_MAX_CELLS {
        return None;
    }
    let (kids, keys) = read_internal(page);
    if !keys_ordered_within(&keys, lo, hi) {
        return None;
    }
    Some((kids, keys))
}

/// The page numbers marked in `seen`.
pub open spec fn seen_set(seen: Seq<bool>) -> Set<int> {
    Set::new(|q: int| 0 <= q < seen.len() && seen[q])
}

/// Some child from `i` on has page `q` in its subtree.
pub open spec fn later_kids_hold(pages: Seq<Seq<u8>>, kids: Seq<u32>, hc: nat, i: int, q: int) -> bool {
    exists|k: int| i <= k < kids.len() && #[trigger] sub_page_set(pages, kids[k] as int, hc).contains(q)
}

/// Whether the subtree of height `h` rooted at page `p` is well formed for
/// the key range `(lo, hi]`, the leaf `next` after it, and shares no page
/// with `seen`. When it is, also its first leaf and its largest key, and
/// its pages are added to `seen`.
pub fn validate_subtree(
    pager: &Pager,
    p: u32,
    h: u32,
    lo: i64,
    hi: i64,
    next: u32,
    root: bool,
    seen: &mut Vec<bool>,
) -> (r: Option<(u32, u32)>)
    requires
        pager.wf(),
        old(seen)@.len() == pager@.len(),
    ensures
        final(seen)@.len() == old(seen)@.len(),
        r is Some <==> (sub_wf(pager@, p as int, h as nat, lo as int, hi as int, next as int, root)
            && sub_page_set(pager@, p as int, h as nat).disjoint(seen_set(old(seen)@))),
        r matches Some((fl, mk)) ==> {
            &&& fl == first_leaf(pager@, p as int, h as nat)
            &&& sub_cells(pager@, p as int, h as nat).len() > 0 ==> mk == max_key(
                sub_cells(pager@, p as int, h as nat),
            )
            &&& seen_set(final(seen)@) == seen_set(old(seen)@).union(
                sub_page_set(pager@, p as int, h as nat),
            )
        },
    decreases h,
{
    proof {
        pager.lemma_wf();
        lemma_layout_values();
    }
    let ghost pages = pager@;
    let ghost s0 = seen_set(seen@);
    if p >= pager.num_pages() {
        return None;
    }
    if seen[p as usize] {
        proof {
            assert(s0.contains(p as int));
            assert(sub_page_set(pages, p as int, h as nat).contains(p as int));
        }
        return None;
    }
    let page = pager.page(p);
    if h == 0 {
        match validate_leaf(&page, lo, hi, next, root) {
            None => None,
            Some(k) => {
                seen.set(p as usize, true);
                proof {
                    assert(seen_set(seen@) =~= s0.union(sub_page_set(pages, p as int, 0)));
                    assert(sub_page_set(pages, p as int, 0).disjoint(s0));
                }
                Some((p, k))
            },
        }
    } else {
        let (kids, keys) = match validate_internal(&page, lo, hi) {
            None => {
                return None;
            },
            Some(x) => x,
        };
        let ghost gkids = kids@;
        let ghost gkeys = keys@;
        let ghost hc = (h - 1) as nat;
        let ghost whole = sub_wf(pages, p as int, h as nat, lo as int, hi as int, next as int, root)
            && sub_page_set(pages, p as int, h as nat).disjoint(s0);
        proof {
            lemma_kids_wf_forall(pages, gkids, gkeys, hc, lo as int, hi as int, next as int, p as int, gkids.len());
        }
        seen.set(p as usize, true);
        proof {
            assert forall|q: int| #[trigger] seen_set(seen@).contains(q) <==> (s0.contains(q) || q
                == p as int || later_kids_hold(pages, gkids, hc, gkids.len() as int, q)) by {}
        }
        let n = kids.len();
        let mut i = n;
        let mut next_i = next;
        let mut max_all: u32 = 0;
        while i > 0
            invariant
                pager.wf(),
                pages == pager@,
                seen@.len() == pages.len(),
                old(seen)@.len() == pages.len(),
                s0 == seen_set(old(seen)@),
                kids@ == gkids,
                keys@ == gkeys,
                gkids == node_kids(pages[p as int]),
                gkeys == node_keys(pages[p as int]),
                n == gkids.len(),
                gkids.len() == gkeys.len() + 1,
                2 <= n <= 4,
                0 < h,
                hc == h - 1,
                internal_ok(pages[p as int], lo as int, hi as int),
                0 <= p < pages.len(),
                pages[p as int].len() == PAGE_SIZE,
                !s0.contains(p as int),
                whole == (sub_wf(pages, p as int, h as nat, lo as int, hi as int, next as int, root)
                    && sub_page_set(pages, p as int, h as nat).disjoint(s0)),
                whole ==> forall|k: int|
                    0 <= k < n ==> #[trigger] kid_ok(pages, gkids, gkeys, hc, lo as int, hi as int, next as int, p as int, k),
                whole ==> forall|a: int, b: int|
                    0 <= a < b < n ==> #[trigger] sub_page_set(pages, gkids[a] as int, hc).disjoint(
                        #[trigger] sub_page_set(pages, gkids[b] as int, hc),
                    ),
                i <= n,
                forall|q: int| #[trigger] seen_set(seen@).contains(q) <==> (s0.contains(q) || q
                    == p as int || later_kids_hold(pages, gkids, hc, i as int, q)),
                next_i == kid_next(pages, gkids, hc, next as int, i - 1),
                forall|k: int|
                    i <= k < n ==> #[trigger] kid_ok(pages, gkids, gkeys, hc, lo as int, hi as int, next as int, p as int, k),
                forall|k: int|
                    i <= k < n ==> #[trigger] sub_page_set(pages, gkids[k] as int, hc).disjoint(s0),
                forall|a: int, b: int|
                    i <= a < b < n ==> #[trigger] sub_page_set(pages, gkids[a] as int, hc).disjoint(
                        #[trigger] sub_page_set(pages, gkids[b] as int, hc),
                    ),
                i < n ==> sub_cells(pages, gkids[n - 1] as int, hc).len() > 0,
                i < n ==> max_all == max_key(sub_cells(pages, gkids[n - 1] as int, hc)),
                i < n ==> next_i == first_leaf(pages, gkids[i as int] as int, hc),
            decreases i,
        {
            let j = i - 1;
            let kid_lo_j: i64 = if j == 0 { lo } else { keys[j - 1] as i64 };
            let kid_hi_j: i64 = if j < keys.len() { keys[j] as i64 } else { hi };
            let ghost seen_before = seen_set(seen@);
            let res = validate_subtree(pager, kids[j], h - 1, kid_lo_j, kid_hi_j, next_i, false, seen);
            match res {
                None => {
                    proof {
                        if whole {
                            assert(kid_ok(pages, gkids, gkeys, hc, lo as int, hi as int, next as int, p as int, j as int));
                            let sj = sub_page_set(pages, gkids[j as int] as int, hc);
                            assert(sj.disjoint(seen_before)) by {
                                assert forall|q: int| sj.contains(q) implies !seen_before.contains(q) by {
                                    lemma_kids_pages_member(pages, gkids, hc, gkids.len(), q);
                                    if later_kids_hold(pages, gkids, hc, i as int, q) {
                                        let k = choose|k: int|
                                            i <= k < gkids.len() && #[trigger] sub_page_set(
                                                pages,
                                                gkids[k] as int,
                                                hc,
                                            ).contains(q);
                                        assert(sub_page_set(pages, gkids[j as int] as int, hc).disjoint(
                                            sub_page_set(pages, gkids[k] as int, hc),
                                        ));
                                    }
                                }
                            }
                        }
                    }
                    return None;
                },
                Some((fl, mk)) => {
                    proof {
                        lemma_sub_cells_nonempty(
                            pages,
                            gkids[j as int] as int,
                            hc,
                            kid_lo_j as int,
                            kid_hi_j as int,
                            next_i as int,
                            false,
                        );
                    }
                    if j < keys.len() && mk != keys[j] {
                        proof {
                            if whole {
                                assert(kid_ok(pages, gkids, gkeys, hc, lo as int, hi as int, next as int, p as int, j as int));
                            }
                        }
                        return None;
                    }
                    if j == n - 1 {
                        max_all = mk;
                    }
                    next_i = fl;
                    proof {
                        let sj = sub_page_set(pages, gkids[j as int] as int, hc);
                        assert(kid_ok(pages, gkids, gkeys, hc, lo as int, hi as int, next as int, p as int, j as int));
                        assert forall|q: int| #[trigger] seen_set(seen@).contains(q) <==> (s0.contains(q)
                            || q == p as int || later_kids_hold(pages, gkids, hc, j as int, q)) by {
                            if sj.contains(q) {
                                assert(later_kids_hold(pages, gkids, hc, j as int, q));
                            }
                            if later_kids_hold(pages, gkids, hc, j as int, q) && !sj.contains(q) {
                                let k = choose|k: int|
                                    j <= k < gkids.len() && #[trigger] sub_page_set(
                                        pages,
                                        gkids[k] as int,
                                        hc,
                                    ).contains(q);
                                assert(later_kids_hold(pages, gkids, hc, i as int, q));
                            }
                        }
                        assert forall|b: int| j < b < n implies #[trigger] sub_page_set(pages, gkids[j as int] as int, hc).disjoint(
                            sub_page_set(pages, gkids[b] as int, hc),
                        ) by {
                            assert forall|q: int| sj.contains(q) implies !sub_page_set(pages, gkids[b] as int, hc).contains(q) by {
                                if sub_page_set(pages, gkids[b] as int, hc).contains(q) {
                                    assert(later_kids_hold(pages, gkids, hc, i as int, q));
                                }
                            }
                        }
                        assert forall|q: int| sj.contains(q) implies !s0.contains(q) by {}
                    }
                },
            }
            i = j;
        }
        proof {
            let page_p = pages[p as int];
            assert(kids_cells(pages, gkids, hc, n as nat) == kids_cells(pages, gkids, hc, (n - 1) as nat)
                + sub_cells(pages, gkids[n - 1] as int, hc));
            assert forall|q: int| #[trigger] sub_page_set(pages, p as int, h as nat).contains(q) <==> (q == p as int
                || later_kids_hold(pages, gkids, hc, 0, q)) by {
                lemma_kids_pages_member(pages, gkids, hc, gkids.len(), q);
                if later_kids_hold(pages, gkids, hc, 0, q) {
                    let k = choose|k: int|
                        0 <= k < gkids.len() && #[trigger] sub_page_set(pages, gkids[k] as int, hc).contains(q);
                    assert(0 <= k < gkids.len() && sub_page_set(pages, gkids[k] as int, hc).contains(q));
                }
            }
            lemma_kids_wf_forall(pages, gkids, gkeys, hc, lo as int, hi as int, next as int, p as int, gkids.len());
            assert(sub_wf(pages, p as int, h as nat, lo as int, hi as int, next as int, root));
            assert forall|q: int| sub_page_set(pages, p as int, h as nat).contains(q) implies !s0.contains(q) by {
                if q != p as int {
                    let k = choose|k: int|
                        0 <= k < gkids.len() && #[trigger] sub_page_set(pages, gkids[k] as int, hc).contains(q);
                    assert(sub_page_set(pages, gkids[k] as int, hc).disjoint(s0));
                }
            }
            assert(seen_set(seen@) =~= s0.union(sub_page_set(pages, p as int, h as nat)));
        }
        Some((next_i, max_all))
    }
}

/// The height of the B-tree rooted at page 0 that the pager's pages hold,
/// or `None` when they hold none.
pub fn validate_tree(pager: &Pager) -> (r: Option<u32>)
    requires
        pager.wf(),
    ensures
        match r {
            Some(h) => tree_wf(pager@, h as nat),
            None => forall|h: nat| !tree_wf(pager@, h),
        },
{
    proof {
        pager.lemma_wf();
    }
    let n = pager.num_pages();
    let mut h: u32 = 0;
    while h < n
        invariant
            pager.wf(),
            n == pager@.len(),
            forall|i: int| 0 <= i < pager@.len() ==> #[trigger] pager@[i].len() == PAGE_SIZE,
            h <= n,
            forall|k: nat| k < h ==> !tree_wf(pager@, k),
        decreases n - h,
    {
        let mut seen: Vec<bool> = Vec::new();
        let mut i: u32 = 0;
        while i < n
            invariant
                i <= n,
                seen@.len() == i,
                forall|q: int| 0 <= q < i ==> !seen@[q],
            decreases n - i,
        {
            seen.push(false);
            i += 1;
        }
        proof {
            assert(seen_set(seen@) =~= Set::<int>::empty());
        }
        if validate_subtree(pager, 0, h, -1, 0xffff_ffff, 0, true, &mut seen).is_some() {
            return Some(h);
        }
        h += 1;
    }
    proof {
        assert forall|k: nat| !tree_wf(pager@, k) by {
            if tree_wf(pager@, k) {
                lemma_height_bound(pager@, k);
            }
        }
    }
    None
}

} // verus!
