//! What an insertion below a node does to the children of the node.

use vstd::prelude::*;
use crate::db::DBType;
use crate::db::ValueView;
use super::codec::decode_page;
use super::insert::grown;
use super::insert::lemma_insert_ascending;
use super::insert::subtree_inserted;
use super::insert::updated;
use super::node::KeyCell;
use super::node::NodeView;
use super::node::ascending;
use super::node::lemma_keys_ascending;
use super::node::lemma_keys_len;
use super::page::BTreeError;
use super::shape::agree_on;
use super::shape::branch_pages;
use super::shape::branch_wf;
use super::shape::child_get;
use super::shape::child_pages;
use super::shape::child_wf;
use super::shape::lemma_branch_pages_in_store;
use super::shape::lemma_frame;
use super::shape::lemma_frame_branch;
use super::shape::lemma_pages_in_store;
use super::shape::lemma_subtree_is_branch;
use super::shape::subtree_pages;
use super::shape::subtree_wf;
use super::tree::high;
use super::tree::keys_in_range;
use super::tree::lemma_route_in_range;
use super::tree::lemma_route_unique;
use super::tree::low;
use super::tree::node_at;
use super::tree::route;
use super::tree::subtree_get;

verus! {

/// A child other than the one that the pages were changed under is as
/// it was.
pub proof fn lemma_other_child(
    pages0: Seq<Seq<u8>>,
    pages1: Seq<Seq<u8>>,
    types: Seq<DBType>,
    keys: Seq<u32>,
    children: Seq<u32>,
    r: int,
    j: int,
    h: nat,
    lo: int,
    hi: int,
)
    requires
        branch_wf(pages0, types, keys, children, h, lo, hi),
        0 <= r < keys.len(),
        0 <= j < keys.len(),
        j != r,
        pages0.len() <= pages1.len(),
        forall|p: int|
            0 <= p < pages0.len() && !child_pages(pages0, types, keys, children, r, h, lo, hi).contains(p)
                ==> #[trigger] pages1[p] == pages0[p],
    ensures
        child_wf(pages1, types, keys, children, j, h, lo, hi),
        child_pages(pages1, types, keys, children, j, h, lo, hi) == child_pages(
            pages0,
            types,
            keys,
            children,
            j,
            h,
            lo,
            hi,
        ),
        forall|k: u32|
            child_get(pages1, types, keys, children, j, h, lo, hi, k) == child_get(
                pages0,
                types,
                keys,
                children,
                j,
                h,
                lo,
                hi,
                k,
            ),
        forall|p: int|
            child_pages(pages0, types, keys, children, j, h, lo, hi).contains(p) ==> 1 <= p < pages0.len()
                && !child_pages(pages0, types, keys, children, r, h, lo, hi).contains(p),
{
    let cj = child_pages(pages0, types, keys, children, j, h, lo, hi);
    let cr = child_pages(pages0, types, keys, children, r, h, lo, hi);
    assert(child_wf(pages0, types, keys, children, j, h, lo, hi));
    if j < r {
        assert(cj.disjoint(cr));
    } else {
        assert(cr.disjoint(cj));
    }
    lemma_pages_in_store(pages0, types, children[j] as int, h, low(keys, j, lo), high(keys, j, hi));
    assert(agree_on(pages0, pages1, cj));
    lemma_frame(pages0, pages1, types, children[j] as int, h, low(keys, j, lo), high(keys, j, hi));
}

/// Where an insertion under one child needed no split, the children
/// are well formed as before, and hold the new row and all else as before.
pub proof fn lemma_branch_child_same(
    pages0: Seq<Seq<u8>>,
    pages1: Seq<Seq<u8>>,
    types: Seq<DBType>,
    keys: Seq<u32>,
    children: Seq<u32>,
    r: int,
    h: nat,
    lo: int,
    hi: int,
    key: u32,
    row: Seq<ValueView>,
)
    requires
        ascending(keys),
        keys_in_range(keys, false, lo, hi),
        branch_wf(pages0, types, keys, children, h, lo, hi),
        lo <= key < hi,
        r == route(keys, key),
        0 <= r < keys.len(),
        subtree_inserted(
            pages0,
            pages1,
            types,
            children[r] as int,
            h,
            low(keys, r, lo),
            high(keys, r, hi),
            key,
            row,
            None,
        ),
    ensures
        branch_wf(pages1, types, keys, children, h, lo, hi),
        grown(
            branch_pages(pages1, types, keys, children, h, lo, hi),
            branch_pages(pages0, types, keys, children, h, lo, hi),
            pages0.len() as int,
            pages1.len() as int,
        ),
        forall|k: u32|
            lo <= k < hi ==> #[trigger] child_get(
                pages1,
                types,
                keys,
                children,
                route(keys, k),
                h,
                lo,
                hi,
                k,
            ) == updated(
                child_get(pages0, types, keys, children, route(keys, k), h, lo, hi, k),
                k,
                key,
                row,
            ),
{
    reveal(subtree_inserted);
    let cr0 = child_pages(pages0, types, keys, children, r, h, lo, hi);
    let cr1 = child_pages(pages1, types, keys, children, r, h, lo, hi);
    assert forall|j: int| 0 <= j < keys.len() implies #[trigger] child_wf(
        pages1,
        types,
        keys,
        children,
        j,
        h,
        lo,
        hi,
    ) by {
        if j != r {
            lemma_other_child(pages0, pages1, types, keys, children, r, j, h, lo, hi);
        }
    }
    assert forall|j1: int, j2: int| 0 <= j1 < j2 < keys.len() implies (#[trigger] child_pages(
        pages1,
        types,
        keys,
        children,
        j1,
        h,
        lo,
        hi,
    )).disjoint(#[trigger] child_pages(pages1, types, keys, children, j2, h, lo, hi)) by {
        if j1 != r {
            lemma_other_child(pages0, pages1, types, keys, children, r, j1, h, lo, hi);
        }
        if j2 != r {
            lemma_other_child(pages0, pages1, types, keys, children, r, j2, h, lo, hi);
        }
        assert(child_pages(pages0, types, keys, children, j1, h, lo, hi).disjoint(
            child_pages(pages0, types, keys, children, j2, h, lo, hi),
        ));
    }
    assert forall|p: int|
        branch_pages(pages1, types, keys, children, h, lo, hi).contains(p) implies branch_pages(
        pages0,
        types,
        keys,
        children,
        h,
        lo,
        hi,
    ).contains(p) || pages0.len() <= p < pages1.len() by {
        let j = choose|j: int|
            0 <= j < keys.len() && (#[trigger] child_pages(
                pages1,
                types,
                keys,
                children,
                j,
                h,
                lo,
                hi,
            )).contains(p);
        if j != r {
            lemma_other_child(pages0, pages1, types, keys, children, r, j, h, lo, hi);
            assert(child_pages(pages0, types, keys, children, j, h, lo, hi).contains(p));
        } else {
            if !(pages0.len() <= p < pages1.len()) {
                assert(cr0.contains(p));
            }
        }
    }
    assert forall|k: u32| lo <= k < hi implies #[trigger] child_get(
        pages1,
        types,
        keys,
        children,
        route(keys, k),
        h,
        lo,
        hi,
        k,
    ) == updated(
        child_get(pages0, types, keys, children, route(keys, k), h, lo, hi, k),
        k,
        key,
        row,
    ) by {
        lemma_route_in_range(keys, k, lo, hi);
        let j = route(keys, k);
        if j != r {
            lemma_other_child(pages0, pages1, types, keys, children, r, j, h, lo, hi);
        }
    }
}

/// The rank in the keys before a cell was put in at rank `r + 1` of the
/// child that stands at rank `j` afterwards.
pub open spec fn rank_before(r: int, j: int) -> int {
    if j <= r {
        j
    } else {
        j - 1
    }
}

/// After a cell was put in at rank `r + 1`, a child that stood at
/// another rank than `r` has the place that it had before.
pub proof fn lemma_place_kept(
    keys: Seq<u32>,
    children: Seq<u32>,
    r: int,
    cell: KeyCell,
    j: int,
    lo: int,
    hi: int,
)
    requires
        keys.len() == children.len(),
        0 <= r < keys.len(),
        0 <= j <= keys.len(),
        j != r,
        j != r + 1,
    ensures
        ({
            let k2 = keys.insert(r + 1, cell.key);
            let c2 = children.insert(r + 1, cell.page_id);
            let i = rank_before(r, j);
            &&& 0 <= i < keys.len()
            &&& i != r
            &&& c2[j] == children[i]
            &&& low(k2, j, lo) == low(keys, i, lo)
            &&& high(k2, j, hi) == high(keys, i, hi)
        }),
{
}

/// After a cell was put in at rank `r + 1`, the child of rank `r` keeps
/// its place up to the key of the cell, and the child of the cell has
/// the place from that key on.
pub proof fn lemma_place_split(
    keys: Seq<u32>,
    children: Seq<u32>,
    r: int,
    cell: KeyCell,
    lo: int,
    hi: int,
)
    requires
        keys.len() == children.len(),
        0 <= r < keys.len(),
    ensures
        ({
            let k2 = keys.insert(r + 1, cell.key);
            let c2 = children.insert(r + 1, cell.page_id);
            &&& c2[r] == children[r]
            &&& low(k2, r, lo) == low(keys, r, lo)
            &&& high(k2, r, hi) == cell.key
            &&& c2[r + 1] == cell.page_id
            &&& low(k2, r + 1, lo) == cell.key
            &&& high(k2, r + 1, hi) == high(keys, r, hi)
        }),
{
}

/// Where an insertion under the child of rank `r` split that child, the
/// children with the new child put in at rank `r + 1` are well formed,
/// and hold the new row and all else as before.
pub proof fn lemma_branch_child_split(
    pages0: Seq<Seq<u8>>,
    pages1: Seq<Seq<u8>>,
    types: Seq<DBType>,
    keys: Seq<u32>,
    children: Seq<u32>,
    r: int,
    h: nat,
    lo: int,
    hi: int,
    key: u32,
    row: Seq<ValueView>,
    cell: KeyCell,
)
    requires
        ascending(keys),
        keys_in_range(keys, false, lo, hi),
        branch_wf(pages0, types, keys, children, h, lo, hi),
        lo <= key < hi,
        r == route(keys, key),
        0 <= r < keys.len(),
        subtree_inserted(
            pages0,
            pages1,
            types,
            children[r] as int,
            h,
            low(keys, r, lo),
            high(keys, r, hi),
            key,
            row,
            Some(cell),
        ),
    ensures
        ascending(keys.insert(r + 1, cell.key)),
        keys_in_range(keys.insert(r + 1, cell.key), false, lo, hi),
        branch_wf(
            pages1,
            types,
            keys.insert(r + 1, cell.key),
            children.insert(r + 1, cell.page_id),
            h,
            lo,
            hi,
        ),
        grown(
            branch_pages(
                pages1,
                types,
                keys.insert(r + 1, cell.key),
                children.insert(r + 1, cell.page_id),
                h,
                lo,
                hi,
            ),
            branch_pages(pages0, types, keys, children, h, lo, hi),
            pages0.len() as int,
            pages1.len() as int,
        ),
        forall|k: u32|
            lo <= k < hi ==> #[trigger] child_get(
                pages1,
                types,
                keys.insert(r + 1, cell.key),
                children.insert(r + 1, cell.page_id),
                route(keys.insert(r + 1, cell.key), k),
                h,
                lo,
                hi,
                k,
            ) == updated(
                child_get(pages0, types, keys, children, route(keys, k), h, lo, hi, k),
                k,
                key,
                row,
            ),
{
    reveal(subtree_inserted);
    let k2 = keys.insert(r + 1, cell.key);
    let c2 = children.insert(r + 1, cell.page_id);
    let clo = low(keys, r, lo);
    let chi = high(keys, r, hi);
    let sep = cell.key as int;
    let np = cell.page_id as int;
    let cr0 = child_pages(pages0, types, keys, children, r, h, lo, hi);
    let left1 = subtree_pages(pages1, types, children[r] as int, h, clo, sep);
    let right1 = subtree_pages(pages1, types, np, h, sep, chi);
    assert(keys[r] <= clo);
    lemma_insert_ascending(keys, r + 1, cell.key);
    assert(keys_in_range(k2, false, lo, hi)) by {
        assert forall|i: int| 1 <= i < k2.len() implies lo < #[trigger] k2[i] < hi by {
            if i <= r {
                assert(k2[i] == keys[i]);
            } else if i > r + 1 {
                assert(k2[i] == keys[i - 1]);
            }
        }
    }
    lemma_place_split(keys, children, r, cell, lo, hi);
    // every child of the new keys, and the pages under it
    assert forall|j: int| 0 <= j < k2.len() implies #[trigger] child_wf(
        pages1,
        types,
        k2,
        c2,
        j,
        h,
        lo,
        hi,
    ) && (if j == r {
        child_pages(pages1, types, k2, c2, j, h, lo, hi) == left1
    } else if j == r + 1 {
        child_pages(pages1, types, k2, c2, j, h, lo, hi) == right1
    } else {
        child_pages(pages1, types, k2, c2, j, h, lo, hi) == child_pages(
            pages0,
            types,
            keys,
            children,
            rank_before(r, j),
            h,
            lo,
            hi,
        )
    }) by {
        if j != r && j != r + 1 {
            lemma_place_kept(keys, children, r, cell, j, lo, hi);
            lemma_other_child(pages0, pages1, types, keys, children, r, rank_before(r, j), h, lo, hi);
        }
    }
    assert forall|j1: int, j2: int| 0 <= j1 < j2 < k2.len() implies (#[trigger] child_pages(
        pages1,
        types,
        k2,
        c2,
        j1,
        h,
        lo,
        hi,
    )).disjoint(#[trigger] child_pages(pages1, types, k2, c2, j2, h, lo, hi)) by {
        assert(child_wf(pages1, types, k2, c2, j1, h, lo, hi));
        assert(child_wf(pages1, types, k2, c2, j2, h, lo, hi));
        let i1 = rank_before(r, j1);
        let i2 = rank_before(r, j2);
        if j1 != r && j1 != r + 1 {
            lemma_place_kept(keys, children, r, cell, j1, lo, hi);
            lemma_other_child(pages0, pages1, types, keys, children, r, i1, h, lo, hi);
        }
        if j2 != r && j2 != r + 1 {
            lemma_place_kept(keys, children, r, cell, j2, lo, hi);
            lemma_other_child(pages0, pages1, types, keys, children, r, i2, h, lo, hi);
        }
        if j1 != r && j1 != r + 1 && j2 != r && j2 != r + 1 {
            assert(child_pages(pages0, types, keys, children, i1, h, lo, hi).disjoint(
                child_pages(pages0, types, keys, children, i2, h, lo, hi),
            ));
        }
    }
    assert forall|p: int| branch_pages(pages1, types, k2, c2, h, lo, hi).contains(p) implies branch_pages(
        pages0,
        types,
        keys,
        children,
        h,
        lo,
        hi,
    ).contains(p) || pages0.len() <= p < pages1.len() by {
        let j = choose|j: int|
            0 <= j < k2.len() && (#[trigger] child_pages(pages1, types, k2, c2, j, h, lo, hi)).contains(
                p,
            );
        assert(child_wf(pages1, types, k2, c2, j, h, lo, hi));
        if j != r && j != r + 1 {
            lemma_place_kept(keys, children, r, cell, j, lo, hi);
            assert(child_pages(pages0, types, keys, children, rank_before(r, j), h, lo, hi).contains(
                p,
            ));
        } else if !(pages0.len() <= p < pages1.len()) {
            assert(cr0.contains(p));
        }
    }
    assert forall|k: u32| lo <= k < hi implies #[trigger] child_get(
        pages1,
        types,
        k2,
        c2,
        route(k2, k),
        h,
        lo,
        hi,
        k,
    ) == updated(
        child_get(pages0, types, keys, children, route(keys, k), h, lo, hi, k),
        k,
        key,
        row,
    ) by {
        lemma_route_in_range(keys, k, lo, hi);
        let i = route(keys, k);
        if i == r {
            if k < cell.key {
                lemma_route_unique(k2, k, lo, hi, r);
            } else {
                lemma_route_unique(k2, k, lo, hi, r + 1);
            }
        } else {
            let j = if i < r {
                i
            } else {
                i + 1
            };
            lemma_place_kept(keys, children, r, cell, j, lo, hi);
            lemma_route_unique(k2, k, lo, hi, j);
            lemma_other_child(pages0, pages1, types, keys, children, r, i, h, lo, hi);
        }
    }
}

/// The children of a node at and after rank `m` are well formed for
/// the keys from the key of rank `m` on, and the children before rank `m`
/// for the keys below it; each half answers for its keys as the whole did.
pub proof fn lemma_branch_split(
    p: Seq<Seq<u8>>,
    types: Seq<DBType>,
    keys: Seq<u32>,
    children: Seq<u32>,
    m: int,
    h: nat,
    lo: int,
    hi: int,
)
    requires
        ascending(keys),
        keys_in_range(keys, false, lo, hi),
        branch_wf(p, types, keys, children, h, lo, hi),
        1 <= m < keys.len(),
    ensures
        ascending(keys.take(m)),
        ascending(keys.skip(m)),
        keys_in_range(keys.take(m), false, lo, keys[m] as int),
        keys_in_range(keys.skip(m), false, keys[m] as int, hi),
        branch_wf(p, types, keys.take(m), children.take(m), h, lo, keys[m] as int),
        branch_wf(p, types, keys.skip(m), children.skip(m), h, keys[m] as int, hi),
        grown(
            branch_pages(p, types, keys.take(m), children.take(m), h, lo, keys[m] as int),
            branch_pages(p, types, keys, children, h, lo, hi),
            0,
            0,
        ),
        grown(
            branch_pages(p, types, keys.skip(m), children.skip(m), h, keys[m] as int, hi),
            branch_pages(p, types, keys, children, h, lo, hi),
            0,
            0,
        ),
        branch_pages(p, types, keys.take(m), children.take(m), h, lo, keys[m] as int).disjoint(
            branch_pages(p, types, keys.skip(m), children.skip(m), h, keys[m] as int, hi),
        ),
        forall|k: u32|
            lo <= k < keys[m] ==> #[trigger] child_get(
                p,
                types,
                keys.take(m),
                children.take(m),
                route(keys.take(m), k),
                h,
                lo,
                keys[m] as int,
                k,
            ) == child_get(p, types, keys, children, route(keys, k), h, lo, hi, k),
        forall|k: u32|
            keys[m] <= k < hi ==> #[trigger] child_get(
                p,
                types,
                keys.skip(m),
                children.skip(m),
                route(keys.skip(m), k),
                h,
                keys[m] as int,
                hi,
                k,
            ) == child_get(p, types, keys, children, route(keys, k), h, lo, hi, k),
{
    let kl = keys.take(m);
    let cl = children.take(m);
    let kr = keys.skip(m);
    let cr = children.skip(m);
    let sep = keys[m] as int;
    assert forall|i: int, j: int| 0 <= i < j < kl.len() implies kl[i] < kl[j] by {
        assert(keys[i] < keys[j]);
    }
    assert forall|i: int, j: int| 0 <= i < j < kr.len() implies kr[i] < kr[j] by {
        assert(keys[m + i] < keys[m + j]);
    }
    assert(keys_in_range(kl, false, lo, sep)) by {
        assert forall|i: int| 1 <= i < kl.len() implies lo < #[trigger] kl[i] < sep by {
            assert(kl[i] == keys[i]);
            assert(keys[i] < keys[m]);
        }
    }
    assert(keys_in_range(kr, false, sep, hi)) by {
        assert forall|i: int| 1 <= i < kr.len() implies sep < #[trigger] kr[i] < hi by {
            assert(kr[i] == keys[m + i]);
            assert(keys[m] < keys[m + i]);
        }
    }
    // the places are the same
    assert forall|j: int| 0 <= j < kl.len() implies cl[j] == children[j] && low(kl, j, lo) == low(
        keys,
        j,
        lo,
    ) && high(kl, j, sep) == high(keys, j, hi) by {}
    assert forall|j: int| 0 <= j < kr.len() implies cr[j] == children[m + j] && low(kr, j, sep)
        == low(keys, m + j, lo) && high(kr, j, hi) == high(keys, m + j, hi) by {}
    assert forall|j: int| 0 <= j < kl.len() implies #[trigger] child_wf(
        p,
        types,
        kl,
        cl,
        j,
        h,
        lo,
        sep,
    ) && child_pages(p, types, kl, cl, j, h, lo, sep) == child_pages(
        p,
        types,
        keys,
        children,
        j,
        h,
        lo,
        hi,
    ) by {
        assert(child_wf(p, types, keys, children, j, h, lo, hi));
    }
    assert forall|j: int| 0 <= j < kr.len() implies #[trigger] child_wf(
        p,
        types,
        kr,
        cr,
        j,
        h,
        sep,
        hi,
    ) && child_pages(p, types, kr, cr, j, h, sep, hi) == child_pages(
        p,
        types,
        keys,
        children,
        m + j,
        h,
        lo,
        hi,
    ) by {
        assert(child_wf(p, types, keys, children, m + j, h, lo, hi));
    }
    assert forall|j1: int, j2: int| 0 <= j1 < j2 < kl.len() implies (#[trigger] child_pages(
        p,
        types,
        kl,
        cl,
        j1,
        h,
        lo,
        sep,
    )).disjoint(#[trigger] child_pages(p, types, kl, cl, j2, h, lo, sep)) by {
        assert(child_wf(p, types, kl, cl, j1, h, lo, sep));
        assert(child_wf(p, types, kl, cl, j2, h, lo, sep));
        assert(child_pages(p, types, keys, children, j1, h, lo, hi).disjoint(
            child_pages(p, types, keys, children, j2, h, lo, hi),
        ));
    }
    assert forall|j1: int, j2: int| 0 <= j1 < j2 < kr.len() implies (#[trigger] child_pages(
        p,
        types,
        kr,
        cr,
        j1,
        h,
        sep,
        hi,
    )).disjoint(#[trigger] child_pages(p, types, kr, cr, j2, h, sep, hi)) by {
        assert(child_wf(p, types, kr, cr, j1, h, sep, hi));
        assert(child_wf(p, types, kr, cr, j2, h, sep, hi));
        assert(child_pages(p, types, keys, children, m + j1, h, lo, hi).disjoint(
            child_pages(p, types, keys, children, m + j2, h, lo, hi),
        ));
    }
    let bl = branch_pages(p, types, kl, cl, h, lo, sep);
    let br = branch_pages(p, types, kr, cr, h, sep, hi);
    let b = branch_pages(p, types, keys, children, h, lo, hi);
    assert forall|q: int| bl.contains(q) implies b.contains(q) by {
        let j = choose|j: int|
            0 <= j < kl.len() && (#[trigger] child_pages(p, types, kl, cl, j, h, lo, sep)).contains(
                q,
            );
        assert(child_wf(p, types, kl, cl, j, h, lo, sep));
        assert(child_pages(p, types, keys, children, j, h, lo, hi).contains(q));
    }
    assert forall|q: int| br.contains(q) implies b.contains(q) by {
        let j = choose|j: int|
            0 <= j < kr.len() && (#[trigger] child_pages(p, types, kr, cr, j, h, sep, hi)).contains(
                q,
            );
        assert(child_wf(p, types, kr, cr, j, h, sep, hi));
        assert(child_pages(p, types, keys, children, m + j, h, lo, hi).contains(q));
    }
    assert forall|q: int| !(bl.contains(q) && br.contains(q)) by {
        if bl.contains(q) && br.contains(q) {
            let j1 = choose|j: int|
                0 <= j < kl.len() && (#[trigger] child_pages(
                    p,
                    types,
                    kl,
                    cl,
                    j,
                    h,
                    lo,
                    sep,
                )).contains(q);
            let j2 = choose|j: int|
                0 <= j < kr.len() && (#[trigger] child_pages(
                    p,
                    types,
                    kr,
                    cr,
                    j,
                    h,
                    sep,
                    hi,
                )).contains(q);
            assert(child_wf(p, types, kl, cl, j1, h, lo, sep));
            assert(child_wf(p, types, kr, cr, j2, h, sep, hi));
            assert(child_pages(p, types, keys, children, j1, h, lo, hi).disjoint(
                child_pages(p, types, keys, children, m + j2, h, lo, hi),
            ));
        }
    }
    assert forall|k: u32| lo <= k < keys[m] implies #[trigger] child_get(
        p,
        types,
        kl,
        cl,
        route(kl, k),
        h,
        lo,
        sep,
        k,
    ) == child_get(p, types, keys, children, route(keys, k), h, lo, hi, k) by {
        lemma_route_in_range(kl, k, lo, sep);
        let j = route(kl, k);
        lemma_route_unique(keys, k, lo, hi, j);
    }
    assert forall|k: u32| keys[m] <= k < hi implies #[trigger] child_get(
        p,
        types,
        kr,
        cr,
        route(kr, k),
        h,
        sep,
        hi,
        k,
    ) == child_get(p, types, keys, children, route(keys, k), h, lo, hi, k) by {
        lemma_route_in_range(kr, k, sep, hi);
        let j = route(kr, k);
        lemma_route_unique(keys, k, lo, hi, m + j);
    }
}

/// A page that holds a fit node over well-formed children, none of
/// which uses that page, is the root of a well-formed subtree.
pub proof fn lemma_node_stored(
    p: Seq<Seq<u8>>,
    pages2: Seq<Seq<u8>>,
    types: Seq<DBType>,
    id: int,
    h: nat,
    lo: int,
    hi: int,
)
    requires
        node_at(pages2, types, id, false, lo, hi) is Ok,
        branch_wf(
            p,
            types,
            node_at(pages2, types, id, false, lo, hi)->Ok_0.keys(),
            node_at(pages2, types, id, false, lo, hi)->Ok_0.children(),
            h,
            lo,
            hi,
        ),
        agree_on(
            p,
            pages2,
            branch_pages(
                p,
                types,
                node_at(pages2, types, id, false, lo, hi)->Ok_0.keys(),
                node_at(pages2, types, id, false, lo, hi)->Ok_0.children(),
                h,
                lo,
                hi,
            ),
        ),
        !branch_pages(
            p,
            types,
            node_at(pages2, types, id, false, lo, hi)->Ok_0.keys(),
            node_at(pages2, types, id, false, lo, hi)->Ok_0.children(),
            h,
            lo,
            hi,
        ).contains(id),
    ensures
        subtree_wf(pages2, types, id, h + 1, lo, hi),
        subtree_pages(pages2, types, id, h + 1, lo, hi) == branch_pages(
            p,
            types,
            node_at(pages2, types, id, false, lo, hi)->Ok_0.keys(),
            node_at(pages2, types, id, false, lo, hi)->Ok_0.children(),
            h,
            lo,
            hi,
        ).insert(id),
        forall|k: u32| #[trigger]
            subtree_get(pages2, types, id, h + 1, lo, hi, k) == child_get(
                p,
                types,
                node_at(pages2, types, id, false, lo, hi)->Ok_0.keys(),
                node_at(pages2, types, id, false, lo, hi)->Ok_0.children(),
                route(node_at(pages2, types, id, false, lo, hi)->Ok_0.keys(), k),
                h,
                lo,
                hi,
                k,
            ),
{
    let v = node_at(pages2, types, id, false, lo, hi)->Ok_0;
    lemma_keys_len(v);
    lemma_frame_branch(p, pages2, types, v.keys(), v.children(), h, lo, hi);
    lemma_subtree_is_branch(pages2, types, id, h + 1, lo, hi);
    assert forall|k: u32| #[trigger]
        subtree_get(pages2, types, id, h + 1, lo, hi, k) == child_get(
            p,
            types,
            v.keys(),
            v.children(),
            route(v.keys(), k),
            h,
            lo,
            hi,
            k,
        ) by {
        super::shape::lemma_route_bounds(v.keys(), k);
    }
}

/// Whether page `id` holds an internal node with the given keys and
/// children, in order.
pub open spec fn stored_node(
    p: Seq<Seq<u8>>,
    types: Seq<DBType>,
    id: int,
    keys: Seq<u32>,
    children: Seq<u32>,
) -> bool {
    match decode_page(p[id], types) {
        Some(w) => w is Internal && w.ordered() && w.keys() == keys && w.children() == children,
        None => false,
    }
}

/// The rank at which a full node of `n` cells is parted when a cell is
/// put in behind rank `r`: the cells below this rank of the node with
/// the new cell stay, the others leave.
pub open spec fn split_point(n: int, r: int) -> int {
    n / 2 + if r + 1 <= n / 2 {
        1int
    } else {
        0int
    }
}

/// What putting a cell into the node of page `id` has done to the
/// pages, where `keys` and `children` are those of the node with the new
/// cell. Without a split the page holds them all. With a split the page
/// holds those below the split point, a new page at the end of the store
/// holds the others, and `split` names that page and the first of its keys.
pub open spec fn branch_stored(
    pages1: Seq<Seq<u8>>,
    pages2: Seq<Seq<u8>>,
    types: Seq<DBType>,
    id: int,
    keys: Seq<u32>,
    children: Seq<u32>,
    r: int,
    split: Option<KeyCell>,
) -> bool {
    match split {
        None => pages2 == pages1.update(id, pages2[id]) && stored_node(pages2, types, id, keys, children),
        Some(up) => {
            let m = split_point(keys.len() - 1, r);
            &&& 1 <= m < keys.len()
            &&& pages2.len() == pages1.len() + 1
            &&& up.page_id == pages1.len()
            &&& up.key == keys[m]
            &&& forall|p: int| 0 <= p < pages1.len() && p != id ==> #[trigger] pages2[p] == pages1[p]
            &&& stored_node(pages2, types, id, keys.take(m), children.take(m))
            &&& stored_node(pages2, types, up.page_id as int, keys.skip(m), children.skip(m))
        },
    }
}

/// An insertion under a child that needed no split is an insertion
/// under the node.
pub proof fn lemma_internal_same(
    pages0: Seq<Seq<u8>>,
    pages1: Seq<Seq<u8>>,
    types: Seq<DBType>,
    id: int,
    h: nat,
    lo: int,
    hi: int,
    key: u32,
    row: Seq<ValueView>,
)
    requires
        subtree_wf(pages0, types, id, h + 1, lo, hi),
        lo <= key < hi,
        ({
            let v = node_at(pages0, types, id, false, lo, hi)->Ok_0;
            let r = route(v.keys(), key);
            subtree_inserted(
                pages0,
                pages1,
                types,
                v.children()[r] as int,
                h,
                low(v.keys(), r, lo),
                high(v.keys(), r, hi),
                key,
                row,
                None,
            )
        }),
    ensures
        subtree_inserted(pages0, pages1, types, id, h + 1, lo, hi, key, row, None),
{
    let v = node_at(pages0, types, id, false, lo, hi)->Ok_0;
    let keys = v.keys();
    let children = v.children();
    let r = route(keys, key);
    lemma_subtree_is_branch(pages0, types, id, h + 1, lo, hi);
    lemma_keys_ascending(v);
    lemma_keys_len(v);
    lemma_route_in_range(keys, key, lo, hi);
    lemma_branch_pages_in_store(pages0, types, keys, children, h, lo, hi);
    lemma_branch_child_same(pages0, pages1, types, keys, children, r, h, lo, hi, key, row);
    let bp0 = branch_pages(pages0, types, keys, children, h, lo, hi);
    let bp1 = branch_pages(pages1, types, keys, children, h, lo, hi);
    let cr0 = child_pages(pages0, types, keys, children, r, h, lo, hi);
    assert forall|p: int| cr0.contains(p) implies bp0.contains(p) by {}
    reveal(subtree_inserted);
    assert(pages1[id] == pages0[id]);
    assert(node_at(pages1, types, id, false, lo, hi) == node_at(pages0, types, id, false, lo, hi));
    lemma_node_stored(pages1, pages1, types, id, h, lo, hi);
    lemma_subtree_is_branch(pages1, types, id, h + 1, lo, hi);
    assert forall|k: u32| lo <= k < hi implies #[trigger] subtree_get(
        pages1,
        types,
        id,
        h + 1,
        lo,
        hi,
        k,
    ) == updated(subtree_get(pages0, types, id, h + 1, lo, hi, k), k, key, row) by {
        assert(child_get(pages1, types, keys, children, route(keys, k), h, lo, hi, k) == updated(
            child_get(pages0, types, keys, children, route(keys, k), h, lo, hi, k),
            k,
            key,
            row,
        ));
    }
}

/// An insertion under a child that split it, and that left room in the
/// node for the new child, is an insertion under the node.
pub proof fn lemma_internal_grown(
    pages0: Seq<Seq<u8>>,
    pages1: Seq<Seq<u8>>,
    pages2: Seq<Seq<u8>>,
    types: Seq<DBType>,
    id: int,
    h: nat,
    lo: int,
    hi: int,
    key: u32,
    row: Seq<ValueView>,
    cell: KeyCell,
)
    requires
        subtree_wf(pages0, types, id, h + 1, lo, hi),
        lo <= key < hi,
        ({
            let v = node_at(pages0, types, id, false, lo, hi)->Ok_0;
            let r = route(v.keys(), key);
            &&& subtree_inserted(
                pages0,
                pages1,
                types,
                v.children()[r] as int,
                h,
                low(v.keys(), r, lo),
                high(v.keys(), r, hi),
                key,
                row,
                Some(cell),
            )
            &&& branch_stored(
                pages1,
                pages2,
                types,
                id,
                v.keys().insert(r + 1, cell.key),
                v.children().insert(r + 1, cell.page_id),
                r,
                None,
            )
        }),
    ensures
        subtree_inserted(pages0, pages2, types, id, h + 1, lo, hi, key, row, None),
{
    let v = node_at(pages0, types, id, false, lo, hi)->Ok_0;
    let keys = v.keys();
    let children = v.children();
    let r = route(keys, key);
    let k2 = keys.insert(r + 1, cell.key);
    let c2 = children.insert(r + 1, cell.page_id);
    lemma_subtree_is_branch(pages0, types, id, h + 1, lo, hi);
    lemma_keys_ascending(v);
    lemma_keys_len(v);
    lemma_route_in_range(keys, key, lo, hi);
    lemma_branch_pages_in_store(pages0, types, keys, children, h, lo, hi);
    lemma_branch_child_split(pages0, pages1, types, keys, children, r, h, lo, hi, key, row, cell);
    let bp0 = branch_pages(pages0, types, keys, children, h, lo, hi);
    let bp1 = branch_pages(pages1, types, k2, c2, h, lo, hi);
    let cr0 = child_pages(pages0, types, keys, children, r, h, lo, hi);
    assert forall|p: int| cr0.contains(p) implies bp0.contains(p) by {}
    reveal(subtree_inserted);
    let w = decode_page(pages2[id], types)->0;
    assert(node_at(pages2, types, id, false, lo, hi) == Ok::<NodeView, BTreeError>(w));
    lemma_branch_pages_in_store(pages1, types, k2, c2, h, lo, hi);
    assert(agree_on(pages1, pages2, bp1));
    lemma_node_stored(pages1, pages2, types, id, h, lo, hi);
    assert forall|k: u32| lo <= k < hi implies #[trigger] subtree_get(
        pages2,
        types,
        id,
        h + 1,
        lo,
        hi,
        k,
    ) == updated(subtree_get(pages0, types, id, h + 1, lo, hi, k), k, key, row) by {
        assert(child_get(pages1, types, k2, c2, route(k2, k), h, lo, hi, k) == updated(
            child_get(pages0, types, keys, children, route(keys, k), h, lo, hi, k),
            k,
            key,
            row,
        ));
    }
    assert forall|p: int|
        0 <= p < pages0.len() && !subtree_pages(pages0, types, id, h + 1, lo, hi).contains(
            p,
        ) implies #[trigger] pages2[p] == pages0[p] by {
        assert(pages1[p] == pages0[p]);
    }
}

/// An insertion under a child that split it, and that split the full
/// node in turn, is an insertion under the node.
pub proof fn lemma_internal_split(
    pages0: Seq<Seq<u8>>,
    pages1: Seq<Seq<u8>>,
    pages2: Seq<Seq<u8>>,
    types: Seq<DBType>,
    id: int,
    h: nat,
    lo: int,
    hi: int,
    key: u32,
    row: Seq<ValueView>,
    cell: KeyCell,
    up: KeyCell,
)
    requires
        subtree_wf(pages0, types, id, h + 1, lo, hi),
        lo <= key < hi,
        ({
            let v = node_at(pages0, types, id, false, lo, hi)->Ok_0;
            let r = route(v.keys(), key);
            &&& subtree_inserted(
                pages0,
                pages1,
                types,
                v.children()[r] as int,
                h,
                low(v.keys(), r, lo),
                high(v.keys(), r, hi),
                key,
                row,
                Some(cell),
            )
            &&& branch_stored(
                pages1,
                pages2,
                types,
                id,
                v.keys().insert(r + 1, cell.key),
                v.children().insert(r + 1, cell.page_id),
                r,
                Some(up),
            )
        }),
    ensures
        subtree_inserted(pages0, pages2, types, id, h + 1, lo, hi, key, row, Some(up)),
{
    let v = node_at(pages0, types, id, false, lo, hi)->Ok_0;
    let keys = v.keys();
    let children = v.children();
    let r = route(keys, key);
    let k2 = keys.insert(r + 1, cell.key);
    let c2 = children.insert(r + 1, cell.page_id);
    let m = split_point(k2.len() - 1, r);
    let sep = up.key as int;
    let np = up.page_id as int;
    lemma_subtree_is_branch(pages0, types, id, h + 1, lo, hi);
    lemma_keys_ascending(v);
    lemma_keys_len(v);
    lemma_route_in_range(keys, key, lo, hi);
    lemma_branch_pages_in_store(pages0, types, keys, children, h, lo, hi);
    lemma_branch_child_split(pages0, pages1, types, keys, children, r, h, lo, hi, key, row, cell);
    let bp0 = branch_pages(pages0, types, keys, children, h, lo, hi);
    let bp1 = branch_pages(pages1, types, k2, c2, h, lo, hi);
    let cr0 = child_pages(pages0, types, keys, children, r, h, lo, hi);
    assert forall|p: int| cr0.contains(p) implies bp0.contains(p) by {}
    reveal(subtree_inserted);
    lemma_branch_pages_in_store(pages1, types, k2, c2, h, lo, hi);
    lemma_branch_split(pages1, types, k2, c2, m, h, lo, hi);
    let kl = k2.take(m);
    let cl = c2.take(m);
    let kr = k2.skip(m);
    let cr = c2.skip(m);
    let bl = branch_pages(pages1, types, kl, cl, h, lo, sep);
    let br = branch_pages(pages1, types, kr, cr, h, sep, hi);
    let wl = decode_page(pages2[id], types)->0;
    let wr = decode_page(pages2[np], types)->0;
    assert(node_at(pages2, types, id, false, lo, sep) == Ok::<NodeView, BTreeError>(wl));
    assert(node_at(pages2, types, np, false, sep, hi) == Ok::<NodeView, BTreeError>(wr));
    assert(agree_on(pages1, pages2, bl));
    assert(agree_on(pages1, pages2, br));
    lemma_node_stored(pages1, pages2, types, id, h, lo, sep);
    lemma_node_stored(pages1, pages2, types, np, h, sep, hi);
    assert forall|k: u32| lo <= k < up.key implies #[trigger] subtree_get(
        pages2,
        types,
        id,
        h + 1,
        lo,
        sep,
        k,
    ) == updated(subtree_get(pages0, types, id, h + 1, lo, hi, k), k, key, row) by {
        assert(child_get(pages1, types, kl, cl, route(kl, k), h, lo, sep, k) == child_get(
            pages1,
            types,
            k2,
            c2,
            route(k2, k),
            h,
            lo,
            hi,
            k,
        ));
        assert(child_get(pages1, types, k2, c2, route(k2, k), h, lo, hi, k) == updated(
            child_get(pages0, types, keys, children, route(keys, k), h, lo, hi, k),
            k,
            key,
            row,
        ));
    }
    assert forall|k: u32| up.key <= k < hi implies #[trigger] subtree_get(
        pages2,
        types,
        np,
        h + 1,
        sep,
        hi,
        k,
    ) == updated(subtree_get(pages0, types, id, h + 1, lo, hi, k), k, key, row) by {
        assert(child_get(pages1, types, kr, cr, route(kr, k), h, sep, hi, k) == child_get(
            pages1,
            types,
            k2,
            c2,
            route(k2, k),
            h,
            lo,
            hi,
            k,
        ));
        assert(child_get(pages1, types, k2, c2, route(k2, k), h, lo, hi, k) == updated(
            child_get(pages0, types, keys, children, route(keys, k), h, lo, hi, k),
            k,
            key,
            row,
        ));
    }
    assert forall|p: int|
        0 <= p < pages0.len() && !subtree_pages(pages0, types, id, h + 1, lo, hi).contains(
            p,
        ) implies #[trigger] pages2[p] == pages0[p] by {
        assert(pages1[p] == pages0[p]);
    }
}

/// Where an insertion split the root, a new root over the old root
/// and its new sibling holds the tree after the insertion, one level higher.
pub proof fn lemma_root_grown(
    pages0: Seq<Seq<u8>>,
    pages1: Seq<Seq<u8>>,
    pages2: Seq<Seq<u8>>,
    types: Seq<DBType>,
    root: int,
    new_root: int,
    h: nat,
    hi: int,
    key: u32,
    row: Seq<ValueView>,
    cell: KeyCell,
)
    requires
        subtree_wf(pages0, types, root, h, 0, hi),
        key < hi,
        subtree_inserted(pages0, pages1, types, root, h, 0, hi, key, row, Some(cell)),
        new_root == pages1.len(),
        pages2.len() == pages1.len() + 1,
        forall|p: int| 1 <= p < pages1.len() ==> #[trigger] pages2[p] == pages1[p],
        stored_node(pages2, types, new_root, seq![0u32, cell.key], seq![root as u32, cell.page_id]),
        0 <= root <= u32::MAX,
    ensures
        subtree_wf(pages2, types, new_root, h + 1, 0, hi),
        forall|k: u32|
            k < hi ==> #[trigger] subtree_get(pages2, types, new_root, h + 1, 0, hi, k) == updated(
                subtree_get(pages0, types, root, h, 0, hi, k),
                k,
                key,
                row,
            ),
{
    reveal(subtree_inserted);
    let keys = seq![0u32, cell.key];
    let children = seq![root as u32, cell.page_id];
    let sep = cell.key as int;
    let np = cell.page_id as int;
    lemma_pages_in_store(pages0, types, root, h, 0, hi);
    lemma_pages_in_store(pages1, types, root, h, 0, sep);
    lemma_pages_in_store(pages1, types, np, h, sep, hi);
    assert(ascending(keys));
    assert(keys_in_range(keys, false, 0, hi));
    assert(children[0] as int == root && low(keys, 0, 0) == 0 && high(keys, 0, hi) == sep);
    assert(children[1] as int == np && low(keys, 1, 0) == sep && high(keys, 1, hi) == hi);
    assert forall|j: int| 0 <= j < 2 implies #[trigger] child_wf(
        pages1,
        types,
        keys,
        children,
        j,
        h,
        0,
        hi,
    ) by {}
    assert forall|j1: int, j2: int| 0 <= j1 < j2 < 2 implies (#[trigger] child_pages(
        pages1,
        types,
        keys,
        children,
        j1,
        h,
        0,
        hi,
    )).disjoint(#[trigger] child_pages(pages1, types, keys, children, j2, h, 0, hi)) by {}
    assert(branch_wf(pages1, types, keys, children, h, 0, hi));
    lemma_branch_pages_in_store(pages1, types, keys, children, h, 0, hi);
    let w = decode_page(pages2[new_root], types)->0;
    assert(node_at(pages2, types, new_root, false, 0, hi) == Ok::<NodeView, BTreeError>(w));
    assert(agree_on(pages1, pages2, branch_pages(pages1, types, keys, children, h, 0, hi)));
    lemma_node_stored(pages1, pages2, types, new_root, h, 0, hi);
    assert forall|k: u32| k < hi implies #[trigger] subtree_get(
        pages2,
        types,
        new_root,
        h + 1,
        0,
        hi,
        k,
    ) == updated(subtree_get(pages0, types, root, h, 0, hi, k), k, key, row) by {
        if k < cell.key {
            lemma_route_unique(keys, k, 0, hi, 0);
        } else {
            lemma_route_unique(keys, k, 0, hi, 1);
        }
    }
}

/// What a descent finds in a well-formed subtree is no error.
pub proof fn lemma_get_ok(
    pages: Seq<Seq<u8>>,
    types: Seq<DBType>,
    id: int,
    height: nat,
    lo: int,
    hi: int,
    k: u32,
)
    requires
        subtree_wf(pages, types, id, height, lo, hi),
        lo <= k < hi,
    ensures
        subtree_get(pages, types, id, height, lo, hi, k) is Ok,
    decreases height,
{
    if height > 0 {
        let v = node_at(pages, types, id, false, lo, hi)->Ok_0;
        lemma_subtree_is_branch(pages, types, id, height, lo, hi);
        lemma_keys_ascending(v);
        lemma_route_in_range(v.keys(), k, lo, hi);
        let r = route(v.keys(), k);
        assert(child_wf(pages, types, v.keys(), v.children(), r, (height - 1) as nat, lo, hi));
        lemma_get_ok(
            pages,
            types,
            v.children()[r] as int,
            (height - 1) as nat,
            low(v.keys(), r, lo),
            high(v.keys(), r, hi),
            k,
        );
    }
}

} // verus!
