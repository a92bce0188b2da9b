//! Well-formed trees: every node fits its place, every key range is
//! handed down to the children in parts, and no page is used twice.

use vstd::prelude::*;
use crate::db::DBType;
use crate::db::ValueView;
use super::page::BTreeError;
use super::tree::high;
use super::tree::low;
use super::tree::node_at;
use super::tree::route;
use super::tree::subtree_get;

verus! {

/// Holds of every rank; it marks the rank that a statement about the
/// children of a node speaks of.
pub open spec fn is_rank(r: int) -> bool {
    true
}

/// The pages of the subtree under page `id`.
pub open spec fn subtree_pages(
    pages: Seq<Seq<u8>>,
    types: Seq<DBType>,
    id: int,
    height: nat,
    lo: int,
    hi: int,
) -> Set<int>
    decreases height,
{
    match node_at(pages, types, id, height == 0, lo, hi) {
        Ok(v) => if height == 0 {
            set![id]
        } else {
            Set::new(
                |p: int|
                    p == id || exists|r: int|
                        #[trigger] is_rank(r) && 0 <= r < v.keys().len() && subtree_pages(
                            pages,
                            types,
                            v.children()[r] as int,
                            (height - 1) as nat,
                            low(v.keys(), r, lo),
                            high(v.keys(), r, hi),
                        ).contains(p),
            )
        },
        Err(_) => set![id],
    }
}

/// Whether the subtree under page `id` is well formed for the keys
/// `lo..hi`: the page holds a node that is fit for its place, and, above
/// the leaves, the subtrees under its children are well formed for the
/// parts of the range that the node's keys cut out, and share no page
/// with each other or with the node.
pub open spec fn subtree_wf(
    pages: Seq<Seq<u8>>,
    types: Seq<DBType>,
    id: int,
    height: nat,
    lo: int,
    hi: int,
) -> bool
    decreases height,
{
    match node_at(pages, types, id, height == 0, lo, hi) {
        Ok(v) => height == 0 || {
            &&& forall|r: int|
                #[trigger] is_rank(r) && 0 <= r < v.keys().len() ==> subtree_wf(
                    pages,
                    types,
                    v.children()[r] as int,
                    (height - 1) as nat,
                    low(v.keys(), r, lo),
                    high(v.keys(), r, hi),
                ) && !subtree_pages(
                    pages,
                    types,
                    v.children()[r] as int,
                    (height - 1) as nat,
                    low(v.keys(), r, lo),
                    high(v.keys(), r, hi),
                ).contains(id)
            &&& forall|r1: int, r2: int|
                #[trigger] is_rank(r1) && #[trigger] is_rank(r2) && 0 <= r1 < r2 < v.keys().len()
                    ==> subtree_pages(
                    pages,
                    types,
                    v.children()[r1] as int,
                    (height - 1) as nat,
                    low(v.keys(), r1, lo),
                    high(v.keys(), r1, hi),
                ).disjoint(
                    subtree_pages(
                        pages,
                        types,
                        v.children()[r2] as int,
                        (height - 1) as nat,
                        low(v.keys(), r2, lo),
                        high(v.keys(), r2, hi),
                    ),
                )
        },
        Err(_) => false,
    }
}

/// Whether the subtree under the child of rank `r` is well formed.
pub open spec fn child_wf(
    pages: Seq<Seq<u8>>,
    types: Seq<DBType>,
    keys: Seq<u32>,
    children: Seq<u32>,
    r: int,
    h: nat,
    lo: int,
    hi: int,
) -> bool {
    subtree_wf(pages, types, children[r] as int, h, low(keys, r, lo), high(keys, r, hi))
}

/// The pages of the subtree under the child of rank `r`.
pub open spec fn child_pages(
    pages: Seq<Seq<u8>>,
    types: Seq<DBType>,
    keys: Seq<u32>,
    children: Seq<u32>,
    r: int,
    h: nat,
    lo: int,
    hi: int,
) -> Set<int> {
    subtree_pages(pages, types, children[r] as int, h, low(keys, r, lo), high(keys, r, hi))
}

/// What a descent for `key` finds under the child of rank `r`.
pub open spec fn child_get(
    pages: Seq<Seq<u8>>,
    types: Seq<DBType>,
    keys: Seq<u32>,
    children: Seq<u32>,
    r: int,
    h: nat,
    lo: int,
    hi: int,
    key: u32,
) -> Result<Option<Seq<ValueView>>, BTreeError> {
    subtree_get(pages, types, children[r] as int, h, low(keys, r, lo), high(keys, r, hi), key)
}

/// The pages of the subtrees under all children of a node.
pub open spec fn branch_pages(
    pages: Seq<Seq<u8>>,
    types: Seq<DBType>,
    keys: Seq<u32>,
    children: Seq<u32>,
    h: nat,
    lo: int,
    hi: int,
) -> Set<int> {
    Set::new(
        |p: int|
            exists|r: int|
                0 <= r < keys.len() && (#[trigger] child_pages(
                    pages,
                    types,
                    keys,
                    children,
                    r,
                    h,
                    lo,
                    hi,
                )).contains(p),
    )
}

/// Whether the subtrees under the children of a node are well formed
/// and share no page.
pub open spec fn branch_wf(
    pages: Seq<Seq<u8>>,
    types: Seq<DBType>,
    keys: Seq<u32>,
    children: Seq<u32>,
    h: nat,
    lo: int,
    hi: int,
) -> bool {
    &&& keys.len() == children.len()
    &&& forall|r: int|
        0 <= r < keys.len() ==> #[trigger] child_wf(pages, types, keys, children, r, h, lo, hi)
    &&& forall|r1: int, r2: int|
        0 <= r1 < r2 < keys.len() ==> (#[trigger] child_pages(
            pages,
            types,
            keys,
            children,
            r1,
            h,
            lo,
            hi,
        )).disjoint(#[trigger] child_pages(pages, types, keys, children, r2, h, lo, hi))
}

/// Above the leaves, a subtree is its node and the branch under it.
pub proof fn lemma_subtree_is_branch(
    pages: Seq<Seq<u8>>,
    types: Seq<DBType>,
    id: int,
    height: nat,
    lo: int,
    hi: int,
)
    requires
        height > 0,
        node_at(pages, types, id, false, lo, hi) is Ok,
    ensures
        ({
            let v = node_at(pages, types, id, false, lo, hi)->Ok_0;
            let h = (height - 1) as nat;
            &&& subtree_pages(pages, types, id, height, lo, hi) == branch_pages(
                pages,
                types,
                v.keys(),
                v.children(),
                h,
                lo,
                hi,
            ).insert(id)
            &&& subtree_wf(pages, types, id, height, lo, hi) == (branch_wf(
                pages,
                types,
                v.keys(),
                v.children(),
                h,
                lo,
                hi,
            ) && !branch_pages(pages, types, v.keys(), v.children(), h, lo, hi).contains(id))
            &&& forall|k: u32|
                subtree_get(pages, types, id, height, lo, hi, k) == child_get(
                    pages,
                    types,
                    v.keys(),
                    v.children(),
                    route(v.keys(), k),
                    h,
                    lo,
                    hi,
                    k,
                )
        }),
{
    let v = node_at(pages, types, id, false, lo, hi)->Ok_0;
    let h = (height - 1) as nat;
    let keys = v.keys();
    let children = v.children();
    super::node::lemma_keys_len(v);
    let bp = branch_pages(pages, types, keys, children, h, lo, hi);
    let sp = subtree_pages(pages, types, id, height, lo, hi);
    assert forall|p: int| sp.contains(p) == bp.insert(id).contains(p) by {
        if sp.contains(p) && p != id {
            let r = choose|r: int|
                #[trigger] is_rank(r) && 0 <= r < keys.len() && subtree_pages(
                    pages,
                    types,
                    children[r] as int,
                    h,
                    low(keys, r, lo),
                    high(keys, r, hi),
                ).contains(p);
            assert(child_pages(pages, types, keys, children, r, h, lo, hi).contains(p));
        }
        if bp.contains(p) {
            let r = choose|r: int|
                0 <= r < keys.len() && (#[trigger] child_pages(
                    pages,
                    types,
                    keys,
                    children,
                    r,
                    h,
                    lo,
                    hi,
                )).contains(p);
            assert(is_rank(r));
        }
    }
    assert(sp =~= bp.insert(id));
    if subtree_wf(pages, types, id, height, lo, hi) {
        assert forall|r: int| 0 <= r < keys.len() implies #[trigger] child_wf(
            pages,
            types,
            keys,
            children,
            r,
            h,
            lo,
            hi,
        ) by {
            assert(is_rank(r));
        }
        assert forall|r1: int, r2: int| 0 <= r1 < r2 < keys.len() implies (#[trigger] child_pages(
            pages,
            types,
            keys,
            children,
            r1,
            h,
            lo,
            hi,
        )).disjoint(#[trigger] child_pages(pages, types, keys, children, r2, h, lo, hi)) by {
            assert(is_rank(r1) && is_rank(r2));
        }
        if bp.contains(id) {
            let r = choose|r: int|
                0 <= r < keys.len() && (#[trigger] child_pages(
                    pages,
                    types,
                    keys,
                    children,
                    r,
                    h,
                    lo,
                    hi,
                )).contains(id);
            assert(is_rank(r));
        }
    }
    if branch_wf(pages, types, keys, children, h, lo, hi) && !bp.contains(id) {
        assert forall|r: int| #[trigger] is_rank(r) && 0 <= r < keys.len() implies subtree_wf(
            pages,
            types,
            children[r] as int,
            h,
            low(keys, r, lo),
            high(keys, r, hi),
        ) && !subtree_pages(
            pages,
            types,
            children[r] as int,
            h,
            low(keys, r, lo),
            high(keys, r, hi),
        ).contains(id) by {
            assert(child_wf(pages, types, keys, children, r, h, lo, hi));
            assert(!child_pages(pages, types, keys, children, r, h, lo, hi).contains(id));
        }
        assert forall|r1: int, r2: int|
            #[trigger] is_rank(r1) && #[trigger] is_rank(r2) && 0 <= r1 < r2
                < keys.len() implies subtree_pages(
            pages,
            types,
            children[r1] as int,
            h,
            low(keys, r1, lo),
            high(keys, r1, hi),
        ).disjoint(
            subtree_pages(
                pages,
                types,
                children[r2] as int,
                h,
                low(keys, r2, lo),
                high(keys, r2, hi),
            ),
        ) by {
            assert(child_pages(pages, types, keys, children, r1, h, lo, hi).disjoint(
                child_pages(pages, types, keys, children, r2, h, lo, hi),
            ));
        }
    }
}

/// Whether `pages2` holds every page of `pages1` that is in `s` unchanged.
pub open spec fn agree_on(pages1: Seq<Seq<u8>>, pages2: Seq<Seq<u8>>, s: Set<int>) -> bool {
    &&& pages1.len() <= pages2.len()
    &&& forall|p: int| 0 <= p < pages1.len() && s.contains(p) ==> pages2[p] == pages1[p]
}

/// The pages of a well-formed subtree are node pages of the store.
pub proof fn lemma_pages_in_store(
    pages: Seq<Seq<u8>>,
    types: Seq<DBType>,
    id: int,
    height: nat,
    lo: int,
    hi: int,
)
    requires
        subtree_wf(pages, types, id, height, lo, hi),
    ensures
        forall|p: int|
            subtree_pages(pages, types, id, height, lo, hi).contains(p) ==> 1 <= p < pages.len(),
        subtree_pages(pages, types, id, height, lo, hi).contains(id),
    decreases height, 0int,
{
    if height > 0 {
        let v = node_at(pages, types, id, false, lo, hi)->Ok_0;
        lemma_subtree_is_branch(pages, types, id, height, lo, hi);
        lemma_branch_pages_in_store(
            pages,
            types,
            v.keys(),
            v.children(),
            (height - 1) as nat,
            lo,
            hi,
        );
    }
}

/// The pages under the children of a well-formed branch are node pages
/// of the store.
pub proof fn lemma_branch_pages_in_store(
    pages: Seq<Seq<u8>>,
    types: Seq<DBType>,
    keys: Seq<u32>,
    children: Seq<u32>,
    h: nat,
    lo: int,
    hi: int,
)
    requires
        branch_wf(pages, types, keys, children, h, lo, hi),
    ensures
        forall|p: int|
            branch_pages(pages, types, keys, children, h, lo, hi).contains(p) ==> 1 <= p
                < pages.len(),
    decreases h, 2int,
{
    assert forall|p: int|
        branch_pages(pages, types, keys, children, h, lo, hi).contains(p) implies 1 <= p
        < pages.len() by {
        let r = choose|r: int|
            0 <= r < keys.len() && (#[trigger] child_pages(
                pages,
                types,
                keys,
                children,
                r,
                h,
                lo,
                hi,
            )).contains(p);
        assert(child_wf(pages, types, keys, children, r, h, lo, hi));
        lemma_pages_in_store(
            pages,
            types,
            children[r] as int,
            h,
            low(keys, r, lo),
            high(keys, r, hi),
        );
    }
}

/// A well-formed subtree stays as it is where its pages stay as they are.
pub proof fn lemma_frame(
    pages1: Seq<Seq<u8>>,
    pages2: Seq<Seq<u8>>,
    types: Seq<DBType>,
    id: int,
    height: nat,
    lo: int,
    hi: int,
)
    requires
        subtree_wf(pages1, types, id, height, lo, hi),
        agree_on(pages1, pages2, subtree_pages(pages1, types, id, height, lo, hi)),
    ensures
        subtree_wf(pages2, types, id, height, lo, hi),
        subtree_pages(pages2, types, id, height, lo, hi) == subtree_pages(
            pages1,
            types,
            id,
            height,
            lo,
            hi,
        ),
        forall|k: u32|
            subtree_get(pages2, types, id, height, lo, hi, k) == subtree_get(
                pages1,
                types,
                id,
                height,
                lo,
                hi,
                k,
            ),
    decreases height, 0int,
{
    lemma_pages_in_store(pages1, types, id, height, lo, hi);
    let v = node_at(pages1, types, id, height == 0, lo, hi)->Ok_0;
    assert(pages2[id] == pages1[id]);
    assert(node_at(pages2, types, id, height == 0, lo, hi) == node_at(
        pages1,
        types,
        id,
        height == 0,
        lo,
        hi,
    ));
    if height > 0 {
        let h = (height - 1) as nat;
        lemma_subtree_is_branch(pages1, types, id, height, lo, hi);
        lemma_subtree_is_branch(pages2, types, id, height, lo, hi);
        assert(agree_on(pages1, pages2, branch_pages(pages1, types, v.keys(), v.children(), h, lo, hi)));
        lemma_frame_branch(pages1, pages2, types, v.keys(), v.children(), h, lo, hi);
        assert forall|k: u32|
            subtree_get(pages2, types, id, height, lo, hi, k) == subtree_get(
                pages1,
                types,
                id,
                height,
                lo,
                hi,
                k,
            ) by {
            if 0 <= route(v.keys(), k) < v.keys().len() {
                let r = route(v.keys(), k);
                assert(child_get(pages2, types, v.keys(), v.children(), r, h, lo, hi, k) == child_get(
                    pages1,
                    types,
                    v.keys(),
                    v.children(),
                    r,
                    h,
                    lo,
                    hi,
                    k,
                ));
            } else {
                lemma_route_bounds(v.keys(), k);
            }
        }
    }
}

/// A key is sent to a rank of the node, where the node has a key.
pub proof fn lemma_route_bounds(keys: Seq<u32>, key: u32)
    requires
        keys.len() > 0,
    ensures
        0 <= route(keys, key) < keys.len(),
{
    lemma_lower_bound_bounds(keys, key);
}

/// The lower bound of a key is a rank of the node or the rank behind the last.
pub proof fn lemma_lower_bound_bounds(keys: Seq<u32>, key: u32)
    ensures
        0 <= super::tree::lower_bound(keys, key) <= keys.len(),
    decreases keys.len(),
{
    if keys.len() > 0 && !(keys.last() < key) {
        lemma_lower_bound_bounds(keys.drop_last(), key);
    }
}

/// A well-formed branch stays as it is where its pages stay as they are.
pub proof fn lemma_frame_branch(
    pages1: Seq<Seq<u8>>,
    pages2: Seq<Seq<u8>>,
    types: Seq<DBType>,
    keys: Seq<u32>,
    children: Seq<u32>,
    h: nat,
    lo: int,
    hi: int,
)
    requires
        branch_wf(pages1, types, keys, children, h, lo, hi),
        agree_on(pages1, pages2, branch_pages(pages1, types, keys, children, h, lo, hi)),
    ensures
        branch_wf(pages2, types, keys, children, h, lo, hi),
        branch_pages(pages2, types, keys, children, h, lo, hi) == branch_pages(
            pages1,
            types,
            keys,
            children,
            h,
            lo,
            hi,
        ),
        forall|r: int|
            0 <= r < keys.len() ==> #[trigger] child_pages(pages2, types, keys, children, r, h, lo, hi)
                == child_pages(pages1, types, keys, children, r, h, lo, hi),
        forall|r: int, k: u32|
            0 <= r < keys.len() ==> #[trigger] child_get(
                pages2,
                types,
                keys,
                children,
                r,
                h,
                lo,
                hi,
                k,
            ) == child_get(pages1, types, keys, children, r, h, lo, hi, k),
    decreases h, 2int,
{
    let bp1 = branch_pages(pages1, types, keys, children, h, lo, hi);
    let bp2 = branch_pages(pages2, types, keys, children, h, lo, hi);
    assert forall|r: int| 0 <= r < keys.len() implies child_wf(
        pages2,
        types,
        keys,
        children,
        r,
        h,
        lo,
        hi,
    ) && #[trigger] child_pages(pages2, types, keys, children, r, h, lo, hi) == child_pages(
        pages1,
        types,
        keys,
        children,
        r,
        h,
        lo,
        hi,
    ) by {
        lemma_frame_child(pages1, pages2, types, keys, children, r, h, lo, hi);
    }
    assert forall|r: int| 0 <= r < keys.len() implies #[trigger] child_wf(
        pages2,
        types,
        keys,
        children,
        r,
        h,
        lo,
        hi,
    ) by {
        lemma_frame_child(pages1, pages2, types, keys, children, r, h, lo, hi);
    }
    assert forall|r: int, k: u32| 0 <= r < keys.len() implies #[trigger] child_get(
        pages2,
        types,
        keys,
        children,
        r,
        h,
        lo,
        hi,
        k,
    ) == child_get(pages1, types, keys, children, r, h, lo, hi, k) by {
        lemma_frame_child(pages1, pages2, types, keys, children, r, h, lo, hi);
    }
    assert forall|p: int| bp2.contains(p) == bp1.contains(p) by {
        if bp2.contains(p) {
            let r = choose|r: int|
                0 <= r < keys.len() && (#[trigger] child_pages(
                    pages2,
                    types,
                    keys,
                    children,
                    r,
                    h,
                    lo,
                    hi,
                )).contains(p);
            assert(child_pages(pages1, types, keys, children, r, h, lo, hi).contains(p));
        }
        if bp1.contains(p) {
            let r = choose|r: int|
                0 <= r < keys.len() && (#[trigger] child_pages(
                    pages1,
                    types,
                    keys,
                    children,
                    r,
                    h,
                    lo,
                    hi,
                )).contains(p);
            lemma_frame_child(pages1, pages2, types, keys, children, r, h, lo, hi);
            assert(child_pages(pages2, types, keys, children, r, h, lo, hi).contains(p));
        }
    }
    assert(bp2 =~= bp1);
    assert forall|r1: int, r2: int| 0 <= r1 < r2 < keys.len() implies (#[trigger] child_pages(
        pages2,
        types,
        keys,
        children,
        r1,
        h,
        lo,
        hi,
    )).disjoint(#[trigger] child_pages(pages2, types, keys, children, r2, h, lo, hi)) by {
        assert(child_pages(pages1, types, keys, children, r1, h, lo, hi).disjoint(
            child_pages(pages1, types, keys, children, r2, h, lo, hi),
        ));
    }
}

/// The subtree under one child of a well-formed branch stays as it is
/// where the pages of the branch stay as they are.
pub proof fn lemma_frame_child(
    pages1: Seq<Seq<u8>>,
    pages2: Seq<Seq<u8>>,
    types: Seq<DBType>,
    keys: Seq<u32>,
    children: Seq<u32>,
    r: int,
    h: nat,
    lo: int,
    hi: int,
)
    requires
        branch_wf(pages1, types, keys, children, h, lo, hi),
        agree_on(pages1, pages2, branch_pages(pages1, types, keys, children, h, lo, hi)),
        0 <= r < keys.len(),
    ensures
        child_wf(pages2, types, keys, children, r, h, lo, hi),
        child_pages(pages2, types, keys, children, r, h, lo, hi) == child_pages(
            pages1,
            types,
            keys,
            children,
            r,
            h,
            lo,
            hi,
        ),
        forall|k: u32|
            child_get(pages2, types, keys, children, r, h, lo, hi, k) == child_get(
                pages1,
                types,
                keys,
                children,
                r,
                h,
                lo,
                hi,
                k,
            ),
    decreases h, 1int,
{
    assert(child_wf(pages1, types, keys, children, r, h, lo, hi));
    let cp = child_pages(pages1, types, keys, children, r, h, lo, hi);
    assert forall|p: int| cp.contains(p) implies branch_pages(
        pages1,
        types,
        keys,
        children,
        h,
        lo,
        hi,
    ).contains(p) by {}
    lemma_frame(pages1, pages2, types, children[r] as int, h, low(keys, r, lo), high(keys, r, hi));
}

} // verus!
