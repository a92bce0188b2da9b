//! What holds of every well-formed tree: the keys of its leaves ascend
//! from leaf to leaf, no node holds more cells than it has slots, and
//! every leaf stands at the same depth.

use vstd::prelude::*;
use crate::db::DBType;
use crate::db::ValueView;
use super::codec::decode_page;
use super::node::NodeView;
use super::node::ascending;
use super::node::lemma_keys_ascending;
use super::node::lemma_keys_len;
use super::shape::branch_wf;
use super::shape::child_get;
use super::shape::child_wf;
use super::shape::lemma_subtree_is_branch;
use super::shape::subtree_wf;
use super::tree::high;
use super::tree::keys_in_range;
use super::tree::lemma_lower_bound_splits;
use super::tree::lemma_route_in_range;
use super::tree::lemma_route_unique;
use super::tree::low;
use super::tree::lower_bound;
use super::tree::node_at;
use super::tree::route;
use super::tree::rows_get;
use super::tree::subtree_get;

verus! {

/// The keys of the leaves under page `id`, leaf after leaf from the
/// lowest rank to the highest.
pub open spec fn subtree_keys(
    pages: Seq<Seq<u8>>,
    types: Seq<DBType>,
    id: int,
    height: nat,
    lo: int,
    hi: int,
) -> Seq<u32>
    decreases height, 0nat, 0nat,
{
    match node_at(pages, types, id, height == 0, lo, hi) {
        Ok(v) => if height == 0 {
            v.keys()
        } else {
            branch_keys(
                pages,
                types,
                v.keys(),
                v.children(),
                (height - 1) as nat,
                lo,
                hi,
                v.keys().len(),
            )
        },
        Err(_) => Seq::empty(),
    }
}

/// The keys of the leaves under the first `upto` children of a node.
pub open spec fn branch_keys(
    pages: Seq<Seq<u8>>,
    types: Seq<DBType>,
    keys: Seq<u32>,
    children: Seq<u32>,
    h: nat,
    lo: int,
    hi: int,
    upto: nat,
) -> Seq<u32>
    decreases h, 1nat, upto,
{
    if upto == 0 {
        Seq::empty()
    } else {
        branch_keys(pages, types, keys, children, h, lo, hi, (upto - 1) as nat) + subtree_keys(
            pages,
            types,
            children[upto - 1] as int,
            h,
            low(keys, upto - 1, lo),
            high(keys, upto - 1, hi),
        )
    }
}

/// The keys of the leaves of a well-formed subtree, read leaf after
/// leaf, ascend strictly and lie in the range of the subtree: no key
/// stands twice, and none stands out of order.
pub proof fn lemma_keys_in_order(
    pages: Seq<Seq<u8>>,
    types: Seq<DBType>,
    id: int,
    height: nat,
    lo: int,
    hi: int,
)
    requires
        subtree_wf(pages, types, id, height, lo, hi),
    ensures
        ascending(subtree_keys(pages, types, id, height, lo, hi)),
        forall|i: int|
            0 <= i < subtree_keys(pages, types, id, height, lo, hi).len() ==> lo
                <= #[trigger] subtree_keys(pages, types, id, height, lo, hi)[i] < hi,
    decreases height, 0nat, 0nat,
{
    let v = node_at(pages, types, id, height == 0, lo, hi)->Ok_0;
    lemma_keys_ascending(v);
    if height > 0 {
        lemma_subtree_is_branch(pages, types, id, height, lo, hi);
        lemma_keys_len(v);
        lemma_branch_keys_in_order(
            pages,
            types,
            v.keys(),
            v.children(),
            (height - 1) as nat,
            lo,
            hi,
            v.keys().len(),
        );
        let n = v.keys().len() as int;
        assert(high(v.keys(), n - 1, hi) == hi);
    }
}

/// The keys of the leaves under the first `upto` children of a
/// well-formed branch ascend strictly, and lie between the lower end of
/// the range and the upper end of the range of the last of these children.
pub proof fn lemma_branch_keys_in_order(
    pages: Seq<Seq<u8>>,
    types: Seq<DBType>,
    keys: Seq<u32>,
    children: Seq<u32>,
    h: nat,
    lo: int,
    hi: int,
    upto: nat,
)
    requires
        ascending(keys),
        keys_in_range(keys, false, lo, hi),
        branch_wf(pages, types, keys, children, h, lo, hi),
        upto <= keys.len(),
    ensures
        ascending(branch_keys(pages, types, keys, children, h, lo, hi, upto)),
        forall|i: int|
            0 <= i < branch_keys(pages, types, keys, children, h, lo, hi, upto).len() ==> lo
                <= #[trigger] branch_keys(pages, types, keys, children, h, lo, hi, upto)[i] < high(
                keys,
                upto - 1,
                hi,
            ),
    decreases h, 1nat, upto,
{
    if upto > 0 {
        let r = upto - 1;
        let front = branch_keys(pages, types, keys, children, h, lo, hi, r as nat);
        let last = subtree_keys(pages, types, children[r] as int, h, low(keys, r, lo), high(keys, r, hi));
        lemma_branch_keys_in_order(pages, types, keys, children, h, lo, hi, r as nat);
        assert(child_wf(pages, types, keys, children, r, h, lo, hi));
        lemma_keys_in_order(pages, types, children[r] as int, h, low(keys, r, lo), high(keys, r, hi));
        let all = front + last;
        if r > 0 {
            assert(high(keys, r - 1, hi) == low(keys, r, lo));
            assert(lo < keys[r]);
        }
        assert forall|i: int, j: int| 0 <= i < j < all.len() implies all[i] < all[j] by {
            if j < front.len() {
                assert(front[i] < front[j]);
            } else if i >= front.len() {
                assert(last[i - front.len()] < last[j - front.len()]);
            } else {
                assert(lo <= front[i] < high(keys, r - 1, hi));
                assert(low(keys, r, lo) <= last[j - front.len()]);
            }
        }
        assert forall|i: int| 0 <= i < all.len() implies lo <= #[trigger] all[i] < high(
            keys,
            r,
            hi,
        ) by {
            if i < front.len() {
                assert(lo <= front[i] < high(keys, r - 1, hi));
                if r + 1 < keys.len() {
                    assert(keys[r] < keys[r + 1]);
                }
            } else {
                assert(low(keys, r, lo) <= last[i - front.len()] < high(keys, r, hi));
            }
        }
    }
}

/// A key stands among ascending keys where its lower bound is the rank
/// of a key that equals it, and only there.
pub proof fn lemma_rows_get_contains(keys: Seq<u32>, rows: Seq<Seq<ValueView>>, k: u32)
    requires
        ascending(keys),
    ensures
        keys.contains(k) <==> rows_get(keys, rows, k) is Some,
{
    lemma_lower_bound_splits(keys, k);
    let l = lower_bound(keys, k);
    if keys.contains(k) {
        let i = choose|i: int| 0 <= i < keys.len() && keys[i] == k;
        if i < l {
            assert(keys[i] < k);
        }
        if l < i {
            assert(keys[l] < keys[i]);
        }
    }
}

/// The keys of the leaves of a well-formed subtree are the keys under
/// which a descent finds a row: each key of the range stands among
/// them where it is found, and only there.
pub proof fn lemma_keys_are_found(
    pages: Seq<Seq<u8>>,
    types: Seq<DBType>,
    id: int,
    height: nat,
    lo: int,
    hi: int,
    k: u32,
)
    requires
        subtree_wf(pages, types, id, height, lo, hi),
        lo <= k < hi,
    ensures
        subtree_keys(pages, types, id, height, lo, hi).contains(k) <==> (subtree_get(
            pages,
            types,
            id,
            height,
            lo,
            hi,
            k,
        ) is Ok && subtree_get(pages, types, id, height, lo, hi, k)->Ok_0 is Some),
    decreases height, 0nat, 0nat,
{
    let v = node_at(pages, types, id, height == 0, lo, hi)->Ok_0;
    lemma_keys_ascending(v);
    if height == 0 {
        lemma_rows_get_contains(v.keys(), v.rows(), k);
    } else {
        lemma_subtree_is_branch(pages, types, id, height, lo, hi);
        lemma_keys_len(v);
        lemma_route_in_range(v.keys(), k, lo, hi);
        lemma_branch_keys_are_found(
            pages,
            types,
            v.keys(),
            v.children(),
            (height - 1) as nat,
            lo,
            hi,
            v.keys().len(),
            k,
        );
    }
}

/// The keys of the leaves under the first `upto` children of a
/// well-formed branch hold a key of the range where the child that the
/// key is sent to is one of these children and a descent under it finds
/// a row, and only there.
pub proof fn lemma_branch_keys_are_found(
    pages: Seq<Seq<u8>>,
    types: Seq<DBType>,
    keys: Seq<u32>,
    children: Seq<u32>,
    h: nat,
    lo: int,
    hi: int,
    upto: nat,
    k: u32,
)
    requires
        ascending(keys),
        keys_in_range(keys, false, lo, hi),
        branch_wf(pages, types, keys, children, h, lo, hi),
        upto <= keys.len(),
        lo <= k < hi,
    ensures
        branch_keys(pages, types, keys, children, h, lo, hi, upto).contains(k) <==> (route(keys, k)
            < upto && child_get(pages, types, keys, children, route(keys, k), h, lo, hi, k) is Ok
            && child_get(pages, types, keys, children, route(keys, k), h, lo, hi, k)->Ok_0
            is Some),
    decreases h, 1nat, upto,
{
    lemma_route_in_range(keys, k, lo, hi);
    let r = route(keys, k);
    if upto > 0 {
        let j = upto - 1;
        let front = branch_keys(pages, types, keys, children, h, lo, hi, j as nat);
        let last = subtree_keys(pages, types, children[j] as int, h, low(keys, j, lo), high(keys, j, hi));
        let all = front + last;
        lemma_branch_keys_are_found(pages, types, keys, children, h, lo, hi, j as nat, k);
        assert(child_wf(pages, types, keys, children, j, h, lo, hi));
        lemma_keys_in_order(pages, types, children[j] as int, h, low(keys, j, lo), high(keys, j, hi));
        if low(keys, j, lo) <= k < high(keys, j, hi) {
            lemma_route_unique(keys, k, lo, hi, j);
            lemma_keys_are_found(pages, types, children[j] as int, h, low(keys, j, lo), high(keys, j, hi), k);
        }
        if all.contains(k) {
            let i = choose|i: int| 0 <= i < all.len() && all[i] == k;
            if i < front.len() {
                assert(front[i] == k);
                assert(front.contains(k));
            } else {
                assert(last[i - front.len()] == k);
                assert(last.contains(k));
            }
        }
        if front.contains(k) {
            let i = choose|i: int| 0 <= i < front.len() && front[i] == k;
            assert(all[i] == k);
        }
        if last.contains(k) {
            let i = choose|i: int| 0 <= i < last.len() && last[i] == k;
            assert(all[front.len() + i] == k);
        }
    } else {
        assert(!Seq::<u32>::empty().contains(k));
    }
}

/// No node holds more cells than its kind has slots: an internal node
/// at most 256, a leaf at most 64.
pub proof fn lemma_fanout(v: NodeView)
    ensures
        v is Internal ==> 0 <= v.len() <= 256,
        v is Leaf ==> 0 <= v.len() <= 64,
{
    lemma_keys_len(v);
}

/// Number of internal nodes that a descent for `key` passes from page
/// `id` on before it meets a leaf, where it meets one within `bound` steps.
pub open spec fn leaf_depth(
    pages: Seq<Seq<u8>>,
    types: Seq<DBType>,
    id: int,
    key: u32,
    bound: nat,
) -> Option<nat>
    decreases bound,
{
    if !(0 <= id < pages.len()) {
        None
    } else {
        match decode_page(pages[id], types) {
            None => None,
            Some(v) => if v is Leaf {
                Some(0)
            } else if bound == 0 || v.keys().len() == 0 {
                None
            } else {
                match leaf_depth(
                    pages,
                    types,
                    v.children()[route(v.keys(), key)] as int,
                    key,
                    (bound - 1) as nat,
                ) {
                    Some(d) => Some(d + 1),
                    None => None,
                }
            },
        }
    }
}

/// In a well-formed subtree every leaf stands at the same depth: the
/// descent for any key of the range passes as many internal nodes as
/// the subtree is high.
pub proof fn lemma_leaves_level(
    pages: Seq<Seq<u8>>,
    types: Seq<DBType>,
    id: int,
    height: nat,
    lo: int,
    hi: int,
    key: u32,
    bound: nat,
)
    requires
        subtree_wf(pages, types, id, height, lo, hi),
        lo <= key < hi,
        bound >= height,
    ensures
        leaf_depth(pages, types, id, key, bound) == Some(height),
    decreases height,
{
    let v = node_at(pages, types, id, height == 0, lo, hi)->Ok_0;
    if height > 0 {
        lemma_subtree_is_branch(pages, types, id, height, lo, hi);
        lemma_keys_ascending(v);
        lemma_keys_len(v);
        lemma_route_in_range(v.keys(), key, lo, hi);
        let r = route(v.keys(), key);
        assert(child_wf(pages, types, v.keys(), v.children(), r, (height - 1) as nat, lo, hi));
        lemma_leaves_level(
            pages,
            types,
            v.children()[r] as int,
            (height - 1) as nat,
            low(v.keys(), r, lo),
            high(v.keys(), r, hi),
            key,
            (bound - 1) as nat,
        );
    }
}

} // verus!
