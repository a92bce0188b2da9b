//! Insertion: a new cell goes into the leaf that answers for its key; a
//! full node is split in two, and the key that parts the halves goes up
//! to the parent.

use vstd::prelude::*;
use crate::db::DBType;
use crate::db::Row;
use crate::db::Schema;
use crate::db::ValueView;
use crate::db::types_of;
use super::branch::branch_stored;
use super::branch::lemma_internal_grown;
use super::branch::lemma_internal_same;
use super::branch::lemma_internal_split;
use super::branch::split_point;
use super::codec::cell_fits;
use super::codec::decode_page;
use super::codec::encode_page;
use super::codec::lemma_decode_encode;
use super::codec::storable;
use super::node::BTreeNode;
use super::node::CellView;
use super::node::KeyCell;
use super::node::NodeView;
use super::node::ascending;
use super::node::lemma_keys_ascending;
use super::node::lemma_keys_len;
use super::page::BTreeError;
use super::page::PageStore;
use super::shape::child_wf;
use super::shape::lemma_subtree_is_branch;
use super::shape::subtree_pages;
use super::shape::subtree_wf;
use super::tree::KEY_LIMIT;
use super::tree::keys_in_range;
use super::tree::leaf_get;
use super::tree::lemma_lower_bound;
use super::tree::lemma_lower_bound_splits;
use super::tree::lemma_route_in_range;
use super::tree::load;
use super::tree::lower_bound;
use super::tree::node_at;
use super::tree::node_ok;
use super::tree::route_of;
use super::tree::rows_get;
use super::tree::subtree_get;
use super::tree::high;
use super::tree::low;
use super::tree::route;

verus! {

/// What a descent for `k` finds once `key` has been given `row`.
pub open spec fn updated(
    before: Result<Option<Seq<ValueView>>, BTreeError>,
    k: u32,
    key: u32,
    row: Seq<ValueView>,
) -> Result<Option<Seq<ValueView>>, BTreeError> {
    if k == key {
        Ok(Some(row))
    } else {
        before
    }
}

/// Whether every page of `after` is a page of `before` or one of the
/// pages `from..to`.
pub open spec fn grown(after: Set<int>, before: Set<int>, from: int, to: int) -> bool {
    forall|p: int| after.contains(p) ==> before.contains(p) || from <= p < to
}

/// What an insertion of `key` with `row` under page `id` has done to the
/// pages, where it found the subtree well formed. Pages outside the
/// subtree are as they were. Without a split the subtree is well formed
/// again and holds `row` under `key` and all else as before. With a split
/// the same holds of two subtrees, that under `id` for the keys below the
/// key of `split` and that under the page of `split` for the others.
#[verifier::opaque]
pub open spec fn subtree_inserted(
    pages0: Seq<Seq<u8>>,
    pages1: Seq<Seq<u8>>,
    types: Seq<DBType>,
    id: int,
    height: nat,
    lo: int,
    hi: int,
    key: u32,
    row: Seq<ValueView>,
    split: Option<KeyCell>,
) -> bool {
    &&& pages0.len() <= pages1.len()
    &&& forall|p: int|
        0 <= p < pages0.len() && !subtree_pages(pages0, types, id, height, lo, hi).contains(p)
            ==> #[trigger] pages1[p] == pages0[p]
    &&& match split {
        None => {
            &&& subtree_wf(pages1, types, id, height, lo, hi)
            &&& grown(
                subtree_pages(pages1, types, id, height, lo, hi),
                subtree_pages(pages0, types, id, height, lo, hi),
                pages0.len() as int,
                pages1.len() as int,
            )
            &&& forall|k: u32|
                lo <= k < hi ==> #[trigger] subtree_get(pages1, types, id, height, lo, hi, k)
                    == updated(subtree_get(pages0, types, id, height, lo, hi, k), k, key, row)
        },
        Some(cell) => {
            &&& lo < cell.key < hi
            &&& pages0.len() <= cell.page_id < pages1.len()
            &&& subtree_wf(pages1, types, id, height, lo, cell.key as int)
            &&& subtree_wf(pages1, types, cell.page_id as int, height, cell.key as int, hi)
            &&& grown(
                subtree_pages(pages1, types, id, height, lo, cell.key as int),
                subtree_pages(pages0, types, id, height, lo, hi),
                pages0.len() as int,
                pages1.len() as int,
            )
            &&& grown(
                subtree_pages(pages1, types, cell.page_id as int, height, cell.key as int, hi),
                subtree_pages(pages0, types, id, height, lo, hi),
                pages0.len() as int,
                pages1.len() as int,
            )
            &&& subtree_pages(pages1, types, id, height, lo, cell.key as int).disjoint(
                subtree_pages(pages1, types, cell.page_id as int, height, cell.key as int, hi),
            )
            &&& forall|k: u32|
                lo <= k < cell.key ==> #[trigger] subtree_get(
                    pages1,
                    types,
                    id,
                    height,
                    lo,
                    cell.key as int,
                    k,
                ) == updated(subtree_get(pages0, types, id, height, lo, hi, k), k, key, row)
            &&& forall|k: u32|
                cell.key <= k < hi ==> #[trigger] subtree_get(
                    pages1,
                    types,
                    cell.page_id as int,
                    height,
                    cell.key as int,
                    hi,
                    k,
                ) == updated(subtree_get(pages0, types, id, height, lo, hi, k), k, key, row)
        },
    }
}

/// Whether an insertion of `key` under page `id` splits the node of that
/// page: a leaf is split where it is full and does not hold the key; an
/// internal node is split where it is full and the child that the key is
/// sent to is split.
pub open spec fn splits(
    pages: Seq<Seq<u8>>,
    types: Seq<DBType>,
    id: int,
    height: nat,
    lo: int,
    hi: int,
    key: u32,
) -> bool
    decreases height,
{
    match node_at(pages, types, id, height == 0, lo, hi) {
        Err(_) => false,
        Ok(v) => if height == 0 {
            v.len() == 64 && leaf_get(v, key) is None
        } else {
            let r = route(v.keys(), key);
            v.len() == 256 && splits(
                pages,
                types,
                v.children()[r] as int,
                (height - 1) as nat,
                low(v.keys(), r, lo),
                high(v.keys(), r, hi),
                key,
            )
        },
    }
}

/// Number of nodes that an insertion of `key` under page `id` splits:
/// the number of pages that it adds below the root.
pub open spec fn split_count(
    pages: Seq<Seq<u8>>,
    types: Seq<DBType>,
    id: int,
    height: nat,
    lo: int,
    hi: int,
    key: u32,
) -> nat
    decreases height,
{
    match node_at(pages, types, id, height == 0, lo, hi) {
        Err(_) => 0,
        Ok(v) => if height == 0 {
            if splits(pages, types, id, height, lo, hi, key) {
                1
            } else {
                0
            }
        } else {
            let r = route(v.keys(), key);
            split_count(
                pages,
                types,
                v.children()[r] as int,
                (height - 1) as nat,
                low(v.keys(), r, lo),
                high(v.keys(), r, hi),
                key,
            ) + if splits(pages, types, id, height, lo, hi, key) {
                1nat
            } else {
                0nat
            }
        },
    }
}

/// Ascending keys stay ascending where a key is put in at its lower bound.
pub proof fn lemma_insert_ascending(keys: Seq<u32>, l: int, key: u32)
    requires
        ascending(keys),
        0 <= l <= keys.len(),
        l > 0 ==> keys[l - 1] < key,
        l < keys.len() ==> key < keys[l],
    ensures
        ascending(keys.insert(l, key)),
{
    let k2 = keys.insert(l, key);
    assert forall|i: int, j: int| 0 <= i < j < k2.len() implies k2[i] < k2[j] by {
        if i < l && j > l {
            assert(keys[i] < keys[j - 1]);
        } else if i < l && j == l {
            if i < l - 1 {
                assert(keys[i] < keys[l - 1]);
            }
        } else if i == l {
            if j - 1 > l {
                assert(keys[l] < keys[j - 1]);
            }
        } else if i > l {
            assert(keys[i - 1] < keys[j - 1]);
        } else {
            assert(keys[i] < keys[j]);
        }
    }
}

/// After a row is put in under a new key, that key finds the row and
/// every other key finds what it found before.
pub proof fn lemma_rows_get_insert(
    keys: Seq<u32>,
    rows: Seq<Seq<ValueView>>,
    l: int,
    key: u32,
    row: Seq<ValueView>,
    k: u32,
)
    requires
        ascending(keys),
        keys.len() == rows.len(),
        0 <= l <= keys.len(),
        l > 0 ==> keys[l - 1] < key,
        l < keys.len() ==> key < keys[l],
    ensures
        rows_get(keys.insert(l, key), rows.insert(l, row), k) == if k == key {
            Some(row)
        } else {
            rows_get(keys, rows, k)
        },
{
    let k2 = keys.insert(l, key);
    let r2 = rows.insert(l, row);
    lemma_insert_ascending(keys, l, key);
    lemma_lower_bound_splits(keys, k);
    lemma_lower_bound_splits(k2, k);
    let a = lower_bound(keys, k);
    let b = lower_bound(k2, k);
    if k == key {
        assert(b == l) by {
            if b < l {
                assert(k2[b] == keys[b]);
                if b < l - 1 {
                    assert(keys[b] < keys[l - 1]);
                }
            }
            if b > l {
                assert(k2[l] < k);
            }
        }
    } else if k < key {
        assert(a <= l) by {
            if a > l {
                assert(keys[l] < k);
            }
        }
        assert(b == a) by {
            if b < a {
                assert(k2[b] == keys[b]);
            }
            if b > a {
                if a < l {
                    assert(k2[a] == keys[a]);
                } else {
                    assert(k2[a] == key);
                }
                assert(k2[a] < k);
            }
        }
        if a < l {
            assert(k2[a] == keys[a]);
            assert(r2[a] == rows[a]);
        }
    } else {
        assert(a >= l) by {
            if a < l {
                assert(keys[a] >= k);
                if a < l - 1 {
                    assert(keys[a] < keys[l - 1]);
                }
            }
        }
        assert(b == a + 1) by {
            if b <= a {
                if b < l {
                    assert(k2[b] == keys[b]);
                    assert(keys[b] < k);
                } else if b == l {
                    assert(k2[b] == key);
                } else {
                    assert(k2[b] == keys[b - 1]);
                    assert(keys[b - 1] < k);
                }
            }
            if b > a + 1 {
                assert(k2[a + 1] == keys[a]);
                assert(k2[a + 1] < k);
            }
        }
        if a < keys.len() {
            assert(k2[a + 1] == keys[a]);
            assert(r2[a + 1] == rows[a]);
        }
    }
}

/// After the row of a key is replaced, that key finds the new row and
/// every other key finds what it found before.
pub proof fn lemma_rows_get_update(
    keys: Seq<u32>,
    rows: Seq<Seq<ValueView>>,
    l: int,
    row: Seq<ValueView>,
    k: u32,
)
    requires
        ascending(keys),
        keys.len() == rows.len(),
        0 <= l < keys.len(),
    ensures
        rows_get(keys, rows.update(l, row), k) == if k == keys[l] {
            Some(row)
        } else {
            rows_get(keys, rows, k)
        },
{
    lemma_lower_bound_splits(keys, k);
    let a = lower_bound(keys, k);
    if k == keys[l] {
        assert(a == l) by {
            if a < l {
                assert(keys[a] < keys[l]);
            }
            if a > l {
                assert(keys[l] < k);
            }
        }
    }
}

/// The lower half of ascending keys answers for the keys below the
/// first key of the upper half, and the upper half for the others.
pub proof fn lemma_rows_get_split(
    keys: Seq<u32>,
    rows: Seq<Seq<ValueView>>,
    m: int,
    k: u32,
)
    requires
        ascending(keys),
        keys.len() == rows.len(),
        0 <= m < keys.len(),
    ensures
        ascending(keys.take(m)),
        ascending(keys.skip(m)),
        k < keys[m] ==> rows_get(keys.take(m), rows.take(m), k) == rows_get(keys, rows, k),
        k >= keys[m] ==> rows_get(keys.skip(m), rows.skip(m), k) == rows_get(keys, rows, k),
{
    let kl = keys.take(m);
    let kr = keys.skip(m);
    assert forall|i: int, j: int| 0 <= i < j < kl.len() implies kl[i] < kl[j] by {
        assert(keys[i] < keys[j]);
    }
    assert forall|i: int, j: int| 0 <= i < j < kr.len() implies kr[i] < kr[j] by {
        assert(keys[m + i] < keys[m + j]);
    }
    lemma_lower_bound_splits(keys, k);
    let a = lower_bound(keys, k);
    if k < keys[m] {
        assert(a <= m) by {
            if a > m {
                assert(keys[m] < k);
            }
        }
        assert forall|r: int| 0 <= r < a implies kl[r] < k by {
            assert(keys[r] < k);
        }
        assert forall|r: int| a <= r < kl.len() implies kl[r] >= k by {
            assert(keys[r] >= k);
        }
        lemma_lower_bound(kl, k, a);
        if a < m {
            assert(kl[a] == keys[a]);
            assert(rows.take(m)[a] == rows[a]);
        } else {
            assert(keys[m] != k);
        }
    } else {
        assert(a >= m) by {
            if a < m {
                assert(keys[a] >= k);
                assert(keys[a] < keys[m]);
            }
        }
        assert forall|r: int| 0 <= r < a - m implies kr[r] < k by {
            assert(keys[m + r] < k);
        }
        assert forall|r: int| a - m <= r < kr.len() implies kr[r] >= k by {
            assert(keys[m + r] >= k);
        }
        lemma_lower_bound(kr, k, a - m);
        if a < keys.len() {
            assert(kr[a - m] == keys[a]);
            assert(rows.skip(m)[a - m] == rows[a]);
        }
    }
}

/// What a leaf finds once `key` has been given `row`.
pub open spec fn leaf_updated(
    before: Option<Seq<ValueView>>,
    k: u32,
    key: u32,
    row: Seq<ValueView>,
) -> Option<Seq<ValueView>> {
    if k == key {
        Some(row)
    } else {
        before
    }
}

/// A leaf that was rewritten in place with one row more, or with one
/// row replaced, is the leaf after the insertion.
pub proof fn lemma_leaf_inserted(
    pages0: Seq<Seq<u8>>,
    pages1: Seq<Seq<u8>>,
    types: Seq<DBType>,
    id: int,
    lo: int,
    hi: int,
    w: NodeView,
    key: u32,
    row: Seq<ValueView>,
)
    requires
        node_at(pages0, types, id, true, lo, hi) is Ok,
        pages1 == pages0.update(id, pages1[id]),
        decode_page(pages1[id], types) == Some(w),
        node_ok(w, true, lo, hi),
        forall|k: u32| #[trigger]
            leaf_get(w, k) == leaf_updated(
                leaf_get(node_at(pages0, types, id, true, lo, hi)->Ok_0, k),
                k,
                key,
                row,
            ),
    ensures
        subtree_inserted(pages0, pages1, types, id, 0, lo, hi, key, row, None),
{
    reveal(subtree_inserted);
    assert(node_at(pages1, types, id, true, lo, hi) == Ok::<NodeView, BTreeError>(w));
    assert forall|k: u32| lo <= k < hi implies #[trigger] subtree_get(
        pages1,
        types,
        id,
        0,
        lo,
        hi,
        k,
    ) == updated(subtree_get(pages0, types, id, 0, lo, hi, k), k, key, row) by {
        assert(leaf_get(w, k) == leaf_updated(
            leaf_get(node_at(pages0, types, id, true, lo, hi)->Ok_0, k),
            k,
            key,
            row,
        ));
    }
}

/// A leaf that was split, with the new row in the half that answers
/// for its key, is the pair of leaves after the insertion.
pub proof fn lemma_leaf_split_inserted(
    pages0: Seq<Seq<u8>>,
    pages1: Seq<Seq<u8>>,
    types: Seq<DBType>,
    id: int,
    lo: int,
    hi: int,
    cell: KeyCell,
    wl: NodeView,
    wr: NodeView,
    key: u32,
    row: Seq<ValueView>,
)
    requires
        node_at(pages0, types, id, true, lo, hi) is Ok,
        pages1.len() == pages0.len() + 1,
        cell.page_id == pages0.len(),
        lo < cell.key < hi,
        forall|p: int| 0 <= p < pages0.len() && p != id ==> #[trigger] pages1[p] == pages0[p],
        decode_page(pages1[id], types) == Some(wl),
        decode_page(pages1[cell.page_id as int], types) == Some(wr),
        node_ok(wl, true, lo, cell.key as int),
        node_ok(wr, true, cell.key as int, hi),
        forall|k: u32|
            k < cell.key ==> #[trigger] leaf_get(wl, k) == leaf_updated(
                leaf_get(node_at(pages0, types, id, true, lo, hi)->Ok_0, k),
                k,
                key,
                row,
            ),
        forall|k: u32|
            k >= cell.key ==> #[trigger] leaf_get(wr, k) == leaf_updated(
                leaf_get(node_at(pages0, types, id, true, lo, hi)->Ok_0, k),
                k,
                key,
                row,
            ),
    ensures
        subtree_inserted(pages0, pages1, types, id, 0, lo, hi, key, row, Some(cell)),
{
    reveal(subtree_inserted);
    let np = cell.page_id as int;
    let sep = cell.key as int;
    assert(node_at(pages1, types, id, true, lo, sep) == Ok::<NodeView, BTreeError>(wl));
    assert(node_at(pages1, types, np, true, sep, hi) == Ok::<NodeView, BTreeError>(wr));
    assert forall|k: u32| lo <= k < cell.key implies #[trigger] subtree_get(
        pages1,
        types,
        id,
        0,
        lo,
        sep,
        k,
    ) == updated(subtree_get(pages0, types, id, 0, lo, hi, k), k, key, row) by {
        assert(leaf_get(wl, k) == leaf_updated(
            leaf_get(node_at(pages0, types, id, true, lo, hi)->Ok_0, k),
            k,
            key,
            row,
        ));
    }
    assert forall|k: u32| cell.key <= k < hi implies #[trigger] subtree_get(
        pages1,
        types,
        np,
        0,
        sep,
        hi,
        k,
    ) == updated(subtree_get(pages0, types, id, 0, lo, hi, k), k, key, row) by {
        assert(leaf_get(wr, k) == leaf_updated(
            leaf_get(node_at(pages0, types, id, true, lo, hi)->Ok_0, k),
            k,
            key,
            row,
        ));
    }
}

/// Writes `node` to page `id`.
pub(crate) fn store_node(store: &mut PageStore, schema: &Schema, id: u32, node: &BTreeNode)
    requires
        id < old(store)@.len(),
        storable(node@, schema.types()),
    ensures
        final(store)@ == old(store)@.update(id as int, encode_page(node@)),
        decode_page(final(store)@[id as int], schema.types()) == Some(node@),
{
    let page = node.write();
    proof {
        lemma_decode_encode(node@, schema.types());
    }
    let _ = store.write_page(id, &page);
}

/// Puts `row` under `key` into the leaf `node` of page `id`, splitting
/// the leaf where it is full, and writes what has changed.
pub(crate) fn insert_leaf(
    store: &mut PageStore,
    schema: &Schema,
    id: u32,
    node: BTreeNode,
    lo: u32,
    hi: u64,
    key: u32,
    row: Row,
) -> (r: Result<Option<KeyCell>, BTreeError>)
    requires
        node_at(old(store)@, schema.types(), id as int, true, lo as int, hi as int) == Ok::<
            NodeView,
            BTreeError,
        >(node@),
        storable(node@, schema.types()),
        lo <= key < hi <= KEY_LIMIT,
        types_of(row.deep_view()) == schema.types(),
        cell_fits(CellView { key, row: row.deep_view() }),
        old(store)@.len() <= u32::MAX,
    ensures
        r is Ok,
        r->Ok_0 is Some <==> node@.len() == 64 && leaf_get(node@, key) is None,
        final(store)@.len() == old(store)@.len() + if r->Ok_0 is Some {
            1int
        } else {
            0int
        },
        subtree_inserted(
            old(store)@,
            final(store)@,
            schema.types(),
            id as int,
            0,
            lo as int,
            hi as int,
            key,
            row.deep_view(),
            r->Ok_0,
        ),
{
    let mut node = node;
    let ghost v = node@;
    let ghost rv = row.deep_view();
    let ghost types = schema.types();
    let ghost pages0 = store@;
    let n: usize = node.len();
    let l: usize = node.search(key);
    proof {
        lemma_keys_ascending(v);
        lemma_keys_len(v);
        lemma_lower_bound(v.keys(), key, l as int);
    }
    if l < n && node.key_at(l) == key {
        node.replace_row(l, row);
        store_node(store, schema, id, &node);
        proof {
            let w = node@;
            assert forall|k: u32| #[trigger] leaf_get(w, k) == leaf_updated(leaf_get(v, k), k, key, rv) by {
                lemma_rows_get_update(v.keys(), v.rows(), l as int, rv, k);
            }
            lemma_leaf_inserted(pages0, store@, types, id as int, lo as int, hi as int, w, key, rv);
        }
        Ok(None)
    } else if n < 64 {
        node.insert_row(l, key, row);
        store_node(store, schema, id, &node);
        proof {
            let w = node@;
            assert forall|k: u32| #[trigger] leaf_get(w, k) == leaf_updated(leaf_get(v, k), k, key, rv) by {
                lemma_rows_get_insert(v.keys(), v.rows(), l as int, key, rv, k);
            }
            lemma_leaf_inserted(pages0, store@, types, id as int, lo as int, hi as int, w, key, rv);
        }
        Ok(None)
    } else {
        let (left, right) = split_leaf(node, l, key, row);
        let sep = right.key_at(0);
        let np = match store.allocate_page() {
            Ok(np) => np,
            Err(e) => {
                return Err(e);
            },
        };
        store_node(store, schema, np, &right);
        store_node(store, schema, id, &left);
        let cell = KeyCell { key: sep, page_id: np };
        proof {
            assert(v.keys()[63] < hi);
            assert(lo <= v.keys()[0]);
            assert(keys_in_range(left@.keys(), true, lo as int, sep as int));
            assert(keys_in_range(right@.keys(), true, sep as int, hi as int));
            lemma_leaf_split_inserted(
                pages0,
                store@,
                types,
                id as int,
                lo as int,
                hi as int,
                cell,
                left@,
                right@,
                key,
                rv,
            );
        }
        Ok(Some(cell))
    }
}

/// Parts the full leaf `node` in two halves and puts `row` under `key`
/// into the half that answers for the key. The first key of the upper
/// half parts the keys of the two.
pub(crate) fn split_leaf(node: BTreeNode, l: usize, key: u32, row: Row) -> (halves: (BTreeNode, BTreeNode))
    requires
        node@ is Leaf,
        node@.ordered(),
        node@.len() == 64,
        l == lower_bound(node@.keys(), key),
        !(l < 64 && node@.keys()[l as int] == key),
    ensures
        halves.0@ is Leaf,
        halves.1@ is Leaf,
        halves.0@.ordered(),
        halves.1@.ordered(),
        halves.1@.len() > 0,
        halves.1@.keys()[0] == node@.keys()[32],
        node@.keys()[0] < node@.keys()[32],
        forall|r: int|
            0 <= r < halves.0@.keys().len() ==> (#[trigger] halves.0@.keys()[r]) < node@.keys()[32]
                && (node@.keys()[0] <= halves.0@.keys()[r] || halves.0@.keys()[r] == key),
        forall|r: int|
            0 <= r < halves.1@.keys().len() ==> node@.keys()[32] <= #[trigger] halves.1@.keys()[r]
                && (halves.1@.keys()[r] <= node@.keys()[63] || halves.1@.keys()[r] == key),
        forall|k: u32|
            k < node@.keys()[32] ==> #[trigger] leaf_get(halves.0@, k) == leaf_updated(
                leaf_get(node@, k),
                k,
                key,
                row.deep_view(),
            ),
        forall|k: u32|
            k >= node@.keys()[32] ==> #[trigger] leaf_get(halves.1@, k) == leaf_updated(
                leaf_get(node@, k),
                k,
                key,
                row.deep_view(),
            ),
        forall|types: Seq<DBType>| #[trigger]
            storable(node@, types) && types_of(row.deep_view()) == types && cell_fits(
                CellView { key, row: row.deep_view() },
            ) ==> storable(halves.0@, types) && storable(halves.1@, types),
{
    let mut node = node;
    let ghost v = node@;
    let ghost rv = row.deep_view();
    proof {
        lemma_keys_ascending(v);
        lemma_keys_len(v);
        lemma_lower_bound_splits(v.keys(), key);
        assert(v.keys()[0] < v.keys()[32]);
    }
    let mut right = node.split();
    let ghost left0 = node@;
    let ghost right0 = right@;
    proof {
        lemma_keys_len(left0);
        lemma_keys_len(right0);
        lemma_keys_ascending(left0);
        lemma_keys_ascending(right0);
        assert(right0.keys()[0] == v.keys()[32]);
        assert forall|r: int| 0 <= r < 32 implies v.keys()[0] <= #[trigger] left0.keys()[r]
            < v.keys()[32] by {
            assert(left0.keys()[r] == v.keys()[r]);
            assert(v.keys()[r] < v.keys()[32]);
            if r > 0 {
                assert(v.keys()[0] < v.keys()[r]);
            }
        }
        assert forall|r: int| 0 <= r < 32 implies v.keys()[32] <= #[trigger] right0.keys()[r]
            <= v.keys()[63] by {
            assert(right0.keys()[r] == v.keys()[32 + r]);
            if r > 0 {
                assert(v.keys()[32] < v.keys()[32 + r]);
            }
            if r < 31 {
                assert(v.keys()[32 + r] < v.keys()[63]);
            }
        }
    }
    let sep = right.key_at(0);
    if key < sep {
        proof {
            if l > 32 {
                assert(v.keys()[32] < key);
            }
            if l > 0 {
                assert(left0.keys()[l - 1] == v.keys()[l - 1]);
            }
            if l < 32 {
                assert(left0.keys()[l as int] == v.keys()[l as int]);
            }
        }
        node.insert_row(l, key, row);
        proof {
            let wl = node@;
            lemma_keys_len(wl);
            assert forall|r: int| 0 <= r < wl.keys().len() implies (#[trigger] wl.keys()[r])
                < v.keys()[32] && (v.keys()[0] <= wl.keys()[r] || wl.keys()[r] == key) by {
                if r < l {
                    assert(wl.keys()[r] == left0.keys()[r]);
                } else if r > l {
                    assert(wl.keys()[r] == left0.keys()[r - 1]);
                }
            }
        }
    } else {
        proof {
            if l <= 32 {
                assert(v.keys()[32] >= key);
            }
            assert(right0.keys()[l - 33] == v.keys()[l - 1]);
            if l < 64 {
                assert(right0.keys()[l - 32] == v.keys()[l as int]);
            }
        }
        right.insert_row(l - 32, key, row);
        proof {
            let wr = right@;
            lemma_keys_len(wr);
            assert(wr.keys()[0] == right0.keys()[0]);
            assert forall|r: int| 0 <= r < wr.keys().len() implies v.keys()[32] <= #[trigger] wr.keys()[r]
                && (wr.keys()[r] <= v.keys()[63] || wr.keys()[r] == key) by {
                if r < l - 32 {
                    assert(wr.keys()[r] == right0.keys()[r]);
                } else if r > l - 32 {
                    assert(wr.keys()[r] == right0.keys()[r - 1]);
                }
            }
        }
    }
    proof {
        let wl = node@;
        let wr = right@;
        lemma_keys_len(wl);
        lemma_keys_len(wr);
        assert forall|k: u32| k < v.keys()[32] implies #[trigger] leaf_get(wl, k) == leaf_updated(
            leaf_get(v, k),
            k,
            key,
            rv,
        ) by {
            lemma_rows_get_split(v.keys(), v.rows(), 32, k);
            if key < sep {
                lemma_rows_get_insert(left0.keys(), left0.rows(), l as int, key, rv, k);
            }
        }
        assert forall|k: u32| k >= v.keys()[32] implies #[trigger] leaf_get(wr, k) == leaf_updated(
            leaf_get(v, k),
            k,
            key,
            rv,
        ) by {
            lemma_rows_get_split(v.keys(), v.rows(), 32, k);
            if key >= sep {
                lemma_rows_get_insert(right0.keys(), right0.rows(), l - 32, key, rv, k);
            }
        }
    }
    (node, right)
}

/// Puts `cell` into the internal node `node` of page `id`, behind the
/// cell of rank `r`, splitting the node where it is full, and writes
/// what has changed.
pub(crate) fn insert_branch(
    store: &mut PageStore,
    schema: &Schema,
    id: u32,
    node: BTreeNode,
    r: usize,
    cell: KeyCell,
) -> (res: Result<Option<KeyCell>, BTreeError>)
    requires
        node@ is Internal,
        node@.ordered(),
        r < node@.len(),
        node@.keys()[r as int] < cell.key,
        r + 1 < node@.len() ==> cell.key < node@.keys()[r + 1],
        id < old(store)@.len() <= u32::MAX,
    ensures
        res is Ok,
        res->Ok_0 is Some <==> node@.len() == 256,
        final(store)@.len() == old(store)@.len() + if res->Ok_0 is Some {
            1int
        } else {
            0int
        },
        branch_stored(
            old(store)@,
            final(store)@,
            schema.types(),
            id as int,
            node@.keys().insert(r + 1, cell.key),
            node@.children().insert(r + 1, cell.page_id),
            r as int,
            res->Ok_0,
        ),
{
    let mut node = node;
    let ghost v = node@;
    let ghost keys = v.keys();
    let ghost children = v.children();
    let ghost k2 = keys.insert(r + 1, cell.key);
    let ghost c2 = children.insert(r + 1, cell.page_id);
    let n: usize = node.len();
    proof {
        lemma_keys_len(v);
    }
    if n < 256 {
        node.insert_child(r + 1, cell);
        store_node(store, schema, id, &node);
        Ok(None)
    } else {
        let mut right = node.split();
        let ghost left0 = node@;
        let ghost right0 = right@;
        proof {
            lemma_keys_len(left0);
            lemma_keys_len(right0);
            assert(right0.keys()[0] == keys[128]);
        }
        let sep = right.key_at(0);
        if r + 1 <= 128 {
            proof {
                assert(left0.keys()[r as int] == keys[r as int]);
                if r + 1 < 128 {
                    assert(left0.keys()[r + 1] == keys[r + 1]);
                }
            }
            node.insert_child(r + 1, cell);
            proof {
                assert(node@.keys() =~= k2.take(129));
                assert(node@.children() =~= c2.take(129));
                assert(right@.keys() =~= k2.skip(129));
                assert(right@.children() =~= c2.skip(129));
            }
        } else {
            proof {
                assert(right0.keys()[r - 128] == keys[r as int]);
                if r + 1 < 256 {
                    assert(right0.keys()[r + 1 - 128] == keys[r + 1]);
                }
            }
            right.insert_child(r + 1 - 128, cell);
            proof {
                assert(node@.keys() =~= k2.take(128));
                assert(node@.children() =~= c2.take(128));
                assert(right@.keys() =~= k2.skip(128));
                assert(right@.children() =~= c2.skip(128));
            }
        }
        let np = match store.allocate_page() {
            Ok(np) => np,
            Err(e) => {
                return Err(e);
            },
        };
        store_node(store, schema, np, &right);
        store_node(store, schema, id, &node);
        Ok(Some(KeyCell { key: sep, page_id: np }))
    }
}

/// Puts `row` under `key` into the subtree under page `id`, which stands
/// `height` levels above the leaves and answers for the keys `lo..hi`.
/// Where the node of page `id` was split, the result names the new page
/// and the first key of the keys that it answers for.
pub(crate) fn insert_rec(
    store: &mut PageStore,
    schema: &Schema,
    id: u32,
    height: u32,
    lo: u32,
    hi: u64,
    key: u32,
    row: Row,
) -> (res: Result<Option<KeyCell>, BTreeError>)
    requires
        lo <= key < hi <= KEY_LIMIT,
        types_of(row.deep_view()) == schema.types(),
        cell_fits(CellView { key, row: row.deep_view() }),
        old(store)@.len() + height <= u32::MAX,
    ensures
        old(store)@.len() <= final(store)@.len() <= old(store)@.len() + height + 1,
        match subtree_get(
            old(store)@,
            schema.types(),
            id as int,
            height as nat,
            lo as int,
            hi as int,
            key,
        ) {
            Err(e) => res == Err::<Option<KeyCell>, BTreeError>(e) && final(store)@ == old(
                store,
            )@,
            Ok(_) => res is Ok,
        },
        res is Ok && res->Ok_0 is Some ==> lo < (res->Ok_0->0).key < hi,
        res is Ok ==> (res->Ok_0 is Some <==> splits(
            old(store)@,
            schema.types(),
            id as int,
            height as nat,
            lo as int,
            hi as int,
            key,
        )) && final(store)@.len() == old(store)@.len() + split_count(
            old(store)@,
            schema.types(),
            id as int,
            height as nat,
            lo as int,
            hi as int,
            key,
        ),
        res is Ok && subtree_wf(
            old(store)@,
            schema.types(),
            id as int,
            height as nat,
            lo as int,
            hi as int,
        ) ==> subtree_inserted(
            old(store)@,
            final(store)@,
            schema.types(),
            id as int,
            height as nat,
            lo as int,
            hi as int,
            key,
            row.deep_view(),
            res->Ok_0,
        ),
    decreases height,
{
    let ghost pages0 = store@;
    let ghost types = schema.types();
    let ghost rv = row.deep_view();
    let node = match load(store, schema, id, height == 0, lo, hi) {
        Ok(node) => node,
        Err(e) => {
            return Err(e);
        },
    };
    if height == 0 {
        let res = insert_leaf(store, schema, id, node, lo, hi, key, row);
        proof {
            reveal(subtree_inserted);
        }
        return res;
    }
    let ghost v = node@;
    let ghost keys = v.keys();
    let ghost children = v.children();
    let ghost h = (height - 1) as nat;
    let n: usize = node.len();
    let r: usize = route_of(&node, key);
    proof {
        lemma_keys_ascending(v);
        lemma_keys_len(v);
        lemma_route_in_range(keys, key, lo as int, hi as int);
    }
    let clo: u32 = if r > 0 {
        node.key_at(r)
    } else {
        lo
    };
    let chi: u64 = if r + 1 < n {
        node.key_at(r + 1) as u64
    } else {
        hi
    };
    let child = node.child_at(r);
    let ghost wf0 = subtree_wf(pages0, types, id as int, height as nat, lo as int, hi as int);
    proof {
        if wf0 {
            lemma_subtree_is_branch(pages0, types, id as int, height as nat, lo as int, hi as int);
            assert(child_wf(pages0, types, keys, children, r as int, h, lo as int, hi as int));
        }
    }
    match insert_rec(store, schema, child, height - 1, clo, chi, key, row) {
        Err(e) => Err(e),
        Ok(None) => {
            proof {
                if wf0 {
                    lemma_internal_same(
                        pages0,
                        store@,
                        types,
                        id as int,
                        h,
                        lo as int,
                        hi as int,
                        key,
                        rv,
                    );
                }
            }
            Ok(None)
        },
        Ok(Some(cell)) => {
            let ghost pages1 = store@;
            let ghost k2 = keys.insert(r + 1, cell.key);
            match insert_branch(store, schema, id, node, r, cell) {
                Ok(split) => {
                    proof {
                        if split is Some {
                            let m = split_point(k2.len() - 1, r as int);
                            if m <= r {
                                assert(k2[m] == keys[m]);
                            } else if m > r + 1 {
                                assert(k2[m] == keys[m - 1]);
                            }
                        }
                        if wf0 {
                            match split {
                                None => {
                                    lemma_internal_grown(
                                        pages0,
                                        pages1,
                                        store@,
                                        types,
                                        id as int,
                                        h,
                                        lo as int,
                                        hi as int,
                                        key,
                                        rv,
                                        cell,
                                    );
                                },
                                Some(up) => {
                                    lemma_internal_split(
                                        pages0,
                                        pages1,
                                        store@,
                                        types,
                                        id as int,
                                        h,
                                        lo as int,
                                        hi as int,
                                        key,
                                        rv,
                                        cell,
                                        up,
                                    );
                                },
                            }
                        }
                    }
                    Ok(split)
                },
                Err(e) => Err(e),
            }
        },
    }
}

} // verus!
