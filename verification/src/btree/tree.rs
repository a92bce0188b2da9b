//! The shape of a tree in a page store: which node a page holds at a
//! given place in the tree, which child a key is sent to, and what a
//! descent from a page finds.

use vstd::prelude::*;
use crate::db::DBType;
use crate::db::Row;
use crate::db::Schema;
use crate::db::ValueView;
use super::codec::decode_page;
use super::codec::storable;
use super::node::BTreeNode;
use super::node::NodeView;
use super::node::ascending;
use super::node::lemma_keys_ascending;
use super::node::lemma_keys_len;
use super::page::BTreeError;
use super::page::PageStore;

verus! {

/// One more than the largest key.
pub const KEY_LIMIT: u64 = 0x1_0000_0000;

/// Number of keys of `keys` that are less than `key`, where `keys` ascend.
pub open spec fn lower_bound(keys: Seq<u32>, key: u32) -> int
    decreases keys.len(),
{
    if keys.len() == 0 {
        0
    } else if keys.last() < key {
        keys.len() as int
    } else {
        lower_bound(keys.drop_last(), key)
    }
}

/// The rank that splits ascending keys into those below `key` and the
/// others is the lower bound of `key`.
pub proof fn lemma_lower_bound(keys: Seq<u32>, key: u32, l: int)
    requires
        0 <= l <= keys.len(),
        forall|r: int| 0 <= r < l ==> keys[r] < key,
        forall|r: int| l <= r < keys.len() ==> keys[r] >= key,
    ensures
        lower_bound(keys, key) == l,
    decreases keys.len(),
{
    if keys.len() > 0 && !(keys.last() < key) {
        lemma_lower_bound(keys.drop_last(), key, l);
    }
}

/// The lower bound splits ascending keys into those below `key` and the others.
pub proof fn lemma_lower_bound_splits(keys: Seq<u32>, key: u32)
    requires
        ascending(keys),
    ensures
        0 <= lower_bound(keys, key) <= keys.len(),
        forall|r: int| 0 <= r < lower_bound(keys, key) ==> keys[r] < key,
        forall|r: int| lower_bound(keys, key) <= r < keys.len() ==> keys[r] >= key,
    decreases keys.len(),
{
    if keys.len() > 0 {
        if keys.last() < key {
            assert forall|r: int| 0 <= r < keys.len() implies keys[r] < key by {
                if r < keys.len() - 1 {
                    assert(keys[r] < keys[keys.len() - 1]);
                }
            }
        } else {
            let front = keys.drop_last();
            assert forall|i: int, j: int| 0 <= i < j < front.len() implies front[i] < front[j] by {
                assert(keys[i] < keys[j]);
            }
            lemma_lower_bound_splits(front, key);
            assert forall|r: int| 0 <= r < lower_bound(keys, key) implies keys[r] < key by {
                assert(front[r] < key);
            }
            assert forall|r: int| lower_bound(keys, key) <= r < keys.len() implies keys[r]
                >= key by {
                if r < front.len() {
                    assert(front[r] >= key);
                }
            }
        }
    }
}

/// The rank of the child that `key` is sent to: the last rank whose key
/// is at most `key`, and rank 0 where `key` is below all keys.
pub open spec fn route(keys: Seq<u32>, key: u32) -> int {
    let l = lower_bound(keys, key);
    if l < keys.len() && keys[l] == key {
        l
    } else if l > 0 {
        l - 1
    } else {
        0
    }
}

/// The row that stands under `key` in ascending keys with their rows.
pub open spec fn rows_get(keys: Seq<u32>, rows: Seq<Seq<ValueView>>, key: u32) -> Option<
    Seq<ValueView>,
> {
    let l = lower_bound(keys, key);
    if l < keys.len() && keys[l] == key {
        Some(rows[l])
    } else {
        None
    }
}

/// The row that a leaf holds under `key`, if it holds one.
pub open spec fn leaf_get(v: NodeView, key: u32) -> Option<Seq<ValueView>> {
    rows_get(v.keys(), v.rows(), key)
}

/// Lower end of the key range of the child of rank `r`, in a node whose
/// own range starts at `lo`.
pub open spec fn low(keys: Seq<u32>, r: int, lo: int) -> int {
    if r == 0 {
        lo
    } else {
        keys[r] as int
    }
}

/// Upper end (exclusive) of the key range of the child of rank `r`, in a
/// node whose own range ends at `hi`.
pub open spec fn high(keys: Seq<u32>, r: int, hi: int) -> int {
    if r + 1 < keys.len() {
        keys[r + 1] as int
    } else {
        hi
    }
}

/// Whether the keys of a node suit the key range `lo..hi` of its place:
/// a leaf's keys lie in the range; an internal node's first key is at
/// most `lo` and its other keys lie strictly inside the range.
pub open spec fn keys_in_range(keys: Seq<u32>, leaf: bool, lo: int, hi: int) -> bool {
    if leaf {
        forall|r: int| 0 <= r < keys.len() ==> lo <= #[trigger] keys[r] < hi
    } else {
        &&& keys.len() >= 1
        &&& keys[0] <= lo
        &&& forall|r: int| 1 <= r < keys.len() ==> lo < #[trigger] keys[r] < hi
    }
}

/// Whether a node is fit to stand at a place of the tree: its directory
/// is in order, it is of the kind that the place's height asks for, and
/// its keys suit the key range of the place.
pub open spec fn node_ok(v: NodeView, leaf: bool, lo: int, hi: int) -> bool {
    &&& v.ordered()
    &&& (v is Leaf) == leaf
    &&& keys_in_range(v.keys(), leaf, lo, hi)
}

/// The node that page `id` holds for a place of the tree. A page beyond
/// the store is an I/O error; the header page, a page that does not
/// decode and a node that is not fit for the place are corruption.
pub open spec fn node_at(
    pages: Seq<Seq<u8>>,
    types: Seq<DBType>,
    id: int,
    leaf: bool,
    lo: int,
    hi: int,
) -> Result<NodeView, BTreeError> {
    if !(0 <= id < pages.len()) {
        Err(BTreeError::IoError)
    } else if id == 0 {
        Err(BTreeError::CorruptPage)
    } else {
        match decode_page(pages[id], types) {
            Some(v) => if node_ok(v, leaf, lo, hi) {
                Ok(v)
            } else {
                Err(BTreeError::CorruptPage)
            },
            None => Err(BTreeError::CorruptPage),
        }
    }
}

/// What a descent for `key` finds, starting at page `id`, which stands
/// `height` levels above the leaves and answers for the keys `lo..hi`.
pub open spec fn subtree_get(
    pages: Seq<Seq<u8>>,
    types: Seq<DBType>,
    id: int,
    height: nat,
    lo: int,
    hi: int,
    key: u32,
) -> Result<Option<Seq<ValueView>>, BTreeError>
    decreases height,
{
    match node_at(pages, types, id, height == 0, lo, hi) {
        Err(e) => Err(e),
        Ok(v) => if height == 0 {
            Ok(leaf_get(v, key))
        } else {
            let r = route(v.keys(), key);
            subtree_get(
                pages,
                types,
                v.children()[r] as int,
                (height - 1) as nat,
                low(v.keys(), r, lo),
                high(v.keys(), r, hi),
                key,
            )
        },
    }
}

/// A key of the range of a node is sent to a child whose range holds it.
pub proof fn lemma_route_in_range(keys: Seq<u32>, key: u32, lo: int, hi: int)
    requires
        ascending(keys),
        keys_in_range(keys, false, lo, hi),
        lo <= key < hi,
    ensures
        0 <= route(keys, key) < keys.len(),
        low(keys, route(keys, key), lo) <= key < high(keys, route(keys, key), hi),
{
    lemma_lower_bound_splits(keys, key);
    let l = lower_bound(keys, key);
    if l < keys.len() && keys[l] == key {
        if l + 1 < keys.len() {
            assert(keys[l] < keys[l + 1]);
        }
    } else if l > 0 {
        assert(keys[l - 1] < key);
    } else {
        assert(keys[0] >= key);
    }
}

/// A key of the range of the child of rank `r` is sent to that child.
pub proof fn lemma_route_unique(keys: Seq<u32>, key: u32, lo: int, hi: int, r: int)
    requires
        ascending(keys),
        keys_in_range(keys, false, lo, hi),
        0 <= r < keys.len(),
        low(keys, r, lo) <= key < high(keys, r, hi),
    ensures
        route(keys, key) == r,
{
    lemma_lower_bound_splits(keys, key);
    let l = lower_bound(keys, key);
    if r == 0 {
        if keys.len() > 1 {
            assert(key < keys[1]);
            if l > 1 {
                assert(keys[1] < key);
            }
        }
        if l == 1 {
            assert(keys[0] < key);
        }
    } else {
        assert(keys[r] <= key);
        if l <= r - 1 {
            assert(keys[r - 1] >= key);
            assert(keys[r - 1] < keys[r]);
        }
        if r + 1 < keys.len() {
            assert(key < keys[r + 1]);
            if l > r + 1 {
                assert(keys[r + 1] < key);
            }
        }
        if l == r {
            assert(keys[r] >= key);
        }
    }
}

/// Whether the keys of `node` suit the key range `lo..hi`.
fn keys_suit(node: &BTreeNode, lo: u32, hi: u64) -> (ok: bool)
    requires
        node@.ordered(),
    ensures
        ok == keys_in_range(node@.keys(), node@ is Leaf, lo as int, hi as int),
{
    let n: usize = node.len();
    proof {
        lemma_keys_ascending(node@);
        lemma_keys_len(node@);
    }
    let ghost keys = node@.keys();
    if node.is_leaf() {
        if n == 0 {
            return true;
        }
        let first = node.key_at(0);
        let last = node.key_at(n - 1);
        if first < lo || last as u64 >= hi {
            return false;
        }
        assert forall|r: int| 0 <= r < keys.len() implies lo <= #[trigger] keys[r] < hi by {
            if 0 < r {
                assert(keys[0] < keys[r]);
            }
            if r < n - 1 {
                assert(keys[r] < keys[n - 1]);
            }
        }
        true
    } else {
        if n == 0 {
            return false;
        }
        if node.key_at(0) > lo {
            return false;
        }
        if n == 1 {
            return true;
        }
        let second = node.key_at(1);
        let last = node.key_at(n - 1);
        if second <= lo || last as u64 >= hi {
            return false;
        }
        assert forall|r: int| 1 <= r < keys.len() implies lo < #[trigger] keys[r] < hi by {
            if 1 < r {
                assert(keys[1] < keys[r]);
            }
            if r < n - 1 {
                assert(keys[r] < keys[n - 1]);
            }
        }
        true
    }
}

/// Reads and decodes the page `id` for a place of the tree, and checks
/// the node against the place.
pub(crate) fn load(store: &PageStore, schema: &Schema, id: u32, leaf: bool, lo: u32, hi: u64) -> (r:
    Result<BTreeNode, BTreeError>)
    ensures
        match r {
            Ok(node) => node_at(store@, schema.types(), id as int, leaf, lo as int, hi as int)
                == Ok::<NodeView, BTreeError>(node@) && storable(node@, schema.types()),
            Err(e) => node_at(store@, schema.types(), id as int, leaf, lo as int, hi as int)
                == Err::<NodeView, BTreeError>(e),
        },
{
    let page = match store.read_page(id) {
        Ok(page) => page,
        Err(e) => {
            return Err(e);
        },
    };
    if id == 0 {
        return Err(BTreeError::CorruptPage);
    }
    let node = match BTreeNode::read(page, schema) {
        Ok(node) => node,
        Err(e) => {
            return Err(e);
        },
    };
    if !node.check() || node.is_leaf() != leaf {
        return Err(BTreeError::CorruptPage);
    }
    if !keys_suit(&node, lo, hi) {
        return Err(BTreeError::CorruptPage);
    }
    Ok(node)
}

/// The rank of the child of `node` that `key` is sent to.
pub(crate) fn route_of(node: &BTreeNode, key: u32) -> (r: usize)
    requires
        node@.ordered(),
    ensures
        r == route(node@.keys(), key),
{
    let n: usize = node.len();
    let l: usize = node.search(key);
    proof {
        lemma_keys_len(node@);
        lemma_lower_bound(node@.keys(), key, l as int);
    }
    if l < n && node.key_at(l) == key {
        l
    } else if l > 0 {
        l - 1
    } else {
        0
    }
}

/// The row that the leaf `node` holds under `key`, taken out of the node.
pub(crate) fn take_row(node: BTreeNode, key: u32) -> (r: Option<Row>)
    requires
        node@ is Leaf,
        node@.ordered(),
    ensures
        match r {
            Some(row) => leaf_get(node@, key) == Some(row.deep_view()),
            None => leaf_get(node@, key) is None,
        },
{
    let mut node = node;
    let n: usize = node.len();
    let l: usize = node.search(key);
    proof {
        lemma_keys_len(node@);
        lemma_lower_bound(node@.keys(), key, l as int);
    }
    if l < n && node.key_at(l) == key {
        let cell = node.remove_row(l);
        Some(cell.row)
    } else {
        None
    }
}

/// Descends from page `id`, which answers for the keys `from..to`, to
/// the leaf that answers for `key`. The result is that leaf and the keys
/// `lo..hi` that it answers for: for each of them, a descent from page
/// `id` finds what the leaf holds.
pub(crate) fn descend_to_leaf(
    store: &PageStore,
    schema: &Schema,
    id: u32,
    height: u32,
    from: u32,
    to: u64,
    key: u32,
) -> (r: Result<(BTreeNode, u32, u64), BTreeError>)
    requires
        from <= key < to <= KEY_LIMIT,
    ensures
        match r {
            Ok((node, lo, hi)) => {
                &&& from <= lo <= key < hi <= to
                &&& node_ok(node@, true, lo as int, hi as int)
                &&& storable(node@, schema.types())
                &&& forall|k: u32|
                    lo <= k < hi ==> #[trigger] subtree_get(
                        store@,
                        schema.types(),
                        id as int,
                        height as nat,
                        from as int,
                        to as int,
                        k,
                    ) == Ok::<Option<Seq<ValueView>>, BTreeError>(leaf_get(node@, k))
            },
            Err(e) => subtree_get(
                store@,
                schema.types(),
                id as int,
                height as nat,
                from as int,
                to as int,
                key,
            ) == Err::<Option<Seq<ValueView>>, BTreeError>(e),
        },
{
    let mut cur: u32 = id;
    let mut level: u32 = height;
    let mut lo: u32 = from;
    let mut hi: u64 = to;
    while level > 0
        invariant
            from <= lo <= key < hi <= to <= KEY_LIMIT,
            forall|k: u32|
                lo <= k < hi ==> #[trigger] subtree_get(
                    store@,
                    schema.types(),
                    id as int,
                    height as nat,
                    from as int,
                    to as int,
                    k,
                ) == subtree_get(
                    store@,
                    schema.types(),
                    cur as int,
                    level as nat,
                    lo as int,
                    hi as int,
                    k,
                ),
        decreases level,
    {
        let node = match load(store, schema, cur, false, lo, hi) {
            Ok(node) => node,
            Err(e) => {
                return Err(e);
            },
        };
        let n: usize = node.len();
        let r: usize = route_of(&node, key);
        proof {
            lemma_keys_ascending(node@);
            lemma_keys_len(node@);
            lemma_route_in_range(node@.keys(), key, lo as int, hi as int);
        }
        let ghost keys = node@.keys();
        let ghost old_lo = lo;
        let ghost old_hi = hi;
        if r + 1 < n {
            hi = node.key_at(r + 1) as u64;
        }
        if r > 0 {
            lo = node.key_at(r);
        }
        proof {
            assert forall|k: u32| lo <= k < hi implies route(keys, k) == r by {
                lemma_route_unique(keys, k, old_lo as int, old_hi as int, r as int);
            }
        }
        cur = node.child_at(r);
        level -= 1;
    }
    match load(store, schema, cur, true, lo, hi) {
        Ok(node) => Ok((node, lo, hi)),
        Err(e) => Err(e),
    }
}

/// Descends from page `id`, which answers for the keys `from..to`, to
/// the leaf that answers for `key`, and looks the key up there.
pub(crate) fn descend(
    store: &PageStore,
    schema: &Schema,
    id: u32,
    height: u32,
    from: u32,
    to: u64,
    key: u32,
) -> (r: Result<Option<Row>, BTreeError>)
    requires
        from <= key < to <= KEY_LIMIT,
    ensures
        match r {
            Ok(Some(row)) => subtree_get(
                store@,
                schema.types(),
                id as int,
                height as nat,
                from as int,
                to as int,
                key,
            ) == Ok::<Option<Seq<ValueView>>, BTreeError>(Some(row.deep_view())),
            Ok(None) => subtree_get(
                store@,
                schema.types(),
                id as int,
                height as nat,
                from as int,
                to as int,
                key,
            ) == Ok::<Option<Seq<ValueView>>, BTreeError>(None),
            Err(e) => subtree_get(
                store@,
                schema.types(),
                id as int,
                height as nat,
                from as int,
                to as int,
                key,
            ) == Err::<Option<Seq<ValueView>>, BTreeError>(e),
        },
{
    match descend_to_leaf(store, schema, id, height, from, to, key) {
        Ok((node, _, _)) => Ok(take_row(node, key)),
        Err(e) => Err(e),
    }
}

/// A copy of a row.
pub(crate) fn clone_row(row: &Row) -> (r: Row)
    ensures
        r.deep_view() == row.deep_view(),
{
    let mut r: Row = Vec::new();
    let mut i: usize = 0;
    while i < row.len()
        invariant
            i <= row.len(),
            r.len() == i,
            forall|j: int| 0 <= j < i ==> r@[j] == row@[j],
        decreases row.len() - i,
    {
        r.push(row[i].clone());
        i += 1;
    }
    assert(r.deep_view() =~= row.deep_view());
    r
}

/// A copy of the row that the leaf `node` holds under `key`.
pub(crate) fn peek_row(node: &BTreeNode, key: u32) -> (r: Option<Row>)
    requires
        node@ is Leaf,
        node@.ordered(),
    ensures
        match r {
            Some(row) => leaf_get(node@, key) == Some(row.deep_view()),
            None => leaf_get(node@, key) is None,
        },
{
    let n: usize = node.len();
    let l: usize = node.search(key);
    proof {
        lemma_keys_len(node@);
        lemma_lower_bound(node@.keys(), key, l as int);
    }
    if l < n && node.key_at(l) == key {
        Some(clone_row(node.row_at(l)))
    } else {
        None
    }
}

} // verus!
