//! Range scans: the cells of a range of keys, in ascending order of key.
//! The scan goes from leaf to leaf by descending anew from the root with
//! the first key that the leaf before does not answer for.

use vstd::prelude::*;
use crate::db::DBType;
use crate::db::Row;
use crate::db::Schema;
use crate::db::ValueView;
use super::node::CellView;
use super::node::DataCell;
use super::node::lemma_keys_ascending;
use super::node::lemma_keys_len;
use super::page::BTreeError;
use super::page::PageStore;
use super::tree::KEY_LIMIT;
use super::tree::clone_row;
use super::tree::descend_to_leaf;
use super::tree::leaf_get;
use super::tree::lemma_lower_bound;
use super::tree::subtree_get;

verus! {

/// Whether `cells` are the cells of the keys `lo..bound` of the tree under
/// page `root`, in ascending order of key: each cell has a key of the
/// range and the row that a descent finds under it, the keys ascend, and
/// every key of the range under which a descent finds a row has its cell.
pub open spec fn covered(
    pages: Seq<Seq<u8>>,
    types: Seq<DBType>,
    root: int,
    height: nat,
    lo: int,
    bound: int,
    cells: Seq<CellView>,
) -> bool {
    &&& forall|i: int|
        0 <= i < cells.len() ==> lo <= (#[trigger] cells[i]).key < bound && subtree_get(
            pages,
            types,
            root,
            height,
            0,
            KEY_LIMIT as int,
            cells[i].key,
        ) == Ok::<Option<Seq<ValueView>>, BTreeError>(Some(cells[i].row))
    &&& forall|i: int, j: int|
        0 <= i < j < cells.len() ==> (#[trigger] cells[i]).key < (#[trigger] cells[j]).key
    &&& forall|k: u32|
        lo <= k < bound ==> (#[trigger] subtree_get(
            pages,
            types,
            root,
            height,
            0,
            KEY_LIMIT as int,
            k,
        )) is Ok && (subtree_get(pages, types, root, height, 0, KEY_LIMIT as int, k)->Ok_0 is Some
            ==> exists|i: int| 0 <= i < cells.len() && (#[trigger] cells[i]).key == k)
}

/// Cells that cover a range cover a longer range too, where no key
/// between the two bounds has a row.
pub proof fn lemma_covered_extend(
    pages: Seq<Seq<u8>>,
    types: Seq<DBType>,
    root: int,
    height: nat,
    lo: int,
    bound: int,
    further: int,
    cells: Seq<CellView>,
)
    requires
        covered(pages, types, root, height, lo, bound, cells),
        bound <= further,
        forall|k: u32|
            bound <= k < further ==> #[trigger] subtree_get(
                pages,
                types,
                root,
                height,
                0,
                KEY_LIMIT as int,
                k,
            ) == Ok::<Option<Seq<ValueView>>, BTreeError>(None),
    ensures
        covered(pages, types, root, height, lo, further, cells),
{
}

/// Cells that cover the keys below a key cover that key too, once its
/// cell stands behind them.
pub proof fn lemma_covered_push(
    pages: Seq<Seq<u8>>,
    types: Seq<DBType>,
    root: int,
    height: nat,
    lo: int,
    cells: Seq<CellView>,
    cell: CellView,
)
    requires
        covered(pages, types, root, height, lo, cell.key as int, cells),
        lo <= cell.key,
        subtree_get(pages, types, root, height, 0, KEY_LIMIT as int, cell.key) == Ok::<
            Option<Seq<ValueView>>,
            BTreeError,
        >(Some(cell.row)),
    ensures
        covered(pages, types, root, height, lo, cell.key + 1, cells.push(cell)),
{
    let more = cells.push(cell);
    assert forall|i: int| 0 <= i < more.len() implies lo <= (#[trigger] more[i]).key < cell.key + 1
        && subtree_get(pages, types, root, height, 0, KEY_LIMIT as int, more[i].key) == Ok::<
        Option<Seq<ValueView>>,
        BTreeError,
    >(Some(more[i].row)) by {
        if i < cells.len() {
            assert(more[i] == cells[i]);
        }
    }
    assert forall|i: int, j: int| 0 <= i < j < more.len() implies (#[trigger] more[i]).key < (
    #[trigger] more[j]).key by {
        assert(more[i] == cells[i]);
        if j < cells.len() {
            assert(more[j] == cells[j]);
        }
    }
    assert forall|k: u32| lo <= k < cell.key + 1 implies (#[trigger] subtree_get(
        pages,
        types,
        root,
        height,
        0,
        KEY_LIMIT as int,
        k,
    )) is Ok && (subtree_get(pages, types, root, height, 0, KEY_LIMIT as int, k)->Ok_0 is Some
        ==> exists|i: int| 0 <= i < more.len() && (#[trigger] more[i]).key == k) by {
        if k == cell.key {
            assert(more[cells.len() as int].key == k);
        } else if subtree_get(pages, types, root, height, 0, KEY_LIMIT as int, k)->Ok_0 is Some {
            let i = choose|i: int| 0 <= i < cells.len() && (#[trigger] cells[i]).key == k;
            assert(more[i].key == k);
        }
    }
}

/// The cells of the keys `lo..=hi` of the tree under page `root`, in
/// ascending order of key. Fails with the error of a descent that failed.
pub(crate) fn scan_range(
    store: &PageStore,
    schema: &Schema,
    root: u32,
    height: u32,
    lo: u32,
    hi: u32,
) -> (r: Result<Vec<DataCell>, BTreeError>)
    ensures
        match r {
            Ok(cells) => covered(
                store@,
                schema.types(),
                root as int,
                height as nat,
                lo as int,
                hi + 1,
                cells.deep_view(),
            ),
            Err(e) => exists|k: u32|
                lo <= k <= hi && #[trigger] subtree_get(
                    store@,
                    schema.types(),
                    root as int,
                    height as nat,
                    0,
                    KEY_LIMIT as int,
                    k,
                ) == Err::<Option<Seq<ValueView>>, BTreeError>(e),
        },
{
    let ghost pages = store@;
    let ghost types = schema.types();
    let mut out: Vec<DataCell> = Vec::new();
    assert(out.deep_view() =~= Seq::<CellView>::empty());
    if lo > hi {
        return Ok(out);
    }
    let mut cursor: u32 = lo;
    let mut done: bool = false;
    while !done
        invariant
            pages == store@,
            types == schema.types(),
            lo <= cursor <= hi,
            !done ==> covered(
                pages,
                types,
                root as int,
                height as nat,
                lo as int,
                cursor as int,
                out.deep_view(),
            ),
            done ==> covered(
                pages,
                types,
                root as int,
                height as nat,
                lo as int,
                hi + 1,
                out.deep_view(),
            ),
        decreases
                hi - cursor + if done {
                    0int
                } else {
                    1int
                },
    {
        let (leaf, l, u) = match descend_to_leaf(
            store,
            schema,
            root,
            height,
            0,
            KEY_LIMIT,
            cursor,
        ) {
            Ok(found) => found,
            Err(e) => {
                return Err(e);
            },
        };
        let ghost v = leaf@;
        let ghost keys = v.keys();
        let n: usize = leaf.len();
        let mut r: usize = leaf.search(cursor);
        let ghost mut bound: int = cursor as int;
        proof {
            lemma_keys_ascending(v);
            lemma_keys_len(v);
        }
        while r < n && leaf.key_at(r) <= hi
            invariant
                r <= n,
                n == keys.len(),
                n == v.len(),
                v == leaf@,
                keys == v.keys(),
                v is Leaf,
                v.ordered(),
                super::node::ascending(keys),
                v.rows().len() == n,
                l <= cursor <= bound <= hi + 1,
                lo <= cursor,
                bound <= u <= KEY_LIMIT,
                forall|j: int| 0 <= j < keys.len() ==> #[trigger] keys[j] < u,
                forall|j: int| 0 <= j < r ==> #[trigger] keys[j] < bound,
                forall|j: int| r <= j < n ==> #[trigger] keys[j] >= bound,
                covered(
                    pages,
                    types,
                    root as int,
                    height as nat,
                    lo as int,
                    bound,
                    out.deep_view(),
                ),
                forall|k: u32|
                    l <= k < u ==> #[trigger] subtree_get(
                        pages,
                        types,
                        root as int,
                        height as nat,
                        0,
                        KEY_LIMIT as int,
                        k,
                    ) == Ok::<Option<Seq<ValueView>>, BTreeError>(leaf_get(v, k)),
            decreases n - r,
        {
            let key = leaf.key_at(r);
            let row = clone_row(leaf.row_at(r));
            let ghost before = out.deep_view();
            let ghost cell = CellView { key, row: row.deep_view() };
            proof {
                assert forall|k: u32| bound <= k < key implies #[trigger] subtree_get(
                    pages,
                    types,
                    root as int,
                    height as nat,
                    0,
                    KEY_LIMIT as int,
                    k,
                ) == Ok::<Option<Seq<ValueView>>, BTreeError>(None) by {
                    assert forall|j: int| r <= j < keys.len() implies keys[j] >= k by {
                        if j > r {
                            assert(keys[r as int] < keys[j]);
                        }
                    }
                    lemma_lower_bound(keys, k, r as int);
                }
                lemma_covered_extend(
                    pages,
                    types,
                    root as int,
                    height as nat,
                    lo as int,
                    bound,
                    key as int,
                    before,
                );
                assert forall|j: int| r <= j < keys.len() implies keys[j] >= key by {
                    if j > r {
                        assert(keys[r as int] < keys[j]);
                    }
                }
                assert forall|j: int| 0 <= j < r implies keys[j] < key by {
                    assert(keys[j] < keys[r as int]);
                }
                lemma_lower_bound(keys, key, r as int);
                lemma_covered_push(
                    pages,
                    types,
                    root as int,
                    height as nat,
                    lo as int,
                    before,
                    cell,
                );
                bound = key + 1;
            }
            out.push(DataCell { key, row });
            proof {
                assert(out.deep_view() =~= before.push(cell));
                assert forall|j: int| r + 1 <= j < n implies #[trigger] keys[j] >= bound by {
                    assert(keys[r as int] < keys[j]);
                }
            }
            r += 1;
        }
        let ghost stop: int = if r < n || u > hi {
            hi + 1
        } else {
            u as int
        };
        proof {
            assert forall|k: u32| bound <= k < stop implies #[trigger] subtree_get(
                pages,
                types,
                root as int,
                height as nat,
                0,
                KEY_LIMIT as int,
                k,
            ) == Ok::<Option<Seq<ValueView>>, BTreeError>(None) by {
                if r < n {
                    assert forall|j: int| r <= j < keys.len() implies keys[j] >= k by {
                        if j > r {
                            assert(keys[r as int] < keys[j]);
                        }
                    }
                }
                lemma_lower_bound(keys, k, r as int);
            }
            lemma_covered_extend(
                pages,
                types,
                root as int,
                height as nat,
                lo as int,
                bound,
                stop,
                out.deep_view(),
            );
        }
        if r < n || u > hi as u64 {
            done = true;
        } else {
            cursor = u as u32;
        }
    }
    Ok(out)
}

} // verus!
