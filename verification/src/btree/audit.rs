//! Walking a whole tree to see whether it is well formed.

use vstd::prelude::*;
use crate::db::DBType;
use crate::db::Schema;
use super::node::lemma_keys_ascending;
use super::node::lemma_keys_len;
use super::page::PageStore;
use super::shape::branch_pages;
use super::shape::branch_wf;
use super::shape::child_pages;
use super::shape::child_wf;
use super::shape::lemma_subtree_is_branch;
use super::shape::subtree_pages;
use super::shape::subtree_wf;
use super::tree::KEY_LIMIT;
use super::tree::load;
use super::tree::node_at;

verus! {

/// The pages that are marked.
pub open spec fn marked(marks: Seq<bool>) -> Set<int> {
    Set::new(|p: int| 0 <= p < marks.len() && marks[p])
}

/// The pages of the subtrees under the children of the ranks below `upto`.
pub open spec fn pages_upto(
    pages: Seq<Seq<u8>>,
    types: Seq<DBType>,
    keys: Seq<u32>,
    children: Seq<u32>,
    h: nat,
    lo: int,
    hi: int,
    upto: int,
) -> Set<int> {
    Set::new(
        |p: int|
            exists|j: int|
                0 <= j < upto && (#[trigger] child_pages(
                    pages,
                    types,
                    keys,
                    children,
                    j,
                    h,
                    lo,
                    hi,
                )).contains(p),
    )
}

/// Walks the subtree under page `id` and marks its pages. The walk
/// succeeds where the subtree is well formed and none of its pages was
/// marked before, and only there.
#[verifier::loop_isolation(false)]
pub(crate) fn audit(
    store: &PageStore,
    schema: &Schema,
    id: u32,
    height: u32,
    lo: u32,
    hi: u64,
    marks: &mut Vec<bool>,
) -> (ok: bool)
    requires
        old(marks)@.len() == store@.len(),
        hi <= KEY_LIMIT,
    ensures
        final(marks)@.len() == old(marks)@.len(),
        ok ==> {
            &&& subtree_wf(
                store@,
                schema.types(),
                id as int,
                height as nat,
                lo as int,
                hi as int,
            )
            &&& marked(old(marks)@).disjoint(
                subtree_pages(
                    store@,
                    schema.types(),
                    id as int,
                    height as nat,
                    lo as int,
                    hi as int,
                ),
            )
            &&& marked(final(marks)@) == marked(old(marks)@).union(
                subtree_pages(
                    store@,
                    schema.types(),
                    id as int,
                    height as nat,
                    lo as int,
                    hi as int,
                ),
            )
        },
        !ok ==> !subtree_wf(
            store@,
            schema.types(),
            id as int,
            height as nat,
            lo as int,
            hi as int,
        ) || !marked(old(marks)@).disjoint(
            subtree_pages(store@, schema.types(), id as int, height as nat, lo as int, hi as int),
        ),
    decreases height,
{
    let ghost pages = store@;
    let ghost types = schema.types();
    let ghost m0 = marked(marks@);
    let ghost sp = subtree_pages(pages, types, id as int, height as nat, lo as int, hi as int);
    let node = match load(store, schema, id, height == 0, lo, hi) {
        Ok(node) => node,
        Err(_) => {
            return false;
        },
    };
    let ghost v = node@;
    let ghost keys = v.keys();
    let ghost children = v.children();
    let ghost h = (height - 1) as nat;
    proof {
        lemma_keys_len(v);
        if height > 0 {
            lemma_subtree_is_branch(pages, types, id as int, height as nat, lo as int, hi as int);
        }
        assert(sp.contains(id as int));
    }
    if marks[id as usize] {
        proof {
            assert(m0.contains(id as int));
        }
        return false;
    }
    marks[id as usize] = true;
    let ghost m1 = marked(marks@);
    proof {
        assert(m1 =~= m0.insert(id as int));
    }
    if height == 0 {
        proof {
            assert(sp =~= set![id as int]);
            assert(m1 =~= m0.union(sp));
        }
        return true;
    }
    let n: usize = node.len();
    let mut r: usize = 0;
    proof {
        assert(pages_upto(pages, types, keys, children, h, lo as int, hi as int, 0) =~= Set::empty());
        assert(m1 =~= m1.union(pages_upto(pages, types, keys, children, h, lo as int, hi as int, 0)));
    }
    while r < n
        invariant
            r <= n,
            n == keys.len(),
            n == v.len(),
            v == node@,
            keys == v.keys(),
            children == v.children(),
            v is Internal,
            v.ordered(),
            h == height - 1,
            height > 0,
            hi <= KEY_LIMIT,
            pages == store@,
            types == schema.types(),
            marks@.len() == pages.len(),
            m1 == m0.insert(id as int),
            !m0.contains(id as int),
            node_at(pages, types, id as int, false, lo as int, hi as int) == Ok::<
                super::node::NodeView,
                super::page::BTreeError,
            >(v),
            forall|j: int|
                0 <= j < r ==> #[trigger] child_wf(
                    pages,
                    types,
                    keys,
                    children,
                    j,
                    h,
                    lo as int,
                    hi as int,
                ),
            forall|j: int|
                0 <= j < r ==> m1.disjoint(
                    #[trigger] child_pages(pages, types, keys, children, j, h, lo as int, hi as int),
                ),
            forall|j1: int, j2: int|
                0 <= j1 < j2 < r ==> (#[trigger] child_pages(
                    pages,
                    types,
                    keys,
                    children,
                    j1,
                    h,
                    lo as int,
                    hi as int,
                )).disjoint(
                    #[trigger] child_pages(
                        pages,
                        types,
                        keys,
                        children,
                        j2,
                        h,
                        lo as int,
                        hi as int,
                    ),
                ),
            marked(marks@) == m1.union(
                pages_upto(pages, types, keys, children, h, lo as int, hi as int, r as int),
            ),
        decreases n - r,
    {
        proof {
            lemma_keys_ascending(v);
        }
        let clo: u32 = if r > 0 {
            node.key_at(r)
        } else {
            lo
        };
        let chi: u64 = if r + 1 < n {
            node.key_at(r + 1) as u64
        } else {
            hi
        };
        let child = node.child_at(r);
        let ghost before = marked(marks@);
        let ghost cp = child_pages(pages, types, keys, children, r as int, h, lo as int, hi as int);
        let ghost upto = pages_upto(pages, types, keys, children, h, lo as int, hi as int, r as int);
        let ok = audit(store, schema, child, height - 1, clo, chi, marks);
        proof {
            assert(cp == subtree_pages(pages, types, child as int, h, clo as int, chi as int));
            assert(child_wf(pages, types, keys, children, r as int, h, lo as int, hi as int)
                == subtree_wf(pages, types, child as int, h, clo as int, chi as int));
        }
        if !ok {
            proof {
                let wf = subtree_wf(pages, types, id as int, height as nat, lo as int, hi as int);
                if wf && m0.disjoint(sp) {
                    assert(child_wf(pages, types, keys, children, r as int, h, lo as int, hi as int));
                    let p = choose|p: int| before.contains(p) && cp.contains(p);
                    assert(branch_pages(pages, types, keys, children, h, lo as int, hi as int).contains(p));
                    assert(sp.contains(p));
                    if upto.contains(p) {
                        let j = choose|j: int|
                            0 <= j < r && (#[trigger] child_pages(
                                pages,
                                types,
                                keys,
                                children,
                                j,
                                h,
                                lo as int,
                                hi as int,
                            )).contains(p);
                        assert(child_pages(pages, types, keys, children, j, h, lo as int, hi as int).disjoint(cp));
                    }
                    assert(false);
                }
            }
            return false;
        }
        proof {
            let next = pages_upto(pages, types, keys, children, h, lo as int, hi as int, r + 1);
            assert(next =~= upto.union(cp)) by {
                assert forall|p: int| next.contains(p) == upto.union(cp).contains(p) by {
                    if next.contains(p) {
                        let j = choose|j: int|
                            0 <= j < r + 1 && (#[trigger] child_pages(
                                pages,
                                types,
                                keys,
                                children,
                                j,
                                h,
                                lo as int,
                                hi as int,
                            )).contains(p);
                        if j < r {
                            assert(upto.contains(p));
                        }
                    }
                    if upto.contains(p) {
                        let j = choose|j: int|
                            0 <= j < r && (#[trigger] child_pages(
                                pages,
                                types,
                                keys,
                                children,
                                j,
                                h,
                                lo as int,
                                hi as int,
                            )).contains(p);
                        assert(0 <= j < r + 1);
                    }
                    if cp.contains(p) {
                        assert(child_pages(pages, types, keys, children, r as int, h, lo as int, hi as int).contains(p));
                    }
                }
            }
            assert(marked(marks@) =~= m1.union(next));
            assert forall|j: int| 0 <= j < r + 1 implies m1.disjoint(
                #[trigger] child_pages(pages, types, keys, children, j, h, lo as int, hi as int),
            ) by {
                if j == r {
                    assert forall|p: int| m1.contains(p) implies !cp.contains(p) by {
                        assert(before.contains(p));
                    }
                }
            }
            assert forall|j1: int, j2: int| 0 <= j1 < j2 < r + 1 implies (#[trigger] child_pages(
                pages,
                types,
                keys,
                children,
                j1,
                h,
                lo as int,
                hi as int,
            )).disjoint(
                #[trigger] child_pages(pages, types, keys, children, j2, h, lo as int, hi as int),
            ) by {
                if j2 == r {
                    let c1 = child_pages(pages, types, keys, children, j1, h, lo as int, hi as int);
                    assert forall|p: int| c1.contains(p) implies !cp.contains(p) by {
                        assert(upto.contains(p));
                        assert(before.contains(p));
                    }
                }
            }
        }
        r += 1;
    }
    proof {
        let bp = branch_pages(pages, types, keys, children, h, lo as int, hi as int);
        let all = pages_upto(pages, types, keys, children, h, lo as int, hi as int, n as int);
        assert(bp =~= all);
        assert(branch_wf(pages, types, keys, children, h, lo as int, hi as int));
        assert(!bp.contains(id as int)) by {
            if bp.contains(id as int) {
                let j = choose|j: int|
                    0 <= j < n && (#[trigger] child_pages(
                        pages,
                        types,
                        keys,
                        children,
                        j,
                        h,
                        lo as int,
                        hi as int,
                    )).contains(id as int);
                assert(m1.contains(id as int));
            }
        }
        assert(m0.disjoint(sp)) by {
            assert forall|p: int| m0.contains(p) implies !sp.contains(p) by {
                if bp.contains(p) {
                    let j = choose|j: int|
                        0 <= j < n && (#[trigger] child_pages(
                            pages,
                            types,
                            keys,
                            children,
                            j,
                            h,
                            lo as int,
                            hi as int,
                        )).contains(p);
                    assert(m1.contains(p));
                }
            }
        }
        assert(marked(marks@) =~= m0.union(sp));
    }
    true
}

} // verus!
