//! A B-tree over fixed-size pages: the page store, the node layout and its
//! codec, and the tree operations built on them.
//!
//! A table is one store of pages. Page zero is the header, which names
//! the columns, the root page and the height of the tree. Every other
//! page holds one node. Keys are 32-bit numbers; a row is stored in the
//! leaf that answers for its key.

pub mod audit;
pub mod branch;
pub mod bytes;
pub mod codec;
pub mod header;
pub mod insert;
pub mod laws;
pub mod node;
pub mod page;
pub mod scan;
pub mod shape;
pub mod tree;

pub use node::BTreeNode;
pub use node::DataCell;
pub use node::KeyCell;
pub use page::BTreeError;
pub use page::PageStore;

use vstd::prelude::*;
use audit::audit;
use audit::marked;
use branch::lemma_get_ok;
use branch::lemma_root_grown;
use branch::stored_node;
use codec::cell_fits;
use codec::encode_page;
use header::encode_header;
use node::empty_leaf;
use codec::row_fits;
use crate::db::Row;
use crate::db::Schema;
use crate::db::ValueView;
use crate::db::types_of;
use header::HeaderView;
use header::decode_header;
use header::header_fits;
use header::lemma_decode_encode_header;
use header::read_header;
use header::set_root;
use header::write_header;
use insert::insert_rec;
use insert::store_node;
use insert::subtree_inserted;
use insert::updated;
use insert::split_count;
use insert::splits;
use codec::decode_page;
use laws::leaf_depth;
use laws::lemma_keys_are_found;
use laws::lemma_keys_in_order;
use laws::lemma_leaves_level;
use laws::subtree_keys;
use node::CellView;
use node::ascending;
use scan::covered;
use scan::scan_range;
use shape::lemma_pages_in_store;
use shape::subtree_wf;
use tree::KEY_LIMIT;
use tree::descend;
use tree::load;
use tree::peek_row;
use tree::route_of;
use tree::node_at;
use tree::subtree_get;

verus! {

/// A table: the pages of its file, what its header says, and the root
/// node, which is kept in memory between operations. The pages are read
/// and written through the tree alone.
pub struct BTree {
    store: PageStore,
    schema: Schema,
    root: u32,
    height: u32,
    /// The root node, where it is held in memory.
    resident: Option<BTreeNode>,
}

impl View for BTree {
    type V = Map<u32, Seq<ValueView>>;

    /// The rows of the table by key: what a lookup finds.
    open spec fn view(&self) -> Map<u32, Seq<ValueView>> {
        Map::new(
            |k: u32| self.find(k) is Ok && self.find(k)->Ok_0 is Some,
            |k: u32| self.find(k)->Ok_0->0,
        )
    }
}

impl BTree {
    /// The node that is held in memory is the node of the root page.
    #[verifier::type_invariant]
    spec fn resident_is_root(&self) -> bool {
        match self.resident {
            Some(node) => node_at(
                self.store@,
                self.schema.types(),
                self.root as int,
                self.height == 0,
                0,
                KEY_LIMIT as int,
            ) == Ok::<node::NodeView, BTreeError>(node@),
            None => true,
        }
    }

    /// The pages of the table.
    pub closed spec fn pages(&self) -> Seq<Seq<u8>> {
        self.store@
    }

    /// The columns of the table.
    pub closed spec fn spec_schema(&self) -> Schema {
        self.schema
    }

    /// The page of the root node.
    pub closed spec fn spec_root(&self) -> u32 {
        self.root
    }

    /// Number of levels between the root and the leaves.
    pub closed spec fn spec_height(&self) -> u32 {
        self.height
    }

    /// What a descent from the root finds under `key`.
    pub open spec fn find(&self, key: u32) -> Result<Option<Seq<ValueView>>, BTreeError> {
        subtree_get(
            self.pages(),
            self.spec_schema().types(),
            self.spec_root() as int,
            self.spec_height() as nat,
            0,
            KEY_LIMIT as int,
            key,
        )
    }

    /// Whether the table is well formed: the header says what the table
    /// holds, and the pages under the root are a well-formed tree for all keys.
    pub open spec fn wf(&self) -> bool {
        &&& self.pages().len() > 0
        &&& decode_header(self.pages()[0]) == Some(
            HeaderView {
                columns: self.spec_schema()@,
                root: self.spec_root(),
                height: self.spec_height(),
            },
        )
        &&& subtree_wf(
            self.pages(),
            self.spec_schema().types(),
            self.spec_root() as int,
            self.spec_height() as nat,
            0,
            KEY_LIMIT as int,
        )
    }

    /// Whether `row` can be stored under `key`: its values have the types
    /// of the columns, and key and row fit a leaf cell.
    pub open spec fn admits(&self, key: u32, row: Seq<ValueView>) -> bool {
        &&& types_of(row) == self.spec_schema().types()
        &&& cell_fits(CellView { key, row })
    }

    /// Whether the store has room for the pages that one insertion may
    /// need: one for each level and one for a new root.
    pub open spec fn has_room(&self) -> bool {
        self.pages().len() + self.spec_height() + 1 <= u32::MAX
    }

    /// Whether an insertion of `key` splits the root, so that the tree
    /// grows by one level.
    pub open spec fn root_splits(&self, key: u32) -> bool {
        splits(
            self.pages(),
            self.spec_schema().types(),
            self.spec_root() as int,
            self.spec_height() as nat,
            0,
            KEY_LIMIT as int,
            key,
        )
    }

    /// Number of pages that an insertion of `key` adds: one for each node
    /// that it splits, and one for the new root where the root is split.
    pub open spec fn new_pages(&self, key: u32) -> nat {
        split_count(
            self.pages(),
            self.spec_schema().types(),
            self.spec_root() as int,
            self.spec_height() as nat,
            0,
            KEY_LIMIT as int,
            key,
        ) + if self.root_splits(key) {
            1nat
        } else {
            0nat
        }
    }

    /// Whether pages, root and height of `self` are those of `other`.
    pub open spec fn same_as(&self, other: &BTree) -> bool {
        &&& self.pages() == other.pages()
        &&& self.spec_root() == other.spec_root()
        &&& self.spec_height() == other.spec_height()
        &&& self.spec_schema() == other.spec_schema()
    }
}

impl BTree {
    /// A new, empty table with the given columns: a header page and one
    /// empty leaf, which is the root.
    pub fn create(schema: Schema) -> (tree: BTree)
        requires
            header_fits(schema@),
        ensures
            tree.wf(),
            tree@ == Map::<u32, Seq<ValueView>>::empty(),
            tree.spec_schema() == schema,
            tree.spec_root() == 1,
            tree.spec_height() == 0,
            tree.pages() == seq![
                encode_header(HeaderView { columns: schema@, root: 1, height: 0 }),
                encode_page(empty_leaf()),
            ],
    {
        let mut pages: Vec<[u8; 4096]> = Vec::new();
        pages.push([0u8; 4096]);
        pages.push([0u8; 4096]);
        let mut store = PageStore::from_pages(pages);
        let leaf = BTreeNode::new_leaf();
        store_node(&mut store, &schema, 1, &leaf);
        let header = write_header(&schema, 1, 0);
        let _ = store.write_page(0, &header);
        proof {
            node::lemma_keys_len(leaf@);
            assert(node_at(store@, schema.types(), 1, true, 0, KEY_LIMIT as int) == Ok::<
                node::NodeView,
                BTreeError,
            >(leaf@));
        }
        let tree = BTree { store, schema, root: 1, height: 0, resident: Some(leaf) };
        proof {
            assert(tree.pages() =~= seq![
                encode_header(HeaderView { columns: schema@, root: 1, height: 0 }),
                encode_page(empty_leaf()),
            ]);
            lemma_decode_encode_header(HeaderView { columns: schema@, root: 1, height: 0 });
            node::lemma_keys_len(leaf@);
            assert(node_at(tree.pages(), schema.types(), 1, true, 0, KEY_LIMIT as int) == Ok::<
                node::NodeView,
                BTreeError,
            >(leaf@));
            assert forall|k: u32| tree.find(k) == Ok::<Option<Seq<ValueView>>, BTreeError>(
                None,
            ) by {}
            assert(tree@ =~= Map::<u32, Seq<ValueView>>::empty());
        }
        tree
    }

    /// The table that a store holds, as its header page says. Fails with
    /// `IoError` where the store has no page, and with `CorruptPage` where
    /// page zero is no header.
    pub fn open(store: PageStore) -> (r: Result<BTree, BTreeError>)
        ensures
            match r {
                Ok(tree) => {
                    &&& tree.pages() == store@
                    &&& store@.len() > 0
                    &&& decode_header(store@[0]) == Some(
                        HeaderView {
                            columns: tree.spec_schema()@,
                            root: tree.spec_root(),
                            height: tree.spec_height(),
                        },
                    )
                },
                Err(e) => if store@.len() == 0 {
                    e == BTreeError::IoError
                } else {
                    e == BTreeError::CorruptPage && decode_header(store@[0]) is None
                },
            },
    {
        let page = match store.read_page(0) {
            Ok(page) => page,
            Err(e) => {
                return Err(e);
            },
        };
        match read_header(&page) {
            Some((schema, root, height)) => {
                let resident = match load(&store, &schema, root, height == 0, 0, KEY_LIMIT) {
                    Ok(node) => Some(node),
                    Err(_) => None,
                };
                Ok(BTree { store, schema, root, height, resident })
            },
            None => Err(BTreeError::CorruptPage),
        }
    }

    /// The pages of the table, for reading.
    pub fn store(&self) -> (store: &PageStore)
        ensures
            store@ == self.pages(),
    {
        &self.store
    }

    /// Gives up the table for its pages.
    pub fn into_store(self) -> (store: PageStore)
        ensures
            store@ == self.pages(),
    {
        self.store
    }

    /// The columns of the table.
    pub fn schema(&self) -> (schema: &Schema)
        ensures
            *schema == self.spec_schema(),
    {
        &self.schema
    }

    /// The page of the root node.
    pub fn root(&self) -> (root: u32)
        ensures
            root == self.spec_root(),
    {
        self.root
    }

    /// Number of levels between the root and the leaves.
    pub fn height(&self) -> (height: u32)
        ensures
            height == self.spec_height(),
    {
        self.height
    }

    /// Whether the table is well formed, found by reading the header
    /// and walking the whole tree.
    pub fn is_well_formed(&self) -> (ok: bool)
        ensures
            ok == self.wf(),
    {
        let page = match self.store.read_page(0) {
            Ok(page) => page,
            Err(_) => {
                return false;
            },
        };
        match read_header(&page) {
            Some((schema, root, height)) => {
                if root != self.root || height != self.height || !schema.same_columns(
                    &self.schema,
                ) {
                    return false;
                }
            },
            None => {
                return false;
            },
        }
        let n: usize = self.store.len();
        let mut marks: Vec<bool> = Vec::new();
        let mut i: usize = 0;
        while i < n
            invariant
                i <= n,
                marks.len() == i,
                forall|j: int| 0 <= j < i ==> !marks@[j],
            decreases n - i,
        {
            marks.push(false);
            i += 1;
        }
        proof {
            assert(marked(marks@) =~= Set::<int>::empty());
        }
        audit(&self.store, &self.schema, self.root, self.height, 0, KEY_LIMIT, &mut marks)
    }

    /// Whether `row` can be stored under `key`.
    pub fn accepts(&self, key: u32, row: &Row) -> (ok: bool)
        ensures
            ok == self.admits(key, row.deep_view()),
    {
        let ghost rv = row.deep_view();
        let n: usize = row.len();
        if n != self.schema.len() {
            proof {
                assert(types_of(rv).len() != self.schema.types().len());
            }
            return false;
        }
        let mut i: usize = 0;
        while i < n
            invariant
                i <= n,
                n == row.len(),
                n == self.schema@.len(),
                rv == row.deep_view(),
                forall|j: int| 0 <= j < i ==> types_of(rv)[j] == self.schema.types()[j],
            decreases n - i,
        {
            proof {
                assert(rv[i as int] == row@[i as int]@);
            }
            if row[i].val_to_type() != self.schema.column_type(i) {
                assert(types_of(rv)[i as int] != self.schema.types()[i as int]);
                return false;
            }
            i += 1;
        }
        proof {
            assert(types_of(rv) =~= self.schema.types());
        }
        let fits = row_fits(row);
        proof {
            assert(fits == cell_fits(CellView { key, row: rv }));
        }
        fits
    }

    /// The row stored under `key`, if there is one: the result of a
    /// descent from the root, with the error that stopped it, if any did.
    pub fn lookup(&self, key: u32) -> (r: Result<Option<Row>, BTreeError>)
        ensures
            match r {
                Ok(Some(row)) => self.find(key) == Ok::<Option<Seq<ValueView>>, BTreeError>(
                    Some(row.deep_view()),
                ),
                Ok(None) => self.find(key) == Ok::<Option<Seq<ValueView>>, BTreeError>(None),
                Err(e) => self.find(key) == Err::<Option<Seq<ValueView>>, BTreeError>(e),
            },
    {
        proof {
            use_type_invariant(self);
        }
        match &self.resident {
            Some(node) => {
                if self.height == 0 {
                    Ok(peek_row(node, key))
                } else {
                    let n: usize = node.len();
                    let r: usize = route_of(node, key);
                    proof {
                        node::lemma_keys_ascending(node@);
                        node::lemma_keys_len(node@);
                        tree::lemma_route_in_range(node@.keys(), key, 0, KEY_LIMIT as int);
                    }
                    let lo: u32 = if r > 0 {
                        node.key_at(r)
                    } else {
                        0
                    };
                    let hi: u64 = if r + 1 < n {
                        node.key_at(r + 1) as u64
                    } else {
                        KEY_LIMIT
                    };
                    let child = node.child_at(r);
                    descend(&self.store, &self.schema, child, self.height - 1, lo, hi, key)
                }
            },
            None => descend(&self.store, &self.schema, self.root, self.height, 0, KEY_LIMIT, key),
        }
    }

    /// Stores `row` under `key`, in place of the row that was stored
    /// under it, if there was one. Fails with `IoError`, changing nothing,
    /// where the store lacks room; fails with the error of the descent for
    /// `key`, changing nothing, where that descent fails; succeeds
    /// otherwise. On a well-formed table the result is a well-formed
    /// table in which `key` finds `row` and every other key finds what it
    /// found before; the tree has grown by one level where the root was
    /// split, and not at all otherwise.
    pub fn insert(&mut self, key: u32, row: Row) -> (r: Result<(), BTreeError>)
        requires
            old(self).admits(key, row.deep_view()),
        ensures
            final(self).spec_schema() == old(self).spec_schema(),
            old(self).pages().len() <= final(self).pages().len() <= old(self).pages().len() + old(self).spec_height()
                + 2,
            !old(self).has_room() ==> r == Err::<(), BTreeError>(BTreeError::IoError) && final(self).same_as(old(self)),
            old(self).has_room() ==> match old(self).find(key) {
                Err(e) => r == Err::<(), BTreeError>(e) && final(self).same_as(old(self)),
                Ok(_) => r is Ok,
            },
            r is Ok ==> {
                &&& final(self).pages().len() == old(self).pages().len() + old(self).new_pages(key)
                &&& final(self).spec_height() == old(self).spec_height() + if old(self).root_splits(
                    key,
                ) {
                    1int
                } else {
                    0int
                }
                &&& !old(self).root_splits(key) ==> final(self).spec_root() == old(self).spec_root()
                &&& old(self).root_splits(key) ==> {
                    &&& final(self).spec_root() == final(self).pages().len() - 1
                    &&& decode_page(
                        final(self).pages()[final(self).spec_root() as int],
                        final(self).spec_schema().types(),
                    ) matches Some(top) && top is Internal && top.keys().len() == 2
                        && top.children().len() == 2 && top.keys()[0] == 0 && top.children()[0]
                        == old(self).spec_root()
                }
            },
            old(self).wf() && old(self).has_room() ==> r is Ok,
            old(self).wf() && r is Ok ==> {
                &&& final(self).wf()
                &&& forall|k: u32| #[trigger]
                    final(self).find(k) == updated(old(self).find(k), k, key, row.deep_view())
                &&& final(self)@ == old(self)@.insert(key, row.deep_view())
                &&& old(self).spec_height() <= final(self).spec_height() <= old(self).spec_height() + 1
            },
    {
        let ghost pages0 = self.store@;
        let ghost types = self.schema.types();
        let ghost rv = row.deep_view();
        let ghost root0 = self.root;
        let ghost h0 = self.height;
        let ghost wf0 = old(self).wf();
        proof {
            use_type_invariant(&*self);
            if wf0 {
                lemma_get_ok(pages0, types, root0 as int, h0 as nat, 0, KEY_LIMIT as int, key);
            }
        }
        let n: usize = self.store.len();
        if n > u32::MAX as usize || self.height as usize >= u32::MAX as usize - n {
            return Err(BTreeError::IoError);
        }
        // The pages and the root node are taken out of the table while
        // they change, and put back when they fit each other again.
        let mut held: Option<BTreeNode> = None;
        core::mem::swap(&mut self.resident, &mut held);
        let mut store = PageStore::from_pages(Vec::new());
        core::mem::swap(&mut self.store, &mut store);
        let res = insert_rec(&mut store, &self.schema, self.root, self.height, 0, KEY_LIMIT, key, row);
        let ghost pages1 = store@;
        proof {
            if wf0 && res is Ok {
                reveal(subtree_inserted);
                lemma_pages_in_store(pages0, types, root0 as int, h0 as nat, 0, KEY_LIMIT as int);
                assert(pages1[0] == pages0[0]);
            }
        }
        let cell = match res {
            Err(e) => {
                self.store = store;
                self.resident = held;
                return Err(e);
            },
            Ok(None) => {
                self.store = store;
                self.resident = match load(
                    &self.store,
                    &self.schema,
                    self.root,
                    self.height == 0,
                    0,
                    KEY_LIMIT,
                ) {
                    Ok(node) => Some(node),
                    Err(_) => None,
                };
                proof {
                    if wf0 {
                        assert forall|k: u32| #[trigger]
                            self.find(k) == updated(old(self).find(k), k, key, rv) by {}
                        assert(self@ =~= old(self)@.insert(key, rv));
                    }
                }
                return Ok(());
            },
            Ok(Some(cell)) => cell,
        };
        let mut top = BTreeNode::new_internal();
        proof {
            node::lemma_keys_len(top@);
        }
        top.insert_child(0, KeyCell { key: 0, page_id: self.root });
        proof {
            node::lemma_keys_len(top@);
        }
        top.insert_child(1, cell);
        proof {
            assert(top@.keys() =~= seq![0u32, cell.key]);
            assert(top@.children() =~= seq![root0, cell.page_id]);
        }
        let new_root: u32 = match store.allocate_page() {
            Ok(id) => id,
            Err(e) => {
                self.store = store;
                return Err(e);
            },
        };
        store_node(&mut store, &self.schema, new_root, &top);
        let mut page = match store.read_page(0) {
            Ok(page) => page,
            Err(e) => {
                self.store = store;
                return Err(e);
            },
        };
        set_root(&mut page, new_root, self.height + 1);
        let _ = store.write_page(0, &page);
        self.store = store;
        self.root = new_root;
        self.height = self.height + 1;
        proof {
            assert(node_at(self.store@, types, new_root as int, false, 0, KEY_LIMIT as int) == Ok::<
                node::NodeView,
                BTreeError,
            >(top@));
        }
        self.resident = Some(top);
        proof {
            if wf0 {
                let pages2 = self.store@;
                assert(stored_node(
                    pages2,
                    types,
                    new_root as int,
                    seq![0u32, cell.key],
                    seq![root0, cell.page_id],
                ));
                lemma_root_grown(
                    pages0,
                    pages1,
                    pages2,
                    types,
                    root0 as int,
                    new_root as int,
                    h0 as nat,
                    KEY_LIMIT as int,
                    key,
                    rv,
                    cell,
                );
                assert forall|k: u32| #[trigger]
                    self.find(k) == updated(old(self).find(k), k, key, rv) by {}
                assert(self@ =~= old(self)@.insert(key, rv));
            }
        }
        Ok(())
    }
}

impl BTree {
    /// Whether `cells` are the cells of the keys `lo..=hi`, in ascending
    /// order of key.
    pub open spec fn scanned(&self, lo: u32, hi: u32, cells: Seq<CellView>) -> bool {
        covered(
            self.pages(),
            self.spec_schema().types(),
            self.spec_root() as int,
            self.spec_height() as nat,
            lo as int,
            hi + 1,
            cells,
        )
    }

    /// The cells of the keys `lo..=hi`, in ascending order of key. Fails
    /// with the error of a descent for a key of the range, where one
    /// fails; on a well-formed table none does.
    pub fn scan(&self, lo: u32, hi: u32) -> (r: Result<Vec<DataCell>, BTreeError>)
        ensures
            match r {
                Ok(cells) => self.scanned(lo, hi, cells.deep_view()),
                Err(e) => exists|k: u32|
                    lo <= k <= hi && #[trigger] self.find(k) == Err::<
                        Option<Seq<ValueView>>,
                        BTreeError,
                    >(e),
            },
            self.wf() ==> r is Ok,
    {
        let r = scan_range(&self.store, &self.schema, self.root, self.height, lo, hi);
        proof {
            if r is Err {
                let k = choose|k: u32|
                    lo <= k <= hi && #[trigger] subtree_get(
                        self.pages(),
                        self.spec_schema().types(),
                        self.spec_root() as int,
                        self.spec_height() as nat,
                        0,
                        KEY_LIMIT as int,
                        k,
                    ) == Err::<Option<Seq<ValueView>>, BTreeError>(r->Err_0);
                assert(self.find(k) == Err::<Option<Seq<ValueView>>, BTreeError>(r->Err_0));
                if self.wf() {
                    self.lemma_find_ok(k);
                }
            }
        }
        r
    }

    /// The keys of the leaves, leaf after leaf from the lowest rank to
    /// the highest.
    pub open spec fn keys_in_order(&self) -> Seq<u32> {
        subtree_keys(
            self.pages(),
            self.spec_schema().types(),
            self.spec_root() as int,
            self.spec_height() as nat,
            0,
            KEY_LIMIT as int,
        )
    }

    /// On a well-formed table every descent ends at a leaf, without error.
    pub proof fn lemma_find_ok(&self, key: u32)
        requires
            self.wf(),
        ensures
            self.find(key) is Ok,
    {
        lemma_get_ok(
            self.pages(),
            self.spec_schema().types(),
            self.spec_root() as int,
            self.spec_height() as nat,
            0,
            KEY_LIMIT as int,
            key,
        );
    }

    /// The keys of the leaves of a well-formed table, read leaf after
    /// leaf, ascend strictly: none stands twice, and none out of order.
    pub proof fn lemma_order(&self)
        requires
            self.wf(),
        ensures
            ascending(self.keys_in_order()),
    {
        lemma_keys_in_order(
            self.pages(),
            self.spec_schema().types(),
            self.spec_root() as int,
            self.spec_height() as nat,
            0,
            KEY_LIMIT as int,
        );
    }

    /// The keys of the leaves of a well-formed table are the keys of its
    /// rows: a key stands among them where a lookup finds a row under it,
    /// and only there. With the order of the keys this says that each key
    /// that has a row has one cell, and no other key has any.
    pub proof fn lemma_one_cell_each(&self, key: u32)
        requires
            self.wf(),
        ensures
            self.keys_in_order().contains(key) <==> self@.dom().contains(key),
    {
        lemma_keys_are_found(
            self.pages(),
            self.spec_schema().types(),
            self.spec_root() as int,
            self.spec_height() as nat,
            0,
            KEY_LIMIT as int,
            key,
        );
    }

    /// All leaves of a well-formed table stand at the same depth: the
    /// descent for any key passes as many internal nodes as the tree is high.
    pub proof fn lemma_leaves_at_height(&self, key: u32)
        requires
            self.wf(),
        ensures
            leaf_depth(
                self.pages(),
                self.spec_schema().types(),
                self.spec_root() as int,
                key,
                self.spec_height() as nat,
            ) == Some(self.spec_height() as nat),
    {
        lemma_leaves_level(
            self.pages(),
            self.spec_schema().types(),
            self.spec_root() as int,
            self.spec_height() as nat,
            0,
            KEY_LIMIT as int,
            key,
            self.spec_height() as nat,
        );
    }
}

/// A row that was stored under a key is found under it at once, and is
/// still found under it after any number of rows were stored under other
/// keys. `tables` are the table before the first insertion and after each
/// insertion, `keys` and `rows` what was inserted.
pub proof fn lemma_lookup_after_insert(
    tables: Seq<BTree>,
    keys: Seq<u32>,
    rows: Seq<Seq<ValueView>>,
    i: int,
)
    requires
        tables.len() == keys.len() + 1,
        rows.len() == keys.len(),
        forall|j: int, k: u32|
            0 <= j < keys.len() ==> tables[j + 1].find(k) == #[trigger] updated(
                tables[j].find(k),
                k,
                keys[j],
                rows[j],
            ),
        forall|j: int| 1 <= j < keys.len() ==> #[trigger] keys[j] != keys[0],
        1 <= i < tables.len(),
    ensures
        tables[i].find(keys[0]) == Ok::<Option<Seq<ValueView>>, BTreeError>(Some(rows[0])),
        tables[i]@.dom().contains(keys[0]) && tables[i]@[keys[0]] == rows[0],
    decreases i,
{
    assert(tables[(i - 1) + 1].find(keys[0]) == updated(
        tables[i - 1].find(keys[0]),
        keys[0],
        keys[i - 1],
        rows[i - 1],
    ));
    if i > 1 {
        lemma_lookup_after_insert(tables, keys, rows, i - 1);
    }
}

/// Where two rows are stored under one key, one after the other, the
/// key finds the second row, and the table is what it would be had the
/// first row never been stored.
pub proof fn lemma_overwrite(
    before: BTree,
    after: BTree,
    later: BTree,
    key: u32,
    first: Seq<ValueView>,
    second: Seq<ValueView>,
)
    requires
        forall|k: u32| #[trigger] after.find(k) == updated(before.find(k), k, key, first),
        forall|k: u32| #[trigger] later.find(k) == updated(after.find(k), k, key, second),
    ensures
        later.find(key) == Ok::<Option<Seq<ValueView>>, BTreeError>(Some(second)),
        forall|k: u32| #[trigger] later.find(k) == updated(before.find(k), k, key, second),
        later@ == before@.insert(key, second),
{
    assert forall|k: u32| #[trigger] later.find(k) == updated(before.find(k), k, key, second) by {
        assert(after.find(k) == updated(before.find(k), k, key, first));
        assert(later.find(k) == updated(after.find(k), k, key, second));
    }
    assert(later@ =~= before@.insert(key, second));
}

} // verus!
