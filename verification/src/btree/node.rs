//! The in-memory form of a B-tree node and its mathematical model.

use vstd::prelude::*;
use crate::db::DBType;
use crate::db::Row;
use crate::db::ValueView;
use crate::db::types_of;
use super::codec::cell_fits;
use super::codec::storable;

verus! {

/// An entry of an internal node: a key and the page of the child that holds
/// the keys from this key up to the next entry's key.
#[derive(Clone, Copy, Debug, PartialEq, Eq, Structural)]
pub struct KeyCell {
    pub key: u32,
    pub page_id: u32,
}

/// An entry of a leaf node: a key and the row stored under it.
#[derive(Debug, PartialEq)]
pub struct DataCell {
    pub key: u32,
    pub row: Row,
}

/// The mathematical content of a [`DataCell`].
pub struct CellView {
    pub key: u32,
    pub row: Seq<ValueView>,
}

impl View for DataCell {
    type V = CellView;

    open spec fn view(&self) -> CellView {
        CellView { key: self.key, row: self.row.deep_view() }
    }
}

impl DeepView for DataCell {
    type V = CellView;

    open spec fn deep_view(&self) -> CellView {
        self@
    }
}

/// A node of the tree, as it is held in memory between decoding and
/// encoding. Cells live in numbered slots; `freecells[s]` says whether slot
/// `s` is occupied, and `pointers` lists the occupied slots in ascending key
/// order, so that a cell never moves once it is written.
#[derive(Debug, PartialEq)]
#[allow(inconsistent_fields)]
pub enum BTreeNode {
    Internal { freecells: [bool; 256], pointers: [u8; 256], cells: [KeyCell; 256] },
    Leaf { freecells: [bool; 64], pointers: [u8; 64], data_cells: Vec<DataCell> },
}

/// The mathematical content of a [`BTreeNode`].
#[allow(inconsistent_fields)]
pub enum NodeView {
    Internal { freecells: Seq<bool>, pointers: Seq<u8>, cells: Seq<KeyCell> },
    Leaf { freecells: Seq<bool>, pointers: Seq<u8>, data_cells: Seq<CellView> },
}

impl View for BTreeNode {
    type V = NodeView;

    open spec fn view(&self) -> NodeView {
        match *self {
            BTreeNode::Internal { freecells, pointers, cells } => NodeView::Internal {
                freecells: freecells@,
                pointers: pointers@,
                cells: cells@,
            },
            BTreeNode::Leaf { freecells, pointers, data_cells } => NodeView::Leaf {
                freecells: freecells@,
                pointers: pointers@,
                data_cells: data_cells.deep_view(),
            },
        }
    }
}

impl NodeView {
    /// Number of slots of a node of this kind.
    pub open spec fn capacity(self) -> int {
        match self {
            NodeView::Internal { .. } => 256,
            NodeView::Leaf { .. } => 64,
        }
    }

    /// The occupancy flags, one for each slot.
    pub open spec fn flags(self) -> Seq<bool> {
        match self {
            NodeView::Internal { freecells, .. } => freecells,
            NodeView::Leaf { freecells, .. } => freecells,
        }
    }

    /// The slot directory: the slot of each rank.
    pub open spec fn directory(self) -> Seq<u8> {
        match self {
            NodeView::Internal { pointers, .. } => pointers,
            NodeView::Leaf { pointers, .. } => pointers,
        }
    }

    /// Every array of the node has as many entries as the node has slots.
    pub open spec fn shaped(self) -> bool {
        match self {
            NodeView::Internal { freecells, pointers, cells } => {
                &&& freecells.len() == 256
                &&& pointers.len() == 256
                &&& cells.len() == 256
            },
            NodeView::Leaf { freecells, pointers, data_cells } => {
                &&& freecells.len() == 64
                &&& pointers.len() == 64
                &&& data_cells.len() == 64
            },
        }
    }
}

/// Number of occupied slots among the first `n`.
pub open spec fn count_occupied(flags: Seq<bool>, n: int) -> int
    decreases n,
{
    if n <= 0 {
        0
    } else {
        count_occupied(flags, n - 1) + if flags[n - 1] {
            1int
        } else {
            0int
        }
    }
}

/// Among `n` slots, between none and all are occupied.
pub proof fn lemma_count_bounds(flags: Seq<bool>, n: int)
    requires
        0 <= n,
    ensures
        0 <= count_occupied(flags, n) <= n,
    decreases n,
{
    if n > 0 {
        lemma_count_bounds(flags, n - 1);
    }
}

/// Changing one flag changes the count by that flag alone.
pub proof fn lemma_count_update(flags: Seq<bool>, n: int, s: int, b: bool)
    requires
        0 <= s < flags.len(),
        0 <= n <= flags.len(),
    ensures
        count_occupied(flags.update(s, b), n) == count_occupied(flags, n) + if s < n {
            (if b {
                1int
            } else {
                0int
            }) - (if flags[s] {
                1int
            } else {
                0int
            })
        } else {
            0int
        },
    decreases n,
{
    if n > 0 {
        lemma_count_update(flags, n - 1, s, b);
    }
}

/// Where fewer than `n` of the first `n` slots are occupied, one of them is free.
pub proof fn lemma_count_free(flags: Seq<bool>, n: int)
    requires
        0 <= n,
        forall|i: int| 0 <= i < n ==> flags[i],
    ensures
        count_occupied(flags, n) == n,
    decreases n,
{
    if n > 0 {
        lemma_count_free(flags, n - 1);
    }
}

/// Two flag arrays that agree on the first `n` slots have the same count there.
pub proof fn lemma_count_agree(a: Seq<bool>, b: Seq<bool>, n: int)
    requires
        0 <= n,
        forall|i: int| 0 <= i < n ==> a[i] == b[i],
    ensures
        count_occupied(a, n) == count_occupied(b, n),
    decreases n,
{
    if n > 0 {
        lemma_count_agree(a, b, n - 1);
    }
}

impl NodeView {
    /// Number of cells that the node holds.
    pub open spec fn len(self) -> int {
        count_occupied(self.flags(), self.capacity())
    }

    /// Key of the cell in slot `s`.
    pub open spec fn slot_key(self, s: int) -> u32 {
        match self {
            NodeView::Internal { cells, .. } => cells[s].key,
            NodeView::Leaf { data_cells, .. } => data_cells[s].key,
        }
    }

    /// Slot of the cell of rank `r`.
    pub open spec fn slot(self, r: int) -> int {
        self.directory()[r] as int
    }

    /// The keys of the node, in rank order.
    pub open spec fn keys(self) -> Seq<u32> {
        Seq::new(self.len() as nat, |r: int| self.slot_key(self.slot(r)))
    }

    /// The child pages of an internal node, in rank order.
    pub open spec fn children(self) -> Seq<u32> {
        match self {
            NodeView::Internal { cells, .. } => Seq::new(
                self.len() as nat,
                |r: int| cells[self.slot(r)].page_id,
            ),
            NodeView::Leaf { .. } => Seq::empty(),
        }
    }

    /// The rows of a leaf node, in rank order.
    pub open spec fn rows(self) -> Seq<Seq<ValueView>> {
        match self {
            NodeView::Internal { .. } => Seq::empty(),
            NodeView::Leaf { data_cells, .. } => Seq::new(
                self.len() as nat,
                |r: int| data_cells[self.slot(r)].row,
            ),
        }
    }

    /// The directory invariant: the first `len` directory entries name
    /// occupied slots, and their keys ascend strictly.
    pub open spec fn ordered(self) -> bool {
        &&& self.shaped()
        &&& forall|r: int|
            0 <= r < self.len() ==> #[trigger] self.slot(r) < self.capacity() && self.flags()[self.slot(
                r,
            )]
        &&& forall|r1: int, r2: int|
            0 <= r1 < r2 < self.len() ==> self.slot_key(#[trigger] self.slot(r1)) < self.slot_key(
                #[trigger] self.slot(r2),
            )
    }
}

/// The free slot of lowest index at or behind `from`, or the number of
/// slots where none is free.
pub open spec fn first_free(flags: Seq<bool>, from: int) -> int
    decreases flags.len() - from,
{
    if 0 <= from < flags.len() && flags[from] {
        first_free(flags, from + 1)
    } else {
        from
    }
}

/// A free slot behind occupied slots is the first free slot.
pub proof fn lemma_first_free(flags: Seq<bool>, s: int, from: int)
    requires
        0 <= from <= s < flags.len(),
        !flags[s],
        forall|t: int| from <= t < s ==> flags[t],
    ensures
        first_free(flags, from) == s,
    decreases s - from,
{
    if from < s {
        lemma_first_free(flags, s, from + 1);
    }
}

/// A directory of `n` entries with `slot` put in at rank `rank`: the
/// entries from that rank on stand one rank higher.
pub open spec fn directory_with(pointers: Seq<u8>, n: int, rank: int, slot: u8) -> Seq<u8> {
    Seq::new(
        pointers.len(),
        |r: int|
            if r < rank {
                pointers[r]
            } else if r == rank {
                slot
            } else if r <= n {
                pointers[r - 1]
            } else {
                pointers[r]
            },
    )
}

/// A directory of `n` entries with the entry of rank `rank` taken out:
/// the entries behind it stand one rank lower, and a zero stands where
/// the last entry stood.
pub open spec fn directory_without(pointers: Seq<u8>, n: int, rank: int) -> Seq<u8> {
    Seq::new(
        pointers.len(),
        |r: int|
            if r < rank {
                pointers[r]
            } else if r < n - 1 {
                pointers[r + 1]
            } else if r == n - 1 {
                0u8
            } else {
                pointers[r]
            },
    )
}

impl NodeView {
    /// An internal node with `cell` put in at rank `rank`: the cell
    /// stands in the free slot of lowest index.
    pub open spec fn with_child(self, rank: int, cell: KeyCell) -> NodeView {
        let s = first_free(self.flags(), 0);
        match self {
            NodeView::Internal { freecells, pointers, cells } => NodeView::Internal {
                freecells: freecells.update(s, true),
                pointers: directory_with(pointers, self.len(), rank, s as u8),
                cells: cells.update(s, cell),
            },
            NodeView::Leaf { .. } => self,
        }
    }

    /// A leaf node with `cell` put in at rank `rank`: the cell stands in
    /// the free slot of lowest index.
    pub open spec fn with_row(self, rank: int, cell: CellView) -> NodeView {
        let s = first_free(self.flags(), 0);
        match self {
            NodeView::Internal { .. } => self,
            NodeView::Leaf { freecells, pointers, data_cells } => NodeView::Leaf {
                freecells: freecells.update(s, true),
                pointers: directory_with(pointers, self.len(), rank, s as u8),
                data_cells: data_cells.update(s, cell),
            },
        }
    }

    /// A node with the cell of rank `rank` taken out: its slot is free,
    /// and in a leaf it is empty.
    pub open spec fn without(self, rank: int) -> NodeView {
        let s = self.slot(rank);
        match self {
            NodeView::Internal { freecells, pointers, cells } => NodeView::Internal {
                freecells: freecells.update(s, false),
                pointers: directory_without(pointers, self.len(), rank),
                cells,
            },
            NodeView::Leaf { freecells, pointers, data_cells } => NodeView::Leaf {
                freecells: freecells.update(s, false),
                pointers: directory_without(pointers, self.len(), rank),
                data_cells: data_cells.update(s, CellView { key: 0, row: Seq::empty() }),
            },
        }
    }
}

/// An internal node that holds no cell.
pub open spec fn empty_internal() -> NodeView {
    NodeView::Internal {
        freecells: Seq::new(256, |s: int| false),
        pointers: Seq::new(256, |r: int| 0u8),
        cells: Seq::new(256, |s: int| KeyCell { key: 0, page_id: 0 }),
    }
}

/// A leaf node that holds no cell.
pub open spec fn empty_leaf() -> NodeView {
    NodeView::Leaf {
        freecells: Seq::new(64, |s: int| false),
        pointers: Seq::new(64, |r: int| 0u8),
        data_cells: Seq::new(64, |s: int| CellView { key: 0, row: Seq::empty() }),
    }
}

/// The internal node that is built from no cell by putting in `cells`
/// from the last to the first, each at rank 0.
pub open spec fn stack_children(cells: Seq<KeyCell>) -> NodeView
    decreases cells.len(),
{
    if cells.len() == 0 {
        empty_internal()
    } else {
        stack_children(cells.drop_first()).with_child(0, cells[0])
    }
}

/// The leaf node that is built from no cell by putting in `cells` from
/// the last to the first, each at rank 0.
pub open spec fn stack_rows(cells: Seq<CellView>) -> NodeView
    decreases cells.len(),
{
    if cells.len() == 0 {
        empty_leaf()
    } else {
        stack_rows(cells.drop_first()).with_row(0, cells[0])
    }
}

impl NodeView {
    /// The cells of an internal node, in rank order.
    pub open spec fn key_cells(self) -> Seq<KeyCell> {
        Seq::new(self.len() as nat, |r: int| self->Internal_cells[self.slot(r)])
    }

    /// The cells of a leaf node, in rank order.
    pub open spec fn data(self) -> Seq<CellView> {
        Seq::new(self.len() as nat, |r: int| self->Leaf_data_cells[self.slot(r)])
    }

    /// The node with its last `count` cells taken out, one after the
    /// other from the last.
    pub open spec fn trimmed(self, count: nat) -> NodeView
        decreases count,
    {
        if count == 0 {
            self
        } else {
            self.without(self.len() - 1).trimmed((count - 1) as nat)
        }
    }
}

/// Whether `keys` ascend strictly.
pub open spec fn ascending(keys: Seq<u32>) -> bool {
    forall|i: int, j: int| 0 <= i < j < keys.len() ==> keys[i] < keys[j]
}

/// Number of occupied slots.
fn count_flags<const N: usize>(flags: &[bool; N]) -> (n: usize)
    ensures
        n == count_occupied(flags@, N as int),
{
    let mut n: usize = 0;
    let mut i: usize = 0;
    while i < N
        invariant
            i <= N,
            n == count_occupied(flags@, i as int),
            n <= i,
        decreases N - i,
    {
        if flags[i] {
            n += 1;
        }
        i += 1;
    }
    n
}

/// The free slot of lowest index, if there is one.
fn lowest_free<const N: usize>(flags: &[bool; N]) -> (r: Option<usize>)
    ensures
        match r {
            Some(s) => s < N && !flags@[s as int] && forall|t: int| 0 <= t < s ==> flags@[t],
            None => forall|t: int| 0 <= t < N ==> flags@[t],
        },
{
    let mut i: usize = 0;
    while i < N
        invariant
            i <= N,
            forall|t: int| 0 <= t < i ==> flags@[t],
        decreases N - i,
    {
        if !flags[i] {
            return Some(i);
        }
        i += 1;
    }
    None
}

/// Makes room at rank `rank` of a directory that holds `n` entries and
/// puts `slot` there.
fn directory_insert<const N: usize>(pointers: &mut [u8; N], n: usize, rank: usize, slot: u8)
    requires
        rank <= n < N,
    ensures
        forall|r: int| 0 <= r < rank ==> final(pointers)@[r] == old(pointers)@[r],
        final(pointers)@[rank as int] == slot,
        forall|r: int| rank < r <= n ==> final(pointers)@[r] == old(pointers)@[r - 1],
        forall|r: int| n < r < N ==> final(pointers)@[r] == old(pointers)@[r],
{
    let mut j: usize = n;
    while j > rank
        invariant
            rank <= j <= n < N,
            forall|r: int| 0 <= r <= j ==> pointers@[r] == old(pointers)@[r],
            forall|r: int| j < r <= n ==> pointers@[r] == old(pointers)@[r - 1],
            forall|r: int| n < r < N ==> pointers@[r] == old(pointers)@[r],
        decreases j,
    {
        pointers[j] = pointers[j - 1];
        j -= 1;
    }
    pointers[rank] = slot;
}

/// Takes the entry at rank `rank` out of a directory that holds `n`
/// entries, moving the entries behind it down by one.
fn directory_remove<const N: usize>(pointers: &mut [u8; N], n: usize, rank: usize)
    requires
        rank < n <= N,
    ensures
        forall|r: int| 0 <= r < rank ==> final(pointers)@[r] == old(pointers)@[r],
        forall|r: int| rank <= r < n - 1 ==> final(pointers)@[r] == old(pointers)@[r + 1],
        final(pointers)@[n - 1] == 0,
        forall|r: int| n <= r < N ==> final(pointers)@[r] == old(pointers)@[r],
{
    let mut j: usize = rank;
    while j + 1 < n
        invariant
            rank <= j < n <= N,
            forall|r: int| 0 <= r < rank ==> pointers@[r] == old(pointers)@[r],
            forall|r: int| rank <= r < j ==> pointers@[r] == old(pointers)@[r + 1],
            forall|r: int| j <= r < N ==> pointers@[r] == old(pointers)@[r],
        decreases n - j,
    {
        pointers[j] = pointers[j + 1];
        j += 1;
    }
    pointers[n - 1] = 0;
}

impl BTreeNode {
    /// A leaf that holds no cell.
    pub fn new_leaf() -> (node: Self)
        ensures
            node@ == empty_leaf(),
            node@.ordered(),
            node@.len() == 0,
    {
        let mut data_cells: Vec<DataCell> = Vec::new();
        let mut s: usize = 0;
        while s < 64
            invariant
                s <= 64,
                data_cells.len() == s,
                forall|t: int| 0 <= t < s ==> (#[trigger] data_cells@[t])@ == (CellView { key: 0, row: Seq::empty() }),
            decreases 64 - s,
        {
            let cell = DataCell { key: 0, row: Vec::new() };
            assert(cell@.row =~= Seq::empty());
            data_cells.push(cell);
            s += 1;
        }
        let node = BTreeNode::Leaf { freecells: [false; 64], pointers: [0u8; 64], data_cells };
        proof {
            lemma_count_agree(node@.flags(), Seq::new(64, |i: int| false), 64);
            lemma_count_zero(64);
            assert(node@.flags() =~= Seq::new(64, |s: int| false));
            assert(node@.directory() =~= Seq::new(64, |r: int| 0u8));
            assert(node@->Leaf_data_cells =~= Seq::new(
                64,
                |s: int| CellView { key: 0, row: Seq::empty() },
            ));
        }
        node
    }

    /// An internal node that holds no cell.
    pub fn new_internal() -> (node: Self)
        ensures
            node@ == empty_internal(),
            node@.ordered(),
            node@.len() == 0,
    {
        let node = BTreeNode::Internal {
            freecells: [false; 256],
            pointers: [0u8; 256],
            cells: [KeyCell { key: 0, page_id: 0 }; 256],
        };
        proof {
            lemma_count_agree(node@.flags(), Seq::new(256, |i: int| false), 256);
            lemma_count_zero(256);
            assert(node@.flags() =~= Seq::new(256, |s: int| false));
            assert(node@.directory() =~= Seq::new(256, |r: int| 0u8));
            assert(node@->Internal_cells =~= Seq::new(
                256,
                |s: int| KeyCell { key: 0, page_id: 0 },
            ));
        }
        node
    }

    /// Whether the node is a leaf.
    pub fn is_leaf(&self) -> (r: bool)
        ensures
            r == (self@ is Leaf),
    {
        match self {
            BTreeNode::Internal { .. } => false,
            BTreeNode::Leaf { .. } => true,
        }
    }

    /// Number of cells that the node holds.
    pub fn len(&self) -> (n: usize)
        ensures
            n == self@.len(),
            n <= self@.capacity(),
    {
        proof {
            lemma_count_bounds(self@.flags(), self@.capacity());
        }
        match self {
            BTreeNode::Internal { freecells, .. } => count_flags::<256>(freecells),
            BTreeNode::Leaf { freecells, .. } => count_flags::<64>(freecells),
        }
    }
}

impl BTreeNode {
    /// Directory entry `r`: the slot of the cell of rank `r`.
    fn slot_at(&self, r: usize) -> (s: usize)
        requires
            self@.shaped(),
            r < self@.capacity(),
        ensures
            s == self@.slot(r as int),
    {
        match self {
            BTreeNode::Internal { pointers, .. } => pointers[r] as usize,
            BTreeNode::Leaf { pointers, .. } => pointers[r] as usize,
        }
    }

    /// Whether slot `s` is occupied.
    fn occupied(&self, s: usize) -> (b: bool)
        requires
            self@.shaped(),
            s < self@.capacity(),
        ensures
            b == self@.flags()[s as int],
    {
        match self {
            BTreeNode::Internal { freecells, .. } => freecells[s],
            BTreeNode::Leaf { freecells, .. } => freecells[s],
        }
    }

    /// Key of the cell in slot `s`.
    fn key_in_slot(&self, s: usize) -> (k: u32)
        requires
            self@.shaped(),
            s < self@.capacity(),
        ensures
            k == self@.slot_key(s as int),
    {
        match self {
            BTreeNode::Internal { cells, .. } => cells[s].key,
            BTreeNode::Leaf { data_cells, .. } => {
                assert(data_cells.deep_view()[s as int] == data_cells@[s as int]@);
                data_cells[s].key
            },
        }
    }

    /// Number of slots of a node of this kind.
    fn capacity(&self) -> (n: usize)
        ensures
            n == self@.capacity(),
    {
        match self {
            BTreeNode::Internal { .. } => 256,
            BTreeNode::Leaf { .. } => 64,
        }
    }

    /// Whether the directory invariant holds.
    pub fn check(&self) -> (ok: bool)
        ensures
            ok == self@.ordered(),
    {
        match self {
            BTreeNode::Internal { .. } => {},
            BTreeNode::Leaf { data_cells, .. } => {
                if data_cells.len() != 64 {
                    return false;
                }
            },
        }
        let n: usize = self.len();
        let cap: usize = self.capacity();
        let mut prev: u32 = 0;
        let mut r: usize = 0;
        while r < n
            invariant
                r <= n <= cap,
                self@.shaped(),
                n == self@.len(),
                cap == self@.capacity(),
                r > 0 ==> prev == self@.slot_key(self@.slot(r - 1)),
                forall|q: int|
                    0 <= q < r ==> #[trigger] self@.slot(q) < self@.capacity()
                        && self@.flags()[self@.slot(q)],
                forall|r1: int, r2: int|
                    0 <= r1 < r2 < r ==> self@.slot_key(#[trigger] self@.slot(r1))
                        < self@.slot_key(#[trigger] self@.slot(r2)),
            decreases n - r,
        {
            let slot = self.slot_at(r);
            if slot >= cap || !self.occupied(slot) {
                assert(!(self@.slot(r as int) < self@.capacity() && self@.flags()[self@.slot(
                    r as int,
                )]));
                return false;
            }
            let key = self.key_in_slot(slot);
            if r > 0 && prev >= key {
                assert(!(self@.slot_key(self@.slot(r - 1)) < self@.slot_key(
                    self@.slot(r as int),
                )));
                return false;
            }
            proof {
                assert forall|r1: int, r2: int| 0 <= r1 < r2 < r + 1 implies self@.slot_key(
                    #[trigger] self@.slot(r1),
                ) < self@.slot_key(#[trigger] self@.slot(r2)) by {
                    if r2 == r && r1 < r - 1 {
                        assert(self@.slot_key(self@.slot(r1)) < self@.slot_key(
                            self@.slot(r - 1),
                        ));
                    }
                }
            }
            prev = key;
            r += 1;
        }
        true
    }

    /// Key of the cell of rank `rank`.
    pub fn key_at(&self, rank: usize) -> (k: u32)
        requires
            self@.ordered(),
            rank < self@.len(),
        ensures
            k == self@.keys()[rank as int],
    {
        proof {
            lemma_count_bounds(self@.flags(), self@.capacity());
        }
        let slot = self.slot_at(rank);
        self.key_in_slot(slot)
    }

    /// Number of keys of the node that are less than `key`, found by
    /// bisection of the directory.
    pub fn search(&self, key: u32) -> (rank: usize)
        requires
            self@.ordered(),
        ensures
            rank <= self@.len(),
            forall|r: int| 0 <= r < rank ==> self@.keys()[r] < key,
            forall|r: int| rank <= r < self@.len() ==> self@.keys()[r] >= key,
    {
        let n: usize = self.len();
        let mut lo: usize = 0;
        let mut hi: usize = n;
        while lo < hi
            invariant
                lo <= hi <= n,
                n == self@.len(),
                self@.ordered(),
                forall|r: int| 0 <= r < lo ==> self@.keys()[r] < key,
                forall|r: int| hi <= r < n ==> self@.keys()[r] >= key,
            decreases hi - lo,
        {
            let mid: usize = lo + (hi - lo) / 2;
            let k = self.key_at(mid);
            proof {
                lemma_keys_ascending(self@);
            }
            if k < key {
                lo = mid + 1;
            } else {
                hi = mid;
            }
        }
        lo
    }

    /// Child page of the cell of rank `rank` of an internal node.
    pub fn child_at(&self, rank: usize) -> (child: u32)
        requires
            self@ is Internal,
            self@.ordered(),
            rank < self@.len(),
        ensures
            child == self@.children()[rank as int],
    {
        proof {
            lemma_count_bounds(self@.flags(), self@.capacity());
        }
        match self {
            BTreeNode::Internal { pointers, cells, .. } => cells[pointers[rank] as usize].page_id,
            BTreeNode::Leaf { .. } => 0,
        }
    }

    /// Row of the cell of rank `rank` of a leaf node.
    pub fn row_at(&self, rank: usize) -> (row: &Row)
        requires
            self@ is Leaf,
            self@.ordered(),
            rank < self@.len(),
        ensures
            row.deep_view() == self@.rows()[rank as int],
    {
        proof {
            lemma_count_bounds(self@.flags(), self@.capacity());
        }
        let slot = self.slot_at(rank);
        match self {
            BTreeNode::Leaf { data_cells, .. } => {
                assert(data_cells.deep_view()[slot as int] == data_cells@[slot as int]@);
                &data_cells[slot].row
            },
            BTreeNode::Internal { .. } => unreached(),
        }
    }

    /// Adds a cell to an internal node that has a free slot, at rank
    /// `rank` of the key order: the cell goes into the free slot of lowest
    /// index, and the directory entries from `rank` on move up by one.
    pub fn insert_child(&mut self, rank: usize, cell: KeyCell)
        requires
            old(self)@ is Internal,
            old(self)@.ordered(),
            old(self)@.len() < 256,
            rank <= old(self)@.len(),
            rank > 0 ==> old(self)@.keys()[rank - 1] < cell.key,
            rank < old(self)@.len() ==> cell.key < old(self)@.keys()[rank as int],
        ensures
            final(self)@ is Internal,
            final(self)@.ordered(),
            final(self)@ == old(self)@.with_child(rank as int, cell),
            final(self)@.keys() == old(self)@.keys().insert(rank as int, cell.key),
            final(self)@.children() == old(self)@.children().insert(rank as int, cell.page_id),
    {
        let n: usize = self.len();
        let ghost v = self@;
        proof {
            lemma_keys_ascending(v);
        }
        match self {
            BTreeNode::Internal { freecells, pointers, cells } => {
                match lowest_free::<256>(freecells) {
                    Some(s) => {
                        cells[s] = cell;
                        freecells[s] = true;
                        directory_insert::<256>(pointers, n, rank, s as u8);
                        proof {
                            lemma_count_update(v.flags(), 256, s as int, true);
                            lemma_first_free(v.flags(), s as int, 0);
                            assert(freecells@ =~= v.flags().update(s as int, true));
                            assert(pointers@ =~= directory_with(
                                v.directory(),
                                n as int,
                                rank as int,
                                s as u8,
                            ));
                            assert(cells@ =~= v->Internal_cells.update(s as int, cell));
                        }
                    },
                    None => {
                        proof {
                            lemma_count_free(v.flags(), 256);
                        }
                    },
                }
            },
            BTreeNode::Leaf { .. } => {},
        }
        proof {
            let w = self@;
            assert(w.len() == n + 1);
            assert forall|r: int| 0 <= r < n implies v.slot(r) != w.slot(rank as int) by {
                assert(v.flags()[v.slot(r)]);
            }
            assert forall|r: int| 0 <= r < w.len() implies #[trigger] w.slot(r) < w.capacity()
                && w.flags()[w.slot(r)] by {
                if r < rank {
                    assert(w.slot(r) == v.slot(r));
                } else if r > rank {
                    assert(w.slot(r) == v.slot(r - 1));
                }
            }
            assert forall|r: int| 0 <= r < w.len() implies w.slot_key(#[trigger] w.slot(r)) == v.keys().insert(
                rank as int,
                cell.key,
            )[r] by {
                if r < rank {
                    assert(w.slot(r) == v.slot(r));
                } else if r > rank {
                    assert(w.slot(r) == v.slot(r - 1));
                }
            }
            assert(w.keys() =~= v.keys().insert(rank as int, cell.key));
            assert(w.children() =~= v.children().insert(rank as int, cell.page_id)) by {
                assert forall|r: int| 0 <= r < w.len() implies w.children()[r] == v.children().insert(
                    rank as int,
                    cell.page_id,
                )[r] by {
                    if r < rank {
                        assert(w.slot(r) == v.slot(r));
                    } else if r > rank {
                        assert(w.slot(r) == v.slot(r - 1));
                    }
                }
            }
            lemma_ordered_from_keys(w);
        }
    }
}

impl BTreeNode {
    /// Adds a cell to a leaf node that has a free slot, at rank `rank` of
    /// the key order: the cell goes into the free slot of lowest index,
    /// and the directory entries from `rank` on move up by one.
    pub fn insert_row(&mut self, rank: usize, key: u32, row: Row)
        requires
            old(self)@ is Leaf,
            old(self)@.ordered(),
            old(self)@.len() < 64,
            rank <= old(self)@.len(),
            rank > 0 ==> old(self)@.keys()[rank - 1] < key,
            rank < old(self)@.len() ==> key < old(self)@.keys()[rank as int],
        ensures
            final(self)@ is Leaf,
            final(self)@.ordered(),
            final(self)@ == old(self)@.with_row(
                rank as int,
                CellView { key, row: row.deep_view() },
            ),
            final(self)@.keys() == old(self)@.keys().insert(rank as int, key),
            final(self)@.rows() == old(self)@.rows().insert(rank as int, row.deep_view()),
            forall|types: Seq<DBType>| #[trigger]
                storable(old(self)@, types) && types_of(row.deep_view()) == types && cell_fits(
                    CellView { key, row: row.deep_view() },
                ) ==> storable(final(self)@, types),
    {
        let n: usize = self.len();
        let ghost v = self@;
        let ghost rv = row.deep_view();
        proof {
            lemma_keys_ascending(v);
        }
        match self {
            BTreeNode::Leaf { freecells, pointers, data_cells } => {
                match lowest_free::<64>(freecells) {
                    Some(s) => {
                        data_cells[s] = DataCell { key, row };
                        freecells[s] = true;
                        directory_insert::<64>(pointers, n, rank, s as u8);
                        proof {
                            lemma_count_update(v.flags(), 64, s as int, true);
                            lemma_first_free(v.flags(), s as int, 0);
                            assert(freecells@ =~= v.flags().update(s as int, true));
                            assert(pointers@ =~= directory_with(
                                v.directory(),
                                n as int,
                                rank as int,
                                s as u8,
                            ));
                            assert(data_cells.deep_view() =~= v->Leaf_data_cells.update(
                                s as int,
                                CellView { key, row: rv },
                            ));
                        }
                    },
                    None => {
                        proof {
                            lemma_count_free(v.flags(), 64);
                        }
                    },
                }
            },
            BTreeNode::Internal { .. } => {},
        }
        proof {
            let w = self@;
            assert(w.len() == n + 1);
            assert forall|r: int| 0 <= r < n implies v.slot(r) != w.slot(rank as int) by {
                assert(v.flags()[v.slot(r)]);
            }
            assert forall|r: int| 0 <= r < w.len() implies #[trigger] w.slot(r) < w.capacity()
                && w.flags()[w.slot(r)] by {
                if r < rank {
                    assert(w.slot(r) == v.slot(r));
                } else if r > rank {
                    assert(w.slot(r) == v.slot(r - 1));
                }
            }
            assert forall|r: int| 0 <= r < w.len() implies w.slot_key(#[trigger] w.slot(r)) == v.keys().insert(
                rank as int,
                key,
            )[r] by {
                if r < rank {
                    assert(w.slot(r) == v.slot(r));
                } else if r > rank {
                    assert(w.slot(r) == v.slot(r - 1));
                }
            }
            assert(w.keys() =~= v.keys().insert(rank as int, key));
            assert(w.rows() =~= v.rows().insert(rank as int, rv)) by {
                assert forall|r: int| 0 <= r < w.len() implies w.rows()[r] == v.rows().insert(
                    rank as int,
                    rv,
                )[r] by {
                    if r < rank {
                        assert(w.slot(r) == v.slot(r));
                    } else if r > rank {
                        assert(w.slot(r) == v.slot(r - 1));
                    }
                }
            }
            lemma_ordered_from_keys(w);
        }
    }

    /// Puts `row` in place of the row of the cell of rank `rank` of a
    /// leaf node.
    pub fn replace_row(&mut self, rank: usize, row: Row)
        requires
            old(self)@ is Leaf,
            old(self)@.ordered(),
            rank < old(self)@.len(),
        ensures
            final(self)@ is Leaf,
            final(self)@.ordered(),
            final(self)@.flags() == old(self)@.flags(),
            final(self)@.directory() == old(self)@.directory(),
            final(self)@->Leaf_data_cells == old(self)@->Leaf_data_cells.update(
                old(self)@.slot(rank as int),
                CellView { key: old(self)@.keys()[rank as int], row: row.deep_view() },
            ),
            final(self)@.keys() == old(self)@.keys(),
            final(self)@.rows() == old(self)@.rows().update(rank as int, row.deep_view()),
            forall|types: Seq<DBType>| #[trigger]
                storable(old(self)@, types) && types_of(row.deep_view()) == types && cell_fits(
                    CellView { key: old(self)@.keys()[rank as int], row: row.deep_view() },
                ) ==> storable(final(self)@, types),
    {
        let ghost v = self@;
        let ghost rv = row.deep_view();
        proof {
            lemma_count_bounds(v.flags(), v.capacity());
            lemma_keys_ascending(v);
        }
        let slot = self.slot_at(rank);
        let key = self.key_in_slot(slot);
        match self {
            BTreeNode::Leaf { data_cells, .. } => {
                data_cells[slot] = DataCell { key, row };
                proof {
                    assert(data_cells.deep_view() =~= v->Leaf_data_cells.update(
                        slot as int,
                        CellView { key, row: rv },
                    ));
                }
            },
            BTreeNode::Internal { .. } => {},
        }
        proof {
            let w = self@;
            assert forall|r: int| 0 <= r < v.len() && r != rank implies v.slot(r) != slot by {
                if r < rank {
                    assert(v.slot_key(v.slot(r)) < v.slot_key(v.slot(rank as int)));
                } else {
                    assert(v.slot_key(v.slot(rank as int)) < v.slot_key(v.slot(r)));
                }
            }
            assert(w.len() == v.len());
            assert forall|r: int| 0 <= r < w.len() implies #[trigger] w.slot(r) < w.capacity()
                && w.flags()[w.slot(r)] by {
                assert(w.slot(r) == v.slot(r));
            }
            assert(w.keys() =~= v.keys());
            assert(w.rows() =~= v.rows().update(rank as int, rv));
            lemma_ordered_from_keys(w);
        }
    }

    /// Takes the cell of rank `rank` out of an internal node: its slot
    /// becomes free, and the directory entries behind it move down by one.
    pub fn remove_child(&mut self, rank: usize) -> (cell: KeyCell)
        requires
            old(self)@ is Internal,
            old(self)@.ordered(),
            rank < old(self)@.len(),
        ensures
            final(self)@ is Internal,
            final(self)@.ordered(),
            final(self)@ == old(self)@.without(rank as int),
            final(self)@.keys() == old(self)@.keys().remove(rank as int),
            final(self)@.children() == old(self)@.children().remove(rank as int),
            cell.key == old(self)@.keys()[rank as int],
            cell.page_id == old(self)@.children()[rank as int],
    {
        let n: usize = self.len();
        let ghost v = self@;
        proof {
            lemma_keys_ascending(v);
        }
        let slot = self.slot_at(rank);
        let mut cell = KeyCell { key: 0, page_id: 0 };
        match self {
            BTreeNode::Internal { freecells, pointers, cells } => {
                cell = cells[slot];
                freecells[slot] = false;
                directory_remove::<256>(pointers, n, rank);
                proof {
                    lemma_count_update(v.flags(), 256, slot as int, false);
                    assert(freecells@ =~= v.flags().update(slot as int, false));
                    assert(pointers@ =~= directory_without(v.directory(), n as int, rank as int));
                }
            },
            BTreeNode::Leaf { .. } => {},
        }
        proof {
            let w = self@;
            assert(w.len() == n - 1);
            assert forall|r: int| 0 <= r < n && r != rank implies v.slot(r) != slot by {
                if r < rank {
                    assert(v.slot_key(v.slot(r)) < v.slot_key(v.slot(rank as int)));
                } else {
                    assert(v.slot_key(v.slot(rank as int)) < v.slot_key(v.slot(r)));
                }
            }
            assert forall|r: int| 0 <= r < w.len() implies #[trigger] w.slot(r) < w.capacity()
                && w.flags()[w.slot(r)] by {
                if r < rank {
                    assert(w.slot(r) == v.slot(r));
                } else {
                    assert(w.slot(r) == v.slot(r + 1));
                }
            }
            assert forall|r: int| 0 <= r < w.len() implies w.slot_key(#[trigger] w.slot(r)) == v.keys().remove(
                rank as int,
            )[r] && w.children()[r] == v.children().remove(rank as int)[r] by {
                if r < rank {
                    assert(w.slot(r) == v.slot(r));
                } else {
                    assert(w.slot(r) == v.slot(r + 1));
                }
            }
            assert(w.keys() =~= v.keys().remove(rank as int));
            assert(w.children() =~= v.children().remove(rank as int));
            lemma_ordered_from_keys(w);
        }
        cell
    }

    /// Takes the cell of rank `rank` out of a leaf node: its slot becomes
    /// free and empty, and the directory entries behind it move down by one.
    pub fn remove_row(&mut self, rank: usize) -> (cell: DataCell)
        requires
            old(self)@ is Leaf,
            old(self)@.ordered(),
            rank < old(self)@.len(),
        ensures
            final(self)@ is Leaf,
            final(self)@.ordered(),
            final(self)@ == old(self)@.without(rank as int),
            final(self)@.keys() == old(self)@.keys().remove(rank as int),
            final(self)@.rows() == old(self)@.rows().remove(rank as int),
            cell@.key == old(self)@.keys()[rank as int],
            cell@.row == old(self)@.rows()[rank as int],
            forall|types: Seq<DBType>| #[trigger]
                storable(old(self)@, types) ==> storable(final(self)@, types) && types_of(
                    cell@.row,
                ) == types && cell_fits(cell@),
    {
        let n: usize = self.len();
        let ghost v = self@;
        proof {
            lemma_keys_ascending(v);
        }
        let slot = self.slot_at(rank);
        let mut cell = DataCell { key: 0, row: Vec::new() };
        assert(cell@.row =~= Seq::empty());
        match self {
            BTreeNode::Leaf { freecells, pointers, data_cells } => {
                assert(data_cells.deep_view()[slot as int] == data_cells@[slot as int]@);
                core::mem::swap(&mut data_cells[slot], &mut cell);
                freecells[slot] = false;
                directory_remove::<64>(pointers, n, rank);
                proof {
                    lemma_count_update(v.flags(), 64, slot as int, false);
                    assert(freecells@ =~= v.flags().update(slot as int, false));
                    assert(pointers@ =~= directory_without(v.directory(), n as int, rank as int));
                    assert(data_cells.deep_view() =~= v->Leaf_data_cells.update(
                        slot as int,
                        CellView { key: 0, row: Seq::empty() },
                    ));
                }
            },
            BTreeNode::Internal { .. } => {},
        }
        proof {
            let w = self@;
            assert(w.len() == n - 1);
            assert forall|r: int| 0 <= r < n && r != rank implies v.slot(r) != slot by {
                if r < rank {
                    assert(v.slot_key(v.slot(r)) < v.slot_key(v.slot(rank as int)));
                } else {
                    assert(v.slot_key(v.slot(rank as int)) < v.slot_key(v.slot(r)));
                }
            }
            assert forall|r: int| 0 <= r < w.len() implies #[trigger] w.slot(r) < w.capacity()
                && w.flags()[w.slot(r)] by {
                if r < rank {
                    assert(w.slot(r) == v.slot(r));
                } else {
                    assert(w.slot(r) == v.slot(r + 1));
                }
            }
            assert forall|r: int| 0 <= r < w.len() implies w.slot_key(#[trigger] w.slot(r)) == v.keys().remove(
                rank as int,
            )[r] && w.rows()[r] == v.rows().remove(rank as int)[r] by {
                if r < rank {
                    assert(w.slot(r) == v.slot(r));
                } else {
                    assert(w.slot(r) == v.slot(r + 1));
                }
            }
            assert(w.keys() =~= v.keys().remove(rank as int));
            assert(w.rows() =~= v.rows().remove(rank as int));
            lemma_ordered_from_keys(w);
            assert(v.flags()[slot as int]);
        }
        cell
    }
}

impl BTreeNode {
    /// Moves the upper half of the cells, by rank, to a new node of the
    /// same kind, which is returned. The lower half stays where it is.
    pub fn split(&mut self) -> (right: BTreeNode)
        requires
            old(self)@.ordered(),
        ensures
            final(self)@.ordered(),
            right@.ordered(),
            (final(self)@ is Leaf) == (old(self)@ is Leaf),
            (right@ is Leaf) == (old(self)@ is Leaf),
            final(self)@ == old(self)@.trimmed((old(self)@.len() - old(self)@.len() / 2) as nat),
            old(self)@ is Internal ==> right@ == stack_children(
                old(self)@.key_cells().skip(old(self)@.len() / 2),
            ),
            old(self)@ is Leaf ==> right@ == stack_rows(
                old(self)@.data().skip(old(self)@.len() / 2),
            ),
            final(self)@.keys() == old(self)@.keys().take(old(self)@.len() / 2),
            right@.keys() == old(self)@.keys().skip(old(self)@.len() / 2),
            old(self)@ is Internal ==> final(self)@.children() == old(self)@.children().take(
                old(self)@.len() / 2,
            ) && right@.children() == old(self)@.children().skip(old(self)@.len() / 2),
            old(self)@ is Leaf ==> final(self)@.rows() == old(self)@.rows().take(
                old(self)@.len() / 2,
            ) && right@.rows() == old(self)@.rows().skip(old(self)@.len() / 2),
            forall|types: Seq<DBType>| #[trigger]
                storable(old(self)@, types) ==> storable(final(self)@, types) && storable(
                    right@,
                    types,
                ),
    {
        let ghost v = self@;
        let n: usize = self.len();
        let m: usize = n / 2;
        proof {
            lemma_keys_ascending(v);
        }
        if self.is_leaf() {
            let mut right = BTreeNode::new_leaf();
            let mut k: usize = n;
            assert(self@.keys() =~= v.keys().take(k as int));
            assert(self@.rows() =~= v.rows().take(k as int));
            assert(right@.keys() =~= v.keys().subrange(k as int, n as int));
            assert(right@.rows() =~= v.rows().subrange(k as int, n as int));
            assert(v.data().subrange(k as int, n as int) =~= Seq::<CellView>::empty());
            assert(self@.data() =~= v.data().take(k as int));
            while k > m
                invariant
                    m <= k <= n <= 64,
                    n == v.len(),
                    self@.len() == k,
                    right@.len() == n - k,
                    v is Leaf,
                    ascending(v.keys()),
                    self@ is Leaf,
                    self@.ordered(),
                    right@ is Leaf,
                    right@.ordered(),
                    self@.keys() == v.keys().take(k as int),
                    self@.rows() == v.rows().take(k as int),
                    right@.keys() == v.keys().subrange(k as int, n as int),
                    right@.rows() == v.rows().subrange(k as int, n as int),
                    self@.trimmed((k - m) as nat) == v.trimmed((n - m) as nat),
                    right@ == stack_rows(v.data().subrange(k as int, n as int)),
                    self@.data() == v.data().take(k as int),
                    forall|types: Seq<DBType>| #[trigger]
                        storable(v, types) ==> storable(self@, types) && storable(right@, types),
                decreases k,
            {
                let ghost before = self@;
                let ghost right_before = right@;
                let cell = self.remove_row(k - 1);
                let ghost cv = cell@;
                let DataCell { key, row } = cell;
                right.insert_row(0, key, row);
                proof {
                    lemma_keys_len(self@);
                    lemma_keys_len(before);
                    lemma_keys_len(right@);
                    lemma_keys_len(right_before);
                    assert(v.keys().take(k as int).remove(k - 1) =~= v.keys().take(k - 1));
                    assert(v.rows().take(k as int).remove(k - 1) =~= v.rows().take(k - 1));
                    assert(v.keys().subrange(k as int, n as int).insert(0, cv.key)
                        =~= v.keys().subrange(k - 1, n as int));
                    assert(v.rows().subrange(k as int, n as int).insert(0, cv.row)
                        =~= v.rows().subrange(k - 1, n as int));
                    assert(self@.data() =~= v.data().take(k - 1)) by {
                        assert forall|q: int| 0 <= q < k - 1 implies self@.data()[q] == v.data()[q] by {
                            assert(self@.keys()[q] == v.keys()[q]);
                            assert(self@.rows()[q] == v.rows()[q]);
                            assert(before.data()[q] == v.data().take(k as int)[q]);
                            assert(before.slot(q) != before.slot(k - 1)) by {
                                assert(before.slot_key(before.slot(q)) < before.slot_key(
                                    before.slot(k - 1),
                                ));
                            }
                        }
                    }
                    assert(cv == v.data()[k - 1]) by {
                        assert(before.data()[k - 1] == v.data().take(k as int)[k - 1]);
                    }
                    assert(v.data().subrange(k - 1, n as int).drop_first() =~= v.data().subrange(
                        k as int,
                        n as int,
                    ));
                    assert forall|types: Seq<DBType>| #[trigger] storable(v, types) implies storable(
                        self@,
                        types,
                    ) && storable(right@, types) by {
                        assert(storable(before, types));
                        assert(storable(right_before, types));
                        assert(cv == CellView { key, row: row.deep_view() });
                    }
                }
                k -= 1;
            }
            assert(v.keys().subrange(m as int, n as int) =~= v.keys().skip(m as int));
            assert(v.rows().subrange(m as int, n as int) =~= v.rows().skip(m as int));
            assert(v.data().subrange(m as int, n as int) =~= v.data().skip(m as int));
            right
        } else {
            let mut right = BTreeNode::new_internal();
            let mut k: usize = n;
            assert(self@.keys() =~= v.keys().take(k as int));
            assert(self@.children() =~= v.children().take(k as int));
            assert(right@.keys() =~= v.keys().subrange(k as int, n as int));
            assert(right@.children() =~= v.children().subrange(k as int, n as int));
            assert(v.key_cells().subrange(k as int, n as int) =~= Seq::<KeyCell>::empty());
            while k > m
                invariant
                    m <= k <= n <= 256,
                    n == v.len(),
                    self@.len() == k,
                    right@.len() == n - k,
                    v is Internal,
                    ascending(v.keys()),
                    self@ is Internal,
                    self@.ordered(),
                    right@ is Internal,
                    right@.ordered(),
                    self@.keys() == v.keys().take(k as int),
                    self@.children() == v.children().take(k as int),
                    right@.keys() == v.keys().subrange(k as int, n as int),
                    right@.children() == v.children().subrange(k as int, n as int),
                    self@.trimmed((k - m) as nat) == v.trimmed((n - m) as nat),
                    right@ == stack_children(v.key_cells().subrange(k as int, n as int)),
                    v.key_cells().len() == n,
                    forall|q: int|
                        0 <= q < n ==> (#[trigger] v.key_cells()[q]) == (KeyCell {
                            key: v.keys()[q],
                            page_id: v.children()[q],
                        }),
                decreases k,
            {
                let ghost before = self@;
                let ghost right_before = right@;
                let cell = self.remove_child(k - 1);
                right.insert_child(0, cell);
                proof {
                    lemma_keys_len(self@);
                    lemma_keys_len(before);
                    lemma_keys_len(right@);
                    lemma_keys_len(right_before);
                    assert(v.keys().take(k as int).remove(k - 1) =~= v.keys().take(k - 1));
                    assert(v.children().take(k as int).remove(k - 1) =~= v.children().take(
                        k - 1,
                    ));
                    assert(v.keys().subrange(k as int, n as int).insert(0, cell.key)
                        =~= v.keys().subrange(k - 1, n as int));
                    assert(v.children().subrange(k as int, n as int).insert(0, cell.page_id)
                        =~= v.children().subrange(k - 1, n as int));
                    assert(cell == v.key_cells()[k - 1]);
                    assert(v.key_cells().subrange(k - 1, n as int).drop_first()
                        =~= v.key_cells().subrange(k as int, n as int));
                }
                k -= 1;
            }
            assert(v.keys().subrange(m as int, n as int) =~= v.keys().skip(m as int));
            assert(v.children().subrange(m as int, n as int) =~= v.children().skip(m as int));
            assert(v.key_cells().subrange(m as int, n as int) =~= v.key_cells().skip(m as int));
            right
        }
    }
}

/// A node has as many keys as cells.
pub proof fn lemma_keys_len(v: NodeView)
    ensures
        v.keys().len() == v.len(),
        0 <= v.len() <= v.capacity(),
        v is Internal ==> v.children().len() == v.len(),
        v is Leaf ==> v.rows().len() == v.len(),
{
    lemma_count_bounds(v.flags(), v.capacity());
}

/// The keys of an ordered node ascend strictly.
pub proof fn lemma_keys_ascending(v: NodeView)
    requires
        v.ordered(),
    ensures
        ascending(v.keys()),
{
    lemma_count_bounds(v.flags(), v.capacity());
    assert forall|i: int, j: int| 0 <= i < j < v.keys().len() implies v.keys()[i] < v.keys()[j] by {
        assert(v.slot_key(v.slot(i)) < v.slot_key(v.slot(j)));
    }
}

/// A node whose directory names occupied slots and whose keys ascend
/// strictly is ordered.
pub proof fn lemma_ordered_from_keys(v: NodeView)
    requires
        v.shaped(),
        forall|r: int|
            0 <= r < v.len() ==> #[trigger] v.slot(r) < v.capacity() && v.flags()[v.slot(r)],
        ascending(v.keys()),
    ensures
        v.ordered(),
{
    assert forall|r1: int, r2: int| 0 <= r1 < r2 < v.len() implies v.slot_key(
        #[trigger] v.slot(r1),
    ) < v.slot_key(#[trigger] v.slot(r2)) by {
        assert(v.keys()[r1] < v.keys()[r2]);
    }
}

/// Where no slot is occupied, the count is zero.
pub proof fn lemma_count_zero(n: int)
    requires
        0 <= n,
    ensures
        count_occupied(Seq::new(n as nat, |i: int| false), n) == 0,
{
    lemma_count_none(Seq::new(n as nat, |i: int| false), n);
}

/// Where none of the first `n` slots is occupied, the count is zero.
pub proof fn lemma_count_none(flags: Seq<bool>, n: int)
    requires
        0 <= n <= flags.len(),
        forall|i: int| 0 <= i < n ==> !flags[i],
    ensures
        count_occupied(flags, n) == 0,
    decreases n,
{
    if n > 0 {
        lemma_count_none(flags, n - 1);
    }
}

} // verus!
