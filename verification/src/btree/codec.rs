//! The page layout of a node, and the functions that read and write it.
//!
//! | offset | length | content |
//! |---|---|---|
//! | 0 | 1 | kind: 0 internal, 1 leaf |
//! | 1 | one byte per slot | 1 where the slot is occupied, else 0 |
//! | 1792 | one byte per rank | the slot of the cell of that rank |
//! | 2048 | 8 per slot (internal) | key and child page, big-endian |
//! | 2048 | 32 per slot (leaf) | key, then the row's values in column order |
//!
//! An integer value takes eight bytes, big-endian two's complement. A text
//! value takes one byte that gives its length in bytes, then its UTF-8
//! bytes. Bytes that the layout does not name are zero.

use vstd::prelude::*;
use vstd::utf8::*;
use crate::db::DBType;
use crate::db::DBValue;
use crate::db::Row;
use crate::db::Schema;
use crate::db::ValueView;
use crate::db::type_of;
use crate::db::types_of;
use super::bytes::be32;
use super::bytes::be32_bytes;
use super::bytes::be64;
use super::bytes::be64_bytes;
use super::bytes::i64_bits;
use super::bytes::i64_from_bits;
use super::bytes::i64_of_bits;
use super::bytes::i64_to_bits;
use super::bytes::lemma_be32_roundtrip;
use super::bytes::lemma_be64_roundtrip;
use super::bytes::lemma_i64_bits_roundtrip;
use super::bytes::read_be32;
use super::bytes::read_be64;
use super::bytes::write_be32;
use super::bytes::write_be64;
use super::node::BTreeNode;
use super::node::CellView;
use super::node::DataCell;
use super::node::KeyCell;
use super::node::NodeView;
use super::page::BTreeError;

verus! {

/// The bytes of one value.
pub open spec fn value_bytes(v: ValueView) -> Seq<u8> {
    match v {
        ValueView::Integer(i) => be64_bytes(i64_bits(i)),
        ValueView::Text(s) => seq![encode_utf8(s).len() as u8] + encode_utf8(s),
    }
}

/// The bytes of the values of `row` from index `from` on.
pub open spec fn row_bytes(row: Seq<ValueView>, from: int) -> Seq<u8>
    decreases row.len() - from,
{
    if from >= row.len() {
        Seq::empty()
    } else {
        value_bytes(row[from]) + row_bytes(row, from + 1)
    }
}

/// The bytes of a leaf cell: the key, then the row.
pub open spec fn cell_bytes(c: CellView) -> Seq<u8> {
    be32_bytes(c.key) + row_bytes(c.row, 0)
}

/// Whether a leaf cell fits its slot.
pub open spec fn cell_fits(c: CellView) -> bool {
    cell_bytes(c).len() <= 32
}

/// The content of a leaf slot that is not occupied.
pub open spec fn empty_cell() -> CellView {
    CellView { key: 0, row: Seq::empty() }
}

/// `bytes`, followed by zeros up to length `n`.
pub open spec fn padded(bytes: Seq<u8>, n: int) -> Seq<u8> {
    Seq::new(
        n as nat,
        |i: int|
            if i < bytes.len() {
                bytes[i]
            } else {
                0u8
            },
    )
}

/// The byte that stands for an occupancy flag.
pub open spec fn flag_byte(f: bool) -> u8 {
    if f {
        1
    } else {
        0
    }
}

/// Bytes per slot of a node of this kind.
pub open spec fn cell_size(v: NodeView) -> int {
    match v {
        NodeView::Internal { .. } => 8,
        NodeView::Leaf { .. } => 32,
    }
}

/// The kind byte of a node.
pub open spec fn kind_tag(v: NodeView) -> u8 {
    match v {
        NodeView::Internal { .. } => 0,
        NodeView::Leaf { .. } => 1,
    }
}

/// The bytes of slot `s` of a node.
pub open spec fn cell_region(v: NodeView, s: int) -> Seq<u8> {
    match v {
        NodeView::Internal { cells, .. } => be32_bytes(cells[s].key) + be32_bytes(
            cells[s].page_id,
        ),
        NodeView::Leaf { freecells, data_cells, .. } => if freecells[s] {
            padded(cell_bytes(data_cells[s]), 32)
        } else {
            padded(Seq::empty(), 32)
        },
    }
}

/// Byte `i` of the page of a node.
pub open spec fn page_byte(v: NodeView, i: int) -> u8 {
    let n = v.capacity();
    if i == 0 {
        kind_tag(v)
    } else if i < 1 + n {
        flag_byte(v.flags()[i - 1])
    } else if i < 1792 {
        0
    } else if i < 1792 + n {
        v.directory()[i - 1792]
    } else if i < 2048 {
        0
    } else {
        cell_region(v, (i - 2048) / cell_size(v))[(i - 2048) % cell_size(v)]
    }
}

/// The page of a node.
#[verifier::opaque]
pub open spec fn encode_page(v: NodeView) -> Seq<u8> {
    Seq::new(4096, |i: int| page_byte(v, i))
}

/// Whether a node can be written: its arrays have the size of its kind and
/// each occupied leaf cell fits its slot.
pub open spec fn encodable(v: NodeView) -> bool {
    &&& v.shaped()
    &&& match v {
        NodeView::Internal { .. } => true,
        NodeView::Leaf { freecells, data_cells, .. } => forall|s: int|
            0 <= s < 64 && freecells[s] ==> cell_fits(#[trigger] data_cells[s]),
    }
}

/// Whether a node is the one that its page decodes to under columns of
/// the given types: it can be written, each occupied leaf cell holds a row
/// of these types, and each free leaf slot holds the empty cell.
pub open spec fn storable(v: NodeView, types: Seq<DBType>) -> bool {
    &&& encodable(v)
    &&& match v {
        NodeView::Internal { .. } => true,
        NodeView::Leaf { freecells, data_cells, .. } => forall|s: int|
            0 <= s < 64 ==> if freecells[s] {
                types_of((#[trigger] data_cells[s]).row) == types
            } else {
                data_cells[s] == empty_cell()
            },
    }
}

/// The value of type `t` that starts at offset `at` of a slot, and the
/// offset behind it.
#[verifier::opaque]
pub open spec fn parse_value(r: Seq<u8>, at: int, t: DBType) -> Option<(ValueView, int)> {
    match t {
        DBType::Integer => if at + 8 <= r.len() {
            Some((ValueView::Integer(i64_of_bits(be64(r, at))), at + 8))
        } else {
            None
        },
        DBType::Text => if at + 1 <= r.len() && at + 1 + r[at] <= r.len() && valid_utf8(
            r.subrange(at + 1, at + 1 + r[at]),
        ) {
            Some(
                (
                    ValueView::Text(decode_utf8(r.subrange(at + 1, at + 1 + r[at]))),
                    at + 1 + r[at],
                ),
            )
        } else {
            None
        },
    }
}

/// The values of the types `types[from..]` that start at offset `at` of a slot.
pub open spec fn parse_values(r: Seq<u8>, at: int, types: Seq<DBType>, from: int) -> Option<
    Seq<ValueView>,
>
    decreases types.len() - from,
{
    if from >= types.len() {
        Some(Seq::empty())
    } else {
        match parse_value(r, at, types[from]) {
            None => None,
            Some((v, next)) => match parse_values(r, next, types, from + 1) {
                None => None,
                Some(rest) => Some(seq![v] + rest),
            },
        }
    }
}

/// The cell that the bytes of a leaf slot hold.
pub open spec fn parse_cell(r: Seq<u8>, types: Seq<DBType>) -> Option<CellView> {
    match parse_values(r, 4, types, 0) {
        Some(row) => Some(CellView { key: be32(r, 0), row }),
        None => None,
    }
}

/// Whether the first `n` occupancy flags of a page are 0 or 1.
pub open spec fn flags_ok(b: Seq<u8>, n: int) -> bool {
    forall|i: int| 0 <= i < n ==> #[trigger] b[1 + i] <= 1
}

/// The cell of leaf slot `s` of a page.
pub open spec fn leaf_cell(b: Seq<u8>, types: Seq<DBType>, s: int) -> Option<CellView> {
    if b[1 + s] == 1 {
        parse_cell(b.subrange(2048 + 32 * s, 2048 + 32 * s + 32), types)
    } else {
        Some(empty_cell())
    }
}

/// The cell of internal slot `s` of a page.
pub open spec fn key_cell(b: Seq<u8>, s: int) -> KeyCell {
    KeyCell { key: be32(b, 2048 + 8 * s), page_id: be32(b, 2052 + 8 * s) }
}

/// The node that a page holds, if it holds one: the kind byte is 0 or 1,
/// each occupancy flag is 0 or 1, and each occupied leaf slot holds a row
/// of the given column types.
#[verifier::opaque]
pub open spec fn decode_page(b: Seq<u8>, types: Seq<DBType>) -> Option<NodeView> {
    if b.len() != 4096 {
        None
    } else if b[0] == 0 && flags_ok(b, 256) {
        Some(
            NodeView::Internal {
                freecells: Seq::new(256, |i: int| b[1 + i] == 1),
                pointers: b.subrange(1792, 2048),
                cells: Seq::new(256, |s: int| key_cell(b, s)),
            },
        )
    } else if b[0] == 1 && flags_ok(b, 64) && (forall|s: int|
        0 <= s < 64 ==> (#[trigger] leaf_cell(b, types, s)) is Some) {
        Some(
            NodeView::Leaf {
                freecells: Seq::new(64, |i: int| b[1 + i] == 1),
                pointers: b.subrange(1792, 1856),
                data_cells: Seq::new(64, |s: int| leaf_cell(b, types, s)->0),
            },
        )
    } else {
        None
    }
}

/// `String::from_utf8` of the standard library: the text that the bytes
/// encode, if they are well-formed UTF-8, and nothing otherwise.
#[verifier::external_body]
pub(crate) fn string_from_utf8(bytes: Vec<u8>) -> (r: Option<String>)
    ensures
        r is Some <==> valid_utf8(bytes@),
        r is Some ==> r->0@ == decode_utf8(bytes@),
{
    String::from_utf8(bytes).ok()
}

/// The bytes `from..to` of a page.
pub(crate) fn copy_range(page: &[u8; 4096], from: usize, to: usize) -> (r: Vec<u8>)
    requires
        from <= to <= 4096,
    ensures
        r@ == page@.subrange(from as int, to as int),
{
    let mut r: Vec<u8> = Vec::new();
    let mut i: usize = from;
    while i < to
        invariant
            from <= i <= to <= 4096,
            r@ == page@.subrange(from as int, i as int),
        decreases to - i,
    {
        r.push(page[i]);
        assert(r@ =~= page@.subrange(from as int, i + 1));
        i += 1;
    }
    r
}

/// Reads the occupancy flags of a node with `N` slots.
fn read_flags<const N: usize>(page: &[u8; 4096]) -> (r: Option<[bool; N]>)
    requires
        N <= 256,
    ensures
        r is Some <==> flags_ok(page@, N as int),
        r is Some ==> r->0@ == Seq::new(N as nat, |i: int| page@[1 + i] == 1),
{
    let mut flags = [false; N];
    let mut i: usize = 0;
    while i < N
        invariant
            i <= N <= 256,
            forall|j: int| 0 <= j < i ==> #[trigger] page@[1 + j] <= 1,
            forall|j: int| 0 <= j < i ==> flags@[j] == (page@[1 + j] == 1),
        decreases N - i,
    {
        let byte = page[1 + i];
        if byte > 1 {
            assert(!(page@[1 + i as int] <= 1));
            return None;
        }
        flags[i] = byte == 1;
        i += 1;
    }
    assert(flags@ =~= Seq::new(N as nat, |i: int| page@[1 + i] == 1));
    Some(flags)
}

/// Reads the slot directory of a node with `N` slots.
fn read_directory<const N: usize>(page: &[u8; 4096]) -> (r: [u8; N])
    requires
        N <= 256,
    ensures
        r@ == page@.subrange(1792, 1792 + N),
{
    let mut pointers = [0u8; N];
    let mut i: usize = 0;
    while i < N
        invariant
            i <= N <= 256,
            forall|j: int| 0 <= j < i ==> pointers@[j] == page@[1792 + j],
        decreases N - i,
    {
        pointers[i] = page[1792 + i];
        i += 1;
    }
    assert(pointers@ =~= page@.subrange(1792, 1792 + N));
    pointers
}

/// Reads the cells of an internal node.
fn read_key_cells(page: &[u8; 4096]) -> (r: [KeyCell; 256])
    ensures
        r@ == Seq::new(256, |s: int| key_cell(page@, s)),
{
    let mut cells = [KeyCell { key: 0, page_id: 0 }; 256];
    let mut s: usize = 0;
    while s < 256
        invariant
            s <= 256,
            forall|t: int| 0 <= t < s ==> cells@[t] == key_cell(page@, t),
        decreases 256 - s,
    {
        let key = read_be32(page, 2048 + 8 * s);
        let page_id = read_be32(page, 2052 + 8 * s);
        cells[s] = KeyCell { key, page_id };
        s += 1;
    }
    assert(cells@ =~= Seq::new(256, |s: int| key_cell(page@, s)));
    cells
}

/// `acc` in front of the values in `rest`, if there are any.
pub open spec fn prepend(acc: Seq<ValueView>, rest: Option<Seq<ValueView>>) -> Option<
    Seq<ValueView>,
> {
    match rest {
        Some(r) => Some(acc + r),
        None => None,
    }
}

/// Reads the leaf cell whose slot starts at offset `base`.
fn read_data_cell(page: &[u8; 4096], base: usize, schema: &Schema) -> (r: Option<DataCell>)
    requires
        base + 32 <= 4096,
    ensures
        match r {
            Some(c) => parse_cell(page@.subrange(base as int, base + 32), schema.types())
                == Some(c@),
            None => parse_cell(page@.subrange(base as int, base + 32), schema.types()) is None,
        },
{
    let ghost region = page@.subrange(base as int, base + 32);
    let ghost types = schema.types();
    reveal(parse_value);
    let key = read_be32(page, base);
    assert(key == be32(region, 0));
    let mut row: Row = Vec::new();
    let mut pos: usize = 4;
    let n: usize = schema.len();
    let mut i: usize = 0;
    assert(row.deep_view() =~= Seq::empty());
    assert(prepend(row.deep_view(), parse_values(region, 4, types, 0)) == parse_values(
        region,
        4,
        types,
        0,
    )) by {
        match parse_values(region, 4, types, 0) {
            Some(r) => assert(Seq::<ValueView>::empty() + r =~= r),
            None => {},
        }
    }
    while i < n
        invariant
            i <= n,
            n == types.len(),
            types == schema.types(),
            base + 32 <= 4096,
            4 <= pos <= 32,
            row.len() == i,
            region == page@.subrange(base as int, base + 32),
            parse_values(region, 4, types, 0) == prepend(
                row.deep_view(),
                parse_values(region, pos as int, types, i as int),
            ),
        decreases n - i,
    {
        let ghost before = row.deep_view();
        proof {
            reveal(parse_value);
        }
        match schema.column_type(i) {
            DBType::Integer => {
                if pos + 8 > 32 {
                    return None;
                }
                let bits = read_be64(page, base + pos);
                assert(bits == be64(region, pos as int));
                row.push(DBValue::Integer(i64_from_bits(bits)));
                pos += 8;
            },
            DBType::Text => {
                if pos + 1 > 32 {
                    return None;
                }
                let len = page[base + pos] as usize;
                assert(len == region[pos as int]);
                if pos + 1 + len > 32 {
                    return None;
                }
                let bytes = copy_range(page, base + pos + 1, base + pos + 1 + len);
                assert(bytes@ =~= region.subrange(pos + 1, pos + 1 + len));
                match string_from_utf8(bytes) {
                    Some(text) => {
                        row.push(DBValue::Text(text));
                    },
                    None => {
                        return None;
                    },
                }
                pos += 1 + len;
            },
        }
        proof {
            let v = row@[i as int]@;
            assert(row.deep_view() =~= before + seq![v]);
            match parse_values(region, pos as int, types, i + 1) {
                Some(rest) => {
                    assert(before + (seq![v] + rest) =~= (before + seq![v]) + rest);
                },
                None => {},
            }
        }
        i += 1;
    }
    proof {
        assert(row.deep_view() + Seq::<ValueView>::empty() =~= row.deep_view());
    }
    Some(DataCell { key, row })
}

/// Reads the cells of a leaf node whose occupancy flags are `flags`.
fn read_data_cells(page: &[u8; 4096], flags: &[bool; 64], schema: &Schema) -> (r: Option<
    Vec<DataCell>,
>)
    requires
        flags@ == Seq::new(64, |i: int| page@[1 + i] == 1),
    ensures
        r is Some <==> forall|s: int|
            0 <= s < 64 ==> (#[trigger] leaf_cell(page@, schema.types(), s)) is Some,
        r is Some ==> r->0.deep_view() == Seq::new(
            64,
            |s: int| leaf_cell(page@, schema.types(), s)->0,
        ),
{
    let mut cells: Vec<DataCell> = Vec::new();
    let mut s: usize = 0;
    while s < 64
        invariant
            s <= 64,
            cells.len() == s,
            flags@ == Seq::new(64, |i: int| page@[1 + i] == 1),
            forall|t: int|
                0 <= t < s ==> (#[trigger] leaf_cell(page@, schema.types(), t)) == Some(
                    cells@[t]@,
                ),
        decreases 64 - s,
    {
        assert(flags@[s as int] == (page@[1 + s] == 1));
        if flags[s] {
            match read_data_cell(page, 2048 + 32 * s, schema) {
                Some(cell) => cells.push(cell),
                None => {
                    assert(leaf_cell(page@, schema.types(), s as int) is None);
                    return None;
                },
            }
        } else {
            let cell = DataCell { key: 0, row: Vec::new() };
            assert(cell@.row =~= Seq::empty());
            cells.push(cell);
        }
        s += 1;
    }
    assert(cells.deep_view() =~= Seq::new(64, |s: int| leaf_cell(page@, schema.types(), s)->0));
    Some(cells)
}

/// Writes the occupancy flags of a node with `N` slots.
fn write_flags<const N: usize>(page: &mut [u8; 4096], flags: &[bool; N])
    requires
        N <= 256,
    ensures
        forall|i: int| 1 <= i < 1 + N ==> final(page)@[i] == flag_byte(flags@[i - 1]),
        forall|i: int| 0 <= i < 4096 && !(1 <= i < 1 + N) ==> final(page)@[i] == old(page)@[i],
{
    let mut s: usize = 0;
    while s < N
        invariant
            s <= N <= 256,
            forall|i: int| 1 <= i < 1 + s ==> page@[i] == flag_byte(flags@[i - 1]),
            forall|i: int| 0 <= i < 4096 && !(1 <= i < 1 + s) ==> page@[i] == old(page)@[i],
        decreases N - s,
    {
        page[1 + s] = if flags[s] {
            1
        } else {
            0
        };
        s += 1;
    }
}

/// Writes the slot directory of a node with `N` slots.
fn write_directory<const N: usize>(page: &mut [u8; 4096], pointers: &[u8; N])
    requires
        N <= 256,
    ensures
        forall|i: int| 1792 <= i < 1792 + N ==> final(page)@[i] == pointers@[i - 1792],
        forall|i: int|
            0 <= i < 4096 && !(1792 <= i < 1792 + N) ==> final(page)@[i] == old(page)@[i],
{
    let mut s: usize = 0;
    while s < N
        invariant
            s <= N <= 256,
            forall|i: int| 1792 <= i < 1792 + s ==> page@[i] == pointers@[i - 1792],
            forall|i: int| 0 <= i < 4096 && !(1792 <= i < 1792 + s) ==> page@[i] == old(page)@[i],
        decreases N - s,
    {
        page[1792 + s] = pointers[s];
        s += 1;
    }
}

/// Writes the cells of an internal node.
fn write_key_cells(page: &mut [u8; 4096], cells: &[KeyCell; 256])
    ensures
        forall|s: int|
            0 <= s < 256 ==> #[trigger] final(page)@.subrange(2048 + 8 * s, 2048 + 8 * s + 8)
                == be32_bytes(cells@[s].key) + be32_bytes(cells@[s].page_id),
        forall|i: int| 0 <= i < 2048 ==> final(page)@[i] == old(page)@[i],
{
    let mut s: usize = 0;
    while s < 256
        invariant
            s <= 256,
            forall|t: int|
                0 <= t < s ==> #[trigger] page@.subrange(2048 + 8 * t, 2048 + 8 * t + 8)
                    == be32_bytes(cells@[t].key) + be32_bytes(cells@[t].page_id),
            forall|i: int| 0 <= i < 2048 ==> page@[i] == old(page)@[i],
        decreases 256 - s,
    {
        let ghost before = page@;
        let cell = cells[s];
        write_be32(page, 2048 + 8 * s, cell.key);
        let ghost mid = page@;
        write_be32(page, 2052 + 8 * s, cell.page_id);
        proof {
            let at = 2048 + 8 * s;
            assert(page@.subrange(at, at + 4) =~= mid.subrange(at, at + 4));
            assert(page@.subrange(at, at + 8) =~= page@.subrange(at, at + 4) + page@.subrange(
                at + 4,
                at + 8,
            ));
            assert forall|t: int| 0 <= t < s implies #[trigger] page@.subrange(
                2048 + 8 * t,
                2048 + 8 * t + 8,
            ) == be32_bytes(cells@[t].key) + be32_bytes(cells@[t].page_id) by {
                assert(page@.subrange(2048 + 8 * t, 2048 + 8 * t + 8) =~= before.subrange(
                    2048 + 8 * t,
                    2048 + 8 * t + 8,
                ));
            }
        }
        s += 1;
    }
}

/// The bytes of a row are those of its first value, then those of the rest.
proof fn lemma_row_bytes_step(row: Seq<ValueView>, i: int)
    requires
        0 <= i < row.len(),
    ensures
        row_bytes(row, i) == value_bytes(row[i]) + row_bytes(row, i + 1),
        row_bytes(row, i).len() == value_bytes(row[i]).len() + row_bytes(row, i + 1).len(),
{
}

/// Writes a leaf cell into the zeroed slot that starts at offset `base`.
fn write_data_cell(page: &mut [u8; 4096], base: usize, cell: &DataCell)
    requires
        base + 32 <= 4096,
        cell_fits(cell@),
        forall|i: int| base <= i < base + 32 ==> old(page)@[i] == 0,
    ensures
        final(page)@.subrange(base as int, base + 32) == padded(cell_bytes(cell@), 32),
        forall|i: int|
            0 <= i < 4096 && !(base <= i < base + 32) ==> final(page)@[i] == old(page)@[i],
{
    let ghost row = cell@.row;
    proof {
        assert(be32_bytes(cell.key).len() == 4);
    }
    write_be32(page, base, cell.key);
    let mut pos: usize = 4;
    let n: usize = cell.row.len();
    let mut i: usize = 0;
    assert(page@.subrange(base as int, base + 4) + row_bytes(row, 0) =~= cell_bytes(cell@));
    while i < n
        invariant
            i <= n,
            n == cell.row.len(),
            row == cell@.row,
            base + 32 <= 4096,
            4 <= pos <= 32,
            cell_fits(cell@),
            cell_bytes(cell@) == page@.subrange(base as int, base + pos) + row_bytes(row, i as int),
            forall|k: int| base + pos <= k < base + 32 ==> page@[k] == 0,
            forall|k: int| 0 <= k < 4096 && !(base <= k < base + 32) ==> page@[k] == old(page)@[k],
        decreases n - i,
    {
        let ghost before = page@;
        proof {
            lemma_row_bytes_step(row, i as int);
            assert(row[i as int] == cell.row@[i as int]@);
        }
        match &cell.row[i] {
            DBValue::Integer(v) => {
                assert(value_bytes(row[i as int]).len() == 8);
                write_be64(page, base + pos, i64_to_bits(*v));
                proof {
                    assert(page@.subrange(base + pos, base + pos + 8) == value_bytes(
                        row[i as int],
                    ));
                    assert(page@.subrange(base as int, base + pos + 8) =~= before.subrange(
                        base as int,
                        base + pos,
                    ) + page@.subrange(base + pos, base + pos + 8));
                }
                pos += 8;
            },
            DBValue::Text(text) => {
                let bytes = text.as_str().as_bytes();
                let len: usize = bytes.len();
                assert(value_bytes(row[i as int]).len() == 1 + len);
                page[base + pos] = len as u8;
                let ghost start = page@;
                let mut k: usize = 0;
                while k < len
                    invariant
                        k <= len,
                        len == bytes@.len(),
                        start.len() == 4096,
                        base + pos + 1 + len <= base + 32 <= 4096,
                        forall|j: int|
                            0 <= j < k ==> page@[base + pos + 1 + j] == #[trigger] bytes@[j],
                        forall|j: int|
                            0 <= j < 4096 && !(base + pos + 1 <= j < base + pos + 1 + k)
                                ==> #[trigger] page@[j] == start[j],
                    decreases len - k,
                {
                    page[base + pos + 1 + k] = bytes[k];
                    k += 1;
                }
                proof {
                    let vb = value_bytes(row[i as int]);
                    assert(row[i as int] == ValueView::Text(text@));
                    assert(bytes@ == encode_utf8(text@));
                    assert(vb =~= seq![len as u8] + bytes@);
                    assert forall|j: int| 0 <= j < pos + 1 + len implies #[trigger] page@.subrange(
                        base as int,
                        base + pos + 1 + len,
                    )[j] == (before.subrange(base as int, base + pos) + vb)[j] by {
                        assert(page@.subrange(base as int, base + pos + 1 + len)[j] == page@[base
                            + j]);
                        if j > pos {
                            assert(page@[base + pos + 1 + (j - pos - 1)] == bytes@[j - pos - 1]);
                            assert(vb[j - pos] == bytes@[j - pos - 1]);
                        } else if j < pos {
                            assert(page@[base + j] == start[base + j]);
                            assert(start[base + j] == before[base + j]);
                        } else {
                            assert(page@[base + pos] == start[base + pos]);
                            assert(vb[0] == len as u8);
                        }
                    }
                    assert(page@.subrange(base as int, base + pos + 1 + len) =~= before.subrange(
                        base as int,
                        base + pos,
                    ) + vb);
                    assert forall|j: int| base + pos + 1 + len <= j < base + 32 implies page@[j]
                        == 0 by {
                        assert(page@[j] == start[j]);
                    }
                }
                pos += 1 + len;
            },
        }
        proof {
            assert((before.subrange(base as int, base + pos - value_bytes(row[i as int]).len())
                + value_bytes(row[i as int])) + row_bytes(row, i + 1) =~= before.subrange(
                base as int,
                base + pos - value_bytes(row[i as int]).len(),
            ) + (value_bytes(row[i as int]) + row_bytes(row, i + 1)));
        }
        i += 1;
    }
    proof {
        assert(row_bytes(row, i as int) =~= Seq::empty());
        assert(cell_bytes(cell@) =~= page@.subrange(base as int, base + pos));
        assert(page@.subrange(base as int, base + 32) =~= padded(cell_bytes(cell@), 32));
    }
}

/// Writes the occupied cells of a leaf node into the zeroed cell array.
fn write_data_cells(page: &mut [u8; 4096], flags: &[bool; 64], cells: &Vec<DataCell>)
    requires
        cells.len() == 64,
        forall|s: int| 0 <= s < 64 && flags@[s] ==> cell_fits(#[trigger] cells@[s]@),
        forall|i: int| 2048 <= i < 4096 ==> old(page)@[i] == 0,
    ensures
        forall|s: int|
            0 <= s < 64 ==> #[trigger] final(page)@.subrange(2048 + 32 * s, 2048 + 32 * s + 32)
                == if flags@[s] {
                padded(cell_bytes(cells@[s]@), 32)
            } else {
                padded(Seq::empty(), 32)
            },
        forall|i: int| 0 <= i < 2048 ==> final(page)@[i] == old(page)@[i],
{
    let mut s: usize = 0;
    while s < 64
        invariant
            s <= 64,
            cells.len() == 64,
            forall|t: int| 0 <= t < 64 && flags@[t] ==> cell_fits(#[trigger] cells@[t]@),
            forall|t: int|
                0 <= t < s ==> #[trigger] page@.subrange(2048 + 32 * t, 2048 + 32 * t + 32)
                    == if flags@[t] {
                    padded(cell_bytes(cells@[t]@), 32)
                } else {
                    padded(Seq::empty(), 32)
                },
            forall|i: int| 2048 + 32 * s <= i < 4096 ==> page@[i] == 0,
            forall|i: int| 0 <= i < 2048 ==> page@[i] == old(page)@[i],
        decreases 64 - s,
    {
        let ghost before = page@;
        if flags[s] {
            write_data_cell(page, 2048 + 32 * s, &cells[s]);
        } else {
            assert(page@.subrange(2048 + 32 * s, 2048 + 32 * s + 32) =~= padded(
                Seq::empty(),
                32,
            ));
        }
        proof {
            assert forall|t: int| 0 <= t < s implies #[trigger] page@.subrange(
                2048 + 32 * t,
                2048 + 32 * t + 32,
            ) == if flags@[t] {
                padded(cell_bytes(cells@[t]@), 32)
            } else {
                padded(Seq::empty(), 32)
            } by {
                assert(page@.subrange(2048 + 32 * t, 2048 + 32 * t + 32) =~= before.subrange(
                    2048 + 32 * t,
                    2048 + 32 * t + 32,
                ));
            }
        }
        s += 1;
    }
}

/// Whether a row, with any key, fits a leaf cell.
pub(crate) fn row_fits(row: &Row) -> (ok: bool)
    ensures
        forall|key: u32| ok == #[trigger] cell_fits(CellView { key, row: row.deep_view() }),
{
    let ghost rv = row.deep_view();
    let n: usize = row.len();
    let mut total: usize = 0;
    let mut i: usize = 0;
    let mut ok: bool = true;
    while i < n && ok
        invariant
            i <= n,
            n == row.len(),
            rv == row.deep_view(),
            total <= 28,
            ok ==> total + row_bytes(rv, i as int).len() == row_bytes(rv, 0).len(),
            !ok ==> row_bytes(rv, 0).len() > 28,
        decreases n - i + if ok { 1int } else { 0int },
    {
        proof {
            lemma_row_bytes_step(rv, i as int);
            assert(rv[i as int] == row@[i as int]@);
        }
        let len: usize = match &row[i] {
            DBValue::Integer(_) => {
                assert(value_bytes(rv[i as int]).len() == 8) by {
                    assert(be32_bytes(0).len() == 4);
                }
                8
            },
            DBValue::Text(text) => {
                let bytes = text.as_str().as_bytes();
                if bytes.len() > 27 {
                    29
                } else {
                    1 + bytes.len()
                }
            },
        };
        if total + len > 28 {
            ok = false;
        } else {
            total = total + len;
            i += 1;
        }
    }
    proof {
        assert forall|key: u32| ok == #[trigger] cell_fits(CellView { key, row: rv }) by {
            assert(be32_bytes(key).len() == 4);
        }
    }
    ok
}

impl BTreeNode {
    /// Decodes a page. Fails with `CorruptPage` where the kind byte is
    /// neither 0 nor 1, where an occupancy flag is neither 0 nor 1, and
    /// where an occupied leaf slot does not hold a row of the schema's
    /// column types.
    pub fn read(input: [u8; 4096], schema: &Schema) -> (r: Result<Self, BTreeError>)
        ensures
            match r {
                Ok(node) => decode_page(input@, schema.types()) == Some(node@) && storable(
                    node@,
                    schema.types(),
                ),
                Err(e) => e == BTreeError::CorruptPage && decode_page(input@, schema.types())
                    is None,
            },
    {
        proof {
            reveal(decode_page);
            if decode_page(input@, schema.types()) is Some {
                lemma_decoded_storable(input@, schema.types());
            }
        }
        let tag = input[0];
        if tag == 0 {
            match read_flags::<256>(&input) {
                Some(freecells) => {
                    let pointers = read_directory::<256>(&input);
                    let cells = read_key_cells(&input);
                    Ok(BTreeNode::Internal { freecells, pointers, cells })
                },
                None => Err(BTreeError::CorruptPage),
            }
        } else if tag == 1 {
            match read_flags::<64>(&input) {
                Some(freecells) => {
                    let pointers = read_directory::<64>(&input);
                    match read_data_cells(&input, &freecells, schema) {
                        Some(data_cells) => Ok(
                            BTreeNode::Leaf { freecells, pointers, data_cells },
                        ),
                        None => Err(BTreeError::CorruptPage),
                    }
                },
                None => Err(BTreeError::CorruptPage),
            }
        } else {
            Err(BTreeError::CorruptPage)
        }
    }

    /// Encodes the node as a page.
    pub fn write(&self) -> (page: [u8; 4096])
        requires
            encodable(self@),
        ensures
            page@ == encode_page(self@),
    {
        let mut page = [0u8; 4096];
        proof {
            reveal(encode_page);
        }
        match self {
            BTreeNode::Internal { freecells, pointers, cells } => {
                page[0] = 0;
                write_flags::<256>(&mut page, freecells);
                write_directory::<256>(&mut page, pointers);
                write_key_cells(&mut page, cells);
                proof {
                    assert forall|i: int| 0 <= i < 4096 implies page@[i] == page_byte(
                        self@,
                        i,
                    ) by {
                        if i >= 2048 {
                            let s = (i - 2048) / 8;
                            assert(page@.subrange(2048 + 8 * s, 2048 + 8 * s + 8)[i - 2048 - 8
                                * s] == page@[i]);
                        }
                    }
                }
            },
            BTreeNode::Leaf { freecells, pointers, data_cells } => {
                page[0] = 1;
                write_flags::<64>(&mut page, freecells);
                write_directory::<64>(&mut page, pointers);
                proof {
                    assert forall|s: int| 0 <= s < 64 && freecells@[s] implies cell_fits(
                        #[trigger] data_cells@[s]@,
                    ) by {
                        assert(data_cells.deep_view()[s] == data_cells@[s]@);
                    }
                }
                write_data_cells(&mut page, freecells, data_cells);
                proof {
                    assert forall|i: int| 0 <= i < 4096 implies page@[i] == page_byte(
                        self@,
                        i,
                    ) by {
                        if i >= 2048 {
                            let s = (i - 2048) / 32;
                            assert(data_cells.deep_view()[s] == data_cells@[s]@);
                            assert(page@.subrange(2048 + 32 * s, 2048 + 32 * s + 32)[i - 2048
                                - 32 * s] == page@[i]);
                        }
                    }
                }
            },
        }
        assert(page@ =~= encode_page(self@));
        page
    }
}

/// A value is read back from its bytes.
proof fn lemma_parse_value(r: Seq<u8>, at: int, v: ValueView)
    requires
        0 <= at,
        at + value_bytes(v).len() <= r.len() <= 256,
        r.subrange(at, at + value_bytes(v).len()) == value_bytes(v),
    ensures
        parse_value(r, at, type_of(v)) == Some((v, at + value_bytes(v).len())),
{
    let vb = value_bytes(v);
    reveal(parse_value);
    match v {
        ValueView::Integer(i) => {
            assert(vb.len() == 8);
            lemma_be64_roundtrip(r, at, i64_bits(i));
            lemma_i64_bits_roundtrip(i);
        },
        ValueView::Text(s) => {
            let enc = encode_utf8(s);
            assert(vb.len() == 1 + enc.len());
            assert(r[at] == r.subrange(at, at + vb.len())[0]);
            assert(r[at] == enc.len());
            assert(r.subrange(at + 1, at + 1 + r[at]) =~= enc) by {
                assert forall|j: int| 0 <= j < enc.len() implies r[at + 1 + j] == enc[j] by {
                    assert(r.subrange(at, at + vb.len())[1 + j] == r[at + 1 + j]);
                }
            }
            encode_utf8_valid_utf8(s);
            encode_utf8_decode_utf8(s);
        },
    }
}

/// The values of a row are read back from their bytes.
proof fn lemma_parse_values(r: Seq<u8>, at: int, row: Seq<ValueView>, i: int)
    requires
        0 <= at,
        0 <= i <= row.len(),
        at + row_bytes(row, i).len() <= r.len() <= 256,
        r.subrange(at, at + row_bytes(row, i).len()) == row_bytes(row, i),
    ensures
        parse_values(r, at, types_of(row), i) == Some(row.skip(i)),
    decreases row.len() - i,
{
    if i < row.len() {
        let vb = value_bytes(row[i]);
        let rest = row_bytes(row, i + 1);
        let whole = r.subrange(at, at + row_bytes(row, i).len());
        assert(row_bytes(row, i) == vb + rest);
        assert(r.subrange(at, at + vb.len()) =~= vb) by {
            assert forall|j: int| 0 <= j < vb.len() implies r[at + j] == vb[j] by {
                assert(whole[j] == r[at + j]);
            }
        }
        lemma_parse_value(r, at, row[i]);
        assert(r.subrange(at + vb.len(), at + vb.len() + rest.len()) =~= rest) by {
            assert forall|j: int| 0 <= j < rest.len() implies r[at + vb.len() + j] == rest[j] by {
                assert(whole[vb.len() + j] == r[at + vb.len() + j]);
            }
        }
        lemma_parse_values(r, at + vb.len(), row, i + 1);
        assert(seq![row[i]] + row.skip(i + 1) =~= row.skip(i));
        assert(types_of(row)[i] == type_of(row[i]));
    } else {
        assert(row.skip(i) =~= Seq::empty());
    }
}

/// A leaf cell that fits its slot is read back from the slot.
proof fn lemma_parse_cell(c: CellView)
    requires
        cell_fits(c),
    ensures
        parse_cell(padded(cell_bytes(c), 32), types_of(c.row)) == Some(c),
{
    let r = padded(cell_bytes(c), 32);
    let rb = row_bytes(c.row, 0);
    assert(be32_bytes(c.key).len() == 4);
    assert(r.subrange(0, 4) =~= be32_bytes(c.key));
    lemma_be32_roundtrip(r, 0, c.key);
    assert(r.subrange(4, 4 + rb.len() as int) =~= rb);
    lemma_parse_values(r, 4, c.row, 0);
    assert(c.row.skip(0) =~= c.row);
}

/// The bytes of slot `s` stand in the page at the slot's offset.
proof fn lemma_cell_region(v: NodeView, s: int)
    requires
        v.shaped(),
        0 <= s < v.capacity(),
    ensures
        cell_region(v, s).len() == cell_size(v),
        encode_page(v).subrange(2048 + cell_size(v) * s, 2048 + cell_size(v) * s + cell_size(v))
            == cell_region(v, s),
{
    let w = cell_size(v);
    let b = encode_page(v);
    reveal(encode_page);
    match v {
        NodeView::Internal { cells, .. } => {
            assert(be32_bytes(cells[s].key).len() == 4);
            assert(be32_bytes(cells[s].page_id).len() == 4);
        },
        NodeView::Leaf { .. } => {},
    }
    assert forall|j: int| 0 <= j < w implies b[2048 + w * s + j] == cell_region(v, s)[j] by {
        let i = 2048 + w * s + j;
        assert((i - 2048) / w == s && (i - 2048) % w == j) by {
            if w == 8 {
                assert((8 * s + j) / 8 == s && (8 * s + j) % 8 == j);
            } else {
                assert((32 * s + j) / 32 == s && (32 * s + j) % 32 == j);
            }
        }
    }
    assert(b.subrange(2048 + w * s, 2048 + w * s + w) =~= cell_region(v, s));
}

/// Decoding inverts encoding: the page of a storable node decodes to that node.
pub proof fn lemma_decode_encode(v: NodeView, types: Seq<DBType>)
    requires
        storable(v, types),
    ensures
        decode_page(encode_page(v), types) == Some(v),
{
    reveal(encode_page);
    reveal(decode_page);
    let b = encode_page(v);
    match v {
        NodeView::Internal { freecells, pointers, cells } => {
            assert(flags_ok(b, 256)) by {
                assert forall|i: int| 0 <= i < 256 implies #[trigger] b[1 + i] <= 1 by {
                    assert(b[1 + i] == flag_byte(freecells[i]));
                }
            }
            assert(Seq::new(256, |i: int| b[1 + i] == 1) =~= freecells) by {
                assert forall|i: int| 0 <= i < 256 implies (b[1 + i] == 1) == freecells[i] by {
                    assert(b[1 + i] == flag_byte(freecells[i]));
                }
            }
            assert(b.subrange(1792, 2048) =~= pointers);
            assert(Seq::new(256, |s: int| key_cell(b, s)) =~= cells) by {
                assert forall|s: int| 0 <= s < 256 implies key_cell(b, s) == cells[s] by {
                    lemma_cell_region(v, s);
                    let r = b.subrange(2048 + 8 * s, 2048 + 8 * s + 8);
                    assert(b.subrange(2048 + 8 * s, 2048 + 8 * s + 4) =~= r.subrange(0, 4));
                    assert(b.subrange(2052 + 8 * s, 2052 + 8 * s + 4) =~= r.subrange(4, 8));
                    assert(be32_bytes(cells[s].key).len() == 4);
                    assert(r.subrange(0, 4) =~= be32_bytes(cells[s].key));
                    assert(r.subrange(4, 8) =~= be32_bytes(cells[s].page_id));
                    lemma_be32_roundtrip(b, 2048 + 8 * s, cells[s].key);
                    lemma_be32_roundtrip(b, 2052 + 8 * s, cells[s].page_id);
                }
            }
        },
        NodeView::Leaf { freecells, pointers, data_cells } => {
            assert(flags_ok(b, 64)) by {
                assert forall|i: int| 0 <= i < 64 implies #[trigger] b[1 + i] <= 1 by {
                    assert(b[1 + i] == flag_byte(freecells[i]));
                }
            }
            assert(Seq::new(64, |i: int| b[1 + i] == 1) =~= freecells) by {
                assert forall|i: int| 0 <= i < 64 implies (b[1 + i] == 1) == freecells[i] by {
                    assert(b[1 + i] == flag_byte(freecells[i]));
                }
            }
            assert(b.subrange(1792, 1856) =~= pointers);
            assert forall|s: int| 0 <= s < 64 implies #[trigger] leaf_cell(b, types, s) == Some(
                data_cells[s],
            ) by {
                assert(b[1 + s] == flag_byte(freecells[s]));
                if freecells[s] {
                    lemma_cell_region(v, s);
                    lemma_parse_cell(data_cells[s]);
                }
            }
            assert(Seq::new(64, |s: int| leaf_cell(b, types, s)->0) =~= data_cells);
        },
    }
}

/// The bytes of a row from index `i + 1` on, where the row is `v` in
/// front of `rest`, are those of `rest` from index `i` on.
proof fn lemma_row_bytes_shift(v: ValueView, rest: Seq<ValueView>, i: int)
    requires
        0 <= i <= rest.len(),
    ensures
        row_bytes(seq![v] + rest, i + 1) == row_bytes(rest, i),
    decreases rest.len() - i,
{
    let whole = seq![v] + rest;
    if i < rest.len() {
        lemma_row_bytes_shift(v, rest, i + 1);
        assert(whole[i + 1] == rest[i]);
    }
}

/// A value that was read from a slot has the type asked for, and takes
/// the bytes between the offset it was read at and the offset behind it.
proof fn lemma_parsed_value(r: Seq<u8>, at: int, t: DBType)
    requires
        0 <= at,
        parse_value(r, at, t) is Some,
    ensures
        type_of((parse_value(r, at, t)->0).0) == t,
        (parse_value(r, at, t)->0).1 == at + value_bytes((parse_value(r, at, t)->0).0).len(),
        (parse_value(r, at, t)->0).1 <= r.len(),
{
    reveal(parse_value);
    match t {
        DBType::Integer => {
            let v = (parse_value(r, at, t)->0).0;
            assert(be32_bytes(0).len() == 4);
            assert(value_bytes(v).len() == 8);
        },
        DBType::Text => {
            let sub = r.subrange(at + 1, at + 1 + r[at]);
            decode_utf8_encode_utf8(sub);
        },
    }
}

/// The values that were read from a slot have the types asked for, and
/// their bytes end inside the slot.
proof fn lemma_parsed_values(r: Seq<u8>, at: int, types: Seq<DBType>, i: int)
    requires
        0 <= at <= r.len(),
        0 <= i <= types.len(),
        parse_values(r, at, types, i) is Some,
    ensures
        types_of(parse_values(r, at, types, i)->0) == types.skip(i),
        at + row_bytes(parse_values(r, at, types, i)->0, 0).len() <= r.len(),
    decreases types.len() - i,
{
    let row = parse_values(r, at, types, i)->0;
    if i < types.len() {
        let (v, next) = parse_value(r, at, types[i])->0;
        let rest = parse_values(r, next, types, i + 1)->0;
        lemma_parsed_value(r, at, types[i]);
        lemma_parsed_values(r, next, types, i + 1);
        lemma_row_bytes_shift(v, rest, 0);
        assert(row == seq![v] + rest);
        assert(types_of(row) =~= types.skip(i)) by {
            assert(types_of(rest).len() == types.skip(i + 1).len());
            assert forall|j: int| 0 <= j < row.len() implies types_of(row)[j] == types.skip(i)[j] by {
                if j > 0 {
                    assert(row[j] == rest[j - 1]);
                    assert(types_of(rest)[j - 1] == types.skip(i + 1)[j - 1]);
                } else {
                    assert(row[0] == v);
                }
            }
        }
    } else {
        assert(types_of(row) =~= types.skip(i));
    }
}

/// A node that a page decodes to is storable: it could be written back.
pub proof fn lemma_decoded_storable(b: Seq<u8>, types: Seq<DBType>)
    requires
        decode_page(b, types) is Some,
    ensures
        storable(decode_page(b, types)->0, types),
{
    reveal(decode_page);
    let v = decode_page(b, types)->0;
    match v {
        NodeView::Internal { .. } => {},
        NodeView::Leaf { freecells, data_cells, .. } => {
            assert forall|s: int| 0 <= s < 64 implies (if freecells[s] {
                types_of((#[trigger] data_cells[s]).row) == types && cell_fits(data_cells[s])
            } else {
                data_cells[s] == empty_cell()
            }) by {
                assert(leaf_cell(b, types, s) is Some);
                if freecells[s] {
                    let r = b.subrange(2048 + 32 * s, 2048 + 32 * s + 32);
                    lemma_parsed_values(r, 4, types, 0);
                    assert(types.skip(0) =~= types);
                    assert(be32_bytes(data_cells[s].key).len() == 4);
                }
            }
        },
    }
}

} // verus!
