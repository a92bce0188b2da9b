//! The header page: page zero of a table file. It names the root page of
//! the tree, the height of the tree and the columns of the table.
//!
//! | offset | length | content |
//! |---|---|---|
//! | 0 | 4 | root page, big-endian |
//! | 4 | 4 | height of the tree, big-endian |
//! | 8 | 1 | number of columns |
//! | 9 | | the columns, one after the other |
//!
//! A column takes one byte for its type (0 integer, 1 text), one byte
//! for the length of its name in bytes, and the UTF-8 bytes of the name.
//! The rest of the page is zero.

use vstd::prelude::*;
use vstd::utf8::*;
use crate::db::DBType;
use crate::db::Schema;
use super::bytes::be32;
use super::bytes::be32_bytes;
use super::bytes::lemma_be32_roundtrip;
use super::bytes::read_be32;
use super::bytes::write_be32;
use super::codec::copy_range;
use super::codec::padded;
use super::codec::string_from_utf8;

verus! {

/// What a header page says.
pub struct HeaderView {
    pub columns: Seq<(Seq<char>, DBType)>,
    pub root: u32,
    pub height: u32,
}

/// The byte that stands for a column type.
pub open spec fn type_tag(t: DBType) -> u8 {
    match t {
        DBType::Integer => 0,
        DBType::Text => 1,
    }
}

/// The bytes of one column.
pub open spec fn column_bytes(c: (Seq<char>, DBType)) -> Seq<u8> {
    seq![type_tag(c.1), encode_utf8(c.0).len() as u8] + encode_utf8(c.0)
}

/// The bytes of the columns from index `from` on.
pub open spec fn columns_bytes(cols: Seq<(Seq<char>, DBType)>, from: int) -> Seq<u8>
    decreases cols.len() - from,
{
    if from >= cols.len() {
        Seq::empty()
    } else {
        column_bytes(cols[from]) + columns_bytes(cols, from + 1)
    }
}

/// The bytes of a header, without the zeros behind them.
pub open spec fn header_bytes(h: HeaderView) -> Seq<u8> {
    be32_bytes(h.root) + be32_bytes(h.height) + seq![h.columns.len() as u8] + columns_bytes(
        h.columns,
        0,
    )
}

/// Whether the columns can be written into a header page: there are at
/// most 255 of them, each name takes at most 255 bytes, and all of it
/// fits the page.
pub open spec fn header_fits(cols: Seq<(Seq<char>, DBType)>) -> bool {
    &&& cols.len() <= 255
    &&& forall|i: int| 0 <= i < cols.len() ==> encode_utf8(#[trigger] cols[i].0).len() <= 255
    &&& 9 + columns_bytes(cols, 0).len() <= 4096
}

/// The header page.
pub open spec fn encode_header(h: HeaderView) -> Seq<u8> {
    padded(header_bytes(h), 4096)
}

/// The column that starts at offset `at`, and the offset behind it.
#[verifier::opaque]
pub open spec fn parse_column(b: Seq<u8>, at: int) -> Option<((Seq<char>, DBType), int)> {
    if at + 2 <= b.len() && b[at] <= 1 && at + 2 + b[at + 1] <= b.len() && valid_utf8(
        b.subrange(at + 2, at + 2 + b[at + 1]),
    ) {
        Some(
            (
                (
                    decode_utf8(b.subrange(at + 2, at + 2 + b[at + 1])),
                    if b[at] == 0 {
                        DBType::Integer
                    } else {
                        DBType::Text
                    },
                ),
                at + 2 + b[at + 1],
            ),
        )
    } else {
        None
    }
}

/// The columns `i..n` that start at offset `at`.
pub open spec fn parse_columns(b: Seq<u8>, at: int, n: int, i: int) -> Option<
    Seq<(Seq<char>, DBType)>,
>
    decreases n - i,
{
    if i >= n {
        Some(Seq::empty())
    } else {
        match parse_column(b, at) {
            None => None,
            Some((c, next)) => match parse_columns(b, next, n, i + 1) {
                None => None,
                Some(rest) => Some(seq![c] + rest),
            },
        }
    }
}

/// What a header page says, if its columns can be read.
pub open spec fn decode_header(b: Seq<u8>) -> Option<HeaderView> {
    if b.len() != 4096 {
        None
    } else {
        match parse_columns(b, 9, b[8] as int, 0) {
            Some(columns) => Some(HeaderView { columns, root: be32(b, 0), height: be32(b, 4) }),
            None => None,
        }
    }
}

/// A column is read back from its bytes.
proof fn lemma_parse_column(b: Seq<u8>, at: int, c: (Seq<char>, DBType))
    requires
        0 <= at,
        at + column_bytes(c).len() <= b.len(),
        b.subrange(at, at + column_bytes(c).len()) == column_bytes(c),
        encode_utf8(c.0).len() <= 255,
    ensures
        parse_column(b, at) == Some((c, at + column_bytes(c).len())),
{
    reveal(parse_column);
    let cb = column_bytes(c);
    let enc = encode_utf8(c.0);
    let whole = b.subrange(at, at + cb.len());
    assert(b[at] == whole[0]);
    assert(b[at + 1] == whole[1]);
    assert(b.subrange(at + 2, at + 2 + b[at + 1]) =~= enc) by {
        assert forall|j: int| 0 <= j < enc.len() implies b[at + 2 + j] == enc[j] by {
            assert(whole[2 + j] == b[at + 2 + j]);
        }
    }
    encode_utf8_valid_utf8(c.0);
    encode_utf8_decode_utf8(c.0);
}

/// The columns are read back from their bytes.
proof fn lemma_parse_columns(b: Seq<u8>, at: int, cols: Seq<(Seq<char>, DBType)>, i: int)
    requires
        0 <= at,
        0 <= i <= cols.len(),
        at + columns_bytes(cols, i).len() <= b.len(),
        b.subrange(at, at + columns_bytes(cols, i).len()) == columns_bytes(cols, i),
        forall|j: int| 0 <= j < cols.len() ==> encode_utf8(#[trigger] cols[j].0).len() <= 255,
    ensures
        parse_columns(b, at, cols.len() as int, i) == Some(cols.skip(i)),
    decreases cols.len() - i,
{
    if i < cols.len() {
        let cb = column_bytes(cols[i]);
        let rest = columns_bytes(cols, i + 1);
        let whole = b.subrange(at, at + columns_bytes(cols, i).len());
        assert(columns_bytes(cols, i) == cb + rest);
        assert(b.subrange(at, at + cb.len()) =~= cb) by {
            assert forall|j: int| 0 <= j < cb.len() implies b[at + j] == cb[j] by {
                assert(whole[j] == b[at + j]);
            }
        }
        lemma_parse_column(b, at, cols[i]);
        assert(b.subrange(at + cb.len(), at + cb.len() + rest.len()) =~= rest) by {
            assert forall|j: int| 0 <= j < rest.len() implies b[at + cb.len() + j] == rest[j] by {
                assert(whole[cb.len() + j] == b[at + cb.len() + j]);
            }
        }
        lemma_parse_columns(b, at + cb.len(), cols, i + 1);
        assert(seq![cols[i]] + cols.skip(i + 1) =~= cols.skip(i));
    } else {
        assert(cols.skip(i) =~= Seq::empty());
    }
}

/// Decoding inverts encoding: the page of a header that fits says what
/// the header says.
pub proof fn lemma_decode_encode_header(h: HeaderView)
    requires
        header_fits(h.columns),
    ensures
        decode_header(encode_header(h)) == Some(h),
{
    let b = encode_header(h);
    let hb = header_bytes(h);
    let cb = columns_bytes(h.columns, 0);
    assert(be32_bytes(h.root).len() == 4);
    assert(be32_bytes(h.height).len() == 4);
    assert(hb.len() == 9 + cb.len());
    assert(b.subrange(0, 4) =~= be32_bytes(h.root));
    assert(b.subrange(4, 8) =~= be32_bytes(h.height));
    lemma_be32_roundtrip(b, 0, h.root);
    lemma_be32_roundtrip(b, 4, h.height);
    assert(b[8] == hb[8]);
    assert(b.subrange(9, 9 + cb.len() as int) =~= cb);
    lemma_parse_columns(b, 9, h.columns, 0);
    assert(h.columns.skip(0) =~= h.columns);
}

/// What the columns read depends on the bytes from the first column on
/// alone.
proof fn lemma_parse_columns_frame(b1: Seq<u8>, b2: Seq<u8>, at: int, n: int, i: int)
    requires
        0 <= at,
        b1.len() == b2.len(),
        forall|j: int| at <= j < b1.len() ==> b1[j] == b2[j],
    ensures
        parse_columns(b1, at, n, i) == parse_columns(b2, at, n, i),
    decreases n - i,
{
    reveal(parse_column);
    if i < n {
        if at + 2 <= b1.len() && at + 2 + b1[at + 1] <= b1.len() {
            assert(b1.subrange(at + 2, at + 2 + b1[at + 1]) =~= b2.subrange(
                at + 2,
                at + 2 + b2[at + 1],
            ));
        }
        match parse_column(b1, at) {
            Some((c, next)) => {
                lemma_parse_columns_frame(b1, b2, next, n, i + 1);
            },
            None => {},
        }
    }
}

/// Puts the root page and the height of the tree into a header page.
pub(crate) fn set_root(page: &mut [u8; 4096], root: u32, height: u32)
    ensures
        decode_header(final(page)@) == match decode_header(old(page)@) {
            Some(h) => Some(HeaderView { columns: h.columns, root, height }),
            None => None,
        },
{
    write_be32(page, 0, root);
    write_be32(page, 4, height);
    proof {
        let b1 = old(page)@;
        let b2 = page@;
        assert(b2.subrange(0, 4) =~= be32_bytes(root));
        lemma_be32_roundtrip(b2, 0, root);
        lemma_be32_roundtrip(b2, 4, height);
        lemma_parse_columns_frame(b1, b2, 9, b1[8] as int, 0);
    }
}

/// Whether the columns of a schema can be written into a header page.
pub fn fits_header(schema: &Schema) -> (ok: bool)
    ensures
        ok == header_fits(schema@),
{
    let n: usize = schema.len();
    if n > 255 {
        return false;
    }
    let mut total: usize = 9;
    let mut i: usize = 0;
    while i < n
        invariant
            i <= n <= 255,
            n == schema@.len(),
            forall|j: int| 0 <= j < i ==> encode_utf8(#[trigger] schema@[j].0).len() <= 255,
            total + columns_bytes(schema@, i as int).len() == 9 + columns_bytes(schema@, 0).len(),
            total <= 4096,
        decreases n - i,
    {
        let len: usize = schema.column_name(i).as_bytes().len();
        if len > 255 {
            return false;
        }
        if total + 2 + len > 4096 {
            return false;
        }
        total = total + 2 + len;
        i += 1;
    }
    true
}

/// Encodes a header page.
pub fn write_header(schema: &Schema, root: u32, height: u32) -> (page: [u8; 4096])
    requires
        header_fits(schema@),
    ensures
        page@ == encode_header(HeaderView { columns: schema@, root, height }),
{
    let ghost h = HeaderView { columns: schema@, root, height };
    let ghost cols = schema@;
    let mut page = [0u8; 4096];
    write_be32(&mut page, 0, root);
    write_be32(&mut page, 4, height);
    let n: usize = schema.len();
    page[8] = n as u8;
    let mut pos: usize = 9;
    let mut i: usize = 0;
    proof {
        assert(page@.subrange(0, 4) =~= be32_bytes(root));
        assert(page@.subrange(0, 9) =~= be32_bytes(root) + be32_bytes(height) + seq![
            cols.len() as u8,
        ]) by {
            assert(be32_bytes(root).len() == 4);
            assert(be32_bytes(height).len() == 4);
            assert forall|j: int| 0 <= j < 9 implies page@.subrange(0, 9)[j] == (be32_bytes(root)
                + be32_bytes(height) + seq![cols.len() as u8])[j] by {
                if j < 4 {
                    assert(page@.subrange(0, 4)[j] == page@[j]);
                } else if j < 8 {
                    assert(page@.subrange(4, 8)[j - 4] == page@[j]);
                }
            }
        }
        assert(page@.subrange(0, 9) + columns_bytes(cols, 0) =~= header_bytes(h));
    }
    while i < n
        invariant
            i <= n,
            n == cols.len(),
            cols == schema@,
            h == (HeaderView { columns: cols, root, height }),
            header_fits(cols),
            9 <= pos <= 4096,
            header_bytes(h) == page@.subrange(0, pos as int) + columns_bytes(cols, i as int),
            forall|j: int| pos <= j < 4096 ==> page@[j] == 0,
        decreases n - i,
    {
        let ghost before = page@;
        let ghost cb = column_bytes(cols[i as int]);
        let bytes = schema.column_name(i).as_bytes();
        let len: usize = bytes.len();
        proof {
            assert(columns_bytes(cols, i as int) == cb + columns_bytes(cols, i + 1));
            assert(encode_utf8(cols[i as int].0).len() <= 255);
            assert(cb.len() == 2 + len);
            assert(header_bytes(h).len() == 9 + columns_bytes(cols, 0).len()) by {
                assert(be32_bytes(root).len() == 4);
                assert(be32_bytes(height).len() == 4);
            }
        }
        page[pos] = match schema.column_type(i) {
            DBType::Integer => 0,
            DBType::Text => 1,
        };
        page[pos + 1] = len as u8;
        let ghost start = page@;
        let mut k: usize = 0;
        while k < len
            invariant
                k <= len,
                len == bytes@.len(),
                start.len() == 4096,
                pos + 2 + len <= 4096,
                forall|j: int| 0 <= j < k ==> page@[pos + 2 + j] == #[trigger] bytes@[j],
                forall|j: int|
                    0 <= j < 4096 && !(pos + 2 <= j < pos + 2 + k) ==> #[trigger] page@[j]
                        == start[j],
            decreases len - k,
        {
            page[pos + 2 + k] = bytes[k];
            k += 1;
        }
        proof {
            assert forall|j: int| 0 <= j < pos + 2 + len implies #[trigger] page@.subrange(
                0,
                pos + 2 + len,
            )[j] == (before.subrange(0, pos as int) + cb)[j] by {
                assert(page@.subrange(0, pos + 2 + len)[j] == page@[j]);
                if j >= pos + 2 {
                    assert(page@[pos + 2 + (j - pos - 2)] == bytes@[j - pos - 2]);
                    assert(cb[j - pos] == bytes@[j - pos - 2]);
                } else if j < pos {
                    assert(page@[j] == start[j]);
                } else {
                    assert(page@[j] == start[j]);
                }
            }
            assert(page@.subrange(0, pos + 2 + len) =~= before.subrange(0, pos as int) + cb);
            assert((before.subrange(0, pos as int) + cb) + columns_bytes(cols, i + 1)
                =~= before.subrange(0, pos as int) + (cb + columns_bytes(cols, i + 1)));
            assert forall|j: int| pos + 2 + len <= j < 4096 implies page@[j] == 0 by {
                assert(page@[j] == start[j]);
            }
        }
        pos = pos + 2 + len;
        i += 1;
    }
    proof {
        assert(columns_bytes(cols, i as int) =~= Seq::empty());
        assert(header_bytes(h) =~= page@.subrange(0, pos as int));
        assert(page@ =~= padded(header_bytes(h), 4096));
    }
    page
}

/// `acc` in front of the columns in `rest`, if there are any.
pub open spec fn prepend_columns(
    acc: Seq<(Seq<char>, DBType)>,
    rest: Option<Seq<(Seq<char>, DBType)>>,
) -> Option<Seq<(Seq<char>, DBType)>> {
    match rest {
        Some(r) => Some(acc + r),
        None => None,
    }
}

/// Decodes a header page: the schema, the root page and the height.
pub fn read_header(page: &[u8; 4096]) -> (r: Option<(Schema, u32, u32)>)
    ensures
        match r {
            Some((schema, root, height)) => decode_header(page@) == Some(
                HeaderView { columns: schema@, root, height },
            ),
            None => decode_header(page@) is None,
        },
{
    let root = read_be32(page, 0);
    let height = read_be32(page, 4);
    let n: usize = page[8] as usize;
    let mut columns: Vec<(String, DBType)> = Vec::new();
    let mut pos: usize = 9;
    let mut i: usize = 0;
    proof {
        assert(columns.deep_view() =~= Seq::empty());
        match parse_columns(page@, 9, n as int, 0) {
            Some(r) => assert(Seq::<(Seq<char>, DBType)>::empty() + r =~= r),
            None => {},
        }
    }
    while i < n
        invariant
            i <= n,
            n == page@[8],
            9 <= pos <= 4096,
            columns.len() == i,
            parse_columns(page@, 9, n as int, 0) == prepend_columns(
                columns.deep_view(),
                parse_columns(page@, pos as int, n as int, i as int),
            ),
        decreases n - i,
    {
        let ghost before = columns.deep_view();
        proof {
            reveal(parse_column);
        }
        if pos + 2 > 4096 {
            return None;
        }
        let tag = page[pos];
        let len: usize = page[pos + 1] as usize;
        if tag > 1 || pos + 2 + len > 4096 {
            return None;
        }
        let bytes = copy_range(page, pos + 2, pos + 2 + len);
        let name = match string_from_utf8(bytes) {
            Some(name) => name,
            None => {
                return None;
            },
        };
        let t = if tag == 0 {
            DBType::Integer
        } else {
            DBType::Text
        };
        columns.push((name, t));
        pos = pos + 2 + len;
        proof {
            let c = columns@[i as int].deep_view();
            assert(columns.deep_view() =~= before + seq![c]);
            match parse_columns(page@, pos as int, n as int, i + 1) {
                Some(rest) => {
                    assert(before + (seq![c] + rest) =~= (before + seq![c]) + rest);
                },
                None => {},
            }
        }
        i += 1;
    }
    proof {
        assert(columns.deep_view() + Seq::<(Seq<char>, DBType)>::empty() =~= columns.deep_view());
    }
    Some((Schema::from(columns), root, height))
}

} // verus!
