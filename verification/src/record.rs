//! Rows and the tagged-record encoding.
//!
//! A record serializes a row of columns as
//! `header_size_varint ‖ serial_type_varints ‖ payloads`, where the header
//! size counts the serial-type varints plus the header-size varint itself.
//! Serial types: 0 null, 1-6 signed integers of 1/2/3/4/6/8 bytes, 7 an
//! 8-byte real, 8 and 9 the integer literals 0 and 1, even codes from 12 a
//! blob of length `(N-12)/2`, odd codes from 13 UTF-8 text of length
//! `(N-13)/2`.

use crate::serialise::{be_bytes, pow256, write_be};
use crate::varint::{build_varint, varint_bytes, varint_len, varint_length};
use crate::DbError;
use vstd::prelude::*;
use vstd::utf8::encode_utf8;

verus! {

/// One column value of a row.
#[derive(Debug)]
pub enum Column {
    Null,
    /// A signed integer; only values within the 8-byte signed range
    /// can be stored.
    Integer(i128),
    /// An IEEE-754 binary64 value, held as its bit pattern.  The engine
    /// stores and returns the 8 bytes unchanged; arithmetic on the value
    /// is the embedding program's business.
    Real(u64),
    Blob(Vec<u8>),
    Text(String),
}

/// The mathematical value of a column: what the contracts speak about.
pub enum ColumnV {
    Null,
    Integer(int),
    Real(u64),
    Blob(Seq<u8>),
    Text(Seq<char>),
}

impl View for Column {
    type V = ColumnV;

    open spec fn view(&self) -> ColumnV {
        match self {
            Column::Null => ColumnV::Null,
            Column::Integer(i) => ColumnV::Integer(*i as int),
            Column::Real(bits) => ColumnV::Real(*bits),
            Column::Blob(b) => ColumnV::Blob(b@),
            Column::Text(t) => ColumnV::Text(t@),
        }
    }
}

/// The view of a whole row.
pub open spec fn row_view(s: Seq<Column>) -> Seq<ColumnV> {
    s.map_values(|c: Column| c@)
}

/// The view of a list of rows.
pub open spec fn rows_view(s: Seq<Vec<Column>>) -> Seq<Seq<ColumnV>> {
    s.map_values(|r: Vec<Column>| row_view(r@))
}

impl PartialEq for Column {
    /// Two columns are equal when they are the same variant with the
    /// same value; blobs compare by contents, text by characters.
    fn eq(&self, other: &Column) -> (r: bool) {
        match (self, other) {
            (Column::Null, Column::Null) => true,
            (Column::Integer(a), Column::Integer(b)) => *a == *b,
            (Column::Real(a), Column::Real(b)) => *a == *b,
            (Column::Blob(a), Column::Blob(b)) => bytes_eq(a, b),
            (Column::Text(a), Column::Text(b)) => *a == *b,
            _ => false,
        }
    }
}

impl vstd::std_specs::cmp::PartialEqSpecImpl for Column {
    open spec fn obeys_eq_spec() -> bool {
        true
    }

    open spec fn eq_spec(&self, other: &Column) -> bool {
        self@ == other@
    }
}

/// Compares two byte strings by contents.
pub fn bytes_eq(a: &Vec<u8>, b: &Vec<u8>) -> (r: bool)
    ensures
        r == (a@ == b@),
{
    if a.len() != b.len() {
        proof {
            assert(a@ != b@);
        }
        return false;
    }
    let n = a.len();
    let mut i: usize = 0;
    while i < n
        invariant
            i <= n,
            n == a@.len() == b@.len(),
            forall|j: int| 0 <= j < i ==> a@[j] == b@[j],
        decreases n - i,
    {
        if a[i] != b[i] {
            return false;
        }
        i = i + 1;
    }
    proof {
        assert(a@ =~= b@);
    }
    true
}

/// Copies a byte string.
pub fn copy_bytes(src: &Vec<u8>) -> (out: Vec<u8>)
    ensures
        out@ == src@,
{
    let n = src.len();
    let mut out: Vec<u8> = Vec::new();
    let mut i: usize = 0;
    while i < n
        invariant
            i <= n,
            n == src@.len(),
            out@ =~= src@.take(i as int),
        decreases n - i,
    {
        out.push(src[i]);
        i = i + 1;
    }
    proof {
        assert(src@.take(n as int) =~= src@);
    }
    out
}

/// The big-endian bytes of `v` as a fresh buffer of width `len`.
pub fn be_vec(v: u64, len: usize) -> (out: Vec<u8>)
    requires
        len <= 8,
        v < pow256(len as nat),
    ensures
        out@ == be_bytes(v as nat, len as nat),
{
    let mut out: Vec<u8> = Vec::new();
    let mut i: usize = 0;
    while i < len
        invariant
            i <= len,
            out@.len() == i,
        decreases len - i,
    {
        out.push(0u8);
        i = i + 1;
    }
    write_be(&mut out, 0, v, len);
    proof {
        crate::serialise::lemma_be_bytes_len(v as nat, len as nat);
        assert(out@.subrange(0, len as int) =~= out@);
    }
    out
}

/// Whether an integer fits the widest storable form, 8 signed bytes.
pub open spec fn int_in_range(i: int) -> bool {
    -0x8000_0000_0000_0000 <= i < 0x8000_0000_0000_0000
}

/// The smallest supported two's-complement width that round-trips `i`.
pub open spec fn int_width(i: int) -> nat {
    if -0x80 <= i < 0x80 {
        1
    } else if -0x8000 <= i < 0x8000 {
        2
    } else if -0x80_0000 <= i < 0x80_0000 {
        3
    } else if -0x8000_0000 <= i < 0x8000_0000 {
        4
    } else if -0x8000_0000_0000 <= i < 0x8000_0000_0000 {
        6
    } else {
        8
    }
}

/// The serial type of a storable integer: 8 and 9 stand for the literals
/// 0 and 1; widths 1-4 keep their value, width 6 is code 5, width 8 code 6.
pub open spec fn int_serial(i: int) -> nat {
    if i == 0 {
        8
    } else if i == 1 {
        9
    } else {
        let w = int_width(i);
        if w <= 4 {
            w
        } else if w == 6 {
            5
        } else {
            6
        }
    }
}

/// The payload of a storable integer: its two's-complement big-endian
/// bytes at the chosen width; empty for the literals 0 and 1.
pub open spec fn int_payload(i: int) -> Seq<u8> {
    if i == 0 || i == 1 {
        Seq::empty()
    } else {
        be_bytes((i % (pow256(int_width(i)) as int)) as nat, int_width(i))
    }
}

/// The serial type of a column value.
pub open spec fn serial_type(c: ColumnV) -> nat {
    match c {
        ColumnV::Null => 0,
        ColumnV::Integer(i) => int_serial(i),
        ColumnV::Real(_) => 7,
        ColumnV::Blob(b) => b.len() * 2 + 12,
        ColumnV::Text(t) => encode_utf8(t).len() * 2 + 13,
    }
}

/// The payload bytes of a column value.
pub open spec fn col_payload(c: ColumnV) -> Seq<u8> {
    match c {
        ColumnV::Null => Seq::empty(),
        ColumnV::Integer(i) => int_payload(i),
        ColumnV::Real(bits) => be_bytes(bits as nat, 8),
        ColumnV::Blob(b) => b,
        ColumnV::Text(t) => encode_utf8(t),
    }
}

/// Whether a column's value fits its on-disk form: only integers can be
/// out of range.
pub open spec fn col_storable(c: ColumnV) -> bool {
    match c {
        ColumnV::Integer(i) => int_in_range(i),
        _ => true,
    }
}

pub open spec fn row_storable(row: Seq<ColumnV>) -> bool {
    forall|j: int| 0 <= j < row.len() ==> col_storable(#[trigger] row[j])
}

/// A machine bound: payloads and column counts below `u32::MAX`, so every
/// size computation fits in 64 bits.  Any row a page can hold is far below
/// this bound.
pub open spec fn col_encodable(c: ColumnV) -> bool {
    match c {
        ColumnV::Blob(b) => b.len() <= 0xFFFF_FFFF,
        ColumnV::Text(t) => encode_utf8(t).len() <= 0xFFFF_FFFF,
        _ => true,
    }
}

pub open spec fn row_encodable(row: Seq<ColumnV>) -> bool {
    row.len() <= 0xFFFF_FFFF && forall|j: int|
        0 <= j < row.len() ==> col_encodable(#[trigger] row[j])
}

/// The concatenated serial-type varints of a row.
pub open spec fn sts_bytes(row: Seq<ColumnV>) -> Seq<u8>
    decreases row.len(),
{
    if row.len() == 0 {
        Seq::empty()
    } else {
        sts_bytes(row.drop_last()) + varint_bytes(serial_type(row.last()) as u64)
    }
}

/// The concatenated payloads of a row.
pub open spec fn bodies_bytes(row: Seq<ColumnV>) -> Seq<u8>
    decreases row.len(),
{
    if row.len() == 0 {
        Seq::empty()
    } else {
        bodies_bytes(row.drop_last()) + col_payload(row.last())
    }
}

/// The length of the header-size varint itself: the smallest `s` whose
/// varint form of `n + s` takes exactly `s` bytes.
pub open spec fn hdr_extra(n: nat) -> nat {
    if varint_len(n + 1) == 1 {
        1
    } else if varint_len(n + 2) == 2 {
        2
    } else if varint_len(n + 3) == 3 {
        3
    } else if varint_len(n + 4) == 4 {
        4
    } else if varint_len(n + 5) == 5 {
        5
    } else if varint_len(n + 6) == 6 {
        6
    } else if varint_len(n + 7) == 7 {
        7
    } else if varint_len(n + 8) == 8 {
        8
    } else {
        9
    }
}

/// The value of the header-size varint: the serial-type bytes plus the
/// varint's own length.
pub open spec fn record_header_size(row: Seq<ColumnV>) -> nat {
    sts_bytes(row).len() + hdr_extra(sts_bytes(row).len())
}

/// The full encoding of a row.
pub open spec fn record_bytes(row: Seq<ColumnV>) -> Seq<u8> {
    varint_bytes(record_header_size(row) as u64) + sts_bytes(row) + bodies_bytes(row)
}

pub open spec fn record_len(row: Seq<ColumnV>) -> nat {
    record_bytes(row).len()
}

/// The literals 0 and 1 cost no payload bytes at all.
pub proof fn lemma_small_integers_inline()
    ensures
        int_serial(0) == 8,
        int_serial(1) == 9,
        int_payload(0) == Seq::<u8>::empty(),
        int_payload(1) == Seq::<u8>::empty(),
{
}

/// Serial type and payload of one integer.  Fails exactly on integers
/// outside the 8-byte signed range.
pub fn serialise_record_integer(i: i128) -> (r: Result<(u64, Vec<u8>), DbError>)
    ensures
        match r {
            Ok((st, pl)) => int_in_range(i as int) && st == int_serial(i as int)
                && pl@ == int_payload(i as int),
            Err(e) => e == DbError::IntegerOverflow && !int_in_range(i as int),
        },
{
    if i == 0 {
        return Ok((8, Vec::new()));
    }
    if i == 1 {
        return Ok((9, Vec::new()));
    }
    let (w, st): (usize, u64) = if -0x80 <= i && i < 0x80 {
        (1, 1)
    } else if -0x8000 <= i && i < 0x8000 {
        (2, 2)
    } else if -0x80_0000 <= i && i < 0x80_0000 {
        (3, 3)
    } else if -0x8000_0000 <= i && i < 0x8000_0000 {
        (4, 4)
    } else if -0x8000_0000_0000 <= i && i < 0x8000_0000_0000 {
        (6, 5)
    } else if -0x8000_0000_0000_0000 <= i && i < 0x8000_0000_0000_0000 {
        (8, 6)
    } else {
        return Err(DbError::IntegerOverflow);
    };
    let p: u128 = pow256_u128(w);
    proof {
        assert(pow256(1) == 0x100 && pow256(2) == 0x1_0000 && pow256(3) == 0x100_0000
            && pow256(4) == 0x1_0000_0000 && pow256(6) == 0x1_0000_0000_0000
            && pow256(8) == 0x1_0000_0000_0000_0000) by {
            reveal_with_fuel(pow256, 9);
        }
    }
    let low: u64 = if i < 0 {
        proof {
            assert(0 <= i + p && i + p < p);
            assert((i as int) % (p as int) == i + p) by (nonlinear_arith)
                requires
                    (-(p as int)) <= i < 0,
                    p > 0,
            ;
        }
        ((i + p as i128) as u128) as u64
    } else {
        proof {
            assert((i as int) % (p as int) == i as int) by (nonlinear_arith)
                requires
                    0 <= i < p,
                    p > 0,
            ;
        }
        (i as u128) as u64
    };
    let pl = be_vec(low, w);
    Ok((st, pl))
}

/// `pow256` as an executable value, up to the 8-byte width.
pub(crate) fn pow256_u128(w: usize) -> (r: u128)
    requires
        w <= 8,
    ensures
        r == pow256(w as nat),
        r > 0,
{
    let mut r: u128 = 1;
    let mut j: usize = 0;
    proof {
        crate::serialise::lemma_pow256_le(w as nat, 8);
        assert(pow256(8) == 0x1_0000_0000_0000_0000) by {
            reveal_with_fuel(pow256, 9);
        }
    }
    while j < w
        invariant
            j <= w <= 8,
            r == pow256(j as nat),
            pow256(w as nat) <= 0x1_0000_0000_0000_0000,
        decreases w - j,
    {
        proof {
            crate::serialise::lemma_pow256_le(j as nat + 1, w as nat);
        }
        r = r * 256;
        j = j + 1;
    }
    proof {
        crate::serialise::lemma_pow256_pos(w as nat);
    }
    r
}

/// The length of the header-size varint for a type-bytes length `n`.
fn hdr_extra_exec(n: usize) -> (s: usize)
    requires
        n <= 0x10_0000_0000,
    ensures
        s == hdr_extra(n as nat),
        1 <= s <= 9,
{
    let n64 = n as u64;
    if varint_length(n64 + 1) == 1 {
        1
    } else if varint_length(n64 + 2) == 2 {
        2
    } else if varint_length(n64 + 3) == 3 {
        3
    } else if varint_length(n64 + 4) == 4 {
        4
    } else if varint_length(n64 + 5) == 5 {
        5
    } else if varint_length(n64 + 6) == 6 {
        6
    } else if varint_length(n64 + 7) == 7 {
        7
    } else if varint_length(n64 + 8) == 8 {
        8
    } else {
        9
    }
}

/// The serial-type bytes of a row take at most 9 bytes per column.
pub proof fn lemma_sts_len_bound(row: Seq<ColumnV>)
    ensures
        sts_bytes(row).len() <= 9 * row.len(),
    decreases row.len(),
{
    if row.len() > 0 {
        lemma_sts_len_bound(row.drop_last());
    }
}

/// Encodes a row as a record.  Fails exactly when some integer column is
/// outside the 8-byte signed range.
pub fn create_record(row: &Vec<Column>) -> (r: Result<Vec<u8>, DbError>)
    requires
        row_encodable(row_view(row@)),
    ensures
        match r {
            Ok(bytes) => row_storable(row_view(row@))
                && bytes@ == record_bytes(row_view(row@)),
            Err(e) => e == DbError::IntegerOverflow && !row_storable(row_view(row@)),
        },
{
    let ghost rv = row_view(row@);
    let len = row.len();
    let mut header: Vec<u8> = Vec::new();
    let mut body: Vec<u8> = Vec::new();
    let mut idx: usize = 0;
    proof {
        assert(rv.take(0) =~= Seq::<ColumnV>::empty());
    }
    while idx < len
        invariant
            idx <= len,
            len == row@.len(),
            rv == row_view(row@),
            row_encodable(rv),
            header@ == sts_bytes(rv.take(idx as int)),
            body@ == bodies_bytes(rv.take(idx as int)),
            forall|j: int| 0 <= j < idx ==> col_storable(#[trigger] rv[j]),
        decreases len - idx,
    {
        proof {
            assert(rv[idx as int] == row@[idx as int]@);
            assert(col_encodable(rv[idx as int]));
        }
        let (st, mut payload): (u64, Vec<u8>) = match &row[idx] {
            Column::Null => (0u64, Vec::new()),
            Column::Integer(i) => {
                match serialise_record_integer(*i) {
                    Ok(p) => p,
                    Err(e) => {
                        proof {
                            assert(!col_storable(rv[idx as int]));
                        }
                        return Err(e);
                    },
                }
            },
            Column::Real(bits) => {
                proof {
                    assert(pow256(8) == 0x1_0000_0000_0000_0000) by {
                        reveal_with_fuel(pow256, 9);
                    }
                }
                (7u64, be_vec(*bits, 8))
            },
            Column::Blob(b) => ((b.len() as u64) * 2 + 12, copy_bytes(b)),
            Column::Text(t) => {
                let bs = t.as_str().as_bytes_vec();
                (((bs.len() as u64) * 2) + 13, bs)
            },
        };
        proof {
            assert(st == serial_type(rv[idx as int]));
            assert(payload@ == col_payload(rv[idx as int]));
        }
        let mut tv = build_varint(st);
        header.append(&mut tv);
        body.append(&mut payload);
        proof {
            assert(rv.take(idx + 1).drop_last() =~= rv.take(idx as int));
            assert(rv.take(idx + 1).last() == rv[idx as int]);
        }
        idx = idx + 1;
    }
    proof {
        assert(rv.take(len as int) =~= rv);
        lemma_sts_len_bound(rv);
    }
    let n = header.len();
    let s = hdr_extra_exec(n);
    let header_size = n as u64 + s as u64;
    let mut out = build_varint(header_size);
    out.append(&mut header);
    out.append(&mut body);
    proof {
        assert(record_header_size(rv) == n + hdr_extra(n as nat));
        assert(out@ == record_bytes(rv));
    }
    Ok(out)
}

} // verus!
