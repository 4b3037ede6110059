//! The record read path: from cell bytes back to a row of columns.
//!
//! Reading starts at a cell pointer, decodes the header-size varint, the
//! serial-type varints up to the header's end, and then one payload per
//! serial type.  Malformed bytes surface `Corruption`: a header that
//! overruns the page, a reserved serial type (10 or 11), a payload past the
//! end, or text that is not UTF-8.

use crate::record::{
    bodies_bytes, col_encodable, col_payload, col_storable, hdr_extra, int_in_range,
    int_serial, int_width, record_bytes, record_header_size, record_len, row_encodable,
    row_storable, row_view, serial_type, sts_bytes, Column, ColumnV,
};
use crate::serialise::{be_val, pow256, to_integer};
use crate::varint::{
    lemma_varint_round_trip, pow128, read_varint, spec_read_varint, srv, varint_bytes,
    varint_len,
};
use crate::DbError;
use vstd::prelude::*;
use vstd::utf8::{decode_utf8, encode_utf8, valid_utf8};

verus! {

/// Serial types 10 and 11 are reserved and never valid.
pub open spec fn serial_valid(st: nat) -> bool {
    st <= 9 || st >= 12
}

/// How many payload bytes a serial type occupies.
pub open spec fn serial_payload_len(st: nat) -> nat {
    if st == 0 || st == 8 || st == 9 {
        0
    } else if st <= 4 {
        st
    } else if st == 5 {
        6
    } else if st == 6 {
        8
    } else if st == 7 {
        8
    } else if st % 2 == 0 {
        ((st - 12) / 2) as nat
    } else {
        ((st - 13) / 2) as nat
    }
}

/// Two's-complement reading of a `w`-byte unsigned value.
pub open spec fn sign_extend(v: nat, w: nat) -> int {
    if 2 * v >= pow256(w) {
        v - pow256(w)
    } else {
        v as int
    }
}

/// The column value encoded at `p` with serial type `st`, and the position
/// after its payload.
pub open spec fn spec_read_column(b: Seq<u8>, p: int, st: nat) -> Option<(ColumnV, int)> {
    if !serial_valid(st) || p < 0 {
        None
    } else {
        let len = serial_payload_len(st);
        if p + len > b.len() {
            None
        } else {
            let pl = b.subrange(p, p + len);
            let np = p + len;
            if st == 0 {
                Some((ColumnV::Null, np))
            } else if st == 8 {
                Some((ColumnV::Integer(0), np))
            } else if st == 9 {
                Some((ColumnV::Integer(1), np))
            } else if st <= 6 {
                Some((ColumnV::Integer(sign_extend(be_val(pl), len)), np))
            } else if st == 7 {
                Some((ColumnV::Real(be_val(pl) as u64), np))
            } else if st % 2 == 0 {
                Some((ColumnV::Blob(pl), np))
            } else if valid_utf8(pl) {
                Some((ColumnV::Text(decode_utf8(pl)), np))
            } else {
                None
            }
        }
    }
}

/// The serial types packed between `p` and `end`.
pub open spec fn spec_read_types(b: Seq<u8>, p: int, end: int) -> Option<Seq<nat>>
    decreases end - p,
{
    if p == end {
        Some(Seq::empty())
    } else if p > end {
        None
    } else {
        match spec_read_varint(b, p) {
            None => None,
            Some((st, np)) => if np > end || np <= p {
                None
            } else {
                match spec_read_types(b, np, end) {
                    None => None,
                    Some(rest) => Some(seq![st] + rest),
                }
            },
        }
    }
}

/// The columns encoded at `p` for the given serial types, and the position
/// after the last payload.
pub open spec fn spec_read_columns(b: Seq<u8>, p: int, types: Seq<nat>) -> Option<(Seq<ColumnV>, int)>
    decreases types.len(),
{
    if types.len() == 0 {
        Some((Seq::empty(), p))
    } else {
        match spec_read_column(b, p, types[0]) {
            None => None,
            Some((c, np)) => match spec_read_columns(b, np, types.drop_first()) {
                None => None,
                Some((rest, e)) => Some((seq![c] + rest, e)),
            },
        }
    }
}

/// The row encoded at `p`, and the position just past its last payload.
/// `None` means the bytes do not hold a well-formed record.
pub open spec fn spec_read_record(b: Seq<u8>, p: int) -> Option<(Seq<ColumnV>, int)> {
    match spec_read_varint(b, p) {
        None => None,
        Some((hs, p1)) => {
            let end = p + hs;
            if end > b.len() || p1 > end {
                None
            } else {
                match spec_read_types(b, p1, end) {
                    None => None,
                    Some(types) => spec_read_columns(b, end, types),
                }
            }
        },
    }
}

/// Relies on `String::from_utf8`: it succeeds exactly on valid UTF-8 and
/// yields the characters those bytes encode, in vstd's UTF-8 model.
#[verifier::external_body]
pub(crate) fn bytes_to_string(bytes: Vec<u8>) -> (r: Option<String>)
    ensures
        (r is Some) == valid_utf8(bytes@),
        match r {
            Some(s) => s@ == decode_utf8(bytes@),
            None => true,
        },
{
    match String::from_utf8(bytes) {
        Ok(s) => Some(s),
        Err(_) => None,
    }
}

/// Copies `len` bytes starting at `pos`, returning them with the position
/// after them.  Fails with `Corruption` when they would run past the end.
pub fn read_bytes(page_content: &Vec<u8>, pos: usize, len: usize) -> (r: Result<
    (Vec<u8>, usize),
    DbError,
>)
    ensures
        match r {
            Ok((bytes, np)) => pos + len <= page_content@.len() && np == pos + len
                && bytes@ == page_content@.subrange(pos as int, pos + len),
            Err(e) => e == DbError::Corruption && pos + len > page_content@.len(),
        },
{
    let n = page_content.len();
    if len > n || pos > n - len {
        return Err(DbError::Corruption);
    }
    let mut out: Vec<u8> = Vec::new();
    let mut i: usize = 0;
    while i < len
        invariant
            i <= len,
            pos + len <= n,
            n == page_content@.len(),
            out@ =~= page_content@.subrange(pos as int, pos + i),
        decreases len - i,
    {
        out.push(page_content[pos + i]);
        proof {
            assert(out@ =~= page_content@.subrange(pos as int, pos + i + 1));
        }
        i = i + 1;
    }
    Ok((out, pos + len))
}

/// Reads a `size`-byte big-endian signed integer column.
pub fn read_integer_column(page_content: &Vec<u8>, pos: usize, size: usize) -> (r: Result<
    (Column, usize),
    DbError,
>)
    requires
        1 <= size <= 8,
    ensures
        match r {
            Ok((c, np)) => pos + size <= page_content@.len() && np == pos + size
                && c@ == ColumnV::Integer(
                    sign_extend(
                        be_val(page_content@.subrange(pos as int, pos + size)),
                        size as nat,
                    ),
                ),
            Err(e) => e == DbError::Corruption && pos + size > page_content@.len(),
        },
{
    let n = page_content.len();
    if size > n || pos > n - size {
        return Err(DbError::Corruption);
    }
    let v: u64 = to_integer(page_content.as_slice(), pos, size);
    let p: u128 = crate::record::pow256_u128(size);
    proof {
        crate::serialise::lemma_be_val_bound(page_content@.subrange(pos as int, pos + size));
    }
    let val: i128 = if (v as u128) * 2 >= p {
        (v as i128) - (p as i128)
    } else {
        v as i128
    };
    Ok((Column::Integer(val), pos + size))
}

/// Reads one column, given its serial type.  Mirrors `spec_read_column`.
pub fn read_column(serial_type: u64, page_content: &Vec<u8>, pos: usize) -> (r: Result<
    (Column, usize),
    DbError,
>)
    ensures
        match r {
            Ok((c, np)) => spec_read_column(page_content@, pos as int, serial_type as nat)
                == Some((c@, np as int)) && pos <= np <= page_content@.len(),
            Err(e) => e == DbError::Corruption
                && spec_read_column(page_content@, pos as int, serial_type as nat) is None,
        },
{
    let n = page_content.len();
    if serial_type == 0 {
        if pos > n {
            return Err(DbError::Corruption);
        }
        proof {
            assert(page_content@.subrange(pos as int, pos as int) =~= Seq::<u8>::empty());
        }
        return Ok((Column::Null, pos));
    }
    if serial_type == 8 {
        if pos > n {
            return Err(DbError::Corruption);
        }
        return Ok((Column::Integer(0), pos));
    }
    if serial_type == 9 {
        if pos > n {
            return Err(DbError::Corruption);
        }
        return Ok((Column::Integer(1), pos));
    }
    if serial_type <= 4 {
        return read_integer_column(page_content, pos, serial_type as usize);
    }
    if serial_type == 5 {
        return read_integer_column(page_content, pos, 6);
    }
    if serial_type == 6 {
        return read_integer_column(page_content, pos, 8);
    }
    if serial_type == 7 {
        match read_bytes(page_content, pos, 8) {
            Ok((bytes, np)) => {
                let bits: u64 = to_integer(bytes.as_slice(), 0, 8);
                proof {
                    let pl = page_content@.subrange(pos as int, pos + 8);
                    assert(bytes@.subrange(0, 8) =~= pl);
                    crate::serialise::lemma_be_val_bound(pl);
                    assert(pow256(8) == 0x1_0000_0000_0000_0000) by {
                        reveal_with_fuel(pow256, 9);
                    }
                }
                return Ok((Column::Real(bits), np));
            },
            Err(e) => {
                return Err(e);
            },
        }
    }
    if serial_type == 10 || serial_type == 11 {
        return Err(DbError::Corruption);
    }
    // blobs and text
    let len64: u64 = if serial_type % 2 == 0 {
        (serial_type - 12) / 2
    } else {
        (serial_type - 13) / 2
    };
    if len64 > n as u64 {
        return Err(DbError::Corruption);
    }
    let len = len64 as usize;
    match read_bytes(page_content, pos, len) {
        Ok((bytes, np)) => {
            if serial_type % 2 == 0 {
                Ok((Column::Blob(bytes), np))
            } else {
                match bytes_to_string(bytes) {
                    Some(text) => Ok((Column::Text(text), np)),
                    None => Err(DbError::Corruption),
                }
            }
        },
        Err(e) => Err(e),
    }
}

/// Reads the record whose cell starts at `pos`: the header-size varint,
/// the serial types, then the payloads.  Mirrors `spec_read_record`.
pub fn fetch_record(page_content: &Vec<u8>, pos: usize) -> (r: Result<(Vec<Column>, usize), DbError>)
    ensures
        match r {
            Ok((row, np)) => spec_read_record(page_content@, pos as int)
                == Some((row_view(row@), np as int)) && pos < np <= page_content@.len(),
            Err(e) => e == DbError::Corruption
                && spec_read_record(page_content@, pos as int) is None,
        },
{
    let n = page_content.len();
    let (header_size, after_hs) = match read_varint(page_content.as_slice(), pos) {
        Ok(v) => v,
        Err(e) => {
            return Err(e);
        },
    };
    if header_size > (n - pos) as u64 {
        proof {
            assert(spec_read_record(page_content@, pos as int) is None);
        }
        return Err(DbError::Corruption);
    }
    let header_end: usize = pos + header_size as usize;
    if after_hs > header_end {
        proof {
            assert(spec_read_record(page_content@, pos as int) is None);
        }
        return Err(DbError::Corruption);
    }
    // the serial types
    let mut types: Vec<u64> = Vec::new();
    let mut cur = after_hs;
    while cur < header_end
        invariant
            pos < after_hs <= cur <= header_end <= n,
            header_end == pos + header_size,
            n == page_content@.len(),
            spec_read_varint(page_content@, pos as int)
                == Some((header_size as nat, after_hs as int)),
            match spec_read_types(page_content@, cur as int, header_end as int) {
                Some(rest) => spec_read_types(page_content@, after_hs as int, header_end as int)
                    == Some(types@.map_values(|t: u64| t as nat) + rest),
                None => spec_read_types(
                    page_content@,
                    after_hs as int,
                    header_end as int,
                ) is None,
            },
        decreases header_end - cur,
    {
        let (st, np) = match read_varint(page_content.as_slice(), cur) {
            Ok(v) => v,
            Err(e) => {
                proof {
                    assert(spec_read_types(page_content@, cur as int, header_end as int) is None);
                    assert(spec_read_record(page_content@, pos as int) is None);
                }
                return Err(e);
            },
        };
        if np > header_end {
            proof {
                assert(spec_read_types(page_content@, cur as int, header_end as int) is None);
                assert(spec_read_record(page_content@, pos as int) is None);
            }
            return Err(DbError::Corruption);
        }
        let ghost old_types = types@.map_values(|t: u64| t as nat);
        types.push(st);
        proof {
            assert(types@.map_values(|t: u64| t as nat)
                =~= old_types + seq![st as nat]);
            if spec_read_types(page_content@, np as int, header_end as int) is Some {
                let rest = spec_read_types(page_content@, np as int, header_end as int)->Some_0;
                assert(spec_read_types(page_content@, cur as int, header_end as int)
                    == Some(seq![st as nat] + rest));
                assert(old_types + (seq![st as nat] + rest)
                    =~= (old_types + seq![st as nat]) + rest);
            }
        }
        cur = np;
    }
    proof {
        assert(spec_read_types(page_content@, cur as int, header_end as int)
            == Some(Seq::<nat>::empty()));
        assert(types@.map_values(|t: u64| t as nat) + Seq::<nat>::empty()
            =~= types@.map_values(|t: u64| t as nat));
    }
    // the payloads
    let ghost all_types = types@.map_values(|t: u64| t as nat);
    let mut record: Vec<Column> = Vec::new();
    let mut body_pos = header_end;
    let mut idx: usize = 0;
    let tcount = types.len();
    proof {
        assert(all_types.skip(0) =~= all_types);
        assert(row_view(record@) =~= Seq::<ColumnV>::empty());
    }
    while idx < tcount
        invariant
            idx <= tcount,
            tcount == types@.len(),
            all_types == types@.map_values(|t: u64| t as nat),
            pos < after_hs <= header_end <= body_pos <= n,
            header_end == pos + header_size,
            n == page_content@.len(),
            spec_read_varint(page_content@, pos as int)
                == Some((header_size as nat, after_hs as int)),
            spec_read_types(page_content@, after_hs as int, header_end as int)
                == Some(all_types),
            match spec_read_columns(page_content@, body_pos as int, all_types.skip(idx as int)) {
                Some((rest, e)) => spec_read_columns(
                    page_content@,
                    header_end as int,
                    all_types,
                ) == Some((row_view(record@) + rest, e)),
                None => spec_read_columns(
                    page_content@,
                    header_end as int,
                    all_types,
                ) is None,
            },
        decreases tcount - idx,
    {
        let st = types[idx];
        proof {
            assert(all_types.skip(idx as int)[0] == st as nat);
        }
        let (col, np) = match read_column(st, page_content, body_pos) {
            Ok(v) => v,
            Err(e) => {
                proof {
                    assert(all_types.skip(idx as int).len() > 0);
                    assert(spec_read_columns(
                        page_content@,
                        body_pos as int,
                        all_types.skip(idx as int),
                    ) is None);
                    assert(spec_read_record(page_content@, pos as int) is None);
                }
                return Err(e);
            },
        };
        let ghost old_row = row_view(record@);
        record.push(col);
        proof {
            assert(row_view(record@) =~= old_row + seq![col@]);
            assert(all_types.skip(idx as int).drop_first() =~= all_types.skip(idx + 1));
            if spec_read_columns(page_content@, np as int, all_types.skip(idx + 1)) is Some {
                let (rest, e) = spec_read_columns(
                    page_content@,
                    np as int,
                    all_types.skip(idx + 1),
                )->Some_0;
                assert(spec_read_columns(page_content@, body_pos as int, all_types.skip(idx as int))
                    == Some((seq![col@] + rest, e)));
                assert(old_row + (seq![col@] + rest) =~= (old_row + seq![col@]) + rest);
            }
        }
        body_pos = np;
        idx = idx + 1;
    }
    proof {
        assert(all_types.skip(tcount as int) =~= Seq::<nat>::empty());
        assert(row_view(record@) + Seq::<ColumnV>::empty() =~= row_view(record@));
    }
    Ok((record, body_pos))
}

/// The serial types of a row, in order.
pub open spec fn serials(row: Seq<ColumnV>) -> Seq<nat> {
    row.map_values(|c: ColumnV| serial_type(c))
}

/// The header-size varint's length is a fixed point: the varint form of
/// `n + hdr_extra(n)` takes exactly `hdr_extra(n)` bytes.
pub proof fn lemma_hdr_extra_fixed(n: nat)
    ensures
        varint_len(n + hdr_extra(n)) == hdr_extra(n),
{
    assert(pow128(1) == 0x80 && pow128(2) == 0x4000 && pow128(3) == 0x20_0000
        && pow128(4) == 0x1000_0000 && pow128(5) == 0x8_0000_0000
        && pow128(6) == 0x400_0000_0000 && pow128(7) == 0x2_0000_0000_0000
        && pow128(8) == 0x100_0000_0000_0000) by {
        reveal_with_fuel(pow128, 9);
    }
}

/// Integers outside the literals round-trip through their chosen width.
proof fn lemma_int_round_trip(i: int)
    requires
        int_in_range(i),
        i != 0,
        i != 1,
    ensures
        1 <= int_serial(i) <= 6,
        serial_payload_len(int_serial(i)) == int_width(i),
        0 <= i % (pow256(int_width(i)) as int) < pow256(int_width(i)),
        sign_extend((i % (pow256(int_width(i)) as int)) as nat, int_width(i)) == i,
{
    let w = int_width(i);
    let p = pow256(w) as int;
    assert(pow256(1) == 0x100 && pow256(2) == 0x1_0000 && pow256(3) == 0x100_0000
        && pow256(4) == 0x1_0000_0000 && pow256(6) == 0x1_0000_0000_0000
        && pow256(8) == 0x1_0000_0000_0000_0000) by {
        reveal_with_fuel(pow256, 9);
    }
    assert(2 * i < p && 2 * i >= -p);
    if i >= 0 {
        assert(i % p == i) by (nonlinear_arith)
            requires
                0 <= i < p,
                p > 0,
        ;
    } else {
        assert(i % p == i + p) by (nonlinear_arith)
            requires
                (-p) <= i < 0,
                p > 0,
        ;
    }
}

/// For storable, bounded columns the serial type is valid, fits in 64 bits,
/// and its payload length is the payload's length.
pub proof fn lemma_serial_facts(c: ColumnV)
    requires
        col_storable(c),
        col_encodable(c),
    ensures
        serial_valid(serial_type(c)),
        serial_type(c) < 0x4_0000_0000,
        serial_payload_len(serial_type(c)) == col_payload(c).len(),
{
    match c {
        ColumnV::Null => {},
        ColumnV::Integer(i) => {
            if i == 0 || i == 1 {
            } else {
                lemma_int_round_trip(i);
                crate::serialise::lemma_be_bytes_len(
                    (i % (pow256(int_width(i)) as int)) as nat,
                    int_width(i),
                );
            }
        },
        ColumnV::Real(_) => {
            crate::serialise::lemma_be_bytes_len(c->Real_0 as nat, 8);
        },
        ColumnV::Blob(_) => {},
        ColumnV::Text(_) => {},
    }
}

/// The serial-type bytes of a row, read from the front.
proof fn lemma_sts_front(row: Seq<ColumnV>)
    requires
        row.len() > 0,
    ensures
        sts_bytes(row) == varint_bytes(serial_type(row[0]) as u64) + sts_bytes(row.drop_first()),
    decreases row.len(),
{
    if row.len() == 1 {
        assert(row.drop_last() =~= Seq::<ColumnV>::empty());
        assert(row.drop_first() =~= Seq::<ColumnV>::empty());
        assert(sts_bytes(row)
            =~= varint_bytes(serial_type(row[0]) as u64) + sts_bytes(row.drop_first()));
    } else {
        let dl = row.drop_last();
        lemma_sts_front(dl);
        assert(dl[0] == row[0]);
        assert(dl.drop_first() =~= row.drop_first().drop_last());
        assert(row.drop_first().len() > 0);
        assert(row.drop_first().last() == row.last());
        assert(sts_bytes(row)
            =~= varint_bytes(serial_type(row[0]) as u64) + sts_bytes(row.drop_first()));
    }
}

/// The payload bytes of a row, read from the front.
proof fn lemma_bodies_front(row: Seq<ColumnV>)
    requires
        row.len() > 0,
    ensures
        bodies_bytes(row) == col_payload(row[0]) + bodies_bytes(row.drop_first()),
    decreases row.len(),
{
    if row.len() == 1 {
        assert(row.drop_last() =~= Seq::<ColumnV>::empty());
        assert(row.drop_first() =~= Seq::<ColumnV>::empty());
        assert(bodies_bytes(row)
            =~= col_payload(row[0]) + bodies_bytes(row.drop_first()));
    } else {
        let dl = row.drop_last();
        lemma_bodies_front(dl);
        assert(dl[0] == row[0]);
        assert(dl.drop_first() =~= row.drop_first().drop_last());
        assert(row.drop_first().len() > 0);
        assert(row.drop_first().last() == row.last());
        assert(bodies_bytes(row)
            =~= col_payload(row[0]) + bodies_bytes(row.drop_first()));
    }
}

/// Reading the serial types back from their packed bytes.
proof fn lemma_read_types_of_sts(b: Seq<u8>, q: int, row: Seq<ColumnV>)
    requires
        row_encodable(row),
        0 <= q,
        q + sts_bytes(row).len() <= b.len(),
        b.subrange(q, q + sts_bytes(row).len()) == sts_bytes(row),
    ensures
        spec_read_types(b, q, q + sts_bytes(row).len()) == Some(serials(row)),
    decreases row.len(),
{
    let stsb = sts_bytes(row);
    let end = q + stsb.len();
    if row.len() == 0 {
        assert(serials(row) =~= Seq::<nat>::empty());
    } else {
        lemma_sts_front(row);
        assert(col_encodable(row[0]));
        lemma_serial_facts_weak(row[0]);
        let st0 = serial_type(row[0]);
        let v0 = varint_bytes(st0 as u64);
        let rest = sts_bytes(row.drop_first());
        assert(stsb.len() == v0.len() + rest.len());
        assert forall|j: int| 0 <= j < stsb.len() implies b[q + j] == stsb[j] by {
            assert(b.subrange(q, end)[j] == b[q + j]);
        }
        assert(b.subrange(q, q + v0.len()) =~= v0);
        assert((st0 as u64) as nat == st0);
        lemma_varint_round_trip(b, q, st0 as u64);
        let np = q + v0.len();
        let df = row.drop_first();
        assert(row_encodable(df)) by {
            assert(forall|j: int|
                0 <= j < df.len() ==> #[trigger] df[j] == row[j + 1]);
        }
        assert(b.subrange(np, np + rest.len()) =~= rest) by {
            assert forall|j: int| 0 <= j < rest.len() implies
                b.subrange(np, np + rest.len())[j] == rest[j] by {
                assert(b[np + j] == stsb[v0.len() + j]);
            }
        }
        lemma_read_types_of_sts(b, np, df);
        assert(v0.len() >= 1);
        assert(spec_read_types(b, q, end) == Some(seq![st0] + serials(df)));
        assert(seq![st0] + serials(df) =~= serials(row));
    }
}

/// The encodable bound keeps every serial type below 64 bits.
proof fn lemma_serial_facts_weak(c: ColumnV)
    requires
        col_encodable(c),
    ensures
        serial_type(c) < 0x4_0000_0000,
{
    match c {
        ColumnV::Integer(i) => {
            if i == 0 || i == 1 {
            } else {
            }
        },
        _ => {},
    }
}

/// Reading one column back from its payload bytes.
proof fn lemma_read_column_of_payload(b: Seq<u8>, q: int, c: ColumnV)
    requires
        col_storable(c),
        col_encodable(c),
        0 <= q,
        q + col_payload(c).len() <= b.len(),
        b.subrange(q, q + col_payload(c).len()) == col_payload(c),
    ensures
        spec_read_column(b, q, serial_type(c)) == Some((c, q + col_payload(c).len())),
{
    lemma_serial_facts(c);
    let st = serial_type(c);
    let pl = col_payload(c);
    assert(b.subrange(q, q + serial_payload_len(st)) == pl);
    match c {
        ColumnV::Null => {},
        ColumnV::Integer(i) => {
            if i == 0 || i == 1 {
            } else {
                lemma_int_round_trip(i);
                let w = int_width(i);
                let m = (i % (pow256(w) as int)) as nat;
                crate::serialise::lemma_be_val_of_bytes(m, w);
            }
        },
        ColumnV::Real(bits) => {
            assert(pow256(8) == 0x1_0000_0000_0000_0000) by {
                reveal_with_fuel(pow256, 9);
            }
            crate::serialise::lemma_be_val_of_bytes(bits as nat, 8);
        },
        ColumnV::Blob(bb) => {
            assert(st % 2 == 0);
            assert(st >= 12);
        },
        ColumnV::Text(t) => {
            let eb = encode_utf8(t);
            assert(st % 2 == 1);
            assert(st >= 13);
            vstd::utf8::encode_utf8_valid_utf8(t);
            vstd::utf8::encode_utf8_decode_utf8(t);
        },
    }
}

/// Reading all columns back from the packed payload bytes.
proof fn lemma_read_columns_of_bodies(b: Seq<u8>, q: int, row: Seq<ColumnV>)
    requires
        row_storable(row),
        row_encodable(row),
        0 <= q,
        q + bodies_bytes(row).len() <= b.len(),
        b.subrange(q, q + bodies_bytes(row).len()) == bodies_bytes(row),
    ensures
        spec_read_columns(b, q, serials(row)) == Some((row, q + bodies_bytes(row).len())),
    decreases row.len(),
{
    let bb = bodies_bytes(row);
    if row.len() == 0 {
        assert(serials(row) =~= Seq::<nat>::empty());
    } else {
        lemma_bodies_front(row);
        assert(col_storable(row[0]) && col_encodable(row[0]));
        let pl0 = col_payload(row[0]);
        let rest = bodies_bytes(row.drop_first());
        assert(bb.len() == pl0.len() + rest.len());
        assert forall|j: int| 0 <= j < bb.len() implies b[q + j] == bb[j] by {
            assert(b.subrange(q, q + bb.len())[j] == b[q + j]);
        }
        assert(b.subrange(q, q + pl0.len()) =~= pl0);
        lemma_read_column_of_payload(b, q, row[0]);
        let np = q + pl0.len();
        let df = row.drop_first();
        assert(row_storable(df) && row_encodable(df)) by {
            assert(forall|j: int|
                0 <= j < df.len() ==> #[trigger] df[j] == row[j + 1]);
        }
        assert(b.subrange(np, np + rest.len()) =~= rest) by {
            assert forall|j: int| 0 <= j < rest.len() implies
                b.subrange(np, np + rest.len())[j] == rest[j] by {
                assert(b[np + j] == bb[pl0.len() + j]);
            }
        }
        lemma_read_columns_of_bodies(b, np, df);
        assert(serials(row)[0] == serial_type(row[0]));
        assert(serials(row).drop_first() =~= serials(df));
        assert(seq![row[0]] + df =~= row);
    }
}

/// The row law: a record embedded anywhere in a longer byte string decodes
/// to the row it was built from, ending exactly at the record's end.
pub proof fn lemma_record_round_trip(b: Seq<u8>, p: int, row: Seq<ColumnV>)
    requires
        row_storable(row),
        row_encodable(row),
        0 <= p,
        p + record_len(row) <= b.len(),
        b.subrange(p, p + record_len(row)) == record_bytes(row),
    ensures
        spec_read_record(b, p) == Some((row, p + record_len(row))),
{
    let rb = record_bytes(row);
    let n = sts_bytes(row).len();
    let s = hdr_extra(n);
    let hsz = record_header_size(row);
    let hv = varint_bytes(hsz as u64);
    let stsb = sts_bytes(row);
    let bodies = bodies_bytes(row);
    crate::record::lemma_sts_len_bound(row);
    assert(n <= 9 * 0xFFFF_FFFF);
    assert(hsz == n + s);
    assert((hsz as u64) as nat == hsz);
    lemma_hdr_extra_fixed(n);
    assert(varint_len(hsz) == s);
    assert(hv.len() == s) by {
        assert(varint_len((hsz as u64) as nat) == s);
    }
    assert(rb.len() == hv.len() + stsb.len() + bodies.len());
    assert forall|j: int| 0 <= j < rb.len() implies b[p + j] == rb[j] by {
        assert(b.subrange(p, p + rb.len())[j] == b[p + j]);
    }
    assert(b.subrange(p, p + hv.len()) =~= hv);
    lemma_varint_round_trip(b, p, hsz as u64);
    let p1 = p + s;
    let end = p + hsz;
    assert(end == p1 + n);
    assert(b.subrange(p1, p1 + n) =~= stsb) by {
        assert forall|j: int| 0 <= j < n implies b.subrange(p1, p1 + n)[j] == stsb[j] by {
            assert(b[p1 + j] == rb[hv.len() + j]);
        }
    }
    lemma_read_types_of_sts(b, p1, row);
    assert(b.subrange(end, end + bodies.len()) =~= bodies) by {
        assert forall|j: int| 0 <= j < bodies.len() implies
            b.subrange(end, end + bodies.len())[j] == bodies[j] by {
            assert(b[end + j] == rb[hv.len() + n + j]);
        }
    }
    lemma_read_columns_of_bodies(b, end, row);
    assert(p + record_len(row) == end + bodies.len());
}


/// The record law, plainly: a row's record decodes to the row.
pub proof fn lemma_record_identity(row: Seq<ColumnV>)
    requires
        row_storable(row),
        row_encodable(row),
    ensures
        spec_read_record(record_bytes(row), 0) == Some((row, record_len(row) as int)),
{
    assert(record_bytes(row).subrange(0, record_len(row) as int) =~= record_bytes(row));
    lemma_record_round_trip(record_bytes(row), 0, row);
}

// === Locality: a decoded record depends only on its own bytes. ===

/// A varint read sees only the bytes it consumes.
proof fn lemma_srv_frame(b1: Seq<u8>, b2: Seq<u8>, p: int, acc: nat, count: nat, v: nat, e: int)
    requires
        srv(b1, p, acc, count) == Some((v, e)),
        e <= b2.len(),
        forall|j: int| p <= j < e ==> #[trigger] b2[j] == b1[j],
    ensures
        srv(b2, p, acc, count) == Some((v, e)),
    decreases 9 - count,
{
    assert(0 <= p < b1.len());
    assert(e > p) by {
        lemma_srv_advances(b1, p, acc, count);
    }
    assert(b2[p] == b1[p]);
    let byte = b1[p];
    if count >= 8 {
    } else {
        let acc2 = (acc * 128 + (byte % 128)) as nat;
        if byte < 128 {
        } else {
            lemma_srv_frame(b1, b2, p + 1, acc2, (count + 1) as nat, v, e);
        }
    }
}

/// A successful varint read moves the cursor forward, at most 9 bytes.
proof fn lemma_srv_advances(b: Seq<u8>, p: int, acc: nat, count: nat)
    requires
        srv(b, p, acc, count) is Some,
    ensures
        p < srv(b, p, acc, count)->Some_0.1 <= b.len(),
    decreases 9 - count,
{
    let byte = b[p];
    if count >= 8 {
    } else {
        let acc2 = (acc * 128 + (byte % 128)) as nat;
        if byte < 128 {
        } else {
            lemma_srv_advances(b, p + 1, acc2, (count + 1) as nat);
        }
    }
}

/// A column read sees only its payload bytes.
proof fn lemma_read_column_frame(b1: Seq<u8>, b2: Seq<u8>, q: int, st: nat, c: ColumnV, e: int)
    requires
        spec_read_column(b1, q, st) == Some((c, e)),
        e <= b2.len(),
        forall|j: int| q <= j < e ==> #[trigger] b2[j] == b1[j],
    ensures
        spec_read_column(b2, q, st) == Some((c, e)),
{
    let len = serial_payload_len(st);
    assert(e == q + len);
    assert(b2.subrange(q, q + len) =~= b1.subrange(q, q + len)) by {
        assert forall|j: int| 0 <= j < len implies
            #[trigger] b2.subrange(q, q + len)[j] == b1.subrange(q, q + len)[j] by {
            assert(b2[q + j] == b1[q + j]);
        }
    }
}

/// The serial-type region is read without looking outside `[p, end)`.
proof fn lemma_read_types_frame(b1: Seq<u8>, b2: Seq<u8>, p: int, end: int, types: Seq<nat>)
    requires
        spec_read_types(b1, p, end) == Some(types),
        end <= b2.len(),
        forall|j: int| p <= j < end ==> #[trigger] b2[j] == b1[j],
    ensures
        spec_read_types(b2, p, end) == Some(types),
    decreases end - p,
{
    if p == end {
    } else {
        let (st, np) = spec_read_varint(b1, p)->Some_0;
        lemma_srv_frame(b1, b2, p, 0, 0, st, np);
        lemma_read_types_frame(b1, b2, np, end, spec_read_types(b1, np, end)->Some_0);
    }
}

/// A successful column sequence never moves the cursor backwards.
proof fn lemma_read_columns_ge(b: Seq<u8>, q: int, types: Seq<nat>)
    requires
        spec_read_columns(b, q, types) is Some,
    ensures
        spec_read_columns(b, q, types)->Some_0.1 >= q,
        spec_read_columns(b, q, types)->Some_0.1 <= b.len() || types.len() == 0,
    decreases types.len(),
{
    if types.len() == 0 {
    } else {
        let (c, np) = spec_read_column(b, q, types[0])->Some_0;
        lemma_read_columns_ge(b, np, types.drop_first());
        if types.drop_first().len() == 0 {
            assert(np <= b.len());
        }
    }
}

/// The payload region is read without looking outside `[q, e)`.
proof fn lemma_read_columns_frame(
    b1: Seq<u8>,
    b2: Seq<u8>,
    q: int,
    types: Seq<nat>,
    cols: Seq<ColumnV>,
    e: int,
)
    requires
        spec_read_columns(b1, q, types) == Some((cols, e)),
        e <= b2.len(),
        forall|j: int| q <= j < e ==> #[trigger] b2[j] == b1[j],
    ensures
        spec_read_columns(b2, q, types) == Some((cols, e)),
    decreases types.len(),
{
    if types.len() == 0 {
    } else {
        let (c, np) = spec_read_column(b1, q, types[0])->Some_0;
        let (rest, e2) = spec_read_columns(b1, np, types.drop_first())->Some_0;
        lemma_read_columns_ge(b1, np, types.drop_first());
        lemma_read_column_frame(b1, b2, q, types[0], c, np);
        lemma_read_columns_frame(b1, b2, np, types.drop_first(), rest, e);
    }
}

/// The record law of locality: a record's decoding depends only on the
/// bytes from its start to its end.  Whatever changes elsewhere in the
/// buffer, the record still decodes to the same row.
pub proof fn lemma_read_record_frame(b1: Seq<u8>, b2: Seq<u8>, p: int, row: Seq<ColumnV>, e: int)
    requires
        spec_read_record(b1, p) == Some((row, e)),
        e <= b2.len(),
        forall|j: int| p <= j < e ==> #[trigger] b2[j] == b1[j],
    ensures
        spec_read_record(b2, p) == Some((row, e)),
{
    let (hs, p1) = spec_read_varint(b1, p)->Some_0;
    let end = p + hs;
    let types = spec_read_types(b1, p1, end)->Some_0;
    lemma_read_columns_ge(b1, end, types);
    assert(e >= end);
    lemma_srv_advances(b1, p, 0, 0);
    assert(p < p1);
    lemma_srv_frame(b1, b2, p, 0, 0, hs, p1);
    lemma_read_types_frame(b1, b2, p1, end, types);
    lemma_read_columns_frame(b1, b2, end, types, row, e);
}

/// A decoded record ends after it begins and within the buffer.
pub proof fn lemma_read_record_bounds(b: Seq<u8>, p: int)
    requires
        spec_read_record(b, p) is Some,
    ensures
        p < spec_read_record(b, p)->Some_0.1,
        spec_read_record(b, p)->Some_0.1 <= b.len(),
{
    let (hs, p1) = spec_read_varint(b, p)->Some_0;
    let end = p + hs;
    let types = spec_read_types(b, p1, end)->Some_0;
    lemma_srv_advances(b, p, 0, 0);
    lemma_read_columns_ge(b, end, types);
    if types.len() == 0 {
        assert(spec_read_record(b, p)->Some_0.1 == end);
    }
}

} // verus!
