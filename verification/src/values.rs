//! From caller-supplied strings to typed column values.
//!
//! A row arrives as `(column name, value string)` pairs.  Each declared
//! column looks its value up by name: a missing value becomes `Null`, a
//! present one is parsed into the declared type.  Integers are decimal
//! with an optional sign; text is taken verbatim; a blob takes the
//! string's UTF-8 bytes.  A real column cannot be built from a decimal
//! string here — that conversion is floating-point work, left to the
//! embedding program, which can store such values through the typed
//! record interface instead — so a present value for one is `BadValue`.

use crate::catalog::ColumnType;
use crate::record::{row_view, Column, ColumnV};
use crate::DbError;
use vstd::prelude::*;
use vstd::utf8::encode_utf8;

verus! {

/// The value of a digit string prepended to an accumulated value;
/// `None` when a non-digit appears.
pub open spec fn spec_digits_val(b: Seq<u8>, acc: int) -> Option<int>
    decreases b.len(),
{
    if b.len() == 0 {
        Some(acc)
    } else if 48 <= b[0] <= 57 {
        spec_digits_val(b.drop_first(), acc * 10 + (b[0] - 48))
    } else {
        None
    }
}

/// The integer a decimal byte string denotes: an optional sign, then one
/// or more digits, nothing else.
pub open spec fn spec_parse_int(b: Seq<u8>) -> Option<int> {
    if b.len() == 0 {
        None
    } else if b[0] == 43 || b[0] == 45 {
        if b.len() == 1 {
            None
        } else {
            match spec_digits_val(b.drop_first(), 0) {
                None => None,
                Some(v) => Some(if b[0] == 45 { -v } else { v }),
            }
        }
    } else {
        spec_digits_val(b, 0)
    }
}

/// Whether a mathematical integer fits a 128-bit signed value.
pub open spec fn in_i128(v: int) -> bool {
    -0x8000_0000_0000_0000_0000_0000_0000_0000 <= v
        < 0x8000_0000_0000_0000_0000_0000_0000_0000
}

/// Digits only add magnitude: the final value is at least the accumulator.
proof fn lemma_digits_val_ge(b: Seq<u8>, acc: int)
    requires
        acc >= 0,
        spec_digits_val(b, acc) is Some,
    ensures
        spec_digits_val(b, acc)->Some_0 >= acc,
        spec_digits_val(b, acc)->Some_0 >= 0,
    decreases b.len(),
{
    if b.len() > 0 {
        lemma_digits_val_ge(b.drop_first(), acc * 10 + (b[0] - 48));
    }
}

/// Parses a decimal string into a 128-bit signed integer.  `None` exactly
/// when the string is not a signed decimal numeral or its value does not
/// fit 128 bits.
pub fn parse_integer_value(s: &String) -> (r: Option<i128>)
    ensures
        ({
            let p = spec_parse_int(encode_utf8(s@));
            match r {
                Some(v) => p == Some(v as int),
                None => p is None || !in_i128(p->Some_0),
            }
        }),
{
    let bytes = s.as_str().as_bytes_vec();
    let ghost b = encode_utf8(s@);
    let blen = bytes.len();
    if blen == 0 {
        return None;
    }
    let first = bytes[0];
    let (neg, start): (bool, usize) = if first == 43 {
        (false, 1)
    } else if first == 45 {
        (true, 1)
    } else {
        (false, 0)
    };
    if start == 1 && blen == 1 {
        return None;
    }
    let mut acc: u128 = 0;
    let mut i = start;
    while i < blen
        invariant
            start <= i <= blen,
            b == encode_utf8(s@),
            blen == b.len(),
            bytes@ == b,
            start <= 1,
            start == 1 ==> (b[0] == 43 || b[0] == 45) && blen >= 2 && (neg == (b[0] == 45)),
            start == 0 ==> b[0] != 43 && b[0] != 45 && !neg,
            spec_digits_val(b.skip(start as int), 0) == spec_digits_val(
                b.skip(i as int),
                acc as int,
            ),
        decreases blen - i,
    {
        let d = bytes[i];
        proof {
            assert(b.skip(i as int)[0] == b[i as int]);
        }
        if d < 48 || d > 57 {
            proof {
                assert(spec_digits_val(b.skip(i as int), acc as int) is None);
                if start == 1 {
                    assert(b.drop_first() =~= b.skip(1));
                } else {
                    assert(b.skip(0) =~= b);
                }
            }
            return None;
        }
        let dd = (d - 48) as u128;
        if acc > (0xFFFF_FFFF_FFFF_FFFF_FFFF_FFFF_FFFF_FFFFu128 - dd) / 10 {
            proof {
                let m = 0xFFFF_FFFF_FFFF_FFFF_FFFF_FFFF_FFFF_FFFF as int;
                assert(acc * 10 + dd > m) by (nonlinear_arith)
                    requires
                        acc > (m - dd) / 10,
                        0 <= dd <= 9,
                        m == 0xFFFF_FFFF_FFFF_FFFF_FFFF_FFFF_FFFF_FFFF,
                ;
                assert(b.skip(i as int).drop_first() =~= b.skip(i + 1));
                if spec_digits_val(b.skip(start as int), 0) is Some {
                    lemma_digits_val_ge(b.skip(i + 1), acc as int * 10 + dd);
                    assert(!in_i128(spec_digits_val(b.skip(start as int), 0)->Some_0));
                }
                if start == 1 {
                    assert(b.drop_first() =~= b.skip(1));
                } else {
                    assert(b.skip(0) =~= b);
                }
                if spec_parse_int(b) is Some {
                    assert(spec_digits_val(b.skip(start as int), 0) is Some);
                    let mag = spec_digits_val(b.skip(start as int), 0)->Some_0;
                    assert(mag > m);
                    assert(spec_parse_int(b)->Some_0 == mag
                        || spec_parse_int(b)->Some_0 == -mag);
                    assert(!in_i128(spec_parse_int(b)->Some_0));
                }
            }
            return None;
        }
        proof {
            assert(acc * 10 + dd <= 0xFFFF_FFFF_FFFF_FFFF_FFFF_FFFF_FFFF_FFFF)
                by (nonlinear_arith)
                requires
                    acc <= (0xFFFF_FFFF_FFFF_FFFF_FFFF_FFFF_FFFF_FFFF - dd) / 10,
                    0 <= dd <= 9,
            ;
            assert(b.skip(i as int).drop_first() =~= b.skip(i + 1));
        }
        acc = acc * 10 + dd;
        i = i + 1;
    }
    proof {
        assert(b.skip(blen as int) =~= Seq::<u8>::empty());
        assert(spec_digits_val(b.skip(start as int), 0) == Some(acc as int));
        if start == 1 {
            assert(b.drop_first() =~= b.skip(1));
        } else {
            assert(b.skip(0) =~= b);
        }
    }
    if neg {
        if acc > 0x8000_0000_0000_0000_0000_0000_0000_0000u128 {
            return None;
        }
        if acc == 0x8000_0000_0000_0000_0000_0000_0000_0000u128 {
            return Some(-0x7FFF_FFFF_FFFF_FFFF_FFFF_FFFF_FFFF_FFFFi128 - 1);
        }
        Some(-(acc as i128))
    } else {
        if acc > 0x7FFF_FFFF_FFFF_FFFF_FFFF_FFFF_FFFF_FFFFu128 {
            return None;
        }
        Some(acc as i128)
    }
}

/// The pairs of a row, as character strings.
pub open spec fn pairs_view(s: Seq<(String, String)>) -> Seq<(Seq<char>, Seq<char>)> {
    Seq::new(s.len(), |i: int| (s[i].0@, s[i].1@))
}

/// The first value stored under a key.
pub open spec fn spec_lookup(h: Seq<(Seq<char>, Seq<char>)>, k: Seq<char>) -> Option<Seq<char>>
    decreases h.len(),
{
    if h.len() == 0 {
        None
    } else if h[0].0 == k {
        Some(h[0].1)
    } else {
        spec_lookup(h.drop_first(), k)
    }
}

/// Finds the first value stored under `key`, if any.
pub fn lookup_value(h: &Vec<(String, String)>, key: &String) -> (r: Option<String>)
    ensures
        match r {
            Some(v) => spec_lookup(pairs_view(h@), key@) == Some(v@),
            None => spec_lookup(pairs_view(h@), key@) is None,
        },
{
    let n = h.len();
    let ghost pv = pairs_view(h@);
    let mut i: usize = 0;
    proof {
        assert(pv.skip(0) =~= pv);
    }
    while i < n
        invariant
            i <= n,
            n == h@.len(),
            pv == pairs_view(h@),
            spec_lookup(pv, key@) == spec_lookup(pv.skip(i as int), key@),
        decreases n - i,
    {
        proof {
            assert(pv.skip(i as int)[0] == pv[i as int]);
            assert(pv.skip(i as int).drop_first() =~= pv.skip(i + 1));
        }
        let ki = &h[i].0;
        if *ki == *key {
            return Some(h[i].1.clone());
        }
        i = i + 1;
    }
    proof {
        assert(pv.skip(n as int) =~= Seq::<(Seq<char>, Seq<char>)>::empty());
    }
    None
}

/// The typed value a string denotes for a declared column type, if any.
pub open spec fn spec_parse_column(t: ColumnType, v: Seq<char>) -> Option<ColumnV> {
    match t {
        ColumnType::Integer => match spec_parse_int(encode_utf8(v)) {
            Some(n) => if in_i128(n) {
                Some(ColumnV::Integer(n))
            } else {
                None
            },
            None => None,
        },
        ColumnType::Real => None,
        ColumnType::Blob => Some(ColumnV::Blob(encode_utf8(v))),
        ColumnType::Text => Some(ColumnV::Text(v)),
    }
}

/// One declared column's value: `Null` when absent, else parsed.
pub open spec fn spec_column_of(
    col: (Seq<char>, ColumnType),
    pairs: Seq<(Seq<char>, Seq<char>)>,
) -> Option<ColumnV> {
    match spec_lookup(pairs, col.0) {
        None => Some(ColumnV::Null),
        Some(v) => spec_parse_column(col.1, v),
    }
}

/// The whole row a schema and a pair list denote, if every present value
/// parses.
pub open spec fn spec_row_of(
    schema: Seq<(Seq<char>, ColumnType)>,
    pairs: Seq<(Seq<char>, Seq<char>)>,
) -> Option<Seq<ColumnV>>
    decreases schema.len(),
{
    if schema.len() == 0 {
        Some(Seq::empty())
    } else {
        match spec_row_of(schema.drop_last(), pairs) {
            None => None,
            Some(row) => match spec_column_of(schema.last(), pairs) {
                None => None,
                Some(c) => Some(row.push(c)),
            },
        }
    }
}

/// A parsed row has one value per declared column.
pub proof fn lemma_row_of_len(
    schema: Seq<(Seq<char>, ColumnType)>,
    pairs: Seq<(Seq<char>, Seq<char>)>,
)
    requires
        spec_row_of(schema, pairs) is Some,
    ensures
        spec_row_of(schema, pairs)->Some_0.len() == schema.len(),
    decreases schema.len(),
{
    if schema.len() > 0 {
        lemma_row_of_len(schema.drop_last(), pairs);
    }
}

/// A failed column fails the row, however long the schema grows.
proof fn lemma_row_of_none(
    schema: Seq<(Seq<char>, ColumnType)>,
    pairs: Seq<(Seq<char>, Seq<char>)>,
    m: int,
)
    requires
        0 <= m <= schema.len(),
        spec_row_of(schema.take(m), pairs) is None,
    ensures
        spec_row_of(schema, pairs) is None,
    decreases schema.len() - m,
{
    if m < schema.len() {
        assert(schema.take(m + 1).drop_last() =~= schema.take(m));
        lemma_row_of_none(schema, pairs, m + 1);
    } else {
        assert(schema.take(m) =~= schema);
    }
}

/// Builds a typed row from the declared columns and the supplied pairs.
/// Fails with `BadValue` exactly when some present value does not parse
/// into its declared type.
pub fn create_row(columns: &Vec<(String, ColumnType)>, row_hash: &Vec<(String, String)>) -> (r:
    Result<Vec<Column>, DbError>)
    ensures
        ({
            let schema = crate::catalog::schema_view(columns@);
            let pairs = pairs_view(row_hash@);
            match r {
                Ok(row) => spec_row_of(schema, pairs) == Some(row_view(row@)),
                Err(e) => e == DbError::BadValue && spec_row_of(schema, pairs) is None,
            }
        }),
{
    let ghost schema = crate::catalog::schema_view(columns@);
    let ghost pairs = pairs_view(row_hash@);
    let n = columns.len();
    let mut row: Vec<Column> = Vec::new();
    let mut i: usize = 0;
    proof {
        assert(schema.take(0) =~= Seq::<(Seq<char>, ColumnType)>::empty());
        assert(row_view(row@) =~= Seq::<ColumnV>::empty());
    }
    while i < n
        invariant
            i <= n,
            n == columns@.len(),
            schema == crate::catalog::schema_view(columns@),
            pairs == pairs_view(row_hash@),
            spec_row_of(schema.take(i as int), pairs) == Some(row_view(row@)),
        decreases n - i,
    {
        proof {
            assert(schema[i as int] == (columns@[i as int].0@, columns@[i as int].1));
            assert(schema.take(i + 1).drop_last() =~= schema.take(i as int));
            assert(schema.take(i + 1).last() == schema[i as int]);
        }
        let value = lookup_value(row_hash, &columns[i].0);
        let col: Column = match value {
            None => Column::Null,
            Some(v) => {
                match &columns[i].1 {
                    ColumnType::Integer => {
                        match parse_integer_value(&v) {
                            Some(x) => Column::Integer(x),
                            None => {
                                proof {
                                    lemma_row_of_none(schema, pairs, i + 1);
                                }
                                return Err(DbError::BadValue);
                            },
                        }
                    },
                    ColumnType::Real => {
                        proof {
                            lemma_row_of_none(schema, pairs, i + 1);
                        }
                        return Err(DbError::BadValue);
                    },
                    ColumnType::Text => Column::Text(v),
                    ColumnType::Blob => Column::Blob(v.as_str().as_bytes_vec()),
                }
            },
        };
        let ghost before = row_view(row@);
        row.push(col);
        proof {
            assert(row_view(row@) =~= before.push(col@));
        }
        i = i + 1;
    }
    proof {
        assert(schema.take(n as int) =~= schema);
    }
    Ok(row)
}

} // verus!
