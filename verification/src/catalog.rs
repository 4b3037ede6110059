//! The schema catalog's column-list blob.
//!
//! A table's column list `[(name, type)]` is stored in the catalog row as a
//! deterministic blob: a big-endian u32 element count, then per element a
//! big-endian u32 name length, the name's UTF-8 bytes, and one type tag
//! byte.  The encoding round-trips exactly; a decoder consumes the whole
//! blob or reports `Corruption`.

use crate::record_read::bytes_to_string;
use crate::serialise::{be_bytes, be_val, pow256, to_integer, write_be};
use crate::DbError;
use vstd::prelude::*;
use vstd::utf8::{decode_utf8, encode_utf8, valid_utf8};

verus! {

/// The declared type of a column, with its stable on-disk tag.
#[derive(Debug, Clone, Copy, PartialEq, Eq, Structural)]
pub enum ColumnType {
    Integer,
    Real,
    Blob,
    Text,
}

/// The on-disk tag of a column type: 1 integer, 2 real, 3 blob, 4 text.
pub open spec fn spec_type_tag(t: ColumnType) -> u8 {
    match t {
        ColumnType::Integer => 1,
        ColumnType::Real => 2,
        ColumnType::Blob => 3,
        ColumnType::Text => 4,
    }
}

/// The column type for a tag byte, if the tag is known.
pub open spec fn spec_type_from_tag(tag: u8) -> Option<ColumnType> {
    if tag == 1 {
        Some(ColumnType::Integer)
    } else if tag == 2 {
        Some(ColumnType::Real)
    } else if tag == 3 {
        Some(ColumnType::Blob)
    } else if tag == 4 {
        Some(ColumnType::Text)
    } else {
        None
    }
}

pub fn type_tag(t: &ColumnType) -> (r: u8)
    ensures
        r == spec_type_tag(*t),
{
    match t {
        ColumnType::Integer => 1,
        ColumnType::Real => 2,
        ColumnType::Blob => 3,
        ColumnType::Text => 4,
    }
}

pub fn type_from_tag(tag: u8) -> (r: Option<ColumnType>)
    ensures
        r == spec_type_from_tag(tag),
{
    if tag == 1 {
        Some(ColumnType::Integer)
    } else if tag == 2 {
        Some(ColumnType::Real)
    } else if tag == 3 {
        Some(ColumnType::Blob)
    } else if tag == 4 {
        Some(ColumnType::Text)
    } else {
        None
    }
}

/// The mathematical value of a column list: names as character strings.
pub open spec fn schema_view(s: Seq<(String, ColumnType)>) -> Seq<(Seq<char>, ColumnType)> {
    Seq::new(s.len(), |i: int| (s[i].0@, s[i].1))
}

/// A machine bound: names and the element count fit the u32 fields.
pub open spec fn schema_encodable(s: Seq<(Seq<char>, ColumnType)>) -> bool {
    s.len() <= 0xFFFF_FFFF && forall|i: int|
        0 <= i < s.len() ==> (#[trigger] encode_utf8(s[i].0)).len() <= 0xFFFF_FFFF
}

/// One element's bytes: name length, name, tag.
pub open spec fn catalog_item_bytes(e: (Seq<char>, ColumnType)) -> Seq<u8> {
    be_bytes(encode_utf8(e.0).len(), 4) + encode_utf8(e.0) + seq![spec_type_tag(e.1)]
}

/// The elements' bytes, in order.
pub open spec fn catalog_items_bytes(s: Seq<(Seq<char>, ColumnType)>) -> Seq<u8>
    decreases s.len(),
{
    if s.len() == 0 {
        Seq::empty()
    } else {
        catalog_items_bytes(s.drop_last()) + catalog_item_bytes(s.last())
    }
}

/// The whole blob: element count, then the elements.
pub open spec fn catalog_bytes(s: Seq<(Seq<char>, ColumnType)>) -> Seq<u8> {
    be_bytes(s.len(), 4) + catalog_items_bytes(s)
}

/// The elements read from `p` on, `k` of them, with the end position.
pub open spec fn spec_read_catalog_items(b: Seq<u8>, p: int, k: nat) -> Option<
    (Seq<(Seq<char>, ColumnType)>, int),
>
    decreases k,
{
    if k == 0 {
        Some((Seq::empty(), p))
    } else if p < 0 || p + 4 > b.len() {
        None
    } else {
        let name_len = be_val(b.subrange(p, p + 4));
        if p + 4 + name_len + 1 > b.len() {
            None
        } else {
            let name_bytes = b.subrange(p + 4, p + 4 + name_len);
            let tag = b[p + 4 + name_len];
            if !valid_utf8(name_bytes) {
                None
            } else {
                match spec_type_from_tag(tag) {
                    None => None,
                    Some(t) => match spec_read_catalog_items(
                        b,
                        p + 4 + name_len + 1,
                        (k - 1) as nat,
                    ) {
                        None => None,
                        Some((rest, e)) => Some(
                            (seq![(decode_utf8(name_bytes), t)] + rest, e),
                        ),
                    },
                }
            }
        }
    }
}

/// The column list a blob holds, if it is well formed and nothing trails it.
pub open spec fn spec_read_catalog(b: Seq<u8>) -> Option<Seq<(Seq<char>, ColumnType)>> {
    if b.len() < 4 {
        None
    } else {
        let count = be_val(b.subrange(0, 4));
        match spec_read_catalog_items(b, 4, count) {
            None => None,
            Some((items, e)) => if e == b.len() {
                Some(items)
            } else {
                None
            },
        }
    }
}

/// Encodes a column list as the catalog blob.
pub fn catalog_encode(cols: &Vec<(String, ColumnType)>) -> (out: Vec<u8>)
    requires
        schema_encodable(schema_view(cols@)),
    ensures
        out@ == catalog_bytes(schema_view(cols@)),
{
    let ghost sv = schema_view(cols@);
    let count = cols.len();
    let mut out: Vec<u8> = Vec::new();
    out.push(0);
    out.push(0);
    out.push(0);
    out.push(0);
    proof {
        assert(pow256(4) == 0x1_0000_0000) by {
            reveal_with_fuel(pow256, 5);
        }
    }
    write_be(&mut out, 0, count as u64, 4);
    proof {
        crate::serialise::lemma_be_bytes_len(count as nat, 4);
        assert(out@ =~= be_bytes(count as nat, 4) + catalog_items_bytes(sv.take(0)));
    }
    let mut i: usize = 0;
    while i < count
        invariant
            i <= count,
            count == cols@.len(),
            sv == schema_view(cols@),
            schema_encodable(sv),
            out@ == be_bytes(count as nat, 4) + catalog_items_bytes(sv.take(i as int)),
        decreases count - i,
    {
        proof {
            assert(sv[i as int] == (cols@[i as int].0@, cols@[i as int].1));
            assert(encode_utf8(sv[i as int].0).len() <= 0xFFFF_FFFF);
        }
        let name_bytes = cols[i].0.as_str().as_bytes_vec();
        let name_len = name_bytes.len();
        let mut lenb: Vec<u8> = Vec::new();
        lenb.push(0);
        lenb.push(0);
        lenb.push(0);
        lenb.push(0);
        proof {
            assert(pow256(4) == 0x1_0000_0000) by {
                reveal_with_fuel(pow256, 5);
            }
        }
        write_be(&mut lenb, 0, name_len as u64, 4);
        proof {
            crate::serialise::lemma_be_bytes_len(name_len as nat, 4);
            assert(lenb@ =~= be_bytes(name_len as nat, 4));
        }
        let ghost before = out@;
        let mut nb = name_bytes;
        out.append(&mut lenb);
        out.append(&mut nb);
        out.push(type_tag(&cols[i].1));
        proof {
            assert(out@ =~= before + catalog_item_bytes(sv[i as int]));
            assert(sv.take(i + 1).drop_last() =~= sv.take(i as int));
            assert(sv.take(i + 1).last() == sv[i as int]);
        }
        i = i + 1;
    }
    proof {
        assert(sv.take(count as int) =~= sv);
    }
    out
}

/// Decodes a catalog blob back into the column list.  Fails with
/// `Corruption` exactly when the blob is not a whole, well-formed encoding.
pub fn catalog_decode(data: &Vec<u8>) -> (r: Result<Vec<(String, ColumnType)>, DbError>)
    ensures
        match r {
            Ok(cols) => spec_read_catalog(data@) == Some(schema_view(cols@)),
            Err(e) => e == DbError::Corruption && spec_read_catalog(data@) is None,
        },
{
    let n = data.len();
    if n < 4 {
        return Err(DbError::Corruption);
    }
    let count64 = to_integer(data.as_slice(), 0, 4);
    proof {
        crate::serialise::lemma_be_val_bound(data@.subrange(0, 4));
        assert(pow256(4) == 0x1_0000_0000) by {
            reveal_with_fuel(pow256, 5);
        }
    }
    let count = count64 as usize;
    let ghost countn = count as nat;
    let mut cols: Vec<(String, ColumnType)> = Vec::new();
    let mut pos: usize = 4;
    let mut k: usize = 0;
    proof {
        assert(schema_view(cols@) =~= Seq::<(Seq<char>, ColumnType)>::empty());
    }
    while k < count
        invariant
            k <= count,
            countn == count as nat,
            4 <= pos <= n,
            n == data@.len(),
            count64 == be_val(data@.subrange(0, 4)),
            count == count64,
            schema_view(cols@).len() == k,
            match spec_read_catalog_items(data@, pos as int, (countn - k) as nat) {
                Some((rest, e)) => spec_read_catalog_items(data@, 4, countn)
                    == Some((schema_view(cols@) + rest, e)),
                None => spec_read_catalog_items(data@, 4, countn) is None,
            },
        decreases count - k,
    {
        if pos > n - 4 || n < 4 {
            proof {
                assert(spec_read_catalog_items(data@, pos as int, (countn - k) as nat) is None);
                assert(spec_read_catalog(data@) is None);
            }
            return Err(DbError::Corruption);
        }
        let name_len64 = to_integer(data.as_slice(), pos, 4);
        proof {
            crate::serialise::lemma_be_val_bound(data@.subrange(pos as int, pos + 4));
            assert(pow256(4) == 0x1_0000_0000) by {
                reveal_with_fuel(pow256, 5);
            }
        }
        let name_len = name_len64 as usize;
        if name_len > n - pos - 4 || n - pos - 4 - name_len < 1 {
            proof {
                assert(spec_read_catalog_items(data@, pos as int, (countn - k) as nat) is None);
                assert(spec_read_catalog(data@) is None);
            }
            return Err(DbError::Corruption);
        }
        let mut name_bytes: Vec<u8> = Vec::new();
        let mut j: usize = 0;
        while j < name_len
            invariant
                j <= name_len,
                pos + 4 + name_len <= n,
                n == data@.len(),
                name_bytes@ =~= data@.subrange(pos + 4, pos + 4 + j),
            decreases name_len - j,
        {
            name_bytes.push(data[pos + 4 + j]);
            proof {
                assert(name_bytes@ =~= data@.subrange(pos + 4, pos + 4 + j + 1));
            }
            j = j + 1;
        }
        let tag = data[pos + 4 + name_len];
        let name = match bytes_to_string(name_bytes) {
            Some(s) => s,
            None => {
                proof {
                    assert(spec_read_catalog_items(
                        data@,
                        pos as int,
                        (countn - k) as nat,
                    ) is None);
                    assert(spec_read_catalog(data@) is None);
                }
                return Err(DbError::Corruption);
            },
        };
        let t = match type_from_tag(tag) {
            Some(t) => t,
            None => {
                proof {
                    assert(spec_read_catalog_items(
                        data@,
                        pos as int,
                        (countn - k) as nat,
                    ) is None);
                    assert(spec_read_catalog(data@) is None);
                }
                return Err(DbError::Corruption);
            },
        };
        let ghost old_schema = schema_view(cols@);
        let ghost item = (decode_utf8(data@.subrange(pos + 4, pos + 4 + name_len as int)), t);
        cols.push((name, t));
        proof {
            assert(schema_view(cols@) =~= old_schema + seq![item]);
            let np = pos + 4 + name_len as int + 1;
            if spec_read_catalog_items(data@, np, (countn - k - 1) as nat) is Some {
                let (rest, e) = spec_read_catalog_items(
                    data@,
                    np,
                    (countn - k - 1) as nat,
                )->Some_0;
                assert(spec_read_catalog_items(data@, pos as int, (countn - k) as nat)
                    == Some((seq![item] + rest, e)));
                assert(old_schema + (seq![item] + rest) =~= (old_schema + seq![item]) + rest);
            }
        }
        pos = pos + 4 + name_len + 1;
        k = k + 1;
    }
    proof {
        assert(spec_read_catalog_items(data@, pos as int, 0) == Some(
            (Seq::<(Seq<char>, ColumnType)>::empty(), pos as int),
        ));
        assert(schema_view(cols@) + Seq::<(Seq<char>, ColumnType)>::empty()
            =~= schema_view(cols@));
    }
    if pos != n {
        proof {
            assert(spec_read_catalog(data@) is None);
        }
        return Err(DbError::Corruption);
    }
    Ok(cols)
}

/// A decoded element list has exactly the announced number of elements.
proof fn lemma_read_catalog_items_len(b: Seq<u8>, p: int, k: nat)
    requires
        spec_read_catalog_items(b, p, k) is Some,
    ensures
        spec_read_catalog_items(b, p, k)->Some_0.0.len() == k,
    decreases k,
{
    if k > 0 {
        let name_len = be_val(b.subrange(p, p + 4));
        lemma_read_catalog_items_len(b, p + 4 + name_len + 1, (k - 1) as nat);
    }
}

/// A decoded column list is bounded by its 32-bit count field.
pub proof fn lemma_read_catalog_len(b: Seq<u8>)
    requires
        spec_read_catalog(b) is Some,
    ensures
        spec_read_catalog(b)->Some_0.len() <= 0xFFFF_FFFF,
{
    let count = be_val(b.subrange(0, 4));
    lemma_read_catalog_items_len(b, 4, count);
    crate::serialise::lemma_be_val_bound(b.subrange(0, 4));
    assert(pow256(4) == 0x1_0000_0000) by {
        reveal_with_fuel(pow256, 5);
    }
}

/// The catalog law: a column list read back from its blob is itself.
pub proof fn lemma_catalog_round_trip(s: Seq<(Seq<char>, ColumnType)>)
    requires
        schema_encodable(s),
    ensures
        spec_read_catalog(catalog_bytes(s)) == Some(s),
{
    let b = catalog_bytes(s);
    crate::serialise::lemma_be_bytes_len(s.len(), 4);
    assert(pow256(4) == 0x1_0000_0000) by {
        reveal_with_fuel(pow256, 5);
    }
    crate::serialise::lemma_be_val_of_bytes(s.len(), 4);
    assert(b.subrange(0, 4) =~= be_bytes(s.len(), 4));
    let ib = catalog_items_bytes(s);
    assert(b.subrange(4, 4 + ib.len() as int) =~= ib) by {
        assert forall|j: int| 0 <= j < ib.len() implies
            #[trigger] b.subrange(4, 4 + ib.len() as int)[j] == ib[j] by {
            assert(b[4 + j] == ib[j]);
        }
    }
    lemma_catalog_items_round_trip(b, 4, s);
    assert(4 + catalog_items_bytes(s).len() == b.len());
}

/// Reading `s.len()` elements from the bytes of `s` yields `s`.
proof fn lemma_catalog_items_round_trip(b: Seq<u8>, p: int, s: Seq<(Seq<char>, ColumnType)>)
    requires
        schema_encodable(s),
        0 <= p,
        p + catalog_items_bytes(s).len() <= b.len(),
        b.subrange(p, p + catalog_items_bytes(s).len()) == catalog_items_bytes(s),
    ensures
        spec_read_catalog_items(b, p, s.len()) == Some((s, p + catalog_items_bytes(s).len())),
    decreases s.len(),
{
    let ib = catalog_items_bytes(s);
    if s.len() == 0 {
    } else {
        lemma_catalog_items_front(s);
        let e0 = s[0];
        let item = catalog_item_bytes(e0);
        let rest = catalog_items_bytes(s.drop_first());
        assert(ib.len() == item.len() + rest.len());
        assert forall|j: int| 0 <= j < ib.len() implies b[p + j] == ib[j] by {
            assert(b.subrange(p, p + ib.len())[j] == b[p + j]);
        }
        let nl = encode_utf8(e0.0).len();
        assert(encode_utf8(s[0].0).len() <= 0xFFFF_FFFF);
        crate::serialise::lemma_be_bytes_len(nl, 4);
        assert(item.len() == 4 + nl + 1);
        assert(b.subrange(p, p + 4) =~= be_bytes(nl, 4)) by {
            assert forall|j: int| 0 <= j < 4 implies
                #[trigger] b.subrange(p, p + 4)[j] == be_bytes(nl, 4)[j] by {
                assert(b[p + j] == ib[j]);
                assert(ib[j] == item[j]);
            }
        }
        assert(pow256(4) == 0x1_0000_0000) by {
            reveal_with_fuel(pow256, 5);
        }
        crate::serialise::lemma_be_val_of_bytes(nl, 4);
        assert(b.subrange(p + 4, p + 4 + nl) =~= encode_utf8(e0.0)) by {
            assert forall|j: int| 0 <= j < nl implies
                #[trigger] b.subrange(p + 4, p + 4 + nl)[j] == encode_utf8(e0.0)[j] by {
                assert(b[p + 4 + j] == ib[4 + j]);
                assert(ib[4 + j] == item[4 + j]);
            }
        }
        assert(b[p + 4 + nl] == spec_type_tag(e0.1)) by {
            assert(b[p + 4 + nl] == ib[4 + nl as int]);
            assert(ib[4 + nl as int] == item[4 + nl as int]);
        }
        vstd::utf8::encode_utf8_valid_utf8(e0.0);
        vstd::utf8::encode_utf8_decode_utf8(e0.0);
        let np = p + 4 + nl + 1;
        let df = s.drop_first();
        assert(schema_encodable(df)) by {
            assert(forall|j: int| 0 <= j < df.len() ==> #[trigger] df[j] == s[j + 1]);
        }
        assert(b.subrange(np, np + rest.len()) =~= rest) by {
            assert forall|j: int| 0 <= j < rest.len() implies
                #[trigger] b.subrange(np, np + rest.len())[j] == rest[j] by {
                assert(b[np + j] == ib[item.len() + j]);
            }
        }
        lemma_catalog_items_round_trip(b, np, df);
        assert(seq![(decode_utf8(encode_utf8(e0.0)), e0.1)] + df =~= s);
    }
}

/// The elements' bytes, read from the front.
proof fn lemma_catalog_items_front(s: Seq<(Seq<char>, ColumnType)>)
    requires
        s.len() > 0,
    ensures
        catalog_items_bytes(s) == catalog_item_bytes(s[0]) + catalog_items_bytes(s.drop_first()),
    decreases s.len(),
{
    if s.len() == 1 {
        assert(s.drop_last() =~= Seq::<(Seq<char>, ColumnType)>::empty());
        assert(s.drop_first() =~= Seq::<(Seq<char>, ColumnType)>::empty());
        assert(catalog_items_bytes(s)
            =~= catalog_item_bytes(s[0]) + catalog_items_bytes(s.drop_first()));
    } else {
        let dl = s.drop_last();
        lemma_catalog_items_front(dl);
        assert(dl[0] == s[0]);
        assert(dl.drop_first() =~= s.drop_first().drop_last());
        assert(s.drop_first().len() > 0);
        assert(s.drop_first().last() == s.last());
        assert(catalog_items_bytes(s)
            =~= catalog_item_bytes(s[0]) + catalog_items_bytes(s.drop_first()));
    }
}

} // verus!
