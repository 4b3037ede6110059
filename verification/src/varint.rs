//! Variable-length integers: 1 to 9 bytes, big-endian, self-terminating.
//!
//! A varint encodes a 64-bit unsigned value.  When the value fits in 56
//! bits it is split into the minimum number of 7-bit groups, most
//! significant first, with the high bit set on every byte except the last.
//! Otherwise exactly 9 bytes are emitted: eight bytes carrying the top 56
//! bits in 7-bit groups with the high bit set, then one byte carrying the
//! low 8 bits.

use crate::DbError;
use vstd::arithmetic::div_mod::lemma_div_denominator;
use vstd::prelude::*;

verus! {

/// 128 to the power `n`: the number of values `n` 7-bit groups can hold.
pub open spec fn pow128(n: nat) -> nat
    decreases n,
{
    if n == 0 {
        1
    } else {
        128 * pow128((n - 1) as nat)
    }
}

pub broadcast proof fn lemma_pow128_pos(n: nat)
    ensures
        #[trigger] pow128(n) > 0,
    decreases n,
{
    if n > 0 {
        lemma_pow128_pos((n - 1) as nat);
    }
}

/// The number of bytes in the encoding of `v`.
pub open spec fn varint_len(v: nat) -> nat {
    if v < pow128(1) {
        1
    } else if v < pow128(2) {
        2
    } else if v < pow128(3) {
        3
    } else if v < pow128(4) {
        4
    } else if v < pow128(5) {
        5
    } else if v < pow128(6) {
        6
    } else if v < pow128(7) {
        7
    } else if v < pow128(8) {
        8
    } else {
        9
    }
}

/// The encoding of `v`.
pub open spec fn varint_bytes(v: u64) -> Seq<u8> {
    let n = varint_len(v as nat);
    if n <= 8 {
        Seq::new(
            n,
            |i: int|
                if i == n - 1 {
                    (v as nat % 128) as u8
                } else {
                    ((v as nat / pow128((n - 1 - i) as nat)) % 128 + 128) as u8
                },
        )
    } else {
        Seq::new(
            8,
            |i: int| (((v as nat / 256) / pow128((7 - i) as nat)) % 128 + 128) as u8,
        ).push((v as nat % 256) as u8)
    }
}

/// One step of the decoder: `acc` holds the bits read so far, `count` the
/// number of bytes consumed.  Mirrors the byte-by-byte reading rule: the
/// first eight bytes contribute 7 bits each and the high bit asks for more;
/// a ninth byte contributes all 8 bits.  `None` means the bytes ran out.
pub open spec fn srv(b: Seq<u8>, p: int, acc: nat, count: nat) -> Option<(nat, int)>
    decreases 9 - count,
{
    if !(0 <= p < b.len()) {
        None
    } else {
        let byte = b[p];
        if count >= 8 {
            Some(((acc * 256 + byte) as nat, p + 1))
        } else {
            let acc2 = (acc * 128 + (byte % 128)) as nat;
            if byte < 128 {
                Some((acc2, p + 1))
            } else {
                srv(b, p + 1, acc2, (count + 1) as nat)
            }
        }
    }
}

/// The value and end position of the varint starting at `p`, if any.
pub open spec fn spec_read_varint(b: Seq<u8>, p: int) -> Option<(nat, int)> {
    srv(b, p, 0, 0)
}

/// Whatever the bytes hold, a decoded value fits in 64 bits and the cursor
/// moves forward by at most 9.
pub proof fn lemma_srv_bound(b: Seq<u8>, p: int, acc: nat, count: nat)
    requires
        acc < pow128(count),
        count <= 8,
    ensures
        match srv(b, p, acc, count) {
            Some((v, np)) => v < 0x1_0000_0000_0000_0000 && p < np <= p + 9 - count
                && np <= b.len(),
            None => true,
        },
    decreases 9 - count,
{
    lemma_pow128_le_all();
    if 0 <= p < b.len() {
        let byte = b[p];
        if count >= 8 {
            assert(acc * 256 + byte < pow128(8) * 256) by (nonlinear_arith)
                requires
                    acc < pow128(8),
                    byte < 256,
            ;
            assert(pow128(8) * 256 == 0x1_0000_0000_0000_0000) by {
                reveal_with_fuel(pow128, 9);
            }
        } else {
            let acc2 = (acc * 128 + (byte % 128)) as nat;
            assert(acc * 128 + byte % 128 < pow128(count) * 128) by (nonlinear_arith)
                requires
                    acc < pow128(count),
                    byte % 128 < 128,
            ;
            assert(pow128(count) * 128 == pow128((count + 1) as nat))
                by (nonlinear_arith)
                requires pow128((count + 1) as nat) == 128 * pow128(count),
            ;
            if byte < 128 {
                assert(pow128((count + 1) as nat) <= 0x1_0000_0000_0000_0000) by {
                    reveal_with_fuel(pow128, 10);
                    lemma_pow128_le((count + 1) as nat, 9);
                }
            } else {
                lemma_srv_bound(b, p + 1, acc2, (count + 1) as nat);
            }
        }
    }
}

pub proof fn lemma_pow128_le(a: nat, b: nat)
    requires
        a <= b,
    ensures
        pow128(a) <= pow128(b),
    decreases b,
{
    if a < b {
        lemma_pow128_le(a, (b - 1) as nat);
        lemma_pow128_pos((b - 1) as nat);
    }
}

proof fn lemma_pow128_le_all()
    ensures
        forall|a: nat, b: nat| a <= b ==> #[trigger] pow128(a) <= #[trigger] pow128(b),
{
    assert forall|a: nat, b: nat| a <= b implies pow128(a) <= pow128(b) by {
        lemma_pow128_le(a, b);
    }
}

/// The number of bytes `build_varint` will emit for `v`.
pub fn varint_length(v: u64) -> (n: usize)
    ensures
        n == varint_len(v as nat),
        1 <= n <= 9,
{
    proof {
        reveal_with_fuel(pow128, 9);
    }
    if v < 128 {
        1
    } else if v < 16384 {
        2
    } else if v < 2097152 {
        3
    } else if v < 268435456 {
        4
    } else if v < 34359738368 {
        5
    } else if v < 4398046511104 {
        6
    } else if v < 562949953421312 {
        7
    } else if v < 72057594037927936 {
        8
    } else {
        9
    }
}

/// `pow128` as an executable value, for the digit positions of an encoding.
fn pow128_exec(k: usize) -> (r: u64)
    requires
        k <= 7,
    ensures
        r == pow128(k as nat),
{
    let mut r: u64 = 1;
    let mut j: usize = 0;
    while j < k
        invariant
            j <= k <= 7,
            r == pow128(j as nat),
        decreases k - j,
    {
        proof {
            lemma_pow128_le(j as nat + 1, 7);
            reveal_with_fuel(pow128, 8);
        }
        r = r * 128;
        j = j + 1;
    }
    r
}

/// Encodes `v` as a varint.
pub fn build_varint(v: u64) -> (out: Vec<u8>)
    ensures
        out@ == varint_bytes(v),
        out@.len() == varint_len(v as nat),
{
    let n = varint_length(v);
    let mut out: Vec<u8> = Vec::new();
    if n <= 8 {
        let mut i: usize = 0;
        while i < n
            invariant
                i <= n,
                n == varint_len(v as nat),
                n <= 8,
                out@.len() == i,
                forall|j: int| 0 <= j < i ==> out@[j] == varint_bytes(v)[j],
            decreases n - i,
        {
            let b: u8 = if i == n - 1 {
                (v % 128) as u8
            } else {
                let d = pow128_exec(n - 1 - i);
                proof {
                    lemma_pow128_pos((n - 1 - i) as nat);
                }
                ((v / d) % 128 + 128) as u8
            };
            out.push(b);
            i = i + 1;
        }
        proof {
            assert(out@ =~= varint_bytes(v));
        }
    } else {
        let hi = v / 256;
        let mut i: usize = 0;
        while i < 8
            invariant
                hi == v as nat / 256,
                varint_len(v as nat) == 9,
                out@.len() == i <= 8,
                forall|j: int| 0 <= j < i ==> out@[j] == varint_bytes(v)[j],
            decreases 8 - i,
        {
            let d = pow128_exec(7 - i);
            proof {
                lemma_pow128_pos((7 - i) as nat);
            }
            let b: u8 = ((hi / d) % 128 + 128) as u8;
            out.push(b);
            i = i + 1;
        }
        out.push((v % 256) as u8);
        proof {
            assert(out@ =~= varint_bytes(v));
        }
    }
    out
}

/// Reads a varint from `bytes` starting at `pos`.  Fails with `Corruption`
/// when the bytes run out before the encoding terminates.
pub fn read_varint(bytes: &[u8], pos: usize) -> (r: Result<(u64, usize), DbError>)
    ensures
        match r {
            Ok((v, np)) => spec_read_varint(bytes@, pos as int) == Some((v as nat, np as int))
                && pos < np <= bytes@.len() && np <= pos + 9,
            Err(e) => spec_read_varint(bytes@, pos as int) is None && e == DbError::Corruption,
        },
{
    let len = bytes.len();
    let mut p = pos;
    let mut acc: u64 = 0;
    let mut count: usize = 0;
    loop
        invariant
            pos <= p,
            p <= pos + count,
            count <= 8,
            acc < pow128(count as nat),
            len == bytes@.len(),
            srv(bytes@, pos as int, 0, 0) == srv(bytes@, p as int, acc as nat, count as nat),
        decreases 9 - count,
    {
        if p >= len {
            return Err(DbError::Corruption);
        }
        let byte = bytes[p];
        proof {
            lemma_srv_bound(bytes@, p as int, acc as nat, count as nat);
            assert(acc * 128 + byte % 128 < pow128(count as nat) * 128) by (nonlinear_arith)
                requires
                    acc < pow128(count as nat),
                    byte % 128 < 128,
            ;
            assert(pow128(count as nat) * 128 == pow128((count + 1) as nat))
                by (nonlinear_arith)
                requires pow128((count + 1) as nat) == 128 * pow128(count as nat),
            ;
            if count < 8 {
                lemma_pow128_le((count + 1) as nat, 8);
            }
            assert(pow128(8) * 256 == 0x1_0000_0000_0000_0000) by {
                reveal_with_fuel(pow128, 9);
            }
            assert(acc * 256 + byte < pow128(8) * 256) by (nonlinear_arith)
                requires
                    acc < pow128(8),
                    byte < 256,
            ;
        }
        if count == 8 {
            return Ok((acc * 256 + byte as u64, p + 1));
        }
        acc = acc * 128 + (byte % 128) as u64;
        if byte < 128 {
            return Ok((acc, p + 1));
        }
        p = p + 1;
        count = count + 1;
    }
}

/// Decoding an encoding embedded anywhere in a longer byte string yields the
/// encoded value and stops exactly at the encoding's end.
pub proof fn lemma_varint_round_trip(b: Seq<u8>, p: int, v: u64)
    requires
        0 <= p,
        p + varint_len(v as nat) <= b.len(),
        b.subrange(p, p + varint_len(v as nat)) == varint_bytes(v),
    ensures
        spec_read_varint(b, p) == Some((v as nat, p + varint_len(v as nat))),
{
    let n = varint_len(v as nat);
    assert forall|j: int| 0 <= j < n implies b[p + j] == varint_bytes(v)[j] by {
        assert(b.subrange(p, p + n)[j] == b[p + j]);
    }
    if n <= 8 {
        lemma_srv_small(b, p, v, 0);
        assert(pow128(0) == 1);
        assert(v as nat / pow128((n - 0) as nat) == 0) by {
            lemma_pow128_pos(n);
            assert((v as nat) < pow128(n));
            vstd::arithmetic::div_mod::lemma_basic_div(v as int, pow128(n) as int);
        }
    } else {
        lemma_srv_nine(b, p, v, 0);
        assert(pow128(0) == 1);
        assert((v as nat / 256) / pow128(8) == 0) by {
            reveal_with_fuel(pow128, 9);
            assert((v as nat / 256) < pow128(8));
            vstd::arithmetic::div_mod::lemma_basic_div((v as nat / 256) as int, pow128(8) as int);
        }
    }
}

/// The varint law, plainly: decoding an encoding yields the value back
/// and consumes exactly its bytes.
pub proof fn lemma_varint_identity(v: u64)
    ensures
        spec_read_varint(varint_bytes(v), 0) == Some(
            (v as nat, varint_len(v as nat) as int),
        ),
{
    assert(varint_bytes(v).subrange(0, varint_len(v as nat) as int) =~= varint_bytes(v));
    lemma_varint_round_trip(varint_bytes(v), 0, v);
}

/// Induction for the short forms: after `k` bytes the accumulator holds the
/// top `7k` bits.
proof fn lemma_srv_small(b: Seq<u8>, p: int, v: u64, k: nat)
    requires
        varint_len(v as nat) <= 8,
        k < varint_len(v as nat),
        0 <= p,
        p + (varint_len(v as nat) - k) <= b.len(),
        forall|j: int|
            0 <= j < varint_len(v as nat) - k
                ==> #[trigger] b[p + j] == varint_bytes(v)[k + j],
    ensures
        srv(b, p, v as nat / pow128((varint_len(v as nat) - k) as nat), k)
            == Some((v as nat, p + (varint_len(v as nat) - k))),
    decreases varint_len(v as nat) - k,
{
    let n = varint_len(v as nat);
    let acc = v as nat / pow128((n - k) as nat);
    let byte = b[p];
    assert(b[p + 0] == varint_bytes(v)[k as int + 0]);
    assert(byte == varint_bytes(v)[k as int]);
    lemma_pow128_pos((n - k) as nat);
    lemma_pow128_pos((n - k - 1) as nat);
    if k == n - 1 {
        assert(byte == (v as nat % 128) as u8);
        assert(pow128(1) == 128);
        assert(acc == v as nat / 128);
        assert(acc * 128 + (byte % 128) == v as nat);
    } else {
        assert(byte == ((v as nat / pow128((n - 1 - k) as nat)) % 128 + 128) as u8);
        assert(byte >= 128);
        let x = v as nat / pow128((n - 1 - k) as nat);
        assert(x < pow128((k + 1) as nat)) by {
            lemma_srv_small_top_bound(v as nat, n, k);
        }
        assert(byte % 128 == x % 128);
        lemma_div_denominator(v as int, pow128((n - 1 - k) as nat) as int, 128);
        assert(pow128((n - 1 - k) as nat) * 128 == pow128((n - k) as nat))
            by (nonlinear_arith)
            requires pow128((n - k) as nat) == 128 * pow128((n - 1 - k) as nat),
        ;
        assert(acc == x / 128);
        assert(acc * 128 + x % 128 == x);
        assert forall|j: int| 0 <= j < n - (k + 1) implies
            #[trigger] b[(p + 1) + j] == varint_bytes(v)[(k + 1) + j] by {
            assert(b[p + (j + 1)] == varint_bytes(v)[k + (j + 1)]);
        }
        lemma_srv_small(b, p + 1, v, (k + 1) as nat);
    }
}

/// The quotient of `v` by the place value of its `k`-th group is small.
proof fn lemma_srv_small_top_bound(v: nat, n: nat, k: nat)
    requires
        v < pow128(n),
        k + 1 <= n,
    ensures
        v / pow128((n - 1 - k) as nat) < pow128((k + 1) as nat),
{
    let d = pow128((n - 1 - k) as nat);
    lemma_pow128_pos((n - 1 - k) as nat);
    assert(pow128(n) == pow128((k + 1) as nat) * d) by {
        lemma_pow128_add((k + 1) as nat, (n - 1 - k) as nat);
    }
    assert(v / d < pow128((k + 1) as nat)) by (nonlinear_arith)
        requires
            v < pow128((k + 1) as nat) * d,
            d > 0,
    ;
}

pub proof fn lemma_pow128_add(a: nat, b: nat)
    ensures
        pow128((a + b) as nat) == pow128(a) * pow128(b),
    decreases a,
{
    if a == 0 {
        assert(pow128(0) == 1);
    } else {
        lemma_pow128_add((a - 1) as nat, b);
        assert(pow128((a + b) as nat) == 128 * pow128((a + b - 1) as nat));
        assert(128 * (pow128((a - 1) as nat) * pow128(b)) == (128 * pow128((a - 1) as nat)) * pow128(b))
            by (nonlinear_arith);
    }
}

/// Induction for the 9-byte form: the first eight bytes rebuild the top 56
/// bits, the ninth supplies the low 8.
proof fn lemma_srv_nine(b: Seq<u8>, p: int, v: u64, k: nat)
    requires
        varint_len(v as nat) == 9,
        k < 8,
        0 <= p,
        p + (9 - k) <= b.len(),
        forall|j: int| 0 <= j < 9 - k ==> #[trigger] b[p + j] == varint_bytes(v)[k + j],
    ensures
        srv(b, p, (v as nat / 256) / pow128((8 - k) as nat), k)
            == Some((v as nat, p + (9 - k))),
    decreases 8 - k,
{
    let hi = v as nat / 256;
    let acc = hi / pow128((8 - k) as nat);
    let byte = b[p];
    assert(b[p + 0] == varint_bytes(v)[k as int + 0]);
    assert(byte == varint_bytes(v)[k as int]);
    assert(varint_bytes(v)[k as int]
        == Seq::new(8, |i: int| (((v as nat / 256) / pow128((7 - i) as nat)) % 128 + 128) as u8)[k as int]);
    assert(byte == ((hi / pow128((7 - k) as nat)) % 128 + 128) as u8);
    assert(byte >= 128);
    let x = hi / pow128((7 - k) as nat);
    assert(x < pow128((k + 1) as nat)) by {
        assert(hi < pow128(8)) by {
            reveal_with_fuel(pow128, 9);
        }
        lemma_srv_small_top_bound(hi, 8, k);
    }
    assert(byte % 128 == x % 128);
    lemma_pow128_pos((7 - k) as nat);
    lemma_div_denominator(hi as int, pow128((7 - k) as nat) as int, 128);
    assert(pow128((7 - k) as nat) * 128 == pow128((8 - k) as nat))
        by (nonlinear_arith)
        requires pow128((8 - k) as nat) == 128 * pow128((7 - k) as nat),
    ;
    assert(acc == x / 128);
    assert(acc * 128 + x % 128 == x);
    if k == 7 {
        assert(pow128(0) == 1);
        assert(hi / 1 == hi);
        assert(b[p + 1] == varint_bytes(v)[8]);
        assert(b[p + 1] == (v as nat % 256) as u8);
        assert(x == hi);
        assert(hi * 256 + v as nat % 256 == v as nat);
    } else {
        assert forall|j: int| 0 <= j < 9 - (k + 1) implies
            #[trigger] b[(p + 1) + j] == varint_bytes(v)[(k + 1) + j] by {
            assert(b[p + (j + 1)] == varint_bytes(v)[k + (j + 1)]);
        }
        lemma_srv_nine(b, p + 1, v, (k + 1) as nat);
    }
}

} // verus!
