//! Fixed-width big-endian integer reads and writes on byte buffers.
//!
//! Every multi-byte integer in the file header, the page headers and the
//! cell-pointer arrays is stored big-endian.  The functions here are the
//! only place where the engine turns bytes into numbers and back.

use vstd::arithmetic::div_mod::lemma_div_denominator;
use vstd::prelude::*;

verus! {

/// The value of a big-endian byte string.
pub open spec fn be_val(s: Seq<u8>) -> nat
    decreases s.len(),
{
    if s.len() == 0 {
        0
    } else {
        (be_val(s.drop_last()) * 256 + s.last()) as nat
    }
}

/// The big-endian byte string of length `n` whose value is `v`.
pub open spec fn be_bytes(v: nat, n: nat) -> Seq<u8>
    decreases n,
{
    if n == 0 {
        Seq::empty()
    } else {
        be_bytes(v / 256, (n - 1) as nat).push((v % 256) as u8)
    }
}

/// 256 to the power `n`: the number of values an `n`-byte field can hold.
pub open spec fn pow256(n: nat) -> nat
    decreases n,
{
    if n == 0 {
        1
    } else {
        256 * pow256((n - 1) as nat)
    }
}

pub broadcast proof fn lemma_pow256_pos(n: nat)
    ensures
        #[trigger] pow256(n) > 0,
    decreases n,
{
    if n > 0 {
        lemma_pow256_pos((n - 1) as nat);
    }
}

pub proof fn lemma_pow256_le(a: nat, b: nat)
    requires
        a <= b,
    ensures
        pow256(a) <= pow256(b),
    decreases b,
{
    if a < b {
        lemma_pow256_le(a, (b - 1) as nat);
        lemma_pow256_pos((b - 1) as nat);
    }
}

pub broadcast proof fn lemma_be_bytes_len(v: nat, n: nat)
    ensures
        (#[trigger] be_bytes(v, n)).len() == n,
    decreases n,
{
    if n > 0 {
        lemma_be_bytes_len(v / 256, (n - 1) as nat);
    }
}

/// A value below `pow256(n)` survives the round trip through its bytes.
pub proof fn lemma_be_val_of_bytes(v: nat, n: nat)
    requires
        v < pow256(n),
    ensures
        be_val(be_bytes(v, n)) == v,
    decreases n,
{
    if n > 0 {
        let m = (n - 1) as nat;
        lemma_pow256_pos(m);
        assert(v / 256 < pow256(m)) by (nonlinear_arith)
            requires
                v < 256 * pow256(m),
                pow256(m) > 0,
        ;
        lemma_be_val_of_bytes(v / 256, m);
        lemma_be_bytes_len(v / 256, m);
        assert(be_bytes(v, n).drop_last() =~= be_bytes(v / 256, m));
    }
}

/// The value of a byte string is below `pow256` of its length.
pub proof fn lemma_be_val_bound(s: Seq<u8>)
    ensures
        be_val(s) < pow256(s.len()),
    decreases s.len(),
{
    if s.len() > 0 {
        lemma_be_val_bound(s.drop_last());
        let m = (s.len() - 1) as nat;
        assert(be_val(s.drop_last()) * 256 + s.last() < 256 * pow256(m))
            by (nonlinear_arith)
            requires
                be_val(s.drop_last()) < pow256(m),
                s.last() < 256,
        ;
    }
}

/// A string of zero bytes has value zero.
pub proof fn lemma_be_val_zero(s: Seq<u8>)
    requires
        forall|j: int| 0 <= j < s.len() ==> s[j] == 0,
    ensures
        be_val(s) == 0,
    decreases s.len(),
{
    if s.len() > 0 {
        lemma_be_val_zero(s.drop_last());
    }
}

/// Appending one byte on the right shifts the value left by one place.
pub proof fn lemma_be_val_push(s: Seq<u8>, b: u8)
    ensures
        be_val(s.push(b)) == be_val(s) * 256 + b,
{
    assert(s.push(b).drop_last() =~= s);
}

/// Reads a big-endian unsigned integer of up to 8 bytes from `bytes`,
/// starting at `start` and spanning `len` bytes.
pub fn to_integer(bytes: &[u8], start: usize, len: usize) -> (out: u64)
    requires
        len <= 8,
        start + len <= bytes@.len(),
    ensures
        out == be_val(bytes@.subrange(start as int, start + len)),
{
    let n = bytes.len();
    let mut out: u64 = 0;
    let mut i: usize = 0;
    proof {
        assert(bytes@.subrange(start as int, start as int) =~= Seq::<u8>::empty());
    }
    while i < len
        invariant
            i <= len,
            len <= 8,
            start + len <= n,
            n == bytes@.len(),
            out == be_val(bytes@.subrange(start as int, start + i)),
            out < pow256(i as nat),
        decreases len - i,
    {
        proof {
            let pre = bytes@.subrange(start as int, start + i);
            lemma_be_val_push(pre, bytes@[start + i]);
            assert(pre.push(bytes@[start + i])
                =~= bytes@.subrange(start as int, start + i + 1));
            lemma_pow256_pos(i as nat);
            assert(out * 256 + bytes@[start + i] < 256 * pow256(i as nat))
                by (nonlinear_arith)
                requires
                    out < pow256(i as nat),
                    bytes@[start + i] < 256,
            ;
            lemma_pow256_le(i as nat + 1, 8);
            assert(pow256(8) == 0x1_0000_0000_0000_0000) by {
                reveal_with_fuel(pow256, 9);
            }
        }
        out = out * 256 + (bytes[start + i] as u64);
        i = i + 1;
    }
    out
}

/// Byte `j` (counting from the most significant end) of the `n`-byte form of `v`.
pub open spec fn be_byte_at(v: nat, n: nat, j: int) -> u8 {
    ((v / pow256((n - 1 - j) as nat)) % 256) as u8
}

proof fn lemma_be_bytes_index(v: nat, n: nat, j: int)
    requires
        0 <= j < n,
    ensures
        be_bytes(v, n)[j] == be_byte_at(v, n, j),
    decreases n,
{
    lemma_be_bytes_len(v, n);
    lemma_be_bytes_len(v / 256, (n - 1) as nat);
    if j == n - 1 {
        assert(be_bytes(v, n)[j] == (v % 256) as u8);
        assert(pow256(0) == 1);
        assert(v / 1 == v);
    } else {
        assert(be_bytes(v, n)[j] == be_bytes(v / 256, (n - 1) as nat)[j]);
        lemma_be_bytes_index(v / 256, (n - 1) as nat, j);
        let k = (n - 2 - j) as nat;
        lemma_pow256_pos(k);
        lemma_div_denominator(v as int, 256, pow256(k) as int);
        assert(pow256((k + 1) as nat) == 256 * pow256(k));
        assert(be_byte_at(v / 256, (n - 1) as nat, j) == be_byte_at(v, n, j));
    }
}

/// Writes the `len`-byte big-endian form of `v` into `data` at `start`,
/// leaving every other byte unchanged.
pub fn write_be(data: &mut Vec<u8>, start: usize, v: u64, len: usize)
    requires
        len <= 8,
        v < pow256(len as nat),
        start + len <= old(data)@.len(),
    ensures
        final(data)@.len() == old(data)@.len(),
        final(data)@.subrange(start as int, start + len) == be_bytes(v as nat, len as nat),
        forall|j: int|
            0 <= j < old(data)@.len() && !(start <= j < start + len)
                ==> final(data)@[j] == old(data)@[j],
{
    let n = data.len();
    let mut i: usize = len;
    let mut v_left: u64 = v;
    proof {
        assert(pow256(0) == 1);
        assert(v as nat / 1 == v as nat);
    }
    while i > 0
        invariant
            i <= len,
            len <= 8,
            start + len <= n,
            n == data@.len(),
            data@.len() == old(data)@.len(),
            v_left == v as nat / pow256((len - i) as nat),
            forall|j: int|
                0 <= j < old(data)@.len() && !(start <= j < start + len)
                    ==> data@[j] == old(data)@[j],
            forall|j: int|
                i <= j < len
                    ==> data@[start + j] == be_byte_at(v as nat, len as nat, j),
        decreases i,
    {
        i = i - 1;
        let b: u8 = (v_left % 256) as u8;
        data.set(start + i, b);
        proof {
            let k = (len - i - 1) as nat;
            lemma_pow256_pos(k);
            lemma_div_denominator(v as int, pow256(k) as int, 256);
            assert(pow256((k + 1) as nat) == 256 * pow256(k));
            assert(pow256(k) * 256 == 256 * pow256(k)) by (nonlinear_arith);
        }
        v_left = v_left / 256;
    }
    proof {
        lemma_be_bytes_len(v as nat, len as nat);
        assert forall|j: int| 0 <= j < len implies
            data@.subrange(start as int, start + len)[j]
                == be_bytes(v as nat, len as nat)[j] by {
            assert(data@[start + j] == be_byte_at(v as nat, len as nat, j));
            lemma_be_bytes_index(v as nat, len as nat, j);
        }
        assert(data@.subrange(start as int, start + len)
            =~= be_bytes(v as nat, len as nat));
    }
}

} // verus!
