//! Numbers as little-endian bytes.

use crate::bits::{lemma_weight_adds, lemma_weight_monotonic, lemma_weight_values, weight};
use vstd::prelude::*;

verus! {

/// The `n` least significant bytes of `v`, least significant first.
pub open spec fn le_bytes(v: nat, n: nat) -> Seq<u8>
    decreases n,
{
    if n == 0 {
        Seq::empty()
    } else {
        seq![(v % 256) as u8] + le_bytes(v / 256, (n - 1) as nat)
    }
}

/// The number that bytes stand for, least significant first.
pub open spec fn le_value(bytes: Seq<u8>) -> nat
    decreases bytes.len(),
{
    if bytes.len() == 0 {
        0
    } else {
        bytes[0] as nat + 256 * le_value(bytes.drop_first())
    }
}

/// Eight more bits are a factor of 256.
pub proof fn lemma_weight_byte(m: nat)
    ensures
        weight(m + 8) == 256 * weight(m),
{
    lemma_weight_adds(m, 8);
    lemma_weight_values();
    assert(weight(m) * 256 == 256 * weight(m)) by (nonlinear_arith);
}

pub proof fn lemma_le_bytes_len(v: nat, n: nat)
    ensures
        le_bytes(v, n).len() == n,
    decreases n,
{
    if n > 0 {
        lemma_le_bytes_len(v / 256, (n - 1) as nat);
    }
}

/// The value of `n` bytes is below `2^(8n)`.
pub proof fn lemma_le_value_bound(bytes: Seq<u8>)
    ensures
        le_value(bytes) < weight(8 * bytes.len()),
    decreases bytes.len(),
{
    if bytes.len() > 0 {
        lemma_le_value_bound(bytes.drop_first());
        lemma_weight_byte((8 * (bytes.len() - 1)) as nat);
    }
}

/// Reading the bytes of a number that fits gives the number back.
pub proof fn lemma_le_value_of_bytes(v: nat, n: nat)
    requires
        v < weight(8 * n),
    ensures
        le_value(le_bytes(v, n)) == v,
        le_bytes(v, n).len() == n,
    decreases n,
{
    lemma_le_bytes_len(v, n);
    if n > 0 {
        lemma_weight_byte((8 * (n - 1)) as nat);
        lemma_le_value_of_bytes(v / 256, (n - 1) as nat);
        let rest = le_bytes(v / 256, (n - 1) as nat);
        assert(le_bytes(v, n).drop_first() =~= rest);
    }
}

/// Writing the value of bytes gives the bytes back.
pub proof fn lemma_le_bytes_of_value(bytes: Seq<u8>)
    ensures
        le_bytes(le_value(bytes), bytes.len()) == bytes,
    decreases bytes.len(),
{
    if bytes.len() > 0 {
        lemma_le_bytes_of_value(bytes.drop_first());
        let v = le_value(bytes);
        let rest = le_value(bytes.drop_first());
        assert(v % 256 == bytes[0] as nat);
        assert(v / 256 == rest);
        assert(le_bytes(v, bytes.len()) =~= bytes);
    } else {
        assert(le_bytes(0, 0) =~= bytes);
    }
}

/// Appends the `n` least significant bytes of `v` to `out`.
pub fn write_number(out: &mut Vec<u8>, v: u128, n: usize)
    ensures
        final(out)@ == old(out)@ + le_bytes(v as nat, n as nat),
{
    let ghost start = out@;
    let mut rest: u128 = v;
    let mut i: usize = 0;
    proof {
        assert(start + le_bytes(v as nat, n as nat) =~= start + Seq::<u8>::empty() + le_bytes(
            v as nat,
            n as nat,
        ));
    }
    let ghost mut written: Seq<u8> = Seq::empty();
    while i < n
        invariant
            i <= n,
            out@ == start + written,
            written + le_bytes(rest as nat, (n - i) as nat) == le_bytes(v as nat, n as nat),
        decreases n - i,
    {
        let byte: u8 = (rest % 256) as u8;
        out.push(byte);
        proof {
            let tail = le_bytes((rest / 256) as nat, (n - i - 1) as nat);
            assert(le_bytes(rest as nat, (n - i) as nat) == seq![byte] + tail);
            assert(written.push(byte) + tail =~= written + (seq![byte] + tail));
            assert(out@ =~= start + written.push(byte));
            written = written.push(byte);
        }
        rest = rest / 256;
        i = i + 1;
    }
    proof {
        assert(written + Seq::<u8>::empty() =~= written);
    }
}

/// Reads `n` bytes from `start` as a number, least significant first, if
/// that many are there.
pub fn read_number(bytes: &Vec<u8>, start: usize, n: usize) -> (out: Option<u128>)
    requires
        n <= 16,
    ensures
        out is Some <==> start + n <= bytes@.len(),
        out is Some ==> start + n <= usize::MAX,
        out matches Some(v) ==> v == le_value(bytes@.subrange(start as int, start + n)),
{
    if n > bytes.len() || start > bytes.len() - n {
        return None;
    }
    let ghost all = bytes@.subrange(start as int, start + n);
    let len: usize = bytes.len();
    let mut value: u128 = 0;
    let mut i: usize = n;
    proof {
        assert(all.subrange(n as int, n as int) =~= Seq::<u8>::empty());
        lemma_weight_values();
    }
    while i > 0
        invariant
            i <= n <= 16,
            start + n <= len,
            len == bytes@.len(),
            all == bytes@.subrange(start as int, start + n),
            value == le_value(all.subrange(i as int, n as int)),
            weight(128) == 0x1_0000_0000_0000_0000_0000_0000_0000_0000,
        decreases i,
    {
        proof {
            let tail = all.subrange(i as int, n as int);
            let more = all.subrange(i - 1, n as int);
            assert(more.drop_first() =~= tail);
            assert(more[0] == bytes@[start + i - 1]);
            lemma_le_value_bound(more);
            lemma_weight_monotonic((8 * (n - i + 1)) as nat, 128);
        }
        i = i - 1;
        value = value * 256 + bytes[start + i] as u128;
    }
    proof {
        assert(all.subrange(0, n as int) =~= all);
    }
    Some(value)
}

} // verus!
