//! Little-endian integers of any width, as sequences of bytes.

use vstd::arithmetic::div_mod::lemma_div_denominator;
use vstd::arithmetic::power::{lemma_pow_positive, pow};
use vstd::prelude::*;

verus! {

/// The number that a little-endian byte sequence stands for.
pub open spec fn le_value(s: Seq<u8>) -> nat
    decreases s.len(),
{
    if s.len() == 0 {
        0
    } else {
        s[0] as nat + 256 * le_value(s.drop_first())
    }
}

/// The low `n` bytes of `v`, least significant first.
pub open spec fn le_bytes(v: nat, n: nat) -> Seq<u8>
    decreases n,
{
    if n == 0 {
        Seq::empty()
    } else {
        seq![(v % 256) as u8] + le_bytes(v / 256, (n - 1) as nat)
    }
}

/// The first number that no longer fits in `n` bytes.
pub open spec fn le_limit(n: nat) -> nat
    decreases n,
{
    if n == 0 {
        1
    } else {
        256 * le_limit((n - 1) as nat)
    }
}

/// `le_bytes` has the length that was asked for.
pub proof fn lemma_le_bytes_len(v: nat, n: nat)
    ensures
        le_bytes(v, n).len() == n,
    decreases n,
{
    if n > 0 {
        lemma_le_bytes_len(v / 256, (n - 1) as nat);
    }
}

/// The value of `n` bytes stays below the limit of that width.
pub proof fn lemma_le_value_bound(s: Seq<u8>)
    ensures
        le_value(s) < le_limit(s.len()),
    decreases s.len(),
{
    if s.len() > 0 {
        lemma_le_value_bound(s.drop_first());
    }
}

/// Decoding gives back what was encoded, for every value that fits the width.
pub proof fn lemma_le_decode_encode(v: nat, n: nat)
    requires
        v < le_limit(n),
    ensures
        le_value(le_bytes(v, n)) == v,
    decreases n,
{
    if n > 0 {
        let m = (n - 1) as nat;
        lemma_le_decode_encode(v / 256, m);
        let s = le_bytes(v, n);
        assert(s.drop_first() =~= le_bytes(v / 256, m));
        assert(s[0] as nat == v % 256);
    }
}

/// Encoding gives back the bytes that were decoded.
pub proof fn law_le_encode_decode(s: Seq<u8>)
    ensures
        le_bytes(le_value(s), s.len()) == s,
    decreases s.len(),
{
    if s.len() > 0 {
        let rest = s.drop_first();
        law_le_encode_decode(rest);
        let v = le_value(s);
        assert(v == s[0] as nat + 256 * le_value(rest));
        assert(v % 256 == s[0] as nat);
        assert(v / 256 == le_value(rest));
        assert(seq![s[0]] + rest =~= s);
    }
}

/// The limits of the widths that the machine uses.
pub proof fn lemma_le_limits()
    ensures
        le_limit(1) == 0x100,
        le_limit(2) == 0x1_0000,
        le_limit(4) == 0x1_0000_0000,
        le_limit(7) == 0x100_0000_0000_0000,
        le_limit(8) == 0x1_0000_0000_0000_0000,
        forall|n: nat| n <= 7 ==> #[trigger] le_limit(n) <= 0x100_0000_0000_0000,
{
    reveal_with_fuel(le_limit, 9);
    assert forall|n: nat| n <= 7 implies #[trigger] le_limit(n) <= 0x100_0000_0000_0000 by {
        if n == 0 {
        } else if n == 1 {
        } else if n == 2 {
        } else if n == 3 {
        } else if n == 4 {
        } else if n == 5 {
        } else if n == 6 {
        } else {
            assert(n == 7);
        }
    }
}

/// The low `n` bytes of `value`, least significant first.
pub fn to_le(value: u64, n: usize) -> (bytes: Vec<u8>)
    ensures
        bytes@ == le_bytes(value as nat, n as nat),
        bytes@.len() == n,
{
    let mut bytes: Vec<u8> = Vec::new();
    let mut rest: u64 = value;
    let mut i: usize = 0;
    while i < n
        invariant
            i <= n,
            bytes@.len() == i,
            bytes@ + le_bytes(rest as nat, (n - i) as nat) == le_bytes(value as nat, n as nat),
        decreases n - i,
    {
        let byte: u8 = (rest % 256) as u8;
        let ghost before = bytes@;
        bytes.push(byte);
        proof {
            assert(le_bytes(rest as nat, (n - i) as nat) == seq![byte] + le_bytes(
                rest as nat / 256,
                (n - i - 1) as nat,
            ));
            assert(bytes@ + le_bytes(rest as nat / 256, (n - i - 1) as nat) =~= before + le_bytes(
                rest as nat,
                (n - i) as nat,
            ));
        }
        rest = rest / 256;
        i = i + 1;
    }
    proof {
        assert(bytes@ + Seq::<u8>::empty() =~= bytes@);
    }
    bytes
}

/// The value of the `n` bytes of `bytes` that start at `at`.
pub fn from_le(bytes: &[u8], at: usize, n: usize) -> (value: u64)
    requires
        n <= 8,
        at + n <= bytes@.len(),
    ensures
        value as nat == le_value(bytes@.subrange(at as int, at + n)),
{
    let mut value: u64 = 0;
    let mut i: usize = n;
    while i > 0
        invariant
            i <= n <= 8,
            at + n <= bytes@.len(),
            value as nat == le_value(bytes@.subrange(at + i, at + n)),
        decreases i,
    {
        i = i - 1;
        assert(bytes@.len() == bytes.len());
        proof {
            let tail = bytes@.subrange(at + i + 1, at + n);
            let whole = bytes@.subrange(at + i, at + n);
            lemma_le_value_bound(tail);
            lemma_le_limits();
            assert(whole.drop_first() =~= tail);
        }
        value = value * 256 + bytes[at + i] as u64;
    }
    value
}

/// A byte put behind the others is worth more than all of them: it counts in
/// units of 256 to the power of its position.
pub proof fn law_le_value_append(s: Seq<u8>, b: u8)
    ensures
        le_value(Seq::empty()) == 0,
        le_value(s.push(b)) == le_value(s) + pow(256, s.len()) * b,
    decreases s.len(),
{
    reveal(pow);
    if s.len() == 0 {
        assert(s.push(b).drop_first() =~= Seq::<u8>::empty());
    } else {
        let rest = s.drop_first();
        law_le_value_append(rest, b);
        assert(s.push(b).drop_first() =~= rest.push(b));
        assert(256 * (le_value(rest) + pow(256, rest.len()) * b) == 256 * le_value(rest) + (256
            * pow(256, rest.len())) * b) by (nonlinear_arith);
    }
}

/// The numbers of two, four and eight bytes, written out.
pub proof fn law_le_widths(s: Seq<u8>)
    ensures
        s.len() == 2 ==> le_value(s) == s[0] + 0x100 * s[1],
        s.len() == 4 ==> le_value(s) == s[0] + 0x100 * s[1] + 0x1_0000 * s[2] + 0x100_0000 * s[3],
        s.len() == 8 ==> le_value(s) == s[0] + 0x100 * s[1] + 0x1_0000 * s[2] + 0x100_0000 * s[3]
            + 0x1_0000_0000 * s[4] + 0x100_0000_0000 * s[5] + 0x1_0000_0000_0000 * s[6]
            + 0x100_0000_0000_0000 * s[7],
{
    reveal_with_fuel(le_value, 9);
}

/// Byte number `i` of an encoded number is its digit of weight 256 to the power
/// of `i`.
pub proof fn law_le_bytes_places(v: nat, n: nat, i: nat)
    requires
        i < n,
    ensures
        le_bytes(v, n).len() == n,
        le_bytes(v, n)[i as int] as int == (v as int / pow(256, i)) % 256,
    decreases n,
{
    reveal(pow);
    lemma_le_bytes_len(v, n);
    let rest = le_bytes(v / 256, (n - 1) as nat);
    if i > 0 {
        let j = (i - 1) as nat;
        law_le_bytes_places(v / 256, (n - 1) as nat, j);
        lemma_le_bytes_len(v / 256, (n - 1) as nat);
        assert(le_bytes(v, n)[i as int] == rest[j as int]);
        lemma_pow_positive(256, j);
        lemma_div_denominator(v as int, 256, pow(256, j));
    }
}

} // verus!
