//! Text as bytes: literals and numbers.

use vstd::prelude::*;
use vstd::utf8::{
    decode_utf8, encode_utf8, encode_utf8_decode_utf8, encode_utf8_valid_utf8, is_ascii_chars,
    is_ascii_chars_encode_utf8, valid_utf8,
};

verus! {

/// The bytes of a string.
pub open spec fn text(s: &str) -> Seq<u8> {
    encode_utf8(s@)
}

/// The character of one digit: `0` to `9`, then `a` on.
pub open spec fn digit(d: nat) -> u8 {
    if d < 10 {
        (48 + d) as u8
    } else {
        (87 + d) as u8
    }
}

/// The digits of `n`, most significant first, without leading zeros.
pub open spec fn digits(n: nat, radix: nat) -> Seq<u8>
    decreases n,
{
    if radix < 2 || n < radix {
        seq![digit(n)]
    } else {
        proof {
            assert(n / radix < n) by (nonlinear_arith)
                requires
                    n >= radix,
                    radix >= 2,
            ;
        }
        digits(n / radix, radix).push(digit(n % radix))
    }
}

/// A number in decimal, with a minus sign where it is negative.
pub open spec fn decimal(n: int) -> Seq<u8> {
    if n < 0 {
        seq![45u8] + digits((-n) as nat, 10)
    } else {
        digits(n as nat, 10)
    }
}

/// A number in hexadecimal with its prefix.
pub open spec fn hex(n: nat) -> Seq<u8> {
    seq![48u8, 120u8] + digits(n, 16)
}

/// Appends the bytes of a string.
pub fn push_str(out: &mut Vec<u8>, s: &str)
    ensures
        final(out)@ == old(out)@ + text(s),
{
    push_bytes(out, s.as_bytes());
}

/// Appends bytes.
pub fn push_bytes(out: &mut Vec<u8>, bytes: &[u8])
    ensures
        final(out)@ == old(out)@ + bytes@,
{
    let mut i: usize = 0;
    proof {
        assert(out@ + bytes@.take(0) =~= out@);
    }
    while i < bytes.len()
        invariant
            i <= bytes@.len(),
            out@ == old(out)@ + bytes@.take(i as int),
        decreases bytes@.len() - i,
    {
        out.push(bytes[i]);
        i = i + 1;
        proof {
            assert(out@ =~= old(out)@ + bytes@.take(i as int));
        }
    }
    proof {
        assert(bytes@.take(i as int) =~= bytes@);
    }
}

fn push_digits(out: &mut Vec<u8>, n: u64, radix: u64)
    requires
        2 <= radix <= 16,
    ensures
        final(out)@ == old(out)@ + digits(n as nat, radix as nat),
    decreases n,
{
    let low: u64 = n % radix;
    if n >= radix {
        assert(n / radix < n) by (nonlinear_arith)
            requires
                n >= radix,
                radix >= 2,
        ;
        push_digits(out, n / radix, radix);
    } else {
        assert(n % radix == n) by (nonlinear_arith)
            requires
                n < radix,
        ;
    }
    assert(low < radix) by (nonlinear_arith)
        requires
            low == n % radix,
            radix >= 2,
    ;
    let c: u8 = if low < 10 {
        48 + low as u8
    } else {
        87 + low as u8
    };
    out.push(c);
    proof {
        assert(out@ =~= old(out)@ + digits(n as nat, radix as nat));
    }
}

/// Appends a number in decimal.
pub fn push_decimal(out: &mut Vec<u8>, n: i64)
    ensures
        final(out)@ == old(out)@ + decimal(n as int),
{
    if n < 0 {
        out.push(45);
        let magnitude: u64 = (-(n as i128)) as u64;
        push_digits(out, magnitude, 10);
        proof {
            assert(out@ =~= old(out)@ + decimal(n as int));
        }
    } else {
        push_digits(out, n as u64, 10);
    }
}

/// Appends an unsigned number in decimal.
pub fn push_unsigned(out: &mut Vec<u8>, n: u64)
    ensures
        final(out)@ == old(out)@ + decimal(n as int),
{
    push_digits(out, n, 10);
}

/// Appends a number in hexadecimal, prefix first.
pub fn push_hex(out: &mut Vec<u8>, n: u64)
    ensures
        final(out)@ == old(out)@ + hex(n as nat),
{
    out.push(48);
    out.push(120);
    push_digits(out, n, 16);
    proof {
        assert(out@ =~= old(out)@ + hex(n as nat));
    }
}

/// What a character stands for as a digit; 16 where it is none.
pub open spec fn digit_value(c: u8) -> nat {
    if 0x30 <= c <= 0x39 {
        (c - 0x30) as nat
    } else if 0x61 <= c <= 0x66 {
        (c - 0x61 + 10) as nat
    } else {
        16
    }
}

/// The number that a reader makes of a row of digits.
pub open spec fn read_number(s: Seq<u8>, radix: nat) -> nat
    decreases s.len(),
{
    if s.len() == 0 {
        0
    } else {
        read_number(s.drop_last(), radix) * radix + digit_value(s.last())
    }
}

/// The characters are digits of the radix, at least one, with a zero in front
/// only where it is the only one, and read as `n`.
pub open spec fn reads_as(s: Seq<u8>, radix: nat, n: nat) -> bool {
    &&& s.len() > 0
    &&& forall|i: int| 0 <= i < s.len() ==> digit_value(#[trigger] s[i]) < radix
    &&& s.len() > 1 ==> s[0] != 0x30
    &&& read_number(s, radix) == n
}

/// A number in decimal or hexadecimal digits reads as that number.
pub proof fn law_digits_read_back(n: nat, radix: nat)
    requires
        radix == 10 || radix == 16,
    ensures
        reads_as(digits(n, radix), radix, n),
        n > 0 ==> digits(n, radix)[0] != 0x30,
    decreases n,
{
    let s = digits(n, radix);
    if n < radix {
        assert(s.drop_last() =~= Seq::<u8>::empty());
        assert(read_number(Seq::<u8>::empty(), radix) == 0);
        assert(0 * radix == 0) by (nonlinear_arith);
    } else {
        let low = n % radix;
        assert(n / radix < n && n / radix > 0 && low < radix && (n / radix) * radix + low == n)
            by (nonlinear_arith)
            requires
                n >= radix,
                radix >= 2,
                low == n % radix,
        ;
        law_digits_read_back(n / radix, radix);
        let upper = digits(n / radix, radix);
        assert(s.drop_last() =~= upper);
        assert(digit_value(digit(low)) == low);
        assert forall|i: int| 0 <= i < s.len() implies digit_value(#[trigger] s[i]) < radix by {
            if i < upper.len() {
                assert(s[i] == upper[i]);
            }
        }
        assert(s[0] == upper[0]);
    }
}

/// Numbers as they are printed: a negative one with a minus sign before its
/// digits, one in hexadecimal with `0x` before them, and the digits read as the
/// number.
pub proof fn law_numbers_read_back(n: int)
    ensures
        n >= 0 ==> reads_as(decimal(n), 10, n as nat),
        n < 0 ==> decimal(n)[0] == 0x2d && reads_as(decimal(n).skip(1), 10, (-n) as nat),
        n >= 0 ==> hex(n as nat)[0] == 0x30 && hex(n as nat)[1] == 0x78 && reads_as(
            hex(n as nat).skip(2),
            16,
            n as nat,
        ),
{
    if n >= 0 {
        law_digits_read_back(n as nat, 10);
        law_digits_read_back(n as nat, 16);
        assert(hex(n as nat).skip(2) =~= digits(n as nat, 16));
    } else {
        law_digits_read_back((-n) as nat, 10);
        assert(decimal(n).skip(1) =~= digits((-n) as nat, 10));
    }
}

/// The bytes of a string are its encoding: they decode to its characters, and are
/// its characters one by one where these are plain ASCII.
pub proof fn law_text(s: &str)
    ensures
        valid_utf8(text(s)),
        decode_utf8(text(s)) == s@,
        is_ascii_chars(s@) ==> text(s).len() == s@.len() && forall|i: int|
            0 <= i < s@.len() ==> #[trigger] text(s)[i] == s@[i] as u8,
{
    encode_utf8_valid_utf8(s@);
    encode_utf8_decode_utf8(s@);
    if is_ascii_chars(s@) {
        is_ascii_chars_encode_utf8(s@);
    }
}

/// A line that consists of a head, a number in the given radix and a line feed.
/// In hexadecimal `0x` stands before the digits.
pub open spec fn is_number_line(line: Seq<u8>, head: Seq<u8>, radix: nat, n: nat) -> bool {
    let from = if radix == 16 {
        head.len() + 2
    } else {
        head.len()
    } as int;
    &&& line.len() > from
    &&& line.take(head.len() as int) == head
    &&& radix == 16 ==> line[head.len() as int] == 0x30 && line[head.len() as int + 1] == 0x78
    &&& reads_as(line.subrange(from, line.len() - 1), radix, n)
    &&& line.last() == 10
}

/// A head, a number and a line feed make such a line.
pub proof fn lemma_number_line(head: Seq<u8>, n: nat)
    ensures
        is_number_line(head + decimal(n as int) + seq![10u8], head, 10, n),
        is_number_line(head + hex(n) + seq![10u8], head, 16, n),
{
    law_numbers_read_back(n as int);
    let line = head + decimal(n as int) + seq![10u8];
    assert(line.take(head.len() as int) =~= head);
    assert(line.subrange(head.len() as int, line.len() - 1) =~= decimal(n as int));
    let hexed = head + hex(n) + seq![10u8];
    assert(hexed.take(head.len() as int) =~= head);
    assert(hexed.subrange(head.len() as int + 2, hexed.len() - 1) =~= hex(n).skip(2));
    assert(hexed[head.len() as int] == hex(n)[0] && hexed[head.len() as int + 1] == hex(n)[1]);
}

} // verus!
