//! Plain words for bytes and digits.

use vstd::prelude::*;

use crate::text::{decimal, hex_text, lower_text, trimmed};
use crate::wire::be64;

verus! {

/// The number that bytes spell, most significant first.
pub open spec fn number(bytes: Seq<u8>) -> nat
    decreases bytes.len(),
{
    if bytes.len() == 0 {
        0
    } else {
        number(bytes.drop_last()) * 256 + bytes.last() as nat
    }
}

/// The bytes from one place up to another.
pub open spec fn part(bytes: Seq<u8>, from: int, to: int) -> Seq<u8> {
    bytes.subrange(from, to)
}

/// The bytes from one place on.
pub open spec fn from(bytes: Seq<u8>, at: int) -> Seq<u8> {
    bytes.subrange(at, bytes.len() as int)
}

/// The number that two, four or eight bytes spell.
pub proof fn lemma_number(bytes: Seq<u8>)
    ensures
        bytes.len() == 2 ==> number(bytes) == bytes[0] * 256 + bytes[1],
        bytes.len() == 4 ==> number(bytes) == bytes[0] * 16777216 + bytes[1] * 65536 + bytes[2] * 256
            + bytes[3],
        bytes.len() == 8 ==> number(bytes) == bytes[0] * 72057594037927936 + bytes[1]
            * 281474976710656 + bytes[2] * 1099511627776 + bytes[3] * 4294967296 + bytes[4]
            * 16777216 + bytes[5] * 65536 + bytes[6] * 256 + bytes[7],
{
    reveal_with_fuel(number, 9);
}

/// The eight bytes of a number spell it.
pub proof fn lemma_eight(x: u64)
    ensures
        number(be64(x)) == x,
{
    let b = be64(x);
    let x1: u64 = x / 256;
    let x2: u64 = x1 / 256;
    let x3: u64 = x2 / 256;
    let x4: u64 = x3 / 256;
    let x5: u64 = x4 / 256;
    let x6: u64 = x5 / 256;
    let x7: u64 = x6 / 256;
    assert(x / 0x1_0000 == x2);
    assert(x / 0x100_0000 == x3);
    assert(x / 0x1_0000_0000 == x4);
    assert(x / 0x100_0000_0000 == x5);
    assert(x / 0x1_0000_0000_0000 == x6);
    assert(x / 0x100_0000_0000_0000 == x7);
    assert(x7 < 256);
    lemma_next(b, 0, 0, x7 as nat);
    lemma_next(b, 1, x7 as nat, x6 as nat);
    lemma_next(b, 2, x6 as nat, x5 as nat);
    lemma_next(b, 3, x5 as nat, x4 as nat);
    lemma_next(b, 4, x4 as nat, x3 as nat);
    lemma_next(b, 5, x3 as nat, x2 as nat);
    lemma_next(b, 6, x2 as nat, x1 as nat);
    lemma_next(b, 7, x1 as nat, x as nat);
    assert(b.subrange(0, 8) =~= b);
}

/// One byte more.
proof fn lemma_next(b: Seq<u8>, i: int, m: nat, n: nat)
    requires
        0 <= i < b.len(),
        number(b.subrange(0, i)) == m,
        n == m * 256 + b[i],
    ensures
        number(b.subrange(0, i + 1)) == n,
{
    assert(b.subrange(0, i + 1).drop_last() =~= b.subrange(0, i));
}

/// The number that decimal digits spell.
pub open spec fn value_of(digits: Seq<char>) -> nat
    decreases digits.len(),
{
    if digits.len() == 0 {
        0
    } else {
        (value_of(digits.drop_last()) * 10 + (digits.last() as int - '0' as int)) as nat
    }
}

/// Whether a text is a number in decimal, without zeros in front.
pub open spec fn spells(digits: Seq<char>, n: nat) -> bool {
    &&& digits.len() > 0
    &&& forall|i: int| 0 <= i < digits.len() ==> '0' <= #[trigger] digits[i] <= '9'
    &&& digits.len() > 1 ==> digits[0] != '0'
    &&& value_of(digits) == n
}

/// Numbers are written in decimal.
pub proof fn lemma_spelled(n: nat)
    ensures
        spells(decimal(n), n),
        n > 0 ==> decimal(n)[0] != '0',
    decreases n,
{
    reveal_with_fuel(value_of, 2);
    let d = decimal(n);
    if n < 10 {
        assert(d.drop_last() =~= Seq::empty());
    } else {
        lemma_spelled(n / 10);
        assert(d.drop_last() =~= decimal(n / 10));
        assert forall|i: int| 0 <= i < d.len() implies '0' <= #[trigger] d[i] <= '9' by {
            if i < d.len() - 1 {
                assert(d[i] == decimal(n / 10)[i]);
            }
        }
        assert(d[0] == decimal(n / 10)[0]);
        assert(n / 10 * 10 + n % 10 == n);
    }
}

/// A number is written in one way only.
pub proof fn lemma_spelled_once(a: Seq<char>, b: Seq<char>)
    requires
        spells(a, value_of(a)),
        spells(b, value_of(b)),
        value_of(a) == value_of(b),
    ensures
        a == b,
    decreases a.len() + b.len(),
{
    reveal_with_fuel(value_of, 2);
    lemma_magnitude(a);
    lemma_magnitude(b);
    let (p, q) = (a.drop_last(), b.drop_last());
    assert('0' <= a[a.len() - 1] <= '9' && '0' <= b[b.len() - 1] <= '9');
    if a.len() == 1 || b.len() == 1 {
        if a.len() == 1 && b.len() > 1 {
            lemma_magnitude(q);
            assert(q[0] == b[0]);
            assert(value_of(q) >= 1);
        }
        if b.len() == 1 && a.len() > 1 {
            lemma_magnitude(p);
            assert(p[0] == a[0]);
            assert(value_of(p) >= 1);
        }
        assert(p =~= Seq::empty() && q =~= Seq::empty());
        assert(a =~= b);
    } else {
        lemma_shorter(a);
        lemma_shorter(b);
        assert(value_of(p) == value_of(q));
        lemma_spelled_once(p, q);
        assert(a =~= p.push(a.last()));
        assert(b =~= q.push(b.last()));
    }
}

/// Digits without the last one are still digits.
proof fn lemma_shorter(a: Seq<char>)
    requires
        a.len() > 1,
        spells(a, value_of(a)),
    ensures
        spells(a.drop_last(), value_of(a.drop_last())),
{
    let p = a.drop_last();
    assert(p[0] == a[0]);
    assert forall|i: int| 0 <= i < p.len() implies '0' <= #[trigger] p[i] <= '9' by {
        assert(p[i] == a[i]);
    }
}

/// Digits that do not begin with a zero spell a number that is none.
proof fn lemma_magnitude(a: Seq<char>)
    requires
        a.len() > 0,
        forall|i: int| 0 <= i < a.len() ==> '0' <= #[trigger] a[i] <= '9',
    ensures
        a[0] != '0' ==> value_of(a) >= 1,
    decreases a.len(),
{
    let p = a.drop_last();
    assert('0' <= a[a.len() - 1] <= '9');
    if a.len() > 1 {
        assert forall|i: int| 0 <= i < p.len() implies '0' <= #[trigger] p[i] <= '9' by {
            assert(p[i] == a[i]);
        }
        lemma_magnitude(p);
        assert(p[0] == a[0]);
    } else {
        assert(p =~= Seq::empty());
        assert(a.last() == a[0]);
    }
}

/// Whether a character is white space: the Unicode property White_Space.
pub open spec fn is_white(c: char) -> bool {
    let n = c as u32;
    ||| n == 0x09
    ||| n == 0x0a
    ||| n == 0x0b
    ||| n == 0x0c
    ||| n == 0x0d
    ||| n == 0x20
    ||| n == 0x85
    ||| n == 0xa0
    ||| n == 0x1680
    ||| 0x2000 <= n <= 0x200a
    ||| n == 0x2028
    ||| n == 0x2029
    ||| n == 0x202f
    ||| n == 0x205f
    ||| n == 0x3000
}

/// Whether a text goes from here to there once white space around it is left out.
pub open spec fn is_inside(s: Seq<char>, a: int, b: int) -> bool {
    &&& 0 <= a <= b <= s.len()
    &&& forall|i: int| 0 <= i < a || b <= i < s.len() ==> is_white(#[trigger] s[i])
    &&& a < b ==> !is_white(s[a]) && !is_white(s[b - 1])
}

/// Whether a text is another one without the white space around it.
pub open spec fn is_trim(out: Seq<char>, s: Seq<char>) -> bool {
    exists|a: int, b: int| #[trigger] is_inside(s, a, b) && out == s.subrange(a, b)
}

/// White space around a text is left out.
pub proof fn lemma_trimmed(s: Seq<char>)
    ensures
        is_trim(trimmed(s), s),
    decreases s.len(),
{
    let n = s.len() as int;
    if n == 0 {
        assert(is_inside(s, 0, 0));
        assert(s =~= s.subrange(0, 0));
    } else if is_white(s.first()) {
        let rest = s.drop_first();
        lemma_trimmed(rest);
        let (a, b) = choose|a: int, b: int| #[trigger]
            is_inside(rest, a, b) && trimmed(rest) == rest.subrange(a, b);
        assert forall|i: int| 0 <= i < a + 1 || b + 1 <= i < n implies is_white(#[trigger] s[i]) by {
            if i > 0 {
                assert(rest[i - 1] == s[i]);
            }
        }
        assert(is_inside(s, a + 1, b + 1));
        assert(rest.subrange(a, b) =~= s.subrange(a + 1, b + 1));
    } else if is_white(s.last()) {
        let rest = s.drop_last();
        lemma_trimmed(rest);
        let (a, b) = choose|a: int, b: int| #[trigger]
            is_inside(rest, a, b) && trimmed(rest) == rest.subrange(a, b);
        assert forall|i: int| 0 <= i < a || b <= i < n implies is_white(#[trigger] s[i]) by {
            if i < n - 1 {
                assert(rest[i] == s[i]);
            }
        }
        assert(is_inside(s, a, b));
        assert(rest.subrange(a, b) =~= s.subrange(a, b));
    } else {
        assert(is_inside(s, 0, n));
        assert(s =~= s.subrange(0, n));
    }
}

/// Whether a text is another one with its ASCII letters in lower case.
pub open spec fn is_lower(out: Seq<char>, s: Seq<char>) -> bool {
    &&& out.len() == s.len()
    &&& forall|i: int|
        0 <= i < s.len() ==> #[trigger] out[i] as int == (if 65 <= s[i] as int <= 90 {
            s[i] as int + 32
        } else {
            s[i] as int
        })
}

/// ASCII letters get their lower case.
pub proof fn lemma_lowered(s: Seq<char>)
    ensures
        is_lower(lower_text(s), s),
{
}

/// The hexadecimal digit of a number below sixteen.
pub open spec fn is_digit(c: char, n: int) -> bool {
    &&& 0 <= n < 16
    &&& n < 10 ==> c as int == '0' as int + n
    &&& n >= 10 ==> c as int == 'a' as int + n - 10
}

/// Whether a text has two hexadecimal digits for each byte, the higher one first.
pub open spec fn is_hex(text: Seq<char>, bytes: Seq<u8>) -> bool {
    &&& text.len() == 2 * bytes.len()
    &&& forall|i: int|
        0 <= i < bytes.len() ==> is_digit(text[2 * i], (#[trigger] bytes[i]) as int / 16) && is_digit(
            text[2 * i + 1],
            bytes[i] as int % 16,
        )
}

/// Bytes are written with two digits each.
pub proof fn lemma_hex(bytes: Seq<u8>)
    ensures
        is_hex(hex_text(bytes), bytes),
{
    let t = hex_text(bytes);
    assert forall|i: int| 0 <= i < bytes.len() implies is_digit(
        t[2 * i],
        (#[trigger] bytes[i]) as int / 16,
    ) && is_digit(t[2 * i + 1], bytes[i] as int % 16) by {
        assert((2 * i) / 2 == i && (2 * i) % 2 == 0);
        assert((2 * i + 1) / 2 == i && (2 * i + 1) % 2 == 1);
    }
}

} // verus!
