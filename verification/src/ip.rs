//! Conversion between dotted-quad IPv4 strings and their numeric index.
//!
//! The numeric index of `a.b.c.d` is the big-endian 32-bit value
//! `(a<<24) | (b<<16) | (c<<8) | d`. A dotted quad is canonical when each
//! octet is written in decimal with no leading zeros.

use vstd::prelude::*;
use crate::error::ScanError;

verus! {

/// `c` is a decimal digit.
pub open spec fn is_digit_char(c: char) -> bool {
    48 <= c as u32 && c as u32 <= 57
}

/// Numeric value of a decimal digit character.
pub open spec fn digit_val(c: char) -> int {
    c as u32 - 48
}

/// The decimal digit character for a value below ten.
pub open spec fn digit_char(d: int) -> char {
    if d == 0 {
        '0'
    } else if d == 1 {
        '1'
    } else if d == 2 {
        '2'
    } else if d == 3 {
        '3'
    } else if d == 4 {
        '4'
    } else if d == 5 {
        '5'
    } else if d == 6 {
        '6'
    } else if d == 7 {
        '7'
    } else if d == 8 {
        '8'
    } else {
        '9'
    }
}

/// Every character of `s` is a decimal digit.
pub open spec fn all_digits(s: Seq<char>) -> bool {
    forall|i: int| 0 <= i < s.len() ==> is_digit_char(#[trigger] s[i])
}

/// Value of a string of decimal digits.
pub open spec fn digits_val(s: Seq<char>) -> int
    decreases s.len(),
{
    if s.len() == 0 {
        0
    } else {
        digits_val(s.drop_last()) * 10 + digit_val(s.last())
    }
}

/// `s` is the canonical decimal form of one octet: one to three digits,
/// no leading zero, value at most 255.
pub open spec fn is_canon_octet(s: Seq<char>) -> bool {
    &&& 1 <= s.len() <= 3
    &&& all_digits(s)
    &&& (s.len() > 1 ==> s[0] != '0')
    &&& digits_val(s) <= 255
}

/// Canonical decimal form of an octet value.
pub open spec fn octet_str(v: int) -> Seq<char> {
    if v < 10 {
        seq![digit_char(v)]
    } else if v < 100 {
        seq![digit_char(v / 10), digit_char(v % 10)]
    } else {
        seq![digit_char(v / 100), digit_char((v / 10) % 10), digit_char(v % 10)]
    }
}

/// Byte `k` of the index `n`, counting from the high end (`k` in `0..4`).
pub open spec fn ipv4_byte(n: u32, k: int) -> int {
    if k == 0 {
        ((n >> 24) & 0xFF) as int
    } else if k == 1 {
        ((n >> 16) & 0xFF) as int
    } else if k == 2 {
        ((n >> 8) & 0xFF) as int
    } else {
        (n & 0xFF) as int
    }
}

/// Canonical dotted-quad string of the index `n`.
pub open spec fn ipv4_str(n: u32) -> Seq<char> {
    octet_str(ipv4_byte(n, 0)) + seq!['.'] + octet_str(ipv4_byte(n, 1)) + seq!['.'] + octet_str(
        ipv4_byte(n, 2),
    ) + seq!['.'] + octet_str(ipv4_byte(n, 3))
}

/// `s` is a canonical dotted quad.
pub open spec fn is_canon_ipv4(s: Seq<char>) -> bool {
    exists|n: u32| s == ipv4_str(n)
}

/// A decimal digit character carries its own value.
proof fn lemma_digit_char_val(c: char)
    requires
        is_digit_char(c),
    ensures
        digit_char(digit_val(c)) == c,
        0 <= digit_val(c) <= 9,
{
}

/// `digit_char` is a digit and `'0'` exactly at zero.
proof fn lemma_digit_char_props(d: int)
    requires
        0 <= d <= 9,
    ensures
        is_digit_char(digit_char(d)),
        digit_val(digit_char(d)) == d,
        d != 0 ==> digit_char(d) != '0',
{
}

/// The canonical form of an octet value is a canonical octet string with
/// that value.
pub proof fn lemma_octet_str_props(v: int)
    requires
        0 <= v <= 255,
    ensures
        is_canon_octet(octet_str(v)),
        digits_val(octet_str(v)) == v,
        v < 10 ==> octet_str(v).len() == 1,
        10 <= v < 100 ==> octet_str(v).len() == 2,
        100 <= v ==> octet_str(v).len() == 3,
{
    if v < 10 {
        lemma_digit_char_props(v);
        let s = octet_str(v);
        assert(s.drop_last() =~= Seq::<char>::empty());
        assert(digits_val(s) == digits_val(s.drop_last()) * 10 + digit_val(s.last()));
    } else if v < 100 {
        let hi = v / 10;
        let lo = v % 10;
        assert(1 <= hi <= 9 && 0 <= lo <= 9 && v == hi * 10 + lo) by (nonlinear_arith)
            requires
                10 <= v < 100,
                hi == v / 10,
                lo == v % 10,
        ;
        lemma_digit_char_props(hi);
        lemma_digit_char_props(lo);
        let s = octet_str(v);
        let t = seq![digit_char(hi)];
        assert(s.drop_last() =~= t);
        assert(t.drop_last() =~= Seq::<char>::empty());
        assert(digits_val(Seq::<char>::empty()) == 0);
        assert(digits_val(t) == digits_val(t.drop_last()) * 10 + digit_val(t.last()));
        assert(digits_val(s) == digits_val(s.drop_last()) * 10 + digit_val(s.last()));
        assert(digits_val(s) == hi * 10 + lo);
    } else {
        let a = v / 100;
        let b = (v / 10) % 10;
        let c = v % 10;
        assert(1 <= a <= 2 && 0 <= b <= 9 && 0 <= c <= 9 && v == a * 100 + b * 10 + c)
            by (nonlinear_arith)
            requires
                100 <= v <= 255,
                a == v / 100,
                b == (v / 10) % 10,
                c == v % 10,
        ;
        lemma_digit_char_props(a);
        lemma_digit_char_props(b);
        lemma_digit_char_props(c);
        let s = octet_str(v);
        let t1 = seq![digit_char(a)];
        let t2 = seq![digit_char(a), digit_char(b)];
        assert(s.drop_last() =~= t2);
        assert(t2.drop_last() =~= t1);
        assert(t1.drop_last() =~= Seq::<char>::empty());
        assert(digits_val(Seq::<char>::empty()) == 0);
        assert(digits_val(t1) == digits_val(t1.drop_last()) * 10 + digit_val(t1.last()));
        assert(digits_val(t2) == digits_val(t2.drop_last()) * 10 + digit_val(t2.last()));
        assert(digits_val(s) == digits_val(s.drop_last()) * 10 + digit_val(s.last()));
        assert(digits_val(s) == (a * 10 + b) * 10 + c);
    }
}

/// A canonical octet string is the canonical form of its value: the octet
/// codec is injective.
pub proof fn lemma_canon_octet_unique(s: Seq<char>)
    requires
        is_canon_octet(s),
    ensures
        0 <= digits_val(s) <= 255,
        s == octet_str(digits_val(s)),
{
    assert(digits_val(Seq::<char>::empty()) == 0);
    if s.len() == 1 {
        lemma_digit_char_val(s[0]);
        assert(s.drop_last() =~= Seq::<char>::empty());
        assert(digits_val(s) == digits_val(s.drop_last()) * 10 + digit_val(s.last()));
        assert(digits_val(s) == digit_val(s[0]));
        assert(s =~= octet_str(digits_val(s)));
    } else if s.len() == 2 {
        let a = digit_val(s[0]);
        let b = digit_val(s[1]);
        lemma_digit_char_val(s[0]);
        lemma_digit_char_val(s[1]);
        assert(a >= 1);
        let t = seq![s[0]];
        assert(s.drop_last() =~= t);
        assert(t.drop_last() =~= Seq::<char>::empty());
        assert(digits_val(t) == digits_val(t.drop_last()) * 10 + digit_val(t.last()));
        assert(digits_val(t) == a);
        let v = digits_val(s);
        assert(v == digits_val(s.drop_last()) * 10 + digit_val(s.last()));
        assert(v == a * 10 + b);
        assert(10 <= v < 100 && v / 10 == a && v % 10 == b) by (nonlinear_arith)
            requires
                v == a * 10 + b,
                1 <= a <= 9,
                0 <= b <= 9,
        ;
        assert(s =~= octet_str(v));
    } else {
        let a = digit_val(s[0]);
        let b = digit_val(s[1]);
        let c = digit_val(s[2]);
        lemma_digit_char_val(s[0]);
        lemma_digit_char_val(s[1]);
        lemma_digit_char_val(s[2]);
        assert(a >= 1);
        let t1 = seq![s[0]];
        let t2 = seq![s[0], s[1]];
        assert(s.drop_last() =~= t2);
        assert(t2.drop_last() =~= t1);
        assert(t1.drop_last() =~= Seq::<char>::empty());
        assert(digits_val(t1) == digits_val(t1.drop_last()) * 10 + digit_val(t1.last()));
        assert(digits_val(t1) == a);
        assert(digits_val(t2) == digits_val(t2.drop_last()) * 10 + digit_val(t2.last()));
        assert(digits_val(t2) == a * 10 + b);
        let v = digits_val(s);
        assert(v == digits_val(s.drop_last()) * 10 + digit_val(s.last()));
        assert(v == (a * 10 + b) * 10 + c);
        assert(100 <= v && v / 100 == a && (v / 10) % 10 == b && v % 10 == c) by (nonlinear_arith)
            requires
                v == (a * 10 + b) * 10 + c,
                1 <= a <= 9,
                0 <= b <= 9,
                0 <= c <= 9,
        ;
        assert(s =~= octet_str(v));
    }
}

/// Value of a digit string of one to three characters, written out.
proof fn lemma_digits_val_small(t: Seq<char>)
    requires
        1 <= t.len() <= 3,
    ensures
        t.len() == 1 ==> digits_val(t) == digit_val(t[0]),
        t.len() == 2 ==> digits_val(t) == digit_val(t[0]) * 10 + digit_val(t[1]),
        t.len() == 3 ==> digits_val(t) == (digit_val(t[0]) * 10 + digit_val(t[1])) * 10
            + digit_val(t[2]),
{
    assert(digits_val(Seq::<char>::empty()) == 0);
    if t.len() == 1 {
        assert(t.drop_last() =~= Seq::<char>::empty());
        assert(digits_val(t) == digits_val(t.drop_last()) * 10 + digit_val(t.last()));
    } else if t.len() == 2 {
        let t1 = seq![t[0]];
        assert(t.drop_last() =~= t1);
        assert(t1.drop_last() =~= Seq::<char>::empty());
        assert(digits_val(t1) == digits_val(t1.drop_last()) * 10 + digit_val(t1.last()));
        assert(digits_val(t) == digits_val(t.drop_last()) * 10 + digit_val(t.last()));
    } else {
        let t1 = seq![t[0]];
        let t2 = seq![t[0], t[1]];
        assert(t.drop_last() =~= t2);
        assert(t2.drop_last() =~= t1);
        assert(t1.drop_last() =~= Seq::<char>::empty());
        assert(digits_val(t1) == digits_val(t1.drop_last()) * 10 + digit_val(t1.last()));
        assert(digits_val(t2) == digits_val(t2.drop_last()) * 10 + digit_val(t2.last()));
        assert(digits_val(t) == digits_val(t.drop_last()) * 10 + digit_val(t.last()));
    }
}

/// Offset of the first separator in the canonical form of `n`.
pub open spec fn dot1(n: u32) -> int {
    octet_str(ipv4_byte(n, 0)).len() as int
}

/// Offset of the second separator in the canonical form of `n`.
pub open spec fn dot2(n: u32) -> int {
    dot1(n) + 1 + octet_str(ipv4_byte(n, 1)).len()
}

/// Offset of the third separator in the canonical form of `n`.
pub open spec fn dot3(n: u32) -> int {
    dot2(n) + 1 + octet_str(ipv4_byte(n, 2)).len()
}

/// Every byte of an index is an octet value.
proof fn lemma_ipv4_byte_bounds(n: u32)
    ensures
        0 <= ipv4_byte(n, 0) <= 255,
        0 <= ipv4_byte(n, 1) <= 255,
        0 <= ipv4_byte(n, 2) <= 255,
        0 <= ipv4_byte(n, 3) <= 255,
{
    assert((n >> 24) & 0xFF < 256 && (n >> 16) & 0xFF < 256 && (n >> 8) & 0xFF < 256 && n & 0xFF
        < 256) by (bit_vector);
}

/// The canonical dotted quad of `n` carries its separators exactly at
/// `dot1`, `dot2`, `dot3`, and its octet substrings are the canonical octet
/// strings of the four bytes of `n`.
pub proof fn lemma_ipv4_str_structure(n: u32)
    ensures
        ipv4_str(n).len() == dot3(n) + 1 + octet_str(ipv4_byte(n, 3)).len(),
        1 <= dot1(n) && dot1(n) + 2 <= dot2(n) && dot2(n) + 2 <= dot3(n) && dot3(n) + 2 <= ipv4_str(
            n,
        ).len(),
        forall|i: int|
            0 <= i < ipv4_str(n).len() ==> ((#[trigger] ipv4_str(n)[i] == '.') <==> (i == dot1(n)
                || i == dot2(n) || i == dot3(n))),
        ipv4_str(n).subrange(0, dot1(n)) == octet_str(ipv4_byte(n, 0)),
        ipv4_str(n).subrange(dot1(n) + 1, dot2(n)) == octet_str(ipv4_byte(n, 1)),
        ipv4_str(n).subrange(dot2(n) + 1, dot3(n)) == octet_str(ipv4_byte(n, 2)),
        ipv4_str(n).subrange(dot3(n) + 1, ipv4_str(n).len() as int) == octet_str(ipv4_byte(n, 3)),
{
    lemma_ipv4_byte_bounds(n);
    let a = octet_str(ipv4_byte(n, 0));
    let b = octet_str(ipv4_byte(n, 1));
    let c = octet_str(ipv4_byte(n, 2));
    let d = octet_str(ipv4_byte(n, 3));
    lemma_octet_str_props(ipv4_byte(n, 0));
    lemma_octet_str_props(ipv4_byte(n, 1));
    lemma_octet_str_props(ipv4_byte(n, 2));
    lemma_octet_str_props(ipv4_byte(n, 3));
    let s = ipv4_str(n);
    assert(s =~= a + seq!['.'] + b + seq!['.'] + c + seq!['.'] + d);
    assert(s.len() == a.len() + 1 + b.len() + 1 + c.len() + 1 + d.len());
    assert forall|i: int| 0 <= i < s.len() implies ((#[trigger] s[i] == '.') <==> (i == dot1(n)
        || i == dot2(n) || i == dot3(n))) by {
        if i < dot1(n) {
            assert(s[i] == a[i]);
            assert(is_digit_char(a[i]));
            assert('.' as u32 == 46);
        } else if i == dot1(n) {
            assert(s[i] == '.');
        } else if i < dot2(n) {
            assert(s[i] == b[i - dot1(n) - 1]);
            assert(is_digit_char(b[i - dot1(n) - 1]));
            assert('.' as u32 == 46);
        } else if i == dot2(n) {
            assert(s[i] == '.');
        } else if i < dot3(n) {
            assert(s[i] == c[i - dot2(n) - 1]);
            assert(is_digit_char(c[i - dot2(n) - 1]));
            assert('.' as u32 == 46);
        } else if i == dot3(n) {
            assert(s[i] == '.');
        } else {
            assert(s[i] == d[i - dot3(n) - 1]);
            assert(is_digit_char(d[i - dot3(n) - 1]));
            assert('.' as u32 == 46);
        }
    }
    assert(s.subrange(0, dot1(n)) =~= a);
    assert(s.subrange(dot1(n) + 1, dot2(n)) =~= b);
    assert(s.subrange(dot2(n) + 1, dot3(n)) =~= c);
    assert(s.subrange(dot3(n) + 1, s.len() as int) =~= d);
}

/// The four bytes of an index determine it.
proof fn lemma_bytes_determine(x: u32, y: u32)
    by (bit_vector)
    requires
        (x >> 24) & 0xFF == (y >> 24) & 0xFF,
        (x >> 16) & 0xFF == (y >> 16) & 0xFF,
        (x >> 8) & 0xFF == (y >> 8) & 0xFF,
        x & 0xFF == y & 0xFF,
    ensures
        x == y,
{
}

/// Rebuilding an index from four octet values inverts byte extraction.
proof fn lemma_combine_bytes(a: u32, b: u32, c: u32, d: u32)
    by (bit_vector)
    requires
        a < 256,
        b < 256,
        c < 256,
        d < 256,
    ensures
        (((a << 24) | (b << 16) | (c << 8) | d) >> 24) & 0xFF == a,
        (((a << 24) | (b << 16) | (c << 8) | d) >> 16) & 0xFF == b,
        (((a << 24) | (b << 16) | (c << 8) | d) >> 8) & 0xFF == c,
        ((a << 24) | (b << 16) | (c << 8) | d) & 0xFF == d,
{
}

/// Two indices with the same canonical dotted quad are equal: together with
/// `ipv4_to_index` and `index_to_ipv4` this is the string round trip, since
/// formatting the parsed index of a canonical quad gives that quad back.
pub proof fn lemma_ipv4_str_injective(x: u32, y: u32)
    requires
        ipv4_str(x) == ipv4_str(y),
    ensures
        x == y,
{
    lemma_ipv4_byte_bounds(x);
    lemma_ipv4_byte_bounds(y);
    lemma_ipv4_str_structure(x);
    lemma_ipv4_str_structure(y);
    let s = ipv4_str(x);
    // The separator offsets agree because both are the least, second and
    // third indices holding '.' in the same string.
    assert(dot1(x) == dot1(y)) by {
        if dot1(x) < dot1(y) {
            assert(s[dot1(x)] == '.');
        } else if dot1(y) < dot1(x) {
            assert(s[dot1(y)] == '.');
        }
    }
    assert(dot2(x) == dot2(y)) by {
        if dot2(x) < dot2(y) {
            assert(s[dot2(x)] == '.');
        } else if dot2(y) < dot2(x) {
            assert(s[dot2(y)] == '.');
        }
    }
    assert(dot3(x) == dot3(y)) by {
        if dot3(x) < dot3(y) {
            assert(s[dot3(x)] == '.');
        } else if dot3(y) < dot3(x) {
            assert(s[dot3(y)] == '.');
        }
    }
    lemma_octet_str_props(ipv4_byte(x, 0));
    lemma_octet_str_props(ipv4_byte(x, 1));
    lemma_octet_str_props(ipv4_byte(x, 2));
    lemma_octet_str_props(ipv4_byte(x, 3));
    lemma_octet_str_props(ipv4_byte(y, 0));
    lemma_octet_str_props(ipv4_byte(y, 1));
    lemma_octet_str_props(ipv4_byte(y, 2));
    lemma_octet_str_props(ipv4_byte(y, 3));
    assert(ipv4_byte(x, 0) == ipv4_byte(y, 0)) by {
        assert(digits_val(octet_str(ipv4_byte(x, 0))) == digits_val(octet_str(ipv4_byte(y, 0))));
    }
    assert(ipv4_byte(x, 1) == ipv4_byte(y, 1)) by {
        assert(digits_val(octet_str(ipv4_byte(x, 1))) == digits_val(octet_str(ipv4_byte(y, 1))));
    }
    assert(ipv4_byte(x, 2) == ipv4_byte(y, 2)) by {
        assert(digits_val(octet_str(ipv4_byte(x, 2))) == digits_val(octet_str(ipv4_byte(y, 2))));
    }
    assert(ipv4_byte(x, 3) == ipv4_byte(y, 3)) by {
        assert(digits_val(octet_str(ipv4_byte(x, 3))) == digits_val(octet_str(ipv4_byte(y, 3))));
    }
    assert((x >> 24) & 0xFF == (y >> 24) & 0xFF && (x >> 16) & 0xFF == (y >> 16) & 0xFF && (x >> 8)
        & 0xFF == (y >> 8) & 0xFF && x & 0xFF == y & 0xFF);
    lemma_bytes_determine(x, y);
}

/// One decimal digit as a string slice.
fn digit_str(d: u8) -> (r: &'static str)
    requires
        d < 10,
    ensures
        r@ =~= seq![digit_char(d as int)],
{
    proof {
        reveal_strlit("0");
        reveal_strlit("1");
        reveal_strlit("2");
        reveal_strlit("3");
        reveal_strlit("4");
        reveal_strlit("5");
        reveal_strlit("6");
        reveal_strlit("7");
        reveal_strlit("8");
        reveal_strlit("9");
    }
    match d {
        0 => "0",
        1 => "1",
        2 => "2",
        3 => "3",
        4 => "4",
        5 => "5",
        6 => "6",
        7 => "7",
        8 => "8",
        _ => "9",
    }
}

/// Append the canonical decimal form of one octet.
fn push_octet(s: &mut String, v: u8)
    ensures
        final(s)@ == old(s)@ + octet_str(v as int),
{
    proof {
        lemma_octet_str_props(v as int);
    }
    if v >= 100 {
        assert(v as int / 100 < 10 && (v as int / 10) % 10 < 10 && v as int % 10 < 10);
        s.append(digit_str(v / 100));
        s.append(digit_str((v / 10) % 10));
        s.append(digit_str(v % 10));
        assert(final(s)@ =~= old(s)@ + octet_str(v as int));
    } else if v >= 10 {
        s.append(digit_str(v / 10));
        s.append(digit_str(v % 10));
        assert(final(s)@ =~= old(s)@ + octet_str(v as int));
    } else {
        s.append(digit_str(v));
        assert(final(s)@ =~= old(s)@ + octet_str(v as int));
    }
}

/// First separator at or after `start`, if any.
fn find_dot(s: &str, start: usize) -> (r: Option<usize>)
    requires
        start <= s@.len(),
    ensures
        match r {
            Some(j) => start <= j < s@.len() && s@[j as int] == '.' && (forall|k: int|
                start <= k < j ==> s@[k] != '.'),
            None => forall|k: int| start <= k < s@.len() ==> s@[k] != '.',
        },
{
    let len = s.unicode_len();
    let mut i = start;
    while i < len
        invariant
            start <= i <= len,
            len == s@.len(),
            forall|k: int| start <= k < i ==> s@[k] != '.',
        decreases len - i,
    {
        if s.get_char(i) == '.' {
            return Some(i);
        }
        i = i + 1;
    }
    None
}

/// Parse the characters `s[from..to]` as one canonical octet.
fn parse_octet(s: &str, from: usize, to: usize) -> (r: Option<u8>)
    requires
        from <= to <= s@.len(),
    ensures
        match r {
            Some(v) => s@.subrange(from as int, to as int) == octet_str(v as int),
            None => !is_canon_octet(s@.subrange(from as int, to as int)),
        },
{
    let ghost sub = s@.subrange(from as int, to as int);
    let n = to - from;
    if n == 0 || n > 3 {
        return None;
    }
    proof {
        lemma_digits_val_small(sub);
    }
    let c0 = s.get_char(from);
    let u0 = c0 as u32;
    assert(sub[0] == c0);
    if u0 < 48 || u0 > 57 {
        assert(!all_digits(sub));
        return None;
    }
    if n == 1 {
        let v = (u0 - 48) as u8;
        proof {
            assert(is_canon_octet(sub));
            lemma_canon_octet_unique(sub);
        }
        return Some(v);
    }
    if c0 == '0' {
        assert(sub.len() > 1 && sub[0] == '0');
        return None;
    }
    let c1 = s.get_char(from + 1);
    let u1 = c1 as u32;
    assert(sub[1] == c1);
    if u1 < 48 || u1 > 57 {
        assert(!all_digits(sub));
        return None;
    }
    if n == 2 {
        let v = ((u0 - 48) * 10 + (u1 - 48)) as u8;
        proof {
            assert forall|i: int| 0 <= i < sub.len() implies is_digit_char(#[trigger] sub[i]) by {
                assert(i == 0 || i == 1);
            }
            assert(is_canon_octet(sub));
            lemma_canon_octet_unique(sub);
        }
        return Some(v);
    }
    let c2 = s.get_char(from + 2);
    let u2 = c2 as u32;
    assert(sub[2] == c2);
    if u2 < 48 || u2 > 57 {
        assert(!all_digits(sub));
        return None;
    }
    let val = (u0 - 48) * 100 + (u1 - 48) * 10 + (u2 - 48);
    proof {
        assert forall|i: int| 0 <= i < sub.len() implies is_digit_char(#[trigger] sub[i]) by {
            assert(i == 0 || i == 1 || i == 2);
        }
        assert(digits_val(sub) == val);
    }
    if val > 255 {
        return None;
    }
    proof {
        assert(is_canon_octet(sub));
        lemma_canon_octet_unique(sub);
    }
    Some(val as u8)
}

/// In a canonical quad the three separators are the only dots; three
/// ordered dot positions therefore identify the separator offsets.
proof fn lemma_dots_identify(s: Seq<char>, m: u32, p1: int, p2: int, p3: int)
    requires
        s == ipv4_str(m),
        0 <= p1 < p2 < p3 < s.len(),
        s[p1] == '.',
        s[p2] == '.',
        s[p3] == '.',
        forall|k: int| 0 <= k < s.len() && k != p1 && k != p2 && k != p3 ==> s[k] != '.',
    ensures
        p1 == dot1(m),
        p2 == dot2(m),
        p3 == dot3(m),
{
    lemma_ipv4_str_structure(m);
    assert(s[dot1(m)] == '.');
    assert(s[dot2(m)] == '.');
    assert(s[dot3(m)] == '.');
}

/// Find the three separators of a dotted quad. `None` means the string has
/// fewer or more than three dots, so it is not canonical.
fn find_three_dots(s: &str) -> (r: Option<(usize, usize, usize)>)
    ensures
        match r {
            Some(p) => p.0 < p.1 < p.2 < s@.len() && s@[p.0 as int] == '.' && s@[p.1 as int] == '.'
                && s@[p.2 as int] == '.' && (forall|k: int|
                0 <= k < s@.len() && k != p.0 && k != p.1 && k != p.2 ==> s@[k] != '.'),
            None => !is_canon_ipv4(s@),
        },
{
    let ghost v = s@;
    let len = s.unicode_len();
    let p1 = match find_dot(s, 0) {
        Some(j) => j,
        None => {
            proof {
                if is_canon_ipv4(v) {
                    let m = choose|m: u32| v == ipv4_str(m);
                    lemma_ipv4_str_structure(m);
                    assert(v[dot1(m)] == '.');
                }
            }
            return None;
        },
    };
    let p2 = match find_dot(s, p1 + 1) {
        Some(j) => j,
        None => {
            proof {
                if is_canon_ipv4(v) {
                    let m = choose|m: u32| v == ipv4_str(m);
                    lemma_ipv4_str_structure(m);
                    assert(v[dot1(m)] == '.' && v[dot2(m)] == '.');
                    assert(p1 <= dot1(m));
                }
            }
            return None;
        },
    };
    let p3 = match find_dot(s, p2 + 1) {
        Some(j) => j,
        None => {
            proof {
                if is_canon_ipv4(v) {
                    let m = choose|m: u32| v == ipv4_str(m);
                    lemma_ipv4_str_structure(m);
                    assert(v[dot1(m)] == '.' && v[dot2(m)] == '.' && v[dot3(m)] == '.');
                    assert(p1 <= dot1(m));
                    assert(p2 <= dot2(m));
                }
            }
            return None;
        },
    };
    match find_dot(s, p3 + 1) {
        Some(_) => {
            proof {
                if is_canon_ipv4(v) {
                    let m = choose|m: u32| v == ipv4_str(m);
                    lemma_ipv4_str_structure(m);
                    assert(v[dot1(m)] == '.' && v[dot2(m)] == '.' && v[dot3(m)] == '.');
                    assert(p1 <= dot1(m));
                    assert(p2 <= dot2(m));
                    assert(p3 <= dot3(m));
                }
            }
            None
        },
        None => Some((p1, p2, p3)),
    }
}

/// Parse a canonical dotted quad into its index. Rejects exactly the
/// strings that are not the canonical form of any address.
#[verifier::rlimit(60)]
pub fn ipv4_to_index(ip: &str) -> (r: Result<u32, ScanError>)
    ensures
        match r {
            Ok(n) => ip@ == ipv4_str(n),
            Err(_) => !is_canon_ipv4(ip@),
        },
{
    let len = ip.unicode_len();
    let ghost s = ip@;
    let (p1, p2, p3) = match find_three_dots(ip) {
        Some(p) => p,
        None => {
            return Err(ScanError::Parse(String::from_str("invalid IPv4 address")));
        },
    };
    proof {
        if is_canon_ipv4(s) {
            let m = choose|m: u32| s == ipv4_str(m);
            lemma_dots_identify(s, m, p1 as int, p2 as int, p3 as int);
            lemma_ipv4_str_structure(m);
            lemma_ipv4_byte_bounds(m);
            lemma_octet_str_props(ipv4_byte(m, 0));
            lemma_octet_str_props(ipv4_byte(m, 1));
            lemma_octet_str_props(ipv4_byte(m, 2));
            lemma_octet_str_props(ipv4_byte(m, 3));
        }
    }
    let a = match parse_octet(ip, 0, p1) {
        Some(x) => x,
        None => {
            return Err(ScanError::Parse(String::from_str("invalid IPv4 address")));
        },
    };
    let b = match parse_octet(ip, p1 + 1, p2) {
        Some(x) => x,
        None => {
            return Err(ScanError::Parse(String::from_str("invalid IPv4 address")));
        },
    };
    let c = match parse_octet(ip, p2 + 1, p3) {
        Some(x) => x,
        None => {
            return Err(ScanError::Parse(String::from_str("invalid IPv4 address")));
        },
    };
    let d = match parse_octet(ip, p3 + 1, len) {
        Some(x) => x,
        None => {
            return Err(ScanError::Parse(String::from_str("invalid IPv4 address")));
        },
    };
    let n = ((a as u32) << 24) | ((b as u32) << 16) | ((c as u32) << 8) | (d as u32);
    proof {
        lemma_combine_bytes(a as u32, b as u32, c as u32, d as u32);
        lemma_ipv4_str_structure(n);
        assert(dot1(n) == p1 && dot2(n) == p2 && dot3(n) == p3) by {
            lemma_octet_str_props(ipv4_byte(n, 0));
            lemma_octet_str_props(ipv4_byte(n, 1));
            lemma_octet_str_props(ipv4_byte(n, 2));
        }
        assert(s =~= ipv4_str(n)) by {
            assert(ipv4_str(n).subrange(0, p1 as int) == s.subrange(0, p1 as int));
            assert(ipv4_str(n).subrange(p1 + 1, p2 as int) == s.subrange(p1 + 1, p2 as int));
            assert(ipv4_str(n).subrange(p2 + 1, p3 as int) == s.subrange(p2 + 1, p3 as int));
            assert(ipv4_str(n).subrange(p3 + 1, len as int) == s.subrange(p3 + 1, len as int));
            assert(ipv4_str(n).len() == len);
            assert forall|i: int| 0 <= i < s.len() implies s[i] == ipv4_str(n)[i] by {
                if i < p1 {
                    assert(s.subrange(0, p1 as int)[i] == s[i]);
                } else if i == p1 || i == p2 || i == p3 {
                    assert(s[i] == '.' && ipv4_str(n)[i] == '.');
                } else if i < p2 {
                    assert(s.subrange(p1 + 1, p2 as int)[i - p1 - 1] == s[i]);
                } else if i < p3 {
                    assert(s.subrange(p2 + 1, p3 as int)[i - p2 - 1] == s[i]);
                } else {
                    assert(s.subrange(p3 + 1, len as int)[i - p3 - 1] == s[i]);
                }
            }
        }
    }
    Ok(n)
}

/// Format an index as its canonical dotted quad.
pub fn index_to_ipv4(index: u32) -> (r: String)
    ensures
        r@ == ipv4_str(index),
{
    proof {
        reveal_strlit(".");
    }
    let a = ((index >> 24) & 0xFF) as u8;
    let b = ((index >> 16) & 0xFF) as u8;
    let c = ((index >> 8) & 0xFF) as u8;
    let d = (index & 0xFF) as u8;
    assert((index >> 24) & 0xFF < 256 && (index >> 16) & 0xFF < 256 && (index >> 8) & 0xFF < 256
        && index & 0xFF < 256) by (bit_vector);
    let mut s = String::new();
    push_octet(&mut s, a);
    s.append(".");
    push_octet(&mut s, b);
    s.append(".");
    push_octet(&mut s, c);
    s.append(".");
    push_octet(&mut s, d);
    assert(s@ =~= ipv4_str(index));
    s
}

/// The index lies in a private or reserved block: `10/8`, `172.16/12`,
/// `192.168/16`, `127/8`, `169.254/16`, `224/4` or `240/4`.
pub open spec fn is_private_index(n: u32) -> bool {
    let a = ipv4_byte(n, 0);
    let b = ipv4_byte(n, 1);
    ||| a == 10
    ||| (a == 172 && 16 <= b <= 31)
    ||| (a == 192 && b == 168)
    ||| a == 127
    ||| (a == 169 && b == 254)
    ||| (224 <= a <= 239)
    ||| (240 <= a <= 255)
}

/// Whether a dotted quad lies in a private or reserved block. A string that
/// is not a canonical quad is reported as not private.
pub fn is_private_ipv4(ip: &str) -> (r: bool)
    ensures
        !is_canon_ipv4(ip@) ==> r == false,
        forall|n: u32| ip@ == ipv4_str(n) ==> r == is_private_index(n),
{
    match ipv4_to_index(ip) {
        Ok(n) => {
            let a = (n >> 24) & 0xFF;
            let b = (n >> 16) & 0xFF;
            proof {
                lemma_ipv4_byte_bounds(n);
                assert forall|m: u32| ip@ == ipv4_str(m) implies m == n by {
                    lemma_ipv4_str_injective(n, m);
                }
            }
            a == 10 || (a == 172 && 16 <= b && b <= 31) || (a == 192 && b == 168) || a == 127 || (
            a == 169 && b == 254) || (224 <= a && a <= 239) || 240 <= a
        },
        Err(_) => false,
    }
}

/// Decimal form of a nonnegative number, without leading zeros.
pub open spec fn dec_str(n: int) -> Seq<char>
    decreases n,
{
    if n < 10 {
        seq![digit_char(n)]
    } else {
        dec_str(n / 10).push(digit_char(n % 10))
    }
}

/// Format a number in decimal.
pub fn u64_to_string(n: u64) -> (r: String)
    ensures
        r@ == dec_str(n as int),
    decreases n,
{
    if n < 10 {
        let s = String::from_str(digit_str(n as u8));
        proof {
            assert(s@ =~= dec_str(n as int));
        }
        s
    } else {
        proof {
            assert(0 <= n as int / 10 < n as int) by (nonlinear_arith)
                requires
                    n >= 10,
            ;
            assert(0 <= n as int % 10 <= 9) by (nonlinear_arith);
            assert(n as int / 10 == (n / 10) as int && n as int % 10 == (n % 10) as int);
        }
        let mut s = u64_to_string(n / 10);
        s.append(digit_str((n % 10) as u8));
        proof {
            assert(s@ =~= dec_str(n as int));
        }
        s
    }
}

} // verus!
