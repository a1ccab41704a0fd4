//! Parsing of port specifications: a single port (`"80"`), a comma list
//! (`"22,80,443"`), or an inclusive range (`"1-1024"`). The result is the
//! sorted, deduplicated list of ports named by the specification.

use vstd::prelude::*;
use crate::ip::{all_digits, digits_val, is_digit_char};

verus! {

/// Whitespace stripped around the entries of a comma list.
pub open spec fn is_space_char(c: char) -> bool {
    c == ' ' || c == '\t' || c == '\n' || c == '\r'
}

/// Number of leading whitespace characters.
pub open spec fn lead_spaces(s: Seq<char>) -> int
    decreases s.len(),
{
    if s.len() > 0 && is_space_char(s.first()) {
        1 + lead_spaces(s.drop_first())
    } else {
        0
    }
}

/// Number of trailing whitespace characters.
pub open spec fn trail_spaces(s: Seq<char>) -> int
    decreases s.len(),
{
    if s.len() > 0 && is_space_char(s.last()) {
        1 + trail_spaces(s.drop_last())
    } else {
        0
    }
}

/// `s` with surrounding whitespace stripped.
pub open spec fn trim_spec(s: Seq<char>) -> Seq<char> {
    let t = s.skip(lead_spaces(s));
    t.take(t.len() - trail_spaces(t))
}

/// A valid port number: at least one digit, all digits, value at most
/// 65535.
pub open spec fn valid_port_num(s: Seq<char>) -> bool {
    s.len() >= 1 && all_digits(s) && 0 <= digits_val(s) <= 65535
}

/// Index of the first occurrence of `c`, or the length if absent.
pub open spec fn first_idx(s: Seq<char>, c: char) -> int
    decreases s.len(),
{
    if s.len() == 0 {
        0
    } else if s.first() == c {
        0
    } else {
        1 + first_idx(s.drop_first(), c)
    }
}

/// `first_idx`, clamped into the string; used so recursion over the
/// entries is visibly terminating.
pub open spec fn split_pos(s: Seq<char>, c: char) -> int {
    let p = first_idx(s, c);
    if 0 <= p <= s.len() {
        p
    } else {
        s.len() as int
    }
}

/// `s` holds `c` somewhere.
pub open spec fn has_char(s: Seq<char>, c: char) -> bool {
    exists|i: int| 0 <= i < s.len() && s[i] == c
}

/// Every comma-separated entry of `s`, trimmed, is a valid port number.
pub open spec fn comma_valid(s: Seq<char>) -> bool
    decreases s.len(),
{
    let p = split_pos(s, ',');
    if p == s.len() {
        valid_port_num(trim_spec(s))
    } else {
        valid_port_num(trim_spec(s.take(p))) && comma_valid(s.skip(p + 1))
    }
}

/// `x` is named by one comma-separated entry of `s`.
pub open spec fn in_comma_list(s: Seq<char>, x: u16) -> bool
    decreases s.len(),
{
    let p = split_pos(s, ',');
    if p == s.len() {
        digits_val(trim_spec(s)) == x
    } else {
        digits_val(trim_spec(s.take(p))) == x || in_comma_list(s.skip(p + 1), x)
    }
}

/// The specification is well formed: one of the three recognized forms,
/// with every number in range and a range's start not above its end.
pub open spec fn valid_port_spec(s: Seq<char>) -> bool {
    if has_char(s, '-') {
        let p = split_pos(s, '-');
        &&& !has_char(s.skip(p + 1), '-')
        &&& valid_port_num(s.take(p))
        &&& valid_port_num(s.skip(p + 1))
        &&& digits_val(s.take(p)) <= digits_val(s.skip(p + 1))
    } else if has_char(s, ',') {
        comma_valid(s)
    } else {
        valid_port_num(s)
    }
}

/// `x` is one of the ports the specification names.
pub open spec fn in_port_spec(s: Seq<char>, x: u16) -> bool {
    if has_char(s, '-') {
        let p = split_pos(s, '-');
        digits_val(s.take(p)) <= x <= digits_val(s.skip(p + 1))
    } else if has_char(s, ',') {
        in_comma_list(s, x)
    } else {
        digits_val(s) == x
    }
}

/// Strictly increasing, hence sorted and free of duplicates.
pub open spec fn strictly_sorted(v: Seq<u16>) -> bool {
    forall|i: int, j: int| 0 <= i < j < v.len() ==> v[i] < v[j]
}

/// A digit string's value is nonnegative and grows (weakly) with each
/// appended digit.
proof fn lemma_digits_val_nonneg(s: Seq<char>)
    requires
        all_digits(s),
    ensures
        digits_val(s) >= 0,
    decreases s.len(),
{
    if s.len() > 0 {
        assert(all_digits(s.drop_last())) by {
            assert(forall|i: int| 0 <= i < s.len() - 1 ==> s.drop_last()[i] == s[i]);
        }
        lemma_digits_val_nonneg(s.drop_last());
    }
}

/// A scanned prefix never exceeds the whole digit string's value.
proof fn lemma_digits_val_prefix(s: Seq<char>, k: int)
    requires
        all_digits(s),
        0 <= k <= s.len(),
    ensures
        digits_val(s) >= digits_val(s.take(k)),
    decreases s.len() - k,
{
    if k < s.len() {
        lemma_digits_val_prefix(s, k + 1);
        let t = s.take(k + 1);
        assert(t.drop_last() =~= s.take(k));
        assert(digits_val(t) == digits_val(s.take(k)) * 10 + digit_val_of(t.last()));
        assert(all_digits(s.take(k))) by {
            assert(forall|i: int| 0 <= i < k ==> s.take(k)[i] == s[i]);
        }
        lemma_digits_val_nonneg(s.take(k));
        assert(48 <= t.last() as u32 <= 57);
        assert(digits_val(t) >= digits_val(s.take(k)));
    } else {
        assert(s.take(k) =~= s);
    }
}

/// The digit value of one character, named so the prefix lemma can unfold
/// `digits_val` one step.
pub open spec fn digit_val_of(c: char) -> int {
    crate::ip::digit_val(c)
}

/// If the first occurrence of `c` in `s` is at `p`, `first_idx` finds `p`;
/// if there is none, `first_idx` is the length.
proof fn lemma_first_idx_at(s: Seq<char>, c: char, p: int)
    requires
        0 <= p <= s.len(),
        forall|k: int| 0 <= k < p ==> s[k] != c,
        p < s.len() ==> s[p] == c,
        p == s.len() ==> !has_char(s, c),
    ensures
        first_idx(s, c) == p,
        split_pos(s, c) == p,
    decreases p,
{
    if s.len() == 0 {
    } else if p == 0 {
    } else {
        let t = s.drop_first();
        assert(forall|k: int| 0 <= k < p - 1 ==> t[k] == s[k + 1]);
        if p - 1 == t.len() {
            assert(!has_char(t, c)) by {
                if has_char(t, c) {
                    let i = choose|i: int| 0 <= i < t.len() && t[i] == c;
                    assert(s[i + 1] == c);
                }
            }
        }
        lemma_first_idx_at(t, c, p - 1);
        assert(s.first() != c);
    }
}

/// Find the first occurrence of `c` at or after `start`.
fn find_char(s: &str, start: usize, c: char) -> (r: Option<usize>)
    requires
        start <= s@.len(),
    ensures
        match r {
            Some(j) => start <= j < s@.len() && s@[j as int] == c && (forall|k: int|
                start <= k < j ==> s@[k] != c),
            None => forall|k: int| start <= k < s@.len() ==> s@[k] != c,
        },
{
    let len = s.unicode_len();
    let mut i = start;
    while i < len
        invariant
            start <= i <= len,
            len == s@.len(),
            forall|k: int| start <= k < i ==> s@[k] != c,
        decreases len - i,
    {
        if s.get_char(i) == c {
            return Some(i);
        }
        i = i + 1;
    }
    None
}

/// Parse `s[from..to]` as a decimal port number.
fn parse_port_num(s: &str, from: usize, to: usize) -> (r: Option<u16>)
    requires
        from <= to <= s@.len(),
    ensures
        match r {
            Some(v) => valid_port_num(s@.subrange(from as int, to as int)) && v == digits_val(
                s@.subrange(from as int, to as int),
            ),
            None => !valid_port_num(s@.subrange(from as int, to as int)),
        },
{
    let ghost sub = s@.subrange(from as int, to as int);
    if from == to {
        return None;
    }
    let mut acc: u32 = 0;
    let mut i = from;
    while i < to
        invariant
            from <= i <= to <= s@.len(),
            sub == s@.subrange(from as int, to as int),
            acc <= 65535,
            all_digits(sub.take(i - from)),
            acc == digits_val(sub.take(i - from)),
        decreases to - i,
    {
        let ch = s.get_char(i);
        let u = ch as u32;
        assert(sub[i - from] == ch);
        if u < 48 || u > 57 {
            assert(!all_digits(sub));
            return None;
        }
        proof {
            assert(sub.take(i - from + 1).drop_last() =~= sub.take(i - from));
            assert(sub.take(i - from + 1).last() == sub[i - from]);
            assert forall|k: int|
                0 <= k < i - from + 1 implies is_digit_char(#[trigger] sub.take(i - from + 1)[k]) by {
                if k < i - from {
                    assert(sub.take(i - from)[k] == sub.take(i - from + 1)[k]);
                }
            }
        }
        let d = u - 48;
        let next = acc * 10 + d;
        if next > 65535 {
            proof {
                // The value can only grow with more digits, so the whole
                // string is out of range whenever it is all digits.
                if all_digits(sub) {
                    lemma_digits_val_prefix(sub, i - from + 1);
                }
            }
            return None;
        }
        acc = next;
        i = i + 1;
    }
    proof {
        assert(sub.take(to - from) =~= sub);
    }
    Some(acc as u16)
}

/// Number of leading whitespace characters, found by scanning.
fn scan_lead(s: &str, from: usize, to: usize) -> (r: usize)
    requires
        from <= to <= s@.len(),
    ensures
        from <= r <= to,
        r - from == lead_spaces(s@.subrange(from as int, to as int)),
{
    let ghost sub = s@.subrange(from as int, to as int);
    proof {
        assert(sub.skip(0) =~= sub);
    }
    let mut i = from;
    while i < to
        invariant
            from <= i <= to <= s@.len(),
            sub == s@.subrange(from as int, to as int),
            lead_spaces(sub) == lead_spaces(sub.skip(i - from)) + (i - from),
        decreases to - i,
    {
        let ch = s.get_char(i);
        if !(ch == ' ' || ch == '\t' || ch == '\n' || ch == '\r') {
            proof {
                let t = sub.skip(i - from);
                assert(t.first() == sub[i - from]);
                assert(!is_space_char(t.first()));
                assert(lead_spaces(t) == 0);
            }
            return i;
        }
        proof {
            let t = sub.skip(i - from);
            assert(t.first() == sub[i - from]);
            assert(is_space_char(t.first()));
            assert(t.drop_first() =~= sub.skip(i - from + 1));
        }
        i = i + 1;
    }
    proof {
        assert(sub.skip(i - from) =~= Seq::<char>::empty());
    }
    i
}

/// Number of trailing whitespace characters in `s[from..to]`, found by
/// scanning backwards.
fn scan_trail(s: &str, from: usize, to: usize) -> (r: usize)
    requires
        from <= to <= s@.len(),
    ensures
        r <= to - from,
        r == trail_spaces(s@.subrange(from as int, to as int)),
{
    let ghost sub = s@.subrange(from as int, to as int);
    proof {
        assert(sub.take(to - from) =~= sub);
    }
    let mut j = to;
    while j > from
        invariant
            from <= j <= to <= s@.len(),
            sub == s@.subrange(from as int, to as int),
            trail_spaces(sub) == trail_spaces(sub.take(j - from)) + (to - j),
        decreases j,
    {
        let ch = s.get_char(j - 1);
        if !(ch == ' ' || ch == '\t' || ch == '\n' || ch == '\r') {
            proof {
                let t = sub.take(j - from);
                assert(t.last() == sub[j - from - 1]);
                assert(!is_space_char(t.last()));
                assert(trail_spaces(t) == 0);
            }
            return to - j;
        }
        proof {
            let t = sub.take(j - from);
            assert(t.last() == sub[j - from - 1]);
            assert(is_space_char(t.last()));
            assert(t.drop_last() =~= sub.take(j - from - 1));
        }
        j = j - 1;
    }
    proof {
        assert(sub.take(j - from) =~= Seq::<char>::empty());
    }
    to - j
}

/// First position whose element is at least `x`, in a strictly sorted
/// vector.
fn find_ge(v: &Vec<u16>, x: u16) -> (r: usize)
    requires
        strictly_sorted(v@),
    ensures
        r <= v@.len(),
        forall|k: int| 0 <= k < r ==> v@[k] < x,
        forall|k: int| r <= k < v@.len() ==> v@[k] >= x,
{
    let n = v.len();
    let mut i: usize = 0;
    while i < n
        invariant
            i <= n == v@.len(),
            strictly_sorted(v@),
            forall|k: int| 0 <= k < i ==> v@[k] < x,
        decreases n - i,
    {
        if v[i] >= x {
            proof {
                assert forall|k: int| i <= k < v@.len() implies v@[k] >= x by {
                    if k > i {
                        assert(v@[i as int] < v@[k]);
                    }
                }
            }
            return i;
        }
        i = i + 1;
    }
    n
}

/// Insert a port into a strictly sorted vector, keeping it sorted and
/// without duplicates.
fn insert_sorted(v: &mut Vec<u16>, x: u16)
    requires
        strictly_sorted(old(v)@),
    ensures
        strictly_sorted(final(v)@),
        final(v)@.contains(x),
        forall|y: u16| old(v)@.contains(y) ==> final(v)@.contains(y),
        forall|y: u16| final(v)@.contains(y) ==> old(v)@.contains(y) || y == x,
{
    let i = find_ge(v, x);
    if i < v.len() {
        let cur = v[i];
        if cur == x {
            proof {
                assert(v@[i as int] == x);
                assert(v@.contains(x));
                assert forall|y: u16|
                    v@.contains(y) <==> (old(v)@.contains(y) || y == x) by {
                    assert(v@ == old(v)@);
                }
            }
            return ;
        }
    }
    let ghost olds = v@;
    v.insert(i, x);
    proof {
        assert(v@ =~= olds.insert(i as int, x));
        assert forall|a: int, b: int| 0 <= a < b < v@.len() implies v@[a] < v@[b] by {
            if a < i {
                assert(v@[a] == olds[a]);
            } else if a == i {
            } else {
                assert(v@[a] == olds[a - 1]);
            }
            if b < i {
                assert(v@[b] == olds[b]);
            } else if b == i {
            } else {
                assert(v@[b] == olds[b - 1]);
            }
        }
        assert forall|y: u16| v@.contains(y) <==> (olds.contains(y) || y == x) by {
            if v@.contains(y) {
                let k = choose|k: int| 0 <= k < v@.len() && v@[k] == y;
                if k < i {
                    assert(olds[k] == y);
                    assert(olds.contains(y));
                } else if k > i {
                    assert(olds[k - 1] == y);
                    assert(olds.contains(y));
                } else {
                    assert(y == x);
                }
            }
            if olds.contains(y) {
                let k = choose|k: int| 0 <= k < olds.len() && olds[k] == y;
                if k < i {
                    assert(v@[k] == y);
                    assert(v@.contains(y));
                } else {
                    assert(v@[k + 1] == y);
                    assert(v@.contains(y));
                }
            }
            if y == x {
                assert(v@[i as int] == y);
                assert(v@.contains(y));
            }
        }
        assert(forall|y: u16| v@.contains(y) <==> (olds.contains(y) || y == x));
        assert(olds == old(v)@);
        assert(v@ == final(v)@);
    }
}

/// Parse `s[from..to]`, trimmed, as a decimal port number.
fn parse_port_num_trimmed(s: &str, from: usize, to: usize) -> (r: Option<u16>)
    requires
        from <= to <= s@.len(),
    ensures
        match r {
            Some(v) => valid_port_num(trim_spec(s@.subrange(from as int, to as int))) && v
                == digits_val(trim_spec(s@.subrange(from as int, to as int))),
            None => !valid_port_num(trim_spec(s@.subrange(from as int, to as int))),
        },
{
    let ghost sub = s@.subrange(from as int, to as int);
    let a = scan_lead(s, from, to);
    let t = scan_trail(s, a, to);
    let b = to - t;
    proof {
        let skipped = sub.skip(a - from);
        assert(skipped =~= s@.subrange(a as int, to as int));
        // Trailing spaces of the whole equal those of the suffix after the
        // leading spaces, because the suffix keeps the tail.
        assert(trim_spec(sub) == skipped.take(skipped.len() - trail_spaces(skipped)));
        assert(skipped.take(skipped.len() - t) =~= s@.subrange(a as int, b as int));
    }
    if b < a {
        proof {
            assert(false);
        }
    }
    parse_port_num(s, a, b)
}

/// Parse a port specification: a single port, a comma list, or an
/// inclusive range. The result lists every named port exactly once, in
/// increasing order; the error states which part was rejected.
pub fn parse_port_range(range: &str) -> (r: Result<Vec<u16>, String>)
    ensures
        match r {
            Ok(v) => valid_port_spec(range@) && strictly_sorted(v@) && (forall|x: u16|
                v@.contains(x) <==> in_port_spec(range@, x)),
            Err(_) => !valid_port_spec(range@),
        },
{
    let len = range.unicode_len();
    let ghost w = range@;
    match find_char(range, 0, '-') {
        Some(p) => {
            proof {
                lemma_first_idx_at(w, '-', p as int);
                assert(has_char(w, '-'));
            }
            if let Some(q) = find_char(range, p + 1, '-') {
                proof {
                    let t = w.skip(p + 1);
                    assert(t[q - p - 1] == w[q as int]);
                    assert(has_char(t, '-'));
                }
                return Err(String::from_str("Invalid port range format"));
            }
            proof {
                let t = w.skip(p + 1);
                assert(!has_char(t, '-')) by {
                    if has_char(t, '-') {
                        let i = choose|i: int| 0 <= i < t.len() && t[i] == '-';
                        assert(w[p + 1 + i] == '-');
                    }
                }
                assert(w.subrange(0, p as int) =~= w.take(p as int));
                assert(w.subrange(p + 1, len as int) =~= w.skip(p + 1));
            }
            let a = match parse_port_num(range, 0, p) {
                Some(a) => a,
                None => {
                    return Err(String::from_str("Invalid start port"));
                },
            };
            let b = match parse_port_num(range, p + 1, len) {
                Some(b) => b,
                None => {
                    return Err(String::from_str("Invalid end port"));
                },
            };
            if a > b {
                return Err(String::from_str(
                    "Start port must be less than or equal to end port",
                ));
            }
            let mut v: Vec<u16> = Vec::new();
            let mut x: u32 = a as u32;
            while x <= b as u32
                invariant
                    a as u32 <= x <= b as u32 + 1,
                    v@.len() == x - a as u32,
                    forall|i: int| 0 <= i < v@.len() ==> v@[i] == a + i,
                decreases b as u32 + 1 - x,
            {
                v.push(x as u16);
                x = x + 1;
            }
            proof {
                assert forall|y: u16| v@.contains(y) <==> in_port_spec(w, y) by {
                    if v@.contains(y) {
                        let k = choose|k: int| 0 <= k < v@.len() && v@[k] == y;
                        assert(a <= y <= b);
                    }
                    if in_port_spec(w, y) {
                        assert(a <= y <= b);
                        assert(v@[y - a] == y);
                    }
                }
            }
            Ok(v)
        },
        None => {
            proof {
                assert(!has_char(w, '-'));
            }
            match find_char(range, 0, ',') {
                Some(first_comma) => {
                    proof {
                        assert(w[first_comma as int] == ',');
                        assert(has_char(w, ','));
                    }
                    let mut v: Vec<u16> = Vec::new();
                    let mut start: usize = 0;
                    proof {
                        assert(w.skip(0) =~= w);
                    }
                    loop
                        invariant
                            start <= len,
                            len == w.len(),
                            w == range@,
                            !has_char(w, '-'),
                            has_char(w, ','),
                            strictly_sorted(v@),
                            comma_valid(w) <==> comma_valid(w.skip(start as int)),
                            forall|y: u16|
                                in_comma_list(w, y) <==> (v@.contains(y) || in_comma_list(
                                    w.skip(start as int),
                                    y,
                                )),
                        decreases len - start,
                    {
                        let ghost suf = w.skip(start as int);
                        match find_char(range, start, ',') {
                            Some(q) => {
                                proof {
                                    assert(suf[q - start] == w[q as int]);
                                    assert forall|k: int|
                                        0 <= k < q - start implies suf[k] != ',' by {
                                        assert(suf[k] == w[start + k]);
                                    }
                                    lemma_first_idx_at(suf, ',', q - start);
                                    assert(suf.take(q - start) =~= w.subrange(
                                        start as int,
                                        q as int,
                                    ));
                                    assert(suf.skip(q - start + 1) =~= w.skip(q + 1));
                                }
                                let val = match parse_port_num_trimmed(range, start, q) {
                                    Some(val) => val,
                                    None => {
                                        return Err(String::from_str("Invalid port"));
                                    },
                                };
                                insert_sorted(&mut v, val);
                                start = q + 1;
                            },
                            None => {
                                proof {
                                    assert forall|k: int|
                                        0 <= k < suf.len() implies suf[k] != ',' by {
                                        assert(suf[k] == w[start + k]);
                                    }
                                    lemma_first_idx_at(suf, ',', suf.len() as int);
                                    assert(suf =~= w.subrange(start as int, len as int));
                                }
                                let val = match parse_port_num_trimmed(range, start, len) {
                                    Some(val) => val,
                                    None => {
                                        return Err(String::from_str("Invalid port"));
                                    },
                                };
                                insert_sorted(&mut v, val);
                                proof {
                                    assert(trim_spec(w.subrange(start as int, len as int))
                                        == trim_spec(suf));
                                }
                                return Ok(v);
                            },
                        }
                    }
                },
                None => {
                    proof {
                        assert(!has_char(w, ','));
                        assert(w.subrange(0, len as int) =~= w);
                    }
                    match parse_port_num(range, 0, len) {
                        Some(x) => {
                            let mut v: Vec<u16> = Vec::new();
                            v.push(x);
                            proof {
                                assert forall|y: u16| v@.contains(y) <==> in_port_spec(w, y) by {
                                    if v@.contains(y) {
                                        let k = choose|k: int|
                                            0 <= k < v@.len() && v@[k] == y;
                                        assert(k == 0);
                                    }
                                    if in_port_spec(w, y) {
                                        assert(v@[0] == y);
                                    }
                                }
                            }
                            Ok(v)
                        },
                        None => Err(String::from_str("Invalid port number")),
                    }
                },
            }
        },
    }
}

} // verus!
