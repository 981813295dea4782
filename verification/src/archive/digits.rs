//! Numbers written as text.

use vstd::prelude::*;
use vstd::utf8::*;

use crate::bytes::copy_all;
use crate::text::{self, text_from_utf8, to_chars};

verus! {

/// Whether `c` is white space.
pub open spec fn is_space(c: char) -> bool {
    let n = c as int;
    ||| 9 <= n <= 13
    ||| n == 0x20
    ||| n == 0x85
    ||| n == 0xa0
    ||| n == 0x1680
    ||| 0x2000 <= n <= 0x200a
    ||| n == 0x2028
    ||| n == 0x2029
    ||| n == 0x202f
    ||| n == 0x205f
    ||| n == 0x3000
}

/// Index of the first character of `s` from `i` on that is no white space.
pub open spec fn first_ink(s: Seq<char>, i: int) -> int
    decreases s.len() - i,
{
    if i >= s.len() || !is_space(s[i]) {
        i
    } else {
        first_ink(s, i + 1)
    }
}

/// Index behind the last of the first `n` characters of `s` that is no white
/// space.
pub open spec fn last_ink(s: Seq<char>, n: int) -> int
    decreases n,
{
    if n <= 0 || !is_space(s[n - 1]) {
        n
    } else {
        last_ink(s, n - 1)
    }
}

/// `s` without white space at its ends.
pub open spec fn trimmed(s: Seq<char>) -> Seq<char> {
    let t = s.subrange(0, last_ink(s, s.len() as int));
    t.subrange(first_ink(t, 0), t.len() as int)
}

/// `s` without white space at its end.
pub open spec fn end_trimmed(s: Seq<char>) -> Seq<char> {
    s.subrange(0, last_ink(s, s.len() as int))
}

/// Value of the digit `c` to the base `radix`.
pub open spec fn digit(c: char, radix: int) -> Option<int> {
    let n = c as int;
    let d = if 48 <= n <= 57 {
        n - 48
    } else if 97 <= n <= 122 {
        n - 87
    } else if 65 <= n <= 90 {
        n - 55
    } else {
        radix
    };
    if d < radix {
        Some(d)
    } else {
        None
    }
}

/// Value of the first `n` digits of `s`.
pub open spec fn value(s: Seq<char>, radix: int, n: int) -> Option<int>
    decreases n,
{
    if n <= 0 {
        Some(0)
    } else {
        match (value(s, radix, n - 1), digit(s[n - 1], radix)) {
            (Some(v), Some(d)) => Some(v * radix + d),
            _ => None,
        }
    }
}

/// The number that `s` writes to the base `radix`: digits, with a plus sign in
/// front of them or none.
pub open spec fn number(s: Seq<char>, radix: int) -> Option<u64> {
    let d = if s.len() > 0 && s[0] == '+' {
        s.subrange(1, s.len() as int)
    } else {
        s
    };
    if d.len() == 0 {
        None
    } else {
        match value(d, radix, d.len() as int) {
            Some(v) => if v <= u64::MAX {
                Some(v as u64)
            } else {
                None
            },
            None => None,
        }
    }
}

/// The number in a field of text; white space around it does not count.
pub open spec fn field(b: Seq<u8>, radix: int) -> Option<u64> {
    if valid_utf8(b) {
        number(trimmed(decode_utf8(b)), radix)
    } else {
        None
    }
}

pub proof fn lemma_first_ink(s: Seq<char>, i: int)
    requires
        0 <= i <= s.len(),
    ensures
        i <= first_ink(s, i) <= s.len(),
    decreases s.len() - i,
{
    if i < s.len() && is_space(s[i]) {
        lemma_first_ink(s, i + 1);
    }
}

pub proof fn lemma_last_ink(s: Seq<char>, n: int)
    requires
        0 <= n <= s.len(),
    ensures
        0 <= last_ink(s, n) <= n,
    decreases n,
{
    if n > 0 && is_space(s[n - 1]) {
        lemma_last_ink(s, n - 1);
    }
}

/// A field of plain characters without white space at its ends is the number
/// that they write.
pub proof fn lemma_plain_field(b: Seq<u8>, radix: int)
    requires
        b.len() > 0,
        forall|i: int| 0 <= i < b.len() ==> b[i] < 0x80,
        !is_space(b[0] as char),
        !is_space(b.last() as char),
    ensures
        field(b, radix) == number(Seq::new(b.len(), |i: int| b[i] as char), radix),
{
    text::lemma_ascii(b);
    let s = Seq::new(b.len(), |i: int| b[i] as char);
    let n = s.len() as int;
    assert(last_ink(s, n) == n);
    assert(s.subrange(0, n) =~= s);
    assert(first_ink(s, 0) == 0);
    assert(trimmed(s) =~= s);
}

/// Whether `c` is white space.
pub fn white_space(c: char) -> (r: bool)
    ensures
        r == is_space(c),
{
    let n: u32 = c as u32;
    (9 <= n && n <= 13) || n == 0x20 || n == 0x85 || n == 0xa0 || n == 0x1680 || (0x2000 <= n && n
        <= 0x200a) || n == 0x2028 || n == 0x2029 || n == 0x202f || n == 0x205f || n == 0x3000
}

/// Cut off white space at the end.
pub fn trim_end(s: &str) -> (r: Vec<char>)
    ensures
        r@ == end_trimmed(s@),
{
    let mut v = to_chars(s);
    let ghost all = v@;
    proof {
        assert(all.subrange(0, all.len() as int) =~= all);
        lemma_last_ink(all, all.len() as int);
    }
    while v.len() > 0 && white_space(v[v.len() - 1])
        invariant
            v@ == all.subrange(0, v@.len() as int),
            v@.len() <= all.len(),
            last_ink(all, all.len() as int) == last_ink(all, v@.len() as int),
        decreases v@.len(),
    {
        let ghost n = v@.len();
        v.pop();
        proof {
            assert(all.subrange(0, n as int).drop_last() =~= all.subrange(0, n - 1));
        }
    }
    v
}

/// Cut off white space at both ends.
pub fn trim(s: &str) -> (r: Vec<char>)
    ensures
        r@ == trimmed(s@),
{
    let v = trim_end(s);
    let mut i: usize = 0;
    while i < v.len() && white_space(v[i])
        invariant
            i <= v@.len(),
            first_ink(v@, 0) == first_ink(v@, i as int),
        decreases v@.len() - i,
    {
        i = i + 1;
    }
    crate::path::chars_range(&v, i, v.len())
}

fn digit_of(c: char, radix: u32) -> (r: Option<u32>)
    requires
        2 <= radix <= 36,
    ensures
        match r {
            Some(d) => digit(c, radix as int) == Some(d as int) && d < radix,
            None => digit(c, radix as int) is None,
        },
{
    let n: u32 = c as u32;
    let d: u32 = if 48 <= n && n <= 57 {
        n - 48
    } else if 97 <= n && n <= 122 {
        n - 87
    } else if 65 <= n && n <= 90 {
        n - 55
    } else {
        radix
    };
    if d < radix {
        Some(d)
    } else {
        None
    }
}

/// A number that is too large, or no number, stays so with more digits.
proof fn lemma_value_grows(s: Seq<char>, radix: int, i: int, n: int)
    requires
        2 <= radix,
        0 <= i <= n <= s.len(),
    ensures
        value(s, radix, i) is None ==> value(s, radix, n) is None,
        (value(s, radix, i) matches Some(v) && v > u64::MAX) ==> (value(s, radix, n) matches Some(
            w,
        ) ==> w > u64::MAX),
        value(s, radix, i) matches Some(v) ==> v >= 0,
    decreases n,
{
    if i < n {
        lemma_value_grows(s, radix, i, n - 1);
        lemma_value_grows(s, radix, n - 1, n - 1);
        if let (Some(v), Some(d)) = (value(s, radix, n - 1), digit(s[n - 1], radix)) {
            assert(v * radix >= v) by (nonlinear_arith)
                requires
                    v >= 0,
                    radix >= 2,
            ;
        }
    } else if n > 0 {
        lemma_value_grows(s, radix, n - 1, n - 1);
        if let (Some(v), Some(d)) = (value(s, radix, n - 1), digit(s[n - 1], radix)) {
            assert(v * radix >= 0) by (nonlinear_arith)
                requires
                    v >= 0,
                    radix >= 2,
            ;
        }
    }
}

/// The number that the characters `s` write to the base `radix`.
pub fn parse_number(s: &Vec<char>, radix: u32) -> (r: Option<u64>)
    requires
        2 <= radix <= 36,
    ensures
        r == number(s@, radix as int),
{
    let from: usize = if s.len() > 0 && s[0] == '+' {
        1
    } else {
        0
    };
    let d = crate::path::chars_range(s, from, s.len());
    proof {
        if from == 0 {
            assert(d@ =~= s@);
        }
    }
    if d.len() == 0 {
        return None;
    }
    let mut v: u64 = 0;
    let mut i: usize = 0;
    while i < d.len()
        invariant
            i <= d@.len(),
            2 <= radix <= 36,
            value(d@, radix as int, i as int) == Some(v as int),
            d@.len() > 0,
            number(s@, radix as int) == match value(d@, radix as int, d@.len() as int) {
                Some(w) => if w <= u64::MAX {
                    Some(w as u64)
                } else {
                    None
                },
                None => None,
            },
        decreases d@.len() - i,
    {
        proof {
            lemma_value_grows(d@, radix as int, i + 1, d@.len() as int);
        }
        match digit_of(d[i], radix) {
            None => {
                return None;
            },
            Some(x) => {
                let m: u64 = match v.checked_mul(radix as u64) {
                    Some(m) => m,
                    None => {
                        return None;
                    },
                };
                v = match m.checked_add(x as u64) {
                    Some(w) => w,
                    None => {
                        return None;
                    },
                };
            },
        }
        i = i + 1;
    }
    Some(v)
}

/// The number in a field of text.
pub fn parse_field(b: &[u8], radix: u32) -> (r: Option<u64>)
    requires
        2 <= radix <= 36,
    ensures
        r == field(b@, radix as int),
{
    match text_from_utf8(copy_all(b)) {
        None => None,
        Some(s) => {
            let t = trim(s.as_str());
            parse_number(&t, radix)
        },
    }
}

} // verus!
