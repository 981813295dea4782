//! Options by name.

use vstd::prelude::*;

use crate::archive::digits::{self, parse_number, trim};
use crate::error::{Error, Result};
use crate::text::{copy_text, same_text};

verus! {

/// Options by name, each a text. Those that nobody takes stay for the caller.
pub struct OptionMap {
    pub items: Vec<(String, String)>,
}

/// The views of the options.
pub open spec fn option_views(s: Seq<(String, String)>) -> Seq<(Seq<char>, Seq<char>)> {
    Seq::new(s.len(), |i: int| (s[i].0@, s[i].1@))
}

impl View for OptionMap {
    type V = Seq<(Seq<char>, Seq<char>)>;

    open spec fn view(&self) -> Seq<(Seq<char>, Seq<char>)> {
        option_views(self.items@)
    }
}

/// Index of the first option from `i` on that is named `k`.
pub open spec fn option_at(s: Seq<(Seq<char>, Seq<char>)>, k: Seq<char>, i: int) -> Option<int>
    decreases s.len() - i,
{
    if i >= s.len() {
        None
    } else if s[i].0 == k {
        Some(i)
    } else {
        option_at(s, k, i + 1)
    }
}

/// The option named `k`, and the other ones.
pub open spec fn taken(s: Seq<(Seq<char>, Seq<char>)>, k: Seq<char>) -> (
    Option<Seq<char>>,
    Seq<(Seq<char>, Seq<char>)>,
) {
    match option_at(s, k, 0) {
        None => (None, s),
        Some(i) => (Some(s[i].1), s.remove(i)),
    }
}

/// Factor of the size suffix `c`.
pub open spec fn unit(c: char) -> Option<int> {
    if c == 'k' || c == 'K' {
        Some(0x400)
    } else if c == 'm' || c == 'M' {
        Some(0x10_0000)
    } else if c == 'g' || c == 'G' {
        Some(0x4000_0000)
    } else {
        None
    }
}

/// The size that `s` writes: a number, or a number and a suffix for kilo-, mega-
/// or gibibytes.
pub open spec fn size_of(s: Seq<char>) -> Option<u64> {
    let t = digits::trimmed(s);
    if t.len() > 0 && unit(t.last()) is Some {
        match digits::number(t.drop_last(), 10) {
            None => None,
            Some(n) => if n * unit(t.last()).unwrap() <= u64::MAX {
                Some((n * unit(t.last()).unwrap()) as u64)
            } else {
                None
            },
        }
    } else {
        digits::number(t, 10)
    }
}

impl OptionMap {
    /// No options.
    pub fn new() -> (r: Self)
        ensures
            r@ == Seq::<(Seq<char>, Seq<char>)>::empty(),
    {
        let r = OptionMap { items: Vec::new() };
        proof {
            assert(r@ =~= Seq::empty());
        }
        r
    }

    /// Add an option.
    pub fn insert(&mut self, key: &str, value: &str)
        ensures
            final(self)@ == old(self)@.push((key@, value@)),
    {
        let ghost before = self.items@;
        self.items.push((copy_text(key), copy_text(value)));
        proof {
            assert(self@ =~= option_views(before).push((key@, value@)));
        }
    }

    /// Take the option named `key`.
    pub fn take_str(&mut self, key: &str) -> (r: Option<String>)
        ensures
            ({
                let (v, rest) = taken(old(self)@, key@);
                &&& final(self)@ == rest
                &&& match r {
                    Some(s) => v == Some(s@),
                    None => v is None,
                }
            }),
    {
        let ghost s = self@;
        let mut i: usize = 0;
        while i < self.items.len()
            invariant
                i <= self.items@.len(),
                s == option_views(self.items@),
                s == old(self)@,
                option_at(s, key@, 0) == option_at(s, key@, i as int),
            decreases self.items@.len() - i,
        {
            if same_text(self.items[i].0.as_str(), key) {
                let ghost before = self.items@;
                let v = copy_text(self.items[i].1.as_str());
                self.items.remove(i);
                proof {
                    assert(s[i as int] == (before[i as int].0@, before[i as int].1@));
                    assert(self@ =~= s.remove(i as int));
                }
                return Some(v);
            }
            i = i + 1;
        }
        None
    }

    /// Take the option named `key`, which must be a number.
    pub fn take_u64(&mut self, key: &str) -> (r: Result<Option<u64>>)
        ensures
            ({
                let (v, rest) = taken(old(self)@, key@);
                &&& final(self)@ == rest
                &&& r == match v {
                    None => Ok::<Option<u64>, Error>(None),
                    Some(s) => match digits::number(digits::trimmed(s), 10) {
                        Some(n) => Ok(Some(n)),
                        None => Err(Error::InvalidArgument),
                    },
                }
            }),
    {
        match self.take_str(key) {
            None => Ok(None),
            Some(s) => {
                let t = trim(s.as_str());
                match parse_number(&t, 10) {
                    Some(n) => Ok(Some(n)),
                    None => Err(Error::InvalidArgument),
                }
            },
        }
    }

    /// Take the option named `key`, which must be a size.
    pub fn take_size(&mut self, key: &str) -> (r: Result<Option<u64>>)
        ensures
            ({
                let (v, rest) = taken(old(self)@, key@);
                &&& final(self)@ == rest
                &&& r == match v {
                    None => Ok::<Option<u64>, Error>(None),
                    Some(s) => match size_of(s) {
                        Some(n) => Ok(Some(n)),
                        None => Err(Error::InvalidArgument),
                    },
                }
            }),
    {
        match self.take_str(key) {
            None => Ok(None),
            Some(s) => match parse_size(s.as_str()) {
                Some(n) => Ok(Some(n)),
                None => Err(Error::InvalidArgument),
            },
        }
    }
}

fn unit_of(c: char) -> (r: Option<u64>)
    ensures
        match r {
            Some(n) => unit(c) == Some(n as int),
            None => unit(c) is None,
        },
{
    if c == 'k' || c == 'K' {
        Some(0x400)
    } else if c == 'm' || c == 'M' {
        Some(0x10_0000)
    } else if c == 'g' || c == 'G' {
        Some(0x4000_0000)
    } else {
        None
    }
}

/// The size that `s` writes.
pub fn parse_size(s: &str) -> (r: Option<u64>)
    ensures
        r == size_of(s@),
{
    let t = trim(s);
    let n: usize = t.len();
    if n > 0 {
        if let Some(u) = unit_of(t[n - 1]) {
            let d = crate::path::chars_range(&t, 0, n - 1);
            proof {
                assert(d@ =~= t@.drop_last());
            }
            return match parse_number(&d, 10) {
                None => None,
                Some(v) => v.checked_mul(u),
            };
        }
    }
    parse_number(&t, 10)
}

// ---- laws ----

proof fn lemma_absent(s: Seq<(Seq<char>, Seq<char>)>, k: Seq<char>, i: int)
    requires
        0 <= i <= s.len(),
        forall|j: int| i <= j < s.len() ==> (#[trigger] s[j]).0 != k,
    ensures
        option_at(s, k, i) is None,
    decreases s.len() - i,
{
    if i < s.len() {
        lemma_absent(s, k, i + 1);
    }
}

proof fn lemma_first(s: Seq<(Seq<char>, Seq<char>)>, k: Seq<char>, i: int, j: int)
    requires
        0 <= i <= j < s.len(),
        s[j].0 == k,
        forall|x: int| i <= x < j ==> (#[trigger] s[x]).0 != k,
    ensures
        option_at(s, k, i) == Some(j),
    decreases j - i,
{
    if i < j {
        lemma_first(s, k, i + 1, j);
    }
}

/// An option that was added is taken with its own value, and is gone then; all other
/// options stay, in their order. One that was not added is not there.
pub proof fn lemma_take(
    a: Seq<(Seq<char>, Seq<char>)>,
    k: Seq<char>,
    v: Seq<char>,
    b: Seq<(Seq<char>, Seq<char>)>,
)
    requires
        forall|j: int| 0 <= j < a.len() ==> (#[trigger] a[j]).0 != k,
        forall|j: int| 0 <= j < b.len() ==> (#[trigger] b[j]).0 != k,
    ensures
        taken(a.push((k, v)) + b, k) == (Some(v), a + b),
        taken(a + b, k) == (None::<Seq<char>>, a + b),
{
    let s = a.push((k, v)) + b;
    let n = a.len() as int;
    assert forall|x: int| 0 <= x < n implies (#[trigger] s[x]).0 != k by {
        assert(s[x] == a[x]);
    }
    assert(s[n] == (k, v));
    lemma_first(s, k, 0, n);
    assert(s.remove(n) =~= a + b);
    let t = a + b;
    assert forall|x: int| 0 <= x < t.len() implies (#[trigger] t[x]).0 != k by {
        if x < n {
            assert(t[x] == a[x]);
        } else {
            assert(t[x] == b[x - n]);
        }
    }
    lemma_absent(t, k, 0);
}

/// Whether `t` is a numeral: digits, and nothing else.
pub open spec fn is_numeral(t: Seq<char>) -> bool {
    t.len() > 0 && forall|i: int| 0 <= i < t.len() ==> '0' <= #[trigger] t[i] <= '9'
}

proof fn lemma_inked(t: Seq<char>)
    requires
        t.len() > 0,
        !digits::is_space(t[0]),
        !digits::is_space(t.last()),
    ensures
        digits::trimmed(t) == t,
{
    assert(digits::last_ink(t, t.len() as int) == t.len());
    assert(t.subrange(0, t.len() as int) =~= t);
    assert(digits::first_ink(t, 0) == 0);
    assert(t.subrange(0, t.len() as int) =~= t);
}

/// A size is a number of bytes, or of units of 1024, 1024 * 1024 or 1024 * 1024 *
/// 1024 bytes with the letter of the unit behind it, small or capital.
pub proof fn lemma_sizes(t: Seq<char>, n: u64)
    requires
        is_numeral(t),
        digits::number(t, 10) == Some(n),
    ensures
        size_of(t) == Some(n),
        n * 1024 <= u64::MAX ==> size_of(t.push('k')) == Some((n * 1024) as u64) && size_of(
            t.push('K'),
        ) == Some((n * 1024) as u64),
        n * 1048576 <= u64::MAX ==> size_of(t.push('m')) == Some((n * 1048576) as u64) && size_of(
            t.push('M'),
        ) == Some((n * 1048576) as u64),
        n * 1073741824 <= u64::MAX ==> size_of(t.push('g')) == Some((n * 1073741824) as u64)
            && size_of(t.push('G')) == Some((n * 1073741824) as u64),
        n * 1024 > u64::MAX ==> size_of(t.push('k')) is None,
{
    assert('0' <= t[0] <= '9');
    assert('0' <= t[t.len() - 1] <= '9');
    lemma_inked(t);
    lemma_suffixed(t, 'k');
    lemma_suffixed(t, 'K');
    lemma_suffixed(t, 'm');
    lemma_suffixed(t, 'M');
    lemma_suffixed(t, 'g');
    lemma_suffixed(t, 'G');
}

proof fn lemma_suffixed(t: Seq<char>, c: char)
    requires
        is_numeral(t),
        !digits::is_space(c),
    ensures
        digits::trimmed(t.push(c)) == t.push(c),
        t.push(c).drop_last() == t,
        t.push(c).last() == c,
{
    assert('0' <= t[0] <= '9');
    lemma_inked(t.push(c));
    assert(t.push(c).drop_last() =~= t);
}

} // verus!
