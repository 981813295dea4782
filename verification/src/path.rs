//! Slash-separated paths.

use vstd::prelude::*;

use crate::text::{from_chars, to_chars};

verus! {

/// Index of the first slash of `s` from `from` on, or the length of `s`.
pub open spec fn next_slash(s: Seq<char>, from: int) -> int
    decreases s.len() - from,
{
    if from >= s.len() {
        s.len() as int
    } else if s[from] == '/' {
        from
    } else {
        next_slash(s, from + 1)
    }
}

/// Whether a path component names something: it is neither empty nor ".".
pub open spec fn counts(p: Seq<char>) -> bool {
    p.len() > 0 && p != seq!['.']
}

/// The components of `s` from `from` on that count.
pub open spec fn parts_from(s: Seq<char>, from: int) -> Seq<Seq<char>>
    decreases s.len() + 1 - from,
{
    if from > s.len() || from < 0 {
        Seq::empty()
    } else {
        let e = next_slash(s, from);
        let head = s.subrange(from, e);
        if e < from || e > s.len() {
            Seq::empty()
        } else if counts(head) {
            seq![head] + parts_from(s, e + 1)
        } else {
            parts_from(s, e + 1)
        }
    }
}

/// The components of the path `s` that count.
pub open spec fn parts(s: Seq<char>) -> Seq<Seq<char>> {
    parts_from(s, 0)
}

pub proof fn lemma_next_slash(s: Seq<char>, from: int)
    requires
        0 <= from <= s.len(),
    ensures
        from <= next_slash(s, from) <= s.len(),
        next_slash(s, from) < s.len() ==> s[next_slash(s, from)] == '/',
        forall|i: int| from <= i < next_slash(s, from) ==> s[i] != '/',
    decreases s.len() - from,
{
    if from < s.len() && s[from] != '/' {
        lemma_next_slash(s, from + 1);
    }
}

/// The views of a list of strings.
pub open spec fn texts(v: Seq<String>) -> Seq<Seq<char>> {
    Seq::new(v.len(), |i: int| v[i]@)
}

/// The characters `lo..hi` of `v`.
pub fn chars_range(v: &Vec<char>, lo: usize, hi: usize) -> (r: Vec<char>)
    requires
        lo <= hi <= v@.len(),
    ensures
        r@ == v@.subrange(lo as int, hi as int),
{
    let mut out: Vec<char> = Vec::new();
    let mut i: usize = lo;
    while i < hi
        invariant
            lo <= i <= hi <= v@.len(),
            out@ =~= v@.subrange(lo as int, i as int),
        decreases hi - i,
    {
        out.push(v[i]);
        i = i + 1;
    }
    out
}

/// Split a path into its components, leaving out empty ones and ".".
pub fn split_path(path: &str) -> (r: Vec<String>)
    ensures
        texts(r@) == parts(path@),
{
    let s = to_chars(path);
    let mut out: Vec<String> = Vec::new();
    let mut from: usize = 0;
    let mut i: usize = 0;
    let n: usize = s.len();
    proof {
        assert(texts(out@) + parts_from(path@, 0) =~= parts(path@));
    }
    loop
        invariant_except_break
            texts(out@) + parts_from(path@, from as int) == parts(path@),
        invariant
            s@ == path@,
            n == s@.len(),
            from <= i <= n,
            next_slash(path@, i as int) == next_slash(path@, from as int),
        ensures
            texts(out@) == parts(path@),
        decreases n + 1 - from, n - i,
    {
        if i < n && s[i] != '/' {
            i = i + 1;
            continue;
        }
        let head = chars_range(&s, from, i);
        proof {
            assert(next_slash(path@, i as int) == i);
        }
        let ghost before = out@;
        if head.len() > 0 && !(head.len() == 1 && head[0] == '.') {
            proof {
                if head@.len() == 1 {
                    assert(seq!['.'][0] == '.');
                }
            }
            let t = from_chars(head.as_slice());
            out.push(t);
            proof {
                assert(texts(out@) =~= texts(before).push(head@));
                assert(texts(before) + (seq![head@] + parts_from(path@, i + 1)) =~= texts(out@)
                    + parts_from(path@, i + 1));
            }
        } else {
            proof {
                if head@.len() == 1 {
                    assert(head@ =~= seq!['.']);
                }
            }
        }
        if i == n {
            proof {
                assert(parts_from(path@, n + 1) =~= Seq::<Seq<char>>::empty());
                assert(texts(out@) + parts_from(path@, n + 1) =~= texts(out@));
            }
            break;
        }
        from = i + 1;
        i = i + 1;
    }
    out
}

} // verus!
