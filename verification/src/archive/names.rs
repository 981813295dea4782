//! Names in archives, as paths.

use vstd::prelude::*;

use crate::path::{self, split_path};
use crate::text::{from_chars, to_chars};

verus! {

/// The entry `name` of the directory at the path `p`.
pub open spec fn child_path(p: Seq<char>, name: Seq<char>) -> Seq<char> {
    if p == seq!['/'] {
        p + name
    } else {
        p.push('/') + name
    }
}

/// The path with the components `ps`: it starts with a slash, and ends with one
/// only where it is the root.
pub open spec fn joined(ps: Seq<Seq<char>>) -> Seq<char>
    decreases ps.len(),
{
    if ps.len() == 0 {
        seq!['/']
    } else {
        child_path(joined(ps.drop_last()), ps.last())
    }
}

/// The path `s` in its normal form.
pub open spec fn normal(s: Seq<char>) -> Seq<char> {
    joined(path::parts(s))
}

/// Whether a component leads upwards.
pub open spec fn is_up(p: Seq<char>) -> bool {
    p == seq!['.', '.']
}

/// The first `i` of the components `ps`, without those that lead upwards.
pub open spec fn downward(ps: Seq<Seq<char>>, i: int) -> Seq<Seq<char>>
    decreases i,
{
    if i <= 0 {
        Seq::empty()
    } else if is_up(ps[i - 1]) {
        downward(ps, i - 1)
    } else {
        downward(ps, i - 1).push(ps[i - 1])
    }
}

/// The components of a stored name, without those that lead upwards.
pub open spec fn stored_parts(s: Seq<char>) -> Seq<Seq<char>> {
    downward(path::parts(s), path::parts(s).len() as int)
}

/// The path of a stored name.
pub open spec fn stored_path(s: Seq<char>) -> Seq<char> {
    joined(stored_parts(s))
}

/// `s` with slashes in place of backslashes.
pub open spec fn slashed(s: Seq<char>) -> Seq<char> {
    Seq::new(
        s.len(),
        |i: int|
            if s[i] == '\\' {
                '/'
            } else {
                s[i]
            },
    )
}

/// The bytes `b` as characters, one for one.
pub open spec fn latin1(b: Seq<u8>) -> Seq<char> {
    Seq::new(b.len(), |i: int| b[i] as char)
}

/// Index behind the last colon of the first `n` characters of `s`.
pub open spec fn behind_colon(s: Seq<char>, n: int) -> int
    decreases n,
{
    if n <= 0 {
        0
    } else if s[n - 1] == ':' {
        n
    } else {
        behind_colon(s, n - 1)
    }
}

/// What stands behind the last colon of `s`; all of it where there is none.
pub open spec fn without_drive(s: Seq<char>) -> Seq<char> {
    let k = behind_colon(s, s.len() as int);
    s.subrange(k, s.len() as int)
}

/// A text without a colon has no drive or volume to drop.
pub proof fn lemma_no_drive(s: Seq<char>)
    requires
        forall|i: int| 0 <= i < s.len() ==> s[i] != ':',
    ensures
        without_drive(s) == s,
{
    lemma_no_colon(s, s.len() as int);
    assert(without_drive(s) =~= s);
}

proof fn lemma_no_colon(s: Seq<char>, n: int)
    requires
        0 <= n <= s.len(),
        forall|i: int| 0 <= i < s.len() ==> s[i] != ':',
    ensures
        behind_colon(s, n) == 0,
    decreases n,
{
    if n > 0 {
        lemma_no_colon(s, n - 1);
    }
}

/// What stands behind a drive or volume and its colon is all that is left.
pub proof fn lemma_drive(v: Seq<char>, s: Seq<char>)
    requires
        forall|i: int| 0 <= i < s.len() ==> s[i] != ':',
    ensures
        without_drive(v.push(':') + s) == s,
{
    let t = v.push(':') + s;
    lemma_after_colon(v, s, s.len() as int);
    assert(without_drive(t) =~= s);
}

proof fn lemma_after_colon(v: Seq<char>, s: Seq<char>, n: int)
    requires
        0 <= n <= s.len(),
        forall|i: int| 0 <= i < s.len() ==> s[i] != ':',
    ensures
        behind_colon(v.push(':') + s, v.len() + 1 + n) == v.len() + 1,
    decreases n,
{
    if n > 0 {
        let t = v.push(':') + s;
        assert(t[v.len() + n] == s[n - 1]);
        lemma_after_colon(v, s, n - 1);
    }
}

proof fn lemma_behind_colon(s: Seq<char>, n: int)
    requires
        0 <= n <= s.len(),
    ensures
        0 <= behind_colon(s, n) <= n,
    decreases n,
{
    if n > 0 && s[n - 1] != ':' {
        lemma_behind_colon(s, n - 1);
    }
}

/// A path starts with a slash.
pub proof fn lemma_joined_head(ps: Seq<Seq<char>>)
    ensures
        joined(ps).len() > 0,
        joined(ps)[0] == '/',
    decreases ps.len(),
{
    if ps.len() > 0 {
        lemma_joined_head(ps.drop_last());
    }
}

/// Append `b` to `a`.
fn append_chars(a: &mut Vec<char>, b: &str)
    ensures
        final(a)@ == old(a)@ + b@,
{
    let v = to_chars(b);
    let ghost start = a@;
    let mut i: usize = 0;
    proof {
        assert(start + v@.take(0) =~= start);
    }
    while i < v.len()
        invariant
            i <= v@.len(),
            a@ == start + v@.take(i as int),
        decreases v@.len() - i,
    {
        a.push(v[i]);
        proof {
            assert((start + v@.take(i as int)).push(v@[i as int]) =~= start + v@.take(i + 1));
        }
        i = i + 1;
    }
    proof {
        assert(v@.take(i as int) =~= v@);
    }
}

/// The entry `name` of the directory at the path `p`.
pub fn join_child(p: &str, name: &str) -> (r: String)
    ensures
        r@ == child_path(p@, name@),
{
    let mut v = to_chars(p);
    let root = v.len() == 1 && v[0] == '/';
    proof {
        if root {
            assert(v@ =~= seq!['/']);
        } else if v@.len() == 1 {
            assert(seq!['/'][0] == '/');
        }
    }
    if !root {
        v.push('/');
    }
    append_chars(&mut v, name);
    from_chars(v.as_slice())
}

/// The path with the first `n` of the components `ps`.
pub fn join_parts(ps: &Vec<String>, n: usize) -> (r: String)
    requires
        n <= ps@.len(),
    ensures
        r@ == joined(path::texts(ps@).take(n as int)),
{
    let mut c: Vec<char> = Vec::new();
    c.push('/');
    let mut out = from_chars(c.as_slice());
    let ghost all = path::texts(ps@);
    let mut i: usize = 0;
    proof {
        assert(c@ =~= seq!['/']);
        assert(all.take(0).len() == 0);
    }
    while i < n
        invariant
            i <= n <= ps@.len(),
            all == path::texts(ps@),
            out@ == joined(all.take(i as int)),
        decreases n - i,
    {
        out = join_child(out.as_str(), ps[i].as_str());
        proof {
            assert(all.take(i + 1).drop_last() =~= all.take(i as int));
            assert(all.take(i + 1).last() == ps@[i as int]@);
        }
        i = i + 1;
    }
    out
}

/// Bring a path into its normal form: a leading slash, and no empty components,
/// no "." and no trailing slash.
pub fn normalise_path(p: &str) -> (r: String)
    ensures
        r@ == normal(p@),
{
    let ps = split_path(p);
    let n: usize = ps.len();
    proof {
        assert(path::texts(ps@).take(n as int) =~= path::texts(ps@));
    }
    join_parts(&ps, n)
}

/// The components of a stored name, without those that lead upwards.
pub fn split_stored(name: &str) -> (r: Vec<String>)
    ensures
        path::texts(r@) == stored_parts(name@),
{
    let ps = split_path(name);
    let ghost all = path::texts(ps@);
    let mut out: Vec<String> = Vec::new();
    let mut i: usize = 0;
    proof {
        assert(path::texts(out@) =~= Seq::empty());
    }
    while i < ps.len()
        invariant
            i <= ps@.len(),
            all == path::texts(ps@),
            path::texts(out@) == downward(all, i as int),
        decreases ps@.len() - i,
    {
        let c = to_chars(ps[i].as_str());
        let up = c.len() == 2 && c[0] == '.' && c[1] == '.';
        proof {
            assert(all[i as int] == c@);
            if up {
                assert(c@ =~= seq!['.', '.']);
            } else if is_up(c@) {
                assert(c@[0] == '.' && c@[1] == '.');
            }
        }
        if !up {
            let ghost before = out@;
            let t = from_chars(c.as_slice());
            out.push(t);
            proof {
                assert(path::texts(out@) =~= path::texts(before).push(c@));
            }
        }
        i = i + 1;
    }
    out
}

/// The path of a stored name.
pub fn path_of_stored(name: &str) -> (r: String)
    ensures
        r@ == stored_path(name@),
{
    let ps = split_stored(name);
    let n: usize = ps.len();
    proof {
        assert(path::texts(ps@).take(n as int) =~= path::texts(ps@));
    }
    join_parts(&ps, n)
}

/// Slashes in place of backslashes.
pub fn to_slashes(s: &str) -> (r: String)
    ensures
        r@ == slashed(s@),
{
    let v = to_chars(s);
    let mut out: Vec<char> = Vec::new();
    let mut i: usize = 0;
    while i < v.len()
        invariant
            i <= v@.len(),
            out@ =~= slashed(v@).take(i as int),
        decreases v@.len() - i,
    {
        out.push(
            if v[i] == '\\' {
                '/'
            } else {
                v[i]
            },
        );
        i = i + 1;
    }
    proof {
        assert(out@ =~= slashed(v@));
    }
    from_chars(out.as_slice())
}

/// The bytes `b` as characters, one for one.
pub fn from_latin1(b: &[u8]) -> (r: String)
    ensures
        r@ == latin1(b@),
{
    let mut out: Vec<char> = Vec::new();
    let mut i: usize = 0;
    while i < b.len()
        invariant
            i <= b@.len(),
            out@ =~= latin1(b@).take(i as int),
        decreases b@.len() - i,
    {
        out.push(b[i] as char);
        i = i + 1;
    }
    proof {
        assert(out@ =~= latin1(b@));
    }
    from_chars(out.as_slice())
}

/// What stands behind the last colon.
pub fn drop_drive(s: &str) -> (r: String)
    ensures
        r@ == without_drive(s@),
{
    let v = to_chars(s);
    let mut k: usize = v.len();
    while k > 0 && v[k - 1] != ':'
        invariant
            k <= v@.len(),
            behind_colon(v@, v@.len() as int) == behind_colon(v@, k as int),
        decreases k,
    {
        k = k - 1;
    }
    proof {
        lemma_behind_colon(v@, v@.len() as int);
    }
    let t = path::chars_range(&v, k, v.len());
    from_chars(t.as_slice())
}

/// Whether a path is the root.
pub fn is_root(p: &str) -> (r: bool)
    ensures
        r == (p@ == seq!['/']),
{
    let v = to_chars(p);
    let r = v.len() == 1 && v[0] == '/';
    proof {
        if r {
            assert(v@ =~= seq!['/']);
        } else if v@.len() == 1 {
            assert(seq!['/'][0] == '/');
        }
    }
    r
}

} // verus!
