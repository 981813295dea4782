//! Bytes at given places of a device, for saying how an archive is laid out.

use vstd::prelude::*;

use crate::archive::laws;
use crate::archive::names;
use crate::bytes;
use crate::path;

verus! {

/// Whether the device `img` holds the bytes `b` at `at`.
pub open spec fn holds(img: Seq<u8>, at: int, b: Seq<u8>) -> bool {
    0 <= at && at + b.len() <= img.len() && img.subrange(at, at + b.len()) == b
}

/// Whether the device `img` holds the 16-bit number `x` at `at`, low byte first.
pub open spec fn holds16(img: Seq<u8>, at: int, x: int) -> bool {
    0 <= x < 0x1_0000 && holds(img, at, bytes::le16(x as u16))
}

/// Whether the device `img` holds the 32-bit number `x` at `at`, low byte first.
pub open spec fn holds32(img: Seq<u8>, at: int, x: int) -> bool {
    0 <= x < 0x1_0000_0000 && holds(img, at, bytes::le32(x as u32))
}

pub broadcast proof fn lemma_holds16(img: Seq<u8>, at: int, x: int)
    requires
        #[trigger] holds16(img, at, x),
    ensures
        bytes::get16(img, at) == x,
        0 <= at && at + 2 <= img.len(),
{
    let b = bytes::le16(x as u16);
    bytes::lemma_le_lens();
    bytes::lemma_get_le(x as u16, 0, 0);
    assert(b.subrange(0, 2) =~= b);
    bytes::lemma_get_agree(img, at, b, 0);
}

pub broadcast proof fn lemma_holds32(img: Seq<u8>, at: int, x: int)
    requires
        #[trigger] holds32(img, at, x),
    ensures
        bytes::get32(img, at) == x,
        0 <= at && at + 4 <= img.len(),
{
    let b = bytes::le32(x as u32);
    bytes::lemma_le_lens();
    bytes::lemma_get_le(0, x as u32, 0);
    assert(b.subrange(0, 4) =~= b);
    bytes::lemma_get_agree(img, at, b, 0);
}

/// A name that a zero byte ends is read up to it.
pub proof fn lemma_holds_name(img: Seq<u8>, at: int, name: Seq<u8>, end: int)
    requires
        holds(img, at, name),
        forall|i: int| 0 <= i < name.len() ==> name[i] != 0,
        at + name.len() < end <= img.len(),
        img[at + name.len()] == 0,
    ensures
        bytes::nul_pos(img.subrange(at, end)) == name.len(),
        bytes::until_nul(img.subrange(at, end)) == name,
{
    let w = img.subrange(at, end);
    let v = img.subrange(at, at + name.len());
    assert forall|i: int| 0 <= i < name.len() implies w[i] == name[i] by {
        assert(v[i] == name[i]);
    }
    bytes::lemma_nul_pos(w, name.len() as int);
    assert(bytes::until_nul(w) =~= name);
}

// ---- names ----

/// Components with the character `c` between them.
pub open spec fn spaced(ps: Seq<Seq<char>>, c: char) -> Seq<char>
    decreases ps.len(),
{
    if ps.len() == 0 {
        Seq::empty()
    } else if ps.len() == 1 {
        ps[0]
    } else {
        spaced(ps.drop_last(), c).push(c) + ps.last()
    }
}

/// Whether the components `ps` are names, none of which leads upwards or holds a
/// backslash.
pub open spec fn are_names(ps: Seq<Seq<char>>) -> bool {
    &&& laws::are_parts(ps)
    &&& forall|i: int| 0 <= i < ps.len() ==> !names::is_up(#[trigger] ps[i])
    &&& forall|i: int, j: int|
        #![trigger ps[i][j]]
        0 <= i < ps.len() && 0 <= j < ps[i].len() ==> ps[i][j] != '\\'
}

proof fn lemma_front(ps: Seq<Seq<char>>)
    requires
        are_names(ps),
        ps.len() > 0,
    ensures
        are_names(ps.drop_last()),
        laws::is_part(ps.last()),
        !names::is_up(ps.last()),
{
    let front = ps.drop_last();
    assert forall|i: int| 0 <= i < front.len() implies laws::is_part(#[trigger] front[i])
        && !names::is_up(front[i]) by {
        assert(front[i] == ps[i]);
        assert(laws::is_part(ps[i]));
    }
    assert forall|i: int, j: int|
        #![trigger front[i][j]]
        0 <= i < front.len() && 0 <= j < front[i].len() implies front[i][j] != '\\' by {
        assert(front[i] == ps[i]);
        assert(ps[i][j] != '\\');
    }
    assert(laws::is_part(ps[ps.len() - 1]));
    assert(!names::is_up(ps[ps.len() - 1]));
}

proof fn lemma_spaced_parts(ps: Seq<Seq<char>>)
    requires
        are_names(ps),
    ensures
        path::parts(spaced(ps, '/')) == ps,
    decreases ps.len(),
{
    let none = Seq::<char>::empty();
    if ps.len() == 0 {
        laws::lemma_no_parts();
        assert(path::parts(none) =~= ps);
    } else if ps.len() == 1 {
        lemma_front(ps);
        laws::lemma_one_part(ps[0]);
        assert(ps =~= seq![ps[0]]);
    } else {
        let front = ps.drop_last();
        lemma_front(ps);
        lemma_spaced_parts(front);
        laws::lemma_part_behind(spaced(front, '/'), ps.last());
        assert(front.push(ps.last()) =~= ps);
    }
}

proof fn lemma_spaced_slashed(ps: Seq<Seq<char>>)
    requires
        are_names(ps),
    ensures
        names::slashed(spaced(ps, '\\')) == spaced(ps, '/'),
    decreases ps.len(),
{
    let s = spaced(ps, '\\');
    if ps.len() == 0 {
        assert(names::slashed(s) =~= spaced(ps, '/'));
    } else if ps.len() == 1 {
        assert forall|j: int| 0 <= j < s.len() implies s[j] != '\\' by {
            assert(ps[0][j] != '\\');
        }
        assert(names::slashed(s) =~= s);
    } else {
        let front = ps.drop_last();
        let last = ps.last();
        lemma_front(ps);
        lemma_spaced_slashed(front);
        assert forall|j: int| 0 <= j < last.len() implies last[j] != '\\' by {
            assert(ps[ps.len() - 1][j] != '\\');
        }
        assert(names::slashed(last) =~= last);
        assert(names::slashed(s) =~= names::slashed(spaced(front, '\\')).push('/') + last);
    }
}

proof fn lemma_all_down(ps: Seq<Seq<char>>, i: int)
    requires
        0 <= i <= ps.len(),
        forall|k: int| 0 <= k < ps.len() ==> !names::is_up(#[trigger] ps[k]),
    ensures
        names::downward(ps, i) == ps.take(i),
    decreases i,
{
    if i > 0 {
        lemma_all_down(ps, i - 1);
        assert(ps.take(i - 1).push(ps[i - 1]) =~= ps.take(i));
    } else {
        assert(ps.take(0) =~= Seq::<Seq<char>>::empty());
    }
}

/// Names with slashes between them hold no backslash.
pub proof fn lemma_no_backslash(ps: Seq<Seq<char>>)
    requires
        are_names(ps),
    ensures
        names::slashed(spaced(ps, '/')) == spaced(ps, '/'),
    decreases ps.len(),
{
    let s = spaced(ps, '/');
    if ps.len() == 1 {
        assert forall|j: int| 0 <= j < s.len() implies s[j] != '\\' by {
            assert(ps[0][j] != '\\');
        }
    } else if ps.len() > 1 {
        let front = ps.drop_last();
        let last = ps.last();
        lemma_front(ps);
        lemma_no_backslash(front);
        assert forall|j: int| 0 <= j < s.len() implies s[j] != '\\' by {
            let n = spaced(front, '/').len();
            if j < n {
                assert(s[j] == names::slashed(spaced(front, '/'))[j]);
            } else if j > n {
                assert(s[j] == last[j - n - 1]);
                assert(ps[ps.len() - 1][j - n - 1] != '\\');
            }
        }
    }
    assert(names::slashed(s) =~= s);
}

/// A stored name leads along its components, with slashes or backslashes between
/// them: `a/b/c` and `a\b\c` are found at the path `/a/b/c`.
pub proof fn lemma_stored_name(ps: Seq<Seq<char>>)
    requires
        are_names(ps),
    ensures
        names::stored_path(spaced(ps, '/')) == names::joined(ps),
        names::stored_path(names::slashed(spaced(ps, '\\'))) == names::joined(ps),
        names::normal(spaced(ps, '/')) == names::joined(ps),
        names::normal(names::slashed(spaced(ps, '\\'))) == names::joined(ps),
{
    lemma_spaced_parts(ps);
    lemma_spaced_slashed(ps);
    lemma_all_down(ps, ps.len() as int);
    assert(ps.take(ps.len() as int) =~= ps);
}

} // verus!
