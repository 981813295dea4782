//! The forms that the name of a member may have, and what each stands for.

use vstd::prelude::*;

use crate::archive::ar::emit;
use crate::archive::ar::laws;
use crate::archive::ar::scan::{self, Head, Role};
use crate::archive::digits;
use crate::error::Error;
use crate::text;

verus! {

/// The characters of the number `n`.
pub open spec fn numeral(n: nat) -> Seq<char> {
    laws::chars(emit::numeral(n, 10))
}

proof fn lemma_numeral(n: nat)
    requires
        n <= u64::MAX,
    ensures
        digits::number(digits::trimmed(numeral(n)), 10) == Some(n as u64),
{
    laws::lemma_numeral(n, 10);
    let b = emit::numeral(n, 10);
    let s = numeral(n);
    let k = s.len() as int;
    assert(48 <= b[0] <= 57);
    assert(48 <= b[k - 1] <= 57);
    assert(digits::last_ink(s, k) == k);
    assert(s.subrange(0, k) =~= s);
    assert(digits::first_ink(s, 0) == 0);
    assert(digits::trimmed(s) =~= s);
}

/// `k` zero characters.
pub open spec fn nuls(k: nat) -> Seq<char> {
    Seq::new(k, |i: int| '\0')
}

proof fn lemma_without_nuls(s: Seq<char>, k: nat)
    requires
        s.len() > 0 ==> s.last() != '\0',
    ensures
        scan::without_nuls(s + nuls(k)) == s,
    decreases k,
{
    let t = s + nuls(k);
    if k > 0 {
        lemma_without_nuls(s, (k - 1) as nat);
        assert(t.last() == '\0');
        assert(t.drop_last() =~= s + nuls((k - 1) as nat));
    } else {
        assert(t =~= s);
    }
}

/// Whether `name` is one that a file may have: not that of a table of symbols.
pub open spec fn is_plain(name: Seq<char>) -> bool {
    name.len() > 0 && !scan::starts_with(name, "__.SYMDEF"@)
}

/// A member of a BSD archive with a long name: the name field tells how many bytes of
/// the body are the name, filled up with zero bytes, and the file is the rest.
pub proof fn lemma_bsd(
    img: Seq<u8>,
    h: Head,
    at: int,
    table: Option<Seq<u8>>,
    name: Seq<char>,
    k: nat,
)
    requires
        is_plain(name),
        name.last() != '\0',
        ({
            let n = text::utf8(name + nuls(k));
            &&& h.raw == "#1/"@ + numeral(n.len())
            &&& n.len() <= h.size
            &&& 0 <= at
            &&& at + h.size <= img.len()
            &&& img.subrange(at, at + n.len()) == n
        }),
    ensures
        ({
            let n = text::utf8(name + nuls(k)).len();
            scan::role(img, h, at, table) == Ok::<Role, Error>(
                Role::File { name, off: at + n, len: h.size - n },
            )
        }),
{
    reveal(scan::role);
    let n = text::utf8(name + nuls(k)).len();
    let raw = h.raw;
    laws::lemma_lits();
    assert(raw[0] == '#' && raw[1] == '1' && raw[2] == '/');
    assert("//"@[0] == '/' && "/"@[0] == '/' && "/SYM64/"@[0] == '/');
    assert(raw.subrange(0, 3) =~= "#1/"@);
    assert(raw.subrange(3, raw.len() as int) =~= numeral(n));
    lemma_numeral(n);
    text::lemma_text_of_utf8(name + nuls(k));
    lemma_without_nuls(name, k);
}

/// A file of a GNU archive with a long name: the name field tells where in the table
/// of long names its name starts, and a slash or a line end ends it there.
pub proof fn lemma_gnu(
    img: Seq<u8>,
    h: Head,
    at: int,
    t: Seq<u8>,
    off: nat,
    name: Seq<char>,
    end: int,
)
    requires
        is_plain(name),
        off <= end < t.len() <= u64::MAX,
        h.raw == "/"@ + numeral(off),
        t.subrange(off as int, end) == text::utf8(name),
        forall|i: int| off <= i < end ==> t[i] != 0x2f && t[i] != 0x0a,
        t[end] == 0x2f || t[end] == 0x0a,
    ensures
        scan::role(img, h, at, Some(t)) == Ok::<Role, Error>(
            Role::File { name, off: at, len: h.size as int },
        ),
{
    reveal(scan::role);
    let raw = h.raw;
    laws::lemma_lits();
    laws::lemma_numeral(off, 10);
    let d = emit::numeral(off, 10);
    assert(48 <= d[0] <= 57);
    assert(raw[0] == '/');
    assert(raw[1] == numeral(off)[0]);
    assert("//"@[1] == '/' && "/SYM64/"@[1] == 'S' && "/"@.len() == 1 && "#1/"@[0] == '#');
    if scan::starts_with(raw, "#1/"@) {
        assert(raw.subrange(0, 3)[0] == raw[0]);
    }
    assert(raw.subrange(0, 1) =~= "/"@);
    assert(raw.subrange(1, raw.len() as int) =~= numeral(off));
    lemma_numeral(off);
    lemma_name_end(t, off as int, end);
    text::lemma_text_of_utf8(name);
}

proof fn lemma_name_end(t: Seq<u8>, i: int, end: int)
    requires
        0 <= i <= end < t.len(),
        forall|k: int| i <= k < end ==> t[k] != 0x2f && t[k] != 0x0a,
        t[end] == 0x2f || t[end] == 0x0a,
    ensures
        scan::name_end(t, i) == end,
    decreases end - i,
{
    if i < end {
        lemma_name_end(t, i + 1, end);
    }
}

/// A short name stands in the name field itself, with a slash behind it or without.
pub proof fn lemma_short(
    img: Seq<u8>,
    h: Head,
    at: int,
    table: Option<Seq<u8>>,
    name: Seq<char>,
)
    requires
        is_plain(name),
        name[0] != '/',
        name.last() != '/',
        !scan::starts_with(name, "#1"@),
        h.raw == name || h.raw == name.push('/'),
    ensures
        scan::role(img, h, at, table) == Ok::<Role, Error>(
            Role::File { name, off: at, len: h.size as int },
        ),
{
    reveal(scan::role);
    let raw = h.raw;
    laws::lemma_lits();
    assert(raw[0] == name[0]);
    assert("//"@[0] == '/' && "/"@[0] == '/' && "/SYM64/"@[0] == '/');
    if scan::starts_with(raw, "/"@) {
        assert(raw.subrange(0, 1)[0] == raw[0]);
    }
    if scan::starts_with(raw, "#1/"@) {
        let f = raw.subrange(0, 3);
        assert(f[0] == '#' && f[1] == '1' && f[2] == '/');
        assert(name.len() >= 2 && name[0] == '#') by {
            assert(f[0] == raw[0] && f[1] == raw[1]);
        }
        assert(name[1] == raw[1]);
        assert(name.subrange(0, 2) =~= "#1"@);
    }
    assert(name.push('/').drop_last() =~= name);
}

/// The tables that an archive may have besides its files are no files: those of
/// symbols, by any of their names, and the table of long names.
pub proof fn lemma_tables(img: Seq<u8>, h: Head, at: int, table: Option<Seq<u8>>)
    ensures
        h.raw == "/"@ || h.raw == "/SYM64/"@ ==> scan::role(img, h, at, table) == Ok::<Role, Error>(
            Role::Other,
        ),
        h.raw == "//"@ ==> scan::role(img, h, at, table) == Ok::<Role, Error>(Role::Names),
        scan::starts_with(h.raw, "__.SYMDEF"@) && h.raw.last() != '/' ==> scan::role(
            img,
            h,
            at,
            table,
        ) == Ok::<Role, Error>(Role::Other),
{
    reveal(scan::role);
    laws::lemma_lits();
    reveal_strlit("__.SYMDEF");
    let raw = h.raw;
    assert("//"@.len() == 2 && "/"@.len() == 1 && "/SYM64/"@.len() == 7);
    if scan::starts_with(raw, "__.SYMDEF"@) {
        assert(raw.subrange(0, 9)[0] == '_');
        assert(raw[0] == '_');
        assert("//"@[0] == '/' && "/"@[0] == '/' && "/SYM64/"@[0] == '/' && "#1/"@[0] == '#');
        if scan::starts_with(raw, "#1/"@) {
            assert(raw.subrange(0, 3)[0] == raw[0]);
        }
        if scan::starts_with(raw, "/"@) {
            assert(raw.subrange(0, 1)[0] == raw[0]);
        }
    }
}

} // verus!
