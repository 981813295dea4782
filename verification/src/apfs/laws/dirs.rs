//! Directories of any volume, with plain or hashed keys: what a listing shows is
//! what its records say, and a name leads where the listing shows it.

use vstd::prelude::*;

use crate::apfs::fstree::DrecKeyLayout;
use crate::apfs::jrec::{self, APFS_TYPE_DIR_REC};
use crate::apfs::record;
use crate::apfs::volume::{self, Mounted};
use crate::archive::laws as parts;
use crate::bytes;
use crate::entry::{EntryKind, Listed};
use crate::error::Error;
use crate::path;
use crate::text;

verus! {

// ---- entries ----

/// An entry of a directory: its name, the object it leads to, and the code of its
/// type.
pub struct Link {
    pub name: Seq<char>,
    pub target: u64,
    pub code: u8,
}

/// Whether `b` has the bytes `s` at `at`.
pub open spec fn has(b: Seq<u8>, at: int, s: Seq<u8>) -> bool {
    0 <= at && at + s.len() <= b.len() && b.subrange(at, at + s.len()) == s
}

/// Whether `k` is the key of an entry named `name` of the directory `dir`: a word
/// with the kind of such records in its top 4 bits and the directory below; the
/// length of the name with its zero byte, in a plain key in 16 bits and in a hashed
/// one in the low 10 bits of 32, with a hash above; and the name.
pub open spec fn is_key(k: Seq<u8>, dir: u64, name: Seq<char>, layout: DrecKeyLayout, hash: nat) -> bool {
    let n = text::utf8(name);
    &&& dir < 0x1000_0000_0000_0000
    &&& has(k, 0, bytes::le64((9 * 0x1000_0000_0000_0000 + dir) as u64))
    &&& forall|i: int| 0 <= i < n.len() ==> n[i] != 0
    &&& match layout {
        DrecKeyLayout::Plain => {
            &&& n.len() + 1 <= 0xffff
            &&& has(k, 8, bytes::le16((n.len() + 1) as u16))
            &&& has(k, 10, n.push(0))
        },
        DrecKeyLayout::Hashed => {
            &&& n.len() + 1 <= 0x3ff
            &&& hash < 0x40_0000
            &&& has(k, 8, bytes::le32((hash * 0x400 + n.len() + 1) as u32))
            &&& has(k, 12, n.push(0))
        },
    }
}

/// Whether `v` is the value of an entry: the object, a time, and the code of the type
/// in the low byte of the flags.
pub open spec fn is_value(v: Seq<u8>, e: Link) -> bool {
    &&& v.len() >= 18
    &&& has(v, 0, bytes::le64(e.target))
    &&& v[16] == e.code
}

proof fn lemma_name(k: Seq<u8>, at: int, n: Seq<u8>, name: Seq<char>)
    requires
        n == text::utf8(name),
        has(k, at, n.push(0)),
        forall|i: int| 0 <= i < n.len() ==> n[i] != 0,
    ensures
        text::text_of(bytes::until_nul(k.subrange(at, at + n.len() + 1))) == name,
{
    let w = k.subrange(at, at + n.len() + 1);
    assert(w == n.push(0));
    assert forall|i: int| 0 <= i < n.len() implies w[i] != 0 by {
        assert(w[i] == n[i]);
    }
    bytes::lemma_nul_pos(w, n.len() as int);
    assert(bytes::until_nul(w) =~= n);
    text::lemma_text_of_utf8(name);
}

/// The key of an entry tells its name, in a plain and in a hashed directory alike,
/// whatever the hash.
pub proof fn lemma_key(k: Seq<u8>, dir: u64, name: Seq<char>, layout: DrecKeyLayout, hash: nat)
    requires
        is_key(k, dir, name, layout, hash),
    ensures
        volume::drec_name(k, layout) == Ok::<Seq<char>, Error>(name),
{
    let n = text::utf8(name);
    let w = (9 * 0x1000_0000_0000_0000 + dir) as u64;
    bytes::lemma_le_lens();
    bytes::lemma_get_le(0, 0, w);
    assert(bytes::le64(w).subrange(0, 8) =~= bytes::le64(w));
    bytes::lemma_get_agree(k, 0, bytes::le64(w), 0);
    jrec::lemma_key_word(9, dir);
    assert(jrec::key_word(9, dir) == w);
    match layout {
        DrecKeyLayout::Plain => {
            let l = (n.len() + 1) as u16;
            bytes::lemma_get_le(l, 0, 0);
            assert(bytes::le16(l).subrange(0, 2) =~= bytes::le16(l));
            bytes::lemma_get_agree(k, 8, bytes::le16(l), 0);
            lemma_name(k, 10, n, name);
        },
        DrecKeyLayout::Hashed => {
            let l = (hash * 0x400 + n.len() + 1) as u32;
            bytes::lemma_get_le(0, l, 0);
            assert(bytes::le32(l).subrange(0, 4) =~= bytes::le32(l));
            bytes::lemma_get_agree(k, 8, bytes::le32(l), 0);
            assert(l % 0x400 == n.len() + 1);
            lemma_name(k, 12, n, name);
        },
    }
}

proof fn lemma_utf32_len(s: Seq<char>)
    ensures
        record::utf32(s).len() == 4 * s.len(),
    decreases s.len(),
{
    bytes::lemma_le_lens();
    if s.len() > 0 {
        lemma_utf32_len(s.drop_last());
    }
}

/// A name is hashed with four bytes for each of its characters, the lowest first.
pub proof fn lemma_utf32(s: Seq<char>, i: int)
    requires
        0 <= i < s.len(),
    ensures
        record::utf32(s).len() == 4 * s.len(),
        bytes::get32(record::utf32(s), 4 * i) == s[i] as u32,
    decreases s.len(),
{
    let front = s.drop_last();
    let t = record::utf32(s);
    lemma_utf32_len(s);
    lemma_utf32_len(front);
    bytes::lemma_le_lens();
    if i < front.len() {
        lemma_utf32(front, i);
        let u = record::utf32(front);
        assert(t.subrange(4 * i, 4 * i + 4) =~= u.subrange(4 * i, 4 * i + 4));
        bytes::lemma_get_agree(t, 4 * i, u, 4 * i);
    } else {
        let w = bytes::le32(s[i] as u32);
        bytes::lemma_get_le(0, s[i] as u32, 0);
        assert(t.subrange(4 * i, 4 * i + 4) =~= w.subrange(0, 4));
        bytes::lemma_get_agree(t, 4 * i, w, 0);
    }
}

/// The word of a name in a hashed key: its length with the zero byte in the low 10
/// bits, and above it the low 22 bits of the checksum of the decomposed name, folded
/// where the volume does not tell cases apart. So names that differ in case alone have
/// one hash there, and names that differ in how they are composed have one everywhere.
pub proof fn lemma_name_word(a: Seq<char>, b: Seq<char>, fold: bool)
    ensures
        ({
            let w = record::name_word(a, fold);
            let v = record::name_word(b, fold);
            let c = if fold {
                record::folded_text(record::nfd_text(a))
            } else {
                record::nfd_text(a)
            };
            &&& w % 0x400 == (text::utf8(a).len() + 1) % 0x400
            &&& w / 0x400 == record::crc32c_of(record::utf32(c)) % 0x40_0000
            &&& record::nfd_text(a) == record::nfd_text(b) ==> w / 0x400 == v / 0x400
            &&& fold && record::folded_text(record::nfd_text(a)) == record::folded_text(
                record::nfd_text(b),
            ) ==> w / 0x400 == v / 0x400
        }),
{
}

/// The key that is built for a name, plain or hashed, is the key of that name.
pub proof fn lemma_built_key(dir: u64, name: Seq<char>, layout: DrecKeyLayout, fold: bool)
    requires
        dir < 0x1000_0000_0000_0000,
        forall|i: int| 0 <= i < text::utf8(name).len() ==> text::utf8(name)[i] != 0,
        text::utf8(name).len() + 1 <= match layout {
            DrecKeyLayout::Plain => 0xffffint,
            DrecKeyLayout::Hashed => 0x3ff,
        },
    ensures
        is_key(
            record::drec_key(dir, name, layout, fold),
            dir,
            name,
            layout,
            (record::name_word(name, fold) / 0x400) as nat,
        ),
        volume::drec_name(record::drec_key(dir, name, layout, fold), layout) == Ok::<
            Seq<char>,
            Error,
        >(name),
{
    let k = record::drec_key(dir, name, layout, fold);
    let n = text::utf8(name);
    let h = (record::name_word(name, fold) / 0x400) as nat;
    bytes::lemma_le_lens();
    jrec::lemma_key_word(9, dir);
    let w = (9 * 0x1000_0000_0000_0000 + dir) as u64;
    assert(jrec::key_word(9, dir) == w);
    assert(k.subrange(0, 8) =~= bytes::le64(w));
    match layout {
        DrecKeyLayout::Plain => {
            assert(k.subrange(8, 10) =~= bytes::le16((n.len() + 1) as u16));
            assert(k.subrange(10, 11 + n.len() as int) =~= n.push(0));
        },
        DrecKeyLayout::Hashed => {
            lemma_name_word(name, name, fold);
            assert(record::name_word(name, fold) == h * 0x400 + n.len() + 1);
            assert(k.subrange(8, 12) =~= bytes::le32((h * 0x400 + n.len() + 1) as u32));
            assert(k.subrange(12, 13 + n.len() as int) =~= n.push(0));
        },
    }
    lemma_key(k, dir, name, layout, h);
}

/// The value of an entry tells the object, and the type in its low byte.
pub proof fn lemma_value(v: Seq<u8>, e: Link)
    requires
        is_value(v, e),
    ensures
        jrec::drec_val(v) matches Ok(x) && x.file_id == e.target && x.flags % 0x100 == e.code,
{
    bytes::lemma_le_lens();
    bytes::lemma_get_le(0, 0, e.target);
    assert(bytes::le64(e.target).subrange(0, 8) =~= bytes::le64(e.target));
    bytes::lemma_get_agree(v, 0, bytes::le64(e.target), 0);
    reveal(bytes::get16);
    assert(bytes::get16(v, 16) % 0x100 == v[16]);
}

/// The kind of an entry with the type code `c`.
pub open spec fn kind_of(c: u8) -> EntryKind {
    if c == 1 {
        EntryKind::Fifo
    } else if c == 2 {
        EntryKind::Char
    } else if c == 4 {
        EntryKind::Dir
    } else if c == 6 {
        EntryKind::Block
    } else if c == 8 {
        EntryKind::Regular
    } else if c == 10 {
        EntryKind::Symlink
    } else if c == 12 {
        EntryKind::Socket
    } else {
        EntryKind::Unknown
    }
}

/// Whether the records of the directory `dir` of the volume `m` are those of the
/// entries `es`, in order.
pub open spec fn holds_entries(m: Mounted, img: Seq<u8>, dir: u64, es: Seq<Link>, hs: Seq<nat>) -> bool {
    let f = volume::found(m, img, dir, APFS_TYPE_DIR_REC);
    &&& f.err is None
    &&& f.recs.len() == es.len()
    &&& hs.len() == es.len()
    &&& forall|i: int|
        0 <= i < es.len() ==> is_key((#[trigger] f.recs[i]).0, dir, es[i].name, m.layout, hs[i])
            && is_value(f.recs[i].1, es[i])
}

/// What a listing shows of the entry `e`.
pub open spec fn shown(e: Link) -> Listed {
    Listed {
        name: e.name,
        inode: (e.target % 0x1_0000_0000) as u32,
        kind: kind_of(e.code),
        size: 0,
    }
}

proof fn lemma_listed(m: Mounted, img: Seq<u8>, dir: u64, es: Seq<Link>, hs: Seq<nat>, n: int)
    requires
        holds_entries(m, img, dir, es, hs),
        0 <= n <= es.len(),
    ensures
        volume::listed_upto(
            volume::found(m, img, dir, APFS_TYPE_DIR_REC).recs,
            m.layout,
            n,
        ) == Seq::new(n as nat, |i: int| shown(es[i])),
    decreases n,
{
    let f = volume::found(m, img, dir, APFS_TYPE_DIR_REC);
    if n > 0 {
        lemma_listed(m, img, dir, es, hs, n - 1);
        let r = f.recs[n - 1];
        assert(is_key(r.0, dir, es[n - 1].name, m.layout, hs[n - 1]));
        lemma_key(r.0, dir, es[n - 1].name, m.layout, hs[n - 1]);
        lemma_value(r.1, es[n - 1]);
        assert(volume::listed(r, m.layout) == Some(shown(es[n - 1])));
        assert(Seq::new((n - 1) as nat, |i: int| shown(es[i])).push(shown(es[n - 1])) =~= Seq::new(
            n as nat,
            |i: int| shown(es[i]),
        ));
    } else {
        assert(Seq::new(0, |i: int| shown(es[i])) =~= Seq::<Listed>::empty());
    }
}

proof fn lemma_child_from(
    m: Mounted,
    img: Seq<u8>,
    dir: u64,
    es: Seq<Link>,
    hs: Seq<nat>,
    i: int,
    k: int,
    name: Seq<char>,
)
    requires
        holds_entries(m, img, dir, es, hs),
        0 <= i <= k <= es.len(),
        forall|j: int| i <= j < k ==> (#[trigger] es[j]).name != name,
        k < es.len() ==> es[k].name == name,
    ensures
        volume::child_named(
            volume::found(m, img, dir, APFS_TYPE_DIR_REC),
            m.layout,
            name,
            i,
        ) == Ok::<Option<u64>, Error>(
            if k < es.len() {
                Some(es[k].target)
            } else {
                None
            },
        ),
    decreases es.len() - i,
{
    let f = volume::found(m, img, dir, APFS_TYPE_DIR_REC);
    if i < es.len() {
        let r = f.recs[i];
        assert(is_key(r.0, dir, es[i].name, m.layout, hs[i]));
        lemma_key(r.0, dir, es[i].name, m.layout, hs[i]);
        lemma_value(r.1, es[i]);
        if i < k {
            lemma_child_from(m, img, dir, es, hs, i + 1, k, name);
        }
    }
}

/// A directory is listed as its records say: all its entries, in order, each with its
/// name, the kind of its type, and the number of its object.
pub proof fn lemma_listing(m: Mounted, img: Seq<u8>, dir: u64, es: Seq<Link>, hs: Seq<nat>)
    requires
        holds_entries(m, img, dir, es, hs),
    ensures
        volume::list_dir(m, img, dir) == Ok::<Seq<Listed>, Error>(
            Seq::new(es.len(), |i: int| shown(es[i])),
        ),
{
    lemma_listed(m, img, dir, es, hs, es.len() as int);
}

/// A name leads to the object of its own entry, the first of that name, and a name
/// that no entry has leads nowhere.
pub proof fn lemma_child(
    m: Mounted,
    img: Seq<u8>,
    dir: u64,
    es: Seq<Link>,
    hs: Seq<nat>,
    k: int,
    name: Seq<char>,
)
    requires
        holds_entries(m, img, dir, es, hs),
        0 <= k <= es.len(),
        forall|j: int| 0 <= j < k ==> (#[trigger] es[j]).name != name,
        k < es.len() ==> es[k].name == name,
    ensures
        volume::child(m, img, dir, name) == Ok::<Option<u64>, Error>(
            if k < es.len() {
                Some(es[k].target)
            } else {
                None
            },
        ),
{
    lemma_child_from(m, img, dir, es, hs, 0, k, name);
}

// ---- paths ----

proof fn lemma_walk_on(m: Mounted, img: Seq<u8>, dir: u64, ps: Seq<Seq<char>>, name: Seq<char>)
    ensures
        volume::walk(m, img, dir, ps.push(name)) == match volume::walk(m, img, dir, ps) {
            Err(e) => Err(e),
            Ok(o) => match volume::child(m, img, o, name) {
                Err(e) => Err(e),
                Ok(None) => Err(Error::InvalidArgument),
                Ok(Some(x)) => Ok(x),
            },
        },
    decreases ps.len(),
{
    let qs = ps.push(name);
    if ps.len() == 0 {
        assert(qs.drop_first() =~= Seq::empty());
        reveal_with_fuel(volume::walk, 2);
    } else {
        assert(qs[0] == ps[0]);
        assert(qs.drop_first() =~= ps.drop_first().push(name));
        if let Ok(Some(o)) = volume::child(m, img, dir, ps[0]) {
            lemma_walk_on(m, img, o, ps.drop_first(), name);
        }
    }
}

/// A path leads where its last component leads from the directory that the rest of
/// it leads to; the root has no components; and a slash more or less, or a component
/// that is a single dot, makes no difference.
pub proof fn lemma_path(m: Mounted, img: Seq<u8>, p: Seq<char>, name: Seq<char>)
    requires
        parts::is_part(name),
    ensures
        volume::resolve(m, img, p.push('/') + name) == match volume::resolve(m, img, p) {
            Err(e) => Err(e),
            Ok(o) => match volume::child(m, img, o, name) {
                Err(e) => Err(e),
                Ok(None) => Err(Error::InvalidArgument),
                Ok(Some(x)) => Ok(x),
            },
        },
        volume::resolve(m, img, seq!['/']) == Ok::<u64, Error>(2),
        volume::resolve(m, img, Seq::empty()) == Ok::<u64, Error>(2),
        volume::resolve_parent(m, img, p.push('/') + name) == match volume::resolve(m, img, p) {
            Err(e) => Err(e),
            Ok(o) => Ok((o, name)),
        },
{
    parts::lemma_part_behind(p, name);
    parts::lemma_root_parts();
    parts::lemma_no_parts();
    lemma_walk_on(m, img, volume::ROOT_DIR_INO, path::parts(p), name);
    let ps = path::parts(p);
    assert(ps.push(name).drop_last() =~= ps);
    assert(ps.push(name).last() == name);
}

} // verus!
