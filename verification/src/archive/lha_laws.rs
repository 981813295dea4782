//! What is read of an LHA archive, from the members that were put into it.

use vstd::prelude::*;

use crate::archive::index::{DataLocator, EntryKind, Item, Method};
use crate::archive::laws;
use crate::archive::layout::{self, holds, holds16, holds32};
use crate::archive::lha::{self, Ext, Known, LhaFile, LhaFs, Record, Scanned, MAX_EXTENDED};
use crate::archive::lha::MAX_MEMBERS;
use crate::archive::listing;
use crate::archive::names;
use crate::bytes;
use crate::error::Error;
use crate::path;

verus! {

// ---- extended headers ----

/// An extended header: its kind and its data.
pub struct Note {
    pub kind: u8,
    pub data: Seq<u8>,
}

/// The kind of a header that tells the name.
pub const NAME: u8 = 1;

/// The kind of a header that tells the directory.
pub const DIRECTORY: u8 = 2;

/// Number of bytes of the header `i` of `ns`, its kind and the size of the next one
/// counted; 0 behind the last.
pub open spec fn note_size(ns: Seq<Note>, i: int) -> int {
    if i < ns.len() {
        ns[i].data.len() as int + 3
    } else {
        0
    }
}

/// Number of bytes of the first `i` headers of `ns`.
pub open spec fn notes_len(ns: Seq<Note>, i: int) -> int
    decreases i,
{
    if i <= 0 {
        0
    } else {
        notes_len(ns, i - 1) + note_size(ns, i - 1)
    }
}

/// Data of the last header of the kind `kind` among the first `i` of `ns`.
pub open spec fn last_note(ns: Seq<Note>, kind: u8, i: int) -> Option<Seq<u8>>
    decreases i,
{
    if i <= 0 {
        None
    } else if ns[i - 1].kind == kind {
        Some(ns[i - 1].data)
    } else {
        last_note(ns, kind, i - 1)
    }
}

/// What the headers `ns` tell of the kind `kind`.
pub open spec fn noted(ns: Seq<Note>, kind: u8) -> Option<Seq<u8>> {
    last_note(ns, kind, ns.len() as int)
}

/// Whether the device `img` holds the headers `ns` from `at` on: each has its kind,
/// its data, and the size of the next one.
pub open spec fn holds_notes(img: Seq<u8>, ns: Seq<Note>, at: int) -> bool {
    &&& ns.len() <= 4096
    &&& forall|i: int|
        0 <= i < ns.len() ==> #[trigger] holds_note(img, ns, at + notes_len(ns, i), i)
}

/// Whether the device `img` holds the header `i` of `ns` at `at`.
pub open spec fn holds_note(img: Seq<u8>, ns: Seq<Note>, at: int, i: int) -> bool {
    &&& holds(img, at, seq![ns[i].kind])
    &&& holds(img, at + 1, ns[i].data)
    &&& holds16(img, at + 1 + ns[i].data.len(), note_size(ns, i + 1))
}

proof fn lemma_chain(img: Seq<u8>, ns: Seq<Note>, at: int, i: int)
    requires
        holds_notes(img, ns, at),
        0 <= i <= ns.len(),
    ensures
        lha::chain(
            img,
            at + notes_len(ns, i),
            note_size(ns, i),
            MAX_EXTENDED - i,
            Ext {
                sum: notes_len(ns, i),
                name: last_note(ns, NAME, i),
                dir: last_note(ns, DIRECTORY, i),
            },
        ) == Ok::<Ext, Error>(
            Ext {
                sum: notes_len(ns, ns.len() as int),
                name: noted(ns, NAME),
                dir: noted(ns, DIRECTORY),
            },
        ),
    decreases ns.len() - i,
{
    if i < ns.len() {
        broadcast use layout::lemma_holds16;

        let cur = at + notes_len(ns, i);
        assert(holds_note(img, ns, cur, i));
        let k = img.subrange(cur, cur + 1);
        assert(k[0] == ns[i].kind);
        assert(img.subrange(cur + 1, cur + note_size(ns, i) - 2) == ns[i].data);
        lemma_chain(img, ns, at, i + 1);
    }
}

proof fn lemma_notes(img: Seq<u8>, ns: Seq<Note>, at: int)
    requires
        holds_notes(img, ns, at),
    ensures
        lha::extended(img, at, note_size(ns, 0)) == Ok::<Ext, Error>(
            Ext {
                sum: notes_len(ns, ns.len() as int),
                name: noted(ns, NAME),
                dir: noted(ns, DIRECTORY),
            },
        ),
        notes_len(ns, ns.len() as int) >= 0,
{
    lemma_chain(img, ns, at, 0);
    lemma_notes_len(ns, ns.len() as int);
}

proof fn lemma_notes_len(ns: Seq<Note>, i: int)
    ensures
        notes_len(ns, i) >= 0,
    decreases i,
{
    if i > 0 {
        lemma_notes_len(ns, i - 1);
    }
}

// ---- members ----

/// A member: the level of its header, the tag of its method, the name in the header
/// itself, the extended headers, the bytes, and how many they unpack to.
pub struct Member {
    pub level: u8,
    pub tag: Seq<u8>,
    pub name: Seq<u8>,
    pub notes: Seq<Note>,
    /// Number of bytes of the header, the extended ones at level 2 counted.
    pub head: int,
    pub body: Seq<u8>,
    pub unpacked: u32,
}

impl Member {
    /// Number of bytes of its extended headers.
    pub open spec fn extended(self) -> int {
        notes_len(self.notes, self.notes.len() as int)
    }

    /// Where its bytes are, when its header is at `at`.
    pub open spec fn body_at(self, at: int) -> int {
        if self.level == 1 {
            at + self.head + self.extended()
        } else {
            at + self.head
        }
    }

    /// Where the next member is.
    pub open spec fn next_at(self, at: int) -> int {
        self.body_at(at) + self.body.len()
    }
}

/// Whether the device `img` holds the member `m` with its header at `at`. A header
/// has the tag of the method, the number of bytes behind it, how many they unpack
/// to, and its level. At the levels 0 and 1 it starts with its own length in one
/// byte and has the name; at level 1 its last two bytes are the size of the first
/// extended header, and the number of bytes takes those headers in. At level 2 it
/// starts with its length in two bytes, the first of which is not zero, and the
/// extended headers are part of it.
pub open spec fn holds_member(img: Seq<u8>, m: Member, at: int) -> bool {
    &&& 0 <= at
    &&& img.len() <= u64::MAX
    &&& m.tag.len() == 3
    &&& holds(img, at + 3, m.tag)
    &&& holds32(img, at + 11, m.unpacked as int)
    &&& holds(img, at + 20, seq![m.level])
    &&& holds(img, m.body_at(at), m.body)
    &&& match m.level {
        0 => {
            &&& m.notes.len() == 0
            &&& 22 + m.name.len() <= m.head <= 257
            &&& holds(img, at, seq![(m.head - 2) as u8])
            &&& holds32(img, at + 7, m.body.len() as int)
            &&& holds(img, at + 21, seq![m.name.len() as u8])
            &&& holds(img, at + 22, m.name)
        },
        1 => {
            &&& 24 + m.name.len() <= m.head <= 257
            &&& holds(img, at, seq![(m.head - 2) as u8])
            &&& holds32(img, at + 7, m.extended() + m.body.len())
            &&& holds(img, at + 21, seq![m.name.len() as u8])
            &&& holds(img, at + 22, m.name)
            &&& holds16(img, at + m.head - 2, note_size(m.notes, 0))
            &&& holds_notes(img, m.notes, at + m.head)
        },
        2 => {
            &&& m.name.len() == 0
            &&& 26 + m.extended() <= m.head
            &&& m.head % 0x100 != 0
            &&& holds16(img, at, m.head)
            &&& holds32(img, at + 7, m.body.len() as int)
            &&& holds16(img, at + 24, note_size(m.notes, 0))
            &&& holds_notes(img, m.notes, at + 26)
        },
        _ => false,
    }
}

/// The name of the member `m`: the extended headers come before the header itself.
pub open spec fn name_of(m: Member) -> Seq<u8> {
    match noted(m.notes, NAME) {
        Some(n) => n,
        None => m.name,
    }
}

/// The characters of plain bytes.
pub open spec fn chars(b: Seq<u8>) -> Seq<char> {
    Seq::new(b.len(), |i: int| b[i] as char)
}

/// What is read of the member `m` with its header at `at`.
pub open spec fn record_of(m: Member, at: int) -> Record {
    Record {
        path: lha::member_path(noted(m.notes, DIRECTORY), name_of(m)),
        tag: chars(m.tag),
        at: m.body_at(at),
        packed: m.body.len() as int,
        unpacked: m.unpacked as u64,
        next: m.next_at(at),
    }
}

/// A member is read as it was laid out, whatever the level of its header: the name
/// and the directory come from the extended headers, and its bytes are just those
/// behind the headers.
#[verifier::spinoff_prover]
#[verifier::rlimit(40)]
pub proof fn lemma_member(img: Seq<u8>, m: Member, at: int)
    requires
        holds_member(img, m, at),
    ensures
        lha::record(img, at) == Ok::<Option<Record>, Error>(Some(record_of(m, at))),
        at < m.next_at(at) <= img.len(),
{
    broadcast use {layout::lemma_holds16, layout::lemma_holds32};

    let lv = img.subrange(at + 20, at + 21);
    assert(lv[0] == m.level);
    let tag = img.subrange(at + 3, at + 6);
    assert(tag == m.tag);
    assert(names::latin1(tag) =~= chars(m.tag));
    lemma_notes_len(m.notes, m.notes.len() as int);
    if m.level == 2 {
        lemma_notes(img, m.notes, at + 26);
        lemma_low_byte(img, at, m.head);
        assert(m.name =~= Seq::empty());
        assert(lha::long_header(img, at) == Ok::<Option<Record>, Error>(Some(record_of(m, at))));
    } else {
        let h = img.subrange(at, at + 1);
        assert(h[0] == (m.head - 2) as u8);
        let n = img.subrange(at + 21, at + 22);
        assert(n[0] == m.name.len() as u8);
        assert(img.subrange(at + 22, at + 22 + m.name.len()) == m.name);
        if m.level == 1 {
            lemma_notes(img, m.notes, at + m.head);
        } else {
            assert(noted(m.notes, NAME) is None && noted(m.notes, DIRECTORY) is None);
            assert(m.extended() == 0);
        }
        assert(lha::short_header(img, at, m.level) == Ok::<Option<Record>, Error>(
            Some(record_of(m, at)),
        ));
    }
}

proof fn lemma_low_byte(img: Seq<u8>, at: int, x: int)
    requires
        holds16(img, at, x),
        x % 0x100 != 0,
    ensures
        img[at] != 0,
{
    reveal(bytes::le16);
    let b = img.subrange(at, at + 2);
    assert(b[0] == bytes::le16(x as u16)[0]);
}

// ---- paths ----

/// The data of a directory header: each component is followed by a byte 0xff.
pub open spec fn dir_data(ds: Seq<Seq<u8>>) -> Seq<u8>
    decreases ds.len(),
{
    if ds.len() == 0 {
        Seq::empty()
    } else {
        (dir_data(ds.drop_last()) + ds.last()).push(0xff)
    }
}

/// The characters of components.
pub open spec fn all_chars(ds: Seq<Seq<u8>>) -> Seq<Seq<char>> {
    Seq::new(ds.len(), |i: int| chars(ds[i]))
}

/// Whether the components `ds` are names, and hold no colon and no byte 0xff.
pub open spec fn plain(ds: Seq<Seq<u8>>) -> bool {
    &&& layout::are_names(all_chars(ds))
    &&& forall|i: int, j: int|
        #![trigger ds[i][j]]
        0 <= i < ds.len() && 0 <= j < ds[i].len() ==> ds[i][j] != 0x3a && ds[i][j] != 0xff
}

proof fn lemma_plain_front(ds: Seq<Seq<u8>>)
    requires
        plain(ds),
        ds.len() > 0,
    ensures
        plain(ds.drop_last()),
        all_chars(ds).drop_last() == all_chars(ds.drop_last()),
        all_chars(ds).last() == chars(ds.last()),
        forall|j: int|
            0 <= j < ds.last().len() ==> (#[trigger] ds.last()[j]) != 0x3a && ds.last()[j] != 0xff
                && ds.last()[j] != 0x5c && ds.last()[j] != 0x2f,
{
    let front = ds.drop_last();
    let (a, b) = (all_chars(ds), all_chars(front));
    assert(a.drop_last() =~= b);
    assert forall|i: int| 0 <= i < b.len() implies laws::is_part(#[trigger] b[i])
        && !names::is_up(b[i]) by {
        assert(a[i] == b[i]);
        assert(laws::is_part(a[i]) && !names::is_up(a[i]));
    }
    assert forall|i: int, j: int|
        #![trigger b[i][j]]
        0 <= i < b.len() && 0 <= j < b[i].len() implies b[i][j] != '\\' by {
        assert(a[i] == b[i]);
        assert(a[i][j] != '\\');
    }
    assert forall|i: int, j: int|
        #![trigger front[i][j]]
        0 <= i < front.len() && 0 <= j < front[i].len() implies front[i][j] != 0x3a && front[i][j]
        != 0xff by {
        assert(front[i] == ds[i]);
        assert(ds[i][j] != 0x3a);
    }
    let k = ds.len() - 1;
    assert forall|j: int| 0 <= j < ds.last().len() implies (#[trigger] ds.last()[j]) != 0x3a
        && ds.last()[j] != 0xff && ds.last()[j] != 0x5c && ds.last()[j] != 0x2f by {
        assert(ds[k][j] != 0x3a);
        assert(a[k][j] != '\\');
        assert(laws::is_part(a[k]));
        assert(a[k][j] != '/');
    }
}

proof fn lemma_dir_data(ds: Seq<Seq<u8>>)
    requires
        plain(ds),
        ds.len() > 0,
    ensures
        lha::dir_chars(dir_data(ds)) == layout::spaced(all_chars(ds), '/').push('/'),
        forall|i: int| 0 <= i < dir_data(ds).len() ==> dir_data(ds)[i] != 0x3a,
    decreases ds.len(),
{
    let front = ds.drop_last();
    let last = ds.last();
    lemma_plain_front(ds);
    let d = dir_data(ds);
    assert(lha::dir_chars(last) =~= chars(last));
    if ds.len() == 1 {
        assert(front =~= Seq::empty());
        assert(dir_data(front) =~= Seq::empty());
        assert(d =~= last.push(0xff));
        assert(all_chars(ds)[0] == chars(last));
        assert(lha::dir_chars(d) =~= chars(last).push('/'));
    } else {
        lemma_dir_data(front);
        assert(lha::dir_chars(d) =~= (lha::dir_chars(dir_data(front)) + chars(last)).push('/'));
    }
}

/// A member is found at the path of its directory and its name: with the components
/// `ds` in the directory header and the name `n`, at `/d1/d2/../n`.
pub proof fn lemma_member_path(ds: Seq<Seq<u8>>, n: Seq<u8>)
    requires
        plain(ds.push(n)),
    ensures
        ds.len() > 0 ==> lha::member_path(Some(dir_data(ds)), n) == names::joined(
            all_chars(ds.push(n)),
        ),
        ds.len() == 0 ==> lha::member_path(None, n) == names::joined(all_chars(ds.push(n))),
{
    let all = ds.push(n);
    assert(all.drop_last() =~= ds);
    assert(all.last() == n);
    lemma_plain_front(all);
    assert(lha::name_chars(n) =~= chars(n));
    layout::lemma_stored_name(all_chars(all));
    let raw = layout::spaced(all_chars(all), '/');
    if ds.len() > 0 {
        lemma_dir_data(ds);
        let c = lha::dir_chars(dir_data(ds));
        assert(lha::raw_path(Some(dir_data(ds)), n) =~= raw);
        assert forall|i: int| 0 <= i < raw.len() implies raw[i] != ':' by {
            if i < c.len() {
                assert(raw[i] == c[i]);
                assert(dir_data(ds)[i] != 0x3a);
            } else {
                assert(raw[i] == chars(n)[i - c.len()]);
                assert(all.last()[i - c.len()] != 0x3a);
            }
        }
    } else {
        assert(all_chars(all)[0] == chars(n));
        assert(raw =~= chars(n));
        assert(lha::raw_path(None, n) =~= raw);
        assert forall|i: int| 0 <= i < raw.len() implies raw[i] != ':' by {
            assert(all.last()[i] != 0x3a);
        }
    }
    names::lemma_no_drive(raw);
}

/// The path of a member does not depend on the level of the header that carries the
/// extended headers: with a directory header of the components `ds` and a name
/// header `n` it is found at the path of these, at level 1 and at level 2, wherever
/// in the archive and among whatever other headers.
pub proof fn lemma_levels_alike(
    img: Seq<u8>,
    at: int,
    m: Member,
    other: Seq<u8>,
    there: int,
    o: Member,
    ds: Seq<Seq<u8>>,
    n: Seq<u8>,
)
    requires
        holds_member(img, m, at),
        holds_member(other, o, there),
        m.level == 1,
        o.level == 2,
        plain(ds.push(n)),
        ds.len() > 0,
        noted(m.notes, DIRECTORY) == Some(dir_data(ds)),
        noted(m.notes, NAME) == Some(n),
        o.notes == m.notes,
    ensures
        lha::record(img, at) matches Ok(Some(r)) && lha::record(other, there) matches Ok(Some(s))
            && {
            &&& r.path == names::joined(all_chars(ds.push(n)))
            &&& s.path == r.path
            &&& img.subrange(r.at, r.at + r.packed) == m.body
            &&& other.subrange(s.at, s.at + s.packed) == o.body
        },
{
    lemma_member(img, m, at);
    lemma_member(other, o, there);
    lemma_member_path(ds, n);
}

// ---- archives ----

/// Where member `i` of `ms` is: behind the bytes of the one before it.
pub open spec fn member_at(ms: Seq<Member>, i: int) -> int
    decreases i,
{
    if i <= 0 {
        0
    } else {
        ms[i - 1].next_at(member_at(ms, i - 1))
    }
}

/// Whether the device `img` holds an archive with the members `ms`: one behind
/// another, and then nothing more or a zero byte.
pub open spec fn holds_archive(img: Seq<u8>, ms: Seq<Member>) -> bool {
    &&& ms.len() < MAX_MEMBERS
    &&& forall|i: int|
        0 <= i < ms.len() ==> #[trigger] holds_member(img, ms[i], member_at(ms, i))
    &&& ({
        let end = member_at(ms, ms.len() as int);
        img.len() < end + 21 || img[end] == 0
    })
}

/// The path of the member `m`.
pub open spec fn path_of(m: Member) -> Seq<char> {
    lha::member_path(noted(m.notes, DIRECTORY), name_of(m))
}

/// What the tree shows of the member `m`, whose header is at `at`: a directory, or a
/// file with the length that its bytes unpack to.
pub open spec fn item_of(m: Member, at: int) -> Item {
    let dir = m.tag == seq![0x6cu8, 0x68, 0x64];
    Item {
        path: path_of(m),
        kind: if dir {
            EntryKind::Dir
        } else {
            EntryKind::Regular
        },
        mode: if dir {
            0o755
        } else {
            0o644
        },
        uid: 0,
        gid: 0,
        mtime: 0,
        link: None,
        major: 0,
        minor: 0,
        data: if dir {
            None
        } else {
            Some(
                DataLocator {
                    offset: m.body_at(at) as u64,
                    compressed_len: m.body.len() as u64,
                    uncompressed_len: m.unpacked as u64,
                    method: Method::Stored,
                },
            )
        },
    }
}

/// What the tree shows of the members `ms`.
pub open spec fn items_of(ms: Seq<Member>) -> Seq<Item> {
    Seq::new(ms.len(), |i: int| item_of(ms[i], member_at(ms, i)))
}

/// What is known of the first `i` of the members `ms`, by path; directories are in
/// the tree alone.
pub open spec fn known_of(ms: Seq<Member>, i: int) -> Map<Seq<char>, Known>
    decreases i,
{
    if i <= 0 {
        Map::empty()
    } else {
        let m = ms[i - 1];
        let at = member_at(ms, i - 1);
        if path_of(m) == seq!['/'] || m.tag == seq![0x6cu8, 0x68, 0x64] {
            known_of(ms, i - 1)
        } else {
            known_of(ms, i - 1).insert(
                path_of(m),
                if m.tag == seq![0x6cu8, 0x68, 0x30] {
                    Known::Stored(
                        LhaFile { data_offset: m.body_at(at) as u64, size: m.body.len() as u64 },
                    )
                } else {
                    Known::Unsupported(chars(m.tag))
                },
            )
        }
    }
}

proof fn lemma_tag(t: Seq<u8>)
    requires
        t.len() == 3,
    ensures
        (chars(t) == "lhd"@) == (t == seq![0x6cu8, 0x68, 0x64]),
        (chars(t) == "lh0"@) == (t == seq![0x6cu8, 0x68, 0x30]),
{
    reveal_strlit("lhd");
    reveal_strlit("lh0");
    let c = chars(t);
    if t == seq![0x6cu8, 0x68, 0x64] {
        assert(c =~= "lhd"@);
    }
    if t == seq![0x6cu8, 0x68, 0x30] {
        assert(c =~= "lh0"@);
    }
    if c == "lhd"@ {
        assert(c[0] == 'l' && c[1] == 'h' && c[2] == 'd');
        assert(t =~= seq![0x6cu8, 0x68, 0x64]);
    }
    if c == "lh0"@ {
        assert(c[0] == 'l' && c[1] == 'h' && c[2] == '0');
        assert(t =~= seq![0x6cu8, 0x68, 0x30]);
    }
}

proof fn lemma_members(img: Seq<u8>, ms: Seq<Member>, i: int)
    requires
        holds_archive(img, ms),
        0 <= i <= ms.len(),
    ensures
        lha::scan_from(
            img,
            member_at(ms, i),
            MAX_MEMBERS - i,
            Scanned { tree: listing::built(items_of(ms), i), files: known_of(ms, i) },
        ) == Ok::<Scanned, Error>(
            Scanned {
                tree: listing::built(items_of(ms), ms.len() as int),
                files: known_of(ms, ms.len() as int),
            },
        ),
    decreases ms.len() - i,
{
    let at = member_at(ms, i);
    let s = Scanned { tree: listing::built(items_of(ms), i), files: known_of(ms, i) };
    if i < ms.len() {
        let m = ms[i];
        assert(holds_member(img, m, at));
        lemma_member(img, m, at);
        lemma_tag(m.tag);
        lemma_members(img, ms, i + 1);
        if path_of(m) == seq!['/'] {
            laws::lemma_root_pushed(s.tree, items_of(ms)[i]);
        }
        assert(s.with(record_of(m, at)) == (Scanned {
            tree: listing::built(items_of(ms), i + 1),
            files: known_of(ms, i + 1),
        }));
    } else {
        assert(lha::record(img, at) == Ok::<Option<Record>, Error>(None));
    }
}

/// An archive is read as it was laid out: all its members are found, each under its
/// own path, with its own length and its own bytes.
pub proof fn lemma_scanned(img: Seq<u8>, ms: Seq<Member>)
    requires
        holds_archive(img, ms),
    ensures
        lha::scanned(img) == Ok::<Scanned, Error>(
            Scanned {
                tree: listing::built(items_of(ms), ms.len() as int),
                files: known_of(ms, ms.len() as int),
            },
        ),
{
    lemma_members(img, ms, 0);
}

proof fn lemma_known(ms: Seq<Member>, i: int, n: int)
    requires
        0 <= i < n <= ms.len(),
        path_of(ms[i]) != seq!['/'],
        ms[i].tag == seq![0x6cu8, 0x68, 0x30],
        forall|k: int| i < k < n ==> path_of(#[trigger] ms[k]) != path_of(ms[i]),
    ensures
        known_of(ms, n).dom().contains(path_of(ms[i])),
        known_of(ms, n)[path_of(ms[i])] == Known::Stored(
            LhaFile {
                data_offset: ms[i].body_at(member_at(ms, i)) as u64,
                size: ms[i].body.len() as u64,
            },
        ),
    decreases n,
{
    if i < n - 1 {
        lemma_known(ms, i, n - 1);
    } else {
        assert(ms[i].tag[2] == 0x30);
        assert(ms[i].tag != seq![0x6cu8, 0x68, 0x64]) by {
            assert(seq![0x6cu8, 0x68, 0x64][2] == 0x64);
        }
    }
}

/// Each stored member of an archive reads as just its bytes, by every path that
/// leads to it.
pub proof fn lemma_member_read(img: Seq<u8>, ms: Seq<Member>, a: LhaFs, i: int, q: Seq<char>)
    requires
        holds_archive(img, ms),
        lha::scanned(img) matches Ok(s) && a.files@ == s.files,
        0 <= i < ms.len(),
        ms[i].tag == seq![0x6cu8, 0x68, 0x30],
        path_of(ms[i]) != seq!['/'],
        names::normal(q) == path_of(ms[i]),
        forall|k: int| i < k < ms.len() ==> path_of(#[trigger] ms[k]) != path_of(ms[i]),
    ensures
        a.contents(img, q) == Ok::<Seq<u8>, Error>(ms[i].body),
{
    lemma_scanned(img, ms);
    lemma_known(ms, i, ms.len() as int);
    let m = ms[i];
    let at = member_at(ms, i);
    assert(holds_member(img, m, at));
    lemma_member(img, m, at);
}

proof fn lemma_packed(ms: Seq<Member>, i: int, n: int)
    requires
        0 <= i < n <= ms.len(),
        path_of(ms[i]) != seq!['/'],
        ms[i].tag != seq![0x6cu8, 0x68, 0x30],
        ms[i].tag != seq![0x6cu8, 0x68, 0x64],
        forall|k: int| i < k < n ==> path_of(#[trigger] ms[k]) != path_of(ms[i]),
    ensures
        known_of(ms, n).dom().contains(path_of(ms[i])),
        known_of(ms, n)[path_of(ms[i])] is Unsupported,
    decreases n,
{
    if i < n - 1 {
        lemma_packed(ms, i, n - 1);
    }
}

/// A member that is packed, and no directory, is refused when it is read.
pub proof fn lemma_packed_refused(img: Seq<u8>, ms: Seq<Member>, a: LhaFs, i: int, q: Seq<char>)
    requires
        holds_archive(img, ms),
        lha::scanned(img) matches Ok(s) && a.files@ == s.files,
        0 <= i < ms.len(),
        ms[i].tag != seq![0x6cu8, 0x68, 0x30],
        ms[i].tag != seq![0x6cu8, 0x68, 0x64],
        path_of(ms[i]) != seq!['/'],
        names::normal(q) == path_of(ms[i]),
        forall|k: int| i < k < ms.len() ==> path_of(#[trigger] ms[k]) != path_of(ms[i]),
    ensures
        a.contents(img, q) == Err::<Seq<u8>, Error>(Error::Unsupported),
{
    lemma_scanned(img, ms);
    lemma_packed(ms, i, ms.len() as int);
}

} // verus!
