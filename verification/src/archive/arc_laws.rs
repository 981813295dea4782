//! What is read of an ARC archive, from the members that were put into it.

use vstd::prelude::*;

use crate::archive::arc::{self, ArcFile, ArcFs, Entry, Record, Scanned, MAX_MEMBERS};
use crate::archive::index::{DataLocator, EntryKind, Item, Method};
use crate::archive::laws;
use crate::archive::layout::{self, holds, holds32};
use crate::archive::listing;
use crate::archive::names;
use crate::error::Error;

verus! {

/// A member: its name, the number of its method, its bytes, and how many they
/// unpack to.
pub struct Member {
    pub name: Seq<u8>,
    pub method: u8,
    pub body: Seq<u8>,
    pub unpacked: u32,
}

impl Member {
    /// Number of bytes of its header. The oldest method does not tell how many the
    /// bytes unpack to.
    pub open spec fn head(self) -> int {
        if self.method == 1 {
            25
        } else {
            29
        }
    }
}

/// Whether the device `img` holds the member `m` with its header at `at`: a mark,
/// the method, the name in 13 bytes with zero bytes behind it, the number of bytes,
/// the date, the time and the checksum, and how many the bytes unpack to. The bytes
/// come behind it.
pub open spec fn holds_member(img: Seq<u8>, m: Member, at: int) -> bool {
    &&& img.len() <= u64::MAX
    &&& m.method != 0
    &&& m.method == 1 ==> m.unpacked == m.body.len()
    &&& holds(img, at, seq![0x1au8, m.method])
    &&& m.name.len() <= 12
    &&& forall|k: int| 0 <= k < m.name.len() ==> m.name[k] != 0
    &&& holds(img, at + 2, m.name)
    &&& img[at + 2 + m.name.len()] == 0
    &&& holds32(img, at + 15, m.body.len() as int)
    &&& m.method != 1 ==> holds32(img, at + 25, m.unpacked as int)
    &&& holds(img, at + m.head(), m.body)
}

/// The path of the member `m`.
pub open spec fn path_of(m: Member) -> Seq<char> {
    names::normal(names::slashed(names::latin1(m.name)))
}

/// A name leads along its components, with backslashes between them.
pub proof fn lemma_path(m: Member, ps: Seq<Seq<char>>)
    requires
        layout::are_names(ps),
        m.name.len() == layout::spaced(ps, '\\').len(),
        forall|i: int|
            0 <= i < m.name.len() ==> #[trigger] m.name[i] as char == layout::spaced(ps, '\\')[i],
    ensures
        path_of(m) == names::joined(ps),
{
    layout::lemma_stored_name(ps);
    assert(names::latin1(m.name) =~= layout::spaced(ps, '\\'));
}

/// What is read of the member `m` with its header at `at`.
pub open spec fn record_of(m: Member, at: int) -> Record {
    Record {
        path: path_of(m),
        method: m.method,
        at: at + m.head(),
        packed: m.body.len() as u64,
        unpacked: m.unpacked as u64,
        next: at + m.head() + m.body.len(),
    }
}

/// A member is read as it was laid out.
pub proof fn lemma_member(img: Seq<u8>, m: Member, at: int)
    requires
        holds_member(img, m, at),
    ensures
        arc::record(img, at) == Some(record_of(m, at)),
{
    broadcast use layout::lemma_holds32;

    let h = img.subrange(at, at + 2);
    assert(h[0] == 0x1a && h[1] == m.method);
    layout::lemma_holds_name(img, at + 2, m.name, at + 15);
}

/// Where member `i` of `ms` is: behind the bytes of the one before it.
pub open spec fn member_at(ms: Seq<Member>, i: int) -> int
    decreases i,
{
    if i <= 0 {
        0
    } else {
        member_at(ms, i - 1) + ms[i - 1].head() + ms[i - 1].body.len()
    }
}

/// Whether the device `img` holds an archive with the members `ms`: one behind
/// another, and then the mark with the method 0, or nothing more.
pub open spec fn holds_archive(img: Seq<u8>, ms: Seq<Member>) -> bool {
    &&& ms.len() < MAX_MEMBERS
    &&& forall|i: int|
        0 <= i < ms.len() ==> #[trigger] holds_member(img, ms[i], member_at(ms, i))
    &&& ({
        let end = member_at(ms, ms.len() as int);
        img.len() < end + 25 || img[end + 1] == 0
    })
}

/// What the tree shows of the member `m`, whose header is at `at`: a file with the
/// length that its bytes unpack to.
pub open spec fn item_of(m: Member, at: int) -> Item {
    Item {
        path: path_of(m),
        kind: EntryKind::Regular,
        mode: 0o644,
        uid: 0,
        gid: 0,
        mtime: 0,
        link: None,
        major: 0,
        minor: 0,
        data: Some(
            DataLocator {
                offset: (at + m.head()) as u64,
                compressed_len: m.body.len() as u64,
                uncompressed_len: m.unpacked as u64,
                method: Method::Stored,
            },
        ),
    }
}

/// What the tree shows of the members `ms`.
pub open spec fn items_of(ms: Seq<Member>) -> Seq<Item> {
    Seq::new(ms.len(), |i: int| item_of(ms[i], member_at(ms, i)))
}

/// What is known of the first `i` of the members `ms`, by path.
pub open spec fn known_of(ms: Seq<Member>, i: int) -> Map<Seq<char>, Entry>
    decreases i,
{
    if i <= 0 {
        Map::empty()
    } else {
        let m = ms[i - 1];
        if path_of(m) == seq!['/'] {
            known_of(ms, i - 1)
        } else {
            known_of(ms, i - 1).insert(
                path_of(m),
                if m.method == 1 || m.method == 2 {
                    Entry::Stored(
                        ArcFile {
                            data_offset: (member_at(ms, i - 1) + m.head()) as u64,
                            size: m.body.len() as u64,
                        },
                    )
                } else {
                    Entry::Unsupported(m.method)
                },
            )
        }
    }
}

proof fn lemma_members(img: Seq<u8>, ms: Seq<Member>, i: int)
    requires
        holds_archive(img, ms),
        0 <= i <= ms.len(),
    ensures
        arc::scan_from(
            img,
            member_at(ms, i),
            MAX_MEMBERS - i,
            Scanned { tree: listing::built(items_of(ms), i), files: known_of(ms, i) },
        ) == (Scanned {
            tree: listing::built(items_of(ms), ms.len() as int),
            files: known_of(ms, ms.len() as int),
        }),
    decreases ms.len() - i,
{
    let at = member_at(ms, i);
    let s = Scanned { tree: listing::built(items_of(ms), i), files: known_of(ms, i) };
    if i < ms.len() {
        let m = ms[i];
        assert(holds_member(img, m, at));
        lemma_member(img, m, at);
        lemma_members(img, ms, i + 1);
        if path_of(m) == seq!['/'] {
            laws::lemma_root_pushed(s.tree, items_of(ms)[i]);
        }
        assert(s.with(record_of(m, at)) == (Scanned {
            tree: listing::built(items_of(ms), i + 1),
            files: known_of(ms, i + 1),
        }));
    } else {
        assert(arc::record(img, at) is None);
    }
}

/// An archive is read as it was laid out: all its members are found, each under its
/// own path and with its own length.
pub proof fn lemma_scanned(img: Seq<u8>, ms: Seq<Member>)
    requires
        holds_archive(img, ms),
    ensures
        arc::scanned(img) == (Scanned {
            tree: listing::built(items_of(ms), ms.len() as int),
            files: known_of(ms, ms.len() as int),
        }),
{
    lemma_members(img, ms, 0);
}

proof fn lemma_known(ms: Seq<Member>, i: int, n: int)
    requires
        0 <= i < n <= ms.len(),
        path_of(ms[i]) != seq!['/'],
        forall|k: int| i < k < n ==> path_of(#[trigger] ms[k]) != path_of(ms[i]),
    ensures
        known_of(ms, n).dom().contains(path_of(ms[i])),
        known_of(ms, n)[path_of(ms[i])] == known_of(ms, i + 1)[path_of(ms[i])],
    decreases n,
{
    if i < n - 1 {
        lemma_known(ms, i, n - 1);
    }
}

/// Each stored member of an archive reads as just its bytes, and one that is packed
/// is refused, by every path that leads to it.
pub proof fn lemma_member_read(img: Seq<u8>, ms: Seq<Member>, a: ArcFs, i: int, q: Seq<char>)
    requires
        holds_archive(img, ms),
        a.files@ == arc::scanned(img).files,
        0 <= i < ms.len(),
        path_of(ms[i]) != seq!['/'],
        names::normal(q) == path_of(ms[i]),
        forall|k: int| i < k < ms.len() ==> path_of(#[trigger] ms[k]) != path_of(ms[i]),
    ensures
        ms[i].method == 1 || ms[i].method == 2 ==> a.contents(img, q) == Ok::<Seq<u8>, Error>(
            ms[i].body,
        ),
        ms[i].method > 2 ==> a.contents(img, q) == Err::<Seq<u8>, Error>(Error::Unsupported),
{
    lemma_scanned(img, ms);
    lemma_known(ms, i, ms.len() as int);
    let at = member_at(ms, i);
    assert(holds_member(img, ms[i], at));
    lemma_member(img, ms[i], at);
}

} // verus!
