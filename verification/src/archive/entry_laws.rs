//! What an archive tells of an entry, from what was added: its attributes, its place
//! in the listing, its bytes and its target.

use vstd::prelude::*;

use crate::archive::fs::{self, Arch, ArchiveBuilder};
use crate::archive::index::{self, DataLocator, EntryKind, Item, Method, Tree};
use crate::archive::laws;
use crate::archive::names;
use crate::entry::{self, DeviceKind, FileAttrs, FileMeta, Listed, MutationCapability};
use crate::error::{Error, Result};
use crate::num;
use crate::path;

verus! {

/// The kind that is shown of an entry: its own, and that of a regular file for a hard
/// link.
pub open spec fn kind_of(k: EntryKind) -> entry::EntryKind {
    match k {
        EntryKind::Regular => entry::EntryKind::Regular,
        EntryKind::HardLink => entry::EntryKind::Regular,
        EntryKind::Dir => entry::EntryKind::Dir,
        EntryKind::Symlink => entry::EntryKind::Symlink,
        EntryKind::Char => entry::EntryKind::Char,
        EntryKind::Block => entry::EntryKind::Block,
        EntryKind::Fifo => entry::EntryKind::Fifo,
        EntryKind::Socket => entry::EntryKind::Socket,
    }
}

/// The length that is shown of an entry: that of the bytes of a file, and nothing for
/// everything else.
pub open spec fn length_of(e: Item) -> int {
    if e.kind == EntryKind::Regular || e.kind == EntryKind::HardLink {
        match e.data {
            Some(d) => d.uncompressed_len as int,
            None => 0,
        }
    } else {
        0
    }
}

proof fn lemma_where(t: Tree, p: Seq<char>) -> (i: int)
    requires
        t.found(p) is Some,
    ensures
        index::item_at(t.items, names::normal(p), 0) == Some(i),
        t.found(p) == Some(t.items[i]),
        0 <= i < t.items.len(),
        t.items[i].path == names::normal(p),
{
    laws::lemma_item_at(t.items, names::normal(p), 0);
    index::item_at(t.items, names::normal(p), 0).unwrap()
}

/// The attributes of an entry are those it was added with, and the listing of its
/// directory shows it once, with the same kind, length and number.
pub proof fn lemma_entry_shown(t: Tree, e: Item)
    requires
        laws::sound(t),
        path::parts(e.path).len() > 0,
    ensures
        ({
            let u = t.pushed(e);
            let cs = path::parts(e.path);
            let p = names::joined(cs);
            &&& u.attrs(p) matches Ok(a) && {
                &&& a.kind == kind_of(e.kind)
                &&& a.mode == e.mode
                &&& a.uid == e.uid
                &&& a.gid == e.gid
                &&& a.size == length_of(e)
                &&& a.blocks * 512 >= a.size
                &&& a.blocks > 0 ==> (a.blocks - 1) * 512 < a.size
                &&& a.nlink == 1
                &&& e.mtime < 0x1_0000_0000 ==> a.mtime == e.mtime && a.ctime == e.mtime && a.atime
                    == e.mtime
                &&& u.listed(names::joined(cs.drop_last())) matches Ok(l) && exists|j: int|
                    0 <= j < l.len() && (#[trigger] l[j]) == (Listed {
                        name: cs.last(),
                        inode: a.inode,
                        kind: a.kind,
                        size: a.size,
                    })
            }
        }),
{
    let u = t.pushed(e);
    let cs = path::parts(e.path);
    let p = names::joined(cs);
    let n = cs.len() as int;
    laws::lemma_pushed_sound(t, e);
    laws::lemma_last_wins(t, e, e.path);
    let i = lemma_where(u, e.path);
    laws::lemma_parts_are(e.path);
    laws::lemma_parts_joined(cs);
    assert(names::normal(e.path) == p);
    assert(u.items[i] == (Item { path: p, ..e }));
    let a = fs::item_attrs(u.items[i], i);
    num::lemma_div_up(u.items[i].size() as int, 512);
    assert(!fs::means_root(p)) by {
        if p.len() == 0 {
            laws::lemma_no_parts();
            assert(p =~= Seq::empty());
        }
    }
    assert(u.attrs(p) == Ok::<FileAttrs, Error>(a));
    laws::lemma_listed_once(u, i, n - 1);
    assert(cs.take(n - 1) =~= cs.drop_last());
    let front = cs.drop_last();
    let q = names::joined(front);
    let l = u.listed(q)->Ok_0;
    let j = choose|j: int| 0 <= j < l.len() && (#[trigger] l[j]).name == cs[n - 1];
    assert forall|k: int| 0 <= k < front.len() implies laws::is_part(#[trigger] front[k]) by {
        assert(front[k] == cs[k]);
        assert(laws::is_part(cs[k]));
    }
    laws::lemma_parts_joined(front);
    assert(names::normal(q) == q);
    assert(names::child_path(q, cs.last()) == p);
    assert(l[j] == u.shown(q, cs.last()));
    assert(l[j] == (Listed { name: cs.last(), inode: a.inode, kind: a.kind, size: a.size }));
}

/// A directory that something was put into has attributes too, whether or not it was
/// added itself: it is a directory.
pub proof fn lemma_dir_shown(t: Tree, p: Seq<char>)
    requires
        index::item_at(t.items, p, 0) is None,
        index::dir_at(t.dirs, p, 0) is Some,
    ensures
        t.attrs(p) matches Ok(a) && a.kind == entry::EntryKind::Dir && a.mode == 0o755 && a.nlink
            == 2 && a.size == 0,
{
}

/// The bytes of a file that is stored are the bytes of the device that its entry
/// locates, by every path that leads to it.
pub proof fn lemma_stored_bytes<B>(a: Arch<B>, t: Tree, e: Item, d: DataLocator, img: Seq<u8>, q: Seq<char>)
    requires
        !a.scaffold,
        a.tree == t.pushed(e),
        path::parts(e.path).len() > 0,
        names::normal(q) == names::normal(e.path),
        e.kind == EntryKind::Regular || e.kind == EntryKind::HardLink,
        e.data == Some(d),
        d.method == Method::Stored,
        d.offset + d.compressed_len <= img.len(),
    ensures
        a.contents(img, q) == Ok::<Seq<u8>, Error>(
            img.skip(d.offset as int).take(d.compressed_len as int),
        ),
{
    laws::lemma_last_wins(t, e, e.path);
    let b = img.skip(d.offset as int).take(d.compressed_len as int);
    assert(img.subrange(d.offset as int, d.offset + d.compressed_len) =~= b);
}

/// What is no file has no bytes, what is no symbolic link has no target, and a
/// symbolic link has the target that it was added with.
pub proof fn lemma_target<B>(a: Arch<B>, t: Tree, e: Item, img: Seq<u8>, q: Seq<char>)
    requires
        !a.scaffold,
        a.tree == t.pushed(e),
        path::parts(e.path).len() > 0,
        names::normal(q) == names::normal(e.path),
    ensures
        e.kind != EntryKind::Regular && e.kind != EntryKind::HardLink ==> a.contents(img, q)
            == Err::<Seq<u8>, Error>(Error::InvalidArgument),
        e.kind != EntryKind::Symlink ==> a.target(q) == Err::<Seq<char>, Error>(
            Error::InvalidArgument,
        ),
        e.kind == EntryKind::Symlink ==> (e.link matches Some(s) ==> a.target(q) == Ok::<
            Seq<char>,
            Error,
        >(s)),
{
    laws::lemma_last_wins(t, e, e.path);
}

/// Where nothing was added there is nothing: no bytes, no target and no attributes.
pub proof fn lemma_nothing<B>(a: Arch<B>, img: Seq<u8>, q: Seq<char>)
    requires
        !a.scaffold,
        a.tree == Tree::empty(),
        path::parts(q).len() > 0,
    ensures
        a.contents(img, q) == Err::<Seq<u8>, Error>(Error::InvalidArgument),
        a.target(q) == Err::<Seq<char>, Error>(Error::InvalidArgument),
        a.tree.listed(q) == Err::<Seq<Listed>, Error>(Error::InvalidArgument),
        a.tree.listed(seq!['/']) matches Ok(l) && l.len() == 0,
{
    let t = a.tree;
    let p = names::normal(q);
    laws::lemma_parts_are(q);
    laws::lemma_parts_joined(path::parts(q));
    laws::lemma_root_parts();
    reveal_with_fuel(index::dir_at, 3);
    assert(index::dir_at(t.dirs, p, 0) is None) by {
        assert(t.dirs[0].path == seq!['/']);
        assert(p != seq!['/']);
    }
    assert(names::normal(seq!['/']) == seq!['/']);
    assert(t.dirs[0].path == seq!['/']);
}

// ---- what can be done with an archive ----

/// An archive that is read shows what is in its tree, and takes nothing: what would be
/// added is refused, and neither archive nor device changes.
pub proof fn lemma_read_only<B: ArchiveBuilder>(
    t: Tree,
    img: Seq<u8>,
    p: Seq<char>,
    data: Seq<u8>,
    target: Seq<char>,
    kind: DeviceKind,
    major: u32,
    minor: u32,
    meta: FileMeta,
)
    ensures
        ({
            let a = Arch::<B::V>::of_tree(t);
            let no = (a, img, Err::<(), Error>(Error::Streaming));
            &&& a.listing(p) == t.listed(p)
            &&& a.attributes(p) == t.attrs(p)
            &&& fs::file_created::<B>(a, img, p, data, meta) == no
            &&& fs::dir_created::<B>(a, img, p, meta) == no
            &&& fs::link_created::<B>(a, img, p, target, meta) == no
            &&& fs::device_created::<B>(a, img, p, kind, major, minor, meta) == no
            &&& fs::ended::<B>(a, img) == (a, img, Ok::<(), Error>(()))
        }),
{
}

/// An archive that cannot be read gives nothing but its root, and takes nothing.
pub proof fn lemma_unreadable<B: ArchiveBuilder>(
    img: Seq<u8>,
    p: Seq<char>,
    data: Seq<u8>,
    meta: FileMeta,
)
    ensures
        ({
            let a = Arch::<B::V>::unreadable();
            &&& a.cap == MutationCapability::Immutable
            &&& a.listing(p) == Err::<Seq<Listed>, Error>(Error::Unsupported)
            &&& a.contents(img, p) == Err::<Seq<u8>, Error>(Error::Unsupported)
            &&& a.target(p) == Err::<Seq<char>, Error>(Error::Unsupported)
            &&& path::parts(p).len() > 0 ==> a.attributes(p) == Err::<FileAttrs, Error>(
                Error::Unsupported,
            )
            &&& a.attributes(seq!['/']) matches Ok(r) && r.kind == entry::EntryKind::Dir
            &&& fs::file_created::<B>(a, img, p, data, meta) == (
                a,
                img,
                Err::<(), Error>(Error::Immutable),
            )
        }),
{
    laws::lemma_no_parts();
    laws::lemma_root_parts();
    if path::parts(p).len() > 0 {
        assert(p.len() > 0) by {
            if p.len() == 0 {
                assert(p =~= Seq::empty());
            }
        }
    }
}

/// Everything that is added to an archive that is being written goes to its builder
/// just as it was given, with the archive otherwise as it was; and once the archive
/// was ended its length is what the builder wrote.
pub proof fn lemma_built<B: ArchiveBuilder>(
    w: B::V,
    img: Seq<u8>,
    p: Seq<char>,
    data: Seq<u8>,
    target: Seq<char>,
    kind: DeviceKind,
    major: u32,
    minor: u32,
    meta: FileMeta,
)
    ensures
        ({
            let a = Arch::of_builder(w);
            &&& a.flushed is None
            &&& goes_to::<B>(
                a,
                fs::file_created::<B>(a, img, p, data, meta),
                B::file_added(w, img, p, data, meta),
            )
            &&& goes_to::<B>(
                a,
                fs::dir_created::<B>(a, img, p, meta),
                B::dir_added(w, img, p, meta),
            )
            &&& goes_to::<B>(
                a,
                fs::link_created::<B>(a, img, p, target, meta),
                B::link_added(w, img, p, target, meta),
            )
            &&& goes_to::<B>(
                a,
                fs::device_created::<B>(a, img, p, kind, major, minor, meta),
                B::device_added(w, img, p, kind, major, minor, meta),
            )
            &&& fs::ended::<B>(a, img).1 == B::finished(w, img).1
            &&& fs::ended::<B>(a, img).2 == B::finished(w, img).2
            &&& B::finished(w, img).2 is Ok ==> fs::ended::<B>(a, img).0.flushed == Some(
                B::written(B::finished(w, img).0),
            )
            &&& B::finished(w, img).2 is Err ==> fs::ended::<B>(a, img).0.flushed is None
        }),
{
}

/// Whether the outcome `o` of an addition to the archive `a` is that of its builder.
pub open spec fn goes_to<B: ArchiveBuilder>(
    a: Arch<B::V>,
    o: (Arch<B::V>, Seq<u8>, Result<()>),
    b: (B::V, Seq<u8>, Result<()>),
) -> bool {
    &&& o.0.builder == Some(b.0)
    &&& o.0.tree == a.tree
    &&& o.0.cap == a.cap
    &&& o.0.scaffold == a.scaffold
    &&& o.0.flushed == a.flushed
    &&& o.1 == b.1
    &&& o.2 == b.2
}

} // verus!
