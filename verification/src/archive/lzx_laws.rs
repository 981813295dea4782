//! What is read of an Amiga LZX archive, from the files and runs that were put into
//! it.

use vstd::prelude::*;

use crate::archive::codec;
use crate::archive::index::{DataLocator, EntryKind, Item, Method};
use crate::archive::laws;
use crate::archive::layout::{self, holds, holds32};
use crate::archive::listing;
use crate::archive::lzx::{self, FileSlice, Group, LzxFs, Scanned, Waiting};
use crate::archive::mem;
use crate::archive::names;
use crate::bytes;
use crate::error::Error;

verus! {

/// A header: the name and the comment of a file, its length, and the run behind it,
/// if there is one, with the number of its method. A file whose header has no run
/// lies in that of the next header that has one.
pub struct Header {
    pub name: Seq<u8>,
    pub comment: Seq<u8>,
    pub length: u32,
    pub mode: u8,
    pub run: Seq<u8>,
}

impl Header {
    /// Where the run is, when the header is at `at`.
    pub open spec fn run_at(self, at: int) -> int {
        at + 31 + self.name.len() + self.comment.len()
    }
}

/// Whether the device `img` holds the header `h` at `at`.
pub open spec fn holds_header(img: Seq<u8>, h: Header, at: int) -> bool {
    &&& 10 <= at
    &&& holds32(img, at + 2, h.length as int)
    &&& holds32(img, at + 6, h.run.len() as int)
    &&& holds(img, at + 11, seq![h.mode])
    &&& h.comment.len() < 0x100
    &&& holds(img, at + 14, seq![h.comment.len() as u8])
    &&& h.name.len() < 0x100
    &&& holds(img, at + 30, seq![h.name.len() as u8])
    &&& holds(img, at + 31, h.name)
    &&& holds(img, at + 31 + h.name.len(), h.comment)
    &&& holds(img, h.run_at(at), h.run)
}

/// Where header `i` of `hs` is: behind the run of the one before it.
pub open spec fn header_at(hs: Seq<Header>, i: int) -> int
    decreases i,
{
    if i <= 0 {
        10
    } else {
        hs[i - 1].run_at(header_at(hs, i - 1)) + hs[i - 1].run.len()
    }
}

/// Whether the device `img` holds an archive with the headers `hs`, and not enough
/// behind them for one more.
pub open spec fn holds_archive(img: Seq<u8>, hs: Seq<Header>) -> bool {
    &&& img.len() + 0x1_0000_0000 <= u64::MAX
    &&& hs.len() <= 0xffff_ffff
    &&& 10 <= img.len()
    &&& holds(img, 0, seq![0x4cu8, 0x5a, 0x58])
    &&& forall|i: int|
        0 <= i < hs.len() ==> #[trigger] holds_header(img, hs[i], header_at(hs, i))
    &&& img.len() < header_at(hs, hs.len() as int) + 31
}

/// The path of the file of the header `h`.
pub open spec fn path_of(h: Header) -> Seq<char> {
    lzx::name_path(h.name)
}

/// A name without a volume leads along its components, with slashes between them.
pub proof fn lemma_path(h: Header, ps: Seq<Seq<char>>)
    requires
        layout::are_names(ps),
        h.name.len() == layout::spaced(ps, '/').len(),
        forall|i: int| 0 <= i < h.name.len() ==> h.name[i] != 0x3a,
        forall|i: int|
            0 <= i < h.name.len() ==> #[trigger] h.name[i] as char == layout::spaced(ps, '/')[i],
    ensures
        path_of(h) == names::joined(ps),
{
    let s = layout::spaced(ps, '/');
    layout::lemma_stored_name(ps);
    assert(names::latin1(h.name) =~= s);
    assert forall|i: int| 0 <= i < s.len() implies s[i] != ':' by {
        assert(h.name[i] as char == s[i]);
    }
    names::lemma_no_drive(s);
}

/// Index of the first header of those that share a run with header `i`.
pub open spec fn first_of(hs: Seq<Header>, i: int) -> int
    decreases i,
{
    if i <= 0 {
        0
    } else if hs[i - 1].run.len() > 0 {
        i
    } else {
        first_of(hs, i - 1)
    }
}

/// Number of bytes of the files of the headers from `i` to `j`.
pub open spec fn lengths(hs: Seq<Header>, i: int, j: int) -> int
    decreases j - i,
{
    if j <= i {
        0
    } else {
        lengths(hs, i, j - 1) + hs[j - 1].length
    }
}

/// Number of runs of the first `i` headers.
pub open spec fn runs(hs: Seq<Header>, i: int) -> int
    decreases i,
{
    if i <= 0 {
        0
    } else if hs[i - 1].run.len() > 0 {
        runs(hs, i - 1) + 1
    } else {
        runs(hs, i - 1)
    }
}

/// What the tree shows of the file of the header `h`.
pub open spec fn item_of(h: Header) -> Item {
    Item {
        path: path_of(h),
        kind: EntryKind::Regular,
        mode: 0o644,
        uid: 0,
        gid: 0,
        mtime: 0,
        link: None,
        major: 0,
        minor: 0,
        data: Some(
            DataLocator {
                offset: 0,
                compressed_len: 0,
                uncompressed_len: h.length as u64,
                method: Method::Stored,
            },
        ),
    }
}

/// What the tree shows of the files of the headers `hs`.
pub open spec fn items_of(hs: Seq<Header>) -> Seq<Item> {
    Seq::new(hs.len(), |i: int| item_of(hs[i]))
}

/// The scan of the first `i` headers.
pub open spec fn upto(img: Seq<u8>, hs: Seq<Header>, i: int) -> Scanned
    decreases i,
{
    if i <= 0 {
        Scanned {
            tree: crate::archive::index::Tree::empty(),
            groups: Seq::empty(),
            files: Map::empty(),
            pending: Seq::empty(),
            merged: 0,
        }
    } else {
        let at = header_at(hs, i - 1);
        upto(img, hs, i - 1).noted(img, at).closed_by(img, at)
    }
}

proof fn lemma_lengths(hs: Seq<Header>, i: int, j: int)
    requires
        0 <= i,
    ensures
        0 <= lengths(hs, i, j),
        i <= j ==> lengths(hs, i, j) <= 0xffff_ffff * (j - i),
    decreases j - i,
{
    if j > i {
        lemma_lengths(hs, i, j - 1);
    }
}

proof fn lemma_first(hs: Seq<Header>, i: int)
    requires
        0 <= i,
    ensures
        0 <= first_of(hs, i) <= i,
        forall|k: int| first_of(hs, i) <= k < i ==> (#[trigger] hs[k]).run.len() == 0,
    decreases i,
{
    if i > 0 {
        lemma_first(hs, i - 1);
    }
}

/// What a header says, read off the device.
proof fn lemma_header(img: Seq<u8>, h: Header, at: int)
    requires
        holds_header(img, h, at),
    ensures
        at + 31 <= img.len(),
        img[at + 30] == h.name.len(),
        img[at + 14] == h.comment.len(),
        img[at + 11] == h.mode,
        bytes::get32(img, at + 2) == h.length,
        bytes::get32(img, at + 6) == h.run.len(),
        lzx::body(img, at) == h.run_at(at),
        lzx::name_path(img.subrange(at + 31, at + 31 + img[at + 30])) == path_of(h),
{
    broadcast use layout::lemma_holds32;

    let a = img.subrange(at + 11, at + 12);
    assert(a[0] == h.mode);
    let b = img.subrange(at + 14, at + 15);
    assert(b[0] == h.comment.len() as u8);
    let c = img.subrange(at + 30, at + 31);
    assert(c[0] == h.name.len() as u8);
}

/// What the files that wait are: those of the headers from `i` to `j`, in order,
/// each behind the one before it.
pub open spec fn waits(hs: Seq<Header>, w: Seq<Waiting>, i: int, j: int) -> bool
    decreases j - i,
{
    if j <= i {
        w.len() == 0
    } else if path_of(hs[j - 1]) == seq!['/'] {
        waits(hs, w, i, j - 1)
    } else {
        &&& w.len() > 0
        &&& w.last() == (Waiting {
            path: path_of(hs[j - 1]),
            uoff: lengths(hs, i, j - 1) as u64,
            len: hs[j - 1].length as u64,
        })
        &&& waits(hs, w.drop_last(), i, j - 1)
    }
}

proof fn lemma_upto(img: Seq<u8>, hs: Seq<Header>, i: int)
    requires
        holds_archive(img, hs),
        0 <= i <= hs.len(),
    ensures
        ({
            let s = upto(img, hs, i);
            &&& s.merged == lengths(hs, first_of(hs, i), i)
            &&& s.groups.len() == runs(hs, i)
            &&& s.tree == listing::built(items_of(hs), i)
            &&& waits(hs, s.pending, first_of(hs, i), i)
        }),
    decreases i,
{
    if i > 0 {
        let at = header_at(hs, i - 1);
        let h = hs[i - 1];
        let s = upto(img, hs, i - 1);
        let f = first_of(hs, i - 1);
        lemma_upto(img, hs, i - 1);
        lemma_first(hs, i - 1);
        assert(holds_header(img, h, at));
        lemma_header(img, h, at);
        if path_of(h) == seq!['/'] {
            laws::lemma_root_pushed(s.tree, items_of(hs)[i - 1]);
        } else {
            let w = Waiting { path: path_of(h), uoff: s.merged as u64, len: h.length as u64 };
            assert(s.pending.push(w).drop_last() =~= s.pending);
        }
        if h.run.len() > 0 {
            assert(lengths(hs, i, i) == 0);
        }
    } else {
        assert(waits(hs, Seq::empty(), 0, 0));
    }
}

proof fn lemma_scan(img: Seq<u8>, hs: Seq<Header>, i: int)
    requires
        holds_archive(img, hs),
        0 <= i <= hs.len(),
    ensures
        lzx::scan_from(img, header_at(hs, i), upto(img, hs, i)) == Ok::<Scanned, Error>(
            upto(img, hs, hs.len() as int).ended(),
        ),
    decreases hs.len() - i,
{
    if i < hs.len() {
        let at = header_at(hs, i);
        assert(holds_header(img, hs[i], at));
        lemma_header(img, hs[i], at);
        lemma_upto(img, hs, i);
        lemma_first(hs, i);
        lemma_lengths(hs, first_of(hs, i), i);
        assert(0xffff_ffff * (i - first_of(hs, i)) + 0xffff_ffff <= u64::MAX) by (nonlinear_arith)
            requires
                0 <= first_of(hs, i) <= i < 0xffff_ffff,
        ;
        lemma_scan(img, hs, i + 1);
    }
}

/// An archive is read as it was laid out: the tree is that of its files, each under
/// its own path and with its own length, and there are as many runs as headers that
/// have one.
pub proof fn lemma_scanned(img: Seq<u8>, hs: Seq<Header>)
    requires
        holds_archive(img, hs),
    ensures
        lzx::scanned(img) matches Ok(s) && {
            &&& s.tree == listing::built(items_of(hs), hs.len() as int)
            &&& s.groups.len() == runs(hs, hs.len() as int)
        },
{
    let m = img.subrange(0, 3);
    assert(m[0] == 0x4c && m[1] == 0x5a && m[2] == 0x58);
    lemma_scan(img, hs, 0);
    lemma_upto(img, hs, hs.len() as int);
}

// ---- files ----

/// Where the file of header `i` lies: in the run of the first header from `i` on
/// that has one, behind the files that share it and come before.
pub open spec fn slice_of(hs: Seq<Header>, i: int, j: int) -> Option<FileSlice> {
    if hs[j].mode == 0 || hs[j].mode == 2 {
        Some(
            FileSlice {
                group: runs(hs, j) as usize,
                uoff: lengths(hs, first_of(hs, i), i) as u64,
                len: hs[i].length as u64,
            },
        )
    } else {
        None
    }
}

/// Files that waited are where they were assigned.
proof fn lemma_assigned(
    files: Map<Seq<char>, Option<FileSlice>>,
    hs: Seq<Header>,
    w: Seq<Waiting>,
    f: int,
    i: int,
    n: int,
    g: Option<usize>,
)
    requires
        0 <= f <= i < n,
        waits(hs, w, f, n),
        path_of(hs[i]) != seq!['/'],
        forall|k: int| i < k < n ==> path_of(#[trigger] hs[k]) != path_of(hs[i]),
    ensures
        ({
            let m = lzx::assigned(files, w, w.len() as int, g);
            &&& m.dom().contains(path_of(hs[i]))
            &&& m[path_of(hs[i])] == match g {
                Some(x) => Some(
                    FileSlice {
                        group: x,
                        uoff: lengths(hs, f, i) as u64,
                        len: hs[i].length as u64,
                    },
                ),
                None => None,
            }
        }),
    decreases n - f,
{
    let h = hs[n - 1];
    if i == n - 1 {
        assert(w.last().path == path_of(h));
    } else if path_of(h) == seq!['/'] {
        lemma_assigned(files, hs, w, f, i, n - 1, g);
    } else {
        lemma_assigned(files, hs, w.drop_last(), f, i, n - 1, g);
        lemma_assigned_front(files, w, w.len() - 1, g);
        assert(w.last().path != path_of(hs[i]));
    }
}

proof fn lemma_assigned_front(
    files: Map<Seq<char>, Option<FileSlice>>,
    w: Seq<Waiting>,
    n: int,
    g: Option<usize>,
)
    requires
        0 <= n < w.len(),
    ensures
        lzx::assigned(files, w.drop_last(), n, g) == lzx::assigned(files, w, n, g),
    decreases n,
{
    if n > 0 {
        lemma_assigned_front(files, w, n - 1, g);
        assert(w.drop_last()[n - 1] == w[n - 1]);
    }
}

/// Assigning files with other paths leaves a file where it is.
proof fn lemma_not_assigned(
    files: Map<Seq<char>, Option<FileSlice>>,
    hs: Seq<Header>,
    w: Seq<Waiting>,
    f: int,
    n: int,
    g: Option<usize>,
    p: Seq<char>,
)
    requires
        0 <= f,
        waits(hs, w, f, n),
        forall|k: int| f <= k < n ==> path_of(#[trigger] hs[k]) != p,
    ensures
        ({
            let m = lzx::assigned(files, w, w.len() as int, g);
            m.dom().contains(p) == files.dom().contains(p) && (files.dom().contains(p) ==> m[p]
                == files[p])
        }),
    decreases n - f,
{
    if n > f {
        if path_of(hs[n - 1]) == seq!['/'] {
            lemma_not_assigned(files, hs, w, f, n - 1, g, p);
        } else {
            lemma_not_assigned(files, hs, w.drop_last(), f, n - 1, g, p);
            lemma_assigned_front(files, w, w.len() - 1, g);
            assert(w.last().path != p);
        }
    }
}

/// The files of headers that share a run all have the same first header.
proof fn lemma_same_first(hs: Seq<Header>, i: int, j: int)
    requires
        0 <= i <= j,
        forall|k: int| i <= k < j ==> (#[trigger] hs[k]).run.len() == 0,
    ensures
        first_of(hs, j) == first_of(hs, i),
    decreases j - i,
{
    if i < j {
        lemma_same_first(hs, i, j - 1);
    }
}

/// Where the file of header `i` is found, once the header `j` with its run has come,
/// and from then on.
proof fn lemma_file(img: Seq<u8>, hs: Seq<Header>, i: int, j: int, n: int)
    requires
        holds_archive(img, hs),
        0 <= i <= j < n <= hs.len(),
        forall|k: int| i <= k < j ==> (#[trigger] hs[k]).run.len() == 0,
        hs[j].run.len() > 0,
        path_of(hs[i]) != seq!['/'],
        forall|k: int| i < k < hs.len() ==> path_of(#[trigger] hs[k]) != path_of(hs[i]),
    ensures
        ({
            let m = upto(img, hs, n).files;
            m.dom().contains(path_of(hs[i])) && m[path_of(hs[i])] == slice_of(hs, i, j)
        }),
    decreases n,
{
    let at = header_at(hs, n - 1);
    let s = upto(img, hs, n - 1);
    let t = s.noted(img, at);
    let f = first_of(hs, n - 1);
    let h = hs[n - 1];
    lemma_upto(img, hs, n - 1);
    lemma_first(hs, n - 1);
    assert(holds_header(img, h, at));
    lemma_header(img, h, at);
    if path_of(h) != seq!['/'] {
        let w = Waiting { path: path_of(h), uoff: s.merged as u64, len: h.length as u64 };
        assert(s.pending.push(w).drop_last() =~= s.pending);
    }
    assert(waits(hs, t.pending, f, n));
    let g = if h.mode == 0 || h.mode == 2 {
        Some(s.groups.len() as usize)
    } else {
        None
    };
    if n - 1 == j {
        lemma_same_first(hs, i, j);
        lemma_first(hs, i);
        lemma_assigned(t.files, hs, t.pending, f, i, n, g);
    } else {
        lemma_file(img, hs, i, j, n - 1);
        if h.run.len() > 0 {
            lemma_first_behind(hs, j, n - 1);
            lemma_not_assigned(t.files, hs, t.pending, f, n, g, path_of(hs[i]));
        }
    }
}

proof fn lemma_first_behind(hs: Seq<Header>, j: int, n: int)
    requires
        0 <= j < n,
        hs[j].run.len() > 0,
    ensures
        first_of(hs, n) > j,
    decreases n,
{
    if j < n - 1 {
        lemma_first_behind(hs, j, n - 1);
    }
}

/// Which run is which: run `k` is that of the header that has `k` runs before it.
proof fn lemma_group(img: Seq<u8>, hs: Seq<Header>, j: int, n: int)
    requires
        holds_archive(img, hs),
        0 <= j < n <= hs.len(),
        hs[j].run.len() > 0,
    ensures
        0 <= runs(hs, j) < upto(img, hs, n).groups.len(),
        upto(img, hs, n).groups[runs(hs, j)] == (Group {
            data_offset: hs[j].run_at(header_at(hs, j)) as u64,
            pack_size: hs[j].run.len() as u64,
            pack_mode: hs[j].mode,
            total_uncomp: lengths(hs, first_of(hs, j), j + 1) as u64,
        }),
    decreases n,
{
    let at = header_at(hs, n - 1);
    lemma_upto(img, hs, n - 1);
    lemma_first(hs, n - 1);
    assert(holds_header(img, hs[n - 1], at));
    lemma_header(img, hs[n - 1], at);
    if j < n - 1 {
        lemma_group(img, hs, j, n - 1);
    } else {
        lemma_upto(img, hs, j);
    }
}

/// Each file of an archive reads as its own part of the run that it lies in: the
/// files that share a run lie in it one behind another, in the order of their
/// headers. It is stated of runs that are not packed.
pub proof fn lemma_file_read(
    img: Seq<u8>,
    hs: Seq<Header>,
    a: LzxFs,
    i: int,
    j: int,
    q: Seq<char>,
)
    requires
        holds_archive(img, hs),
        lzx::scanned(img) matches Ok(s) && a.groups@ == s.groups && a.files@ == s.files,
        0 <= i <= j < hs.len(),
        forall|k: int| i <= k < j ==> (#[trigger] hs[k]).run.len() == 0,
        hs[j].run.len() > 0,
        hs[j].mode == 0,
        path_of(hs[i]) != seq!['/'],
        names::normal(q) == path_of(hs[i]),
        forall|k: int| i < k < hs.len() ==> path_of(#[trigger] hs[k]) != path_of(hs[i]),
        lengths(hs, first_of(hs, i), i + 1) <= hs[j].run.len(),
    ensures
        ({
            let off = lengths(hs, first_of(hs, i), i);
            a.contents(img, q) == Ok::<Seq<u8>, Error>(
                hs[j].run.subrange(off, off + hs[i].length),
            )
        }),
{
    let n = hs.len() as int;
    let s = upto(img, hs, n);
    let m = img.subrange(0, 3);
    assert(m[0] == 0x4c && m[1] == 0x5a && m[2] == 0x58);
    lemma_scan(img, hs, 0);
    lemma_file(img, hs, i, j, n);
    lemma_group(img, hs, j, n);
    lemma_upto(img, hs, n);
    lemma_first(hs, n);
    lemma_first_behind(hs, j, n);
    lemma_not_assigned(s.files, hs, s.pending, first_of(hs, n), n, None, path_of(hs[i]));
    lemma_first(hs, i);
    lemma_lengths(hs, first_of(hs, i), i);
    let at = header_at(hs, j);
    assert(holds_header(img, hs[j], at));
    lemma_header(img, hs[j], at);
    lemma_runs(hs, j);
    let off = lengths(hs, first_of(hs, i), i);
    let x = FileSlice {
        group: runs(hs, j) as usize,
        uoff: off as u64,
        len: hs[i].length as u64,
    };
    assert(a.files@[names::normal(q)] == Some(x));
    let need = mem::needed(x.uoff, x.len);
    assert(need == off + hs[i].length);
    let b = img.subrange(hs[j].run_at(at), hs[j].run_at(at) + need);
    let run = img.subrange(hs[j].run_at(at), hs[j].run_at(at) + hs[j].run.len());
    assert(run == hs[j].run);
    assert(b =~= hs[j].run.take(need as int));
    assert(lzx::group_prefix(img, a.groups@[runs(hs, j)], need) == Ok::<Seq<u8>, Error>(b));
    let r = mem::sliced(b, off, hs[i].length as int)->Ok_0;
    assert(r =~= hs[j].run.subrange(off, off + hs[i].length));
}

/// Each file in a packed run reads as its own part of what the run unpacks to. The
/// stream of a run is its bytes behind the length of all its files together.
pub proof fn lemma_packed_read(
    img: Seq<u8>,
    hs: Seq<Header>,
    a: LzxFs,
    i: int,
    j: int,
    q: Seq<char>,
    out: Seq<u8>,
)
    requires
        holds_archive(img, hs),
        lzx::scanned(img) matches Ok(s) && a.groups@ == s.groups && a.files@ == s.files,
        0 <= i <= j < hs.len(),
        forall|k: int| i <= k < j ==> (#[trigger] hs[k]).run.len() == 0,
        hs[j].run.len() > 0,
        hs[j].mode == 2,
        lengths(hs, first_of(hs, j), j + 1) <= u32::MAX,
        path_of(hs[i]) != seq!['/'],
        names::normal(q) == path_of(hs[i]),
        forall|k: int| i < k < hs.len() ==> path_of(#[trigger] hs[k]) != path_of(hs[i]),
        lengths(hs, first_of(hs, i), i + 1) <= out.len(),
        lengths(hs, first_of(hs, i), i + 1) <= u64::MAX,
        codec::amiga_lzx_decoded(
            bytes::le32(lengths(hs, first_of(hs, j), j + 1) as u32) + hs[j].run,
            lengths(hs, first_of(hs, i), i + 1) as u64,
        ) == Some(out),
    ensures
        ({
            let off = lengths(hs, first_of(hs, i), i);
            a.contents(img, q) == Ok::<Seq<u8>, Error>(
                out.subrange(off, off + hs[i].length),
            )
        }),
{
    let n = hs.len() as int;
    let s = upto(img, hs, n);
    let m = img.subrange(0, 3);
    assert(m[0] == 0x4c && m[1] == 0x5a && m[2] == 0x58);
    lemma_scan(img, hs, 0);
    lemma_file(img, hs, i, j, n);
    lemma_group(img, hs, j, n);
    lemma_upto(img, hs, n);
    lemma_first(hs, n);
    lemma_first_behind(hs, j, n);
    lemma_not_assigned(s.files, hs, s.pending, first_of(hs, n), n, None, path_of(hs[i]));
    lemma_first(hs, i);
    lemma_lengths(hs, first_of(hs, i), i);
    let at = header_at(hs, j);
    assert(holds_header(img, hs[j], at));
    lemma_header(img, hs[j], at);
    lemma_runs(hs, j);
    let off = lengths(hs, first_of(hs, i), i);
    let x = FileSlice {
        group: runs(hs, j) as usize,
        uoff: off as u64,
        len: hs[i].length as u64,
    };
    assert(a.files@[names::normal(q)] == Some(x));
    let need = mem::needed(x.uoff, x.len);
    assert(need == off + hs[i].length);
    let run = img.subrange(hs[j].run_at(at), hs[j].run_at(at) + hs[j].run.len());
    assert(run == hs[j].run);
    lemma_first(hs, j);
    lemma_lengths(hs, first_of(hs, j), j + 1);
    let g = a.groups@[runs(hs, j)];
    let total = lengths(hs, first_of(hs, j), j + 1);
    assert(0 <= total <= u32::MAX);
    assert(g.total_uncomp == total);
    assert(need == lengths(hs, first_of(hs, i), i + 1));
    assert(lzx::packed_run(img, g.data_offset as int, g.pack_size as int) == (
        run,
        None::<Error>,
    ));
    assert(lzx::group_prefix(img, a.groups@[runs(hs, j)], need) == Ok::<Seq<u8>, Error>(out));
    let r = mem::sliced(out, off, hs[i].length as int)->Ok_0;
    assert(r =~= out.subrange(off, off + hs[i].length));
}

proof fn lemma_runs(hs: Seq<Header>, i: int)
    requires
        0 <= i,
    ensures
        0 <= runs(hs, i) <= i,
    decreases i,
{
    if i > 0 {
        lemma_runs(hs, i - 1);
    }
}

} // verus!
