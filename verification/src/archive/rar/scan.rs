//! The layout of a RAR5 archive: a chain of headers, each followed by the data
//! that it announces.

use vstd::prelude::*;
use vstd::slice::slice_subrange;

use crate::archive::index::{self, ArchiveEntry, ArchiveIndex, DataLocator, Method, Tree};
use crate::archive::names::{self, is_root, path_of_stored, to_slashes};
use crate::archive::table::PathTable;
use crate::block::MemoryBackend;
use crate::error::{Error, Result};
use crate::text::{self, copy_text, from_utf8_lossy};

verus! {

/// Largest window that a decoder is given.
pub const MAX_WINDOW: usize = 0x400_0000;

/// Smallest window.
pub const MIN_WINDOW: usize = 0x2_0000;

/// The header of the archive as a whole.
pub const HEAD_MAIN: u64 = 1;

/// The header of a file or directory.
pub const HEAD_FILE: u64 = 2;

/// The header that says that all headers behind it are encrypted.
pub const HEAD_CRYPT: u64 = 4;

/// The header that ends an archive.
pub const HEAD_END: u64 = 5;

/// The record of a file's header that says how its data is encrypted.
pub const ENCRYPTION: u64 = 1;

/// A file with a packed run of its own.
#[derive(Clone, Copy, Debug, PartialEq, Eq, Structural)]
pub struct RarFile {
    pub data_offset: u64,
    pub pack_size: u64,
    pub unpack_size: u64,
    pub window: usize,
    /// The run holds the bytes as they are.
    pub store: bool,
}

/// What is known of a file.
#[derive(Clone, Copy, Debug, PartialEq, Eq, Structural)]
pub enum Entry {
    /// It has a packed run of its own.
    Plain(RarFile),
    /// It is a member of a solid group.
    Solid { group: usize, member: usize },
    /// It cannot be read.
    Unextractable,
}

impl View for Entry {
    type V = Entry;

    open spec fn view(&self) -> Entry {
        *self
    }
}

/// The packed run of one member of a solid group.
#[derive(Clone, Copy, Debug, PartialEq, Eq, Structural)]
pub struct DataArea {
    pub offset: u64,
    pub pack: u64,
}

/// A solid group: the packed runs of its members form one stream. Member `i` is
/// the bytes `starts[i]..starts[i + 1]` of what the stream holds.
#[derive(Debug)]
pub struct SolidGroup {
    pub areas: Vec<DataArea>,
    pub window: usize,
    pub starts: Vec<u64>,
    pub total: u64,
}

/// A solid group as a mathematical value.
#[verifier::ext_equal]
pub struct Run {
    pub areas: Seq<DataArea>,
    pub window: usize,
    pub starts: Seq<u64>,
    pub total: u64,
}

impl View for SolidGroup {
    type V = Run;

    open spec fn view(&self) -> Run {
        Run {
            areas: self.areas@,
            window: self.window,
            starts: self.starts@,
            total: self.total,
        }
    }
}

/// The views of groups.
pub open spec fn runs(s: Seq<SolidGroup>) -> Seq<Run> {
    s.map_values(|g: SolidGroup| g@)
}

impl Run {
    /// The members follow one another, from 0 to the total.
    pub open spec fn wf(self) -> bool {
        &&& self.starts.len() == self.areas.len() + 1
        &&& self.starts[0] == 0
        &&& self.starts.last() == self.total
        &&& forall|i: int, j: int|
            0 <= i <= j < self.starts.len() ==> self.starts[i] <= self.starts[j]
    }
}

// ---- numbers ----

/// A number and where the next field is.
pub struct Field {
    pub v: u64,
    pub next: int,
}

/// The number at `p`, added to `acc` in units of `unit`: seven bits a byte, the
/// lowest first, until a byte below 128. It may have ten bytes; what does not
/// fit into 64 bits is dropped.
pub open spec fn vint_from(b: Seq<u8>, p: int, unit: int, acc: int) -> Option<Field>
    decreases b.len() - p,
{
    if p >= b.len() || unit > 0x8000_0000_0000_0000 {
        None
    } else {
        let v = acc + (b[p] as int % 128) * unit;
        if b[p] < 128 {
            Some(Field { v: (v % 0x1_0000_0000_0000_0000) as u64, next: p + 1 })
        } else {
            vint_from(b, p + 1, unit * 128, v)
        }
    }
}

/// The number at `p`.
pub open spec fn vint(b: Seq<u8>, p: int) -> Option<Field> {
    vint_from(b, p, 1, 0)
}

/// The number at `p`, which must be there.
pub open spec fn num(b: Seq<u8>, p: int) -> Result<Field> {
    match vint(b, p) {
        Some(f) => Ok(f),
        None => Err(Error::InvalidImage),
    }
}

/// A number takes up at least one byte.
pub proof fn lemma_vint(b: Seq<u8>, p: int, unit: int, acc: int)
    requires
        0 <= p,
    ensures
        vint_from(b, p, unit, acc) matches Some(f) ==> p < f.next <= b.len(),
    decreases b.len() - p,
{
    if p < b.len() && unit <= 0x8000_0000_0000_0000 && b[p] >= 128 {
        lemma_vint(b, p + 1, unit * 128, acc + (b[p] as int % 128) * unit);
    }
}

/// The unit of the byte `k` of a number.
spec fn is_unit(k: int, unit: int) -> bool {
    &&& k == 0 ==> unit == 1
    &&& k == 1 ==> unit == 0x80
    &&& k == 2 ==> unit == 0x4000
    &&& k == 3 ==> unit == 0x20_0000
    &&& k == 4 ==> unit == 0x1000_0000
    &&& k == 5 ==> unit == 0x8_0000_0000
    &&& k == 6 ==> unit == 0x400_0000_0000
    &&& k == 7 ==> unit == 0x2_0000_0000_0000
    &&& k == 8 ==> unit == 0x100_0000_0000_0000
    &&& k == 9 ==> unit == 0x8000_0000_0000_0000
}

fn read_vint(b: &[u8], pos: usize) -> (r: Option<(u64, usize)>)
    requires
        pos <= b@.len(),
    ensures
        match r {
            Some((v, n)) => vint(b@, pos as int) == Some(Field { v, next: n as int }) && pos < n
                <= b@.len(),
            None => vint(b@, pos as int) is None,
        },
{
    let mut acc: u64 = 0;
    let mut unit: u64 = 1;
    let mut i: usize = pos;
    let mut k: u32 = 0;
    while i < b.len()
        invariant
            pos <= i <= b@.len(),
            k <= 9,
            is_unit(k as int, unit as int),
            acc < unit,
            vint(b@, pos as int) == vint_from(b@, i as int, unit as int, acc as int),
        decreases b@.len() - i,
    {
        let c: u8 = b[i];
        let low: u64 = c as u64 % 128;
        let ghost v = acc + low * unit;
        if k == 9 {
            let top: u64 = (low % 2) * 0x8000_0000_0000_0000;
            proof {
                assert(low * unit == (low / 2) * 0x1_0000_0000_0000_0000 + (low % 2)
                    * 0x8000_0000_0000_0000);
                assert(v % 0x1_0000_0000_0000_0000 == acc + top);
                assert(vint_from(b@, i as int + 1, unit * 128, v) is None);
            }
            if c < 128 {
                return Some((acc + top, i + 1));
            }
            return None;
        }
        proof {
            assert(low * unit <= 127 * unit) by (nonlinear_arith)
                requires
                    low <= 127,
            ;
        }
        acc = acc + low * unit;
        i = i + 1;
        if c < 128 {
            return Some((acc, i));
        }
        unit = unit * 128;
        k = k + 1;
    }
    None
}

// ---- headers ----

/// The start of a header: its kind and flags, how many bytes at its end are
/// records, how many bytes of data follow it, and where its own fields start.
pub struct Opening {
    pub kind: u64,
    pub flags: u64,
    pub extra: u64,
    pub data: u64,
    pub next: int,
}

/// The start of the header `h`.
#[verifier::opaque]
pub open spec fn opening(h: Seq<u8>) -> Result<Opening> {
    match num(h, 0) {
        Err(e) => Err(e),
        Ok(kind) => match num(h, kind.next) {
            Err(e) => Err(e),
            Ok(flags) => match num_if(h, flags.v as int % 2 == 1, flags.next) {
                Err(e) => Err(e),
                Ok(extra) => match num_if(h, (flags.v as int / 2) % 2 == 1, extra.next) {
                    Err(e) => Err(e),
                    Ok(data) => Ok(
                        Opening {
                            kind: kind.v,
                            flags: flags.v,
                            extra: extra.v,
                            data: data.v,
                            next: data.next,
                        },
                    ),
                },
            },
        },
    }
}

/// The number at `p`, if there is such a number, else zero.
pub open spec fn num_if(h: Seq<u8>, there: bool, p: int) -> Result<Field> {
    if there {
        num(h, p)
    } else {
        Ok(Field { v: 0, next: p })
    }
}

/// Whether there is a record of the kind `kind` at `p` in the header `h` or
/// behind it. A record is its length, its kind and what the kind asks for; the
/// records end where one does not fit.
pub open spec fn has_record(h: Seq<u8>, p: int, kind: u64) -> bool
    decreases h.len() - p,
{
    match vint(h, p) {
        None => false,
        Some(size) => {
            let end = size.next + size.v;
            if p < size.next < end <= h.len() {
                match vint(h, size.next) {
                    None => false,
                    Some(k) => (k.next <= end && k.v == kind) || has_record(h, end, kind),
                }
            } else {
                false
            }
        },
    }
}

/// Whether the records of the header `h` say that its data is encrypted.
pub open spec fn encrypted(h: Seq<u8>, o: Opening) -> bool {
    o.extra <= h.len() && has_record(h, h.len() - o.extra, ENCRYPTION)
}

/// Whether the data of a header goes on from another volume or into one.
pub open spec fn split(o: Opening) -> bool {
    (o.flags as int / 8) % 2 == 1 || (o.flags as int / 16) % 2 == 1
}

/// Whether the main header `h` is that of one volume of several.
pub open spec fn is_volume(h: Seq<u8>, o: Opening) -> bool {
    match vint(h, o.next) {
        None => false,
        Some(flags) => flags.v as int % 2 == 1,
    }
}

/// Where the field behind four bytes at `p` is, if they are there, else `p`.
pub open spec fn past_if(h: Seq<u8>, there: bool, p: int) -> Result<int> {
    if !there {
        Ok(p)
    } else if p + 4 > h.len() {
        Err(Error::InvalidImage)
    } else {
        Ok(p + 4)
    }
}

/// The fields of a file's header.
#[verifier::ext_equal]
pub struct FileHead {
    pub flags: u64,
    pub unpack: u64,
    pub packing: u64,
    pub name: Seq<u8>,
}

/// The fields behind the times and checksums of a file's header.
pub open spec fn file_tail(h: Seq<u8>, p: int, flags: u64, unpack: u64) -> Result<FileHead> {
    match num(h, p) {
        Err(e) => Err(e),
        Ok(packing) => match num(h, packing.next) {
            Err(e) => Err(e),
            Ok(host) => match num(h, host.next) {
                Err(e) => Err(e),
                Ok(n) => if n.next + n.v > h.len() {
                    Err(Error::InvalidImage)
                } else {
                    Ok(
                        FileHead {
                            flags,
                            unpack,
                            packing: packing.v,
                            name: h.subrange(n.next, n.next + n.v),
                        },
                    )
                },
            },
        },
    }
}

/// The fields of a file's header `h` from `p` on.
#[verifier::opaque]
pub open spec fn file_head(h: Seq<u8>, p: int) -> Result<FileHead> {
    match num(h, p) {
        Err(e) => Err(e),
        Ok(flags) => match num(h, flags.next) {
            Err(e) => Err(e),
            Ok(unpack) => match num(h, unpack.next) {
                Err(e) => Err(e),
                Ok(attributes) => match past_if(
                    h,
                    (flags.v as int / 2) % 2 == 1,
                    attributes.next,
                ) {
                    Err(e) => Err(e),
                    Ok(q) => match past_if(h, (flags.v as int / 4) % 2 == 1, q) {
                        Err(e) => Err(e),
                        Ok(t) => file_tail(h, t, flags.v, unpack.v),
                    },
                },
            },
        },
    }
}

// ---- members ----

/// A file of the archive: its path, where its packed bytes are, how they were
/// packed, and whether they are out of reach, encrypted or in another volume.
#[verifier::ext_equal]
pub struct Member {
    pub path: Seq<char>,
    pub at: u64,
    pub pack: u64,
    pub unpack: u64,
    pub method: u64,
    pub window: usize,
    pub barred: bool,
}

/// The path of a stored name.
pub open spec fn name_path(b: Seq<u8>) -> Seq<char> {
    names::stored_path(names::slashed(text::text_of(b)))
}

/// The window that a packing with the number `n` asks for.
pub open spec fn asked_window(n: int) -> int
    decreases n,
{
    if n <= 0 {
        MIN_WINDOW as int
    } else {
        2 * asked_window(n - 1)
    }
}

/// The window of a packing with the number `n` on a device of `len` bytes: what
/// it asks for, but no more than a limit, and no more than the device holds or
/// the smallest window.
pub open spec fn window_of(n: int, len: int) -> usize {
    let w = if asked_window(n) < MAX_WINDOW {
        asked_window(n)
    } else {
        MAX_WINDOW as int
    };
    let most = if len > MIN_WINDOW {
        len
    } else {
        MIN_WINDOW as int
    };
    (if w < most {
        w
    } else {
        most
    }) as usize
}

/// The file with the header `f` and `pack` packed bytes at `at`.
pub open spec fn member_of(
    f: FileHead,
    at: int,
    pack: u64,
    len: int,
    barred: bool,
) -> Member {
    Member {
        path: name_path(f.name),
        at: at as u64,
        pack,
        unpack: f.unpack,
        method: ((f.packing as int / 128) % 8) as u64,
        window: window_of((f.packing as int / 1024) % 16, len),
        barred,
    }
}

/// A scan under way: the tree, the files in groups, in the order in which they
/// came, and whether the archive is one volume of several.
#[verifier::ext_equal]
pub struct Found {
    pub tree: Tree,
    pub groups: Seq<Seq<Member>>,
    pub volume: bool,
}

impl Found {
    /// With the file `m`: a solid one continues the last group, another one
    /// starts a group.
    pub open spec fn grouped(self, m: Member, solid: bool) -> Seq<Seq<Member>> {
        let n = self.groups.len();
        if !solid || n == 0 {
            self.groups.push(seq![m])
        } else {
            self.groups.update(n - 1, self.groups[n - 1].push(m))
        }
    }

    /// With the file or directory of the header `f`; one without a name is left
    /// out.
    #[verifier::opaque]
    pub open spec fn with(
        self,
        f: FileHead,
        at: int,
        pack: u64,
        len: int,
        barred: bool,
    ) -> Found {
        let m = member_of(f, at, pack, len, self.volume || barred);
        if m.path == seq!['/'] {
            self
        } else if f.flags as int % 2 == 1 {
            Found { tree: self.tree.pushed(index::plain_dir(m.path)), ..self }
        } else {
            Found {
                tree: self.tree.pushed(
                    index::plain_file(
                        m.path,
                        DataLocator {
                            offset: 0,
                            compressed_len: 0,
                            uncompressed_len: f.unpack,
                            method: Method::Stored,
                        },
                    ),
                ),
                groups: self.grouped(m, (f.packing as int / 64) % 2 == 1),
                ..self
            }
        }
    }
}

/// The bytes in which the size of the header at `pos` must end.
pub open spec fn preamble(img: Seq<u8>, pos: int) -> Seq<u8> {
    img.subrange(
        pos,
        if pos + 16 < img.len() {
            pos + 16
        } else {
            img.len() as int
        },
    )
}

/// The bytes of the header at `pos`, from where to where they are; `None` ends
/// the scan.
pub open spec fn header_at(img: Seq<u8>, pos: int) -> Option<(int, int)> {
    if pos + 5 > img.len() {
        None
    } else {
        match vint(preamble(img, pos), 4) {
            None => None,
            Some(f) => if pos + f.next + f.v > img.len() {
                None
            } else {
                Some((pos + f.next, pos + f.next + f.v))
            },
        }
    }
}

/// `s` with the headers from `pos` on, up to an end mark or to where there is no
/// header. Encrypted headers cannot be read.
pub open spec fn scan_from(img: Seq<u8>, pos: int, s: Found) -> Result<Found>
    decreases
            (if pos < img.len() {
                img.len() - pos
            } else {
                0
            }),
{
    proof {
        lemma_vint(preamble(img, pos), 4, 1, 0);
    }
    match header_at(img, pos) {
        None => Ok(s),
        Some((from, to)) => {
            let h = img.subrange(from, to);
            match opening(h) {
                Err(e) => Err(e),
                Ok(o) => if o.kind == HEAD_END {
                    Ok(s)
                } else if o.kind == HEAD_CRYPT {
                    Err(Error::Unsupported)
                } else if o.kind == HEAD_FILE {
                    match file_head(h, o.next) {
                        Err(e) => Err(e),
                        Ok(f) => scan_from(
                            img,
                            to + o.data,
                            s.with(
                                f,
                                to,
                                o.data,
                                img.len() as int,
                                split(o) || encrypted(h, o),
                            ),
                        ),
                    }
                } else if o.kind == HEAD_MAIN {
                    scan_from(
                        img,
                        to + o.data,
                        Found { volume: s.volume || is_volume(h, o), ..s },
                    )
                } else {
                    scan_from(img, to + o.data, s)
                },
            }
        },
    }
}

// ---- groups ----

/// What the first `n` members hold together.
pub open spec fn before(ms: Seq<Member>, n: int) -> int
    decreases n,
{
    if n <= 0 {
        0
    } else {
        before(ms, n - 1) + ms[n - 1].unpack
    }
}

/// The solid group of the members `ms`.
pub open spec fn run_of(ms: Seq<Member>) -> Run {
    Run {
        areas: ms.map_values(|m: Member| DataArea { offset: m.at, pack: m.pack }),
        window: ms[0].window,
        starts: Seq::new((ms.len() + 1) as nat, |i: int| before(ms, i) as u64),
        total: before(ms, ms.len() as int) as u64,
    }
}

/// `files` with the first `n` of the members `ms`, of the group `g` or of one
/// that cannot be read.
pub open spec fn kept(
    files: Map<Seq<char>, Entry>,
    ms: Seq<Member>,
    n: int,
    g: Option<usize>,
) -> Map<Seq<char>, Entry>
    decreases n,
{
    if n <= 0 {
        files
    } else {
        kept(files, ms, n - 1, g).insert(
            ms[n - 1].path,
            match g {
                Some(i) => Entry::Solid { group: i, member: (n - 1) as usize },
                None => Entry::Unextractable,
            },
        )
    }
}

/// Whether one of the first `n` members is stored as it is, or out of reach.
pub open spec fn holds_stray(ms: Seq<Member>, n: int) -> bool
    decreases n,
{
    n > 0 && (holds_stray(ms, n - 1) || ms[n - 1].method == 0 || ms[n - 1].barred)
}

/// The files of an archive and its solid groups.
#[verifier::ext_equal]
pub struct Tables {
    pub files: Map<Seq<char>, Entry>,
    pub groups: Seq<Run>,
}

impl Tables {
    /// With the group `ms`. A single member stands for itself. One that is out of
    /// reach cannot be read, nor can the members of a group with such a member or
    /// with a stored one.
    pub open spec fn with(self, ms: Seq<Member>) -> Result<Tables> {
        let n = ms.len() as int;
        if n == 1 {
            Ok(
                Tables {
                    files: self.files.insert(
                        ms[0].path,
                        if ms[0].barred {
                            Entry::Unextractable
                        } else {
                            Entry::Plain(
                                RarFile {
                                    data_offset: ms[0].at,
                                    pack_size: ms[0].pack,
                                    unpack_size: ms[0].unpack,
                                    window: ms[0].window,
                                    store: ms[0].method == 0,
                                },
                            )
                        },
                    ),
                    ..self
                },
            )
        } else if holds_stray(ms, n) {
            Ok(Tables { files: kept(self.files, ms, n, None), ..self })
        } else if before(ms, n) > u64::MAX {
            Err(Error::InvalidImage)
        } else {
            Ok(
                Tables {
                    files: kept(self.files, ms, n, Some(self.groups.len() as usize)),
                    groups: self.groups.push(run_of(ms)),
                },
            )
        }
    }

    /// A member of a group has its place there, and the members of each group
    /// follow one another.
    pub open spec fn wf(self) -> bool {
        &&& forall|i: int| 0 <= i < self.groups.len() ==> (#[trigger] self.groups[i]).wf()
        &&& forall|p: Seq<char>| #[trigger]
            self.files.dom().contains(p) ==> (self.files[p] matches Entry::Solid {
                group,
                member,
            } ==> group < self.groups.len() && member < self.groups[group as int].areas.len())
    }
}

/// The tables of the first `n` of the groups `gs`.
pub open spec fn tables(gs: Seq<Seq<Member>>, n: int) -> Result<Tables>
    decreases n,
{
    if n <= 0 {
        Ok(Tables { files: Map::empty(), groups: Seq::empty() })
    } else {
        match tables(gs, n - 1) {
            Err(e) => Err(e),
            Ok(t) => t.with(gs[n - 1]),
        }
    }
}

/// A scanned archive, as a mathematical value.
#[verifier::ext_equal]
pub struct Scanned {
    pub tree: Tree,
    pub tables: Tables,
}

/// The archive on the device `img`.
pub open spec fn scanned(img: Seq<u8>) -> Result<Scanned> {
    match scan_from(img, 8, nothing()) {
        Err(e) => Err(e),
        Ok(s) => match tables(s.groups, s.groups.len() as int) {
            Err(e) => Err(e),
            Ok(t) => Ok(Scanned { tree: s.tree, tables: t }),
        },
    }
}

/// A scanned archive.
pub struct Parsed {
    pub index: ArchiveIndex,
    pub files: PathTable<Entry>,
    pub groups: Vec<SolidGroup>,
}

impl View for Parsed {
    type V = Scanned;

    open spec fn view(&self) -> Scanned {
        Scanned {
            tree: self.index@,
            tables: Tables { files: self.files@, groups: runs(self.groups@) },
        }
    }
}

// ---- reading ----

/// A file of the archive.
struct MemberB {
    path: String,
    at: u64,
    pack: u64,
    unpack: u64,
    method: u64,
    window: usize,
    barred: bool,
}

impl View for MemberB {
    type V = Member;

    closed spec fn view(&self) -> Member {
        Member {
            path: self.path@,
            at: self.at,
            pack: self.pack,
            unpack: self.unpack,
            method: self.method,
            window: self.window,
            barred: self.barred,
        }
    }
}

/// The views of files.
closed spec fn members(s: Seq<MemberB>) -> Seq<Member> {
    s.map_values(|m: MemberB| m@)
}

/// The views of groups of files.
closed spec fn member_groups(s: Seq<Vec<MemberB>>) -> Seq<Seq<Member>> {
    s.map_values(|v: Vec<MemberB>| members(v@))
}

/// No group is empty.
closed spec fn filled(s: Seq<Vec<MemberB>>) -> bool {
    forall|i: int| 0 <= i < s.len() ==> (#[trigger] s[i])@.len() > 0
}

fn read_num(h: &[u8], p: usize) -> (r: Result<(u64, usize)>)
    requires
        p <= h@.len(),
    ensures
        match r {
            Ok((v, n)) => num(h@, p as int) == Ok::<Field, Error>(Field { v, next: n as int }) && n
                <= h@.len(),
            Err(e) => num(h@, p as int) == Err::<Field, Error>(e),
        },
{
    match read_vint(h, p) {
        Some(x) => Ok(x),
        None => Err(Error::InvalidImage),
    }
}

/// The start of a header.
struct OpeningB {
    kind: u64,
    flags: u64,
    extra: u64,
    data: u64,
    next: usize,
}

impl View for OpeningB {
    type V = Opening;

    closed spec fn view(&self) -> Opening {
        Opening {
            kind: self.kind,
            flags: self.flags,
            extra: self.extra,
            data: self.data,
            next: self.next as int,
        }
    }
}

fn read_num_if(h: &[u8], there: bool, p: usize) -> (r: Result<(u64, usize)>)
    requires
        p <= h@.len(),
    ensures
        match r {
            Ok((v, n)) => num_if(h@, there, p as int) == Ok::<Field, Error>(
                Field { v, next: n as int },
            ) && n <= h@.len(),
            Err(e) => num_if(h@, there, p as int) == Err::<Field, Error>(e),
        },
{
    if there {
        read_num(h, p)
    } else {
        Ok((0, p))
    }
}

fn read_opening(h: &[u8]) -> (r: Result<OpeningB>)
    ensures
        match r {
            Ok(o) => opening(h@) == Ok::<Opening, Error>(o@) && o.next <= h@.len(),
            Err(e) => opening(h@) == Err::<Opening, Error>(e),
        },
{
    proof {
        reveal(opening);
    }
    let (kind, p) = read_num(h, 0)?;
    let (flags, p) = read_num(h, p)?;
    let (extra, p) = read_num_if(h, flags % 2 == 1, p)?;
    let (data, next) = read_num_if(h, (flags / 2) % 2 == 1, p)?;
    Ok(OpeningB { kind, flags, extra, data, next })
}

fn find_record(h: &[u8], from: usize, kind: u64) -> (r: bool)
    requires
        from <= h@.len(),
    ensures
        r == has_record(h@, from as int, kind),
{
    let mut p: usize = from;
    loop
        invariant
            p <= h@.len(),
            has_record(h@, from as int, kind) == has_record(h@, p as int, kind),
        decreases h@.len() - p,
    {
        let (size, at) = match read_vint(h, p) {
            Some(x) => x,
            None => return false,
        };
        if size == 0 || size > (h.len() - at) as u64 {
            return false;
        }
        let end: usize = at + size as usize;
        let (k, n) = match read_vint(h, at) {
            Some(x) => x,
            None => return false,
        };
        if n <= end && k == kind {
            return true;
        }
        p = end;
    }
}

fn is_barred(h: &[u8], o: &OpeningB) -> (r: bool)
    ensures
        r == (split(o@) || encrypted(h@, o@)),
{
    if (o.flags / 8) % 2 == 1 || (o.flags / 16) % 2 == 1 {
        return true;
    }
    if o.extra > h.len() as u64 {
        return false;
    }
    find_record(h, h.len() - o.extra as usize, ENCRYPTION)
}

fn heads_volume(h: &[u8], o: &OpeningB) -> (r: bool)
    requires
        o.next <= h@.len(),
    ensures
        r == is_volume(h@, o@),
{
    match read_vint(h, o.next) {
        Some((flags, _)) => flags % 2 == 1,
        None => false,
    }
}

/// A file's header: its flags, length and packing, and where its name is.
struct HeadB {
    flags: u64,
    unpack: u64,
    packing: u64,
    from: usize,
    to: usize,
}

impl HeadB {
    closed spec fn of(self, h: Seq<u8>) -> FileHead {
        FileHead {
            flags: self.flags,
            unpack: self.unpack,
            packing: self.packing,
            name: h.subrange(self.from as int, self.to as int),
        }
    }
}

fn read_file_tail(h: &[u8], p: usize, flags: u64, unpack: u64) -> (r: Result<HeadB>)
    requires
        p <= h@.len(),
    ensures
        match r {
            Ok(f) => file_tail(h@, p as int, flags, unpack) == Ok::<FileHead, Error>(f.of(h@))
                && f.from <= f.to <= h@.len(),
            Err(e) => file_tail(h@, p as int, flags, unpack) == Err::<FileHead, Error>(e),
        },
{
    let (packing, p) = read_num(h, p)?;
    let (_host, p) = read_num(h, p)?;
    let (n, from) = read_num(h, p)?;
    if n > (h.len() - from) as u64 {
        return Err(Error::InvalidImage);
    }
    Ok(HeadB { flags, unpack, packing, from, to: from + n as usize })
}

fn read_file_head(h: &[u8], p: usize) -> (r: Result<HeadB>)
    requires
        p <= h@.len(),
    ensures
        match r {
            Ok(f) => file_head(h@, p as int) == Ok::<FileHead, Error>(f.of(h@)) && f.from <= f.to
                <= h@.len(),
            Err(e) => file_head(h@, p as int) == Err::<FileHead, Error>(e),
        },
{
    proof {
        reveal(file_head);
    }
    let (flags, p) = read_num(h, p)?;
    let (unpack, p) = read_num(h, p)?;
    let (_attributes, p) = read_num(h, p)?;
    let mut q: usize = p;
    if (flags / 2) % 2 == 1 {
        if h.len() - q < 4 {
            return Err(Error::InvalidImage);
        }
        q = q + 4;
    }
    if (flags / 4) % 2 == 1 {
        if h.len() - q < 4 {
            return Err(Error::InvalidImage);
        }
        q = q + 4;
    }
    read_file_tail(h, q, flags, unpack)
}

proof fn lemma_asked_window(n: int)
    requires
        0 <= n < 15,
    ensures
        asked_window(n) <= 0x8000_0000,
{
    reveal_with_fuel(asked_window, 16);
}

fn pick_window(n: u64, len: usize) -> (w: usize)
    requires
        n < 16,
    ensures
        w == window_of(n as int, len as int),
{
    let mut w: u64 = MIN_WINDOW as u64;
    let mut i: u64 = 0;
    while i < n
        invariant
            i <= n < 16,
            w == asked_window(i as int),
            w <= 0x1_0000_0000,
        decreases n - i,
    {
        proof {
            lemma_asked_window(i as int);
        }
        w = w * 2;
        i = i + 1;
    }
    let w: usize = if w < MAX_WINDOW as u64 {
        w as usize
    } else {
        MAX_WINDOW
    };
    let most: usize = if len > MIN_WINDOW {
        len
    } else {
        MIN_WINDOW
    };
    if w < most {
        w
    } else {
        most
    }
}

fn note_member(
    index: &mut ArchiveIndex,
    groups: &mut Vec<Vec<MemberB>>,
    h: &[u8],
    f: &HeadB,
    at: u64,
    pack: u64,
    len: usize,
    volume: bool,
    barred: bool,
)
    requires
        f.from <= f.to <= h@.len(),
        filled(old(groups)@),
    ensures
        filled(final(groups)@),
        found(*final(index), final(groups)@, volume) == found(
            *old(index),
            old(groups)@,
            volume,
        ).with(f.of(h@), at as int, pack, len as int, barred),
{
    let ghost g0 = groups@;
    proof {
        reveal(Found::with);
    }
    let raw = from_utf8_lossy(slice_subrange(h, f.from, f.to));
    let name = to_slashes(raw.as_str());
    let path = path_of_stored(name.as_str());
    if is_root(path.as_str()) {
        return;
    }
    if f.flags % 2 == 1 {
        index.push(ArchiveEntry::dir(path));
        return;
    }
    let m = MemberB {
        path: copy_text(path.as_str()),
        at,
        pack,
        unpack: f.unpack,
        method: (f.packing / 128) % 8,
        window: pick_window((f.packing / 1024) % 16, len),
        barred: volume || barred,
    };
    let ghost mv = m@;
    proof {
        assert(mv =~= member_of(
            f.of(h@),
            at as int,
            pack,
            len as int,
            volume || barred,
        ));
    }
    index.push(
        ArchiveEntry::regular(
            path,
            DataLocator {
                offset: 0,
                compressed_len: 0,
                uncompressed_len: f.unpack,
                method: Method::Stored,
            },
        ),
    );
    if (f.packing / 64) % 2 == 0 || groups.len() == 0 {
        let mut one: Vec<MemberB> = Vec::new();
        one.push(m);
        proof {
            assert(members(one@) =~= seq![mv]);
            assert(member_groups(g0.push(one)) =~= member_groups(g0).push(members(one@)));
        }
        groups.push(one);
    } else {
        let n: usize = groups.len() - 1;
        match groups.pop() {
            Some(mut last) => {
                let ghost l0 = last@;
                last.push(m);
                proof {
                    assert(members(last@) =~= members(l0).push(mv));
                    assert(member_groups(g0.drop_last().push(last)) =~= member_groups(g0).update(
                        n as int,
                        members(last@),
                    ));
                    assert(member_groups(g0)[n as int] == members(l0));
                }
                groups.push(last);
            },
            None => {},
        }
    }
}

/// A scan that has found nothing.
pub open spec fn nothing() -> Found {
    Found { tree: Tree::empty(), groups: Seq::empty(), volume: false }
}

/// What was found, as a mathematical value.
closed spec fn found(index: ArchiveIndex, groups: Seq<Vec<MemberB>>, volume: bool) -> Found {
    Found { tree: index@, groups: member_groups(groups), volume }
}

fn find_headers(b: &[u8]) -> (r: Result<(ArchiveIndex, Vec<Vec<MemberB>>, bool)>)
    ensures
        match r {
            Ok((i, g, v)) => scan_from(b@, 8, nothing()) == Ok::<Found, Error>(found(i, g@, v))
                && filled(g@),
            Err(e) => scan_from(b@, 8, nothing()) == Err::<Found, Error>(e),
        },
{
    let len: usize = b.len();
    let mut index = ArchiveIndex::new("rar");
    let mut groups: Vec<Vec<MemberB>> = Vec::new();
    let mut volume: bool = false;
    let mut pos: u64 = 8;
    let ghost all = scan_from(b@, 8, nothing());
    proof {
        assert(member_groups(groups@) =~= Seq::empty());
    }
    while len >= 5 && pos <= len as u64 - 5
        invariant_except_break
            all == scan_from(b@, pos as int, found(index, groups@, volume)),
        invariant
            len == b@.len(),
            filled(groups@),
            all == scan_from(b@, 8, nothing()),
        ensures
            all == Ok::<Found, Error>(found(index, groups@, volume)),
        decreases (if pos < len { len - pos } else { 0 }),
    {
        let at: usize = pos as usize;
        let end: usize = if len - at > 16 {
            at + 16
        } else {
            len
        };
        let pre = slice_subrange(b, at, end);
        proof {
            assert(pre@ =~= preamble(b@, pos as int));
        }
        let (size, n) = match read_vint(pre, 4) {
            Some(x) => x,
            None => break,
        };
        let from: usize = at + n;
        if size > (len - from) as u64 {
            break;
        }
        let to: usize = from + size as usize;
        let h = slice_subrange(b, from, to);
        let o = read_opening(h)?;
        let data: u64 = o.data;
        if o.kind == HEAD_END {
            break;
        }
        if o.kind == HEAD_CRYPT {
            return Err(Error::Unsupported);
        }
        if o.kind == HEAD_FILE {
            let f = read_file_head(h, o.next)?;
            let barred = is_barred(h, &o);
            note_member(&mut index, &mut groups, h, &f, to as u64, data, len, volume, barred);
        } else if o.kind == HEAD_MAIN {
            volume = volume || heads_volume(h, &o);
        }
        if data > u64::MAX - to as u64 {
            proof {
                assert(scan_from(b@, to + data, found(index, groups@, volume)) == Ok::<
                    Found,
                    Error,
                >(found(index, groups@, volume)));
            }
            break;
        }
        pos = to as u64 + data;
    }
    Ok((index, groups, volume))
}

proof fn lemma_before(ms: Seq<Member>, i: int, j: int)
    requires
        i <= j,
    ensures
        0 <= before(ms, i) <= before(ms, j),
    decreases j,
{
    if i < j {
        if j > 0 {
            lemma_before(ms, i, j - 1);
        }
    } else if i > 0 {
        lemma_before(ms, i - 1, i - 1);
    }
}

proof fn lemma_run_of(ms: Seq<Member>)
    requires
        before(ms, ms.len() as int) <= u64::MAX,
    ensures
        run_of(ms).wf(),
{
    let r = run_of(ms);
    let n = ms.len() as int;
    assert forall|i: int, j: int| 0 <= i <= j < r.starts.len() implies r.starts[i]
        <= r.starts[j] by {
        lemma_before(ms, i, j);
        lemma_before(ms, j, n);
    }
}

proof fn lemma_kept(t: Tables, ms: Seq<Member>, n: int, g: Option<usize>, groups: Seq<Run>)
    requires
        t.wf(),
        0 <= n,
        groups.len() >= t.groups.len(),
        forall|i: int| 0 <= i < groups.len() ==> (#[trigger] groups[i]).wf(),
        forall|i: int| 0 <= i < t.groups.len() ==> groups[i] == #[trigger] t.groups[i],
        g matches Some(i) ==> i < groups.len() && n <= groups[i as int].areas.len()
            && n <= usize::MAX,
    ensures
        (Tables { files: kept(t.files, ms, n, g), groups }).wf(),
    decreases n,
{
    if n > 0 {
        lemma_kept(t, ms, n - 1, g, groups);
    }
}

proof fn lemma_with(t: Tables, ms: Seq<Member>)
    requires
        t.wf(),
        ms.len() <= usize::MAX,
        t.groups.len() < usize::MAX,
    ensures
        t.with(ms) matches Ok(u) ==> u.wf(),
{
    let n = ms.len() as int;
    if n != 1 {
        if holds_stray(ms, n) {
            lemma_kept(t, ms, n, None, t.groups);
        } else if before(ms, n) <= u64::MAX {
            lemma_run_of(ms);
            lemma_kept(t, ms, n, Some(t.groups.len() as usize), t.groups.push(run_of(ms)));
        }
    }
}

fn keep(files: &mut PathTable<Entry>, ms: &Vec<MemberB>, g: Option<usize>)
    requires
        old(files).wf(),
    ensures
        final(files).wf(),
        final(files)@ == kept(old(files)@, members(ms@), ms@.len() as int, g),
{
    let ghost f0 = files@;
    let mut i: usize = 0;
    while i < ms.len()
        invariant
            i <= ms@.len(),
            files.wf(),
            files@ == kept(f0, members(ms@), i as int, g),
        decreases ms@.len() - i,
    {
        let e = match g {
            Some(k) => Entry::Solid { group: k, member: i },
            None => Entry::Unextractable,
        };
        proof {
            assert(members(ms@)[i as int] == ms@[i as int]@);
        }
        files.insert(ms[i].path.as_str(), e);
        i = i + 1;
    }
}

fn any_stray(ms: &Vec<MemberB>) -> (r: bool)
    ensures
        r == holds_stray(members(ms@), ms@.len() as int),
{
    let mut r: bool = false;
    let mut i: usize = 0;
    while i < ms.len()
        invariant
            i <= ms@.len(),
            r == holds_stray(members(ms@), i as int),
        decreases ms@.len() - i,
    {
        proof {
            assert(members(ms@)[i as int] == ms@[i as int]@);
        }
        r = r || ms[i].method == 0 || ms[i].barred;
        i = i + 1;
    }
    r
}

fn make_group(ms: &Vec<MemberB>) -> (r: Result<SolidGroup>)
    requires
        ms@.len() > 0,
    ensures
        match r {
            Ok(g) => before(members(ms@), ms@.len() as int) <= u64::MAX && g@ == run_of(
                members(ms@),
            ),
            Err(e) => before(members(ms@), ms@.len() as int) > u64::MAX && e
                == Error::InvalidImage,
        },
{
    let ghost v = members(ms@);
    let mut areas: Vec<DataArea> = Vec::new();
    let mut starts: Vec<u64> = Vec::new();
    let mut total: u64 = 0;
    starts.push(0);
    let mut i: usize = 0;
    while i < ms.len()
        invariant
            i <= ms@.len(),
            v == members(ms@),
            total == before(v, i as int),
            areas@.len() == i,
            forall|j: int| 0 <= j < i ==> #[trigger] areas@[j] == (DataArea {
                offset: v[j].at,
                pack: v[j].pack,
            }),
            starts@.len() == i + 1,
            forall|j: int| 0 <= j <= i ==> #[trigger] starts@[j] == before(v, j),
        decreases ms@.len() - i,
    {
        proof {
            assert(v[i as int] == ms@[i as int]@);
        }
        areas.push(DataArea { offset: ms[i].at, pack: ms[i].pack });
        if ms[i].unpack > u64::MAX - total {
            proof {
                lemma_before(v, i as int + 1, v.len() as int);
            }
            return Err(Error::InvalidImage);
        }
        total = total + ms[i].unpack;
        starts.push(total);
        i = i + 1;
    }
    let g = SolidGroup { areas, window: ms[0].window, starts, total };
    proof {
        assert(v[0] == ms@[0]@);
        let r = run_of(v);
        assert(g@.areas =~= r.areas);
        assert forall|j: int| 0 <= j <= v.len() implies g@.starts[j] == #[trigger] r.starts[j] by {
            assert(starts@[j] == before(v, j));
        }
        assert(g@ =~= r);
    }
    Ok(g)
}

/// An error stays.
proof fn lemma_tables_err(gs: Seq<Seq<Member>>, n: int, m: int)
    requires
        n <= m,
    ensures
        tables(gs, n) matches Err(e) ==> tables(gs, m) == Err::<Tables, Error>(e),
    decreases m - n,
{
    if n < m {
        lemma_tables_err(gs, n, m - 1);
    }
}

fn make_tables(all: &Vec<Vec<MemberB>>) -> (r: Result<(PathTable<Entry>, Vec<SolidGroup>)>)
    requires
        filled(all@),
    ensures
        match r {
            Ok((f, g)) => tables(member_groups(all@), all@.len() as int) == Ok::<Tables, Error>(
                Tables { files: f@, groups: runs(g@) },
            ) && f.wf() && (Tables { files: f@, groups: runs(g@) }).wf(),
            Err(e) => tables(member_groups(all@), all@.len() as int) == Err::<Tables, Error>(e),
        },
{
    let ghost gs = member_groups(all@);
    let mut files: PathTable<Entry> = PathTable::new();
    let mut groups: Vec<SolidGroup> = Vec::new();
    proof {
        assert(runs(groups@) =~= Seq::empty());
    }
    let mut i: usize = 0;
    while i < all.len()
        invariant
            i <= all@.len(),
            gs == member_groups(all@),
            filled(all@),
            files.wf(),
            groups@.len() <= i,
            (Tables { files: files@, groups: runs(groups@) }).wf(),
            tables(gs, i as int) == Ok::<Tables, Error>(
                Tables { files: files@, groups: runs(groups@) },
            ),
        decreases all@.len() - i,
    {
        let ms = &all[i];
        let ghost v = members(ms@);
        let ghost t = Tables { files: files@, groups: runs(groups@) };
        proof {
            assert(gs[i as int] == v);
            lemma_tables_err(gs, i as int + 1, gs.len() as int);
        }
        let held: usize = ms.len();
        if ms.len() == 1 {
            let m = &ms[0];
            proof {
                assert(v[0] == m@);
            }
            let e = if m.barred {
                Entry::Unextractable
            } else {
                Entry::Plain(
                    RarFile {
                        data_offset: m.at,
                        pack_size: m.pack,
                        unpack_size: m.unpack,
                        window: m.window,
                        store: m.method == 0,
                    },
                )
            };
            files.insert(m.path.as_str(), e);
        } else if any_stray(ms) {
            keep(&mut files, ms, None);
        } else {
            let k: usize = groups.len();
            let g = make_group(ms)?;
            keep(&mut files, ms, Some(k));
            proof {
                assert(runs(groups@.push(g)) =~= runs(groups@).push(g@));
            }
            groups.push(g);
        }
        proof {
            lemma_with(t, v);
        }
        i = i + 1;
    }
    Ok((files, groups))
}

/// Scan the archive on `dev`.
pub fn scan(dev: &MemoryBackend) -> (r: Result<Parsed>)
    ensures
        match r {
            Ok(p) => scanned(dev@) == Ok::<Scanned, Error>(p@) && p.files.wf() && p@.tables.wf(),
            Err(e) => scanned(dev@) == Err::<Scanned, Error>(e),
        },
{
    let (index, all, _) = find_headers(dev.as_slice())?;
    let (files, groups) = make_tables(&all)?;
    Ok(Parsed { index, files, groups })
}

} // verus!
