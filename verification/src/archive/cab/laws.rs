//! What is read of a cabinet, from what was put into it.

use vstd::prelude::*;

use crate::archive::cab::folder;
use crate::archive::cab::scan::{self, CabMethod, CfData, Chain, FileSlice, Scanned};
use crate::archive::cab::CabFs;
use crate::archive::codec;
use crate::archive::dos;
use crate::archive::index::{DataLocator, EntryKind, Item, Method};
use crate::archive::laws;
use crate::archive::layout::{self, holds, holds16, holds32};
use crate::archive::listing;
use crate::archive::mem;
use crate::archive::names;
use crate::block;
use crate::bytes;
use crate::error::Error;
use crate::text;

verus! {

// ---- cabinets ----

/// A block of a folder: its bytes as they are stored, and how many they unpack to.
pub struct Piece {
    pub bytes: Seq<u8>,
    pub unpacked: u16,
}

/// A folder: where its blocks start, how they are packed, and the blocks.
pub struct Parcel {
    pub start: int,
    pub method: CabMethod,
    pub pieces: Seq<Piece>,
}

/// A file: its name, the folder it lies in, where in what the folder holds, and
/// what is told of it.
pub struct Slip {
    pub name: Seq<u8>,
    pub utf8: bool,
    pub read_only: bool,
    pub folder: u16,
    pub offset: u32,
    pub length: u32,
    pub date: u16,
    pub time: u16,
}

/// How many bytes are set aside: in the header of the cabinet, in that of each
/// folder, and in that of each block.
pub struct Aside {
    pub header: u16,
    pub folder: u8,
    pub block: u8,
}

/// A cabinet.
pub struct Cabinet {
    pub aside: Option<Aside>,
    pub folders: Seq<Parcel>,
    /// Where the headers of the files start.
    pub files_at: int,
    pub files: Seq<Slip>,
}

impl Cabinet {
    /// Where the header of folder `i` is.
    pub open spec fn folder_at(self, i: int) -> int {
        match self.aside {
            None => 36 + 8 * i,
            Some(a) => 40 + a.header + (8 + a.folder) * i,
        }
    }

    /// Number of bytes between the header of a block and its bytes.
    pub open spec fn gap(self) -> int {
        match self.aside {
            None => 0,
            Some(a) => a.block as int,
        }
    }

    /// Where the header of file `i` is: behind the one before it and its name.
    pub open spec fn file_at(self, i: int) -> int
        decreases i,
    {
        if i <= 0 {
            self.files_at
        } else {
            self.file_at(i - 1) + 16 + self.files[i - 1].name.len() + 1
        }
    }
}

impl Parcel {
    /// Where the header of block `j` is: behind the bytes of the one before it.
    pub open spec fn block_at(self, gap: int, j: int) -> int
        decreases j,
    {
        if j <= 0 {
            self.start
        } else {
            self.block_at(gap, j - 1) + 8 + gap + self.pieces[j - 1].bytes.len()
        }
    }

    /// The bytes of the first `j` blocks, one behind another.
    pub open spec fn stored(self, j: int) -> Seq<u8>
        decreases j,
    {
        if j <= 0 {
            Seq::empty()
        } else {
            self.stored(j - 1) + self.pieces[j - 1].bytes
        }
    }

    /// Number of bytes that the first `j` blocks unpack to.
    pub open spec fn amount(self, j: int) -> int
        decreases j,
    {
        if j <= 0 {
            0
        } else {
            self.amount(j - 1) + self.pieces[j - 1].unpacked
        }
    }
}

/// The number of the method `m` in the header of a folder.
pub open spec fn type_of(m: CabMethod) -> int {
    match m {
        CabMethod::Store => 0,
        CabMethod::MsZip => 1,
        CabMethod::Quantum { window_bits } => 2 + 0x100 * window_bits,
        CabMethod::Lzx { window_bits } => 3 + 0x100 * window_bits,
        CabMethod::Unsupported(t) => t as int,
    }
}

/// Whether the method `m` has a number.
pub open spec fn numbered(m: CabMethod) -> bool {
    match m {
        CabMethod::Store => true,
        CabMethod::MsZip => true,
        CabMethod::Quantum { window_bits } => window_bits < 32,
        CabMethod::Lzx { window_bits } => window_bits < 32,
        CabMethod::Unsupported(t) => 4 <= t < 16,
    }
}

/// Whether the device `img` holds the header of the folder `p` at `at`, and its
/// blocks, with `gap` bytes between the header of each and its bytes.
pub open spec fn holds_folder(img: Seq<u8>, p: Parcel, at: int, gap: int) -> bool {
    &&& numbered(p.method)
    &&& holds32(img, at, p.start)
    &&& holds16(img, at + 4, p.pieces.len() as int)
    &&& holds16(img, at + 6, type_of(p.method))
    &&& forall|j: int|
        0 <= j < p.pieces.len() ==> #[trigger] holds_piece(
            img,
            p.pieces[j],
            p.block_at(gap, j),
            gap,
        )
}

/// Whether the device `img` holds the block `b` with its header at `at`.
pub open spec fn holds_piece(img: Seq<u8>, b: Piece, at: int, gap: int) -> bool {
    &&& holds16(img, at + 4, b.bytes.len() as int)
    &&& holds16(img, at + 6, b.unpacked as int)
    &&& holds(img, at + 8 + gap, b.bytes)
}

/// Whether the device `img` holds the header of the file `f` at `at`.
pub open spec fn holds_file(img: Seq<u8>, f: Slip, at: int) -> bool {
    &&& holds32(img, at, f.length as int)
    &&& holds32(img, at + 4, f.offset as int)
    &&& holds16(img, at + 8, f.folder as int)
    &&& holds16(img, at + 10, f.date as int)
    &&& holds16(img, at + 12, f.time as int)
    &&& holds16(
        img,
        at + 14,
        (if f.utf8 {
            0x80int
        } else {
            0
        }) + (if f.read_only {
            1int
        } else {
            0
        }),
    )
    &&& f.name.len() < 512
    &&& forall|k: int| 0 <= k < f.name.len() ==> f.name[k] != 0
    &&& holds(img, at + 16, f.name + seq![0u8])
}

/// Whether the device `img` holds the cabinet `c`.
pub open spec fn holds_cabinet(img: Seq<u8>, c: Cabinet) -> bool {
    &&& img.len() <= u64::MAX
    &&& holds(img, 0, seq![0x4du8, 0x53, 0x43, 0x46])
    &&& 36 <= img.len()
    &&& holds32(img, 16, c.files_at)
    &&& holds16(img, 26, c.folders.len() as int)
    &&& holds16(img, 28, c.files.len() as int)
    &&& match c.aside {
        None => holds16(img, 30, 0),
        Some(a) => {
            &&& holds16(img, 30, 4)
            &&& holds16(img, 36, a.header as int)
            &&& holds(img, 38, seq![a.folder, a.block])
        },
    }
    &&& forall|i: int|
        0 <= i < c.folders.len() ==> #[trigger] holds_folder(
            img,
            c.folders[i],
            c.folder_at(i),
            c.gap(),
        ) && c.folder_at(i) + 8 + 0xff <= u64::MAX
    &&& forall|i: int|
        0 <= i < c.files.len() ==> #[trigger] holds_file(img, c.files[i], c.file_at(i))
}

// ---- folders ----

/// Where the bytes of the first `j` blocks of the folder `p` are.
pub open spec fn places(p: Parcel, gap: int, j: int) -> Seq<CfData> {
    Seq::new(
        j as nat,
        |k: int|
            CfData {
                offset: (p.block_at(gap, k) + 8 + gap) as u64,
                comp_len: p.pieces[k].bytes.len() as u32,
            },
    )
}

proof fn lemma_amount(p: Parcel, j: int)
    requires
        0 <= j,
    ensures
        0 <= p.amount(j) <= 0xffff * j,
    decreases j,
{
    if j > 0 {
        lemma_amount(p, j - 1);
    }
}

proof fn lemma_chain(img: Seq<u8>, p: Parcel, at: int, gap: int, j: int)
    requires
        holds_folder(img, p, at, gap),
        img.len() <= u64::MAX,
        0 <= gap,
        0 <= j <= p.pieces.len(),
    ensures
        scan::chain(
            img,
            p.block_at(gap, j),
            p.pieces.len() - j,
            gap,
            places(p, gap, j),
            p.amount(j),
        ) == Ok::<(Seq<CfData>, int), Error>(
            (places(p, gap, p.pieces.len() as int), p.amount(p.pieces.len() as int)),
        ),
    decreases p.pieces.len() - j,
{
    broadcast use {layout::lemma_holds16, layout::lemma_holds32};

    if j < p.pieces.len() {
        let b = p.pieces[j];
        assert(holds_piece(img, b, p.block_at(gap, j), gap));
        lemma_chain(img, p, at, gap, j + 1);
        assert(places(p, gap, j).push(
            CfData {
                offset: (p.block_at(gap, j) + 8 + gap) as u64,
                comp_len: b.bytes.len() as u32,
            },
        ) =~= places(p, gap, j + 1));
    }
}

proof fn lemma_method(m: CabMethod)
    requires
        numbered(m),
    ensures
        0 <= type_of(m) < 0x1_0000,
        scan::method_of(type_of(m) as u16) == m,
{
    match m {
        CabMethod::Quantum { window_bits } => {
            assert(type_of(m) / 256 == window_bits as int && type_of(m) % 16 == 2);
        },
        CabMethod::Lzx { window_bits } => {
            assert(type_of(m) / 256 == window_bits as int && type_of(m) % 16 == 3);
        },
        _ => {},
    }
}

/// What is read of a folder.
pub open spec fn chain_of(p: Parcel, gap: int) -> Chain {
    Chain {
        method: p.method,
        blocks: places(p, gap, p.pieces.len() as int),
        total: p.amount(p.pieces.len() as int) as u64,
    }
}

proof fn lemma_folder(img: Seq<u8>, p: Parcel, at: int, gap: int)
    requires
        holds_folder(img, p, at, gap),
        img.len() <= u64::MAX,
        0 <= gap,
    ensures
        scan::folder_at(img, at, gap) == Ok::<Chain, Error>(chain_of(p, gap)),
{
    broadcast use {layout::lemma_holds16, layout::lemma_holds32};

    lemma_chain(img, p, at, gap, 0);
    lemma_method(p.method);
    assert(places(p, gap, 0) =~= Seq::<CfData>::empty());
}

/// What is read of the first `i` folders of `c`.
pub open spec fn chains_of(c: Cabinet, i: int) -> Seq<Chain> {
    Seq::new(i as nat, |k: int| chain_of(c.folders[k], c.gap()))
}

proof fn lemma_next_folder(c: Cabinet, i: int)
    requires
        0 <= i,
    ensures
        c.folder_at(i + 1) == c.folder_at(i) + 8 + match c.aside {
            None => 0int,
            Some(a) => a.folder as int,
        },
{
    if let Some(a) = c.aside {
        assert((8 + a.folder) * (i + 1) == (8 + a.folder) * i + 8 + a.folder) by (nonlinear_arith);
    }
}

proof fn lemma_folders(img: Seq<u8>, c: Cabinet, i: int)
    requires
        holds_cabinet(img, c),
        0 <= i <= c.folders.len(),
    ensures
        scan::folders_from(
            img,
            c.folder_at(i),
            c.folders.len() - i,
            match c.aside {
                None => 0int,
                Some(a) => a.folder as int,
            },
            c.gap(),
            chains_of(c, i),
        ) == Ok::<Seq<Chain>, Error>(chains_of(c, c.folders.len() as int)),
    decreases c.folders.len() - i,
{
    broadcast use {layout::lemma_holds16, layout::lemma_holds32};

    if i < c.folders.len() {
        assert(holds_folder(img, c.folders[i], c.folder_at(i), c.gap()));
        lemma_folder(img, c.folders[i], c.folder_at(i), c.gap());
        lemma_next_folder(c, i);
        lemma_folders(img, c, i + 1);
        assert(chains_of(c, i).push(chain_of(c.folders[i], c.gap())) =~= chains_of(c, i + 1));
    }
}

// ---- files ----

/// The path of the file `f`.
pub open spec fn path_of(f: Slip) -> Seq<char> {
    scan::name_path(f.name, f.utf8)
}

/// What the tree shows of the file `f`: its length, its time, and whether it can be
/// written.
pub open spec fn item_of(f: Slip) -> Item {
    Item {
        path: path_of(f),
        kind: EntryKind::Regular,
        mode: if f.read_only {
            0o444
        } else {
            0o644
        },
        uid: 0,
        gid: 0,
        mtime: dos::unix_time(f.date, f.time) as u64,
        link: None,
        major: 0,
        minor: 0,
        data: Some(
            DataLocator {
                offset: 0,
                compressed_len: 0,
                uncompressed_len: f.length as u64,
                method: Method::Stored,
            },
        ),
    }
}

/// What the tree shows of the files of `c`.
pub open spec fn items_of(c: Cabinet) -> Seq<Item> {
    Seq::new(c.files.len(), |i: int| item_of(c.files[i]))
}

/// Where the file `f` lies, in a cabinet of `n` folders.
pub open spec fn slice_of(f: Slip, n: int) -> Option<FileSlice> {
    if f.folder < n && f.folder < 0xfffd {
        Some(
            FileSlice {
                folder: f.folder as usize,
                uncomp_offset: f.offset as u64,
                len: f.length as u64,
            },
        )
    } else {
        None
    }
}

/// Where the first `i` files of `c` lie, by path; a later file replaces an earlier
/// one with the same path.
pub open spec fn slices_of(c: Cabinet, i: int) -> Map<Seq<char>, Option<FileSlice>>
    decreases i,
{
    if i <= 0 {
        Map::empty()
    } else if path_of(c.files[i - 1]) == seq!['/'] {
        slices_of(c, i - 1)
    } else {
        slices_of(c, i - 1).insert(
            path_of(c.files[i - 1]),
            slice_of(c.files[i - 1], c.folders.len() as int),
        )
    }
}

proof fn lemma_file(img: Seq<u8>, f: Slip, at: int, n: int)
    requires
        holds_file(img, f, at),
    ensures
        at + 16 <= img.len(),
        scan::name_at(img, at + 16) == Ok::<Seq<u8>, Error>(f.name),
        scan::item_of(img, at, path_of(f)) == item_of(f),
        scan::slice_at(img, at, n) == slice_of(f, n),
        ((bytes::get16(img, at + 14) as int / 128) % 2 == 1) == f.utf8,
{
    broadcast use {layout::lemma_holds16, layout::lemma_holds32};

    let t = f.name + seq![0u8];
    let u = img.subrange(at + 16, at + 16 + t.len());
    assert forall|k: int| 0 <= k < t.len() implies img[at + 16 + k] == t[k] by {
        assert(u[k] == t[k]);
    }
    assert(img.subrange(at + 16, at + 16 + f.name.len()) =~= f.name);
    let end = if at + 16 + 512 < img.len() {
        at + 16 + 512
    } else {
        img.len() as int
    };
    assert(img[at + 16 + f.name.len()] == t[f.name.len() as int]);
    layout::lemma_holds_name(img, at + 16, f.name, end);
}

proof fn lemma_files(img: Seq<u8>, c: Cabinet, i: int, fs: Seq<Chain>)
    requires
        holds_cabinet(img, c),
        fs.len() == c.folders.len(),
        0 <= i <= c.files.len(),
    ensures
        scan::files_from(
            img,
            c.file_at(i),
            c.files.len() - i,
            Scanned {
                tree: listing::built(items_of(c), i),
                folders: fs,
                files: slices_of(c, i),
            },
        ) == Ok::<Scanned, Error>(
            Scanned {
                tree: listing::built(items_of(c), c.files.len() as int),
                folders: fs,
                files: slices_of(c, c.files.len() as int),
            },
        ),
    decreases c.files.len() - i,
{
    if i < c.files.len() {
        let f = c.files[i];
        assert(holds_file(img, f, c.file_at(i)));
        lemma_file(img, f, c.file_at(i), fs.len() as int);
        lemma_files(img, c, i + 1, fs);
        if path_of(f) == seq!['/'] {
            laws::lemma_root_pushed(listing::built(items_of(c), i), item_of(f));
        }
    }
}

/// A cabinet is read as it was laid out: the tree is that of its files, each with
/// its own length, time and mode; each folder has its own blocks; and each file
/// lies in the folder that it names, at the offset and with the length that it
/// names.
pub proof fn lemma_scanned(img: Seq<u8>, c: Cabinet)
    requires
        holds_cabinet(img, c),
    ensures
        scan::scanned(img) == Ok::<Scanned, Error>(
            Scanned {
                tree: listing::built(items_of(c), c.files.len() as int),
                folders: chains_of(c, c.folders.len() as int),
                files: slices_of(c, c.files.len() as int),
            },
        ),
{
    broadcast use {layout::lemma_holds16, layout::lemma_holds32};

    let m = seq![0x4du8, 0x53, 0x43, 0x46];
    let u = img.subrange(0, 4);
    assert(u[0] == m[0] && u[1] == m[1] && u[2] == m[2] && u[3] == m[3]);
    if let Some(a) = c.aside {
        let w = img.subrange(38, 40);
        assert(w[0] == a.folder && w[1] == a.block);
    }
    lemma_folders(img, c, 0);
    assert(chains_of(c, 0) =~= Seq::<Chain>::empty());
    lemma_files(img, c, 0, chains_of(c, c.folders.len() as int));
}

// ---- contents ----

/// Which file is found at the path of file `i`, where no later one has that path.
proof fn lemma_slices(c: Cabinet, i: int, n: int)
    requires
        0 <= i < n <= c.files.len(),
        path_of(c.files[i]) != seq!['/'],
        forall|k: int| i < k < n ==> path_of(#[trigger] c.files[k]) != path_of(c.files[i]),
    ensures
        slices_of(c, n).dom().contains(path_of(c.files[i])),
        slices_of(c, n)[path_of(c.files[i])] == slice_of(c.files[i], c.folders.len() as int),
    decreases n,
{
    if i < n - 1 {
        lemma_slices(c, i, n - 1);
    }
}

proof fn lemma_stored_len(p: Parcel, j: int, n: int)
    requires
        0 <= j <= n <= p.pieces.len(),
    ensures
        p.stored(j).len() <= p.stored(n).len(),
        p.stored(n).take(p.stored(j).len() as int) == p.stored(j),
    decreases n,
{
    if j < n {
        lemma_stored_len(p, j, n - 1);
        let a = p.stored(j);
        let b = p.stored(n - 1);
        assert(p.stored(n).take(a.len() as int) =~= b.take(a.len() as int));
    } else {
        assert(p.stored(n).take(p.stored(j).len() as int) =~= p.stored(j));
    }
}

/// The blocks of a stored folder, from block `j` on, give a front of its bytes:
/// as many as are needed, or all.
proof fn lemma_prefix(img: Seq<u8>, p: Parcel, at: int, gap: int, j: int, n: int)
    requires
        holds_folder(img, p, at, gap),
        img.len() <= u64::MAX,
        0 <= gap,
        0 <= j <= p.pieces.len(),
    ensures
        ({
            let all = p.stored(p.pieces.len() as int);
            folder::stored(img, places(p, gap, p.pieces.len() as int), j, n, p.stored(j))
                matches Ok(b) && b.len() <= all.len() && all.take(b.len() as int) == b && (b.len()
                >= n || b == all)
        }),
    decreases p.pieces.len() - j,
{
    let m = p.pieces.len() as int;
    let bl = places(p, gap, m);
    lemma_stored_len(p, j, m);
    if j < m && p.stored(j).len() < n {
        broadcast use {layout::lemma_holds16, layout::lemma_holds32};

        let b = p.pieces[j];
        assert(holds_piece(img, b, p.block_at(gap, j), gap));
        assert(folder::payload(img, bl[j]) == Ok::<Seq<u8>, Error>(b.bytes));
        lemma_prefix(img, p, at, gap, j + 1, n);
    }
}

/// Each file of a cabinet reads as the bytes of its own folder that it names:
/// those from its offset on, as many as it is long. It holds of every folder and
/// every file, and of every path that leads to the file.
pub proof fn lemma_file_read(img: Seq<u8>, c: Cabinet, a: CabFs, i: int, q: Seq<char>)
    requires
        holds_cabinet(img, c),
        scan::scanned(img) matches Ok(s) && scan::chains(a.folders@) == s.folders && a.files@
            == s.files,
        0 <= i < c.files.len(),
        c.files[i].folder < c.folders.len(),
        c.files[i].folder < 0xfffd,
        c.folders[c.files[i].folder as int].method == CabMethod::Store,
        path_of(c.files[i]) != seq!['/'],
        names::normal(q) == path_of(c.files[i]),
        forall|k: int| i < k < c.files.len() ==> path_of(#[trigger] c.files[k]) != path_of(
            c.files[i],
        ),
        ({
            let p = c.folders[c.files[i].folder as int];
            c.files[i].offset + c.files[i].length <= p.stored(p.pieces.len() as int).len()
        }),
    ensures
        ({
            let f = c.files[i];
            let p = c.folders[f.folder as int];
            a.contents(img, q) == Ok::<Seq<u8>, Error>(
                p.stored(p.pieces.len() as int).subrange(f.offset as int, f.offset + f.length),
            )
        }),
{
    let f = c.files[i];
    let k = f.folder as int;
    let p = c.folders[k];
    let all = p.stored(p.pieces.len() as int);
    lemma_scanned(img, c);
    lemma_slices(c, i, c.files.len() as int);
    assert(holds_folder(img, p, c.folder_at(k), c.gap()));
    let n = mem::needed(f.offset as u64, f.length as u64);
    assert(n == f.offset + f.length);
    lemma_prefix(img, p, c.folder_at(k), c.gap(), 0, n as int);
    let chains = scan::chains(a.folders@);
    assert(chains.len() == c.folders.len());
    assert(a.folders@[k]@ == chains[k]);
    assert(chains[k] == chain_of(p, c.gap()));
    let b = folder::stored(img, chains[k].blocks, 0, n as int, Seq::empty())->Ok_0;
    assert(b.len() >= n);
    assert(b =~= all.take(b.len() as int));
    let s = FileSlice {
        folder: f.folder as usize,
        uncomp_offset: f.offset as u64,
        len: f.length as u64,
    };
    assert(a.files@[names::normal(q)] == Some(s));
    let r = mem::sliced(b, f.offset as int, f.length as int)->Ok_0;
    assert(r =~= all.subrange(f.offset as int, f.offset + f.length));
}

// ---- names ----

/// A file is found at the path of the components of its name, which are parted by
/// backslashes or slashes: in UTF-8 where the header says so, and with one byte for
/// each character otherwise.
pub proof fn lemma_name(f: Slip, ps: Seq<Seq<char>>, sep: char)
    requires
        layout::are_names(ps),
        sep == '\\' || sep == '/',
        f.utf8 ==> f.name == text::utf8(layout::spaced(ps, sep)),
        !f.utf8 ==> {
            &&& f.name.len() == layout::spaced(ps, sep).len()
            &&& forall|i: int| 0 <= i < f.name.len() ==> (#[trigger] f.name[i]) as int
                == layout::spaced(ps, sep)[i] as int
        },
    ensures
        path_of(f) == names::joined(ps),
{
    let s = layout::spaced(ps, sep);
    layout::lemma_stored_name(ps);
    layout::lemma_no_backslash(ps);
    if f.utf8 {
        text::lemma_text_of_utf8(s);
    } else {
        let t = names::latin1(f.name);
        assert forall|i: int| 0 <= i < t.len() implies t[i] == s[i] by {
            assert(f.name[i] as int == s[i] as int);
        }
        assert(t =~= s);
    }
}

// ---- packed folders ----

/// The first `j` of `outs`, one behind another.
pub open spec fn joined(outs: Seq<Seq<u8>>, j: int) -> Seq<u8>
    decreases j,
{
    if j <= 0 {
        Seq::empty()
    } else {
        joined(outs, j - 1) + outs[j - 1]
    }
}

/// The last 32768 bytes of `s`, or all of them.
pub open spec fn tail(s: Seq<u8>) -> Seq<u8> {
    if s.len() <= 32768 {
        s
    } else {
        s.skip(s.len() - 32768)
    }
}

/// Whether the blocks of the folder `p` unpack to `outs`: each is the letters `CK` and
/// a DEFLATE stream, which may look back to the last 32768 bytes before it.
pub open spec fn zips(p: Parcel, outs: Seq<Seq<u8>>) -> bool {
    &&& outs.len() == p.pieces.len()
    &&& forall|j: int| 0 <= j < outs.len() ==> zips_to(#[trigger] p.pieces[j], joined(outs, j), outs[j])
}

/// Whether the block `b` unpacks to `out` behind the bytes `before`.
pub open spec fn zips_to(b: Piece, before: Seq<u8>, out: Seq<u8>) -> bool {
    exists|z: Seq<u8>|
        #![trigger codec::inflated(tail(before), z)]
        b.bytes == seq![0x43u8, 0x4bu8] + z && codec::inflated(tail(before), z) == Some(out)
}

proof fn lemma_joined_len(outs: Seq<Seq<u8>>, j: int, n: int)
    requires
        0 <= j <= n <= outs.len(),
    ensures
        joined(outs, j).len() <= joined(outs, n).len(),
        joined(outs, n).take(joined(outs, j).len() as int) == joined(outs, j),
    decreases n,
{
    if j < n {
        lemma_joined_len(outs, j, n - 1);
        let a = joined(outs, j);
        let b = joined(outs, n - 1);
        assert(joined(outs, n).take(a.len() as int) =~= b.take(a.len() as int));
    } else {
        assert(joined(outs, n).take(joined(outs, j).len() as int) =~= joined(outs, j));
    }
}

/// A block unpacks behind what was unpacked before it.
proof fn lemma_unzipped(b: Piece, before: Seq<u8>, out: Seq<u8>)
    requires
        zips_to(b, before, out),
    ensures
        folder::unzipped(before, b.bytes) == Ok::<Seq<u8>, Error>(out),
{
    let z = choose|z: Seq<u8>|
        #![trigger codec::inflated(tail(before), z)]
        b.bytes == seq![0x43u8, 0x4bu8] + z && codec::inflated(tail(before), z) == Some(out);
    assert(b.bytes.subrange(2, b.bytes.len() as int) =~= z);
    assert(folder::history(before) =~= tail(before));
}

proof fn lemma_zip_prefix(
    img: Seq<u8>,
    p: Parcel,
    at: int,
    gap: int,
    outs: Seq<Seq<u8>>,
    j: int,
    n: int,
)
    requires
        holds_folder(img, p, at, gap),
        img.len() <= u64::MAX,
        0 <= gap,
        0 <= j <= p.pieces.len(),
        zips(p, outs),
    ensures
        ({
            let all = joined(outs, outs.len() as int);
            folder::mszip(img, places(p, gap, p.pieces.len() as int), j, n, joined(outs, j))
                matches Ok(b) && b.len() <= all.len() && all.take(b.len() as int) == b && (b.len()
                >= n || b == all)
        }),
    decreases p.pieces.len() - j,
{
    let m = p.pieces.len() as int;
    let bl = places(p, gap, m);
    lemma_joined_len(outs, j, m);
    if j < m && joined(outs, j).len() < n {
        broadcast use {layout::lemma_holds16, layout::lemma_holds32};

        let b = p.pieces[j];
        assert(holds_piece(img, b, p.block_at(gap, j), gap));
        assert(folder::payload(img, bl[j]) == Ok::<Seq<u8>, Error>(b.bytes));
        lemma_unzipped(b, joined(outs, j), outs[j]);
        lemma_zip_prefix(img, p, at, gap, outs, j + 1, n);
    }
}

/// Each file of a cabinet in an MSZIP folder reads as the bytes that it names of what
/// the blocks of its folder unpack to, one behind another.
pub proof fn lemma_zipped_read(
    img: Seq<u8>,
    c: Cabinet,
    a: CabFs,
    i: int,
    q: Seq<char>,
    outs: Seq<Seq<u8>>,
)
    requires
        holds_cabinet(img, c),
        scan::scanned(img) matches Ok(s) && scan::chains(a.folders@) == s.folders && a.files@
            == s.files,
        0 <= i < c.files.len(),
        c.files[i].folder < c.folders.len(),
        c.files[i].folder < 0xfffd,
        c.folders[c.files[i].folder as int].method == CabMethod::MsZip,
        zips(c.folders[c.files[i].folder as int], outs),
        path_of(c.files[i]) != seq!['/'],
        names::normal(q) == path_of(c.files[i]),
        forall|k: int| i < k < c.files.len() ==> path_of(#[trigger] c.files[k]) != path_of(
            c.files[i],
        ),
        c.files[i].offset + c.files[i].length <= joined(outs, outs.len() as int).len(),
    ensures
        ({
            let f = c.files[i];
            a.contents(img, q) == Ok::<Seq<u8>, Error>(
                joined(outs, outs.len() as int).subrange(f.offset as int, f.offset + f.length),
            )
        }),
{
    let f = c.files[i];
    let k = f.folder as int;
    let p = c.folders[k];
    let all = joined(outs, outs.len() as int);
    lemma_scanned(img, c);
    lemma_slices(c, i, c.files.len() as int);
    assert(holds_folder(img, p, c.folder_at(k), c.gap()));
    let n = mem::needed(f.offset as u64, f.length as u64);
    assert(n == f.offset + f.length);
    lemma_zip_prefix(img, p, c.folder_at(k), c.gap(), outs, 0, n as int);
    let chains = scan::chains(a.folders@);
    assert(chains.len() == c.folders.len());
    assert(a.folders@[k]@ == chains[k]);
    assert(chains[k] == chain_of(p, c.gap()));
    let b = folder::mszip(img, chains[k].blocks, 0, n as int, Seq::empty())->Ok_0;
    assert(b.len() >= n);
    assert(b =~= all.take(b.len() as int));
    let s = FileSlice {
        folder: f.folder as usize,
        uncomp_offset: f.offset as u64,
        len: f.length as u64,
    };
    assert(a.files@[names::normal(q)] == Some(s));
    let r = mem::sliced(b, f.offset as int, f.length as int)->Ok_0;
    assert(r =~= all.subrange(f.offset as int, f.offset + f.length));
}

/// The blocks of a folder are gathered in order, behind what stands before them.
proof fn lemma_gathered(img: Seq<u8>, p: Parcel, at: int, gap: int, head: Seq<u8>, j: int)
    requires
        holds_folder(img, p, at, gap),
        img.len() <= u64::MAX,
        0 <= gap,
        0 <= j <= p.pieces.len(),
    ensures
        folder::gathered(img, places(p, gap, p.pieces.len() as int), j, head + p.stored(j)) == (
            head + p.stored(p.pieces.len() as int),
            None::<Error>,
        ),
    decreases p.pieces.len() - j,
{
    let m = p.pieces.len() as int;
    let bl = places(p, gap, m);
    if j < m {
        broadcast use {layout::lemma_holds16, layout::lemma_holds32};

        let b = p.pieces[j];
        assert(holds_piece(img, b, p.block_at(gap, j), gap));
        assert(folder::payload(img, bl[j]) == Ok::<Seq<u8>, Error>(b.bytes));
        assert(head + p.stored(j) + b.bytes =~= head + p.stored(j + 1));
        lemma_gathered(img, p, at, gap, head, j + 1);
    }
}

/// A folder that is packed with LZX or Quantum holds what the decoder gives of all its
/// blocks, one behind another. The LZX decoder gets the window and the unpacked length
/// of the folder in front, the Quantum decoder the window apart.
pub proof fn lemma_stream(img: Seq<u8>, p: Parcel, at: int, gap: int, n: u64, out: Seq<u8>)
    requires
        holds_folder(img, p, at, gap),
        img.len() <= u64::MAX,
        0 <= gap,
        p.amount(p.pieces.len() as int) <= u32::MAX,
    ensures
        ({
            let all = p.stored(p.pieces.len() as int);
            let size = p.amount(p.pieces.len() as int) as u32;
            let r = folder::folder_prefix(img, chain_of(p, gap), n);
            &&& p.method matches CabMethod::Lzx { window_bits } ==> (codec::lzx_decoded(
                seq![window_bits as u8] + bytes::le32(size) + all,
                n,
            ) == Some(out) ==> r == Ok::<Seq<u8>, Error>(out))
            &&& p.method matches CabMethod::Quantum { window_bits } ==> r == match
                codec::quantum_decoded(window_bits, all, n) {
                Some(b) => Ok::<Seq<u8>, Error>(b),
                None => Err(Error::InvalidImage),
            }
        }),
{
    let m = p.pieces.len() as int;
    let all = p.stored(m);
    let none = Seq::<u8>::empty();
    assert(none + p.stored(0) =~= none);
    assert(none + all =~= all);
    lemma_gathered(img, p, at, gap, none, 0);
    lemma_amount(p, m);
    if let CabMethod::Lzx { window_bits } = p.method {
        let head = seq![window_bits as u8] + bytes::le32(p.amount(m) as u32);
        assert(head + p.stored(0) =~= head);
        lemma_gathered(img, p, at, gap, head, 0);
    }
}

} // verus!
