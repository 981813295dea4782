//! The layout of a cabinet: a header, folders with their blocks, and files.

use vstd::prelude::*;
use vstd::slice::slice_subrange;

use crate::archive::dos::{self, dos_to_unix};
use crate::archive::index::{self, ArchiveEntry, ArchiveIndex, DataLocator, Item, Method, Tree};
use crate::archive::names::{self, from_latin1, is_root, path_of_stored, to_slashes};
use crate::archive::table::PathTable;
use crate::block::MemoryBackend;
use crate::bytes::{self, copy_range, find_nul, get_u16, get_u32};
use crate::error::{Error, Result};
use crate::text::{self, from_utf8_lossy};

verus! {

/// How the blocks of a folder are packed.
#[derive(Clone, Copy, Debug, PartialEq, Eq, Structural)]
pub enum CabMethod {
    /// As they are.
    Store,
    MsZip,
    Quantum { window_bits: u32 },
    Lzx { window_bits: u32 },
    /// A method that has a number but no decoder.
    Unsupported(u16),
}

/// Where the bytes of a block are.
#[derive(Clone, Copy, Debug, PartialEq, Eq, Structural)]
pub struct CfData {
    pub offset: u64,
    pub comp_len: u32,
}

/// A folder: its blocks, one stream packed by one method.
#[derive(Debug)]
pub struct Folder {
    pub method: CabMethod,
    pub blocks: Vec<CfData>,
    /// Number of bytes that the blocks hold.
    pub total_uncomp: u64,
}

/// A folder as a mathematical value.
#[verifier::ext_equal]
pub struct Chain {
    pub method: CabMethod,
    pub blocks: Seq<CfData>,
    pub total: u64,
}

impl View for Folder {
    type V = Chain;

    open spec fn view(&self) -> Chain {
        Chain { method: self.method, blocks: self.blocks@, total: self.total_uncomp }
    }
}

/// The views of folders.
pub open spec fn chains(s: Seq<Folder>) -> Seq<Chain> {
    s.map_values(|f: Folder| f@)
}

/// Where a file is in what its folder holds.
#[derive(Clone, Copy, Debug, PartialEq, Eq, Structural)]
pub struct FileSlice {
    pub folder: usize,
    pub uncomp_offset: u64,
    pub len: u64,
}

impl View for FileSlice {
    type V = FileSlice;

    open spec fn view(&self) -> FileSlice {
        *self
    }
}

/// A scanned cabinet, as a mathematical value.
#[verifier::ext_equal]
pub struct Scanned {
    pub tree: Tree,
    pub folders: Seq<Chain>,
    pub files: Map<Seq<char>, Option<FileSlice>>,
}

/// A scanned cabinet. A file that does not lie in one of the folders has no
/// slice.
pub struct Parsed {
    pub index: ArchiveIndex,
    pub folders: Vec<Folder>,
    pub files: PathTable<Option<FileSlice>>,
}

impl View for Parsed {
    type V = Scanned;

    open spec fn view(&self) -> Scanned {
        Scanned { tree: self.index@, folders: chains(self.folders@), files: self.files@ }
    }
}

// ---- folders ----

/// The method that a folder's header tells.
pub open spec fn method_of(t: u16) -> CabMethod {
    let window_bits = ((t as int / 256) % 32) as u32;
    let m = t as int % 16;
    if m == 0 {
        CabMethod::Store
    } else if m == 1 {
        CabMethod::MsZip
    } else if m == 2 {
        CabMethod::Quantum { window_bits }
    } else if m == 3 {
        CabMethod::Lzx { window_bits }
    } else {
        CabMethod::Unsupported(m as u16)
    }
}

/// `acc` with the `n` blocks from `pos` on, and the number of bytes they hold on
/// top of `total`. Each block has a header of 8 bytes and `reserve` more.
pub open spec fn chain(
    img: Seq<u8>,
    pos: int,
    n: int,
    reserve: int,
    acc: Seq<CfData>,
    total: int,
) -> Result<(Seq<CfData>, int)>
    decreases n,
{
    if n <= 0 {
        Ok((acc, total))
    } else {
        let comp = bytes::get16(img, pos + 4) as int;
        let at = pos + 8 + reserve;
        if pos + 8 > img.len() || at + comp > u64::MAX {
            Err(Error::OutOfBounds)
        } else {
            chain(
                img,
                at + comp,
                n - 1,
                reserve,
                acc.push(CfData { offset: at as u64, comp_len: comp as u32 }),
                total + bytes::get16(img, pos + 6),
            )
        }
    }
}

/// The folder whose header is at `pos`.
pub open spec fn folder_at(img: Seq<u8>, pos: int, reserve: int) -> Result<Chain> {
    match chain(
        img,
        bytes::get32(img, pos) as int,
        bytes::get16(img, pos + 4) as int,
        reserve,
        Seq::empty(),
        0,
    ) {
        Err(e) => Err(e),
        Ok((blocks, total)) => Ok(
            Chain { method: method_of(bytes::get16(img, pos + 6)), blocks, total: total as u64 },
        ),
    }
}

/// `acc` with the `n` folders from `pos` on.
pub open spec fn folders_from(
    img: Seq<u8>,
    pos: int,
    n: int,
    folder_reserve: int,
    data_reserve: int,
    acc: Seq<Chain>,
) -> Result<Seq<Chain>>
    decreases n,
{
    if n <= 0 {
        Ok(acc)
    } else if pos + 8 > img.len() || pos + 8 + folder_reserve > u64::MAX {
        Err(Error::OutOfBounds)
    } else {
        match folder_at(img, pos, data_reserve) {
            Err(e) => Err(e),
            Ok(f) => folders_from(
                img,
                pos + 8 + folder_reserve,
                n - 1,
                folder_reserve,
                data_reserve,
                acc.push(f),
            ),
        }
    }
}

// ---- files ----

/// The bytes in which a name that starts at `off` must end.
pub open spec fn name_window(img: Seq<u8>, off: int) -> Seq<u8> {
    img.subrange(
        off,
        if off + 512 < img.len() {
            off + 512
        } else {
            img.len() as int
        },
    )
}

/// The name at `off`, which a zero byte ends.
pub open spec fn name_at(img: Seq<u8>, off: int) -> Result<Seq<u8>> {
    if off >= img.len() {
        Err(Error::OutOfBounds)
    } else {
        let w = name_window(img, off);
        if bytes::nul_pos(w) < w.len() {
            Ok(bytes::until_nul(w))
        } else {
            Err(Error::InvalidImage)
        }
    }
}

/// The path of a stored name, which is UTF-8 or one byte for each character.
pub open spec fn name_path(b: Seq<u8>, utf8: bool) -> Seq<char> {
    names::stored_path(
        names::slashed(
            if utf8 {
                text::text_of(b)
            } else {
                names::latin1(b)
            },
        ),
    )
}

/// What the header of a file at `pos`, with the path `path`, puts into the
/// tree.
pub open spec fn item_of(img: Seq<u8>, pos: int, path: Seq<char>) -> Item {
    Item {
        mode: if bytes::get16(img, pos + 14) as int % 2 == 1 {
            0x124
        } else {
            0x1a4
        },
        mtime: dos::unix_time(bytes::get16(img, pos + 10), bytes::get16(img, pos + 12)) as u64,
        ..index::plain_file(
            path,
            DataLocator {
                offset: 0,
                compressed_len: 0,
                uncompressed_len: bytes::get32(img, pos) as u64,
                method: Method::Stored,
            },
        )
    }
}

/// Where the file whose header is at `pos` lies: in one of the `n` folders, or
/// in none of this cabinet.
pub open spec fn slice_at(img: Seq<u8>, pos: int, n: int) -> Option<FileSlice> {
    let i = bytes::get16(img, pos + 8);
    if i >= 0xfffd || i >= n {
        None
    } else {
        Some(
            FileSlice {
                folder: i as usize,
                uncomp_offset: bytes::get32(img, pos + 4) as u64,
                len: bytes::get32(img, pos) as u64,
            },
        )
    }
}

/// `s` with the `n` files from `pos` on; one without a name is left out.
pub open spec fn files_from(img: Seq<u8>, pos: int, n: int, s: Scanned) -> Result<Scanned>
    decreases n,
{
    if n <= 0 {
        Ok(s)
    } else if pos + 16 > img.len() {
        Err(Error::OutOfBounds)
    } else {
        match name_at(img, pos + 16) {
            Err(e) => Err(e),
            Ok(b) => {
                let path = name_path(b, (bytes::get16(img, pos + 14) as int / 128) % 2 == 1);
                files_from(
                    img,
                    pos + 17 + b.len(),
                    n - 1,
                    if path == seq!['/'] {
                        s
                    } else {
                        Scanned {
                            tree: s.tree.pushed(item_of(img, pos, path)),
                            files: s.files.insert(
                                path,
                                slice_at(img, pos, s.folders.len() as int),
                            ),
                            ..s
                        }
                    },
                )
            },
        }
    }
}

/// Where the folders start, and how many bytes are reserved in the header of
/// each folder and each block.
pub open spec fn reserves(img: Seq<u8>) -> Result<(int, int, int)> {
    if (bytes::get16(img, 30) as int / 4) % 2 == 0 {
        Ok((36, 0, 0))
    } else if img.len() < 40 {
        Err(Error::OutOfBounds)
    } else {
        Ok((40 + bytes::get16(img, 36), img[38] as int, img[39] as int))
    }
}

/// Whether a cabinet starts the device `img`.
pub open spec fn signed(img: Seq<u8>) -> bool {
    img.len() >= 4 && img[0] == 0x4d && img[1] == 0x53 && img[2] == 0x43 && img[3] == 0x46
}

/// The cabinet on the device `img`. One that is part of a set is refused.
pub open spec fn scanned(img: Seq<u8>) -> Result<Scanned> {
    if img.len() < 36 {
        Err(Error::OutOfBounds)
    } else if !signed(img) {
        Err(Error::InvalidImage)
    } else if bytes::get16(img, 30) as int % 4 != 0 {
        Err(Error::Unsupported)
    } else {
        match reserves(img) {
            Err(e) => Err(e),
            Ok((start, fr, dr)) => match folders_from(
                img,
                start,
                bytes::get16(img, 26) as int,
                fr,
                dr,
                Seq::empty(),
            ) {
                Err(e) => Err(e),
                Ok(folders) => files_from(
                    img,
                    bytes::get32(img, 16) as int,
                    bytes::get16(img, 28) as int,
                    Scanned { tree: Tree::empty(), folders, files: Map::empty() },
                ),
            },
        }
    }
}

/// Every file with a slice lies in one of `n` folders.
pub open spec fn in_folders(files: Map<Seq<char>, Option<FileSlice>>, n: int) -> bool {
    forall|p: Seq<char>| #[trigger]
        files.dom().contains(p) ==> (files[p] matches Some(s) ==> s.folder < n)
}

fn decode_method(t: u16) -> (m: CabMethod)
    ensures
        m == method_of(t),
{
    let window_bits: u32 = (t as u32 / 256) % 32;
    let m: u16 = t % 16;
    if m == 0 {
        CabMethod::Store
    } else if m == 1 {
        CabMethod::MsZip
    } else if m == 2 {
        CabMethod::Quantum { window_bits }
    } else if m == 3 {
        CabMethod::Lzx { window_bits }
    } else {
        CabMethod::Unsupported(m)
    }
}

fn walk_cfdata_chain(b: &[u8], start: u64, count: u16, reserve: u64) -> (r: Result<
    (Vec<CfData>, u64),
>)
    requires
        reserve <= 255,
    ensures
        match r {
            Ok((v, t)) => chain(
                b@,
                start as int,
                count as int,
                reserve as int,
                Seq::empty(),
                0,
            ) == Ok::<(Seq<CfData>, int), Error>((v@, t as int)),
            Err(e) => chain(
                b@,
                start as int,
                count as int,
                reserve as int,
                Seq::empty(),
                0,
            ) == Err::<(Seq<CfData>, int), Error>(e),
        },
{
    let mut blocks: Vec<CfData> = Vec::new();
    let mut total: u64 = 0;
    let mut pos: u64 = start;
    let mut left: u16 = count;
    let len: usize = b.len();
    while left > 0
        invariant
            len == b@.len(),
            left <= count,
            reserve <= 255,
            total <= 0xffff * (count - left),
            chain(b@, start as int, count as int, reserve as int, Seq::empty(), 0) == chain(
                b@,
                pos as int,
                left as int,
                reserve as int,
                blocks@,
                total as int,
            ),
        decreases left,
    {
        if (len as u64) < 8 || pos > len as u64 - 8 {
            return Err(Error::OutOfBounds);
        }
        let at: usize = pos as usize;
        let comp: u16 = get_u16(b, at + 4);
        let uncomp: u16 = get_u16(b, at + 6);
        let head: u64 = pos + 8;
        if reserve + comp as u64 > u64::MAX - head {
            return Err(Error::OutOfBounds);
        }
        blocks.push(CfData { offset: head + reserve, comp_len: comp as u32 });
        total = total + uncomp as u64;
        pos = head + reserve + comp as u64;
        left = left - 1;
    }
    Ok((blocks, total))
}

fn read_folders(b: &[u8], start: u64, count: u16, folder_reserve: u64, data_reserve: u64) -> (r:
    Result<Vec<Folder>>)
    requires
        folder_reserve <= 255,
        data_reserve <= 255,
    ensures
        match r {
            Ok(v) => folders_from(
                b@,
                start as int,
                count as int,
                folder_reserve as int,
                data_reserve as int,
                Seq::empty(),
            ) == Ok::<Seq<Chain>, Error>(chains(v@)),
            Err(e) => folders_from(
                b@,
                start as int,
                count as int,
                folder_reserve as int,
                data_reserve as int,
                Seq::empty(),
            ) == Err::<Seq<Chain>, Error>(e),
        },
{
    let mut folders: Vec<Folder> = Vec::new();
    let mut pos: u64 = start;
    let mut left: u16 = count;
    let len: usize = b.len();
    proof {
        assert(chains(folders@) =~= Seq::empty());
    }
    while left > 0
        invariant
            len == b@.len(),
            left <= count,
            folder_reserve <= 255,
            data_reserve <= 255,
            folders_from(
                b@,
                start as int,
                count as int,
                folder_reserve as int,
                data_reserve as int,
                Seq::empty(),
            ) == folders_from(
                b@,
                pos as int,
                left as int,
                folder_reserve as int,
                data_reserve as int,
                chains(folders@),
            ),
        decreases left,
    {
        if (len as u64) < 8 || pos > len as u64 - 8 || folder_reserve > u64::MAX - pos - 8 {
            return Err(Error::OutOfBounds);
        }
        let at: usize = pos as usize;
        let (blocks, total_uncomp) = walk_cfdata_chain(
            b,
            get_u32(b, at) as u64,
            get_u16(b, at + 4),
            data_reserve,
        )?;
        let f = Folder { method: decode_method(get_u16(b, at + 6)), blocks, total_uncomp };
        proof {
            assert(folder_at(b@, pos as int, data_reserve as int) == Ok::<Chain, Error>(f@));
            assert(chains(folders@.push(f)) =~= chains(folders@).push(f@));
        }
        folders.push(f);
        pos = pos + 8 + folder_reserve;
        left = left - 1;
    }
    Ok(folders)
}

fn read_name(b: &[u8], off: u64) -> (r: Result<Vec<u8>>)
    ensures
        match r {
            Ok(v) => name_at(b@, off as int) == Ok::<Seq<u8>, Error>(v@) && off + v@.len()
                < b@.len(),
            Err(e) => name_at(b@, off as int) == Err::<Seq<u8>, Error>(e),
        },
{
    let len: usize = b.len();
    if off >= len as u64 {
        return Err(Error::OutOfBounds);
    }
    let from: usize = off as usize;
    let end: usize = if len - from > 512 {
        from + 512
    } else {
        len
    };
    let w = slice_subrange(b, from, end);
    let k: usize = find_nul(w);
    if k < w.len() {
        Ok(copy_range(w, 0, k))
    } else {
        Err(Error::InvalidImage)
    }
}

fn decode_path(b: &[u8], utf8: bool) -> (r: String)
    ensures
        r@ == name_path(b@, utf8),
{
    let name = if utf8 {
        from_utf8_lossy(b)
    } else {
        from_latin1(b)
    };
    let s = to_slashes(name.as_str());
    path_of_stored(s.as_str())
}

fn read_files(b: &[u8], start: u64, count: u16, folders: usize, Ghost(fv): Ghost<Seq<Chain>>) -> (r:
    Result<(ArchiveIndex, PathTable<Option<FileSlice>>)>)
    requires
        folders == fv.len(),
    ensures
        ({
            let s = Scanned { tree: Tree::empty(), folders: fv, files: Map::empty() };
            match r {
                Ok((i, t)) => files_from(b@, start as int, count as int, s) == Ok::<Scanned, Error>(
                    Scanned { tree: i@, folders: fv, files: t@ },
                ) && t.wf() && in_folders(t@, folders as int),
                Err(e) => files_from(b@, start as int, count as int, s) == Err::<Scanned, Error>(e),
            }
        }),
{
    let mut index = ArchiveIndex::new("cab");
    let mut files: PathTable<Option<FileSlice>> = PathTable::new();
    let mut pos: u64 = start;
    let mut left: u16 = count;
    let len: usize = b.len();
    let ghost s = Scanned { tree: Tree::empty(), folders: fv, files: Map::empty() };
    while left > 0
        invariant
            len == b@.len(),
            left <= count,
            folders == fv.len(),
            s == (Scanned { tree: Tree::empty(), folders: fv, files: Map::empty() }),
            files.wf(),
            in_folders(files@, folders as int),
            files_from(b@, start as int, count as int, s) == files_from(
                b@,
                pos as int,
                left as int,
                Scanned { tree: index@, folders: fv, files: files@ },
            ),
        decreases left,
    {
        if (len as u64) < 16 || pos > len as u64 - 16 {
            return Err(Error::OutOfBounds);
        }
        let at: usize = pos as usize;
        let size: u64 = get_u32(b, at) as u64;
        let uncomp_offset: u64 = get_u32(b, at + 4) as u64;
        let i: u16 = get_u16(b, at + 8);
        let attribs: u16 = get_u16(b, at + 14);
        let name = read_name(b, pos + 16)?;
        let path = decode_path(name.as_slice(), (attribs / 128) % 2 == 1);
        if !is_root(path.as_str()) {
            let slice = if i >= 0xfffd || i as usize >= folders {
                None
            } else {
                Some(FileSlice { folder: i as usize, uncomp_offset, len: size })
            };
            files.insert(path.as_str(), slice);
            let mut e = ArchiveEntry::regular(
                path,
                DataLocator {
                    offset: 0,
                    compressed_len: 0,
                    uncompressed_len: size,
                    method: Method::Stored,
                },
            );
            e.mode = if attribs % 2 == 1 {
                0x124
            } else {
                0x1a4
            };
            e.mtime = dos_to_unix(get_u16(b, at + 10), get_u16(b, at + 12));
            proof {
                assert(e@ =~= item_of(b@, pos as int, path@));
            }
            index.push(e);
        }
        pos = pos + 17 + name.len() as u64;
        left = left - 1;
    }
    Ok((index, files))
}

/// Scan the cabinet on `dev`.
pub fn scan(dev: &MemoryBackend) -> (r: Result<Parsed>)
    ensures
        match r {
            Ok(p) => scanned(dev@) == Ok::<Scanned, Error>(p@) && p.files.wf() && in_folders(
                p.files@,
                p.folders@.len() as int,
            ),
            Err(e) => scanned(dev@) == Err::<Scanned, Error>(e),
        },
{
    let b = dev.as_slice();
    if b.len() < 36 {
        return Err(Error::OutOfBounds);
    }
    if b[0] != 0x4d || b[1] != 0x53 || b[2] != 0x43 || b[3] != 0x46 {
        return Err(Error::InvalidImage);
    }
    let flags: u16 = get_u16(b, 30);
    if flags % 4 != 0 {
        return Err(Error::Unsupported);
    }
    let mut start: u64 = 36;
    let mut folder_reserve: u64 = 0;
    let mut data_reserve: u64 = 0;
    if (flags / 4) % 2 != 0 {
        if b.len() < 40 {
            return Err(Error::OutOfBounds);
        }
        start = 40 + get_u16(b, 36) as u64;
        folder_reserve = b[38] as u64;
        data_reserve = b[39] as u64;
    }
    let folders = read_folders(b, start, get_u16(b, 26), folder_reserve, data_reserve)?;
    let (index, files) = read_files(
        b,
        get_u32(b, 16) as u64,
        get_u16(b, 28),
        folders.len(),
        Ghost(chains(folders@)),
    )?;
    Ok(Parsed { index, folders, files })
}

} // verus!
