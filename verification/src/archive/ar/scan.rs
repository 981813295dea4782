//! Reading `ar` archives.

use vstd::prelude::*;
use vstd::slice::slice_subrange;
use vstd::utf8::*;

use crate::archive::digits::{self, parse_field, parse_number, trim, trim_end};
use crate::archive::fs::read_range;
use crate::archive::index::{ArchiveEntry, ArchiveIndex, DataLocator, EntryKind, Item, Method, Tree};
use crate::block::MemoryBackend;
use crate::bytes::{copy_range, same_bytes};
use crate::error::{Error, Result};
use crate::path::chars_range;
use crate::text::{self, from_chars, from_utf8_lossy, same_text, text_from_utf8, to_chars};

verus! {

/// The eight bytes that an archive starts with.
pub open spec fn magic() -> Seq<u8> {
    seq![0x21u8, 0x3c, 0x61, 0x72, 0x63, 0x68, 0x3e, 0x0a]
}

/// The header of a member.
pub struct Head {
    /// The name field, without white space at its end.
    pub raw: Seq<char>,
    pub size: u64,
    pub mtime: u64,
    pub uid: u32,
    pub gid: u32,
    pub mode: u16,
}

/// The number in a field of text, and `default` where there is none.
pub open spec fn number_or(b: Seq<u8>, default: u64) -> u64 {
    match digits::field(b, 10) {
        Some(n) => n,
        None => default,
    }
}

/// The same for numbers of 32 bits.
pub open spec fn number32_or(b: Seq<u8>, default: u32) -> u32 {
    match digits::field(b, 10) {
        Some(n) => if n <= u32::MAX {
            n as u32
        } else {
            default
        },
        None => default,
    }
}

/// The permission bits in a field of text.
pub open spec fn perm_of(b: Seq<u8>) -> u16 {
    match digits::field(b, 8) {
        Some(n) => if n <= u32::MAX {
            (n % 0x1000) as u16
        } else {
            0x1a4
        },
        None => 0x1a4,
    }
}

/// The header in the 60 bytes `h`.
#[verifier::opaque]
pub open spec fn head(h: Seq<u8>) -> Option<Head> {
    let size = number_or(h.subrange(48, 58), u64::MAX);
    if !valid_utf8(h.subrange(0, 16)) || size == u64::MAX {
        None
    } else {
        Some(
            Head {
                raw: digits::end_trimmed(decode_utf8(h.subrange(0, 16))),
                size,
                mtime: number_or(h.subrange(16, 28), 0),
                uid: number32_or(h.subrange(28, 34), 0),
                gid: number32_or(h.subrange(34, 40), 0),
                mode: perm_of(h.subrange(40, 48)),
            },
        )
    }
}

/// Where the member behind the one with `size` bytes at `pos` is: bodies are
/// filled up to an even length.
pub open spec fn next_of(pos: int, size: u64) -> int {
    pos + 60 + size + size % 2
}

/// The header of the member at `pos`, which must fit on the device.
#[verifier::opaque]
pub open spec fn member(img: Seq<u8>, pos: int) -> Result<Head> {
    match head(img.subrange(pos, pos + 60)) {
        None => Err(Error::InvalidImage),
        Some(h) => if next_of(pos, h.size) > img.len() {
            Err(Error::InvalidImage)
        } else {
            Ok(h)
        },
    }
}

/// What a member is.
pub enum Role {
    /// The table of long names.
    Names,
    /// Something that is no file.
    Other,
    /// A file: its name, and where its bytes are.
    File { name: Seq<char>, off: int, len: int },
}

/// Whether `p` is at the front of `s`.
pub open spec fn starts_with(s: Seq<char>, p: Seq<char>) -> bool {
    p.len() <= s.len() && s.subrange(0, p.len() as int) == p
}

/// `s` without zero characters at its end.
pub open spec fn without_nuls(s: Seq<char>) -> Seq<char>
    decreases s.len(),
{
    if s.len() > 0 && s.last() == '\0' {
        without_nuls(s.drop_last())
    } else {
        s
    }
}

/// Index of the first byte of `t` from `i` on that ends a name.
pub open spec fn name_end(t: Seq<u8>, i: int) -> int
    decreases t.len() - i,
{
    if i >= t.len() || t[i] == 0x0a || t[i] == 0x2f {
        i
    } else {
        name_end(t, i + 1)
    }
}

/// Whether a name is that of a symbol table.
pub open spec fn is_symbols(n: Seq<char>) -> bool {
    n.len() == 0 || starts_with(n, "__.SYMDEF"@)
}

/// A file, unless its name is that of a symbol table.
pub open spec fn as_file(name: Seq<char>, off: int, len: int) -> Role {
    if is_symbols(name) {
        Role::Other
    } else {
        Role::File { name, off, len }
    }
}

/// A file of a BSD archive: `rest` is the length of its name, which stands in
/// front of its bytes.
pub open spec fn bsd_role(img: Seq<u8>, at: int, size: u64, rest: Seq<char>) -> Result<Role> {
    match digits::number(digits::trimmed(rest), 10) {
        None => Err(Error::InvalidImage),
        Some(n) => if n > size {
            Err(Error::InvalidImage)
        } else {
            Ok(
                as_file(
                    without_nuls(text::text_of(img.subrange(at, at + n))),
                    at + n,
                    size - n,
                ),
            )
        },
    }
}

/// A file whose name is in the table of long names, at the offset that `rest`
/// writes.
pub open spec fn gnu_role(table: Option<Seq<u8>>, at: int, size: u64, rest: Seq<char>) -> Result<
    Role,
> {
    match (digits::number(digits::trimmed(rest), 10), table) {
        (Some(off), Some(t)) => if off > t.len() {
            Err(Error::InvalidImage)
        } else {
            Ok(
                as_file(
                    text::text_of(t.subrange(off as int, name_end(t, off as int))),
                    at,
                    size as int,
                ),
            )
        },
        _ => Err(Error::InvalidImage),
    }
}

/// What the member with the header `h` is, whose bytes are at `at`.
#[verifier::opaque]
pub open spec fn role(img: Seq<u8>, h: Head, at: int, table: Option<Seq<u8>>) -> Result<Role> {
    let raw = h.raw;
    if raw == "//"@ {
        Ok(Role::Names)
    } else if raw == "/"@ || raw == "/SYM64/"@ {
        Ok(Role::Other)
    } else if starts_with(raw, "#1/"@) {
        bsd_role(img, at, h.size, raw.subrange(3, raw.len() as int))
    } else if starts_with(raw, "/"@) {
        gnu_role(table, at, h.size, raw.subrange(1, raw.len() as int))
    } else {
        let name = if raw.len() > 0 && raw.last() == '/' {
            raw.drop_last()
        } else {
            raw
        };
        Ok(as_file(name, at, h.size as int))
    }
}

/// The entry of a file.
pub open spec fn item(h: Head, name: Seq<char>, off: int, len: int) -> Item {
    Item {
        path: name,
        kind: EntryKind::Regular,
        mode: h.mode,
        uid: h.uid,
        gid: h.gid,
        mtime: h.mtime,
        link: None,
        major: 0,
        minor: 0,
        data: Some(
            DataLocator {
                offset: off as u64,
                compressed_len: len as u64,
                uncompressed_len: len as u64,
                method: Method::Stored,
            },
        ),
    }
}

/// The tree `t` with the files of the members from `pos` on, up to the first
/// place where there is no member; `table` is the last table of long names.
pub open spec fn scan_from(img: Seq<u8>, pos: int, table: Option<Seq<u8>>, t: Tree) -> Result<Tree>
    decreases img.len() - pos,
{
    if pos + 60 > img.len() || img[pos + 58] != 0x60 || img[pos + 59] != 0x0a {
        Ok(t)
    } else {
        match member(img, pos) {
            Err(e) => Err(e),
            Ok(h) => {
                let at = pos + 60;
                let next = next_of(pos, h.size);
                if next > img.len() {
                    Err(Error::InvalidImage)
                } else {
                    match role(img, h, at, table) {
                        Err(e) => Err(e),
                        Ok(Role::Names) => scan_from(
                            img,
                            next,
                            Some(img.subrange(at, at + h.size)),
                            t,
                        ),
                        Ok(Role::Other) => scan_from(img, next, table, t),
                        Ok(Role::File { name, off, len }) => scan_from(
                            img,
                            next,
                            table,
                            t.pushed(item(h, name, off, len)),
                        ),
                    }
                }
            },
        }
    }
}

/// The tree of the archive on the device `img`.
pub open spec fn scanned(img: Seq<u8>) -> Result<Tree> {
    if img.len() < 8 {
        Err(Error::OutOfBounds)
    } else if img.subrange(0, 8) != magic() {
        Err(Error::InvalidImage)
    } else {
        scan_from(img, 8, None, Tree::empty())
    }
}

/// The header of a member.
struct HeadRead {
    raw: Vec<char>,
    size: u64,
    mtime: u64,
    uid: u32,
    gid: u32,
    mode: u16,
}

impl View for HeadRead {
    type V = Head;

    closed spec fn view(&self) -> Head {
        Head {
            raw: self.raw@,
            size: self.size,
            mtime: self.mtime,
            uid: self.uid,
            gid: self.gid,
            mode: self.mode,
        }
    }
}

fn parse_or(b: &[u8], default: u64) -> (r: u64)
    ensures
        r == number_or(b@, default),
{
    match parse_field(b, 10) {
        Some(n) => n,
        None => default,
    }
}

fn parse32_or(b: &[u8], default: u32) -> (r: u32)
    ensures
        r == number32_or(b@, default),
{
    match parse_field(b, 10) {
        Some(n) => if n <= u32::MAX as u64 {
            n as u32
        } else {
            default
        },
        None => default,
    }
}

fn parse_perm(b: &[u8]) -> (r: u16)
    ensures
        r == perm_of(b@),
{
    match parse_field(b, 8) {
        Some(n) => if n <= u32::MAX as u64 {
            (n % 0x1000) as u16
        } else {
            0x1a4
        },
        None => 0x1a4,
    }
}

fn read_head(h: &Vec<u8>) -> (r: Option<HeadRead>)
    requires
        h@.len() == 60,
    ensures
        match r {
            Some(x) => head(h@) == Some(x@),
            None => head(h@) is None,
        },
{
    proof {
        reveal(head);
    }
    let name = match text_from_utf8(copy_range(h.as_slice(), 0, 16)) {
        None => {
            return None;
        },
        Some(s) => s,
    };
    let s = h.as_slice();
    let size: u64 = parse_or(slice_subrange(s, 48, 58), u64::MAX);
    if size == u64::MAX {
        return None;
    }
    Some(
        HeadRead {
            raw: trim_end(name.as_str()),
            size,
            mtime: parse_or(slice_subrange(s, 16, 28), 0),
            uid: parse32_or(slice_subrange(s, 28, 34), 0),
            gid: parse32_or(slice_subrange(s, 34, 40), 0),
            mode: parse_perm(slice_subrange(s, 40, 48)),
        },
    )
}

fn read_member(dev: &MemoryBackend, pos: u64) -> (r: Result<HeadRead>)
    requires
        pos + 60 <= dev@.len(),
    ensures
        match r {
            Ok(x) => member(dev@, pos as int) == Ok::<Head, Error>(x@) && next_of(
                pos as int,
                x@.size,
            ) <= dev@.len(),
            Err(e) => member(dev@, pos as int) == Err::<Head, Error>(e),
        },
{
    proof {
        reveal(member);
    }
    let total: u64 = dev.total_size();
    let raw = dev.read_at(pos, 60)?;
    let h = match read_head(&raw) {
        None => {
            return Err(Error::InvalidImage);
        },
        Some(h) => h,
    };
    let left: u64 = total - (pos + 60);
    if h.size > left || h.size % 2 > left - h.size {
        return Err(Error::InvalidImage);
    }
    Ok(h)
}

fn has_prefix(s: &Vec<char>, p: &str) -> (r: bool)
    ensures
        r == starts_with(s@, p@),
{
    let q = to_chars(p);
    if q.len() > s.len() {
        return false;
    }
    let f = chars_range(s, 0, q.len());
    let a = from_chars(f.as_slice());
    same_text(a.as_str(), p)
}

fn strip_nuls(s: &str) -> (r: String)
    ensures
        r@ == without_nuls(s@),
{
    let mut v = to_chars(s);
    while v.len() > 0 && v[v.len() - 1] == '\0'
        invariant
            without_nuls(s@) == without_nuls(v@),
        decreases v@.len(),
    {
        v.pop();
    }
    from_chars(v.as_slice())
}

/// What a member is.
enum RoleRead {
    Names,
    Other,
    File { name: String, off: u64, len: u64 },
}

impl View for RoleRead {
    type V = Role;

    closed spec fn view(&self) -> Role {
        match self {
            RoleRead::Names => Role::Names,
            RoleRead::Other => Role::Other,
            RoleRead::File { name, off, len } => Role::File {
                name: name@,
                off: *off as int,
                len: *len as int,
            },
        }
    }
}

/// The view of a fallible role.
closed spec fn role_of(r: Result<RoleRead>) -> Result<Role> {
    match r {
        Ok(x) => Ok(x@),
        Err(e) => Err(e),
    }
}

fn file_role(name: String, off: u64, len: u64) -> (r: RoleRead)
    ensures
        r@ == as_file(name@, off as int, len as int),
{
    let c = to_chars(name.as_str());
    if c.len() == 0 || has_prefix(&c, "__.SYMDEF") {
        RoleRead::Other
    } else {
        RoleRead::File { name, off, len }
    }
}

fn read_bsd(dev: &MemoryBackend, at: u64, size: u64, rest: &str) -> (r: Result<RoleRead>)
    requires
        at + size <= dev@.len(),
    ensures
        role_of(r) == bsd_role(dev@, at as int, size, rest@),
{
    let t = trim(rest);
    let n: u64 = match parse_number(&t, 10) {
        Some(n) => n,
        None => {
            return Err(Error::InvalidImage);
        },
    };
    if n > size {
        return Err(Error::InvalidImage);
    }
    let held: usize = dev.as_slice().len();
    let b = read_range(dev, at, n)?;
    let s = from_utf8_lossy(b.as_slice());
    Ok(file_role(strip_nuls(s.as_str()), at + n, size - n))
}

proof fn lemma_name_end(t: Seq<u8>, i: int)
    requires
        0 <= i <= t.len(),
    ensures
        i <= name_end(t, i) <= t.len(),
    decreases t.len() - i,
{
    if i < t.len() && t[i] != 0x0a && t[i] != 0x2f {
        lemma_name_end(t, i + 1);
    }
}

/// The view of an optional table.
pub open spec fn table_view(t: Option<Vec<u8>>) -> Option<Seq<u8>> {
    match t {
        Some(v) => Some(v@),
        None => None,
    }
}

fn read_gnu(table: &Option<Vec<u8>>, at: u64, size: u64, rest: &str) -> (r: Result<RoleRead>)
    ensures
        role_of(r) == gnu_role(table_view(*table), at as int, size, rest@),
{
    let s = trim(rest);
    let off: u64 = match parse_number(&s, 10) {
        Some(n) => n,
        None => {
            return Err(Error::InvalidImage);
        },
    };
    let t = match table {
        Some(t) => t,
        None => {
            return Err(Error::InvalidImage);
        },
    };
    if off > t.len() as u64 {
        return Err(Error::InvalidImage);
    }
    let from: usize = off as usize;
    let mut end: usize = from;
    while end < t.len() && t[end] != 0x0a && t[end] != 0x2f
        invariant
            from <= end <= t@.len(),
            name_end(t@, from as int) == name_end(t@, end as int),
        decreases t@.len() - end,
    {
        end = end + 1;
    }
    let b = copy_range(t.as_slice(), from, end);
    Ok(file_role(from_utf8_lossy(b.as_slice()), at, size))
}

fn read_role(dev: &MemoryBackend, h: &HeadRead, at: u64, table: &Option<Vec<u8>>) -> (r: Result<
    RoleRead,
>)
    requires
        at + h@.size <= dev@.len(),
    ensures
        role_of(r) == role(dev@, h@, at as int, table_view(*table)),
{
    proof {
        reveal(role);
        reveal_strlit("#1/");
        reveal_strlit("/");
    }
    let n: usize = h.raw.len();
    let raw = from_chars(h.raw.as_slice());
    if same_text(raw.as_str(), "//") {
        return Ok(RoleRead::Names);
    }
    if same_text(raw.as_str(), "/") || same_text(raw.as_str(), "/SYM64/") {
        return Ok(RoleRead::Other);
    }
    if has_prefix(&h.raw, "#1/") {
        let c = chars_range(&h.raw, 3, n);
        let rest = from_chars(c.as_slice());
        return read_bsd(dev, at, h.size, rest.as_str());
    }
    if has_prefix(&h.raw, "/") {
        let c = chars_range(&h.raw, 1, n);
        let rest = from_chars(c.as_slice());
        return read_gnu(table, at, h.size, rest.as_str());
    }
    let k: usize = if n > 0 && h.raw[n - 1] == '/' {
        n - 1
    } else {
        n
    };
    let c = chars_range(&h.raw, 0, k);
    proof {
        if k == n {
            assert(c@ =~= h.raw@);
        } else {
            assert(c@ =~= h.raw@.drop_last());
        }
    }
    Ok(file_role(from_chars(c.as_slice()), at, h.size))
}

proof fn lemma_role(img: Seq<u8>, h: Head, at: int, table: Option<Seq<u8>>)
    requires
        at >= 0,
    ensures
        role(img, h, at, table) matches Ok(Role::File { off, len, .. }) ==> off >= at && off + len
            == at + h.size && len >= 0,
{
    reveal(role);
}

/// Scan the archive on `dev`.
pub fn scan(dev: &MemoryBackend) -> (r: Result<ArchiveIndex>)
    ensures
        match r {
            Ok(ix) => scanned(dev@) == Ok::<Tree, Error>(ix@),
            Err(e) => scanned(dev@) == Err::<Tree, Error>(e),
        },
{
    let total: u64 = dev.total_size();
    let m = dev.read_at(0, 8)?;
    let want: [u8; 8] = [0x21, 0x3c, 0x61, 0x72, 0x63, 0x68, 0x3e, 0x0a];
    proof {
        assert(want@ =~= magic());
    }
    if !same_bytes(m.as_slice(), want.as_slice()) {
        return Err(Error::InvalidImage);
    }
    let mut ix = ArchiveIndex::new("ar");
    let mut table: Option<Vec<u8>> = None;
    let mut pos: u64 = 8;
    while total - pos >= 60
        invariant_except_break
            scanned(dev@) == scan_from(dev@, pos as int, table_view(table), ix@),
        invariant
            total == dev@.len(),
            pos <= total,
        ensures
            scanned(dev@) == Ok::<Tree, Error>(ix@),
        decreases total - pos,
    {
        let b = dev.as_slice();
        let held: usize = b.len();
        if b[pos as usize + 58] != 0x60 || b[pos as usize + 59] != 0x0a {
            break;
        }
        let h = read_member(dev, pos)?;
        let ghost hv = h@;
        let at: u64 = pos + 60;
        let next: u64 = at + h.size + h.size % 2;
        proof {
            lemma_role(dev@, hv, at as int, table_view(table));
        }
        match read_role(dev, &h, at, &table)? {
            RoleRead::Names => {
                let b = read_range(dev, at, h.size)?;
                table = Some(b);
            },
            RoleRead::Other => {},
            RoleRead::File { name, off, len } => {
                let e = ArchiveEntry {
                    path: name,
                    kind: EntryKind::Regular,
                    mode: h.mode,
                    uid: h.uid,
                    gid: h.gid,
                    mtime: h.mtime,
                    link_target: None,
                    device_major: 0,
                    device_minor: 0,
                    data: Some(
                        DataLocator {
                            offset: off,
                            compressed_len: len,
                            uncompressed_len: len,
                            method: Method::Stored,
                        },
                    ),
                };
                proof {
                    assert(e@ =~= item(hv, name@, off as int, len as int));
                }
                ix.push(e);
            },
        }
        pos = next;
    }
    Ok(ix)
}

} // verus!
