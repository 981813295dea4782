//! Records of the older format, with octal numbers and without padding, and the
//! kinds of entries of both formats.

use vstd::prelude::*;

use crate::archive::cpio::scan::{self, Format, Hdr, Record};
use crate::archive::digits;
use crate::archive::index::{EntryKind, Item, Method, Tree};
use crate::error::Error;
use crate::num;
use crate::text;

verus! {

/// The type bits of a mode are those of the system, and an entry that tells none of
/// them is a regular file.
pub proof fn lemma_kinds(perm: u32)
    requires
        perm < 0o10000,
    ensures
        scan::kind_of((0o010000 + perm) as u32) == EntryKind::Fifo,
        scan::kind_of((0o020000 + perm) as u32) == EntryKind::Char,
        scan::kind_of((0o040000 + perm) as u32) == EntryKind::Dir,
        scan::kind_of((0o060000 + perm) as u32) == EntryKind::Block,
        scan::kind_of((0o100000 + perm) as u32) == EntryKind::Regular,
        scan::kind_of((0o120000 + perm) as u32) == EntryKind::Symlink,
        scan::kind_of((0o140000 + perm) as u32) == EntryKind::Socket,
        scan::kind_of(perm) == EntryKind::Regular,
{
}

/// The number `n` in `w` octal digits.
pub open spec fn octal(n: nat, w: nat) -> Seq<u8>
    decreases w,
{
    if w == 0 {
        Seq::empty()
    } else {
        octal(n / 8, (w - 1) as nat).push((48 + n % 8) as u8)
    }
}

/// Whether `n` has `w` octal digits at most.
pub open spec fn fits(n: nat, w: nat) -> bool
    decreases w,
{
    if w == 0 {
        n == 0
    } else {
        fits(n / 8, (w - 1) as nat)
    }
}

/// The characters of `b`.
pub open spec fn chars(b: Seq<u8>) -> Seq<char> {
    Seq::new(b.len(), |i: int| b[i] as char)
}

proof fn lemma_octal_value(n: nat, w: nat, s: Seq<char>)
    requires
        fits(n, w),
        s.len() >= w,
        forall|i: int| 0 <= i < w ==> s[i] == octal(n, w)[i] as char,
    ensures
        octal(n, w).len() == w,
        forall|i: int| 0 <= i < w ==> 48 <= #[trigger] octal(n, w)[i] <= 55,
        digits::value(s, 8, w as int) == Some(n as int),
    decreases w,
{
    if w > 0 {
        let m = n / 8;
        let v = (w - 1) as nat;
        lemma_octal_len(m, v);
        assert forall|i: int| 0 <= i < v implies s[i] == octal(m, v)[i] as char by {
            assert(octal(n, w)[i] == octal(m, v)[i]);
        }
        lemma_octal_value(m, v, s);
        assert(octal(n, w)[v as int] == (48 + n % 8) as u8);
        assert(s[v as int] as int == 48 + n % 8);
    }
}

proof fn lemma_octal_len(n: nat, w: nat)
    ensures
        octal(n, w).len() == w,
    decreases w,
{
    if w > 0 {
        lemma_octal_len(n / 8, (w - 1) as nat);
    }
}

/// A number in octal digits reads back.
pub proof fn lemma_octal(n: nat, w: nat)
    requires
        fits(n, w),
        w > 0,
        n <= u64::MAX,
    ensures
        octal(n, w).len() == w,
        digits::field(octal(n, w), 8) == Some(n as u64),
{
    let b = octal(n, w);
    lemma_octal_len(n, w);
    let s = chars(b);
    lemma_octal_value(n, w, s);
    assert(48 <= b[0] <= 55 && 48 <= b[w - 1] <= 55);
    digits::lemma_plain_field(b, 8);
    assert(Seq::new(b.len(), |i: int| b[i] as char) =~= s);
    assert(s[0] != '+');
}

/// What a record of the older format tells.
pub struct Old {
    pub dev: nat,
    pub ino: nat,
    pub mode: nat,
    pub uid: nat,
    pub gid: nat,
    pub sixth: nat,
    pub seventh: nat,
    pub mtime: nat,
    pub name: Seq<u8>,
    pub body: Seq<u8>,
}

impl Old {
    /// Whether its numbers have places in the header.
    pub open spec fn fits(self) -> bool {
        &&& fits(self.dev, 6)
        &&& fits(self.ino, 6)
        &&& fits(self.mode, 6)
        &&& fits(self.uid, 6)
        &&& fits(self.gid, 6)
        &&& fits(self.sixth, 6)
        &&& fits(self.seventh, 6)
        &&& fits(self.mtime, 11)
        &&& fits(self.name.len() + 1, 6)
        &&& fits(self.body.len(), 11)
        &&& self.name.len() < scan::MAX_NAMESIZE
        &&& self.name.len() > 0 ==> self.name.last() != 0
    }

    /// Its header: the mark, six digits for the numbers of the device and of the
    /// object, the mode, the owners and two more numbers; eleven for the time, six for
    /// the length of the name and eleven for that of the body.
    #[verifier::opaque]
    pub open spec fn head(self) -> Seq<u8> {
        seq![48u8, 55, 48, 55, 48, 55] + octal(self.dev, 6) + octal(self.ino, 6) + octal(
            self.mode,
            6,
        ) + octal(self.uid, 6) + octal(self.gid, 6) + octal(self.sixth, 6) + octal(
            self.seventh,
            6,
        ) + octal(self.mtime, 11) + octal(self.name.len() + 1, 6) + octal(self.body.len(), 11)
    }
}

proof fn lemma_small(n: nat, w: nat)
    requires
        fits(n, w),
        w <= 11,
    ensures
        n < 0x2_0000_0000,
        w <= 6 ==> n < 0x4_0000,
{
    reveal_with_fuel(fits, 12);
}

proof fn lemma_head_parts(r: Old)
    ensures
        ({
            let h = r.head();
            &&& h.len() == 76
            &&& h.subrange(0, 6) == seq![48u8, 55, 48, 55, 48, 55]
            &&& h.subrange(18, 24) == octal(r.mode, 6)
            &&& h.subrange(24, 30) == octal(r.uid, 6)
            &&& h.subrange(30, 36) == octal(r.gid, 6)
            &&& h.subrange(36, 42) == octal(r.sixth, 6)
            &&& h.subrange(48, 59) == octal(r.mtime, 11)
            &&& h.subrange(59, 65) == octal(r.name.len() + 1, 6)
            &&& h.subrange(65, 76) == octal(r.body.len(), 11)
        }),
{
    reveal(Old::head);
    lemma_octal_len(r.dev, 6);
    lemma_octal_len(r.ino, 6);
    lemma_octal_len(r.mode, 6);
    lemma_octal_len(r.uid, 6);
    lemma_octal_len(r.gid, 6);
    lemma_octal_len(r.sixth, 6);
    lemma_octal_len(r.seventh, 6);
    lemma_octal_len(r.mtime, 11);
    lemma_octal_len(r.name.len() + 1, 6);
    lemma_octal_len(r.body.len(), 11);
    let h = r.head();
    assert(h.subrange(0, 6) =~= seq![48u8, 55, 48, 55, 48, 55]);
    assert(h.subrange(18, 24) =~= octal(r.mode, 6));
    assert(h.subrange(24, 30) =~= octal(r.uid, 6));
    assert(h.subrange(30, 36) =~= octal(r.gid, 6));
    assert(h.subrange(36, 42) =~= octal(r.sixth, 6));
    assert(h.subrange(48, 59) =~= octal(r.mtime, 11));
    assert(h.subrange(59, 65) =~= octal(r.name.len() + 1, 6));
    assert(h.subrange(65, 76) =~= octal(r.body.len(), 11));
}

proof fn lemma_field(h: Seq<u8>, lo: int, hi: int, n: nat, w: nat)
    requires
        h.subrange(lo, hi) == octal(n, w),
        fits(n, w),
        0 < w <= 11,
    ensures
        scan::field(h, lo, hi, 8) == Some(n as u64),
        n < 0x2_0000_0000,
        w <= 6 ==> n < 0x4_0000,
{
    lemma_small(n, w);
    lemma_octal(n, w);
}

/// The header of a record of the older format tells its mode, its owners, its time
/// and its lengths.
pub proof fn lemma_old_header(r: Old)
    requires
        r.fits(),
    ensures
        scan::format_of(r.head().subrange(0, 6)) == Some(Format::Odc),
        scan::odc(r.head()) matches Some(h) && {
            &&& h.mode == r.mode
            &&& h.uid == r.uid
            &&& h.gid == r.gid
            &&& h.mtime == r.mtime
            &&& h.filesize == r.body.len()
            &&& h.namesize == r.name.len() + 1
            &&& h.header_len == 76
            &&& h.align == 1
        },
{
    reveal(scan::odc);
    lemma_head_parts(r);
    let h = r.head();
    lemma_field(h, 18, 24, r.mode, 6);
    lemma_field(h, 24, 30, r.uid, 6);
    lemma_field(h, 30, 36, r.gid, 6);
    lemma_field(h, 36, 42, r.sixth, 6);
    lemma_field(h, 48, 59, r.mtime, 11);
    lemma_field(h, 59, 65, r.name.len() + 1, 6);
    lemma_field(h, 65, 76, r.body.len(), 11);
    assert(seq![48u8, 55, 48, 55, 48, 55][5] == 55);
    assert(seq![48u8, 55, 48, 55, 48, 49][5] == 49);
    assert(seq![48u8, 55, 48, 55, 48, 50][5] == 50);
}

/// Whether the device `img` holds the record `r` at `pos`: the header, the name and a
/// zero byte, and the body, with nothing between them.
pub open spec fn holds_old(img: Seq<u8>, r: Old, pos: int) -> bool {
    let n = r.name.push(0);
    &&& 0 <= pos
    &&& img.len() <= u64::MAX
    &&& pos + 76 + n.len() + r.body.len() <= img.len()
    &&& img.subrange(pos, pos + 76) == r.head()
    &&& img.subrange(pos + 76, pos + 76 + n.len()) == n
    &&& img.subrange(pos + 76 + n.len(), pos + 76 + n.len() + r.body.len()) == r.body
}

/// A record of the older format is read as it was laid out: an entry with its name,
/// its kind, its mode, its owners and its time; a file has the bytes of its body, and
/// a symbolic link has them as its target. The next record comes right behind it.
pub proof fn lemma_old_record(img: Seq<u8>, r: Old, pos: int, t: Tree)
    requires
        r.fits(),
        holds_old(img, r, pos),
        text::text_of(r.name) != scan::TRAILER@,
    ensures
        ({
            let next = pos + 77 + r.name.len() + r.body.len();
            let k = scan::kind_of(r.mode as u32);
            exists|e: Item|
                #![trigger t.pushed(e)]
                {
                    &&& scan::scan_from(img, pos, t) == scan::scan_from(img, next, t.pushed(e))
                    &&& e.path == text::text_of(r.name)
                    &&& e.kind == k
                    &&& e.mode == r.mode % 0o10000
                    &&& e.uid == r.uid
                    &&& e.gid == r.gid
                    &&& e.mtime == r.mtime
                    &&& k == EntryKind::Symlink ==> e.link == Some(text::text_of(r.body))
                    &&& k == EntryKind::Regular ==> (e.data matches Some(d) && d.method
                        == Method::Stored && d.uncompressed_len == r.body.len() && img.subrange(
                        d.offset as int,
                        d.offset + d.compressed_len,
                    ) == r.body)
                }
        }),
{
    let n = r.name.push(0);
    let h = img.subrange(pos, pos + 76);
    lemma_old_header(r);
    assert(img.subrange(pos, pos + 6) =~= h.subrange(0, 6));
    lemma_head_parts(r);
    lemma_small(r.mode, 6);
    let hdr = scan::odc(h).unwrap();
    assert(scan::header(img, pos) == Ok::<Hdr, Error>(hdr));
    let body = pos + 76 + n.len();
    let next = body + r.body.len();
    lemma_no_padding(body);
    lemma_no_padding(next);
    assert(n.drop_last() =~= r.name);
    assert(scan::without_nuls(r.name) == r.name);
    assert(scan::without_nuls(n) == r.name);
    let rec = Record { hdr, name: text::text_of(r.name), body, next };
    assert(scan::record(img, pos) == Ok::<Record, Error>(rec)) by {
        reveal(scan::record);
    }
    let e = scan::item(img, rec);
    assert(scan::scan_from(img, pos, t) == scan::scan_from(img, next, t.pushed(e)));
}

proof fn lemma_no_padding(n: int)
    requires
        0 <= n,
    ensures
        scan::aligned(n, 1) == n,
{
    num::lemma_div_up(n, 1);
}

} // verus!
