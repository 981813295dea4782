//! What is read of a RAR archive, from the files that were put into it.

use vstd::prelude::*;

use crate::archive::index::{DataLocator, EntryKind, Item, Method};
use crate::archive::laws;
use crate::archive::layout::{self, holds};
use crate::archive::listing;
use crate::archive::names;
use crate::archive::rar::scan::{self, FileHead, Found, Member, Opening, RarFile, Tables};
use crate::archive::rar::{file_given, plain_contents, Entry, RarFs};
use crate::error::{Error, Result};
use crate::text;

verus! {

// ---- numbers ----

/// The bytes of the number `n`: seven bits a byte, the lowest first, with the top
/// bit set in all bytes but the last.
pub open spec fn vbytes(n: nat) -> Seq<u8>
    decreases n,
{
    if n < 128 {
        seq![n as u8]
    } else {
        seq![(128 + n % 128) as u8] + vbytes(n / 128)
    }
}

/// Whether `u` is the unit of one of the ten bytes that a number may have.
spec fn is_unit(u: int) -> bool {
    ||| u == 1
    ||| u == 0x80
    ||| u == 0x4000
    ||| u == 0x20_0000
    ||| u == 0x1000_0000
    ||| u == 0x8_0000_0000
    ||| u == 0x400_0000_0000
    ||| u == 0x2_0000_0000_0000
    ||| u == 0x100_0000_0000_0000
    ||| u == 0x8000_0000_0000_0000
}

proof fn lemma_held_from(b: Seq<u8>, p: int, n: nat, unit: int, acc: int)
    requires
        holds(b, p, vbytes(n)),
        is_unit(unit),
        0 <= acc,
        acc + n * unit < 0x1_0000_0000_0000_0000,
    ensures
        scan::vint_from(b, p, unit, acc) == Some(
            scan::Field { v: (acc + n * unit) as u64, next: p + vbytes(n).len() },
        ),
    decreases n,
{
    let v = vbytes(n);
    let s = b.subrange(p, p + v.len());
    assert(s[0] == v[0]);
    if n >= 128 {
        let m = n / 128;
        let d = n % 128;
        assert(v[0] == (128 + d) as u8);
        assert(b[p] as int % 128 == d);
        assert(n * unit == d * unit + m * (unit * 128)) by (nonlinear_arith)
            requires
                n == d + m * 128,
        ;
        assert(m * (unit * 128) >= unit * 128 && d * unit >= 0) by (nonlinear_arith)
            requires
                m >= 1,
                unit >= 1,
                d >= 0,
        ;
        assert(is_unit(unit * 128));
        let w = vbytes(m);
        assert(v.subrange(1, v.len() as int) =~= w);
        assert(b.subrange(p + 1, p + 1 + w.len()) =~= s.subrange(1, s.len() as int));
        lemma_held_from(b, p + 1, m, unit * 128, acc + d * unit);
    } else {
        assert(b[p] == n);
    }
}

/// A number that was written is read.
pub proof fn lemma_number(b: Seq<u8>, p: int, n: nat)
    requires
        holds(b, p, vbytes(n)),
        n <= u64::MAX,
    ensures
        scan::vint(b, p) == Some(scan::Field { v: n as u64, next: p + vbytes(n).len() }),
{
    lemma_held_from(b, p, n, 1, 0);
}

proof fn lemma_short(n: nat)
    requires
        n < 0x1_0000_0000,
    ensures
        1 <= vbytes(n).len() <= 5,
{
    reveal_with_fuel(vbytes, 6);
    assert(n / 128 < 0x200_0000);
    assert(n / 128 / 128 < 0x4_0000);
    assert(n / 128 / 128 / 128 < 0x800);
    assert(n / 128 / 128 / 128 / 128 < 0x10);
}

// ---- records ----

/// A record at the end of a header: its kind and what the kind asks for.
pub struct Note {
    pub kind: u64,
    pub data: Seq<u8>,
}

/// The bytes of a record: its length, its kind, and the rest.
pub open spec fn note_bytes(r: Note) -> Seq<u8> {
    vbytes((vbytes(r.kind as nat) + r.data).len()) + (vbytes(r.kind as nat) + r.data)
}

/// The bytes of the records from `i` on.
pub open spec fn notes_bytes(rs: Seq<Note>, i: int) -> Seq<u8>
    decreases rs.len() - i,
{
    if i >= rs.len() {
        Seq::empty()
    } else {
        note_bytes(rs[i]) + notes_bytes(rs, i + 1)
    }
}

/// Whether one of the records from `i` on is of the kind `k`.
pub open spec fn has_kind(rs: Seq<Note>, k: u64, i: int) -> bool {
    exists|j: int| i <= j < rs.len() && (#[trigger] rs[j]).kind == k
}

proof fn lemma_vbytes_len(n: nat)
    ensures
        vbytes(n).len() >= 1,
{
}

proof fn lemma_notes(h: Seq<u8>, p: int, rs: Seq<Note>, i: int, k: u64)
    requires
        0 <= i <= rs.len(),
        holds(h, p, notes_bytes(rs, i)),
        p + notes_bytes(rs, i).len() == h.len(),
        h.len() <= u64::MAX,
    ensures
        scan::has_record(h, p, k) == has_kind(rs, k, i),
    decreases rs.len() - i,
{
    if i < rs.len() {
        let r = rs[i];
        let body = vbytes(r.kind as nat) + r.data;
        let size = vbytes(body.len());
        let rest = notes_bytes(rs, i + 1);
        let all = notes_bytes(rs, i);
        let s = h.subrange(p, p + all.len());
        assert(s == all);
        lemma_vbytes_len(body.len());
        lemma_vbytes_len(r.kind as nat);
        assert(h.subrange(p, p + size.len()) =~= s.subrange(0, size.len() as int));
        assert(all.subrange(0, size.len() as int) =~= size);
        assert(holds(h, p, size));
        lemma_number(h, p, body.len());
        let q = p + size.len();
        let kind = vbytes(r.kind as nat);
        assert(h.subrange(q, q + kind.len()) =~= s.subrange(
            size.len() as int,
            (size.len() + kind.len()) as int,
        ));
        assert(all.subrange(size.len() as int, (size.len() + kind.len()) as int) =~= kind);
        assert(holds(h, q, kind));
        lemma_number(h, q, r.kind as nat);
        let end = q + body.len();
        assert(h.subrange(end, end + rest.len()) =~= s.subrange(
            (size.len() + body.len()) as int,
            all.len() as int,
        ));
        assert(all.subrange((size.len() + body.len()) as int, all.len() as int) =~= rest);
        assert(holds(h, end, rest));
        lemma_notes(h, end, rs, i + 1, k);
        if r.kind == k {
            assert(has_kind(rs, k, i));
        } else if has_kind(rs, k, i) {
            let j = choose|j: int| i <= j < rs.len() && (#[trigger] rs[j]).kind == k;
            assert(j != i);
            assert(has_kind(rs, k, i + 1));
        } else if has_kind(rs, k, i + 1) {
            let j = choose|j: int| i + 1 <= j < rs.len() && (#[trigger] rs[j]).kind == k;
            assert(has_kind(rs, k, i));
        }
    } else {
        assert(p == h.len());
    }
}

// ---- headers ----

/// A file or directory: its name, how its data was packed, the data, and what the
/// header tells of it.
pub struct Slot {
    pub name: Seq<u8>,
    pub dir: bool,
    pub unpacked: u64,
    pub attributes: u64,
    /// The time and the checksum, of four bytes each, where they are told.
    pub mtime: Option<Seq<u8>>,
    pub crc: Option<Seq<u8>>,
    pub version: u8,
    pub solid: bool,
    pub method: u8,
    pub window: u8,
    pub host: u64,
    pub notes: Seq<Note>,
    pub data: Seq<u8>,
    /// The data goes on from another volume, or into one.
    pub from_before: bool,
    pub goes_on: bool,
}

/// One where `b` holds, else nothing.
pub open spec fn bit(b: bool) -> nat {
    if b {
        1
    } else {
        0
    }
}

/// The four bytes `b`, if there are any.
pub open spec fn four(b: Option<Seq<u8>>) -> Seq<u8> {
    match b {
        Some(s) => s,
        None => Seq::empty(),
    }
}

/// The flags of the header of the file `f`.
pub open spec fn head_flags(f: Slot) -> nat {
    bit(f.notes.len() > 0) + 2 * bit(f.data.len() > 0) + 8 * bit(f.from_before) + 16 * bit(
        f.goes_on,
    )
}

/// The flags of the file `f`.
pub open spec fn file_flags(f: Slot) -> nat {
    bit(f.dir) + 2 * bit(f.mtime is Some) + 4 * bit(f.crc is Some)
}

/// How the data of the file `f` was packed.
pub open spec fn packing(f: Slot) -> nat {
    f.version as nat + 64 * bit(f.solid) + 128 * (f.method as nat) + 1024 * (f.window as nat)
}

/// The number `n`, where there is one.
pub open spec fn vbytes_if(there: bool, n: nat) -> Seq<u8> {
    if there {
        vbytes(n)
    } else {
        Seq::empty()
    }
}

/// The start of the header of the file `f`.
pub open spec fn first_part(f: Slot) -> Seq<u8> {
    vbytes(2) + (vbytes(head_flags(f)) + (vbytes_if(
        f.notes.len() > 0,
        notes_bytes(f.notes, 0).len(),
    ) + vbytes_if(f.data.len() > 0, f.data.len())))
}

/// What comes behind it, up to the records.
pub open spec fn second_part(f: Slot) -> Seq<u8> {
    vbytes(file_flags(f)) + (vbytes(f.unpacked as nat) + (vbytes(f.attributes as nat) + (four(
        f.mtime,
    ) + (four(f.crc) + (vbytes(packing(f)) + (vbytes(f.host as nat) + (vbytes(f.name.len())
        + f.name)))))))
}

/// The header of the file `f`.
pub open spec fn head_bytes(f: Slot) -> Seq<u8> {
    first_part(f) + (second_part(f) + notes_bytes(f.notes, 0))
}

/// Whether the fields of the file `f` are in range.
pub open spec fn in_range(f: Slot) -> bool {
    &&& f.version < 64
    &&& f.method < 8
    &&& f.window < 16
    &&& f.mtime matches Some(b) ==> b.len() == 4
    &&& f.crc matches Some(b) ==> b.len() == 4
    &&& head_bytes(f).len() < 0x1_0000_0000
    &&& f.data.len() <= u64::MAX
}

/// Whether the bytes `s` stand at `p` in `h`.
#[verifier::opaque]
spec fn sits(h: Seq<u8>, p: int, s: Seq<u8>) -> bool {
    holds(h, p, s)
}

/// What stands somewhere has its parts there, one behind the other.
proof fn lemma_split(h: Seq<u8>, p: int, x: Seq<u8>, y: Seq<u8>)
    requires
        sits(h, p, x + y),
    ensures
        sits(h, p, x),
        sits(h, p + x.len(), y),
{
    reveal(sits);
    let s = h.subrange(p, p + (x + y).len());
    assert(s == x + y);
    assert(h.subrange(p, p + x.len()) =~= x) by {
        assert(h.subrange(p, p + x.len()) =~= s.subrange(0, x.len() as int));
    }
    let q = p + x.len();
    assert(h.subrange(q, q + y.len()) =~= y) by {
        assert(h.subrange(q, q + y.len()) =~= s.subrange(x.len() as int, s.len() as int));
    }
}

/// A number that stands somewhere is read there.
proof fn lemma_sits(h: Seq<u8>, p: int, n: nat)
    requires
        sits(h, p, vbytes(n)),
        n <= u64::MAX,
    ensures
        scan::num(h, p) == Ok::<scan::Field, Error>(
            scan::Field { v: n as u64, next: p + vbytes(n).len() },
        ),
{
    reveal(sits);
    lemma_number(h, p, n);
}

/// A header stands in itself.
proof fn lemma_whole(h: Seq<u8>)
    ensures
        sits(h, 0, h),
{
    reveal(sits);
    assert(h.subrange(0, h.len() as int) =~= h);
}

proof fn lemma_head_bits(f: Slot)
    ensures
        head_flags(f) <= 27,
        head_flags(f) as int % 2 == bit(f.notes.len() > 0),
        (head_flags(f) as int / 2) % 2 == bit(f.data.len() > 0),
        (head_flags(f) as int / 8) % 2 == bit(f.from_before),
        (head_flags(f) as int / 16) % 2 == bit(f.goes_on),
{
}

proof fn lemma_file_bits(f: Slot)
    ensures
        file_flags(f) <= 7,
        file_flags(f) as int % 2 == bit(f.dir),
        (file_flags(f) as int / 2) % 2 == bit(f.mtime is Some),
        (file_flags(f) as int / 4) % 2 == bit(f.crc is Some),
{
}

proof fn lemma_packing_bits(f: Slot)
    requires
        f.version < 64,
        f.method < 8,
        f.window < 16,
    ensures
        packing(f) <= 0x3fff,
        (packing(f) as int / 64) % 2 == bit(f.solid),
        (packing(f) as int / 128) % 8 == f.method,
        (packing(f) as int / 1024) % 16 == f.window,
{
}

proof fn lemma_first(f: Slot)
    requires
        in_range(f),
    ensures
        scan::opening(head_bytes(f)) == Ok::<Opening, Error>(
            Opening {
                kind: 2,
                flags: head_flags(f) as u64,
                extra: notes_bytes(f.notes, 0).len() as u64,
                data: f.data.len() as u64,
                next: first_part(f).len() as int,
            },
        ),
{
    reveal(scan::opening);
    let h = head_bytes(f);
    let n = notes_bytes(f.notes, 0);
    let x = vbytes_if(f.notes.len() > 0, n.len());
    let d = vbytes_if(f.data.len() > 0, f.data.len());
    let v = vbytes(head_flags(f));
    lemma_head_bits(f);
    lemma_whole(h);
    lemma_split(h, 0, first_part(f), second_part(f) + n);
    lemma_split(h, 0, vbytes(2), v + (x + d));
    lemma_sits(h, 0, 2);
    let p = vbytes(2).len() as int;
    lemma_split(h, p, v, x + d);
    lemma_sits(h, p, head_flags(f));
    lemma_split(h, p + v.len(), x, d);
    if f.notes.len() > 0 {
        lemma_sits(h, p + v.len(), n.len());
    } else {
        assert(n.len() == 0);
    }
    if f.data.len() > 0 {
        lemma_sits(h, p + v.len() + x.len(), f.data.len());
    }
}

/// What is read of the fields of the file `f`.
pub open spec fn head_of(f: Slot) -> FileHead {
    FileHead {
        flags: file_flags(f) as u64,
        unpack: f.unpacked,
        packing: packing(f) as u64,
        name: f.name,
    }
}

#[verifier::spinoff_prover]
#[verifier::rlimit(40)]
proof fn lemma_second(f: Slot)
    requires
        in_range(f),
    ensures
        scan::file_head(head_bytes(f), first_part(f).len() as int) == Ok::<FileHead, Error>(
            head_of(f),
        ),
{
    reveal(scan::file_head);
    let h = head_bytes(f);
    let n = notes_bytes(f.notes, 0);
    let (v0, v1, v2) = (
        vbytes(file_flags(f)),
        vbytes(f.unpacked as nat),
        vbytes(f.attributes as nat),
    );
    let (t, c) = (four(f.mtime), four(f.crc));
    let (v3, v4, v5) = (vbytes(packing(f)), vbytes(f.host as nat), vbytes(f.name.len()));
    lemma_file_bits(f);
    lemma_packing_bits(f);
    lemma_whole(h);
    lemma_split(h, 0, first_part(f), second_part(f) + n);
    let p0 = first_part(f).len() as int;
    lemma_split(h, p0, second_part(f), n);
    lemma_split(h, p0, v0, v1 + (v2 + (t + (c + (v3 + (v4 + (v5 + f.name)))))));
    lemma_sits(h, p0, file_flags(f));
    let p1 = p0 + v0.len();
    lemma_split(h, p1, v1, v2 + (t + (c + (v3 + (v4 + (v5 + f.name))))));
    lemma_sits(h, p1, f.unpacked as nat);
    let p2 = p1 + v1.len();
    lemma_split(h, p2, v2, t + (c + (v3 + (v4 + (v5 + f.name)))));
    lemma_sits(h, p2, f.attributes as nat);
    let pt = p2 + v2.len();
    lemma_split(h, pt, t, c + (v3 + (v4 + (v5 + f.name))));
    let pc = pt + t.len();
    lemma_split(h, pc, c, v3 + (v4 + (v5 + f.name)));
    let p3 = pc + c.len();
    lemma_split(h, p3, v3, v4 + (v5 + f.name));
    lemma_sits(h, p3, packing(f));
    let p4 = p3 + v3.len();
    lemma_split(h, p4, v4, v5 + f.name);
    lemma_sits(h, p4, f.host as nat);
    let p5 = p4 + v4.len();
    lemma_split(h, p5, v5, f.name);
    lemma_sits(h, p5, f.name.len());
    assert(holds(h, p5 + v5.len(), f.name) && holds(h, pt, t) && holds(h, pc, c)) by {
        reveal(sits);
    }
}

// ---- archives ----

/// An archive: the flags of its main header, where it has one, and its files.
pub struct Whole {
    pub main: Option<u64>,
    pub files: Seq<Slot>,
}

/// A header of the kind `kind` with the number `n` behind its flags.
pub open spec fn mark_bytes(kind: nat, n: nat) -> Seq<u8> {
    vbytes(kind) + (vbytes(0) + vbytes(n))
}

impl Whole {
    /// Where the first file is: behind the mark of eight bytes that starts an archive
    /// and the main header.
    pub open spec fn start(self) -> int {
        match self.main {
            None => 8,
            Some(n) => {
                let h = mark_bytes(1, n as nat);
                12 + vbytes(h.len()).len() as int + h.len()
            },
        }
    }

    /// Whether it is one volume of several.
    pub open spec fn volume(self) -> bool {
        self.main matches Some(n) && n % 2 == 1
    }
}

/// Whether the device `img` holds a header of the kind `kind` with the number `n`
/// behind its flags at `at`, and no data behind it.
pub open spec fn holds_mark(img: Seq<u8>, at: int, kind: nat, n: nat) -> bool {
    let h = mark_bytes(kind, n);
    &&& 8 <= at
    &&& holds(img, at + 4, vbytes(h.len()))
    &&& holds(img, at + 4 + vbytes(h.len()).len(), h)
}

/// Where the header of file `i` of `a` is: behind the data of the one before it.
pub open spec fn slot_at(a: Whole, i: int) -> int
    decreases i,
{
    if i <= 0 {
        a.start()
    } else {
        data_at(a, i - 1) + a.files[i - 1].data.len()
    }
}

/// Where the data of file `i` of `a` is: behind its header, which a checksum of four
/// bytes and its length come before.
pub open spec fn data_at(a: Whole, i: int) -> int
    decreases i,
{
    let h = head_bytes(a.files[i]);
    (if i <= 0 {
        a.start()
    } else {
        data_at(a, i - 1) + a.files[i - 1].data.len()
    }) + 4 + vbytes(h.len()).len() + h.len()
}

/// Whether the device `img` holds the header and the data of file `i` of `a`.
pub open spec fn holds_slot(img: Seq<u8>, a: Whole, i: int) -> bool {
    let h = head_bytes(a.files[i]);
    &&& in_range(a.files[i])
    &&& holds(img, slot_at(a, i) + 4, vbytes(h.len()))
    &&& holds(img, data_at(a, i) - h.len(), h)
    &&& holds(img, data_at(a, i), a.files[i].data)
}

/// Whether the device `img` holds the archive `a`: its main header, if it has one,
/// its files, and then the header that ends it, or not enough for one more header.
pub open spec fn holds_archive(img: Seq<u8>, a: Whole) -> bool {
    &&& img.len() <= u64::MAX
    &&& img.len() <= usize::MAX
    &&& forall|i: int| 0 <= i < a.files.len() ==> #[trigger] holds_slot(img, a, i)
    &&& a.main matches Some(n) ==> holds_mark(img, 8, 1, n as nat)
    &&& img.len() < slot_at(a, a.files.len() as int) + 5 || holds_mark(
        img,
        slot_at(a, a.files.len() as int),
        5,
        0,
    )
}

/// The path of the file `f`.
pub open spec fn path_of(f: Slot) -> Seq<char> {
    scan::name_path(f.name)
}

/// A name leads along its components, with slashes or backslashes between them.
pub proof fn lemma_path(f: Slot, ps: Seq<Seq<char>>)
    requires
        layout::are_names(ps),
        f.name == text::utf8(layout::spaced(ps, '\\')) || f.name == text::utf8(
            layout::spaced(ps, '/'),
        ),
    ensures
        path_of(f) == names::joined(ps),
{
    layout::lemma_stored_name(ps);
    text::lemma_text_of_utf8(layout::spaced(ps, '\\'));
    text::lemma_text_of_utf8(layout::spaced(ps, '/'));
    if f.name != text::utf8(layout::spaced(ps, '\\')) {
        layout::lemma_no_backslash(ps);
    }
}

/// Whether the data of the file `f` of the archive `a` is out of reach: it is
/// encrypted, or part of it or of the archive lies in another volume.
pub open spec fn barred(a: Whole, f: Slot) -> bool {
    a.volume() || f.from_before || f.goes_on || has_kind(f.notes, 1, 0)
}

/// What the tree shows of the file or directory `f`.
pub open spec fn item_of(f: Slot) -> Item {
    Item {
        path: path_of(f),
        kind: if f.dir {
            EntryKind::Dir
        } else {
            EntryKind::Regular
        },
        mode: if f.dir {
            0o755
        } else {
            0o644
        },
        uid: 0,
        gid: 0,
        mtime: 0,
        link: None,
        major: 0,
        minor: 0,
        data: if f.dir {
            None
        } else {
            Some(
                DataLocator {
                    offset: 0,
                    compressed_len: 0,
                    uncompressed_len: f.unpacked,
                    method: Method::Stored,
                },
            )
        },
    }
}

/// What the tree shows of `a`.
pub open spec fn items_of(a: Whole) -> Seq<Item> {
    Seq::new(a.files.len(), |i: int| item_of(a.files[i]))
}

/// What is read of file `i` of `a`, on a device of `len` bytes.
pub open spec fn member_of(a: Whole, i: int, len: int) -> Member {
    Member {
        path: path_of(a.files[i]),
        at: data_at(a, i) as u64,
        pack: a.files[i].data.len() as u64,
        unpack: a.files[i].unpacked,
        method: a.files[i].method as u64,
        window: scan::window_of(a.files[i].window as int, len),
        barred: barred(a, a.files[i]),
    }
}

/// The files among the first `i` of `a` in groups: a file that is marked as solid
/// shares the group of the file before it, and every other one starts a group.
pub open spec fn groups_of(a: Whole, i: int, len: int) -> Seq<Seq<Member>>
    decreases i,
{
    if i <= 0 {
        Seq::empty()
    } else {
        let gs = groups_of(a, i - 1, len);
        let f = a.files[i - 1];
        let m = member_of(a, i - 1, len);
        if f.dir || path_of(f) == seq!['/'] {
            gs
        } else if f.solid && gs.len() > 0 {
            gs.drop_last().push(gs.last().push(m))
        } else {
            gs.push(seq![m])
        }
    }
}

/// What is found in the first `i` of `a`.
pub open spec fn found_of(a: Whole, i: int, len: int) -> Found {
    Found {
        tree: listing::built(items_of(a), i),
        groups: groups_of(a, i, len),
        volume: a.volume(),
    }
}

proof fn lemma_with(a: Whole, i: int, len: int)
    requires
        0 <= i < a.files.len(),
        in_range(a.files[i]),
    ensures
        found_of(a, i, len).with(
            head_of(a.files[i]),
            data_at(a, i),
            a.files[i].data.len() as u64,
            len,
            a.files[i].from_before || a.files[i].goes_on || has_kind(a.files[i].notes, 1, 0),
        ) == found_of(a, i + 1, len),
{
    reveal(Found::with);
    let f = a.files[i];
    let s = found_of(a, i, len);
    lemma_file_bits(f);
    lemma_packing_bits(f);
    let m = scan::member_of(head_of(f), data_at(a, i), f.data.len() as u64, len, barred(a, f));
    assert(m =~= member_of(a, i, len));
    if path_of(f) == seq!['/'] {
        laws::lemma_root_pushed(s.tree, items_of(a)[i]);
    } else if !f.dir {
        let gs = s.groups;
        let n = gs.len() as int;
        if f.solid && n > 0 {
            assert(gs.update(n - 1, gs[n - 1].push(m)) =~= gs.drop_last().push(gs.last().push(m)));
        }
    }
}

proof fn lemma_slot_at(a: Whole, i: int)
    ensures
        slot_at(a, i) >= 8,
        slot_at(a, i) < data_at(a, i),
    decreases i,
{
    assert(a.start() >= 8);
    if i > 0 {
        lemma_slot_at(a, i - 1);
    }
}

proof fn lemma_scan(img: Seq<u8>, a: Whole, i: int)
    requires
        holds_archive(img, a),
        0 <= i <= a.files.len(),
    ensures
        scan::scan_from(img, slot_at(a, i), found_of(a, i, img.len() as int)) == Ok::<
            Found,
            Error,
        >(found_of(a, a.files.len() as int, img.len() as int)),
    decreases a.files.len() - i,
{
    let pos = slot_at(a, i);
    lemma_slot_at(a, i);
    if i < a.files.len() {
        let f = a.files[i];
        let h = head_bytes(f);
        let size = vbytes(h.len());
        assert(holds_slot(img, a, i));
        lemma_short(h.len());
        let pre = scan::preamble(img, pos);
        assert(pre.subrange(4, 4 + size.len() as int) =~= img.subrange(
            pos + 4,
            pos + 4 + size.len(),
        ));
        lemma_number(pre, 4, h.len());
        let from = pos + 4 + size.len();
        let to = from + h.len();
        assert(to == data_at(a, i));
        assert(scan::header_at(img, pos) == Some((from, to)));
        assert(img.subrange(from, to) == h);
        lemma_first(f);
        lemma_second(f);
        let k = h.len() - notes_bytes(f.notes, 0).len();
        assert(h.subrange(k, h.len() as int) =~= notes_bytes(f.notes, 0));
        lemma_notes(h, k, f.notes, 0, 1);
        lemma_head_bits(f);
        lemma_with(a, i, img.len() as int);
        lemma_scan(img, a, i + 1);
    } else if img.len() >= pos + 5 {
        lemma_mark(img, pos, 5, 0);
    }
}

/// What is read of a header that has no data.
proof fn lemma_mark(img: Seq<u8>, at: int, kind: nat, n: nat)
    requires
        holds_mark(img, at, kind, n),
        kind < 128,
        n <= u64::MAX,
        mark_bytes(kind, n).len() < 0x1_0000_0000,
    ensures
        ({
            let h = mark_bytes(kind, n);
            let from = at + 4 + vbytes(h.len()).len();
            let o = scan::opening(h);
            &&& scan::header_at(img, at) == Some((from, from + h.len()))
            &&& img.subrange(from, from + h.len()) == h
            &&& o matches Ok(p) && p.kind == kind && p.data == 0 && scan::is_volume(h, p) == (n % 2
                == 1)
        }),
{
    reveal(scan::opening);
    let h = mark_bytes(kind, n);
    let size = vbytes(h.len());
    lemma_short(h.len());
    let pre = scan::preamble(img, at);
    assert(pre.subrange(4, 4 + size.len() as int) =~= img.subrange(at + 4, at + 4 + size.len()));
    lemma_number(pre, 4, h.len());
    lemma_whole(h);
    lemma_split(h, 0, vbytes(kind), vbytes(0) + vbytes(n));
    lemma_sits(h, 0, kind);
    let p = vbytes(kind).len() as int;
    lemma_split(h, p, vbytes(0), vbytes(n));
    lemma_sits(h, p, 0);
    lemma_sits(h, p + vbytes(0).len(), n);
}

/// An archive whose headers are encrypted is refused, and the header that ends an
/// archive ends the scan, whatever stands behind it.
pub proof fn lemma_ends(img: Seq<u8>, at: int, n: nat, s: Found)
    requires
        n < 128,
    ensures
        holds_mark(img, at, 4, n) ==> scan::scan_from(img, at, s) == Err::<Found, Error>(
            Error::Unsupported,
        ),
        holds_mark(img, at, 5, n) ==> scan::scan_from(img, at, s) == Ok::<Found, Error>(s),
{
    if holds_mark(img, at, 4, n) {
        lemma_mark(img, at, 4, n);
    }
    if holds_mark(img, at, 5, n) {
        lemma_mark(img, at, 5, n);
    }
}

proof fn lemma_main_len(n: u64)
    ensures
        mark_bytes(1, n as nat).len() < 0x1_0000_0000,
{
    lemma_ten(n as nat);
}

proof fn lemma_ten(n: nat)
    requires
        n <= u64::MAX,
    ensures
        vbytes(n).len() <= 10,
{
    let k = n / 128 / 128 / 128 / 128 / 128;
    reveal_with_fuel(vbytes, 6);
    assert(k < 0x1_0000_0000);
    lemma_short(k);
}

/// An archive is read as it was laid out: the tree is that of its files and
/// directories, each under its own path and with its own length, and each file has
/// its own data, its own method, and its place in a group.
pub proof fn lemma_found(img: Seq<u8>, a: Whole)
    requires
        holds_archive(img, a),
    ensures
        scan::scan_from(img, 8, scan::nothing()) == Ok::<Found, Error>(
            found_of(a, a.files.len() as int, img.len() as int),
        ),
{
    lemma_scan(img, a, 0);
    let s = found_of(a, 0, img.len() as int);
    if let Some(n) = a.main {
        lemma_main_len(n);
        lemma_mark(img, 8, 1, n as nat);
        assert(s =~= Found { volume: n % 2 == 1, ..scan::nothing() });
    } else {
        assert(s =~= scan::nothing());
    }
}

// ---- files ----

/// The file with the path of the group `gs[k]`, which has one member, where no later
/// group has that path.
proof fn lemma_alone(gs: Seq<Seq<Member>>, n: int, k: int)
    requires
        0 <= k < n <= gs.len(),
        forall|j: int| 0 <= j < n ==> (#[trigger] gs[j]).len() == 1,
        forall|j: int| k < j < n ==> (#[trigger] gs[j])[0].path != gs[k][0].path,
    ensures
        scan::tables(gs, n) matches Ok(t) && t.files.dom().contains(gs[k][0].path)
            && t.files[gs[k][0].path] == if gs[k][0].barred {
            Entry::Unextractable
        } else {
            Entry::Plain(
                RarFile {
                    data_offset: gs[k][0].at,
                    pack_size: gs[k][0].pack,
                    unpack_size: gs[k][0].unpack,
                    window: gs[k][0].window,
                    store: gs[k][0].method == 0,
                },
            )
        },
    decreases n,
{
    if k < n - 1 {
        lemma_alone(gs, n - 1, k);
    } else {
        lemma_tables(gs, n - 1);
    }
    assert(gs[n - 1].len() == 1);
}

proof fn lemma_tables(gs: Seq<Seq<Member>>, n: int)
    requires
        0 <= n <= gs.len(),
        forall|j: int| 0 <= j < n ==> (#[trigger] gs[j]).len() == 1,
    ensures
        scan::tables(gs, n) is Ok,
    decreases n,
{
    if n > 0 {
        lemma_tables(gs, n - 1);
        assert(gs[n - 1].len() == 1);
    }
}

/// Where no file is solid, each has a group of its own.
proof fn lemma_own_groups(a: Whole, n: int, len: int)
    requires
        0 <= n <= a.files.len(),
        forall|j: int| 0 <= j < n ==> !(#[trigger] a.files[j]).solid,
    ensures
        forall|j: int|
            0 <= j < groups_of(a, n, len).len() ==> (#[trigger] groups_of(a, n, len)[j]).len()
                == 1 && exists|i: int|
                0 <= i < n && groups_of(a, n, len)[j][0] == #[trigger] member_of(a, i, len),
    decreases n,
{
    if n > 0 {
        lemma_own_groups(a, n - 1, len);
        let gs = groups_of(a, n - 1, len);
        let hs = groups_of(a, n, len);
        assert(!a.files[n - 1].solid);
        assert forall|j: int| 0 <= j < hs.len() implies (#[trigger] hs[j]).len() == 1 && exists|
            i: int,
        |
            0 <= i < n && hs[j][0] == #[trigger] member_of(a, i, len) by {
            if j < gs.len() {
                assert(hs[j] == gs[j]);
                let i = choose|i: int|
                    0 <= i < n - 1 && gs[j][0] == #[trigger] member_of(a, i, len);
                assert(hs[j][0] == member_of(a, i, len));
            } else {
                assert(hs[j][0] == member_of(a, n - 1, len));
            }
        }
    }
}

/// The group of file `i`, and that later groups have other paths.
proof fn lemma_group_of(a: Whole, n: int, len: int, i: int) -> (k: int)
    requires
        0 <= i < n <= a.files.len(),
        forall|j: int| 0 <= j < n ==> !(#[trigger] a.files[j]).solid,
        !a.files[i].dir,
        path_of(a.files[i]) != seq!['/'],
        forall|j: int| i < j < n ==> path_of(#[trigger] a.files[j]) != path_of(a.files[i]),
    ensures
        ({
            let gs = groups_of(a, n, len);
            &&& 0 <= k < gs.len()
            &&& gs[k] == seq![member_of(a, i, len)]
            &&& forall|j: int| k < j < gs.len() ==> (#[trigger] gs[j])[0].path != path_of(a.files[i])
        }),
    decreases n,
{
    let gs = groups_of(a, n - 1, len);
    let hs = groups_of(a, n, len);
    assert(!a.files[n - 1].solid);
    if i == n - 1 {
        gs.len() as int
    } else {
        let k = lemma_group_of(a, n - 1, len, i);
        assert forall|j: int| k < j < hs.len() implies (#[trigger] hs[j])[0].path != path_of(
            a.files[i],
        ) by {
            if j < gs.len() {
                assert(hs[j] == gs[j]);
            } else {
                assert(hs[j][0].path == path_of(a.files[n - 1]));
            }
        }
        k
    }
}

/// Each file of an archive that is not solid is found at its own path: a stored one
/// reads as just its data, and one that is encrypted or goes over several volumes
/// cannot be read.
pub proof fn lemma_file_read(img: Seq<u8>, a: Whole, i: int)
    requires
        holds_archive(img, a),
        forall|j: int| 0 <= j < a.files.len() ==> !(#[trigger] a.files[j]).solid,
        0 <= i < a.files.len(),
        !a.files[i].dir,
        path_of(a.files[i]) != seq!['/'],
        forall|j: int| i < j < a.files.len() ==> path_of(#[trigger] a.files[j]) != path_of(a.files[i]),
    ensures
        scan::scanned(img) matches Ok(s) && {
            let p = path_of(a.files[i]);
            &&& s.tree == listing::built(items_of(a), a.files.len() as int)
            &&& s.tables.files.dom().contains(p)
            &&& barred(a, a.files[i]) ==> s.tables.files[p] == Entry::Unextractable
            &&& !barred(a, a.files[i]) ==> (s.tables.files[p] matches Entry::Plain(f) && {
                &&& f.store == (a.files[i].method == 0)
                &&& f.unpack_size == a.files[i].unpacked
                &&& img.subrange(f.data_offset as int, f.data_offset + f.pack_size) == a.files[i].data
                &&& f.store ==> plain_contents(img, f) == Ok::<Seq<u8>, Error>(a.files[i].data)
            })
        },
{
    let n = a.files.len() as int;
    let len = img.len() as int;
    let gs = groups_of(a, n, len);
    lemma_found(img, a);
    lemma_own_groups(a, n, len);
    let k = lemma_group_of(a, n, len, i);
    assert forall|j: int| 0 <= j < gs.len() implies (#[trigger] gs[j]).len() == 1 by {}
    lemma_alone(gs, gs.len() as int, k);
    assert(holds_slot(img, a, i));
}

/// Reading a file of an archive that is not solid by its path gives just its data
/// where it is stored, is refused where it is encrypted or goes over several volumes,
/// and leaves the archive as it was.
pub proof fn lemma_given(
    img: Seq<u8>,
    a: Whole,
    i: int,
    b: RarFs,
    c: RarFs,
    p: Seq<char>,
    r: Result<Seq<u8>>,
)
    requires
        holds_archive(img, a),
        forall|j: int| 0 <= j < a.files.len() ==> !(#[trigger] a.files[j]).solid,
        0 <= i < a.files.len(),
        !a.files[i].dir,
        path_of(a.files[i]) != seq!['/'],
        forall|j: int| i < j < a.files.len() ==> path_of(#[trigger] a.files[j]) != path_of(a.files[i]),
        scan::scanned(img) matches Ok(s) && b.tables() == s.tables,
        names::normal(p) == path_of(a.files[i]),
        file_given(b, c, img, p, r),
    ensures
        c == b,
        barred(a, a.files[i]) ==> r == Err::<Seq<u8>, Error>(Error::Unsupported),
        !barred(a, a.files[i]) && a.files[i].method == 0 ==> r == Ok::<Seq<u8>, Error>(
            a.files[i].data,
        ),
{
    lemma_file_read(img, a, i);
}

/// The members of a solid group lie one behind another in what its stream holds,
/// each as long as it unpacks to, and the stream is their data in order.
pub proof fn lemma_solid_group(t: Tables, ms: Seq<Member>, j: int)
    requires
        ms.len() >= 2,
        forall|i: int| 0 <= i < ms.len() ==> (#[trigger] ms[i]).method != 0 && !ms[i].barred,
        scan::before(ms, ms.len() as int) <= u64::MAX,
        0 <= j < ms.len(),
        forall|i: int| j < i < ms.len() ==> (#[trigger] ms[i]).path != ms[j].path,
        t.groups.len() <= usize::MAX,
        ms.len() <= usize::MAX,
    ensures
        t.with(ms) matches Ok(u) && {
            let g = u.groups.last();
            &&& u.groups.len() == t.groups.len() + 1
            &&& u.files.dom().contains(ms[j].path)
            &&& u.files[ms[j].path] == (Entry::Solid {
                group: t.groups.len() as usize,
                member: j as usize,
            })
            &&& g.starts[0] == 0
            &&& g.starts[j + 1] - g.starts[j] == ms[j].unpack
            &&& g.areas.len() == ms.len()
            &&& g.areas[j].offset == ms[j].at
            &&& g.areas[j].pack == ms[j].pack
        },
{
    let n = ms.len() as int;
    lemma_no_stray(ms, n);
    lemma_before(ms, j + 1, n);
    lemma_before(ms, j, n);
    lemma_kept(t.files, ms, n, j, Some(t.groups.len() as usize));
}

proof fn lemma_no_stray(ms: Seq<Member>, n: int)
    requires
        0 <= n <= ms.len(),
        forall|i: int| 0 <= i < ms.len() ==> (#[trigger] ms[i]).method != 0 && !ms[i].barred,
    ensures
        !scan::holds_stray(ms, n),
    decreases n,
{
    if n > 0 {
        lemma_no_stray(ms, n - 1);
        assert(ms[n - 1].method != 0);
    }
}

proof fn lemma_before(ms: Seq<Member>, i: int, n: int)
    requires
        0 <= i <= n,
    ensures
        0 <= scan::before(ms, i) <= scan::before(ms, n),
    decreases n,
{
    if i < n {
        lemma_before(ms, i, n - 1);
    } else if i > 0 {
        lemma_before(ms, i - 1, n - 1);
    }
}

proof fn lemma_kept(
    files: Map<Seq<char>, Entry>,
    ms: Seq<Member>,
    n: int,
    j: int,
    g: Option<usize>,
)
    requires
        0 <= j < n <= ms.len(),
        forall|i: int| j < i < n ==> (#[trigger] ms[i]).path != ms[j].path,
    ensures
        ({
            let m = scan::kept(files, ms, n, g);
            &&& m.dom().contains(ms[j].path)
            &&& m[ms[j].path] == match g {
                Some(i) => Entry::Solid { group: i, member: j as usize },
                None => Entry::Unextractable,
            }
        }),
    decreases n,
{
    if j < n - 1 {
        lemma_kept(files, ms, n - 1, j, g);
    }
}

/// The window grows twofold with its number from 128 kibibytes on, up to a limit of
/// 64 mebibytes, and is no larger than the device where that is larger than the
/// smallest window.
pub proof fn lemma_window(n: int, len: int)
    requires
        0 <= n < 16,
        0 <= len,
    ensures
        scan::asked_window(0) == 131072,
        scan::asked_window(n + 1) == 2 * scan::asked_window(n),
        scan::window_of(n, len) <= 0x400_0000,
        scan::window_of(n, len) >= 131072,
        scan::window_of(n, len) <= scan::asked_window(n),
        scan::window_of(n, len) <= len || scan::window_of(n, len) == 131072,
        scan::asked_window(n) <= 0x400_0000 && scan::asked_window(n) <= len ==> scan::window_of(
            n,
            len,
        ) == scan::asked_window(n),
{
    lemma_asked(n);
}

proof fn lemma_asked(n: int)
    requires
        0 <= n,
    ensures
        scan::asked_window(n) >= 131072,
    decreases n,
{
    if n > 0 {
        lemma_asked(n - 1);
    }
}

} // verus!
