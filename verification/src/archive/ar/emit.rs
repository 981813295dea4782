//! Writing `ar` archives in the GNU format.

use vstd::prelude::*;

use crate::archive::cpio::emit::{self, stored_name};
use crate::archive::fs::ArchiveBuilder;
use crate::archive::writer::{self, Cursor};
use crate::block::MemoryBackend;
use crate::bytes::{copy_all, push_all};
use crate::entry::{DeviceKind, FileMeta};
use crate::error::{Error, Result};
use crate::path::{self, split_path};
use crate::text;

verus! {

/// A member that waits to be written, as a mathematical value.
pub struct Waiting {
    pub name: Seq<char>,
    pub meta: FileMeta,
    pub data: Seq<u8>,
}

/// A member that waits to be written.
pub struct Member {
    pub name: String,
    pub meta: FileMeta,
    pub data: Vec<u8>,
}

impl View for Member {
    type V = Waiting;

    open spec fn view(&self) -> Waiting {
        Waiting { name: self.name@, meta: self.meta, data: self.data@ }
    }
}

/// A writer as a mathematical value.
pub struct ArW {
    /// Number of bytes written.
    pub pos: u64,
    pub members: Seq<Waiting>,
}

/// A writer. Members wait in memory: the table of long names goes in front of
/// them.
pub struct ArWriter {
    pub cursor: Cursor,
    pub members: Vec<Member>,
}

/// The views of a list of members.
pub open spec fn waiting(s: Seq<Member>) -> Seq<Waiting> {
    Seq::new(s.len(), |i: int| s[i]@)
}

impl View for ArWriter {
    type V = ArW;

    open spec fn view(&self) -> ArW {
        ArW { pos: self.cursor.pos, members: waiting(self.members@) }
    }
}

/// `n` to the base `radix`, as text.
pub open spec fn numeral(n: nat, radix: nat) -> Seq<u8>
    decreases n,
{
    if n < radix || radix < 2 {
        seq![(48 + n) as u8]
    } else {
        proof {
            assert(n / radix < n) by (nonlinear_arith)
                requires
                    radix >= 2,
                    n >= radix,
            ;
        }
        numeral(n / radix, radix).push((48 + n % radix) as u8)
    }
}

/// `b` in a field of `n` bytes: cut off, or filled up with blanks.
pub open spec fn in_field(b: Seq<u8>, n: int) -> Seq<u8> {
    Seq::new(
        n as nat,
        |i: int|
            if i < b.len() {
                b[i]
            } else {
                0x20u8
            },
    )
}

/// The header of a member of `len` bytes.
#[verifier::opaque]
pub open spec fn header(name: Seq<u8>, meta: FileMeta, len: nat) -> Seq<u8> {
    in_field(name, 16) + in_field(numeral(meta.mtime as nat, 10), 12) + in_field(
        numeral(meta.uid as nat, 10),
        6,
    ) + in_field(numeral(meta.gid as nat, 10), 6) + in_field(
        numeral((0x8000u32 | (meta.mode as u32)) as nat, 8),
        8,
    ) + in_field(numeral(len, 10), 10) + seq![0x60u8, 0x0a]
}

/// What fills a body up to an even length.
pub open spec fn filler(n: nat) -> Seq<u8> {
    if n % 2 == 1 {
        seq![0x0au8]
    } else {
        Seq::empty()
    }
}

/// The runs of a member.
pub open spec fn member_runs(name: Seq<u8>, meta: FileMeta, body: Seq<u8>) -> Seq<Seq<u8>> {
    seq![header(name, meta, body.len()), body, filler(body.len())]
}

/// Whether a name fits in a header.
pub open spec fn is_short(name: Seq<u8>) -> bool {
    name.len() <= 15 && !name.contains(0x20u8)
}

/// The table of long names of the first `n` members.
pub open spec fn table(ms: Seq<Waiting>, n: int) -> Seq<u8>
    decreases n,
{
    if n <= 0 {
        Seq::empty()
    } else {
        let b = text::utf8(ms[n - 1].name);
        if is_short(b) {
            table(ms, n - 1)
        } else {
            table(ms, n - 1) + b + seq![0x2fu8, 0x0a]
        }
    }
}

/// The name field of the `i`-th member.
pub open spec fn name_field(ms: Seq<Waiting>, i: int) -> Seq<u8> {
    let b = text::utf8(ms[i].name);
    if is_short(b) {
        b.push(0x2f)
    } else {
        seq![0x2fu8] + numeral(table(ms, i).len(), 10)
    }
}

/// The metadata of the table.
pub open spec fn no_meta() -> FileMeta {
    FileMeta { mode: 0, uid: 0, gid: 0, mtime: 0 }
}

/// The runs in front of the members: the magic, and the table of long names
/// where there is one.
pub open spec fn front_runs(ms: Seq<Waiting>) -> Seq<Seq<u8>> {
    let t = table(ms, ms.len() as int);
    if t.len() == 0 {
        seq![crate::archive::ar::scan::magic()]
    } else {
        seq![crate::archive::ar::scan::magic()] + member_runs(seq![0x2fu8, 0x2f], no_meta(), t)
    }
}

/// The device, the position and the outcome after the first `n` members were
/// written.
pub open spec fn members_written(img: Seq<u8>, pos: u64, ms: Seq<Waiting>, n: int) -> (
    Seq<u8>,
    u64,
    Result<()>,
)
    decreases n,
{
    if n <= 0 {
        (img, pos, Ok(()))
    } else {
        let (i, p, r) = members_written(img, pos, ms, n - 1);
        if r is Err {
            (i, p, r)
        } else {
            let m = ms[n - 1];
            writer::run_all(i, p, member_runs(name_field(ms, n - 1), m.meta, m.data))
        }
    }
}

proof fn lemma_members_err(img: Seq<u8>, pos: u64, ms: Seq<Waiting>, i: int, n: int)
    requires
        i <= n,
        members_written(img, pos, ms, i).2 is Err,
    ensures
        members_written(img, pos, ms, n) == members_written(img, pos, ms, i),
    decreases n - i,
{
    if i < n {
        lemma_members_err(img, pos, ms, i, n - 1);
    }
}

/// The writer, the device and the outcome after the archive was ended.
pub open spec fn ended(b: ArW, img: Seq<u8>) -> (ArW, Seq<u8>, Result<()>) {
    let (i, p, r) = writer::run_all(img, b.pos, front_runs(b.members));
    if r is Err {
        (ArW { pos: p, ..b }, i, r)
    } else {
        let (i2, p2, r2) = members_written(i, p, b.members, b.members.len() as int);
        (ArW { pos: p2, members: Seq::empty() }, i2, r2)
    }
}

/// `n` to the base `radix`, as text.
pub fn write_number(n: u64, radix: u64) -> (r: Vec<u8>)
    requires
        2 <= radix <= 10,
    ensures
        r@ == numeral(n as nat, radix as nat),
    decreases n,
{
    if n < radix {
        let mut v: Vec<u8> = Vec::new();
        v.push((48 + n) as u8);
        assert(v@ =~= seq![(48 + n) as u8]);
        v
    } else {
        proof {
            assert(n / radix < n) by (nonlinear_arith)
                requires
                    radix >= 2,
                    n >= radix,
            ;
        }
        let mut v = write_number(n / radix, radix);
        v.push((48 + n % radix) as u8);
        v
    }
}

fn push_field(h: &mut Vec<u8>, b: &[u8], n: usize)
    ensures
        final(h)@ == old(h)@ + in_field(b@, n as int),
{
    let ghost start = h@;
    let ghost f = in_field(b@, n as int);
    let mut i: usize = 0;
    proof {
        assert(start + f.take(0) =~= start);
    }
    while i < n
        invariant
            i <= n,
            f == in_field(b@, n as int),
            h@ == start + f.take(i as int),
        decreases n - i,
    {
        h.push(
            if i < b.len() {
                b[i]
            } else {
                0x20
            },
        );
        proof {
            assert((start + f.take(i as int)).push(f[i as int]) =~= start + f.take(i + 1));
        }
        i = i + 1;
    }
    proof {
        assert(f.take(n as int) =~= f);
    }
}

fn build_header(name: &[u8], meta: FileMeta, len: usize) -> (r: Vec<u8>)
    ensures
        r@ == header(name@, meta, len as nat),
{
    proof {
        reveal(header);
    }
    let mut h: Vec<u8> = Vec::new();
    push_field(&mut h, name, 16);
    proof {
        assert(h@ =~= in_field(name@, 16));
    }
    let t = write_number(meta.mtime as u64, 10);
    push_field(&mut h, t.as_slice(), 12);
    let t = write_number(meta.uid as u64, 10);
    push_field(&mut h, t.as_slice(), 6);
    let t = write_number(meta.gid as u64, 10);
    push_field(&mut h, t.as_slice(), 6);
    let t = write_number((0x8000u32 | (meta.mode as u32)) as u64, 8);
    push_field(&mut h, t.as_slice(), 8);
    let t = write_number(len as u64, 10);
    push_field(&mut h, t.as_slice(), 10);
    let ghost before = h@;
    h.push(0x60);
    h.push(0x0a);
    proof {
        assert(h@ =~= before + seq![0x60u8, 0x0a]);
    }
    h
}

fn build_runs(name: &[u8], meta: FileMeta, body: &[u8]) -> (r: Vec<Vec<u8>>)
    ensures
        writer::views(r@) == member_runs(name@, meta, body@),
{
    let mut out: Vec<Vec<u8>> = Vec::new();
    out.push(build_header(name, meta, body.len()));
    out.push(copy_all(body));
    let mut f: Vec<u8> = Vec::new();
    if body.len() % 2 == 1 {
        f.push(0x0a);
    }
    proof {
        assert(f@ =~= filler(body@.len()));
    }
    out.push(f);
    proof {
        assert(writer::views(out@) =~= member_runs(name@, meta, body@));
    }
    out
}

fn short(b: &[u8]) -> (r: bool)
    ensures
        r == is_short(b@),
{
    if b.len() > 15 {
        return false;
    }
    let mut i: usize = 0;
    while i < b.len()
        invariant
            i <= b@.len(),
            forall|k: int| 0 <= k < i ==> b@[k] != 0x20,
        decreases b@.len() - i,
    {
        if b[i] == 0x20 {
            return false;
        }
        i = i + 1;
    }
    true
}

/// The table of long names, and the name field of each member.
fn build_table(ms: &Vec<Member>) -> (r: (Vec<u8>, Vec<Vec<u8>>))
    ensures
        r.0@ == table(waiting(ms@), ms@.len() as int),
        r.1@.len() == ms@.len(),
        forall|i: int|
            0 <= i < ms@.len() ==> (#[trigger] r.1@[i])@ == name_field(waiting(ms@), i),
{
    let ghost w = waiting(ms@);
    let mut t: Vec<u8> = Vec::new();
    let mut fields: Vec<Vec<u8>> = Vec::new();
    let mut i: usize = 0;
    while i < ms.len()
        invariant
            i <= ms@.len(),
            w == waiting(ms@),
            t@ == table(w, i as int),
            fields@.len() == i,
            forall|k: int| 0 <= k < i ==> (#[trigger] fields@[k])@ == name_field(w, k),
        decreases ms@.len() - i,
    {
        let b = ms[i].name.as_str().as_bytes();
        proof {
            assert(w[i as int] == ms@[i as int]@);
        }
        if short(b) {
            let mut f = copy_all(b);
            f.push(0x2f);
            fields.push(f);
        } else {
            let mut f: Vec<u8> = Vec::new();
            f.push(0x2f);
            let d = write_number(t.len() as u64, 10);
            push_all(&mut f, d.as_slice());
            proof {
                assert(f@ =~= seq![0x2fu8] + numeral(t@.len(), 10));
            }
            fields.push(f);
            let ghost before = t@;
            push_all(&mut t, b);
            t.push(0x2f);
            t.push(0x0a);
            proof {
                assert(t@ =~= before + b@ + seq![0x2fu8, 0x0a]);
            }
        }
        i = i + 1;
    }
    (t, fields)
}

impl ArWriter {
    /// A writer at the start of the device.
    pub fn new() -> (r: Self)
        ensures
            r@ == (ArW { pos: 0, members: Seq::empty() }),
    {
        let r = ArWriter { cursor: Cursor::new(), members: Vec::new() };
        proof {
            assert(waiting(r.members@) =~= Seq::empty());
        }
        r
    }

    fn write_front(&mut self, dev: &mut MemoryBackend, t: &Vec<u8>) -> (r: Result<()>)
        requires
            t@ == table(old(self)@.members, old(self)@.members.len() as int),
        ensures
            final(self).members == old(self).members,
            (final(dev)@, final(self).cursor.pos, r) == writer::run_all(
                old(dev)@,
                old(self).cursor.pos,
                front_runs(old(self)@.members),
            ),
    {
        let m: [u8; 8] = [0x21, 0x3c, 0x61, 0x72, 0x63, 0x68, 0x3e, 0x0a];
        let mut runs: Vec<Vec<u8>> = Vec::new();
        let first = copy_all(m.as_slice());
        proof {
            assert(first@ =~= crate::archive::ar::scan::magic());
        }
        runs.push(first);
        if t.len() > 0 {
            let n: [u8; 2] = [0x2f, 0x2f];
            let none = FileMeta::with_mode(0);
            let more = build_runs(n.as_slice(), none, t.as_slice());
            proof {
                assert(n@ =~= seq![0x2fu8, 0x2f]);
                assert(writer::views(more@).len() == 3);
            }
            let ghost mv = writer::views(more@);
            runs.push(copy_all(more[0].as_slice()));
            runs.push(copy_all(more[1].as_slice()));
            runs.push(copy_all(more[2].as_slice()));
            proof {
                assert(mv[0] == more@[0]@ && mv[1] == more@[1]@ && mv[2] == more@[2]@);
                assert(writer::views(runs@) =~= seq![crate::archive::ar::scan::magic()] + mv);
            }
        } else {
            proof {
                assert(writer::views(runs@) =~= seq![crate::archive::ar::scan::magic()]);
            }
        }
        proof {
            assert(writer::views(runs@) == front_runs(self@.members));
        }
        self.cursor.write_all(dev, &runs)
    }
}

/// `ar` is flat: the name at `path`, which must not be in a directory.
fn flat_name(path: &str) -> (r: Result<String>)
    ensures
        match r {
            Ok(n) => path::parts(path@).len() <= 1 && n@ == emit::bare(path@),
            Err(e) => path::parts(path@).len() > 1 && e == Error::Unsupported,
        },
{
    let ps = split_path(path);
    if ps.len() > 1 {
        return Err(Error::Unsupported);
    }
    Ok(stored_name(path))
}

impl ArchiveBuilder for ArWriter {
    open spec fn file_added(
        b: ArW,
        img: Seq<u8>,
        path: Seq<char>,
        data: Seq<u8>,
        meta: FileMeta,
    ) -> (ArW, Seq<u8>, Result<()>) {
        if path::parts(path).len() > 1 {
            (b, img, Err(Error::Unsupported))
        } else {
            (
                ArW {
                    members: b.members.push(Waiting { name: emit::bare(path), meta, data }),
                    ..b
                },
                img,
                Ok(()),
            )
        }
    }

    open spec fn dir_added(b: ArW, img: Seq<u8>, path: Seq<char>, meta: FileMeta) -> (
        ArW,
        Seq<u8>,
        Result<()>,
    ) {
        (b, img, Ok(()))
    }

    open spec fn link_added(
        b: ArW,
        img: Seq<u8>,
        path: Seq<char>,
        target: Seq<char>,
        meta: FileMeta,
    ) -> (ArW, Seq<u8>, Result<()>) {
        (b, img, Err(Error::Unsupported))
    }

    open spec fn device_added(
        b: ArW,
        img: Seq<u8>,
        path: Seq<char>,
        kind: DeviceKind,
        major: u32,
        minor: u32,
        meta: FileMeta,
    ) -> (ArW, Seq<u8>, Result<()>) {
        (b, img, Err(Error::Unsupported))
    }

    open spec fn finished(b: ArW, img: Seq<u8>) -> (ArW, Seq<u8>, Result<()>) {
        ended(b, img)
    }

    open spec fn written(b: ArW) -> u64 {
        b.pos
    }

    fn add_file(&mut self, dev: &mut MemoryBackend, path: &str, data: &[u8], meta: FileMeta) -> (r:
        Result<()>) {
        let name = flat_name(path)?;
        let m = Member { name, meta, data: copy_all(data) };
        let ghost mv = m@;
        let ghost before = self.members@;
        self.members.push(m);
        proof {
            assert(waiting(self.members@) =~= waiting(before).push(mv));
        }
        Ok(())
    }

    fn add_dir(&mut self, dev: &mut MemoryBackend, path: &str, meta: FileMeta) -> (r: Result<()>) {
        Ok(())
    }

    fn add_symlink(
        &mut self,
        dev: &mut MemoryBackend,
        path: &str,
        target: &str,
        meta: FileMeta,
    ) -> (r: Result<()>) {
        Err(Error::Unsupported)
    }

    fn add_device(
        &mut self,
        dev: &mut MemoryBackend,
        path: &str,
        kind: DeviceKind,
        major: u32,
        minor: u32,
        meta: FileMeta,
    ) -> (r: Result<()>) {
        Err(Error::Unsupported)
    }

    fn finish(&mut self, dev: &mut MemoryBackend) -> (r: Result<()>) {
        let (t, fields) = build_table(&self.members);
        let ghost b = self@;
        let ghost img0 = dev@;
        self.write_front(dev, &t)?;
        let ghost img1 = dev@;
        let ghost pos1 = self.cursor.pos;
        let ghost ms = b.members;
        let mut members: Vec<Member> = Vec::new();
        core::mem::swap(&mut members, &mut self.members);
        proof {
            assert(waiting(self.members@) =~= Seq::empty());
        }
        let mut i: usize = 0;
        while i < members.len()
            invariant
                i <= members@.len(),
                ms == waiting(members@),
                fields@.len() == members@.len(),
                forall|k: int|
                    0 <= k < members@.len() ==> (#[trigger] fields@[k])@ == name_field(ms, k),
                self@.members == Seq::<Waiting>::empty(),
                (dev@, self.cursor.pos, Ok::<(), Error>(())) == members_written(
                    img1,
                    pos1,
                    ms,
                    i as int,
                ),
                b.members == ms,
                ended(b, img0) == ({
                    let (i2, p2, r2) = members_written(img1, pos1, ms, ms.len() as int);
                    (ArW { pos: p2, members: Seq::<Waiting>::empty() }, i2, r2)
                }),
                b == old(self)@,
                img0 == old(dev)@,
            decreases members@.len() - i,
        {
            proof {
                assert(ms[i as int] == members@[i as int]@);
            }
            let runs = build_runs(
                fields[i].as_slice(),
                members[i].meta,
                members[i].data.as_slice(),
            );
            let res = self.cursor.write_all(dev, &runs);
            if let Err(e) = res {
                proof {
                    lemma_members_err(img1, pos1, ms, i + 1, ms.len() as int);
                }
                return Err(e);
            }
            i = i + 1;
        }
        Ok(())
    }

    fn position(&self) -> (n: u64) {
        self.cursor.position()
    }
}

} // verus!
