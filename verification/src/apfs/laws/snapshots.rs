//! Checkpoints, volumes and snapshots: which of several is opened, and what is told
//! of them.

use vstd::prelude::*;

use crate::apfs::btree;
use crate::apfs::container::{self, Cont};
use crate::apfs::fs::{self, Fs, Mode, Snapshot, VolumeEntry};
use crate::apfs::jrec;
use crate::apfs::superblock;
use crate::apfs::volume::{self, Mounted};
use crate::block;
use crate::bytes;
use crate::error::Error;
use crate::text;


verus! {

// ---- containers ----

/// Every device that opens as a container is recognised as one, by the letters NXSB
/// behind the header of its first block.
pub proof fn lemma_recognised(img: Seq<u8>)
    ensures
        container::container(img) is Ok ==> fs::looks_like(img),
        fs::looks_like(img) ==> img.subrange(32, 36) == seq![0x4eu8, 0x58, 0x53, 0x42],
        img.len() >= 64 && img.subrange(32, 36) == seq![0x4eu8, 0x58, 0x53, 0x42]
            ==> fs::looks_like(img),
{
    reveal(bytes::get32);
    if container::container(img) is Ok {
        let head = img.subrange(0, 4096);
        assert(head[32] == img[32] && head[33] == img[33] && head[34] == img[34] && head[35]
            == img[35]);
    }
    if img.len() >= 64 {
        let m = img.subrange(32, 36);
        assert(m[0] == img[32] && m[1] == img[33] && m[2] == img[34] && m[3] == img[35]);
        if fs::looks_like(img) {
            assert(m =~= seq![0x4eu8, 0x58, 0x53, 0x42]);
        }
        if m == seq![0x4eu8, 0x58, 0x53, 0x42] {
            assert(m[0] == 0x4e && m[1] == 0x58 && m[2] == 0x53 && m[3] == 0x42);
        }
    }
}

// ---- checkpoints ----

/// The checkpoint that is opened is the newest: no superblock in the checkpoint
/// area that reached the device in full is of a later transaction than the one that
/// is taken, it is no older than that of block 0, and it is itself one of them, or
/// that of block 0 where they are all older.
pub proof fn lemma_newest(img: Seq<u8>, c: Cont)
    requires
        container::container(img) == Ok::<Cont, Error>(c),
    ensures
        ({
            let lab = container::label(img)->Ok_0;
            let n = bytes::get32(lab, 104) as int;
            &&& container::label(img) is Ok
            &&& c.xid() >= container::sb_xid(lab)
            &&& forall|i: int|
                0 <= i < n && #[trigger] container::slot_sb(img, lab, i) is Some
                    ==> container::sb_xid(container::slot_sb(img, lab, i).unwrap()) <= c.xid()
            &&& match c.slot {
                Some(i) => 0 <= i < n && container::slot_sb(img, lab, i) == Some(c.sb),
                None => c.sb == lab,
            }
        }),
{
    let lab = container::label(img)->Ok_0;
    lemma_latest(img, lab, bytes::get32(lab, 104) as int);
}

proof fn lemma_latest(img: Seq<u8>, lab: Seq<u8>, n: int)
    requires
        0 <= n,
    ensures
        match container::latest(img, lab, n) {
            Some((b, k)) => {
                &&& 0 <= k < n
                &&& container::slot_sb(img, lab, k) == Some(b)
                &&& container::sb_xid(b) >= container::sb_xid(lab)
                &&& forall|i: int|
                    0 <= i < n && #[trigger] container::slot_sb(img, lab, i) is Some
                        ==> container::sb_xid(container::slot_sb(img, lab, i).unwrap())
                        <= container::sb_xid(b)
            },
            None => forall|i: int|
                0 <= i < n && #[trigger] container::slot_sb(img, lab, i) is Some
                    ==> container::sb_xid(container::slot_sb(img, lab, i).unwrap())
                    < container::sb_xid(lab),
        },
    decreases n,
{
    if n > 0 {
        lemma_latest(img, lab, n - 1);
    }
}

// ---- volumes ----

/// What the list of volumes tells of a volume is what opening its slot gives: the
/// volumes stand in the order of their slots, none twice; and where the slot opens,
/// the volume has the name that was listed, and is not one that was listed as
/// encrypted.
pub proof fn lemma_listed_volume(img: Seq<u8>, k: int)
    requires
        fs::volumes(img) is Ok,
        0 <= k < fs::volumes(img)->Ok_0.len(),
    ensures
        ({
            let vs = fs::volumes(img)->Ok_0;
            let v = vs[k];
            &&& 0 <= v.index < 100
            &&& forall|j: int| 0 <= j < k ==> (#[trigger] vs[j]).index < v.index
            &&& fs::volume_in_slot(img, v.index) matches Ok(f) ==> {
                &&& f.name == v.name
                &&& !v.encrypted
                &&& f.mode matches Mode::Read(m) && m.index == v.index && m.name == v.name
            }
            &&& v.encrypted ==> fs::volume_in_slot(img, v.index) == Err::<Fs, Error>(
                Error::Unsupported,
            )
        }),
{
    let c = container::container(img)->Ok_0;
    lemma_volumes(img, c, 100, k);
}

proof fn lemma_volumes(img: Seq<u8>, c: Cont, n: int, k: int)
    requires
        0 <= n <= 100,
        fs::volumes_upto(img, c, n) is Ok,
        0 <= k < fs::volumes_upto(img, c, n)->Ok_0.len(),
    ensures
        ({
            let vs = fs::volumes_upto(img, c, n)->Ok_0;
            let v = vs[k];
            &&& 0 <= v.index < n
            &&& fs::volume_entry(img, c, v.index) == Ok::<Option<VolumeEntry>, Error>(Some(v))
            &&& forall|j: int| 0 <= j < k ==> (#[trigger] vs[j]).index < v.index
        }),
    decreases n,
{
    if n > 0 {
        let s = fs::volumes_upto(img, c, n - 1)->Ok_0;
        if k < s.len() {
            lemma_volumes(img, c, n - 1, k);
            assert forall|j: int| 0 <= j < k implies (#[trigger] fs::volumes_upto(
                img,
                c,
                n,
            )->Ok_0[j]).index < s[k].index by {
                assert(fs::volumes_upto(img, c, n)->Ok_0[j] == s[j]);
            }
        } else {
            assert forall|j: int| 0 <= j < k implies (#[trigger] fs::volumes_upto(
                img,
                c,
                n,
            )->Ok_0[j]).index < n - 1 by {
                lemma_volumes(img, c, n - 1, j);
                assert(fs::volumes_upto(img, c, n)->Ok_0[j] == s[j]);
            }
        }
    }
}

/// No volume is left out of the list: every slot whose object the object map knows,
/// and whose superblock is one, is in it.
pub proof fn lemma_volume_listed(img: Seq<u8>, c: Cont, n: int, i: int)
    requires
        0 <= i < n <= 100,
        fs::volumes_upto(img, c, n) is Ok,
        fs::volume_entry(img, c, i) matches Ok(Some(v)),
    ensures
        fs::volumes_upto(img, c, n)->Ok_0.contains(fs::volume_entry(img, c, i)->Ok_0.unwrap()),
    decreases n,
{
    let v = fs::volume_entry(img, c, i)->Ok_0.unwrap();
    let s = fs::volumes_upto(img, c, n - 1)->Ok_0;
    let t = fs::volumes_upto(img, c, n)->Ok_0;
    if i < n - 1 {
        lemma_volume_listed(img, c, n - 1, i);
        let k = choose|k: int| 0 <= k < s.len() && s[k] == v;
        assert(t[k] == v);
    } else {
        assert(t[s.len() as int] == v);
    }
}

// ---- snapshots ----

/// The record of a snapshot: its transaction, its name, the block of the volume
/// superblock, and when it was taken.
pub struct Taken {
    pub xid: u64,
    pub name: Seq<char>,
    pub sblock: u64,
    pub time: u64,
}

/// Whether the record `r` is that of the snapshot `t`: the key has the kind of such
/// records in its top 4 bits and the transaction below; the value has the block of
/// the superblock and the time at their places, the length of the name with its zero
/// byte, and the name.
pub open spec fn is_taken(r: (Seq<u8>, Seq<u8>), t: Taken) -> bool {
    let n = text::utf8(t.name);
    &&& t.xid < 0x1000_0000_0000_0000
    &&& r.0 == bytes::le64((0x1000_0000_0000_0000 + t.xid) as u64)
    &&& n.len() < 0xffff
    &&& forall|i: int| 0 <= i < n.len() ==> n[i] != 0
    &&& r.1.len() >= 50 + n.len() + 1
    &&& r.1.subrange(8, 16) == bytes::le64(t.sblock)
    &&& r.1.subrange(16, 24) == bytes::le64(t.time)
    &&& r.1.subrange(48, 50) == bytes::le16((n.len() + 1) as u16)
    &&& r.1.subrange(50, 51 + n.len() as int) == n.push(0)
}

/// The record of a snapshot tells its transaction, its name, its superblock and its
/// time.
pub proof fn lemma_taken(r: (Seq<u8>, Seq<u8>), t: Taken)
    requires
        is_taken(r, t),
    ensures
        fs::snapshot_of(r) == Some(
            Snapshot { xid: t.xid, name: t.name, sblock_paddr: t.sblock, create_time: t.time },
        ),
{
    let n = text::utf8(t.name);
    let w = (0x1000_0000_0000_0000 + t.xid) as u64;
    bytes::lemma_le_lens();
    bytes::lemma_get_le(0, 0, w);
    bytes::lemma_get_le((n.len() + 1) as u16, 0, t.sblock);
    bytes::lemma_get_le(0, 0, t.time);
    jrec::lemma_key_word(1, t.xid);
    assert(jrec::key_word(1, t.xid) == w);
    assert(bytes::le64(t.sblock).subrange(0, 8) =~= bytes::le64(t.sblock));
    bytes::lemma_get_agree(r.1, 8, bytes::le64(t.sblock), 0);
    assert(bytes::le64(t.time).subrange(0, 8) =~= bytes::le64(t.time));
    bytes::lemma_get_agree(r.1, 16, bytes::le64(t.time), 0);
    let k = bytes::le16((n.len() + 1) as u16);
    assert(k.subrange(0, 2) =~= k);
    bytes::lemma_get_agree(r.1, 48, k, 0);
    let v = r.1.subrange(50, 51 + n.len() as int);
    assert forall|i: int| 0 <= i < n.len() implies v[i] == n[i] by {
        assert(n.push(0)[i] == n[i]);
    }
    assert(v[n.len() as int] == 0);
    bytes::lemma_nul_pos(v, n.len() as int);
    assert(bytes::until_nul(v) =~= n);
    text::lemma_text_of_utf8(t.name);
}

/// Whether the leaf `b` holds the records of the snapshots `ts` and no others.
pub open spec fn holds_taken(b: Seq<u8>, ts: Seq<Taken>) -> bool {
    &&& btree::is_node(b)
    &&& btree::node_is_leaf(b)
    &&& btree::node_nkeys(b) == ts.len()
    &&& forall|i: int|
        0 <= i < ts.len() ==> (#[trigger] btree::entry(b, i, 0, 0) matches Ok(r) && is_taken(
            r,
            ts[i],
        ))
}

/// What is listed of the snapshot `t`.
pub open spec fn told(t: Taken) -> Snapshot {
    Snapshot { xid: t.xid, name: t.name, sblock_paddr: t.sblock, create_time: t.time }
}

proof fn lemma_leaf(b: Seq<u8>, ts: Seq<Taken>, n: int)
    requires
        holds_taken(b, ts),
        0 <= n <= ts.len(),
    ensures
        fs::snapshots_upto(b, n) == Ok::<Seq<Snapshot>, Error>(
            Seq::new(n as nat, |i: int| told(ts[i])),
        ),
    decreases n,
{
    if n > 0 {
        lemma_leaf(b, ts, n - 1);
        assert(btree::entry(b, n - 1, 0, 0) is Ok);
        lemma_taken(btree::entry(b, n - 1, 0, 0)->Ok_0, ts[n - 1]);
        assert(Seq::new((n - 1) as nat, |i: int| told(ts[i])).push(told(ts[n - 1])) =~= Seq::new(
            n as nat,
            |i: int| told(ts[i]),
        ));
    } else {
        assert(Seq::new(0, |i: int| told(ts[i])) =~= Seq::<Snapshot>::empty());
    }
}

/// The snapshots of a volume are listed in order, each with its own transaction,
/// name, superblock and time, and none is left out.
pub proof fn lemma_snapshots(m: Mounted, img: Seq<u8>, b: Seq<u8>, ts: Seq<Taken>)
    requires
        m.snap_meta != 0,
        block::block_at(img, m.bs as int, m.snap_meta) == Ok::<Seq<u8>, Error>(b),
        holds_taken(b, ts),
    ensures
        fs::snapshots(m, img) == Ok::<Seq<Snapshot>, Error>(
            Seq::new(ts.len(), |i: int| told(ts[i])),
        ),
{
    lemma_leaf(b, ts, ts.len() as int);
}

proof fn lemma_with_xid(s: Seq<Snapshot>, i: int, k: int)
    requires
        0 <= i <= k < s.len(),
        forall|j: int| 0 <= j < s.len() && j != k ==> (#[trigger] s[j]).xid != s[k].xid,
    ensures
        fs::with_xid(s, s[k].xid, i) == Some(k),
    decreases k - i,
{
    if i < k {
        lemma_with_xid(s, i + 1, k);
    }
}

proof fn lemma_with_name(s: Seq<Snapshot>, i: int, k: int)
    requires
        0 <= i <= k < s.len(),
        forall|j: int| 0 <= j < s.len() && j != k ==> (#[trigger] s[j]).name != s[k].name,
    ensures
        fs::with_name(s, s[k].name, i) == Some(k),
    decreases k - i,
{
    if i < k {
        lemma_with_name(s, i + 1, k);
    }
}

proof fn lemma_no_xid(s: Seq<Snapshot>, xid: u64, i: int)
    requires
        0 <= i,
        forall|j: int| 0 <= j < s.len() ==> (#[trigger] s[j]).xid != xid,
    ensures
        fs::with_xid(s, xid, i) is None,
    decreases s.len() - i,
{
    if i < s.len() {
        lemma_no_xid(s, xid, i + 1);
    }
}

proof fn lemma_no_name(s: Seq<Snapshot>, name: Seq<char>, i: int)
    requires
        0 <= i,
        forall|j: int| 0 <= j < s.len() ==> (#[trigger] s[j]).name != name,
    ensures
        fs::with_name(s, name, i) is None,
    decreases s.len() - i,
{
    if i < s.len() {
        lemma_no_name(s, name, i + 1);
    }
}

/// A snapshot of the list is opened by its transaction and by its name alike: from
/// its own superblock, at its own transaction, in the slot of the volume.
pub proof fn lemma_snapshot_opened(f: Fs, img: Seq<u8>, k: int)
    requires
        f.mounted() is Ok,
        f.snapshot_list(img) is Ok,
        0 <= k < f.snapshot_list(img)->Ok_0.len(),
        ({
            let s = f.snapshot_list(img)->Ok_0;
            forall|j: int| 0 <= j < s.len() && j != k ==> (#[trigger] s[j]).xid != s[k].xid
                && s[j].name != s[k].name
        }),
    ensures
        ({
            let s = f.snapshot_list(img)->Ok_0;
            let m = f.mounted()->Ok_0;
            let r = f.snapshot_by_xid(img, s[k].xid);
            &&& f.snapshot_by_name(img, s[k].name) == r
            &&& r matches Ok(g) ==> {
                &&& container::container(img) matches Ok(c) && volume::volume(
                    img,
                    c,
                    m.index,
                    Some((s[k].sblock_paddr, s[k].xid)),
                ) == g.mounted()
                &&& g.mode matches Mode::Read(n) && n.xid == s[k].xid && n.index == m.index
            }
        }),
{
    let s = f.snapshot_list(img)->Ok_0;
    lemma_with_xid(s, 0, k);
    lemma_with_name(s, 0, k);
}

/// A snapshot that is not in the list is refused, by its transaction and by its
/// name.
pub proof fn lemma_snapshot_unknown(f: Fs, img: Seq<u8>, xid: u64, name: Seq<char>)
    requires
        f.snapshot_list(img) is Ok,
        forall|j: int|
            0 <= j < f.snapshot_list(img)->Ok_0.len() ==> (#[trigger] f.snapshot_list(
                img,
            )->Ok_0[j]).xid != xid && f.snapshot_list(img)->Ok_0[j].name != name,
    ensures
        f.snapshot_by_xid(img, xid) == Err::<Fs, Error>(Error::InvalidArgument),
        f.snapshot_by_name(img, name) == Err::<Fs, Error>(Error::InvalidArgument),
{
    lemma_no_xid(f.snapshot_list(img)->Ok_0, xid, 0);
    lemma_no_name(f.snapshot_list(img)->Ok_0, name, 0);
}

/// A snapshot of what the volume is now is the volume: one that names the superblock
/// that the object map tells, and its transaction, opens as the volume does.
pub proof fn lemma_snapshot_of_now(img: Seq<u8>, c: Cont, index: int, p: u64)
    requires
        0 <= index < 100,
        container::volume_at(img, c.omap, c.xid(), superblock::nx_fs_oid(c.sb)[index]) == Ok::<
            Option<u64>,
            Error,
        >(Some(p)),
        volume::plain_apsb(img, c.bs(), p) is Ok,
    ensures
        volume::volume(
            img,
            c,
            index,
            Some((p, bytes::get64(volume::plain_apsb(img, c.bs(), p)->Ok_0, 16))),
        ) == volume::volume(img, c, index, None),
{
}

} // verus!
