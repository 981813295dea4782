//! Changing a list of records: directory entries, inode fields, attributes.

use vstd::prelude::*;
use vstd::slice::slice_subrange;

use crate::apfs::jrec::{
    self, split_obj_id, APFS_TYPE_DIR_REC, APFS_TYPE_DSTREAM_ID, APFS_TYPE_FILE_EXTENT,
    APFS_TYPE_INODE, APFS_TYPE_XATTR, INO_EXT_TYPE_DSTREAM,
};
use crate::apfs::pack::{self, Rec};
use crate::apfs::record::{self, FsRecord};
use crate::bytes::{
    self, copy_all, get_u16, get_u32, get_u64, put_u16, put_u32, put_u64, same_bytes,
};
use crate::num::{self, div_ceil};
use crate::text;

verus! {

/// Whether the key `k` has object id `oid` and kind `kind`.
pub open spec fn is_key_of(k: Seq<u8>, oid: u64, kind: u8) -> bool {
    jrec::key_oid(k) == oid && jrec::key_kind(k) == kind
}

/// Object id and kind of a key.
fn key_head(k: &Vec<u8>) -> (r: (u64, u8))
    requires
        k@.len() >= 8,
    ensures
        r == (jrec::key_oid(k@), jrec::key_kind(k@)),
{
    let (kind, oid) = split_obj_id(get_u64(k.as_slice(), 0));
    (oid, kind)
}

/// The records of `rs` for which `keep` holds.
pub open spec fn kept(rs: Seq<Rec>, keep: spec_fn(Seq<u8>) -> bool) -> Seq<Rec>
    decreases rs.len(),
{
    if rs.len() == 0 {
        rs
    } else {
        let s = kept(rs.drop_last(), keep);
        if keep(rs.last().0) {
            s.push(rs.last())
        } else {
            s
        }
    }
}

pub proof fn lemma_kept_keyed(rs: Seq<Rec>, keep: spec_fn(Seq<u8>) -> bool)
    requires
        pack::keyed(rs),
    ensures
        pack::keyed(kept(rs, keep)),
        kept(rs, keep).len() <= rs.len(),
    decreases rs.len(),
{
    if rs.len() > 0 {
        assert(pack::keyed(rs.drop_last()));
        lemma_kept_keyed(rs.drop_last(), keep);
        assert(rs.last() == rs[rs.len() - 1]);
    }
}

/// What is kept is exactly what was there and satisfies the condition.
pub proof fn lemma_kept_contains(rs: Seq<Rec>, keep: spec_fn(Seq<u8>) -> bool, r: Rec)
    ensures
        kept(rs, keep).contains(r) <==> rs.contains(r) && keep(r.0),
    decreases rs.len(),
{
    if rs.len() > 0 {
        let d = rs.drop_last();
        lemma_kept_contains(d, keep, r);
        let s = kept(d, keep);
        assert(rs =~= d.push(rs.last()));
        if rs.contains(r) {
            let i = choose|i: int| 0 <= i < rs.len() && rs[i] == r;
            if i < d.len() {
                assert(d[i] == r);
            }
        }
        if d.contains(r) {
            let i = choose|i: int| 0 <= i < d.len() && d[i] == r;
            assert(rs[i] == r);
        }
        let t = kept(rs, keep);
        if keep(rs.last().0) {
            assert(t == s.push(rs.last()));
            assert(t.last() == rs.last());
            if s.contains(r) {
                let i = choose|i: int| 0 <= i < s.len() && s[i] == r;
                assert(t[i] == r);
            }
            if t.contains(r) {
                let i = choose|i: int| 0 <= i < t.len() && t[i] == r;
                if i < s.len() {
                    assert(s[i] == r);
                }
            }
            if r == rs.last() {
                assert(t[t.len() - 1] == r);
                assert(rs[rs.len() - 1] == r);
            }
        } else if r == rs.last() {
            assert(rs[rs.len() - 1] == r);
        }
    }
}

// ---- inode fields ----

/// Index of the first inode record of object `oid` from `i` on.
pub open spec fn inode_index(rs: Seq<Rec>, oid: u64, i: int) -> Option<int>
    decreases rs.len() - i,
{
    if i >= rs.len() {
        None
    } else if is_key_of(rs[i].0, oid, APFS_TYPE_INODE) {
        Some(i)
    } else {
        inode_index(rs, oid, i + 1)
    }
}

/// `rs` with the value of the inode record of `oid` replaced by what `f` makes
/// of it; unchanged where there is none.
pub open spec fn patched(rs: Seq<Rec>, oid: u64, f: spec_fn(Seq<u8>) -> Seq<u8>) -> Seq<Rec> {
    match inode_index(rs, oid, 0) {
        None => rs,
        Some(i) => rs.update(i, (rs[i].0, f(rs[i].1))),
    }
}

/// Index of the inode record of `oid`.
fn find_inode(records: &Vec<FsRecord>, oid: u64) -> (r: Option<usize>)
    requires
        pack::keyed(record::recs(records@)),
    ensures
        match r {
            Some(i) => i < records@.len() && inode_index(record::recs(records@), oid, 0) == Some(
                i as int,
            ),
            None => inode_index(record::recs(records@), oid, 0) is None,
        },
{
    let ghost rs = record::recs(records@);
    let mut i: usize = 0;
    while i < records.len()
        invariant
            rs == record::recs(records@),
            pack::keyed(rs),
            i <= records@.len(),
            inode_index(rs, oid, 0) == inode_index(rs, oid, i as int),
        decreases records@.len() - i,
    {
        assert(rs[i as int] == records@[i as int]@);
        let (o, k) = key_head(&records[i].key);
        if o == oid && k == APFS_TYPE_INODE {
            return Some(i);
        }
        i = i + 1;
    }
    None
}

/// Replace the value of record `i`.
fn set_value(records: &mut Vec<FsRecord>, i: usize, val: Vec<u8>)
    requires
        i < old(records)@.len(),
    ensures
        record::recs(final(records)@) == record::recs(old(records)@).update(
            i as int,
            (record::recs(old(records)@)[i as int].0, val@),
        ),
{
    let ghost before = record::recs(records@);
    let key = copy_all(records[i].key.as_slice());
    let ghost kv = (key@, val@);
    records.set(i, FsRecord { key, val });
    proof {
        assert(record::recs(records@) =~= before.update(i as int, kv));
    }
}

/// Which fields of an inode change, and to what; times are in nanoseconds.
#[derive(Clone, Copy, Debug, PartialEq, Eq, Structural)]
pub struct InodePatch {
    pub mode: Option<u16>,
    pub owner: Option<u32>,
    pub group: Option<u32>,
    pub mtime: Option<u64>,
    pub ctime: Option<u64>,
    pub atime: Option<u64>,
}

/// `v` with the 64-bit field at `off` set, where there is a value for it.
pub open spec fn set64(v: Seq<u8>, off: int, x: Option<u64>) -> Seq<u8> {
    match x {
        Some(n) => bytes::put(v, off, bytes::le64(n)),
        None => v,
    }
}

/// `v` with the 32-bit field at `off` set, where there is a value for it.
pub open spec fn set32(v: Seq<u8>, off: int, x: Option<u32>) -> Seq<u8> {
    match x {
        Some(n) => bytes::put(v, off, bytes::le32(n)),
        None => v,
    }
}

/// The permission bits of `new` with the type bits of `old_mode`.
pub open spec fn remode(old_mode: u16, new: u16) -> u16 {
    (record::type_bits(old_mode) + new % 0x1000) as u16
}

impl InodePatch {
    /// The inode value `v` with the changes made. A value that is too short is
    /// left alone.
    pub open spec fn apply(self, v: Seq<u8>) -> Seq<u8> {
        if v.len() < 92 {
            v
        } else {
            let a = match self.mode {
                Some(m) => bytes::put(v, 80, bytes::le16(remode(bytes::get16(v, 80), m))),
                None => v,
            };
            let a = set32(a, 72, self.owner);
            let a = set32(a, 76, self.group);
            let a = set64(a, 24, self.mtime);
            let a = set64(a, 32, self.ctime);
            set64(a, 40, self.atime)
        }
    }
}

/// Change fields of the inode of object `oid`.
pub fn patch_inode_record(records: &mut Vec<FsRecord>, oid: u64, p: &InodePatch)
    requires
        pack::keyed(record::recs(old(records)@)),
    ensures
        record::recs(final(records)@) == patched(
            record::recs(old(records)@),
            oid,
            |v: Seq<u8>| p.apply(v),
        ),
        pack::keyed(record::recs(final(records)@)),
{
    broadcast use bytes::lemma_put_len;

    let ghost rs = record::recs(records@);
    if let Some(i) = find_inode(records, oid) {
        let mut v = copy_all(records[i].val.as_slice());
        let ghost v0 = v@;
        assert(rs[i as int].1 == v0);
        if v.len() >= 92 {
            if let Some(m) = p.mode {
                let cur: u16 = get_u16(v.as_slice(), 80);
                put_u16(&mut v, 80, (cur - cur % 0x1000) + m % 0x1000);
            }
            if let Some(x) = p.owner {
                put_u32(&mut v, 72, x);
            }
            if let Some(x) = p.group {
                put_u32(&mut v, 76, x);
            }
            if let Some(x) = p.mtime {
                put_u64(&mut v, 24, x);
            }
            if let Some(x) = p.ctime {
                put_u64(&mut v, 32, x);
            }
            if let Some(x) = p.atime {
                put_u64(&mut v, 40, x);
            }
        }
        proof {
            assert(v@ == p.apply(v0));
        }
        set_value(records, i, v);
    }
}

/// A link count as a signed number.
pub open spec fn signed32(u: u32) -> int {
    if u >= 0x8000_0000 {
        u - 0x1_0000_0000
    } else {
        u as int
    }
}

/// The inode value `v` with one more link or child; the count wraps.
pub open spec fn more_links(v: Seq<u8>) -> Seq<u8> {
    if v.len() < 92 {
        v
    } else {
        bytes::put(v, 56, bytes::le32(((bytes::get32(v, 56) + 1) % 0x1_0000_0000) as u32))
    }
}

/// The inode value `v` with one link or child less; the count wraps.
pub open spec fn fewer_links(v: Seq<u8>) -> Seq<u8> {
    if v.len() < 92 {
        v
    } else {
        bytes::put(
            v,
            56,
            bytes::le32(((bytes::get32(v, 56) + 0xffff_ffff) % 0x1_0000_0000) as u32),
        )
    }
}

/// The inode value `v` with one link less, but never less than the smallest
/// number.
pub open spec fn unlinked(v: Seq<u8>) -> Seq<u8> {
    if v.len() < 92 || bytes::get32(v, 56) == 0x8000_0000 {
        v
    } else {
        fewer_links(v)
    }
}

/// Whether no link is left after one of the inode value `v` was taken away.
pub open spec fn was_last_link(v: Seq<u8>) -> bool {
    v.len() >= 92 && signed32(bytes::get32(v, 56)) <= 1
}

/// Count one link or child more of object `oid`.
pub fn add_link(records: &mut Vec<FsRecord>, oid: u64)
    requires
        pack::keyed(record::recs(old(records)@)),
    ensures
        record::recs(final(records)@) == patched(
            record::recs(old(records)@),
            oid,
            |v: Seq<u8>| more_links(v),
        ),
        pack::keyed(record::recs(final(records)@)),
{
    let ghost rs = record::recs(records@);
    if let Some(i) = find_inode(records, oid) {
        let mut v = copy_all(records[i].val.as_slice());
        assert(rs[i as int].1 == v@);
        if v.len() >= 92 {
            let n: u64 = get_u32(v.as_slice(), 56) as u64;
            put_u32(&mut v, 56, ((n + 1) % 0x1_0000_0000) as u32);
        }
        set_value(records, i, v);
    }
}

/// Count one link or child less of object `oid`.
pub fn drop_link(records: &mut Vec<FsRecord>, oid: u64)
    requires
        pack::keyed(record::recs(old(records)@)),
    ensures
        record::recs(final(records)@) == patched(
            record::recs(old(records)@),
            oid,
            |v: Seq<u8>| fewer_links(v),
        ),
        pack::keyed(record::recs(final(records)@)),
{
    let ghost rs = record::recs(records@);
    if let Some(i) = find_inode(records, oid) {
        let mut v = copy_all(records[i].val.as_slice());
        assert(rs[i as int].1 == v@);
        if v.len() >= 92 {
            let n: u64 = get_u32(v.as_slice(), 56) as u64;
            put_u32(&mut v, 56, ((n + 0xffff_ffff) % 0x1_0000_0000) as u32);
        }
        set_value(records, i, v);
    }
}

/// Whether the inode of `oid` has no link left after one is taken away.
pub open spec fn last_link(rs: Seq<Rec>, oid: u64) -> bool {
    match inode_index(rs, oid, 0) {
        None => false,
        Some(i) => was_last_link(rs[i].1),
    }
}

/// Take one link of object `oid` away; tells whether it was the last one.
pub fn unlink_inode(records: &mut Vec<FsRecord>, oid: u64) -> (last: bool)
    requires
        pack::keyed(record::recs(old(records)@)),
    ensures
        record::recs(final(records)@) == patched(
            record::recs(old(records)@),
            oid,
            |v: Seq<u8>| unlinked(v),
        ),
        pack::keyed(record::recs(final(records)@)),
        last == last_link(record::recs(old(records)@), oid),
{
    let ghost rs = record::recs(records@);
    let mut last = false;
    if let Some(i) = find_inode(records, oid) {
        let mut v = copy_all(records[i].val.as_slice());
        assert(rs[i as int].1 == v@);
        if v.len() >= 92 {
            let n: u64 = get_u32(v.as_slice(), 56) as u64;
            if n != 0x8000_0000 {
                put_u32(&mut v, 56, ((n + 0xffff_ffff) % 0x1_0000_0000) as u32);
            }
            last = n >= 0x8000_0000 || n <= 1;
        }
        set_value(records, i, v);
    }
    last
}

/// The inode value `v` with the parent set.
pub open spec fn reparented(v: Seq<u8>, parent: u64) -> Seq<u8> {
    if v.len() < 8 {
        v
    } else {
        bytes::put(v, 0, bytes::le64(parent))
    }
}

/// Set the parent of object `oid`.
pub fn set_parent(records: &mut Vec<FsRecord>, oid: u64, parent: u64)
    requires
        pack::keyed(record::recs(old(records)@)),
    ensures
        record::recs(final(records)@) == patched(
            record::recs(old(records)@),
            oid,
            |v: Seq<u8>| reparented(v, parent),
        ),
        pack::keyed(record::recs(final(records)@)),
{
    let ghost rs = record::recs(records@);
    if let Some(i) = find_inode(records, oid) {
        let mut v = copy_all(records[i].val.as_slice());
        assert(rs[i as int].1 == v@);
        if v.len() >= 8 {
            put_u64(&mut v, 0, parent);
        }
        set_value(records, i, v);
    }
}

// ---- directory entries ----

/// Whether the key `k` is the plain directory key of `name`, given as bytes, in
/// directory `parent`.
pub open spec fn is_drec_of(k: Seq<u8>, parent: u64, name: Seq<u8>) -> bool {
    let n = bytes::get16(k, 8);
    &&& k.len() >= 10
    &&& is_key_of(k, parent, APFS_TYPE_DIR_REC)
    &&& n > 0
    &&& 10 + n <= k.len()
    &&& k.subrange(10, 10 + n - 1) == name
}

fn matches_drec(k: &Vec<u8>, parent: u64, name: &[u8]) -> (r: bool)
    requires
        k@.len() >= 8,
    ensures
        r == is_drec_of(k@, parent, name@),
{
    if k.len() < 10 {
        return false;
    }
    let (oid, kind) = key_head(k);
    if oid != parent || kind != APFS_TYPE_DIR_REC {
        return false;
    }
    let n: usize = get_u16(k.as_slice(), 8) as usize;
    if n > k.len() - 10 || n == 0 {
        return false;
    }
    same_bytes(slice_subrange(k.as_slice(), 10, 10 + n - 1), name)
}

/// Target and type code of the first directory record from `i` on for `name` in
/// `parent`. A record with a short value hides those behind it.
pub open spec fn drec_from(rs: Seq<Rec>, parent: u64, name: Seq<u8>, i: int) -> Option<(u64, u16)>
    decreases rs.len() - i,
{
    if i >= rs.len() {
        None
    } else if is_drec_of(rs[i].0, parent, name) {
        if rs[i].1.len() < 18 {
            None
        } else {
            Some((bytes::get64(rs[i].1, 0), bytes::get16(rs[i].1, 16)))
        }
    } else {
        drec_from(rs, parent, name, i + 1)
    }
}

/// Target and type code of the entry `name` of directory `parent`.
pub open spec fn drec(rs: Seq<Rec>, parent: u64, name: Seq<char>) -> Option<(u64, u16)> {
    drec_from(rs, parent, text::utf8(name), 0)
}

/// Find the entry `name` of directory `parent_oid`.
pub fn find_drec(records: &Vec<FsRecord>, parent_oid: u64, name: &str) -> (r: Option<(u64, u16)>)
    requires
        pack::keyed(record::recs(records@)),
    ensures
        r == drec(record::recs(records@), parent_oid, name@),
{
    let ghost rs = record::recs(records@);
    let ghost nb = text::utf8(name@);
    let b = name.as_bytes();
    let mut i: usize = 0;
    while i < records.len()
        invariant
            rs == record::recs(records@),
            pack::keyed(rs),
            nb == b@,
            nb == text::utf8(name@),
            i <= records@.len(),
            drec_from(rs, parent_oid, nb, 0) == drec_from(rs, parent_oid, nb, i as int),
        decreases records@.len() - i,
    {
        assert(rs[i as int] == records@[i as int]@);
        if matches_drec(&records[i].key, parent_oid, b) {
            let v = records[i].val.as_slice();
            if v.len() < 18 {
                return None;
            }
            return Some((get_u64(v, 0), get_u16(v, 16)));
        }
        i = i + 1;
    }
    None
}

/// `rs` without the entry `name` of directory `parent`.
pub open spec fn without_drec(rs: Seq<Rec>, parent: u64, name: Seq<char>) -> Seq<Rec> {
    kept(rs, |k: Seq<u8>| !is_drec_of(k, parent, text::utf8(name)))
}

/// Remove the entry `name` of directory `parent_oid`.
pub fn remove_drec(records: &mut Vec<FsRecord>, parent_oid: u64, name: &str)
    requires
        pack::keyed(record::recs(old(records)@)),
    ensures
        record::recs(final(records)@) == without_drec(
            record::recs(old(records)@),
            parent_oid,
            name@,
        ),
        pack::keyed(record::recs(final(records)@)),
{
    let ghost rs = record::recs(records@);
    let ghost keep = |k: Seq<u8>| !is_drec_of(k, parent_oid, text::utf8(name@));
    let b = name.as_bytes();
    let mut out: Vec<FsRecord> = Vec::new();
    let mut i: usize = 0;
    proof {
        assert(rs.take(0) =~= Seq::empty());
        assert(record::recs(out@) =~= kept(rs.take(0), keep));
    }
    while i < records.len()
        invariant
            rs == record::recs(records@),
            pack::keyed(rs),
            b@ == text::utf8(name@),
            keep == (|k: Seq<u8>| !is_drec_of(k, parent_oid, text::utf8(name@))),
            i <= records@.len(),
            record::recs(out@) == kept(rs.take(i as int), keep),
        decreases records@.len() - i,
    {
        assert(rs[i as int] == records@[i as int]@);
        let drop = matches_drec(&records[i].key, parent_oid, b);
        keep_if(records, i, !drop, &mut out, Ghost(keep));
        i = i + 1;
    }
    proof {
        assert(rs.take(i as int) =~= rs);
        lemma_kept_keyed(rs, keep);
    }
    *records = out;
}

/// Append a copy of record `i` where it is kept.
fn keep_if(
    records: &Vec<FsRecord>,
    i: usize,
    keeps: bool,
    out: &mut Vec<FsRecord>,
    Ghost(keep): Ghost<spec_fn(Seq<u8>) -> bool>,
)
    requires
        i < records@.len(),
        keeps == keep(records@[i as int]@.0),
        record::recs(old(out)@) == kept(record::recs(records@).take(i as int), keep),
    ensures
        record::recs(final(out)@) == kept(record::recs(records@).take(i + 1), keep),
{
    let ghost rs = record::recs(records@);
    let ghost before = out@;
    proof {
        assert(rs.take(i + 1).drop_last() =~= rs.take(i as int));
        assert(rs.take(i + 1).last() == records@[i as int]@);
    }
    if keeps {
        let c = pack::copy_record(&records[i]);
        let ghost cv = c@;
        out.push(c);
        proof {
            assert(record::recs(out@) =~= record::recs(before).push(cv));
        }
    }
}

/// Number of entries of directory `dir`.
pub open spec fn drec_count(rs: Seq<Rec>, dir: u64) -> int
    decreases rs.len(),
{
    if rs.len() == 0 {
        0
    } else {
        drec_count(rs.drop_last(), dir) + if is_key_of(rs.last().0, dir, APFS_TYPE_DIR_REC) {
            1int
        } else {
            0
        }
    }
}

/// Count the entries of directory `parent_oid`.
pub fn drec_count_for(records: &Vec<FsRecord>, parent_oid: u64) -> (n: usize)
    requires
        pack::keyed(record::recs(records@)),
    ensures
        n == drec_count(record::recs(records@), parent_oid),
{
    let ghost rs = record::recs(records@);
    let mut n: usize = 0;
    let mut i: usize = 0;
    proof {
        assert(rs.take(0) =~= Seq::empty());
    }
    while i < records.len()
        invariant
            rs == record::recs(records@),
            pack::keyed(rs),
            i <= records@.len(),
            n <= i,
            n == drec_count(rs.take(i as int), parent_oid),
        decreases records@.len() - i,
    {
        assert(rs[i as int] == records@[i as int]@);
        proof {
            assert(rs.take(i + 1).drop_last() =~= rs.take(i as int));
        }
        let (o, k) = key_head(&records[i].key);
        if o == parent_oid && k == APFS_TYPE_DIR_REC {
            n = n + 1;
        }
        i = i + 1;
    }
    proof {
        assert(rs.take(i as int) =~= rs);
    }
    n
}

// ---- whole objects ----

/// `rs` without any record of object `oid`.
pub open spec fn without_object(rs: Seq<Rec>, oid: u64) -> Seq<Rec> {
    kept(rs, |k: Seq<u8>| jrec::key_oid(k) != oid)
}

/// Remove every record of object `oid`.
pub fn remove_all_records_for_oid(records: &mut Vec<FsRecord>, oid: u64)
    requires
        pack::keyed(record::recs(old(records)@)),
    ensures
        record::recs(final(records)@) == without_object(record::recs(old(records)@), oid),
        pack::keyed(record::recs(final(records)@)),
{
    let ghost rs = record::recs(records@);
    let ghost keep = |k: Seq<u8>| jrec::key_oid(k) != oid;
    let mut out: Vec<FsRecord> = Vec::new();
    let mut i: usize = 0;
    proof {
        assert(rs.take(0) =~= Seq::empty());
        assert(record::recs(out@) =~= kept(rs.take(0), keep));
    }
    while i < records.len()
        invariant
            rs == record::recs(records@),
            pack::keyed(rs),
            keep == (|k: Seq<u8>| jrec::key_oid(k) != oid),
            i <= records@.len(),
            record::recs(out@) == kept(rs.take(i as int), keep),
        decreases records@.len() - i,
    {
        assert(rs[i as int] == records@[i as int]@);
        let (o, _) = key_head(&records[i].key);
        keep_if(records, i, o != oid, &mut out, Ghost(keep));
        i = i + 1;
    }
    proof {
        assert(rs.take(i as int) =~= rs);
        lemma_kept_keyed(rs, keep);
    }
    *records = out;
}

/// `rs` without the contents records of object `oid`.
pub open spec fn without_stream(rs: Seq<Rec>, oid: u64) -> Seq<Rec> {
    kept(
        rs,
        |k: Seq<u8>|
            !(is_key_of(k, oid, APFS_TYPE_FILE_EXTENT) || is_key_of(k, oid, APFS_TYPE_DSTREAM_ID)),
    )
}

/// Remove the contents records of object `oid`.
pub fn remove_stream_records(records: &mut Vec<FsRecord>, oid: u64)
    requires
        pack::keyed(record::recs(old(records)@)),
    ensures
        record::recs(final(records)@) == without_stream(record::recs(old(records)@), oid),
        pack::keyed(record::recs(final(records)@)),
{
    let ghost rs = record::recs(records@);
    let ghost keep = |k: Seq<u8>|
        !(is_key_of(k, oid, APFS_TYPE_FILE_EXTENT) || is_key_of(k, oid, APFS_TYPE_DSTREAM_ID));
    let mut out: Vec<FsRecord> = Vec::new();
    let mut i: usize = 0;
    proof {
        assert(rs.take(0) =~= Seq::empty());
        assert(record::recs(out@) =~= kept(rs.take(0), keep));
    }
    while i < records.len()
        invariant
            rs == record::recs(records@),
            pack::keyed(rs),
            keep == (|k: Seq<u8>|
                !(is_key_of(k, oid, APFS_TYPE_FILE_EXTENT) || is_key_of(
                    k,
                    oid,
                    APFS_TYPE_DSTREAM_ID,
                ))),
            i <= records@.len(),
            record::recs(out@) == kept(rs.take(i as int), keep),
        decreases records@.len() - i,
    {
        assert(rs[i as int] == records@[i as int]@);
        let (o, k) = key_head(&records[i].key);
        let drop = o == oid && (k == APFS_TYPE_FILE_EXTENT || k == APFS_TYPE_DSTREAM_ID);
        keep_if(records, i, !drop, &mut out, Ghost(keep));
        i = i + 1;
    }
    proof {
        assert(rs.take(i as int) =~= rs);
        lemma_kept_keyed(rs, keep);
    }
    *records = out;
}

// ---- extended attributes ----

/// Whether the key `k` is that of the attribute `name`, given as bytes, of
/// object `oid`.
pub open spec fn is_xattr_of(k: Seq<u8>, oid: u64, name: Seq<u8>) -> bool {
    &&& k.len() >= 11 + name.len()
    &&& is_key_of(k, oid, APFS_TYPE_XATTR)
    &&& k.subrange(10, 10 + name.len() as int) == name
    &&& k[10 + name.len() as int] == 0
}

/// `rs` without the attribute `name` of object `oid`.
pub open spec fn without_xattr(rs: Seq<Rec>, oid: u64, name: Seq<char>) -> Seq<Rec> {
    kept(rs, |k: Seq<u8>| !is_xattr_of(k, oid, text::utf8(name)))
}

fn matches_xattr(k: &Vec<u8>, oid: u64, name: &[u8]) -> (r: bool)
    requires
        k@.len() >= 8,
    ensures
        r == is_xattr_of(k@, oid, name@),
{
    if k.len() < 11 || name.len() > k.len() - 11 {
        return false;
    }
    let (o, kind) = key_head(k);
    if o != oid || kind != APFS_TYPE_XATTR {
        return false;
    }
    same_bytes(slice_subrange(k.as_slice(), 10, 10 + name.len()), name) && k[10 + name.len()] == 0
}

/// Remove the attribute `name` of object `oid`.
pub fn remove_xattr_record(records: &mut Vec<FsRecord>, oid: u64, name: &str)
    requires
        pack::keyed(record::recs(old(records)@)),
    ensures
        record::recs(final(records)@) == without_xattr(record::recs(old(records)@), oid, name@),
        pack::keyed(record::recs(final(records)@)),
{
    let ghost rs = record::recs(records@);
    let ghost keep = |k: Seq<u8>| !is_xattr_of(k, oid, text::utf8(name@));
    let b = name.as_bytes();
    let mut out: Vec<FsRecord> = Vec::new();
    let mut i: usize = 0;
    proof {
        assert(rs.take(0) =~= Seq::empty());
        assert(record::recs(out@) =~= kept(rs.take(0), keep));
    }
    while i < records.len()
        invariant
            rs == record::recs(records@),
            pack::keyed(rs),
            b@ == text::utf8(name@),
            keep == (|k: Seq<u8>| !is_xattr_of(k, oid, text::utf8(name@))),
            i <= records@.len(),
            record::recs(out@) == kept(rs.take(i as int), keep),
        decreases records@.len() - i,
    {
        assert(rs[i as int] == records@[i as int]@);
        let drop = matches_xattr(&records[i].key, oid, b);
        keep_if(records, i, !drop, &mut out, Ghost(keep));
        i = i + 1;
    }
    proof {
        assert(rs.take(i as int) =~= rs);
        lemma_kept_keyed(rs, keep);
    }
    *records = out;
}

// ---- length of contents ----

/// Offset, inside the extended fields `x`, of the value of the field `i` of
/// `n`, whose sizes are rounded up to eight; `None` where a field before it
/// reaches past the end.
pub open spec fn field_offset(x: Seq<u8>, n: int, i: int) -> Option<int>
    decreases i,
{
    if i <= 0 {
        Some(4 + 4 * n)
    } else {
        match field_offset(x, n, i - 1) {
            None => None,
            Some(o) => {
                let size = bytes::get16(x, 4 + 4 * (i - 1) + 2);
                let next = o + (size + 7) / 8 * 8;
                if next > x.len() {
                    None
                } else {
                    Some(next)
                }
            },
        }
    }
}

/// Offset of the value of the first data-stream field from `i` on.
pub open spec fn stream_offset(x: Seq<u8>, n: int, i: int) -> Option<int>
    decreases n - i,
{
    if i >= n {
        None
    } else {
        match field_offset(x, n, i) {
            None => None,
            Some(o) => if x[4 + 4 * i] == INO_EXT_TYPE_DSTREAM && bytes::get16(
                x,
                4 + 4 * i + 2,
            ) >= 16 {
                Some(o)
            } else {
                stream_offset(x, n, i + 1)
            },
        }
    }
}

/// The inode value `v` with its length, and that of its data stream, set to
/// `size`; the allocated length is rounded up to whole blocks of `bs` bytes.
pub open spec fn resized(v: Seq<u8>, size: u64, bs: u64) -> Seq<u8> {
    if v.len() < 92 {
        v
    } else {
        let a = bytes::put(v, 84, bytes::le64(size));
        let x = v.subrange(92, v.len() as int);
        let n = bytes::get16(x, 0) as int;
        if x.len() < 4 || x.len() < 4 + 4 * n {
            a
        } else {
            match stream_offset(x, n, 0) {
                None => a,
                Some(o) => if o + 16 > x.len() {
                    a
                } else {
                    let b = bytes::put(a, 92 + o, bytes::le64(size));
                    bytes::put(
                        b,
                        100 + o,
                        bytes::le64((num::div_up(size as int, bs as int) * bs) as u64),
                    )
                },
            }
        }
    }
}

/// Find the value of the data-stream field in the inode value `v`.
fn find_stream_field(v: &Vec<u8>) -> (r: Option<usize>)
    requires
        v@.len() >= 92,
    ensures
        ({
            let x = v@.subrange(92, v@.len() as int);
            let n = bytes::get16(x, 0) as int;
            match r {
                Some(p) => {
                    &&& 92 <= p
                    &&& p + 16 <= v@.len()
                    &&& x.len() >= 4
                    &&& x.len() >= 4 + 4 * n
                    &&& stream_offset(x, n, 0) == Some(p - 92)
                },
                None => x.len() < 4 || x.len() < 4 + 4 * n || match stream_offset(x, n, 0) {
                    None => true,
                    Some(o) => o + 16 > x.len(),
                },
            }
        }),
{
    let x = slice_subrange(v.as_slice(), 92, v.len());
    if x.len() < 4 {
        return None;
    }
    let n: usize = get_u16(x, 0) as usize;
    if x.len() < 4 + 4 * n {
        return None;
    }
    let mut at: usize = 4 + 4 * n;
    let mut i: usize = 0;
    assert(v.len() <= usize::MAX);
    while i < n
        invariant
            x@ == v@.subrange(92, v@.len() as int),
            v@.len() >= 92,
            x@.len() + 92 == v@.len(),
            v@.len() <= usize::MAX,
            n == bytes::get16(x@, 0),
            n <= 0xffff,
            i <= n,
            4 + 4 * n <= x@.len(),
            at <= x@.len(),
            field_offset(x@, n as int, i as int) == Some(at as int),
            stream_offset(x@, n as int, 0) == stream_offset(x@, n as int, i as int),
        decreases n - i,
    {
        let size: usize = get_u16(x, 4 + 4 * i + 2) as usize;
        if x[4 + 4 * i] == INO_EXT_TYPE_DSTREAM && size >= 16 {
            if 16 > x.len() - at {
                return None;
            }
            return Some(92 + at);
        }
        let step: usize = (size + 7) / 8 * 8;
        if step > x.len() - at {
            proof {
                assert(field_offset(x@, n as int, i + 1) is None);
                if i + 1 < n {
                    assert(stream_offset(x@, n as int, i + 1) is None);
                }
            }
            return None;
        }
        at = at + step;
        i = i + 1;
    }
    None
}

/// `rs` with the value of every inode record of `oid` replaced by what `f` makes
/// of it.
pub open spec fn patched_all(rs: Seq<Rec>, oid: u64, f: spec_fn(Seq<u8>) -> Seq<u8>) -> Seq<Rec> {
    Seq::new(
        rs.len(),
        |i: int|
            if is_key_of(rs[i].0, oid, APFS_TYPE_INODE) {
                (rs[i].0, f(rs[i].1))
            } else {
                rs[i]
            },
    )
}

/// Set the length recorded in an inode value.
fn resize_inode(v: &mut Vec<u8>, new_size: u64, bs: u64)
    requires
        bs > 0,
        num::div_up(new_size as int, bs as int) * bs <= u64::MAX,
    ensures
        final(v)@ == resized(old(v)@, new_size, bs),
{
    broadcast use bytes::lemma_put_len;

    if v.len() >= 92 {
        let field = find_stream_field(v);
        put_u64(v, 84, new_size);
        if let Some(p) = field {
            let blocks: u64 = div_ceil(new_size, bs);
            put_u64(v, p, new_size);
            put_u64(v, p + 8, blocks * bs);
        }
    }
}

/// Set the length recorded in the inode of object `oid`.
pub fn patch_inode_dstream_size(records: &mut Vec<FsRecord>, oid: u64, new_size: u64, bs: u64)
    requires
        pack::keyed(record::recs(old(records)@)),
        bs > 0,
        num::div_up(new_size as int, bs as int) * bs <= u64::MAX,
    ensures
        record::recs(final(records)@) == patched_all(
            record::recs(old(records)@),
            oid,
            |v: Seq<u8>| resized(v, new_size, bs),
        ),
        pack::keyed(record::recs(final(records)@)),
{
    let ghost rs = record::recs(records@);
    let ghost f = |v: Seq<u8>| resized(v, new_size, bs);
    let mut i: usize = 0;
    while i < records.len()
        invariant
            bs > 0,
            num::div_up(new_size as int, bs as int) * bs <= u64::MAX,
            pack::keyed(rs),
            f == |v: Seq<u8>| resized(v, new_size, bs),
            records@.len() == rs.len(),
            i <= rs.len(),
            forall|k: int|
                0 <= k < i ==> (#[trigger] record::recs(records@)[k]) == patched_all(rs, oid, f)[k],
            forall|k: int| i <= k < rs.len() ==> (#[trigger] record::recs(records@)[k]) == rs[k],
        decreases rs.len() - i,
    {
        let ghost now = record::recs(records@);
        assert(now[i as int] == rs[i as int]);
        let (o, kind) = key_head(&records[i].key);
        if o == oid && kind == APFS_TYPE_INODE {
            let mut v = copy_all(records[i].val.as_slice());
            assert(v@ == rs[i as int].1);
            resize_inode(&mut v, new_size, bs);
            set_value(records, i, v);
        }
        proof {
            let later = record::recs(records@);
            assert(later.len() == records@.len());
            assert forall|k: int| 0 <= k < rs.len() && k != i implies later[k] == now[k] by {}
        }
        i = i + 1;
    }
    proof {
        assert(record::recs(records@) =~= patched_all(rs, oid, f));
    }
}

} // verus!
