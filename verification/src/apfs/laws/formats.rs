//! The places of fields: what is laid out in a block or a record is what is decoded.

use vstd::prelude::*;

use crate::apfs::checksum;
use crate::apfs::jrec::{self, DstreamXf, InodeVal};
use crate::apfs::obj;
use crate::apfs::omap;
use crate::apfs::superblock::{self, ApfsSuperblock, NxSuperblock};
use crate::bytes;
use crate::text;

use super::dirs::has;

verus! {

proof fn lemma_word(b: Seq<u8>, at: int, x: u64)
    requires
        has(b, at, bytes::le64(x)),
    ensures
        bytes::get64(b, at) == x,
{
    bytes::lemma_le_lens();
    bytes::lemma_get_le(0, 0, x);
    assert(bytes::le64(x).subrange(0, 8) =~= bytes::le64(x));
    bytes::lemma_get_agree(b, at, bytes::le64(x), 0);
}

proof fn lemma_half(b: Seq<u8>, at: int, x: u32)
    requires
        has(b, at, bytes::le32(x)),
    ensures
        bytes::get32(b, at) == x,
{
    bytes::lemma_le_lens();
    bytes::lemma_get_le(0, x, 0);
    assert(bytes::le32(x).subrange(0, 4) =~= bytes::le32(x));
    bytes::lemma_get_agree(b, at, bytes::le32(x), 0);
}

proof fn lemma_quarter(b: Seq<u8>, at: int, x: u16)
    requires
        has(b, at, bytes::le16(x)),
    ensures
        bytes::get16(b, at) == x,
{
    bytes::lemma_le_lens();
    bytes::lemma_get_le(x, 0, 0);
    assert(bytes::le16(x).subrange(0, 2) =~= bytes::le16(x));
    bytes::lemma_get_agree(b, at, bytes::le16(x), 0);
}

// ---- objects ----

/// Every object starts with a checksum, its identifier, its transaction, its type
/// with its flags above it, and a subtype.
pub proof fn lemma_header(b: Seq<u8>, sum: u64, oid: u64, xid: u64, kind: u32, subtype: u32)
    requires
        has(b, 0, bytes::le64(sum)),
        has(b, 8, bytes::le64(oid)),
        has(b, 16, bytes::le64(xid)),
        has(b, 24, bytes::le32(kind)),
        has(b, 28, bytes::le32(subtype)),
    ensures
        obj::header(b).cksum == sum,
        obj::header(b).oid == oid,
        obj::header(b).xid == xid,
        obj::header(b).type_and_flags == kind,
        obj::header(b).subtype == subtype,
        obj::type_of(b) == kind % 0x1_0000,
{
    lemma_word(b, 0, sum);
    lemma_word(b, 8, oid);
    lemma_word(b, 16, xid);
    lemma_half(b, 24, kind);
    lemma_half(b, 28, subtype);
}

/// What a container superblock tells.
pub struct Container {
    pub block_size: u32,
    pub block_count: u64,
    pub features: u64,
    pub read_only: u64,
    pub incompatible: u64,
    pub uuid: Seq<u8>,
    pub next_oid: u64,
    pub next_xid: u64,
    pub desc_blocks: u32,
    pub desc_base: u64,
    pub desc_index: u32,
    pub desc_len: u32,
    pub omap: u64,
    pub most_volumes: u32,
    pub volumes: Seq<u64>,
}

/// Whether the block `b` is the container superblock `c`: behind the header of an
/// object of type 1 come the letters NXSB and the fields at their places.
pub open spec fn holds_container(b: Seq<u8>, c: Container) -> bool {
    &&& b.len() >= 984
    &&& has(b, 24, bytes::le16(1))
    &&& has(b, 32, seq![0x4eu8, 0x58, 0x53, 0x42])
    &&& has(b, 36, bytes::le32(c.block_size))
    &&& has(b, 40, bytes::le64(c.block_count))
    &&& has(b, 48, bytes::le64(c.features))
    &&& has(b, 56, bytes::le64(c.read_only))
    &&& has(b, 64, bytes::le64(c.incompatible))
    &&& c.uuid.len() == 16
    &&& has(b, 72, c.uuid)
    &&& has(b, 88, bytes::le64(c.next_oid))
    &&& has(b, 96, bytes::le64(c.next_xid))
    &&& has(b, 104, bytes::le32(c.desc_blocks))
    &&& has(b, 112, bytes::le64(c.desc_base))
    &&& has(b, 136, bytes::le32(c.desc_index))
    &&& has(b, 140, bytes::le32(c.desc_len))
    &&& has(b, 160, bytes::le64(c.omap))
    &&& has(b, 180, bytes::le32(c.most_volumes))
    &&& c.volumes.len() == 100
    &&& forall|i: int|
        0 <= i < 100 ==> has(b, 184 + 8 * i, bytes::le64(#[trigger] c.volumes[i]))
}

proof fn lemma_low_half(b: Seq<u8>, at: int, x: u16)
    requires
        has(b, at, bytes::le16(x)),
        0 <= at,
        at + 4 <= b.len(),
    ensures
        bytes::get32(b, at) % 0x1_0000 == x,
{
    lemma_quarter(b, at, x);
    reveal(bytes::get16);
    reveal(bytes::get32);
}

/// A container superblock is recognised, and every field is decoded from its place.
pub proof fn lemma_container(b: Seq<u8>, c: Container)
    requires
        holds_container(b, c),
    ensures
        superblock::is_nx(b),
        forall|s: NxSuperblock| #[trigger]
            s.of(b) ==> {
                &&& s.block_size == c.block_size
                &&& s.block_count == c.block_count
                &&& s.features == c.features
                &&& s.readonly_compatible_features == c.read_only
                &&& s.incompatible_features == c.incompatible
                &&& s.uuid@ == c.uuid
                &&& s.next_oid == c.next_oid
                &&& s.next_xid == c.next_xid
                &&& s.xp_desc_blocks == c.desc_blocks
                &&& s.xp_desc_base == c.desc_base
                &&& s.xp_desc_index == c.desc_index
                &&& s.xp_desc_len == c.desc_len
                &&& s.omap_oid == c.omap
                &&& s.max_file_systems == c.most_volumes
                &&& s.fs_oid@ == c.volumes
            },
{
    lemma_low_half(b, 24, 1);
    let m = b.subrange(32, 36);
    assert(m[0] == 0x4e && m[1] == 0x58 && m[2] == 0x53 && m[3] == 0x42);
    assert(bytes::get32(b, 32) == 0x4253_584e) by {
        reveal(bytes::get32);
    }
    lemma_half(b, 36, c.block_size);
    lemma_word(b, 40, c.block_count);
    lemma_word(b, 48, c.features);
    lemma_word(b, 56, c.read_only);
    lemma_word(b, 64, c.incompatible);
    lemma_word(b, 88, c.next_oid);
    lemma_word(b, 96, c.next_xid);
    lemma_half(b, 104, c.desc_blocks);
    lemma_word(b, 112, c.desc_base);
    lemma_half(b, 136, c.desc_index);
    lemma_half(b, 140, c.desc_len);
    lemma_word(b, 160, c.omap);
    lemma_half(b, 180, c.most_volumes);
    let v = superblock::nx_fs_oid(b);
    assert forall|i: int| 0 <= i < 100 implies v[i] == c.volumes[i] by {
        lemma_word(b, 184 + 8 * i, c.volumes[i]);
    }
    assert(v =~= c.volumes);
}

/// What a volume superblock tells.
pub struct Volume {
    pub index: u32,
    pub features: u64,
    pub read_only: u64,
    pub incompatible: u64,
    pub root_type: u32,
    pub extents_type: u32,
    pub snapshots_type: u32,
    pub omap: u64,
    pub root: u64,
    pub extents: u64,
    pub snapshots: u64,
    pub files: u64,
    pub directories: u64,
    pub symlinks: u64,
    pub uuid: Seq<u8>,
    pub flags: u64,
    pub name: Seq<char>,
}

/// Whether the block `b` is the volume superblock `v`: behind the header of an object
/// come the letters APSB and the fields at their places; the name is of at most 255
/// bytes, with a zero byte behind it.
pub open spec fn holds_volume(b: Seq<u8>, v: Volume) -> bool {
    let n = text::utf8(v.name);
    &&& b.len() >= 960
    &&& has(b, 32, seq![0x41u8, 0x50, 0x53, 0x42])
    &&& has(b, 36, bytes::le32(v.index))
    &&& has(b, 40, bytes::le64(v.features))
    &&& has(b, 48, bytes::le64(v.read_only))
    &&& has(b, 56, bytes::le64(v.incompatible))
    &&& has(b, 116, bytes::le32(v.root_type))
    &&& has(b, 120, bytes::le32(v.extents_type))
    &&& has(b, 124, bytes::le32(v.snapshots_type))
    &&& has(b, 128, bytes::le64(v.omap))
    &&& has(b, 136, bytes::le64(v.root))
    &&& has(b, 144, bytes::le64(v.extents))
    &&& has(b, 152, bytes::le64(v.snapshots))
    &&& has(b, 184, bytes::le64(v.files))
    &&& has(b, 192, bytes::le64(v.directories))
    &&& has(b, 200, bytes::le64(v.symlinks))
    &&& v.uuid.len() == 16
    &&& has(b, 240, v.uuid)
    &&& has(b, 264, bytes::le64(v.flags))
    &&& n.len() < 256
    &&& forall|i: int| 0 <= i < n.len() ==> n[i] != 0
    &&& has(b, 704, n.push(0))
}

/// A volume superblock is recognised, and every field is decoded from its place.
pub proof fn lemma_volume(b: Seq<u8>, v: Volume)
    requires
        holds_volume(b, v),
    ensures
        superblock::is_apsb(b),
        text::text_of(superblock::volname_bytes(b)) == v.name,
        forall|s: ApfsSuperblock| #[trigger]
            s.of(b) ==> {
                &&& s.fs_index == v.index
                &&& s.features == v.features
                &&& s.readonly_compatible_features == v.read_only
                &&& s.incompatible_features == v.incompatible
                &&& s.root_tree_type == v.root_type
                &&& s.extentref_tree_type == v.extents_type
                &&& s.snap_meta_tree_type == v.snapshots_type
                &&& s.omap_oid == v.omap
                &&& s.root_tree_oid == v.root
                &&& s.extentref_tree_oid == v.extents
                &&& s.snap_meta_tree_oid == v.snapshots
                &&& s.num_files == v.files
                &&& s.num_directories == v.directories
                &&& s.num_symlinks == v.symlinks
                &&& s.vol_uuid@ == v.uuid
                &&& s.fs_flags == v.flags
                &&& s.volname@ == v.name
            },
{
    let n = text::utf8(v.name);
    let m = b.subrange(32, 36);
    assert(m[0] == 0x41 && m[1] == 0x50 && m[2] == 0x53 && m[3] == 0x42);
    assert(bytes::get32(b, 32) == 0x4253_5041) by {
        reveal(bytes::get32);
    }
    lemma_half(b, 36, v.index);
    lemma_word(b, 40, v.features);
    lemma_word(b, 48, v.read_only);
    lemma_word(b, 56, v.incompatible);
    lemma_half(b, 116, v.root_type);
    lemma_half(b, 120, v.extents_type);
    lemma_half(b, 124, v.snapshots_type);
    lemma_word(b, 128, v.omap);
    lemma_word(b, 136, v.root);
    lemma_word(b, 144, v.extents);
    lemma_word(b, 152, v.snapshots);
    lemma_word(b, 184, v.files);
    lemma_word(b, 192, v.directories);
    lemma_word(b, 200, v.symlinks);
    lemma_word(b, 264, v.flags);
    let w = b.subrange(704, 960);
    let u = b.subrange(704, 705 + n.len() as int);
    assert forall|i: int| 0 <= i < n.len() implies w[i] == n[i] by {
        assert(u[i] == n.push(0)[i]);
    }
    assert(w[n.len() as int] == 0) by {
        assert(u[n.len() as int] == n.push(0)[n.len() as int]);
    }
    bytes::lemma_nul_pos(w, n.len() as int);
    assert(bytes::until_nul(w) =~= n);
    text::lemma_text_of_utf8(v.name);
}

/// The header of an object map tells where its tree is, and an entry tells, for an
/// object and a transaction, the block, its length and its flags.
pub proof fn lemma_omap(b: Seq<u8>, flags: u32, snaps: u32, kind: u32, tree: u64)
    requires
        b.len() >= 88,
        has(b, 24, bytes::le16(11)),
        has(b, 32, bytes::le32(flags)),
        has(b, 36, bytes::le32(snaps)),
        has(b, 40, bytes::le32(kind)),
        has(b, 48, bytes::le64(tree)),
    ensures
        omap::omap_phys(b) matches Ok(h) && {
            &&& h.flags == flags
            &&& h.snap_count == snaps
            &&& h.tree_type == kind
            &&& h.tree_oid == tree
        },
{
    lemma_low_half(b, 24, 11);
    lemma_half(b, 32, flags);
    lemma_half(b, 36, snaps);
    lemma_half(b, 40, kind);
    lemma_word(b, 48, tree);
}

/// An entry of an object map: the key is an object and a transaction, and the value
/// has flags, a length and the block.
pub proof fn lemma_omap_entry(
    k: Seq<u8>,
    v: Seq<u8>,
    oid: u64,
    xid: u64,
    flags: u32,
    size: u32,
    paddr: u64,
)
    requires
        has(k, 0, bytes::le64(oid)),
        has(k, 8, bytes::le64(xid)),
        has(v, 0, bytes::le32(flags)),
        has(v, 4, bytes::le32(size)),
        has(v, 8, bytes::le64(paddr)),
    ensures
        omap::omap_key(k) matches Ok(x) && x.oid == oid && x.xid == xid,
        omap::omap_val(v) matches Ok(y) && y.flags == flags && y.size == size && y.paddr == paddr,
{
    bytes::lemma_le_lens();
    lemma_word(k, 0, oid);
    lemma_word(k, 8, xid);
    lemma_half(v, 0, flags);
    lemma_half(v, 4, size);
    lemma_word(v, 8, paddr);
}

// ---- inodes ----

/// What the fixed part of an inode tells.
pub struct Inode {
    pub parent: u64,
    pub private: u64,
    pub created: u64,
    pub modified: u64,
    pub changed: u64,
    pub accessed: u64,
    pub flags: u64,
    pub links: u32,
    pub owner: u32,
    pub group: u32,
    pub mode: u16,
    pub size: u64,
}

/// Whether the value `b` starts with the inode `i`: eight words, of which the third to
/// sixth are the times of creation, modification, change and access; the links; and
/// behind three numbers the owner, the group and the mode.
pub open spec fn holds_inode(b: Seq<u8>, i: Inode) -> bool {
    &&& b.len() >= 92
    &&& has(b, 0, bytes::le64(i.parent))
    &&& has(b, 8, bytes::le64(i.private))
    &&& has(b, 16, bytes::le64(i.created))
    &&& has(b, 24, bytes::le64(i.modified))
    &&& has(b, 32, bytes::le64(i.changed))
    &&& has(b, 40, bytes::le64(i.accessed))
    &&& has(b, 48, bytes::le64(i.flags))
    &&& has(b, 56, bytes::le32(i.links))
    &&& has(b, 72, bytes::le32(i.owner))
    &&& has(b, 76, bytes::le32(i.group))
    &&& has(b, 80, bytes::le16(i.mode))
    &&& has(b, 84, bytes::le64(i.size))
}

/// Every field of an inode is decoded from its place.
pub proof fn lemma_inode(b: Seq<u8>, i: Inode)
    requires
        holds_inode(b, i),
    ensures
        forall|v: InodeVal| #[trigger]
            v.of(b) ==> {
                &&& v.parent_id == i.parent
                &&& v.private_id == i.private
                &&& v.create_time == i.created
                &&& v.mod_time == i.modified
                &&& v.change_time == i.changed
                &&& v.access_time == i.accessed
                &&& v.internal_flags == i.flags
                &&& i.links < 0x8000_0000 ==> v.nchildren_or_nlink == i.links
                &&& v.owner == i.owner
                &&& v.group == i.group
                &&& v.mode == i.mode
                &&& v.uncompressed_size == i.size
            },
{
    lemma_word(b, 0, i.parent);
    lemma_word(b, 8, i.private);
    lemma_word(b, 16, i.created);
    lemma_word(b, 24, i.modified);
    lemma_word(b, 32, i.changed);
    lemma_word(b, 40, i.accessed);
    lemma_word(b, 48, i.flags);
    lemma_half(b, 56, i.links);
    lemma_half(b, 72, i.owner);
    lemma_half(b, 76, i.group);
    lemma_quarter(b, 80, i.mode);
    lemma_word(b, 84, i.size);
}

/// An extended field of an inode: its kind and its value.
pub struct Extra {
    pub kind: u8,
    pub value: Seq<u8>,
}

/// Where the value of field `i` of `xs` is among the values: each starts at a multiple
/// of 8 bytes.
pub open spec fn value_at(xs: Seq<Extra>, i: int) -> int
    decreases i,
{
    if i <= 0 {
        0
    } else {
        (value_at(xs, i - 1) + xs[i - 1].value.len() + 7) / 8 * 8
    }
}

/// Whether `b` has the extended fields `xs`: their number, for each its kind and the
/// length of its value in four bytes, and the values.
pub open spec fn holds_extras(b: Seq<u8>, xs: Seq<Extra>) -> bool {
    &&& xs.len() <= 0xffff
    &&& b.len() >= 4
    &&& has(b, 0, bytes::le16(xs.len() as u16))
    &&& forall|i: int|
        0 <= i < xs.len() ==> {
            &&& (#[trigger] xs[i]).value.len() <= 0xffff
            &&& has(b, 4 + 4 * i, seq![xs[i].kind])
            &&& has(b, 4 + 4 * i + 2, bytes::le16(xs[i].value.len() as u16))
            &&& has(b, 4 + 4 * xs.len() + value_at(xs, i), xs[i].value)
        }
}

/// The value of the last field of the kind `kind` among the first `n`.
pub open spec fn last_of(xs: Seq<Extra>, kind: u8, n: int) -> Option<Seq<u8>>
    decreases n,
{
    if n <= 0 {
        None
    } else if xs[n - 1].kind == kind {
        Some(xs[n - 1].value)
    } else {
        last_of(xs, kind, n - 1)
    }
}

proof fn lemma_extras_upto(b: Seq<u8>, xs: Seq<Extra>, n: nat)
    requires
        holds_extras(b, xs),
        n <= xs.len(),
    ensures
        ({
            let x = jrec::xfields_upto(b, n);
            &&& !x.stopped
            &&& x.rel == value_at(xs, n as int)
            &&& x.name == match last_of(xs, 4, n as int) {
                Some(v) => Some(text::text_of(bytes::until_nul(v))),
                None => None,
            }
            &&& x.dstream == match last_of(xs, 8, n as int) {
                Some(v) => jrec::dstream_of(v),
                None => None,
            }
        }),
    decreases n,
{
    lemma_quarter(b, 0, xs.len() as u16);
    if n > 0 {
        let i = n - 1;
        lemma_extras_upto(b, xs, i as nat);
        assert(xs[i].value.len() <= 0xffff);
        lemma_quarter(b, 4 + 4 * i + 2, xs[i].value.len() as u16);
        let k = b.subrange(4 + 4 * i, 4 + 4 * i + 1);
        assert(k[0] == xs[i].kind);
    }
}

/// The extended fields of an inode are found whatever else is among them: the length
/// of the contents is that of the data stream, which is of kind 8, and the name is of
/// kind 4.
pub proof fn lemma_extras(b: Seq<u8>, xs: Seq<Extra>, size: u64, alloced: u64, name: Seq<char>)
    requires
        holds_extras(b, xs),
    ensures
        last_of(xs, 8, xs.len() as int) is None ==> jrec::xfields(b).1 is None,
        last_of(xs, 4, xs.len() as int) is None ==> jrec::xfields(b).0 is None,
        last_of(xs, 8, xs.len() as int) matches Some(v) ==> (has(v, 0, bytes::le64(size)) && has(
            v,
            8,
            bytes::le64(alloced),
        ) ==> jrec::xfields(b).1 == Some(DstreamXf { size, alloced_size: alloced })),
        last_of(xs, 4, xs.len() as int) == Some(text::utf8(name).push(0)) && (forall|i: int|
            0 <= i < text::utf8(name).len() ==> text::utf8(name)[i] != 0) ==> jrec::xfields(b).0
            == Some(name),
{
    let n = xs.len();
    lemma_quarter(b, 0, n as u16);
    lemma_extras_upto(b, xs, n);
    bytes::lemma_le_lens();
    if n > 0 {
        assert(has(b, 4 + 4 * xs.len() + value_at(xs, n - 1), xs[n - 1].value));
        lemma_values_up(xs, n - 1);
    }
    if let Some(v) = last_of(xs, 8, n as int) {
        if has(v, 0, bytes::le64(size)) && has(v, 8, bytes::le64(alloced)) {
            lemma_word(v, 0, size);
            lemma_word(v, 8, alloced);
        }
    }
    let u = text::utf8(name);
    if last_of(xs, 4, n as int) == Some(u.push(0)) && forall|i: int|
        0 <= i < u.len() ==> u[i] != 0 {
        let w = u.push(0);
        bytes::lemma_nul_pos(w, u.len() as int);
        assert(bytes::until_nul(w) =~= u);
        text::lemma_text_of_utf8(name);
    }
}

proof fn lemma_values_up(xs: Seq<Extra>, i: int)
    ensures
        value_at(xs, i) >= 0,
    decreases i,
{
    if i > 0 {
        lemma_values_up(xs, i - 1);
    }
}

// ---- checksums ----

/// The sum of the first `n` words of `data`.
pub open spec fn word_sum(data: Seq<u8>, n: nat) -> int
    decreases n,
{
    if n == 0 {
        0
    } else {
        word_sum(data, (n - 1) as nat) + bytes::get32(data, 4 * (n - 1))
    }
}

/// The sum of the sums of the first words of `data`, of one to `n` of them.
pub open spec fn sum_of_sums(data: Seq<u8>, n: nat) -> int
    decreases n,
{
    if n == 0 {
        0
    } else {
        sum_of_sums(data, (n - 1) as nat) + word_sum(data, n)
    }
}

/// The two running sums are the sum of all words and the sum of all sums up to each
/// word, both modulo `2^32 - 1`.
pub proof fn lemma_sums_are(data: Seq<u8>, n: nat)
    ensures
        checksum::sums(data, n, 0, 0) == (
            word_sum(data, n) % 0xFFFF_FFFF,
            sum_of_sums(data, n) % 0xFFFF_FFFF,
        ),
    decreases n,
{
    if n > 0 {
        lemma_sums_are(data, (n - 1) as nat);
    }
}

/// A block whose field is all zeros or all ones, or that is no whole number of words,
/// does not verify.
pub proof fn lemma_not_verified(block: Seq<u8>)
    requires
        block.len() < 8 || block.len() % 4 != 0 || bytes::get64(block, 0) == 0 || bytes::get64(
            block,
            0,
        ) == u64::MAX,
    ensures
        !checksum::verifies(block),
{
}

} // verus!
