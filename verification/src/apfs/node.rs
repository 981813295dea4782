//! Laying out B-tree nodes, and what reading them back gives.

use vstd::prelude::*;

use crate::apfs::btree::{self, BTREE_INFO_SIZE};
use crate::apfs::checksum::{self, sign_block};
use crate::apfs::obj::{OBJECT_TYPE_BTREE, OBJECT_TYPE_BTREE_NODE, OBJECT_TYPE_FSTREE};
use crate::apfs::record::{self, FsRecord};
use crate::bytes::{
    self, copy_range, le_u16, le_u64, push_all, put_bytes, put_u16, put_u32, put_u64, zero_vec,
};
use crate::error::{Error, Result};

verus! {

/// Flag of an object that lives at a fixed block.
pub const OBJ_PHYSICAL: u32 = 0x4000_0000;

/// Flag of an object that lives in memory between checkpoints.
pub const OBJ_EPHEMERAL: u32 = 0x8000_0000;

/// Total key length of the first `i` records.
pub open spec fn keys_len(rs: Seq<(Seq<u8>, Seq<u8>)>, i: int) -> int
    decreases i,
{
    if i <= 0 {
        0
    } else {
        keys_len(rs, i - 1) + rs[i - 1].0.len()
    }
}

/// Total value length of the first `i` records.
pub open spec fn vals_len(rs: Seq<(Seq<u8>, Seq<u8>)>, i: int) -> int
    decreases i,
{
    if i <= 0 {
        0
    } else {
        vals_len(rs, i - 1) + rs[i - 1].1.len()
    }
}

/// Width of an entry of the table of contents.
pub open spec fn toc_width(fixed: bool) -> int {
    if fixed {
        4
    } else {
        8
    }
}

/// End of the value area of a node of `bs` bytes.
pub open spec fn area_end(bs: int, root: bool) -> int {
    if root {
        bs - 40
    } else {
        bs
    }
}

/// Start of the key area of a node of `n` entries.
pub open spec fn keys_at(n: int, fixed: bool) -> int {
    if fixed {
        56 + 4 * n
    } else {
        56 + 8 * n
    }
}

/// Whether the records `rs` fit in one node of `bs` bytes.
pub open spec fn fits(rs: Seq<(Seq<u8>, Seq<u8>)>, bs: int, fixed: bool, root: bool) -> bool {
    let n = rs.len() as int;
    keys_at(n, fixed) + keys_len(rs, n) + vals_len(rs, n) <= area_end(bs, root)
}

/// Entry `j` of the table of contents: offsets of key and value, each with its
/// length unless all records have one size.
pub open spec fn toc(rs: Seq<(Seq<u8>, Seq<u8>)>, j: int, fixed: bool) -> Seq<u8> {
    if fixed {
        bytes::le16(keys_len(rs, j) as u16) + bytes::le16(vals_len(rs, j + 1) as u16)
    } else {
        bytes::le16(keys_len(rs, j) as u16) + bytes::le16(rs[j].0.len() as u16) + bytes::le16(
            vals_len(rs, j + 1) as u16,
        ) + bytes::le16(rs[j].1.len() as u16)
    }
}

/// `b` with the first `i` records of a node laid out: table entries from 56 on,
/// keys forward from `ks`, values backward from `ve`.
pub open spec fn place(
    b: Seq<u8>,
    rs: Seq<(Seq<u8>, Seq<u8>)>,
    fixed: bool,
    ks: int,
    ve: int,
    i: int,
) -> Seq<u8>
    decreases i,
{
    if i <= 0 {
        b
    } else {
        let j = i - 1;
        let p = place(b, rs, fixed, ks, ve, j);
        let p = bytes::put(p, keys_at(j, fixed), toc(rs, j, fixed));
        let p = bytes::put(p, ks + keys_len(rs, j), rs[j].0);
        bytes::put(p, ve - vals_len(rs, i), rs[j].1)
    }
}

/// What a node is besides its records.
pub struct Shape {
    pub oid: u64,
    pub xid: u64,
    pub otype: u32,
    pub subtype: u32,
    pub flags: u16,
    pub level: u16,
}

impl Shape {
    /// Whether the node is a root.
    pub open spec fn root(self) -> bool {
        self.flags % 2 == 1
    }

    /// Whether all records of the node have one size.
    pub open spec fn fixed(self) -> bool {
        self.flags / 4 % 2 == 1
    }
}

/// Header of a node of `n` entries.
pub open spec fn node_head(bs: nat, s: Shape, n: int) -> Seq<u8> {
    let b = bytes::put(bytes::zeros(bs), 8, bytes::le64(s.oid));
    let b = bytes::put(b, 16, bytes::le64(s.xid));
    let b = bytes::put(b, 24, bytes::le32(s.otype));
    let b = bytes::put(b, 28, bytes::le32(s.subtype));
    let b = bytes::put(b, 32, bytes::le16(s.flags));
    let b = bytes::put(b, 34, bytes::le16(s.level));
    let b = bytes::put(b, 36, bytes::le32(n as u32));
    bytes::put(b, 42, bytes::le16((keys_at(n, s.fixed()) - 56) as u16))
}

/// The information block at the end of a root: sizes of keys and values where
/// they are fixed, the number of entries where they are not.
pub open spec fn with_info(p: Seq<u8>, bs: int, s: Shape, n: int) -> Seq<u8> {
    if !s.root() {
        p
    } else if s.fixed() {
        bytes::put(bytes::put(p, bs - 32, bytes::le32(16)), bs - 28, bytes::le32(16))
    } else {
        bytes::put(p, bs - 16, bytes::le64(n as u64))
    }
}

/// The node of shape `s` that holds `rs`.
pub open spec fn node(bs: nat, s: Shape, rs: Seq<(Seq<u8>, Seq<u8>)>) -> Seq<u8> {
    let n = rs.len() as int;
    let p = place(
        node_head(bs, s, n),
        rs,
        s.fixed(),
        keys_at(n, s.fixed()),
        area_end(bs as int, s.root()),
        n,
    );
    checksum::signed(with_info(p, bs as int, s, n))
}

proof fn lemma_lens_mono(rs: Seq<(Seq<u8>, Seq<u8>)>, i: int, j: int)
    requires
        i <= j,
    ensures
        keys_len(rs, i) <= keys_len(rs, j),
        vals_len(rs, i) <= vals_len(rs, j),
        0 <= keys_len(rs, i),
        0 <= vals_len(rs, i),
    decreases j - i, if i < 0 { 0 } else { i },
{
    if i < j {
        lemma_lens_mono(rs, i, j - 1);
    } else if i > 0 {
        lemma_lens_mono(rs, i - 1, i - 1);
    }
}

proof fn lemma_toc_len(rs: Seq<(Seq<u8>, Seq<u8>)>, j: int, fixed: bool)
    ensures
        toc(rs, j, fixed).len() == toc_width(fixed),
{
    bytes::lemma_le_lens();
}

/// Whether record `j` stands in `p`.
spec fn stands(
    p: Seq<u8>,
    rs: Seq<(Seq<u8>, Seq<u8>)>,
    fixed: bool,
    ks: int,
    ve: int,
    j: int,
) -> bool {
    &&& p.subrange(keys_at(j, fixed), keys_at(j + 1, fixed)) == toc(rs, j, fixed)
    &&& p.subrange(ks + keys_len(rs, j), ks + keys_len(rs, j + 1)) == rs[j].0
    &&& p.subrange(ve - vals_len(rs, j + 1), ve - vals_len(rs, j)) == rs[j].1
}

/// A patch that keeps clear of record `j` leaves it standing.
proof fn lemma_stands_put(
    p: Seq<u8>,
    off: int,
    q: Seq<u8>,
    rs: Seq<(Seq<u8>, Seq<u8>)>,
    fixed: bool,
    ks: int,
    ve: int,
    j: int,
)
    requires
        stands(p, rs, fixed, ks, ve, j),
        0 <= j,
        ve <= p.len(),
        keys_at(j + 1, fixed) <= ks,
        ks + keys_len(rs, j + 1) <= ve - vals_len(rs, j + 1),
        0 <= off,
        off + q.len() <= keys_at(j, fixed) || keys_at(j + 1, fixed) <= off,
        off + q.len() <= ks + keys_len(rs, j) || ks + keys_len(rs, j + 1) <= off,
        off + q.len() <= ve - vals_len(rs, j + 1) || ve - vals_len(rs, j) <= off,
    ensures
        stands(bytes::put(p, off, q), rs, fixed, ks, ve, j),
{
    lemma_lens_mono(rs, j, j + 1);
    bytes::lemma_sub_put_other(p, off, q, keys_at(j, fixed), keys_at(j + 1, fixed));
    bytes::lemma_sub_put_other(p, off, q, ks + keys_len(rs, j), ks + keys_len(rs, j + 1));
    bytes::lemma_sub_put_other(p, off, q, ve - vals_len(rs, j + 1), ve - vals_len(rs, j));
}

/// The first `i` records stand once they are laid out, and nothing outside the
/// data area is touched.
proof fn lemma_place(
    b: Seq<u8>,
    rs: Seq<(Seq<u8>, Seq<u8>)>,
    fixed: bool,
    ks: int,
    ve: int,
    i: int,
    n: int,
)
    requires
        0 <= i <= n,
        ks == keys_at(n, fixed),
        ks + keys_len(rs, n) + vals_len(rs, n) <= ve <= b.len(),
    ensures
        place(b, rs, fixed, ks, ve, i).len() == b.len(),
        forall|lo: int, hi: int|
            #![trigger place(b, rs, fixed, ks, ve, i).subrange(lo, hi)]
            0 <= lo <= hi <= b.len() && (hi <= 56 || ve <= lo) ==> place(
                b,
                rs,
                fixed,
                ks,
                ve,
                i,
            ).subrange(lo, hi) == b.subrange(lo, hi),
        forall|j: int|
            0 <= j < i ==> #[trigger] stands(
                place(b, rs, fixed, ks, ve, i),
                rs,
                fixed,
                ks,
                ve,
                j,
            ),
    decreases i,
{
    if i > 0 {
        let m = i - 1;
        lemma_place(b, rs, fixed, ks, ve, m, n);
        lemma_lens_mono(rs, i, n);
        lemma_lens_mono(rs, m, i);
        lemma_toc_len(rs, m, fixed);
        let t = toc(rs, m, fixed);
        let p0 = place(b, rs, fixed, ks, ve, m);
        let p1 = bytes::put(p0, keys_at(m, fixed), t);
        let p2 = bytes::put(p1, ks + keys_len(rs, m), rs[m].0);
        let p3 = bytes::put(p2, ve - vals_len(rs, i), rs[m].1);
        assert(p3 == place(b, rs, fixed, ks, ve, i));
        broadcast use bytes::lemma_put_len;

        assert forall|j: int| 0 <= j < i implies #[trigger] stands(
            p3,
            rs,
            fixed,
            ks,
            ve,
            j,
        ) by {
            if j < m {
                lemma_lens_mono(rs, j + 1, m);
                lemma_lens_mono(rs, j, j + 1);
                assert(stands(p0, rs, fixed, ks, ve, j));
                lemma_stands_put(p0, keys_at(m, fixed), t, rs, fixed, ks, ve, j);
                lemma_stands_put(p1, ks + keys_len(rs, m), rs[m].0, rs, fixed, ks, ve, j);
                lemma_stands_put(p2, ve - vals_len(rs, i), rs[m].1, rs, fixed, ks, ve, j);
            } else {
                let a = keys_at(m, fixed);
                let z = keys_at(m + 1, fixed);
                bytes::lemma_sub_put_same(p0, a, t, z);
                bytes::lemma_sub_put_other(p1, ks + keys_len(rs, m), rs[m].0, a, z);
                bytes::lemma_sub_put_other(p2, ve - vals_len(rs, i), rs[m].1, a, z);
                let ka = ks + keys_len(rs, m);
                let kz = ks + keys_len(rs, i);
                bytes::lemma_sub_put_same(p1, ka, rs[m].0, kz);
                bytes::lemma_sub_put_other(p2, ve - vals_len(rs, i), rs[m].1, ka, kz);
                bytes::lemma_sub_put_same(
                    p2,
                    ve - vals_len(rs, i),
                    rs[m].1,
                    ve - vals_len(rs, m),
                );
            }
        }
        assert forall|lo: int, hi: int|
            #![trigger p3.subrange(lo, hi)]
            0 <= lo <= hi <= b.len() && (hi <= 56 || ve <= lo) implies p3.subrange(lo, hi)
            == b.subrange(lo, hi) by {
            bytes::lemma_sub_put_other(p0, keys_at(m, fixed), t, lo, hi);
            bytes::lemma_sub_put_other(p1, ks + keys_len(rs, m), rs[m].0, lo, hi);
            bytes::lemma_sub_put_other(p2, ve - vals_len(rs, i), rs[m].1, lo, hi);
            assert(p0.subrange(lo, hi) == b.subrange(lo, hi));
        }
    }
}

/// Fields of a table entry.
proof fn lemma_toc_fields(b: Seq<u8>, o: int, rs: Seq<(Seq<u8>, Seq<u8>)>, j: int, fixed: bool)
    requires
        0 <= o,
        o + toc_width(fixed) <= b.len(),
        b.subrange(o, o + toc_width(fixed)) == toc(rs, j, fixed),
    ensures
        bytes::get16(b, o) == keys_len(rs, j) as u16,
        fixed ==> bytes::get16(b, o + 2) == vals_len(rs, j + 1) as u16,
        !fixed ==> {
            &&& bytes::get16(b, o + 2) == rs[j].0.len() as u16
            &&& bytes::get16(b, o + 4) == vals_len(rs, j + 1) as u16
            &&& bytes::get16(b, o + 6) == rs[j].1.len() as u16
        },
{
    let w = toc_width(fixed);
    let t = toc(rs, j, fixed);
    bytes::lemma_le_lens();
    bytes::lemma_get_sub(b, o, o + w, 0);
    bytes::lemma_get_sub(b, o, o + w, 2);
    bytes::lemma_get_le(keys_len(rs, j) as u16, 0, 0);
    bytes::lemma_get_le(rs[j].0.len() as u16, 0, 0);
    bytes::lemma_get_le(rs[j].1.len() as u16, 0, 0);
    bytes::lemma_get_le(vals_len(rs, j + 1) as u16, 0, 0);
    reveal(bytes::get16);
    if !fixed {
        bytes::lemma_get_sub(b, o, o + w, 4);
        bytes::lemma_get_sub(b, o, o + w, 6);
    }
}

/// The header of a node reads back.
proof fn lemma_head(bs: nat, s: Shape, n: int)
    requires
        96 <= bs <= 0x1_0000,
        0 <= n,
        keys_at(n, s.fixed()) <= bs,
    ensures
        ({
            let b = node_head(bs, s, n);
            &&& b.len() == bs
            &&& bytes::get64(b, 8) == s.oid
            &&& bytes::get64(b, 16) == s.xid
            &&& bytes::get32(b, 24) == s.otype
            &&& bytes::get32(b, 28) == s.subtype
            &&& bytes::get16(b, 32) == s.flags
            &&& bytes::get16(b, 34) == s.level
            &&& bytes::get32(b, 36) == n
            &&& bytes::get16(b, 40) == 0
            &&& bytes::get16(b, 42) == keys_at(n, s.fixed()) - 56
            &&& bytes::get32(b, bs - 32) == 0
            &&& bytes::get32(b, bs - 28) == 0
        }),
{
    broadcast use bytes::group_fields;

}

/// What the header of a whole node reads back as.
proof fn lemma_node_fields(bs: nat, s: Shape, rs: Seq<(Seq<u8>, Seq<u8>)>)
    requires
        96 <= bs <= 0x1_0000,
        fits(rs, bs as int, s.fixed(), s.root()),
    ensures
        ({
            let b = node(bs, s, rs);
            let n = rs.len() as int;
            let ve = area_end(bs as int, s.root());
            &&& b.len() == bs
            &&& bytes::get64(b, 8) == s.oid
            &&& bytes::get64(b, 16) == s.xid
            &&& bytes::get32(b, 24) == s.otype
            &&& bytes::get32(b, 28) == s.subtype
            &&& bytes::get16(b, 32) == s.flags
            &&& bytes::get16(b, 34) == s.level
            &&& bytes::get32(b, 36) == n
            &&& bytes::get16(b, 40) == 0
            &&& bytes::get16(b, 42) == keys_at(n, s.fixed()) - 56
            &&& s.root() ==> {
                &&& bytes::get32(b, bs - 32) == if s.fixed() { 16int } else { 0 }
                &&& bytes::get32(b, bs - 28) == if s.fixed() { 16int } else { 0 }
            }
            &&& forall|j: int|
                0 <= j < n ==> #[trigger] stands(
                    b,
                    rs,
                    s.fixed(),
                    keys_at(n, s.fixed()),
                    ve,
                    j,
                )
        }),
{
    let n = rs.len() as int;
    let fixed = s.fixed();
    let ve = area_end(bs as int, s.root());
    let ks = keys_at(n, fixed);
    let head = node_head(bs, s, n);
    let p = place(head, rs, fixed, ks, ve, n);
    let q = with_info(p, bs as int, s, n);
    let b = checksum::signed(q);
    lemma_lens_mono(rs, 0, n);
    lemma_head(bs, s, n);
    lemma_place(head, rs, fixed, ks, ve, n, n);
    bytes::lemma_le_lens();
    assert(p.subrange(8, 16) == head.subrange(8, 16));
    bytes::lemma_get_agree(p, 8, head, 8);
    assert(p.subrange(16, 24) == head.subrange(16, 24));
    bytes::lemma_get_agree(p, 16, head, 16);
    assert(p.subrange(24, 28) == head.subrange(24, 28));
    bytes::lemma_get_agree(p, 24, head, 24);
    assert(p.subrange(28, 32) == head.subrange(28, 32));
    bytes::lemma_get_agree(p, 28, head, 28);
    assert(p.subrange(32, 34) == head.subrange(32, 34));
    bytes::lemma_get_agree(p, 32, head, 32);
    assert(p.subrange(34, 36) == head.subrange(34, 36));
    bytes::lemma_get_agree(p, 34, head, 34);
    assert(p.subrange(36, 40) == head.subrange(36, 40));
    bytes::lemma_get_agree(p, 36, head, 36);
    assert(p.subrange(40, 42) == head.subrange(40, 42));
    bytes::lemma_get_agree(p, 40, head, 40);
    assert(p.subrange(42, 44) == head.subrange(42, 44));
    bytes::lemma_get_agree(p, 42, head, 42);
    if s.root() {
        assert(p.subrange(bs - 32, bs - 28) == head.subrange(bs - 32, bs - 28));
        bytes::lemma_get_agree(p, bs - 32, head, bs - 32);
        assert(p.subrange(bs - 28, bs - 24) == head.subrange(bs - 28, bs - 24));
        bytes::lemma_get_agree(p, bs - 28, head, bs - 28);
    }
    assert forall|j: int| 0 <= j < n implies #[trigger] stands(b, rs, fixed, ks, ve, j) by {
        assert(stands(p, rs, fixed, ks, ve, j));
        lemma_lens_mono(rs, j + 1, n);
        lemma_lens_mono(rs, j, j + 1);
        bytes::lemma_put_len(p, bs - 32, bytes::le32(16));
        if s.root() {
            if fixed {
                lemma_stands_put(p, bs - 32, bytes::le32(16), rs, fixed, ks, ve, j);
                let p1 = bytes::put(p, bs - 32, bytes::le32(16));
                lemma_stands_put(p1, bs - 28, bytes::le32(16), rs, fixed, ks, ve, j);
                bytes::lemma_put_len(p1, bs - 28, bytes::le32(16));
            } else {
                lemma_stands_put(p, bs - 16, bytes::le64(n as u64), rs, fixed, ks, ve, j);
                bytes::lemma_put_len(p, bs - 16, bytes::le64(n as u64));
            }
        }
        let c = bytes::le64(checksum::block_cksum(q) as u64);
        lemma_stands_put(q, 0, c, rs, fixed, ks, ve, j);
    }
    broadcast use bytes::group_fields;

}

/// A node reads back as what it was built of.
pub proof fn lemma_node(bs: nat, s: Shape, rs: Seq<(Seq<u8>, Seq<u8>)>, klen: int, vlen: int)
    requires
        96 <= bs <= 0x1_0000,
        fits(rs, bs as int, s.fixed(), s.root()),
        s.otype % 0x1_0000 == OBJECT_TYPE_BTREE || s.otype % 0x1_0000 == OBJECT_TYPE_BTREE_NODE,
        s.fixed() ==> forall|j: int|
            0 <= j < rs.len() ==> (#[trigger] rs[j]).0.len() == klen && rs[j].1.len() == vlen,
    ensures
        ({
            let b = node(bs, s, rs);
            &&& b.len() == bs
            &&& btree::is_node(b)
            &&& btree::node_is_root(b) == s.root()
            &&& btree::node_is_leaf(b) == (s.flags / 2 % 2 == 1)
            &&& btree::node_is_fixed(b) == s.fixed()
            &&& btree::node_level(b) == s.level
            &&& btree::node_nkeys(b) == rs.len()
            &&& s.root() ==> btree::fixed_sizes(b) == Some(
                if s.fixed() {
                    (16int, 16int)
                } else {
                    (0int, 0int)
                },
            )
            &&& forall|j: int|
                0 <= j < rs.len() ==> #[trigger] btree::entry(b, j, klen, vlen) == Ok::<
                    (Seq<u8>, Seq<u8>),
                    Error,
                >(rs[j])
        }),
{
    let b = node(bs, s, rs);
    let n = rs.len() as int;
    let ve = area_end(bs as int, s.root());
    let ks = keys_at(n, s.fixed());
    lemma_node_fields(bs, s, rs);
    lemma_lens_mono(rs, 0, n);
    assert forall|j: int| 0 <= j < rs.len() implies #[trigger] btree::entry(b, j, klen, vlen)
        == Ok::<(Seq<u8>, Seq<u8>), Error>(rs[j]) by {
        lemma_lens_mono(rs, j + 1, n);
        lemma_lens_mono(rs, j, j + 1);
        lemma_lens_mono(rs, 0, j);
        assert(stands(b, rs, s.fixed(), ks, ve, j));
        lemma_toc_fields(b, keys_at(j, s.fixed()), rs, j, s.fixed());
        assert(rs[j].0.len() == keys_len(rs, j + 1) - keys_len(rs, j));
        assert(rs[j].1.len() == vals_len(rs, j + 1) - vals_len(rs, j));
    }
}

/// Lay out a node; refused where the records do not fit.
fn build_node(bs: usize, s: Shape, records: &Vec<FsRecord>) -> (r: Result<Vec<u8>>)
    requires
        96 <= bs <= 0x1_0000,
    ensures
        match r {
            Ok(b) => {
                &&& fits(record::recs(records@), bs as int, s.fixed(), s.root())
                &&& b@ == node(bs as nat, s, record::recs(records@))
            },
            Err(e) => e == Error::Unsupported && !fits(
                record::recs(records@),
                bs as int,
                s.fixed(),
                s.root(),
            ),
        },
{
    let ghost rs = record::recs(records@);
    let n: usize = records.len();
    let is_root = s.flags % 2 == 1;
    let fixed = s.flags / 4 % 2 == 1;
    let vals_end: usize = if is_root {
        bs - BTREE_INFO_SIZE
    } else {
        bs
    };
    proof {
        lemma_lens_mono(rs, 0, n as int);
    }
    if n > 0x4000 {
        return Err(Error::Unsupported);
    }
    let width: usize = if fixed {
        4
    } else {
        8
    };
    let toc_len: usize = if fixed {
        4 * n
    } else {
        8 * n
    };
    let keys_start: usize = 56 + toc_len;
    let mut total: usize = keys_start;
    let mut i: usize = 0;
    while i < n
        invariant
            rs == record::recs(records@),
            n == records@.len(),
            i <= n,
            fixed == s.fixed(),
            is_root == s.root(),
            vals_end == area_end(bs as int, is_root),
            bs <= 0x1_0000,
            keys_start == keys_at(n as int, fixed),
            n <= 0x4000,
            total == keys_start + keys_len(rs, i as int) + vals_len(rs, i as int),
            total <= keys_start + vals_end,
        decreases n - i,
    {
        proof {
            lemma_lens_mono(rs, (i + 1) as int, n as int);
            lemma_lens_mono(rs, i as int, (i + 1) as int);
        }
        let k: usize = records[i].key.len();
        let v: usize = records[i].val.len();
        assert(rs[i as int] == records@[i as int]@);
        if k > vals_end || v > vals_end || total + k + v > vals_end {
            return Err(Error::Unsupported);
        }
        total = total + k + v;
        i = i + 1;
    }
    if total > vals_end {
        return Err(Error::Unsupported);
    }
    broadcast use {bytes::lemma_put_len, bytes::lemma_zeros_len};

    let mut block = zero_vec(bs);
    put_u64(&mut block, 8, s.oid);
    put_u64(&mut block, 16, s.xid);
    put_u32(&mut block, 24, s.otype);
    put_u32(&mut block, 28, s.subtype);
    put_u16(&mut block, 32, s.flags);
    put_u16(&mut block, 34, s.level);
    put_u32(&mut block, 36, n as u32);
    put_u16(&mut block, 42, toc_len as u16);
    let ghost head = block@;
    proof {
        assert(head == node_head(bs as nat, s, n as int));
    }
    let mut k_cursor: usize = 0;
    let mut v_cursor: usize = 0;
    let mut i: usize = 0;
    while i < n
        invariant
            rs == record::recs(records@),
            n == records@.len(),
            i <= n,
            n <= 0x4000,
            fixed == s.fixed(),
            width == toc_width(fixed),
            keys_start == keys_at(n as int, fixed),
            vals_end == area_end(bs as int, s.root()),
            bs <= 0x1_0000,
            keys_start + keys_len(rs, n as int) + vals_len(rs, n as int) <= vals_end,
            head.len() == bs,
            block@.len() == bs,
            k_cursor == keys_len(rs, i as int),
            v_cursor == vals_len(rs, i as int),
            block@ == place(head, rs, fixed, keys_start as int, vals_end as int, i as int),
        decreases n - i,
    {
        broadcast use {bytes::lemma_put_len, bytes::lemma_le16_len};

        proof {
            lemma_lens_mono(rs, (i + 1) as int, n as int);
            lemma_lens_mono(rs, i as int, (i + 1) as int);
            lemma_lens_mono(rs, 0, i as int);
            lemma_toc_len(rs, i as int, fixed);
        }
        assert(rs[i as int] == records@[i as int]@);
        let k: usize = records[i].key.len();
        let v: usize = records[i].val.len();
        v_cursor = v_cursor + v;
        let mut row = le_u16(k_cursor as u16);
        if !fixed {
            let w = le_u16(k as u16);
            push_all(&mut row, w.as_slice());
        }
        let w = le_u16(v_cursor as u16);
        push_all(&mut row, w.as_slice());
        if !fixed {
            let w = le_u16(v as u16);
            push_all(&mut row, w.as_slice());
        }
        proof {
            assert(row@ == toc(rs, i as int, fixed));
        }
        let at: usize = if fixed {
            56 + 4 * i
        } else {
            56 + 8 * i
        };
        put_bytes(&mut block, at, row.as_slice());
        put_bytes(&mut block, keys_start + k_cursor, records[i].key.as_slice());
        put_bytes(&mut block, vals_end - v_cursor, records[i].val.as_slice());
        k_cursor = k_cursor + k;
        i = i + 1;
    }
    if is_root {
        if fixed {
            put_u32(&mut block, bs - 32, 16);
            put_u32(&mut block, bs - 28, 16);
        } else {
            put_u64(&mut block, bs - 16, n as u64);
        }
    }
    sign_block(&mut block);
    Ok(block)
}

/// Shape of a leaf of the filesystem tree.
pub open spec fn fs_leaf_shape(vid: u64, root: bool, xid: u64) -> Shape {
    Shape {
        oid: vid,
        xid,
        otype: if root {
            OBJECT_TYPE_BTREE
        } else {
            OBJECT_TYPE_BTREE_NODE
        },
        subtype: OBJECT_TYPE_FSTREE,
        flags: if root {
            3
        } else {
            2
        },
        level: 0,
    }
}

/// The leaf of the filesystem tree that holds `rs`.
pub open spec fn fs_leaf(
    rs: Seq<(Seq<u8>, Seq<u8>)>,
    bs: nat,
    vid: u64,
    root: bool,
    xid: u64,
) -> Seq<u8> {
    node(bs, fs_leaf_shape(vid, root, xid), rs)
}

/// Shape of the root of the filesystem tree above its leaves.
pub open spec fn fs_root_shape(vid: u64, xid: u64) -> Shape {
    Shape {
        oid: vid,
        xid,
        otype: OBJECT_TYPE_BTREE,
        subtype: OBJECT_TYPE_FSTREE,
        flags: 1,
        level: 1,
    }
}

/// Child entries as records: the value is the child's object id.
pub open spec fn child_recs(es: Seq<(Seq<u8>, u64)>) -> Seq<(Seq<u8>, Seq<u8>)> {
    Seq::new(es.len(), |i: int| (es[i].0, bytes::le64(es[i].1)))
}

/// The root of the filesystem tree above the leaves `es`.
pub open spec fn fs_internal_root(
    es: Seq<(Seq<u8>, u64)>,
    bs: nat,
    root_vid: u64,
    xid: u64,
) -> Seq<u8> {
    node(bs, fs_root_shape(root_vid, xid), child_recs(es))
}

/// Build a leaf of the filesystem tree.
pub fn build_fs_leaf(
    records: &Vec<FsRecord>,
    bs: usize,
    vid: u64,
    is_root: bool,
    xid: u64,
) -> (r: Result<Vec<u8>>)
    requires
        96 <= bs <= 0x1_0000,
    ensures
        match r {
            Ok(b) => {
                &&& fits(record::recs(records@), bs as int, false, is_root)
                &&& b@ == fs_leaf(record::recs(records@), bs as nat, vid, is_root, xid)
            },
            Err(e) => e == Error::Unsupported && !fits(
                record::recs(records@),
                bs as int,
                false,
                is_root,
            ),
        },
{
    let shape = Shape {
        oid: vid,
        xid,
        otype: if is_root {
            OBJECT_TYPE_BTREE
        } else {
            OBJECT_TYPE_BTREE_NODE
        },
        subtype: OBJECT_TYPE_FSTREE,
        flags: if is_root {
            3
        } else {
            2
        },
        level: 0,
    };
    build_node(bs, shape, records)
}

/// The views of child entries.
pub open spec fn child_views(s: Seq<(Vec<u8>, u64)>) -> Seq<(Seq<u8>, u64)> {
    Seq::new(s.len(), |i: int| (s[i].0@, s[i].1))
}

/// Build the root of the filesystem tree above the leaves `entries`.
pub fn build_fs_internal_root(
    entries: &Vec<(Vec<u8>, u64)>,
    bs: usize,
    root_vid: u64,
    xid: u64,
) -> (r: Result<Vec<u8>>)
    requires
        96 <= bs <= 0x1_0000,
    ensures
        match r {
            Ok(b) => {
                &&& fits(child_recs(child_views(entries@)), bs as int, false, true)
                &&& b@ == fs_internal_root(child_views(entries@), bs as nat, root_vid, xid)
            },
            Err(e) => e == Error::Unsupported && !fits(
                child_recs(child_views(entries@)),
                bs as int,
                false,
                true,
            ),
        },
{
    let ghost es = child_views(entries@);
    let mut records: Vec<FsRecord> = Vec::new();
    let mut i: usize = 0;
    while i < entries.len()
        invariant
            es == child_views(entries@),
            i <= entries@.len(),
            record::recs(records@) == child_recs(es).take(i as int),
        decreases entries@.len() - i,
    {
        let key = copy_range(entries[i].0.as_slice(), 0, entries[i].0.len());
        let val = le_u64(entries[i].1);
        let ghost before = records@;
        let ghost added = (key@, val@);
        records.push(FsRecord { key, val });
        i = i + 1;
        proof {
            assert(added == child_recs(es)[i - 1]);
            assert(record::recs(records@) =~= record::recs(before).push(added));
            assert(child_recs(es).take(i as int) =~= child_recs(es).take(i - 1).push(
                child_recs(es)[i - 1],
            ));
        }
    }
    proof {
        assert(child_recs(es).take(i as int) =~= child_recs(es));
    }
    let shape = Shape {
        oid: root_vid,
        xid,
        otype: OBJECT_TYPE_BTREE,
        subtype: OBJECT_TYPE_FSTREE,
        flags: 1,
        level: 1,
    };
    build_node(bs, shape, &records)
}

/// Key bytes of an object-map entry.
pub open spec fn omap_key_bytes(oid: u64, xid: u64) -> Seq<u8> {
    bytes::le64(oid) + bytes::le64(xid)
}

/// Object-map entries `(oid, xid, paddr)` as records. A leaf value starts with
/// flags and size, both zero; a child value is the address alone.
pub open spec fn omap_recs(es: Seq<(u64, u64, u64)>, leaf: bool) -> Seq<(Seq<u8>, Seq<u8>)> {
    Seq::new(
        es.len(),
        |i: int|
            (
                omap_key_bytes(es[i].0, es[i].1),
                if leaf {
                    bytes::le64(0) + bytes::le64(es[i].2)
                } else {
                    bytes::le64(es[i].2)
                },
            ),
    )
}

/// Shape of an object-map node.
pub open spec fn omap_shape(leaf: bool, root: bool, xid: u64) -> Shape {
    Shape {
        oid: 0,
        xid,
        otype: if root {
            (OBJECT_TYPE_BTREE + OBJ_PHYSICAL) as u32
        } else {
            (OBJECT_TYPE_BTREE_NODE + OBJ_PHYSICAL) as u32
        },
        subtype: 0,
        flags: if root && leaf {
            7
        } else if leaf {
            6
        } else {
            5
        },
        level: if leaf {
            0
        } else {
            1
        },
    }
}

/// The object-map leaf that holds `es`.
pub open spec fn omap_leaf(bs: nat, es: Seq<(u64, u64, u64)>, root: bool, xid: u64) -> Seq<u8> {
    node(bs, omap_shape(true, root, xid), omap_recs(es, true))
}

/// The object-map root above the leaves `es`.
pub open spec fn omap_internal_root(bs: nat, es: Seq<(u64, u64, u64)>, xid: u64) -> Seq<u8> {
    node(bs, omap_shape(false, true, xid), omap_recs(es, false))
}

/// Whether `n` object-map entries fit in one node.
pub open spec fn omap_fits(n: int, leaf: bool, bs: int, root: bool) -> bool {
    56 + (if leaf {
        36 * n
    } else {
        28 * n
    }) <= area_end(bs, root)
}

pub proof fn lemma_omap_lens(es: Seq<(u64, u64, u64)>, leaf: bool, i: int)
    requires
        0 <= i <= es.len(),
    ensures
        keys_len(omap_recs(es, leaf), i) == 16 * i,
        vals_len(omap_recs(es, leaf), i) == if leaf { 16 * i } else { 8 * i },
    decreases i,
{
    bytes::lemma_le_lens();
    if i > 0 {
        lemma_omap_lens(es, leaf, i - 1);
    }
}

/// Lay out an object-map node of `(oid, xid, paddr)` entries.
fn build_omap_node(
    bs: usize,
    entries: &Vec<(u64, u64, u64)>,
    leaf: bool,
    is_root: bool,
    xid: u64,
) -> (r: Result<Vec<u8>>)
    requires
        96 <= bs <= 0x1_0000,
        leaf || is_root,
    ensures
        match r {
            Ok(b) => {
                &&& omap_fits(entries@.len() as int, leaf, bs as int, is_root)
                &&& b@ == node(
                    bs as nat,
                    omap_shape(leaf, is_root, xid),
                    omap_recs(entries@, leaf),
                )
            },
            Err(e) => e == Error::Unsupported && !omap_fits(
                entries@.len() as int,
                leaf,
                bs as int,
                is_root,
            ),
        },
{
    let ghost rs = omap_recs(entries@, leaf);
    let mut records: Vec<FsRecord> = Vec::new();
    let mut i: usize = 0;
    while i < entries.len()
        invariant
            rs == omap_recs(entries@, leaf),
            i <= entries@.len(),
            record::recs(records@) == rs.take(i as int),
        decreases entries@.len() - i,
    {
        let (oid, exid, paddr) = entries[i];
        let mut key = le_u64(oid);
        let w = le_u64(exid);
        push_all(&mut key, w.as_slice());
        let mut val: Vec<u8> = Vec::new();
        if leaf {
            val = le_u64(0);
        }
        let w = le_u64(paddr);
        push_all(&mut val, w.as_slice());
        let ghost before = records@;
        let ghost added = (key@, val@);
        proof {
            assert(val@ =~= rs[i as int].1);
            assert(key@ =~= rs[i as int].0);
        }
        records.push(FsRecord { key, val });
        i = i + 1;
        proof {
            assert(record::recs(records@) =~= record::recs(before).push(added));
            assert(rs.take(i as int) =~= rs.take(i - 1).push(rs[i - 1]));
        }
    }
    proof {
        assert(rs.take(i as int) =~= rs);
        lemma_omap_lens(entries@, leaf, rs.len() as int);
    }
    let shape = Shape {
        oid: 0,
        xid,
        otype: if is_root {
            OBJECT_TYPE_BTREE + OBJ_PHYSICAL
        } else {
            OBJECT_TYPE_BTREE_NODE + OBJ_PHYSICAL
        },
        subtype: 0,
        flags: if is_root && leaf {
            7
        } else if leaf {
            6
        } else {
            5
        },
        level: if leaf {
            0
        } else {
            1
        },
    };
    build_node(bs, shape, &records)
}

/// Build an object-map leaf.
pub fn build_omap_leaf_node(
    bs: usize,
    entries: &Vec<(u64, u64, u64)>,
    is_root: bool,
    xid: u64,
) -> (r: Result<Vec<u8>>)
    requires
        96 <= bs <= 0x1_0000,
    ensures
        match r {
            Ok(b) => {
                &&& omap_fits(entries@.len() as int, true, bs as int, is_root)
                &&& b@ == omap_leaf(bs as nat, entries@, is_root, xid)
            },
            Err(e) => e == Error::Unsupported && !omap_fits(
                entries@.len() as int,
                true,
                bs as int,
                is_root,
            ),
        },
{
    build_omap_node(bs, entries, true, is_root, xid)
}

/// Build the object-map root above the leaves `entries`.
pub fn build_omap_internal_root(bs: usize, entries: &Vec<(u64, u64, u64)>, xid: u64) -> (r: Result<
    Vec<u8>,
>)
    requires
        96 <= bs <= 0x1_0000,
    ensures
        match r {
            Ok(b) => {
                &&& omap_fits(entries@.len() as int, false, bs as int, true)
                &&& b@ == omap_internal_root(bs as nat, entries@, xid)
            },
            Err(e) => e == Error::Unsupported && !omap_fits(
                entries@.len() as int,
                false,
                bs as int,
                true,
            ),
        },
{
    build_omap_node(bs, entries, false, true, xid)
}

} // verus!
