//! Which object a record belongs to, and picking the records of one object.

use vstd::prelude::*;

use crate::apfs::fstree::DrecKeyLayout;
use crate::apfs::jrec;
use crate::apfs::pack::{self, Rec};
use crate::apfs::record;
use crate::bytes;
use crate::order::Order;
use crate::text;

use super::tree;

verus! {

/// Picking from two lists one after the other.
pub proof fn lemma_those_add(a: Seq<Rec>, b: Seq<Rec>, p: (u64, u8))
    ensures
        tree::those(a + b, p) == tree::those(a, p) + tree::those(b, p),
    decreases a.len(),
{
    if a.len() == 0 {
        assert(a + b =~= b);
        assert(tree::those(a, p) + tree::those(b, p) =~= tree::those(b, p));
    } else {
        assert((a + b).drop_first() =~= a.drop_first() + b);
        lemma_those_add(a.drop_first(), b, p);
        if tree::owner(a[0]) == p {
            assert(seq![a[0]] + (tree::those(a.drop_first(), p) + tree::those(b, p)) =~= (seq![a[0]]
                + tree::those(a.drop_first(), p)) + tree::those(b, p));
        }
    }
}

/// Picking from one record.
pub proof fn lemma_those_one(r: Rec, p: (u64, u8))
    ensures
        tree::those(seq![r], p) == if tree::owner(r) == p {
            seq![r]
        } else {
            Seq::<Rec>::empty()
        },
{
    assert(seq![r].drop_first() =~= Seq::<Rec>::empty());
    assert(tree::those(Seq::<Rec>::empty(), p) =~= Seq::<Rec>::empty());
    assert(seq![r] + Seq::<Rec>::empty() =~= seq![r]);
}

/// How often a record is picked.
proof fn lemma_those_count(rs: Seq<Rec>, p: (u64, u8), v: Rec)
    ensures
        tree::those(rs, p).to_multiset().count(v) == if tree::owner(v) == p {
            rs.to_multiset().count(v)
        } else {
            0
        },
    decreases rs.len(),
{
    broadcast use {
        vstd::multiset::group_multiset_axioms,
        vstd::seq_lib::group_to_multiset_ensures,
    };

    if rs.len() == 0 {
        assert(!rs.contains(v));
        assert(!tree::those(rs, p).contains(v));
    } else {
        let d = rs.drop_first();
        lemma_those_count(d, p, v);
        assert(rs =~= seq![rs[0]] + d);
        vstd::seq_lib::lemma_multiset_commutative(seq![rs[0]], d);
        vstd::seq_lib::lemma_multiset_commutative(seq![rs[0]], tree::those(d, p));
        assert(seq![rs[0]] =~= Seq::<Rec>::empty().push(rs[0]));
    }
}

/// Sorting first picks the same records.
pub proof fn lemma_those_sort(rs: Seq<Rec>, p: (u64, u8))
    ensures
        tree::those(pack::sort(rs), p).to_multiset() == tree::those(rs, p).to_multiset(),
        tree::those(pack::sort(rs), p).len() == tree::those(rs, p).len(),
        forall|r: Rec| #[trigger]
            tree::those(pack::sort(rs), p).contains(r) <==> tree::those(rs, p).contains(r),
{
    broadcast use vstd::seq_lib::group_to_multiset_ensures;

    pack::lemma_sort(rs);
    let a = tree::those(pack::sort(rs), p);
    let b = tree::those(rs, p);
    assert forall|v: Rec| a.to_multiset().count(v) == b.to_multiset().count(v) by {
        lemma_those_count(rs, p, v);
        lemma_those_count(pack::sort(rs), p, v);
    }
    assert(a.to_multiset() =~= b.to_multiset());
    assert(a.to_multiset().len() == a.len());
    assert(b.to_multiset().len() == b.len());
    assert forall|r: Rec| #[trigger] a.contains(r) <==> b.contains(r) by {
        assert(a.contains(r) <==> a.to_multiset().contains(r));
        assert(b.contains(r) <==> b.to_multiset().contains(r));
    }
}

/// A single record is picked from the sorted records too.
pub proof fn lemma_sole(rs: Seq<Rec>, p: (u64, u8), r: Rec)
    requires
        tree::those(rs, p) == seq![r],
    ensures
        tree::those(pack::sort(rs), p) == seq![r],
{
    lemma_those_sort(rs, p);
    let a = tree::those(pack::sort(rs), p);
    assert(tree::those(rs, p)[0] == r);
    assert(tree::those(rs, p).contains(r));
    assert(a.contains(r));
    assert(a =~= seq![r]);
}

/// What is picked belongs to the object, and is one of the records.
pub proof fn lemma_those_in(rs: Seq<Rec>, p: (u64, u8), r: Rec)
    ensures
        tree::those(rs, p).contains(r) <==> rs.contains(r) && tree::owner(r) == p,
    decreases rs.len(),
{
    if rs.len() > 0 {
        let d = rs.drop_first();
        lemma_those_in(d, p, r);
        let t = tree::those(rs, p);
        let u = tree::those(d, p);
        if rs.contains(r) && tree::owner(r) == p {
            let i = choose|i: int| 0 <= i < rs.len() && rs[i] == r;
            if i == 0 {
                assert(t[0] == r);
            } else {
                assert(d[i - 1] == r);
                let j = choose|j: int| 0 <= j < u.len() && u[j] == r;
                if tree::owner(rs[0]) == p {
                    assert(t[j + 1] == r);
                }
            }
        }
        if t.contains(r) {
            let j = choose|j: int| 0 <= j < t.len() && t[j] == r;
            if tree::owner(rs[0]) == p {
                if j == 0 {
                    assert(rs[0] == r);
                } else {
                    assert(u[j - 1] == r);
                    let i = choose|i: int| 0 <= i < d.len() && d[i] == r;
                    assert(rs[i + 1] == r);
                }
            } else {
                assert(u[j] == r);
                let i = choose|i: int| 0 <= i < d.len() && d[i] == r;
                assert(rs[i + 1] == r);
            }
        }
    }
}

/// Whether two records have the same key of a key word alone.
pub open spec fn clash(a: Rec, b: Rec) -> bool {
    a.0.len() == 8 && b.0.len() == 8 && tree::owner(a) == tree::owner(b)
}

proof fn lemma_insert_unrepeated(s: Seq<Rec>, r: Rec)
    requires
        tree::unrepeated(s),
        forall|i: int| 0 <= i < s.len() ==> !clash(#[trigger] s[i], r),
    ensures
        tree::unrepeated(pack::insert(s, r)),
        forall|i: int|
            0 <= i < pack::insert(s, r).len() ==> (#[trigger] pack::insert(s, r)[i]) == r
                || s.contains(pack::insert(s, r)[i]),
    decreases s.len(),
{
    if s.len() == 0 || pack::order_keys(s.last().0, r.0) != Order::Greater {
        let t = s.push(r);
        assert forall|i: int| 0 <= i < t.len() implies (#[trigger] t[i]) == r || s.contains(
            t[i],
        ) by {
            if i < s.len() {
                assert(s[i] == t[i]);
            }
        }
        assert forall|i: int, j: int|
            #![trigger t[i], t[j]]
            0 <= i < j < t.len() && t[i].0.len() == 8 && t[j].0.len() == 8 implies tree::owner(t[i])
            != tree::owner(t[j]) by {
            assert(!clash(s[i], r));
        }
    } else {
        let d = s.drop_last();
        assert forall|i: int| 0 <= i < d.len() implies !clash(#[trigger] d[i], r) by {
            assert(d[i] == s[i]);
        }
        lemma_insert_unrepeated(d, r);
        let u = pack::insert(d, r);
        let t = u.push(s.last());
        assert(s.last() == s[s.len() - 1]);
        assert forall|i: int| 0 <= i < u.len() implies (u[i] == r || s.contains(#[trigger] u[i]))
            && !clash(u[i], s.last()) by {
            if u[i] == r {
                assert(!clash(s[s.len() - 1], r));
            } else {
                assert(d.contains(u[i]));
                let k = choose|k: int| 0 <= k < d.len() && d[k] == u[i];
                assert(s[k] == u[i]);
            }
        }
        assert forall|i: int| 0 <= i < t.len() implies (#[trigger] t[i]) == r || s.contains(
            t[i],
        ) by {
            if i < u.len() {
                assert(u[i] == t[i]);
            }
        }
        assert forall|i: int, j: int|
            #![trigger t[i], t[j]]
            0 <= i < j < t.len() && t[i].0.len() == 8 && t[j].0.len() == 8 implies tree::owner(t[i])
            != tree::owner(t[j]) by {
            assert(u[i] == t[i]);
            if j == u.len() {
                assert(!clash(u[i], s.last()));
            } else {
                assert(u[j] == t[j]);
            }
        }
    }
}

/// Sorting does not repeat keys.
pub proof fn lemma_unrepeated_sort(rs: Seq<Rec>)
    requires
        tree::unrepeated(rs),
    ensures
        tree::unrepeated(pack::sort(rs)),
        forall|i: int|
            0 <= i < pack::sort(rs).len() ==> rs.contains(#[trigger] pack::sort(rs)[i]),
    decreases rs.len(),
{
    if rs.len() > 0 {
        let d = rs.drop_last();
        let r = rs.last();
        assert(r == rs[rs.len() - 1]);
        assert forall|i: int, j: int|
            #![trigger d[i], d[j]]
            0 <= i < j < d.len() && d[i].0.len() == 8 && d[j].0.len() == 8 implies tree::owner(d[i])
            != tree::owner(d[j]) by {
            assert(d[i] == rs[i] && d[j] == rs[j]);
        }
        lemma_unrepeated_sort(d);
        let s = pack::sort(d);
        assert forall|i: int| 0 <= i < s.len() implies !clash(#[trigger] s[i], r) by {
            assert(d.contains(s[i]));
            let k = choose|k: int| 0 <= k < d.len() && d[k] == s[i];
            assert(rs[k] == s[i]);
        }
        lemma_insert_unrepeated(s, r);
        let t = pack::sort(rs);
        assert forall|i: int| 0 <= i < t.len() implies rs.contains(#[trigger] t[i]) by {
            if t[i] != r {
                let k = choose|k: int| 0 <= k < s.len() && s[k] == t[i];
                assert(d.contains(s[k]));
                let n = choose|n: int| 0 <= n < d.len() && d[n] == s[k];
                assert(rs[n] == t[i]);
            }
        }
    }
}

// ---- the owners of the records that a writer makes ----

proof fn lemma_word(k: Seq<u8>, kind: u8, oid: u64)
    requires
        kind < 16,
        k.len() >= 8,
        k.subrange(0, 8) == bytes::le64(jrec::key_word(kind, oid)),
    ensures
        jrec::key_oid(k) == oid % jrec::KIND_UNIT,
        jrec::key_kind(k) == kind,
{
    let w = jrec::key_word(kind, oid);
    bytes::lemma_le_lens();
    bytes::lemma_get_le(0, 0, w);
    assert(bytes::le64(w).subrange(0, 8) =~= bytes::le64(w));
    bytes::lemma_get_agree(k, 0, bytes::le64(w), 0);
    jrec::lemma_key_word(kind, oid);
}

/// Owner and length of an inode key.
pub proof fn lemma_inode_key(oid: u64, v: Seq<u8>)
    ensures
        tree::owner((record::inode_key(oid), v)) == (
            (oid % jrec::KIND_UNIT) as u64,
            jrec::APFS_TYPE_INODE,
        ),
        record::inode_key(oid).len() == 8,
{
    bytes::lemma_le_lens();
    let k = record::inode_key(oid);
    assert(k.subrange(0, 8) =~= k);
    lemma_word(k, jrec::APFS_TYPE_INODE, oid);
}

/// Owner and length of the key of a directory record.
pub proof fn lemma_drec_key(parent: u64, name: Seq<char>, v: Seq<u8>)
    ensures
        tree::owner((record::drec_key(parent, name, DrecKeyLayout::Plain, false), v)) == (
            (parent % jrec::KIND_UNIT) as u64,
            jrec::APFS_TYPE_DIR_REC,
        ),
        record::drec_key(parent, name, DrecKeyLayout::Plain, false).len() == 11 + text::utf8(
            name,
        ).len(),
{
    bytes::lemma_le_lens();
    let k = record::drec_key(parent, name, DrecKeyLayout::Plain, false);
    assert(k.subrange(0, 8) =~= bytes::le64(jrec::key_word(jrec::APFS_TYPE_DIR_REC, parent)));
    lemma_word(k, jrec::APFS_TYPE_DIR_REC, parent);
}

/// Owner and length of the key of a file extent, and the position it holds.
pub proof fn lemma_extent_key(oid: u64, addr: u64, v: Seq<u8>)
    ensures
        tree::owner((record::extent_record_key(oid, addr), v)) == (
            (oid % jrec::KIND_UNIT) as u64,
            jrec::APFS_TYPE_FILE_EXTENT,
        ),
        record::extent_record_key(oid, addr).len() == 16,
        bytes::get64(record::extent_record_key(oid, addr), 8) == addr,
{
    bytes::lemma_le_lens();
    let k = record::extent_record_key(oid, addr);
    assert(k.subrange(0, 8) =~= bytes::le64(jrec::key_word(jrec::APFS_TYPE_FILE_EXTENT, oid)));
    lemma_word(k, jrec::APFS_TYPE_FILE_EXTENT, oid);
    bytes::lemma_get_le(0, 0, addr);
    assert(k.subrange(8, 16) =~= bytes::le64(addr).subrange(0, 8));
    bytes::lemma_get_agree(k, 8, bytes::le64(addr), 0);
}

/// Owner and length of the key of a data-stream record.
pub proof fn lemma_dstream_key(oid: u64, v: Seq<u8>)
    ensures
        tree::owner((bytes::le64(jrec::key_word(jrec::APFS_TYPE_DSTREAM_ID, oid)), v)) == (
            (oid % jrec::KIND_UNIT) as u64,
            jrec::APFS_TYPE_DSTREAM_ID,
        ),
        bytes::le64(jrec::key_word(jrec::APFS_TYPE_DSTREAM_ID, oid)).len() == 8,
{
    bytes::lemma_le_lens();
    let k = bytes::le64(jrec::key_word(jrec::APFS_TYPE_DSTREAM_ID, oid));
    assert(k.subrange(0, 8) =~= k);
    lemma_word(k, jrec::APFS_TYPE_DSTREAM_ID, oid);
}

/// Owner and length of the key of an extended attribute.
pub proof fn lemma_xattr_key(oid: u64, name: Seq<char>, v: Seq<u8>)
    ensures
        tree::owner((record::xattr_key(oid, name), v)) == (
            (oid % jrec::KIND_UNIT) as u64,
            jrec::APFS_TYPE_XATTR,
        ),
        record::xattr_key(oid, name).len() == 11 + text::utf8(name).len(),
{
    bytes::lemma_le_lens();
    let k = record::xattr_key(oid, name);
    assert(k.subrange(0, 8) =~= bytes::le64(jrec::key_word(jrec::APFS_TYPE_XATTR, oid)));
    lemma_word(k, jrec::APFS_TYPE_XATTR, oid);
}

} // verus!
