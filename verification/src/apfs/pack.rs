//! Sorting the records of the filesystem tree and packing them into leaves.

use vstd::prelude::*;
use vstd::slice::slice_subrange;

use crate::apfs::jrec::{self, split_obj_id};
use crate::apfs::record::{self, FsRecord};
use crate::bytes::{copy_range, get_u64};
use crate::error::{Error, Result};
use crate::num;
use crate::order::{self, order_bytes, order_u64, Order};

verus! {

/// Key and value of a record.
pub type Rec = (Seq<u8>, Seq<u8>);

/// Order of two tree keys: by object id, then kind, then the bytes behind the
/// key word.
pub open spec fn order_keys(a: Seq<u8>, b: Seq<u8>) -> Order {
    if jrec::key_oid(a) != jrec::key_oid(b) {
        order::order_int(jrec::key_oid(a) as int, jrec::key_oid(b) as int)
    } else if jrec::key_kind(a) != jrec::key_kind(b) {
        order::order_int(jrec::key_kind(a) as int, jrec::key_kind(b) as int)
    } else {
        order::lex(a.skip(8), b.skip(8))
    }
}

/// Compare two tree keys.
fn order_record_keys(a: &[u8], b: &[u8]) -> (r: Order)
    requires
        a@.len() >= 8,
        b@.len() >= 8,
    ensures
        r == order_keys(a@, b@),
{
    let (ka, oa) = split_obj_id(get_u64(a, 0));
    let (kb, ob) = split_obj_id(get_u64(b, 0));
    if oa != ob {
        return order_u64(oa, ob);
    }
    if ka != kb {
        return order_u64(ka as u64, kb as u64);
    }
    let ta = slice_subrange(a, 8, a.len());
    let tb = slice_subrange(b, 8, b.len());
    proof {
        assert(ta@ =~= a@.skip(8));
        assert(tb@ =~= b@.skip(8));
    }
    order_bytes(ta, tb)
}

/// `s` with `r` put behind the last record that is not above it.
pub open spec fn insert(s: Seq<Rec>, r: Rec) -> Seq<Rec>
    decreases s.len(),
{
    if s.len() == 0 || order_keys(s.last().0, r.0) != Order::Greater {
        s.push(r)
    } else {
        insert(s.drop_last(), r).push(s.last())
    }
}

/// The records `rs` in order; records with equal keys keep their places.
pub open spec fn sort(rs: Seq<Rec>) -> Seq<Rec>
    decreases rs.len(),
{
    if rs.len() == 0 {
        rs
    } else {
        insert(sort(rs.drop_last()), rs.last())
    }
}

/// Whether the records `s` stand in order.
pub open spec fn ordered(s: Seq<Rec>) -> bool {
    forall|i: int, j: int|
        #![trigger s[i], s[j]]
        0 <= i < j < s.len() ==> order_keys(s[i].0, s[j].0) != Order::Greater
}

/// Whether every key of `s` holds a key word.
pub open spec fn keyed(s: Seq<Rec>) -> bool {
    forall|i: int| 0 <= i < s.len() ==> (#[trigger] s[i]).0.len() >= 8
}

/// Comparing keys the other way round flips the outcome.
pub proof fn lemma_order_flip(a: Seq<u8>, b: Seq<u8>)
    ensures
        order_keys(b, a) == order::flip(order_keys(a, b)),
{
    order::lemma_lex_flip(a.skip(8), b.skip(8));
}

/// The order of keys is transitive.
pub proof fn lemma_order_trans(a: Seq<u8>, b: Seq<u8>, c: Seq<u8>)
    requires
        order_keys(a, b) != Order::Greater,
        order_keys(b, c) != Order::Greater,
    ensures
        order_keys(a, c) != Order::Greater,
        order_keys(a, b) == Order::Less || order_keys(b, c) == Order::Less ==> order_keys(a, c)
            == Order::Less,
{
    if jrec::key_oid(a) == jrec::key_oid(b) && jrec::key_oid(b) == jrec::key_oid(c)
        && jrec::key_kind(a) == jrec::key_kind(b) && jrec::key_kind(b) == jrec::key_kind(c) {
        order::lemma_lex_trans(a.skip(8), b.skip(8), c.skip(8));
    }
}

/// Inserting cuts the list in two and puts the record between.
proof fn lemma_insert_at(s: Seq<Rec>, r: Rec, p: int)
    requires
        0 <= p <= s.len(),
        forall|i: int|
            p <= i < s.len() ==> order_keys((#[trigger] s[i]).0, r.0) == Order::Greater,
        p > 0 ==> order_keys(s[p - 1].0, r.0) != Order::Greater,
    ensures
        insert(s, r) == s.insert(p, r),
    decreases s.len(),
{
    if p < s.len() {
        assert(s.last() == s[s.len() - 1]);
        lemma_insert_at(s.drop_last(), r, p);
        assert(s.drop_last().insert(p, r).push(s.last()) =~= s.insert(p, r));
    } else {
        assert(s.push(r) =~= s.insert(p, r));
    }
}

/// Inserting keeps order, and holds the old records and the new one.
proof fn lemma_insert(s: Seq<Rec>, r: Rec)
    requires
        ordered(s),
    ensures
        ordered(insert(s, r)),
        insert(s, r).len() == s.len() + 1,
        insert(s, r).to_multiset() == s.to_multiset().insert(r),
        keyed(s) && r.0.len() >= 8 ==> keyed(insert(s, r)),
    decreases s.len(),
{
    broadcast use vstd::seq_lib::group_to_multiset_ensures;

    if s.len() == 0 || order_keys(s.last().0, r.0) != Order::Greater {
        let t = s.push(r);
        assert forall|i: int, j: int|
            #![trigger t[i], t[j]]
            0 <= i < j < t.len() implies order_keys(t[i].0, t[j].0) != Order::Greater by {
            if j == s.len() && i < s.len() - 1 {
                lemma_order_trans(s[i].0, s.last().0, r.0);
            }
        }
    } else {
        let d = s.drop_last();
        lemma_insert(d, r);
        let u = insert(d, r);
        let t = u.push(s.last());
        assert(s =~= d.push(s.last()));
        assert forall|i: int, j: int|
            #![trigger t[i], t[j]]
            0 <= i < j < t.len() implies order_keys(t[i].0, t[j].0) != Order::Greater by {
            if j == u.len() {
                assert(u.contains(u[i]));
                assert(u.to_multiset().contains(u[i]));
                if u[i] == r {
                    lemma_order_flip(s.last().0, r.0);
                } else {
                    assert(d.to_multiset().contains(u[i]));
                    assert(d.contains(u[i]));
                    let m = choose|m: int| 0 <= m < d.len() && d[m] == u[i];
                    assert(s[m] == u[i]);
                    assert(order_keys(s[m].0, s[s.len() - 1].0) != Order::Greater);
                }
            }
        }
    }
}

/// Sorting puts the records in order and neither drops nor adds one.
pub proof fn lemma_sort(rs: Seq<Rec>)
    ensures
        ordered(sort(rs)),
        sort(rs).len() == rs.len(),
        sort(rs).to_multiset() == rs.to_multiset(),
        keyed(rs) ==> keyed(sort(rs)),
    decreases rs.len(),
{
    broadcast use vstd::seq_lib::group_to_multiset_ensures;

    if rs.len() > 0 {
        let d = rs.drop_last();
        lemma_sort(d);
        lemma_insert(sort(d), rs.last());
        assert(rs =~= d.push(rs.last()));
        if keyed(rs) {
            assert(keyed(d));
            assert(rs.last() == rs[rs.len() - 1]);
        }
    }
}

/// Sort `records`, keeping records with equal keys in place.
pub fn sort_records(records: &mut Vec<FsRecord>)
    requires
        keyed(record::recs(old(records)@)),
    ensures
        record::recs(final(records)@) == sort(record::recs(old(records)@)),
{
    let ghost rs = record::recs(records@);
    let n: usize = records.len();
    let mut i: usize = 0;
    proof {
        assert(record::recs(records@) =~= sort(rs.take(0)) + rs.skip(0));
    }
    while i < n
        invariant
            i <= n,
            n == records@.len(),
            n == rs.len(),
            keyed(rs),
            sort(rs.take(i as int)).len() == i,
            record::recs(records@) == sort(rs.take(i as int)) + rs.skip(i as int),
        decreases n - i,
    {
        let ghost s = sort(rs.take(i as int));
        let ghost before = record::recs(records@);
        let ghost r = rs[i as int];
        proof {
            lemma_sort(rs.take(i as int));
            assert(before[i as int] == r);
            assert(records@[i as int]@ == r);
            assert(rs.take(i + 1).drop_last() =~= rs.take(i as int));
            assert(rs.take(i + 1).last() == r);
            lemma_insert(s, r);
        }
        let mut p: usize = i;
        while p > 0
            invariant
                p <= i < n,
                n == records@.len(),
                before == record::recs(records@),
                before == s + rs.skip(i as int),
                s.len() == i,
                r == rs[i as int],
                n == rs.len(),
                records@[i as int]@ == r,
                keyed(s),
                keyed(rs),
                forall|k: int|
                    p <= k < i ==> order_keys((#[trigger] s[k]).0, r.0) == Order::Greater,
            ensures
                p > 0 ==> order_keys(s[p - 1].0, r.0) != Order::Greater,
            decreases p,
        {
            proof {
                assert(before[p - 1] == s[p - 1]);
                assert(records@[p - 1]@ == before[p - 1]);
                assert(s[p - 1].0.len() >= 8);
                assert(rs[i as int].0.len() >= 8);
            }
            if order_record_keys(records[p - 1].key.as_slice(), records[i].key.as_slice())
                != Order::Greater {
                break;
            }
            p = p - 1;
        }
        proof {
            lemma_insert_at(s, r, p as int);
        }
        let ghost held = records@;
        let rec = records.remove(i);
        let ghost cut = records@;
        records.insert(p, rec);
        proof {
            assert(cut =~= held.remove(i as int));
            assert(record::recs(cut) =~= before.remove(i as int));
            assert(records@ =~= cut.insert(p as int, rec));
            let now = record::recs(records@);
            assert(now =~= before.remove(i as int).insert(p as int, r));
            assert(before.remove(i as int) =~= s + rs.skip(i + 1));
            assert(now =~= s.insert(p as int, r) + rs.skip(i + 1));
        }
        i = i + 1;
    }
    proof {
        assert(rs.take(n as int) =~= rs);
        assert(record::recs(records@) =~= sort(rs));
    }
}

/// Bytes that a record takes in a leaf, its table entry included.
pub open spec fn need(r: Rec) -> int {
    8int + r.0.len() + r.1.len()
}

/// Bytes that the records `s` take in a leaf.
pub open spec fn needs(s: Seq<Rec>) -> int
    decreases s.len(),
{
    if s.len() == 0 {
        0
    } else {
        needs(s.drop_last()) + need(s.last())
    }
}

/// Leaves that are full, and the one that is being filled.
#[verifier::ext_equal]
pub struct Packing {
    pub full: Seq<Seq<Rec>>,
    pub cur: Seq<Rec>,
}

/// The first `i` records packed in order: a record that does not fit starts a
/// new leaf. `None` where one does not fit even alone.
pub open spec fn pack_upto(rs: Seq<Rec>, cap: int, i: int) -> Option<Packing>
    decreases i,
{
    if i <= 0 {
        Some(Packing { full: Seq::empty(), cur: Seq::empty() })
    } else {
        match pack_upto(rs, cap, i - 1) {
            None => None,
            Some(p) => if need(rs[i - 1]) > cap {
                None
            } else if p.cur.len() > 0 && needs(p.cur) + need(rs[i - 1]) > cap {
                Some(Packing { full: p.full.push(p.cur), cur: seq![rs[i - 1]] })
            } else {
                Some(Packing { full: p.full, cur: p.cur.push(rs[i - 1]) })
            },
        }
    }
}

/// The records `rs` packed into leaves of `cap` bytes; one empty leaf where
/// there are none.
pub open spec fn pack(rs: Seq<Rec>, cap: int) -> Result<Seq<Seq<Rec>>> {
    match pack_upto(rs, cap, rs.len() as int) {
        None => Err(Error::Unsupported),
        Some(p) => Ok(p.full.push(p.cur)),
    }
}

/// The leaves' records one after another.
pub open spec fn concat(ls: Seq<Seq<Rec>>) -> Seq<Rec>
    decreases ls.len(),
{
    if ls.len() == 0 {
        Seq::empty()
    } else {
        concat(ls.drop_last()) + ls.last()
    }
}

/// Packing keeps all the records in order, fills no leaf beyond its capacity,
/// and leaves none empty unless there are no records at all.
pub proof fn lemma_pack_upto(rs: Seq<Rec>, cap: int, i: int)
    requires
        0 <= i <= rs.len(),
        pack_upto(rs, cap, i) is Some,
        0 <= cap,
    ensures
        ({
            let p = pack_upto(rs, cap, i).unwrap();
            &&& concat(p.full) + p.cur == rs.take(i)
            &&& needs(p.cur) <= cap
            &&& i > 0 ==> p.cur.len() > 0
            &&& i == 0 ==> p.full.len() == 0
            &&& forall|k: int|
                0 <= k < p.full.len() ==> (#[trigger] p.full[k]).len() > 0 && needs(p.full[k])
                    <= cap
        }),
    decreases i,
{
    let p = pack_upto(rs, cap, i).unwrap();
    if i > 0 {
        lemma_pack_upto(rs, cap, i - 1);
        let q = pack_upto(rs, cap, i - 1).unwrap();
        let r = rs[i - 1];
        assert(rs.take(i) =~= rs.take(i - 1).push(r));
        assert(seq![r].drop_last() =~= Seq::empty());
        assert(q.cur.push(r).drop_last() =~= q.cur);
        if q.cur.len() > 0 && needs(q.cur) + need(r) > cap {
            assert(q.full.push(q.cur).drop_last() =~= q.full);
            reveal_with_fuel(needs, 2);
            assert(concat(p.full) + p.cur =~= rs.take(i));
        } else {
            if q.cur.len() == 0 {
                assert(q.cur =~= Seq::empty());
            }
            assert(concat(p.full) + p.cur =~= rs.take(i));
        }
    } else {
        assert(concat(p.full) + p.cur =~= rs.take(i));
    }
}

/// Packing keeps all the records in order, fills no leaf beyond its capacity,
/// and leaves none empty unless there are no records at all.
pub proof fn lemma_pack(rs: Seq<Rec>, cap: int)
    requires
        pack(rs, cap) is Ok,
        0 <= cap,
    ensures
        ({
            let ls = pack(rs, cap).unwrap();
            &&& concat(ls) == rs
            &&& ls.len() > 0
            &&& forall|k: int| 0 <= k < ls.len() ==> needs(#[trigger] ls[k]) <= cap
            &&& rs.len() > 0 ==> forall|k: int| 0 <= k < ls.len() ==> (#[trigger] ls[k]).len() > 0
            &&& rs.len() == 0 ==> ls.len() == 1
        }),
{
    let n = rs.len() as int;
    lemma_pack_upto(rs, cap, n);
    let p = pack_upto(rs, cap, n).unwrap();
    assert(p.full.push(p.cur).drop_last() =~= p.full);
    assert(rs.take(n) =~= rs);
}

/// A copy of a record.
pub fn copy_record(r: &FsRecord) -> (c: FsRecord)
    ensures
        c@ == r@,
{
    let key = copy_range(r.key.as_slice(), 0, r.key.len());
    let val = copy_range(r.val.as_slice(), 0, r.val.len());
    proof {
        assert(key@ =~= r.key@);
        assert(val@ =~= r.val@);
    }
    FsRecord { key, val }
}

/// The views of lists of records.
pub open spec fn leaf_views(s: Seq<Vec<FsRecord>>) -> Seq<Seq<Rec>> {
    Seq::new(s.len(), |i: int| record::recs(s[i]@))
}

/// Pack a sorted record list into leaves of `cap` bytes, the 8-byte table entry
/// of each record included.
pub fn pack_records_into_leaves(records: &Vec<FsRecord>, cap: usize) -> (r: Result<
    Vec<Vec<FsRecord>>,
>)
    ensures
        match r {
            Ok(v) => pack(record::recs(records@), cap as int) == Ok::<Seq<Seq<Rec>>, Error>(
                leaf_views(v@),
            ),
            Err(e) => pack(record::recs(records@), cap as int) == Err::<Seq<Seq<Rec>>, Error>(e),
        },
{
    let ghost rs = record::recs(records@);
    let mut leaves: Vec<Vec<FsRecord>> = Vec::new();
    let mut cur: Vec<FsRecord> = Vec::new();
    let mut cur_bytes: usize = 0;
    let mut i: usize = 0;
    let ghost mut p: Packing = Packing { full: Seq::empty(), cur: Seq::empty() };
    proof {
        assert(leaf_views(leaves@) =~= p.full);
        assert(record::recs(cur@) =~= p.cur);
    }
    while i < records.len()
        invariant
            rs == record::recs(records@),
            i <= records@.len(),
            pack_upto(rs, cap as int, i as int) == Some(p),
            leaf_views(leaves@) == p.full,
            record::recs(cur@) == p.cur,
            cur_bytes == needs(p.cur),
            cur_bytes <= cap,
        decreases records@.len() - i,
    {
        let k: usize = records[i].key.len();
        let v: usize = records[i].val.len();
        proof {
            assert(rs[i as int] == records@[i as int]@);
            assert(need(rs[i as int]) == 8 + k + v);
            assert forall|m: int| i < m <= rs.len() && need(rs[i as int]) > cap implies
                #[trigger] pack_upto(rs, cap as int, m) is None by {
                lemma_pack_none(rs, cap as int, i + 1, m);
            }
        }
        if cap < 8 || k > cap - 8 || v > cap - 8 - k {
            assert(pack_upto(rs, cap as int, rs.len() as int) is None);
            return Err(Error::Unsupported);
        }
        let needed: usize = 8 + k + v;
        let rec = copy_record(&records[i]);
        let ghost old_cur = cur@;
        let ghost old_leaves = leaves@;
        if cur.len() > 0 && needed > cap - cur_bytes {
            leaves.push(cur);
            cur = Vec::new();
            cur.push(rec);
            cur_bytes = needed;
            proof {
                let r = rs[i as int];
                assert(leaf_views(leaves@) =~= p.full.push(p.cur));
                assert(record::recs(cur@) =~= seq![r]);
                p = Packing { full: p.full.push(p.cur), cur: seq![r] };
                assert(seq![r].drop_last() =~= Seq::empty());
                reveal_with_fuel(needs, 2);
            }
        } else {
            cur.push(rec);
            proof {
                let r = rs[i as int];
                assert(record::recs(cur@) =~= p.cur.push(r));
                assert(p.cur.push(r).drop_last() =~= p.cur);
                if p.cur.len() == 0 {
                    assert(p.cur =~= Seq::empty());
                }
                p = Packing { full: p.full, cur: p.cur.push(r) };
            }
            cur_bytes = cur_bytes + needed;
        }
        i = i + 1;
    }
    leaves.push(cur);
    proof {
        assert(leaf_views(leaves@) =~= p.full.push(p.cur));
    }
    Ok(leaves)
}

proof fn lemma_pack_none(rs: Seq<Rec>, cap: int, i: int, m: int)
    requires
        0 <= i <= m,
        i > 0,
        need(rs[i - 1]) > cap,
    ensures
        pack_upto(rs, cap, m) is None,
    decreases m,
{
    if m > i {
        lemma_pack_none(rs, cap, i, m - 1);
    }
}

/// Object-map entries that one leaf takes.
pub open spec fn omap_per_leaf(bs: int) -> int {
    (bs - 96) / 36
}

/// Number of leaves for `n` object-map entries.
pub open spec fn omap_leaf_count(n: int, m: int) -> int {
    if n == 0 {
        1
    } else {
        num::div_up(n, m)
    }
}

/// Object-map entries cut into runs of `m`.
pub open spec fn omap_groups(es: Seq<(u64, u64, u64)>, m: int) -> Seq<Seq<(u64, u64, u64)>> {
    Seq::new(
        omap_leaf_count(es.len() as int, m) as nat,
        |i: int|
            es.subrange(
                i * m,
                if (i + 1) * m < es.len() {
                    (i + 1) * m
                } else {
                    es.len() as int
                },
            ),
    )
}

pub proof fn lemma_omap_group(n: int, m: int, i: int)
    requires
        0 <= n,
        0 < m,
        0 <= i < omap_leaf_count(n, m),
    ensures
        0 <= i * m <= n,
        (i + 1) * m == i * m + m,
        i + 1 == omap_leaf_count(n, m) ==> n <= (i + 1) * m,
        i + 1 < omap_leaf_count(n, m) ==> (i + 1) * m < n,
        n > 0 ==> i * m < n,
{
    num::lemma_div_up(n, m);
    num::lemma_mono(0, i, m);
    num::lemma_step(i, m);
    if n > 0 {
        num::lemma_mono(i, num::div_up(n, m) - 1, m);
        if i + 1 < num::div_up(n, m) {
            num::lemma_mono(i + 1, num::div_up(n, m) - 1, m);
        }
    } else {
        assert(0 * m == 0) by (nonlinear_arith);
    }
}

/// The views of lists of object-map entries.
pub open spec fn omap_views(s: Seq<Vec<(u64, u64, u64)>>) -> Seq<Seq<(u64, u64, u64)>> {
    Seq::new(s.len(), |i: int| s[i]@)
}

/// Pack an object map's entries, already in order, into leaves of a block of
/// `bs` bytes.
pub fn pack_omap_into_leaves(entries: &Vec<(u64, u64, u64)>, bs: usize) -> (r: Vec<
    Vec<(u64, u64, u64)>,
>)
    requires
        132 <= bs <= 0x1_0000,
    ensures
        omap_views(r@) == omap_groups(entries@, omap_per_leaf(bs as int)),
{
    let m: usize = (bs - 96) / 36;
    let ghost n = entries@.len() as int;
    let ghost es = entries@;
    let ghost total = omap_leaf_count(n, m as int);
    let mut out: Vec<Vec<(u64, u64, u64)>> = Vec::new();
    let mut at: usize = 0;
    proof {
        assert(0 * m == 0);
        num::lemma_div_up(n, m as int);
        if n > 0 && num::div_up(n, m as int) <= 0 {
            num::lemma_mono(num::div_up(n, m as int), 0, m as int);
            assert(0 * m == 0);
        }
        lemma_omap_group(n, m as int, 0);
    }
    loop
        invariant
            m == omap_per_leaf(bs as int),
            m > 0,
            es == entries@,
            n == es.len(),
            total == omap_leaf_count(n, m as int),
            at == out@.len() * m,
            at <= n,
            out@.len() < total,
            forall|k: int|
                0 <= k < out@.len() ==> (#[trigger] out@[k])@ == omap_groups(es, m as int)[k],
        decreases total - out@.len(),
    {
        let ghost c = out@.len() as int;
        proof {
            lemma_omap_group(n, m as int, c);
        }
        let mut group: Vec<(u64, u64, u64)> = Vec::new();
        let mut j: usize = at;
        let end: usize = if entries.len() - at > m {
            at + m
        } else {
            entries.len()
        };
        while j < end
            invariant
                es == entries@,
                at <= j <= end <= es.len(),
                group@ =~= es.subrange(at as int, j as int),
            decreases end - j,
        {
            group.push(entries[j]);
            j = j + 1;
        }
        proof {
            assert(group@ =~= omap_groups(es, m as int)[c]);
        }
        out.push(group);
        at = end;
        if at == entries.len() {
            proof {
                assert(out@.len() == total);
                assert(omap_views(out@) =~= omap_groups(es, m as int));
            }
            return out;
        }
    }
}

} // verus!
