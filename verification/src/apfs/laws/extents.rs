//! What a reader gives of a file whose contents lie in any number of extents.

use vstd::prelude::*;

use crate::apfs::content::{self, ApfsFileReader, Extent};
use crate::apfs::pack::Rec;
use crate::entry::SeekFrom;
use crate::error::Error;

verus! {

/// Whether no position of the file lies in two of the extents.
pub open spec fn disjoint(es: Seq<Extent>) -> bool {
    forall|i: int, j: int|
        #![trigger es[i], es[j]]
        0 <= i < es.len() && 0 <= j < es.len() && i != j ==> es[i].0 + es[i].1.length <= es[j].0
            || es[j].0 + es[j].1.length <= es[i].0
}

/// Number of bytes of the extent `x` that lie inside a file of `size` bytes.
pub open spec fn inside(x: Extent, size: int) -> int {
    if x.0 >= size {
        0
    } else if x.0 + x.1.length > size {
        size - x.0
    } else {
        x.1.length as int
    }
}

proof fn lemma_found(es: Seq<Extent>, pos: int, from: int, i: int)
    requires
        disjoint(es),
        0 <= from <= i < es.len(),
        es[i].0 <= pos < es[i].0 + es[i].1.length,
    ensures
        content::covering(es, pos, from) == Some(i),
    decreases i - from,
{
    if from < i {
        assert(!content::covers(es[from], pos));
        lemma_found(es, pos, from + 1, i);
    }
}

proof fn lemma_hole(es: Seq<Extent>, pos: int, from: int)
    requires
        0 <= from <= es.len(),
        forall|i: int|
            from <= i < es.len() ==> !((#[trigger] es[i]).0 <= pos < es[i].0 + es[i].1.length),
    ensures
        content::covering(es, pos, from) is None,
    decreases es.len() - from,
{
    if from < es.len() {
        assert(!content::covers(es[from], pos));
        lemma_hole(es, pos, from + 1);
    }
}

/// The extents of a file say where its bytes are: the bytes of the file over the
/// range of an extent are the bytes of the device from the first byte of its first
/// block on, cut at the end of the file; where the extent names no block they are
/// zero. The device fails to give the file a byte just where it ends before it.
pub proof fn lemma_extent_read(f: ApfsFileReader, img: Seq<u8>, i: int)
    requires
        disjoint(f.extents@),
        0 <= i < f.extents@.len(),
    ensures
        ({
            let (la, x) = f.extents@[i];
            let n = inside(f.extents@[i], f.size as int);
            let at = x.phys_block_num * f.block_size;
            let all = f.bytes(img, 0, f.size as int);
            &&& all.len() == f.size
            &&& x.phys_block_num != 0 && n > 0 && at + n <= img.len() ==> all.subrange(
                la as int,
                la + n,
            ) == img.subrange(at, at + n)
            &&& x.phys_block_num == 0 && n > 0 ==> all.subrange(la as int, la + n) == Seq::new(
                n as nat,
                |k: int| 0u8,
            )
            &&& forall|k: int|
                0 <= k < n ==> (#[trigger] f.holds(img, la + k) <==> x.phys_block_num == 0 || at + k
                    < img.len())
        }),
{
    let es = f.extents@;
    let (la, x) = es[i];
    let n = inside(es[i], f.size as int);
    let at = x.phys_block_num * f.block_size;
    let all = f.bytes(img, 0, f.size as int);
    assert(at >= 0) by (nonlinear_arith)
        requires
            at == x.phys_block_num * f.block_size,
    ;
    assert forall|k: int| 0 <= k < n implies #[trigger] content::covering(es, la + k, 0) == Some(
        i,
    ) by {
        lemma_found(es, la + k, 0, i);
    }
    if x.phys_block_num != 0 && n > 0 && at + n <= img.len() {
        let part = all.subrange(la as int, la + n);
        assert forall|k: int| 0 <= k < n implies part[k] == img[at + k] by {
            assert(content::covering(es, la + k, 0) == Some(i));
        }
        assert(part =~= img.subrange(at, at + n));
    }
    if x.phys_block_num == 0 && n > 0 {
        let part = all.subrange(la as int, la + n);
        assert forall|k: int| 0 <= k < n implies part[k] == 0 by {
            assert(content::covering(es, la + k, 0) == Some(i));
        }
        assert(part =~= Seq::new(n as nat, |k: int| 0u8));
    }
    assert forall|k: int| 0 <= k < n implies (#[trigger] f.holds(img, la + k) <==> x.phys_block_num
        == 0 || at + k < img.len()) by {
        assert(content::covering(es, la + k, 0) == Some(i));
    }
}

/// A position of a file that lies in none of its extents reads as zero, and no
/// device is too small for it.
pub proof fn lemma_hole_read(f: ApfsFileReader, img: Seq<u8>, pos: int)
    requires
        0 <= pos < f.size,
        forall|i: int|
            0 <= i < f.extents@.len() ==> pos < (#[trigger] f.extents@[i]).0 || f.extents@[i].0
                + f.extents@[i].1.length <= pos,
    ensures
        f.bytes(img, 0, f.size as int)[pos] == 0,
        f.holds(img, pos),
{
    lemma_hole(f.extents@, pos, 0);
}

/// Two reads, one behind the other, give what one read over both ranges gives, and
/// any read gives a part of the whole file.
pub proof fn lemma_read_parts(f: ApfsFileReader, img: Seq<u8>, lo: int, mid: int, hi: int)
    requires
        0 <= lo <= mid <= hi <= f.size,
    ensures
        f.bytes(img, lo, mid) + f.bytes(img, mid, hi) == f.bytes(img, lo, hi),
        f.bytes(img, lo, hi) == f.bytes(img, 0, f.size as int).subrange(lo, hi),
{
    assert(f.bytes(img, lo, mid) + f.bytes(img, mid, hi) =~= f.bytes(img, lo, hi));
    assert(f.bytes(img, lo, hi) =~= f.bytes(img, 0, f.size as int).subrange(lo, hi));
}

/// A read of at least one byte before the end of the file gives at least one and at
/// most as many as were asked for, and does not go past the end: a loop of reads
/// comes to the end of the file.
pub proof fn lemma_read_progress(f: ApfsFileReader, n: int)
    requires
        f.wf(),
        f.cursor < f.size,
        n > 0,
    ensures
        ({
            let k = content::read_len(f.extents@, f.cursor as int, f.size as int, n);
            0 < k <= n && f.cursor + k <= f.size
        }),
{
    let es = f.extents@;
    let pos = f.cursor as int;
    lemma_first(es, pos, 0);
    lemma_next(es, pos, 0, f.size as int);
}

proof fn lemma_first(es: Seq<Extent>, pos: int, from: int)
    requires
        0 <= from <= es.len(),
    ensures
        content::covering(es, pos, from) matches Some(i) ==> from <= i < es.len() && es[i].0
            + es[i].1.length > pos,
    decreases es.len() - from,
{
    if from < es.len() && !content::covers(es[from], pos) {
        lemma_first(es, pos, from + 1);
    }
}

proof fn lemma_next(es: Seq<Extent>, pos: int, from: int, end: int)
    requires
        0 <= from <= es.len(),
        pos < end,
    ensures
        content::next_start(es, pos, from, end) > pos,
    decreases es.len() - from,
{
    if from < es.len() && es[from].0 <= pos {
        lemma_next(es, pos, from + 1, end);
    }
}

// ---- the extents of the records ----

proof fn lemma_inserted(s: Seq<Extent>, x: Extent)
    ensures
        content::insert_extent(s, x).to_multiset() == s.to_multiset().insert(x),
        content::insert_extent(s, x).len() == s.len() + 1,
    decreases s.len(),
{
    broadcast use vstd::seq_lib::group_to_multiset_ensures;

    if s.len() > 0 && s.last().0 > x.0 {
        let d = s.drop_last();
        lemma_inserted(d, x);
        assert(d.push(s.last()) =~= s);
        assert(content::insert_extent(s, x).to_multiset() =~= s.to_multiset().insert(x));
    }
}

/// The extents of the first `n` of the records `rs`, in the order of the records.
pub open spec fn decoded(rs: Seq<Rec>, n: int) -> Seq<Extent>
    decreases n,
{
    if n <= 0 {
        Seq::empty()
    } else {
        match content::extent_of(rs[n - 1]) {
            Some(x) => decoded(rs, n - 1).push(x),
            None => decoded(rs, n - 1),
        }
    }
}

/// The extents of a file are those of its records, each as often as there is a
/// record for it, and none is lost or made up by sorting them.
pub proof fn lemma_extents_of_records(rs: Seq<Rec>, n: int)
    requires
        0 <= n <= rs.len(),
    ensures
        content::extents_upto(rs, n).to_multiset() == decoded(rs, n).to_multiset(),
        content::by_position(content::extents_upto(rs, n)),
    decreases n,
{
    broadcast use vstd::seq_lib::group_to_multiset_ensures;

    content::lemma_extents_sorted(rs, n);
    if n > 0 {
        lemma_extents_of_records(rs, n - 1);
        if let Some(x) = content::extent_of(rs[n - 1]) {
            lemma_inserted(content::extents_upto(rs, n - 1), x);
            assert(content::extents_upto(rs, n).to_multiset() =~= decoded(rs, n).to_multiset());
        }
    }
}

/// A reader is moved to a position from the start, by a distance from where it
/// stands, or to a distance from the end. A move never leads before the start, where
/// it is refused, nor behind the end, where it stops.
pub proof fn lemma_sought(pos: u64, size: u64, n: u64, a: i64)
    requires
        pos <= size,
    ensures
        n <= size ==> content::sought(SeekFrom::Start(n), pos, size) == Ok::<u64, Error>(n),
        n >= size ==> content::sought(SeekFrom::Start(n), pos, size) == Ok::<u64, Error>(size),
        content::sought(SeekFrom::Current(0), pos, size) == Ok::<u64, Error>(pos),
        content::sought(SeekFrom::End(0), pos, size) == Ok::<u64, Error>(size),
        content::sought(SeekFrom::End(a), pos, size) == content::sought(
            SeekFrom::Current(a),
            size,
            size,
        ),
        match content::sought(SeekFrom::Current(a), pos, size) {
            Ok(q) => q <= size && (q == pos + a || (q == size && pos + a > size)),
            Err(e) => e == Error::InvalidArgument && pos + a < 0,
        },
{
}

/// One read goes to the end of the extent that it starts in, or up to the next extent
/// where it starts in a hole, and never behind the end of the file: it gives less
/// than was asked for only there.
pub proof fn lemma_read_stops(es: Seq<Extent>, pos: int, size: int, n: int)
    requires
        0 <= pos < size,
        0 < n,
        content::read_len(es, pos, size, n) < n,
        content::read_len(es, pos, size, n) > 0,
    ensures
        ({
            let q = pos + content::read_len(es, pos, size, n);
            ||| q == size
            ||| exists|i: int|
                0 <= i < es.len() && content::covers(#[trigger] es[i], pos) && q == es[i].0
                    + es[i].1.length
            ||| exists|i: int|
                0 <= i < es.len() && q == (#[trigger] es[i]).0 && pos < q && forall|j: int|
                    0 <= j < es.len() ==> !content::covers(#[trigger] es[j], pos)
        }),
{
    lemma_covering_is(es, pos, 0);
    lemma_next_is(es, pos, 0, size);
}

proof fn lemma_covering_is(es: Seq<Extent>, pos: int, i: int)
    requires
        0 <= i <= es.len(),
    ensures
        match content::covering(es, pos, i) {
            Some(k) => i <= k < es.len() && content::covers(es[k], pos),
            None => forall|j: int| i <= j < es.len() ==> !content::covers(#[trigger] es[j], pos),
        },
    decreases es.len() - i,
{
    if i < es.len() && !content::covers(es[i], pos) {
        lemma_covering_is(es, pos, i + 1);
    }
}

proof fn lemma_next_is(es: Seq<Extent>, pos: int, i: int, end: int)
    requires
        0 <= i <= es.len(),
    ensures
        ({
            let q = content::next_start(es, pos, i, end);
            q == end || (pos < q && exists|j: int|
                i <= j < es.len() && q == (#[trigger] es[j]).0)
        }),
    decreases es.len() - i,
{
    if i < es.len() && es[i].0 <= pos {
        lemma_next_is(es, pos, i + 1, end);
    }
}

} // verus!
