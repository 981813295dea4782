//! Writing a list of blocks and reading them back.

use vstd::prelude::*;

use crate::block;
use crate::bytes;
use crate::error::Error;

verus! {

/// Whether each of the blocks `bl` is `bs` bytes long and no two have one
/// address.
pub open spec fn apart(bl: Seq<(u64, Seq<u8>)>, bs: int) -> bool {
    &&& forall|i: int| 0 <= i < bl.len() ==> (#[trigger] bl[i]).1.len() == bs
    &&& forall|i: int, j: int|
        0 <= i < j < bl.len() ==> (#[trigger] bl[i]).0 != (#[trigger] bl[j]).0
}

/// Whether byte `p` lies in none of the blocks `bl`.
pub open spec fn outside(bl: Seq<(u64, Seq<u8>)>, bs: int, p: int) -> bool {
    forall|i: int| 0 <= i < bl.len() ==> !((#[trigger] bl[i]).0 * bs <= p < bl[i].0 * bs + bs)
}

/// Whether block `a` is none of the blocks `bl`.
pub open spec fn absent(bl: Seq<(u64, Seq<u8>)>, a: u64) -> bool {
    forall|i: int| 0 <= i < bl.len() ==> (#[trigger] bl[i]).0 != a
}

/// Whether the device `img` holds each of the blocks `bl` at its address.
pub open spec fn holds(img: Seq<u8>, bs: int, bl: Seq<(u64, Seq<u8>)>) -> bool {
    forall|i: int|
        0 <= i < bl.len() ==> block::block_at(img, bs, (#[trigger] bl[i]).0) == Ok::<
            Seq<u8>,
            Error,
        >(bl[i].1)
}

/// Two blocks share no byte.
pub proof fn lemma_blocks_apart(a: int, b: int, bs: int, p: int)
    requires
        a != b,
        a * bs <= p < a * bs + bs,
    ensures
        !(b * bs <= p < b * bs + bs),
{
    assert(!(b * bs <= p < b * bs + bs)) by (nonlinear_arith)
        requires
            a != b,
            a * bs <= p < a * bs + bs,
    ;
}

/// Blocks with distinct addresses, all of them written, read back as written;
/// no other byte changes.
pub proof fn lemma_store_all(img: Seq<u8>, bs: int, bl: Seq<(u64, Seq<u8>)>)
    requires
        bs > 0,
        apart(bl, bs),
        block::store_all(img, bs, bl).1,
    ensures
        block::store_all(img, bs, bl).0.len() == img.len(),
        holds(block::store_all(img, bs, bl).0, bs, bl),
        forall|p: int|
            0 <= p < img.len() && outside(bl, bs, p) ==> #[trigger] block::store_all(
                img,
                bs,
                bl,
            ).0[p] == img[p],
    decreases bl.len(),
{
    let out = block::store_all(img, bs, bl).0;
    if bl.len() > 0 {
        let one = bytes::put(img, bl[0].0 * bs, bl[0].1);
        let rest = bl.skip(1);
        assert(forall|i: int| 0 <= i < rest.len() ==> rest[i] == bl[i + 1]);
        bytes::lemma_put_len(img, bl[0].0 * bs, bl[0].1);
        lemma_store_all(one, bs, rest);
        assert(out == block::store_all(one, bs, rest).0);
        let a = bl[0].0;
        assert(0 <= a * bs) by (nonlinear_arith)
            requires
                0 <= a,
                0 < bs,
        ;
        assert forall|i: int| 0 <= i < bl.len() implies block::block_at(
            out,
            bs,
            (#[trigger] bl[i]).0,
        ) == Ok::<Seq<u8>, Error>(bl[i].1) by {
            if i == 0 {
                assert forall|p: int| a * bs <= p < a * bs + bs implies out[p] == bl[0].1[p - a
                    * bs] by {
                    assert forall|j: int| 0 <= j < rest.len() implies !((#[trigger] rest[j]).0 * bs
                        <= p < rest[j].0 * bs + bs) by {
                        assert(rest[j] == bl[j + 1]);
                        lemma_blocks_apart(a as int, rest[j].0 as int, bs, p);
                    }
                    assert(outside(rest, bs, p));
                    bytes::lemma_put_index(img, a * bs, bl[0].1, p);
                }
                assert(out.subrange(a * bs, a * bs + bs) =~= bl[0].1);
            } else {
                assert(rest[i - 1] == bl[i]);
            }
        }
        assert forall|p: int| 0 <= p < img.len() && outside(bl, bs, p) implies out[p]
            == img[p] by {
            assert forall|j: int| 0 <= j < rest.len() implies !((#[trigger] rest[j]).0 * bs <= p
                < rest[j].0 * bs + bs) by {
                assert(rest[j] == bl[j + 1]);
            }
            assert(outside(rest, bs, p));
            bytes::lemma_put_index(img, a * bs, bl[0].1, p);
            assert(!(bl[0].0 * bs <= p < bl[0].0 * bs + bs));
        }
    }
}

/// A block that is none of the blocks written reads as before.
pub proof fn lemma_other_block(img: Seq<u8>, bs: int, bl: Seq<(u64, Seq<u8>)>, a: u64)
    requires
        bs > 0,
        apart(bl, bs),
        block::store_all(img, bs, bl).1,
        absent(bl, a),
    ensures
        block::block_at(block::store_all(img, bs, bl).0, bs, a) == block::block_at(img, bs, a),
{
    let out = block::store_all(img, bs, bl).0;
    lemma_store_all(img, bs, bl);
    assert(0 <= a * bs) by (nonlinear_arith)
        requires
            0 <= a,
            0 < bs,
    ;
    if a * bs + bs <= img.len() {
        assert forall|p: int| a * bs <= p < a * bs + bs implies out[p] == img[p] by {
            assert forall|j: int| 0 <= j < bl.len() implies !((#[trigger] bl[j]).0 * bs <= p
                < bl[j].0 * bs + bs) by {
                lemma_blocks_apart(a as int, bl[j].0 as int, bs, p);
            }
            assert(outside(bl, bs, p));
        }
        assert(out.subrange(a * bs, a * bs + bs) =~= img.subrange(a * bs, a * bs + bs));
    }
}

/// Two lists of blocks, each apart, with no address in common, are apart
/// together.
pub proof fn lemma_apart_add(x: Seq<(u64, Seq<u8>)>, y: Seq<(u64, Seq<u8>)>, bs: int)
    requires
        apart(x, bs),
        apart(y, bs),
        forall|i: int| 0 <= i < y.len() ==> absent(x, (#[trigger] y[i]).0),
    ensures
        apart(x + y, bs),
{
    let z = x + y;
    assert forall|i: int, j: int| 0 <= i < j < z.len() implies (#[trigger] z[i]).0 != (
    #[trigger] z[j]).0 by {
        if i < x.len() && j >= x.len() {
            assert(z[j] == y[j - x.len()]);
            assert(z[i] == x[i]);
        } else if i >= x.len() {
            assert(z[i] == y[i - x.len()]);
            assert(z[j] == y[j - x.len()]);
        }
    }
}

} // verus!
