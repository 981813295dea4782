//! Fletcher-64 checksum of APFS object headers.
//!
//! The first 8 bytes of every object hold the checksum of the rest. Both
//! running sums are taken modulo 2^32 - 1; the stored value is chosen so that
//! running on over it drives both sums to zero.

use vstd::prelude::*;
use vstd::slice::slice_subrange;

use crate::bytes::{self, get_u32, get_u64, put_u64};

verus! {

/// Modulus of both running sums.
pub const MOD: u64 = 0xFFFF_FFFF;

/// The two running sums after the first `n` words of `data`, started at
/// `(s1, s2)`.
pub open spec fn sums(data: Seq<u8>, n: nat, s1: int, s2: int) -> (int, int)
    decreases n,
{
    if n == 0 {
        (s1, s2)
    } else {
        let p = sums(data, (n - 1) as nat, s1, s2);
        let a = (p.0 + bytes::get32(data, 4 * (n - 1))) % 0xFFFF_FFFF;
        (a, (p.1 + a) % 0xFFFF_FFFF)
    }
}

/// The sums over all whole words of `data`.
pub open spec fn all_sums(data: Seq<u8>, s1: int, s2: int) -> (int, int) {
    sums(data, data.len() / 4, s1, s2)
}

/// Low checksum word: the negated sum of both sums.
pub open spec fn c1(s: (int, int)) -> int {
    0xFFFF_FFFF - (s.0 + s.1) % 0xFFFF_FFFF
}

/// High checksum word: the negated sum of the first sum and the low word.
pub open spec fn c2(s: (int, int)) -> int {
    0xFFFF_FFFF - (s.0 + c1(s)) % 0xFFFF_FFFF
}

/// The checksum of an object whose payload is `payload`.
pub open spec fn payload_cksum(payload: Seq<u8>) -> int {
    let s = all_sums(payload, 0, 0);
    c2(s) * 0x1_0000_0000 + c1(s)
}

/// The checksum of a block: that of everything behind the 8-byte field.
pub open spec fn block_cksum(block: Seq<u8>) -> int {
    if block.len() < 8 {
        payload_cksum(Seq::empty())
    } else {
        payload_cksum(block.subrange(8, block.len() as int))
    }
}

/// Whether the field stored in `block` is the checksum of the rest.
pub open spec fn verifies(block: Seq<u8>) -> bool {
    &&& block.len() >= 8
    &&& block.len() % 4 == 0
    &&& bytes::get64(block, 0) != 0
    &&& bytes::get64(block, 0) != u64::MAX
    &&& ({
        let s = all_sums(block.subrange(8, block.len() as int), 0, 0);
        all_sums(block.subrange(0, 8), s.0, s.1) == (0int, 0int)
    })
}

/// `block` with its checksum stored in the first 8 bytes.
pub open spec fn signed(block: Seq<u8>) -> Seq<u8> {
    bytes::put(block, 0, bytes::le64(block_cksum(block) as u64))
}

proof fn lemma_sums_range(data: Seq<u8>, n: nat, s1: int, s2: int)
    requires
        0 <= s1 < 0xFFFF_FFFF,
        0 <= s2 < 0xFFFF_FFFF,
    ensures
        0 <= sums(data, n, s1, s2).0 < 0xFFFF_FFFF,
        0 <= sums(data, n, s1, s2).1 < 0xFFFF_FFFF,
    decreases n,
{
    if n > 0 {
        lemma_sums_range(data, (n - 1) as nat, s1, s2);
    }
}

/// The checksum of a payload fits the field, and neither half is zero.
pub proof fn lemma_cksum_range(payload: Seq<u8>)
    ensures
        0 < payload_cksum(payload) <= u64::MAX,
        0 < c1(all_sums(payload, 0, 0)) <= 0xFFFF_FFFF,
        0 < c2(all_sums(payload, 0, 0)) <= 0xFFFF_FFFF,
{
    lemma_sums_range(payload, payload.len() / 4, 0, 0);
}

/// The accumulator: both sums over the whole words of `data`, modulo
/// [`MOD`], started at `(sum1, sum2)`.
fn accumulate(data: &[u8], sum1: u64, sum2: u64) -> (r: (u64, u64))
    requires
        sum1 < MOD,
        sum2 < MOD,
    ensures
        (r.0 as int, r.1 as int) == all_sums(data@, sum1 as int, sum2 as int),
        r.0 < MOD,
        r.1 < MOD,
{
    let len: usize = data.len();
    let n: usize = len / 4;
    let mut a: u64 = sum1;
    let mut b: u64 = sum2;
    let mut i: usize = 0;
    while i < n
        invariant
            len == data@.len(),
            n == len / 4,
            i <= n,
            a < MOD,
            b < MOD,
            (a as int, b as int) == sums(data@, i as nat, sum1 as int, sum2 as int),
        decreases n - i,
    {
        let w: u64 = get_u32(data, i * 4) as u64;
        a = (a + w) % MOD;
        b = (b + a) % MOD;
        i = i + 1;
    }
    (a, b)
}

/// Checksum of an object whose payload (everything behind the checksum field)
/// is `payload`: low 32 bits `c1`, high 32 bits `c2`.
pub fn fletcher64_payload(payload: &[u8]) -> (r: u64)
    ensures
        r == payload_cksum(payload@),
{
    let (sum1, sum2) = accumulate(payload, 0, 0);
    let lo: u64 = MOD - ((sum1 + sum2) % MOD);
    let hi: u64 = MOD - ((sum1 + lo) % MOD);
    assert(hi <= 0xFFFF_FFFF && lo <= 0xFFFF_FFFF ==> (hi << 32) | lo == hi * 0x1_0000_0000 + lo)
        by (bit_vector);
    (hi << 32) | lo
}

/// Checksum of a full block; what its first 8 bytes hold is ignored.
pub fn fletcher64(block: &[u8]) -> (r: u64)
    ensures
        r == block_cksum(block@),
{
    if block.len() < 8 {
        let none: Vec<u8> = Vec::new();
        return fletcher64_payload(none.as_slice());
    }
    fletcher64_payload(slice_subrange(block, 8, block.len()))
}

/// Whether the checksum stored in the first 8 bytes of `block` is that of the
/// rest. An all-zero or all-ones field means "not checksummed" and is refused.
pub fn verify(block: &[u8]) -> (r: bool)
    ensures
        r == verifies(block@),
{
    if block.len() < 8 || block.len() % 4 != 0 {
        return false;
    }
    let cksum: u64 = get_u64(block, 0);
    if cksum == 0 || cksum == u64::MAX {
        return false;
    }
    let (sum1, sum2) = accumulate(slice_subrange(block, 8, block.len()), 0, 0);
    let (sum1, sum2) = accumulate(slice_subrange(block, 0, 8), sum1, sum2);
    sum1 == 0 && sum2 == 0
}

/// Store the checksum of `buf` in its first 8 bytes.
pub fn sign_block(buf: &mut Vec<u8>)
    requires
        old(buf)@.len() >= 8,
    ensures
        final(buf)@ == signed(old(buf)@),
{
    let cksum: u64 = fletcher64(buf.as_slice());
    put_u64(buf, 0, cksum);
}

/// Signing stores a checksum that verifies: a block of whole words verifies
/// once it is signed, unless its checksum is the all-ones value, which
/// verification reads as "not checksummed".
pub proof fn lemma_signed_verifies(block: Seq<u8>)
    requires
        block.len() >= 8,
        block.len() % 4 == 0,
        block_cksum(block) != u64::MAX,
    ensures
        verifies(signed(block)),
{
    let payload = block.subrange(8, block.len() as int);
    let s = all_sums(payload, 0, 0);
    let lo = c1(s);
    let hi = c2(s);
    lemma_sums_range(payload, payload.len() / 4, 0, 0);
    lemma_cksum_range(payload);
    let x = block_cksum(block) as u64;
    assert(x == hi * 0x1_0000_0000 + lo);
    let d = signed(block);
    bytes::lemma_le_lens();
    bytes::lemma_put_len(block, 0, bytes::le64(x));
    bytes::lemma_sub_put_other(block, 0, bytes::le64(x), 8, block.len() as int);
    bytes::lemma_sub_put_same(block, 0, bytes::le64(x), 8);
    bytes::lemma_get64_put_same(block, 0, x);
    let f = d.subrange(0, 8);
    assert(f == bytes::le64(x));
    bytes::lemma_halves(x);
    assert(bytes::get32(f, 0) == lo);
    assert(bytes::get32(f, 4) == hi);
    reveal_with_fuel(sums, 3);
    assert(f.len() / 4 == 2);
    lemma_cancel(s.0, s.1);
    assert(all_sums(f, s.0, s.1) == (0int, 0int));
}

/// Running on over the two checksum words clears both sums.
proof fn lemma_cancel(s1: int, s2: int)
    requires
        0 <= s1 < 0xFFFF_FFFF,
        0 <= s2 < 0xFFFF_FFFF,
    ensures
        ({
            let m = 0xFFFF_FFFFint;
            let lo = c1((s1, s2));
            let hi = c2((s1, s2));
            let a1 = (s1 + lo) % m;
            let b1 = (s2 + a1) % m;
            let a2 = (a1 + hi) % m;
            let b2 = (b1 + a2) % m;
            a2 == 0 && b2 == 0
        }),
{
    let m = 0xFFFF_FFFFint;
    let lo = c1((s1, s2));
    let hi = c2((s1, s2));
    let a1 = (s1 + lo) % m;
    assert(hi == m - a1);
    assert((a1 + hi) % m == 0);
    let t = (s1 + s2) % m;
    assert(t == s1 + s2 || t == s1 + s2 - m);
    assert(lo == m - t);
    assert(s2 + s1 + lo == m || s2 + s1 + lo == 2 * m);
    assert(a1 == s1 + lo || a1 == s1 + lo - m || a1 == s1 + lo - 2 * m);
    assert((s2 + a1) % m == 0);
}

/// How far the first sums over `n` words of `d` and `e` are apart: as far as the
/// starting values, and by `by` more once the word `k`, in which `e` is larger by
/// `by`, is behind.
proof fn lemma_sum_shift(
    d: Seq<u8>,
    e: Seq<u8>,
    n: nat,
    s: (int, int),
    t: (int, int),
    k: int,
    by: int,
)
    requires
        forall|j: int|
            #![trigger bytes::get32(e, 4 * j)]
            0 <= j < n ==> bytes::get32(e, 4 * j) - bytes::get32(d, 4 * j) == if j == k {
                by
            } else {
                0
            },
    ensures
        (sums(e, n, t.0, t.1).0 - sums(d, n, s.0, s.1).0 - (t.0 - s.0) - if 0 <= k < n {
            by
        } else {
            0
        }) % 0xFFFF_FFFF == 0,
    decreases n,
{
    if n > 0 {
        let i = (n - 1) as nat;
        lemma_sum_shift(d, e, i, s, t, k, by);
        let p = sums(d, i, s.0, s.1).0;
        let q = sums(e, i, t.0, t.1).0;
        let w = bytes::get32(d, 4 * (n - 1)) as int;
        let x = bytes::get32(e, 4 * (n - 1)) as int;
        assert(bytes::get32(e, 4 * (n - 1)) - bytes::get32(d, 4 * (n - 1)) == if n - 1 == k {
            by
        } else {
            0
        });
        assert(sums(d, n, s.0, s.1).0 == (p + w) % 0xFFFF_FFFF);
        assert(sums(e, n, t.0, t.1).0 == (q + x) % 0xFFFF_FFFF);
    }
}

/// A changed byte changes one word, and by less than the modulus.
proof fn lemma_changed_word(d: Seq<u8>, i: int, b: u8) -> (by: int)
    requires
        0 <= i < d.len(),
        d.len() % 4 == 0,
        b != d[i],
    ensures
        by != 0,
        -0xFFFF_FFFF < by < 0xFFFF_FFFF,
        forall|j: int|
            #![trigger bytes::get32(d.update(i, b), 4 * j)]
            0 <= j < d.len() / 4 ==> bytes::get32(d.update(i, b), 4 * j) - bytes::get32(d, 4 * j)
                == if j == i / 4 {
                by
            } else {
                0
            },
{
    reveal(bytes::get32);
    let e = d.update(i, b);
    let k = i / 4;
    let by = bytes::get32(e, 4 * k) - bytes::get32(d, 4 * k);
    let r = i % 4;
    assert(i == 4 * k + r);
    assert(by == (b - d[i]) * (if r == 0 {
        1int
    } else if r == 1 {
        0x100int
    } else if r == 2 {
        0x1_0000int
    } else {
        0x100_0000int
    }));
    assert forall|j: int|
        #![trigger bytes::get32(e, 4 * j)]
        0 <= j < d.len() / 4 implies bytes::get32(e, 4 * j) - bytes::get32(d, 4 * j) == if j == k {
        by
    } else {
        0
    } by {
        if j != k {
            assert(e[4 * j] == d[4 * j]);
            assert(e[4 * j + 1] == d[4 * j + 1]);
            assert(e[4 * j + 2] == d[4 * j + 2]);
            assert(e[4 * j + 3] == d[4 * j + 3]);
        }
    }
    by
}

/// The checksum finds every change of a single byte: a block that verifies does
/// not verify once one of its bytes, in the field or behind it, is another.
pub proof fn lemma_byte_changed(block: Seq<u8>, i: int, b: u8)
    requires
        verifies(block),
        0 <= i < block.len(),
        b != block[i],
    ensures
        !verifies(block.update(i, b)),
{
    let n = block.len() as int;
    let e = block.update(i, b);
    let (f, p) = (block.subrange(0, 8), block.subrange(8, n));
    let (g, q) = (e.subrange(0, 8), e.subrange(8, n));
    let s = all_sums(p, 0, 0);
    let t = all_sums(q, 0, 0);
    if i < 8 {
        assert(q =~= p);
        assert(g =~= f.update(i, b));
        let by = lemma_changed_word(f, i, b);
        lemma_sum_shift(f, g, 2, s, t, i / 4, by);
    } else {
        assert(g =~= f);
        assert(q =~= p.update(i - 8, b));
        let by = lemma_changed_word(p, i - 8, b);
        lemma_sum_shift(p, q, p.len() / 4, (0, 0), (0, 0), (i - 8) / 4, by);
        lemma_sum_shift(f, g, 2, s, t, -1, 0);
    }
}

} // verus!
