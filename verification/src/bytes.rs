//! Byte sequences: little-endian fields, in-place patches, fixed-size blocks.

use vstd::prelude::*;
use vstd::slice::*;

verus! {

/// The 16-bit little-endian field of `s` at `off`.
#[verifier::opaque]
pub open spec fn get16(s: Seq<u8>, off: int) -> u16 {
    (s[off] + 0x100 * s[off + 1]) as u16
}

/// The 32-bit little-endian field of `s` at `off`.
#[verifier::opaque]
pub open spec fn get32(s: Seq<u8>, off: int) -> u32 {
    (s[off] + 0x100 * s[off + 1] + 0x1_0000 * s[off + 2] + 0x100_0000 * s[off + 3]) as u32
}

/// The 64-bit little-endian field of `s` at `off`.
#[verifier::opaque]
pub open spec fn get64(s: Seq<u8>, off: int) -> u64 {
    (get32(s, off) + 0x1_0000_0000 * get32(s, off + 4)) as u64
}

/// The two little-endian bytes of `x`.
#[verifier::opaque]
pub open spec fn le16(x: u16) -> Seq<u8> {
    seq![(x % 0x100) as u8, (x / 0x100) as u8]
}

/// The four little-endian bytes of `x`.
#[verifier::opaque]
pub open spec fn le32(x: u32) -> Seq<u8> {
    seq![
        (x % 0x100) as u8,
        (x / 0x100 % 0x100) as u8,
        (x / 0x1_0000 % 0x100) as u8,
        (x / 0x100_0000) as u8,
    ]
}

/// The eight little-endian bytes of `x`.
#[verifier::opaque]
pub open spec fn le64(x: u64) -> Seq<u8> {
    le32((x % 0x1_0000_0000) as u32) + le32((x / 0x1_0000_0000) as u32)
}

/// `s` with the bytes from `off` on replaced by `b`.
#[verifier::opaque]
pub open spec fn put(s: Seq<u8>, off: int, b: Seq<u8>) -> Seq<u8> {
    Seq::new(s.len(), |i: int| if off <= i < off + b.len() { b[i - off] } else { s[i] })
}

/// `n` zero bytes.
#[verifier::opaque]
pub open spec fn zeros(n: nat) -> Seq<u8> {
    Seq::new(n, |i: int| 0u8)
}

/// The `n` bytes of `s` from `off` on.
pub open spec fn sub(s: Seq<u8>, off: int, n: int) -> Seq<u8> {
    s.subrange(off, off + n)
}

/// Whether `i` is the index of the first zero byte of `s`, or the length of
/// `s` where there is none.
pub open spec fn is_nul_pos(s: Seq<u8>, i: int) -> bool {
    &&& 0 <= i <= s.len()
    &&& forall|j: int| 0 <= j < i ==> s[j] != 0
    &&& i == s.len() || s[i] == 0
}

/// Index of the first zero byte of `s`, or its length where there is none.
pub open spec fn nul_pos(s: Seq<u8>) -> int {
    choose|i: int| is_nul_pos(s, i)
}

/// `s` up to its first zero byte.
pub open spec fn until_nul(s: Seq<u8>) -> Seq<u8> {
    s.subrange(0, nul_pos(s))
}

pub proof fn lemma_nul_pos(s: Seq<u8>, i: int)
    requires
        is_nul_pos(s, i),
    ensures
        nul_pos(s) == i,
{
    let c = nul_pos(s);
    assert(is_nul_pos(s, c));
    if c < i {
        assert(s[c] != 0);
    }
    if i < c {
        assert(s[i] != 0);
    }
}

pub proof fn lemma_le_lens()
    ensures
        forall|x: u16| #[trigger] le16(x).len() == 2,
        forall|x: u32| #[trigger] le32(x).len() == 4,
        forall|x: u64| #[trigger] le64(x).len() == 8,
{
    reveal(le16);
    reveal(le32);
    reveal(le64);
}

pub broadcast proof fn lemma_le16_len(x: u16)
    ensures
        #[trigger] le16(x).len() == 2,
{
    reveal(le16);
}

pub broadcast proof fn lemma_le32_len(x: u32)
    ensures
        #[trigger] le32(x).len() == 4,
{
    reveal(le32);
}

pub broadcast proof fn lemma_le64_len(x: u64)
    ensures
        #[trigger] le64(x).len() == 8,
{
    reveal(le64);
    reveal(le32);
}

/// Fields depend only on the bytes they cover.
pub proof fn lemma_get_agree(s: Seq<u8>, o: int, t: Seq<u8>, p: int)
    requires
        0 <= o,
        0 <= p,
    ensures
        (o + 2 <= s.len() && p + 2 <= t.len() && s.subrange(o, o + 2) == t.subrange(p, p + 2))
            ==> get16(s, o) == get16(t, p),
        (o + 4 <= s.len() && p + 4 <= t.len() && s.subrange(o, o + 4) == t.subrange(p, p + 4))
            ==> get32(s, o) == get32(t, p),
        (o + 8 <= s.len() && p + 8 <= t.len() && s.subrange(o, o + 8) == t.subrange(p, p + 8))
            ==> get64(s, o) == get64(t, p),
{
    reveal(get16);
    reveal(get32);
    reveal(get64);
    if o + 2 <= s.len() && p + 2 <= t.len() && s.subrange(o, o + 2) == t.subrange(p, p + 2) {
        let u = s.subrange(o, o + 2);
        let v = t.subrange(p, p + 2);
        assert(forall|i: int| 0 <= i < 2 ==> u[i] == s[o + i] && v[i] == t[p + i]);
        assert(u[0] == v[0] && u[1] == v[1]);
    }
    if o + 4 <= s.len() && p + 4 <= t.len() && s.subrange(o, o + 4) == t.subrange(p, p + 4) {
        let u = s.subrange(o, o + 4);
        let v = t.subrange(p, p + 4);
        assert(forall|i: int| 0 <= i < 4 ==> u[i] == s[o + i] && v[i] == t[p + i]);
        assert(u[0] == v[0] && u[1] == v[1] && u[2] == v[2] && u[3] == v[3]);
    }
    if o + 8 <= s.len() && p + 8 <= t.len() && s.subrange(o, o + 8) == t.subrange(p, p + 8) {
        let u = s.subrange(o, o + 8);
        let v = t.subrange(p, p + 8);
        assert(forall|i: int| 0 <= i < 8 ==> u[i] == s[o + i] && v[i] == t[p + i]);
        assert(u[0] == v[0] && u[1] == v[1] && u[2] == v[2] && u[3] == v[3]);
        assert(u[4] == v[4] && u[5] == v[5] && u[6] == v[6] && u[7] == v[7]);
    }
}

pub broadcast proof fn lemma_put_len(s: Seq<u8>, off: int, b: Seq<u8>)
    ensures
        #[trigger] put(s, off, b).len() == s.len(),
{
    reveal(put);
}

pub broadcast proof fn lemma_zeros_len(n: nat)
    ensures
        #[trigger] zeros(n).len() == n,
{
    reveal(zeros);
}

/// A patched sequence read at one index.
pub broadcast proof fn lemma_put_index(s: Seq<u8>, off: int, b: Seq<u8>, i: int)
    requires
        0 <= i < s.len(),
    ensures
        #[trigger] put(s, off, b)[i] == if off <= i < off + b.len() { b[i - off] } else { s[i] },
{
    reveal(put);
}

pub broadcast proof fn lemma_zeros_index(n: nat, i: int)
    requires
        0 <= i < n,
    ensures
        #[trigger] zeros(n)[i] == 0,
{
    reveal(zeros);
}

/// A range that a patch does not touch reads as before.
pub broadcast proof fn lemma_sub_put_other(s: Seq<u8>, off: int, b: Seq<u8>, lo: int, hi: int)
    requires
        0 <= lo <= hi <= s.len(),
        hi <= off || off + b.len() <= lo,
    ensures
        #[trigger] put(s, off, b).subrange(lo, hi) == s.subrange(lo, hi),
{
    reveal(put);
    assert(put(s, off, b).subrange(lo, hi) =~= s.subrange(lo, hi));
}

/// The patched range itself reads as the patch.
pub broadcast proof fn lemma_sub_put_same(s: Seq<u8>, off: int, b: Seq<u8>, hi: int)
    requires
        0 <= off,
        hi == off + b.len(),
        hi <= s.len(),
    ensures
        #[trigger] put(s, off, b).subrange(off, hi) == b,
{
    reveal(put);
    assert(put(s, off, b).subrange(off, hi) =~= b);
}

pub broadcast proof fn lemma_get16_put_other(s: Seq<u8>, off: int, b: Seq<u8>, o: int)
    requires
        0 <= o,
        o + 2 <= s.len(),
        o + 2 <= off || off + b.len() <= o,
    ensures
        #[trigger] get16(put(s, off, b), o) == get16(s, o),
{
    lemma_put_len(s, off, b);
    lemma_sub_put_other(s, off, b, o, o + 2);
    lemma_get_agree(put(s, off, b), o, s, o);
}

pub broadcast proof fn lemma_get32_put_other(s: Seq<u8>, off: int, b: Seq<u8>, o: int)
    requires
        0 <= o,
        o + 4 <= s.len(),
        o + 4 <= off || off + b.len() <= o,
    ensures
        #[trigger] get32(put(s, off, b), o) == get32(s, o),
{
    lemma_put_len(s, off, b);
    lemma_sub_put_other(s, off, b, o, o + 4);
    lemma_get_agree(put(s, off, b), o, s, o);
}

pub broadcast proof fn lemma_get64_put_other(s: Seq<u8>, off: int, b: Seq<u8>, o: int)
    requires
        0 <= o,
        o + 8 <= s.len(),
        o + 8 <= off || off + b.len() <= o,
    ensures
        #[trigger] get64(put(s, off, b), o) == get64(s, o),
{
    lemma_put_len(s, off, b);
    lemma_sub_put_other(s, off, b, o, o + 8);
    lemma_get_agree(put(s, off, b), o, s, o);
}

pub broadcast proof fn lemma_get16_put_same(s: Seq<u8>, off: int, x: u16)
    requires
        0 <= off,
        off + 2 <= s.len(),
    ensures
        #[trigger] get16(put(s, off, le16(x)), off) == x,
{
    lemma_le_lens();
    lemma_get_le(x, 0, 0);
    lemma_put_len(s, off, le16(x));
    lemma_sub_put_same(s, off, le16(x), off + 2);
    assert(le16(x).subrange(0, 2) =~= le16(x));
    lemma_get_agree(put(s, off, le16(x)), off, le16(x), 0);
}

pub broadcast proof fn lemma_get32_put_same(s: Seq<u8>, off: int, x: u32)
    requires
        0 <= off,
        off + 4 <= s.len(),
    ensures
        #[trigger] get32(put(s, off, le32(x)), off) == x,
{
    lemma_le_lens();
    lemma_get_le(0, x, 0);
    lemma_put_len(s, off, le32(x));
    lemma_sub_put_same(s, off, le32(x), off + 4);
    assert(le32(x).subrange(0, 4) =~= le32(x));
    lemma_get_agree(put(s, off, le32(x)), off, le32(x), 0);
}

pub broadcast proof fn lemma_get64_put_same(s: Seq<u8>, off: int, x: u64)
    requires
        0 <= off,
        off + 8 <= s.len(),
    ensures
        #[trigger] get64(put(s, off, le64(x)), off) == x,
{
    lemma_le_lens();
    lemma_get_le(0, 0, x);
    lemma_put_len(s, off, le64(x));
    lemma_sub_put_same(s, off, le64(x), off + 8);
    assert(le64(x).subrange(0, 8) =~= le64(x));
    lemma_get_agree(put(s, off, le64(x)), off, le64(x), 0);
}

pub broadcast proof fn lemma_get16_zeros(n: nat, o: int)
    requires
        0 <= o,
        o + 2 <= n,
    ensures
        #[trigger] get16(zeros(n), o) == 0,
{
    reveal(get16);
    reveal(zeros);
}

pub broadcast proof fn lemma_get32_zeros(n: nat, o: int)
    requires
        0 <= o,
        o + 4 <= n,
    ensures
        #[trigger] get32(zeros(n), o) == 0,
{
    reveal(get32);
    reveal(zeros);
}

pub broadcast proof fn lemma_get64_zeros(n: nat, o: int)
    requires
        0 <= o,
        o + 8 <= n,
    ensures
        #[trigger] get64(zeros(n), o) == 0,
{
    reveal(get64);
    lemma_get32_zeros(n, o);
    lemma_get32_zeros(n, o + 4);
}

pub broadcast group group_fields {
    lemma_le16_len,
    lemma_le32_len,
    lemma_le64_len,
    lemma_put_len,
    lemma_zeros_len,
    lemma_get16_put_other,
    lemma_get32_put_other,
    lemma_get64_put_other,
    lemma_get16_put_same,
    lemma_get32_put_same,
    lemma_get64_put_same,
    lemma_get16_zeros,
    lemma_get32_zeros,
    lemma_get64_zeros,
    lemma_sub_put_other,
    lemma_sub_put_same,
}

/// The bytes of a 32-bit field are those of its value.
#[verifier::rlimit(50)]
#[verifier::spinoff_prover]
pub proof fn lemma_word_bytes(s: Seq<u8>, off: int)
    requires
        0 <= off,
        off + 4 <= s.len(),
    ensures
        s.subrange(off, off + 4) == le32(get32(s, off)),
{
    reveal(get32);
    reveal(le32);
    let x = get32(s, off);
    let (a, b, c, d) = (s[off], s[off + 1], s[off + 2], s[off + 3]);
    let z = c + 0x100 * d;
    let y = b + 0x100 * z;
    assert(x == a + 0x100 * y);
    assert(x % 0x100 == a && x / 0x100 == y);
    assert(y % 0x100 == b && y / 0x100 == z);
    assert(z % 0x100 == c && z / 0x100 == d);
    assert(x / 0x1_0000 == z);
    assert(x / 0x100_0000 == d);
    assert(s.subrange(off, off + 4) =~= le32(x));
}

/// A field of a range is the field of the whole at the shifted offset.
pub proof fn lemma_get_sub(s: Seq<u8>, lo: int, hi: int, o: int)
    requires
        0 <= lo <= hi <= s.len(),
        0 <= o,
    ensures
        o + 2 <= hi - lo ==> get16(s.subrange(lo, hi), o) == get16(s, lo + o),
        o + 4 <= hi - lo ==> get32(s.subrange(lo, hi), o) == get32(s, lo + o),
        o + 8 <= hi - lo ==> get64(s.subrange(lo, hi), o) == get64(s, lo + o),
{
    reveal(get16);
    reveal(get32);
    reveal(get64);
}

/// The field written by its own bytes reads back.
pub proof fn lemma_get_le(a: u16, b: u32, c: u64)
    ensures
        get16(le16(a), 0) == a,
        get32(le32(b), 0) == b,
        get64(le64(c), 0) == c,
{
    reveal(get16);
    reveal(le16);
    lemma_le32_word(b);
    lemma_halves(c);
    reveal(get64);
}

/// The bytes of a 32-bit number add up to it.
proof fn lemma_le32_word(b: u32)
    ensures
        get32(le32(b), 0) == b,
{
    reveal(get32);
    reveal(le32);
    let x0 = b / 0x100;
    let x1 = b / 0x1_0000;
    let x2 = b / 0x100_0000;
    assert(b == 0x100 * x0 + b % 0x100);
    assert(x0 == 0x100 * x1 + x0 % 0x100);
    assert(x1 == 0x100 * x2 + x1 % 0x100);
}

/// The two halves of a 64-bit field are its low and high 32 bits.
pub proof fn lemma_halves(x: u64)
    ensures
        get32(le64(x), 0) == x % 0x1_0000_0000,
        get32(le64(x), 4) == x / 0x1_0000_0000,
{
    let lo = (x % 0x1_0000_0000) as u32;
    let hi = (x / 0x1_0000_0000) as u32;
    lemma_le32_word(lo);
    lemma_le32_word(hi);
    lemma_le_lens();
    reveal(le64);
    reveal(get32);
    assert(le64(x) == le32(lo) + le32(hi));
}

/// The 16-bit field of `b` at `off`.
pub fn get_u16(b: &[u8], off: usize) -> (x: u16)
    requires
        off + 2 <= b@.len(),
    ensures
        x == get16(b@, off as int),
{
    reveal(get16);
    b[off] as u16 + 0x100 * (b[off + 1] as u16)
}

/// The 32-bit field of `b` at `off`.
pub fn get_u32(b: &[u8], off: usize) -> (x: u32)
    requires
        off + 4 <= b@.len(),
    ensures
        x == get32(b@, off as int),
{
    reveal(get32);
    b[off] as u32 + 0x100 * (b[off + 1] as u32) + 0x1_0000 * (b[off + 2] as u32) + 0x100_0000 * (
    b[off + 3] as u32)
}

/// The 64-bit field of `b` at `off`.
pub fn get_u64(b: &[u8], off: usize) -> (x: u64)
    requires
        off + 8 <= b@.len(),
    ensures
        x == get64(b@, off as int),
{
    reveal(get64);
    assert(off + 8 <= b.len());
    get_u32(b, off) as u64 + 0x1_0000_0000 * (get_u32(b, off + 4) as u64)
}

/// The bytes of `x`.
pub fn le_u16(x: u16) -> (v: Vec<u8>)
    ensures
        v@ == le16(x),
{
    reveal(le16);
    let v = vec![(x % 0x100) as u8, (x / 0x100) as u8];
    proof {
        assert(v@ =~= le16(x));
    }
    v
}

/// The bytes of `x`.
pub fn le_u32(x: u32) -> (v: Vec<u8>)
    ensures
        v@ == le32(x),
{
    reveal(le32);
    let v = vec![
        (x % 0x100) as u8,
        (x / 0x100 % 0x100) as u8,
        (x / 0x1_0000 % 0x100) as u8,
        (x / 0x100_0000) as u8,
    ];
    proof {
        assert(v@ =~= le32(x));
    }
    v
}

/// The bytes of `x`.
pub fn le_u64(x: u64) -> (v: Vec<u8>)
    ensures
        v@ == le64(x),
{
    reveal(le64);
    let mut v = le_u32((x % 0x1_0000_0000) as u32);
    let hi = le_u32((x / 0x1_0000_0000) as u32);
    push_all(&mut v, hi.as_slice());
    v
}

/// Overwrite `buf` from `off` on with `b`.
pub fn put_bytes(buf: &mut Vec<u8>, off: usize, b: &[u8])
    requires
        off + b@.len() <= old(buf)@.len(),
    ensures
        final(buf)@ == put(old(buf)@, off as int, b@),
{
    let ghost start = buf@;
    let mut i: usize = 0;
    assert(off + b@.len() <= buf.len());
    while i < b.len()
        invariant
            i <= b@.len(),
            off + b@.len() <= start.len(),
            off + b@.len() <= usize::MAX,
            buf@.len() == start.len(),
            forall|k: int|
                0 <= k < start.len() ==> #[trigger] buf@[k] == if off <= k < off + i {
                    b@[k - off]
                } else {
                    start[k]
                },
        decreases b@.len() - i,
    {
        buf.set(off + i, b[i]);
        i = i + 1;
    }
    proof {
        reveal(put);
        assert(buf@ =~= put(start, off as int, b@));
    }
}

/// Store `x` at `off`.
pub fn put_u16(buf: &mut Vec<u8>, off: usize, x: u16)
    requires
        off + 2 <= old(buf)@.len(),
    ensures
        final(buf)@ == put(old(buf)@, off as int, le16(x)),
{
    proof {
        lemma_le_lens();
    }
    let b = le_u16(x);
    put_bytes(buf, off, b.as_slice());
}

/// Store `x` at `off`.
pub fn put_u32(buf: &mut Vec<u8>, off: usize, x: u32)
    requires
        off + 4 <= old(buf)@.len(),
    ensures
        final(buf)@ == put(old(buf)@, off as int, le32(x)),
{
    proof {
        lemma_le_lens();
    }
    let b = le_u32(x);
    put_bytes(buf, off, b.as_slice());
}

/// Store `x` at `off`.
pub fn put_u64(buf: &mut Vec<u8>, off: usize, x: u64)
    requires
        off + 8 <= old(buf)@.len(),
    ensures
        final(buf)@ == put(old(buf)@, off as int, le64(x)),
{
    proof {
        lemma_le_lens();
    }
    let b = le_u64(x);
    put_bytes(buf, off, b.as_slice());
}

/// `n` zero bytes.
pub fn zero_vec(n: usize) -> (v: Vec<u8>)
    ensures
        v@ == zeros(n as nat),
{
    let v: Vec<u8> = vec![0u8; n];
    proof {
        reveal(zeros);
        assert(v@ =~= zeros(n as nat));
    }
    v
}

/// The bytes of `b` from `lo` up to `hi`, copied.
pub fn copy_range(b: &[u8], lo: usize, hi: usize) -> (v: Vec<u8>)
    requires
        lo <= hi <= b@.len(),
    ensures
        v@ == b@.subrange(lo as int, hi as int),
{
    slice_to_vec(slice_subrange(b, lo, hi))
}

/// A copy of `b`.
pub fn copy_all(b: &[u8]) -> (v: Vec<u8>)
    ensures
        v@ == b@,
{
    let v = copy_range(b, 0, b.len());
    proof {
        assert(v@ =~= b@);
    }
    v
}

/// Append `b` to `v`.
pub fn push_all(v: &mut Vec<u8>, b: &[u8])
    ensures
        final(v)@ == old(v)@ + b@,
{
    let ghost start = v@;
    let mut i: usize = 0;
    while i < b.len()
        invariant
            i <= b@.len(),
            v@ == start + b@.subrange(0, i as int),
        decreases b@.len() - i,
    {
        v.push(b[i]);
        i = i + 1;
        proof {
            assert(start + b@.subrange(0, i as int) =~= (start + b@.subrange(0, i - 1)).push(
                b@[i - 1],
            ));
        }
    }
    proof {
        assert(b@.subrange(0, i as int) =~= b@);
    }
}

/// Whether two byte slices hold the same bytes.
pub fn same_bytes(a: &[u8], b: &[u8]) -> (r: bool)
    ensures
        r == (a@ == b@),
{
    if a.len() != b.len() {
        return false;
    }
    let mut i: usize = 0;
    while i < a.len()
        invariant
            a@.len() == b@.len(),
            i <= a@.len(),
            forall|j: int| 0 <= j < i ==> a@[j] == b@[j],
        decreases a@.len() - i,
    {
        if a[i] != b[i] {
            return false;
        }
        i = i + 1;
    }
    proof {
        assert(a@ =~= b@);
    }
    true
}

/// Index of the first zero byte, or the length.
pub fn find_nul(b: &[u8]) -> (r: usize)
    ensures
        is_nul_pos(b@, r as int),
        r as int == nul_pos(b@),
{
    let mut i: usize = 0;
    while i < b.len() && b[i] != 0
        invariant
            i <= b@.len(),
            forall|j: int| 0 <= j < i ==> b@[j] != 0,
        decreases b@.len() - i,
    {
        i = i + 1;
    }
    proof {
        lemma_nul_pos(b@, i as int);
    }
    i
}

} // verus!
