//! Reading back what was written.

use vstd::prelude::*;
use vstd::utf8::*;

use crate::archive::ar::emit::{self, ArW, ArWriter, Waiting};
use crate::archive::ar::scan::{self, Head, Role};
use crate::archive::digits;
use crate::archive::fs::{self, ArchiveBuilder};
use crate::archive::index::{Item, Tree};
use crate::archive::writer;
use crate::bytes;
use crate::entry::FileMeta;
use crate::error::Error;
use crate::text;

verus! {

/// The characters of plain bytes.
pub open spec fn chars(b: Seq<u8>) -> Seq<char> {
    Seq::new(b.len(), |i: int| b[i] as char)
}

/// Whether `b` is made of digits.
pub open spec fn are_digits(b: Seq<u8>) -> bool {
    b.len() > 0 && forall|i: int| 0 <= i < b.len() ==> 48 <= #[trigger] b[i] <= 57
}

proof fn lemma_value_prefix(s: Seq<char>, t: Seq<char>, radix: int, n: int)
    requires
        0 <= n <= s.len(),
        n <= t.len(),
        forall|i: int| 0 <= i < n ==> s[i] == t[i],
    ensures
        digits::value(s, radix, n) == digits::value(t, radix, n),
    decreases n,
{
    if n > 0 {
        lemma_value_prefix(s, t, radix, n - 1);
    }
}

/// A number written as text is made of digits, and reads back.
pub proof fn lemma_numeral(n: nat, radix: nat)
    requires
        2 <= radix <= 10,
    ensures
        are_digits(emit::numeral(n, radix)),
        digits::value(
            chars(emit::numeral(n, radix)),
            radix as int,
            emit::numeral(n, radix).len() as int,
        ) == Some(n as int),
        n <= u64::MAX ==> digits::number(chars(emit::numeral(n, radix)), radix as int) == Some(
            n as u64,
        ),
    decreases n,
{
    let b = emit::numeral(n, radix);
    let s = chars(b);
    if n < radix {
        assert(digits::value(s, radix as int, 0) == Some(0int));
        assert(s[0] as int == 48 + n);
        assert(0 * (radix as int) == 0);
        assert(digits::value(s, radix as int, 1) == Some(n as int));
    } else {
        let q = n / radix;
        assert(q < n && q * radix + n % radix == n && n % radix < radix) by (nonlinear_arith)
            requires
                radix >= 2,
                n >= radix,
                q == n / radix,
        ;
        lemma_numeral(q, radix);
        let p = emit::numeral(q, radix);
        let k = p.len() as int;
        lemma_value_prefix(s, chars(p), radix as int, k);
        assert(s[k] as int == 48 + n % radix);
        assert(digits::value(s, radix as int, k + 1) == Some(q as int * radix as int + n % radix));
    }
    assert(s[0] != '+');
}

/// Ten to the power `k`.
pub open spec fn pow10(k: nat) -> nat
    decreases k,
{
    if k == 0 {
        1
    } else {
        10 * pow10((k - 1) as nat)
    }
}

proof fn lemma_numeral_len(n: nat, k: nat)
    requires
        n < pow10(k),
        k > 0,
    ensures
        emit::numeral(n, 10).len() <= k,
    decreases n,
{
    if n >= 10 {
        assert(n / 10 < pow10((k - 1) as nat));
        assert(k > 1) by {
            if k == 1 {
                assert(pow10(0) == 1);
                assert(pow10(1) == 10);
            }
        }
        lemma_numeral_len(n / 10, (k - 1) as nat);
    }
}

proof fn lemma_octal_len(n: nat)
    requires
        n < 0x100_0000,
    ensures
        emit::numeral(n, 8).len() <= 8,
{
    reveal_with_fuel(emit::numeral, 9);
}

proof fn lemma_blanks(s: Seq<char>, k: int, n: int)
    requires
        0 < k <= n <= s.len(),
        !digits::is_space(s[k - 1]),
        forall|i: int| k <= i < n ==> s[i] == ' ',
    ensures
        digits::last_ink(s, n) == k,
    decreases n - k,
{
    if n > k {
        lemma_blanks(s, k, n - 1);
    }
}

/// A number in a field reads back.
proof fn lemma_number_field(v: nat, radix: nat, n: int)
    requires
        2 <= radix <= 10,
        v <= u64::MAX,
        emit::numeral(v, radix).len() <= n,
    ensures
        digits::field(emit::in_field(emit::numeral(v, radix), n), radix as int) == Some(v as u64),
{
    let b = emit::numeral(v, radix);
    lemma_numeral(v, radix);
    let f = emit::in_field(b, n);
    text::lemma_ascii(f);
    let s = chars(f);
    let k = b.len() as int;
    assert(b[k - 1] <= 57);
    assert(s[k - 1] == b[k - 1] as char);
    lemma_blanks(s, k, n);
    let t = s.subrange(0, k);
    assert(t =~= chars(b));
    assert(t[0] == b[0] as char);
    assert(digits::first_ink(t, 0) == 0);
    assert(digits::trimmed(s) =~= t);
}

/// Whether the format can hold the metadata of a member of `len` bytes: numbers
/// that fit in their fields, and permission bits alone.
pub open spec fn meta_fits(meta: FileMeta, len: nat) -> bool {
    &&& meta.uid <= 999_999
    &&& meta.gid <= 999_999
    &&& meta.mode < 0x1000
    &&& len <= 9_999_999_999
}

/// Whether `f` is a name field that reads as the text `raw`.
pub open spec fn reads_as(f: Seq<u8>, raw: Seq<char>) -> bool {
    &&& valid_utf8(emit::in_field(f, 16))
    &&& digits::end_trimmed(decode_utf8(emit::in_field(f, 16))) == raw
}

proof fn lemma_mode(m: u16)
    requires
        m < 0x1000,
    ensures
        (0x8000u32 | (m as u32)) == 0x8000 + m,
{
    let x = m as u32;
    assert((0x8000u32 | x) == 0x8000 + x) by (bit_vector)
        requires
            x < 0x1000,
    ;
}

/// A header that was written reads back.
pub proof fn lemma_head(f: Seq<u8>, raw: Seq<char>, meta: FileMeta, len: nat)
    requires
        meta_fits(meta, len),
        reads_as(f, raw),
    ensures
        emit::header(f, meta, len).len() == 60,
        emit::header(f, meta, len)[58] == 0x60,
        emit::header(f, meta, len)[59] == 0x0a,
        scan::head(emit::header(f, meta, len)) == Some(
            Head {
                raw,
                size: len as u64,
                mtime: meta.mtime as u64,
                uid: meta.uid,
                gid: meta.gid,
                mode: meta.mode,
            },
        ),
{
    reveal(emit::header);
    reveal(scan::head);
    let h = emit::header(f, meta, len);
    let m = (0x8000u32 | (meta.mode as u32)) as nat;
    lemma_mode(meta.mode);
    reveal_with_fuel(pow10, 13);
    lemma_numeral_len(meta.mtime as nat, 12);
    lemma_numeral_len(meta.uid as nat, 6);
    lemma_numeral_len(meta.gid as nat, 6);
    lemma_numeral_len(len, 10);
    lemma_octal_len(m);
    lemma_number_field(meta.mtime as nat, 10, 12);
    lemma_number_field(meta.uid as nat, 10, 6);
    lemma_number_field(meta.gid as nat, 10, 6);
    lemma_number_field(m, 8, 8);
    lemma_number_field(len, 10, 10);
    assert(h.subrange(0, 16) =~= emit::in_field(f, 16));
    assert(h.subrange(16, 28) =~= emit::in_field(emit::numeral(meta.mtime as nat, 10), 12));
    assert(h.subrange(28, 34) =~= emit::in_field(emit::numeral(meta.uid as nat, 10), 6));
    assert(h.subrange(34, 40) =~= emit::in_field(emit::numeral(meta.gid as nat, 10), 6));
    assert(h.subrange(40, 48) =~= emit::in_field(emit::numeral(m, 8), 8));
    assert(h.subrange(48, 58) =~= emit::in_field(emit::numeral(len, 10), 10));
}

/// The bytes of a member.
pub open spec fn member_bytes(f: Seq<u8>, meta: FileMeta, body: Seq<u8>) -> Seq<u8> {
    emit::header(f, meta, body.len()) + body + emit::filler(body.len())
}

proof fn lemma_chain(f: Seq<u8>, meta: FileMeta, body: Seq<u8>)
    ensures
        writer::chained(emit::member_runs(f, meta, body), 3) == member_bytes(f, meta, body),
{
    reveal_with_fuel(writer::chained, 4);
    let h = emit::header(f, meta, body.len());
    assert(Seq::<u8>::empty() + h =~= h);
}

/// Whether the bytes `b` stand on the device `img` from `pos` on.
pub open spec fn stands(img: Seq<u8>, pos: int, b: Seq<u8>) -> bool {
    0 <= pos && pos + b.len() <= img.len() && img.subrange(pos, pos + b.len()) == b
}

/// A member that was written reads back.
proof fn lemma_member(
    img: Seq<u8>,
    pos: int,
    f: Seq<u8>,
    raw: Seq<char>,
    meta: FileMeta,
    body: Seq<u8>,
)
    requires
        stands(img, pos, member_bytes(f, meta, body)),
        meta_fits(meta, body.len()),
        reads_as(f, raw),
    ensures
        pos + 60 <= img.len(),
        img[pos + 58] == 0x60,
        img[pos + 59] == 0x0a,
        scan::member(img, pos) == Ok::<Head, Error>(
            Head {
                raw,
                size: body.len() as u64,
                mtime: meta.mtime as u64,
                uid: meta.uid,
                gid: meta.gid,
                mode: meta.mode,
            },
        ),
        scan::next_of(pos, body.len() as u64) == pos + member_bytes(f, meta, body).len(),
        img.subrange(pos + 60, pos + 60 + body.len()) == body,
{
    reveal(scan::member);
    lemma_head(f, raw, meta, body.len());
    let b = member_bytes(f, meta, body);
    let h = emit::header(f, meta, body.len());
    let s = img.subrange(pos, pos + b.len());
    assert(b.subrange(0, 60) =~= h);
    assert(img.subrange(pos, pos + 60) =~= s.subrange(0, 60));
    assert(img[pos + 58] == s[58] && img[pos + 59] == s[59]);
    assert(b.subrange(60, 60 + body.len() as int) =~= body);
    assert(img.subrange(pos + 60, pos + 60 + body.len()) =~= s.subrange(
        60,
        60 + body.len() as int,
    ));
}

// ---- names ----

/// Whether the format can hold a name: it is not empty, no byte of it ends a
/// name in the table, and it is none that readers take for something else.
pub open spec fn name_fits(n: Seq<char>) -> bool {
    let b = text::utf8(n);
    &&& n.len() > 0
    &&& forall|i: int| 0 <= i < b.len() ==> b[i] != 0x0a && b[i] != 0x2f
    &&& !scan::starts_with(n, "__.SYMDEF"@)
    &&& n != "#1"@
}

proof fn lemma_no_slash(n: Seq<char>)
    requires
        name_fits(n),
    ensures
        forall|k: int| 0 <= k < n.len() ==> n[k] != '/',
        text::utf8(n).len() > 0,
{
    assert forall|k: int| 0 <= k < n.len() implies n[k] != '/' by {
        if n[k] == '/' {
            text::lemma_utf8_holds(n, k);
            let b = text::utf8(n);
            let j = choose|j: int| 0 <= j < b.len() && b[j] == 0x2f;
            assert(b[j] != 0x2f);
        }
    }
    text::lemma_text_of_utf8(n);
    if text::utf8(n).len() == 0 {
        assert(text::utf8(n) =~= text::utf8(Seq::<char>::empty()));
        text::lemma_text_of_utf8(Seq::<char>::empty());
    }
}

/// `n` blanks.
pub open spec fn blanks(n: nat) -> Seq<char> {
    Seq::new(n, |i: int| ' ')
}

/// A text that does not end in white space reads back from its field.
proof fn lemma_reads_as(raw: Seq<char>)
    requires
        raw.len() > 0,
        !digits::is_space(raw.last()),
        text::utf8(raw).len() <= 16,
    ensures
        reads_as(text::utf8(raw), raw),
{
    let f = text::utf8(raw);
    let pad = blanks((16 - f.len()) as nat);
    let t = raw + pad;
    text::lemma_utf8_concat(raw, pad);
    text::lemma_utf8_plain(pad);
    assert(text::utf8(t) =~= emit::in_field(f, 16));
    encode_utf8_valid_utf8(t);
    encode_utf8_decode_utf8(t);
    let k = raw.len() as int;
    lemma_blanks(t, k, t.len() as int);
    assert(t.subrange(0, k) =~= raw);
}

proof fn lemma_short_name(n: Seq<char>)
    requires
        name_fits(n),
        emit::is_short(text::utf8(n)),
    ensures
        reads_as(text::utf8(n).push(0x2f), n.push('/')),
{
    let raw = n.push('/');
    let one = seq!['/'];
    assert(raw =~= n + one);
    text::lemma_utf8_concat(n, one);
    text::lemma_utf8_plain(one);
    assert(text::utf8(raw) =~= text::utf8(n).push(0x2f));
    lemma_reads_as(raw);
}

/// The text of a name field that points into the table.
pub open spec fn pointer(off: nat) -> Seq<char> {
    seq!['/'] + chars(emit::numeral(off, 10))
}

proof fn lemma_long_name(off: nat)
    requires
        off <= 9_999_999_999,
    ensures
        reads_as(seq![0x2fu8] + emit::numeral(off, 10), pointer(off)),
{
    let d = emit::numeral(off, 10);
    let raw = pointer(off);
    lemma_numeral(off, 10);
    reveal_with_fuel(pow10, 13);
    lemma_numeral_len(off, 10);
    assert forall|i: int| 0 <= i < raw.len() implies '\0' <= #[trigger] raw[i] <= '\u{7f}' by {
        if i > 0 {
            assert(d[i - 1] <= 57);
        }
    }
    text::lemma_utf8_plain(raw);
    assert(text::utf8(raw) =~= seq![0x2fu8] + d);
    assert(raw.last() == d[d.len() - 1] as char);
    lemma_reads_as(raw);
}

pub(crate) proof fn lemma_lits()
    ensures
        "//"@ == seq!['/', '/'],
        "/"@ == seq!['/'],
        "/SYM64/"@ == seq!['/', 'S', 'Y', 'M', '6', '4', '/'],
        "#1/"@ == seq!['#', '1', '/'],
        "#1"@ == seq!['#', '1'],
{
    reveal_strlit("//");
    reveal_strlit("/");
    reveal_strlit("/SYM64/");
    reveal_strlit("#1/");
    reveal_strlit("#1");
    assert("//"@ =~= seq!['/', '/']);
    assert("/"@ =~= seq!['/']);
    assert("/SYM64/"@ =~= seq!['/', 'S', 'Y', 'M', '6', '4', '/']);
    assert("#1/"@ =~= seq!['#', '1', '/']);
    assert("#1"@ =~= seq!['#', '1']);
}

proof fn lemma_short_role(img: Seq<u8>, h: Head, at: int, table: Option<Seq<u8>>, n: Seq<char>)
    requires
        name_fits(n),
        h.raw == n.push('/'),
    ensures
        scan::role(img, h, at, table) == Ok::<Role, Error>(
            Role::File { name: n, off: at, len: h.size as int },
        ),
{
    reveal(scan::role);
    lemma_lits();
    lemma_no_slash(n);
    let raw = h.raw;
    assert(raw[0] == n[0]);
    assert(raw != "//"@ && raw != "/"@ && raw != "/SYM64/"@) by {
        assert("//"@[0] == '/' && "/"@[0] == '/' && "/SYM64/"@[0] == '/');
    }
    assert(!scan::starts_with(raw, "#1/"@)) by {
        if scan::starts_with(raw, "#1/"@) {
            let p = raw.subrange(0, 3);
            assert(p[0] == '#' && p[1] == '1' && p[2] == '/');
            assert(raw[2] == '/' && raw[0] == '#' && raw[1] == '1');
            if n.len() > 2 {
                assert(raw[2] == n[2]);
            } else if n.len() == 2 {
                assert(n =~= seq!['#', '1']);
            } else {
                assert(raw.len() == 2);
            }
        }
    }
    assert(!scan::starts_with(raw, "/"@)) by {
        if scan::starts_with(raw, "/"@) {
            assert(raw.subrange(0, 1)[0] == '/');
        }
    }
    assert(raw.drop_last() =~= n);
}

proof fn lemma_name_end_is(t: Seq<u8>, i: int, e: int)
    requires
        0 <= i <= e < t.len(),
        t[e] == 0x2f,
        forall|k: int| i <= k < e ==> t[k] != 0x0a && t[k] != 0x2f,
    ensures
        scan::name_end(t, i) == e,
    decreases e - i,
{
    if i < e {
        lemma_name_end_is(t, i + 1, e);
    }
}

proof fn lemma_long_role(img: Seq<u8>, h: Head, at: int, t: Seq<u8>, off: nat, n: Seq<char>)
    requires
        name_fits(n),
        off <= 9_999_999_999,
        h.raw == pointer(off),
        off + text::utf8(n).len() < t.len(),
        t.subrange(off as int, off as int + text::utf8(n).len()) == text::utf8(n),
        t[off as int + text::utf8(n).len()] == 0x2f,
    ensures
        scan::role(img, h, at, Some(t)) == Ok::<Role, Error>(
            Role::File { name: n, off: at, len: h.size as int },
        ),
{
    reveal(scan::role);
    lemma_lits();
    lemma_numeral(off, 10);
    let d = emit::numeral(off, 10);
    let raw = h.raw;
    let b = text::utf8(n);
    assert(48 <= d[0] <= 57);
    assert(raw[0] == '/' && raw[1] == d[0] as char);
    assert(raw != "//"@ && raw != "/SYM64/"@) by {
        assert("//"@[1] == '/' && "/SYM64/"@[1] == 'S');
    }
    assert(raw.len() >= 2);
    assert(!scan::starts_with(raw, "#1/"@)) by {
        if scan::starts_with(raw, "#1/"@) {
            assert(raw.subrange(0, 3)[0] == '#');
        }
    }
    assert(raw.subrange(0, 1) =~= seq!['/']);
    let rest = raw.subrange(1, raw.len() as int);
    let s = chars(d);
    assert(rest =~= s);
    let k = s.len() as int;
    assert(48 <= d[k - 1] <= 57);
    assert(digits::last_ink(s, k) == k);
    assert(s.subrange(0, k) =~= s);
    assert(digits::first_ink(s, 0) == 0);
    assert(digits::trimmed(s) =~= s);
    assert forall|i: int| off <= i < off + b.len() implies t[i] != 0x0a && t[i] != 0x2f by {
        assert(t[i] == t.subrange(off as int, off as int + b.len())[i - off]);
    }
    lemma_name_end_is(t, off as int, off as int + b.len());
    text::lemma_text_of_utf8(n);
}

// ---- the table of long names ----

/// A long name stands in the table where its member says.
proof fn lemma_table(ms: Seq<Waiting>, i: int, n: int)
    requires
        0 <= i < n <= ms.len(),
        !emit::is_short(text::utf8(ms[i].name)),
    ensures
        ({
            let t = emit::table(ms, n);
            let b = text::utf8(ms[i].name);
            let off = emit::table(ms, i).len() as int;
            &&& off + b.len() + 2 <= t.len()
            &&& t.subrange(off, off + b.len()) == b
            &&& t[off + b.len()] == 0x2f
        }),
    decreases n,
{
    let t = emit::table(ms, n);
    let p = emit::table(ms, n - 1);
    let b = text::utf8(ms[i].name);
    let off = emit::table(ms, i).len() as int;
    if i == n - 1 {
        assert(t.subrange(off, off + b.len()) =~= b);
        assert(t[off + b.len()] == 0x2f);
    } else {
        lemma_table(ms, i, n - 1);
        assert(t.subrange(0, p.len() as int) =~= p);
        assert(t.subrange(off, off + b.len()) =~= p.subrange(off, off + b.len()));
        assert(t[off + b.len()] == p[off + b.len()]);
    }
}

proof fn lemma_table_grows(ms: Seq<Waiting>, i: int, n: int)
    requires
        0 <= i <= n <= ms.len(),
    ensures
        emit::table(ms, i).len() <= emit::table(ms, n).len(),
    decreases n,
{
    if i < n {
        lemma_table_grows(ms, i, n - 1);
    }
}

// ---- a whole archive ----

/// Whether the format can hold all the members `ms`.
pub open spec fn all_fit(ms: Seq<Waiting>) -> bool {
    &&& forall|i: int| 0 <= i < ms.len() ==> name_fits((#[trigger] ms[i]).name)
    &&& forall|i: int|
        0 <= i < ms.len() ==> meta_fits((#[trigger] ms[i]).meta, ms[i].data.len())
    &&& emit::table(ms, ms.len() as int).len() <= 9_999_999_999
}

/// The table that readers hold once they came to the members.
pub open spec fn held_table(ms: Seq<Waiting>) -> Option<Seq<u8>> {
    let t = emit::table(ms, ms.len() as int);
    if t.len() == 0 {
        None
    } else {
        Some(t)
    }
}

/// The entry of a member as a reader sees it, where the member is at `pos`.
pub open spec fn item_of(m: Waiting, pos: int) -> Item {
    scan::item(
        Head {
            raw: Seq::empty(),
            size: m.data.len() as u64,
            mtime: m.meta.mtime as u64,
            uid: m.meta.uid,
            gid: m.meta.gid,
            mode: m.meta.mode,
        },
        m.name,
        pos + 60,
        m.data.len() as int,
    )
}

/// A member whose bytes stand on a device is read back.
proof fn lemma_one(img: Seq<u8>, pos: int, ms: Seq<Waiting>, i: int, t: Tree)
    requires
        all_fit(ms),
        0 <= i < ms.len(),
        0 <= pos,
        stands(img, pos, member_bytes(emit::name_field(ms, i), ms[i].meta, ms[i].data)),
    ensures
        ({
            let b = member_bytes(emit::name_field(ms, i), ms[i].meta, ms[i].data);
            &&& scan::scan_from(img, pos, held_table(ms), t) == scan::scan_from(
                img,
                pos + b.len(),
                held_table(ms),
                t.pushed(item_of(ms[i], pos)),
            )
            &&& img.subrange(pos + 60, pos + 60 + ms[i].data.len()) == ms[i].data
            &&& b.len() > 0
        }),
{
    let m = ms[i];
    let f = emit::name_field(ms, i);
    let nb = text::utf8(m.name);
    let off = emit::table(ms, i).len();
    let n = ms.len() as int;
    lemma_table_grows(ms, i, n);
    assert(name_fits(m.name));
    assert(meta_fits(m.meta, m.data.len()));
    let raw = if emit::is_short(nb) {
        m.name.push('/')
    } else {
        pointer(off)
    };
    if emit::is_short(nb) {
        lemma_short_name(m.name);
    } else {
        lemma_long_name(off);
        lemma_table(ms, i, n);
    }
    lemma_member(img, pos, f, raw, m.meta, m.data);
    let h = scan::member(img, pos).unwrap();
    if emit::is_short(nb) {
        lemma_short_role(img, h, pos + 60, held_table(ms), m.name);
    } else {
        lemma_long_role(
            img,
            h,
            pos + 60,
            emit::table(ms, n),
            off,
            m.name,
        );
    }
    assert(scan::item(h, m.name, pos + 60, m.data.len() as int) =~= item_of(m, pos));
}

/// The tree of the first `n` members, which are written from `pos` on.
pub open spec fn tree_of(img: Seq<u8>, pos: u64, ms: Seq<Waiting>, n: int) -> Tree
    decreases n,
{
    if n <= 0 {
        Tree::empty()
    } else {
        tree_of(img, pos, ms, n - 1).pushed(
            item_of(ms[n - 1], emit::members_written(img, pos, ms, n - 1).1 as int),
        )
    }
}

/// What writing one more member does to the device.
proof fn lemma_written(img: Seq<u8>, pos: u64, ms: Seq<Waiting>, n: int)
    requires
        0 < n <= ms.len(),
        emit::members_written(img, pos, ms, n).2 is Ok,
        emit::members_written(img, pos, ms, n - 1).1 <= emit::members_written(
            img,
            pos,
            ms,
            n - 1,
        ).0.len() <= u64::MAX,
    ensures
        ({
            let (i0, p0, r0) = emit::members_written(img, pos, ms, n - 1);
            let (i1, p1, _) = emit::members_written(img, pos, ms, n);
            let b = member_bytes(
                emit::name_field(ms, n - 1),
                ms[n - 1].meta,
                ms[n - 1].data,
            );
            &&& r0 is Ok
            &&& i1 == bytes::put(i0, p0 as int, b)
            &&& i1.len() == i0.len()
            &&& p1 == p0 + b.len()
            &&& p1 <= i0.len()
        }),
{
    broadcast use bytes::lemma_put_len;

    let (i0, p0, r0) = emit::members_written(img, pos, ms, n - 1);
    let m = ms[n - 1];
    let f = emit::name_field(ms, n - 1);
    writer::lemma_run_ok(i0, p0, emit::member_runs(f, m.meta, m.data), 3);
    lemma_chain(f, m.meta, m.data);
}

proof fn lemma_lens(img: Seq<u8>, pos: u64, ms: Seq<Waiting>, n: int)
    requires
        0 <= n <= ms.len(),
        emit::members_written(img, pos, ms, n).2 is Ok,
        pos <= img.len() <= u64::MAX,
    ensures
        emit::members_written(img, pos, ms, n).0.len() == img.len(),
        pos <= emit::members_written(img, pos, ms, n).1 <= img.len(),
    decreases n,
{
    if n > 0 {
        assert(emit::members_written(img, pos, ms, n - 1).2 is Ok);
        lemma_lens(img, pos, ms, n - 1);
        lemma_written(img, pos, ms, n);
    }
}

/// Members leave what stands in front of them alone.
proof fn lemma_kept(img: Seq<u8>, pos: u64, ms: Seq<Waiting>, k: int, n: int)
    requires
        0 <= k <= n <= ms.len(),
        emit::members_written(img, pos, ms, n).2 is Ok,
        pos <= img.len() <= u64::MAX,
    ensures
        emit::members_written(img, pos, ms, k).2 is Ok,
        emit::members_written(img, pos, ms, k).1 <= emit::members_written(img, pos, ms, n).1,
        forall|i: int|
            0 <= i < emit::members_written(img, pos, ms, k).1 ==> emit::members_written(
                img,
                pos,
                ms,
                n,
            ).0[i] == emit::members_written(img, pos, ms, k).0[i],
    decreases n - k,
{
    if k < n {
        assert(emit::members_written(img, pos, ms, n - 1).2 is Ok);
        lemma_kept(img, pos, ms, k, n - 1);
        lemma_lens(img, pos, ms, n - 1);
        lemma_written(img, pos, ms, n);
        reveal(bytes::put);
    }
}

/// The bytes of the `k`-th member stand on the device once all were written.
proof fn lemma_stands(img: Seq<u8>, pos: u64, ms: Seq<Waiting>, k: int)
    requires
        0 <= k < ms.len(),
        emit::members_written(img, pos, ms, ms.len() as int).2 is Ok,
        pos <= img.len() <= u64::MAX,
    ensures
        ({
            let done = emit::members_written(img, pos, ms, ms.len() as int).0;
            let b = member_bytes(emit::name_field(ms, k), ms[k].meta, ms[k].data);
            &&& stands(done, emit::members_written(img, pos, ms, k).1 as int, b)
            &&& emit::members_written(img, pos, ms, k + 1).1 == emit::members_written(
                img,
                pos,
                ms,
                k,
            ).1 + b.len()
        }),
{
    let n = ms.len() as int;
    lemma_kept(img, pos, ms, k + 1, n);
    lemma_kept(img, pos, ms, k, n);
    lemma_lens(img, pos, ms, k);
    lemma_lens(img, pos, ms, n);
    lemma_written(img, pos, ms, k + 1);
    reveal(bytes::put);
    let done = emit::members_written(img, pos, ms, n).0;
    let (i1, p1, _) = emit::members_written(img, pos, ms, k + 1);
    let p0 = emit::members_written(img, pos, ms, k).1;
    let b = member_bytes(emit::name_field(ms, k), ms[k].meta, ms[k].data);
    assert forall|i: int| 0 <= i < b.len() implies done[p0 + i] == b[i] by {
        assert(done[p0 + i] == i1[p0 + i]);
    }
    assert(done.subrange(p0 as int, p0 + b.len()) =~= b);
}

/// The scan of a device that all members were written to comes to the tree of
/// the first `n` of them.
proof fn lemma_scan(img: Seq<u8>, pos: u64, ms: Seq<Waiting>, n: int)
    requires
        all_fit(ms),
        0 <= n <= ms.len(),
        emit::members_written(img, pos, ms, ms.len() as int).2 is Ok,
        pos <= img.len() <= u64::MAX,
    ensures
        ({
            let done = emit::members_written(img, pos, ms, ms.len() as int).0;
            scan::scan_from(done, pos as int, held_table(ms), Tree::empty()) == scan::scan_from(
                done,
                emit::members_written(img, pos, ms, n).1 as int,
                held_table(ms),
                tree_of(img, pos, ms, n),
            )
        }),
    decreases n,
{
    if n > 0 {
        lemma_scan(img, pos, ms, n - 1);
        lemma_stands(img, pos, ms, n - 1);
        let done = emit::members_written(img, pos, ms, ms.len() as int).0;
        lemma_one(
            done,
            emit::members_written(img, pos, ms, n - 1).1 as int,
            ms,
            n - 1,
            tree_of(img, pos, ms, n - 1),
        );
    }
}

/// The bytes in front of the members.
pub open spec fn front_bytes(ms: Seq<Waiting>) -> Seq<u8> {
    let t = emit::table(ms, ms.len() as int);
    if t.len() == 0 {
        scan::magic()
    } else {
        scan::magic() + member_bytes(seq![0x2fu8, 0x2f], emit::no_meta(), t)
    }
}

proof fn lemma_front(ms: Seq<Waiting>)
    ensures
        writer::chained(emit::front_runs(ms), emit::front_runs(ms).len() as int) == front_bytes(
            ms,
        ),
{
    reveal_with_fuel(writer::chained, 5);
    let t = emit::table(ms, ms.len() as int);
    let m = scan::magic();
    assert(Seq::<u8>::empty() + m =~= m);
    if t.len() > 0 {
        let f = seq![0x2fu8, 0x2f];
        let rs = emit::member_runs(f, emit::no_meta(), t);
        let fr = emit::front_runs(ms);
        assert(fr[0] == m && fr[1] == rs[0] && fr[2] == rs[1] && fr[3] == rs[2]);
        let h = emit::header(f, emit::no_meta(), t.len());
        assert(m + (h + t + emit::filler(t.len())) =~= m + h + t + emit::filler(t.len()));
    }
}

/// The part of an archive in front of its members reads as such.
proof fn lemma_front_scan(img: Seq<u8>, ms: Seq<Waiting>)
    requires
        all_fit(ms),
        stands(img, 0, front_bytes(ms)),
    ensures
        scan::scanned(img) == scan::scan_from(
            img,
            front_bytes(ms).len() as int,
            held_table(ms),
            Tree::empty(),
        ),
{
    let fb = front_bytes(ms);
    let t = emit::table(ms, ms.len() as int);
    assert(img.subrange(0, 8) =~= img.subrange(0, fb.len() as int).subrange(0, 8));
    assert(img.subrange(0, 8) =~= scan::magic());
    if t.len() > 0 {
        let f = seq![0x2fu8, 0x2f];
        let mb = member_bytes(f, emit::no_meta(), t);
        assert(img.subrange(8, 8 + mb.len() as int) =~= img.subrange(0, fb.len() as int).subrange(
            8,
            8 + mb.len() as int,
        ));
        assert(img.subrange(8, 8 + mb.len() as int) =~= mb);
        let raw = seq!['/', '/'];
        text::lemma_utf8_plain(raw);
        assert(text::utf8(raw) =~= f);
        lemma_reads_as(raw);
        lemma_member(img, 8, f, raw, emit::no_meta(), t);
        lemma_lits();
        reveal(scan::role);
        assert(img.subrange(68, 68 + t.len() as int) == t);
    }
}

/// An archive that was written reads back: the scan of the device gives the tree
/// of its members, in the order in which they were added. Nothing marks the end
/// of an archive, so what stands behind it must not look like a member.
pub proof fn lemma_read_back(img0: Seq<u8>, b: ArW)
    requires
        img0.len() <= u64::MAX,
        b.pos == 0,
        all_fit(b.members),
        ArWriter::finished(b, img0).2 is Ok,
        ({
            let (w, img, _) = ArWriter::finished(b, img0);
            w.pos + 60 > img.len() || img[w.pos + 58] != 0x60 || img[w.pos + 59] != 0x0a
        }),
    ensures
        ({
            let (i, p, _) = writer::run_all(img0, b.pos, emit::front_runs(b.members));
            scan::scanned(ArWriter::finished(b, img0).1) == Ok::<Tree, Error>(
                tree_of(i, p, b.members, b.members.len() as int),
            )
        }),
{
    let ms = b.members;
    let (i, p, r) = writer::run_all(img0, b.pos, emit::front_runs(ms));
    let done = ArWriter::finished(b, img0).1;
    lemma_done(img0, b);
    lemma_front_scan(done, ms);
    lemma_scan(i, p, ms, ms.len() as int);
}

/// What stands on the device once an archive was ended.
proof fn lemma_done(img0: Seq<u8>, b: ArW)
    requires
        img0.len() <= u64::MAX,
        b.pos == 0,
        ArWriter::finished(b, img0).2 is Ok,
    ensures
        ({
            let (i, p, r) = writer::run_all(img0, b.pos, emit::front_runs(b.members));
            let done = ArWriter::finished(b, img0).1;
            let n = b.members.len() as int;
            &&& r is Ok
            &&& p == front_bytes(b.members).len()
            &&& p <= i.len()
            &&& i.len() == img0.len()
            &&& stands(done, 0, front_bytes(b.members))
            &&& emit::members_written(i, p, b.members, n).2 is Ok
            &&& done == emit::members_written(i, p, b.members, n).0
            &&& ArWriter::finished(b, img0).0.pos == emit::members_written(i, p, b.members, n).1
            &&& done.len() == img0.len()
        }),
{
    broadcast use bytes::lemma_put_len;

    let ms = b.members;
    let (i, p, r) = writer::run_all(img0, b.pos, emit::front_runs(ms));
    let done = ArWriter::finished(b, img0).1;
    let n = ms.len() as int;
    writer::lemma_run_ok(img0, 0, emit::front_runs(ms), emit::front_runs(ms).len() as int);
    lemma_front(ms);
    lemma_lens(i, p, ms, n);
    lemma_kept(i, p, ms, 0, n);
    reveal(bytes::put);
    let fb = front_bytes(ms);
    assert forall|k: int| 0 <= k < fb.len() implies done[k] == fb[k] by {
        assert(done[k] == i[k]);
    }
    assert(done.subrange(0, fb.len() as int) =~= fb);
}

/// The contents of a member that was written are read back where its entry says.
pub proof fn lemma_contents(img0: Seq<u8>, b: ArW, k: int)
    requires
        img0.len() <= u64::MAX,
        b.pos == 0,
        all_fit(b.members),
        ArWriter::finished(b, img0).2 is Ok,
        0 <= k < b.members.len(),
    ensures
        ({
            let (i, p, _) = writer::run_all(img0, b.pos, emit::front_runs(b.members));
            let at = emit::members_written(i, p, b.members, k).1 as int;
            let done = ArWriter::finished(b, img0).1;
            &&& item_of(b.members[k], at).data matches Some(d)
            &&& fs::located(done, d) == Ok::<Seq<u8>, Error>(b.members[k].data)
        }),
{
    let ms = b.members;
    let (i, p, r) = writer::run_all(img0, b.pos, emit::front_runs(ms));
    lemma_done(img0, b);
    lemma_stands(i, p, ms, k);
    let done = ArWriter::finished(b, img0).1;
    let at = emit::members_written(i, p, ms, k).1 as int;
    lemma_one(done, at, ms, k, Tree::empty());
    let f = emit::name_field(ms, k);
    let mb = member_bytes(f, ms[k].meta, ms[k].data);
    assert(meta_fits(ms[k].meta, ms[k].data.len()));
    assert(mb.len() >= 60 + ms[k].data.len()) by {
        reveal(emit::header);
    }
}

} // verus!
