//! Decoding of solid groups: one decoder runs over the packed runs of all
//! members, and a cursor remembers how far it has come.

use compcol::Decoder as _;
use vstd::prelude::*;
use vstd::slice::slice_subrange;

use crate::archive::fs::read_range;
use crate::archive::rar::scan::{self, DataArea, SolidGroup};
use crate::block::MemoryBackend;
use crate::bytes::push_all;
use crate::error::{self, Error, Result};

verus! {

/// The decoder of packed runs.
#[verifier::external_type_specification]
#[verifier::external_body]
pub struct ExDecoder(compcol::rar5::Decoder);

/// The number of bytes and the window that a decoder was made for.
pub uninterp spec fn made_for(d: compcol::rar5::Decoder) -> (u64, usize);

/// The packed bytes that a decoder has taken in.
pub uninterp spec fn taken(d: compcol::rar5::Decoder) -> Seq<u8>;

/// The bytes that a decoder has given out, or dropped at the caller's wish.
pub uninterp spec fn given(d: compcol::rar5::Decoder) -> Seq<u8>;

/// Whether a decoder has failed; it then fails for good.
pub uninterp spec fn failed(d: compcol::rar5::Decoder) -> bool;

/// All that a decoder for `unpack` bytes with the window `window` can give out of
/// the packed bytes `packed`, up to where it fails; and why it fails, if it does.
pub uninterp spec fn unpacked(unpack: u64, window: usize, packed: Seq<u8>) -> (
    Seq<u8>,
    Option<Error>,
);

/// What there is in the packed bytes `w` for the decoder `d`.
pub open spec fn holding(d: compcol::rar5::Decoder, w: Seq<u8>) -> (Seq<u8>, Option<Error>) {
    unpacked(made_for(d).0, made_for(d).1, w)
}

/// Whether what `d` has given out is the start of what there is in any stream
/// that starts with what `d` has taken in.
pub open spec fn in_step(d: compcol::rar5::Decoder) -> bool {
    forall|w: Seq<u8>| #[trigger]
        taken(d).is_prefix_of(w) ==> given(d).is_prefix_of(holding(d, w).0)
}

/// Whether `d` has given out all that there is in any stream that starts with
/// what it has taken in.
pub open spec fn ended(d: compcol::rar5::Decoder) -> bool {
    forall|w: Seq<u8>| #[trigger]
        taken(d).is_prefix_of(w) ==> holding(d, w) == (given(d), None::<Error>)
}

/// Whether every stream that starts with `w` makes the decoder `d` fail with `e`.
pub open spec fn fails_on(d: compcol::rar5::Decoder, w: Seq<u8>, e: Error) -> bool {
    forall|x: Seq<u8>| #[trigger] w.is_prefix_of(x) ==> holding(d, x).1 == Some(e)
}

/// `compcol::rar5::Decoder::with_unpack_size_and_window`: a decoder that has
/// taken in and given out nothing.
#[verifier::external_body]
fn new_decoder(unpack: u64, window: usize) -> (d: compcol::rar5::Decoder)
    ensures
        made_for(d) == (unpack, window),
        taken(d) == Seq::<u8>::empty(),
        given(d) == Seq::<u8>::empty(),
        !failed(d),
        in_step(d),
{
    compcol::rar5::Decoder::with_unpack_size_and_window(unpack, window)
}

/// `decode` of `compcol::rar5::Decoder`, into a buffer of `room` bytes. It takes
/// in a start of `input` and gives out up to `room` bytes, the next ones of the
/// stream, however the stream was cut up before; fewer than `room` where what was
/// taken in holds no more. With input and room it takes in or gives out
/// something, unless the stream has ended. It fails, then and for good, where
/// what it was handed so far makes it; the error is `Unsupported` for a filter
/// that it does not know.
#[verifier::external_body]
fn decode(d: &mut compcol::rar5::Decoder, input: &[u8], room: usize) -> (r: Result<
    (Vec<u8>, usize),
>)
    requires
        room <= isize::MAX,
    ensures
        made_for(*final(d)) == made_for(*old(d)),
        failed(*final(d)) == (r is Err),
        failed(*old(d)) ==> r is Err,
        r matches Err(e) ==> e == Error::Unsupported || e == Error::InvalidImage,
        r matches Err(e) ==> failed(*old(d)) || fails_on(*old(d), taken(*old(d)) + input@, e),
        r matches Ok((out, n)) ==> out@.len() <= room && n <= input@.len() && taken(*final(d))
            == taken(*old(d)) + input@.take(n as int) && given(*final(d)) == given(*old(d)) + out@
            && in_step(*final(d)),
        r matches Ok((out, n)) ==> out@.len() < room ==> unpacked(
            made_for(*final(d)).0,
            made_for(*final(d)).1,
            taken(*final(d)),
        ) == (given(*final(d)), None::<Error>),
        r matches Ok((out, n)) ==> room > 0 && input@.len() > 0 && n == 0 && out@.len() == 0
            ==> ended(*final(d)),
{
    let mut out = vec![0u8; room];
    match d.decode(input, &mut out) {
        Ok((p, _)) => {
            out.truncate(p.written);
            Ok((out, p.consumed))
        },
        Err(compcol::Error::Unsupported) => Err(Error::Unsupported),
        Err(_) => Err(Error::InvalidImage),
    }
}

/// `finish` of `compcol::rar5::Decoder`, into a buffer of `room` bytes. Where it
/// does not fail, it gives out up to `room` more bytes of the stream; with room,
/// none where the stream has ended with all the bytes that the decoder was made
/// for. (One made for `u64::MAX` bytes takes any number.)
#[verifier::external_body]
fn finish(d: &mut compcol::rar5::Decoder, room: usize) -> (r: Result<Vec<u8>>)
    requires
        room <= isize::MAX,
    ensures
        made_for(*final(d)) == made_for(*old(d)),
        failed(*final(d)) == (r is Err),
        failed(*old(d)) ==> r is Err,
        r matches Err(e) ==> e == Error::InvalidImage,
        r matches Ok(out) ==> out@.len() <= room && taken(*final(d)) == taken(*old(d)) && given(
            *final(d),
        ) == given(*old(d)) + out@ && in_step(*final(d)),
        r matches Ok(out) ==> room > 0 && out@.len() == 0 ==> ended(*final(d)) && (made_for(
            *final(d),
        ).0 == u64::MAX || given(*final(d)).len() == made_for(*final(d)).0),
{
    let mut out = vec![0u8; room];
    match d.finish(&mut out) {
        Ok((p, _)) => {
            out.truncate(p.written);
            Ok(out)
        },
        Err(_) => Err(Error::InvalidImage),
    }
}

/// `discard_output` of `compcol::rar5::Decoder`. It takes in a start of `input`
/// and drops up to `n` bytes of the stream, fewer where what was taken in holds
/// no more; it returns how many it took in and how many it dropped. With input
/// it takes in or drops something, unless the stream has ended. It fails as
/// `decode` does.
#[verifier::external_body]
fn discard(d: &mut compcol::rar5::Decoder, input: &[u8], n: usize) -> (r: Result<(usize, usize)>)
    ensures
        made_for(*final(d)) == made_for(*old(d)),
        n > 0 ==> failed(*final(d)) == (r is Err),
        n > 0 && failed(*old(d)) ==> r is Err,
        r matches Err(e) ==> e == Error::Unsupported || e == Error::InvalidImage,
        r matches Err(e) ==> failed(*old(d)) || fails_on(*old(d), taken(*old(d)) + input@, e),
        r matches Ok((k, dropped)) ==> dropped <= n && k <= input@.len() && taken(*final(d))
            == taken(*old(d)) + input@.take(k as int) && given(*old(d)).is_prefix_of(
            given(*final(d)),
        ) && given(*final(d)).len() == given(*old(d)).len() + dropped && in_step(*final(d)),
        r matches Ok((k, dropped)) ==> dropped < n ==> unpacked(
            made_for(*final(d)).0,
            made_for(*final(d)).1,
            taken(*final(d)),
        ) == (given(*final(d)), None::<Error>),
        r matches Ok((k, dropped)) ==> n > 0 && input@.len() > 0 && k == 0 && dropped == 0
            ==> ended(*final(d)),
{
    match d.discard_output(input, n) {
        Ok((p, _)) => Ok((p.consumed, p.written)),
        Err(compcol::Error::Unsupported) => Err(Error::Unsupported),
        Err(_) => Err(Error::InvalidImage),
    }
}

/// Most bytes that are read from the device at once.
pub const SOLID_CHUNK: usize = 0x1_0000;

/// The first `n` bytes of the packed run `a`.
pub open spec fn part(img: Seq<u8>, a: DataArea, n: int) -> Seq<u8> {
    if n <= 0 {
        Seq::empty()
    } else {
        img.subrange(a.offset as int, a.offset + n)
    }
}

/// The packed bytes of the first `i` runs and the first `off` bytes of the next
/// one.
pub open spec fn packed_to(img: Seq<u8>, areas: Seq<DataArea>, i: int, off: int) -> Seq<u8>
    decreases i,
{
    let own = if 0 <= i < areas.len() {
        part(img, areas[i], off)
    } else {
        Seq::empty()
    };
    if i <= 0 {
        own
    } else {
        packed_to(img, areas, i - 1, areas[i - 1].pack as int) + own
    }
}

/// All packed bytes of a group.
pub open spec fn packed(img: Seq<u8>, areas: Seq<DataArea>) -> Seq<u8> {
    packed_to(img, areas, areas.len() as int, 0)
}

/// What a group holds, up to where its stream fails; and why it fails, if it
/// does.
pub open spec fn group_stream(img: Seq<u8>, g: scan::Run) -> (Seq<u8>, Option<Error>) {
    unpacked(g.total, g.window, packed(img, g.areas))
}

/// Number of packed bytes that are still to be read of a group.
pub open spec fn to_read(areas: Seq<DataArea>, i: int, off: int) -> int
    decreases areas.len() - i,
{
    if i < 0 || i >= areas.len() {
        0
    } else {
        (if off < areas[i].pack {
            areas[i].pack - off
        } else {
            0
        }) + to_read(areas, i + 1, 0)
    }
}

proof fn lemma_to_read(areas: Seq<DataArea>, i: int, off: int)
    ensures
        to_read(areas, i, off) >= 0,
    decreases areas.len() - i,
{
    if 0 <= i < areas.len() {
        lemma_to_read(areas, i + 1, 0);
    }
}

/// How far a group was decoded.
pub struct LiveSolid {
    pub group: usize,
    pub dec: compcol::rar5::Decoder,
    /// Number of bytes that were given out or dropped.
    pub out_pos: u64,
    /// The run that is being read, and how much of it was read.
    pub in_area: usize,
    pub in_off: u64,
    /// The packed bytes that were read last, and how many of them were used.
    pub in_buf: Vec<u8>,
    pub in_consumed: usize,
}

impl LiveSolid {
    /// What was read lies in the buffer or was used.
    pub open spec fn wf(self) -> bool {
        self.in_consumed <= self.in_buf@.len()
    }

    /// The cursor stands in the group `g` of the device `img`: the decoder has
    /// taken in all that was read but what is left in the buffer, and what it has
    /// given out is the start of what the group holds.
    pub open spec fn tied(self, img: Seq<u8>, g: scan::Run) -> bool {
        &&& self.wf()
        &&& made_for(self.dec) == (g.total, g.window)
        &&& !failed(self.dec)
        &&& given(self.dec).len() == self.out_pos
        &&& in_step(self.dec)
        &&& self.in_area <= g.areas.len()
        &&& self.in_area == g.areas.len() ==> self.in_off == 0
        &&& self.in_area < g.areas.len() ==> self.in_off <= g.areas[self.in_area as int].pack
        &&& taken(self.dec) + self.in_buf@.skip(self.in_consumed as int) == packed_to(
            img,
            g.areas,
            self.in_area as int,
            self.in_off as int,
        )
    }

    /// Number of packed bytes that the decoder has not taken in yet.
    pub open spec fn ahead(self, areas: Seq<DataArea>) -> int {
        to_read(areas, self.in_area as int, self.in_off as int) + (self.in_buf@.len()
            - self.in_consumed)
    }

    /// The decoder has failed, and does so for good.
    pub open spec fn broken(self) -> bool {
        failed(self.dec)
    }

    /// What was given out or dropped.
    pub open spec fn passed(self) -> Seq<u8> {
        given(self.dec)
    }

    /// A cursor at the start of the group `group`, whose members hold `total`
    /// bytes.
    pub fn new(group: usize, window: usize, total: u64) -> (r: Self)
        ensures
            r.group == group,
            r.out_pos == 0,
            r.wf(),
            r.passed() == Seq::<u8>::empty(),
            forall|img: Seq<u8>, g: scan::Run|
                g.total == total && g.window == window ==> #[trigger] r.tied(img, g),
    {
        let r = LiveSolid {
            group,
            dec: new_decoder(total, window),
            out_pos: 0,
            in_area: 0,
            in_off: 0,
            in_buf: Vec::new(),
            in_consumed: 0,
        };
        proof {
            assert(r.in_buf@.skip(0) =~= Seq::<u8>::empty());
            assert forall|img: Seq<u8>, g: scan::Run|
                g.total == total && g.window == window implies #[trigger] r.tied(img, g) by {
                assert(taken(r.dec) + r.in_buf@.skip(0) =~= packed_to(img, g.areas, 0, 0));
            }
        }
        r
    }
}

/// A run that was read to its end is as good as the next one at its start.
proof fn lemma_next_area(img: Seq<u8>, areas: Seq<DataArea>, i: int)
    requires
        0 <= i < areas.len(),
    ensures
        packed_to(img, areas, i, areas[i].pack as int) == packed_to(img, areas, i + 1, 0),
{
    assert(packed_to(img, areas, i + 1, 0) =~= packed_to(img, areas, i, areas[i].pack as int));
}

/// What was read of a group, and what is still to be read.
proof fn lemma_packed_prefix(img: Seq<u8>, areas: Seq<DataArea>, i: int, off: int, n: int)
    requires
        0 <= i <= n <= areas.len(),
        i < areas.len() ==> 0 <= off <= areas[i].pack,
        i == areas.len() ==> off == 0,
        forall|j: int|
            0 <= j < areas.len() ==> (#[trigger] areas[j]).offset + areas[j].pack <= img.len(),
        i == n ==> off == 0,
    ensures
        packed_to(img, areas, i, off).is_prefix_of(packed_to(img, areas, n, 0)),
    decreases n - i,
{
    if i < n {
        lemma_packed_prefix(img, areas, i + 1, 0, n);
        let a = packed_to(img, areas, i, off);
        let b = packed_to(img, areas, i + 1, 0);
        lemma_next_area(img, areas, i);
        let full = packed_to(img, areas, i, areas[i].pack as int);
        assert(a.is_prefix_of(full)) by {
            let p = part(img, areas[i], off);
            let q = part(img, areas[i], areas[i].pack as int);
            assert(p.is_prefix_of(q)) by {
                assert(p =~= q.take(off));
            }
            if i > 0 {
                let h = packed_to(img, areas, i - 1, areas[i - 1].pack as int);
                assert(a =~= h + p);
                assert(full =~= h + q);
                assert(a =~= full.take(a.len() as int));
            }
        }
        assert(a =~= packed_to(img, areas, n, 0).take(a.len() as int)) by {
            let z = packed_to(img, areas, n, 0);
            assert(full =~= z.take(full.len() as int));
            assert(a =~= full.take(a.len() as int));
        }
    }
}

/// Whether the packed runs of a group lie on the device.
pub open spec fn areas_within(img: Seq<u8>, areas: Seq<DataArea>) -> bool {
    forall|j: int|
        0 <= j < areas.len() ==> (#[trigger] areas[j]).offset + areas[j].pack <= img.len()
}

/// Where the packed runs of a group lie on the device, what a cursor in the group
/// has taken in and has in its buffer is the start of the group's packed bytes;
/// all of them once every run was read.
proof fn lemma_held(l: LiveSolid, img: Seq<u8>, g: scan::Run)
    requires
        l.tied(img, g),
        areas_within(img, g.areas),
    ensures
        (taken(l.dec) + l.in_buf@.skip(l.in_consumed as int)).is_prefix_of(packed(img, g.areas)),
        taken(l.dec).is_prefix_of(packed(img, g.areas)),
        l.in_area >= g.areas.len() && l.in_consumed == l.in_buf@.len() ==> taken(l.dec) == packed(
            img,
            g.areas,
        ),
{
    let i = l.in_area as int;
    let w = packed(img, g.areas);
    lemma_packed_prefix(img, g.areas, i, l.in_off as int, g.areas.len() as int);
    let read = packed_to(img, g.areas, i, l.in_off as int);
    let t = taken(l.dec);
    assert(t =~= read.take(t.len() as int));
    assert(t =~= w.take(t.len() as int)) by {
        assert(read =~= w.take(read.len() as int));
    }
    if l.in_area >= g.areas.len() && l.in_consumed == l.in_buf@.len() {
        assert(t + l.in_buf@.skip(l.in_consumed as int) =~= t);
    }
}

/// Where the packed runs of a group lie on the device, what a cursor in the group
/// has passed is the start of what the group holds.
pub proof fn lemma_passed(l: LiveSolid, img: Seq<u8>, g: scan::Run)
    requires
        l.tied(img, g),
        areas_within(img, g.areas),
    ensures
        l.passed().is_prefix_of(group_stream(img, g).0),
        l.out_pos <= group_stream(img, g).0.len(),
{
    lemma_held(l, img, g);
    assert(taken(l.dec).is_prefix_of(packed(img, g.areas)));
}

impl LiveSolid {
    /// Whether there is something left to decode from; if not, read the next
    /// bytes of the group into the buffer.
    fn refill(&mut self, areas: &Vec<DataArea>, dev: &MemoryBackend) -> (r: Result<bool>)
        requires
            old(self).wf(),
        ensures
            final(self).wf(),
            final(self).group == old(self).group,
            final(self).out_pos == old(self).out_pos,
            final(self).dec == old(self).dec,
            r matches Ok(true) ==> final(self).in_consumed < final(self).in_buf@.len(),
            r matches Ok(false) ==> final(self).in_consumed == final(self).in_buf@.len()
                && final(self).in_area >= areas@.len(),
            r matches Err(e) ==> e == Error::OutOfBounds && !areas_within(dev@, areas@),
            final(self).ahead(areas@) <= old(self).ahead(areas@),
            forall|g: scan::Run|
                g.areas == areas@ && old(self).tied(dev@, g) ==> #[trigger] final(self).tied(
                    dev@,
                    g,
                ),
    {
        if self.in_consumed < self.in_buf.len() {
            return Ok(true);
        }
        let ghost s0 = *self;
        self.in_buf = Vec::new();
        self.in_consumed = 0;
        let count: usize = areas.len();
        proof {
            assert(s0.in_buf@.skip(s0.in_consumed as int) =~= Seq::<u8>::empty());
            assert(self.in_buf@.skip(0) =~= Seq::<u8>::empty());
        }
        while self.in_area < areas.len() && self.in_off >= areas[self.in_area].pack
            invariant
                self.in_buf@.skip(0) == Seq::<u8>::empty(),
                self.in_consumed == 0,
                self.in_buf@.len() == 0,
                self.group == s0.group,
                self.out_pos == s0.out_pos,
                self.dec == s0.dec,
                s0.in_consumed == s0.in_buf@.len(),
                self.ahead(areas@) <= s0.ahead(areas@),
                forall|g: scan::Run|
                    g.areas == areas@ && s0.tied(dev@, g) ==> #[trigger] self.tied(dev@, g),
            decreases areas@.len() - self.in_area,
        {
            let ghost s1 = *self;
            self.in_area = self.in_area + 1;
            self.in_off = 0;
            proof {
                assert forall|g: scan::Run|
                    g.areas == areas@ && s0.tied(dev@, g) implies #[trigger] self.tied(
                    dev@,
                    g,
                ) by {
                    assert(s1.tied(dev@, g));
                    lemma_next_area(dev@, g.areas, s1.in_area as int);
                }
            }
        }
        if self.in_area >= areas.len() {
            return Ok(false);
        }
        let a = areas[self.in_area];
        let left: u64 = a.pack - self.in_off;
        let want: u64 = if left > SOLID_CHUNK as u64 {
            SOLID_CHUNK as u64
        } else {
            left
        };
        let ghost s2 = *self;
        let held: usize = dev.as_slice().len();
        proof {
            assert(areas@[self.in_area as int] == a);
        }
        if self.in_off > u64::MAX - a.offset {
            return Err(Error::OutOfBounds);
        }
        let chunk = match read_range(dev, a.offset + self.in_off, want) {
            Ok(c) => c,
            Err(_) => return Err(Error::OutOfBounds),
        };
        self.in_buf = chunk;
        self.in_off = self.in_off + want;
        proof {
            assert forall|g: scan::Run|
                g.areas == areas@ && s0.tied(dev@, g) implies #[trigger] self.tied(dev@, g) by {
                assert(s2.tied(dev@, g));
                let i = s2.in_area as int;
                assert(self.in_buf@.skip(0) =~= self.in_buf@);
                let p = part(dev@, a, s2.in_off as int);
                let q = part(dev@, a, self.in_off as int);
                assert(q =~= p + self.in_buf@);
                assert(packed_to(dev@, g.areas, i, self.in_off as int) =~= packed_to(
                    dev@,
                    g.areas,
                    i,
                    s2.in_off as int,
                ) + self.in_buf@);
                assert(taken(self.dec) + self.in_buf@.skip(0) =~= packed_to(
                    dev@,
                    g.areas,
                    i,
                    self.in_off as int,
                ));
            }
        }
        Ok(true)
    }
}

/// Whether `r` is what decoding the group `g` of the device `img` up to the byte
/// `target` gives: it succeeds where the group holds as much, and fails where the
/// stream fails or ends before. A stream that fails behind the byte may be found
/// out on the way.
pub open spec fn skipped(img: Seq<u8>, g: scan::Run, target: u64, r: Result<()>) -> bool {
    let (s, fault) = group_stream(img, g);
    match r {
        Ok(_) => target <= s.len(),
        Err(e) => fault == Some(e) || (fault is None && target > s.len() && e
            == Error::InvalidImage),
    }
}

/// Decode `l`, which stands in the group `g`, up to the byte `target` of what the
/// group holds, and drop what comes before it.
pub fn skip_to(l: &mut LiveSolid, g: &SolidGroup, dev: &MemoryBackend, target: u64) -> (r: Result<
    (),
>)
    requires
        old(l).wf(),
    ensures
        final(l).wf(),
        final(l).group == old(l).group,
        old(l).out_pos >= target ==> r is Ok && *final(l) == *old(l),
        r matches Ok(_) ==> old(l).out_pos <= target ==> final(l).out_pos == target,
        r matches Ok(_) ==> old(l).passed().is_prefix_of(final(l).passed()),
        r matches Ok(_) ==> (old(l).tied(dev@, g@) ==> final(l).tied(dev@, g@)),
        old(l).out_pos < target && old(l).broken() ==> r is Err && final(l).broken(),
        r matches Err(e) ==> e == Error::InvalidImage || e == Error::Unsupported || e
            == Error::OutOfBounds,
        old(l).tied(dev@, g@) && areas_within(dev@, g.areas@) && old(l).out_pos <= target
            ==> skipped(dev@, g@, target, r),
{
    let ghost l0 = *l;
    proof {
        assert(l0.passed() =~= l0.passed().take(l0.passed().len() as int));
    }
    while l.out_pos < target
        invariant
            l0 == *old(l),
            l.wf(),
            l.group == l0.group,
            l0.out_pos >= target ==> *l == l0,
            l0.out_pos <= target ==> l.out_pos <= target,
            l0.passed().is_prefix_of(l.passed()),
            l0.tied(dev@, g@) ==> l.tied(dev@, g@),
            l0.out_pos < target && l0.broken() ==> l.out_pos < target && l.broken(),
        decreases l.ahead(g.areas@) + (target - l.out_pos),
    {
        proof {
            lemma_to_read(g.areas@, l.in_area as int, l.in_off as int);
        }
        if l.in_consumed >= l.in_buf.len() {
            l.refill(&g.areas, dev)?;
        }
        let ghost l1 = *l;
        proof {
            assert(l0.tied(dev@, g@) ==> l1.tied(dev@, g@));
            if l1.tied(dev@, g@) && areas_within(dev@, g.areas@) {
                lemma_held(l1, dev@, g@);
                lemma_passed(l1, dev@, g@);
            }
        }
        let left: u64 = target - l.out_pos;
        let n: usize = if left > usize::MAX as u64 {
            usize::MAX
        } else {
            left as usize
        };
        let input = slice_subrange(l.in_buf.as_slice(), l.in_consumed, l.in_buf.len());
        let ghost rest = l1.in_buf@.skip(l1.in_consumed as int);
        proof {
            assert(rest =~= l1.in_buf@.subrange(l1.in_consumed as int, l1.in_buf@.len() as int));
        }
        let (k, dropped) = match discard(&mut l.dec, input, n) {
            Ok(x) => x,
            Err(e) => {
                return Err(e);
            },
        };
        if k == 0 && dropped == 0 {
            proof {
                if l1.tied(dev@, g@) && areas_within(dev@, g.areas@) {
                    assert(taken(l1.dec) + input@.take(0) =~= taken(l1.dec));
                    assert(given(l.dec) =~= given(l1.dec));
                    assert(taken(l.dec).is_prefix_of(packed(dev@, g.areas@)));
                    assert(group_stream(dev@, g@) == (given(l.dec), None::<Error>));
                }
            }
            return Err(Error::InvalidImage);
        }
        l.in_consumed = l.in_consumed + k;
        l.out_pos = l.out_pos + dropped as u64;
        proof {
            assert(rest =~= rest.take(k as int) + l.in_buf@.skip(l.in_consumed as int));
            assert(taken(l.dec) + l.in_buf@.skip(l.in_consumed as int) =~= taken(l1.dec) + rest);
            lemma_to_read(g.areas@, l.in_area as int, l.in_off as int);
        }
    }
    proof {
        if l0.tied(dev@, g@) && areas_within(dev@, g.areas@) {
            lemma_passed(*l, dev@, g@);
        }
    }
    Ok(())
}

/// What a reader does once the decoder was called.
#[derive(Clone, Copy, Debug, PartialEq, Eq, Structural)]
pub enum Next {
    /// Hand on what came.
    Give,
    /// All was taken in and nothing came: end the stream.
    Finish,
    /// Nothing was taken in and nothing came.
    Stalled,
    /// Go on with more packed bytes.
    Again,
}

/// What a reader does once the decoder has taken in `consumed` bytes and given
/// out `written`; `had_input` tells whether there was something to take in.
pub fn next_step(had_input: bool, consumed: usize, written: usize) -> (r: Next)
    ensures
        r == if written > 0 {
            Next::Give
        } else if !had_input {
            Next::Finish
        } else if consumed == 0 {
            Next::Stalled
        } else {
            Next::Again
        },
{
    if written > 0 {
        Next::Give
    } else if !had_input {
        Next::Finish
    } else if consumed == 0 {
        Next::Stalled
    } else {
        Next::Again
    }
}

/// A reader over the bytes of one member that are still to come.
pub struct SolidReader {
    pub remaining: u64,
}

/// Whether `v` are the bytes of `s` from `start` on.
pub open spec fn slice_of(s: Seq<u8>, start: int, v: Seq<u8>) -> bool {
    start + v.len() <= s.len() && v == s.subrange(start, start + v.len())
}

/// Whether `r` is what a read of bytes from `pos` on of what the group `g` of the
/// device `img` holds gives: some of them, or the fault of a stream that fails or
/// ends there. A stream that fails further on may be found out before.
pub open spec fn piece_of(img: Seq<u8>, g: scan::Run, pos: u64, r: Result<Seq<u8>>) -> bool {
    let (s, fault) = group_stream(img, g);
    match r {
        Ok(v) => v.len() > 0 && slice_of(s, pos as int, v),
        Err(e) => fault == Some(e) || (fault is None && pos >= s.len() && e
            == Error::InvalidImage),
    }
}

/// Whether `r` is what a read of the `n` bytes from `pos` on of what the group `g`
/// of the device `img` holds gives: just those bytes where the group holds them,
/// and else the fault of a stream that fails or ends before. A stream that fails
/// behind them may be found out on the way.
pub open spec fn span_of(img: Seq<u8>, g: scan::Run, pos: int, n: int, r: Result<Seq<u8>>) -> bool {
    let (s, fault) = group_stream(img, g);
    match r {
        Ok(v) => v.len() == n && slice_of(s, pos, v),
        Err(e) => fault == Some(e) || (fault is None && pos + n > s.len() && e
            == Error::InvalidImage),
    }
}

impl LiveSolid {
    /// The cursor stands in the group `g`, whose packed runs lie on the device
    /// `img`, with at least `n` bytes of the members still to come. (A group of
    /// `u64::MAX` bytes cannot be told from one of any length.)
    pub open spec fn ready(self, img: Seq<u8>, g: scan::Run, n: u64) -> bool {
        &&& self.tied(img, g)
        &&& areas_within(img, g.areas)
        &&& self.out_pos + n <= g.total < u64::MAX
    }
}

impl SolidReader {
    /// Read up to `n` bytes with the cursor `l`, which stands in the group `g`. No
    /// buffer is longer than `isize::MAX` bytes.
    pub fn read(&mut self, l: &mut LiveSolid, g: &SolidGroup, dev: &MemoryBackend, n: usize) -> (r:
        Result<Vec<u8>>)
        requires
            old(l).wf(),
            old(l).out_pos + old(self).remaining <= u64::MAX,
            n <= isize::MAX,
        ensures
            final(l).wf(),
            final(l).group == old(l).group,
            old(self).remaining == 0 || n == 0 ==> (r matches Ok(v) && v@.len() == 0) && *final(l)
                == *old(l),
            r matches Ok(v) ==> v@.len() <= n && v@.len() <= old(self).remaining,
            r matches Ok(v) ==> final(self).remaining == old(self).remaining - v@.len(),
            r matches Ok(v) ==> final(l).out_pos == old(l).out_pos + v@.len(),
            r matches Ok(v) ==> final(l).passed() == old(l).passed() + v@,
            r matches Ok(v) ==> (old(l).tied(dev@, g@) ==> final(l).tied(dev@, g@)),
            r is Err ==> final(self).remaining == old(self).remaining,
            old(self).remaining > 0 && n > 0 && old(l).broken() ==> r is Err && final(l).broken(),
            r matches Err(e) ==> e == Error::InvalidImage || e == Error::Unsupported || e
                == Error::OutOfBounds,
            old(self).remaining > 0 && n > 0 && old(l).ready(dev@, g@, old(self).remaining)
                ==> piece_of(dev@, g@, old(l).out_pos, error::view_of(r)),
    {
        if self.remaining == 0 || n == 0 {
            return Ok(Vec::new());
        }
        let want: usize = if (n as u64) < self.remaining {
            n
        } else {
            self.remaining as usize
        };
        let ghost l0 = *l;
        loop
            invariant
                l0 == *old(l),
                *self == *old(self),
                l.wf(),
                l.group == l0.group,
                l.out_pos == l0.out_pos,
                l.passed() == l0.passed(),
                l0.out_pos + self.remaining <= u64::MAX,
                0 < want <= n <= isize::MAX,
                want <= self.remaining,
                l0.tied(dev@, g@) ==> l.tied(dev@, g@),
                l0.broken() ==> l.broken(),
            decreases l.ahead(g.areas@),
        {
            proof {
                lemma_to_read(g.areas@, l.in_area as int, l.in_off as int);
            }
            let had_input = if l.in_consumed < l.in_buf.len() {
                true
            } else {
                l.refill(&g.areas, dev)?
            };
            let ghost l1 = *l;
            let ghost clear = l0.ready(dev@, g@, self.remaining);
            let ghost all = packed(dev@, g.areas@);
            proof {
                assert(l0.tied(dev@, g@) ==> l1.tied(dev@, g@));
                if clear {
                    lemma_held(l1, dev@, g@);
                    lemma_passed(l1, dev@, g@);
                }
            }
            let input = slice_subrange(l.in_buf.as_slice(), l.in_consumed, l.in_buf.len());
            let ghost rest = l1.in_buf@.skip(l1.in_consumed as int);
            proof {
                assert(rest =~= l1.in_buf@.subrange(
                    l1.in_consumed as int,
                    l1.in_buf@.len() as int,
                ));
            }
            let (out, k) = match decode(&mut l.dec, input, want) {
                Ok(x) => x,
                Err(e) => {
                    return Err(e);
                },
            };
            l.in_consumed = l.in_consumed + k;
            l.out_pos = l.out_pos + out.len() as u64;
            proof {
                assert(rest =~= rest.take(k as int) + l.in_buf@.skip(l.in_consumed as int));
                assert(taken(l.dec) + l.in_buf@.skip(l.in_consumed as int) =~= taken(l1.dec)
                    + rest);
                lemma_to_read(g.areas@, l.in_area as int, l.in_off as int);
                if out@.len() == 0 {
                    assert(given(l1.dec) + out@ =~= given(l1.dec));
                }
                if clear {
                    assert(l.tied(dev@, g@));
                    lemma_held(*l, dev@, g@);
                    lemma_passed(*l, dev@, g@);
                    lemma_slice(l0.passed(), out@, group_stream(dev@, g@).0);
                }
            }
            match next_step(had_input, k, out.len()) {
                Next::Give => {
                    self.remaining = self.remaining - out.len() as u64;
                    return Ok(out);
                },
                Next::Finish => {
                    let ghost l2 = *l;
                    let tail = match finish(&mut l.dec, want) {
                        Ok(x) => x,
                        Err(e) => {
                            proof {
                                if clear {
                                    assert(taken(l2.dec) == all);
                                    assert(group_stream(dev@, g@) == (given(l2.dec), None::<Error>));
                                }
                            }
                            return Err(e);
                        },
                    };
                    l.out_pos = l.out_pos + tail.len() as u64;
                    self.remaining = self.remaining - tail.len() as u64;
                    proof {
                        if clear {
                            assert(l.tied(dev@, g@));
                            lemma_passed(*l, dev@, g@);
                            lemma_slice(l0.passed(), tail@, group_stream(dev@, g@).0);
                        }
                    }
                    return Ok(tail);
                },
                Next::Stalled => {
                    proof {
                        if clear {
                            assert(taken(l.dec).is_prefix_of(all));
                            assert(group_stream(dev@, g@) == (given(l.dec), None::<Error>));
                        }
                    }
                    return Err(Error::InvalidImage);
                },
                Next::Again => {},
            }
        }
    }

    /// Read all bytes of the member that are still to come.
    pub fn read_to_end(&mut self, l: &mut LiveSolid, g: &SolidGroup, dev: &MemoryBackend) -> (r:
        Result<Vec<u8>>)
        requires
            old(l).wf(),
            old(l).out_pos + old(self).remaining <= u64::MAX,
        ensures
            final(l).wf(),
            final(l).group == old(l).group,
            old(self).remaining == 0 ==> (r matches Ok(v) && v@.len() == 0) && *final(l)
                == *old(l),
            r matches Ok(v) ==> v@.len() <= old(self).remaining,
            r matches Ok(v) ==> final(self).remaining == old(self).remaining - v@.len(),
            r matches Ok(v) ==> final(l).out_pos == old(l).out_pos + v@.len(),
            r matches Ok(v) ==> final(l).passed() == old(l).passed() + v@,
            r matches Ok(v) ==> (old(l).tied(dev@, g@) ==> final(l).tied(dev@, g@)),
            old(self).remaining > 0 && old(l).broken() ==> r is Err && final(l).broken(),
            r matches Err(e) ==> e == Error::InvalidImage || e == Error::Unsupported || e
                == Error::OutOfBounds,
            old(l).ready(dev@, g@, old(self).remaining) ==> span_of(
                dev@,
                g@,
                old(l).out_pos as int,
                old(self).remaining as int,
                error::view_of(r),
            ),
    {
        let ghost l0 = *l;
        let mut all: Vec<u8> = Vec::new();
        proof {
            assert(l0.passed() + all@ =~= l0.passed());
        }
        loop
            invariant
                l0 == *old(l),
                l.wf(),
                l.group == l0.group,
                l.out_pos + self.remaining <= u64::MAX,
                all@.len() + self.remaining == old(self).remaining,
                l.out_pos == l0.out_pos + all@.len(),
                l.passed() == l0.passed() + all@,
                old(self).remaining == 0 ==> *l == l0,
                l0.tied(dev@, g@) ==> l.tied(dev@, g@),
                old(self).remaining > 0 && l0.broken() ==> self.remaining > 0 && l.broken(),
            decreases self.remaining,
        {
            let ghost l1 = *l;
            let piece = self.read(l, g, dev, SOLID_CHUNK)?;
            proof {
                assert(l0.passed() + all@ + piece@ =~= l0.passed() + (all@ + piece@));
            }
            push_all(&mut all, piece.as_slice());
            if piece.len() == 0 {
                proof {
                    if l0.ready(dev@, g@, old(self).remaining) {
                        lemma_passed(*l, dev@, g@);
                        lemma_slice(l0.passed(), all@, group_stream(dev@, g@).0);
                    }
                }
                return Ok(all);
            }
        }
    }
}

/// The end of the start of a list is a slice of it.
pub proof fn lemma_slice(a: Seq<u8>, b: Seq<u8>, s: Seq<u8>)
    requires
        (a + b).is_prefix_of(s),
    ensures
        slice_of(s, a.len() as int, b),
{
    let p = a + b;
    assert(p =~= s.take(p.len() as int));
    assert(b =~= p.subrange(a.len() as int, p.len() as int));
    assert(b =~= s.subrange(a.len() as int, (a.len() + b.len()) as int));
}

} // verus!
