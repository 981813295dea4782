//! What the blocks of a folder hold.

use vstd::prelude::*;
use vstd::slice::slice_subrange;

use crate::archive::cab::scan::{CabMethod, CfData, Chain, Folder};
use crate::archive::codec::{self, decode_lzx, decode_quantum, deliver, inflate};
use crate::archive::fs::read_range;
use crate::block::{self, MemoryBackend};
use crate::bytes::{self, le_u32, push_all};
use crate::error::{self, Error, Result};
use crate::num::{self, div_ceil};

pub use crate::archive::mem::skip_exact;

verus! {

/// Number of bytes that an MSZIP block may look back to.
pub const HISTORY: usize = 0x8000;

/// Most bytes that one block holds.
pub const BLOCK_MOST: u64 = 0x8000;

/// The bytes of the block `b`.
pub open spec fn payload(img: Seq<u8>, b: CfData) -> Result<Seq<u8>> {
    block::read(img, b.offset as int, b.comp_len as int)
}

/// `acc` with the bytes of the blocks from `i` on, until there are `n` bytes.
pub open spec fn stored(img: Seq<u8>, blocks: Seq<CfData>, i: int, n: int, acc: Seq<u8>) -> Result<
    Seq<u8>,
>
    decreases blocks.len() - i,
{
    if i >= blocks.len() || acc.len() >= n {
        Ok(acc)
    } else {
        match payload(img, blocks[i]) {
            Err(e) => Err(e),
            Ok(p) => stored(img, blocks, i + 1, n, acc + p),
        }
    }
}

/// `acc` with the bytes of the blocks from `i` on, up to one that cannot be read;
/// and why that one cannot.
pub open spec fn gathered(img: Seq<u8>, blocks: Seq<CfData>, i: int, acc: Seq<u8>) -> (
    Seq<u8>,
    Option<Error>,
)
    decreases blocks.len() - i,
{
    if i >= blocks.len() {
        (acc, None)
    } else {
        match payload(img, blocks[i]) {
            Err(e) => (acc, Some(e)),
            Ok(p) => gathered(img, blocks, i + 1, acc + p),
        }
    }
}

/// Number of the blocks without which there are no `n` bytes.
pub open spec fn needed(blocks: Seq<CfData>, n: u64) -> int {
    let k = num::div_up(n as int, BLOCK_MOST as int);
    if k < blocks.len() {
        k
    } else {
        blocks.len() as int
    }
}

/// The first `n` bytes of the LZX stream in `blocks`, behind its own start `head`.
/// A fault in blocks that are not needed for them does no harm.
pub open spec fn lzx_prefix(img: Seq<u8>, blocks: Seq<CfData>, head: Seq<u8>, n: u64) -> Result<
    Seq<u8>,
> {
    let (s, fault) = gathered(img, blocks, 0, head);
    let (t, _) = gathered(img, blocks.take(needed(blocks, n)), 0, head);
    match (codec::lzx_decoded(s, n), codec::lzx_decoded(t, n)) {
        (None, Some(b)) => if b.len() < n {
            codec::delivered(None, fault, n)
        } else {
            Ok(b)
        },
        (r, _) => codec::delivered(r, fault, n),
    }
}

/// What a block that is decoded behind `acc` may look back to.
pub open spec fn history(acc: Seq<u8>) -> Seq<u8> {
    if acc.len() > HISTORY {
        acc.subrange(acc.len() - HISTORY, acc.len() as int)
    } else {
        acc
    }
}

/// What an MSZIP block with the bytes `p` holds, where `acc` was decoded before
/// it: a mark and a DEFLATE stream.
pub open spec fn unzipped(acc: Seq<u8>, p: Seq<u8>) -> Result<Seq<u8>> {
    if p.len() < 2 || p[0] != 0x43 || p[1] != 0x4b {
        Err(Error::InvalidImage)
    } else {
        match codec::inflated(history(acc), p.subrange(2, p.len() as int)) {
            None => Err(Error::InvalidImage),
            Some(b) => Ok(b),
        }
    }
}

/// `acc` with what the MSZIP blocks from `i` on hold, until there are `n` bytes.
pub open spec fn mszip(img: Seq<u8>, blocks: Seq<CfData>, i: int, n: int, acc: Seq<u8>) -> Result<
    Seq<u8>,
>
    decreases blocks.len() - i,
{
    if i >= blocks.len() || acc.len() >= n {
        Ok(acc)
    } else {
        match payload(img, blocks[i]) {
            Err(e) => Err(e),
            Ok(p) => match unzipped(acc, p) {
                Err(e) => Err(e),
                Ok(b) => mszip(img, blocks, i + 1, n, acc + b),
            },
        }
    }
}

/// The start of what the folder `f` holds: `n` bytes or more of it, or all of
/// it.
pub open spec fn folder_prefix(img: Seq<u8>, f: Chain, n: u64) -> Result<Seq<u8>> {
    match f.method {
        CabMethod::Store => stored(img, f.blocks, 0, n as int, Seq::empty()),
        CabMethod::MsZip => mszip(img, f.blocks, 0, n as int, Seq::empty()),
        CabMethod::Lzx { window_bits } => if f.total > u32::MAX {
            Err(Error::Unsupported)
        } else {
            lzx_prefix(img, f.blocks, seq![window_bits as u8] + bytes::le32(f.total as u32), n)
        },
        CabMethod::Quantum { window_bits } => {
            let (s, fault) = gathered(img, f.blocks, 0, Seq::empty());
            codec::delivered(codec::quantum_decoded(window_bits, s, n), fault, n)
        },
        CabMethod::Unsupported(_) => Err(Error::Unsupported),
    }
}

fn gather(dev: &MemoryBackend, blocks: &Vec<CfData>, count: usize, start: &[u8]) -> (r: (
    Vec<u8>,
    Option<Error>,
))
    requires
        count <= blocks@.len(),
    ensures
        (r.0@, r.1) == gathered(dev@, blocks@.take(count as int), 0, start@),
{
    let ghost bl = blocks@.take(count as int);
    let mut acc: Vec<u8> = Vec::new();
    push_all(&mut acc, start);
    let mut i: usize = 0;
    proof {
        assert(acc@ =~= start@);
    }
    while i < count
        invariant
            i <= count <= blocks@.len(),
            bl == blocks@.take(count as int),
            gathered(dev@, bl, 0, start@) == gathered(dev@, bl, i as int, acc@),
        decreases count - i,
    {
        assert(bl[i as int] == blocks@[i as int]);
        match read_range(dev, blocks[i].offset, blocks[i].comp_len as u64) {
            Ok(p) => {
                push_all(&mut acc, p.as_slice());
            },
            Err(e) => {
                return (acc, Some(e));
            },
        }
        i = i + 1;
    }
    (acc, None)
}

fn read_stored(dev: &MemoryBackend, blocks: &Vec<CfData>, n: u64) -> (r: Result<Vec<u8>>)
    ensures
        error::view_of(r) == stored(dev@, blocks@, 0, n as int, Seq::empty()),
{
    let mut acc: Vec<u8> = Vec::new();
    let mut i: usize = 0;
    while i < blocks.len() && (acc.len() as u64) < n
        invariant
            i <= blocks@.len(),
            stored(dev@, blocks@, 0, n as int, Seq::empty()) == stored(
                dev@,
                blocks@,
                i as int,
                n as int,
                acc@,
            ),
        decreases blocks@.len() - i,
    {
        let p = read_range(dev, blocks[i].offset, blocks[i].comp_len as u64)?;
        push_all(&mut acc, p.as_slice());
        i = i + 1;
    }
    Ok(acc)
}

/// What the MSZIP block with the bytes `p` holds, behind `acc`.
pub fn decode_block(acc: &Vec<u8>, p: &[u8]) -> (r: Result<Vec<u8>>)
    ensures
        error::view_of(r) == unzipped(acc@, p@),
{
    if p.len() < 2 || p[0] != 0x43 || p[1] != 0x4b {
        return Err(Error::InvalidImage);
    }
    let held: usize = acc.len();
    let from: usize = if held > HISTORY {
        held - HISTORY
    } else {
        0
    };
    let look_back = slice_subrange(acc.as_slice(), from, held);
    proof {
        assert(look_back@ =~= history(acc@));
    }
    match inflate(look_back, slice_subrange(p, 2, p.len())) {
        Some(b) => Ok(b),
        None => Err(Error::InvalidImage),
    }
}

fn read_mszip(dev: &MemoryBackend, blocks: &Vec<CfData>, n: u64) -> (r: Result<Vec<u8>>)
    ensures
        error::view_of(r) == mszip(dev@, blocks@, 0, n as int, Seq::empty()),
{
    let mut acc: Vec<u8> = Vec::new();
    let mut i: usize = 0;
    while i < blocks.len() && (acc.len() as u64) < n
        invariant
            i <= blocks@.len(),
            mszip(dev@, blocks@, 0, n as int, Seq::empty()) == mszip(
                dev@,
                blocks@,
                i as int,
                n as int,
                acc@,
            ),
        decreases blocks@.len() - i,
    {
        let p = read_range(dev, blocks[i].offset, blocks[i].comp_len as u64)?;
        let b = decode_block(&acc, p.as_slice())?;
        push_all(&mut acc, b.as_slice());
        i = i + 1;
    }
    Ok(acc)
}

fn read_lzx(dev: &MemoryBackend, blocks: &Vec<CfData>, head: &[u8], n: u64) -> (r: Result<Vec<u8>>)
    ensures
        error::view_of(r) == lzx_prefix(dev@, blocks@, head@, n),
{
    let count: usize = blocks.len();
    proof {
        assert(blocks@.take(count as int) =~= blocks@);
    }
    let (s, fault) = gather(dev, blocks, count, head);
    match decode_lzx(s.as_slice(), n) {
        Some(b) => deliver(Some(b), fault, n),
        None => {
            let few: u64 = div_ceil(n, BLOCK_MOST);
            let k: usize = if few < count as u64 {
                few as usize
            } else {
                count
            };
            let (t, _) = gather(dev, blocks, k, head);
            match decode_lzx(t.as_slice(), n) {
                Some(b) => if (b.len() as u64) < n {
                    deliver(None, fault, n)
                } else {
                    Ok(b)
                },
                None => deliver(None, fault, n),
            }
        },
    }
}

/// The start of what `folder` holds: `n` bytes or more of it, or all of it.
pub fn decode_folder_reader(dev: &MemoryBackend, folder: &Folder, n: u64) -> (r: Result<Vec<u8>>)
    ensures
        error::view_of(r) == folder_prefix(dev@, folder@, n),
{
    match folder.method {
        CabMethod::Store => read_stored(dev, &folder.blocks, n),
        CabMethod::MsZip => read_mszip(dev, &folder.blocks, n),
        CabMethod::Lzx { window_bits } => {
            if folder.total_uncomp > u32::MAX as u64 {
                return Err(Error::Unsupported);
            }
            let mut head: Vec<u8> = Vec::new();
            head.push(window_bits as u8);
            push_all(&mut head, le_u32(folder.total_uncomp as u32).as_slice());
            proof {
                assert(head@ =~= seq![window_bits as u8] + bytes::le32(
                    folder.total_uncomp as u32,
                ));
            }
            read_lzx(dev, &folder.blocks, head.as_slice(), n)
        },
        CabMethod::Quantum { window_bits } => {
            let none: Vec<u8> = Vec::new();
            let (s, fault) = gather(dev, &folder.blocks, folder.blocks.len(), none.as_slice());
            proof {
                assert(folder.blocks@.take(folder.blocks@.len() as int) =~= folder.blocks@);
            }
            deliver(decode_quantum(window_bits, s.as_slice(), n), fault, n)
        },
        CabMethod::Unsupported(_) => Err(Error::Unsupported),
    }
}

} // verus!
