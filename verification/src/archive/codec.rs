//! Decompression of whole streams.

use std::io::Read;

use compcol::Algorithm;
use vstd::prelude::*;

use crate::error::{self, Error, Result};

verus! {

/// The view of optional bytes.
pub open spec fn opt_bytes(r: Option<Vec<u8>>) -> Option<Seq<u8>> {
    match r {
        Some(v) => Some(v@),
        None => None,
    }
}

/// The first `n` bytes of a packed stream, where `r` is what its readable start
/// holds of them and `fault` says why the rest of it cannot be read, if so: the
/// rest is missed only where bytes are missing.
pub open spec fn delivered(r: Option<Seq<u8>>, fault: Option<Error>, n: u64) -> Result<Seq<u8>> {
    match r {
        Some(b) => match fault {
            Some(e) => if b.len() < n {
                Err(e)
            } else {
                Ok(b)
            },
            None => Ok(b),
        },
        None => match fault {
            Some(e) => Err(e),
            None => Err(Error::InvalidImage),
        },
    }
}

/// The first `n` bytes of a packed stream, where `r` is what its readable start
/// holds of them and `fault` says why the rest of it cannot be read, if so.
pub fn deliver(r: Option<Vec<u8>>, fault: Option<Error>, n: u64) -> (d: Result<Vec<u8>>)
    ensures
        error::view_of(d) == delivered(opt_bytes(r), fault, n),
{
    match (r, fault) {
        (Some(b), None) => Ok(b),
        (Some(b), Some(e)) => if (b.len() as u64) < n {
            Err(e)
        } else {
            Ok(b)
        },
        (None, Some(e)) => Err(e),
        (None, None) => Err(Error::InvalidImage),
    }
}

/// What the raw DEFLATE stream `input` holds, where `dict` was decoded before
/// it; `None` where it is no whole such stream.
pub uninterp spec fn inflated(dict: Seq<u8>, input: Seq<u8>) -> Option<Seq<u8>>;

/// The first `n` bytes of the Microsoft LZX stream `framed`, which starts with
/// its window bits and its length.
pub uninterp spec fn lzx_decoded(framed: Seq<u8>, n: u64) -> Option<Seq<u8>>;

/// The first `n` bytes of the Amiga LZX stream `framed`, which starts with its
/// length.
pub uninterp spec fn amiga_lzx_decoded(framed: Seq<u8>, n: u64) -> Option<Seq<u8>>;

/// The first `n` bytes of the Quantum stream `input` with a window of
/// `2^window_bits` bytes.
pub uninterp spec fn quantum_decoded(window_bits: u32, input: Seq<u8>, n: u64) -> Option<Seq<u8>>;

/// What the RAR5 stream `packed` holds, of a file of `unpack` bytes that was
/// packed with a window of `window` bytes; or why it does not decode.
pub uninterp spec fn rar5_decoded(packed: Seq<u8>, unpack: u64, window: usize) -> Result<Seq<u8>>;

/// `compcol::vec::decompress_to_vec_with` for `compcol::deflate`, with `dict` as
/// the preset dictionary: the result depends on the dictionary and the stream
/// alone. What lies behind the end of the stream is left out of account. `None`
/// stands for a decoder error.
#[verifier::external_body]
pub(crate) fn inflate(dict: &[u8], input: &[u8]) -> (r: Option<Vec<u8>>)
    ensures
        opt_bytes(r) == inflated(dict@, input@),
{
    let config = compcol::deflate::DecoderConfig::new().with_dictionary(dict.to_vec());
    compcol::vec::decompress_to_vec_with::<compcol::deflate::Deflate>(input, config).ok()
}

/// Reads the first `n` bytes that `compcol::io::DecoderReader` gives over the
/// decoder of `compcol::lzx`: they depend on the stream and on `n` alone, and
/// there are no more than `n`. `None` stands for a decoder error.
#[verifier::external_body]
pub(crate) fn decode_lzx(framed: &[u8], n: u64) -> (r: Option<Vec<u8>>)
    ensures
        opt_bytes(r) == lzx_decoded(framed@, n),
        r matches Some(v) ==> v@.len() <= n,
{
    let mut out = Vec::new();
    let dec = compcol::lzx::Lzx::decoder();
    match compcol::io::DecoderReader::new(framed, dec).take(n).read_to_end(&mut out) {
        Ok(_) => Some(out),
        Err(_) => None,
    }
}

/// Reads the first `n` bytes that `compcol::io::DecoderReader` gives over the
/// decoder of `compcol::amiga_lzx`: they depend on the stream and on `n` alone,
/// and there are no more than `n`. `None` stands for a decoder error.
#[verifier::external_body]
pub(crate) fn decode_amiga_lzx(framed: &[u8], n: u64) -> (r: Option<Vec<u8>>)
    ensures
        opt_bytes(r) == amiga_lzx_decoded(framed@, n),
        r matches Some(v) ==> v@.len() <= n,
{
    let mut out = Vec::new();
    let dec = compcol::amiga_lzx::AmigaLzx::decoder();
    match compcol::io::DecoderReader::new(framed, dec).take(n).read_to_end(&mut out) {
        Ok(_) => Some(out),
        Err(_) => None,
    }
}

/// Reads the first `n` bytes that `compcol::io::DecoderReader` gives over a
/// `compcol::quantum::Decoder`: they depend on the window, the stream and `n`
/// alone, and there are no more than `n`. `None` stands for a decoder error,
/// which a window of less than 10 or more than 21 bits is too.
#[verifier::external_body]
pub(crate) fn decode_quantum(window_bits: u32, input: &[u8], n: u64) -> (r: Option<Vec<u8>>)
    ensures
        opt_bytes(r) == quantum_decoded(window_bits, input@, n),
        r matches Some(v) ==> v@.len() <= n,
        !(10 <= window_bits <= 21) ==> r is None,
{
    let mut out = Vec::new();
    let dec = compcol::quantum::Decoder::with_window_bits(window_bits).ok()?;
    match compcol::io::DecoderReader::new(input, dec).take(n).read_to_end(&mut out) {
        Ok(_) => Some(out),
        Err(_) => None,
    }
}

/// Reads all that `compcol::io::DecoderReader` gives over a
/// `compcol::rar5::Decoder` for `unpack` bytes and the given window: it depends
/// on the stream, the length and the window alone. A decoder error is
/// `Unsupported` where the stream asks for a filter that the decoder does not
/// know, and `InvalidImage` otherwise.
#[verifier::external_body]
pub(crate) fn decode_rar5(packed: &[u8], unpack: u64, window: usize) -> (r: Result<Vec<u8>>)
    ensures
        error::view_of(r) == rar5_decoded(packed@, unpack, window),
        r matches Err(e) ==> e == Error::Unsupported || e == Error::InvalidImage,
{
    let mut out = Vec::new();
    let dec = compcol::rar5::Decoder::with_unpack_size_and_window(unpack, window);
    match compcol::io::DecoderReader::new(packed, dec).read_to_end(&mut out) {
        Ok(_) => Ok(out),
        Err(e) => match e.downcast::<compcol::Error>() {
            Ok(compcol::Error::Unsupported) => Err(Error::Unsupported),
            _ => Err(Error::InvalidImage),
        },
    }
}

} // verus!
