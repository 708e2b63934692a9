//! Deflate: the zlib container that `FlateDecode` asks for, and the rule by
//! which a stream is compressed again.

use crate::bytes::same_bytes;
use std::io::{Read, Write};
use vstd::prelude::*;

verus! {

/// Which deflate encoder the final passes use.
#[derive(Debug, Clone, Copy, PartialEq, Eq, Structural)]
pub enum DeflateBackend {
    /// zlib at its highest level.
    Zlib,
    /// The exhaustive zopfli search: the same container, smaller and slower.
    Zopfli,
}

impl Default for DeflateBackend {
    fn default() -> (r: DeflateBackend)
        ensures
            r == DeflateBackend::Zlib,
    {
        DeflateBackend::Zlib
    }
}

/// What reading at most `cap` bytes out of the zlib stream `data` gives;
/// `None` where the stream is corrupt or ends early before that.
pub uninterp spec fn inflated_prefix(data: Seq<u8>, cap: nat) -> Option<Seq<u8>>;

/// The zlib stream that level 9 compression makes of `data`.
pub uninterp spec fn zlib_level9(data: Seq<u8>) -> Option<Seq<u8>>;

/// zopfli may make the zlib stream `out` of `data`. Its search weighs costs
/// with logarithms, whose last bits differ between machines, so more than one
/// result is possible.
pub uninterp spec fn zopfli_encoded(data: Seq<u8>, out: Seq<u8>) -> bool;

/// Reads at most `cap` bytes through `flate2::read::ZlibDecoder`, limited by
/// `take`. The result is a function of the arguments, it is named
/// [`inflated_prefix`], and it is no longer than `cap`.
#[verifier::external_body]
fn inflate_prefix(data: &[u8], cap: u64) -> (r: Option<Vec<u8>>)
    ensures
        match r {
            Some(out) => inflated_prefix(data@, cap as nat) == Some(out@) && out@.len() <= cap,
            None => inflated_prefix(data@, cap as nat) is None,
        },
{
    let mut out: Vec<u8> = Vec::new();
    let mut decoder = flate2::read::ZlibDecoder::new(data).take(cap);
    match decoder.read_to_end(&mut out) {
        Ok(_) => Some(out),
        Err(_) => None,
    }
}

/// Compresses through `flate2::write::ZlibEncoder` at level 9. The result is
/// a function of the data, named [`zlib_level9`].
#[verifier::external_body]
pub(crate) fn deflate_level9(data: &[u8]) -> (r: Option<Vec<u8>>)
    ensures
        match r {
            Some(out) => zlib_level9(data@) == Some(out@),
            None => zlib_level9(data@) is None,
        },
{
    let mut encoder = flate2::write::ZlibEncoder::new(Vec::new(), flate2::Compression::new(9));
    encoder.write_all(data).ok()?;
    encoder.finish().ok()
}

/// Compresses through `zopfli::compress` with its default options, in the
/// zlib format. It fails only where reading or writing does, and a slice and
/// a `Vec` never do. Which of the possible encodings comes out is not said
/// beyond [`zopfli_encoded`]; whichever it is, it inflates back to the data.
#[verifier::external_body]
pub(crate) fn deflate_zopfli(data: &[u8]) -> (r: Option<Vec<u8>>)
    ensures
        r is Some,
        zopfli_encoded(data@, r->0@),
        forall|cap: nat|
            cap > data@.len() ==> #[trigger] inflated_prefix(r->0@, cap) == Some(data@),
{
    let mut out: Vec<u8> = Vec::new();
    let options = zopfli::Options::default();
    match zopfli::compress(options, zopfli::Format::Zlib, data, &mut out) {
        Ok(_) => Some(out),
        Err(_) => None,
    }
}

/// The whole of a zlib stream, where it holds no more than `limit` bytes.
pub open spec fn inflated(data: Seq<u8>, limit: nat) -> Option<Seq<u8>> {
    match inflated_prefix(data, limit + 1) {
        Some(out) => if out.len() <= limit {
            Some(out)
        } else {
            None
        },
        None => None,
    }
}

/// Inflates a zlib stream with a hard cap on its output. `None` for corrupt
/// or truncated input and for a stream that holds more than `limit` bytes;
/// the cap is kept while inflating.
pub fn inflate_capped(data: &[u8], limit: usize) -> (r: Option<Vec<u8>>)
    requires
        limit < usize::MAX,
    ensures
        match r {
            Some(out) => inflated(data@, limit as nat) == Some(out@) && out@.len() <= limit,
            None => inflated(data@, limit as nat) is None,
        },
{
    let out = inflate_prefix(data, limit as u64 + 1)?;
    if out.len() > limit {
        return None;
    }
    Some(out)
}

/// What a backend may make of `data`: level 9 zlib has one outcome; zopfli's
/// is always there and inflates back.
pub open spec fn deflate_outcome(
    data: Seq<u8>,
    backend: DeflateBackend,
    out: Option<Seq<u8>>,
) -> bool {
    match backend {
        DeflateBackend::Zlib => out == zlib_level9(data),
        DeflateBackend::Zopfli => {
            &&& out is Some
            &&& zopfli_encoded(data, out->0)
            &&& forall|cap: nat|
                cap > data.len() ==> #[trigger] inflated_prefix(out->0, cap) == Some(data)
        },
    }
}

/// The content of an optional byte string.
pub open spec fn opt_view(v: Option<Vec<u8>>) -> Option<Seq<u8>> {
    match v {
        Some(x) => Some(x@),
        None => None,
    }
}

/// Compresses with the configured backend.
pub fn deflate_backend(data: &[u8], backend: DeflateBackend) -> (r: Option<Vec<u8>>)
    ensures
        deflate_outcome(data@, backend, opt_view(r)),
{
    match backend {
        DeflateBackend::Zlib => deflate_level9(data),
        DeflateBackend::Zopfli => deflate_zopfli(data),
    }
}

/// A compressed form that may take the place of `size` bytes: smaller, and
/// it inflates back to `plain`.
pub open spec fn acceptable(plain: Seq<u8>, size: int, deflated: Seq<u8>) -> bool {
    deflated.len() < size && inflated(deflated, plain.len()) == Some(plain)
}

/// `deflated`, where it is acceptable in place of `size` bytes for `plain`.
pub open spec fn accepted(plain: Seq<u8>, size: int, deflated: Option<Seq<u8>>) -> Option<
    Seq<u8>,
> {
    match deflated {
        Some(out) => if acceptable(plain, size, out) {
            Some(out)
        } else {
            None
        },
        None => None,
    }
}

/// Takes a compressed form only where it is strictly smaller than `size`
/// bytes and inflates back to `plain` exactly.
pub fn accept_deflated(plain: &[u8], size: usize, deflated: Option<Vec<u8>>) -> (r: Option<Vec<u8>>)
    requires
        plain@.len() < usize::MAX,
    ensures
        opt_view(r) == accepted(plain@, size as int, opt_view(deflated)),
{
    let out = deflated?;
    if out.len() >= size {
        return None;
    }
    match inflate_capped(out.as_slice(), plain.len()) {
        Some(back) => {
            if same_bytes(back.as_slice(), plain) {
                Some(out)
            } else {
                None
            }
        },
        None => None,
    }
}

/// Inflation ceiling for compressing again. A stream that holds more is left
/// as it is.
pub const MAX_REDEFLATE_BYTES: usize = 0x800_0000;

/// What compressing `content` again may give.
pub open spec fn redeflate_outcome(
    content: Seq<u8>,
    backend: DeflateBackend,
    out: Option<Seq<u8>>,
) -> bool {
    match inflated(content, MAX_REDEFLATE_BYTES as nat) {
        None => out is None,
        Some(plain) => exists|deflated: Option<Seq<u8>>| #[trigger]
            deflate_outcome(plain, backend, deflated) && out == accepted(
                plain,
                content.len() as int,
                deflated,
            ),
    }
}

/// Inflates and compresses one Flate payload again. `None`, which leaves the
/// stream as it is, unless the new payload is strictly smaller and inflates
/// back byte for byte.
pub fn replan_deflate(content: &[u8], backend: DeflateBackend) -> (r: Option<Vec<u8>>)
    ensures
        redeflate_outcome(content@, backend, opt_view(r)),
{
    let plain = inflate_capped(content, MAX_REDEFLATE_BYTES)?;
    let out = deflate_backend(plain.as_slice(), backend);
    proof {
        assert(deflate_outcome(plain@, backend, opt_view(out)));
    }
    accept_deflated(plain.as_slice(), content.len(), out)
}

/// Compressing again loses nothing and never grows: what comes out is
/// strictly smaller and inflates to what the old payload inflates to.
pub proof fn redeflating_is_lossless(content: Seq<u8>, backend: DeflateBackend, out: Seq<u8>)
    requires
        redeflate_outcome(content, backend, Some(out)),
    ensures
        out.len() < content.len(),
        inflated(content, MAX_REDEFLATE_BYTES as nat) is Some,
        ({
            let plain = inflated(content, MAX_REDEFLATE_BYTES as nat)->0;
            inflated(out, plain.len()) == Some(plain)
        }),
{
}

/// A payload that level 9 zlib compresses to its own size is a fixed point.
pub proof fn redeflating_level9_again_changes_nothing(content: Seq<u8>, out: Option<Seq<u8>>)
    requires
        redeflate_outcome(content, DeflateBackend::Zlib, out),
        inflated(content, MAX_REDEFLATE_BYTES as nat) is Some,
        zlib_level9(inflated(content, MAX_REDEFLATE_BYTES as nat)->0) == Some(content),
    ensures
        out is None,
{
}

} // verus!
