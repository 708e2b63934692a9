//! Image streams: reading their pixels, deciding what may be done with each,
//! and planning the replacement.

use crate::bytes::same_bytes;
use crate::flate::{deflate_level9, inflate_capped, inflated, opt_view, zlib_level9};
use crate::lookup::{is_name, resolve, resolved};
use crate::names::{
    BITS_PER_COMPONENT, COLORS, COLOR_SPACE, COLUMNS, COMPONENTS, DECODE, DECODE_PARMS, DEVICE_GRAY,
    DEVICE_RGB, ICC_BASED, PREDICTOR,
};
use crate::object::{
    dict_get, dict_has, dict_set, Dict, ObjectId, Pdf, PdfObject, PdfStream, StreamValue, Value,
};
use crate::png::{defiltered_frame, png_defilter, png_up_filter, up_filtered};
use crate::raster::{channel_count, opt_raster, raster_ok, Raster, RasterValue};
use vstd::prelude::*;

verus! {

// --- reading a Flate image -------------------------------------------------------------

/// The integer under `key`.
pub open spec fn int_entry(d: Seq<(Seq<u8>, Value)>, key: Seq<u8>) -> Option<i64> {
    match dict_get(d, key) {
        Some(Value::Integer(i)) => Some(i),
        _ => None,
    }
}

/// The integer under `key`.
pub fn get_int(d: &Dict, key: &[u8]) -> (r: Option<i64>)
    ensures
        r == int_entry(d@, key@),
{
    match d.get(key) {
        Some(PdfObject::Integer(i)) => Some(*i),
        _ => None,
    }
}

/// The integer under `key`, or `default`.
pub open spec fn int_or(d: Seq<(Seq<u8>, Value)>, key: Seq<u8>, default: i64) -> i64 {
    match int_entry(d, key) {
        Some(i) => i,
        None => default,
    }
}

/// The value under `key`, references followed.
pub open spec fn resolved_entry(
    objects: Seq<(ObjectId, Value)>,
    d: Seq<(Seq<u8>, Value)>,
    key: Seq<u8>,
) -> Option<Value> {
    match dict_get(d, key) {
        Some(v) => Some(resolved(objects, v)),
        None => None,
    }
}

/// The value under `key`, references followed.
pub fn get_resolved<'a>(doc: &'a Pdf, d: &'a Dict, key: &[u8]) -> (r: Option<&'a PdfObject>)
    requires
        doc.wf(),
    ensures
        match r {
            Some(o) => resolved_entry(doc@.objects, d@, key@) == Some(o@),
            None => resolved_entry(doc@.objects, d@, key@) is None,
        },
{
    match d.get(key) {
        Some(o) => Some(resolve(doc, o)),
        None => None,
    }
}

/// The value under `key`, references followed, is the name `name`.
pub open spec fn entry_is_name(
    objects: Seq<(ObjectId, Value)>,
    d: Seq<(Seq<u8>, Value)>,
    key: Seq<u8>,
    name: Seq<u8>,
) -> bool {
    resolved_entry(objects, d, key) == Some(Value::Name(name))
}

/// The number of channels that a color space has, for those that are handled:
/// device gray and color, and profiles of one and three components.
pub open spec fn color_channels(objects: Seq<(ObjectId, Value)>, d: Seq<(Seq<u8>, Value)>) -> Option<
    int,
> {
    match resolved_entry(objects, d, COLOR_SPACE@) {
        Some(Value::Name(n)) => if n == DEVICE_RGB@ {
            Some(3)
        } else if n == DEVICE_GRAY@ {
            Some(1)
        } else {
            None
        },
        Some(Value::Array(items)) => if items.len() == 2 && resolved(objects, items[0])
            == Value::Name(ICC_BASED@) {
            match resolved(objects, items[1]) {
                Value::Stream(s) => match resolved_entry(objects, s.dict, COMPONENTS@) {
                    Some(Value::Integer(1)) => Some(1),
                    Some(Value::Integer(3)) => Some(3),
                    _ => None,
                },
                _ => None,
            }
        } else {
            None
        },
        _ => None,
    }
}

/// The number of channels that a color space has, for those that are handled.
pub fn flate_channels(doc: &Pdf, dict: &Dict) -> (r: Option<usize>)
    requires
        doc.wf(),
    ensures
        match r {
            Some(n) => color_channels(doc@.objects, dict@) == Some(n as int) && (n == 1 || n == 3),
            None => color_channels(doc@.objects, dict@) is None,
        },
{
    let (key, rgb, gray, icc, comps): ([u8; 10], [u8; 9], [u8; 10], [u8; 8], [u8; 1]) = (
        COLOR_SPACE,
        DEVICE_RGB,
        DEVICE_GRAY,
        ICC_BASED,
        COMPONENTS,
    );
    match get_resolved(doc, dict, key.as_slice()) {
        Some(PdfObject::Name(n)) => {
            if same_bytes(n.as_slice(), rgb.as_slice()) {
                Some(3)
            } else if same_bytes(n.as_slice(), gray.as_slice()) {
                Some(1)
            } else {
                None
            }
        },
        Some(PdfObject::Array(items)) => {
            if items.len() != 2 {
                return None;
            }
            if !is_name(Some(resolve(doc, &items[0])), icc.as_slice()) {
                return None;
            }
            match resolve(doc, &items[1]) {
                PdfObject::Stream(s) => match get_resolved(doc, &s.dict, comps.as_slice()) {
                    Some(PdfObject::Integer(1)) => Some(1),
                    Some(PdfObject::Integer(3)) => Some(3),
                    _ => None,
                },
                _ => None,
            }
        },
        _ => None,
    }
}

/// How the pixel rows of a Flate image are laid out.
#[derive(Debug, Clone, Copy, PartialEq, Eq, Structural)]
pub enum FlateEncoding {
    /// Plain rows.
    Plain,
    /// Rows with PNG filters, each after its tag.
    PngPredictor,
}

/// The layout that `/DecodeParms` gives, in its direct form; `None` for what
/// is not handled. The declared geometry has to match the image.
pub open spec fn row_layout(d: Seq<(Seq<u8>, Value)>, channels: int, px_w: u32) -> Option<
    FlateEncoding,
> {
    match dict_get(d, DECODE_PARMS@) {
        None => Some(FlateEncoding::Plain),
        Some(Value::Dictionary(p)) => {
            let predictor = int_or(p, PREDICTOR@, 1);
            if predictor == 1 {
                Some(FlateEncoding::Plain)
            } else if 10 <= predictor <= 15 && int_or(p, COLORS@, 1) == channels && int_or(
                p,
                COLUMNS@,
                1,
            ) == px_w && int_or(p, BITS_PER_COMPONENT@, 8) == 8 {
                Some(FlateEncoding::PngPredictor)
            } else {
                None
            }
        },
        Some(_) => None,
    }
}

fn get_int_or(d: &Dict, key: &[u8], default: i64) -> (r: i64)
    ensures
        r == int_or(d@, key@, default),
{
    match get_int(d, key) {
        Some(i) => i,
        None => default,
    }
}

/// The layout that `/DecodeParms` gives.
pub fn flate_encoding(dict: &Dict, channels: usize, px_w: u32) -> (r: Option<FlateEncoding>)
    requires
        channels <= 3,
    ensures
        r == row_layout(dict@, channels as int, px_w),
{
    let (parms_key, predictor_key, colors_key, columns_key, bits_key): (
        [u8; 11],
        [u8; 9],
        [u8; 6],
        [u8; 7],
        [u8; 16],
    ) = (DECODE_PARMS, PREDICTOR, COLORS, COLUMNS, BITS_PER_COMPONENT);
    match dict.get(parms_key.as_slice()) {
        None => Some(FlateEncoding::Plain),
        Some(PdfObject::Dictionary(p)) => {
            let predictor: i64 = get_int_or(p, predictor_key.as_slice(), 1);
            if predictor == 1 {
                Some(FlateEncoding::Plain)
            } else if 10 <= predictor && predictor <= 15 && get_int_or(
                p,
                colors_key.as_slice(),
                1,
            ) == channels as i64 && get_int_or(p, columns_key.as_slice(), 1) == px_w as i64
                && get_int_or(p, bits_key.as_slice(), 8) == 8 {
                Some(FlateEncoding::PngPredictor)
            } else {
                None
            }
        },
        Some(_) => None,
    }
}

/// Pixel budget above which a Flate image is never decoded.
pub const MAX_FLATE_PIXEL_BYTES: u64 = 0x1000_0000;

/// The samples of a Flate payload of this geometry; `None` where there are
/// not exactly as many.
pub open spec fn flate_samples(
    content: Seq<u8>,
    layout: FlateEncoding,
    channels: int,
    px_w: u32,
    px_h: u32,
) -> Option<Seq<u8>> {
    let expected = px_w * px_h * channels;
    let row = px_w * channels;
    if px_w == 0 || expected > MAX_FLATE_PIXEL_BYTES {
        None
    } else {
        let samples = match layout {
            FlateEncoding::Plain => inflated(content, expected as nat),
            FlateEncoding::PngPredictor => match inflated(content, ((row + 1) * px_h) as nat) {
                Some(filtered) => if filtered.len() == (row + 1) * px_h {
                    defiltered_frame(filtered, channels, row)
                } else {
                    None
                },
                None => None,
            },
        };
        match samples {
            Some(p) => if p.len() == expected {
                Some(p)
            } else {
                None
            },
            None => None,
        }
    }
}

/// The pixels of a Flate image: eight bits per sample, no `/Decode`, a color
/// space and a row layout that are handled, and exactly as many samples as
/// its size asks for.
pub open spec fn flate_pixels(
    objects: Seq<(ObjectId, Value)>,
    s: StreamValue,
    px_w: u32,
    px_h: u32,
) -> Option<RasterValue> {
    if resolved_entry(objects, s.dict, BITS_PER_COMPONENT@) != Some(Value::Integer(8)) || dict_has(
        s.dict,
        DECODE@,
    ) {
        None
    } else {
        match color_channels(objects, s.dict) {
            None => None,
            Some(channels) => match row_layout(s.dict, channels, px_w) {
                None => None,
                Some(layout) => match flate_samples(s.content, layout, channels, px_w, px_h) {
                    None => None,
                    Some(pixels) => Some(
                        RasterValue {
                            width: px_w,
                            height: px_h,
                            gray: channels == 1,
                            pixels,
                        },
                    ),
                },
            },
        }
    }
}

/// Reads the samples of a Flate payload.
pub fn read_flate_samples(
    content: &[u8],
    layout: FlateEncoding,
    channels: usize,
    px_w: u32,
    px_h: u32,
) -> (r: Option<Vec<u8>>)
    requires
        channels == 1 || channels == 3,
    ensures
        opt_view(r) == flate_samples(content@, layout, channels as int, px_w, px_h),
{
    if px_w == 0 {
        return None;
    }
    proof {
        assert(px_w * px_h <= 0xFFFF_FFFF * 0xFFFF_FFFF) by (nonlinear_arith)
            requires
                px_w <= 0xFFFF_FFFF,
                px_h <= 0xFFFF_FFFF,
        ;
        assert(px_w * px_h * 3 >= px_w * px_h) by (nonlinear_arith)
            requires
                px_w >= 0,
                px_h >= 0,
        ;
    }
    let area: u128 = px_w as u128 * px_h as u128;
    let expected: u128 = area * channels as u128;
    if expected > MAX_FLATE_PIXEL_BYTES as u128 {
        return None;
    }
    proof {
        assert(px_h <= px_w * px_h) by (nonlinear_arith)
            requires
                px_w >= 1,
                px_h >= 0,
        ;
        assert(expected == px_w * px_h * channels);
        assert((px_w * channels + 1) * px_h == px_w * px_h * channels + px_h) by (nonlinear_arith);
        assert(0 <= px_w * px_h * channels) by (nonlinear_arith)
            requires
                px_w >= 0,
                px_h >= 0,
                channels >= 0,
        ;
    }
    let samples = match layout {
        FlateEncoding::Plain => inflate_capped(content, expected as usize)?,
        FlateEncoding::PngPredictor => {
            let filtered_len: u64 = expected as u64 + px_h as u64;
            let filtered = inflate_capped(content, filtered_len as usize)?;
            if filtered.len() as u64 != filtered_len {
                return None;
            }
            if px_h == 0 {
                proof {
                    assert(filtered@ =~= Seq::empty());
                    lemma_empty_frame(channels as int, px_w * channels);
                }
                let none: Vec<u8> = Vec::new();
                proof {
                    assert(none@ =~= Seq::empty());
                    assert(px_w * 0 * channels == 0) by (nonlinear_arith);
                }
                return Some(none);
            }
            proof {
                assert(px_w * channels <= px_w * px_h * channels) by (nonlinear_arith)
                    requires
                        px_w >= 0,
                        px_h >= 1,
                        channels >= 0,
                ;
            }
            let row: usize = px_w as usize * channels;
            png_defilter(filtered.as_slice(), channels, row)?
        },
    };
    if samples.len() as u128 != expected {
        return None;
    }
    Some(samples)
}

/// A frame without rows has no samples.
proof fn lemma_empty_frame(bpp: int, row: int)
    requires
        row > 0,
    ensures
        defiltered_frame(Seq::empty(), bpp, row) == Some(Seq::<u8>::empty()),
{
    assert(0nat % ((row + 1) as nat) == 0) by (nonlinear_arith)
        requires
            row > 0,
    ;
    assert(0int / (row + 1) == 0) by (nonlinear_arith)
        requires
            row > 0,
    ;
}

/// The shared decoding of every transform of a Flate image: all gates, the
/// cap on what is inflated, the PNG filters undone, and the exact number of
/// samples.
pub fn decode_flate_image(doc: &Pdf, stream: &PdfStream, px_w: u32, px_h: u32) -> (r: Option<
    Raster,
>)
    requires
        doc.wf(),
    ensures
        opt_raster(r) == flate_pixels(doc@.objects, stream@, px_w, px_h),
        r is Some ==> raster_ok((r->0)@) && r->0.width == px_w && r->0.height == px_h,
{
    let (bits_key, decode_key): ([u8; 16], [u8; 6]) = (BITS_PER_COMPONENT, DECODE);
    match get_resolved(doc, &stream.dict, bits_key.as_slice()) {
        Some(PdfObject::Integer(8)) => {},
        _ => {
            return None;
        },
    }
    if stream.dict.has(decode_key.as_slice()) {
        return None;
    }
    let channels: usize = flate_channels(doc, &stream.dict)?;
    let layout = flate_encoding(&stream.dict, channels, px_w)?;
    let pixels = read_flate_samples(stream.content.as_slice(), layout, channels, px_w, px_h)?;
    Some(Raster { width: px_w, height: px_h, gray: channels == 1, pixels })
}

// --- writing a Flate image ----------------------------------------------------------------

/// What `/DecodeParms` costs in a dictionary.
pub const PARMS_OVERHEAD: usize = 70;

/// The parameters of rows with PNG filters.
pub open spec fn up_parms(channels: int, width: u32) -> Seq<(Seq<u8>, Value)> {
    dict_set(
        dict_set(
            dict_set(
                dict_set(Seq::empty(), PREDICTOR@, Value::Integer(15)),
                COLORS@,
                Value::Integer(channels as i64),
            ),
            BITS_PER_COMPONENT@,
            Value::Integer(8),
        ),
        COLUMNS@,
        Value::Integer(width as i64),
    )
}

/// The smaller Flate form of these samples: plain rows, or rows with the Up
/// filter, which have to pay for their parameters.
pub open spec fn best_flate(raw: Seq<u8>, width: u32, channels: int) -> Option<
    (Seq<u8>, Option<Seq<(Seq<u8>, Value)>>),
> {
    let row = width * channels;
    match (zlib_level9(raw), zlib_level9(up_filtered(raw, row, raw.len() as int / row))) {
        (Some(plain), Some(up)) => if up.len() + PARMS_OVERHEAD < plain.len() {
            Some((up, Some(up_parms(channels, width))))
        } else {
            Some((plain, None))
        },
        _ => None,
    }
}

/// The content of a Flate form.
pub open spec fn flate_form(r: Option<(Vec<u8>, Option<Dict>)>) -> Option<
    (Seq<u8>, Option<Seq<(Seq<u8>, Value)>>),
> {
    match r {
        Some(x) => Some(
            (
                x.0@,
                match x.1 {
                    Some(d) => Some(d@),
                    None => None,
                },
            ),
        ),
        None => None,
    }
}

/// Compresses samples as Flate, in whichever layout is smaller.
pub fn encode_flate(raw: &[u8], width: u32, gray: bool) -> (r: Option<(Vec<u8>, Option<Dict>)>)
    requires
        width > 0,
        width * channel_count(gray) <= usize::MAX,
    ensures
        flate_form(r) == best_flate(raw@, width, channel_count(gray)),
{
    let (predictor_key, colors_key, columns_key, bits_key): (
        [u8; 9],
        [u8; 6],
        [u8; 7],
        [u8; 16],
    ) = (PREDICTOR, COLORS, COLUMNS, BITS_PER_COMPONENT);
    let channels: usize = if gray {
        1
    } else {
        3
    };
    let plain = deflate_level9(raw)?;
    let filtered = png_up_filter(raw, width, channels);
    let up = deflate_level9(filtered.as_slice())?;
    let len: usize = plain.len();
    if len > PARMS_OVERHEAD && up.len() < len - PARMS_OVERHEAD {
        let mut parms = Dict::new();
        parms.set(predictor_key.as_slice(), PdfObject::Integer(15));
        parms.set(colors_key.as_slice(), PdfObject::Integer(channels as i64));
        parms.set(bits_key.as_slice(), PdfObject::Integer(8));
        parms.set(columns_key.as_slice(), PdfObject::Integer(width as i64));
        Some((up, Some(parms)))
    } else {
        Some((plain, None))
    }
}

} // verus!
