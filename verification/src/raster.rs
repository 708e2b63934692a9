//! Pixels: what can be told of them, how they are resized, and the codecs that
//! turn them into bytes and back.

use crate::flate::opt_view;
use crate::text::{contains_sub, has_sub, matches_at, occurs_at};
use vstd::prelude::*;

verus! {

/// An image of eight bits per sample: gray, or red, green and blue.
pub struct Raster {
    pub width: u32,
    pub height: u32,
    pub gray: bool,
    pub pixels: Vec<u8>,
}

/// The content of a [`Raster`].
pub struct RasterValue {
    pub width: u32,
    pub height: u32,
    pub gray: bool,
    pub pixels: Seq<u8>,
}

impl View for Raster {
    type V = RasterValue;

    open spec fn view(&self) -> RasterValue {
        RasterValue {
            width: self.width,
            height: self.height,
            gray: self.gray,
            pixels: self.pixels@,
        }
    }
}

/// Samples per pixel.
pub open spec fn channel_count(gray: bool) -> int {
    if gray {
        1
    } else {
        3
    }
}

/// There are as many samples as the size asks for.
pub open spec fn raster_ok(r: RasterValue) -> bool {
    r.pixels.len() == r.width * r.height * channel_count(r.gray)
}

/// The content of an optional raster.
pub open spec fn opt_raster(r: Option<Raster>) -> Option<RasterValue> {
    match r {
        Some(x) => Some(x@),
        None => None,
    }
}

/// Whether there are as many samples as the size asks for.
pub fn is_sound(r: &Raster) -> (b: bool)
    ensures
        b == raster_ok(r@),
{
    let channels: u128 = if r.gray {
        1
    } else {
        3
    };
    proof {
        assert(r.width * r.height <= 0xFFFF_FFFF * 0xFFFF_FFFF) by (nonlinear_arith)
            requires
                r.width <= 0xFFFF_FFFF,
                r.height <= 0xFFFF_FFFF,
        ;
    }
    let area: u128 = r.width as u128 * r.height as u128;
    r.pixels.len() as u128 == area * channels
}

// --- resizing, and headers ------------------------------------------------------------

/// Resampling kernel.
#[derive(Debug, Clone, Copy, PartialEq, Eq, Structural)]
pub enum Kernel {
    Lanczos,
    Triangle,
}

/// The largest width or height of a JPEG image.
pub const MAX_JPEG_SIDE: u32 = 65500;

/// The largest width or height of an image that is resized. The kernels place
/// their samples in single precision, which tells places apart only up to
/// twice this.
pub const MAX_RESIZE_SIDE: u32 = 0x40_0000;

/// Resizing can be done: each side is one whose places are told apart, and it
/// stays in memory: the image between its two passes, of four single-precision
/// samples per pixel, and the result can be allocated.
pub open spec fn resize_fits(w: u32, h: u32, to_w: u32, to_h: u32) -> bool {
    &&& w <= MAX_RESIZE_SIDE && h <= MAX_RESIZE_SIDE
    &&& to_w <= MAX_RESIZE_SIDE && to_h <= MAX_RESIZE_SIDE
    &&& w * to_h * 16 <= usize::MAX / 2
    &&& to_w * to_h * 16 <= usize::MAX / 2
}

/// The image crate may resize these samples to these. Its kernels are
/// computed in floating point, whose last bits differ between machines, so
/// more than one result is possible.
pub uninterp spec fn resampled(
    pixels: Seq<u8>,
    w: u32,
    h: u32,
    gray: bool,
    to_w: u32,
    to_h: u32,
    lanczos: bool,
    out: Seq<u8>,
) -> bool;

/// Resizes gray samples through `image::DynamicImage::resize_exact`. There
/// are as many samples as the new size asks for; beyond that they are only
/// said to be what the resize may give for these arguments, by [`resampled`].
/// It panics where a buffer is longer than memory, and where the place of a
/// sample, in single precision, falls outside the image.
#[verifier::external_body]
fn resize_gray(pixels: Vec<u8>, w: u32, h: u32, to_w: u32, to_h: u32, kernel: Kernel) -> (r: Vec<u8>)
    requires
        pixels@.len() == w * h,
        resize_fits(w, h, to_w, to_h),
    ensures
        r@.len() == to_w * to_h,
        resampled(pixels@, w, h, true, to_w, to_h, kernel == Kernel::Lanczos, r@),
{
    let filter = match kernel {
        Kernel::Lanczos => image::imageops::FilterType::Lanczos3,
        Kernel::Triangle => image::imageops::FilterType::Triangle,
    };
    let img = image::GrayImage::from_raw(w, h, pixels).unwrap_or_default();
    image::DynamicImage::ImageLuma8(img).resize_exact(to_w, to_h, filter).into_luma8().into_raw()
}

/// Resizes color samples through `image::DynamicImage::resize_exact`; of
/// them is said what is said of gray ones.
#[verifier::external_body]
fn resize_rgb(pixels: Vec<u8>, w: u32, h: u32, to_w: u32, to_h: u32, kernel: Kernel) -> (r: Vec<u8>)
    requires
        pixels@.len() == w * h * 3,
        resize_fits(w, h, to_w, to_h),
    ensures
        r@.len() == to_w * to_h * 3,
        resampled(pixels@, w, h, false, to_w, to_h, kernel == Kernel::Lanczos, r@),
{
    let filter = match kernel {
        Kernel::Lanczos => image::imageops::FilterType::Lanczos3,
        Kernel::Triangle => image::imageops::FilterType::Triangle,
    };
    let img = image::RgbImage::from_raw(w, h, pixels).unwrap_or_default();
    image::DynamicImage::ImageRgb8(img).resize_exact(to_w, to_h, filter).into_rgb8().into_raw()
}

/// How a JPEG 2000 codestream starts, with its size.
pub const CODESTREAM: [u8; 4] = [0xFF, 0x4F, 0xFF, 0x51];

/// The name of a channel definition.
pub const CHANNEL_DEFINITION: [u8; 4] = [0x63, 0x64, 0x65, 0x66];

/// What the header of a JPEG 2000 image tells.
pub struct JpxHeader {
    pub width: u32,
    pub height: u32,
    pub depth: u8,
    pub alpha: bool,
    /// Gray or color; `None` for any other color space.
    pub gray: Option<bool>,
}

/// The header of a JPEG 2000 image; `None` where it cannot be read.
pub uninterp spec fn jpx_header(data: Seq<u8>) -> Option<JpxHeader>;

/// Where a codestream starts at `i`, the number of its components is not one
/// short of a multiple of 256.
pub open spec fn count_fits(data: Seq<u8>, i: int) -> bool {
    occurs_at(data, CODESTREAM@, i) && i + 42 <= data.len() ==> data[i + 41] != 0xFF
}

/// The channels of the image can be counted: the reader adds one for opacity,
/// in eight bits, where a channel definition tells of it.
pub open spec fn channels_fit(data: Seq<u8>) -> bool {
    has_sub(data, CHANNEL_DEFINITION@) ==> forall|i: int| 0 <= i < data.len() ==> #[trigger]
        count_fits(data, i)
}

/// The header of a JPEG 2000 image whose channels can be counted.
pub open spec fn known_header(data: Seq<u8>) -> Option<JpxHeader> {
    if channels_fit(data) {
        jpx_header(data)
    } else {
        None
    }
}

/// Reads the header of a JPEG 2000 image through
/// `dicom_toolkit_jpeg2000::Image`. The result is a function of the data,
/// named [`jpx_header`].
#[verifier::external_body]
fn read_jpx_header(data: &[u8]) -> (r: Option<JpxHeader>)
    requires
        channels_fit(data@),
    ensures
        r == jpx_header(data@),
{
    let settings = dicom_toolkit_jpeg2000::DecodeSettings::default();
    let img = dicom_toolkit_jpeg2000::Image::new(data, &settings).ok()?;
    let gray = match img.color_space() {
        dicom_toolkit_jpeg2000::ColorSpace::Gray => Some(true),
        dicom_toolkit_jpeg2000::ColorSpace::RGB => Some(false),
        _ => None,
    };
    let (width, height, depth) = (img.width(), img.height(), img.original_bit_depth());
    Some(JpxHeader { width, height, depth, alpha: img.has_alpha(), gray })
}

/// Whether the channels of the image can be counted.
fn check_channels(data: &[u8]) -> (r: bool)
    ensures
        r == channels_fit(data@),
{
    let (definition, start): ([u8; 4], [u8; 4]) = (CHANNEL_DEFINITION, CODESTREAM);
    if !contains_sub(data, definition.as_slice()) {
        return true;
    }
    let len: usize = data.len();
    let mut i: usize = 0;
    while i < len
        invariant
            i <= len == data@.len(),
            start@ == CODESTREAM@,
            has_sub(data@, CHANNEL_DEFINITION@),
            forall|k: int| 0 <= k < i ==> #[trigger] count_fits(data@, k),
        decreases len - i,
    {
        if len - i >= 42 && matches_at(data, start.as_slice(), i) && data[i + 41] == 0xFF {
            proof {
                assert(!count_fits(data@, i as int));
            }
            return false;
        }
        proof {
            assert(count_fits(data@, i as int));
        }
        i += 1;
    }
    true
}

/// Reads the header of a JPEG 2000 image; `None` where it cannot be read.
pub fn jpx_info(data: &[u8]) -> (r: Option<JpxHeader>)
    ensures
        r == known_header(data@),
{
    if check_channels(data) {
        read_jpx_header(data)
    } else {
        None
    }
}

/// The image of these samples, where there are as many as the size asks for.
pub open spec fn jpx_image(samples: Option<Seq<u8>>, width: u32, height: u32, gray: bool) -> Option<
    RasterValue,
> {
    match samples {
        Some(pixels) => {
            let img = RasterValue { width, height, gray, pixels };
            if raster_ok(img) {
                Some(img)
            } else {
                None
            }
        },
        None => None,
    }
}


/// What resizing an image may give.
pub open spec fn may_resize(
    img: RasterValue,
    to_w: u32,
    to_h: u32,
    kernel: Kernel,
    r: RasterValue,
) -> bool {
    &&& raster_ok(r)
    &&& r.width == to_w && r.height == to_h && r.gray == img.gray
    &&& resampled(
        img.pixels,
        img.width,
        img.height,
        img.gray,
        to_w,
        to_h,
        kernel == Kernel::Lanczos,
        r.pixels,
    )
}

/// Whether resizing can be done.
pub fn can_resize(w: u32, h: u32, to_w: u32, to_h: u32) -> (r: bool)
    ensures
        r == resize_fits(w, h, to_w, to_h),
{
    if w > MAX_RESIZE_SIDE || h > MAX_RESIZE_SIDE || to_w > MAX_RESIZE_SIDE || to_h
        > MAX_RESIZE_SIDE {
        return false;
    }
    let limit: u128 = (usize::MAX / 2) as u128;
    proof {
        assert(w * to_h <= 0xFFFF_FFFF * 0xFFFF_FFFF && to_w * to_h <= 0xFFFF_FFFF * 0xFFFF_FFFF)
            by (nonlinear_arith)
            requires
                w <= 0xFFFF_FFFF,
                to_w <= 0xFFFF_FFFF,
                to_h <= 0xFFFF_FFFF,
        ;
    }
    w as u128 * to_h as u128 * 16 <= limit && to_w as u128 * to_h as u128 * 16 <= limit
}

/// Resizes an image to exactly this size.
pub fn resize(img: Raster, to_w: u32, to_h: u32, kernel: Kernel) -> (r: Raster)
    requires
        raster_ok(img@),
        resize_fits(img.width, img.height, to_w, to_h),
    ensures
        may_resize(img@, to_w, to_h, kernel, r@),
{
    let (w, h, gray): (u32, u32, bool) = (img.width, img.height, img.gray);
    let pixels = if gray {
        resize_gray(img.pixels, w, h, to_w, to_h, kernel)
    } else {
        resize_rgb(img.pixels, w, h, to_w, to_h, kernel)
    };
    let r = Raster { width: to_w, height: to_h, gray, pixels };
    proof {
        assert(to_w * to_h * 1 == to_w * to_h) by (nonlinear_arith);
        assert(r@.pixels.len() == to_w * to_h * channel_count(gray));
    }
    r
}

/// A quality that the encoder takes: from 1 to 100.
pub open spec fn clamped_quality(q: u8) -> u8 {
    if q < 1 {
        1
    } else if q > 100 {
        100
    } else {
        q
    }
}

/// The codecs, which are the caller's. libjpeg reports a broken file, and a
/// code that grows too long, by unwinding. The JPEG 2000 decoder unwinds where
/// a palette has more columns than the image has channels, and multiplies the
/// numbers of tiles unchecked. Only the caller can stop that.
///
/// `decode` gets a JPEG and the size that it has to cover, at which it may
/// stop short of the full one by [`decode_scale`]; `encode` an image and a
/// quality; `jpx` a JPEG 2000 file, of which it gives the samples.
pub struct Codec<D, E, J> {
    pub decode: D,
    pub encode: E,
    pub jpx: J,
}

/// The codec can be called on everything that it is handed: a file of any
/// content, and an image of a JPEG's size with a quality from 1 to 100.
pub open spec fn ready<
    D: Fn(&[u8], u32, u32) -> Option<Raster>,
    E: Fn(&Raster, u8) -> Option<Vec<u8>>,
    J: Fn(&[u8]) -> Option<Vec<u8>>,
>(codec: Codec<D, E, J>) -> bool {
    &&& forall|d: &[u8], w: u32, h: u32| #[trigger] codec.decode.requires((d, w, h))
    &&& forall|d: &[u8]| #[trigger] codec.jpx.requires((d,))
    &&& forall|img: &Raster, q: u8|
        raster_ok(img@) && encodable(img@) && 1 <= q <= 100 ==> #[trigger] codec.encode.requires(
            (img, q),
        )
}

/// An image that is not empty and not too large for a JPEG.
pub open spec fn encodable(img: RasterValue) -> bool {
    1 <= img.width <= MAX_JPEG_SIDE && 1 <= img.height <= MAX_JPEG_SIDE
}

/// What decoding a JPEG 2000 image of this size and kind may give: what the
/// codec gives, where the number of samples is right.
pub open spec fn may_decode_jpx<
    D: Fn(&[u8], u32, u32) -> Option<Raster>,
    E: Fn(&Raster, u8) -> Option<Vec<u8>>,
    J: Fn(&[u8]) -> Option<Vec<u8>>,
>(
    codec: Codec<D, E, J>,
    data: Seq<u8>,
    width: u32,
    height: u32,
    gray: bool,
    img: Option<RasterValue>,
) -> bool {
    exists|d: &[u8], r: Option<Vec<u8>>|
        d@ == data && #[trigger] codec.jpx.ensures((d,), r) && img == jpx_image(
            opt_view(r),
            width,
            height,
            gray,
        )
}

/// Decodes a JPEG 2000 image of this size and kind; `None` where it cannot be
/// decoded or the number of samples is another.
pub fn jpx_raster<
    D: Fn(&[u8], u32, u32) -> Option<Raster>,
    E: Fn(&Raster, u8) -> Option<Vec<u8>>,
    J: Fn(&[u8]) -> Option<Vec<u8>>,
>(data: &[u8], width: u32, height: u32, gray: bool, codec: &Codec<D, E, J>) -> (r: Option<Raster>)
    requires
        ready(*codec),
    ensures
        may_decode_jpx(*codec, data@, width, height, gray, opt_raster(r)),
{
    let decode = &codec.jpx;
    let samples = decode(data);
    let ghost seen = opt_view(samples);
    proof {
        assert(codec.jpx.ensures((data,), samples));
        assert(may_decode_jpx(
            *codec,
            data@,
            width,
            height,
            gray,
            jpx_image(seen, width, height, gray),
        ));
    }
    match samples {
        Some(pixels) => {
            let img = Raster { width, height, gray, pixels };
            if is_sound(&img) {
                Some(img)
            } else {
                None
            }
        },
        None => None,
    }
}

/// The encoder may give `out` for this image and quality.
pub open spec fn may_give<
    D: Fn(&[u8], u32, u32) -> Option<Raster>,
    E: Fn(&Raster, u8) -> Option<Vec<u8>>,
    J: Fn(&[u8]) -> Option<Vec<u8>>,
>(codec: Codec<D, E, J>, img: RasterValue, quality: u8, out: Option<Seq<u8>>) -> bool {
    exists|p: &Raster, r: Option<Vec<u8>>|
        p@ == img && #[trigger] codec.encode.ensures((p, quality), r) && opt_view(r) == out
}

/// What encoding an image as JPEG may give. An image that is empty or too
/// large for the format is refused, and the quality is held to its range.
pub open spec fn may_encode<
    D: Fn(&[u8], u32, u32) -> Option<Raster>,
    E: Fn(&Raster, u8) -> Option<Vec<u8>>,
    J: Fn(&[u8]) -> Option<Vec<u8>>,
>(codec: Codec<D, E, J>, img: RasterValue, quality: u8, out: Option<Seq<u8>>) -> bool {
    if encodable(img) {
        may_give(codec, img, clamped_quality(quality), out)
    } else {
        out is None
    }
}

/// Encodes an image as JPEG. The number of channels is kept, so that it still
/// matches the color space of the stream. `None` where the image is too large
/// for the format, empty, or refused.
pub fn encode_jpeg<
    D: Fn(&[u8], u32, u32) -> Option<Raster>,
    E: Fn(&Raster, u8) -> Option<Vec<u8>>,
    J: Fn(&[u8]) -> Option<Vec<u8>>,
>(img: &Raster, quality: u8, codec: &Codec<D, E, J>) -> (r: Option<Vec<u8>>)
    requires
        raster_ok(img@),
        ready(*codec),
    ensures
        may_encode(*codec, img@, quality, opt_view(r)),
{
    if img.width == 0 || img.height == 0 || img.width > MAX_JPEG_SIDE || img.height
        > MAX_JPEG_SIDE {
        return None;
    }
    let q: u8 = if quality < 1 {
        1
    } else if quality > 100 {
        100
    } else {
        quality
    };
    let encode = &codec.encode;
    let r = encode(img, q);
    proof {
        assert(codec.encode.ensures((img, q), r));
        assert(may_give(*codec, img@, q, opt_view(r)));
    }
    r
}

/// The image, where it is sound.
pub open spec fn if_sound(r: Option<Raster>) -> Option<RasterValue> {
    match r {
        Some(x) => if raster_ok(x@) {
            Some(x@)
        } else {
            None
        },
        None => None,
    }
}

/// What decoding `data` may give: what the codec gives, as far as it is sound.
pub open spec fn may_decode<
    D: Fn(&[u8], u32, u32) -> Option<Raster>,
    E: Fn(&Raster, u8) -> Option<Vec<u8>>,
    J: Fn(&[u8]) -> Option<Vec<u8>>,
>(codec: Codec<D, E, J>, data: Seq<u8>, w: u32, h: u32, img: Option<RasterValue>) -> bool {
    exists|d: &[u8], r: Option<Raster>|
        d@ == data && #[trigger] codec.decode.ensures((d, w, h), r) && img == if_sound(r)
}

/// Decodes a JPEG, of which this size has to be covered.
pub fn decode_jpeg<
    D: Fn(&[u8], u32, u32) -> Option<Raster>,
    E: Fn(&Raster, u8) -> Option<Vec<u8>>,
    J: Fn(&[u8]) -> Option<Vec<u8>>,
>(data: &[u8], target_w: u32, target_h: u32, codec: &Codec<D, E, J>) -> (r: Option<Raster>)
    requires
        ready(*codec),
    ensures
        may_decode(*codec, data@, target_w, target_h, opt_raster(r)),
        r is Some ==> raster_ok((r->0)@),
{
    let decode = &codec.decode;
    let seen = decode(data, target_w, target_h);
    proof {
        assert(codec.decode.ensures((data, target_w, target_h), seen));
        assert(may_decode(*codec, data@, target_w, target_h, if_sound(seen)));
    }
    match seen {
        Some(img) => if is_sound(&img) {
            Some(img)
        } else {
            None
        },
        None => None,
    }
}

/// A side scaled by `n` eighths, rounded up.
pub open spec fn scaled_side(full: int, n: int) -> int {
    (full * n + 7) / 8
}

/// The scale `n`/8 covers the target in both directions.
pub open spec fn covers(full_w: int, full_h: int, target_w: int, target_h: int, n: int) -> bool {
    scaled_side(full_w, n) >= target_w && scaled_side(full_h, n) >= target_h
}

/// `n` is the smallest of the scales 1/8 to 8/8 that covers the target, or
/// 8 where none does.
pub open spec fn smallest_scale(
    full_w: int,
    full_h: int,
    target_w: int,
    target_h: int,
    n: int,
) -> bool {
    &&& 1 <= n <= 8
    &&& n < 8 ==> covers(full_w, full_h, target_w, target_h, n)
    &&& forall|k: int| 1 <= k < n ==> !covers(full_w, full_h, target_w, target_h, k)
}

/// The smallest scale, in eighths, whose output still covers the target in
/// both directions, so that the resize after it always shrinks.
pub fn decode_scale(full_w: u32, full_h: u32, target_w: u32, target_h: u32) -> (r: u8)
    ensures
        smallest_scale(
            full_w as int,
            full_h as int,
            target_w as int,
            target_h as int,
            r as int,
        ),
{
    let mut n: u8 = 1;
    while n < 8
        invariant
            1 <= n <= 8,
            forall|k: int|
                1 <= k < n ==> !covers(
                    full_w as int,
                    full_h as int,
                    target_w as int,
                    target_h as int,
                    k,
                ),
        decreases 8 - n,
    {
        proof {
            assert(full_w * n <= full_w * 8 && full_h * n <= full_h * 8) by (nonlinear_arith)
                requires
                    1 <= n <= 8,
                    full_w >= 0,
                    full_h >= 0,
            ;
            assert(full_w * n >= 0 && full_h * n >= 0) by (nonlinear_arith)
                requires
                    1 <= n <= 8,
                    full_w >= 0,
                    full_h >= 0,
            ;
        }
        let w: u64 = (full_w as u64 * n as u64 + 7) / 8;
        let h: u64 = (full_h as u64 * n as u64 + 7) / 8;
        if w >= target_w as u64 && h >= target_h as u64 {
            return n;
        }
        n += 1;
    }
    n
}

// --- quantization tables -----------------------------------------------------------------

/// The quantization tables of a JPEG from `i` on, up to the start of its scan;
/// `None` on any doubt.
pub open spec fn tables_from(s: Seq<u8>, i: int) -> Option<Seq<u8>>
    decreases s.len() - i,
{
    if i < 0 || i + 2 > s.len() || s[i] != 0xFF {
        None
    } else {
        let marker = s[i + 1];
        if marker == 0xFF {
            tables_from(s, i + 1)
        } else if marker == 0x01 || 0xD0 <= marker <= 0xD7 {
            tables_from(s, i + 2)
        } else if marker == 0xDA {
            Some(Seq::empty())
        } else if i + 4 > s.len() {
            None
        } else {
            let len = s[i + 2] * 0x100 + s[i + 3];
            if len < 2 || i + 2 + len > s.len() {
                None
            } else {
                match tables_from(s, i + 2 + len) {
                    None => None,
                    Some(rest) => if marker == 0xDB {
                        Some(s.subrange(i + 4, i + 2 + len) + rest)
                    } else {
                        Some(rest)
                    },
                }
            }
        }
    }
}

/// The quantization tables of a JPEG.
pub open spec fn quant_tables(s: Seq<u8>) -> Option<Seq<u8>> {
    if s.len() < 2 || s[0] != 0xFF || s[1] != 0xD8 {
        None
    } else {
        tables_from(s, 2)
    }
}

/// The payloads of a JPEG's quantization table segments, in order, up to the
/// start of the scan. Two JPEGs with the same were made at the same quality.
/// `None` on any doubt; callers must then draw no conclusion.
pub fn jpeg_quant_tables(data: &[u8]) -> (r: Option<Vec<u8>>)
    ensures
        opt_view(r) == quant_tables(data@),
{
    let total: usize = data.len();
    if total < 2 || data[0] != 0xFF || data[1] != 0xD8 {
        return None;
    }
    let mut out: Vec<u8> = Vec::new();
    let mut i: usize = 2;
    let ghost goal = tables_from(data@, 2);
    proof {
        match goal {
            Some(t) => {
                assert(out@ + t =~= t);
            },
            None => {},
        }
    }
    while i < total && total - i >= 2
        invariant
            total == data@.len(),
            2 <= i <= total,
            goal == quant_tables(data@),
            goal == match tables_from(data@, i as int) {
                Some(rest) => Some(out@ + rest),
                None => None,
            },
        decreases total - i,
    {
        if data[i] != 0xFF {
            return None;
        }
        let marker: u8 = data[i + 1];
        if marker == 0xFF {
            i += 1;
            continue;
        }
        if marker == 0x01 || (0xD0 <= marker && marker <= 0xD7) {
            i += 2;
            continue;
        }
        if marker == 0xDA {
            proof {
                assert(out@ + Seq::<u8>::empty() =~= out@);
            }
            return Some(out);
        }
        if total - i < 4 {
            return None;
        }
        let len: usize = data[i + 2] as usize * 0x100 + data[i + 3] as usize;
        if len < 2 || len > total - i - 2 {
            return None;
        }
        let ghost before = out@;
        if marker == 0xDB {
            out.extend_from_slice(vstd::slice::slice_subrange(data, i + 4, i + 2 + len));
        }
        proof {
            match tables_from(data@, i + 2 + len) {
                Some(rest) => {
                    if marker == 0xDB {
                        assert(before + (data@.subrange(i + 4, i + 2 + len) + rest) =~= out@ + rest);
                    }
                },
                None => {},
            }
        }
        i = i + 2 + len;
    }
    None
}

// --- comparing pixels -----------------------------------------------------------------------

/// The distance of two samples.
pub open spec fn sample_distance(a: u8, b: u8) -> int {
    if a < b {
        b - a
    } else {
        a - b
    }
}

/// The sum of the distances of the first `n` samples.
pub open spec fn distance_sum(a: Seq<u8>, b: Seq<u8>, n: int) -> int
    decreases n,
{
    if n <= 0 {
        0
    } else {
        distance_sum(a, b, n - 1) + sample_distance(a[n - 1], b[n - 1])
    }
}

/// The greatest mean distance at which a decoded image still counts as the
/// one that was encoded. It is loose on purpose: it catches catastrophes,
/// never ordinary loss of quality.
pub const DECODE_BACK_MAX_MAD: u8 = 96;

/// `back` is the image that was encoded as `reference`: the same kind and
/// number of samples, and their mean distance within bounds.
pub open spec fn matches_reference(reference: RasterValue, back: Option<RasterValue>) -> bool {
    match back {
        None => false,
        Some(b) => {
            &&& b.gray == reference.gray
            &&& b.pixels.len() == reference.pixels.len()
            &&& reference.pixels.len() > 0
            &&& distance_sum(reference.pixels, b.pixels, reference.pixels.len() as int)
                <= DECODE_BACK_MAX_MAD * reference.pixels.len()
        },
    }
}

fn abs_distance(a: u8, b: u8) -> (r: u64)
    ensures
        r == sample_distance(a, b),
        r <= 255,
{
    if a < b {
        (b - a) as u64
    } else {
        (a - b) as u64
    }
}

/// Whether a decoded image is the one that was encoded.
pub fn back_matches(reference: &Raster, back: &Option<Raster>) -> (r: bool)
    ensures
        r == matches_reference(reference@, opt_raster(*back)),
{
    match back {
        None => false,
        Some(b) => {
            let n: usize = reference.pixels.len();
            if b.gray != reference.gray || b.pixels.len() != n || n == 0 {
                return false;
            }
            let mut sum: u128 = 0;
            let mut i: usize = 0;
            while i < n
                invariant
                    i <= n,
                    n == reference.pixels@.len() == b.pixels@.len(),
                    sum == distance_sum(reference.pixels@, b.pixels@, i as int),
                    sum <= 255 * i,
                decreases n - i,
            {
                sum = sum + abs_distance(reference.pixels[i], b.pixels[i]) as u128;
                i += 1;
            }
            let most: u128 = DECODE_BACK_MAX_MAD as u128;
            proof {
                assert(0 <= most * n <= 255 * n) by (nonlinear_arith)
                    requires
                        0 <= most <= 255,
                        n >= 0,
                ;
            }
            sum <= most * n as u128
        },
    }
}

// --- line art ----------------------------------------------------------------------------------

/// The color of pixel `i`, five bits per channel.
pub open spec fn quantized(p: Seq<u8>, gray: bool, i: int) -> int {
    if gray {
        p[i] as int / 8
    } else {
        (p[3 * i] as int / 8) * 1024 + (p[3 * i + 1] as int / 8) * 32 + p[3 * i + 2] as int / 8
    }
}

/// How many of the first `n` pixels have the color `q`.
pub open spec fn color_count(p: Seq<u8>, gray: bool, q: int, n: int) -> nat
    decreases n,
{
    if n <= 0 {
        0
    } else {
        color_count(p, gray, q, n - 1) + (if quantized(p, gray, n - 1) == q {
            1nat
        } else {
            0
        })
    }
}

/// The counts of all colors.
pub open spec fn histogram(p: Seq<u8>, gray: bool, n: int) -> Seq<nat> {
    Seq::new(0x8000, |q: int| color_count(p, gray, q, n))
}

/// Index of the largest of the first `n` counts, the first where several are.
pub open spec fn largest(counts: Seq<nat>, n: int) -> int
    decreases n,
{
    if n <= 1 {
        0
    } else {
        let before = largest(counts, n - 1);
        if counts[n - 1] > counts[before] {
            n - 1
        } else {
            before
        }
    }
}

/// The sum of the `k` largest counts.
pub open spec fn top_sum(counts: Seq<nat>, k: int) -> nat
    decreases k,
{
    if k <= 0 || counts.len() == 0 {
        0
    } else {
        let i = largest(counts, counts.len() as int);
        counts[i] + top_sum(counts.update(i, 0), k - 1)
    }
}

/// Channel step that counts as a sharp edge between neighboring samples.
pub const EDGE_STEP: u8 = 48;

/// Pixels `i` and `j` differ by a sharp edge in some channel.
pub open spec fn sharp(p: Seq<u8>, gray: bool, i: int, j: int) -> bool {
    if gray {
        sample_distance(p[i], p[j]) > EDGE_STEP
    } else {
        sample_distance(p[3 * i], p[3 * j]) > EDGE_STEP || sample_distance(p[3 * i + 1], p[3 * j + 1])
            > EDGE_STEP || sample_distance(p[3 * i + 2], p[3 * j + 2]) > EDGE_STEP
    }
}

/// Pixel `x`, `y` has a sharp edge to its right or lower neighbor.
pub open spec fn on_edge(r: RasterValue, x: int, y: int) -> bool {
    let i = y * r.width + x;
    ||| x + 1 < r.width && sharp(r.pixels, r.gray, i, i + 1)
    ||| y + 1 < r.height && sharp(r.pixels, r.gray, i, i + r.width)
}

/// Pixels on a sharp edge, of the first `x` of row `y`.
pub open spec fn row_edges(r: RasterValue, y: int, x: int) -> nat
    decreases x,
{
    if x <= 0 {
        0
    } else {
        row_edges(r, y, x - 1) + (if on_edge(r, x - 1, y) {
            1nat
        } else {
            0
        })
    }
}

/// Pixels on a sharp edge in the first `y` rows.
pub open spec fn edge_count(r: RasterValue, y: int) -> nat
    decreases y,
{
    if y <= 0 {
        0
    } else {
        edge_count(r, y - 1) + row_edges(r, y - 1, r.width as int)
    }
}

/// Line art: one background color on at least 75% of the pixels, eight colors
/// on at least 90%, and fewer than 10% of them on a sharp edge.
pub open spec fn is_line_art(r: RasterValue) -> bool {
    let total = r.width * r.height;
    let counts = histogram(r.pixels, r.gray, total);
    &&& total > 0
    &&& 4 * top_sum(counts, 1) >= 3 * total
    &&& 10 * top_sum(counts, 8) >= 9 * total
    &&& 10 * edge_count(r, r.height as int) < total
}

/// The color of pixel `i`, five bits per channel.
fn color_of(p: &Vec<u8>, gray: bool, i: usize) -> (r: usize)
    requires
        gray ==> i < p@.len(),
        !gray ==> 3 * i + 2 < p@.len() <= usize::MAX,
    ensures
        r == quantized(p@, gray, i as int),
        r < 0x8000,
{
    if gray {
        p[i] as usize / 8
    } else {
        (p[3 * i] as usize / 8) * 1024 + (p[3 * i + 1] as usize / 8) * 32 + p[3 * i + 2] as usize
            / 8
    }
}

/// Counts as mathematical integers.
pub open spec fn count_nats(s: Seq<u64>) -> Seq<nat> {
    s.map_values(|v: u64| v as nat)
}

/// Counts the colors.
fn count_colors(img: &Raster, total: usize) -> (r: Vec<u64>)
    requires
        raster_ok(img@),
        total == img.width * img.height,
    ensures
        count_nats(r@) == histogram(img.pixels@, img.gray, total as int),
        r@.len() == 0x8000,
        forall|q: int| 0 <= q < r@.len() ==> #[trigger] r@[q] <= total,
{
    let len: usize = img.pixels.len();
    let mut counts: Vec<u64> = Vec::new();
    let mut q: usize = 0;
    while q < 0x8000
        invariant
            q <= 0x8000,
            counts@.len() == q,
            forall|k: int| 0 <= k < q ==> #[trigger] counts@[k] == 0,
        decreases 0x8000 - q,
    {
        counts.push(0);
        q += 1;
    }
    let ghost p = img.pixels@;
    let ghost gray = img.gray;
    let mut i: usize = 0;
    while i < total
        invariant
            i <= total,
            len == p.len(),
            p == img.pixels@,
            gray == img.gray,
            p.len() == total * channel_count(gray),
            counts@.len() == 0x8000,
            forall|k: int|
                0 <= k < 0x8000 ==> #[trigger] counts@[k] == color_count(p, gray, k, i as int)
                    && counts@[k] <= i,
        decreases total - i,
    {
        let c: usize = color_of(&img.pixels, img.gray, i);
        let n: u64 = counts[c];
        counts.set(c, n + 1);
        i += 1;
    }
    proof {
        assert(count_nats(counts@) =~= histogram(p, gray, total as int));
    }
    counts
}

/// The largest index is one, and none is larger.
proof fn lemma_largest(counts: Seq<nat>, n: int)
    requires
        0 < n <= counts.len(),
    ensures
        0 <= largest(counts, n) < n,
    decreases n,
{
    if n > 1 {
        lemma_largest(counts, n - 1);
    }
}

/// Takes the largest count out, leaving 0 in its place.
fn take_largest(counts: &mut Vec<u64>) -> (r: u64)
    requires
        old(counts)@.len() > 0,
    ensures
        ({
            let before = count_nats(old(counts)@);
            let i = largest(before, before.len() as int);
            &&& 0 <= i < before.len()
            &&& r == before[i]
            &&& count_nats(final(counts)@) == before.update(i, 0)
        }),
        final(counts)@.len() == old(counts)@.len(),
        exists|i: int| 0 <= i < old(counts)@.len() && r == #[trigger] old(counts)@[i],
        forall|i: int|
            0 <= i < old(counts)@.len() ==> (#[trigger] final(counts)@[i]) <= old(counts)@[i],
{
    let ghost before = count_nats(counts@);
    let mut best: usize = 0;
    let mut i: usize = 1;
    while i < counts.len()
        invariant
            1 <= i <= counts@.len(),
            best < i,
            before == count_nats(counts@),
            counts@ == old(counts)@,
            best == largest(before, i as int),
        decreases counts@.len() - i,
    {
        proof {
            assert(before[i as int] == counts@[i as int] && before[best as int]
                == counts@[best as int]);
        }
        if counts[i] > counts[best] {
            best = i;
        }
        i += 1;
    }
    let r: u64 = counts[best];
    counts.set(best, 0);
    proof {
        assert(count_nats(counts@) =~= before.update(best as int, 0));
        assert(before[best as int] == r);
    }
    r
}

/// The sum of the `k` largest counts, none of which exceeds `limit`.
fn sum_largest(counts: &mut Vec<u64>, k: u64, limit: u64) -> (r: u128)
    requires
        old(counts)@.len() > 0,
        k <= 8,
        forall|i: int| 0 <= i < old(counts)@.len() ==> #[trigger] old(counts)@[i] <= limit,
    ensures
        r == top_sum(count_nats(old(counts)@), k as int),
        r <= k * limit,
    decreases k,
{
    if k == 0 {
        return 0;
    }
    let own: u64 = take_largest(counts);
    let rest: u128 = sum_largest(counts, k - 1, limit);
    proof {
        assert((k - 1) * limit + limit == k * limit) by (nonlinear_arith);
        assert((k - 1) * limit <= 7 * limit) by (nonlinear_arith)
            requires
                k <= 8,
                limit >= 0,
        ;
    }
    own as u128 + rest
}

fn sharp_edge(img: &Raster, i: usize, j: usize) -> (r: bool)
    requires
        img.gray ==> i < img.pixels@.len() && j < img.pixels@.len(),
        !img.gray ==> 3 * i + 2 < img.pixels@.len() && 3 * j + 2 < img.pixels@.len(),
        img.pixels@.len() <= usize::MAX,
    ensures
        r == sharp(img.pixels@, img.gray, i as int, j as int),
{
    let p = &img.pixels;
    let step: u64 = EDGE_STEP as u64;
    if img.gray {
        abs_distance(p[i], p[j]) > step
    } else {
        abs_distance(p[3 * i], p[3 * j]) > step || abs_distance(p[3 * i + 1], p[3 * j + 1]) > step
            || abs_distance(p[3 * i + 2], p[3 * j + 2]) > step
    }
}

/// Counts the pixels on a sharp edge.
fn count_edges(img: &Raster) -> (r: u64)
    requires
        raster_ok(img@),
        img.width * img.height <= usize::MAX,
    ensures
        r == edge_count(img@, img.height as int),
{
    let len: usize = img.pixels.len();
    let ghost v = img@;
    let ghost w = img.width as int;
    let mut total: u64 = 0;
    let mut y: u32 = 0;
    proof {
        assert(len == w * img.height * channel_count(img.gray));
    }
    while y < img.height
        invariant
            y <= img.height,
            v == img@,
            w == img.width,
            len == img.pixels@.len(),
            len == w * img.height * channel_count(img.gray),
            w * img.height <= usize::MAX,
            total == edge_count(v, y as int),
            total <= y * w,
        decreases img.height - y,
    {
        let mut x: u32 = 0;
        let mut row: u64 = 0;
        while x < img.width
            invariant
                x <= img.width,
                y < img.height,
                v == img@,
                w == img.width,
                len == img.pixels@.len(),
                len == w * img.height * channel_count(img.gray),
                w * img.height <= usize::MAX,
                row == row_edges(v, y as int, x as int),
                row <= x,
            decreases img.width - x,
        {
            proof {
                lemma_pixel_index(w, img.height as int, x as int, y as int);
            }
            let i: usize = y as usize * img.width as usize + x as usize;
            let right = x + 1 < img.width && sharp_edge(img, i, i + 1);
            let down = y + 1 < img.height && sharp_edge(img, i, i + img.width as usize);
            if right || down {
                row = row + 1;
            }
            x += 1;
        }
        proof {
            assert((y + 1) * w == y * w + w) by (nonlinear_arith);
            assert((y + 1) * w <= img.height * w) by (nonlinear_arith)
                requires
                    y + 1 <= img.height,
                    w >= 0,
            ;
            assert(img.height * w == w * img.height) by (nonlinear_arith);
        }
        total = total + row;
        y += 1;
    }
    total
}

/// The index of a pixel and of its neighbors lies in the image.
proof fn lemma_pixel_index(w: int, h: int, x: int, y: int)
    requires
        0 <= x < w,
        0 <= y < h,
    ensures
        0 <= y * w + x < w * h,
        0 <= y * w <= y * w + x,
        x + 1 < w ==> y * w + x + 1 < w * h,
        y + 1 < h ==> y * w + x + w < w * h,
        y * w + x + w < w * h + w,
{
    assert(y * w >= 0) by (nonlinear_arith)
        requires
            y >= 0,
            w > 0,
    ;
    assert((y + 1) * w <= h * w) by (nonlinear_arith)
        requires
            y + 1 <= h,
            w > 0,
    ;
    assert((y + 1) * w == y * w + w) by (nonlinear_arith);
    assert(h * w == w * h) by (nonlinear_arith);
    if y + 1 < h {
        assert((y + 2) * w <= h * w) by (nonlinear_arith)
            requires
                y + 2 <= h,
                w > 0,
        ;
        assert((y + 2) * w == y * w + w + w) by (nonlinear_arith);
    }
}

/// Line art is declined for the lossy conversion: thin curves on a flat
/// background, few colors, sharp edges. On it a DCT mottles the background
/// and muddies the lines, and the size alone would always say to convert.
pub fn looks_like_line_art(img: &Raster) -> (r: bool)
    requires
        raster_ok(img@),
    ensures
        r == is_line_art(img@),
{
    let len: usize = img.pixels.len();
    let area: u128 = {
        proof {
            assert(img.width * img.height <= 0xFFFF_FFFF * 0xFFFF_FFFF) by (nonlinear_arith)
                requires
                    img.width <= 0xFFFF_FFFF,
                    img.height <= 0xFFFF_FFFF,
            ;
        }
        img.width as u128 * img.height as u128
    };
    if area == 0 {
        return false;
    }
    proof {
        assert(area <= len) by {
            assert(area * 1 == area && area * 3 >= area) by (nonlinear_arith)
                requires
                    area >= 0,
            ;
        }
    }
    let total: u64 = area as u64;
    let mut counts = count_colors(img, total as usize);
    let mut again = counts.clone();
    let background: u128 = sum_largest(&mut counts, 1, total);
    let palette: u128 = sum_largest(&mut again, 8, total);
    let edges: u64 = count_edges(img);
    4 * background >= 3 * area && 10 * palette >= 9 * area && 10 * (edges as u128) < area
}

} // verus!
