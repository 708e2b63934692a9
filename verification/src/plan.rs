//! Deciding what is done with each image, and planning its replacement.

use crate::flate::{deflate_level9, inflate_capped, inflated, opt_view, zlib_level9};
use crate::images::{
    best_flate, color_channels, decode_flate_image, encode_flate, entry_is_name, flate_channels,
    flate_encoding, flate_form, flate_pixels, flate_samples, get_int, get_resolved, int_entry,
    resolved_entry, row_layout,
};
use crate::lookup::{
    classify_filter, filter_class, get_object, is_name, lookup, resolve, resolved, FilterClass,
};
use crate::names::{
    BITS_PER_COMPONENT, CAL_GRAY, CAL_RGB, COLOR_SPACE, DECODE, DEVICE_GRAY, FILTER, HEIGHT, IMAGE,
    IMAGE_MASK, MASK, MATTE, SMASK, SUBTYPE, WIDTH,
};
use crate::object::{
    dict_get, dict_has, object_view, Dict, ObjectId, Pdf, PdfObject, PdfStream, StreamValue, Value,
};
use crate::raster::{
    back_matches, can_resize, channel_count, decode_jpeg, encode_jpeg, is_line_art,
    jpeg_quant_tables, looks_like_line_art, matches_reference, may_decode, may_encode, may_resize,
    opt_raster, quant_tables, raster_ok, ready, resize, resize_fits, Codec, Kernel, Raster,
    RasterValue,
};
use vstd::prelude::*;

verus! {

// --- what may be done -------------------------------------------------------------------

/// The soft mask of object `v` is `mask`.
pub open spec fn uses_mask(v: Value, mask: ObjectId) -> bool {
    match v {
        Value::Stream(s) => dict_get(s.dict, SMASK@) == Some(Value::Reference(mask)),
        Value::Dictionary(d) => dict_get(d, SMASK@) == Some(Value::Reference(mask)),
        _ => false,
    }
}

/// How many of the first `n` objects use the soft mask `mask`.
pub open spec fn mask_users(objects: Seq<(ObjectId, Value)>, mask: ObjectId, n: int) -> nat
    decreases n,
{
    if n <= 0 {
        0
    } else {
        mask_users(objects, mask, n - 1) + (if uses_mask(objects[n - 1].1, mask) {
            1nat
        } else {
            0
        })
    }
}

/// A plain soft mask: an image of eight-bit device gray, no stencil, without
/// a matte.
pub open spec fn plain_mask(objects: Seq<(ObjectId, Value)>, mask: ObjectId) -> bool {
    match lookup(objects, mask) {
        Some(Value::Stream(s)) => {
            &&& entry_is_name(objects, s.dict, SUBTYPE@, IMAGE@)
            &&& dict_get(s.dict, IMAGE_MASK@) != Some(Value::Boolean(true))
            &&& !dict_has(s.dict, MATTE@)
            &&& entry_is_name(objects, s.dict, COLOR_SPACE@, DEVICE_GRAY@)
            &&& int_entry(s.dict, BITS_PER_COMPONENT@) == Some(8i64)
        },
        _ => false,
    }
}

/// The mask that an `/SMask` entry names, where it is a plain one. One that
/// is to change its size must have no other user: theirs would no longer be
/// aligned.
pub open spec fn usable_mask(
    objects: Seq<(ObjectId, Value)>,
    smask: Value,
    resized: bool,
) -> Option<ObjectId> {
    match smask {
        Value::Reference(mask) => if plain_mask(objects, mask) && (!resized || mask_users(
            objects,
            mask,
            objects.len() as int,
        ) <= 1) {
            Some(mask)
        } else {
            None
        },
        _ => None,
    }
}

/// Whether a mask is a plain one.
fn is_plain_mask(doc: &Pdf, mask: ObjectId) -> (r: bool)
    requires
        doc.wf(),
    ensures
        r == plain_mask(doc@.objects, mask),
{
    let (subtype, image, stencil, matte, space, gray, bits): (
        [u8; 7],
        [u8; 5],
        [u8; 9],
        [u8; 5],
        [u8; 10],
        [u8; 10],
        [u8; 16],
    ) = (SUBTYPE, IMAGE, IMAGE_MASK, MATTE, COLOR_SPACE, DEVICE_GRAY, BITS_PER_COMPONENT);
    match get_object(doc, mask) {
        Some(PdfObject::Stream(s)) => {
            proof {
                assert(lookup(doc@.objects, mask) == Some(Value::Stream(s@)));
            }
            let is_stencil = match s.dict.get(stencil.as_slice()) {
                Some(PdfObject::Boolean(b)) => *b,
                _ => false,
            };
            is_name(get_resolved(doc, &s.dict, subtype.as_slice()), image.as_slice())
                && !is_stencil && !s.dict.has(matte.as_slice()) && is_name(
                get_resolved(doc, &s.dict, space.as_slice()),
                gray.as_slice(),
            ) && get_int(&s.dict, bits.as_slice()) == Some(8i64)
        },
        _ => false,
    }
}

/// Whether at most one object uses a soft mask.
fn has_one_user(doc: &Pdf, mask: ObjectId) -> (r: bool)
    ensures
        r == (mask_users(doc@.objects, mask, doc@.objects.len() as int) <= 1),
{
    let key: [u8; 5] = SMASK;
    let ghost objects = doc@.objects;
    let mut users: u64 = 0;
    let mut i: usize = 0;
    while i < doc.objects.len()
        invariant
            i <= doc.objects@.len(),
            objects == doc@.objects,
            key@ == SMASK@,
            users == mask_users(objects, mask, i as int),
            users <= 1,
        decreases doc.objects@.len() - i,
    {
        proof {
            assert(objects[i as int].1 == object_view(doc.objects@[i as int].object));
        }
        let entry = match &doc.objects[i].object {
            PdfObject::Stream(s) => s.dict.get(key.as_slice()),
            PdfObject::Dictionary(d) => d.get(key.as_slice()),
            _ => None,
        };
        let hit = match entry {
            Some(PdfObject::Reference(id)) => id.0 == mask.0 && id.1 == mask.1,
            _ => false,
        };
        if hit {
            if users == 1 {
                proof {
                    lemma_users_grow(objects, mask, i + 1, objects.len() as int);
                }
                return false;
            }
            users = users + 1;
        }
        i += 1;
    }
    true
}

proof fn lemma_users_grow(objects: Seq<(ObjectId, Value)>, mask: ObjectId, i: int, n: int)
    requires
        i <= n,
    ensures
        mask_users(objects, mask, i) <= mask_users(objects, mask, n),
    decreases n - i,
{
    if i < n {
        lemma_users_grow(objects, mask, i, n - 1);
    }
}

/// The mask that an `/SMask` entry names, where it may be used as intended:
/// the stream must be a plain eight-bit device gray image, no stencil, with no
/// matte. Where the mask is to be resized, no other image may share it.
pub fn eligible_smask(doc: &Pdf, smask: &PdfObject, resized: bool) -> (r: Option<ObjectId>)
    requires
        doc.wf(),
    ensures
        r == usable_mask(doc@.objects, smask@, resized),
{
    match smask {
        PdfObject::Reference(mask) => {
            if is_plain_mask(doc, *mask) && (!resized || has_one_user(doc, *mask)) {
                Some(*mask)
            } else {
                None
            }
        },
        _ => None,
    }
}

/// A dictionary integer as an image side.
pub open spec fn side_of(i: i64) -> u32 {
    (i as int % 0x1_0000_0000) as u32
}

/// Width and height of an image, where both are there and not zero.
pub open spec fn image_size(d: Seq<(Seq<u8>, Value)>) -> Option<(u32, u32)> {
    match (int_entry(d, WIDTH@), int_entry(d, HEIGHT@)) {
        (Some(w), Some(h)) => if side_of(w) != 0 && side_of(h) != 0 {
            Some((side_of(w), side_of(h)))
        } else {
            None
        },
        _ => None,
    }
}

fn to_side(i: i64) -> (r: u32)
    ensures
        r == side_of(i),
{
    let bits: u64 = if i >= 0 {
        i as u64
    } else {
        0xFFFF_FFFF_FFFF_FFFF - (-(i + 1)) as u64
    };
    proof {
        assert(bits == i as int % 0x1_0000_0000_0000_0000);
        assert(bits % 0x1_0000_0000 == i as int % 0x1_0000_0000);
    }
    (bits % 0x1_0000_0000) as u32
}

/// Width and height of an image.
pub fn read_image_size(d: &Dict) -> (r: Option<(u32, u32)>)
    ensures
        r == image_size(d@),
{
    let (width, height): ([u8; 5], [u8; 6]) = (WIDTH, HEIGHT);
    let w: u32 = to_side(get_int(d, width.as_slice())?);
    let h: u32 = to_side(get_int(d, height.as_slice())?);
    if w == 0 || h == 0 {
        None
    } else {
        Some((w, h))
    }
}

/// What is done with an image.
#[derive(Debug, Clone, Copy, PartialEq, Eq, Structural)]
pub enum Route {
    /// Nothing.
    Skip,
    /// A JPEG is encoded anew at its own size.
    Requant,
    /// A Flate image becomes a JPEG of its own size.
    FlateToJpeg,
    /// A JPEG is resized.
    ResizeJpeg,
    /// A Flate image is resized.
    ResizeFlate,
    /// A JPEG and its soft mask are resized together.
    ResizeJpegPair,
    /// A Flate image and its soft mask are resized together.
    ResizeFlatePair,
}

/// What the options say of images.
#[derive(Debug, Clone, Copy)]
pub struct ImageOptions {
    pub quality: u8,
    pub downsample_flate: bool,
    pub allow_lossy: bool,
}

/// What is done with an image that has a soft mask.
pub open spec fn masked_route(
    class: FilterClass,
    resizable: bool,
    over_resolution: bool,
    o: ImageOptions,
) -> Route {
    if class == FilterClass::FlateOnly {
        if over_resolution && o.downsample_flate && resizable {
            Route::ResizeFlatePair
        } else if o.allow_lossy {
            Route::FlateToJpeg
        } else {
            Route::Skip
        }
    } else if over_resolution && resizable {
        Route::ResizeJpegPair
    } else {
        Route::Requant
    }
}

/// What is done with an image that has no mask.
pub open spec fn unmasked_route(
    class: FilterClass,
    over_resolution: bool,
    o: ImageOptions,
) -> Route {
    if class == FilterClass::DctOnly {
        if over_resolution {
            Route::ResizeJpeg
        } else {
            Route::Requant
        }
    } else if over_resolution && o.downsample_flate {
        Route::ResizeFlate
    } else if o.allow_lossy {
        Route::FlateToJpeg
    } else {
        Route::Skip
    }
}

/// The color space is a calibrated gray or color one.
pub open spec fn calibrated(objects: Seq<(ObjectId, Value)>, d: Seq<(Seq<u8>, Value)>) -> bool {
    match resolved_entry(objects, d, COLOR_SPACE@) {
        Some(Value::Array(items)) => items.len() > 0 && (resolved(objects, items[0])
            == Value::Name(CAL_GRAY@) || resolved(objects, items[0]) == Value::Name(CAL_RGB@)),
        _ => false,
    }
}

/// The samples of a JPEG stand for what they are: its color space is gray or
/// color, of one or three components, and no `/Decode` remaps them. Four
/// components would come out of the decoder as three.
pub open spec fn plain_jpeg(objects: Seq<(ObjectId, Value)>, d: Seq<(Seq<u8>, Value)>) -> bool {
    !dict_has(d, DECODE@) && (color_channels(objects, d) is Some || calibrated(objects, d))
}

/// What is done with an image, given whether it has more pixels than it
/// needs. A `/Mask`, a matte, a soft mask that is not plain, a filter other
/// than DCT and Flate, and a JPEG that is not plain each forbid touching it.
pub open spec fn route_of(
    objects: Seq<(ObjectId, Value)>,
    s: StreamValue,
    over_resolution: bool,
    o: ImageOptions,
) -> Route {
    let smask = dict_get(s.dict, SMASK@);
    if !entry_is_name(objects, s.dict, SUBTYPE@, IMAGE@) || dict_has(s.dict, MASK@) || (smask
        is Some && dict_has(s.dict, MATTE@)) || (smask is Some && usable_mask(
        objects,
        smask->0,
        false,
    ) is None) || image_size(s.dict) is None {
        Route::Skip
    } else {
        match dict_get(s.dict, FILTER@) {
            None => Route::Skip,
            Some(f) => {
                let class = filter_class(objects, f);
                if class != FilterClass::DctOnly && class != FilterClass::FlateOnly {
                    Route::Skip
                } else if class == FilterClass::DctOnly && !plain_jpeg(objects, s.dict) {
                    Route::Skip
                } else if smask is Some {
                    masked_route(
                        class,
                        usable_mask(objects, smask->0, true) is Some,
                        over_resolution,
                        o,
                    )
                } else {
                    unmasked_route(class, over_resolution, o)
                }
            },
        }
    }
}

/// Whether the color space is a calibrated gray or color one.
fn check_calibrated(doc: &Pdf, d: &Dict) -> (r: bool)
    requires
        doc.wf(),
    ensures
        r == calibrated(doc@.objects, d@),
{
    let (key, gray, rgb): ([u8; 10], [u8; 7], [u8; 6]) = (COLOR_SPACE, CAL_GRAY, CAL_RGB);
    match get_resolved(doc, d, key.as_slice()) {
        Some(PdfObject::Array(items)) => {
            if items.len() == 0 {
                return false;
            }
            let kind = resolve(doc, &items[0]);
            is_name(Some(kind), gray.as_slice()) || is_name(Some(kind), rgb.as_slice())
        },
        _ => false,
    }
}

/// Whether the samples of a JPEG stand for what they are.
fn check_plain_jpeg(doc: &Pdf, d: &Dict) -> (r: bool)
    requires
        doc.wf(),
    ensures
        r == plain_jpeg(doc@.objects, d@),
{
    let key: [u8; 6] = DECODE;
    !d.has(key.as_slice()) && (flate_channels(doc, d).is_some() || check_calibrated(doc, d))
}

/// Decides what is done with an image.
pub fn choose_route(doc: &Pdf, s: &PdfStream, over_resolution: bool, o: ImageOptions) -> (r: Route)
    requires
        doc.wf(),
    ensures
        r == route_of(doc@.objects, s@, over_resolution, o),
{
    let (subtype, image, mask_key, matte, smask_key, filter_key): (
        [u8; 7],
        [u8; 5],
        [u8; 4],
        [u8; 5],
        [u8; 5],
        [u8; 6],
    ) = (SUBTYPE, IMAGE, MASK, MATTE, SMASK, FILTER);
    if !is_name(get_resolved(doc, &s.dict, subtype.as_slice()), image.as_slice()) || s.dict.has(
        mask_key.as_slice(),
    ) {
        return Route::Skip;
    }
    let smask = s.dict.get(smask_key.as_slice());
    match smask {
        Some(v) => {
            if s.dict.has(matte.as_slice()) || eligible_smask(doc, v, false).is_none() {
                return Route::Skip;
            }
        },
        None => {},
    }
    if read_image_size(&s.dict).is_none() {
        return Route::Skip;
    }
    let class = match s.dict.get(filter_key.as_slice()) {
        Some(f) => classify_filter(doc, f),
        None => {
            return Route::Skip;
        },
    };
    if class != FilterClass::DctOnly && class != FilterClass::FlateOnly {
        return Route::Skip;
    }
    if class == FilterClass::DctOnly && !check_plain_jpeg(doc, &s.dict) {
        return Route::Skip;
    }
    match smask {
        Some(v) => {
            if class == FilterClass::FlateOnly {
                if over_resolution && o.downsample_flate && eligible_smask(doc, v, true).is_some() {
                    Route::ResizeFlatePair
                } else if o.allow_lossy {
                    Route::FlateToJpeg
                } else {
                    Route::Skip
                }
            } else if over_resolution && eligible_smask(doc, v, true).is_some() {
                Route::ResizeJpegPair
            } else {
                Route::Requant
            }
        },
        None => {
            if class == FilterClass::DctOnly {
                if over_resolution {
                    Route::ResizeJpeg
                } else {
                    Route::Requant
                }
            } else if over_resolution && o.downsample_flate {
                Route::ResizeFlate
            } else if o.allow_lossy {
                Route::FlateToJpeg
            } else {
                Route::Skip
            }
        },
    }
}

// --- what pays ------------------------------------------------------------------------------

/// A new payload saves at least five percent. Encoding a JPEG anew loses a
/// little each time; an image that was encoded before saves less than this,
/// so a second run changes nothing.
pub open spec fn saves_enough(new: int, old: int) -> bool {
    new * 100 < old * 95
}

/// What a mask's new dictionary entries cost, at most.
pub const MASK_DICT_OVERHEAD: usize = 64;

/// Whether a new payload saves at least five percent.
pub fn pays(new: usize, extra: usize, old: usize, more: usize) -> (r: bool)
    ensures
        r == saves_enough(new + extra, old + more),
{
    (new as u128 + extra as u128) * 100 < (old as u128 + more as u128) * 95
}

// --- encoding anew ------------------------------------------------------------------------

/// A JPEG of the image `img` may take the place of `content`: it is of the
/// declared size, its tables are not those that `content` already has, and it
/// decodes back to the image.
pub open spec fn requant_accepted(
    content: Seq<u8>,
    px_w: u32,
    px_h: u32,
    img: RasterValue,
    out: Seq<u8>,
    back: Option<RasterValue>,
) -> bool {
    &&& img.width == px_w && img.height == px_h
    &&& !(quant_tables(content) is Some && quant_tables(content) == quant_tables(out))
    &&& matches_reference(img, back)
}

/// Whether a JPEG of `img` may take the place of `content`.
pub fn accept_requant(
    content: &[u8],
    px_w: u32,
    px_h: u32,
    img: &Raster,
    out: &[u8],
    back: &Option<Raster>,
) -> (r: bool)
    ensures
        r == requant_accepted(content@, px_w, px_h, img@, out@, opt_raster(*back)),
{
    if img.width != px_w || img.height != px_h {
        return false;
    }
    match (jpeg_quant_tables(content), jpeg_quant_tables(out)) {
        (Some(a), Some(b)) => {
            if crate::bytes::same_bytes(a.as_slice(), b.as_slice()) {
                return false;
            }
        },
        _ => {},
    }
    back_matches(img, back)
}

/// What comes of a JPEG `out` of the image `img`, by what decoding it gave.
pub open spec fn requant_checked<
    D: Fn(&[u8], u32, u32) -> Option<Raster>,
    E: Fn(&Raster, u8) -> Option<Vec<u8>>,
    J: Fn(&[u8]) -> Option<Vec<u8>>,
>(
    codec: Codec<D, E, J>,
    content: Seq<u8>,
    px: (u32, u32),
    img: RasterValue,
    out: Seq<u8>,
    r: Option<Seq<u8>>,
) -> bool {
    exists|back: Option<RasterValue>| #[trigger]
        may_decode(codec, out, px.0, px.1, back) && r == if requant_accepted(
            content,
            px.0,
            px.1,
            img,
            out,
            back,
        ) {
            Some(out)
        } else {
            None
        }
}

/// What comes of the image `img` of a JPEG, once it is encoded anew.
pub open spec fn requant_encoded<
    D: Fn(&[u8], u32, u32) -> Option<Raster>,
    E: Fn(&Raster, u8) -> Option<Vec<u8>>,
    J: Fn(&[u8]) -> Option<Vec<u8>>,
>(
    codec: Codec<D, E, J>,
    content: Seq<u8>,
    quality: u8,
    px: (u32, u32),
    img: RasterValue,
    r: Option<Seq<u8>>,
) -> bool {
    exists|out: Option<Seq<u8>>| #[trigger]
        may_encode(codec, img, quality, out) && match out {
            None => r is None,
            Some(o) => requant_checked(codec, content, px, img, o, r),
        }
}

/// What encoding a JPEG anew at its own size may give: nothing, where it
/// cannot be decoded, is of another size than declared, or is refused; and
/// else the new JPEG, where it may take the place of the old.
pub open spec fn requant_outcome<
    D: Fn(&[u8], u32, u32) -> Option<Raster>,
    E: Fn(&Raster, u8) -> Option<Vec<u8>>,
    J: Fn(&[u8]) -> Option<Vec<u8>>,
>(
    codec: Codec<D, E, J>,
    content: Seq<u8>,
    quality: u8,
    px: (u32, u32),
    r: Option<Seq<u8>>,
) -> bool {
    exists|img: Option<RasterValue>| #[trigger]
        may_decode(codec, content, px.0, px.1, img) && match img {
            None => r is None,
            Some(i) => if i.width != px.0 || i.height != px.1 {
                r is None
            } else {
                requant_encoded(codec, content, quality, px, i, r)
            },
        }
}

/// Encodes a JPEG anew at its own size, which keeps a soft mask aligned by
/// construction. `None` on any doubt.
pub fn plan_dct_requant<
    D: Fn(&[u8], u32, u32) -> Option<Raster>,
    E: Fn(&Raster, u8) -> Option<Vec<u8>>,
    J: Fn(&[u8]) -> Option<Vec<u8>>,
>(
    content: &[u8],
    quality: u8,
    px_w: u32,
    px_h: u32,
    codec: &Codec<D, E, J>,
) -> (r: Option<Vec<u8>>)
    requires
        ready(*codec),
    ensures
        requant_outcome(*codec, content@, quality, (px_w, px_h), opt_view(r)),
{
    let ghost px = (px_w, px_h);
    let decoded = decode_jpeg(content, px_w, px_h, codec);
    proof {
        assert(may_decode(*codec, content@, px.0, px.1, opt_raster(decoded)));
    }
    let img = decoded?;
    if img.width != px_w || img.height != px_h {
        return None;
    }
    let encoded = encode_jpeg(&img, quality, codec);
    proof {
        assert(may_encode(*codec, img@, quality, opt_view(encoded)));
    }
    let out = match encoded {
        Some(out) => out,
        None => {
            proof {
                assert(requant_encoded(*codec, content@, quality, px, img@, None));
            }
            return None;
        },
    };
    let back = decode_jpeg(out.as_slice(), px_w, px_h, codec);
    proof {
        assert(may_decode(*codec, out@, px.0, px.1, opt_raster(back)));
    }
    let fine = accept_requant(content, px_w, px_h, &img, out.as_slice(), &back);
    let r = if fine {
        Some(out)
    } else {
        None
    };
    proof {
        assert(requant_checked(*codec, content@, px, img@, out@, opt_view(r)));
        assert(requant_encoded(*codec, content@, quality, px, img@, opt_view(r)));
    }
    r
}

/// What comes of a JPEG `out` of the image `img`, by what decoding it gave.
pub open spec fn back_checked<
    D: Fn(&[u8], u32, u32) -> Option<Raster>,
    E: Fn(&Raster, u8) -> Option<Vec<u8>>,
    J: Fn(&[u8]) -> Option<Vec<u8>>,
>(
    codec: Codec<D, E, J>,
    img: RasterValue,
    out: Seq<u8>,
    r: Option<Seq<u8>>,
) -> bool {
    exists|back: Option<RasterValue>| #[trigger]
        may_decode(codec, out, img.width, img.height, back) && r == if matches_reference(
            img,
            back,
        ) {
            Some(out)
        } else {
            None
        }
}

/// What encoding an image as JPEG and checking that it decodes back may give.
pub open spec fn verified_outcome<
    D: Fn(&[u8], u32, u32) -> Option<Raster>,
    E: Fn(&Raster, u8) -> Option<Vec<u8>>,
    J: Fn(&[u8]) -> Option<Vec<u8>>,
>(
    codec: Codec<D, E, J>,
    img: RasterValue,
    quality: u8,
    r: Option<Seq<u8>>,
) -> bool {
    exists|out: Option<Seq<u8>>| #[trigger]
        may_encode(codec, img, quality, out) && match out {
            None => r is None,
            Some(o) => back_checked(codec, img, o, r),
        }
}

/// Encodes an image as JPEG and checks that it decodes back.
pub fn encode_verified<
    D: Fn(&[u8], u32, u32) -> Option<Raster>,
    E: Fn(&Raster, u8) -> Option<Vec<u8>>,
    J: Fn(&[u8]) -> Option<Vec<u8>>,
>(
    img: &Raster,
    quality: u8,
    codec: &Codec<D, E, J>,
) -> (r: Option<Vec<u8>>)
    requires
        raster_ok(img@),
        ready(*codec),
    ensures
        verified_outcome(*codec, img@, quality, opt_view(r)),
{
    let encoded = encode_jpeg(img, quality, codec);
    proof {
        assert(may_encode(*codec, img@, quality, opt_view(encoded)));
    }
    let out = encoded?;
    let back = decode_jpeg(out.as_slice(), img.width, img.height, codec);
    proof {
        assert(may_decode(*codec, out@, img.width, img.height, opt_raster(back)));
    }
    let r = if back_matches(img, &back) {
        Some(out)
    } else {
        None
    };
    proof {
        assert(back_checked(*codec, img@, out@, opt_view(r)));
    }
    r
}

/// What encoding an image as JPEG may give, checked or not.
pub open spec fn encode_outcome<
    D: Fn(&[u8], u32, u32) -> Option<Raster>,
    E: Fn(&Raster, u8) -> Option<Vec<u8>>,
    J: Fn(&[u8]) -> Option<Vec<u8>>,
>(
    codec: Codec<D, E, J>,
    img: RasterValue,
    quality: u8,
    verified: bool,
    r: Option<Seq<u8>>,
) -> bool {
    if verified {
        verified_outcome(codec, img, quality, r)
    } else {
        may_encode(codec, img, quality, r)
    }
}

/// What resizing an image and encoding it as JPEG may give.
pub open spec fn shrunk_outcome<
    D: Fn(&[u8], u32, u32) -> Option<Raster>,
    E: Fn(&Raster, u8) -> Option<Vec<u8>>,
    J: Fn(&[u8]) -> Option<Vec<u8>>,
>(
    codec: Codec<D, E, J>,
    img: RasterValue,
    quality: u8,
    target: (u32, u32),
    verified: bool,
    r: Option<Seq<u8>>,
) -> bool {
    if resize_fits(img.width, img.height, target.0, target.1) {
        exists|small: RasterValue| #[trigger]
            may_resize(img, target.0, target.1, Kernel::Lanczos, small) && encode_outcome(
                codec,
                small,
                quality,
                verified,
                r,
            )
    } else {
        r is None
    }
}

/// What resizing a JPEG and encoding it anew may give.
pub open spec fn resize_outcome<
    D: Fn(&[u8], u32, u32) -> Option<Raster>,
    E: Fn(&Raster, u8) -> Option<Vec<u8>>,
    J: Fn(&[u8]) -> Option<Vec<u8>>,
>(
    codec: Codec<D, E, J>,
    content: Seq<u8>,
    quality: u8,
    target: (u32, u32),
    verified: bool,
    r: Option<Seq<u8>>,
) -> bool {
    exists|img: Option<RasterValue>| #[trigger]
        may_decode(codec, content, target.0, target.1, img) && match img {
            None => r is None,
            Some(i) => shrunk_outcome(codec, i, quality, target, verified, r),
        }
}

/// Resizes a JPEG and encodes it anew.
pub fn plan_dct<
    D: Fn(&[u8], u32, u32) -> Option<Raster>,
    E: Fn(&Raster, u8) -> Option<Vec<u8>>,
    J: Fn(&[u8]) -> Option<Vec<u8>>,
>(
    content: &[u8],
    quality: u8,
    target_w: u32,
    target_h: u32,
    codec: &Codec<D, E, J>,
) -> (r: Option<Vec<u8>>)
    requires
        ready(*codec),
    ensures
        resize_outcome(*codec, content@, quality, (target_w, target_h), false, opt_view(r)),
{
    let ghost target = (target_w, target_h);
    let decoded = decode_jpeg(content, target_w, target_h, codec);
    proof {
        assert(may_decode(*codec, content@, target.0, target.1, opt_raster(decoded)));
    }
    let img = decoded?;
    let ghost i = img@;
    if !can_resize(img.width, img.height, target_w, target_h) {
        proof {
            assert(shrunk_outcome(*codec, i, quality, target, false, None));
        }
        return None;
    }
    let resized = resize(img, target_w, target_h, Kernel::Lanczos);
    let r = encode_jpeg(&resized, quality, codec);
    proof {
        assert(may_resize(i, target.0, target.1, Kernel::Lanczos, resized@));
        assert(shrunk_outcome(*codec, i, quality, target, false, opt_view(r)));
    }
    r
}

/// Resizes a JPEG, encodes it anew, and checks that it decodes back to the
/// resized pixels.
pub fn plan_dct_resize_verified<
    D: Fn(&[u8], u32, u32) -> Option<Raster>,
    E: Fn(&Raster, u8) -> Option<Vec<u8>>,
    J: Fn(&[u8]) -> Option<Vec<u8>>,
>(
    content: &[u8],
    quality: u8,
    target_w: u32,
    target_h: u32,
    codec: &Codec<D, E, J>,
) -> (r: Option<Vec<u8>>)
    requires
        ready(*codec),
    ensures
        resize_outcome(*codec, content@, quality, (target_w, target_h), true, opt_view(r)),
{
    let ghost target = (target_w, target_h);
    let decoded = decode_jpeg(content, target_w, target_h, codec);
    proof {
        assert(may_decode(*codec, content@, target.0, target.1, opt_raster(decoded)));
    }
    let img = decoded?;
    let ghost i = img@;
    if !can_resize(img.width, img.height, target_w, target_h) {
        proof {
            assert(shrunk_outcome(*codec, i, quality, target, true, None));
        }
        return None;
    }
    let resized = resize(img, target_w, target_h, Kernel::Lanczos);
    let r = encode_verified(&resized, quality, codec);
    proof {
        assert(may_resize(i, target.0, target.1, Kernel::Lanczos, resized@));
        assert(shrunk_outcome(*codec, i, quality, target, true, opt_view(r)));
    }
    r
}

/// What turning a Flate image into a JPEG of the target size may give:
/// nothing, where it cannot be decoded or is line art.
pub open spec fn flate_jpeg_outcome<
    D: Fn(&[u8], u32, u32) -> Option<Raster>,
    E: Fn(&Raster, u8) -> Option<Vec<u8>>,
    J: Fn(&[u8]) -> Option<Vec<u8>>,
>(
    codec: Codec<D, E, J>,
    objects: Seq<(ObjectId, Value)>,
    s: StreamValue,
    quality: u8,
    px: (u32, u32),
    target: (u32, u32),
    r: Option<Seq<u8>>,
) -> bool {
    match flate_pixels(objects, s, px.0, px.1) {
        None => r is None,
        Some(img) => if is_line_art(img) {
            r is None
        } else if target == px {
            verified_outcome(codec, img, quality, r)
        } else {
            shrunk_outcome(codec, img, quality, target, true, r)
        },
    }
}

/// Turns a Flate image into a JPEG of the target size, and checks that it
/// decodes back. Line art is declined, judged by the pixels of the source:
/// resized ones have lost the edges that tell.
pub fn plan_flate_to_jpeg<
    D: Fn(&[u8], u32, u32) -> Option<Raster>,
    E: Fn(&Raster, u8) -> Option<Vec<u8>>,
    J: Fn(&[u8]) -> Option<Vec<u8>>,
>(
    doc: &Pdf,
    stream: &PdfStream,
    quality: u8,
    px_w: u32,
    px_h: u32,
    target_w: u32,
    target_h: u32,
    codec: &Codec<D, E, J>,
) -> (r: Option<Vec<u8>>)
    requires
        doc.wf(),
        ready(*codec),
    ensures
        flate_jpeg_outcome(
            *codec,
            doc@.objects,
            stream@,
            quality,
            (px_w, px_h),
            (target_w, target_h),
            opt_view(r),
        ),
{
    let img = decode_flate_image(doc, stream, px_w, px_h)?;
    if looks_like_line_art(&img) {
        return None;
    }
    if target_w == px_w && target_h == px_h {
        return encode_verified(&img, quality, codec);
    }
    let ghost i = img@;
    let ghost target = (target_w, target_h);
    if !can_resize(img.width, img.height, target_w, target_h) {
        return None;
    }
    let small = resize(img, target_w, target_h, Kernel::Lanczos);
    let r = encode_verified(&small, quality, codec);
    proof {
        assert(may_resize(i, target.0, target.1, Kernel::Lanczos, small@));
        assert(shrunk_outcome(*codec, i, quality, target, true, opt_view(r)));
    }
    r
}

/// What resizing the pixels of a Flate image and compressing them may give.
pub open spec fn flate_shrunk(
    img: RasterValue,
    target: (u32, u32),
    r: Option<(Seq<u8>, Option<Seq<(Seq<u8>, Value)>>)>,
) -> bool {
    if resize_fits(img.width, img.height, target.0, target.1) {
        exists|small: RasterValue| #[trigger]
            may_resize(img, target.0, target.1, Kernel::Lanczos, small) && r == best_flate(
                small.pixels,
                target.0,
                channel_count(img.gray),
            )
    } else {
        r is None
    }
}

/// What resizing a Flate image and compressing it anew may give.
pub open spec fn flate_outcome(
    objects: Seq<(ObjectId, Value)>,
    s: StreamValue,
    px: (u32, u32),
    target: (u32, u32),
    r: Option<(Seq<u8>, Option<Seq<(Seq<u8>, Value)>>)>,
) -> bool {
    match flate_pixels(objects, s, px.0, px.1) {
        None => r is None,
        Some(img) => flate_shrunk(img, target, r),
    }
}

/// Resizes a Flate image and compresses it anew; color space and number of
/// channels stay.
pub fn plan_flate(
    doc: &Pdf,
    stream: &PdfStream,
    px_w: u32,
    px_h: u32,
    target_w: u32,
    target_h: u32,
) -> (r: Option<(Vec<u8>, Option<Dict>)>)
    requires
        doc.wf(),
        target_w > 0,
        target_h > 0,
    ensures
        flate_outcome(doc@.objects, stream@, (px_w, px_h), (target_w, target_h), flate_form(r)),
{
    let img = decode_flate_image(doc, stream, px_w, px_h)?;
    let ghost i = img@;
    let ghost target = (target_w, target_h);
    let gray = img.gray;
    if !can_resize(img.width, img.height, target_w, target_h) {
        return None;
    }
    let small = resize(img, target_w, target_h, Kernel::Lanczos);
    proof {
        let c = channel_count(gray);
        assert(target_w * c <= target_w * target_h * c) by (nonlinear_arith)
            requires
                target_w >= 0,
                target_h >= 1,
                c >= 1,
        ;
        assert(may_resize(i, target.0, target.1, Kernel::Lanczos, small@));
    }
    let len: usize = small.pixels.len();
    let r = encode_flate(small.pixels.as_slice(), target_w, gray);
    proof {
        assert(flate_shrunk(i, target, flate_form(r)));
    }
    r
}

/// An image, where it is gray.
pub open spec fn if_gray(img: Option<RasterValue>) -> Option<RasterValue> {
    match img {
        Some(i) => if i.gray {
            Some(i)
        } else {
            None
        },
        None => None,
    }
}

/// What the pixels of a soft mask that is a JPEG may be.
pub open spec fn mask_jpeg<
    D: Fn(&[u8], u32, u32) -> Option<Raster>,
    E: Fn(&Raster, u8) -> Option<Vec<u8>>,
    J: Fn(&[u8]) -> Option<Vec<u8>>,
>(
    codec: Codec<D, E, J>,
    content: Seq<u8>,
    target: (u32, u32),
    r: Option<RasterValue>,
) -> bool {
    exists|img: Option<RasterValue>| #[trigger]
        may_decode(codec, content, target.0, target.1, img) && r == if_gray(img)
}

/// What the pixels of a soft mask may be, in either encoding.
pub open spec fn mask_decoded<
    D: Fn(&[u8], u32, u32) -> Option<Raster>,
    E: Fn(&Raster, u8) -> Option<Vec<u8>>,
    J: Fn(&[u8]) -> Option<Vec<u8>>,
>(
    codec: Codec<D, E, J>,
    objects: Seq<(ObjectId, Value)>,
    m: StreamValue,
    px: (u32, u32),
    target: (u32, u32),
    r: Option<RasterValue>,
) -> bool {
    if dict_has(m.dict, DECODE@) || dict_get(m.dict, FILTER@) is None {
        r is None
    } else {
        match filter_class(objects, dict_get(m.dict, FILTER@)->0) {
            FilterClass::DctOnly => mask_jpeg(codec, m.content, target, r),
            FilterClass::FlateOnly => r == mask_pixels(objects, m, px),
            _ => r is None,
        }
    }
}

/// The pixels of a Flate soft mask.
pub open spec fn mask_pixels(
    objects: Seq<(ObjectId, Value)>,
    m: StreamValue,
    px: (u32, u32),
) -> Option<RasterValue> {
    if color_channels(objects, m.dict) != Some(1int) {
        None
    } else {
        match row_layout(m.dict, 1, px.0) {
            None => None,
            Some(layout) => match flate_samples(m.content, layout, 1, px.0, px.1) {
                None => None,
                Some(pixels) => Some(
                    RasterValue { width: px.0, height: px.1, gray: true, pixels },
                ),
            },
        }
    }
}

/// The payload of gray samples: plain Flate rows that inflate back.
pub open spec fn mask_form(raw: Seq<u8>) -> Option<Seq<u8>> {
    match zlib_level9(raw) {
        Some(out) => if raw.len() < usize::MAX && inflated(out, raw.len()) == Some(raw) {
            Some(out)
        } else {
            None
        },
        None => None,
    }
}

/// What resizing the pixels of a soft mask and compressing them may give.
pub open spec fn mask_shrunk(img: RasterValue, target: (u32, u32), r: Option<Seq<u8>>) -> bool {
    if resize_fits(img.width, img.height, target.0, target.1) {
        exists|small: RasterValue| #[trigger]
            may_resize(img, target.0, target.1, Kernel::Triangle, small) && r == mask_form(
                small.pixels,
            )
    } else {
        r is None
    }
}

/// What resampling a soft mask may give.
pub open spec fn mask_outcome<
    D: Fn(&[u8], u32, u32) -> Option<Raster>,
    E: Fn(&Raster, u8) -> Option<Vec<u8>>,
    J: Fn(&[u8]) -> Option<Vec<u8>>,
>(
    codec: Codec<D, E, J>,
    objects: Seq<(ObjectId, Value)>,
    m: StreamValue,
    px: (u32, u32),
    target: (u32, u32),
    r: Option<Seq<u8>>,
) -> bool {
    exists|img: Option<RasterValue>| #[trigger]
        mask_decoded(codec, objects, m, px, target, img) && match img {
            None => r is None,
            Some(i) => mask_shrunk(i, target, r),
        }
}

/// The pixels of a soft mask, in either encoding.
fn decode_mask<
    D: Fn(&[u8], u32, u32) -> Option<Raster>,
    E: Fn(&Raster, u8) -> Option<Vec<u8>>,
    J: Fn(&[u8]) -> Option<Vec<u8>>,
>(
    doc: &Pdf,
    mask: &PdfStream,
    px_w: u32,
    px_h: u32,
    target_w: u32,
    target_h: u32,
    codec: &Codec<D, E, J>,
) -> (r: Option<Raster>)
    requires
        doc.wf(),
        ready(*codec),
    ensures
        mask_decoded(
            *codec,
            doc@.objects,
            mask@,
            (px_w, px_h),
            (target_w, target_h),
            opt_raster(r),
        ),
        r is Some ==> raster_ok((r->0)@) && (r->0).gray,
{
    let (decode_key, filter_key): ([u8; 6], [u8; 6]) = (DECODE, FILTER);
    if mask.dict.has(decode_key.as_slice()) {
        return None;
    }
    let filter = mask.dict.get(filter_key.as_slice())?;
    let class = classify_filter(doc, filter);
    if class == FilterClass::DctOnly {
        let decoded = decode_jpeg(mask.content.as_slice(), target_w, target_h, codec);
        let ghost target = (target_w, target_h);
        proof {
            assert(may_decode(*codec, mask@.content, target.0, target.1, opt_raster(decoded)));
            assert(mask_jpeg(*codec, mask@.content, target, if_gray(opt_raster(decoded))));
        }
        let img = decoded?;
        if img.gray {
            Some(img)
        } else {
            None
        }
    } else if class == FilterClass::FlateOnly {
        if flate_channels(doc, &mask.dict)? != 1 {
            return None;
        }
        let layout = flate_encoding(&mask.dict, 1, px_w)?;
        let pixels = crate::images::read_flate_samples(
            mask.content.as_slice(),
            layout,
            1,
            px_w,
            px_h,
        )?;
        Some(Raster { width: px_w, height: px_h, gray: true, pixels })
    } else {
        None
    }
}

/// The payload of gray samples.
fn make_mask(raw: &Vec<u8>) -> (r: Option<Vec<u8>>)
    ensures
        opt_view(r) == mask_form(raw@),
{
    if raw.len() == usize::MAX {
        return None;
    }
    let out = deflate_level9(raw.as_slice())?;
    let back = inflate_capped(out.as_slice(), raw.len())?;
    if crate::bytes::same_bytes(back.as_slice(), raw.as_slice()) {
        Some(out)
    } else {
        None
    }
}

/// Resamples a soft mask to the size of its image and compresses it as plain
/// Flate rows. `None` on any doubt.
pub fn plan_mask_resample<
    D: Fn(&[u8], u32, u32) -> Option<Raster>,
    E: Fn(&Raster, u8) -> Option<Vec<u8>>,
    J: Fn(&[u8]) -> Option<Vec<u8>>,
>(
    doc: &Pdf,
    mask: &PdfStream,
    px_w: u32,
    px_h: u32,
    target_w: u32,
    target_h: u32,
    codec: &Codec<D, E, J>,
) -> (r: Option<Vec<u8>>)
    requires
        doc.wf(),
        ready(*codec),
    ensures
        mask_outcome(
            *codec,
            doc@.objects,
            mask@,
            (px_w, px_h),
            (target_w, target_h),
            opt_view(r),
        ),
{
    let decoded = decode_mask(doc, mask, px_w, px_h, target_w, target_h, codec);
    proof {
        assert(mask_decoded(
            *codec,
            doc@.objects,
            mask@,
            (px_w, px_h),
            (target_w, target_h),
            opt_raster(decoded),
        ));
    }
    let img = decoded?;
    let ghost i = img@;
    let ghost target = (target_w, target_h);
    if !can_resize(img.width, img.height, target_w, target_h) {
        proof {
            assert(mask_shrunk(i, target, None));
        }
        return None;
    }
    let small = resize(img, target_w, target_h, Kernel::Triangle);
    let r = make_mask(&small.pixels);
    proof {
        assert(may_resize(i, target.0, target.1, Kernel::Triangle, small@));
        assert(mask_shrunk(i, target, opt_view(r)));
    }
    r
}

} // verus!
