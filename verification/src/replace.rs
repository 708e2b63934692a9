//! Replacing images: the plan for each, and carrying it out.

use crate::flate::opt_view;
use crate::images::flate_form;
use crate::lookup::{find_target, get_object, lookup, lookup_index};
use crate::minify::take_stream;
use crate::names::{DCT_DECODE, DECODE_PARMS, FILTER, FLATE_DECODE, HEIGHT, SMASK, WIDTH};
use crate::object::{
    dict_get, dict_remove, dict_set, Dict, DocumentValue, ObjectId, Pdf, PdfObject, PdfStream,
    StreamValue, Value,
};
use crate::placements::{painted, painted_images, Placements, PlacementsValue};
use crate::plan::{
    choose_route, eligible_smask, flate_jpeg_outcome, flate_outcome, image_size, mask_outcome, pays,
    plan_dct, plan_dct_requant, plan_dct_resize_verified, plan_flate, plan_flate_to_jpeg,
    plan_mask_resample, read_image_size, requant_outcome, resize_outcome, route_of, saves_enough,
    usable_mask, ImageOptions, Route, MASK_DICT_OVERHEAD,
};
use crate::raster::{ready, Codec, Raster};
use crate::store::{flate_name, set_content, with_content};
use vstd::prelude::*;

verus! {

// --- what a replacement is --------------------------------------------------------------

/// What a new payload asks of the dictionary, besides the size.
pub enum DictUpdate {
    /// Still a JPEG: nothing.
    Dct,
    /// Flate rows with these parameters, or none.
    Flate(Option<Dict>),
    /// A Flate payload that became a JPEG. The color space still describes
    /// it, since the number of channels is kept.
    FlateToJpeg,
}

/// The new payload of a soft mask: plain Flate rows of eight-bit gray.
pub struct MaskReplacement {
    pub mask_id: ObjectId,
    pub content: Vec<u8>,
    pub width: i64,
    pub height: i64,
}

/// A planned replacement of an image, and of its soft mask where the two
/// change together.
pub struct Replacement {
    pub id: ObjectId,
    pub content: Vec<u8>,
    pub width: i64,
    pub height: i64,
    pub dict_update: DictUpdate,
    pub smask: Option<MaskReplacement>,
}

/// The content of a [`DictUpdate`].
pub enum UpdateValue {
    Dct,
    Flate(Option<Seq<(Seq<u8>, Value)>>),
    FlateToJpeg,
}

/// The content of a [`MaskReplacement`].
pub struct MaskValue {
    pub mask_id: ObjectId,
    pub content: Seq<u8>,
    pub width: i64,
    pub height: i64,
}

/// The content of a [`Replacement`].
pub struct ReplacementValue {
    pub id: ObjectId,
    pub content: Seq<u8>,
    pub width: i64,
    pub height: i64,
    pub dict_update: UpdateValue,
    pub smask: Option<MaskValue>,
}

impl View for DictUpdate {
    type V = UpdateValue;

    open spec fn view(&self) -> UpdateValue {
        match *self {
            DictUpdate::Dct => UpdateValue::Dct,
            DictUpdate::Flate(p) => UpdateValue::Flate(
                match p {
                    Some(d) => Some(d@),
                    None => None,
                },
            ),
            DictUpdate::FlateToJpeg => UpdateValue::FlateToJpeg,
        }
    }
}

impl View for MaskReplacement {
    type V = MaskValue;

    open spec fn view(&self) -> MaskValue {
        MaskValue {
            mask_id: self.mask_id,
            content: self.content@,
            width: self.width,
            height: self.height,
        }
    }
}

impl View for Replacement {
    type V = ReplacementValue;

    open spec fn view(&self) -> ReplacementValue {
        ReplacementValue {
            id: self.id,
            content: self.content@,
            width: self.width,
            height: self.height,
            dict_update: self.dict_update@,
            smask: match self.smask {
                Some(m) => Some(m@),
                None => None,
            },
        }
    }
}

// --- planning ---------------------------------------------------------------------------------

/// What an image is to become: whether it has more pixels than its largest
/// placement needs, and how many it needs.
#[derive(Debug, Clone, Copy, PartialEq, Eq, Structural)]
pub struct Geometry {
    pub over_resolution: bool,
    pub target_w: u32,
    pub target_h: u32,
}

/// A replacement of the image's own size, where the new payload is there and
/// saves at least five percent.
pub open spec fn own_size_form(
    id: ObjectId,
    px: (u32, u32),
    old: int,
    out: Option<Seq<u8>>,
    dict_update: UpdateValue,
) -> Option<ReplacementValue> {
    match out {
        Some(content) => if saves_enough(content.len() as int, old) {
            Some(
                ReplacementValue {
                    id,
                    content,
                    width: px.0 as i64,
                    height: px.1 as i64,
                    dict_update,
                    smask: None,
                },
            )
        } else {
            None
        },
        None => None,
    }
}

/// A replacement of the target size, where the new payload is there and
/// smaller.
pub open spec fn new_size_form(
    id: ObjectId,
    g: Geometry,
    old: int,
    base: Option<(Seq<u8>, UpdateValue)>,
) -> Option<ReplacementValue> {
    match base {
        Some((content, dict_update)) => if content.len() < old {
            Some(
                ReplacementValue {
                    id,
                    content,
                    width: g.target_w as i64,
                    height: g.target_h as i64,
                    dict_update,
                    smask: None,
                },
            )
        } else {
            None
        },
        None => None,
    }
}

/// A pair of image and mask saves at least five percent, what the mask's
/// dictionary gains included.
pub open spec fn pair_pays(base: int, mask: int, old: int, old_mask: int) -> bool {
    saves_enough(base + mask + MASK_DICT_OVERHEAD, old + old_mask)
}

/// A replacement of an image and its mask together, where the pair pays.
pub open spec fn pair_form(
    id: ObjectId,
    mask_id: ObjectId,
    g: Geometry,
    old: int,
    old_mask: int,
    base: (Seq<u8>, UpdateValue),
    mask: Seq<u8>,
) -> Option<ReplacementValue> {
    if mask.len() + MASK_DICT_OVERHEAD <= usize::MAX && pair_pays(
        base.0.len() as int,
        mask.len() as int,
        old,
        old_mask,
    ) {
        Some(
            ReplacementValue {
                id,
                content: base.0,
                width: g.target_w as i64,
                height: g.target_h as i64,
                dict_update: base.1,
                smask: Some(
                    MaskValue {
                        mask_id,
                        content: mask,
                        width: g.target_w as i64,
                        height: g.target_h as i64,
                    },
                ),
            },
        )
    } else {
        None
    }
}

/// What encoding a JPEG anew at its own size may give.
pub open spec fn requant_replacement<
    D: Fn(&[u8], u32, u32) -> Option<Raster>,
    E: Fn(&Raster, u8) -> Option<Vec<u8>>,
    J: Fn(&[u8]) -> Option<Vec<u8>>,
>(
    codec: Codec<D, E, J>,
    s: StreamValue,
    quality: u8,
    id: ObjectId,
    px: (u32, u32),
    r: Option<ReplacementValue>,
) -> bool {
    exists|out: Option<Seq<u8>>| #[trigger]
        requant_outcome(codec, s.content, quality, px, out) && r == own_size_form(
            id,
            px,
            s.content.len() as int,
            out,
            UpdateValue::Dct,
        )
}

/// What turning a Flate image into a JPEG of its own size may give.
pub open spec fn lossy_replacement<
    D: Fn(&[u8], u32, u32) -> Option<Raster>,
    E: Fn(&Raster, u8) -> Option<Vec<u8>>,
    J: Fn(&[u8]) -> Option<Vec<u8>>,
>(
    codec: Codec<D, E, J>,
    objects: Seq<(ObjectId, Value)>,
    s: StreamValue,
    quality: u8,
    id: ObjectId,
    px: (u32, u32),
    r: Option<ReplacementValue>,
) -> bool {
    exists|out: Option<Seq<u8>>| #[trigger]
        flate_jpeg_outcome(codec, objects, s, quality, px, px, out) && r == own_size_form(
            id,
            px,
            s.content.len() as int,
            out,
            UpdateValue::FlateToJpeg,
        )
}

/// A JPEG as a base.
pub open spec fn jpeg_base(out: Option<Seq<u8>>) -> Option<(Seq<u8>, UpdateValue)> {
    match out {
        Some(o) => Some((o, UpdateValue::Dct)),
        None => None,
    }
}

/// What resizing a JPEG may give.
pub open spec fn resize_replacement<
    D: Fn(&[u8], u32, u32) -> Option<Raster>,
    E: Fn(&Raster, u8) -> Option<Vec<u8>>,
    J: Fn(&[u8]) -> Option<Vec<u8>>,
>(
    codec: Codec<D, E, J>,
    s: StreamValue,
    quality: u8,
    id: ObjectId,
    g: Geometry,
    r: Option<ReplacementValue>,
) -> bool {
    exists|out: Option<Seq<u8>>| #[trigger]
        resize_outcome(codec, s.content, quality, (g.target_w, g.target_h), false, out) && r
            == new_size_form(id, g, s.content.len() as int, jpeg_base(out))
}

/// The better of a Flate form and a JPEG of the same pixels.
pub open spec fn better_form(
    flate: Option<(Seq<u8>, Option<Seq<(Seq<u8>, Value)>>)>,
    jpeg: Option<Seq<u8>>,
) -> Option<(Seq<u8>, UpdateValue)> {
    match (flate, jpeg) {
        (Some(f), Some(j)) => if j.len() < f.0.len() {
            Some((j, UpdateValue::FlateToJpeg))
        } else {
            Some((f.0, UpdateValue::Flate(f.1)))
        },
        (Some(f), None) => Some((f.0, UpdateValue::Flate(f.1))),
        (None, Some(j)) => Some((j, UpdateValue::FlateToJpeg)),
        (None, None) => None,
    }
}

/// A JPEG that competes with a Flate form: none, unless it may.
pub open spec fn competitor<
    D: Fn(&[u8], u32, u32) -> Option<Raster>,
    E: Fn(&Raster, u8) -> Option<Vec<u8>>,
    J: Fn(&[u8]) -> Option<Vec<u8>>,
>(
    codec: Codec<D, E, J>,
    objects: Seq<(ObjectId, Value)>,
    s: StreamValue,
    quality: u8,
    px: (u32, u32),
    g: Geometry,
    may_compete: bool,
    jpeg: Option<Seq<u8>>,
) -> bool {
    if may_compete {
        flate_jpeg_outcome(codec, objects, s, quality, px, (g.target_w, g.target_h), jpeg)
    } else {
        jpeg is None
    }
}

/// A JPEG may compete with a Flate form: with consent, and unless that form is
/// there and not smaller than the original.
pub open spec fn flate_contested(
    o: ImageOptions,
    flate: Option<(Seq<u8>, Option<Seq<(Seq<u8>, Value)>>)>,
    old: int,
) -> bool {
    o.allow_lossy && !(flate is Some && (flate->0).0.len() >= old)
}

/// A JPEG may compete with a Flate form that has a mask: with consent, and
/// where the lossless pair pays.
pub open spec fn pair_contested(
    o: ImageOptions,
    flate: Seq<u8>,
    mask: Seq<u8>,
    old: int,
    old_mask: int,
) -> bool {
    o.allow_lossy && pair_pays(flate.len() as int, mask.len() as int, old, old_mask)
}

/// What resizing a Flate image may give. With consent a JPEG of the same size
/// competes, unless the lossless form is there and not smaller than the
/// original: consent to encode anew is no consent to reopen that.
pub open spec fn flate_replacement<
    D: Fn(&[u8], u32, u32) -> Option<Raster>,
    E: Fn(&Raster, u8) -> Option<Vec<u8>>,
    J: Fn(&[u8]) -> Option<Vec<u8>>,
>(
    codec: Codec<D, E, J>,
    objects: Seq<(ObjectId, Value)>,
    s: StreamValue,
    id: ObjectId,
    px: (u32, u32),
    g: Geometry,
    o: ImageOptions,
    r: Option<ReplacementValue>,
) -> bool {
    exists|flate: Option<(Seq<u8>, Option<Seq<(Seq<u8>, Value)>>)>, jpeg: Option<Seq<u8>>|
        {
            &&& #[trigger] flate_outcome(objects, s, px, (g.target_w, g.target_h), flate)
            &&& #[trigger] competitor(
                codec,
                objects,
                s,
                o.quality,
                px,
                g,
                flate_contested(o, flate, s.content.len() as int),
                jpeg,
            )
            &&& r == new_size_form(id, g, s.content.len() as int, better_form(flate, jpeg))
        }
}

/// What resizing a JPEG and its soft mask together may give.
pub open spec fn pair_replacement<
    D: Fn(&[u8], u32, u32) -> Option<Raster>,
    E: Fn(&Raster, u8) -> Option<Vec<u8>>,
    J: Fn(&[u8]) -> Option<Vec<u8>>,
>(
    codec: Codec<D, E, J>,
    objects: Seq<(ObjectId, Value)>,
    s: StreamValue,
    quality: u8,
    ids: (ObjectId, ObjectId),
    px: (u32, u32),
    g: Geometry,
    r: Option<ReplacementValue>,
) -> bool {
    exists|base: Option<Seq<u8>>| #[trigger]
        resize_outcome(codec, s.content, quality, (g.target_w, g.target_h), true, base) && match (
            base,
            lookup(objects, ids.1),
        ) {
            (Some(b), Some(Value::Stream(m))) => pair_with_mask(
                codec,
                objects,
                s,
                m,
                ids,
                px,
                g,
                (b, UpdateValue::Dct),
                r,
            ),
            _ => r is None,
        }
}

/// What a base and a soft mask that is resampled may give.
pub open spec fn pair_with_mask<
    D: Fn(&[u8], u32, u32) -> Option<Raster>,
    E: Fn(&Raster, u8) -> Option<Vec<u8>>,
    J: Fn(&[u8]) -> Option<Vec<u8>>,
>(
    codec: Codec<D, E, J>,
    objects: Seq<(ObjectId, Value)>,
    s: StreamValue,
    m: StreamValue,
    ids: (ObjectId, ObjectId),
    px: (u32, u32),
    g: Geometry,
    base: (Seq<u8>, UpdateValue),
    r: Option<ReplacementValue>,
) -> bool {
    exists|mask: Option<Seq<u8>>| #[trigger]
        mask_outcome(codec, objects, m, px, (g.target_w, g.target_h), mask) && r == match mask {
            Some(new) => pair_form(
                ids.0,
                ids.1,
                g,
                s.content.len() as int,
                m.content.len() as int,
                base,
                new,
            ),
            None => None,
        }
}

/// What resizing a Flate image and its soft mask together may give. With
/// consent a JPEG of the same size competes, but only where the lossless pair
/// would pay: a resize that it declines is not worth doing.
pub open spec fn flate_pair_replacement<
    D: Fn(&[u8], u32, u32) -> Option<Raster>,
    E: Fn(&Raster, u8) -> Option<Vec<u8>>,
    J: Fn(&[u8]) -> Option<Vec<u8>>,
>(
    codec: Codec<D, E, J>,
    objects: Seq<(ObjectId, Value)>,
    s: StreamValue,
    ids: (ObjectId, ObjectId),
    px: (u32, u32),
    g: Geometry,
    o: ImageOptions,
    r: Option<ReplacementValue>,
) -> bool {
    exists|flate: Option<(Seq<u8>, Option<Seq<(Seq<u8>, Value)>>)>| #[trigger]
        flate_outcome(objects, s, px, (g.target_w, g.target_h), flate) && match (
            flate,
            lookup(objects, ids.1),
        ) {
            (Some(f), Some(Value::Stream(m))) => flate_pair_with_mask(
                codec,
                objects,
                s,
                m,
                ids,
                px,
                g,
                o,
                f,
                r,
            ),
            _ => r is None,
        }
}

/// What a Flate form and a soft mask that is resampled may give.
pub open spec fn flate_pair_with_mask<
    D: Fn(&[u8], u32, u32) -> Option<Raster>,
    E: Fn(&Raster, u8) -> Option<Vec<u8>>,
    J: Fn(&[u8]) -> Option<Vec<u8>>,
>(
    codec: Codec<D, E, J>,
    objects: Seq<(ObjectId, Value)>,
    s: StreamValue,
    m: StreamValue,
    ids: (ObjectId, ObjectId),
    px: (u32, u32),
    g: Geometry,
    o: ImageOptions,
    flate: (Seq<u8>, Option<Seq<(Seq<u8>, Value)>>),
    r: Option<ReplacementValue>,
) -> bool {
    exists|mask: Option<Seq<u8>>| #[trigger]
        mask_outcome(codec, objects, m, px, (g.target_w, g.target_h), mask) && match mask {
            None => r is None,
            Some(new) => flate_pair_final(codec, objects, s, m, ids, px, g, o, flate, new, r),
        }
}

/// What a Flate form and a resampled soft mask may give.
pub open spec fn flate_pair_final<
    D: Fn(&[u8], u32, u32) -> Option<Raster>,
    E: Fn(&Raster, u8) -> Option<Vec<u8>>,
    J: Fn(&[u8]) -> Option<Vec<u8>>,
>(
    codec: Codec<D, E, J>,
    objects: Seq<(ObjectId, Value)>,
    s: StreamValue,
    m: StreamValue,
    ids: (ObjectId, ObjectId),
    px: (u32, u32),
    g: Geometry,
    o: ImageOptions,
    flate: (Seq<u8>, Option<Seq<(Seq<u8>, Value)>>),
    mask: Seq<u8>,
    r: Option<ReplacementValue>,
) -> bool {
    exists|jpeg: Option<Seq<u8>>| #[trigger]
        competitor(
            codec,
            objects,
            s,
            o.quality,
            px,
            g,
            pair_contested(
                o,
                flate.0,
                mask,
                s.content.len() as int,
                m.content.len() as int,
            ),
            jpeg,
        ) && r == pair_form(
            ids.0,
            ids.1,
            g,
            s.content.len() as int,
            m.content.len() as int,
            better_form(Some(flate), jpeg)->0,
            mask,
        )
}

/// A JPEG encoded anew at its own size.
pub fn plan_requant_replacement<
    D: Fn(&[u8], u32, u32) -> Option<Raster>,
    E: Fn(&Raster, u8) -> Option<Vec<u8>>,
    J: Fn(&[u8]) -> Option<Vec<u8>>,
>(
    stream: &PdfStream,
    quality: u8,
    id: ObjectId,
    px_w: u32,
    px_h: u32,
    codec: &Codec<D, E, J>,
) -> (r: Option<Replacement>)
    requires
        ready(*codec),
    ensures
        requant_replacement(*codec, stream@, quality, id, (px_w, px_h), replacement_view(r)),
{
    let planned = plan_dct_requant(stream.content.as_slice(), quality, px_w, px_h, codec);
    proof {
        assert(requant_outcome(
            *codec,
            stream@.content,
            quality,
            (px_w, px_h),
            opt_view(planned),
        ));
    }
    let out = planned?;
    if !pays(out.len(), 0, stream.content.len(), 0) {
        return None;
    }
    Some(
        Replacement {
            id,
            content: out,
            width: px_w as i64,
            height: px_h as i64,
            dict_update: DictUpdate::Dct,
            smask: None,
        },
    )
}

/// A Flate image turned into a JPEG of its own size.
pub fn plan_flate_lossy_requant_replacement<
    D: Fn(&[u8], u32, u32) -> Option<Raster>,
    E: Fn(&Raster, u8) -> Option<Vec<u8>>,
    J: Fn(&[u8]) -> Option<Vec<u8>>,
>(
    doc: &Pdf,
    stream: &PdfStream,
    quality: u8,
    id: ObjectId,
    px_w: u32,
    px_h: u32,
    codec: &Codec<D, E, J>,
) -> (r: Option<Replacement>)
    requires
        doc.wf(),
        ready(*codec),
    ensures
        lossy_replacement(
            *codec,
            doc@.objects,
            stream@,
            quality,
            id,
            (px_w, px_h),
            replacement_view(r),
        ),
{
    let planned = plan_flate_to_jpeg(doc, stream, quality, px_w, px_h, px_w, px_h, codec);
    proof {
        assert(flate_jpeg_outcome(
            *codec,
            doc@.objects,
            stream@,
            quality,
            (px_w, px_h),
            (px_w, px_h),
            opt_view(planned),
        ));
    }
    let out = planned?;
    if !pays(out.len(), 0, stream.content.len(), 0) {
        return None;
    }
    Some(
        Replacement {
            id,
            content: out,
            width: px_w as i64,
            height: px_h as i64,
            dict_update: DictUpdate::FlateToJpeg,
            smask: None,
        },
    )
}

/// The stream `id`.
fn get_stream(doc: &Pdf, id: ObjectId) -> (r: Option<&PdfStream>)
    requires
        doc.wf(),
    ensures
        match r {
            Some(s) => lookup(doc@.objects, id) == Some(Value::Stream(s@)),
            None => match lookup(doc@.objects, id) {
                Some(Value::Stream(_)) => false,
                _ => true,
            },
        },
{
    match get_object(doc, id) {
        Some(PdfObject::Stream(s)) => Some(s),
        _ => None,
    }
}

/// A replacement of an image and its mask together, where the pair pays.
fn make_pair(
    ids: (ObjectId, ObjectId),
    g: Geometry,
    old: usize,
    old_mask: usize,
    content: Vec<u8>,
    dict_update: DictUpdate,
    mask: Vec<u8>,
) -> (r: Option<Replacement>)
    ensures
        replacement_view(r) == pair_form(
            ids.0,
            ids.1,
            g,
            old as int,
            old_mask as int,
            (content@, dict_update@),
            mask@,
        ),
{
    if mask.len() > usize::MAX - MASK_DICT_OVERHEAD {
        return None;
    }
    if !pays(content.len(), mask.len() + MASK_DICT_OVERHEAD, old, old_mask) {
        return None;
    }
    Some(
        Replacement {
            id: ids.0,
            content,
            width: g.target_w as i64,
            height: g.target_h as i64,
            dict_update,
            smask: Some(
                MaskReplacement {
                    mask_id: ids.1,
                    content: mask,
                    width: g.target_w as i64,
                    height: g.target_h as i64,
                },
            ),
        },
    )
}

/// A JPEG and its soft mask resized together, or not at all.
pub fn plan_smask_pair_downsample<
    D: Fn(&[u8], u32, u32) -> Option<Raster>,
    E: Fn(&Raster, u8) -> Option<Vec<u8>>,
    J: Fn(&[u8]) -> Option<Vec<u8>>,
>(
    doc: &Pdf,
    id: ObjectId,
    mask_id: ObjectId,
    stream: &PdfStream,
    px: (u32, u32),
    g: Geometry,
    quality: u8,
    codec: &Codec<D, E, J>,
) -> (r: Option<Replacement>)
    requires
        doc.wf(),
        ready(*codec),
    ensures
        pair_replacement(
            *codec,
            doc@.objects,
            stream@,
            quality,
            (id, mask_id),
            px,
            g,
            replacement_view(r),
        ),
{
    let planned = plan_dct_resize_verified(
        stream.content.as_slice(),
        quality,
        g.target_w,
        g.target_h,
        codec,
    );
    proof {
        assert(resize_outcome(
            *codec,
            stream@.content,
            quality,
            (g.target_w, g.target_h),
            true,
            opt_view(planned),
        ));
    }
    let base = planned?;
    let mask = get_stream(doc, mask_id)?;
    let resampled = plan_mask_resample(doc, mask, px.0, px.1, g.target_w, g.target_h, codec);
    let ghost seen = opt_view(resampled);
    proof {
        assert(mask_outcome(
            *codec,
            doc@.objects,
            mask@,
            px,
            (g.target_w, g.target_h),
            seen,
        ));
    }
    let ghost start = (base@, UpdateValue::Dct);
    let r = match resampled {
        Some(new) => make_pair(
            (id, mask_id),
            g,
            stream.content.len(),
            mask.content.len(),
            base,
            DictUpdate::Dct,
            new,
        ),
        None => None,
    };
    proof {
        assert(pair_with_mask(
            *codec,
            doc@.objects,
            stream@,
            mask@,
            (id, mask_id),
            px,
            g,
            start,
            replacement_view(r),
        ));
    }
    r
}

/// The better of a Flate form and a JPEG of the same pixels.
fn better_base(flate: Option<(Vec<u8>, Option<Dict>)>, jpeg: Option<Vec<u8>>) -> (r: Option<
    (Vec<u8>, DictUpdate),
>)
    ensures
        match r {
            Some(x) => better_form(flate_form(flate), opt_view(jpeg)) == Some((x.0@, x.1@)),
            None => better_form(flate_form(flate), opt_view(jpeg)) is None,
        },
{
    match (flate, jpeg) {
        (Some(f), Some(j)) => {
            if j.len() < f.0.len() {
                Some((j, DictUpdate::FlateToJpeg))
            } else {
                Some((f.0, DictUpdate::Flate(f.1)))
            }
        },
        (Some(f), None) => Some((f.0, DictUpdate::Flate(f.1))),
        (None, Some(j)) => Some((j, DictUpdate::FlateToJpeg)),
        (None, None) => None,
    }
}

/// A JPEG that competes with a Flate form, where it may.
fn plan_competitor<
    D: Fn(&[u8], u32, u32) -> Option<Raster>,
    E: Fn(&Raster, u8) -> Option<Vec<u8>>,
    J: Fn(&[u8]) -> Option<Vec<u8>>,
>(
    doc: &Pdf,
    stream: &PdfStream,
    quality: u8,
    px: (u32, u32),
    g: Geometry,
    may_compete: bool,
    codec: &Codec<D, E, J>,
) -> (r: Option<Vec<u8>>)
    requires
        doc.wf(),
        ready(*codec),
    ensures
        competitor(
            *codec,
            doc@.objects,
            stream@,
            quality,
            px,
            g,
            may_compete,
            opt_view(r),
        ),
{
    if may_compete {
        plan_flate_to_jpeg(doc, stream, quality, px.0, px.1, g.target_w, g.target_h, codec)
    } else {
        None
    }
}

/// The pair of a Flate form, or a JPEG that is better, and a resampled mask.
fn finish_flate_pair<
    D: Fn(&[u8], u32, u32) -> Option<Raster>,
    E: Fn(&Raster, u8) -> Option<Vec<u8>>,
    J: Fn(&[u8]) -> Option<Vec<u8>>,
>(
    doc: &Pdf,
    ids: (ObjectId, ObjectId),
    stream: &PdfStream,
    mask: &PdfStream,
    px: (u32, u32),
    g: Geometry,
    o: ImageOptions,
    flate: (Vec<u8>, Option<Dict>),
    new: Vec<u8>,
    codec: &Codec<D, E, J>,
) -> (r: Option<Replacement>)
    requires
        doc.wf(),
        ready(*codec),
    ensures
        flate_pair_final(
            *codec,
            doc@.objects,
            stream@,
            mask@,
            ids,
            px,
            g,
            o,
            flate_form(Some(flate))->0,
            new@,
            replacement_view(r),
        ),
{
    let ghost f = flate_form(Some(flate))->0;
    let lossless_pays = pays_with_mask(
        flate.0.len(),
        new.len(),
        stream.content.len(),
        mask.content.len(),
    );
    let jpeg = plan_competitor(doc, stream, o.quality, px, g, o.allow_lossy && lossless_pays, codec);
    let ghost seen = opt_view(jpeg);
    proof {
        assert(competitor(
            *codec,
            doc@.objects,
            stream@,
            o.quality,
            px,
            g,
            pair_contested(
                o,
                f.0,
                new@,
                stream@.content.len() as int,
                mask@.content.len() as int,
            ),
            seen,
        ));
    }
    match better_base(Some(flate), jpeg) {
        Some((content, dict_update)) => make_pair(
            ids,
            g,
            stream.content.len(),
            mask.content.len(),
            content,
            dict_update,
            new,
        ),
        None => None,
    }
}

/// Whether a pair of image and mask pays.
fn pays_with_mask(base: usize, mask: usize, old: usize, old_mask: usize) -> (r: bool)
    ensures
        r == pair_pays(base as int, mask as int, old as int, old_mask as int),
{
    (base as u128 + mask as u128 + MASK_DICT_OVERHEAD as u128) * 100 < (old as u128
        + old_mask as u128) * 95
}

/// A Flate image and its soft mask resized together, or not at all. With
/// consent a JPEG of the same size competes, but only where the lossless pair
/// would pay: a resize that it declines is not worth doing.
pub fn plan_flate_smask_pair_downsample<
    D: Fn(&[u8], u32, u32) -> Option<Raster>,
    E: Fn(&Raster, u8) -> Option<Vec<u8>>,
    J: Fn(&[u8]) -> Option<Vec<u8>>,
>(
    doc: &Pdf,
    id: ObjectId,
    mask_id: ObjectId,
    stream: &PdfStream,
    px: (u32, u32),
    g: Geometry,
    o: ImageOptions,
    codec: &Codec<D, E, J>,
) -> (r: Option<Replacement>)
    requires
        doc.wf(),
        g.target_w > 0,
        g.target_h > 0,
        ready(*codec),
    ensures
        flate_pair_replacement(
            *codec,
            doc@.objects,
            stream@,
            (id, mask_id),
            px,
            g,
            o,
            replacement_view(r),
        ),
{
    let planned = plan_flate(doc, stream, px.0, px.1, g.target_w, g.target_h);
    proof {
        assert(flate_outcome(
            doc@.objects,
            stream@,
            px,
            (g.target_w, g.target_h),
            flate_form(planned),
        ));
    }
    let flate = planned?;
    let mask = get_stream(doc, mask_id)?;
    let resampled = plan_mask_resample(doc, mask, px.0, px.1, g.target_w, g.target_h, codec);
    let ghost seen = opt_view(resampled);
    let ghost f = flate_form(Some(flate))->0;
    proof {
        assert(mask_outcome(
            *codec,
            doc@.objects,
            mask@,
            px,
            (g.target_w, g.target_h),
            seen,
        ));
    }
    let r = match resampled {
        Some(new) => finish_flate_pair(
            doc,
            (id, mask_id),
            stream,
            mask,
            px,
            g,
            o,
            flate,
            new,
            codec,
        ),
        None => None,
    };
    proof {
        assert(flate_pair_with_mask(
            *codec,
            doc@.objects,
            stream@,
            mask@,
            (id, mask_id),
            px,
            g,
            o,
            f,
            replacement_view(r),
        ));
    }
    r
}

/// A replacement of the target size, where the new payload is smaller.
fn make_resized(
    id: ObjectId,
    g: Geometry,
    old: usize,
    base: Option<(Vec<u8>, DictUpdate)>,
) -> (r: Option<Replacement>)
    ensures
        replacement_view(r) == new_size_form(
            id,
            g,
            old as int,
            match base {
                Some(x) => Some((x.0@, x.1@)),
                None => None,
            },
        ),
{
    let (content, dict_update) = base?;
    if content.len() >= old {
        return None;
    }
    Some(
        Replacement {
            id,
            content,
            width: g.target_w as i64,
            height: g.target_h as i64,
            dict_update,
            smask: None,
        },
    )
}

/// A JPEG resized.
fn plan_resize_jpeg<
    D: Fn(&[u8], u32, u32) -> Option<Raster>,
    E: Fn(&Raster, u8) -> Option<Vec<u8>>,
    J: Fn(&[u8]) -> Option<Vec<u8>>,
>(
    stream: &PdfStream,
    id: ObjectId,
    g: Geometry,
    quality: u8,
    codec: &Codec<D, E, J>,
) -> (r: Option<Replacement>)
    requires
        ready(*codec),
    ensures
        resize_replacement(*codec, stream@, quality, id, g, replacement_view(r)),
{
    let planned = plan_dct(stream.content.as_slice(), quality, g.target_w, g.target_h, codec);
    let ghost seen = opt_view(planned);
    proof {
        assert(resize_outcome(
            *codec,
            stream@.content,
            quality,
            (g.target_w, g.target_h),
            false,
            seen,
        ));
    }
    let base = match planned {
        Some(out) => Some((out, DictUpdate::Dct)),
        None => None,
    };
    make_resized(id, g, stream.content.len(), base)
}

/// A Flate image resized.
fn plan_resize_flate<
    D: Fn(&[u8], u32, u32) -> Option<Raster>,
    E: Fn(&Raster, u8) -> Option<Vec<u8>>,
    J: Fn(&[u8]) -> Option<Vec<u8>>,
>(
    doc: &Pdf,
    stream: &PdfStream,
    id: ObjectId,
    px: (u32, u32),
    g: Geometry,
    o: ImageOptions,
    codec: &Codec<D, E, J>,
) -> (r: Option<Replacement>)
    requires
        doc.wf(),
        g.target_w > 0,
        g.target_h > 0,
        ready(*codec),
    ensures
        flate_replacement(*codec, doc@.objects, stream@, id, px, g, o, replacement_view(r)),
{
    let lossless = plan_flate(doc, stream, px.0, px.1, g.target_w, g.target_h);
    let declined = match &lossless {
        Some(f) => f.0.len() >= stream.content.len(),
        None => false,
    };
    let jpeg = plan_competitor(doc, stream, o.quality, px, g, o.allow_lossy && !declined, codec);
    let ghost flate = flate_form(lossless);
    let ghost seen = opt_view(jpeg);
    proof {
        assert(flate_outcome(doc@.objects, stream@, px, (g.target_w, g.target_h), flate));
        assert(competitor(
            *codec,
            doc@.objects,
            stream@,
            o.quality,
            px,
            g,
            flate_contested(o, flate, stream@.content.len() as int),
            seen,
        ));
    }
    make_resized(id, g, stream.content.len(), better_base(lossless, jpeg))
}

/// `measure` may give `g` for the image `id` of this size.
pub open spec fn may_measure<M: Fn(&Placements, ObjectId, u32, u32) -> Option<Geometry>>(
    measure: M,
    placements: PlacementsValue,
    id: ObjectId,
    px: (u32, u32),
    g: Option<Geometry>,
) -> bool {
    exists|p: &Placements| p@ == placements && #[trigger] measure.ensures((p, id, px.0, px.1), g)
}

/// What the route of an image may give.
pub open spec fn route_outcome<
    D: Fn(&[u8], u32, u32) -> Option<Raster>,
    E: Fn(&Raster, u8) -> Option<Vec<u8>>,
    J: Fn(&[u8]) -> Option<Vec<u8>>,
>(
    codec: Codec<D, E, J>,
    objects: Seq<(ObjectId, Value)>,
    s: StreamValue,
    id: ObjectId,
    px: (u32, u32),
    g: Geometry,
    o: ImageOptions,
    r: Option<ReplacementValue>,
) -> bool {
    let mask = match dict_get(s.dict, SMASK@) {
        Some(smask) => usable_mask(objects, smask, true),
        None => None,
    };
    match route_of(objects, s, g.over_resolution, o) {
        Route::Skip => r is None,
        Route::Requant => requant_replacement(codec, s, o.quality, id, px, r),
        Route::FlateToJpeg => lossy_replacement(codec, objects, s, o.quality, id, px, r),
        Route::ResizeJpeg => resize_replacement(codec, s, o.quality, id, g, r),
        Route::ResizeFlate => flate_replacement(codec, objects, s, id, px, g, o, r),
        Route::ResizeJpegPair => match mask {
            Some(m) => pair_replacement(codec, objects, s, o.quality, (id, m), px, g, r),
            None => r is None,
        },
        Route::ResizeFlatePair => match mask {
            Some(m) => flate_pair_replacement(codec, objects, s, (id, m), px, g, o, r),
            None => r is None,
        },
    }
}

/// The geometry, over resolution only where both sides shrink: no image is
/// ever scaled up.
pub open spec fn shrinking(g: Geometry, px: (u32, u32)) -> Geometry {
    Geometry {
        over_resolution: g.over_resolution && g.target_w < px.0 && g.target_h < px.1,
        ..g
    }
}

/// What planning an image of this size may give: nothing, where it was not
/// measured, and else what its route gives.
pub open spec fn measured_outcome<
    M: Fn(&Placements, ObjectId, u32, u32) -> Option<Geometry>,
    D: Fn(&[u8], u32, u32) -> Option<Raster>,
    E: Fn(&Raster, u8) -> Option<Vec<u8>>,
    J: Fn(&[u8]) -> Option<Vec<u8>>,
>(
    measure: M,
    codec: Codec<D, E, J>,
    placements: PlacementsValue,
    objects: Seq<(ObjectId, Value)>,
    s: StreamValue,
    id: ObjectId,
    px: (u32, u32),
    o: ImageOptions,
    r: Option<ReplacementValue>,
) -> bool {
    exists|g: Option<Geometry>| #[trigger]
        may_measure(measure, placements, id, px, g) && match g {
            None => r is None,
            Some(x) => if x.target_w == 0 || x.target_h == 0 {
                r is None
            } else {
                route_outcome(codec, objects, s, id, px, shrinking(x, px), o, r)
            },
        }
}

/// What planning the image `id` may give: nothing, unless it is an image with
/// a size.
pub open spec fn plan_outcome<
    M: Fn(&Placements, ObjectId, u32, u32) -> Option<Geometry>,
    D: Fn(&[u8], u32, u32) -> Option<Raster>,
    E: Fn(&Raster, u8) -> Option<Vec<u8>>,
    J: Fn(&[u8]) -> Option<Vec<u8>>,
>(
    measure: M,
    codec: Codec<D, E, J>,
    placements: PlacementsValue,
    objects: Seq<(ObjectId, Value)>,
    id: ObjectId,
    o: ImageOptions,
    r: Option<ReplacementValue>,
) -> bool {
    match lookup(objects, id) {
        Some(Value::Stream(s)) => match image_size(s.dict) {
            Some(px) => measured_outcome(measure, codec, placements, objects, s, id, px, o, r),
            None => r is None,
        },
        _ => r is None,
    }
}

/// The content of an optional replacement.
pub open spec fn replacement_view(r: Option<Replacement>) -> Option<ReplacementValue> {
    match r {
        Some(x) => Some(x@),
        None => None,
    }
}

/// Carries out a route.
fn plan_route<
    D: Fn(&[u8], u32, u32) -> Option<Raster>,
    E: Fn(&Raster, u8) -> Option<Vec<u8>>,
    J: Fn(&[u8]) -> Option<Vec<u8>>,
>(
    doc: &Pdf,
    stream: &PdfStream,
    id: ObjectId,
    px: (u32, u32),
    g: Geometry,
    o: ImageOptions,
    codec: &Codec<D, E, J>,
) -> (r: Option<Replacement>)
    requires
        doc.wf(),
        g.target_w > 0,
        g.target_h > 0,
        ready(*codec),
    ensures
        route_outcome(*codec, doc@.objects, stream@, id, px, g, o, replacement_view(r)),
{
    let key: [u8; 5] = SMASK;
    match choose_route(doc, stream, g.over_resolution, o) {
        Route::Skip => None,
        Route::Requant => plan_requant_replacement(stream, o.quality, id, px.0, px.1, codec),
        Route::FlateToJpeg => plan_flate_lossy_requant_replacement(
            doc,
            stream,
            o.quality,
            id,
            px.0,
            px.1,
            codec,
        ),
        Route::ResizeJpeg => plan_resize_jpeg(stream, id, g, o.quality, codec),
        Route::ResizeFlate => plan_resize_flate(doc, stream, id, px, g, o, codec),
        Route::ResizeJpegPair => {
            let mask_id: ObjectId = eligible_smask(doc, stream.dict.get(key.as_slice())?, true)?;
            plan_smask_pair_downsample(doc, id, mask_id, stream, px, g, o.quality, codec)
        },
        Route::ResizeFlatePair => {
            let mask_id: ObjectId = eligible_smask(doc, stream.dict.get(key.as_slice())?, true)?;
            plan_flate_smask_pair_downsample(doc, id, mask_id, stream, px, g, o, codec)
        },
    }
}

/// Plans what is done with the image `id`, if anything: decodes, resizes and
/// encodes it anew where it has more pixels than its largest placement needs;
/// encodes a JPEG anew at its own size where not.
pub fn plan_replacement<
    M: Fn(&Placements, ObjectId, u32, u32) -> Option<Geometry>,
    D: Fn(&[u8], u32, u32) -> Option<Raster>,
    E: Fn(&Raster, u8) -> Option<Vec<u8>>,
    J: Fn(&[u8]) -> Option<Vec<u8>>,
>(
    doc: &Pdf,
    id: ObjectId,
    placements: &Placements,
    o: ImageOptions,
    measure: &M,
    codec: &Codec<D, E, J>,
) -> (r: Option<Replacement>)
    requires
        doc.wf(),
        forall|p: &Placements, i: ObjectId, w: u32, h: u32| #[trigger]
            measure.requires((p, i, w, h)),
        ready(*codec),
    ensures
        plan_outcome(
            *measure,
            *codec,
            placements@,
            doc@.objects,
            id,
            o,
            replacement_view(r),
        ),
{
    let stream = get_stream(doc, id)?;
    let px: (u32, u32) = read_image_size(&stream.dict)?;
    let measured = measure(placements, id, px.0, px.1);
    proof {
        assert(may_measure(*measure, placements@, id, px, measured));
    }
    let g = measured?;
    if g.target_w == 0 || g.target_h == 0 {
        return None;
    }
    let g = Geometry {
        over_resolution: g.over_resolution && g.target_w < px.0 && g.target_h < px.1,
        target_w: g.target_w,
        target_h: g.target_h,
    };
    plan_route(doc, stream, id, px, g, o, codec)
}

// --- carrying it out ------------------------------------------------------------------------

/// A stream with a new payload and size.
pub open spec fn with_sized_content(
    s: StreamValue,
    content: Seq<u8>,
    width: i64,
    height: i64,
) -> StreamValue {
    let t = with_content(s, content);
    StreamValue {
        dict: dict_set(
            dict_set(t.dict, WIDTH@, Value::Integer(width)),
            HEIGHT@,
            Value::Integer(height),
        ),
        ..t
    }
}

/// A stream whose payload is Flate with these parameters, or none.
pub open spec fn as_flate(s: StreamValue, parms: Option<Seq<(Seq<u8>, Value)>>) -> StreamValue {
    let dict = dict_set(s.dict, FILTER@, Value::Name(FLATE_DECODE@));
    StreamValue {
        dict: match parms {
            Some(p) => dict_set(dict, DECODE_PARMS@, Value::Dictionary(p)),
            None => dict_remove(dict, DECODE_PARMS@),
        },
        ..s
    }
}

/// A stream whose payload is a JPEG.
pub open spec fn as_jpeg(s: StreamValue) -> StreamValue {
    StreamValue {
        dict: dict_remove(
            dict_set(s.dict, FILTER@, Value::Name(DCT_DECODE@)),
            DECODE_PARMS@,
        ),
        ..s
    }
}

/// The stream of an image once it is replaced.
pub open spec fn replaced_image(s: StreamValue, r: ReplacementValue) -> StreamValue {
    let t = with_sized_content(s, r.content, r.width, r.height);
    match r.dict_update {
        UpdateValue::Dct => t,
        UpdateValue::Flate(p) => as_flate(t, p),
        UpdateValue::FlateToJpeg => as_jpeg(t),
    }
}

/// The stream of a soft mask once it is replaced.
pub open spec fn replaced_mask(s: StreamValue, m: MaskValue) -> StreamValue {
    as_flate(with_sized_content(s, m.content, m.width, m.height), None)
}

/// The objects with the stream `id`, references followed, changed by `f`.
pub open spec fn with_stream(
    objects: Seq<(ObjectId, Value)>,
    id: ObjectId,
    f: spec_fn(StreamValue) -> StreamValue,
) -> Option<Seq<(ObjectId, Value)>> {
    match lookup_index(objects, id) {
        Some(i) => match objects[i].1 {
            Value::Stream(s) => Some(objects.update(i, (objects[i].0, Value::Stream(f(s))))),
            _ => None,
        },
        None => None,
    }
}

/// The objects once a replacement is carried out: the image, and its mask with
/// it.
pub open spec fn replaced(objects: Seq<(ObjectId, Value)>, r: ReplacementValue) -> Seq<
    (ObjectId, Value),
> {
    match with_stream(objects, r.id, |s: StreamValue| replaced_image(s, r)) {
        None => objects,
        Some(with_image) => match r.smask {
            None => with_image,
            Some(m) => match with_stream(
                with_image,
                m.mask_id,
                |s: StreamValue| replaced_mask(s, m),
            ) {
                Some(both) => both,
                None => with_image,
            },
        },
    }
}

/// The objects once the first `n` replacements are carried out.
pub open spec fn replaced_upto(
    objects: Seq<(ObjectId, Value)>,
    list: Seq<ReplacementValue>,
    n: int,
) -> Seq<(ObjectId, Value)>
    decreases n,
{
    if n <= 0 {
        objects
    } else {
        replaced(replaced_upto(objects, list, n - 1), list[n - 1])
    }
}

/// The contents of a list of replacements.
pub open spec fn replacement_views(list: Seq<Replacement>) -> Seq<ReplacementValue> {
    list.map_values(|r: Replacement| r@)
}

pub fn set_name(d: &mut Dict, key: &[u8], name: &[u8])
    ensures
        final(d)@ == dict_set(old(d)@, key@, Value::Name(name@)),
{
    d.set(key, PdfObject::Name(crate::bytes::to_vec(name)));
}

fn set_sized_content(s: &mut PdfStream, content: Vec<u8>, width: i64, height: i64)
    ensures
        final(s)@ == with_sized_content(old(s)@, content@, width, height),
{
    let (w, h): ([u8; 5], [u8; 6]) = (WIDTH, HEIGHT);
    set_content(s, content);
    s.dict.set(w.as_slice(), PdfObject::Integer(width));
    s.dict.set(h.as_slice(), PdfObject::Integer(height));
}

pub fn make_flate(s: &mut PdfStream, parms: Option<Dict>)
    ensures
        final(s)@ == as_flate(
            old(s)@,
            match parms {
                Some(d) => Some(d@),
                None => None,
            },
        ),
{
    let (filter_key, parms_key): ([u8; 6], [u8; 11]) = (FILTER, DECODE_PARMS);
    s.dict.set(filter_key.as_slice(), flate_name());
    match parms {
        Some(p) => {
            s.dict.set(parms_key.as_slice(), PdfObject::Dictionary(p));
        },
        None => {
            s.dict.remove(parms_key.as_slice());
        },
    }
}

fn make_jpeg(s: &mut PdfStream)
    ensures
        final(s)@ == as_jpeg(old(s)@),
{
    let (filter_key, parms_key, dct): ([u8; 6], [u8; 11], [u8; 9]) = (
        FILTER,
        DECODE_PARMS,
        DCT_DECODE,
    );
    set_name(&mut s.dict, filter_key.as_slice(), dct.as_slice());
    s.dict.remove(parms_key.as_slice());
}

/// Takes the stream `id`, references followed, out of a document.
fn take_target(doc: &mut Pdf, id: ObjectId) -> (r: Option<(usize, PdfStream)>)
    requires
        old(doc).wf(),
    ensures
        match r {
            Some(x) => {
                &&& lookup_index(old(doc)@.objects, id) == Some(x.0 as int)
                &&& x.0 < old(doc)@.objects.len()
                &&& old(doc)@.objects[x.0 as int].1 == Value::Stream(x.1@)
                &&& final(doc)@ == (DocumentValue {
                    objects: old(doc)@.objects.update(
                        x.0 as int,
                        (old(doc)@.objects[x.0 as int].0, Value::Null),
                    ),
                    ..old(doc)@
                })
            },
            None => final(doc)@ == old(doc)@ && match lookup_index(old(doc)@.objects, id) {
                Some(i) => !(old(doc)@.objects[i].1 is Stream),
                None => true,
            },
        },
        final(doc).wf(),
        final(doc).objects@.len() == old(doc).objects@.len(),
{
    let i: usize = find_target(doc, id)?;
    let s = take_stream(doc, i)?;
    Some((i, s))
}

/// Carries out a replacement.
pub fn apply_replacement(doc: &mut Pdf, r: Replacement)
    requires
        old(doc).wf(),
    ensures
        final(doc)@ == (DocumentValue { objects: replaced(old(doc)@.objects, r@), ..old(doc)@ }),
        final(doc).wf(),
        final(doc).objects@.len() == old(doc).objects@.len(),
{
    let ghost v = r@;
    let ghost before = doc@.objects;
    match take_target(doc, r.id) {
        None => {},
        Some((i, s)) => {
            let mut stream = s;
            set_sized_content(&mut stream, r.content, r.width, r.height);
            match r.dict_update {
                DictUpdate::Dct => {},
                DictUpdate::Flate(parms) => {
                    make_flate(&mut stream, parms);
                },
                DictUpdate::FlateToJpeg => {
                    make_jpeg(&mut stream);
                },
            }
            doc.put(i, PdfObject::Stream(stream));
            let ghost mid = doc@.objects;
            proof {
                assert(mid =~= before.update(
                    i as int,
                    (before[i as int].0, Value::Stream(replaced_image(s@, v))),
                ));
                assert(with_stream(before, v.id, |s: StreamValue| replaced_image(s, v)) == Some(
                    mid,
                ));
            }
            match r.smask {
                None => {},
                Some(m) => {
                    let ghost mv = m@;
                    match take_target(doc, m.mask_id) {
                        None => {},
                        Some((j, ms)) => {
                            let mut mask = ms;
                            set_sized_content(&mut mask, m.content, m.width, m.height);
                            make_flate(&mut mask, None);
                            doc.put(j, PdfObject::Stream(mask));
                            proof {
                                assert(doc@.objects =~= mid.update(
                                    j as int,
                                    (mid[j as int].0, Value::Stream(replaced_mask(ms@, mv))),
                                ));
                            }
                        },
                    }
                },
            }
        },
    }
}

/// Carries out all replacements, in order.
pub fn apply_replacements(doc: &mut Pdf, list: Vec<Replacement>)
    requires
        old(doc).wf(),
    ensures
        final(doc)@ == (DocumentValue {
            objects: replaced_upto(
                old(doc)@.objects,
                replacement_views(list@),
                list@.len() as int,
            ),
            ..old(doc)@
        }),
        final(doc).wf(),
        final(doc).objects@.len() == old(doc).objects@.len(),
    decreases list@.len(),
{
    let ghost views = replacement_views(list@);
    let mut rest = list;
    match rest.pop() {
        None => {},
        Some(r) => {
            proof {
                assert(views.last() == r@);
                assert(views.drop_last() =~= replacement_views(rest@));
                lemma_replaced_prefix(
                    doc@.objects,
                    views,
                    replacement_views(rest@),
                    rest@.len() as int,
                );
            }
            apply_replacements(doc, rest);
            apply_replacement(doc, r);
        },
    }
}

proof fn lemma_replaced_prefix(
    objects: Seq<(ObjectId, Value)>,
    a: Seq<ReplacementValue>,
    b: Seq<ReplacementValue>,
    n: int,
)
    requires
        0 <= n <= a.len(),
        n <= b.len(),
        forall|i: int| 0 <= i < n ==> a[i] == b[i],
    ensures
        replaced_upto(objects, a, n) == replaced_upto(objects, b, n),
    decreases n,
{
    if n > 0 {
        lemma_replaced_prefix(objects, a, b, n - 1);
    }
}

/// What planning every painted image may give: the plans that came of the
/// images, in their order.
pub open spec fn plans_outcome<
    M: Fn(&Placements, ObjectId, u32, u32) -> Option<Geometry>,
    D: Fn(&[u8], u32, u32) -> Option<Raster>,
    E: Fn(&Raster, u8) -> Option<Vec<u8>>,
    J: Fn(&[u8]) -> Option<Vec<u8>>,
>(
    measure: M,
    codec: Codec<D, E, J>,
    placements: PlacementsValue,
    objects: Seq<(ObjectId, Value)>,
    ids: Seq<ObjectId>,
    o: ImageOptions,
    list: Seq<ReplacementValue>,
) -> bool {
    exists|results: Seq<Option<ReplacementValue>>|
        {
            &&& results.len() == ids.len()
            &&& forall|i: int|
                0 <= i < ids.len() ==> plan_outcome(
                    measure,
                    codec,
                    placements,
                    objects,
                    ids[i],
                    o,
                    #[trigger] results[i],
                )
            &&& list == #[trigger] present(results, results.len() as int)
        }
}

/// What is there among the first `n`.
pub open spec fn present(list: Seq<Option<ReplacementValue>>, n: int) -> Seq<ReplacementValue>
    decreases n,
{
    if n <= 0 {
        Seq::empty()
    } else {
        match list[n - 1] {
            Some(v) => present(list, n - 1).push(v),
            None => present(list, n - 1),
        }
    }
}

proof fn lemma_present_prefix(
    a: Seq<Option<ReplacementValue>>,
    b: Seq<Option<ReplacementValue>>,
    n: int,
)
    requires
        0 <= n <= a.len(),
        n <= b.len(),
        forall|i: int| 0 <= i < n ==> a[i] == b[i],
    ensures
        present(a, n) == present(b, n),
    decreases n,
{
    if n > 0 {
        lemma_present_prefix(a, b, n - 1);
    }
}

/// Plans every painted image.
pub fn plan_replacements<
    M: Fn(&Placements, ObjectId, u32, u32) -> Option<Geometry>,
    D: Fn(&[u8], u32, u32) -> Option<Raster>,
    E: Fn(&Raster, u8) -> Option<Vec<u8>>,
    J: Fn(&[u8]) -> Option<Vec<u8>>,
>(
    doc: &Pdf,
    placements: &Placements,
    o: ImageOptions,
    measure: &M,
    codec: &Codec<D, E, J>,
) -> (r: Vec<Replacement>)
    requires
        doc.wf(),
        forall|p: &Placements, i: ObjectId, w: u32, h: u32| #[trigger]
            measure.requires((p, i, w, h)),
        ready(*codec),
    ensures
        plans_outcome(
            *measure,
            *codec,
            placements@,
            doc@.objects,
            painted(placements@.paints, placements@.paints.len() as int),
            o,
            replacement_views(r@),
        ),
{
    let ids = painted_images(placements);
    let mut out: Vec<Replacement> = Vec::new();
    let ghost mut results: Seq<Option<ReplacementValue>> = Seq::empty();
    let mut i: usize = 0;
    proof {
        assert(replacement_views(out@) =~= Seq::empty());
    }
    while i < ids.len()
        invariant
            i <= ids@.len(),
            doc.wf(),
            forall|p: &Placements, i: ObjectId, w: u32, h: u32| #[trigger]
                measure.requires((p, i, w, h)),
            ready(*codec),
            results.len() == i,
            forall|k: int|
                0 <= k < i ==> plan_outcome(
                    *measure,
                    *codec,
                    placements@,
                    doc@.objects,
                    ids@[k],
                    o,
                    #[trigger] results[k],
                ),
            replacement_views(out@) == present(results, i as int),
        decreases ids@.len() - i,
    {
        let plan = plan_replacement(doc, ids[i], placements, o, measure, codec);
        let ghost before = results;
        proof {
            results = results.push(replacement_view(plan));
            lemma_present_prefix(before, results, i as int);
        }
        match plan {
            Some(r) => {
                let ghost old_views = replacement_views(out@);
                out.push(r);
                proof {
                    assert(replacement_views(out@) =~= old_views.push(r@));
                }
            },
            None => {},
        }
        i += 1;
    }
    proof {
        assert(present(results, results.len() as int) == replacement_views(out@));
    }
    out
}

} // verus!
