//! Turning JPEG 2000 images into JPEG, which needs consent.

use crate::flate::opt_view;
use crate::lookup::{
    absent, classify_filter, filter_class, is_absent, is_name, resolve, resolved, FilterClass,
};
use crate::minify::take_stream;
use crate::names::{
    BITS_PER_COMPONENT, COLOR_SPACE, DCT_DECODE, DECODE, DECODE_PARMS, DEVICE_GRAY, DEVICE_RGB,
    FILTER, HEIGHT, IMAGE, MASK, SMASK, SUBTYPE, WIDTH,
};
use crate::object::{
    dict_get, dict_remove, dict_set, object_view, Dict, DocumentValue, ObjectId, Pdf, PdfObject,
    PdfStream, StreamValue, Value,
};
use crate::plan::{encode_verified, pays, saves_enough, verified_outcome};
use crate::raster::{
    is_line_art, jpx_info, jpx_raster, known_header, looks_like_line_art, may_decode_jpx, opt_raster,
    ready, Codec, Raster, RasterValue,
};
use crate::store::{set_content, with_content};
use vstd::prelude::*;

verus! {

/// The device color space of a gray or a color image.
pub open spec fn device_space(gray: bool) -> Seq<u8> {
    if gray {
        DEVICE_GRAY@
    } else {
        DEVICE_RGB@
    }
}

/// The header and the dictionary agree: the color space and the depth are
/// missing or those of the codestream.
pub open spec fn agrees(
    objects: Seq<(ObjectId, Value)>,
    d: Seq<(Seq<u8>, Value)>,
    gray: bool,
) -> bool {
    &&& absent(d, COLOR_SPACE@) || resolved(objects, dict_get(d, COLOR_SPACE@)->0) == Value::Name(
        device_space(gray),
    )
    &&& absent(d, BITS_PER_COMPONENT@) || dict_get(d, BITS_PER_COMPONENT@) == Some(
        Value::Integer(8),
    )
}

/// The size and kind of a JPEG 2000 image that may become a JPEG: no
/// parameters, masks or `/Decode`, eight bits, no alpha, gray or color, and
/// a dictionary that agrees.
pub open spec fn convertible(objects: Seq<(ObjectId, Value)>, v: Value) -> Option<(u32, u32, bool)> {
    match v {
        Value::Stream(s) => if dict_get(s.dict, SUBTYPE@) != Some(Value::Name(IMAGE@)) || dict_get(
            s.dict,
            FILTER@,
        ) is None || filter_class(objects, dict_get(s.dict, FILTER@)->0) != FilterClass::JpxOnly
            || !absent(s.dict, DECODE_PARMS@) || !absent(s.dict, SMASK@) || !absent(s.dict, MASK@)
            || !absent(s.dict, DECODE@) {
            None
        } else {
            match known_header(s.content) {
                None => None,
                Some(h) => match h.gray {
                    None => None,
                    Some(gray) => if h.alpha || h.depth != 8 || !agrees(objects, s.dict, gray) {
                        None
                    } else {
                        Some((h.width, h.height, gray))
                    },
                },
            }
        },
        _ => None,
    }
}

/// A planned conversion.
pub struct JpxConversion {
    pub content: Vec<u8>,
    pub gray: bool,
    pub width: u32,
    pub height: u32,
}

/// The content of a [`JpxConversion`].
pub struct JpxValue {
    pub content: Seq<u8>,
    pub gray: bool,
    pub width: u32,
    pub height: u32,
}

impl View for JpxConversion {
    type V = JpxValue;

    open spec fn view(&self) -> JpxValue {
        JpxValue {
            content: self.content@,
            gray: self.gray,
            width: self.width,
            height: self.height,
        }
    }
}

/// The content of an optional conversion.
pub open spec fn jpx_view(r: Option<JpxConversion>) -> Option<JpxValue> {
    match r {
        Some(x) => Some(x@),
        None => None,
    }
}

/// The conversion to a JPEG of this size and kind, where it is at least five
/// percent smaller.
pub open spec fn conversion_form(
    h: (u32, u32, bool),
    old: int,
    out: Option<Seq<u8>>,
) -> Option<JpxValue> {
    match out {
        Some(content) => if saves_enough(content.len() as int, old) {
            Some(JpxValue { content, gray: h.2, width: h.0, height: h.1 })
        } else {
            None
        },
        None => None,
    }
}

/// What encoding the image of a JPEG 2000 file as JPEG may give. Line art is
/// declined.
pub open spec fn encoded_conversion<
    D: Fn(&[u8], u32, u32) -> Option<Raster>,
    E: Fn(&Raster, u8) -> Option<Vec<u8>>,
    J: Fn(&[u8]) -> Option<Vec<u8>>,
>(
    codec: Codec<D, E, J>,
    img: RasterValue,
    quality: u8,
    h: (u32, u32, bool),
    old: int,
    r: Option<JpxValue>,
) -> bool {
    if is_line_art(img) {
        r is None
    } else {
        exists|out: Option<Seq<u8>>| #[trigger]
            verified_outcome(codec, img, quality, out) && r == conversion_form(h, old, out)
    }
}

/// What converting a JPEG 2000 file of this size and kind may give.
pub open spec fn decoded_conversion<
    D: Fn(&[u8], u32, u32) -> Option<Raster>,
    E: Fn(&Raster, u8) -> Option<Vec<u8>>,
    J: Fn(&[u8]) -> Option<Vec<u8>>,
>(
    codec: Codec<D, E, J>,
    content: Seq<u8>,
    quality: u8,
    h: (u32, u32, bool),
    r: Option<JpxValue>,
) -> bool {
    exists|img: Option<RasterValue>| #[trigger]
        may_decode_jpx(codec, content, h.0, h.1, h.2, img) && match img {
            None => r is None,
            Some(i) => encoded_conversion(codec, i, quality, h, content.len() as int, r),
        }
}

/// What planning an object may give: nothing, unless it may become a JPEG;
/// and then one of the codestream's size that decodes back and is at least
/// five percent smaller.
pub open spec fn jpx_outcome<
    D: Fn(&[u8], u32, u32) -> Option<Raster>,
    E: Fn(&Raster, u8) -> Option<Vec<u8>>,
    J: Fn(&[u8]) -> Option<Vec<u8>>,
>(
    codec: Codec<D, E, J>,
    objects: Seq<(ObjectId, Value)>,
    v: Value,
    quality: u8,
    r: Option<JpxValue>,
) -> bool {
    match convertible(objects, v) {
        None => r is None,
        Some(h) => decoded_conversion(codec, v->Stream_0.content, quality, h, r),
    }
}

/// Whether header and dictionary agree.
fn check_agrees(doc: &Pdf, d: &Dict, gray: bool) -> (r: bool)
    requires
        doc.wf(),
    ensures
        r == agrees(doc@.objects, d@, gray),
{
    let (space, bits, gray_name, rgb_name): ([u8; 10], [u8; 16], [u8; 10], [u8; 9]) = (
        COLOR_SPACE,
        BITS_PER_COMPONENT,
        DEVICE_GRAY,
        DEVICE_RGB,
    );
    let space_ok = match d.get(space.as_slice()) {
        None => true,
        Some(PdfObject::Null) => true,
        Some(o) => if gray {
            is_name(Some(resolve(doc, o)), gray_name.as_slice())
        } else {
            is_name(Some(resolve(doc, o)), rgb_name.as_slice())
        },
    };
    let bits_ok = match d.get(bits.as_slice()) {
        None => true,
        Some(PdfObject::Null) => true,
        Some(PdfObject::Integer(i)) => *i == 8,
        Some(_) => false,
    };
    space_ok && bits_ok
}

/// The size and kind of a JPEG 2000 image that may become a JPEG.
pub fn check_convertible(doc: &Pdf, o: &PdfObject) -> (r: Option<(u32, u32, bool)>)
    requires
        doc.wf(),
    ensures
        r == convertible(doc@.objects, o@),
{
    let (subtype, image, filter_key, parms, smask, mask, decode): (
        [u8; 7],
        [u8; 5],
        [u8; 6],
        [u8; 11],
        [u8; 5],
        [u8; 4],
        [u8; 6],
    ) = (SUBTYPE, IMAGE, FILTER, DECODE_PARMS, SMASK, MASK, DECODE);
    match o {
        PdfObject::Stream(s) => {
            if !is_name(s.dict.get(subtype.as_slice()), image.as_slice()) {
                return None;
            }
            let filter = s.dict.get(filter_key.as_slice())?;
            if classify_filter(doc, filter) != FilterClass::JpxOnly || !is_absent(
                &s.dict,
                parms.as_slice(),
            ) || !is_absent(&s.dict, smask.as_slice()) || !is_absent(&s.dict, mask.as_slice())
                || !is_absent(&s.dict, decode.as_slice()) {
                return None;
            }
            let h = jpx_info(s.content.as_slice())?;
            let gray = h.gray?;
            if h.alpha || h.depth != 8 || !check_agrees(doc, &s.dict, gray) {
                return None;
            }
            Some((h.width, h.height, gray))
        },
        _ => None,
    }
}

/// Plans the conversion of one object.
pub fn plan_jpx<
    D: Fn(&[u8], u32, u32) -> Option<Raster>,
    E: Fn(&Raster, u8) -> Option<Vec<u8>>,
    J: Fn(&[u8]) -> Option<Vec<u8>>,
>(
    doc: &Pdf,
    o: &PdfObject,
    quality: u8,
    codec: &Codec<D, E, J>,
) -> (r: Option<JpxConversion>)
    requires
        doc.wf(),
        ready(*codec),
    ensures
        jpx_outcome(*codec, doc@.objects, o@, quality, jpx_view(r)),
{
    let (width, height, gray) = check_convertible(doc, o)?;
    match o {
        PdfObject::Stream(s) => {
            let decoded = jpx_raster(s.content.as_slice(), width, height, gray, codec);
            proof {
                assert(may_decode_jpx(*codec, s.content@, width, height, gray, opt_raster(decoded)));
            }
            let img = decoded?;
            if looks_like_line_art(&img) {
                proof {
                    assert(encoded_conversion(
                        *codec,
                        img@,
                        quality,
                        (width, height, gray),
                        s.content@.len() as int,
                        None,
                    ));
                }
                return None;
            }
            let out = encode_verified(&img, quality, codec);
            let ghost seen = opt_view(out);
            proof {
                assert(verified_outcome(*codec, img@, quality, seen));
            }
            let r = match out {
                Some(content) => if pays(content.len(), 0, s.content.len(), 0) {
                    Some(JpxConversion { content, gray, width, height })
                } else {
                    None
                },
                None => None,
            };
            proof {
                assert(encoded_conversion(
                    *codec,
                    img@,
                    quality,
                    (width, height, gray),
                    s.content@.len() as int,
                    jpx_view(r),
                ));
            }
            r
        },
        _ => None,
    }
}

/// What planning every object may give.
pub open spec fn jpx_plans_outcome<
    D: Fn(&[u8], u32, u32) -> Option<Raster>,
    E: Fn(&Raster, u8) -> Option<Vec<u8>>,
    J: Fn(&[u8]) -> Option<Vec<u8>>,
>(
    codec: Codec<D, E, J>,
    objects: Seq<(ObjectId, Value)>,
    quality: u8,
    plans: Seq<Option<JpxValue>>,
) -> bool {
    &&& plans.len() == objects.len()
    &&& forall|i: int|
        0 <= i < objects.len() ==> jpx_outcome(
            codec,
            objects,
            objects[i].1,
            quality,
            #[trigger] plans[i],
        )
}

/// The contents of a list of conversions.
pub open spec fn jpx_views(list: Seq<Option<JpxConversion>>) -> Seq<Option<JpxValue>> {
    list.map_values(|r: Option<JpxConversion>| jpx_view(r))
}

/// Plans the conversion of every JPEG 2000 image that may become a JPEG.
pub fn plan_jpx_conversions<
    D: Fn(&[u8], u32, u32) -> Option<Raster>,
    E: Fn(&Raster, u8) -> Option<Vec<u8>>,
    J: Fn(&[u8]) -> Option<Vec<u8>>,
>(
    doc: &Pdf,
    quality: u8,
    codec: &Codec<D, E, J>,
) -> (r: Vec<Option<JpxConversion>>)
    requires
        doc.wf(),
        ready(*codec),
    ensures
        jpx_plans_outcome(*codec, doc@.objects, quality, jpx_views(r@)),
        r@.len() == doc.objects@.len(),
{
    let ghost objects = doc@.objects;
    let mut out: Vec<Option<JpxConversion>> = Vec::new();
    let mut i: usize = 0;
    while i < doc.objects.len()
        invariant
            i <= doc.objects@.len(),
            doc.wf(),
            objects == doc@.objects,
            ready(*codec),
            out@.len() == i,
            forall|k: int|
                0 <= k < i ==> jpx_outcome(
                    *codec,
                    objects,
                    objects[k].1,
                    quality,
                    jpx_view(#[trigger] out@[k]),
                ),
        decreases doc.objects@.len() - i,
    {
        proof {
            assert(objects[i as int].1 == object_view(doc.objects@[i as int].object));
        }
        out.push(plan_jpx(doc, &doc.objects[i].object, quality, codec));
        i += 1;
    }
    proof {
        assert forall|k: int| 0 <= k < objects.len() implies jpx_outcome(
            *codec,
            objects,
            objects[k].1,
            quality,
            #[trigger] jpx_views(out@)[k],
        ) by {
            assert(jpx_views(out@)[k] == jpx_view(out@[k]));
        }
    }
    out
}

/// The stream of an image once it is converted: a JPEG with its color space,
/// depth and size spelled out, since the old payload supplied them.
pub open spec fn converted_image(s: StreamValue, c: JpxValue) -> StreamValue {
    let t = with_content(s, c.content);
    let a = dict_set(t.dict, FILTER@, Value::Name(DCT_DECODE@));
    let b = dict_set(a, COLOR_SPACE@, Value::Name(device_space(c.gray)));
    let d = dict_set(b, BITS_PER_COMPONENT@, Value::Integer(8));
    let e = dict_set(d, WIDTH@, Value::Integer(c.width as i64));
    let f = dict_set(e, HEIGHT@, Value::Integer(c.height as i64));
    StreamValue { dict: dict_remove(f, DECODE_PARMS@), ..t }
}

/// The objects once every planned conversion is carried out.
pub open spec fn converted(
    objects: Seq<(ObjectId, Value)>,
    plans: Seq<Option<JpxValue>>,
) -> Seq<(ObjectId, Value)> {
    Seq::new(
        objects.len(),
        |i: int|
            match (plans[i], objects[i].1) {
                (Some(c), Value::Stream(s)) => (objects[i].0, Value::Stream(converted_image(s, c))),
                _ => objects[i],
            },
    )
}

/// Makes a stream the converted image.
fn convert_stream(s: &mut PdfStream, c: JpxConversion)
    ensures
        final(s)@ == converted_image(old(s)@, c@),
{
    let (filter_key, space, bits, width, height, parms, dct, gray_name, rgb_name): (
        [u8; 6],
        [u8; 10],
        [u8; 16],
        [u8; 5],
        [u8; 6],
        [u8; 11],
        [u8; 9],
        [u8; 10],
        [u8; 9],
    ) = (
        FILTER,
        COLOR_SPACE,
        BITS_PER_COMPONENT,
        WIDTH,
        HEIGHT,
        DECODE_PARMS,
        DCT_DECODE,
        DEVICE_GRAY,
        DEVICE_RGB,
    );
    set_content(s, c.content);
    s.dict.set(filter_key.as_slice(), PdfObject::Name(crate::bytes::to_vec(dct.as_slice())));
    let name = if c.gray {
        crate::bytes::to_vec(gray_name.as_slice())
    } else {
        crate::bytes::to_vec(rgb_name.as_slice())
    };
    s.dict.set(space.as_slice(), PdfObject::Name(name));
    s.dict.set(bits.as_slice(), PdfObject::Integer(8));
    s.dict.set(width.as_slice(), PdfObject::Integer(c.width as i64));
    s.dict.set(height.as_slice(), PdfObject::Integer(c.height as i64));
    s.dict.remove(parms.as_slice());
}

/// Carries out every planned conversion.
pub fn convert_images(doc: Pdf, plans: Vec<Option<JpxConversion>>) -> (r: Pdf)
    requires
        doc.wf(),
        plans@.len() == doc.objects@.len(),
    ensures
        r@ == (DocumentValue { objects: converted(doc@.objects, jpx_views(plans@)), ..doc@ }),
        r.wf(),
        r.objects@.len() == doc.objects@.len(),
{
    let ghost start = doc@;
    let ghost views = jpx_views(plans@);
    let mut rest = plans;
    let mut cur = doc;
    let mut i: usize = cur.objects.len();
    while i > 0
        invariant
            i <= cur.objects@.len(),
            cur.wf(),
            cur.objects@.len() == start.objects.len(),
            rest@.len() == i,
            views.len() == start.objects.len(),
            forall|k: int| 0 <= k < i ==> jpx_view(#[trigger] rest@[k]) == views[k],
            cur@ == (DocumentValue { objects: cur@.objects, ..start }),
            forall|k: int|
                0 <= k < start.objects.len() ==> #[trigger] cur@.objects[k] == if k >= i {
                    converted(start.objects, views)[k]
                } else {
                    start.objects[k]
                },
        decreases i,
    {
        i -= 1;
        let ghost before = cur@.objects;
        proof {
            assert(before[i as int] == start.objects[i as int]);
            assert(jpx_view(rest@[i as int]) == views[i as int]);
        }
        match rest.pop() {
            None => {},
            Some(None) => {
                proof {
                    assert(converted(start.objects, views)[i as int] == start.objects[i as int]);
                }
            },
            Some(Some(c)) => {
                match take_stream(&mut cur, i) {
                    Some(s) => {
                        let mut stream = s;
                        convert_stream(&mut stream, c);
                        cur.put(i, PdfObject::Stream(stream));
                    },
                    None => {},
                }
                proof {
                    assert forall|k: int| 0 <= k < start.objects.len() && k != i implies
                        #[trigger] cur@.objects[k] == before[k] by {}
                }
            },
        }
    }
    proof {
        assert(cur@.objects =~= converted(start.objects, views));
    }
    cur
}

} // verus!
