//! Making color images whose channels are equal gray.

use crate::images::{
    best_flate, decode_flate_image, encode_flate, entry_is_name, flate_form, flate_pixels,
    get_resolved, resolved_entry,
};
use crate::lookup::{classify_filter, filter_class, is_name, FilterClass};
use crate::minify::take_stream;
use crate::names::{
    COLOR_SPACE, DEVICE_GRAY, DEVICE_RGB, FILTER, HEIGHT, IMAGE, MASK, SUBTYPE, WIDTH,
};
use crate::object::{
    dict_get, dict_has, dict_set, object_view, Dict, DocumentValue, ObjectId, Pdf, PdfObject,
    StreamValue, Value,
};
use crate::raster::{raster_ok, Raster};
use crate::replace::{as_flate, make_flate, set_name};
use crate::store::{set_content, with_content};
use vstd::prelude::*;

verus! {

/// An integer that is an unsigned side.
pub open spec fn plain_side(v: Option<Value>) -> Option<u32> {
    match v {
        Some(Value::Integer(i)) => if 0 <= i <= u32::MAX {
            Some(i as u32)
        } else {
            None
        },
        _ => None,
    }
}

/// Every pixel has three equal samples.
pub open spec fn channels_equal(p: Seq<u8>) -> bool {
    forall|i: int|
        0 <= i && 3 * i + 2 < p.len() ==> (#[trigger] p[3 * i]) == p[3 * i + 1] && p[3 * i + 1]
            == p[3 * i + 2]
}

/// The first sample of each pixel.
pub open spec fn first_samples(p: Seq<u8>, n: int) -> Seq<u8> {
    Seq::new(n as nat, |i: int| p[3 * i])
}

/// The gray form of a color image whose channels are equal: its payload and
/// parameters, where the payload is smaller. Only plain device color counts, as
/// a profile would be lost; a `/Mask` may be a range of colors, so it forbids
/// this.
pub open spec fn gray_form(objects: Seq<(ObjectId, Value)>, v: Value) -> Option<
    (Seq<u8>, Option<Seq<(Seq<u8>, Value)>>),
> {
    match v {
        Value::Stream(s) => if dict_get(s.dict, SUBTYPE@) != Some(Value::Name(IMAGE@)) || dict_has(
            s.dict,
            MASK@,
        ) || !entry_is_name(objects, s.dict, COLOR_SPACE@, DEVICE_RGB@) || dict_get(
            s.dict,
            FILTER@,
        ) is None || filter_class(objects, dict_get(s.dict, FILTER@)->0)
            != FilterClass::FlateOnly {
            None
        } else {
            match (
                plain_side(resolved_entry(objects, s.dict, WIDTH@)),
                plain_side(resolved_entry(objects, s.dict, HEIGHT@)),
            ) {
                (Some(w), Some(h)) => match flate_pixels(objects, s, w, h) {
                    Some(img) => if img.gray || !channels_equal(img.pixels) {
                        None
                    } else {
                        match best_flate(first_samples(img.pixels, w * h), w, 1) {
                            Some(form) => if form.0.len() < s.content.len() {
                                Some(form)
                            } else {
                                None
                            },
                            None => None,
                        }
                    },
                    None => None,
                },
                _ => None,
            }
        },
        _ => None,
    }
}

/// The stream of an image once it is gray.
pub open spec fn collapsed_image(
    s: StreamValue,
    form: (Seq<u8>, Option<Seq<(Seq<u8>, Value)>>),
) -> StreamValue {
    let t = with_content(s, form.0);
    as_flate(
        StreamValue { dict: dict_set(t.dict, COLOR_SPACE@, Value::Name(DEVICE_GRAY@)), ..t },
        form.1,
    )
}

/// The objects once every color image whose channels are equal is gray.
pub open spec fn collapsed(objects: Seq<(ObjectId, Value)>) -> Seq<(ObjectId, Value)> {
    Seq::new(
        objects.len(),
        |i: int|
            match (gray_form(objects, objects[i].1), objects[i].1) {
                (Some(form), Value::Stream(s)) => (
                    objects[i].0,
                    Value::Stream(collapsed_image(s, form)),
                ),
                _ => objects[i],
            },
    )
}

/// There is an image that can be gray.
pub open spec fn has_gray_work(objects: Seq<(ObjectId, Value)>) -> bool {
    exists|i: int| 0 <= i < objects.len() && gray_form(objects, (#[trigger] objects[i]).1) is Some
}

fn read_plain_side(o: Option<&PdfObject>) -> (r: Option<u32>)
    ensures
        r == plain_side(
            match o {
                Some(x) => Some(x@),
                None => None,
            },
        ),
{
    match o {
        Some(PdfObject::Integer(i)) => {
            if 0 <= *i && *i <= 0xFFFF_FFFF {
                Some(*i as u32)
            } else {
                None
            }
        },
        _ => None,
    }
}

/// Takes the gray samples out of a color image whose channels are equal.
fn take_gray(img: &Raster) -> (r: Option<Vec<u8>>)
    requires
        raster_ok(img@),
        !img.gray,
    ensures
        match r {
            Some(g) => channels_equal(img.pixels@) && g@ == first_samples(
                img.pixels@,
                img.width * img.height,
            ),
            None => !channels_equal(img.pixels@),
        },
{
    let ghost p = img.pixels@;
    let total: usize = img.pixels.len();
    let mut out: Vec<u8> = Vec::new();
    let mut at: usize = 0;
    let ghost mut n: int = 0;
    proof {
        assert(out@ =~= first_samples(p, 0));
    }
    while at < total
        invariant
            total == p.len() == img.width * img.height * 3,
            p == img.pixels@,
            at == 3 * n,
            n >= 0,
            at <= total,
            out@ == first_samples(p, n),
            forall|i: int|
                0 <= i < n ==> (#[trigger] p[3 * i]) == p[3 * i + 1] && p[3 * i + 1] == p[3 * i + 2],
        decreases total - at,
    {
        let a: u8 = img.pixels[at];
        if a != img.pixels[at + 1] || img.pixels[at + 1] != img.pixels[at + 2] {
            proof {
                assert(p[3 * n] != p[3 * n + 1] || p[3 * n + 1] != p[3 * n + 2]);
            }
            return None;
        }
        out.push(a);
        at = at + 3;
        proof {
            n = n + 1;
            assert(out@ =~= first_samples(p, n));
        }
    }
    proof {
        assert(n == img.width * img.height);
    }
    Some(out)
}

/// Plans the gray form of one object.
fn plan_gray(doc: &Pdf, o: &PdfObject) -> (r: Option<(Vec<u8>, Option<Dict>)>)
    requires
        doc.wf(),
    ensures
        flate_form(r) == gray_form(doc@.objects, o@),
{
    let (subtype, image, mask, space, rgb, filter_key, width, height): (
        [u8; 7],
        [u8; 5],
        [u8; 4],
        [u8; 10],
        [u8; 9],
        [u8; 6],
        [u8; 5],
        [u8; 6],
    ) = (SUBTYPE, IMAGE, MASK, COLOR_SPACE, DEVICE_RGB, FILTER, WIDTH, HEIGHT);
    match o {
        PdfObject::Stream(s) => {
            if !is_name(s.dict.get(subtype.as_slice()), image.as_slice()) || s.dict.has(
                mask.as_slice(),
            ) || !is_name(get_resolved(doc, &s.dict, space.as_slice()), rgb.as_slice()) {
                return None;
            }
            let filter = s.dict.get(filter_key.as_slice())?;
            if classify_filter(doc, filter) != FilterClass::FlateOnly {
                return None;
            }
            let w: u32 = read_plain_side(get_resolved(doc, &s.dict, width.as_slice()))?;
            let h: u32 = read_plain_side(get_resolved(doc, &s.dict, height.as_slice()))?;
            let img = decode_flate_image(doc, s, w, h)?;
            if img.gray {
                return None;
            }
            let gray = take_gray(&img)?;
            if w == 0 {
                return None;
            }
            let form = encode_flate(gray.as_slice(), w, true)?;
            if form.0.len() < s.content.len() {
                Some(form)
            } else {
                None
            }
        },
        _ => None,
    }
}

/// Plans the gray form of every color image whose channels are equal.
pub fn plan_gray_collapses(doc: &Pdf) -> (r: Vec<Option<(Vec<u8>, Option<Dict>)>>)
    requires
        doc.wf(),
    ensures
        r@.len() == doc.objects@.len(),
        forall|i: int|
            0 <= i < r@.len() ==> flate_form(#[trigger] r@[i]) == gray_form(
                doc@.objects,
                doc@.objects[i].1,
            ),
{
    let mut out: Vec<Option<(Vec<u8>, Option<Dict>)>> = Vec::new();
    let mut i: usize = 0;
    while i < doc.objects.len()
        invariant
            i <= doc.objects@.len(),
            doc.wf(),
            out@.len() == i,
            forall|k: int|
                0 <= k < i ==> flate_form(#[trigger] out@[k]) == gray_form(
                    doc@.objects,
                    doc@.objects[k].1,
                ),
        decreases doc.objects@.len() - i,
    {
        proof {
            assert(doc@.objects[i as int].1 == object_view(doc.objects@[i as int].object));
        }
        out.push(plan_gray(doc, &doc.objects[i].object));
        i += 1;
    }
    out
}

/// Whether there is an image that can be gray.
pub fn gray_work(doc: &Pdf) -> (r: bool)
    requires
        doc.wf(),
    ensures
        r == has_gray_work(doc@.objects),
{
    let ghost objects = doc@.objects;
    let mut i: usize = 0;
    while i < doc.objects.len()
        invariant
            i <= doc.objects@.len(),
            doc.wf(),
            objects == doc@.objects,
            forall|k: int|
                0 <= k < i ==> gray_form(objects, (#[trigger] objects[k]).1) is None,
        decreases doc.objects@.len() - i,
    {
        proof {
            assert(objects[i as int].1 == object_view(doc.objects@[i as int].object));
        }
        let form = plan_gray(doc, &doc.objects[i].object);
        if form.is_some() {
            proof {
                assert(gray_form(objects, objects[i as int].1) is Some);
            }
            return true;
        }
        i += 1;
    }
    false
}

/// Makes every color image whose channels are equal gray.
pub fn collapse_gray(doc: Pdf) -> (r: Pdf)
    requires
        doc.wf(),
    ensures
        r@ == (DocumentValue { objects: collapsed(doc@.objects), ..doc@ }),
        r.wf(),
        r.objects@.len() == doc.objects@.len(),
{
    let (space, gray): ([u8; 10], [u8; 10]) = (COLOR_SPACE, DEVICE_GRAY);
    let ghost start = doc@;
    let mut plans = plan_gray_collapses(&doc);
    let mut cur = doc;
    let mut i: usize = cur.objects.len();
    while i > 0
        invariant
            i <= cur.objects@.len(),
            cur.wf(),
            space@ == COLOR_SPACE@,
            gray@ == DEVICE_GRAY@,
            cur.objects@.len() == start.objects.len(),
            plans@.len() == i,
            forall|k: int|
                0 <= k < i ==> flate_form(#[trigger] plans@[k]) == gray_form(
                    start.objects,
                    start.objects[k].1,
                ),
            cur@ == (DocumentValue { objects: cur@.objects, ..start }),
            forall|k: int|
                0 <= k < start.objects.len() ==> #[trigger] cur@.objects[k] == if k >= i {
                    collapsed(start.objects)[k]
                } else {
                    start.objects[k]
                },
        decreases i,
    {
        i -= 1;
        let ghost before = cur@.objects;
        proof {
            assert(before[i as int] == start.objects[i as int]);
            assert(flate_form(plans@[i as int]) == gray_form(
                start.objects,
                start.objects[i as int].1,
            ));
        }
        match plans.pop() {
            None => {},
            Some(None) => {
                proof {
                    assert(collapsed(start.objects)[i as int] == start.objects[i as int]);
                }
            },
            Some(Some((content, parms))) => {
                match take_stream(&mut cur, i) {
                    Some(s) => {
                        let mut stream = s;
                        set_content(&mut stream, content);
                        set_name(&mut stream.dict, space.as_slice(), gray.as_slice());
                        make_flate(&mut stream, parms);
                        cur.put(i, PdfObject::Stream(stream));
                    },
                    None => {},
                }
                proof {
                    assert forall|k: int| 0 <= k < start.objects.len() && k != i implies
                        #[trigger] cur@.objects[k] == before[k] by {}
                }
            },
        }
    }
    proof {
        assert(cur@.objects =~= collapsed(start.objects));
    }
    cur
}

} // verus!
