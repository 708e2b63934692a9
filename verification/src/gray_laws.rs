//! What holds of images that become gray: no pixel changes.

use crate::flate::{inflated_prefix, zlib_level9};
use crate::gray::{collapsed, collapsed_image, gray_form, plain_side};
use crate::images::{
    best_flate, color_channels, flate_pixels, flate_samples, int_or, resolved_entry, up_parms,
    FlateEncoding,
};
use crate::laws::{keys_distinct, removed_key_is_gone};
use crate::names::{
    BITS_PER_COMPONENT, COLORS, COLOR_SPACE, COLUMNS, DECODE, DECODE_PARMS, DEVICE_GRAY, DEVICE_RGB,
    FILTER, FLATE_DECODE, HEIGHT, LENGTH, PREDICTOR, WIDTH,
};
use crate::object::{
    dict_get, dict_has, dict_index, dict_set, lemma_dict_index, ObjectId, StreamValue, Value,
};
use crate::png::{lemma_up_filtered, up_filter_is_undone, up_filtered};
use crate::raster::RasterValue;
use crate::store::with_content;
use vstd::prelude::*;
use vstd::string::StringSliceAdditionalSpecFns;

verus! {

/// Setting a key sets that one and no other.
pub proof fn set_key_is_there(
    d: Seq<(Seq<u8>, Value)>,
    key: Seq<u8>,
    v: Value,
    other: Seq<u8>,
)
    ensures
        dict_get(dict_set(d, key, v), key) == Some(v),
        other != key ==> dict_get(dict_set(d, key, v), other) == dict_get(d, other),
        other != key ==> dict_has(dict_set(d, key, v), other) == dict_has(d, other),
        keys_distinct(d) ==> keys_distinct(dict_set(d, key, v)),
{
    let r = dict_set(d, key, v);
    lemma_dict_index(d, key, 0);
    lemma_dict_index(d, other, 0);
    lemma_dict_index(r, key, 0);
    lemma_dict_index(r, other, 0);
    lemma_first_key(d, key, 0);
    lemma_first_key(d, other, 0);
    lemma_first_key(r, key, 0);
    lemma_first_key(r, other, 0);
    match dict_index(d, key) {
        Some(i) => {
            assert(r[i] == (d[i].0, v));
            match dict_index(r, key) {
                Some(j) => {
                    if j < i {
                        assert(r[j] == d[j]);
                    }
                    if j > i {
                        assert(r[i].0 != key);
                    }
                },
                None => {
                    assert(r[i].0 != key);
                },
            }
            if other != key {
                lemma_same_first(d, r, other);
            }
        },
        None => {
            let n = d.len() as int;
            assert(r[n] == (key, v));
            match dict_index(r, key) {
                Some(j) => {
                    if j < n {
                        assert(r[j] == d[j]);
                    }
                },
                None => {
                    assert(r[n].0 != key);
                },
            }
            if other != key {
                match dict_index(r, other) {
                    Some(j) => {
                        assert(j != n);
                        assert(r[j] == d[j]);
                        match dict_index(d, other) {
                            Some(k) => {
                                assert(r[k] == d[k]);
                                if k < j {
                                    assert(r[k].0 != other);
                                }
                                if j < k {
                                    assert(d[j].0 != other);
                                }
                            },
                            None => {},
                        }
                    },
                    None => {
                        match dict_index(d, other) {
                            Some(k) => {
                                assert(r[k] == d[k]);
                                assert(r[k].0 != other);
                            },
                            None => {},
                        }
                    },
                }
            }
            if keys_distinct(d) {
                assert forall|a: int, b: int| 0 <= a < b < r.len() implies (#[trigger] r[a]).0 != (
                #[trigger] r[b]).0 by {
                    assert(r[a] == d[a]);
                    if b < n {
                        assert(r[b] == d[b]);
                    }
                }
            }
        },
    }
}

proof fn lemma_first_key(d: Seq<(Seq<u8>, Value)>, key: Seq<u8>, i: int)
    requires
        0 <= i,
    ensures
        match crate::object::dict_index_from(d, key, i) {
            Some(k) => forall|j: int| i <= j < k ==> (#[trigger] d[j]).0 != key,
            None => true,
        },
    decreases d.len() - i,
{
    if i < d.len() && d[i].0 != key {
        lemma_first_key(d, key, i + 1);
    }
}

proof fn lemma_same_first(
    d: Seq<(Seq<u8>, Value)>,
    r: Seq<(Seq<u8>, Value)>,
    other: Seq<u8>,
)
    requires
        d.len() == r.len(),
        forall|i: int| 0 <= i < d.len() ==> (#[trigger] d[i]).0 == r[i].0,
        forall|i: int| 0 <= i < d.len() && (#[trigger] d[i]).0 == other ==> d[i] == r[i],
    ensures
        dict_get(r, other) == dict_get(d, other),
        dict_has(r, other) == dict_has(d, other),
{
    lemma_dict_index(d, other, 0);
    lemma_dict_index(r, other, 0);
    lemma_first_key(d, other, 0);
    lemma_first_key(r, other, 0);
    match (dict_index(d, other), dict_index(r, other)) {
        (Some(i), Some(j)) => {
            assert(d[i].0 == r[i].0 && d[j].0 == r[j].0);
        },
        (Some(i), None) => {
            assert(d[i].0 == r[i].0);
        },
        (None, Some(j)) => {
            assert(d[j].0 == r[j].0);
        },
        _ => {},
    }
}

/// The names have different lengths or letters.
proof fn lemma_names()
    ensures
        COLOR_SPACE@ == "ColorSpace".spec_bytes(),
        DEVICE_GRAY@ == "DeviceGray".spec_bytes(),
        DEVICE_RGB@ == "DeviceRGB".spec_bytes(),
        COLOR_SPACE@ != LENGTH@ && COLOR_SPACE@ != FILTER@ && COLOR_SPACE@ != DECODE_PARMS@,
        BITS_PER_COMPONENT@ != LENGTH@ && BITS_PER_COMPONENT@ != FILTER@,
        BITS_PER_COMPONENT@ != DECODE_PARMS@ && BITS_PER_COMPONENT@ != COLOR_SPACE@,
        DECODE@ != LENGTH@ && DECODE@ != FILTER@ && DECODE@ != DECODE_PARMS@ && DECODE@
            != COLOR_SPACE@,
        DECODE_PARMS@ != LENGTH@ && DECODE_PARMS@ != FILTER@ && DECODE_PARMS@ != COLOR_SPACE@,
        WIDTH@ != LENGTH@ && WIDTH@ != FILTER@ && WIDTH@ != DECODE_PARMS@ && WIDTH@ != COLOR_SPACE@,
        HEIGHT@ != LENGTH@ && HEIGHT@ != FILTER@ && HEIGHT@ != DECODE_PARMS@ && HEIGHT@
            != COLOR_SPACE@,
        FILTER@ != DECODE_PARMS@,
        PREDICTOR@ != COLORS@ && PREDICTOR@ != BITS_PER_COMPONENT@ && PREDICTOR@ != COLUMNS@,
        COLORS@ != BITS_PER_COMPONENT@ && COLORS@ != COLUMNS@ && BITS_PER_COMPONENT@ != COLUMNS@,
        DEVICE_GRAY@ != DEVICE_RGB@,
{
    reveal_strlit("ColorSpace");
    reveal_strlit("DeviceGray");
    reveal_strlit("DeviceRGB");
    assert("ColorSpace".is_ascii() && "DeviceGray".is_ascii() && "DeviceRGB".is_ascii());
    assert(COLOR_SPACE@ =~= "ColorSpace".spec_bytes());
    assert(DEVICE_GRAY@ =~= "DeviceGray".spec_bytes());
    assert(DEVICE_RGB@ =~= "DeviceRGB".spec_bytes());
    assert(DECODE@[0] != FILTER@[0] && DECODE@[0] != LENGTH@[0] && HEIGHT@[0] != LENGTH@[0]
        && HEIGHT@[0] != FILTER@[0]);
    assert(LENGTH@.len() == 6 && FILTER@.len() == 6 && DECODE@.len() == 6 && HEIGHT@.len() == 6
        && COLOR_SPACE@.len() == 10 && DECODE_PARMS@.len() == 11 && BITS_PER_COMPONENT@.len() == 16
        && WIDTH@.len() == 5 && PREDICTOR@.len() == 9 && COLORS@.len() == 6 && COLUMNS@.len() == 7
        && DEVICE_GRAY@.len() == 10 && DEVICE_RGB@.len() == 9);
}

/// Each pixel of a color image has three samples equal to the one sample that
/// a gray image has there: the gray image, each of its samples taken three
/// times, is the color image.
pub open spec fn shows_the_same(color: Seq<u8>, gray: Seq<u8>) -> bool {
    &&& color.len() == 3 * gray.len()
    &&& forall|i: int, c: int|
        0 <= i < gray.len() && 0 <= c < 3 ==> color[3 * i + c] == #[trigger] gray_sample(
            gray,
            i,
            c,
        )
}

/// Channel `c` of pixel `i` of a gray image that is shown in color.
pub open spec fn gray_sample(gray: Seq<u8>, i: int, c: int) -> u8 {
    gray[i]
}

/// The compressor loses nothing.
pub open spec fn inflates_back(data: Seq<u8>) -> bool {
    zlib_level9(data) is Some ==> forall|cap: nat|
        cap > data.len() ==> #[trigger] inflated_prefix(zlib_level9(data)->0, cap) == Some(data)
}

/// An image that gets a gray form shows the same in it: what is compressed, as
/// one sample for each pixel, is every channel of what the image decodes to.
pub proof fn gray_form_shows_the_same(objects: Seq<(ObjectId, Value)>, s: StreamValue)
    requires
        gray_form(objects, Value::Stream(s)) is Some,
    ensures
        ({
            let w = plain_side(resolved_entry(objects, s.dict, WIDTH@))->0;
            let h = plain_side(resolved_entry(objects, s.dict, HEIGHT@))->0;
            let old = flate_pixels(objects, s, w, h);
            &&& old is Some && !(old->0).gray
            &&& exists|gray: Seq<u8>|
                #![trigger best_flate(gray, w, 1)]
                {
                    &&& gray.len() == w * h
                    &&& shows_the_same((old->0).pixels, gray)
                    &&& best_flate(gray, w, 1) == gray_form(objects, Value::Stream(s))
                }
        }),
{
    let w = plain_side(resolved_entry(objects, s.dict, WIDTH@))->0;
    let h = plain_side(resolved_entry(objects, s.dict, HEIGHT@))->0;
    let old = flate_pixels(objects, s, w, h)->0;
    let p = old.pixels;
    let gray = Seq::new((w * h) as nat, |i: int| p[3 * i]);
    lemma_names();
    assert(color_channels(objects, s.dict) == Some(3int));
    assert(p.len() == w * h * 3);
    assert(w * h >= 0) by (nonlinear_arith)
        requires
            w >= 0,
            h >= 0,
    ;
    assert forall|i: int, c: int| 0 <= i < gray.len() && 0 <= c < 3 implies p[3 * i + c]
        == #[trigger] gray_sample(gray, i, c) by {
        assert(p[3 * i] == p[3 * i + 1] && p[3 * i + 1] == p[3 * i + 2]);
        assert(c == 0 || c == 1 || c == 2);
    }
    assert(gray =~= crate::gray::first_samples(p, w * h));
    assert(best_flate(gray, w, 1) == gray_form(objects, Value::Stream(s)));
}

/// A plain Flate image in device color, without a mask, whose pixels each have
/// three equal samples becomes gray where that is smaller.
pub proof fn gray_image_collapses(
    objects: Seq<(ObjectId, Value)>,
    i: int,
    s: StreamValue,
    w: u32,
    h: u32,
    gray: Seq<u8>,
)
    requires
        0 <= i < objects.len(),
        objects[i].1 == Value::Stream(s),
        dict_get(s.dict, "Subtype".spec_bytes()) == Some(Value::Name("Image".spec_bytes())),
        !dict_has(s.dict, "Mask".spec_bytes()),
        dict_get(s.dict, "ColorSpace".spec_bytes()) == Some(Value::Name("DeviceRGB".spec_bytes())),
        dict_get(s.dict, "Filter".spec_bytes()) == Some(Value::Name("FlateDecode".spec_bytes())),
        dict_get(s.dict, "Width".spec_bytes()) == Some(Value::Integer(w as i64)),
        dict_get(s.dict, "Height".spec_bytes()) == Some(Value::Integer(h as i64)),
        flate_pixels(objects, s, w, h) is Some,
        shows_the_same((flate_pixels(objects, s, w, h)->0).pixels, gray),
        best_flate(gray, w, 1) is Some,
        (best_flate(gray, w, 1)->0).0.len() < s.content.len(),
    ensures
        collapsed(objects)[i].1 == Value::Stream(
            collapsed_image(s, best_flate(gray, w, 1)->0),
        ),
{
    lemma_names();
    lemma_more_names();
    let p = (flate_pixels(objects, s, w, h)->0).pixels;
    assert(color_channels(objects, s.dict) == Some(3int));
    assert forall|k: int| 0 <= k && 3 * k + 2 < p.len() implies (#[trigger] p[3 * k]) == p[3 * k + 1]
        && p[3 * k + 1] == p[3 * k + 2] by {
        assert(p[3 * k + 0] == gray_sample(gray, k, 0));
        assert(p[3 * k + 1] == gray_sample(gray, k, 1));
        assert(p[3 * k + 2] == gray_sample(gray, k, 2));
    }
    assert(crate::gray::first_samples(p, w * h) =~= gray) by {
        assert forall|k: int| 0 <= k < gray.len() implies p[3 * k] == gray[k] by {
            assert(p[3 * k + 0] == gray_sample(gray, k, 0));
        }
    }
}

proof fn lemma_more_names()
    ensures
        crate::names::SUBTYPE@ == "Subtype".spec_bytes(),
        crate::names::IMAGE@ == "Image".spec_bytes(),
        crate::names::MASK@ == "Mask".spec_bytes(),
        FILTER@ == "Filter".spec_bytes(),
        FLATE_DECODE@ == "FlateDecode".spec_bytes(),
        WIDTH@ == "Width".spec_bytes(),
        HEIGHT@ == "Height".spec_bytes(),
{
    reveal_strlit("Subtype");
    reveal_strlit("Image");
    reveal_strlit("Mask");
    reveal_strlit("Filter");
    reveal_strlit("FlateDecode");
    reveal_strlit("Width");
    reveal_strlit("Height");
    assert("Subtype".is_ascii() && "Image".is_ascii() && "Mask".is_ascii() && "Filter".is_ascii());
    assert("FlateDecode".is_ascii() && "Width".is_ascii() && "Height".is_ascii());
    assert(crate::names::SUBTYPE@ =~= "Subtype".spec_bytes());
    assert(crate::names::IMAGE@ =~= "Image".spec_bytes());
    assert(crate::names::MASK@ =~= "Mask".spec_bytes());
    assert(FILTER@ =~= "Filter".spec_bytes());
    assert(FLATE_DECODE@ =~= "FlateDecode".spec_bytes());
    assert(WIDTH@ =~= "Width".spec_bytes());
    assert(HEIGHT@ =~= "Height".spec_bytes());
}

/// An image in which one pixel has two different samples keeps its color.
pub proof fn colored_image_stays(
    objects: Seq<(ObjectId, Value)>,
    i: int,
    s: StreamValue,
    w: u32,
    h: u32,
    k: int,
    c: int,
)
    requires
        0 <= i < objects.len(),
        objects[i].1 == Value::Stream(s),
        plain_side(resolved_entry(objects, s.dict, WIDTH@)) == Some(w),
        plain_side(resolved_entry(objects, s.dict, HEIGHT@)) == Some(h),
        flate_pixels(objects, s, w, h) is Some,
        0 <= k,
        3 * k + 2 < (flate_pixels(objects, s, w, h)->0).pixels.len(),
        1 <= c <= 2,
        (flate_pixels(objects, s, w, h)->0).pixels[3 * k] != (flate_pixels(
            objects,
            s,
            w,
            h,
        )->0).pixels[3 * k + c],
    ensures
        collapsed(objects)[i] == objects[i],
{
    if gray_form(objects, Value::Stream(s)) is Some {
        gray_form_shows_the_same(objects, s);
        let old = flate_pixels(objects, s, w, h)->0;
        let gray = choose|gray: Seq<u8>|
            #![trigger best_flate(gray, w, 1)]
            {
                &&& gray.len() == w * h
                &&& shows_the_same(old.pixels, gray)
                &&& best_flate(gray, w, 1) == gray_form(objects, Value::Stream(s))
            };
        assert(old.pixels[3 * k + 0] == gray_sample(gray, k, 0));
        assert(old.pixels[3 * k + c] == gray_sample(gray, k, c));
    }
}

proof fn lemma_up_parms(w: u32)
    ensures
        int_or(up_parms(1, w), PREDICTOR@, 1) == 15,
        int_or(up_parms(1, w), COLORS@, 1) == 1,
        int_or(up_parms(1, w), COLUMNS@, 1) == w,
        int_or(up_parms(1, w), BITS_PER_COMPONENT@, 8) == 8,
{
    lemma_names();
    let a = dict_set(Seq::empty(), PREDICTOR@, Value::Integer(15));
    let b = dict_set(a, COLORS@, Value::Integer(1));
    let c = dict_set(b, BITS_PER_COMPONENT@, Value::Integer(8));
    set_key_is_there(Seq::empty(), PREDICTOR@, Value::Integer(15), PREDICTOR@);
    set_key_is_there(a, COLORS@, Value::Integer(1), PREDICTOR@);
    set_key_is_there(b, BITS_PER_COMPONENT@, Value::Integer(8), PREDICTOR@);
    set_key_is_there(b, BITS_PER_COMPONENT@, Value::Integer(8), COLORS@);
    set_key_is_there(c, COLUMNS@, Value::Integer(w as i64), PREDICTOR@);
    set_key_is_there(c, COLUMNS@, Value::Integer(w as i64), COLORS@);
    set_key_is_there(c, COLUMNS@, Value::Integer(w as i64), BITS_PER_COMPONENT@);
}

/// What the dictionary of an image says once it is gray.
proof fn lemma_collapsed_dict(
    s: StreamValue,
    form: (Seq<u8>, Option<Seq<(Seq<u8>, Value)>>),
    other: Seq<u8>,
)
    requires
        keys_distinct(s.dict),
    ensures
        ({
            let d = collapsed_image(s, form).dict;
            &&& dict_get(d, COLOR_SPACE@) == Some(Value::Name(DEVICE_GRAY@))
            &&& dict_get(d, FILTER@) == Some(Value::Name(FLATE_DECODE@))
            &&& dict_get(d, DECODE_PARMS@) == match form.1 {
                Some(p) => Some(Value::Dictionary(p)),
                None => None,
            }
            &&& other != COLOR_SPACE@ && other != FILTER@ && other != DECODE_PARMS@ && other
                != LENGTH@ ==> dict_get(d, other) == dict_get(s.dict, other)
        }),
        collapsed_image(s, form).content == form.0,
{
    lemma_names();
    let t = with_content(s, form.0);
    let len = dict_get(t.dict, LENGTH@)->0;
    lemma_dict_index(s.dict, LENGTH@, 0);
    let gray = Value::Name(DEVICE_GRAY@);
    let flate = Value::Name(FLATE_DECODE@);
    let a = dict_set(t.dict, COLOR_SPACE@, gray);
    let b = dict_set(a, FILTER@, flate);
    set_key_is_there(s.dict, LENGTH@, crate::store::length_value(form.0.len()), other);
    set_key_is_there(t.dict, COLOR_SPACE@, gray, other);
    set_key_is_there(a, FILTER@, flate, other);
    set_key_is_there(a, FILTER@, flate, COLOR_SPACE@);
    match form.1 {
        Some(p) => {
            let v = Value::Dictionary(p);
            set_key_is_there(b, DECODE_PARMS@, v, other);
            set_key_is_there(b, DECODE_PARMS@, v, COLOR_SPACE@);
            set_key_is_there(b, DECODE_PARMS@, v, FILTER@);
        },
        None => {
            removed_key_is_gone(b, DECODE_PARMS@, other);
            removed_key_is_gone(b, DECODE_PARMS@, COLOR_SPACE@);
            removed_key_is_gone(b, DECODE_PARMS@, FILTER@);
        },
    }
}

/// Rows that are written as Flate are read as they were.
proof fn lemma_reads_back(gray: Seq<u8>, w: u32, h: u32)
    requires
        w > 0,
        gray.len() == w * h,
        w * h <= crate::images::MAX_FLATE_PIXEL_BYTES,
        best_flate(gray, w, 1) is Some,
        inflates_back(gray),
        inflates_back(up_filtered(gray, w as int, h as int)),
    ensures
        ({
            let form = best_flate(gray, w, 1)->0;
            let layout = match form.1 {
                Some(p) => FlateEncoding::PngPredictor,
                None => FlateEncoding::Plain,
            };
            &&& form.1 is Some ==> form.1->0 == up_parms(1, w)
            &&& flate_samples(form.0, layout, 1, w, h) == Some(gray)
        }),
{
    let row = w as int;
    assert(gray.len() as int / row == h && gray.len() as int % row == 0) by (nonlinear_arith)
        requires
            gray.len() == row * h,
            row > 0,
            h >= 0,
    ;
    assert(w * 1 == row);
    assert(h * row == gray.len()) by (nonlinear_arith)
        requires
            gray.len() == row * h,
    ;
    lemma_up_filtered(gray, row, h as int);
    up_filter_is_undone(gray, 1, row);
    let up = up_filtered(gray, row, h as int);
    assert(up.len() == (row + 1) * h) by (nonlinear_arith)
        requires
            up.len() == h * (row + 1),
    ;
    assert(w * h * 1 == gray.len());
}

/// An image that becomes gray decodes, by its new dictionary and payload, to
/// one sample for each pixel, which is what each of the three channels was:
/// nothing is lost. The payload is smaller, and no entry changes but the color
/// space, the filter with its parameters, and the length. What compresses has
/// to inflate back.
pub proof fn collapsing_is_lossless(
    objects: Seq<(ObjectId, Value)>,
    i: int,
    s: StreamValue,
    w: u32,
    h: u32,
    other: Seq<u8>,
)
    requires
        0 <= i < objects.len(),
        objects[i].1 == Value::Stream(s),
        keys_distinct(s.dict),
        collapsed(objects)[i] != objects[i],
        plain_side(resolved_entry(objects, s.dict, WIDTH@)) == Some(w),
        plain_side(resolved_entry(objects, s.dict, HEIGHT@)) == Some(h),
        forall|data: Seq<u8>| #[trigger] inflates_back(data),
    ensures
        collapsed(objects)[i].0 == objects[i].0,
        collapsed(objects)[i].1 is Stream,
        ({
            let t = collapsed(objects)[i].1->Stream_0;
            let old = flate_pixels(objects, s, w, h);
            let new = flate_pixels(objects, t, w, h);
            &&& old is Some && new is Some
            &&& !(old->0).gray && (new->0).gray
            &&& (new->0).width == w && (new->0).height == h
            &&& shows_the_same((old->0).pixels, (new->0).pixels)
            &&& t.content.len() < s.content.len()
            &&& dict_get(t.dict, "ColorSpace".spec_bytes()) == Some(
                Value::Name("DeviceGray".spec_bytes()),
            )
            &&& other != COLOR_SPACE@ && other != FILTER@ && other != DECODE_PARMS@ && other
                != LENGTH@ ==> dict_get(t.dict, other) == dict_get(s.dict, other)
        }),
{
    lemma_names();
    let v = Value::Stream(s);
    let form = gray_form(objects, v)->0;
    let t = collapsed_image(s, form);
    assert(collapsed(objects)[i] == (objects[i].0, Value::Stream(t)));
    gray_form_shows_the_same(objects, s);
    let old = flate_pixels(objects, s, w, h)->0;
    let gray = choose|gray: Seq<u8>|
        #![trigger best_flate(gray, w, 1)]
        {
            &&& gray.len() == w * h
            &&& shows_the_same(old.pixels, gray)
            &&& best_flate(gray, w, 1) == gray_form(objects, v)
        };
    lemma_collapsed_dict(s, form, other);
    lemma_collapsed_dict(s, form, BITS_PER_COMPONENT@);
    lemma_collapsed_dict(s, form, DECODE@);
    lemma_up_parms(w);
    assert(color_channels(objects, s.dict) == Some(3int));
    assert(w > 0 && w * h * 3 <= crate::images::MAX_FLATE_PIXEL_BYTES);
    assert(inflates_back(gray) && inflates_back(up_filtered(gray, w as int, h as int)));
    lemma_reads_back(gray, w, h);
    assert(!dict_has(t.dict, DECODE@)) by {
        lemma_dict_index(t.dict, DECODE@, 0);
        lemma_dict_index(s.dict, DECODE@, 0);
        assert(dict_get(t.dict, DECODE@) is None);
    }
    assert(color_channels(objects, t.dict) == Some(1int));
    assert(flate_pixels(objects, t, w, h) == Some(
        RasterValue { width: w, height: h, gray: true, pixels: gray },
    ));
}

} // verus!
