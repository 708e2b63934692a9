//! Images as their dictionaries describe them: what a Flate image shows, what
//! may be done with an image, and what the dictionary says once it was done.

use crate::flate::inflated;
use crate::gray_laws::{inflates_back, set_key_is_there};
use crate::images::{
    best_flate, entry_is_name, flate_pixels, int_or, row_layout, up_parms, FlateEncoding,
};
use crate::jpx::{converted, converted_image, convertible, JpxValue};
use crate::laws::{keys_distinct, removed_key_is_gone};
use crate::lookup::{filter_class, lemma_follow, lookup_index, FilterClass};
use crate::names::{
    names_spelled_1, names_spelled_2, names_spelled_3, BITS_PER_COMPONENT, COLORS, COLOR_SPACE,
    COLUMNS, DCT_DECODE, DECODE_PARMS, DEVICE_GRAY, DEVICE_RGB, FILTER, FLATE_DECODE, HEIGHT,
    LENGTH, PREDICTOR, WIDTH,
};
use crate::object::{
    dict_get, dict_has, dict_remove, dict_set, object_at, object_index, ObjectId, StreamValue,
    Value,
};
use crate::plan::{
    mask_users, plain_mask, route_of, saves_enough, usable_mask, uses_mask, ImageOptions, Route,
};
use crate::png::{lemma_up_filtered, up_filter_is_undone, up_filtered};
use crate::png_laws::{filtered_frame_gives_the_image_back, frame_holds};
use crate::raster::{
    clamped_quality, covers, distance_sum, matches_reference, scaled_side, smallest_scale,
    tables_from, RasterValue,
};
use crate::replace::{
    better_form, replaced, replaced_image, replaced_mask, MaskValue, ReplacementValue, UpdateValue,
};
use crate::store::{length_value, with_content, with_flate_content};
use vstd::prelude::*;
use vstd::string::StringSliceAdditionalSpecFns;

verus! {

// --- what an image shows ---------------------------------------------------------------------------

/// The image is of eight bits in this device color space, and nothing remaps
/// its samples.
pub open spec fn plain_image(d: Seq<(Seq<u8>, Value)>, gray: bool) -> bool {
    &&& dict_get(d, "BitsPerComponent".spec_bytes()) == Some(Value::Integer(8))
    &&& dict_get(d, "ColorSpace".spec_bytes()) == Some(
        Value::Name(
            if gray {
                "DeviceGray".spec_bytes()
            } else {
                "DeviceRGB".spec_bytes()
            },
        ),
    )
    &&& !dict_has(d, "Decode".spec_bytes())
}

/// The samples of a pixel.
pub open spec fn samples_of(gray: bool) -> int {
    if gray {
        1
    } else {
        3
    }
}

proof fn lemma_spelled()
    ensures
        BITS_PER_COMPONENT@ == "BitsPerComponent".spec_bytes(),
        COLOR_SPACE@ == "ColorSpace".spec_bytes(),
        DEVICE_GRAY@ == "DeviceGray".spec_bytes(),
        DEVICE_RGB@ == "DeviceRGB".spec_bytes(),
        crate::names::DECODE@ == "Decode".spec_bytes(),
        DECODE_PARMS@ == "DecodeParms".spec_bytes(),
        PREDICTOR@ == "Predictor".spec_bytes(),
        COLORS@ == "Colors".spec_bytes(),
        COLUMNS@ == "Columns".spec_bytes(),
        DEVICE_GRAY@ != DEVICE_RGB@,
{
    names_spelled_1();
    names_spelled_2();
    names_spelled_3();
    assert(DEVICE_GRAY@.len() == 10 && DEVICE_RGB@.len() == 9);
}

/// A Flate image without parameters shows the bytes that it inflates to, one
/// or three for each pixel, where there are as many as its size asks for.
pub proof fn flate_image_shows_its_bytes(
    objects: Seq<(ObjectId, Value)>,
    s: StreamValue,
    gray: bool,
    w: u32,
    h: u32,
    pixels: Seq<u8>,
)
    requires
        plain_image(s.dict, gray),
        !dict_has(s.dict, "DecodeParms".spec_bytes()),
        dict_get(s.dict, "DecodeParms".spec_bytes()) is None,
        0 < w,
        w * h * samples_of(gray) <= 0x1000_0000,
        pixels.len() == w * h * samples_of(gray),
        inflated(s.content, pixels.len()) == Some(pixels),
    ensures
        flate_pixels(objects, s, w, h) == Some(RasterValue { width: w, height: h, gray, pixels }),
{
    lemma_spelled();
    assert(crate::images::color_channels(objects, s.dict) == Some(samples_of(gray)));
}

/// A Flate image with a PNG predictor shows the image whose filtered rows it
/// inflates to.
pub proof fn predicted_image_shows_its_rows(
    objects: Seq<(ObjectId, Value)>,
    s: StreamValue,
    gray: bool,
    w: u32,
    h: u32,
    parms: Seq<(Seq<u8>, Value)>,
    predictor: i64,
    pixels: Seq<u8>,
    frame: Seq<u8>,
)
    requires
        plain_image(s.dict, gray),
        dict_get(s.dict, "DecodeParms".spec_bytes()) == Some(Value::Dictionary(parms)),
        10 <= predictor <= 15,
        dict_get(parms, "Predictor".spec_bytes()) == Some(Value::Integer(predictor)),
        dict_get(parms, "Colors".spec_bytes()) == Some(Value::Integer(samples_of(gray) as i64)),
        dict_get(parms, "Columns".spec_bytes()) == Some(Value::Integer(w as i64)),
        dict_get(parms, "BitsPerComponent".spec_bytes()) == Some(Value::Integer(8)) || dict_get(
            parms,
            "BitsPerComponent".spec_bytes(),
        ) is None,
        0 < w,
        w * h * samples_of(gray) <= 0x1000_0000,
        frame_holds(frame, pixels, samples_of(gray), w * samples_of(gray), h as int),
        inflated(s.content, frame.len()) == Some(frame),
    ensures
        flate_pixels(objects, s, w, h) == Some(RasterValue { width: w, height: h, gray, pixels }),
{
    lemma_spelled();
    let c = samples_of(gray);
    let row = w * c;
    assert(crate::images::color_channels(objects, s.dict) == Some(c));
    assert(row_layout(s.dict, c, w) == Some(FlateEncoding::PngPredictor));
    assert((row + 1) * h == h * (row + 1)) by (nonlinear_arith);
    assert(w * h * c == h * row) by (nonlinear_arith)
        requires
            row == w * c,
    ;
    filtered_frame_gives_the_image_back(frame, pixels, c, row, h as int);
}

/// An image that is read has all its samples, and a size.
pub proof fn read_image_has_its_samples(
    objects: Seq<(ObjectId, Value)>,
    s: StreamValue,
    w: u32,
    h: u32,
)
    requires
        flate_pixels(objects, s, w, h) is Some,
    ensures
        ({
            let r = flate_pixels(objects, s, w, h)->0;
            r.width == w && r.height == h && r.pixels.len() == w * h * samples_of(r.gray)
        }),
        !dict_has(s.dict, "Decode".spec_bytes()),
{
    lemma_spelled();
}

/// An ICC profile of one component is gray, and of three color; no other
/// number is read.
pub proof fn profile_tells_the_channels(
    objects: Seq<(ObjectId, Value)>,
    s: StreamValue,
    profile: StreamValue,
    id: ObjectId,
    n: i64,
    w: u32,
    h: u32,
)
    requires
        dict_get(s.dict, "ColorSpace".spec_bytes()) == Some(
            Value::Array(seq![Value::Name("ICCBased".spec_bytes()), Value::Reference(id)]),
        ),
        object_at(objects, id) == Some(Value::Stream(profile)),
        dict_get(profile.dict, "N".spec_bytes()) == Some(Value::Integer(n)),
        flate_pixels(objects, s, w, h) is Some,
    ensures
        n == 1 || n == 3,
        (flate_pixels(objects, s, w, h)->0).gray <==> n == 1,
{
    lemma_spelled();
    names_spelled_2();
    let items = seq![Value::Name("ICCBased".spec_bytes()), Value::Reference(id)];
    assert(items.len() == 2 && items[0] == Value::Name(crate::names::ICC_BASED@));
    assert(crate::lookup::resolved(objects, items[1]) == Value::Stream(profile));
}

proof fn lemma_parms(channels: int, w: u32)
    requires
        channels == 1 || channels == 3,
    ensures
        int_or(up_parms(channels, w), PREDICTOR@, 1) == 15,
        int_or(up_parms(channels, w), COLORS@, 1) == channels,
        int_or(up_parms(channels, w), COLUMNS@, 1) == w,
        int_or(up_parms(channels, w), BITS_PER_COMPONENT@, 8) == 8,
{
    assert(PREDICTOR@.len() == 9 && COLORS@.len() == 6 && COLUMNS@.len() == 7
        && BITS_PER_COMPONENT@.len() == 16);
    let n = Value::Integer(channels as i64);
    let a = dict_set(Seq::empty(), PREDICTOR@, Value::Integer(15));
    let b = dict_set(a, COLORS@, n);
    let c = dict_set(b, BITS_PER_COMPONENT@, Value::Integer(8));
    set_key_is_there(Seq::empty(), PREDICTOR@, Value::Integer(15), PREDICTOR@);
    set_key_is_there(a, COLORS@, n, PREDICTOR@);
    set_key_is_there(b, BITS_PER_COMPONENT@, Value::Integer(8), PREDICTOR@);
    set_key_is_there(b, BITS_PER_COMPONENT@, Value::Integer(8), COLORS@);
    set_key_is_there(c, COLUMNS@, Value::Integer(w as i64), PREDICTOR@);
    set_key_is_there(c, COLUMNS@, Value::Integer(w as i64), COLORS@);
    set_key_is_there(c, COLUMNS@, Value::Integer(w as i64), BITS_PER_COMPONENT@);
}

/// An image that is encoded as Flate shows the same pixels, whichever layout
/// was smaller, where the compressor loses nothing.
pub proof fn encoded_flate_shows_the_same(
    objects: Seq<(ObjectId, Value)>,
    t: StreamValue,
    pixels: Seq<u8>,
    gray: bool,
    w: u32,
    h: u32,
)
    requires
        plain_image(t.dict, gray),
        0 < w,
        w * h * samples_of(gray) <= 0x1000_0000,
        pixels.len() == w * h * samples_of(gray),
        best_flate(pixels, w, samples_of(gray)) is Some,
        t.content == (best_flate(pixels, w, samples_of(gray))->0).0,
        dict_get(t.dict, "DecodeParms".spec_bytes()) == (match (best_flate(
            pixels,
            w,
            samples_of(gray),
        )->0).1 {
            Some(p) => Some(Value::Dictionary(p)),
            None => None,
        }),
        forall|data: Seq<u8>| #[trigger] inflates_back(data),
    ensures
        flate_pixels(objects, t, w, h) == Some(RasterValue { width: w, height: h, gray, pixels }),
{
    lemma_spelled();
    let c = samples_of(gray);
    let row = w * c;
    assert(row > 0);
    assert(w * h * c == row * h) by (nonlinear_arith)
        requires
            row == w * c,
    ;
    assert(pixels.len() as int / row == h && pixels.len() as int % row == 0) by (nonlinear_arith)
        requires
            pixels.len() == row * h,
            row > 0,
            h >= 0,
    ;
    assert(h * row == pixels.len()) by (nonlinear_arith)
        requires
            pixels.len() == row * h,
    ;
    lemma_up_filtered(pixels, row, h as int);
    up_filter_is_undone(pixels, c, row);
    let up = up_filtered(pixels, row, h as int);
    assert(up.len() == (row + 1) * h) by (nonlinear_arith)
        requires
            up.len() == h * (row + 1),
    ;
    lemma_parms(c, w);
    assert(inflates_back(pixels) && inflates_back(up));
    assert(crate::images::color_channels(objects, t.dict) == Some(c));
}

// --- what may be done ------------------------------------------------------------------------------

/// An image with a stencil or color-key mask, a matte on its soft mask, or
/// that is no image at all, is left alone.
pub proof fn masked_image_is_left_alone(
    objects: Seq<(ObjectId, Value)>,
    s: StreamValue,
    over: bool,
    o: ImageOptions,
)
    ensures
        dict_has(s.dict, "Mask".spec_bytes()) ==> route_of(objects, s, over, o) == Route::Skip,
        dict_get(s.dict, "SMask".spec_bytes()) is Some && dict_has(s.dict, "Matte".spec_bytes())
            ==> route_of(objects, s, over, o) == Route::Skip,
        dict_get(s.dict, "SMask".spec_bytes()) is Some && !(dict_get(
            s.dict,
            "SMask".spec_bytes(),
        )->0 is Reference) ==> route_of(objects, s, over, o) == Route::Skip,
        !entry_is_name(objects, s.dict, "Subtype".spec_bytes(), "Image".spec_bytes())
            ==> route_of(objects, s, over, o) == Route::Skip,
        dict_get(s.dict, "Filter".spec_bytes()) is None ==> route_of(objects, s, over, o)
            == Route::Skip,
{
    names_spelled_1();
    names_spelled_2();
    names_spelled_3();
}

/// The route resizes the image.
pub open spec fn resizes(r: Route) -> bool {
    r == Route::ResizeJpeg || r == Route::ResizeFlate || r == Route::ResizeJpegPair || r
        == Route::ResizeFlatePair
}

/// An image is resized only where it has more pixels than it needs, a Flate
/// image only where that was asked for, and it becomes a JPEG only where loss
/// is allowed. An image with a soft mask is resized together with it or not
/// at all, and one without is resized alone.
pub proof fn routes_do_what_was_asked_for(
    objects: Seq<(ObjectId, Value)>,
    s: StreamValue,
    over: bool,
    o: ImageOptions,
)
    ensures
        ({
            let r = route_of(objects, s, over, o);
            let class = filter_class(objects, dict_get(s.dict, "Filter".spec_bytes())->0);
            let masked = dict_get(s.dict, "SMask".spec_bytes()) is Some;
            &&& resizes(r) ==> over
            &&& r == Route::ResizeFlate || r == Route::ResizeFlatePair ==> o.downsample_flate
            &&& r == Route::FlateToJpeg ==> o.allow_lossy
            &&& r == Route::Requant || r == Route::ResizeJpeg || r == Route::ResizeJpegPair
                ==> class == FilterClass::DctOnly && !dict_has(s.dict, "Decode".spec_bytes())
            &&& r == Route::ResizeFlate || r == Route::ResizeFlatePair || r
                == Route::FlateToJpeg ==> class == FilterClass::FlateOnly
            &&& r == Route::ResizeJpeg || r == Route::ResizeFlate ==> !masked
            &&& r == Route::ResizeJpegPair || r == Route::ResizeFlatePair ==> masked
        }),
{
    names_spelled_1();
    names_spelled_2();
    names_spelled_3();
}

proof fn lemma_users(objects: Seq<(ObjectId, Value)>, mask: ObjectId, n: int, i: int, j: int)
    requires
        0 <= n <= objects.len(),
        0 <= i < n,
        uses_mask(objects[i].1, mask),
    ensures
        mask_users(objects, mask, n) >= 1,
        i < j < n && uses_mask(objects[j].1, mask) ==> mask_users(objects, mask, n) >= 2,
    decreases n,
{
    if i < n - 1 {
        lemma_users(objects, mask, n - 1, i, j);
    }
}

proof fn lemma_one_user(objects: Seq<(ObjectId, Value)>, mask: ObjectId, n: int)
    requires
        0 <= n <= objects.len(),
        forall|i: int, j: int|
            0 <= i < j < n ==> !(uses_mask((#[trigger] objects[i]).1, mask) && uses_mask(
                (#[trigger] objects[j]).1,
                mask,
            )),
    ensures
        mask_users(objects, mask, n) <= 1,
        mask_users(objects, mask, n) == 1 ==> exists|i: int|
            0 <= i < n && uses_mask((#[trigger] objects[i]).1, mask),
    decreases n,
{
    if n > 0 {
        lemma_one_user(objects, mask, n - 1);
        if uses_mask(objects[n - 1].1, mask) && mask_users(objects, mask, n - 1) == 1 {
            let i = choose|i: int|
                0 <= i < n - 1 && uses_mask((#[trigger] objects[i]).1, mask);
            assert(!(uses_mask(objects[i].1, mask) && uses_mask(objects[n - 1].1, mask)));
        }
    }
}

/// The object is a stream or a dictionary whose `/SMask` is this reference.
pub open spec fn has_mask(v: Value, mask: ObjectId) -> bool {
    ||| v is Stream && dict_get(v->Stream_0.dict, "SMask".spec_bytes()) == Some(
        Value::Reference(mask),
    )
    ||| v is Dictionary && dict_get(v->Dictionary_0, "SMask".spec_bytes()) == Some(
        Value::Reference(mask),
    )
}

/// A soft mask that two objects use is never resized, and one that no two use
/// may be, where it is plain.
pub proof fn shared_mask_keeps_its_size(objects: Seq<(ObjectId, Value)>, mask: ObjectId)
    ensures
        usable_mask(objects, Value::Reference(mask), true) == Some(mask) <==> plain_mask(
            objects,
            mask,
        ) && forall|i: int, j: int|
            0 <= i < j < objects.len() ==> !(has_mask((#[trigger] objects[i]).1, mask) && has_mask(
                (#[trigger] objects[j]).1,
                mask,
            )),
        usable_mask(objects, Value::Reference(mask), true) is Some ==> usable_mask(
            objects,
            Value::Reference(mask),
            false,
        ) == Some(mask),
{
    names_spelled_2();
    let n = objects.len() as int;
    assert forall|i: int| 0 <= i < n implies has_mask((#[trigger] objects[i]).1, mask)
        == uses_mask(objects[i].1, mask) by {}
    if mask_users(objects, mask, n) <= 1 {
        assert forall|i: int, j: int| 0 <= i < j < n implies !(has_mask(
            (#[trigger] objects[i]).1,
            mask,
        ) && has_mask((#[trigger] objects[j]).1, mask)) by {
            if has_mask(objects[i].1, mask) && has_mask(objects[j].1, mask) {
                lemma_users(objects, mask, n, i, j);
            }
        }
    } else {
        assert(!forall|i: int, j: int|
            0 <= i < j < n ==> !(uses_mask((#[trigger] objects[i]).1, mask) && uses_mask(
                (#[trigger] objects[j]).1,
                mask,
            ))) by {
            if forall|i: int, j: int|
                0 <= i < j < n ==> !(uses_mask((#[trigger] objects[i]).1, mask) && uses_mask(
                    (#[trigger] objects[j]).1,
                    mask,
                )) {
                lemma_one_user(objects, mask, n);
            }
        }
    }
}

/// A plain soft mask is an eight-bit device gray image that is no stencil and
/// has no matte.
pub proof fn plain_mask_is_a_gray_image(objects: Seq<(ObjectId, Value)>, id: ObjectId, s: StreamValue)
    requires
        object_at(objects, id) == Some(Value::Stream(s)),
        dict_get(s.dict, "Subtype".spec_bytes()) == Some(Value::Name("Image".spec_bytes())),
        dict_get(s.dict, "ColorSpace".spec_bytes()) == Some(
            Value::Name("DeviceGray".spec_bytes()),
        ),
        dict_get(s.dict, "ImageMask".spec_bytes()) is None,
    ensures
        plain_mask(objects, id) <==> dict_get(s.dict, "BitsPerComponent".spec_bytes()) == Some(
            Value::Integer(8),
        ) && !dict_has(s.dict, "Matte".spec_bytes()),
{
    names_spelled_1();
    names_spelled_2();
    names_spelled_3();
}

/// What saves enough saves a twentieth and more, and never grows; what saves
/// more does so as well.
pub proof fn saving_is_a_twentieth(new: int, old: int, less: int)
    requires
        0 <= new,
        0 <= old,
        0 <= less <= new,
    ensures
        saves_enough(new, old) <==> 20 * (old - new) > old,
        saves_enough(new, old) ==> new < old,
        saves_enough(new, old) ==> saves_enough(less, old),
{
}

/// A JPEG 2000 image is converted only where nothing but its own samples
/// decides what it shows: it is an image of that filter alone, without masks,
/// without a remapping, and its color space and depth are those of its data.
pub proof fn converted_images_are_plain(objects: Seq<(ObjectId, Value)>, s: StreamValue)
    requires
        convertible(objects, Value::Stream(s)) is Some,
    ensures
        dict_get(s.dict, "Subtype".spec_bytes()) == Some(Value::Name("Image".spec_bytes())),
        filter_class(objects, dict_get(s.dict, "Filter".spec_bytes())->0) == FilterClass::JpxOnly,
        nothing_at(s.dict, "SMask".spec_bytes()),
        nothing_at(s.dict, "Mask".spec_bytes()),
        nothing_at(s.dict, "Decode".spec_bytes()),
        nothing_at(s.dict, "DecodeParms".spec_bytes()),
        nothing_at(s.dict, "BitsPerComponent".spec_bytes()) || dict_get(
            s.dict,
            "BitsPerComponent".spec_bytes(),
        ) == Some(Value::Integer(8)),
        dict_get(s.dict, "ColorSpace".spec_bytes()) is Some && dict_get(
            s.dict,
            "ColorSpace".spec_bytes(),
        )->0 is Name ==> dict_get(s.dict, "ColorSpace".spec_bytes())->0 == Value::Name(
            if (convertible(objects, Value::Stream(s))->0).2 {
                "DeviceGray".spec_bytes()
            } else {
                "DeviceRGB".spec_bytes()
            },
        ),
{
    names_spelled_1();
    names_spelled_2();
    names_spelled_3();
}

/// Nothing stands at this key, or a null.
pub open spec fn nothing_at(d: Seq<(Seq<u8>, Value)>, key: Seq<u8>) -> bool {
    dict_get(d, key) is None || dict_get(d, key) == Some(Value::Null)
}

// --- what the dictionary says afterwards -------------------------------------------------------------

/// The dictionary of an image says what its payload is.
pub open spec fn describes(
    t: StreamValue,
    width: i64,
    height: i64,
    filter: Seq<u8>,
    parms: Option<Value>,
) -> bool {
    &&& dict_get(t.dict, "Width".spec_bytes()) == Some(Value::Integer(width))
    &&& dict_get(t.dict, "Height".spec_bytes()) == Some(Value::Integer(height))
    &&& dict_get(t.dict, "Filter".spec_bytes()) == Some(Value::Name(filter))
    &&& dict_get(t.dict, "DecodeParms".spec_bytes()) == parms
    &&& t.content.len() <= i64::MAX ==> dict_get(t.dict, "Length".spec_bytes()) == Some(
        Value::Integer(t.content.len() as i64),
    )
}

proof fn lemma_apart()
    ensures
        WIDTH@ == "Width".spec_bytes(),
        HEIGHT@ == "Height".spec_bytes(),
        FILTER@ == "Filter".spec_bytes(),
        DECODE_PARMS@ == "DecodeParms".spec_bytes(),
        LENGTH@ == "Length".spec_bytes(),
        FLATE_DECODE@ == "FlateDecode".spec_bytes(),
        DCT_DECODE@ == "DCTDecode".spec_bytes(),
        DEVICE_GRAY@ == "DeviceGray".spec_bytes(),
        DEVICE_RGB@ == "DeviceRGB".spec_bytes(),
        COLOR_SPACE@ == "ColorSpace".spec_bytes(),
        BITS_PER_COMPONENT@ == "BitsPerComponent".spec_bytes(),
        WIDTH@ != HEIGHT@ && WIDTH@ != FILTER@ && WIDTH@ != DECODE_PARMS@ && WIDTH@ != LENGTH@,
        HEIGHT@ != FILTER@ && HEIGHT@ != DECODE_PARMS@ && HEIGHT@ != LENGTH@,
        FILTER@ != DECODE_PARMS@ && FILTER@ != LENGTH@ && DECODE_PARMS@ != LENGTH@,
        COLOR_SPACE@ != WIDTH@ && COLOR_SPACE@ != HEIGHT@ && COLOR_SPACE@ != FILTER@,
        COLOR_SPACE@ != DECODE_PARMS@ && COLOR_SPACE@ != LENGTH@,
        BITS_PER_COMPONENT@ != WIDTH@ && BITS_PER_COMPONENT@ != HEIGHT@,
        BITS_PER_COMPONENT@ != FILTER@ && BITS_PER_COMPONENT@ != DECODE_PARMS@,
        BITS_PER_COMPONENT@ != LENGTH@ && BITS_PER_COMPONENT@ != COLOR_SPACE@,
{
    names_spelled_1();
    names_spelled_2();
    assert(WIDTH@.len() == 5 && HEIGHT@.len() == 6 && FILTER@.len() == 6 && LENGTH@.len() == 6
        && DECODE_PARMS@.len() == 11 && COLOR_SPACE@.len() == 10 && BITS_PER_COMPONENT@.len()
        == 16);
    assert(HEIGHT@[0] == 0x48 && FILTER@[0] == 0x46 && LENGTH@[0] == 0x4C);
}

/// The key is none of those that tell size, filter and length.
pub open spec fn tells_no_form(key: Seq<u8>) -> bool {
    &&& key != "Width".spec_bytes() && key != "Height".spec_bytes()
    &&& key != "Filter".spec_bytes() && key != "DecodeParms".spec_bytes()
    &&& key != "Length".spec_bytes()
}

proof fn lemma_sized(s: StreamValue, content: Seq<u8>, width: i64, height: i64, other: Seq<u8>)
    requires
        keys_distinct(s.dict),
    ensures
        ({
            let d = crate::replace::with_sized_content(s, content, width, height).dict;
            &&& keys_distinct(d)
            &&& dict_get(d, WIDTH@) == Some(Value::Integer(width))
            &&& dict_get(d, HEIGHT@) == Some(Value::Integer(height))
            &&& dict_get(d, LENGTH@) == Some(length_value(content.len()))
            &&& dict_get(d, FILTER@) == dict_get(s.dict, FILTER@)
            &&& dict_get(d, DECODE_PARMS@) == dict_get(s.dict, DECODE_PARMS@)
            &&& other != WIDTH@ && other != HEIGHT@ && other != LENGTH@ ==> dict_get(d, other)
                == dict_get(s.dict, other)
        }),
{
    lemma_apart();
    let t = with_content(s, content);
    let w = Value::Integer(width);
    let h = Value::Integer(height);
    let a = dict_set(t.dict, WIDTH@, w);
    set_key_is_there(s.dict, LENGTH@, length_value(content.len()), other);
    set_key_is_there(s.dict, LENGTH@, length_value(content.len()), FILTER@);
    set_key_is_there(s.dict, LENGTH@, length_value(content.len()), DECODE_PARMS@);
    set_key_is_there(t.dict, WIDTH@, w, other);
    set_key_is_there(t.dict, WIDTH@, w, FILTER@);
    set_key_is_there(t.dict, WIDTH@, w, DECODE_PARMS@);
    set_key_is_there(t.dict, WIDTH@, w, LENGTH@);
    set_key_is_there(a, HEIGHT@, h, other);
    set_key_is_there(a, HEIGHT@, h, FILTER@);
    set_key_is_there(a, HEIGHT@, h, DECODE_PARMS@);
    set_key_is_there(a, HEIGHT@, h, LENGTH@);
    set_key_is_there(a, HEIGHT@, h, WIDTH@);
}

/// A dictionary with a filter set and parameters set or taken away.
proof fn lemma_formed(
    d: Seq<(Seq<u8>, Value)>,
    filter: Seq<u8>,
    parms: Option<Value>,
    other: Seq<u8>,
)
    requires
        keys_distinct(d),
    ensures
        ({
            let b = dict_set(d, FILTER@, Value::Name(filter));
            let e = match parms {
                Some(p) => dict_set(b, DECODE_PARMS@, p),
                None => dict_remove(b, DECODE_PARMS@),
            };
            &&& dict_get(e, FILTER@) == Some(Value::Name(filter))
            &&& dict_get(e, DECODE_PARMS@) == parms
            &&& other != FILTER@ && other != DECODE_PARMS@ ==> dict_get(e, other) == dict_get(
                d,
                other,
            )
        }),
{
    lemma_apart();
    let f = Value::Name(filter);
    let b = dict_set(d, FILTER@, f);
    set_key_is_there(d, FILTER@, f, other);
    match parms {
        Some(p) => {
            set_key_is_there(b, DECODE_PARMS@, p, other);
            set_key_is_there(b, DECODE_PARMS@, p, FILTER@);
        },
        None => {
            removed_key_is_gone(b, DECODE_PARMS@, other);
            removed_key_is_gone(b, DECODE_PARMS@, FILTER@);
        },
    }
}

/// A replaced image holds the new payload, and its dictionary describes that:
/// the new size and length, the filter by name, and the parameters of that
/// filter alone. No other entry changes.
pub proof fn replaced_image_is_described(s: StreamValue, r: ReplacementValue, other: Seq<u8>)
    requires
        keys_distinct(s.dict),
    ensures
        ({
            let t = replaced_image(s, r);
            &&& t.content == r.content
            &&& match r.dict_update {
                UpdateValue::Dct => dict_get(s.dict, "Filter".spec_bytes()) == Some(
                    Value::Name("DCTDecode".spec_bytes()),
                ) ==> describes(
                    t,
                    r.width,
                    r.height,
                    "DCTDecode".spec_bytes(),
                    dict_get(s.dict, "DecodeParms".spec_bytes()),
                ),
                UpdateValue::FlateToJpeg => describes(
                    t,
                    r.width,
                    r.height,
                    "DCTDecode".spec_bytes(),
                    None,
                ),
                UpdateValue::Flate(Some(p)) => describes(
                    t,
                    r.width,
                    r.height,
                    "FlateDecode".spec_bytes(),
                    Some(Value::Dictionary(p)),
                ),
                UpdateValue::Flate(None) => describes(
                    t,
                    r.width,
                    r.height,
                    "FlateDecode".spec_bytes(),
                    None,
                ),
            }
            &&& tells_no_form(other) ==> dict_get(t.dict, other) == dict_get(s.dict, other)
        }),
{
    lemma_apart();
    lemma_sized(s, r.content, r.width, r.height, other);
    let d = crate::replace::with_sized_content(s, r.content, r.width, r.height).dict;
    match r.dict_update {
        UpdateValue::Dct => {},
        UpdateValue::FlateToJpeg => {
            lemma_formed(d, DCT_DECODE@, None, other);
            lemma_formed(d, DCT_DECODE@, None, WIDTH@);
            lemma_formed(d, DCT_DECODE@, None, HEIGHT@);
            lemma_formed(d, DCT_DECODE@, None, LENGTH@);
        },
        UpdateValue::Flate(p) => {
            let v = match p {
                Some(q) => Some(Value::Dictionary(q)),
                None => None,
            };
            lemma_formed(d, FLATE_DECODE@, v, other);
            lemma_formed(d, FLATE_DECODE@, v, WIDTH@);
            lemma_formed(d, FLATE_DECODE@, v, HEIGHT@);
            lemma_formed(d, FLATE_DECODE@, v, LENGTH@);
        },
    }
}

/// A replaced soft mask is Flate without parameters, of its new size.
pub proof fn replaced_mask_is_described(s: StreamValue, m: MaskValue, other: Seq<u8>)
    requires
        keys_distinct(s.dict),
    ensures
        ({
            let t = replaced_mask(s, m);
            &&& t.content == m.content
            &&& describes(t, m.width, m.height, "FlateDecode".spec_bytes(), None)
            &&& tells_no_form(other) ==> dict_get(t.dict, other) == dict_get(s.dict, other)
        }),
{
    lemma_apart();
    lemma_sized(s, m.content, m.width, m.height, other);
    let d = crate::replace::with_sized_content(s, m.content, m.width, m.height).dict;
    lemma_formed(d, FLATE_DECODE@, None, other);
    lemma_formed(d, FLATE_DECODE@, None, WIDTH@);
    lemma_formed(d, FLATE_DECODE@, None, HEIGHT@);
    lemma_formed(d, FLATE_DECODE@, None, LENGTH@);
}

/// Carrying out a replacement changes the image, and its mask where it has
/// one, and no other object; all objects keep their identifiers.
pub proof fn replacement_changes_its_image_alone(
    objects: Seq<(ObjectId, Value)>,
    r: ReplacementValue,
    k: int,
)
    requires
        0 <= k < objects.len(),
    ensures
        replaced(objects, r).len() == objects.len(),
        replaced(objects, r)[k].0 == objects[k].0,
        lookup_index(objects, r.id) != Some(k) && r.smask is None ==> replaced(objects, r)[k]
            == objects[k],
        lookup_index(objects, r.id) == Some(k) && objects[k].1 is Stream && r.smask is None
            ==> replaced(objects, r)[k].1 == Value::Stream(
            replaced_image(objects[k].1->Stream_0, r),
        ),
{
    lemma_with_stream(objects, r.id, |s: StreamValue| replaced_image(s, r), k);
    match crate::replace::with_stream(objects, r.id, |s: StreamValue| replaced_image(s, r)) {
        Some(with_image) => {
            match r.smask {
                Some(m) => lemma_with_stream(
                    with_image,
                    m.mask_id,
                    |s: StreamValue| replaced_mask(s, m),
                    k,
                ),
                None => {},
            }
        },
        None => {},
    }
}

proof fn lemma_with_stream(
    objects: Seq<(ObjectId, Value)>,
    id: ObjectId,
    f: spec_fn(StreamValue) -> StreamValue,
    k: int,
)
    requires
        0 <= k < objects.len(),
    ensures
        match crate::replace::with_stream(objects, id, f) {
            Some(after) => {
                &&& after.len() == objects.len()
                &&& after[k].0 == objects[k].0
                &&& lookup_index(objects, id) != Some(k) ==> after[k] == objects[k]
                &&& lookup_index(objects, id) == Some(k) && objects[k].1 is Stream
                    ==> after[k].1 == Value::Stream(f(objects[k].1->Stream_0))
            },
            None => lookup_index(objects, id) == Some(k) ==> !(objects[k].1 is Stream),
        },
{
    match object_index(objects, id) {
        Some(i) => {
            lemma_follow(objects, i, 0);
        },
        None => {},
    }
}

/// A converted JPEG 2000 image is a JPEG, and says so: its size, its filter
/// without parameters, eight bits, and the device color space of its samples.
pub proof fn converted_image_is_described(s: StreamValue, c: JpxValue, other: Seq<u8>)
    requires
        keys_distinct(s.dict),
    ensures
        ({
            let t = converted_image(s, c);
            &&& t.content == c.content
            &&& describes(t, c.width as i64, c.height as i64, "DCTDecode".spec_bytes(), None)
            &&& dict_get(t.dict, "BitsPerComponent".spec_bytes()) == Some(Value::Integer(8))
            &&& dict_get(t.dict, "ColorSpace".spec_bytes()) == Some(
                Value::Name(
                    if c.gray {
                        "DeviceGray".spec_bytes()
                    } else {
                        "DeviceRGB".spec_bytes()
                    },
                ),
            )
            &&& tells_no_form(other) && other != "BitsPerComponent".spec_bytes() && other
                != "ColorSpace".spec_bytes() ==> dict_get(t.dict, other) == dict_get(
                s.dict,
                other,
            )
        }),
{
    lemma_apart();
    lemma_converted(s, c, other);
    lemma_converted(s, c, FILTER@);
    lemma_converted(s, c, COLOR_SPACE@);
    lemma_converted(s, c, BITS_PER_COMPONENT@);
    lemma_converted(s, c, WIDTH@);
    lemma_converted(s, c, HEIGHT@);
    lemma_converted(s, c, LENGTH@);
    assert(converted_image(s, c).dict == converted_dict(s, c) && converted_image(s, c).content
        == c.content) by {
        reveal(converted_dict);
    }
}

/// The dictionary of a converted image.
#[verifier::opaque]
pub open spec fn converted_dict(s: StreamValue, c: JpxValue) -> Seq<(Seq<u8>, Value)> {
    converted_image(s, c).dict
}

proof fn lemma_converted(s: StreamValue, c: JpxValue, key: Seq<u8>)
    requires
        keys_distinct(s.dict),
    ensures
        ({
            let d = converted_dict(s, c);
            &&& dict_get(d, DECODE_PARMS@) is None
            &&& key != DECODE_PARMS@ ==> dict_get(d, key) == if key == HEIGHT@ {
                Some(Value::Integer(c.height as i64))
            } else if key == WIDTH@ {
                Some(Value::Integer(c.width as i64))
            } else if key == BITS_PER_COMPONENT@ {
                Some(Value::Integer(8))
            } else if key == COLOR_SPACE@ {
                Some(Value::Name(crate::jpx::device_space(c.gray)))
            } else if key == FILTER@ {
                Some(Value::Name(DCT_DECODE@))
            } else if key == LENGTH@ {
                Some(length_value(c.content.len()))
            } else {
                dict_get(s.dict, key)
            }
        }),
{
    reveal(converted_dict);
    let t = with_content(s, c.content);
    let a = dict_set(t.dict, FILTER@, Value::Name(DCT_DECODE@));
    let b = dict_set(a, COLOR_SPACE@, Value::Name(crate::jpx::device_space(c.gray)));
    let d = dict_set(b, BITS_PER_COMPONENT@, Value::Integer(8));
    let e = dict_set(d, WIDTH@, Value::Integer(c.width as i64));
    let f = dict_set(e, HEIGHT@, Value::Integer(c.height as i64));
    set_key_is_there(s.dict, LENGTH@, length_value(c.content.len()), key);
    set_key_is_there(t.dict, FILTER@, Value::Name(DCT_DECODE@), key);
    set_key_is_there(a, COLOR_SPACE@, Value::Name(crate::jpx::device_space(c.gray)), key);
    set_key_is_there(b, BITS_PER_COMPONENT@, Value::Integer(8), key);
    set_key_is_there(d, WIDTH@, Value::Integer(c.width as i64), key);
    set_key_is_there(e, HEIGHT@, Value::Integer(c.height as i64), key);
    removed_key_is_gone(f, DECODE_PARMS@, key);
}

/// Conversions change the images that they are planned for and nothing else.
pub proof fn conversion_changes_its_image_alone(
    objects: Seq<(ObjectId, Value)>,
    plans: Seq<Option<JpxValue>>,
    k: int,
)
    requires
        0 <= k < objects.len() == plans.len(),
    ensures
        converted(objects, plans).len() == objects.len(),
        converted(objects, plans)[k].0 == objects[k].0,
        plans[k] is None || !(objects[k].1 is Stream) ==> converted(objects, plans)[k]
            == objects[k],
        plans[k] is Some && objects[k].1 is Stream ==> converted(objects, plans)[k].1 is Stream
            && converted(objects, plans)[k].1->Stream_0.content == plans[k]->0.content,
{
}

/// A stream with new content says of it whether it is deflated, and how long
/// it is.
pub proof fn new_content_is_described(
    s: StreamValue,
    content: Seq<u8>,
    deflated: bool,
    other: Seq<u8>,
)
    requires
        keys_distinct(s.dict),
    ensures
        ({
            let t = with_flate_content(s, content, deflated);
            &&& t.content == content
            &&& dict_get(t.dict, "Filter".spec_bytes()) == (if deflated {
                Some(Value::Name("FlateDecode".spec_bytes()))
            } else {
                None
            })
            &&& dict_get(t.dict, "DecodeParms".spec_bytes()) is None
            &&& content.len() <= i64::MAX ==> dict_get(t.dict, "Length".spec_bytes()) == Some(
                Value::Integer(content.len() as i64),
            )
            &&& other != "Filter".spec_bytes() && other != "DecodeParms".spec_bytes() && other
                != "Length".spec_bytes() ==> dict_get(t.dict, other) == dict_get(s.dict, other)
        }),
{
    lemma_apart();
    let len = length_value(content.len());
    let d = with_content(s, content).dict;
    set_key_is_there(s.dict, LENGTH@, len, other);
    set_key_is_there(s.dict, LENGTH@, len, FILTER@);
    if deflated {
        lemma_formed(d, FLATE_DECODE@, None, other);
        lemma_formed(d, FLATE_DECODE@, None, LENGTH@);
    } else {
        removed_key_is_gone(d, FILTER@, other);
        removed_key_is_gone(d, FILTER@, LENGTH@);
        let e = dict_remove(d, FILTER@);
        removed_key_is_gone(e, DECODE_PARMS@, other);
        removed_key_is_gone(e, DECODE_PARMS@, LENGTH@);
        removed_key_is_gone(e, DECODE_PARMS@, FILTER@);
    }
}

// --- pixels -----------------------------------------------------------------------------------------

proof fn lemma_distances(a: Seq<u8>, b: Seq<u8>, n: int, lo: int, hi: int)
    requires
        0 <= n <= a.len() == b.len(),
        forall|i: int|
            0 <= i < n ==> {
                let d = (#[trigger] a[i]) - b[i];
                lo <= d <= hi || lo <= -d <= hi
            },
        0 <= lo <= hi,
    ensures
        lo * n <= distance_sum(a, b, n) <= hi * n,
    decreases n,
{
    if n > 0 {
        lemma_distances(a, b, n - 1, lo, hi);
        assert(a[n - 1] == a[n - 1]);
        assert(lo * n == lo * (n - 1) + lo && hi * n == hi * (n - 1) + hi) by (nonlinear_arith);
    }
}

/// A decoded image is taken for its reference where no sample is further from
/// it than 96, and never where every sample is, or where it is of another
/// kind or number of samples.
pub proof fn references_are_compared(a: RasterValue, b: RasterValue)
    requires
        a.pixels.len() > 0,
    ensures
        a.gray == b.gray && a.pixels.len() == b.pixels.len() && (forall|i: int|
            0 <= i < a.pixels.len() ==> -96 <= (#[trigger] a.pixels[i]) - b.pixels[i] <= 96)
            ==> matches_reference(a, Some(b)),
        a.pixels.len() == b.pixels.len() && (forall|i: int|
            0 <= i < a.pixels.len() ==> (#[trigger] a.pixels[i]) - b.pixels[i] > 96 || b.pixels[i]
                - a.pixels[i] > 96) ==> !matches_reference(a, Some(b)),
        a.gray != b.gray || a.pixels.len() != b.pixels.len() ==> !matches_reference(a, Some(b)),
        !matches_reference(a, None),
        matches_reference(a, Some(a)),
{
    let n = a.pixels.len() as int;
    if a.gray == b.gray && a.pixels.len() == b.pixels.len() && (forall|i: int|
        0 <= i < a.pixels.len() ==> -96 <= (#[trigger] a.pixels[i]) - b.pixels[i] <= 96) {
        lemma_distances(a.pixels, b.pixels, n, 0, 96);
    }
    if a.pixels.len() == b.pixels.len() && (forall|i: int|
        0 <= i < a.pixels.len() ==> (#[trigger] a.pixels[i]) - b.pixels[i] > 96 || b.pixels[i]
            - a.pixels[i] > 96) {
        lemma_distances(a.pixels, b.pixels, n, 97, 255);
    }
    lemma_distances(a.pixels, a.pixels, n, 0, 0);
}

/// A side at `n` eighths is rounded up: it covers `n` eighths, and one sample
/// less would not.
pub proof fn scaled_side_is_rounded_up(full: int, n: int)
    requires
        0 <= full,
        0 <= n,
    ensures
        8 * scaled_side(full, n) >= full * n,
        8 * (scaled_side(full, n) - 1) < full * n,
        scaled_side(full, 8) == full,
{
    assert(full * n >= 0) by (nonlinear_arith)
        requires
            0 <= full,
            0 <= n,
    ;
}

/// The tables of a JPEG are those of its table segments, in order: a segment
/// of tables adds its payload in front of what follows, any other segment
/// before the scan adds nothing, and fill bytes change nothing.
pub proof fn table_segments_are_collected(
    pre: Seq<u8>,
    marker: u8,
    hi: u8,
    lo: u8,
    payload: Seq<u8>,
    post: Seq<u8>,
)
    requires
        0x02 <= marker <= 0xFE,
        !(0xD0 <= marker <= 0xD7),
        marker != 0xDA,
        hi * 256 + lo == payload.len() + 2,
    ensures
        ({
            let s = pre + seq![0xFFu8, marker, hi, lo] + payload + post;
            let at = pre.len() as int;
            let behind = at + 4 + payload.len();
            let rest = tables_from(s, behind);
            &&& marker == 0xDB && rest is Some ==> tables_from(s, at) == Some(payload + rest->0)
            &&& marker != 0xDB ==> tables_from(s, at) == rest
            &&& rest is None ==> tables_from(s, at) is None
        }),
{
    let s = pre + seq![0xFFu8, marker, hi, lo] + payload + post;
    let at = pre.len() as int;
    assert(s[at] == 0xFF && s[at + 1] == marker && s[at + 2] == hi && s[at + 3] == lo);
    assert(s.subrange(at + 4, at + 4 + payload.len()) =~= payload);
}

// --- choices ----------------------------------------------------------------------------------------

/// Of a Flate form and a JPEG the smaller one is taken, and told for what it
/// is; where there is but one of them, that one.
pub proof fn smaller_form_is_taken(
    flate: Option<(Seq<u8>, Option<Seq<(Seq<u8>, Value)>>)>,
    jpeg: Option<Seq<u8>>,
)
    ensures
        match better_form(flate, jpeg) {
            Some((content, update)) => {
                &&& flate is Some ==> content.len() <= (flate->0).0.len()
                &&& jpeg is Some && flate is Some ==> content.len() <= (jpeg->0).len()
                &&& update == UpdateValue::FlateToJpeg ==> jpeg == Some(content)
                &&& update is Flate ==> flate is Some && (flate->0).0 == content
                    && update->Flate_0 == (flate->0).1
                &&& update != UpdateValue::Dct
            },
            None => flate is None && jpeg is None,
        },
{
}

/// A quality is held between one and a hundred.
pub proof fn quality_is_held(q: u8)
    ensures
        1 <= clamped_quality(q) <= 100,
        1 <= q <= 100 ==> clamped_quality(q) == q,
        q > 100 ==> clamped_quality(q) == 100,
{
}

/// The scale at which a JPEG is decoded still covers the target, unless it is
/// the full size, and at every smaller scale one side would fall short.
pub proof fn scale_is_the_smallest_that_covers(
    full_w: int,
    full_h: int,
    target_w: int,
    target_h: int,
    n: int,
    k: int,
)
    requires
        smallest_scale(full_w, full_h, target_w, target_h, n),
        0 <= full_w,
        0 <= full_h,
    ensures
        1 <= n <= 8,
        n < 8 ==> full_w * n + 7 >= 8 * target_w && full_h * n + 7 >= 8 * target_h,
        1 <= k < n ==> full_w * k + 7 < 8 * target_w || full_h * k + 7 < 8 * target_h,
{
    if 1 <= k < n {
        assert(!covers(full_w, full_h, target_w, target_h, k));
    }
}

} // verus!
