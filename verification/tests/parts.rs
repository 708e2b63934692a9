//! The parts, one by one.

use amatl::cli::{
    choose_destination, defaults_blurb, is_pdf, may_write, options_from, resolve, Choices,
    Destination, Switch,
};
use amatl::content::{choose_stored, content_number_tokens, minify_number_literal};
use amatl::dedup::{dedup_decoded_streams, dedup_objects, dedup_streams, is_page_node};
use amatl::edit::{apply_edits, shift, Edit};
use amatl::equiv::{integer_equals_real, objects_equivalent};
use amatl::filters::read_stream;
use amatl::finish::{compress, dedup_to_fixpoint, redeflate_flate_streams};
use amatl::flate::{accept_deflated, deflate_backend, inflate_capped, replan_deflate};
use amatl::flate::DeflateBackend;
use amatl::gray::{collapse_gray, gray_work};
use amatl::images::{decode_flate_image, encode_flate};
use amatl::inline::{can_parse, read_operations, read_operations_strict};
use amatl::jpx::{check_convertible, convert_images, plan_jpx, plan_jpx_conversions};
use amatl::lookup::{get_object, is_encrypted, signature_present};
use amatl::minify::count_object_references;
use amatl::object::{Dict, Entry, Indirect, ObjectId, Pdf, PdfObject, PdfStream};
use amatl::options::{is_at_most_zero, OptimizeOptions};
use amatl::patch::compress_xref_stream;
use amatl::pipeline::{contents_loaded, keep_smaller, strip_structure, try_optimize};
use amatl::placements::Placements;
use amatl::plan::{choose_route, eligible_smask, pays, read_image_size, ImageOptions, Route};
use amatl::png::{paeth_predict, png_defilter, png_up_filter};
use amatl::raster::{
    back_matches, can_resize, decode_jpeg, decode_scale, encode_jpeg, jpeg_quant_tables, jpx_info, jpx_raster,
    looks_like_line_art, resize, Codec, Kernel, Raster,
};
use amatl::reals::capture::Reading;
use amatl::reals::offsets::{int_value, parse_int_at, width_array};
use amatl::reals::scan::{is_boundary, is_delimiter};
use amatl::replace::Geometry;
use amatl::text::{
    decimal, find_sub, parse_signed_word, parse_word, rfind_sub, skip_ascii_digits, split_words,
};
use amatl::tree::{can_walk, list_pages};
use lopdf::{Dictionary, Document, Object, Stream};

fn name(n: &str) -> PdfObject {
    PdfObject::Name(n.as_bytes().to_vec())
}

fn dict(entries: Vec<(&str, PdfObject)>) -> Dict {
    Dict {
        entries: entries
            .into_iter()
            .map(|(key, value)| Entry { key: key.as_bytes().to_vec(), value })
            .collect(),
    }
}

fn stream(entries: Vec<(&str, PdfObject)>, content: Vec<u8>) -> PdfStream {
    PdfStream { dict: dict(entries), content, compressible: true }
}

fn pdf(objects: Vec<(u32, PdfObject)>, trailer: Vec<(&str, PdfObject)>) -> Pdf {
    Pdf {
        version: b"1.5".to_vec(),
        binary_mark: vec![0xBB, 0xAD, 0xC0, 0xDE],
        trailer: dict(trailer),
        max_id: objects.last().map_or(0, |o| o.0),
        objects: objects
            .into_iter()
            .map(|(id, object)| Indirect { id: (id, 0), object })
            .collect(),
        xref_stream: true,
        encrypted: false,
    }
}

fn noise(n: usize) -> Vec<u8> {
    let mut state = 0x2545_F491_u32;
    (0..n)
        .map(|_| {
            state ^= state << 13;
            state ^= state >> 17;
            state ^= state << 5;
            (state >> 24) as u8
        })
        .collect()
}

fn smooth(width: u32, height: u32, gray: bool) -> Raster {
    let channels = if gray { 1 } else { 3 };
    let mut pixels = Vec::new();
    for y in 0..height {
        for x in 0..width {
            for c in 0..channels {
                pixels.push(((x * 3 + y * 2 + c * 40) % 256 / 2 + 60) as u8);
            }
        }
    }
    Raster { width, height, gray, pixels }
}

/// Decodes a JPEG, at the smallest scale that covers the target where
/// possible. libjpeg unwinds on a broken file, so what cannot be decoded
/// otherwise is declined.
fn decode(data: &[u8], target_w: u32, target_h: u32) -> Option<Raster> {
    let full = image::load_from_memory_with_format(data, image::ImageFormat::Jpeg).ok()?;
    let gray = matches!(
        full,
        image::DynamicImage::ImageLuma8(_) | image::DynamicImage::ImageLuma16(_)
    );
    let (width, height) = (full.width(), full.height());
    decode_at_scale(data, target_w, target_h).or_else(|| {
        let pixels =
            if gray { full.into_luma8().into_raw() } else { full.into_rgb8().into_raw() };
        Some(Raster { width, height, gray, pixels })
    })
}

/// Encodes an image as JPEG.
fn encode(img: &Raster, quality: u8) -> Option<Vec<u8>> {
    let space = if img.gray {
        mozjpeg::ColorSpace::JCS_GRAYSCALE
    } else {
        mozjpeg::ColorSpace::JCS_RGB
    };
    let mut comp = mozjpeg::Compress::new(space);
    comp.set_size(img.width as usize, img.height as usize);
    comp.set_quality(f32::from(quality));
    let mut started = comp.start_compress(Vec::new()).ok()?;
    started.write_scanlines(&img.pixels).ok()?;
    started.finish().ok()
}

/// The samples of a JPEG 2000 file.
fn decode_jpx(data: &[u8]) -> Option<Vec<u8>> {
    let settings = dicom_toolkit_jpeg2000::DecodeSettings::default();
    dicom_toolkit_jpeg2000::Image::new(data, &settings).ok()?.decode().ok()
}

fn codec() -> Codec<
    impl Fn(&[u8], u32, u32) -> Option<Raster>,
    impl Fn(&Raster, u8) -> Option<Vec<u8>>,
    impl Fn(&[u8]) -> Option<Vec<u8>>,
> {
    Codec { decode, encode, jpx: decode_jpx }
}

/// Decodes a JPEG that is not broken at the smallest scale that covers the
/// target.
fn decode_at_scale(data: &[u8], target_w: u32, target_h: u32) -> Option<Raster> {
    let mut dec = mozjpeg::Decompress::new_mem(data).ok()?;
    let (full_w, full_h) = (dec.width(), dec.height());
    if full_w == 0 || full_h == 0 {
        return None;
    }
    let gray = dec.color_space() == mozjpeg::ColorSpace::JCS_GRAYSCALE;
    if matches!(
        dec.color_space(),
        mozjpeg::ColorSpace::JCS_CMYK | mozjpeg::ColorSpace::JCS_YCCK
    ) {
        return None;
    }
    dec.scale(decode_scale(full_w as u32, full_h as u32, target_w, target_h));
    let mut started = if gray { dec.grayscale().ok()? } else { dec.rgb().ok()? };
    let (width, height) = (started.width() as u32, started.height() as u32);
    let pixels: Vec<u8> = started.read_scanlines::<u8>().ok()?;
    started.finish().ok()?;
    Some(Raster { width, height, gray, pixels })
}

fn plain_object(o: &Object) -> PdfObject {
    match o {
        Object::Null => PdfObject::Null,
        Object::Boolean(b) => PdfObject::Boolean(*b),
        Object::Integer(i) => PdfObject::Integer(*i),
        Object::Real(v) => PdfObject::Real(format!("{v}").into_bytes()),
        Object::Name(n) => PdfObject::Name(n.clone()),
        Object::String(t, f) => {
            PdfObject::Text(t.clone(), *f == lopdf::StringFormat::Hexadecimal)
        }
        Object::Array(a) => PdfObject::Array(a.iter().map(plain_object).collect()),
        Object::Dictionary(d) => PdfObject::Dictionary(plain_dict(d)),
        Object::Stream(s) => PdfObject::Stream(plain_stream(s)),
        Object::Reference(id) => PdfObject::Reference(*id),
    }
}

fn plain_dict(d: &Dictionary) -> Dict {
    let entry = |(key, value): (&Vec<u8>, &Object)| Entry {
        key: key.clone(),
        value: plain_object(value),
    };
    Dict { entries: d.iter().map(entry).collect() }
}

fn plain_stream(s: &Stream) -> PdfStream {
    PdfStream {
        dict: plain_dict(&s.dict),
        content: s.content.clone(),
        compressible: s.allows_compression,
    }
}

fn plain(doc: &Document) -> Pdf {
    let kind = &doc.reference_table.cross_reference_type;
    let objects = doc.objects.iter();
    Pdf {
        version: doc.version.clone().into_bytes(),
        binary_mark: doc.binary_mark.clone(),
        trailer: plain_dict(&doc.trailer),
        objects: objects
            .map(|(id, o)| Indirect { id: *id, object: plain_object(o) })
            .collect(),
        max_id: doc.max_id,
        xref_stream: matches!(kind, lopdf::xref::XrefType::CrossReferenceStream),
        encrypted: doc.was_encrypted(),
    }
}

/// Reads a file.
fn load(file: &[u8]) -> Option<Pdf> {
    let doc = Document::load_mem(file).ok()?;
    Some(plain(&doc))
}

fn no_size(_: &Placements, _: ObjectId, _: u32, _: u32) -> Option<Geometry> {
    None
}

fn no_reading(_: &[u8]) -> Option<Reading> {
    None
}

// --- deflating ------------------------------------------------------------------------

#[test]
fn both_encoders_inflate_back() {
    let plain = b"abcabcabcabcabcabcabcabcabcabc".repeat(20);
    for backend in [DeflateBackend::Zlib, DeflateBackend::Zopfli] {
        let out = deflate_backend(&plain, backend).unwrap();
        assert_ne!(out, plain);
        assert!(out.len() < plain.len());
        assert_eq!(inflate_capped(&out, plain.len()).unwrap(), plain);
        assert!(inflate_capped(&out, plain.len() - 1).is_none());
    }
    assert!(inflate_capped(b"no zlib at all", 100).is_none());
}

#[test]
fn deflated_form_is_accepted_only_where_it_is_smaller_and_inflates_back() {
    let plain = b"abcabcabcabcabcabc".to_vec();
    let good = deflate_backend(&plain, DeflateBackend::Zlib).unwrap();
    let n = good.len();
    assert_eq!(accept_deflated(&plain, n + 1, Some(good.clone())), Some(good.clone()));
    assert!(accept_deflated(&plain, n, Some(good.clone())).is_none());
    assert!(accept_deflated(b"other", n + 1, Some(good)).is_none());
    assert!(accept_deflated(&plain, n, None).is_none());
}

#[test]
fn deflating_again_at_level_nine_changes_nothing() {
    let plain = b"abcabcabcabcabcabcabcabcabcabc".repeat(20);
    let out = deflate_backend(&plain, DeflateBackend::Zlib).unwrap();
    assert!(replan_deflate(&out, DeflateBackend::Zlib).is_none());
    assert!(replan_deflate(b"junk", DeflateBackend::Zlib).is_none());
}

// --- rows -------------------------------------------------------------------------------

#[test]
fn up_filter_is_undone_by_the_defilter() {
    let raw = noise(5 * 4 * 3);
    let filtered = png_up_filter(&raw, 5, 3);
    assert_eq!(filtered.len(), raw.len() + 4);
    assert_eq!(filtered[0], 2);
    assert_eq!(&filtered[1..16], &raw[..15]);
    assert_eq!(filtered[17], raw[15].wrapping_sub(raw[0]));
    assert_eq!(png_defilter(&filtered, 3, 15).unwrap(), raw);
    assert!(png_defilter(&[9, 1, 2, 3], 1, 3).is_none());
}

#[test]
fn paeth_takes_the_nearest() {
    assert_eq!(paeth_predict(10, 20, 15), 15);
    assert_eq!(paeth_predict(10, 20, 10), 20);
    assert_eq!(paeth_predict(10, 20, 20), 10);
}

#[test]
fn flate_rows_decode_to_what_was_encoded() {
    let img = smooth(40, 30, false);
    let (content, parms) = encode_flate(&img.pixels, 40, false).unwrap();
    assert!(parms.is_some());
    let mut entries = vec![
        ("Subtype", name("Image")),
        ("ColorSpace", name("DeviceRGB")),
        ("BitsPerComponent", PdfObject::Integer(8)),
        ("Filter", name("FlateDecode")),
    ];
    entries.push(("DecodeParms", PdfObject::Dictionary(parms.unwrap())));
    let s = stream(entries, content);
    let back = decode_flate_image(&pdf(vec![], vec![]), &s, 40, 30).unwrap();
    assert_eq!(back.pixels, img.pixels);
    assert!(decode_flate_image(&pdf(vec![], vec![]), &s, 40, 31).is_none());
}

#[test]
fn filters_are_undone_where_nothing_overflows() {
    let ascii = |data: &[u8]| stream(vec![("Filter", name("ASCII85Decode"))], data.to_vec());
    assert_eq!(read_stream(&ascii(b"87cURD]i,\"Ebo80~>")).unwrap(), b"Hello World!");
    assert_eq!(read_stream(&ascii(b"s8W-!~>")).unwrap(), vec![255; 4]);
    assert!(read_stream(&ascii(b"s8W-\"~>")).is_none());
    assert!(read_stream(&ascii(b"az~>")).is_none());
    let plain = b"hello hello hello hello".to_vec();
    let flate = deflate_backend(&plain, DeflateBackend::Zlib).unwrap();
    let s = stream(vec![("Filter", name("FlateDecode"))], flate.clone());
    assert_eq!(read_stream(&s).unwrap(), plain);
    let parms = dict(vec![
        ("Predictor", PdfObject::Integer(12)),
        ("Columns", PdfObject::Integer(i64::MAX)),
    ]);
    let s = stream(
        vec![("Filter", name("FlateDecode")), ("DecodeParms", PdfObject::Dictionary(parms))],
        flate,
    );
    assert!(read_stream(&s).is_none());
    let twice = || PdfObject::Array(vec![name("FlateDecode"), name("ASCII85Decode")]);
    let staged = |text: &[u8]| {
        let payload = deflate_backend(text, DeflateBackend::Zlib).unwrap();
        read_stream(&stream(vec![("Filter", twice())], payload))
    };
    assert_eq!(staged(b"87cURD]i,\"Ebo80~>").unwrap(), b"Hello World!");
    assert!(staged(b"s8W-\"~>").is_none());
    assert_eq!(read_stream(&stream(vec![], b"raw".to_vec())).unwrap(), b"raw");
}

// --- pixels -------------------------------------------------------------------------------

#[test]
fn resized_image_has_the_new_size() {
    for gray in [true, false] {
        let out = resize(smooth(40, 30, gray), 20, 10, Kernel::Lanczos);
        assert_eq!((out.width, out.height, out.gray), (20, 10, gray));
        assert_eq!(out.pixels.len(), 200 * if gray { 1 } else { 3 });
    }
    let flat = Raster { width: 8, height: 8, gray: true, pixels: vec![77; 64] };
    assert_eq!(resize(flat, 4, 4, Kernel::Triangle).pixels, vec![77; 16]);
    assert!(can_resize(0x40_0000, 2, 0x3F_0000, 1));
    assert!(!can_resize(8_816_145, 2, 8_807_214, 1));
    assert!(!can_resize(2, 8_816_145, 1, 8_807_214));
    assert!(!can_resize(10, 10, 0x40_0001, 1));
}

#[test]
fn encoded_image_decodes_back() {
    for gray in [true, false] {
        let img = smooth(64, 48, gray);
        let jpeg = encode_jpeg(&img, 85, &codec()).unwrap();
        assert_eq!(&jpeg[..2], &[0xFF, 0xD8]);
        let back = decode_jpeg(&jpeg, 64, 48, &codec());
        assert!(back_matches(&img, &back));
        assert!(jpeg_quant_tables(&jpeg).is_some());
    }
    let empty = Raster { width: 0, height: 5, gray: true, pixels: vec![] };
    assert!(encode_jpeg(&empty, 85, &codec()).is_none());
    let wide = Raster { width: 65501, height: 1, gray: true, pixels: vec![0; 65501] };
    assert!(encode_jpeg(&wide, 85, &codec()).is_none());
    assert!(decode_jpeg(b"not a jpeg", 1, 1, &codec()).is_none());
    assert!(!back_matches(&smooth(4, 4, true), &None));
    assert!(!back_matches(&smooth(4, 4, true), &Some(smooth(4, 5, true))));
}

#[test]
fn quality_decides_the_tables() {
    let img = smooth(32, 32, false);
    let low = jpeg_quant_tables(&encode_jpeg(&img, 40, &codec()).unwrap()).unwrap();
    let high = jpeg_quant_tables(&encode_jpeg(&img, 90, &codec()).unwrap()).unwrap();
    assert_ne!(low, high);
    assert_eq!(jpeg_quant_tables(&encode_jpeg(&img, 0, &codec()).unwrap()),
        jpeg_quant_tables(&encode_jpeg(&img, 1, &codec()).unwrap()));
    assert!(jpeg_quant_tables(b"xx").is_none());
}

#[test]
fn smallest_covering_scale_is_chosen() {
    assert_eq!(decode_scale(4000, 4000, 180, 180), 1);
    assert_eq!(decode_scale(4000, 4000, 501, 500), 2);
    assert_eq!(decode_scale(800, 400, 400, 200), 4);
    assert_eq!(decode_scale(100, 100, 500, 500), 8);
}

#[test]
fn line_art_is_told_from_photographs() {
    let mut art = vec![255u8; 100 * 100];
    for x in 0..100 {
        art[50 * 100 + x] = 0;
    }
    let art = Raster { width: 100, height: 100, gray: true, pixels: art };
    assert!(looks_like_line_art(&art));
    let photo = Raster { width: 100, height: 100, gray: true, pixels: noise(10_000) };
    assert!(!looks_like_line_art(&photo));
    let mut row = Raster { width: 100, height: 1, gray: true, pixels: vec![255u8; 100] };
    for i in [10, 20, 30, 40, 99] {
        row.pixels[i] = 0;
    }
    assert!(looks_like_line_art(&row));
    row.pixels[60] = 0;
    assert!(!looks_like_line_art(&row));
}

// --- JPEG 2000 ------------------------------------------------------------------------------

fn codestream(img: &Raster) -> Vec<u8> {
    let channels = if img.gray { 1 } else { 3 };
    dicom_toolkit_jpeg2000::encode(
        &img.pixels,
        img.width,
        img.height,
        channels,
        8,
        false,
        &dicom_toolkit_jpeg2000::EncodeOptions::default(),
    )
    .unwrap()
}

fn jpx_object(img: &Raster, extra: Vec<(&str, PdfObject)>) -> PdfObject {
    let mut entries = vec![("Subtype", name("Image")), ("Filter", name("JPXDecode"))];
    entries.extend(extra);
    PdfObject::Stream(stream(entries, codestream(img)))
}

#[test]
fn jpeg_2000_header_and_samples_are_read() {
    let img = smooth(64, 48, true);
    let data = codestream(&img);
    let h = jpx_info(&data).unwrap();
    assert_eq!((h.width, h.height, h.depth, h.alpha, h.gray), (64, 48, 8, false, Some(true)));
    let back = jpx_raster(&data, 64, 48, true, &codec());
    assert!(back_matches(&img, &back));
    assert!(jpx_raster(&data, 64, 49, true, &codec()).is_none());
    assert!(jpx_info(b"nothing").is_none());
    let mut named = data.clone();
    named.extend_from_slice(b"cdef");
    assert!(jpx_info(&named).is_some());
    named[41] = 0xFF;
    assert!(jpx_info(&named).is_none());
    assert!(jpx_raster(b"nothing", 64, 48, true, &codec()).is_none());
}

#[test]
fn codec_that_declines_leaves_the_image() {
    let img = smooth(64, 48, true);
    let silent = Codec {
        decode: |_: &[u8], _: u32, _: u32| None::<Raster>,
        encode: |_: &Raster, _: u8| None::<Vec<u8>>,
        jpx: |_: &[u8]| None::<Vec<u8>>,
    };
    assert!(encode_jpeg(&img, 85, &silent).is_none());
    assert!(decode_jpeg(&encode(&img, 85).unwrap(), 64, 48, &silent).is_none());
    assert!(jpx_raster(&codestream(&img), 64, 48, true, &silent).is_none());
    let lying = Codec {
        decode: |_: &[u8], _: u32, _: u32| {
            Some(Raster { width: 9, height: 9, gray: true, pixels: vec![0; 80] })
        },
        encode: |_: &Raster, _: u8| None::<Vec<u8>>,
        jpx: |_: &[u8]| None::<Vec<u8>>,
    };
    assert!(decode_jpeg(b"x", 1, 1, &lying).is_none());
}

#[test]
fn jpeg_2000_image_becomes_a_jpeg() {
    let mut img = smooth(160, 120, true);
    for (p, n) in img.pixels.iter_mut().zip(noise(160 * 120)) {
        *p = p.wrapping_add(n % 16);
    }
    let doc = pdf(vec![(1, jpx_object(&img, vec![]))], vec![]);
    assert_eq!(check_convertible(&doc, &doc.objects[0].object), Some((160, 120, true)));
    let plans = plan_jpx_conversions(&doc, 60, &codec());
    assert!(plans[0].is_some());
    let out = convert_images(doc, plans);
    let PdfObject::Stream(s) = &out.objects[0].object else {
        panic!("a stream stays a stream");
    };
    assert!(matches!(s.dict.get(b"Filter"), Some(PdfObject::Name(n)) if n == b"DCTDecode"));
    assert!(matches!(s.dict.get(b"ColorSpace"), Some(PdfObject::Name(n)) if n == b"DeviceGray"));
    assert!(matches!(s.dict.get(b"BitsPerComponent"), Some(PdfObject::Integer(8))));
    assert!(matches!(s.dict.get(b"Width"), Some(PdfObject::Integer(160))));
    assert_eq!(&s.content[..2], &[0xFF, 0xD8]);
}

#[test]
fn jpeg_2000_image_with_a_mask_stays() {
    let img = smooth(32, 32, true);
    for extra in [
        ("SMask", PdfObject::Reference((9, 0))),
        ("Decode", PdfObject::Array(vec![])),
        ("ColorSpace", name("DeviceRGB")),
        ("BitsPerComponent", PdfObject::Integer(1)),
    ] {
        let doc = pdf(vec![(1, jpx_object(&img, vec![extra]))], vec![]);
        assert!(check_convertible(&doc, &doc.objects[0].object).is_none());
        assert!(plan_jpx(&doc, &doc.objects[0].object, 60, &codec()).is_none());
    }
}

// --- routes ------------------------------------------------------------------------------------

fn image(filter: &str, extra: Vec<(&str, PdfObject)>) -> PdfStream {
    let mut entries = vec![
        ("Subtype", name("Image")),
        ("Filter", name(filter)),
        ("Width", PdfObject::Integer(10)),
        ("Height", PdfObject::Integer(10)),
    ];
    entries.extend(extra);
    stream(entries, vec![1, 2, 3])
}

#[test]
fn route_follows_filter_mask_and_consent() {
    let mask = PdfObject::Stream(stream(
        vec![
            ("Subtype", name("Image")),
            ("ColorSpace", name("DeviceGray")),
            ("BitsPerComponent", PdfObject::Integer(8)),
        ],
        vec![],
    ));
    let doc = pdf(vec![(7, mask)], vec![]);
    let o = ImageOptions { quality: 78, downsample_flate: true, allow_lossy: false };
    let lossy = ImageOptions { quality: 78, downsample_flate: true, allow_lossy: true };
    let rgb = || vec![("ColorSpace", name("DeviceRGB"))];
    let (dct, flate) = (image("DCTDecode", rgb()), image("FlateDecode", vec![]));
    assert_eq!(choose_route(&doc, &dct, true, o), Route::ResizeJpeg);
    assert_eq!(choose_route(&doc, &dct, false, o), Route::Requant);
    assert_eq!(choose_route(&doc, &flate, true, o), Route::ResizeFlate);
    assert_eq!(choose_route(&doc, &flate, false, o), Route::Skip);
    assert_eq!(choose_route(&doc, &flate, false, lossy), Route::FlateToJpeg);
    let smask = || vec![("SMask", PdfObject::Reference((7, 0)))];
    let mut pair = smask();
    pair.extend(rgb());
    assert_eq!(choose_route(&doc, &image("DCTDecode", pair), true, o), Route::ResizeJpegPair);
    assert_eq!(choose_route(&doc, &image("FlateDecode", smask()), true, o), Route::ResizeFlatePair);
    let masked = image("DCTDecode", vec![("Mask", PdfObject::Null)]);
    assert_eq!(choose_route(&doc, &masked, true, o), Route::Skip);
    assert_eq!(choose_route(&doc, &image("JBIG2Decode", vec![]), true, lossy), Route::Skip);
    assert_eq!(eligible_smask(&doc, &PdfObject::Reference((7, 0)), true), Some((7, 0)));
    assert_eq!(eligible_smask(&doc, &PdfObject::Reference((8, 0)), false), None);
}

#[test]
fn jpeg_of_four_components_or_with_a_decode_array_stays() {
    let profile = |n: i64| PdfObject::Stream(stream(vec![("N", PdfObject::Integer(n))], vec![]));
    let doc = pdf(vec![(7, profile(3)), (8, profile(4))], vec![]);
    let o = ImageOptions { quality: 78, downsample_flate: true, allow_lossy: true };
    let route = |entries: Vec<(&str, PdfObject)>| {
        choose_route(&doc, &image("DCTDecode", entries), true, o)
    };
    let space = |v: PdfObject| vec![("ColorSpace", v)];
    let icc = |id: u32| PdfObject::Array(vec![name("ICCBased"), PdfObject::Reference((id, 0))]);
    let calibrated = PdfObject::Array(vec![name("CalRGB"), PdfObject::Dictionary(dict(vec![]))]);
    assert_eq!(route(space(name("DeviceGray"))), Route::ResizeJpeg);
    assert_eq!(route(space(icc(7))), Route::ResizeJpeg);
    assert_eq!(route(space(calibrated)), Route::ResizeJpeg);
    assert_eq!(route(space(name("DeviceCMYK"))), Route::Skip);
    assert_eq!(route(space(icc(8))), Route::Skip);
    assert_eq!(route(vec![]), Route::Skip);
    let decode = ("Decode", PdfObject::Array(vec![PdfObject::Integer(1), PdfObject::Integer(0)]));
    assert_eq!(route(vec![("ColorSpace", name("DeviceGray")), decode]), Route::Skip);
}

#[test]
fn five_percent_is_the_least_that_pays() {
    assert!(pays(94, 0, 100, 0));
    assert!(!pays(95, 0, 100, 0));
    assert!(!pays(90, 5, 50, 50));
    assert!(pays(90, 4, 50, 50));
}

#[test]
fn image_size_needs_both_sides() {
    let w = ("Width", PdfObject::Integer(4));
    let h = ("Height", PdfObject::Integer(5));
    assert_eq!(read_image_size(&dict(vec![w, h])), Some((4, 5)));
    assert_eq!(read_image_size(&dict(vec![("Width", PdfObject::Integer(4))])), None);
}

// --- documents ------------------------------------------------------------------------------------

fn gray_in_color() -> PdfObject {
    let mut pixels = Vec::new();
    for v in noise(20 * 20) {
        pixels.extend_from_slice(&[v, v, v]);
    }
    PdfObject::Stream(stream(
        vec![
            ("Subtype", name("Image")),
            ("Width", PdfObject::Integer(20)),
            ("Height", PdfObject::Integer(20)),
            ("ColorSpace", name("DeviceRGB")),
            ("BitsPerComponent", PdfObject::Integer(8)),
            ("Filter", name("FlateDecode")),
        ],
        deflate_backend(&pixels, DeflateBackend::Zlib).unwrap(),
    ))
}

#[test]
fn gray_image_keeps_its_samples() {
    let doc = pdf(vec![(1, gray_in_color())], vec![]);
    assert!(gray_work(&doc));
    let out = collapse_gray(doc);
    assert!(!gray_work(&out));
    let PdfObject::Stream(s) = &out.objects[0].object else {
        panic!("a stream stays a stream");
    };
    let img = decode_flate_image(&out, s, 20, 20).unwrap();
    assert!(img.gray);
    assert_eq!(img.pixels, noise(20 * 20));
}

#[test]
fn equal_objects_are_merged_and_references_follow() {
    let twin = || PdfObject::Dictionary(dict(vec![("A", PdfObject::Integer(1))]));
    let page = || PdfObject::Dictionary(dict(vec![("Type", name("Page"))]));
    let refs = PdfObject::Array(vec![PdfObject::Reference((2, 0)), PdfObject::Reference((3, 0))]);
    let doc = pdf(
        vec![(1, twin()), (2, twin()), (3, page()), (4, page()), (5, refs)],
        vec![("Root", PdfObject::Reference((2, 0)))],
    );
    assert!(is_page_node(&doc.objects[2].object));
    let (out, merged) = dedup_objects(doc);
    assert!(merged);
    assert_eq!(out.objects.iter().map(|o| o.id.0).collect::<Vec<_>>(), vec![1, 3, 4, 5]);
    assert!(matches!(out.trailer.get(b"Root"), Some(PdfObject::Reference((1, 0)))));
    let PdfObject::Array(items) = &out.objects[3].object else {
        panic!("an array stays an array");
    };
    assert!(matches!(items[0], PdfObject::Reference((1, 0))));
    let (_, again) = dedup_objects(out);
    assert!(!again);
}

#[test]
fn objects_are_merged_by_what_is_written() {
    let state = |v: PdfObject| PdfObject::Dictionary(dict(vec![("CA", v)]));
    let real = |t: &str| PdfObject::Real(t.as_bytes().to_vec());
    let one = || PdfObject::Integer(1);
    let (out, merged) = dedup_objects(pdf(vec![(1, state(one())), (2, state(real("1")))], vec![]));
    assert!(merged && out.objects.len() == 1);
    let nested = |v: PdfObject| PdfObject::Array(vec![PdfObject::Array(vec![v])]);
    let negative = vec![(1, nested(real("-7"))), (2, nested(PdfObject::Integer(-7)))];
    assert!(dedup_objects(pdf(negative, vec![])).1);
    for (a, b) in [("1", "1.5"), ("0", "-0")] {
        assert!(!dedup_objects(pdf(vec![(1, state(real(a))), (2, state(real(b)))], vec![])).1);
    }
    let text = |hex: bool| PdfObject::Text(b"1".to_vec(), hex);
    let texts = vec![(1, text(true)), (2, text(false)), (3, name("1")), (4, one())];
    assert!(!dedup_objects(pdf(texts, vec![])).1);
    let drawn = |v: PdfObject| PdfObject::Stream(stream(vec![("CA", v)], b"q".to_vec()));
    let (out, merged) = dedup_streams(pdf(vec![(1, drawn(real("1"))), (2, drawn(one()))], vec![]));
    assert!(merged && out.objects.len() == 1);
}

#[test]
fn streams_are_merged_by_what_they_decode_to() {
    let plain = b"hello hello hello hello hello hello hello hello".to_vec();
    let a = deflate_backend(&plain, DeflateBackend::Zlib).unwrap();
    let b = deflate_backend(&plain, DeflateBackend::Zopfli).unwrap();
    let make = |c: Vec<u8>| PdfObject::Stream(stream(vec![("Filter", name("FlateDecode"))], c));
    let two = |x: Vec<u8>, y: Vec<u8>| pdf(vec![(1, make(x)), (2, make(y))], vec![]);
    let (out, merged) = dedup_streams(two(a.clone(), a.clone()));
    assert!(merged && out.objects.len() == 1);
    let (out, merged) = dedup_decoded_streams(two(a, b));
    assert!(merged && out.objects.len() == 1);
    let twice = pdf(
        vec![(1, PdfObject::Integer(4)), (2, PdfObject::Integer(4)), (3, PdfObject::Integer(5))],
        vec![],
    );
    assert_eq!(dedup_to_fixpoint(twice).objects.len(), 2);
}

#[test]
fn compressing_keeps_what_does_not_shrink() {
    let long = b"long long long long long long long long long long long".repeat(4);
    let doc = pdf(
        vec![
            (1, PdfObject::Stream(stream(vec![], long.clone()))),
            (2, PdfObject::Stream(stream(vec![], b"short".to_vec()))),
        ],
        vec![],
    );
    let out = compress(doc);
    let PdfObject::Stream(s) = &out.objects[0].object else {
        panic!("a stream stays a stream");
    };
    assert!(s.content.len() < long.len());
    assert_eq!(inflate_capped(&s.content, long.len()).unwrap(), long);
    let PdfObject::Stream(s) = &out.objects[1].object else {
        panic!("a stream stays a stream");
    };
    assert_eq!(s.content, b"short");
    let n = out.objects.len();
    assert_eq!(redeflate_flate_streams(out, DeflateBackend::Zlib).objects.len(), n);
}

#[test]
fn structure_leaves_the_catalog() {
    let catalog = PdfObject::Dictionary(dict(vec![
        ("Type", name("Catalog")),
        ("StructTreeRoot", PdfObject::Reference((9, 0))),
        ("MarkInfo", PdfObject::Null),
        ("Lang", PdfObject::Null),
        ("Pages", PdfObject::Reference((2, 0))),
    ]));
    let mut doc = pdf(vec![(1, catalog)], vec![("Root", PdfObject::Reference((1, 0)))]);
    strip_structure(&mut doc);
    let PdfObject::Dictionary(d) = &doc.objects[0].object else {
        panic!("a dictionary stays a dictionary");
    };
    assert!(!d.has(b"StructTreeRoot") && !d.has(b"MarkInfo") && !d.has(b"Lang"));
    assert!(d.has(b"Type") && d.has(b"Pages"));
}

#[test]
fn references_are_followed_and_counted() {
    let doc = pdf(
        vec![
            (1, PdfObject::Reference((2, 0))),
            (2, PdfObject::Reference((3, 0))),
            (3, PdfObject::Integer(7)),
        ],
        vec![("Root", PdfObject::Reference((3, 0)))],
    );
    assert!(matches!(get_object(&doc, (1, 0)), Some(PdfObject::Integer(7))));
    assert!(get_object(&doc, (4, 0)).is_none());
    assert_eq!(count_object_references(&doc), vec![0, 1, 2]);
    assert!(!is_encrypted(&doc));
    assert!(!signature_present(&doc));
    assert!(contents_loaded(&doc));
}

#[test]
fn page_with_lost_content_is_declined() {
    let file = b"%PDF-1.4\n1 0 obj\n<</Type/Catalog/Pages 2 0 R>>\nendobj\n\
        2 0 obj\n<</Type/Pages/Kids[3 0 R]/Count 1>>\nendobj\n\
        3 0 obj\n<</Type/Page/Parent 2 0 R/Contents 9 0 R>>\nendobj\n";
    let mut bytes = file.to_vec();
    let at = bytes.len();
    let offset = |n: &str| find_sub(file, format!("{n} 0 obj").as_bytes(), 0).unwrap();
    let mut table = String::from("xref\n0 4\n0000000000 65535 f \n");
    for n in ["1", "2", "3"] {
        table.push_str(&format!("{:010} 00000 n \n", offset(n)));
    }
    table.push_str(&format!("trailer\n<</Size 4/Root 1 0 R>>\nstartxref\n{at}\n%%EOF"));
    bytes.extend_from_slice(table.as_bytes());
    let options = OptimizeOptions::default().with_strip_accessibility(true);
    assert!(try_optimize(&bytes, options, &no_size, &codec(), &no_reading, &load).is_none());
    let kept = find_sub(&bytes, b"/Contents 9 0 R", 0).unwrap();
    bytes[kept..kept + 15].copy_from_slice(b"               ");
    assert!(try_optimize(&bytes, options, &no_size, &codec(), &no_reading, &load).is_some());
    assert!(try_optimize(b"junk", options, &no_size, &codec(), &no_reading, &load).is_none());
}

#[test]
fn result_is_the_input_or_strictly_smaller() {
    assert_eq!(keep_smaller(b"abc", Some(b"ab".to_vec())), b"ab");
    assert_eq!(keep_smaller(b"abc", Some(b"xyz".to_vec())), b"abc");
    assert_eq!(keep_smaller(b"abc", None), b"abc");
}

// --- numbers -----------------------------------------------------------------------------------------

#[test]
fn shortest_spelling_is_its_own() {
    for text in ["+0012.500", "-0.000", "7.", ".25", "-13"] {
        let once = minify_number_literal(text.as_bytes());
        assert_eq!(minify_number_literal(&once), once);
    }
    assert_eq!(minify_number_literal(b"+0012.500"), b"12.5");
}

#[test]
fn numbers_of_a_content_stream_are_found() {
    assert_eq!(
        content_number_tokens(b"1 0.5 (2 3) Tj /F1 -7 Tf").unwrap(),
        vec![(0, 1), (2, 5), (19, 21)]
    );
    assert!(content_number_tokens(b"(open").is_none());
}

#[test]
fn better_form_is_stored() {
    let text = vec![b'a'; 40];
    let small = vec![1u8; 10];
    assert_eq!(choose_stored(text.clone(), 41, false, None), Some((text.clone(), false)));
    assert_eq!(
        choose_stored(text.clone(), 30, true, Some(small.clone())),
        Some((small.clone(), true))
    );
    assert_eq!(choose_stored(text.clone(), 29, true, Some(small)), None);
    assert_eq!(choose_stored(text, 40, false, None), None);
}

#[test]
fn integer_and_real_are_compared_in_single_precision() {
    assert!(integer_equals_real(5, b"5"));
    assert!(!integer_equals_real(5, b"5.5"));
    assert!(objects_equivalent(&PdfObject::Integer(3), &PdfObject::Real(b"3".to_vec())));
    assert!(!objects_equivalent(&PdfObject::Integer(3), &name("3")));
}

#[test]
fn text_is_searched_and_numbers_are_read() {
    assert_eq!(find_sub(b"abcabc", b"bc", 2), Some(4));
    assert_eq!(find_sub(b"abcabc", b"x", 0), None);
    assert_eq!(rfind_sub(b"abcabc", b"bc", 6), Some(4));
    assert_eq!(rfind_sub(b"abcabc", b"bc", 5), Some(1));
    assert_eq!(skip_ascii_digits(b"a12b", 1), Some(3));
    assert_eq!(skip_ascii_digits(b"a12b", 0), None);
    assert_eq!(split_words(b" a  bc "), vec![b"a".to_vec(), b"bc".to_vec()]);
    assert_eq!(parse_word(b"+12", 100), Some(12));
    assert_eq!(parse_word(b"101", 100), None);
    assert_eq!(parse_signed_word(b"-7"), Some(-7));
    assert_eq!(parse_signed_word(b"-"), None);
    assert_eq!(decimal(1050), b"1050");
    assert_eq!(parse_int_at(b"x12 ", 1), Some((12, 3)));
    assert_eq!(parse_int_at(b"x12 ", 0), None);
    assert_eq!(int_value(b"<</N 50>>", b"/N "), Some((50, 5, 2)));
    assert_eq!(width_array(b"<</W[1 4 2]>>"), Some(vec![1, 4, 2]));
    assert_eq!(width_array(b"<<>>"), None);
    assert!(is_delimiter(b'<') && !is_delimiter(b'a'));
    assert!(is_boundary(b"1 2", 2) && !is_boundary(b"127", 1));
}

#[test]
fn edits_move_what_follows_them() {
    let edits = vec![
        Edit { at: 1, len: 2, text: b"XYZ".to_vec() },
        Edit { at: 4, len: 1, text: Vec::new() },
    ];
    assert_eq!(apply_edits(b"abcdef", &edits), b"aXYZdf");
    assert_eq!(shift(&edits, 0), Some(0));
    assert_eq!(shift(&edits, 3), Some(4));
    assert_eq!(shift(&edits, 5), Some(5));
}

// --- the command line ------------------------------------------------------------------------------------

#[test]
fn flags_come_down_to_one_value() {
    assert!(resolve(true, false, false));
    assert!(!resolve(false, true, true));
    assert!(resolve(false, false, true));
    assert!(!resolve(false, false, false));
}

#[test]
fn options_are_those_that_were_chosen() {
    let unset = Switch { yes: false, no: false };
    let on = Switch { yes: true, no: false };
    let off = Switch { yes: false, no: true };
    let o = options_from(&Choices {
        target_dpi: 96.0f32.to_bits(),
        jpeg_quality: 60,
        dpi_margin: 1.5f32.to_bits(),
        strip_accessibility: on,
        pack_object_streams: off,
        downsample_flate_images: unset,
        subset_fonts: unset,
        convert_type1: on,
        recompress_bitonal_images: unset,
        allow_lossy: on,
        collapse_gray_images: unset,
        deflate_backend: Some(DeflateBackend::Zopfli),
    });
    assert_eq!(f32::from_bits(o.target_dpi), 96.0);
    assert_eq!(o.jpeg_quality, 60);
    assert_eq!(f32::from_bits(o.dpi_margin), 1.5);
    assert!(o.strip_accessibility && !o.pack_object_streams && o.downsample_flate_images);
    assert!(o.subset_fonts && o.convert_type1 && !o.recompress_bitonal_images);
    assert!(o.allow_lossy_reencode && !o.collapse_gray_images);
    assert_eq!(o.deflate_backend, DeflateBackend::Zopfli);
}

#[test]
fn header_is_looked_for_near_the_start() {
    assert!(is_pdf(b"%PDF-1.7"));
    assert!(!is_pdf(b"hello"));
    let mut late = vec![b' '; 1019];
    late.extend_from_slice(b"%PDF-");
    assert!(is_pdf(&late));
    late.insert(0, b' ');
    assert!(!is_pdf(&late));
}

#[test]
fn input_is_overwritten_only_by_force() {
    assert_eq!(choose_destination(true, true), Destination::Given);
    assert_eq!(choose_destination(false, true), Destination::InPlace);
    assert_eq!(choose_destination(false, false), Destination::Beside);
    assert!(may_write(false, false) && may_write(true, true) && !may_write(true, false));
}

#[test]
fn help_shows_the_defaults() {
    let text = defaults_blurb();
    assert!(text.contains("strip-accessibility off"));
    assert!(text.contains("pack-object-streams on"));
    assert!(text.contains("allow-lossy off"));
}

#[test]
fn zero_or_less_is_told_by_the_bits() {
    for v in [0.0f32, -0.0, -1.0, f32::NEG_INFINITY] {
        assert!(is_at_most_zero(v.to_bits()), "{v}");
    }
    for v in [1.0f32, f32::MIN_POSITIVE, f32::INFINITY, f32::NAN] {
        assert!(!is_at_most_zero(v.to_bits()), "{v}");
    }
}

#[test]
fn number_is_never_longer_than_any_spelling_of_it() {
    for spellings in [
        ["0", "-0.0", "+00", "0."],
        [".5", "0.5", "+0.50", "00.5"],
        ["-3", "-3.", "-03.0", "-3.00"],
        ["120", "+120", "0120.0", "120."],
    ] {
        for t in spellings {
            let m = minify_number_literal(t.as_bytes());
            assert_eq!(m, spellings[0].as_bytes(), "{t}");
            assert!(m.len() <= t.len());
        }
    }
}

// --- what is declined before it is handed on ---------------------------------------------------------

#[test]
fn inline_image_without_a_color_space_is_declined() {
    assert!(!can_parse(b"BI /W 1 /H 1 /BPC 8 ID x EI"));
    assert!(read_operations(b"BI /W 1 /H 1 /BPC 8 ID x EI").is_none());
    assert!(read_operations_strict(b"q BI /W 1 /H 1 /BPC 8 ID x EI Q").is_none());
    assert!(!can_parse(b"BI /W 99999999999 /H 99999999999 /BPC 8 /CS /G ID x EI"));
    assert!(can_parse(b"BI /W 1 /H 1 /BPC 8 /CS /G ID x EI\nq Q"));
    for palette in ["<000000 FFffFF>", "(abcdef)"] {
        let text = format!("BI /W 1 /H 1 /BPC 8 /CS [/I /RGB 1 {palette}] ID x EI\nq Q");
        assert!(can_parse(text.as_bytes()));
        let ops = read_operations(text.as_bytes()).unwrap();
        assert_eq!(ops.len(), 3);
        assert_eq!(ops[2].operator, b"Q");
    }
    assert!(!can_parse(b"BI /W 1 /H 1 /BPC 8 /CS [/I /RGB 1 (a\\)b)] ID x EI"));
    let ops = read_operations(b"q 1 0 0 1 2 3 cm Q").unwrap();
    assert_eq!(ops.len(), 3);
    assert_eq!(ops[1].operator, b"cm");
    assert_eq!(ops[1].operands.len(), 6);
}

/// A document of one page, below a node that counts this many.
fn counted(count: i64) -> Pdf {
    let node = |kid: u32, count: i64| {
        let kids = PdfObject::Array(vec![PdfObject::Reference((kid, 0))]);
        let count = PdfObject::Integer(count);
        PdfObject::Dictionary(dict(vec![("Type", name("Pages")), ("Kids", kids), ("Count", count)]))
    };
    let page = vec![("Type", name("Page")), ("Parent", PdfObject::Reference((3, 0)))];
    let catalog = vec![("Type", name("Catalog")), ("Pages", PdfObject::Reference((2, 0)))];
    pdf(
        vec![
            (1, PdfObject::Dictionary(dict(catalog))),
            (2, node(3, 1)),
            (3, node(4, count)),
            (4, PdfObject::Dictionary(dict(page))),
        ],
        vec![("Root", PdfObject::Reference((1, 0)))],
    )
}

#[test]
fn page_tree_that_counts_too_many_is_declined() {
    assert!(can_walk(&counted(1)));
    assert_eq!(list_pages(&counted(1)), vec![(4, 0)]);
    assert!(can_walk(&counted(1000)));
    assert_eq!(list_pages(&counted(1000)), vec![(4, 0)]);
    assert!(!can_walk(&counted(i64::MAX)));
    assert!(list_pages(&counted(i64::MAX)).is_empty());
    assert!(!contents_loaded(&counted(i64::MAX)));
}

// --- compressed cross-reference streams ------------------------------------------------------------------

#[test]
fn deflated_cross_reference_stream_adds_less_than_its_filter() {
    let mut shrunk = 0;
    for rows in 1..60 {
        let mut file = b"%PDF-1.5\n".to_vec();
        let at = file.len();
        let len = rows * 4;
        file.extend_from_slice(
            format!("1 0 obj\n<</Type/XRef/W[1 2 1]/Length {len}>>stream\n").as_bytes(),
        );
        file.extend((0..len).map(|i| (i / 9) as u8));
        file.extend_from_slice(
            format!("\nendstream\nendobj\nstartxref\n{at}\n%%EOF").as_bytes(),
        );
        for backend in [DeflateBackend::Zlib, DeflateBackend::Zopfli] {
            let out = compress_xref_stream(file.clone(), backend);
            assert!(out == file || out.len() < file.len() + 19);
            if out.len() < file.len() {
                shrunk += 1;
            }
        }
    }
    assert!(shrunk > 0);
}

#[test]
fn zopfli_encodes_everything() {
    for data in [b"".to_vec(), b"a".to_vec(), vec![7; 5000], noise(3000)] {
        let out = deflate_backend(&data, DeflateBackend::Zopfli).unwrap();
        assert_eq!(inflate_capped(&out, 10_000).unwrap(), data);
    }
}
