//! The whole of it on small documents.

use amatl::content::{content_number_values, replan_content};
use amatl::flate::{inflate_capped, replan_deflate, DeflateBackend};
use amatl::lookup::FilterClass;
use amatl::object::{Dict, Entry, Indirect, ObjectId, Pdf, PdfObject, PdfStream};
use amatl::options::OptimizeOptions;
use amatl::patch::compress_xref_stream;
use amatl::pdf::ContentOp;
use amatl::placements::Placements;
use amatl::png::paeth_predict;
use amatl::raster::{decode_scale, Codec, Raster};
use amatl::reals::capture::Reading;
use amatl::replace::Geometry;
use amatl::text::find_sub;
use amatl::{content, dedup, equiv, finish, flate, images, lookup, minify, patch, plan, raster};
use image::{DynamicImage, ImageFormat};
use lopdf::content::{Content, Operation};
use lopdf::{Dictionary, Document, Object, Stream};
use std::io::Write;

/// The bits of a single-precision number.
fn bits(v: f32) -> u32 {
    v.to_bits()
}

/// A number of a content stream.
fn number(o: &PdfObject) -> f32 {
    match o {
        PdfObject::Integer(i) => *i as f32,
        PdfObject::Real(text) => String::from_utf8_lossy(text).parse().unwrap_or(0.0),
        _ => 0.0,
    }
}

/// The products of the transformations: the images of the two unit vectors.
/// Each transformation comes after the one that it is applied before.
fn transformations(placements: &Placements) -> Vec<[f32; 4]> {
    let mut all: Vec<[f32; 4]> = Vec::new();
    for m in &placements.matrices {
        let product = match (m.operands.len(), all.get(m.parent)) {
            (6, Some(then)) => {
                let v: Vec<f32> = m.operands.iter().map(number).collect();
                [
                    v[0] * then[0] + v[1] * then[2],
                    v[0] * then[1] + v[1] * then[3],
                    v[2] * then[0] + v[3] * then[2],
                    v[2] * then[1] + v[3] * then[3],
                ]
            }
            _ => [1.0, 0.0, 0.0, 1.0],
        };
        all.push(product);
    }
    all
}

/// How many pixels an image needs for its largest placement.
fn geometry(
    placements: &Placements,
    id: ObjectId,
    px_w: u32,
    px_h: u32,
    options: OptimizeOptions,
) -> Option<Geometry> {
    let (mut w, mut h) = (0.0f32, 0.0f32);
    let products = transformations(placements);
    for paint in placements.paints.iter().filter(|p| p.image == id) {
        let m = products[paint.matrix];
        w = w.max((m[0] * m[0] + m[1] * m[1]).sqrt());
        h = h.max((m[2] * m[2] + m[3] * m[3]).sqrt());
    }
    if w <= 0.0 || h <= 0.0 {
        return None;
    }
    let target = f32::from_bits(options.target_dpi);
    let margin = f32::from_bits(options.dpi_margin).max(1.0);
    let effective = (px_w as f32 / (w / 72.0)).max(px_h as f32 / (h / 72.0));
    let target_w = ((w / 72.0) * target).round().max(1.0) as u32;
    let target_h = ((h / 72.0) * target).round().max(1.0) as u32;
    let over_resolution = effective > target * margin && target_w < px_w && target_h < px_h;
    Some(Geometry { over_resolution, target_w, target_h })
}

/// Decodes a JPEG, at the smallest scale that covers the target where
/// possible. libjpeg unwinds on a broken file, so what cannot be decoded
/// otherwise is declined.
fn decode(data: &[u8], target_w: u32, target_h: u32) -> Option<Raster> {
    let full = image::load_from_memory_with_format(data, image::ImageFormat::Jpeg).ok()?;
    let gray = matches!(
        full,
        image::DynamicImage::ImageLuma8(_) | image::DynamicImage::ImageLuma16(_)
    );
    let (width, height) = (full.width(), full.height());
    decode_at_scale(data, target_w, target_h).or_else(|| {
        let pixels =
            if gray { full.into_luma8().into_raw() } else { full.into_rgb8().into_raw() };
        Some(Raster { width, height, gray, pixels })
    })
}

/// Encodes an image as JPEG.
fn encode(img: &Raster, quality: u8) -> Option<Vec<u8>> {
    let space = if img.gray {
        mozjpeg::ColorSpace::JCS_GRAYSCALE
    } else {
        mozjpeg::ColorSpace::JCS_RGB
    };
    let mut comp = mozjpeg::Compress::new(space);
    comp.set_size(img.width as usize, img.height as usize);
    comp.set_quality(f32::from(quality));
    let mut started = comp.start_compress(Vec::new()).ok()?;
    started.write_scanlines(&img.pixels).ok()?;
    started.finish().ok()
}

/// The samples of a JPEG 2000 file.
fn decode_jpx(data: &[u8]) -> Option<Vec<u8>> {
    let settings = dicom_toolkit_jpeg2000::DecodeSettings::default();
    dicom_toolkit_jpeg2000::Image::new(data, &settings).ok()?.decode().ok()
}

fn codec() -> Codec<
    impl Fn(&[u8], u32, u32) -> Option<Raster>,
    impl Fn(&Raster, u8) -> Option<Vec<u8>>,
    impl Fn(&[u8]) -> Option<Vec<u8>>,
> {
    Codec { decode, encode, jpx: decode_jpx }
}

/// Decodes a JPEG that is not broken at the smallest scale that covers the
/// target.
fn decode_at_scale(data: &[u8], target_w: u32, target_h: u32) -> Option<Raster> {
    let mut dec = mozjpeg::Decompress::new_mem(data).ok()?;
    let (full_w, full_h) = (dec.width(), dec.height());
    if full_w == 0 || full_h == 0 {
        return None;
    }
    let gray = dec.color_space() == mozjpeg::ColorSpace::JCS_GRAYSCALE;
    if matches!(
        dec.color_space(),
        mozjpeg::ColorSpace::JCS_CMYK | mozjpeg::ColorSpace::JCS_YCCK
    ) {
        return None;
    }
    dec.scale(decode_scale(full_w as u32, full_h as u32, target_w, target_h));
    let mut started = if gray { dec.grayscale().ok()? } else { dec.rgb().ok()? };
    let (width, height) = (started.width() as u32, started.height() as u32);
    let pixels: Vec<u8> = started.read_scanlines::<u8>().ok()?;
    started.finish().ok()?;
    Some(Raster { width, height, gray, pixels })
}

/// What a real literal means.
fn reading(text: &[u8]) -> Option<Reading> {
    let text = std::str::from_utf8(text).ok()?;
    let wide: f64 = text.parse().ok()?;
    let narrow: f32 = text.parse().ok()?;
    if !narrow.is_finite() {
        return None;
    }
    let shortest = format!("{narrow}");
    Some(Reading {
        narrow: narrow.to_bits(),
        shortest: shortest.into_bytes(),
        wide: wide.to_bits(),
    })
}

fn plain_object(o: &Object) -> PdfObject {
    match o {
        Object::Null => PdfObject::Null,
        Object::Boolean(b) => PdfObject::Boolean(*b),
        Object::Integer(i) => PdfObject::Integer(*i),
        Object::Real(v) => PdfObject::Real(format!("{v}").into_bytes()),
        Object::Name(n) => PdfObject::Name(n.clone()),
        Object::String(t, f) => {
            PdfObject::Text(t.clone(), *f == lopdf::StringFormat::Hexadecimal)
        }
        Object::Array(a) => PdfObject::Array(a.iter().map(plain_object).collect()),
        Object::Dictionary(d) => PdfObject::Dictionary(plain_dict(d)),
        Object::Stream(s) => PdfObject::Stream(plain_stream(s)),
        Object::Reference(id) => PdfObject::Reference(*id),
    }
}

fn plain_dict(d: &Dictionary) -> Dict {
    let entry = |(key, value): (&Vec<u8>, &Object)| Entry {
        key: key.clone(),
        value: plain_object(value),
    };
    Dict { entries: d.iter().map(entry).collect() }
}

fn plain_stream(s: &Stream) -> PdfStream {
    PdfStream {
        dict: plain_dict(&s.dict),
        content: s.content.clone(),
        compressible: s.allows_compression,
    }
}

fn plain(doc: &Document) -> Pdf {
    let kind = &doc.reference_table.cross_reference_type;
    let objects = doc.objects.iter();
    Pdf {
        version: doc.version.clone().into_bytes(),
        binary_mark: doc.binary_mark.clone(),
        trailer: plain_dict(&doc.trailer),
        objects: objects
            .map(|(id, o)| Indirect { id: *id, object: plain_object(o) })
            .collect(),
        max_id: doc.max_id,
        xref_stream: matches!(kind, lopdf::xref::XrefType::CrossReferenceStream),
        encrypted: doc.was_encrypted(),
    }
}

/// Reads a file.
fn load(file: &[u8]) -> Option<Pdf> {
    let doc = Document::load_mem(file).ok()?;
    Some(plain(&doc))
}

fn optimize_with_options(input: &[u8], options: OptimizeOptions) -> Vec<u8> {
    let measure = |p: &Placements, id: ObjectId, w: u32, h: u32| geometry(p, id, w, h, options);
    amatl::pipeline::optimize_with_options(input, options, &measure, &codec(), &reading, &load)
}

fn optimize(input: &[u8]) -> Vec<u8> {
    let options = OptimizeOptions::default();
    let measure = |p: &Placements, id: ObjectId, w: u32, h: u32| geometry(p, id, w, h, options);
    amatl::pipeline::optimize(input, &measure, &codec(), &reading, &load)
}

/// A dictionary of these entries.
fn dict(entries: Vec<(&str, Object)>) -> Dictionary {
    let mut d = Dictionary::new();
    for (key, value) in entries {
        d.set(key, value);
    }
    d
}

// --- plain values ---------------------------------------------------------------------

fn outside_object(o: &PdfObject) -> Object {
    match o {
        PdfObject::Null => Object::Null,
        PdfObject::Boolean(b) => Object::Boolean(*b),
        PdfObject::Integer(i) => Object::Integer(*i),
        PdfObject::Real(t) => Object::Real(String::from_utf8_lossy(t).parse().unwrap()),
        PdfObject::Name(n) => Object::Name(n.clone()),
        PdfObject::Text(t, hex) => {
            let format = if *hex {
                lopdf::StringFormat::Hexadecimal
            } else {
                lopdf::StringFormat::Literal
            };
            Object::String(t.clone(), format)
        }
        PdfObject::Array(a) => Object::Array(a.iter().map(outside_object).collect()),
        PdfObject::Dictionary(d) => Object::Dictionary(outside_dict(d)),
        PdfObject::Stream(s) => {
            let mut stream = Stream::new(outside_dict(&s.dict), s.content.clone());
            stream.dict = outside_dict(&s.dict);
            stream.allows_compression = s.compressible;
            Object::Stream(stream)
        }
        PdfObject::Reference(id) => Object::Reference(*id),
    }
}

fn outside_dict(d: &Dict) -> Dictionary {
    let mut out = Dictionary::new();
    for e in &d.entries {
        out.set(e.key.clone(), outside_object(&e.value));
    }
    out
}

/// Puts a plain document back.
fn put_back(doc: &mut Document, pdf: &Pdf) {
    doc.trailer = outside_dict(&pdf.trailer);
    doc.objects = pdf
        .objects
        .iter()
        .map(|o| (o.id, outside_object(&o.object)))
        .collect();
    doc.max_id = pdf.max_id;
}

fn plain_operations(list: &[Operation]) -> Vec<ContentOp> {
    let plain_op = |o: &Operation| ContentOp {
        operator: o.operator.clone().into_bytes(),
        operands: o.operands.iter().map(plain_object).collect(),
    };
    list.iter().map(plain_op).collect()
}

fn raster_of(img: DynamicImage, gray: bool) -> Raster {
    let (width, height) = (img.width(), img.height());
    let pixels = if gray {
        img.into_luma8().into_raw()
    } else {
        img.into_rgb8().into_raw()
    };
    Raster { width, height, gray, pixels }
}

fn image_of(r: Raster) -> DynamicImage {
    if r.gray {
        DynamicImage::ImageLuma8(
            image::GrayImage::from_raw(r.width, r.height, r.pixels).unwrap(),
        )
    } else {
        DynamicImage::ImageRgb8(image::RgbImage::from_raw(r.width, r.height, r.pixels).unwrap())
    }
}

// --- the library on lopdf's values -----------------------------------------------------

fn classify_filter(doc: &Document, filter: &Object) -> FilterClass {
    lookup::classify_filter(&plain(doc), &plain_object(filter))
}

fn deflate_level9(data: &[u8]) -> Option<Vec<u8>> {
    flate::deflate_backend(data, DeflateBackend::Zlib)
}

fn decode_jpeg_scaled(data: &[u8], w: u32, h: u32) -> Option<(DynamicImage, bool)> {
    let r = decode_at_scale(data, w, h)?;
    let gray = r.gray;
    Some((image_of(r), gray))
}

fn encode_jpeg(img: DynamicImage, gray: bool, quality: u8) -> Option<Vec<u8>> {
    raster::encode_jpeg(&raster_of(img, gray), quality, &codec())
}

fn looks_like_line_art(pixels: &[u8], channels: usize, width: u32, height: u32) -> bool {
    raster::looks_like_line_art(&Raster {
        width,
        height,
        gray: channels == 1,
        pixels: pixels.to_vec(),
    })
}

fn decode_flate_image(
    doc: &Document,
    stream: &Stream,
    w: u32,
    h: u32,
) -> Option<(DynamicImage, usize)> {
    let r = images::decode_flate_image(&plain(doc), &plain_stream(stream), w, h)?;
    let channels = if r.gray { 1 } else { 3 };
    Some((image_of(r), channels))
}

fn plan_flate(
    doc: &Document,
    stream: &Stream,
    px_w: u32,
    px_h: u32,
    w: u32,
    h: u32,
) -> Option<(Vec<u8>, Option<Dict>)> {
    plan::plan_flate(&plain(doc), &plain_stream(stream), px_w, px_h, w, h)
}

fn plan_flate_to_jpeg(
    doc: &Document,
    stream: &Stream,
    options: OptimizeOptions,
    px_w: u32,
    px_h: u32,
    w: u32,
    h: u32,
) -> Option<Vec<u8>> {
    plan::plan_flate_to_jpeg(
        &plain(doc),
        &plain_stream(stream),
        options.jpeg_quality,
        px_w,
        px_h,
        w,
        h,
        &codec(),
    )
}

fn strip_stale_xref_trailer_keys(doc: &mut Document) {
    let mut pdf = plain(doc);
    finish::strip_stale_xref_trailer_keys(&mut pdf);
    put_back(doc, &pdf);
}

fn redeflate_flate_streams(doc: &mut Document, backend: DeflateBackend) {
    let pdf = finish::redeflate_flate_streams(plain(doc), backend);
    put_back(doc, &pdf);
}

fn minify_content_streams(doc: &mut Document, backend: DeflateBackend) -> bool {
    let (pdf, changed) = minify::minify_content_streams(plain(doc), backend);
    put_back(doc, &pdf);
    changed
}

fn dedup_objects(doc: &mut Document) -> bool {
    let (pdf, changed) = dedup::dedup_objects(plain(doc));
    put_back(doc, &pdf);
    changed
}

fn dedup_streams(doc: &mut Document) -> bool {
    let (pdf, changed) = dedup::dedup_streams(plain(doc));
    put_back(doc, &pdf);
    changed
}

fn minify_number_literal(text: &str) -> String {
    String::from_utf8(content::minify_number_literal(text.as_bytes())).unwrap()
}

fn rezopfli_objstm(out: Vec<u8>) -> Vec<u8> {
    patch::rezopfli_objstm(out, &load)
}

fn operations_equivalent(a: &[Operation], b: &[Operation]) -> bool {
    equiv::operations_equivalent(&plain_operations(a), &plain_operations(b))
}

// --- documents ---------------------------------------------------------------------------

fn build_pdf(px: u32, draw_pts: i64) -> Vec<u8> {
    build_pdf_placed(px, draw_pts, draw_pts)
}

fn build_pdf_placed(px: u32, draw_w_pts: i64, draw_h_pts: i64) -> Vec<u8> {
    let mut img = image::RgbImage::new(px, px);
    for (x, y, pixel) in img.enumerate_pixels_mut() {
        *pixel = image::Rgb([(x % 256) as u8, (y % 256) as u8, ((x + y) % 256) as u8]);
    }
    let mut jpeg: Vec<u8> = Vec::new();
    image::codecs::jpeg::JpegEncoder::new_with_quality(&mut jpeg, 92)
        .encode_image(&img)
        .unwrap();

    let mut doc = Document::with_version("1.5");
    let img_id = doc.add_object(Stream::new(
        dict(vec![("Type", Object::from("XObject")), ("Subtype", Object::from("Image")), ("Width", Object::from(px as i64)), ("Height", Object::from(px as i64)), ("ColorSpace", Object::from("DeviceRGB")), ("BitsPerComponent", Object::from(8)), ("Filter", Object::from("DCTDecode"))]),
        jpeg,
    ));

    let content = Content {
        operations: vec![
            Operation::new("q", vec![]),
            Operation::new(
                "cm",
                vec![
                    draw_w_pts.into(),
                    0.into(),
                    0.into(),
                    draw_h_pts.into(),
                    0.into(),
                    0.into(),
                ],
            ),
            Operation::new("Do", vec![Object::Name(b"Im0".to_vec())]),
            Operation::new("Q", vec![]),
        ],
    };
    let content_id = doc.add_object(Stream::new(dict(vec![]), content.encode().unwrap()));

    let pages_id = doc.new_object_id();
    let page_id = doc.add_object(dict(vec![("Type", Object::from("Page")), ("Parent", Object::from(pages_id)), ("Contents", Object::from(content_id)), ("MediaBox", Object::from(vec![0.into(), 0.into(), 612.into(), 792.into()])), ("Resources", Object::from(dict(vec![("XObject", Object::from(dict(vec![("Im0", Object::from(img_id))])))])))]));
    doc.objects.insert(
        pages_id,
        Object::Dictionary(dict(vec![("Type", Object::from("Pages")), ("Kids", Object::from(vec![page_id.into()])), ("Count", Object::from(1))])),
    );
    let catalog_id = doc.add_object(dict(vec![("Type", Object::from("Catalog")), ("Pages", Object::from(pages_id))]));
    doc.trailer.set("Root", catalog_id);

    let mut out: Vec<u8> = Vec::new();
    doc.save_to(&mut out).unwrap();
    out
}

fn build_pdf_duplicate_images(copies: usize, px: u32) -> Vec<u8> {
    let mut img = image::RgbImage::new(px, px);
    for (x, y, pixel) in img.enumerate_pixels_mut() {
        *pixel = image::Rgb([(x % 256) as u8, (y % 256) as u8, ((x + y) % 256) as u8]);
    }
    let mut jpeg: Vec<u8> = Vec::new();
    image::codecs::jpeg::JpegEncoder::new_with_quality(&mut jpeg, 92)
        .encode_image(&img)
        .unwrap();

    let mut doc = Document::with_version("1.5");
    let mut ops = vec![];
    let mut xobjs = lopdf::Dictionary::new();
    for i in 0..copies {
        let id = doc.add_object(Stream::new(
            dict(vec![("Type", Object::from("XObject")), ("Subtype", Object::from("Image")), ("Width", Object::from(px as i64)), ("Height", Object::from(px as i64)), ("ColorSpace", Object::from("DeviceRGB")), ("BitsPerComponent", Object::from(8)), ("Filter", Object::from("DCTDecode"))]),
            jpeg.clone(),
        ));
        let name = format!("Im{i}");
        xobjs.set(name.as_bytes().to_vec(), id);
        ops.push(Operation::new("q", vec![]));
        ops.push(Operation::new(
            "cm",
            vec![
                100.into(),
                0.into(),
                0.into(),
                100.into(),
                0.into(),
                0.into(),
            ],
        ));
        ops.push(Operation::new("Do", vec![Object::Name(name.into_bytes())]));
        ops.push(Operation::new("Q", vec![]));
    }
    let content_id = doc.add_object(Stream::new(
        dict(vec![]),
        Content { operations: ops }.encode().unwrap(),
    ));
    let pages_id = doc.new_object_id();
    let page_id = doc.add_object(dict(vec![("Type", Object::from("Page")), ("Parent", Object::from(pages_id)), ("Contents", Object::from(content_id)), ("MediaBox", Object::from(vec![0.into(), 0.into(), 612.into(), 792.into()])), ("Resources", Object::from(dict(vec![("XObject", Object::from(xobjs))])))]));
    doc.objects.insert(
        pages_id,
        Object::Dictionary(dict(vec![("Type", Object::from("Pages")), ("Kids", Object::from(vec![page_id.into()])), ("Count", Object::from(1))])),
    );
    let catalog_id = doc.add_object(dict(vec![("Type", Object::from("Catalog")), ("Pages", Object::from(pages_id))]));
    doc.trailer.set("Root", catalog_id);
    let mut out: Vec<u8> = Vec::new();
    doc.save_to(&mut out).unwrap();
    out
}

fn count_image_streams(pdf: &[u8]) -> usize {
    let doc = Document::load_mem(pdf).unwrap();
    doc.objects
        .values()
        .filter(|o| {
            matches!(o, Object::Stream(s)
                if matches!(s.dict.get(b"Subtype"), Ok(Object::Name(n)) if n == b"Image"))
        })
        .count()
}

fn image_dims(pdf: &[u8]) -> (i64, i64) {
    let doc = Document::load_mem(pdf).unwrap();
    for obj in doc.objects.values() {
        if let Object::Stream(s) = obj {
            if matches!(s.dict.get(b"Subtype"), Ok(Object::Name(n)) if n == b"Image") {
                let w = s.dict.get(b"Width").unwrap().as_i64().unwrap();
                let h = s.dict.get(b"Height").unwrap().as_i64().unwrap();
                return (w, h);
            }
        }
    }
    panic!("no image found");
}

fn flate_pixels(px_w: u32, px_h: u32, channels: usize) -> Vec<u8> {
    let mut state = 0x2545_F491_u32;
    (0..px_w as usize * px_h as usize * channels)
        .map(|_| {
            state ^= state << 13;
            state ^= state >> 17;
            state ^= state << 5;
            (state >> 24) as u8
        })
        .collect()
}

fn png_filter_rows(raw: &[u8], px_w: u32, channels: usize, tag: u8) -> Vec<u8> {
    let bpr = px_w as usize * channels;
    let bpp = channels;
    let mut out = Vec::with_capacity(raw.len() + raw.len() / bpr);
    let mut previous = vec![0u8; bpr];
    for row in raw.chunks_exact(bpr) {
        out.push(tag);
        for i in 0..bpr {
            let x = row[i];
            let left = if i >= bpp { row[i - bpp] } else { 0 };
            let up = previous[i];
            let upper_left = if i >= bpp { previous[i - bpp] } else { 0 };
            let filtered = match tag {
                0 => x,
                1 => x.wrapping_sub(left),
                2 => x.wrapping_sub(up),
                3 => x.wrapping_sub(((u16::from(left) + u16::from(up)) / 2) as u8),
                4 => x.wrapping_sub(paeth_predict(left, up, upper_left)),
                _ => unreachable!("bad filter tag"),
            };
            out.push(filtered);
        }
        previous.copy_from_slice(row);
    }
    out
}

fn wrap_image_pdf(doc: &mut Document, img_id: ObjectId, draw_pts: i64) -> Vec<u8> {
    let content = Content {
        operations: vec![
            Operation::new("q", vec![]),
            Operation::new(
                "cm",
                vec![
                    draw_pts.into(),
                    0.into(),
                    0.into(),
                    draw_pts.into(),
                    0.into(),
                    0.into(),
                ],
            ),
            Operation::new("Do", vec![Object::Name(b"Im0".to_vec())]),
            Operation::new("Q", vec![]),
        ],
    };
    let content_id = doc.add_object(Stream::new(dict(vec![]), content.encode().unwrap()));
    let pages_id = doc.new_object_id();
    let page_id = doc.add_object(dict(vec![("Type", Object::from("Page")), ("Parent", Object::from(pages_id)), ("Contents", Object::from(content_id)), ("MediaBox", Object::from(vec![0.into(), 0.into(), 612.into(), 792.into()])), ("Resources", Object::from(dict(vec![("XObject", Object::from(dict(vec![("Im0", Object::from(img_id))])))])))]));
    doc.objects.insert(
        pages_id,
        Object::Dictionary(dict(vec![("Type", Object::from("Pages")), ("Kids", Object::from(vec![page_id.into()])), ("Count", Object::from(1))])),
    );
    let catalog_id = doc.add_object(dict(vec![("Type", Object::from("Catalog")), ("Pages", Object::from(pages_id))]));
    doc.trailer.set("Root", catalog_id);
    let mut out: Vec<u8> = Vec::new();
    doc.save_to(&mut out).unwrap();
    out
}

fn build_pdf_flate_ext(
    px: u32,
    draw_pts: i64,
    channels: usize,
    predictor: Option<u8>,
    filter_as_array: bool,
    parms_as_array: bool,
) -> Vec<u8> {
    let raw = flate_pixels(px, px, channels);
    let (payload, parms) = match predictor {
        Some(tag) => {
            let filtered = png_filter_rows(&raw, px, channels, tag);
            let parms = dict(vec![("Predictor", Object::from(15_i64)), ("Colors", Object::from(channels as i64)), ("BitsPerComponent", Object::from(8_i64)), ("Columns", Object::from(px as i64))]);
            (deflate_level9(&filtered).unwrap(), Some(parms))
        }
        None => (deflate_level9(&raw).unwrap(), None),
    };

    let mut dict = dict(vec![("Type", Object::from("XObject")), ("Subtype", Object::from("Image")), ("Width", Object::from(px as i64)), ("Height", Object::from(px as i64)), ("ColorSpace", Object::from(if channels == 1 { "DeviceGray" } else { "DeviceRGB" })), ("BitsPerComponent", Object::from(8_i64))]);
    if filter_as_array {
        dict.set("Filter", vec![Object::Name(b"FlateDecode".to_vec())]);
    } else {
        dict.set("Filter", Object::Name(b"FlateDecode".to_vec()));
    }
    if let Some(parms) = parms {
        if parms_as_array {
            dict.set("DecodeParms", vec![Object::Dictionary(parms)]);
        } else {
            dict.set("DecodeParms", Object::Dictionary(parms));
        }
    }

    let mut doc = Document::with_version("1.5");
    let img_id = doc.add_object(Stream::new(dict, payload));
    wrap_image_pdf(&mut doc, img_id, draw_pts)
}

fn build_pdf_flate(px: u32, draw_pts: i64, predictor: Option<u8>) -> Vec<u8> {
    build_pdf_flate_ext(px, draw_pts, 3, predictor, false, false)
}

fn flate_image_pixels(pdf: &[u8]) -> Vec<u8> {
    let doc = Document::load_mem(pdf).unwrap();
    for obj in doc.objects.values() {
        if let Object::Stream(s) = obj {
            if matches!(s.dict.get(b"Subtype"), Ok(Object::Name(n)) if n == b"Image") {
                return s.decompressed_content().unwrap();
            }
        }
    }
    panic!("no image stream");
}

#[test]
fn flate_predictor_variants_are_downsampled() {
    let variants: [(Option<u8>, &str); 6] = [
        (None, "no DecodeParms"),
        (Some(0), "Predictor 15 / rows None"),
        (Some(1), "Predictor 15 / rows Sub"),
        (Some(2), "Predictor 15 / rows Up"),
        (Some(3), "Predictor 15 / rows Avg"),
        (Some(4), "Predictor 15 / rows Paeth"),
    ];
    for (predictor, label) in variants {
        let pdf = build_pdf_flate(400, 100, predictor);
        let out = optimize(&pdf);
        let (w, h) = image_dims(&out);
        assert!(
            (150..=210).contains(&w) && w == h,
            "{label}: unexpected dims {w}x{h}"
        );
        assert!(out.len() < pdf.len(), "{label}: output must be smaller");
        let pixels = flate_image_pixels(&out);
        let reference = DynamicImage::ImageRgb8(
            image::RgbImage::from_raw(400, 400, flate_pixels(400, 400, 3)).unwrap(),
        )
        .resize_exact(w as u32, h as u32, image::imageops::FilterType::Lanczos3)
        .into_rgb8()
        .into_raw();
        assert_eq!(
            pixels, reference,
            "{label}: decoded pixels must match a direct resize of the source"
        );
    }
}

#[test]
fn flate_filter_array_form_is_downsampled() {
    let pdf = build_pdf_flate_ext(400, 100, 3, Some(2), true, false);
    let out = optimize(&pdf);
    let (w, h) = image_dims(&out);
    assert!(
        (150..=210).contains(&w) && w == h,
        "unexpected dims {w}x{h}"
    );
    assert!(out.len() < pdf.len());
    assert!(Document::load_mem(&out).is_ok());
}

#[test]
fn flate_decode_parms_array_form_is_skipped() {
    let pdf = build_pdf_flate_ext(400, 100, 3, Some(2), false, true);
    let out = optimize(&pdf);
    assert_eq!(
        out, pdf,
        "array-form DecodeParms must leave the file untouched"
    );
}

#[test]
fn flate_tiff_predictor_2_is_skipped() {
    let px = 400u32;
    let mut raw = flate_pixels(px, px, 3);
    let bpr = px as usize * 3;
    for row in raw.chunks_exact_mut(bpr) {
        for i in (3..bpr).rev() {
            row[i] = row[i].wrapping_sub(row[i - 3]);
        }
    }
    let payload = deflate_level9(&raw).unwrap();
    let mut doc = Document::with_version("1.5");
    let img_id = doc.add_object(Stream::new(
        dict(vec![("Type", Object::from("XObject")), ("Subtype", Object::from("Image")), ("Width", Object::from(px as i64)), ("Height", Object::from(px as i64)), ("ColorSpace", Object::from("DeviceRGB")), ("BitsPerComponent", Object::from(8_i64)), ("Filter", Object::from("FlateDecode")), ("DecodeParms", Object::from(dict(vec![("Predictor", Object::from(2_i64)), ("Colors", Object::from(3_i64)), ("BitsPerComponent", Object::from(8_i64)), ("Columns", Object::from(px as i64))])))]),
        payload,
    ));
    let pdf = wrap_image_pdf(&mut doc, img_id, 100);

    let out = optimize(&pdf);
    assert_eq!(out, pdf, "TIFF Predictor 2 must leave the file untouched");
}

#[test]
fn flate_grayscale_stays_single_channel() {
    let pdf = build_pdf_flate_ext(400, 100, 1, Some(2), false, false);
    let out = optimize(&pdf);
    let (w, h) = image_dims(&out);
    assert!(
        (150..=210).contains(&w) && w == h,
        "unexpected dims {w}x{h}"
    );
    assert!(out.len() < pdf.len());
    let pixels = flate_image_pixels(&out);
    assert_eq!(
        pixels.len(),
        (w * h) as usize,
        "grayscale must stay 1-channel"
    );
}

#[test]
fn flate_iccbased_n3_is_accepted() {
    let px = 400u32;
    let raw = flate_pixels(px, px, 3);
    let payload = deflate_level9(&raw).unwrap();
    let mut doc = Document::with_version("1.5");
    let icc_id = doc.add_object(Stream::new(dict(vec![("N", Object::from(3_i64))]), vec![0u8; 128]));
    let img_id = doc.add_object(Stream::new(
        dict(vec![("Type", Object::from("XObject")), ("Subtype", Object::from("Image")), ("Width", Object::from(px as i64)), ("Height", Object::from(px as i64)), ("ColorSpace", Object::from(vec![Object::Name(b"ICCBased".to_vec()), icc_id.into()])), ("BitsPerComponent", Object::from(8_i64)), ("Filter", Object::from("FlateDecode"))]),
        payload,
    ));
    let pdf = wrap_image_pdf(&mut doc, img_id, 100);

    let out = optimize(&pdf);
    let (w, h) = image_dims(&out);
    assert!(
        (150..=210).contains(&w) && w == h,
        "unexpected dims {w}x{h}"
    );
    assert!(out.len() < pdf.len());
    assert!(Document::load_mem(&out).is_ok());
}

fn build_flate_pdf_with_dict(
    px: u32,
    channels: usize,
    mutate: impl FnOnce(&mut Document, &mut lopdf::Dictionary),
) -> Vec<u8> {
    let raw = flate_pixels(px, px, channels);
    let payload = deflate_level9(&raw).unwrap();
    let mut doc = Document::with_version("1.5");
    let mut dict = dict(vec![("Type", Object::from("XObject")), ("Subtype", Object::from("Image")), ("Width", Object::from(px as i64)), ("Height", Object::from(px as i64)), ("ColorSpace", Object::from(if channels == 1 { "DeviceGray" } else { "DeviceRGB" })), ("BitsPerComponent", Object::from(8_i64)), ("Filter", Object::from("FlateDecode"))]);
    mutate(&mut doc, &mut dict);
    let img_id = doc.add_object(Stream::new(dict, payload));
    wrap_image_pdf(&mut doc, img_id, 100)
}

fn build_exotic_pdf(filter: &[u8], payload: &[u8], as_array: bool) -> Vec<u8> {
    let mut dict = dict(vec![("Type", Object::from("XObject")), ("Subtype", Object::from("Image")), ("Width", Object::from(400_i64)), ("Height", Object::from(400_i64)), ("ColorSpace", Object::from("DeviceRGB")), ("BitsPerComponent", Object::from(8_i64))]);
    if as_array {
        dict.set("Filter", vec![Object::Name(filter.to_vec())]);
    } else {
        dict.set("Filter", Object::Name(filter.to_vec()));
    }
    let mut doc = Document::with_version("1.5");
    let img_id = doc.add_object(Stream::new(dict, payload.to_vec()));
    wrap_image_pdf(&mut doc, img_id, 100)
}

#[test]
fn classify_recognizes_exotic_filter_names() {
    let doc = Document::with_version("1.5");
    let cases: [(String, Vec<u8>, FilterClass); 2] = [
        (
            "JPXDecode".to_owned(),
            b"JPXDecode".to_vec(),
            FilterClass::JpxOnly,
        ),
        (
            "JBIG2Decode".to_owned(),
            b"JBIG2Decode".to_vec(),
            FilterClass::Jbig2Only,
        ),
    ];
    for (label, name, want) in cases {
        let scalar = Object::Name(name.to_vec());
        assert_eq!(
            classify_filter(&doc, &scalar),
            want,
            "{label}: scalar-name form must classify as {want:?}"
        );
        let array = Object::Array(vec![Object::Name(name.to_vec())]);
        assert_eq!(
            classify_filter(&doc, &array),
            want,
            "{label}: one-element-array form must classify as {want:?}"
        );
    }
}

#[test]
fn exotic_filter_images_are_left_byte_identical() {
    let payload = vec![0x1Au8; 96];
    let cases: Vec<(String, &[u8], bool)> = vec![
        ("JPXDecode scalar".to_owned(), b"JPXDecode", false),
        ("JPXDecode array".to_owned(), b"JPXDecode", true),
        ("JBIG2Decode scalar".to_owned(), b"JBIG2Decode", false),
        ("JBIG2Decode array".to_owned(), b"JBIG2Decode", true),
    ];
    for (label, name, as_array) in cases {
        let pdf = build_exotic_pdf(name, &payload, as_array);
        let out = optimize(&pdf);
        assert_eq!(
            out, pdf,
            "{label}: exotic-filter image must be left byte-identical"
        );
        let reloaded = Document::load_mem(&out).unwrap();
        let mut has_exotic = false;
        for obj in reloaded.objects.values() {
            let exotic = match obj {
                Object::Stream(s) => {
                    let is_image = matches!(
                        s.dict.get(b"Subtype"),
                        Ok(Object::Name(n)) if n == b"Image"
                    );
                    is_image
                        && match s.dict.get(b"Filter") {
                            Ok(Object::Name(n)) => n == name,
                            Ok(Object::Array(items)) if items.len() == 1 => {
                                matches!(&items[0], Object::Name(n) if n == name)
                            }
                            _ => false,
                        }
                }
                _ => false,
            };
            has_exotic |= exotic;
        }
        assert!(has_exotic, "{label}: filter name must be preserved");
    }
}

#[test]
fn flate_ineligible_images_are_untouched() {
    let cases: Vec<(&str, Vec<u8>)> = vec![
        (
            "Indexed color space",
            build_flate_pdf_with_dict(400, 3, |_, d| {
                d.set(
                    "ColorSpace",
                    vec![
                        Object::Name(b"Indexed".to_vec()),
                        Object::Name(b"DeviceRGB".to_vec()),
                        Object::Integer(255),
                        Object::String(vec![0u8; 768], lopdf::StringFormat::Hexadecimal),
                    ],
                );
            }),
        ),
        (
            "1-bit",
            build_flate_pdf_with_dict(400, 1, |_, d| {
                d.set("BitsPerComponent", 1_i64);
            }),
        ),
        (
            "16-bit",
            build_flate_pdf_with_dict(400, 3, |_, d| {
                d.set("BitsPerComponent", 16_i64);
            }),
        ),
        (
            "/Decode array present",
            build_flate_pdf_with_dict(400, 3, |_, d| {
                d.set(
                    "Decode",
                    vec![1.into(), 0.into(), 1.into(), 0.into(), 1.into(), 0.into()],
                );
            }),
        ),
    ];
    for (label, pdf) in cases {
        let out = optimize(&pdf);
        assert_eq!(out, pdf, "{label}: must be byte-identical to the input");
    }
}

#[test]
fn flate_corrupt_streams_return_original_bytes() {
    let pdf = build_pdf_flate(400, 100, None);
    let mut doc = Document::load_mem(&pdf).unwrap();
    for obj in doc.objects.values_mut() {
        if let Object::Stream(s) = obj {
            if matches!(s.dict.get(b"Subtype"), Ok(Object::Name(n)) if n == b"Image") {
                let half = s.content.len() / 2;
                let truncated = s.content[..half].to_vec();
                s.set_content(truncated);
            }
        }
    }
    let mut truncated_pdf: Vec<u8> = Vec::new();
    doc.save_to(&mut truncated_pdf).unwrap();
    let out = optimize(&truncated_pdf);
    assert_eq!(
        out, truncated_pdf,
        "truncated zlib must return original bytes"
    );

    let small = deflate_level9(&flate_pixels(200, 200, 3)).unwrap();
    let mut doc = Document::with_version("1.5");
    let img_id = doc.add_object(Stream::new(
        dict(vec![("Type", Object::from("XObject")), ("Subtype", Object::from("Image")), ("Width", Object::from(400_i64)), ("Height", Object::from(400_i64)), ("ColorSpace", Object::from("DeviceRGB")), ("BitsPerComponent", Object::from(8_i64)), ("Filter", Object::from("FlateDecode"))]),
        small,
    ));
    let mismatched = wrap_image_pdf(&mut doc, img_id, 100);
    let out = optimize(&mismatched);
    assert_eq!(
        out, mismatched,
        "length mismatch must return original bytes"
    );

    let bad_pred = build_flate_pdf_with_dict(400, 3, |_, d| {
        d.set(
            "DecodeParms",
            dict(vec![("Predictor", Object::from(99_i64)), ("Colors", Object::from(3_i64)), ("Columns", Object::from(400_i64))]),
        );
    });
    let out = optimize(&bad_pred);
    assert_eq!(
        out, bad_pred,
        "unknown predictor must return original bytes"
    );
}

#[test]
fn flate_optimize_is_idempotent() {
    let pdf = build_pdf_flate(400, 100, Some(2));
    let once = optimize(&pdf);
    assert!(once.len() < pdf.len(), "first pass must shrink");
    let twice = optimize(&once);
    assert_eq!(twice, once, "second pass must be byte-stable");
}

#[test]
fn flate_under_resolution_is_untouched() {
    let pdf = build_pdf_flate(120, 100, None);
    let out = optimize(&pdf);
    assert_eq!(out, pdf, "under-resolution Flate image must be untouched");
}

#[test]
fn downsample_flate_images_off_leaves_flate_untouched() {
    let pdf = build_pdf_flate(400, 100, Some(2));
    let opts = OptimizeOptions::default().with_downsample_flate_images(false);
    let out = optimize_with_options(&pdf, opts);
    assert_eq!(out, pdf, "flag off must leave Flate images untouched");
}

fn photo_pixels(px_w: u32, px_h: u32, channels: usize) -> Vec<u8> {
    let mut state = 0x2545_F491_u32;
    let mut out = Vec::with_capacity(px_w as usize * px_h as usize * channels);
    for y in 0..px_h {
        for x in 0..px_w {
            for c in 0..channels {
                state ^= state << 13;
                state ^= state >> 17;
                state ^= state << 5;
                let noise = (state >> 28) as i32 - 8;
                let phase = (x as f32 / 23.0) + (y as f32 / 17.0) + c as f32;
                let base = 128.0 + 96.0 * phase.sin();
                out.push((base as i32 + noise).clamp(0, 255) as u8);
            }
        }
    }
    out
}

fn build_pdf_flate_raw(raw: &[u8], px: u32, draw_pts: i64, channels: usize) -> Vec<u8> {
    let payload = deflate_level9(raw).unwrap();
    let mut doc = Document::with_version("1.5");
    let img_id = doc.add_object(Stream::new(
        dict(vec![("Type", Object::from("XObject")), ("Subtype", Object::from("Image")), ("Width", Object::from(px as i64)), ("Height", Object::from(px as i64)), ("ColorSpace", Object::from(if channels == 1 { "DeviceGray" } else { "DeviceRGB" })), ("BitsPerComponent", Object::from(8_i64)), ("Filter", Object::from("FlateDecode"))]),
        payload,
    ));
    wrap_image_pdf(&mut doc, img_id, draw_pts)
}

fn image_filter_info(pdf: &[u8]) -> (Vec<u8>, bool) {
    let doc = Document::load_mem(pdf).unwrap();
    for obj in doc.objects.values() {
        if let Object::Stream(s) = obj {
            if matches!(s.dict.get(b"Subtype"), Ok(Object::Name(n)) if n == b"Image") {
                let name = match s.dict.get(b"Filter").unwrap() {
                    Object::Name(n) => n.clone(),
                    Object::Array(items) => match &items[0] {
                        Object::Name(n) => n.clone(),
                        other => panic!("unexpected filter element {other:?}"),
                    },
                    other => panic!("unexpected filter {other:?}"),
                };
                return (name, s.dict.get(b"DecodeParms").is_ok());
            }
        }
    }
    panic!("no image stream");
}

fn build_photo_flate_under_res() -> Vec<u8> {
    build_pdf_flate_raw(&photo_pixels(200, 200, 3), 200, 200, 3)
}

#[test]
fn lossy_reencode_cannot_fire_without_consent() {
    let pdf = build_photo_flate_under_res();
    let out = optimize(&pdf);
    assert_eq!(
        out, pdf,
        "without allow_lossy_reencode the Flate payload must be untouched"
    );

    let over = build_pdf_flate_raw(&photo_pixels(400, 400, 3), 400, 100, 3);
    let out = optimize(&over);
    let (filter, _) = image_filter_info(&out);
    assert_eq!(
        filter, b"FlateDecode",
        "without consent the encoding class must never change"
    );
}

#[test]
fn lossy_reencode_converts_photographic_flate() {
    let pdf = build_photo_flate_under_res();
    let opts = OptimizeOptions::default().with_allow_lossy_reencode(true);
    let out = optimize_with_options(&pdf, opts);
    assert!(out.len() < pdf.len(), "conversion must shrink the file");

    let (filter, has_parms) = image_filter_info(&out);
    assert_eq!(filter, b"DCTDecode", "payload must now be a JPEG");
    assert!(!has_parms, "Flate /DecodeParms must be dropped");
    assert_eq!(image_dims(&out), (200, 200), "geometry must be unchanged");

    let jpeg = image_stream_bytes(&out);
    let decoded = image::load_from_memory_with_format(&jpeg, ImageFormat::Jpeg)
        .expect("converted payload must decode as a JPEG");
    assert_eq!((decoded.width(), decoded.height()), (200, 200));
    let actual = decoded.to_rgb8().into_raw();
    let reference = photo_pixels(200, 200, 3);
    let sad: u64 = reference
        .iter()
        .zip(&actual)
        .map(|(a, b)| u64::from(a.abs_diff(*b)))
        .sum();
    let mad = sad as f64 / reference.len() as f64;
    assert!(
        mad <= 24.0,
        "decode-back must reproduce nearby pixels (MAD {mad:.1})"
    );

    let twice = optimize_with_options(&out, opts);
    assert_eq!(twice, out, "second pass must be byte-stable");
}

#[test]
fn lossy_reencode_over_resolution_jpeg_candidate_competes() {
    let pdf = build_pdf_flate_raw(&photo_pixels(400, 400, 3), 400, 100, 3);
    let flag_off = optimize(&pdf);
    let opts = OptimizeOptions::default().with_allow_lossy_reencode(true);
    let flag_on = optimize_with_options(&pdf, opts);

    let (filter, has_parms) = image_filter_info(&flag_on);
    assert_eq!(filter, b"DCTDecode", "JPEG candidate must win on a photo");
    assert!(!has_parms);
    let (w, h) = image_dims(&flag_on);
    assert!(
        (150..=210).contains(&w) && w == h,
        "must land at the downsample's target geometry, got {w}x{h}"
    );
    assert!(
        flag_on.len() < flag_off.len(),
        "lossy candidate must beat the lossless downsample ({} !< {})",
        flag_on.len(),
        flag_off.len()
    );
}

#[test]
fn lossy_reencode_line_art_never_larger() {
    let pdf = build_pdf_flate_raw(&checkerboard_pixels(200, 8, 3), 200, 200, 3);
    let opts = OptimizeOptions::default().with_allow_lossy_reencode(true);
    let out = optimize_with_options(&pdf, opts);
    assert!(out.len() <= pdf.len(), "never-larger must hold");
    assert_eq!(
        out, pdf,
        "line art must decline conversion (5% guard / strict-smaller)"
    );

    let over = build_pdf_flate_raw(&checkerboard_pixels(400, 8, 3), 400, 100, 3);
    let out = optimize_with_options(&over, opts);
    let (filter, _) = image_filter_info(&out);
    assert_eq!(
        filter, b"FlateDecode",
        "line art must keep its lossless encoding even with consent"
    );
}

#[test]
fn lossy_reencode_skips_ineligible_color_shapes() {
    let indexed = build_pdf_flate_raw(&photo_pixels(120, 120, 3), 120, 100, 3);
    let mut doc = Document::load_mem(&indexed).unwrap();
    for obj in doc.objects.values_mut() {
        if let Object::Stream(s) = obj {
            if matches!(s.dict.get(b"Subtype"), Ok(Object::Name(n)) if n == b"Image") {
                s.dict.set(
                    "ColorSpace",
                    vec![
                        Object::Name(b"Indexed".to_vec()),
                        Object::Name(b"DeviceRGB".to_vec()),
                        Object::Integer(255),
                        Object::String(vec![0u8; 768], lopdf::StringFormat::Hexadecimal),
                    ],
                );
            }
        }
    }
    let mut indexed_pdf: Vec<u8> = Vec::new();
    doc.save_to(&mut indexed_pdf).unwrap();

    let mut sixteen_doc = Document::load_mem(&indexed).unwrap();
    for obj in sixteen_doc.objects.values_mut() {
        if let Object::Stream(s) = obj {
            if matches!(s.dict.get(b"Subtype"), Ok(Object::Name(n)) if n == b"Image") {
                s.dict.set("BitsPerComponent", 16_i64);
            }
        }
    }
    let mut sixteen_pdf: Vec<u8> = Vec::new();
    sixteen_doc.save_to(&mut sixteen_pdf).unwrap();

    let mut cmyk_doc = Document::load_mem(&indexed).unwrap();
    for obj in cmyk_doc.objects.values_mut() {
        if let Object::Stream(s) = obj {
            if matches!(s.dict.get(b"Subtype"), Ok(Object::Name(n)) if n == b"Image") {
                s.dict
                    .set("ColorSpace", Object::Name(b"DeviceCMYK".to_vec()));
            }
        }
    }
    let mut cmyk_pdf: Vec<u8> = Vec::new();
    cmyk_doc.save_to(&mut cmyk_pdf).unwrap();

    let opts = OptimizeOptions::default().with_allow_lossy_reencode(true);
    for (label, pdf) in [
        ("Indexed", indexed_pdf),
        ("16-bit", sixteen_pdf),
        ("DeviceCMYK", cmyk_pdf),
    ] {
        let out = optimize_with_options(&pdf, opts);
        assert_eq!(out, pdf, "{label}: must never convert, even with consent");
    }
}

#[test]
fn lossy_reencode_corrupt_flate_returns_exact_original_bytes() {
    let pdf = build_photo_flate_under_res();
    let mut doc = Document::load_mem(&pdf).unwrap();
    for obj in doc.objects.values_mut() {
        if let Object::Stream(s) = obj {
            if matches!(s.dict.get(b"Subtype"), Ok(Object::Name(n)) if n == b"Image") {
                let half = s.content.len() / 2;
                let truncated = s.content[..half].to_vec();
                s.set_content(truncated);
            }
        }
    }
    let mut corrupt: Vec<u8> = Vec::new();
    doc.save_to(&mut corrupt).unwrap();

    let opts = OptimizeOptions::default().with_allow_lossy_reencode(true);
    let out = optimize_with_options(&corrupt, opts);
    assert_eq!(
        out, corrupt,
        "corrupt input must return exact original bytes"
    );
}

#[test]
fn requant_declines_payload_already_at_target_quality() {
    let raw = checkerboard_pixels(300, 8, 3);
    let img = DynamicImage::ImageRgb8(image::RgbImage::from_raw(300, 300, raw).unwrap());
    let jpeg = encode_jpeg(img, false, 78).unwrap();
    let mut doc = Document::with_version("1.5");
    let img_id = doc.add_object(Stream::new(
        dict(vec![("Type", Object::from("XObject")), ("Subtype", Object::from("Image")), ("Width", Object::from(300_i64)), ("Height", Object::from(300_i64)), ("ColorSpace", Object::from("DeviceRGB")), ("BitsPerComponent", Object::from(8_i64)), ("Filter", Object::from("DCTDecode"))]),
        jpeg,
    ));
    let pdf = wrap_image_pdf(&mut doc, img_id, 300);
    let out = optimize(&pdf);
    assert_eq!(
        out, pdf,
        "a payload already at the target quality must never be requantized"
    );
}

fn build_pdf_masked_flate(base: &[u8], px: u32, draw_pts: i64) -> Vec<u8> {
    let mut doc = Document::with_version("1.5");
    let mask_id = doc.add_object(Stream::new(
        dict(vec![("Type", Object::from("XObject")), ("Subtype", Object::from("Image")), ("Width", Object::from(px as i64)), ("Height", Object::from(px as i64)), ("ColorSpace", Object::from("DeviceGray")), ("BitsPerComponent", Object::from(8_i64)), ("Filter", Object::from("FlateDecode"))]),
        deflate_level9(&photo_pixels(px, px, 1)).unwrap(),
    ));
    let img_id = doc.add_object(Stream::new(
        dict(vec![("Type", Object::from("XObject")), ("Subtype", Object::from("Image")), ("Width", Object::from(px as i64)), ("Height", Object::from(px as i64)), ("ColorSpace", Object::from("DeviceRGB")), ("BitsPerComponent", Object::from(8_i64)), ("Filter", Object::from("FlateDecode")), ("SMask", Object::from(mask_id))]),
        deflate_level9(base).unwrap(),
    ));
    wrap_image_pdf(&mut doc, img_id, draw_pts)
}

fn masked_bases(pdf: &[u8]) -> Vec<(Vec<u8>, ObjectId, i64, i64)> {
    let doc = Document::load_mem(pdf).unwrap();
    let mut out: Vec<_> = doc
        .objects
        .iter()
        .filter_map(|(id, obj)| match obj {
            Object::Stream(s)
                if matches!(s.dict.get(b"Subtype"), Ok(Object::Name(n)) if n == b"Image")
                    && s.dict.get(b"SMask").is_ok() =>
            {
                let filter = match s.dict.get(b"Filter").unwrap() {
                    Object::Name(n) => n.clone(),
                    Object::Array(items) => match &items[0] {
                        Object::Name(n) => n.clone(),
                        other => panic!("unexpected filter element {other:?}"),
                    },
                    other => panic!("unexpected filter {other:?}"),
                };
                let mask = match s.dict.get(b"SMask").unwrap() {
                    Object::Reference(r) => *r,
                    other => panic!("fixture uses indirect masks, got {other:?}"),
                };
                let w = s.dict.get(b"Width").unwrap().as_i64().unwrap();
                let h = s.dict.get(b"Height").unwrap().as_i64().unwrap();
                Some((*id, (filter, mask, w, h)))
            }
            _ => None,
        })
        .collect();
    out.sort_by_key(|(id, _)| *id);
    out.into_iter().map(|(_, v)| v).collect()
}

fn mask_shape(pdf: &[u8], mask_id: ObjectId) -> (Vec<u8>, i64, i64) {
    let doc = Document::load_mem(pdf).unwrap();
    let s = doc.get_object(mask_id).unwrap().as_stream().unwrap();
    (
        s.content.clone(),
        s.dict.get(b"Width").unwrap().as_i64().unwrap(),
        s.dict.get(b"Height").unwrap().as_i64().unwrap(),
    )
}

#[test]
fn lossy_reencode_converts_masked_flate_base_keeps_mask() {
    let px = 200u32;
    let pdf = build_pdf_masked_flate(&photo_pixels(px, px, 3), px, 200);
    let before = masked_bases(&pdf);
    assert_eq!(before.len(), 1, "fixture holds one masked base");
    let mask_id = before[0].1;
    let mask_before = mask_shape(&pdf, mask_id);

    let opts = OptimizeOptions::default().with_allow_lossy_reencode(true);
    let out = optimize_with_options(&pdf, opts);
    assert!(out.len() < pdf.len(), "the conversion must shrink the file");

    let after = masked_bases(&out);
    assert_eq!(after.len(), 1, "the masked base must survive");
    let (filter, mask_after_id, w, h) = &after[0];
    assert_eq!(filter.as_slice(), b"DCTDecode", "base converted to JPEG");
    assert_eq!(
        (*w, *h),
        (px as i64, px as i64),
        "the conversion is dimension-preserving"
    );
    assert_eq!(*mask_after_id, mask_id, "the /SMask reference is intact");
    assert_eq!(
        mask_shape(&out, mask_id),
        mask_before,
        "the mask stream must be byte-identical, same dimensions"
    );
    assert!(Document::load_mem(&out).is_ok(), "output must load back");

    assert_eq!(
        optimize(&pdf),
        pdf,
        "without consent the masked Flate pair stays untouched"
    );
}

#[test]
fn lossy_reencode_shared_mask_bases_convert_mask_untouched() {
    let px = 200u32;
    let mut doc = Document::with_version("1.5");
    let mask_id = doc.add_object(Stream::new(
        dict(vec![("Type", Object::from("XObject")), ("Subtype", Object::from("Image")), ("Width", Object::from(px as i64)), ("Height", Object::from(px as i64)), ("ColorSpace", Object::from("DeviceGray")), ("BitsPerComponent", Object::from(8_i64)), ("Filter", Object::from("FlateDecode"))]),
        deflate_level9(&photo_pixels(px, px, 1)).unwrap(),
    ));
    let pixels_a = photo_pixels(px, px, 3);
    let pixels_b: Vec<u8> = pixels_a.iter().map(|b| 255 - b).collect();
    let base_dict = |mask: ObjectId| {
        dict(vec![("Type", Object::from("XObject")), ("Subtype", Object::from("Image")), ("Width", Object::from(px as i64)), ("Height", Object::from(px as i64)), ("ColorSpace", Object::from("DeviceRGB")), ("BitsPerComponent", Object::from(8_i64)), ("Filter", Object::from("FlateDecode")), ("SMask", Object::from(mask))])
    };
    let img_a = doc.add_object(Stream::new(
        base_dict(mask_id),
        deflate_level9(&pixels_a).unwrap(),
    ));
    let img_b = doc.add_object(Stream::new(
        base_dict(mask_id),
        deflate_level9(&pixels_b).unwrap(),
    ));
    let content_id = doc.add_object(Stream::new(
        dict(vec![]),
        b"q 200 0 0 200 0 0 cm /Im0 Do Q q 200 0 0 200 250 0 cm /Im1 Do Q".to_vec(),
    ));
    let pages_id = doc.new_object_id();
    let page_id = doc.add_object(dict(vec![("Type", Object::from("Page")), ("Parent", Object::from(pages_id)), ("Contents", Object::from(content_id)), ("MediaBox", Object::from(vec![0.into(), 0.into(), 612.into(), 792.into()])), ("Resources", Object::from(dict(vec![("XObject", Object::from(dict(vec![("Im0", Object::from(Object::Reference(img_a))), ("Im1", Object::from(Object::Reference(img_b)))])))])))]));
    doc.objects.insert(
        pages_id,
        Object::Dictionary(dict(vec![("Type", Object::from("Pages")), ("Kids", Object::from(vec![page_id.into()])), ("Count", Object::from(1))])),
    );
    let catalog_id = doc.add_object(dict(vec![("Type", Object::from("Catalog")), ("Pages", Object::from(pages_id))]));
    doc.trailer.set("Root", catalog_id);
    let mut pdf: Vec<u8> = Vec::new();
    doc.save_to(&mut pdf).unwrap();

    let before = masked_bases(&pdf);
    assert_eq!(before.len(), 2, "fixture holds two masked bases");
    assert_eq!(before[0].1, before[1].1, "both share one mask object");
    let mask_before = mask_shape(&pdf, before[0].1);

    let opts = OptimizeOptions::default().with_allow_lossy_reencode(true);
    let out = optimize_with_options(&pdf, opts);

    let after = masked_bases(&out);
    assert_eq!(after.len(), 2, "both masked bases must survive");
    for (filter, mask, w, h) in &after {
        assert_eq!(filter.as_slice(), b"DCTDecode", "both bases convert");
        assert_eq!((*w, *h), (px as i64, px as i64), "geometry preserved");
        assert_eq!(*mask, before[0].1, "/SMask still points at the shared mask");
    }
    assert_eq!(
        mask_shape(&out, before[0].1),
        mask_before,
        "the shared mask must be byte-identical, same dimensions"
    );
    assert!(Document::load_mem(&out).is_ok(), "output must load back");
}

#[test]
fn lossy_reencode_masked_line_art_is_declined() {
    let px = 200u32;
    let pdf = build_pdf_masked_flate(&line_art_pixels(px, px), px, 200);
    let opts = OptimizeOptions::default().with_allow_lossy_reencode(true);
    assert_eq!(
        optimize_with_options(&pdf, opts),
        pdf,
        "masked line art must not be converted even with --allow-lossy"
    );
}

fn line_art_pixels(w: u32, h: u32) -> Vec<u8> {
    let mut buf = vec![255u8; (w * h * 3) as usize];
    for (i, byte) in buf.iter_mut().enumerate() {
        let mut x = i as u32 ^ 0x9E37_79B9;
        x ^= x << 13;
        x ^= x >> 17;
        x ^= x << 5;
        *byte -= (x % 7) as u8;
    }
    let palette = [
        [20u8, 40, 190],
        [10, 10, 10],
        [180, 30, 40],
        [20, 120, 60],
        [90, 30, 150],
    ];
    for (k, color) in palette.iter().enumerate() {
        for x in 0..w {
            if (x as usize / (5 + k)) % 3 == 2 {
                continue;
            }
            let f = x as f32 * (0.013 + k as f32 * 0.0037) + k as f32 * 0.7;
            let y = h as f32 / 2.0 + (h as f32 / 2.6) * f.sin();
            let yi = y.floor();
            if yi < 0.0 || yi as u32 + 1 >= h {
                continue;
            }
            let frac = y - yi;
            for (row, cover) in [(yi as u32, 1.0 - frac), (yi as u32 + 1, frac)] {
                let i = ((row * w + x) * 3) as usize;
                for c in 0..3 {
                    let bg = buf[i + c] as f32;
                    buf[i + c] = (bg + (color[c] as f32 - bg) * cover).round() as u8;
                }
            }
        }
    }
    for x in 0..w {
        for row in [0u32, h - 1] {
            let i = ((row * w + x) * 3) as usize;
            buf[i..i + 3].copy_from_slice(&[0, 0, 0]);
        }
    }
    for y in 0..h {
        for col in [0u32, w - 1] {
            let i = ((y * w + col) * 3) as usize;
            buf[i..i + 3].copy_from_slice(&[0, 0, 0]);
        }
    }
    buf
}

#[test]
fn lossy_reencode_declines_line_art() {
    let raw = line_art_pixels(200, 200);
    assert!(
        looks_like_line_art(&raw, 3, 200, 200),
        "fixture must trip the content guard"
    );
    assert!(
        !looks_like_line_art(&photo_pixels(200, 200, 3), 3, 200, 200),
        "photographic content must NOT trip the guard"
    );

    let pdf = build_pdf_flate_raw(&raw, 200, 200, 3);
    let opts = OptimizeOptions::default().with_allow_lossy_reencode(true);
    let out = optimize_with_options(&pdf, opts);
    assert_eq!(
        out, pdf,
        "line art must not be converted even with --allow-lossy"
    );

    let doc = Document::load_mem(&pdf).unwrap();
    let stream = doc
        .objects
        .values()
        .find_map(|o| match o {
            Object::Stream(s)
                if matches!(s.dict.get(b"Subtype"), Ok(Object::Name(n)) if n == b"Image") =>
            {
                Some(s)
            }
            _ => None,
        })
        .unwrap();
    let (img, _) = decode_flate_image(&doc, stream, 200, 200).unwrap();
    let unguarded = encode_jpeg(img, false, opts.jpeg_quality).unwrap();
    assert!(
        unguarded.len() * 100 < stream.content.len() * 95,
        "without the guard this fixture would convert ({} -> {})",
        stream.content.len(),
        unguarded.len()
    );
}

#[test]
fn lossy_reencode_declines_over_resolution_line_art() {
    let pdf = build_pdf_flate_raw(&line_art_pixels(400, 400), 400, 100, 3);
    let flag_off = optimize(&pdf);
    let opts = OptimizeOptions::default().with_allow_lossy_reencode(true);
    let flag_on = optimize_with_options(&pdf, opts);
    assert_eq!(
        flag_on, flag_off,
        "line art must never convert, whatever its resolution"
    );
    let (filter, _) = image_filter_info(&flag_on);
    assert_eq!(filter, b"FlateDecode", "encoding class must not change");
}

fn periodic_banner_pixels(px: u32) -> Vec<u8> {
    let mut out = Vec::with_capacity((px * px * 3) as usize);
    for y in 0..px {
        for x in 0..px {
            let base = [
                (60 + (x / 3) % 190) as u8,
                (200 - (y / 4) % 150) as u8,
                (120 + ((x + y) / 5) % 120) as u8,
            ];
            if x % 7 == 0 || y % 11 == 0 {
                out.extend_from_slice(&[25, 25, 25]);
            } else {
                out.extend_from_slice(&base);
            }
        }
    }
    out
}

#[test]
fn lossy_reencode_never_compounds_a_declined_downsample() {
    let raw = periodic_banner_pixels(400);
    let pdf = build_pdf_flate_raw(&raw, 400, 140, 3);

    let doc = Document::load_mem(&pdf).unwrap();
    let stream = doc
        .objects
        .values()
        .find_map(|o| match o {
            Object::Stream(s)
                if matches!(s.dict.get(b"Subtype"), Ok(Object::Name(n)) if n == b"Image") =>
            {
                Some(s)
            }
            _ => None,
        })
        .unwrap();
    let opts = OptimizeOptions::default().with_allow_lossy_reencode(true);
    let (target_w, target_h) = (253u32, 253u32);
    let (flate_out, _) = plan_flate(&doc, stream, 400, 400, target_w, target_h).unwrap();
    assert!(
        flate_out.len() >= stream.content.len(),
        "premise: the lossless downsample must grow ({} -> {})",
        stream.content.len(),
        flate_out.len()
    );
    let jpeg_out =
        plan_flate_to_jpeg(&doc, stream, opts, 400, 400, target_w, target_h).unwrap();
    assert!(
        jpeg_out.len() < stream.content.len(),
        "premise: the JPEG-at-target candidate must shrink ({} -> {})",
        stream.content.len(),
        jpeg_out.len()
    );

    let out = optimize_with_options(&pdf, opts);
    assert_eq!(
        out, pdf,
        "a resample the lossless path declined must not return via the lossy path"
    );
    let (filter, _) = image_filter_info(&out);
    assert_eq!(filter, b"FlateDecode", "encoding class must be unchanged");
    assert_eq!(image_dims(&out), (400, 400), "geometry must be unchanged");
}

#[test]
fn pack_object_streams_produces_loadable_output() {
    let pdf = build_pdf(400, 100);
    let opts = OptimizeOptions::default().with_pack_object_streams(true);
    let out = optimize_with_options(&pdf, opts);

    let doc = Document::load_mem(&out).expect("packed output must load");
    let has_image = doc.objects.values().any(|o| {
        matches!(o, Object::Stream(s)
            if matches!(s.dict.get(b"Subtype"), Ok(Object::Name(n)) if n == b"Image"))
    });
    assert!(has_image, "image must survive packing");
}

fn xref_object_header(pdf: &[u8]) -> Vec<u8> {
    let sx = pdf.windows(9).rposition(|w| w == b"startxref").unwrap();
    let digits: Vec<u8> = pdf[sx + 9..]
        .iter()
        .copied()
        .skip_while(u8::is_ascii_whitespace)
        .take_while(u8::is_ascii_digit)
        .collect();
    let start: usize = String::from_utf8(digits).unwrap().parse().unwrap();
    let end = find_sub(pdf, b">>stream\n", start).unwrap();
    pdf[start..end].to_vec()
}

#[test]
fn xref_stream_is_flate_compressed_in_both_save_paths() {
    let pdf = build_pdf_duplicate_images(6, 400);
    for pack in [true, false] {
        let opts = OptimizeOptions::default().with_pack_object_streams(pack);
        let out = optimize_with_options(&pdf, opts);
        let header = xref_object_header(&out);
        let shown = String::from_utf8_lossy(&header).to_string();
        assert!(
            find_sub(&header, b"/Type/XRef", 0).is_some(),
            "pack={pack}: expected an xref stream, got {shown}"
        );
        assert!(
            find_sub(&header, b"/Filter/FlateDecode", 0).is_some(),
            "pack={pack}: xref stream must be deflated, got {shown}"
        );
        let doc = Document::load_mem(&out)
            .unwrap_or_else(|e| panic!("pack={pack}: patched output must load: {e}"));
        assert!(
            !doc.get_pages().is_empty(),
            "pack={pack}: pages must survive"
        );
    }
}

#[test]
fn stale_xref_keys_in_the_input_trailer_do_not_reach_the_output() {
    let mut doc = Document::load_mem(&build_pdf_duplicate_images(6, 400)).unwrap();
    for key in ["DecodeParms", "Filter", "Prev", "XRefStm", "Length"] {
        doc.trailer.set(key, 16i64);
    }
    strip_stale_xref_trailer_keys(&mut doc);
    for key in [b"DecodeParms".as_slice(), b"Filter", b"Prev", b"XRefStm"] {
        assert!(
            doc.trailer.get(key).is_err(),
            "{} must not survive in the trailer",
            String::from_utf8_lossy(key)
        );
    }

    let mut doc = Document::load_mem(&build_pdf_duplicate_images(6, 400)).unwrap();
    doc.trailer.set(
        "DecodeParms",
        dict(vec![("Columns", Object::from(5)), ("Predictor", Object::from(12))]),
    );
    let mut staged: Vec<u8> = Vec::new();
    doc.save_to(&mut staged).unwrap();
    assert!(
        find_sub(&staged, b"/Predictor", 0).is_some(),
        "premise: the staged input must actually carry the stale key"
    );

    for pack in [true, false] {
        let opts = OptimizeOptions::default().with_pack_object_streams(pack);
        let out = optimize_with_options(&staged, opts);
        let header = xref_object_header(&out);
        let shown = String::from_utf8_lossy(&header).to_string();
        for key in [b"/DecodeParms".as_slice(), b"/Prev", b"/XRefStm"] {
            assert!(
                find_sub(&header, key, 0).is_none(),
                "pack={pack}: stale {} leaked into the xref stream: {shown}",
                String::from_utf8_lossy(key)
            );
        }
        assert!(
            find_sub(&header, b"/Filter/FlateDecode", 0).is_some(),
            "pack={pack}: xref stream must be deflated, got {shown}"
        );
        let reloaded = Document::load_mem(&out)
            .unwrap_or_else(|e| panic!("pack={pack}: output must load: {e}"));
        assert!(
            !reloaded.get_pages().is_empty(),
            "pack={pack}: pages must survive"
        );
    }
}

#[test]
fn xref_compression_declines_unrecognized_tails() {
    let pdf = build_pdf_duplicate_images(6, 400);
    let out = optimize_with_options(&pdf, OptimizeOptions::default());
    assert_eq!(
        compress_xref_stream(out.clone(), DeflateBackend::Zlib),
        out,
        "an already-deflated xref stream must be left alone"
    );
    for junk in [
        b"".to_vec(),
        b"%PDF-1.5\nstartxref\n999999\n%%EOF".to_vec(),
        b"%PDF-1.5\nstartxref\nnotanumber\n%%EOF".to_vec(),
        out[..out.len() / 2].to_vec(),
    ] {
        assert_eq!(
            compress_xref_stream(junk.clone(), DeflateBackend::Zlib),
            junk,
            "malformed input must pass through untouched"
        );
    }
}

fn build_pdf_weakly_deflated(px: u32, draw_pts: i64) -> Vec<u8> {
    let raw = flate_pixels(px, px, 3);
    let mut enc = flate2::write::ZlibEncoder::new(Vec::new(), flate2::Compression::new(1));
    enc.write_all(&raw).unwrap();
    let payload = enc.finish().unwrap();

    let mut doc = Document::with_version("1.5");
    let img_id = doc.add_object(Stream::new(
        dict(vec![("Type", Object::from("XObject")), ("Subtype", Object::from("Image")), ("Width", Object::from(px as i64)), ("Height", Object::from(px as i64)), ("ColorSpace", Object::from("DeviceRGB")), ("BitsPerComponent", Object::from(8_i64)), ("Filter", Object::from("FlateDecode"))]),
        payload,
    ));
    wrap_image_pdf(&mut doc, img_id, draw_pts)
}

#[test]
fn redeflate_shrinks_weakly_compressed_streams_losslessly() {
    let pdf = build_pdf_weakly_deflated(120, 120);
    let before_pixels = flate_image_pixels(&pdf);
    let before_len = image_stream_len(&pdf);

    let mut doc = Document::load_mem(&pdf).unwrap();
    redeflate_flate_streams(&mut doc, DeflateBackend::Zlib);
    let mut out: Vec<u8> = Vec::new();
    doc.save_to(&mut out).unwrap();

    assert!(
        image_stream_len(&out) < before_len,
        "level-9 must beat level-1: {before_len} -> {}",
        image_stream_len(&out)
    );
    assert_eq!(
        flate_image_pixels(&out),
        before_pixels,
        "decoded samples must be byte-identical"
    );
}

#[test]
fn serialization_wins_do_not_rewrite_an_otherwise_unchanged_file() {
    let pdf = build_pdf_weakly_deflated(120, 120);
    assert_eq!(
        optimize_with_options(&pdf, OptimizeOptions::default()),
        pdf,
        "no planned work ⇒ input returned unchanged"
    );
}

fn image_stream_len(pdf: &[u8]) -> usize {
    let doc = Document::load_mem(pdf).unwrap();
    doc.objects
        .values()
        .find_map(|o| match o {
            Object::Stream(s)
                if matches!(s.dict.get(b"Subtype"), Ok(Object::Name(n)) if n == b"Image") =>
            {
                Some(s.content.len())
            }
            _ => None,
        })
        .expect("no image stream")
}

#[test]
fn redeflate_is_never_larger_and_idempotent() {
    for pdf in [
        build_pdf_flate(400, 100, Some(2)),
        build_pdf_flate(400, 100, None),
        build_pdf_duplicate_images(4, 400),
    ] {
        let once = optimize_with_options(&pdf, OptimizeOptions::default());
        let twice = optimize_with_options(&once, OptimizeOptions::default());
        assert_eq!(once, twice, "a second pass must be byte-identical");

        let doc = Document::load_mem(&once).unwrap();
        for obj in doc.objects.values() {
            let Object::Stream(s) = obj else { continue };
            if !matches!(s.dict.get(b"Filter"), Ok(Object::Name(n)) if n == b"FlateDecode") {
                continue;
            }
            assert!(
                replan_deflate(&s.content, DeflateBackend::Zlib).is_none(),
                "a shipped stream still had slack: {} bytes",
                s.content.len()
            );
        }
    }
}

fn build_pdf_gray_in_rgb(px: u32) -> Vec<u8> {
    let gray = flate_pixels(px, px, 1);
    let rgb: Vec<u8> = gray.iter().flat_map(|&g| [g, g, g]).collect();
    let payload = deflate_level9(&rgb).unwrap();
    let mut doc = Document::with_version("1.5");
    let img_id = doc.add_object(Stream::new(
        dict(vec![("Type", Object::from("XObject")), ("Subtype", Object::from("Image")), ("Width", Object::from(px as i64)), ("Height", Object::from(px as i64)), ("ColorSpace", Object::from("DeviceRGB")), ("BitsPerComponent", Object::from(8_i64)), ("Filter", Object::from("FlateDecode"))]),
        payload,
    ));
    wrap_image_pdf(&mut doc, img_id, px as i64)
}

#[test]
fn gray_collapse_rewrites_channel_identical_rgb() {
    let px = 64;
    let pdf = build_pdf_gray_in_rgb(px);
    let opts = OptimizeOptions::default().with_collapse_gray_images(true);
    let out = optimize_with_options(&pdf, opts);
    assert!(out.len() < pdf.len(), "the gray stream must be smaller");

    let doc = Document::load_mem(&out).unwrap();
    let stream = doc
        .objects
        .values()
        .find_map(|o| match o {
            Object::Stream(s)
                if matches!(s.dict.get(b"Subtype"), Ok(Object::Name(n)) if n == b"Image") =>
            {
                Some(s)
            }
            _ => None,
        })
        .expect("no image stream");
    assert!(
        matches!(stream.dict.get(b"ColorSpace"), Ok(Object::Name(n)) if n == b"DeviceGray"),
        "/ColorSpace must be DeviceGray after the collapse"
    );
    let (img, channels) = decode_flate_image(&doc, stream, px, px).unwrap();
    assert_eq!(channels, 1);
    assert_eq!(
        img.into_luma8().into_raw(),
        flate_pixels(px, px, 1),
        "decoded samples must equal the shared channel exactly"
    );

    assert_eq!(
        optimize_with_options(&out, opts),
        out,
        "a second pass must be byte-identical"
    );
}

#[test]
fn gray_collapse_is_opt_in_and_declines_true_color() {
    let pdf = build_pdf_gray_in_rgb(64);
    assert_eq!(
        optimize_with_options(&pdf, OptimizeOptions::default()),
        pdf,
        "collapse must be opt-in"
    );

    let color = build_pdf_flate(64, 64, None);
    assert_eq!(
        optimize_with_options(
            &color,
            OptimizeOptions::default().with_collapse_gray_images(true)
        ),
        color,
        "distinct channels must pass through untouched"
    );
}

#[test]
fn objstm_zopfli_patch_is_never_larger_and_reparses() {
    let pdf = build_pdf_duplicate_images(6, 400);
    let zlib_out = optimize_with_options(
        &pdf,
        OptimizeOptions::default().with_pack_object_streams(true),
    );
    let zop_out = optimize_with_options(
        &pdf,
        OptimizeOptions::default()
            .with_pack_object_streams(true)
            .with_deflate_backend(DeflateBackend::Zopfli),
    );
    assert!(
        zop_out.len() <= zlib_out.len(),
        "zopfli save must never lose to zlib: {} vs {}",
        zlib_out.len(),
        zop_out.len()
    );
    let doc = Document::load_mem(&zop_out).unwrap();
    assert_eq!(doc.get_pages().len(), 1, "the page must survive the patch");

    for junk in [
        b"".to_vec(),
        b"%PDF-1.5\nno objstm here\nstartxref\n9\n%%EOF".to_vec(),
        zlib_out[..zlib_out.len() / 2].to_vec(),
    ] {
        assert_eq!(
            rezopfli_objstm(junk.clone()),
            junk,
            "malformed input must pass through untouched"
        );
    }
}

#[test]
fn zopfli_backend_is_smaller_lossless_and_idempotent() {
    let pdf = build_pdf_weakly_deflated(120, 120);
    let before_pixels = flate_image_pixels(&pdf);

    let mut doc = Document::load_mem(&pdf).unwrap();
    redeflate_flate_streams(&mut doc, DeflateBackend::Zlib);
    let mut zlib_out: Vec<u8> = Vec::new();
    doc.save_to(&mut zlib_out).unwrap();

    let mut doc = Document::load_mem(&pdf).unwrap();
    redeflate_flate_streams(&mut doc, DeflateBackend::Zopfli);
    let mut zopfli_out: Vec<u8> = Vec::new();
    doc.save_to(&mut zopfli_out).unwrap();

    assert!(
        image_stream_len(&zopfli_out) <= image_stream_len(&zlib_out),
        "zopfli must never lose to zlib under the strictly-smaller guard: \
         zlib {} vs zopfli {}",
        image_stream_len(&zlib_out),
        image_stream_len(&zopfli_out)
    );
    assert_eq!(
        flate_image_pixels(&zopfli_out),
        before_pixels,
        "decoded samples must be byte-identical"
    );

    let mut doc = Document::load_mem(&zopfli_out).unwrap();
    let mut reloaded: Vec<u8> = Vec::new();
    doc.save_to(&mut reloaded).unwrap();
    let mut doc = Document::load_mem(&zopfli_out).unwrap();
    redeflate_flate_streams(&mut doc, DeflateBackend::Zopfli);
    let mut twice: Vec<u8> = Vec::new();
    doc.save_to(&mut twice).unwrap();
    assert_eq!(reloaded, twice, "a second zopfli pass must change nothing");
}

#[test]
fn redeflate_declines_pdfa_and_signed_documents() {
    for marker in ["pdfa", "signed"] {
        let pdf = build_pdf_weakly_deflated(120, 120);
        let mut doc = Document::load_mem(&pdf).unwrap();
        let before = image_stream_len(&pdf);
        match marker {
            "pdfa" => {
                let meta = doc.add_object(Stream::new(
                    dict(vec![("Type", Object::from("Metadata")), ("Subtype", Object::from("XML"))]),
                    b"<x:xmpmeta><pdfaid:part>2</pdfaid:part></x:xmpmeta>".to_vec(),
                ));
                doc.catalog_mut().unwrap().set("Metadata", meta);
            }
            _ => {
                let sig = doc.add_object(dict(vec![("Type", Object::from("Sig")), ("ByteRange", Object::from(vec![0.into(), 0.into(), 0.into(), 0.into()]))]));
                doc.catalog_mut().unwrap().set("Perms", sig);
            }
        }
        let mut marked: Vec<u8> = Vec::new();
        doc.save_to(&mut marked).unwrap();

        redeflate_flate_streams(
            &mut Document::load_mem(&marked).unwrap(),
            DeflateBackend::Zlib,
        );
        let mut reloaded = Document::load_mem(&marked).unwrap();
        redeflate_flate_streams(&mut reloaded, DeflateBackend::Zlib);
        let after = reloaded
            .objects
            .values()
            .find_map(|o| match o {
                Object::Stream(s)
                    if matches!(s.dict.get(b"Subtype"), Ok(Object::Name(n)) if n == b"Image") =>
                {
                    Some(s.content.len())
                }
                _ => None,
            })
            .unwrap();
        assert_eq!(after, before, "{marker}: stream must be untouched");
    }
}

#[test]
fn default_packs_object_streams_and_opt_out_does_not() {
    let pdf = build_pdf_duplicate_images(6, 400);
    let packed = optimize_with_options(&pdf, OptimizeOptions::default());
    let flat = optimize_with_options(
        &pdf,
        OptimizeOptions::default().with_pack_object_streams(false),
    );

    assert!(
        find_sub(&packed, b"/Type/ObjStm", 0).is_some(),
        "default output must be ObjStm-packed"
    );
    assert!(
        find_sub(&flat, b"/Type/ObjStm", 0).is_none(),
        "--no-pack-object-streams must produce the flat layout"
    );
    assert!(
        packed.len() < flat.len(),
        "packing must win on an object-heavy document: {} vs {}",
        packed.len(),
        flat.len()
    );
    assert!(Document::load_mem(&packed).is_ok());
    assert!(Document::load_mem(&flat).is_ok());
}

#[test]
fn downsamples_over_resolution_image() {
    let pdf = build_pdf(400, 100);
    let out = optimize(&pdf);

    assert!(out.len() < pdf.len(), "expected smaller output");
    let (w, h) = image_dims(&out);
    assert!(w < 400 && w > 120, "unexpected downsampled width: {w}");
    assert_eq!(w, h, "aspect ratio should be preserved");
    assert!(Document::load_mem(&out).is_ok());
}

fn image_stream_bytes(pdf: &[u8]) -> Vec<u8> {
    let doc = Document::load_mem(pdf).unwrap();
    for obj in doc.objects.values() {
        if let Object::Stream(s) = obj {
            if matches!(s.dict.get(b"Subtype"), Ok(Object::Name(n)) if n == b"Image") {
                return s.content.clone();
            }
        }
    }
    panic!("no image stream");
}

#[test]
fn non_uniform_placement_is_downsampled() {
    let pdf = build_pdf_placed(1000, 500, 100);
    let out = optimize(&pdf);

    let (w, h) = image_dims(&out);
    assert!(
        (w, h) != (1000, 1000),
        "vertically over-resolved image must not be skipped"
    );
    assert!((850..=950).contains(&w), "unexpected width: {w}");
    assert!((150..=210).contains(&h), "unexpected height: {h}");
    assert!(out.len() < pdf.len(), "output must be smaller");
    assert!(Document::load_mem(&out).is_ok(), "output must still load");
}

#[test]
fn uniformly_low_resolution_image_still_skipped() {
    let pdf = build_pdf_placed(120, 100, 100);
    let out = optimize(&pdf);
    assert_eq!(image_dims(&out), (120, 120), "must never be resized");
}

#[test]
fn under_threshold_unmasked_jpeg_is_requantized() {
    let pdf = build_pdf(400, 240);
    let before = image_stream_bytes(&pdf);
    let out = optimize(&pdf);

    assert!(out.len() < pdf.len(), "requantized output must be smaller");
    assert_eq!(image_dims(&out), (400, 400), "dimensions must be identical");
    let after = image_stream_bytes(&out);
    assert!(
        after.len() < before.len(),
        "the payload must be strictly smaller"
    );
    assert!(Document::load_mem(&out).is_ok());
}

#[test]
fn under_threshold_requant_is_idempotent() {
    let pdf = build_pdf(400, 240);
    let once = optimize(&pdf);
    assert!(once.len() < pdf.len(), "first pass must shrink");
    let twice = optimize(&once);
    assert_eq!(twice, once, "second pass must be byte-stable");
}

#[test]
fn under_threshold_requant_growth_is_discarded() {
    let pdf = build_pdf(400, 100);
    let baseline = optimize(&pdf);
    assert!(baseline.len() < pdf.len(), "baseline must be smaller");
    let opts = OptimizeOptions::default().with_jpeg_quality(100);
    let out = optimize_with_options(&baseline, opts);
    assert_eq!(out, baseline, "growing requantization must be discarded");
}

#[test]
fn corrupt_under_threshold_jpeg_returns_exact_original_bytes() {
    let mut doc = Document::load_mem(&build_pdf(400, 240)).unwrap();
    for obj in doc.objects.values_mut() {
        if let Object::Stream(s) = obj {
            if matches!(s.dict.get(b"Subtype"), Ok(Object::Name(n)) if n == b"Image") {
                s.set_content(b"\xff\xd8\xff not a real jpeg payload".to_vec());
            }
        }
    }
    let mut input: Vec<u8> = Vec::new();
    doc.save_to(&mut input).unwrap();

    let out = optimize(&input);
    assert_eq!(out, input, "corrupt under-threshold JPEG must be untouched");
}

#[test]
fn scaled_decode_matches_full_decode_pixels() {
    let pdf = build_pdf(800, 100);
    let out = optimize(&pdf);
    let produced = image::load_from_memory(&image_stream_bytes(&out))
        .unwrap()
        .to_rgb8();

    let src = image::load_from_memory(&image_stream_bytes(&pdf)).unwrap();
    let reference = src
        .resize_exact(
            produced.width(),
            produced.height(),
            image::imageops::FilterType::Lanczos3,
        )
        .to_rgb8();

    assert_eq!(produced.dimensions(), reference.dimensions());
    let sad: f64 = produced
        .as_raw()
        .iter()
        .zip(reference.as_raw().iter())
        .map(|(a, b)| (*a as f64 - *b as f64).abs())
        .sum();
    let mad = sad / produced.as_raw().len() as f64;
    assert!(
        mad < 12.0,
        "scaled decode diverges from full decode: MAD={mad}"
    );
}

#[test]
fn scaled_decode_never_undershoots_target() {
    let mut img = image::RgbImage::new(4000, 4000);
    for (x, y, p) in img.enumerate_pixels_mut() {
        *p = image::Rgb([(x % 256) as u8, (y % 256) as u8, 0]);
    }
    let mut jpeg: Vec<u8> = Vec::new();
    image::codecs::jpeg::JpegEncoder::new_with_quality(&mut jpeg, 85)
        .encode_image(&DynamicImage::ImageRgb8(img))
        .unwrap();
    for target in [180u32, 500, 1000, 2500, 3999] {
        let (d, _) = decode_jpeg_scaled(&jpeg, target, target).unwrap();
        assert!(
            d.width() >= target && d.height() >= target,
            "target {target}: decoded {}x{} undershoots",
            d.width(),
            d.height()
        );
    }
}

#[test]
fn grayscale_jpeg_round_trips_as_grayscale() {
    let mut gray = image::GrayImage::new(600, 600);
    for (x, y, p) in gray.enumerate_pixels_mut() {
        *p = image::Luma([((x + y) % 256) as u8]);
    }
    let jpeg = encode_jpeg(DynamicImage::ImageLuma8(gray), true, 90).unwrap();

    let (decoded, is_gray) = decode_jpeg_scaled(&jpeg, 100, 100).expect("should decode");
    assert!(is_gray, "true grayscale JPEG must report is_gray");
    assert!(
        matches!(decoded, DynamicImage::ImageLuma8(_)),
        "must decode as single-channel Luma8"
    );
    assert!(decoded.width() >= 100 && decoded.height() >= 100);
}

#[test]
fn duplicate_image_streams_are_merged() {
    let pdf = build_pdf_duplicate_images(8, 400);
    assert_eq!(count_image_streams(&pdf), 8, "fixture should start with 8");

    let out = optimize(&pdf);
    assert_eq!(
        count_image_streams(&out),
        1,
        "identical images must be merged into a single stream"
    );
    assert!(out.len() < pdf.len(), "output must be smaller");
    assert!(Document::load_mem(&out).is_ok(), "output must still load");
}

#[test]
fn distinct_image_streams_are_not_merged() {
    let mut doc = Document::load_mem(&build_pdf_duplicate_images(2, 400)).unwrap();
    let ids: Vec<ObjectId> = doc
        .objects
        .iter()
        .filter(|(_, o)| {
            matches!(o, Object::Stream(s)
                if matches!(s.dict.get(b"Subtype"), Ok(Object::Name(n)) if n == b"Image"))
        })
        .map(|(id, _)| *id)
        .collect();
    assert_eq!(ids.len(), 2);
    if let Ok(Object::Stream(s)) = doc.get_object_mut(ids[1]) {
        s.content.push(0x00);
    }
    assert!(!dedup_streams(&mut doc), "differing bytes must not merge");
}

#[test]
fn default_options_match_documented_sweet_spot() {
    let d = OptimizeOptions::default();
    assert_eq!(f32::from_bits(d.target_dpi), 130.0);
    assert_eq!(d.jpeg_quality, 78);
    assert_eq!(f32::from_bits(d.dpi_margin), 1.15);
    assert!(!d.strip_accessibility);
    assert!(
        d.pack_object_streams,
        "ObjStm packing is default-ON"
    );
    assert!(
        d.downsample_flate_images,
        "Flate downsampling is default-ON"
    );
    assert!(
        d.subset_fonts,
        "font subsetting is default-ON"
    );
    assert!(
        !d.recompress_bitonal_images,
        "bitonal G4 recompression is opt-in"
    );
    assert!(
        !d.allow_lossy_reencode,
        "lossy Flate→JPEG re-encode is consent-gated"
    );
    assert_eq!(
        d.deflate_backend,
        DeflateBackend::Zlib,
        "zopfli is opt-in: ~30× the CPU belongs behind a flag"
    );
    assert!(
        !d.collapse_gray_images,
        "RGB→Gray collapse rewrites /ColorSpace, so it is opt-in \
         (same posture as bitonal G4)"
    );
}

#[test]
fn builder_methods_set_each_field() {
    let o = OptimizeOptions::default()
        .with_target_dpi(bits(96.0))
        .with_jpeg_quality(60)
        .with_dpi_margin(bits(1.5))
        .with_strip_accessibility(true)
        .with_pack_object_streams(false)
        .with_downsample_flate_images(false)
        .with_subset_fonts(true)
        .with_recompress_bitonal_images(true)
        .with_allow_lossy_reencode(true);
    assert_eq!(f32::from_bits(o.target_dpi), 96.0);
    assert_eq!(o.jpeg_quality, 60);
    assert_eq!(f32::from_bits(o.dpi_margin), 1.5);
    assert!(o.strip_accessibility);
    assert!(!o.pack_object_streams);
    assert!(!o.downsample_flate_images);
    assert!(o.subset_fonts);
    assert!(o.recompress_bitonal_images);
    assert!(o.allow_lossy_reencode);
}

#[test]
fn custom_target_dpi_downsamples_more_aggressively() {
    let pdf = build_pdf(400, 100);

    let at_130 = optimize_with_options(&pdf, OptimizeOptions::default());
    let opts_72 = OptimizeOptions::default().with_target_dpi(bits(72.0));
    let at_72 = optimize_with_options(&pdf, opts_72);

    let (w130, _) = image_dims(&at_130);
    let (w72, _) = image_dims(&at_72);
    assert!(
        w72 < w130,
        "lower target DPI must yield fewer pixels: {w72} !< {w130}"
    );
    assert!((90..=110).contains(&w72), "unexpected 72-DPI width: {w72}");
}

#[test]
fn zero_target_dpi_leaves_images_untouched() {
    let pdf = build_pdf(400, 100);
    let opts = OptimizeOptions::default().with_target_dpi(bits(0.0));
    let out = optimize_with_options(&pdf, opts);

    let (w, h) = image_dims(&out);
    assert_eq!(
        (w, h),
        (400, 400),
        "zero target DPI must not resize the image"
    );
}

#[test]
fn leaves_low_resolution_image_untouched() {
    let pdf = build_pdf(120, 100);
    let out = optimize(&pdf);

    let (w, h) = image_dims(&out);
    assert_eq!((w, h), (120, 120), "low-res image must not be resized");
}

#[test]
fn invalid_pdf_falls_back_to_original() {
    let garbage = b"this is not a pdf at all";
    let out = optimize(garbage);
    assert_eq!(out, garbage, "must return original bytes on failure");
}

#[test]
fn crafted_pdf_panic_is_caught_not_unwound() {
    let pdf = build_pdf(400, 100);
    let mut doc = Document::load_mem(&pdf).unwrap();
    for obj in doc.objects.values_mut() {
        if let Object::Stream(s) = obj {
            if matches!(s.dict.get(b"Subtype"), Ok(Object::Name(n)) if n == b"Image") {
                s.set_content(b"\xff\xd8\xff\xe0".to_vec());
            }
        }
    }
    let mut input: Vec<u8> = Vec::new();
    doc.save_to(&mut input).unwrap();

    let out = optimize(&input);
    assert_eq!(
        out, input,
        "panic-causing input must return original bytes, not abort"
    );
}

#[test]
fn degenerate_inputs_do_not_panic() {
    for input in [&b""[..], &[0u8], b"%", b"%P", b"%PDF"] {
        let out = optimize(input);
        assert_eq!(
            out, input,
            "degenerate input ({:?}) must pass through unchanged",
            input
        );
    }
}

#[test]
fn minify_number_literal_is_decimal_exact() {
    for (input, want) in [
        ("+3", "3"),
        ("007", "7"),
        ("0.5000", ".5"),
        ("-0.000", "0"),
        ("-0", "0"),
        ("10.", "10"),
        ("0.0", "0"),
        ("-.12", "-.12"),
        ("1.25", "1.25"),
        ("0.30000001", ".30000001"),
    ] {
        assert_eq!(minify_number_literal(input), want, "literal {input:?}");
        assert_eq!(
            input.parse::<f64>().unwrap(),
            minify_number_literal(input).parse::<f64>().unwrap(),
            "f64 drift on {input:?}"
        );
    }
}

#[test]
fn replan_content_minifies_sloppy_streams() {
    let sloppy = b"1.000  0.000 0.000   1.000 100.00 700.00 cm\n% a comment\nq   Q";
    let (out, deflated) = replan_content(
        sloppy,
        sloppy.len(),
        sloppy.len(),
        false,
        DeflateBackend::Zlib,
    )
    .expect("sloppy content must minify");
    let stored = if deflated {
        inflate_capped(&out, 1 << 16).unwrap()
    } else {
        out.clone()
    };
    assert!(out.len() < sloppy.len());
    assert_eq!(
        content_number_values(sloppy).unwrap(),
        content_number_values(&stored).unwrap()
    );
    let a = Content::decode_strict(sloppy).unwrap();
    let b = Content::decode_strict(&stored).unwrap();
    assert!(operations_equivalent(&a.operations, &b.operations));
}

#[test]
fn replan_content_preserves_f64_of_long_literals() {
    let sloppy = b"0.30000001  0.000 0.000 0.30000001   0.000 0.000 cm  q   Q";
    let (out, deflated) = replan_content(
        sloppy,
        sloppy.len(),
        sloppy.len(),
        false,
        DeflateBackend::Zlib,
    )
    .expect("must minify");
    let stored = if deflated {
        inflate_capped(&out, 1 << 16).unwrap()
    } else {
        out
    };
    let text = String::from_utf8(stored).unwrap();
    assert!(
        text.contains(".30000001"),
        "original digits must survive: {text}"
    );
}

#[test]
fn replan_content_declines_inline_images_and_garbage() {
    let bi = b"BI /W 1 /H 1 /BPC 8 /CS /G ID x EI\nq Q";
    assert!(replan_content(bi, bi.len(), bi.len(), false, DeflateBackend::Zlib).is_none());
    let garbage = b"1.000 0.000 zzz <malformed  ";
    assert!(replan_content(
        garbage,
        garbage.len(),
        garbage.len(),
        false,
        DeflateBackend::Zlib
    )
    .is_none());
}

#[test]
fn replan_content_declines_already_minimal_streams() {
    let minimal = b"1 0 0 1 5 5 cm";
    assert!(replan_content(
        minimal,
        minimal.len(),
        minimal.len(),
        false,
        DeflateBackend::Zlib
    )
    .is_none());
}

#[test]
fn minify_merges_multi_stream_page_contents() {
    let body: String = "0.100 0.200 0.300 0.400 0.500 0.600 cm\n".repeat(60);
    let c1 = Stream::new(
        dict(vec![]),
        format!("{body}1.000 0.000 0.000").into_bytes(),
    );
    let c2 = Stream::new(dict(vec![]), b" 1.000 5.000 7.000 cm\nq Q".to_vec());
    let mut doc = Document::with_version("1.5");
    let c1_id = doc.add_object(c1);
    let c2_id = doc.add_object(c2);
    let pages_id = doc.new_object_id();
    let page_id = doc.add_object(dict(vec![("Type", Object::from("Page")), ("Parent", Object::from(pages_id)), ("Contents", Object::from(vec![c1_id.into(), c2_id.into()])), ("MediaBox", Object::from(vec![0.into(), 0.into(), 612.into(), 792.into()]))]));
    doc.objects.insert(
        pages_id,
        Object::Dictionary(dict(vec![("Type", Object::from("Pages")), ("Kids", Object::from(vec![page_id.into()])), ("Count", Object::from(1))])),
    );
    let catalog_id = doc.add_object(dict(vec![("Type", Object::from("Catalog")), ("Pages", Object::from(pages_id))]));
    doc.trailer.set("Root", catalog_id);
    let before = doc.get_and_decode_page_content(page_id).unwrap();

    let changed = minify_content_streams(&mut doc, DeflateBackend::Zlib);
    assert!(changed, "sloppy multi-stream page must minify");
    let ids = doc.get_page_contents(page_id);
    assert_eq!(ids.len(), 1, "array must merge to a single stream");
    let after = doc.get_and_decode_page_content(page_id).unwrap();
    assert!(operations_equivalent(&before.operations, &after.operations));
}

#[test]
fn default_options_preserve_accessibility() {
    let pdf = build_pdf(400, 100);
    let out = optimize_with_options(&pdf, OptimizeOptions::default());
    assert!(out.len() < pdf.len(), "expected shrink from downsampling");
    assert!(Document::load_mem(&out).is_ok());
}

#[test]
fn strip_accessibility_runs_even_without_image_work() {
    let pdf = build_pdf(80, 100);
    let mut doc = Document::load_mem(&pdf).unwrap();
    let struct_id = doc.add_object(dict(vec![("Type", Object::from("StructTreeRoot")), ("RoleMap", Object::from(dict(vec![])))]));
    if let Ok(catalog) = doc.catalog_mut() {
        catalog.set("StructTreeRoot", Object::Reference(struct_id));
        catalog.set("MarkInfo", dict(vec![("Marked", Object::from(true))]));
    }
    let mut reencoded: Vec<u8> = Vec::new();
    doc.save_to(&mut reencoded).unwrap();

    let opts = OptimizeOptions::default().with_strip_accessibility(true);
    let out = optimize_with_options(&reencoded, opts);
    assert!(
        out.len() < reencoded.len(),
        "strip path must produce smaller output even with no image work"
    );
    let out_doc = Document::load_mem(&out).expect("stripped output must load");
    let catalog = out_doc.catalog().expect("catalog present");
    assert!(
        catalog.get(b"StructTreeRoot").is_err(),
        "StructTreeRoot must be removed"
    );
    assert!(
        catalog.get(b"MarkInfo").is_err(),
        "MarkInfo must be removed"
    );
}

#[test]
fn dedup_merges_identical_objects() {
    let mut doc = Document::with_version("1.5");
    let a = doc.add_object(dict(vec![("Type", Object::from("ExtGState")), ("ca", Object::from(1))]));
    let b = doc.add_object(dict(vec![("Type", Object::from("ExtGState")), ("ca", Object::from(1))]));
    let holder = doc.add_object(dict(vec![("First", Object::from(a)), ("Second", Object::from(b))]));

    let before = doc.objects.len();
    dedup_objects(&mut doc);

    assert_eq!(
        doc.objects.len(),
        before - 1,
        "exactly one duplicate object should be removed"
    );
    let dict = doc.get_object(holder).unwrap().as_dict().unwrap();
    let first = dict.get(b"First").unwrap();
    let second = dict.get(b"Second").unwrap();
    assert_eq!(
        first, second,
        "both references must point at the single surviving object"
    );
}

#[test]
fn dedup_keeps_distinct_objects() {
    let mut doc = Document::with_version("1.5");
    let a = doc.add_object(dict(vec![("Type", Object::from("ExtGState")), ("ca", Object::from(1))]));
    let b = doc.add_object(dict(vec![("Type", Object::from("ExtGState")), ("ca", Object::from(2))]));
    let holder = doc.add_object(dict(vec![("First", Object::from(a)), ("Second", Object::from(b))]));

    let before = doc.objects.len();
    dedup_objects(&mut doc);

    assert_eq!(doc.objects.len(), before, "no object should be removed");
    let dict = doc.get_object(holder).unwrap().as_dict().unwrap();
    let first = dict.get(b"First").unwrap();
    let second = dict.get(b"Second").unwrap();
    assert_ne!(
        first, second,
        "distinct objects must keep distinct references"
    );
}

#[test]
fn cascaded_duplicate_merges_reach_fixpoint_in_one_call() {
    let mut img = image::RgbImage::new(16, 16);
    for (x, y, pixel) in img.enumerate_pixels_mut() {
        *pixel = image::Rgb([(x * 16) as u8, (y * 16) as u8, 0]);
    }
    let mut jpeg: Vec<u8> = Vec::new();
    image::codecs::jpeg::JpegEncoder::new_with_quality(&mut jpeg, 92)
        .encode_image(&img)
        .unwrap();

    let mut doc = Document::with_version("1.5");
    let cs1 = doc.add_object(Object::Name(b"DeviceRGB".to_vec()));
    let cs2 = doc.add_object(Object::Name(b"DeviceRGB".to_vec()));
    let image_dict = |cs: ObjectId| {
        dict(vec![("Type", Object::from("XObject")), ("Subtype", Object::from("Image")), ("Width", Object::from(16_i64)), ("Height", Object::from(16_i64)), ("ColorSpace", Object::from(cs)), ("BitsPerComponent", Object::from(8_i64)), ("Filter", Object::from("DCTDecode"))])
    };
    let img1 = doc.add_object(Stream::new(image_dict(cs1), jpeg.clone()));
    let img2 = doc.add_object(Stream::new(image_dict(cs2), jpeg));
    let content = Content {
        operations: vec![Operation::new("q", vec![]), Operation::new("Q", vec![])],
    };
    let c1 = doc.add_object(Stream::new(dict(vec![]), content.encode().unwrap()));
    let c2 = doc.add_object(Stream::new(dict(vec![]), content.encode().unwrap()));

    let pages_id = doc.new_object_id();
    let page_id = doc.add_object(dict(vec![("Type", Object::from("Page")), ("Parent", Object::from(pages_id)), ("Contents", Object::from(vec![c1.into(), c2.into()])), ("MediaBox", Object::from(vec![0.into(), 0.into(), 612.into(), 792.into()])), ("Resources", Object::from(dict(vec![("XObject", Object::from(dict(vec![("Im0", Object::from(img1)), ("Im1", Object::from(img2))])))])))]));
    doc.objects.insert(
        pages_id,
        Object::Dictionary(dict(vec![("Type", Object::from("Pages")), ("Kids", Object::from(vec![page_id.into()])), ("Count", Object::from(1))])),
    );
    let catalog_id = doc.add_object(dict(vec![("Type", Object::from("Catalog")), ("Pages", Object::from(pages_id))]));
    doc.trailer.set("Root", catalog_id);
    let mut pdf: Vec<u8> = Vec::new();
    doc.save_to(&mut pdf).unwrap();

    let once = optimize(&pdf);
    assert!(once.len() < pdf.len(), "first pass must shrink");
    assert_eq!(
        count_image_streams(&once),
        1,
        "the second-generation image-stream merge must happen in pass one"
    );
    let twice = optimize(&once);
    assert_eq!(twice, once, "second pass must be byte-stable");
    assert_eq!(
        twice.len(),
        once.len(),
        "single-pass output must already be the two-pass size"
    );
}

#[test]
fn identical_blank_pages_are_never_merged() {
    let mut doc = Document::with_version("1.5");
    let content = Content {
        operations: vec![Operation::new("q", vec![]), Operation::new("Q", vec![])],
    };
    let c1 = doc.add_object(Stream::new(dict(vec![]), content.encode().unwrap()));
    let c2 = doc.add_object(Stream::new(dict(vec![]), content.encode().unwrap()));

    let pages_id = doc.new_object_id();
    let blank_page = |contents: ObjectId| {
        dict(vec![("Type", Object::from("Page")), ("Parent", Object::from(pages_id)), ("Contents", Object::from(contents)), ("MediaBox", Object::from(vec![0.into(), 0.into(), 612.into(), 792.into()]))])
    };
    let p1 = doc.add_object(blank_page(c1));
    let p2 = doc.add_object(blank_page(c2));
    doc.objects.insert(
        pages_id,
        Object::Dictionary(dict(vec![("Type", Object::from("Pages")), ("Kids", Object::from(vec![p1.into(), p2.into()])), ("Count", Object::from(2))])),
    );
    let catalog_id = doc.add_object(dict(vec![("Type", Object::from("Catalog")), ("Pages", Object::from(pages_id))]));
    doc.trailer.set("Root", catalog_id);
    let mut pdf: Vec<u8> = Vec::new();
    doc.save_to(&mut pdf).unwrap();

    let once = optimize(&pdf);
    let out_doc = Document::load_mem(&once).expect("output must load");
    let pages: Vec<ObjectId> = out_doc.get_pages().into_values().collect();
    assert_eq!(pages.len(), 2, "both pages must survive");
    assert_ne!(
        pages[0], pages[1],
        "identical pages must stay distinct objects, never merged"
    );
    let twice = optimize(&once);
    assert_eq!(twice, once, "second pass must be byte-stable");
}

fn build_pdf_smask(px: u32, draw_pts: i64, jpeg_quality: u8) -> Vec<u8> {
    build_pdf_smask_ext(px, draw_pts, jpeg_quality, |_| {}, |_| {})
}

fn build_pdf_smask_ext(
    px: u32,
    draw_pts: i64,
    jpeg_quality: u8,
    base_mutate: impl FnOnce(&mut lopdf::Dictionary),
    mask_mutate: impl FnOnce(&mut lopdf::Dictionary),
) -> Vec<u8> {
    let mut img = image::RgbImage::new(px, px);
    for (x, y, pixel) in img.enumerate_pixels_mut() {
        *pixel = image::Rgb([(x % 256) as u8, (y % 256) as u8, ((x + y) % 256) as u8]);
    }
    let mut jpeg: Vec<u8> = Vec::new();
    image::codecs::jpeg::JpegEncoder::new_with_quality(&mut jpeg, jpeg_quality)
        .encode_image(&img)
        .unwrap();
    let mask_payload = deflate_level9(&flate_pixels(px, px, 1)).unwrap();

    let mut doc = Document::with_version("1.5");
    let mask_id = doc.add_object(Stream::new(
        dict(vec![("Type", Object::from("XObject")), ("Subtype", Object::from("Image")), ("Width", Object::from(px as i64)), ("Height", Object::from(px as i64)), ("ColorSpace", Object::from("DeviceGray")), ("BitsPerComponent", Object::from(8_i64)), ("Filter", Object::from("FlateDecode"))]),
        mask_payload,
    ));
    if let Ok(Object::Stream(s)) = doc.get_object_mut(mask_id) {
        mask_mutate(&mut s.dict);
    }
    let img_id = doc.add_object(Stream::new(
        dict(vec![("Type", Object::from("XObject")), ("Subtype", Object::from("Image")), ("Width", Object::from(px as i64)), ("Height", Object::from(px as i64)), ("ColorSpace", Object::from("DeviceRGB")), ("BitsPerComponent", Object::from(8_i64)), ("Filter", Object::from("DCTDecode")), ("SMask", Object::from(mask_id))]),
        jpeg,
    ));
    if let Ok(Object::Stream(s)) = doc.get_object_mut(img_id) {
        base_mutate(&mut s.dict);
    }
    wrap_image_pdf(&mut doc, img_id, draw_pts)
}

fn smask_base_info(pdf: &[u8]) -> (Vec<u8>, i64, i64, ObjectId) {
    let doc = Document::load_mem(pdf).unwrap();
    for obj in doc.objects.values() {
        if let Object::Stream(s) = obj {
            if matches!(s.dict.get(b"Subtype"), Ok(Object::Name(n)) if n == b"Image")
                && s.dict.get(b"SMask").is_ok()
            {
                let w = s.dict.get(b"Width").unwrap().as_i64().unwrap();
                let h = s.dict.get(b"Height").unwrap().as_i64().unwrap();
                let smask = match s.dict.get(b"SMask").unwrap() {
                    Object::Reference(r) => *r,
                    _ => panic!("SMask must be a reference in the fixture"),
                };
                return (s.content.clone(), w, h, smask);
            }
        }
    }
    panic!("no smask-carrying image stream found");
}

fn smask_base_filter(pdf: &[u8]) -> Vec<u8> {
    let doc = Document::load_mem(pdf).unwrap();
    for obj in doc.objects.values() {
        if let Object::Stream(s) = obj {
            if matches!(s.dict.get(b"Subtype"), Ok(Object::Name(n)) if n == b"Image")
                && s.dict.get(b"SMask").is_ok()
            {
                return match s.dict.get(b"Filter").unwrap() {
                    Object::Name(n) => n.clone(),
                    other => panic!("fixture uses scalar filters, got {other:?}"),
                };
            }
        }
    }
    panic!("no smask-carrying image stream found");
}

fn smask_stream_bytes(pdf: &[u8], smask_id: ObjectId) -> Vec<u8> {
    let doc = Document::load_mem(pdf).unwrap();
    match doc.get_object(smask_id) {
        Ok(Object::Stream(s)) => s.content.clone(),
        _ => panic!("smask id is not a stream"),
    }
}

#[test]
fn smask_masked_jpeg_requantizes_smaller_dimensions_identical() {
    let pdf = build_pdf_smask(400, 240, 92);
    let (base_before, iw, ih, smask_before) = smask_base_info(&pdf);
    let mask_before = smask_stream_bytes(&pdf, smask_before);
    assert_eq!((iw, ih), (400, 400), "fixture base must be 400x400");

    let out = optimize(&pdf);

    assert!(out.len() < pdf.len(), "requantized output must be smaller");
    let (base_after, aw, ah, smask_after) = smask_base_info(&out);
    assert_eq!(
        (aw, ah),
        (iw, ih),
        "base dimensions must be identical after requantization"
    );
    assert_ne!(
        base_after, base_before,
        "the base must actually be re-encoded, not passed through"
    );
    assert_eq!(
        smask_after, smask_before,
        "/SMask reference must stay intact"
    );
    assert_eq!(
        smask_stream_bytes(&out, smask_after),
        mask_before,
        "the /SMask stream itself must be untouched"
    );
    assert!(Document::load_mem(&out).is_ok());
}

#[test]
fn smask_masked_optimize_is_idempotent() {
    let pdf = build_pdf_smask(400, 100, 92);
    let once = optimize(&pdf);
    assert!(once.len() < pdf.len(), "first pass must shrink");
    let twice = optimize(&once);
    assert_eq!(twice, once, "second pass must be byte-stable");
}

fn build_pdf_shared_smask(draw_pts: i64) -> Vec<u8> {
    let mut doc = Document::load_mem(&build_pdf_smask(400, draw_pts, 92)).unwrap();
    let (img_a_id, mask_a) = doc
        .objects
        .iter()
        .find_map(|(id, obj)| match obj {
            Object::Stream(s)
                if matches!(
                    s.dict.get(b"Subtype"),
                    Ok(Object::Name(n)) if n == b"Image"
                ) && s.dict.get(b"SMask").is_ok() =>
            {
                let mask = match s.dict.get(b"SMask").unwrap() {
                    Object::Reference(r) => *r,
                    _ => panic!("fixture uses direct refs"),
                };
                Some((*id, mask))
            }
            _ => None,
        })
        .expect("fixture has one masked image");
    let mut img_b = image::RgbImage::new(400, 400);
    for (x, y, pixel) in img_b.enumerate_pixels_mut() {
        *pixel = image::Rgb([255 - (x % 256) as u8, (y % 256) as u8, 128]);
    }
    let mut jpeg_b: Vec<u8> = Vec::new();
    image::codecs::jpeg::JpegEncoder::new_with_quality(&mut jpeg_b, 92)
        .encode_image(&img_b)
        .unwrap();
    let img_b_id = doc.add_object(Stream::new(
        dict(vec![("Type", Object::from("XObject")), ("Subtype", Object::from("Image")), ("Width", Object::from(400_i64)), ("Height", Object::from(400_i64)), ("ColorSpace", Object::from("DeviceRGB")), ("BitsPerComponent", Object::from(8_i64)), ("Filter", Object::from("DCTDecode")), ("SMask", Object::from(mask_a))]),
        jpeg_b,
    ));
    let content_id = doc.add_object(Stream::new(
        dict(vec![]),
        format!(
            "q {d} 0 0 {d} 0 0 cm /Im0 Do Q q {d} 0 0 {d} {off} 0 cm /Im1 Do Q",
            d = draw_pts,
            off = draw_pts + 50
        )
        .into_bytes(),
    ));
    let page_resources = dict(vec![("XObject", Object::from(dict(vec![("Im0", Object::from(Object::Reference(img_a_id))), ("Im1", Object::from(Object::Reference(img_b_id)))])))]);
    for obj in doc.objects.values_mut() {
        if let Object::Dictionary(d) = obj {
            if matches!(
                d.get(b"Type").map(|t| t.as_name()),
                Ok(Ok(name)) if name == b"Page"
            ) {
                d.set("Resources", page_resources.clone());
                d.set("Contents", Object::Reference(content_id));
            }
        }
    }
    let mut input: Vec<u8> = Vec::new();
    doc.save_to(&mut input).unwrap();
    input
}

fn shared_smask_bases(pdf: &[u8]) -> Vec<(Vec<u8>, i64, i64, ObjectId)> {
    let doc = Document::load_mem(pdf).unwrap();
    let mut ids: Vec<ObjectId> = doc.objects.keys().copied().collect();
    ids.sort();
    ids.iter()
        .filter_map(|id| match doc.get_object(*id) {
            Ok(Object::Stream(s))
                if matches!(
                    s.dict.get(b"Subtype"),
                    Ok(Object::Name(n)) if n == b"Image"
                ) && s.dict.get(b"SMask").is_ok() =>
            {
                let mask = match s.dict.get(b"SMask").unwrap() {
                    Object::Reference(r) => *r,
                    _ => panic!("fixture uses direct refs"),
                };
                let w = s.dict.get(b"Width").unwrap().as_i64().unwrap();
                let h = s.dict.get(b"Height").unwrap().as_i64().unwrap();
                Some((s.content.clone(), w, h, mask))
            }
            _ => None,
        })
        .collect()
}

#[test]
fn shared_smask_is_never_resized() {
    let input = build_pdf_shared_smask(100);
    let out = optimize(&input);
    assert!(out.len() < input.len(), "requant must shrink the bases");
    let pairs = shared_smask_bases(&out);
    assert_eq!(pairs.len(), 2);
    for (content, w, h, _mask) in &pairs {
        assert_eq!((*w, *h), (400, 400), "dims must be unchanged");
        let img = image::load_from_memory_with_format(content, image::ImageFormat::Jpeg)
            .expect("base is still a decodable JPEG");
        assert_eq!((img.width(), img.height()), (400, 400));
    }
    assert_eq!(pairs[0].3, pairs[1].3, "both refs point at one mask");
    let in_pairs = shared_smask_bases(&input);
    let input_doc = Document::load_mem(&input).unwrap();
    let mask_before = input_doc
        .get_object(in_pairs[0].3)
        .unwrap()
        .as_stream()
        .unwrap()
        .content
        .clone();
    let mask_after = Document::load_mem(&out)
        .unwrap()
        .get_object(pairs[0].3)
        .unwrap()
        .as_stream()
        .unwrap()
        .content
        .clone();
    assert_eq!(mask_before, mask_after, "shared mask must be untouched");
}

#[test]
fn shared_smask_under_threshold_bases_are_requantized() {
    let input = build_pdf_shared_smask(240);
    let before = shared_smask_bases(&input);
    assert_eq!(before.len(), 2, "fixture must hold two masked bases");
    assert_eq!(
        before[0].3, before[1].3,
        "fixture masks must be merged into one object"
    );
    let mask_bytes_before = smask_stream_bytes(&input, before[0].3);

    let out = optimize(&input);
    assert!(
        out.len() < input.len(),
        "requantized output must be smaller"
    );

    let after = shared_smask_bases(&out);
    assert_eq!(after.len(), 2, "both masked bases must survive");
    assert_eq!(
        after[0].3, after[1].3,
        "both /SMask refs must still point at the same mask object"
    );
    for ((base_before, ..), (base_after, w, h, _)) in before.iter().zip(&after) {
        assert_eq!((*w, *h), (400, 400), "base dimensions must be identical");
        assert!(
            base_after.len() < base_before.len(),
            "each base must be strictly smaller"
        );
    }
    assert_eq!(
        smask_stream_bytes(&out, after[0].3),
        mask_bytes_before,
        "the shared mask stream must be byte-identical"
    );
    assert!(Document::load_mem(&out).is_ok());
}

#[test]
fn shared_smask_requant_is_idempotent() {
    let input = build_pdf_shared_smask(240);
    let once = optimize(&input);
    assert!(once.len() < input.len(), "first pass must shrink");
    let twice = optimize(&once);
    assert_eq!(twice, once, "second pass must be byte-stable");
}

#[test]
fn corrupt_masked_jpeg_returns_exact_original_bytes() {
    let mut doc = Document::load_mem(&build_pdf_smask(400, 100, 92)).unwrap();
    for obj in doc.objects.values_mut() {
        if let Object::Stream(s) = obj {
            if matches!(s.dict.get(b"Subtype"), Ok(Object::Name(n)) if n == b"Image")
                && s.dict.get(b"SMask").is_ok()
            {
                s.set_content(b"\xff\xd8\xff not a real jpeg payload".to_vec());
            }
        }
    }
    let mut input: Vec<u8> = Vec::new();
    doc.save_to(&mut input).unwrap();

    let out = optimize(&input);
    assert_eq!(out, input, "corrupt masked JPEG must return original bytes");
    assert!(Document::load_mem(&out).is_ok());
}

#[test]
fn smask_requantization_never_larger_guard_holds() {
    let pdf = build_pdf_smask(400, 100, 92);
    let baseline = optimize(&pdf);
    assert!(baseline.len() < pdf.len(), "baseline must be smaller");
    let opts = OptimizeOptions::default().with_jpeg_quality(100);
    let out = optimize_with_options(&baseline, opts);
    assert_eq!(out, baseline, "growing requantization must be discarded");
}

#[test]
fn smask_matte_anywhere_skips_the_pair() {
    let cases: Vec<(&str, Vec<u8>)> = vec![
        (
            "/Matte on the mask",
            build_pdf_smask_ext(
                400,
                100,
                92,
                |_| {},
                |m| {
                    m.set("Matte", vec![23.into(), 128.into(), 240.into()]);
                },
            ),
        ),
        (
            "/Matte on the base",
            build_pdf_smask_ext(
                400,
                100,
                92,
                |b| {
                    b.set("Matte", vec![23.into(), 128.into(), 240.into()]);
                },
                |_| {},
            ),
        ),
    ];
    for (label, pdf) in cases {
        let out = optimize(&pdf);
        assert_eq!(out, pdf, "{label}: must leave the masked pair untouched");
    }
}

#[test]
fn stencil_and_colorkey_masks_are_skipped() {
    let cases: Vec<(&str, Vec<u8>)> = vec![
        (
            "/ImageMask stencil as the /SMask",
            build_pdf_smask_ext(
                400,
                100,
                92,
                |_| {},
                |m| {
                    m.set("ImageMask", Object::Boolean(true));
                },
            ),
        ),
        (
            "/Mask color-key on the base",
            build_pdf_smask_ext(
                400,
                100,
                92,
                |b| {
                    b.set("Mask", vec![Object::Integer(1), Object::Integer(255)]);
                },
                |_| {},
            ),
        ),
    ];
    for (label, pdf) in cases {
        let out = optimize(&pdf);
        assert_eq!(out, pdf, "{label}: must leave the masked pair untouched");
    }
}

#[test]
fn ineligible_smask_variants_are_skipped() {
    let cases: Vec<(&str, Vec<u8>)> = vec![
        (
            "unresolvable /SMask reference",
            build_pdf_smask_ext(
                400,
                100,
                92,
                |b| {
                    b.set("SMask", 9_999_999_i64);
                },
                |_| {},
            ),
        ),
        (
            "/SMask that is not an image object",
            build_pdf_smask_ext(
                400,
                100,
                92,
                |b| {
                    b.set("SMask", dict(vec![("Type", Object::from("AnyObject"))]));
                },
                |_| {},
            ),
        ),
        (
            "mask color space /DeviceRGB",
            build_pdf_smask_ext(
                400,
                100,
                92,
                |_| {},
                |m| {
                    m.set("ColorSpace", "DeviceRGB");
                },
            ),
        ),
        (
            "mask /BitsPerComponent 1 (not 8)",
            build_pdf_smask_ext(
                400,
                100,
                92,
                |_| {},
                |m| {
                    m.set("BitsPerComponent", 1_i64);
                },
            ),
        ),
    ];
    for (label, pdf) in cases {
        let out = optimize(&pdf);
        assert_eq!(out, pdf, "{label}: must leave the image untouched");
    }
}

fn build_pdf_smask_flate(px: u32, draw_pts: i64) -> Vec<u8> {
    let base = flate_pixels(px, px, 3);
    let mask = flate_pixels(px, px, 1);
    build_pdf_smask_flate_ext(px, draw_pts, &base, &mask, |_| {}, |_| {})
}

fn build_pdf_smask_flate_ext(
    px: u32,
    draw_pts: i64,
    base_raw: &[u8],
    mask_raw: &[u8],
    base_mutate: impl FnOnce(&mut lopdf::Dictionary),
    mask_mutate: impl FnOnce(&mut lopdf::Dictionary),
) -> Vec<u8> {
    let mut doc = Document::with_version("1.5");
    let mask_id = doc.add_object(Stream::new(
        dict(vec![("Type", Object::from("XObject")), ("Subtype", Object::from("Image")), ("Width", Object::from(px as i64)), ("Height", Object::from(px as i64)), ("ColorSpace", Object::from("DeviceGray")), ("BitsPerComponent", Object::from(8_i64)), ("Filter", Object::from("FlateDecode"))]),
        deflate_level9(mask_raw).unwrap(),
    ));
    if let Ok(Object::Stream(s)) = doc.get_object_mut(mask_id) {
        mask_mutate(&mut s.dict);
    }
    let img_id = doc.add_object(Stream::new(
        dict(vec![("Type", Object::from("XObject")), ("Subtype", Object::from("Image")), ("Width", Object::from(px as i64)), ("Height", Object::from(px as i64)), ("ColorSpace", Object::from("DeviceRGB")), ("BitsPerComponent", Object::from(8_i64)), ("Filter", Object::from("FlateDecode")), ("SMask", Object::from(mask_id))]),
        deflate_level9(base_raw).unwrap(),
    ));
    if let Ok(Object::Stream(s)) = doc.get_object_mut(img_id) {
        base_mutate(&mut s.dict);
    }
    wrap_image_pdf(&mut doc, img_id, draw_pts)
}

fn checkerboard_pixels(px: u32, cell: u32, channels: usize) -> Vec<u8> {
    let mut out = Vec::with_capacity(px as usize * px as usize * channels);
    for y in 0..px {
        for x in 0..px {
            let v = if ((x / cell) + (y / cell)).is_multiple_of(2) {
                0u8
            } else {
                255u8
            };
            out.extend(std::iter::repeat_n(v, channels));
        }
    }
    out
}

#[test]
fn smask_flate_pair_downsamples_atomically_dimensions_identical() {
    let pdf = build_pdf_smask_flate(400, 100);
    let (base_before, iw, ih, smask_before) = smask_base_info(&pdf);
    let mask_before = smask_stream_bytes(&pdf, smask_before);
    assert_eq!((iw, ih), (400, 400), "fixture base must be 400x400");

    let out = optimize(&pdf);

    assert!(out.len() < pdf.len(), "downsampled output must be smaller");
    let (base_after, aw, ah, smask_after) = smask_base_info(&out);
    assert_eq!((aw, ah), (181, 181), "base must land at the 130-DPI target");
    assert_ne!(base_after, base_before, "the base must be re-encoded");
    assert_eq!(
        smask_after, smask_before,
        "/SMask reference must stay intact"
    );
    assert_ne!(
        smask_stream_bytes(&out, smask_after),
        mask_before,
        "the mask must be re-encoded alongside the base"
    );
    let doc = Document::load_mem(&out).unwrap();
    let mask_dict = &doc
        .get_object(smask_after)
        .unwrap()
        .as_stream()
        .unwrap()
        .dict;
    assert_eq!(
        (
            mask_dict.get(b"Width").unwrap().as_i64().unwrap(),
            mask_dict.get(b"Height").unwrap().as_i64().unwrap(),
        ),
        (aw, ah),
        "mask geometry must be identical to the base's (the unit rule)"
    );
    for obj in doc.objects.values() {
        if let Object::Stream(s) = obj {
            if s.dict.get(b"SMask").is_ok() {
                assert!(
                    matches!(s.dict.get(b"Filter"), Ok(Object::Name(n)) if n == b"FlateDecode"),
                    "base must remain FlateDecode (format-preserving path)"
                );
            }
        }
    }
}

#[test]
fn smask_flate_under_resolution_pair_is_untouched() {
    let pdf = build_pdf_smask_flate(400, 240);
    let out = optimize(&pdf);
    assert_eq!(
        out, pdf,
        "under-resolution masked Flate pair must be untouched"
    );
}

#[test]
fn corrupt_masked_flate_streams_return_exact_original_bytes() {
    for corrupt_mask in [false, true] {
        let mut doc = Document::load_mem(&build_pdf_smask_flate(400, 100)).unwrap();
        for obj in doc.objects.values_mut() {
            if let Object::Stream(s) = obj {
                if matches!(s.dict.get(b"Subtype"), Ok(Object::Name(n)) if n == b"Image")
                    && s.dict.get(b"SMask").is_ok() != corrupt_mask
                {
                    let half = s.content.len() / 2;
                    let truncated = s.content[..half].to_vec();
                    s.set_content(truncated);
                }
            }
        }
        let mut input: Vec<u8> = Vec::new();
        doc.save_to(&mut input).unwrap();
        let out = optimize(&input);
        assert_eq!(
            out,
            input,
            "corrupt {} must return original bytes for the whole pair",
            if corrupt_mask { "mask" } else { "base" }
        );
    }
}

#[test]
fn smask_flate_combined_guard_skips_never_larger_pair() {
    let base = checkerboard_pixels(400, 8, 3);
    let mask = checkerboard_pixels(400, 8, 1);
    let pdf = build_pdf_smask_flate_ext(400, 100, &base, &mask, |_| {}, |_| {});
    let out = optimize(&pdf);
    assert_eq!(out, pdf, "never-larger pair must be skipped atomically");
}

#[test]
fn smask_flate_optimize_is_idempotent() {
    let pdf = build_pdf_smask_flate(400, 100);
    let once = optimize(&pdf);
    assert!(once.len() < pdf.len(), "first pass must shrink");
    let twice = optimize(&once);
    assert_eq!(twice, once, "second pass must be byte-stable");
}

fn build_pdf_smask_flate_photo() -> Vec<u8> {
    let base = photo_pixels(400, 400, 3);
    let mask = photo_pixels(400, 400, 1);
    build_pdf_smask_flate_ext(400, 100, &base, &mask, |_| {}, |_| {})
}

#[test]
fn smask_flate_lossy_pair_is_idempotent_in_one_pass() {
    let pdf = build_pdf_smask_flate_photo();
    let opts = OptimizeOptions::default().with_allow_lossy_reencode(true);

    let once = optimize_with_options(&pdf, opts);
    assert!(once.len() < pdf.len(), "first pass must shrink");
    let (_, w, h, mask_id) = smask_base_info(&once);
    assert_eq!(
        smask_base_filter(&once).as_slice(),
        b"DCTDecode",
        "the JPEG competitor must win on photographic content"
    );
    assert_eq!((w, h), (181, 181), "base at the 130-DPI target geometry");
    let doc = Document::load_mem(&once).unwrap();
    let mask_dict = &doc.get_object(mask_id).unwrap().as_stream().unwrap().dict;
    assert_eq!(
        (
            mask_dict.get(b"Width").unwrap().as_i64().unwrap(),
            mask_dict.get(b"Height").unwrap().as_i64().unwrap(),
        ),
        (w, h),
        "the mask must be resampled to the base's geometry (the unit rule)"
    );

    let twice = optimize_with_options(&once, opts);
    assert_eq!(twice, once, "second pass must be BYTE-IDENTICAL");
}

fn smooth_ramp_pixels(px: u32, channels: usize) -> Vec<u8> {
    let mut out = Vec::with_capacity(px as usize * px as usize * channels);
    for y in 0..px {
        for x in 0..px {
            let v = ((x + y) as f32 / (2.0 * px as f32) * 255.0) as u8;
            out.extend(std::iter::repeat_n(v, channels));
        }
    }
    out
}

#[test]
fn smask_flate_lossy_competitor_wins_only_when_smaller() {
    let ramp = build_pdf_smask_flate_ext(
        400,
        100,
        &smooth_ramp_pixels(400, 3),
        &photo_pixels(400, 400, 1),
        |_| {},
        |_| {},
    );
    let flag_off = optimize(&ramp);

    let opts = OptimizeOptions::default().with_allow_lossy_reencode(true);
    let jpeg_wins = optimize_with_options(&ramp, opts);
    assert_eq!(
        smask_base_filter(&jpeg_wins).as_slice(),
        b"DCTDecode",
        "q78: the smaller JPEG candidate must win"
    );
    assert!(
        jpeg_wins.len() < flag_off.len(),
        "and it must actually beat the flag-off pair on size"
    );

    let lossless_wins = optimize_with_options(&ramp, opts.with_jpeg_quality(100));
    assert_eq!(
        smask_base_filter(&lossless_wins).as_slice(),
        b"FlateDecode",
        "q100: the larger JPEG candidate must lose to the deflate"
    );
    assert_eq!(
        lossless_wins, flag_off,
        "losing the competition must leave exactly the flag-off pair"
    );
}

#[test]
fn smask_flate_lossy_competitor_declines_line_art() {
    let base = line_art_pixels(400, 400);
    let mask = photo_pixels(400, 400, 1);
    let pdf = build_pdf_smask_flate_ext(400, 100, &base, &mask, |_| {}, |_| {});
    let opts = OptimizeOptions::default().with_allow_lossy_reencode(true);
    let out = optimize_with_options(&pdf, opts);
    assert_eq!(
        smask_base_filter(&out).as_slice(),
        b"FlateDecode",
        "masked line art must keep the format-preserving downsample"
    );
    assert_eq!(
        out,
        optimize(&pdf),
        "masked line art must get exactly the flag-off result"
    );
}

#[test]
fn smask_flate_lossy_competitor_never_compounds_a_declined_downsample() {
    let base = checkerboard_pixels(400, 4, 3);
    let mask = checkerboard_pixels(400, 4, 1);
    let pdf = build_pdf_smask_flate_ext(400, 100, &base, &mask, |_| {}, |_| {});
    assert_eq!(optimize(&pdf), pdf, "the lossless pair must decline first");
    let opts = OptimizeOptions::default().with_allow_lossy_reencode(true);
    assert_eq!(
        optimize_with_options(&pdf, opts),
        pdf,
        "a declined resample must not be resurrected by a JPEG candidate"
    );
}

#[test]
fn shared_smask_flate_pair_is_never_resized() {
    let mut doc = Document::load_mem(&build_pdf_smask_flate(400, 100)).unwrap();
    let (img_a_id, mask_a) = doc
        .objects
        .iter()
        .find_map(|(id, obj)| match obj {
            Object::Stream(s)
                if matches!(
                    s.dict.get(b"Subtype"),
                    Ok(Object::Name(n)) if n == b"Image"
                ) && s.dict.get(b"SMask").is_ok() =>
            {
                let mask = match s.dict.get(b"SMask").unwrap() {
                    Object::Reference(r) => *r,
                    _ => panic!("fixture uses direct refs"),
                };
                Some((*id, mask))
            }
            _ => None,
        })
        .expect("fixture has one masked image");
    let mut raw_b = flate_pixels(400, 400, 3);
    for b in &mut raw_b {
        *b = !*b;
    }
    let img_b_id = doc.add_object(Stream::new(
        dict(vec![("Type", Object::from("XObject")), ("Subtype", Object::from("Image")), ("Width", Object::from(400_i64)), ("Height", Object::from(400_i64)), ("ColorSpace", Object::from("DeviceRGB")), ("BitsPerComponent", Object::from(8_i64)), ("Filter", Object::from("FlateDecode")), ("SMask", Object::from(mask_a))]),
        deflate_level9(&raw_b).unwrap(),
    ));
    let content_id = doc.add_object(Stream::new(
        dict(vec![]),
        b"q 100 0 0 100 0 0 cm /Im0 Do Q q 100 0 0 100 150 0 cm /Im1 Do Q".to_vec(),
    ));
    let page_resources = dict(vec![("XObject", Object::from(dict(vec![("Im0", Object::from(Object::Reference(img_a_id))), ("Im1", Object::from(Object::Reference(img_b_id)))])))]);
    for obj in doc.objects.values_mut() {
        if let Object::Dictionary(d) = obj {
            if matches!(
                d.get(b"Type").map(|t| t.as_name()),
                Ok(Ok(name)) if name == b"Page"
            ) {
                d.set("Resources", page_resources.clone());
                d.set("Contents", Object::Reference(content_id));
            }
        }
    }
    let mut input: Vec<u8> = Vec::new();
    doc.save_to(&mut input).unwrap();

    let out = optimize(&input);
    assert_eq!(out.len(), input.len(), "shared-mask pairs must not change");
}

#[test]
fn smask_flate_matte_and_stencil_are_skipped() {
    let base = flate_pixels(400, 400, 3);
    let mask = flate_pixels(400, 400, 1);
    let cases: Vec<(&str, Vec<u8>)> = vec![
        (
            "/Matte on the mask",
            build_pdf_smask_flate_ext(
                400,
                100,
                &base,
                &mask,
                |_| {},
                |m| {
                    m.set("Matte", vec![23.into(), 128.into(), 240.into()]);
                },
            ),
        ),
        (
            "/Matte on the base",
            build_pdf_smask_flate_ext(
                400,
                100,
                &base,
                &mask,
                |b| {
                    b.set("Matte", vec![23.into(), 128.into(), 240.into()]);
                },
                |_| {},
            ),
        ),
        (
            "/ImageMask stencil as the /SMask",
            build_pdf_smask_flate_ext(
                400,
                100,
                &base,
                &mask,
                |_| {},
                |m| {
                    m.set("ImageMask", Object::Boolean(true));
                },
            ),
        ),
    ];
    for (label, pdf) in cases {
        let out = optimize(&pdf);
        assert_eq!(out, pdf, "{label}: must leave the masked pair untouched");
    }
}

#[test]
fn downsample_flate_images_off_leaves_masked_pair_untouched() {
    let pdf = build_pdf_smask_flate(400, 100);
    let opts = OptimizeOptions::default().with_downsample_flate_images(false);
    let out = optimize_with_options(&pdf, opts);
    assert_eq!(out, pdf, "flag off must leave the masked pair untouched");
}

#[test]
fn corrupt_jpeg_stream_falls_back_without_crashing() {
    let mut doc = Document::with_version("1.5");
    let img_id = doc.add_object(Stream::new(
        dict(vec![("Type", Object::from("XObject")), ("Subtype", Object::from("Image")), ("Width", Object::from(400_i64)), ("Height", Object::from(400_i64)), ("ColorSpace", Object::from("DeviceRGB")), ("BitsPerComponent", Object::from(8)), ("Filter", Object::from("DCTDecode"))]),
        b"\xff\xd8\xff not a real jpeg payload".to_vec(),
    ));
    let content = Content {
        operations: vec![
            Operation::new("q", vec![]),
            Operation::new(
                "cm",
                vec![
                    100.into(),
                    0.into(),
                    0.into(),
                    100.into(),
                    0.into(),
                    0.into(),
                ],
            ),
            Operation::new("Do", vec![Object::Name(b"Im0".to_vec())]),
            Operation::new("Q", vec![]),
        ],
    };
    let content_id = doc.add_object(Stream::new(dict(vec![]), content.encode().unwrap()));
    let pages_id = doc.new_object_id();
    let page_id = doc.add_object(dict(vec![("Type", Object::from("Page")), ("Parent", Object::from(pages_id)), ("Contents", Object::from(content_id)), ("MediaBox", Object::from(vec![0.into(), 0.into(), 612.into(), 792.into()])), ("Resources", Object::from(dict(vec![("XObject", Object::from(dict(vec![("Im0", Object::from(img_id))])))])))]));
    doc.objects.insert(
        pages_id,
        Object::Dictionary(dict(vec![("Type", Object::from("Pages")), ("Kids", Object::from(vec![page_id.into()])), ("Count", Object::from(1))])),
    );
    let catalog_id = doc.add_object(dict(vec![("Type", Object::from("Catalog")), ("Pages", Object::from(pages_id))]));
    doc.trailer.set("Root", catalog_id);
    let mut input: Vec<u8> = Vec::new();
    doc.save_to(&mut input).unwrap();

    let out = optimize(&input);
    assert_eq!(
        out, input,
        "corrupt image must leave the document unchanged"
    );
    assert!(
        Document::load_mem(&out).is_ok(),
        "output must remain a valid PDF"
    );
}
