//! Real literals that single precision cannot hold.

use amatl::object::{Dict, Entry, Indirect, ObjectId, Pdf, PdfObject, PdfStream};
use amatl::options::OptimizeOptions;
use amatl::placements::Placements;
use amatl::raster::{decode_scale, Codec, Raster};
use amatl::reals::capture::{RealLiterals, Reading};
use amatl::reals::restore::restore;
use amatl::reals::scan::{scan_reals, scan_reals_positions};
use amatl::replace::Geometry;
use amatl::text::find_sub;
use lopdf::{Dictionary, Document, Object, Stream};

/// A number of a content stream.
fn number(o: &PdfObject) -> f32 {
    match o {
        PdfObject::Integer(i) => *i as f32,
        PdfObject::Real(text) => String::from_utf8_lossy(text).parse().unwrap_or(0.0),
        _ => 0.0,
    }
}

/// The products of the transformations: the images of the two unit vectors.
/// Each transformation comes after the one that it is applied before.
fn transformations(placements: &Placements) -> Vec<[f32; 4]> {
    let mut all: Vec<[f32; 4]> = Vec::new();
    for m in &placements.matrices {
        let product = match (m.operands.len(), all.get(m.parent)) {
            (6, Some(then)) => {
                let v: Vec<f32> = m.operands.iter().map(number).collect();
                [
                    v[0] * then[0] + v[1] * then[2],
                    v[0] * then[1] + v[1] * then[3],
                    v[2] * then[0] + v[3] * then[2],
                    v[2] * then[1] + v[3] * then[3],
                ]
            }
            _ => [1.0, 0.0, 0.0, 1.0],
        };
        all.push(product);
    }
    all
}

/// How many pixels an image needs for its largest placement.
fn geometry(
    placements: &Placements,
    id: ObjectId,
    px_w: u32,
    px_h: u32,
    options: OptimizeOptions,
) -> Option<Geometry> {
    let (mut w, mut h) = (0.0f32, 0.0f32);
    let products = transformations(placements);
    for paint in placements.paints.iter().filter(|p| p.image == id) {
        let m = products[paint.matrix];
        w = w.max((m[0] * m[0] + m[1] * m[1]).sqrt());
        h = h.max((m[2] * m[2] + m[3] * m[3]).sqrt());
    }
    if w <= 0.0 || h <= 0.0 {
        return None;
    }
    let target = f32::from_bits(options.target_dpi);
    let margin = f32::from_bits(options.dpi_margin).max(1.0);
    let effective = (px_w as f32 / (w / 72.0)).max(px_h as f32 / (h / 72.0));
    let target_w = ((w / 72.0) * target).round().max(1.0) as u32;
    let target_h = ((h / 72.0) * target).round().max(1.0) as u32;
    let over_resolution = effective > target * margin && target_w < px_w && target_h < px_h;
    Some(Geometry { over_resolution, target_w, target_h })
}

/// Decodes a JPEG, at the smallest scale that covers the target where
/// possible. libjpeg unwinds on a broken file, so what cannot be decoded
/// otherwise is declined.
fn decode(data: &[u8], target_w: u32, target_h: u32) -> Option<Raster> {
    let full = image::load_from_memory_with_format(data, image::ImageFormat::Jpeg).ok()?;
    let gray = matches!(
        full,
        image::DynamicImage::ImageLuma8(_) | image::DynamicImage::ImageLuma16(_)
    );
    let (width, height) = (full.width(), full.height());
    decode_at_scale(data, target_w, target_h).or_else(|| {
        let pixels =
            if gray { full.into_luma8().into_raw() } else { full.into_rgb8().into_raw() };
        Some(Raster { width, height, gray, pixels })
    })
}

/// Encodes an image as JPEG.
fn encode(img: &Raster, quality: u8) -> Option<Vec<u8>> {
    let space = if img.gray {
        mozjpeg::ColorSpace::JCS_GRAYSCALE
    } else {
        mozjpeg::ColorSpace::JCS_RGB
    };
    let mut comp = mozjpeg::Compress::new(space);
    comp.set_size(img.width as usize, img.height as usize);
    comp.set_quality(f32::from(quality));
    let mut started = comp.start_compress(Vec::new()).ok()?;
    started.write_scanlines(&img.pixels).ok()?;
    started.finish().ok()
}

/// The samples of a JPEG 2000 file.
fn decode_jpx(data: &[u8]) -> Option<Vec<u8>> {
    let settings = dicom_toolkit_jpeg2000::DecodeSettings::default();
    dicom_toolkit_jpeg2000::Image::new(data, &settings).ok()?.decode().ok()
}

fn codec() -> Codec<
    impl Fn(&[u8], u32, u32) -> Option<Raster>,
    impl Fn(&Raster, u8) -> Option<Vec<u8>>,
    impl Fn(&[u8]) -> Option<Vec<u8>>,
> {
    Codec { decode, encode, jpx: decode_jpx }
}

/// Decodes a JPEG that is not broken at the smallest scale that covers the
/// target.
fn decode_at_scale(data: &[u8], target_w: u32, target_h: u32) -> Option<Raster> {
    let mut dec = mozjpeg::Decompress::new_mem(data).ok()?;
    let (full_w, full_h) = (dec.width(), dec.height());
    if full_w == 0 || full_h == 0 {
        return None;
    }
    let gray = dec.color_space() == mozjpeg::ColorSpace::JCS_GRAYSCALE;
    if matches!(
        dec.color_space(),
        mozjpeg::ColorSpace::JCS_CMYK | mozjpeg::ColorSpace::JCS_YCCK
    ) {
        return None;
    }
    dec.scale(decode_scale(full_w as u32, full_h as u32, target_w, target_h));
    let mut started = if gray { dec.grayscale().ok()? } else { dec.rgb().ok()? };
    let (width, height) = (started.width() as u32, started.height() as u32);
    let pixels: Vec<u8> = started.read_scanlines::<u8>().ok()?;
    started.finish().ok()?;
    Some(Raster { width, height, gray, pixels })
}

/// What a real literal means.
fn reading(text: &[u8]) -> Option<Reading> {
    let text = std::str::from_utf8(text).ok()?;
    let wide: f64 = text.parse().ok()?;
    let narrow: f32 = text.parse().ok()?;
    if !narrow.is_finite() {
        return None;
    }
    let shortest = format!("{narrow}");
    Some(Reading {
        narrow: narrow.to_bits(),
        shortest: shortest.into_bytes(),
        wide: wide.to_bits(),
    })
}

fn plain_object(o: &Object) -> PdfObject {
    match o {
        Object::Null => PdfObject::Null,
        Object::Boolean(b) => PdfObject::Boolean(*b),
        Object::Integer(i) => PdfObject::Integer(*i),
        Object::Real(v) => PdfObject::Real(format!("{v}").into_bytes()),
        Object::Name(n) => PdfObject::Name(n.clone()),
        Object::String(t, f) => {
            PdfObject::Text(t.clone(), *f == lopdf::StringFormat::Hexadecimal)
        }
        Object::Array(a) => PdfObject::Array(a.iter().map(plain_object).collect()),
        Object::Dictionary(d) => PdfObject::Dictionary(plain_dict(d)),
        Object::Stream(s) => PdfObject::Stream(plain_stream(s)),
        Object::Reference(id) => PdfObject::Reference(*id),
    }
}

fn plain_dict(d: &Dictionary) -> Dict {
    let entry = |(key, value): (&Vec<u8>, &Object)| Entry {
        key: key.clone(),
        value: plain_object(value),
    };
    Dict { entries: d.iter().map(entry).collect() }
}

fn plain_stream(s: &Stream) -> PdfStream {
    PdfStream {
        dict: plain_dict(&s.dict),
        content: s.content.clone(),
        compressible: s.allows_compression,
    }
}

fn plain(doc: &Document) -> Pdf {
    let kind = &doc.reference_table.cross_reference_type;
    let objects = doc.objects.iter();
    Pdf {
        version: doc.version.clone().into_bytes(),
        binary_mark: doc.binary_mark.clone(),
        trailer: plain_dict(&doc.trailer),
        objects: objects
            .map(|(id, o)| Indirect { id: *id, object: plain_object(o) })
            .collect(),
        max_id: doc.max_id,
        xref_stream: matches!(kind, lopdf::xref::XrefType::CrossReferenceStream),
        encrypted: doc.was_encrypted(),
    }
}

/// Reads a file.
fn load(file: &[u8]) -> Option<Pdf> {
    let doc = Document::load_mem(file).ok()?;
    Some(plain(&doc))
}

fn optimize_with_options(input: &[u8], options: OptimizeOptions) -> Vec<u8> {
    let measure = |p: &Placements, id: ObjectId, w: u32, h: u32| geometry(p, id, w, h, options);
    amatl::pipeline::optimize_with_options(input, options, &measure, &codec(), &reading, &load)
}

fn optimize(input: &[u8]) -> Vec<u8> {
    let options = OptimizeOptions::default();
    let measure = |p: &Placements, id: ObjectId, w: u32, h: u32| geometry(p, id, w, h, options);
    amatl::pipeline::optimize(input, &measure, &codec(), &reading, &load)
}

/// A dictionary of these entries.
fn dict(entries: Vec<(&str, Object)>) -> Dictionary {
    let mut d = Dictionary::new();
    for (key, value) in entries {
        d.set(key, value);
    }
    d
}

fn capture(input: &[u8]) -> RealLiterals {
    amatl::reals::capture::capture(input, &reading)
}

fn as_f32(literal: &str) -> f32 {
    literal.parse().unwrap()
}

fn captured(input: &[u8]) -> Vec<(f32, String)> {
    let mut out: Vec<(f32, String)> = capture(input)
        .exact
        .iter()
        .map(|(bits, text)| {
            (
                f32::from_bits(*bits),
                String::from_utf8_lossy(text).into_owned(),
            )
        })
        .collect();
    out.sort_by(|a, b| a.1.cmp(&b.1));
    out
}

#[test]
fn captures_only_the_literals_f32_cannot_hold() {
    let input = b"<</MediaBox[0 0 595.91998 841.92]/Width 612/Alpha 0.5>>";
    assert_eq!(
        captured(input),
        vec![(as_f32("595.91998"), "595.91998".to_string())]
    );
}

#[test]
fn declines_a_value_two_literals_share() {
    let same_f32 = b"<</A 595.91998/B 595.919983>>";
    assert!(capture(same_f32).is_empty());
}

#[test]
fn declines_a_value_whose_shortened_form_also_occurs() {
    let both = b"<</A 841.91998>><</B 841.92>>";
    assert!(capture(both).is_empty());
}

#[test]
fn does_not_read_numbers_out_of_strings_comments_or_streams() {
    let string = b"<</PTEX.Fullbanner(This is pdfTeX, Version 3.14159265-2.6)>>";
    assert!(capture(string).is_empty());
    let comment = b"% 595.91998 is not an object\n<</Width 612>>";
    assert!(capture(comment).is_empty());
    let hex = b"<</A<595.91998>>>";
    assert!(capture(hex).is_empty());
    let stream = b"<</Length 12>>stream\n595.91998 x\nendstream";
    assert!(capture(stream).is_empty());
}

fn a4_fixture() -> Vec<u8> {
    undrift(&a4_placeholders())
}

fn a4_fixture_classic_xref() -> Vec<u8> {
    let mut doc = Document::load_mem(&a4_placeholders()).unwrap();
    doc.reference_table.cross_reference_type = lopdf::xref::XrefType::CrossReferenceTable;
    let mut bytes: Vec<u8> = Vec::new();
    doc.save_to(&mut bytes).unwrap();
    undrift(&bytes)
}

fn undrift(bytes: &[u8]) -> Vec<u8> {
    let bytes = splice(bytes, format!("{PLACEHOLDER_W}").as_bytes(), b"595.91998");
    splice(&bytes, format!("{PLACEHOLDER_H}").as_bytes(), b"841.91998")
}

const PLACEHOLDER_W: f32 = 1007.1234;
const PLACEHOLDER_H: f32 = 1014.2468;

fn a4_placeholders() -> Vec<u8> {
    let (width, height) = (PLACEHOLDER_W, PLACEHOLDER_H);
    assert_eq!(
        (format!("{width}").len(), format!("{height}").len()),
        (9, 9),
        "same-width splice"
    );

    let mut doc = Document::with_version("1.5");
    let pages_id = doc.new_object_id();
    let body = b"BT /F1 12 Tf 72 720 Td (hello) Tj ET\n".repeat(200);
    let kids: Vec<Object> = (0..2)
        .map(|_| {
            let content = doc.add_object(Stream::new(dict(vec![]), body.clone()));
            doc.add_object(dict(vec![("Type", Object::from("Page")), ("Parent", Object::from(pages_id)), ("Contents", Object::from(content))]))
            .into()
        })
        .collect();
    doc.objects.insert(
        pages_id,
        Object::Dictionary(dict(vec![("Type", Object::from("Pages")), ("Kids", Object::from(kids)), ("Count", Object::from(2)), ("MediaBox", Object::from(vec![
                Object::Integer(0),
                Object::Integer(0),
                Object::Real(width),
                Object::Real(height),
            ]))])),
    );
    let catalog = doc.add_object(dict(vec![("Type", Object::from("Catalog")), ("Pages", Object::from(pages_id))]));
    doc.trailer.set("Root", catalog);

    let mut bytes: Vec<u8> = Vec::new();
    doc.save_to(&mut bytes).unwrap();
    bytes
}

fn splice(data: &[u8], from: &[u8], to: &[u8]) -> Vec<u8> {
    assert_eq!(from.len(), to.len(), "length-preserving splice");
    let at = find_sub(data, from, 0).expect("placeholder is in the file");
    let mut out = data.to_vec();
    out[at..at + to.len()].copy_from_slice(to);
    out
}

#[test]
fn the_fixture_really_does_carry_undrifted_literals() {
    assert_eq!(
        captured(&a4_fixture()),
        vec![
            (as_f32("595.91998"), "595.91998".to_string()),
            (as_f32("841.91998"), "841.91998".to_string()),
        ]
    );
}

#[test]
fn restores_a_page_box_packed_into_an_object_stream() {
    let input = a4_fixture();
    let out = optimize(&input);
    assert!(find_sub(&out, b"/Type/ObjStm", 0).is_some(), "packed path");
    assert_eq!(captured(&out), captured(&input));
}

#[test]
fn restores_a_page_box_in_a_plain_object_body() {
    let input = a4_fixture();
    let out = optimize_with_options(
        &input,
        OptimizeOptions::default().with_pack_object_streams(false),
    );
    assert!(find_sub(&out, b"595.91998", 0).is_some(), "plain literal");
    assert_eq!(captured(&out), captured(&input));
}

#[test]
fn restores_a_page_box_under_a_classic_xref_table() {
    let input = a4_fixture_classic_xref();
    let out = optimize_with_options(
        &input,
        OptimizeOptions::default().with_pack_object_streams(false),
    );
    assert!(
        find_sub(&out, b"\ntrailer", 0).is_some(),
        "classic xref table"
    );
    assert_eq!(captured(&out), captured(&input));
}

#[test]
fn restoring_keeps_the_pipeline_idempotent() {
    let once = optimize(&a4_fixture());
    let twice = optimize(&once);
    assert_eq!(once, twice);
}

#[test]
fn a_document_with_nothing_to_restore_is_byte_identical() {
    let undrifted = a4_placeholders();
    let literals = capture(&undrifted);
    assert!(literals.is_empty());

    let out = optimize(&undrifted);
    assert_eq!(restore(out.clone(), &literals, &reading, &load), out);
}

#[test]
fn value_that_also_occurs_as_an_integer_is_not_captured() {
    assert!(capture(b"<</A 612.00001/Width 612>>").is_empty());
    assert!(!capture(b"<</A 612.00001/Width 613>>").is_empty());
}

#[test]
fn scanner_finds_numbers_outside_strings() {
    let text = b"[0 1.5 (2.5) -3.25]";
    assert_eq!(scan_reals_positions(text, true), vec![(1, 2), (3, 6), (13, 18)]);
    assert_eq!(
        scan_reals(text, true),
        vec![b"0".to_vec(), b"1.5".to_vec(), b"-3.25".to_vec()]
    );
}

#[test]
fn replacement_only_lengthens_the_shortest_spelling() {
    let literals = capture(b"<</A 595.91998>>");
    assert!(!literals.is_empty());
    assert_eq!(
        literals.replacement(b"595.92", &reading).map(|t| t.to_vec()),
        Some(b"595.91998".to_vec())
    );
    assert!(literals.replacement(b"595.91998", &reading).is_none());
    assert!(literals.replacement(b"595.920", &reading).is_none());
    assert!(literals.replacement(b"x", &reading).is_none());
}
