//! Optimizing a file: reading it, merging what occurs twice, planning what
//! becomes smaller, carrying that out, and writing it.

use crate::bytes::to_vec;
use crate::dedup::{
    dedup_decoded_streams, dedup_streams, flate_payloads, has_duplicates, merged, Sameness,
};
use crate::finish::{
    compress, compressed, dedup_to_fixpoint, fully_merged, redeflate_document_outcome,
    redeflate_flate_streams, save_document, save_outcome, strip_stale_xref_trailer_keys,
    tidy_trailer,
};
use crate::flate::opt_view;
use crate::gray::{collapse_gray, collapsed, gray_work, has_gray_work};
use crate::jpx::{
    convert_images, converted, jpx_plans_outcome, jpx_view, jpx_views, plan_jpx_conversions,
    JpxConversion, JpxValue,
};
use crate::load::{load_file, loaded, loads, same_read};
use crate::lookup::{
    dict_at, find_target, get_dict, get_object, lookup, lookup_index, page_content_ids,
    page_contents,
};
use crate::minify::{minify_content_streams, minify_outcome};
use crate::names::{CONTENTS, LANG, MARK_INFO, ROOT, STRUCT_TREE_ROOT};
use crate::object::{
    dict_get, dict_has, dict_remove, object_view, Dict, DocumentValue, ObjectId, Pdf, PdfObject,
    Value,
};
use crate::options::{at_most_zero, default_options, is_at_most_zero, OptimizeOptions};
use crate::pdf::{prune, pruned, renumber, renumbered};
use crate::placements::{collect_placements, pages_walked, painted, Placements};
use crate::raster::{ready, Codec, Raster};
use crate::reals::capture::{
    capture, captured, file_tokens, meaning, reads_text, Reading, ReadingValue, RealLiterals,
};
use crate::replace::{
    apply_replacements, plan_replacements, plans_outcome, replaced_upto, replacement_views,
    Geometry, Replacement, ReplacementValue,
};
use crate::tree::{can_walk, known_pages, list_pages, tree_fits};
use vstd::prelude::*;

verus! {

// --- what was read ---------------------------------------------------------------------------

/// The document that a file holds. Of an encrypted one only that it could be
/// read is known.
pub open spec fn source(
    input: Seq<u8>,
    l: spec_fn(Seq<u8>) -> Option<DocumentValue>,
    d: DocumentValue,
) -> bool {
    same_read(l(input), Some(d))
}

/// Every content stream that the page names was read.
pub open spec fn page_whole(objects: Seq<(ObjectId, Value)>, page: ObjectId) -> bool {
    let ids = page_content_ids(objects, page);
    dict_at(objects, page) is Some && dict_has(dict_at(objects, page)->0, CONTENTS@) ==> {
        &&& ids.len() > 0
        &&& forall|i: int|
            0 <= i < ids.len() ==> lookup(objects, #[trigger] ids[i]) is Some && lookup(
                objects,
                ids[i],
            )->0 is Stream
    }
}

/// The page tree can be walked, and every content stream that a page names
/// was read.
pub open spec fn all_whole(doc: DocumentValue) -> bool {
    &&& tree_fits(doc)
    &&& forall|i: int|
        0 <= i < known_pages(doc).len() ==> page_whole(
            doc.objects,
            #[trigger] known_pages(doc)[i],
        )
}

/// Whether every content stream that the page names was read.
fn check_page(doc: &Pdf, page: ObjectId) -> (r: bool)
    requires
        doc.wf(),
    ensures
        r == page_whole(doc@.objects, page),
{
    let key: [u8; 8] = CONTENTS;
    match get_dict(doc, page) {
        None => {
            return true;
        },
        Some(d) => if !d.has(key.as_slice()) {
            return true;
        },
    }
    let ids = page_contents(doc, page);
    if ids.len() == 0 {
        return false;
    }
    let mut i: usize = 0;
    while i < ids.len()
        invariant
            i <= ids@.len(),
            doc.wf(),
            forall|k: int|
                0 <= k < i ==> lookup(doc@.objects, #[trigger] ids@[k]) is Some && lookup(
                    doc@.objects,
                    ids@[k],
                )->0 is Stream,
            ids@ == page_content_ids(doc@.objects, page),
            dict_at(doc@.objects, page) is Some,
            dict_has(dict_at(doc@.objects, page)->0, CONTENTS@),
        decreases ids@.len() - i,
    {
        match get_object(doc, ids[i]) {
            Some(PdfObject::Stream(_)) => {},
            _ => {
                proof {
                    assert(!(lookup(doc@.objects, ids@[i as int]) is Some && lookup(
                        doc@.objects,
                        ids@[i as int],
                    )->0 is Stream));
                }
                return false;
            },
        }
        i += 1;
    }
    true
}

/// Whether the page tree can be walked and every content stream that a page
/// names was read. Where not,
/// reading the file lost content that a more forgiving viewer still shows,
/// and writing it would make the loss final.
pub fn contents_loaded(doc: &Pdf) -> (r: bool)
    requires
        doc.wf(),
    ensures
        r == all_whole(doc@),
{
    if !can_walk(doc) {
        return false;
    }
    let list = list_pages(doc);
    let mut i: usize = 0;
    while i < list.len()
        invariant
            i <= list@.len(),
            doc.wf(),
            list@ == known_pages(doc@),
            tree_fits(doc@),
            forall|k: int| 0 <= k < i ==> page_whole(doc@.objects, #[trigger] list@[k]),
        decreases list@.len() - i,
    {
        if !check_page(doc, list[i]) {
            proof {
                assert(!page_whole(doc@.objects, known_pages(doc@)[i as int]));
            }
            return false;
        }
        i += 1;
    }
    true
}

// --- accessibility -----------------------------------------------------------------------------

/// A catalog without what screen readers navigate by.
pub open spec fn untagged(d: Seq<(Seq<u8>, Value)>) -> Seq<(Seq<u8>, Value)> {
    dict_remove(dict_remove(dict_remove(d, STRUCT_TREE_ROOT@), MARK_INFO@), LANG@)
}

/// The place of the catalog.
pub open spec fn catalog_index(doc: DocumentValue) -> Option<int> {
    match dict_get(doc.trailer, ROOT@) {
        Some(Value::Reference(id)) => lookup_index(doc.objects, id),
        _ => None,
    }
}

/// The document without its structure tree.
pub open spec fn without_structure(doc: DocumentValue) -> DocumentValue {
    match catalog_index(doc) {
        Some(i) => match doc.objects[i].1 {
            Value::Dictionary(d) => DocumentValue {
                objects: doc.objects.update(
                    i,
                    (doc.objects[i].0, Value::Dictionary(untagged(d))),
                ),
                ..doc
            },
            _ => doc,
        },
        None => doc,
    }
}

/// Takes the structure tree, the marking and the language out of the catalog.
/// The document looks the same; it is no longer tagged.
pub fn strip_structure(doc: &mut Pdf)
    requires
        old(doc).wf(),
    ensures
        final(doc)@ == without_structure(old(doc)@),
        final(doc).wf(),
        final(doc).objects@.len() == old(doc).objects@.len(),
{
    let (root, tree, mark, lang): ([u8; 4], [u8; 14], [u8; 8], [u8; 4]) = (
        ROOT,
        STRUCT_TREE_ROOT,
        MARK_INFO,
        LANG,
    );
    let ghost start = doc@;
    let i: usize = match doc.trailer.get(root.as_slice()) {
        Some(PdfObject::Reference(id)) => match find_target(doc, *id) {
            Some(i) => i,
            None => {
                return;
            },
        },
        _ => {
            return;
        },
    };
    proof {
        assert(start.objects[i as int].1 == object_view(doc.objects@[i as int].object));
    }
    let mut d: Dict = match &doc.objects[i].object {
        PdfObject::Dictionary(d) => crate::object::copy_dict(d),
        _ => {
            return;
        },
    };
    d.remove(tree.as_slice());
    d.remove(mark.as_slice());
    d.remove(lang.as_slice());
    doc.put(i, PdfObject::Dictionary(d));
}

// --- planning --------------------------------------------------------------------------------------

/// The document once repeated streams are merged, by what is stored and by
/// what it decodes to.
pub open spec fn deduped(d: DocumentValue) -> DocumentValue {
    let a = merged(Sameness::Streams, d);
    merged(Sameness::Payloads(flate_payloads(a.objects)), a)
}

/// Some stream was repeated.
pub open spec fn had_repeats(d: DocumentValue) -> bool {
    let a = merged(Sameness::Streams, d);
    has_duplicates(Sameness::Streams, d.objects) || has_duplicates(
        Sameness::Payloads(flate_payloads(a.objects)),
        a.objects,
    )
}

/// What is planned for a document.
pub struct Plans {
    pub replacements: Vec<Replacement>,
    pub conversions: Vec<Option<JpxConversion>>,
}

/// The content of [`Plans`].
pub struct PlansValue {
    pub replacements: Seq<ReplacementValue>,
    pub conversions: Seq<Option<JpxValue>>,
}

impl View for Plans {
    type V = PlansValue;

    open spec fn view(&self) -> PlansValue {
        PlansValue {
            replacements: replacement_views(self.replacements@),
            conversions: jpx_views(self.conversions@),
        }
    }
}

/// What may be planned for a document: replacements of painted images, unless
/// the target resolution is zero or less; conversions of JPEG 2000 images,
/// with consent.
pub open spec fn plans_ok<
    M: Fn(&Placements, ObjectId, u32, u32) -> Option<Geometry>,
    D: Fn(&[u8], u32, u32) -> Option<Raster>,
    E: Fn(&Raster, u8) -> Option<Vec<u8>>,
    J: Fn(&[u8]) -> Option<Vec<u8>>,
>(measure: M, codec: Codec<D, E, J>, doc: DocumentValue, o: OptimizeOptions, p: PlansValue) -> bool {
    let placements = pages_walked(doc.objects, known_pages(doc), known_pages(doc).len() as int);
    &&& if at_most_zero(o.target_dpi) {
        p.replacements.len() == 0
    } else {
        plans_outcome(
            measure,
            codec,
            placements,
            doc.objects,
            painted(placements.paints, placements.paints.len() as int),
            o.images(),
            p.replacements,
        )
    }
    &&& p.conversions.len() == doc.objects.len()
    &&& if o.allow_lossy_reencode {
        jpx_plans_outcome(codec, doc.objects, o.jpeg_quality, p.conversions)
    } else {
        forall|i: int| 0 <= i < p.conversions.len() ==> (#[trigger] p.conversions[i]) is None
    }
}

/// Some conversion is planned.
pub open spec fn any_conversion(list: Seq<Option<JpxValue>>) -> bool {
    exists|i: int| 0 <= i < list.len() && (#[trigger] list[i]) is Some
}

/// There is something to do for the document itself. What only writing the
/// file anew would gain is not counted: a file that everything declined comes
/// back as it was.
pub open spec fn has_work(doc: DocumentValue, o: OptimizeOptions, p: PlansValue) -> bool {
    ||| p.replacements.len() > 0
    ||| any_conversion(p.conversions)
    ||| o.strip_accessibility
    ||| o.collapse_gray_images && has_gray_work(doc.objects)
}

/// The document once everything planned is carried out.
pub open spec fn carried_out(doc: DocumentValue, o: OptimizeOptions, p: PlansValue) -> DocumentValue {
    let a = replaced_upto(doc.objects, p.replacements, p.replacements.len() as int);
    let b = converted(a, p.conversions);
    let c = if o.collapse_gray_images {
        collapsed(b)
    } else {
        b
    };
    let d = DocumentValue { objects: c, ..doc };
    if o.strip_accessibility {
        without_structure(d)
    } else {
        d
    }
}

/// A list of `n` times nothing.
fn no_conversions(n: usize) -> (r: Vec<Option<JpxConversion>>)
    ensures
        r@.len() == n,
        forall|i: int| 0 <= i < n ==> (#[trigger] r@[i]) is None,
{
    let mut r: Vec<Option<JpxConversion>> = Vec::new();
    while r.len() < n
        invariant
            r@.len() <= n,
            forall|i: int| 0 <= i < r@.len() ==> (#[trigger] r@[i]) is None,
        decreases n - r@.len(),
    {
        r.push(None);
    }
    r
}

/// Plans what becomes smaller.
pub fn plan_document<
    M: Fn(&Placements, ObjectId, u32, u32) -> Option<Geometry>,
    D: Fn(&[u8], u32, u32) -> Option<Raster>,
    E: Fn(&Raster, u8) -> Option<Vec<u8>>,
    J: Fn(&[u8]) -> Option<Vec<u8>>,
>(doc: &Pdf, o: OptimizeOptions, measure: &M, codec: &Codec<D, E, J>) -> (r: Plans)
    requires
        doc.wf(),
        forall|p: &Placements, i: ObjectId, w: u32, h: u32| #[trigger]
            measure.requires((p, i, w, h)),
        ready(*codec),
    ensures
        plans_ok(*measure, *codec, doc@, o, r@),
        r.conversions@.len() == doc.objects@.len(),
{
    let replacements = if is_at_most_zero(o.target_dpi) {
        Vec::new()
    } else {
        let placements = collect_placements(doc);
        plan_replacements(doc, &placements, o.image_options(), measure, codec)
    };
    let conversions = if o.allow_lossy_reencode {
        plan_jpx_conversions(doc, o.jpeg_quality, codec)
    } else {
        no_conversions(doc.objects.len())
    };
    let r = Plans { replacements, conversions };
    proof {
        assert(r@.replacements.len() == replacements@.len());
        assert forall|i: int|
            0 <= i < r@.conversions.len() && !o.allow_lossy_reencode implies (
        #[trigger] r@.conversions[i]) is None by {
            assert(r@.conversions[i] == jpx_view(conversions@[i]));
        }
    }
    r
}

/// Whether there is something to do for the document itself.
pub fn check_work(doc: &Pdf, o: OptimizeOptions, plans: &Plans) -> (r: bool)
    requires
        doc.wf(),
    ensures
        r == has_work(doc@, o, plans@),
{
    proof {
        assert(plans@.replacements.len() == plans.replacements@.len());
    }
    if plans.replacements.len() > 0 || o.strip_accessibility {
        return true;
    }
    let mut i: usize = 0;
    while i < plans.conversions.len()
        invariant
            i <= plans.conversions@.len(),
            forall|k: int| 0 <= k < i ==> (#[trigger] plans@.conversions[k]) is None,
        decreases plans.conversions@.len() - i,
    {
        proof {
            assert(plans@.conversions[i as int] == jpx_view(plans.conversions@[i as int]));
        }
        if plans.conversions[i].is_some() {
            return true;
        }
        i += 1;
    }
    o.collapse_gray_images && gray_work(doc)
}

/// Carries out everything planned.
pub fn carry_out(doc: Pdf, o: OptimizeOptions, plans: Plans) -> (r: Pdf)
    requires
        doc.wf(),
        plans.conversions@.len() == doc.objects@.len(),
    ensures
        r@ == carried_out(doc@, o, plans@),
        r.wf(),
{
    let ghost p = plans@;
    let mut cur = doc;
    proof {
        assert(p.replacements.len() == plans.replacements@.len());
    }
    apply_replacements(&mut cur, plans.replacements);
    let mut next = convert_images(cur, plans.conversions);
    if o.collapse_gray_images {
        next = collapse_gray(next);
    }
    if o.strip_accessibility {
        strip_structure(&mut next);
    }
    next
}

// --- writing -----------------------------------------------------------------------------------------

/// The number of objects past which a document is not written: the writer
/// counts objects and object streams in 32 bits.
pub const MAX_OBJECTS: usize = 0x7FFF_FFFE;

/// The document as it is handed to the writer: numbered from 1 on, without
/// what describes the cross-reference section that was read.
pub open spec fn numbered(doc: DocumentValue) -> DocumentValue {
    let n = renumbered(doc);
    DocumentValue { trailer: tidy_trailer(n.trailer), ..n }
}

/// What writing a document may give.
pub open spec fn write_outcome(
    doc: DocumentValue,
    o: OptimizeOptions,
    literals: Map<u32, Seq<u8>>,
    m: spec_fn(Seq<u8>) -> Option<ReadingValue>,
    l: spec_fn(Seq<u8>) -> Option<DocumentValue>,
    r: Option<Seq<u8>>,
) -> bool {
    exists|e: DocumentValue| #[trigger]
        redeflate_document_outcome(
            compressed(pruned(fully_merged(doc))),
            o.deflate_backend,
            e,
        ) && if e.objects.len() > MAX_OBJECTS || !tree_fits(e) {
            r is None
        } else {
            save_outcome(
                numbered(e),
                o.pack_object_streams,
                o.deflate_backend,
                literals,
                m,
                l,
                r,
            )
        }
}

/// Merges duplicates, drops what nothing leads to, compresses, and writes the
/// document.
pub fn write_document<R: Fn(&[u8]) -> Option<Reading>, L: Fn(&[u8]) -> Option<Pdf>>(
    doc: Pdf,
    o: OptimizeOptions,
    literals: &RealLiterals,
    read: &R,
    load: &L,
) -> (r: Option<Vec<u8>>)
    requires
        doc.wf(),
        reads_text(*read),
        loads(*load),
    ensures
        write_outcome(
            doc@,
            o,
            literals@,
            |t: Seq<u8>| meaning(*read, t),
            |t: Seq<u8>| loaded(*load, t),
            opt_view(r),
        ),
{
    let merged_doc = dedup_to_fixpoint(doc);
    let small = compress(prune(merged_doc));
    let out = redeflate_flate_streams(small, o.deflate_backend);
    let ghost e = out@;
    proof {
        assert(redeflate_document_outcome(
            compressed(pruned(fully_merged(doc@))),
            o.deflate_backend,
            e,
        ));
        assert(e.objects.len() == out.objects@.len());
    }
    if out.objects.len() > MAX_OBJECTS || !can_walk(&out) {
        return None;
    }
    let mut last = renumber(out);
    proof {
        assert(last@.objects.len() == last.objects@.len());
    }
    strip_stale_xref_trailer_keys(&mut last);
    save_document(&last, o.pack_object_streams, o.deflate_backend, literals, read, load)
}

// --- the whole ------------------------------------------------------------------------------------------

/// What a document may become once its streams are merged and its content is
/// written anew. `changed` tells whether that changed anything.
pub open spec fn planned_outcome<
    M: Fn(&Placements, ObjectId, u32, u32) -> Option<Geometry>,
    D: Fn(&[u8], u32, u32) -> Option<Raster>,
    E: Fn(&Raster, u8) -> Option<Vec<u8>>,
    J: Fn(&[u8]) -> Option<Vec<u8>>,
>(
    measure: M,
    codec: Codec<D, E, J>,
    doc: DocumentValue,
    changed: bool,
    o: OptimizeOptions,
    literals: Map<u32, Seq<u8>>,
    m: spec_fn(Seq<u8>) -> Option<ReadingValue>,
    l: spec_fn(Seq<u8>) -> Option<DocumentValue>,
    r: Option<Seq<u8>>,
) -> bool {
    exists|p: PlansValue| #[trigger]
        plans_ok(measure, codec, doc, o, p) && if !changed && !has_work(doc, o, p) {
            r is None
        } else {
            write_outcome(carried_out(doc, o, p), o, literals, m, l, r)
        }
}

/// What a document that was read may become.
pub open spec fn document_outcome<
    M: Fn(&Placements, ObjectId, u32, u32) -> Option<Geometry>,
    D: Fn(&[u8], u32, u32) -> Option<Raster>,
    E: Fn(&Raster, u8) -> Option<Vec<u8>>,
    J: Fn(&[u8]) -> Option<Vec<u8>>,
>(
    measure: M,
    codec: Codec<D, E, J>,
    doc: DocumentValue,
    o: OptimizeOptions,
    literals: Map<u32, Seq<u8>>,
    m: spec_fn(Seq<u8>) -> Option<ReadingValue>,
    l: spec_fn(Seq<u8>) -> Option<DocumentValue>,
    r: Option<Seq<u8>>,
) -> bool {
    if !all_whole(doc) {
        r is None
    } else {
        exists|c: (DocumentValue, bool)| #[trigger]
            minify_outcome(deduped(doc), o.deflate_backend, c) && planned_outcome(
                measure,
                codec,
                c.0,
                had_repeats(doc) || c.1,
                o,
                literals,
                m,
                l,
                r,
            )
    }
}

/// What rewriting a file may give: nothing, where it cannot be read, where
/// reading it lost content, where there is nothing to do, or where it cannot
/// be written; else the document with everything planned carried out.
pub open spec fn rewrite_outcome<
    M: Fn(&Placements, ObjectId, u32, u32) -> Option<Geometry>,
    D: Fn(&[u8], u32, u32) -> Option<Raster>,
    E: Fn(&Raster, u8) -> Option<Vec<u8>>,
    J: Fn(&[u8]) -> Option<Vec<u8>>,
    R: Fn(&[u8]) -> Option<Reading>,
    L: Fn(&[u8]) -> Option<Pdf>,
>(
    measure: M,
    codec: Codec<D, E, J>,
    read: R,
    load: L,
    input: Seq<u8>,
    o: OptimizeOptions,
    r: Option<Seq<u8>>,
) -> bool {
    let m = |t: Seq<u8>| meaning(read, t);
    let l = |t: Seq<u8>| loaded(load, t);
    if loaded(load, input) is None {
        r is None
    } else {
        exists|d: DocumentValue| #[trigger]
            source(input, l, d) && document_outcome(
                measure,
                codec,
                d,
                o,
                captured(m, file_tokens(input)),
                m,
                l,
                r,
            )
    }
}

/// Rewrites a file. `None` where there is nothing to do or the file cannot be
/// rewritten.
///
/// What rests on floating point, or on a decoder or parser that may fail
/// hard, comes from the caller: `measure` tells how large an image has to be
/// for its placements, `codec` decodes and encodes images, `read` tells what
/// a real literal means, and `load` reads a file.
pub fn try_optimize<
    M: Fn(&Placements, ObjectId, u32, u32) -> Option<Geometry>,
    D: Fn(&[u8], u32, u32) -> Option<Raster>,
    E: Fn(&Raster, u8) -> Option<Vec<u8>>,
    J: Fn(&[u8]) -> Option<Vec<u8>>,
    R: Fn(&[u8]) -> Option<Reading>,
    L: Fn(&[u8]) -> Option<Pdf>,
>(
    input: &[u8],
    options: OptimizeOptions,
    measure: &M,
    codec: &Codec<D, E, J>,
    read: &R,
    load: &L,
) -> (r: Option<Vec<u8>>)
    requires
        forall|p: &Placements, i: ObjectId, w: u32, h: u32| #[trigger]
            measure.requires((p, i, w, h)),
        ready(*codec),
        reads_text(*read),
        loads(*load),
    ensures
        rewrite_outcome(*measure, *codec, *read, *load, input@, options, opt_view(r)),
{
    let doc = load_file(load, input)?;
    let ghost d = doc@;
    proof {
        assert(source(input@, |t: Seq<u8>| loaded(*load, t), d));
    }
    if !contents_loaded(&doc) {
        return None;
    }
    let (once, repeated) = dedup_streams(doc);
    let (twice, repeated_payload) = dedup_decoded_streams(once);
    let (small, minified) = minify_content_streams(twice, options.deflate_backend);
    let ghost c = (small@, minified);
    proof {
        assert(minify_outcome(deduped(d), options.deflate_backend, c));
    }
    let plans = plan_document(&small, options, measure, codec);
    let ghost p = plans@;
    proof {
        assert(plans_ok(*measure, *codec, c.0, options, p));
    }
    if !repeated && !repeated_payload && !minified && !check_work(&small, options, &plans) {
        return None;
    }
    let literals = capture(input, read);
    let out = carry_out(small, options, plans);
    let r = write_document(out, options, &literals, read, load);
    proof {
        assert(planned_outcome(
            *measure,
            *codec,
            c.0,
            had_repeats(d) || c.1,
            options,
            literals@,
            |t: Seq<u8>| meaning(*read, t),
            |t: Seq<u8>| loaded(*load, t),
            opt_view(r),
        ));
    }
    r
}

/// What optimizing a file gives, given what rewriting it gave: that, where it
/// is strictly smaller, and else the file itself.
pub open spec fn smaller(input: Seq<u8>, rewritten: Option<Seq<u8>>) -> Seq<u8> {
    match rewritten {
        Some(out) => if out.len() < input.len() {
            out
        } else {
            input
        },
        None => input,
    }
}

/// The rewritten file where it is strictly smaller, and else the file itself.
pub fn keep_smaller(input: &[u8], rewritten: Option<Vec<u8>>) -> (r: Vec<u8>)
    ensures
        r@ == smaller(input@, opt_view(rewritten)),
        r@ == input@ || r@.len() < input@.len(),
{
    match rewritten {
        Some(out) => if out.len() < input.len() {
            out
        } else {
            to_vec(input)
        },
        None => to_vec(input),
    }
}

/// Optimizes a file. The result is the file itself, byte for byte, or a
/// strictly smaller rewrite of it. It comes for every file: what declines, here
/// or in a function of the caller, leaves its part, or the file, as it is.
pub fn optimize_with_options<
    M: Fn(&Placements, ObjectId, u32, u32) -> Option<Geometry>,
    D: Fn(&[u8], u32, u32) -> Option<Raster>,
    E: Fn(&Raster, u8) -> Option<Vec<u8>>,
    J: Fn(&[u8]) -> Option<Vec<u8>>,
    R: Fn(&[u8]) -> Option<Reading>,
    L: Fn(&[u8]) -> Option<Pdf>,
>(
    input: &[u8],
    options: OptimizeOptions,
    measure: &M,
    codec: &Codec<D, E, J>,
    read: &R,
    load: &L,
) -> (r: Vec<u8>)
    requires
        forall|p: &Placements, i: ObjectId, w: u32, h: u32| #[trigger]
            measure.requires((p, i, w, h)),
        ready(*codec),
        reads_text(*read),
        loads(*load),
    ensures
        exists|out: Option<Seq<u8>>| #[trigger]
            rewrite_outcome(*measure, *codec, *read, *load, input@, options, out) && r@ == smaller(
                input@,
                out,
            ),
        r@ == input@ || r@.len() < input@.len(),
        loaded(*load, input@) is None ==> r@ == input@,
{
    let out = try_optimize(input, options, measure, codec, read, load);
    let ghost seen = opt_view(out);
    proof {
        assert(rewrite_outcome(*measure, *codec, *read, *load, input@, options, seen));
    }
    keep_smaller(input, out)
}

/// Optimizes a file with the default options.
pub fn optimize<
    M: Fn(&Placements, ObjectId, u32, u32) -> Option<Geometry>,
    D: Fn(&[u8], u32, u32) -> Option<Raster>,
    E: Fn(&Raster, u8) -> Option<Vec<u8>>,
    J: Fn(&[u8]) -> Option<Vec<u8>>,
    R: Fn(&[u8]) -> Option<Reading>,
    L: Fn(&[u8]) -> Option<Pdf>,
>(input: &[u8], measure: &M, codec: &Codec<D, E, J>, read: &R, load: &L) -> (r: Vec<u8>)
    requires
        forall|p: &Placements, i: ObjectId, w: u32, h: u32| #[trigger]
            measure.requires((p, i, w, h)),
        ready(*codec),
        reads_text(*read),
        loads(*load),
    ensures
        exists|out: Option<Seq<u8>>| #[trigger]
            rewrite_outcome(*measure, *codec, *read, *load, input@, default_options(), out) && r@
                == smaller(input@, out),
        r@ == input@ || r@.len() < input@.len(),
        loaded(*load, input@) is None ==> r@ == input@,
{
    let options = OptimizeOptions::default();
    optimize_with_options(input, options, measure, codec, read, load)
}

} // verus!
