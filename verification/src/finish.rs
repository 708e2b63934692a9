//! The passes that end a rewrite: merging to a fixed point, compressing,
//! tidying the trailer, and saving.

use crate::dedup::{dedup_objects, dedup_streams, has_duplicates, merged, Sameness};
use crate::flate::{
    deflate_level9, opt_view, redeflate_outcome, replan_deflate, zlib_level9, DeflateBackend,
};
use crate::load::{loaded, loads};
use crate::lookup::{classify_filter, filter_class, is_name, FilterClass};
use crate::minify::{locked, streams_locked, take_stream};
use crate::names::{DECODE_PARMS, FILTER, FLATE_DECODE, LENGTH, OBJ_STM, PREV, TYPE, XREF, XREF_STM};
use crate::object::{
    dict_get, dict_has, dict_remove, dict_set, object_view, DocumentValue, ObjectId, Pdf, PdfObject,
    StreamValue, Value,
};
use crate::patch::{
    compress_xref_stream, objstm_tags, or_same, rezopfli_chain, rezopfli_objstm, xref_outcome,
};
use crate::pdf::{save_packed, save_plain, saved_packed, saved_plain};
use crate::reals::capture::{meaning, reads_text, Reading, ReadingValue, RealLiterals};
use crate::reals::restore::{restore, restored};
use crate::store::{flate_name, set_content, with_content};
use vstd::prelude::*;

verus! {

// --- merging to a fixed point ------------------------------------------------------------

/// One generation: duplicate objects, then duplicate streams.
pub open spec fn one_generation(doc: DocumentValue) -> DocumentValue {
    merged(Sameness::Streams, merged(Sameness::Objects, doc))
}

/// There is nothing to merge.
pub open spec fn is_merged(doc: DocumentValue) -> bool {
    !has_duplicates(Sameness::Objects, doc.objects) && !has_duplicates(
        Sameness::Streams,
        doc.objects,
    )
}

/// The document merged until there is nothing left to merge. Merging leaves
/// redirects references, which can make their parents equal, so one
/// generation is not enough.
pub open spec fn fully_merged(doc: DocumentValue) -> DocumentValue
    decreases doc.objects.len(),
{
    if is_merged(doc) {
        doc
    } else {
        let next = one_generation(doc);
        if next.objects.len() < doc.objects.len() {
            fully_merged(next)
        } else {
            next
        }
    }
}

/// Merges duplicates until there are none.
pub fn dedup_to_fixpoint(doc: Pdf) -> (r: Pdf)
    requires
        doc.wf(),
    ensures
        r@ == fully_merged(doc@),
        is_merged(r@),
        r.wf(),
        r.objects@.len() <= doc.objects@.len(),
    decreases doc.objects@.len(),
{
    let (a, merged_dicts) = dedup_objects(doc);
    let (b, merged_streams) = dedup_streams(a);
    if !merged_dicts && !merged_streams {
        return b;
    }
    dedup_to_fixpoint(b)
}

// --- compressing --------------------------------------------------------------------------

/// A stream without a filter, compressed where that saves more than the
/// dictionary entry costs.
pub open spec fn compressed_stream(s: StreamValue) -> StreamValue {
    if !s.compressible || dict_has(s.dict, FILTER@) {
        s
    } else {
        match zlib_level9(s.content) {
            Some(c) => if c.len() + 19 < s.content.len() {
                with_content(
                    StreamValue {
                        dict: dict_set(s.dict, FILTER@, Value::Name(FLATE_DECODE@)),
                        ..s
                    },
                    c,
                )
            } else {
                s
            },
            None => s,
        }
    }
}

/// An object, compressed where it is a stream.
pub open spec fn compressed_object(v: Value) -> Value {
    match v {
        Value::Stream(s) => Value::Stream(compressed_stream(s)),
        _ => v,
    }
}

/// The document with every stream that had no filter compressed.
pub open spec fn compressed(doc: DocumentValue) -> DocumentValue {
    DocumentValue {
        objects: doc.objects.map_values(
            |o: (ObjectId, Value)| (o.0, compressed_object(o.1)),
        ),
        ..doc
    }
}

/// The compressed payload of a stream, where there is something to gain.
fn plan_compression(o: &PdfObject) -> (r: Option<Vec<u8>>)
    ensures
        match r {
            Some(c) => match o@ {
                Value::Stream(s) => compressed_object(o@) == Value::Stream(
                    with_content(
                        StreamValue {
                            dict: dict_set(s.dict, FILTER@, Value::Name(FLATE_DECODE@)),
                            ..s
                        },
                        c@,
                    ),
                ),
                _ => false,
            },
            None => compressed_object(o@) == o@,
        },
{
    let key: [u8; 6] = FILTER;
    match o {
        PdfObject::Stream(s) => {
            if !s.compressible || s.dict.has(key.as_slice()) {
                return None;
            }
            let c = deflate_level9(s.content.as_slice())?;
            let len: usize = s.content.len();
            if len > 19 && c.len() < len - 19 {
                Some(c)
            } else {
                None
            }
        },
        _ => None,
    }
}

/// Compresses every stream that has no filter, where that saves more than
/// the dictionary entry costs.
pub fn compress(doc: Pdf) -> (r: Pdf)
    requires
        doc.wf(),
    ensures
        r@ == compressed(doc@),
        r.wf(),
        r.objects@.len() == doc.objects@.len(),
{
    let key: [u8; 6] = FILTER;
    let ghost start = doc@;
    let mut cur = doc;
    let mut i: usize = 0;
    while i < cur.objects.len()
        invariant
            i <= cur.objects@.len(),
            cur.wf(),
            key@ == FILTER@,
            cur.objects@.len() == start.objects.len(),
            cur@ == (DocumentValue { objects: cur@.objects, ..start }),
            forall|k: int|
                0 <= k < start.objects.len() ==> #[trigger] cur@.objects[k] == if k < i {
                    (start.objects[k].0, compressed_object(start.objects[k].1))
                } else {
                    start.objects[k]
                },
        decreases cur.objects@.len() - i,
    {
        let ghost before = cur@.objects;
        proof {
            assert(before[i as int] == start.objects[i as int]);
            assert(before[i as int].1 == object_view(cur.objects@[i as int].object));
        }
        match plan_compression(&cur.objects[i].object) {
            Some(c) => {
                match take_stream(&mut cur, i) {
                    Some(s) => {
                        let mut stream = s;
                        stream.dict.set(key.as_slice(), flate_name());
                        set_content(&mut stream, c);
                        cur.put(i, PdfObject::Stream(stream));
                    },
                    None => {},
                }
                proof {
                    assert forall|k: int| 0 <= k < start.objects.len() && k != i implies
                        #[trigger] cur@.objects[k] == before[k] by {}
                }
            },
            None => {},
        }
        i += 1;
    }
    proof {
        assert(cur@.objects =~= compressed(start).objects);
    }
    cur
}

/// Object `i` is a plain Flate stream that may be compressed again. Object
/// and cross-reference streams are the writer's business.
pub open spec fn redeflatable(objects: Seq<(ObjectId, Value)>, i: int) -> bool {
    match objects[i].1 {
        Value::Stream(s) => {
            &&& dict_get(s.dict, TYPE@) != Some(Value::Name(OBJ_STM@))
            &&& dict_get(s.dict, TYPE@) != Some(Value::Name(XREF@))
            &&& match dict_get(s.dict, FILTER@) {
                Some(f) => filter_class(objects, f) == FilterClass::FlateOnly,
                None => false,
            }
        },
        _ => false,
    }
}

/// Object `i` with its payload compressed again, given what came of that.
pub open spec fn redeflated_object(
    objects: Seq<(ObjectId, Value)>,
    i: int,
    out: Option<Seq<u8>>,
) -> (ObjectId, Value) {
    match (out, objects[i].1) {
        (Some(c), Value::Stream(s)) => if redeflatable(objects, i) {
            (objects[i].0, Value::Stream(with_content(s, c)))
        } else {
            objects[i]
        },
        _ => objects[i],
    }
}

/// What compressing each stream of a document again may give.
pub open spec fn redeflates_ok(
    objects: Seq<(ObjectId, Value)>,
    backend: DeflateBackend,
    outs: Seq<Option<Seq<u8>>>,
) -> bool {
    &&& outs.len() == objects.len()
    &&& forall|i: int|
        0 <= i < objects.len() ==> (#[trigger] redeflatable(objects, i) ==> redeflate_outcome(
            objects[i].1->Stream_0.content,
            backend,
            outs[i],
        ))
}

/// The document with its Flate streams compressed again, given what came of
/// each.
pub open spec fn redeflated_document(doc: DocumentValue, outs: Seq<Option<Seq<u8>>>) -> DocumentValue {
    DocumentValue {
        objects: Seq::new(
            doc.objects.len(),
            |i: int| redeflated_object(doc.objects, i, outs[i]),
        ),
        ..doc
    }
}

/// What compressing the Flate streams of a document again may give.
pub open spec fn redeflate_document_outcome(
    doc: DocumentValue,
    backend: DeflateBackend,
    r: DocumentValue,
) -> bool {
    if streams_locked(doc) {
        r == doc
    } else {
        exists|outs: Seq<Option<Seq<u8>>>| #[trigger]
            redeflates_ok(doc.objects, backend, outs) && r == redeflated_document(doc, outs)
    }
}

/// Compresses the payload of object `i` again, where it is a plain Flate
/// stream.
fn plan_redeflate(doc: &Pdf, i: usize, backend: DeflateBackend) -> (r: Option<Vec<u8>>)
    requires
        doc.wf(),
        i < doc.objects@.len(),
    ensures
        redeflatable(doc@.objects, i as int) ==> redeflate_outcome(
            doc@.objects[i as int].1->Stream_0.content,
            backend,
            opt_view(r),
        ),
        !redeflatable(doc@.objects, i as int) ==> r is None,
{
    let (type_key, objstm, xref, filter_key): ([u8; 4], [u8; 6], [u8; 4], [u8; 6]) = (
        TYPE,
        OBJ_STM,
        XREF,
        FILTER,
    );
    proof {
        assert(doc@.objects[i as int].1 == object_view(doc.objects@[i as int].object));
    }
    match &doc.objects[i].object {
        PdfObject::Stream(s) => {
            if is_name(s.dict.get(type_key.as_slice()), objstm.as_slice()) || is_name(
                s.dict.get(type_key.as_slice()),
                xref.as_slice(),
            ) {
                return None;
            }
            let filter = s.dict.get(filter_key.as_slice())?;
            if classify_filter(doc, filter) != FilterClass::FlateOnly {
                return None;
            }
            replan_deflate(s.content.as_slice(), backend)
        },
        _ => None,
    }
}

/// Compresses every stream whose only filter is Flate again, keeping the
/// result only where it is strictly smaller and inflates back. Filter and
/// parameters stay, so every reader decodes what it decoded before.
///
/// Declined for encrypted, PDF/A-declared and signed documents.
pub fn redeflate_flate_streams(doc: Pdf, backend: DeflateBackend) -> (r: Pdf)
    requires
        doc.wf(),
    ensures
        redeflate_document_outcome(doc@, backend, r@),
        r.wf(),
        r.objects@.len() == doc.objects@.len(),
{
    if locked(&doc) {
        return doc;
    }
    let ghost start = doc@;
    let mut plans: Vec<Option<Vec<u8>>> = Vec::new();
    let mut i: usize = 0;
    while i < doc.objects.len()
        invariant
            i <= doc.objects@.len(),
            doc.wf(),
            start == doc@,
            plans@.len() == i,
            forall|k: int|
                0 <= k < i ==> (#[trigger] redeflatable(start.objects, k) ==> redeflate_outcome(
                    start.objects[k].1->Stream_0.content,
                    backend,
                    opt_view(plans@[k]),
                )),
            forall|k: int|
                0 <= k < i && !(#[trigger] redeflatable(start.objects, k)) ==> plans@[k] is None,
        decreases doc.objects@.len() - i,
    {
        plans.push(plan_redeflate(&doc, i, backend));
        i += 1;
    }
    let ghost outs = crate::dedup::opt_views(plans@);
    let mut cur = doc;
    i = 0;
    while i < plans.len()
        invariant
            i <= plans@.len(),
            cur.wf(),
            plans@.len() == start.objects.len() == cur.objects@.len(),
            outs == crate::dedup::opt_views(plans@),
            forall|k: int|
                0 <= k < plans@.len() && !(#[trigger] redeflatable(start.objects, k)) ==> plans@[k]
                    is None,
            cur@ == (DocumentValue { objects: cur@.objects, ..start }),
            forall|k: int|
                0 <= k < start.objects.len() ==> #[trigger] cur@.objects[k] == if k < i {
                    redeflated_object(start.objects, k, outs[k])
                } else {
                    start.objects[k]
                },
        decreases plans@.len() - i,
    {
        let ghost before = cur@.objects;
        proof {
            assert(before[i as int] == start.objects[i as int]);
            assert(outs[i as int] == opt_view(plans@[i as int]));
            assert(!redeflatable(start.objects, i as int) ==> plans@[i as int] is None);
        }
        match &plans[i] {
            Some(c) => {
                match take_stream(&mut cur, i) {
                    Some(s) => {
                        let mut stream = s;
                        set_content(&mut stream, c.clone());
                        cur.put(i, PdfObject::Stream(stream));
                    },
                    None => {},
                }
                proof {
                    assert forall|k: int| 0 <= k < start.objects.len() && k != i implies
                        #[trigger] cur@.objects[k] == before[k] by {}
                }
            },
            None => {},
        }
        i += 1;
    }
    proof {
        assert(redeflates_ok(start.objects, backend, outs)) by {
            assert forall|k: int|
                0 <= k < start.objects.len() && #[trigger] redeflatable(start.objects, k) implies
                redeflate_outcome(start.objects[k].1->Stream_0.content, backend, outs[k]) by {
                assert(outs[k] == opt_view(plans@[k]));
            }
        }
        assert(cur@.objects =~= redeflated_document(start, outs).objects);
    }
    cur
}

// --- trailer and save ---------------------------------------------------------------------

/// The trailer without the entries that describe the cross-reference section
/// of the file that was read.
pub open spec fn tidy_trailer(t: Seq<(Seq<u8>, Value)>) -> Seq<(Seq<u8>, Value)> {
    dict_remove(
        dict_remove(
            dict_remove(dict_remove(dict_remove(t, DECODE_PARMS@), FILTER@), PREV@),
            XREF_STM@,
        ),
        LENGTH@,
    )
}

/// Drops the trailer entries that describe the input's cross-reference
/// section. The writer owns the new one, and nothing that was said of the old
/// may survive into it: a predictor that was carried over would lie about the
/// payload.
pub fn strip_stale_xref_trailer_keys(doc: &mut Pdf)
    ensures
        final(doc)@ == (DocumentValue { trailer: tidy_trailer(old(doc)@.trailer), ..old(doc)@ }),
        old(doc).wf() ==> final(doc).wf(),
        final(doc).objects@ == old(doc).objects@,
        final(doc).max_id == old(doc).max_id,
{
    let (parms, filter, prev, stm, length): ([u8; 11], [u8; 6], [u8; 4], [u8; 7], [u8; 6]) = (
        DECODE_PARMS,
        FILTER,
        PREV,
        XREF_STM,
        LENGTH,
    );
    doc.trailer.remove(parms.as_slice());
    doc.trailer.remove(filter.as_slice());
    doc.trailer.remove(prev.as_slice());
    doc.trailer.remove(stm.as_slice());
    doc.trailer.remove(length.as_slice());
}

/// The file as the writer makes it.
pub open spec fn written_file(doc: DocumentValue, pack: bool) -> Option<Seq<u8>> {
    if pack {
        saved_packed(doc)
    } else {
        saved_plain(doc)
    }
}

/// With zopfli the object streams that the writer made are compressed again.
pub open spec fn objstm_step(
    file: Seq<u8>,
    backend: DeflateBackend,
    l: spec_fn(Seq<u8>) -> Option<DocumentValue>,
    mid: Seq<u8>,
) -> bool {
    if backend == DeflateBackend::Zopfli {
        rezopfli_chain(objstm_tags(file, 0), file, l, mid)
    } else {
        mid == file
    }
}

/// The cross-reference stream is deflated.
pub open spec fn xref_step(mid: Seq<u8>, backend: DeflateBackend, out: Seq<u8>) -> bool {
    exists|patched: Option<Seq<u8>>| #[trigger]
        xref_outcome(mid, backend, patched) && out == or_same(mid, patched)
}

/// The file with the input's real literals put back.
pub open spec fn with_literals(
    file: Seq<u8>,
    literals: Map<u32, Seq<u8>>,
    m: spec_fn(Seq<u8>) -> Option<ReadingValue>,
    l: spec_fn(Seq<u8>) -> Option<DocumentValue>,
) -> Seq<u8> {
    if literals.is_empty() {
        file
    } else {
        or_same(file, restored(file, literals, m, l))
    }
}

/// What saving a document may give.
pub open spec fn save_outcome(
    doc: DocumentValue,
    pack: bool,
    backend: DeflateBackend,
    literals: Map<u32, Seq<u8>>,
    m: spec_fn(Seq<u8>) -> Option<ReadingValue>,
    l: spec_fn(Seq<u8>) -> Option<DocumentValue>,
    r: Option<Seq<u8>>,
) -> bool {
    match written_file(doc, pack) {
        None => r is None,
        Some(file) => r is Some && saved_from(
            with_literals(file, literals, m, l),
            backend,
            l,
            r->0,
        ),
    }
}

/// What the patches after the writer may make of its file.
pub open spec fn saved_from(
    file: Seq<u8>,
    backend: DeflateBackend,
    l: spec_fn(Seq<u8>) -> Option<DocumentValue>,
    out: Seq<u8>,
) -> bool {
    exists|mid: Seq<u8>| #[trigger]
        objstm_step(file, backend, l, mid) && xref_step(mid, backend, out)
}

/// Writes a document, with or without object streams, puts the input's real
/// literals back, then compresses what the writer leaves uncompressed or
/// poorly compressed: object streams, where zopfli is asked for, and the
/// cross-reference stream. That stream comes last, since the patches before
/// rewrite its rows, which they need uncompressed.
pub fn save_document<F: Fn(&[u8]) -> Option<Reading>, L: Fn(&[u8]) -> Option<Pdf>>(
    doc: &Pdf,
    pack: bool,
    backend: DeflateBackend,
    literals: &RealLiterals,
    read: &F,
    load: &L,
) -> (r: Option<Vec<u8>>)
    requires
        doc.max_id + doc.objects@.len() + 2 <= 0xFFFF_FFFF,
        reads_text(*read),
        loads(*load),
    ensures
        save_outcome(
            doc@,
            pack,
            backend,
            literals@,
            |t: Seq<u8>| meaning(*read, t),
            |t: Seq<u8>| loaded(*load, t),
            opt_view(r),
        ),
{
    let file = if pack {
        save_packed(doc)?
    } else {
        save_plain(doc)?
    };
    proof {
        assert(written_file(doc@, pack) == Some(file@));
    }
    let file = restore(file, literals, read, load);
    let ghost written = file@;
    let ghost l = |t: Seq<u8>| loaded(*load, t);
    let mid = if backend == DeflateBackend::Zopfli {
        rezopfli_objstm(file, load)
    } else {
        file
    };
    proof {
        assert(objstm_step(written, backend, l, mid@));
    }
    let ghost middle = mid@;
    let out = compress_xref_stream(mid, backend);
    proof {
        assert(xref_step(middle, backend, out@));
        assert(objstm_step(written, backend, l, middle));
        assert(saved_from(written, backend, l, out@));
    }
    Some(out)
}

} // verus!
