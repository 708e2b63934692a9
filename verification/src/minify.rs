//! Writing the content streams of a whole document anew.

use crate::content::{
    choose_stored, form_view, minified_content, minify_content, stored_form, FILTER_DICT_COST,
};
use crate::flate::{deflate_backend, deflate_outcome, opt_view, DeflateBackend};
use crate::lookup::{
    absent, content_stream_plain, encrypted_value, find_target, get_object, is_absent, is_encrypted,
    is_name, is_signed, lookup, lookup_index, page_content_ids, page_contents, pdfa_blocked,
    pdfa_declared, plain_content, signature_present,
};
use crate::names::{CONTENTS, FILTER, FORM, SUBTYPE};
use crate::object::{
    copy_dict, dict_get, dict_set, object_index, object_view, Dict, DocumentValue, ObjectId, Pdf,
    PdfObject, PdfStream, Value,
};
use crate::store::{
    flate_name, make_stream, new_stream, set_flate_content, with_flate_content, with_object,
};
use crate::tree::{known_pages, list_pages};
use vstd::prelude::*;

verus! {

// --- counting references --------------------------------------------------------------

/// Number of references to `id` in a value.
pub open spec fn references_to(v: Value, id: ObjectId) -> nat
    decreases v, 0int,
{
    match v {
        Value::Reference(r) => if r == id {
            1
        } else {
            0
        },
        Value::Array(items) => references_in_items(items, id, items.len() as int),
        Value::Dictionary(d) => references_in_entries(d, id, d.len() as int),
        Value::Stream(s) => references_in_entries(s.dict, id, s.dict.len() as int),
        _ => 0,
    }
}

/// Number of references to `id` in the first `n` items.
pub open spec fn references_in_items(items: Seq<Value>, id: ObjectId, n: int) -> nat
    decreases items, n,
{
    if n <= 0 || n > items.len() {
        0
    } else {
        references_in_items(items, id, n - 1) + references_to(items[n - 1], id)
    }
}

/// Number of references to `id` in the first `n` entries.
pub open spec fn references_in_entries(d: Seq<(Seq<u8>, Value)>, id: ObjectId, n: int) -> nat
    decreases d, n,
{
    if n <= 0 || n > d.len() {
        0
    } else {
        references_in_entries(d, id, n - 1) + references_to(d[n - 1].1, id)
    }
}

/// Number of references to `id` in the first `n` objects.
pub open spec fn references_in_objects(
    objects: Seq<(ObjectId, Value)>,
    id: ObjectId,
    n: int,
) -> nat
    decreases n,
{
    if n <= 0 {
        0
    } else {
        references_in_objects(objects, id, n - 1) + references_to(objects[n - 1].1, id)
    }
}

/// Number of references to `id` in a document, trailer included.
pub open spec fn reference_count(doc: DocumentValue, id: ObjectId) -> nat {
    references_in_objects(doc.objects, id, doc.objects.len() as int) + references_in_entries(
        doc.trailer,
        id,
        doc.trailer.len() as int,
    )
}

/// A count that stops at the greatest number that the machine counts to.
pub open spec fn saturated(n: nat) -> u64 {
    if n <= u64::MAX {
        n as u64
    } else {
        u64::MAX
    }
}

/// `counts` holds, for each object of `doc`, `more` on top of `base`.
spec fn counted(
    ids: Seq<ObjectId>,
    base: Seq<u64>,
    counts: Seq<u64>,
    more: spec_fn(ObjectId) -> nat,
) -> bool {
    &&& counts.len() == ids.len() == base.len()
    &&& forall|i: int|
        0 <= i < ids.len() ==> #[trigger] counts[i] == saturated((base[i] + more(ids[i])) as nat)
}

/// The identifiers of a document.
pub open spec fn ids_of(objects: Seq<(ObjectId, Value)>) -> Seq<ObjectId> {
    objects.map_values(|o: (ObjectId, Value)| o.0)
}

/// Counts the references in an object.
fn count_in_object(o: &PdfObject, doc: &Pdf, counts: &mut Vec<u64>)
    requires
        doc.wf(),
        old(counts)@.len() == doc.objects@.len(),
    ensures
        counted(
            ids_of(doc@.objects),
            old(counts)@,
            final(counts)@,
            |id: ObjectId| references_to(o@, id),
        ),
    decreases o,
{
    let ghost ids = ids_of(doc@.objects);
    let ghost base = counts@;
    match o {
        PdfObject::Reference(id) => {
            match doc.find(*id) {
                Some(i) => {
                    let n: u64 = counts[i];
                    if n < u64::MAX {
                        counts.set(i, n + 1);
                    }
                    proof {
                        assert forall|k: int| 0 <= k < ids.len() implies #[trigger] counts@[k]
                            == saturated((base[k] + references_to(o@, ids[k])) as nat) by {
                            assert(ids[k] == doc@.objects[k].0);
                            if ids[k] == *id {
                                crate::object::lemma_object_index(doc@.objects, k);
                            }
                        }
                    }
                },
                None => {
                    proof {
                        assert forall|k: int| 0 <= k < ids.len() implies #[trigger] counts@[k]
                            == saturated((base[k] + references_to(o@, ids[k])) as nat) by {
                            assert(ids[k] == doc@.objects[k].0);
                        }
                    }
                },
            }
        },
        PdfObject::Array(items) => {
            let ghost list = o@->Array_0;
            let mut i: usize = 0;
            while i < items.len()
                invariant
                    i <= items@.len(),
                    doc.wf(),
                    counts@.len() == doc.objects@.len(),
                    ids == ids_of(doc@.objects),
                    *o == PdfObject::Array(*items),
                    list == o@->Array_0,
                    list.len() == items@.len(),
                    counted(
                        ids,
                        base,
                        counts@,
                        |id: ObjectId| references_in_items(list, id, i as int),
                    ),
                decreases items@.len() - i,
            {
                proof {
                    assert(decreases_to!(*o => o->Array_0));
                    assert(decreases_to!(items => items[i as int]));
                    assert(list[i as int] == object_view(items@[i as int]));
                }
                let ghost before = counts@;
                count_in_object(&items[i], doc, counts);
                proof {
                    assert forall|k: int| 0 <= k < ids.len() implies #[trigger] counts@[k]
                        == saturated((base[k] + references_in_items(list, ids[k], i + 1)) as nat) by {
                        assert(before[k] == saturated(
                            (base[k] + references_in_items(list, ids[k], i as int)) as nat,
                        ));
                    }
                }
                i += 1;
            }
        },
        PdfObject::Dictionary(d) => {
            count_in_dict(d, doc, counts);
        },
        PdfObject::Stream(s) => {
            count_in_dict(&s.dict, doc, counts);
        },
        _ => {},
    }
}

/// Counts the references in a dictionary.
fn count_in_dict(d: &Dict, doc: &Pdf, counts: &mut Vec<u64>)
    requires
        doc.wf(),
        old(counts)@.len() == doc.objects@.len(),
    ensures
        counted(
            ids_of(doc@.objects),
            old(counts)@,
            final(counts)@,
            |id: ObjectId| references_in_entries(d@, id, d@.len() as int),
        ),
    decreases d,
{
    let ghost ids = ids_of(doc@.objects);
    let ghost base = counts@;
    let mut i: usize = 0;
    while i < d.entries.len()
        invariant
            i <= d.entries@.len(),
            doc.wf(),
            counts@.len() == doc.objects@.len(),
            ids == ids_of(doc@.objects),
            d@.len() == d.entries@.len(),
            counted(ids, base, counts@, |id: ObjectId| references_in_entries(d@, id, i as int)),
        decreases d.entries@.len() - i,
    {
        proof {
            assert(decreases_to!(d.entries => d.entries[i as int]));
            assert(d@[i as int] == (
                d.entries@[i as int].key@,
                object_view(d.entries@[i as int].value),
            ));
        }
        let ghost before = counts@;
        count_in_object(&d.entries[i].value, doc, counts);
        proof {
            assert forall|k: int| 0 <= k < ids.len() implies #[trigger] counts@[k] == saturated(
                (base[k] + references_in_entries(d@, ids[k], i + 1)) as nat,
            ) by {
                assert(before[k] == saturated(
                    (base[k] + references_in_entries(d@, ids[k], i as int)) as nat,
                ));
            }
        }
        i += 1;
    }
}

/// Counts, for each object of a document, the references to it, across every
/// object and the trailer.
pub fn count_object_references(doc: &Pdf) -> (r: Vec<u64>)
    requires
        doc.wf(),
    ensures
        r@.len() == doc.objects@.len(),
        forall|i: int|
            0 <= i < r@.len() ==> #[trigger] r@[i] == saturated(
                reference_count(doc@, doc@.objects[i].0),
            ),
{
    let ghost ids = ids_of(doc@.objects);
    let ghost objects = doc@.objects;
    let mut counts: Vec<u64> = Vec::new();
    let mut i: usize = 0;
    while i < doc.objects.len()
        invariant
            i <= doc.objects@.len(),
            counts@.len() == i,
            forall|k: int| 0 <= k < i ==> #[trigger] counts@[k] == 0,
        decreases doc.objects@.len() - i,
    {
        counts.push(0);
        i += 1;
    }
    let ghost zeros = counts@;
    i = 0;
    while i < doc.objects.len()
        invariant
            i <= doc.objects@.len(),
            doc.wf(),
            objects == doc@.objects,
            ids == ids_of(objects),
            zeros.len() == objects.len(),
            forall|k: int| 0 <= k < zeros.len() ==> #[trigger] zeros[k] == 0,
            counted(
                ids,
                zeros,
                counts@,
                |id: ObjectId| references_in_objects(objects, id, i as int),
            ),
        decreases doc.objects@.len() - i,
    {
        proof {
            assert(objects[i as int].1 == object_view(doc.objects@[i as int].object));
        }
        let ghost before = counts@;
        count_in_object(&doc.objects[i].object, doc, &mut counts);
        proof {
            assert forall|k: int| 0 <= k < ids.len() implies #[trigger] counts@[k] == saturated(
                (zeros[k] + references_in_objects(objects, ids[k], i + 1)) as nat,
            ) by {
                assert(before[k] == saturated(
                    (zeros[k] + references_in_objects(objects, ids[k], i as int)) as nat,
                ));
            }
        }
        i += 1;
    }
    let ghost before = counts@;
    count_in_dict(&doc.trailer, doc, &mut counts);
    proof {
        assert forall|k: int| 0 <= k < ids.len() implies #[trigger] counts@[k] == saturated(
            reference_count(doc@, objects[k].0),
        ) by {
            assert(ids[k] == objects[k].0);
            assert(before[k] == saturated(
                (zeros[k] + references_in_objects(objects, ids[k], objects.len() as int)) as nat,
            ));
        }
    }
    counts
}

// --- pages -------------------------------------------------------------------------------

/// One stream of a page: its decoded bytes, the size of its payload, and
/// whether it has a filter.
pub struct PartValue {
    pub bytes: Seq<u8>,
    pub stored: nat,
    pub filtered: bool,
}

/// The stream `id` as part of a page's content; `None` where it is none or
/// its decoding is in doubt.
pub open spec fn part_of(objects: Seq<(ObjectId, Value)>, id: ObjectId) -> Option<PartValue> {
    match lookup(objects, id) {
        Some(Value::Stream(s)) => match plain_content(objects, s) {
            Some(bytes) => Some(
                PartValue {
                    bytes,
                    stored: s.content.len(),
                    filtered: !absent(s.dict, FILTER@),
                },
            ),
            None => None,
        },
        _ => None,
    }
}

/// The first `n` streams of a page as its parts.
pub open spec fn parts_of(
    objects: Seq<(ObjectId, Value)>,
    ids: Seq<ObjectId>,
    n: int,
) -> Option<Seq<PartValue>>
    decreases n,
{
    if n <= 0 {
        Some(Seq::empty())
    } else {
        match (parts_of(objects, ids, n - 1), part_of(objects, ids[n - 1])) {
            (Some(before), Some(p)) => Some(before.push(p)),
            _ => None,
        }
    }
}

/// The decoded bytes of the first `n` parts, each followed by a line feed.
pub open spec fn parts_text(parts: Seq<PartValue>, n: int) -> Seq<u8>
    decreases n,
{
    if n <= 0 {
        Seq::empty()
    } else {
        parts_text(parts, n - 1) + parts[n - 1].bytes + seq![0x0Au8]
    }
}

/// How long the first `n` parts are, decoded.
pub open spec fn parts_len(parts: Seq<PartValue>, n: int) -> nat
    decreases n,
{
    if n <= 0 {
        0
    } else {
        parts_len(parts, n - 1) + parts[n - 1].bytes.len()
    }
}

/// What a part would take without this pass: its payload as it is, or
/// compressed again, which costs a dictionary entry where it had no filter.
pub open spec fn part_cost(p: PartValue, deflated: Option<Seq<u8>>) -> int {
    match deflated {
        None => p.stored as int,
        Some(d) => {
            let n = d.len() + (if p.filtered {
                0int
            } else {
                FILTER_DICT_COST as int
            });
            if n < p.stored {
                n
            } else {
                p.stored as int
            }
        },
    }
}

/// What the first `n` parts would take without this pass.
pub open spec fn parts_cost(
    parts: Seq<PartValue>,
    deflated: Seq<Option<Seq<u8>>>,
    n: int,
) -> int
    decreases n,
{
    if n <= 0 {
        0
    } else {
        parts_cost(parts, deflated, n - 1) + part_cost(parts[n - 1], deflated[n - 1])
    }
}

/// A part has no filter.
pub open spec fn any_unfiltered(parts: Seq<PartValue>) -> bool {
    exists|i: int| 0 <= i < parts.len() && !(#[trigger] parts[i]).filtered
}

/// Merging the streams of a page drops them, which is sound only where
/// nothing else refers to them.
pub open spec fn may_merge(doc: DocumentValue, ids: Seq<ObjectId>) -> bool {
    ids.len() <= 1 || forall|i: int|
        0 <= i < ids.len() ==> reference_count(doc, #[trigger] ids[i]) == 1
}

/// The parts of a page that could be written anew, with the new text. The
/// sizes are those that the machine can count.
pub open spec fn page_candidate(doc: DocumentValue, page: ObjectId) -> Option<
    (Seq<PartValue>, Seq<u8>),
> {
    let ids = page_content_ids(doc.objects, page);
    if ids.len() == 0 || !may_merge(doc, ids) {
        None
    } else {
        match parts_of(doc.objects, ids, ids.len() as int) {
            None => None,
            Some(parts) => {
                let n = parts.len() as int;
                if parts_len(parts, n) > usize::MAX {
                    None
                } else {
                    match minified_content(parts_text(parts, n), parts_len(parts, n) as int) {
                        Some(text) => Some((parts, text)),
                        None => None,
                    }
                }
            },
        }
    }
}

/// What the encoder made for one page: of each part, and of the new text.
pub struct PageDeflates {
    pub parts: Seq<Option<Seq<u8>>>,
    pub text: Option<Seq<u8>>,
}

/// These are what the encoder may make.
pub open spec fn page_deflates_ok(
    doc: DocumentValue,
    page: ObjectId,
    backend: DeflateBackend,
    d: PageDeflates,
) -> bool {
    match page_candidate(doc, page) {
        None => true,
        Some((parts, text)) => {
            &&& d.parts.len() == parts.len()
            &&& forall|i: int|
                0 <= i < parts.len() ==> deflate_outcome(
                    (#[trigger] parts[i]).bytes,
                    backend,
                    d.parts[i],
                )
            &&& deflate_outcome(text, backend, d.text)
        },
    }
}

/// A size as far as the machine counts it.
pub open spec fn capped(n: int) -> int {
    if n <= usize::MAX {
        n
    } else {
        usize::MAX as int
    }
}

/// What is stored for a page, given what the encoder made.
pub open spec fn page_form(doc: DocumentValue, page: ObjectId, d: PageDeflates) -> Option<
    (Seq<u8>, bool),
> {
    match page_candidate(doc, page) {
        None => None,
        Some((parts, text)) => stored_form(
            text,
            capped(parts_cost(parts, d.parts, parts.len() as int)),
            any_unfiltered(parts),
            d.text,
        ),
    }
}

/// The document with the content of one page replaced: its only stream gets
/// the new payload, or a new stream takes the place of several.
pub open spec fn with_page_form(
    doc: DocumentValue,
    page: ObjectId,
    ids: Seq<ObjectId>,
    content: Seq<u8>,
    deflated: bool,
) -> (DocumentValue, bool) {
    if ids.len() == 1 {
        match lookup_index(doc.objects, ids[0]) {
            Some(i) => match doc.objects[i].1 {
                Value::Stream(s) => (
                    DocumentValue {
                        objects: doc.objects.update(
                            i,
                            (
                                doc.objects[i].0,
                                Value::Stream(with_flate_content(s, content, deflated)),
                            ),
                        ),
                        ..doc
                    },
                    true,
                ),
                _ => (doc, false),
            },
            None => (doc, false),
        }
    } else if doc.max_id == u32::MAX {
        (doc, false)
    } else {
        let id = ((doc.max_id + 1) as u32, 0u16);
        let dict = if deflated {
            dict_set(Seq::empty(), FILTER@, Value::Name(crate::names::FLATE_DECODE@))
        } else {
            Seq::empty()
        };
        let added = DocumentValue {
            objects: with_object(doc.objects, id, Value::Stream(new_stream(dict, content))),
            max_id: id.0,
            ..doc
        };
        match lookup_index(added.objects, page) {
            Some(i) => match added.objects[i].1 {
                Value::Dictionary(d) => (
                    DocumentValue {
                        objects: added.objects.update(
                            i,
                            (
                                added.objects[i].0,
                                Value::Dictionary(dict_set(d, CONTENTS@, Value::Reference(id))),
                            ),
                        ),
                        ..added
                    },
                    true,
                ),
                _ => (added, false),
            },
            None => (added, false),
        }
    }
}

/// The document with the content of the first `n` pages replaced, as far as
/// it was planned on `doc`; and whether anything changed.
pub open spec fn with_pages(
    doc: DocumentValue,
    list: Seq<ObjectId>,
    deflates: Seq<PageDeflates>,
    n: int,
) -> (DocumentValue, bool)
    decreases n,
{
    if n <= 0 {
        (doc, false)
    } else {
        let (before, changed) = with_pages(doc, list, deflates, n - 1);
        let page = list[n - 1];
        match page_form(doc, page, deflates[n - 1]) {
            None => (before, changed),
            Some((content, deflated)) => {
                let (after, own) = with_page_form(
                    before,
                    page,
                    page_content_ids(doc.objects, page),
                    content,
                    deflated,
                );
                (after, changed || own)
            },
        }
    }
}

// --- form objects --------------------------------------------------------------------------

/// A form object that could be written anew: as a part, with the new text.
pub open spec fn form_candidate(objects: Seq<(ObjectId, Value)>, i: int) -> Option<
    (PartValue, Seq<u8>),
> {
    match objects[i].1 {
        Value::Stream(s) => if dict_get(s.dict, SUBTYPE@) == Some(Value::Name(FORM@)) {
            match plain_content(objects, s) {
                Some(bytes) => match minified_content(bytes, bytes.len() as int) {
                    Some(text) => Some(
                        (
                            PartValue {
                                bytes,
                                stored: s.content.len(),
                                filtered: !absent(s.dict, FILTER@),
                            },
                            text,
                        ),
                    ),
                    None => None,
                },
                None => None,
            }
        } else {
            None
        },
        _ => None,
    }
}

/// What the encoder made for one form object: of its bytes and of the text.
pub struct FormDeflates {
    pub bytes: Option<Seq<u8>>,
    pub text: Option<Seq<u8>>,
}

/// These are what the encoder may make.
pub open spec fn form_deflates_ok(
    objects: Seq<(ObjectId, Value)>,
    i: int,
    backend: DeflateBackend,
    d: FormDeflates,
) -> bool {
    match form_candidate(objects, i) {
        None => true,
        Some((part, text)) => deflate_outcome(part.bytes, backend, d.bytes) && deflate_outcome(
            text,
            backend,
            d.text,
        ),
    }
}

/// What is stored for a form object, given what the encoder made.
pub open spec fn form_form(objects: Seq<(ObjectId, Value)>, i: int, d: FormDeflates) -> Option<
    (Seq<u8>, bool),
> {
    match form_candidate(objects, i) {
        None => None,
        Some((part, text)) => stored_form(text, part_cost(part, d.bytes), !part.filtered, d.text),
    }
}

/// Object `i` with its content replaced, as far as that was planned.
pub open spec fn with_form(
    objects: Seq<(ObjectId, Value)>,
    i: int,
    d: FormDeflates,
) -> (ObjectId, Value) {
    match (form_form(objects, i, d), objects[i].1) {
        (Some((content, deflated)), Value::Stream(s)) => (
            objects[i].0,
            Value::Stream(with_flate_content(s, content, deflated)),
        ),
        _ => objects[i],
    }
}

/// The objects with the content of every form object replaced.
pub open spec fn with_forms(
    objects: Seq<(ObjectId, Value)>,
    deflates: Seq<FormDeflates>,
) -> Seq<(ObjectId, Value)> {
    Seq::new(objects.len(), |i: int| with_form(objects, i, deflates[i]))
}

/// A form object is replaced.
pub open spec fn any_form(objects: Seq<(ObjectId, Value)>, deflates: Seq<FormDeflates>) -> bool {
    exists|i: int| 0 <= i < objects.len() && (#[trigger] form_form(objects, i, deflates[i])) is Some
}

// --- the document ---------------------------------------------------------------------------

/// The document must not have its streams rewritten: it is encrypted, claims
/// conformance to PDF/A, or is signed.
pub open spec fn streams_locked(doc: DocumentValue) -> bool {
    encrypted_value(doc.trailer, doc.objects) || pdfa_declared(doc.trailer, doc.objects)
        || is_signed(doc.trailer, doc.objects)
}

/// The document with its content streams written anew, given what the encoder
/// made for each page and for each object after the pages; and whether
/// anything changed.
pub open spec fn minified_document(
    doc: DocumentValue,
    page_deflates: Seq<PageDeflates>,
    form_deflates: Seq<FormDeflates>,
) -> (DocumentValue, bool) {
    let list = known_pages(doc);
    let (mid, changed) = with_pages(doc, list, page_deflates, list.len() as int);
    (
        DocumentValue { objects: with_forms(mid.objects, form_deflates), ..mid },
        changed || any_form(mid.objects, form_deflates),
    )
}

/// What the encoder made for a document is what it may make.
pub open spec fn document_deflates_ok(
    doc: DocumentValue,
    backend: DeflateBackend,
    page_deflates: Seq<PageDeflates>,
    form_deflates: Seq<FormDeflates>,
) -> bool {
    let list = known_pages(doc);
    let mid = with_pages(doc, list, page_deflates, list.len() as int).0;
    &&& page_deflates.len() == list.len()
    &&& form_deflates.len() == mid.objects.len()
    &&& forall|i: int|
        0 <= i < list.len() ==> page_deflates_ok(doc, #[trigger] list[i], backend, page_deflates[i])
    &&& forall|i: int|
        0 <= i < mid.objects.len() ==> form_deflates_ok(
            mid.objects,
            i,
            backend,
            #[trigger] form_deflates[i],
        )
}

/// What writing the content streams of a document anew may give.
pub open spec fn minify_outcome(
    doc: DocumentValue,
    backend: DeflateBackend,
    r: (DocumentValue, bool),
) -> bool {
    if streams_locked(doc) {
        r == (doc, false)
    } else {
        exists|p: Seq<PageDeflates>, f: Seq<FormDeflates>| #[trigger]
            document_deflates_ok(doc, backend, p, f) && r == minified_document(doc, p, f)
    }
}

/// Whether the streams of a document must not be rewritten.
pub fn locked(doc: &Pdf) -> (r: bool)
    requires
        doc.wf(),
    ensures
        r == streams_locked(doc@),
{
    is_encrypted(doc) || pdfa_blocked(doc) || signature_present(doc)
}

/// One stream of a page.
struct Part {
    bytes: Vec<u8>,
    stored: usize,
    filtered: bool,
}

impl View for Part {
    type V = PartValue;

    closed spec fn view(&self) -> PartValue {
        PartValue { bytes: self.bytes@, stored: self.stored as nat, filtered: self.filtered }
    }
}

spec fn part_views(parts: Seq<Part>) -> Seq<PartValue> {
    parts.map_values(|p: Part| p@)
}

/// Reads the stream `id` as part of a page's content.
fn read_part(doc: &Pdf, id: ObjectId) -> (r: Option<Part>)
    requires
        doc.wf(),
    ensures
        match r {
            Some(p) => part_of(doc@.objects, id) == Some(p@),
            None => part_of(doc@.objects, id) is None,
        },
{
    let key: [u8; 6] = FILTER;
    match get_object(doc, id) {
        Some(PdfObject::Stream(s)) => {
            proof {
                assert(lookup(doc@.objects, id) == Some(Value::Stream(s@)));
            }
            let bytes = content_stream_plain(doc, s)?;
            Some(
                Part {
                    bytes,
                    stored: s.content.len(),
                    filtered: !is_absent(&s.dict, key.as_slice()),
                },
            )
        },
        _ => None,
    }
}

proof fn lemma_parts_stop(objects: Seq<(ObjectId, Value)>, ids: Seq<ObjectId>, i: int, n: int)
    requires
        i <= n,
        parts_of(objects, ids, i) is None,
    ensures
        parts_of(objects, ids, n) is None,
    decreases n - i,
{
    if i < n {
        lemma_parts_stop(objects, ids, i, n - 1);
    }
}

/// Reads the streams of a page as its parts.
fn read_parts(doc: &Pdf, ids: &Vec<ObjectId>) -> (r: Option<Vec<Part>>)
    requires
        doc.wf(),
    ensures
        match r {
            Some(v) => parts_of(doc@.objects, ids@, ids@.len() as int) == Some(part_views(v@)),
            None => parts_of(doc@.objects, ids@, ids@.len() as int) is None,
        },
{
    let mut out: Vec<Part> = Vec::new();
    let mut i: usize = 0;
    proof {
        assert(part_views(out@) =~= Seq::empty());
    }
    while i < ids.len()
        invariant
            i <= ids@.len(),
            doc.wf(),
            parts_of(doc@.objects, ids@, i as int) == Some(part_views(out@)),
        decreases ids@.len() - i,
    {
        match read_part(doc, ids[i]) {
            Some(p) => {
                let ghost before = part_views(out@);
                out.push(p);
                proof {
                    assert(part_views(out@) =~= before.push(p@));
                }
            },
            None => {
                proof {
                    lemma_parts_stop(doc@.objects, ids@, i + 1, ids@.len() as int);
                }
                return None;
            },
        }
        i += 1;
    }
    Some(out)
}

/// Whether nothing else refers to the streams of a page.
fn can_merge(doc: &Pdf, ids: &Vec<ObjectId>, counts: &Vec<u64>) -> (r: bool)
    requires
        doc.wf(),
        counts@.len() == doc.objects@.len(),
        forall|i: int|
            0 <= i < counts@.len() ==> #[trigger] counts@[i] == saturated(
                reference_count(doc@, doc@.objects[i].0),
            ),
        parts_of(doc@.objects, ids@, ids@.len() as int) is Some,
    ensures
        r == may_merge(doc@, ids@),
{
    if ids.len() <= 1 {
        return true;
    }
    let mut i: usize = 0;
    while i < ids.len()
        invariant
            i <= ids@.len(),
            doc.wf(),
            counts@.len() == doc.objects@.len(),
            forall|i: int|
                0 <= i < counts@.len() ==> #[trigger] counts@[i] == saturated(
                    reference_count(doc@, doc@.objects[i].0),
                ),
            parts_of(doc@.objects, ids@, ids@.len() as int) is Some,
            ids@.len() > 1,
            forall|k: int| 0 <= k < i ==> reference_count(doc@, #[trigger] ids@[k]) == 1,
        decreases ids@.len() - i,
    {
        let one = match doc.find(ids[i]) {
            Some(k) => {
                proof {
                    assert(doc@.objects[k as int].0 == doc.objects@[k as int].id);
                }
                counts[k] == 1
            },
            None => {
                proof {
                    lemma_part_exists(doc@.objects, ids@, i as int, ids@.len() as int);
                }
                false
            },
        };
        if !one {
            return false;
        }
        i += 1;
    }
    true
}

/// The streams of a page that can be read are there.
proof fn lemma_part_exists(objects: Seq<(ObjectId, Value)>, ids: Seq<ObjectId>, i: int, n: int)
    requires
        0 <= i < n <= ids.len(),
        parts_of(objects, ids, n) is Some,
    ensures
        object_index(objects, ids[i]) is Some,
    decreases n,
{
    if i < n - 1 {
        lemma_part_exists(objects, ids, i, n - 1);
    }
}

/// The decoded bytes of the parts, each followed by a line feed, and how long
/// they are without those; `None` where that leaves the machine's range.
fn join_parts(parts: &Vec<Part>) -> (r: Option<(Vec<u8>, usize)>)
    ensures
        match r {
            Some(x) => x.0@ == parts_text(part_views(parts@), parts@.len() as int) && x.1
                == parts_len(part_views(parts@), parts@.len() as int),
            None => parts_len(part_views(parts@), parts@.len() as int) > usize::MAX,
        },
{
    let ghost list = part_views(parts@);
    let mut out: Vec<u8> = Vec::new();
    let mut len: usize = 0;
    let mut i: usize = 0;
    proof {
        assert(out@ =~= Seq::empty());
    }
    while i < parts.len()
        invariant
            i <= parts@.len(),
            list == part_views(parts@),
            out@ == parts_text(list, i as int),
            len == parts_len(list, i as int),
        decreases parts@.len() - i,
    {
        proof {
            assert(list[i as int] == parts@[i as int]@);
        }
        if parts[i].bytes.len() > usize::MAX - len {
            proof {
                lemma_parts_len(list, i + 1, list.len() as int);
            }
            return None;
        }
        len = len + parts[i].bytes.len();
        out.extend_from_slice(parts[i].bytes.as_slice());
        out.push(0x0A);
        proof {
            assert(out@ =~= parts_text(list, i + 1));
        }
        i += 1;
    }
    Some((out, len))
}

proof fn lemma_parts_len(parts: Seq<PartValue>, i: int, n: int)
    requires
        i <= n,
    ensures
        parts_len(parts, i) <= parts_len(parts, n),
    decreases n - i,
{
    if i < n {
        lemma_parts_len(parts, i, n - 1);
    }
}

/// What a part would take without this pass.
fn cost_of_part(p: &Part, deflated: &Option<Vec<u8>>) -> (r: usize)
    ensures
        r == part_cost(p@, opt_view(*deflated)),
{
    match deflated {
        None => p.stored,
        Some(d) => {
            let extra: usize = if p.filtered {
                0
            } else {
                FILTER_DICT_COST
            };
            if extra <= p.stored && d.len() < p.stored - extra {
                d.len() + extra
            } else {
                p.stored
            }
        },
    }
}

/// What the parts would take without this pass, and whether one has no filter.
fn cost_of_parts(parts: &Vec<Part>, backend: DeflateBackend) -> (r: (
    usize,
    bool,
    Ghost<Seq<Option<Seq<u8>>>>,
))
    ensures
        r.2@.len() == parts@.len(),
        forall|i: int|
            0 <= i < parts@.len() ==> deflate_outcome(
                (#[trigger] part_views(parts@)[i]).bytes,
                backend,
                r.2@[i],
            ),
        r.0 == capped(parts_cost(part_views(parts@), r.2@, parts@.len() as int)),
        r.1 == any_unfiltered(part_views(parts@)),
{
    let ghost list = part_views(parts@);
    let ghost mut made: Seq<Option<Seq<u8>>> = Seq::empty();
    let mut cost: usize = 0;
    let mut bare = false;
    let mut i: usize = 0;
    while i < parts.len()
        invariant
            i <= parts@.len(),
            list == part_views(parts@),
            made.len() == i,
            forall|k: int|
                0 <= k < i ==> deflate_outcome((#[trigger] list[k]).bytes, backend, made[k]),
            cost == capped(parts_cost(list, made, i as int)),
            bare == exists|k: int| 0 <= k < i && !(#[trigger] list[k]).filtered,
        decreases parts@.len() - i,
    {
        proof {
            assert(list[i as int] == parts@[i as int]@);
        }
        let deflated = deflate_backend(parts[i].bytes.as_slice(), backend);
        let own: usize = cost_of_part(&parts[i], &deflated);
        let ghost before = made;
        proof {
            made = made.push(opt_view(deflated));
            lemma_parts_cost_prefix(list, before, made, i as int);
        }
        if own > usize::MAX - cost {
            cost = usize::MAX;
        } else {
            cost = cost + own;
        }
        if !parts[i].filtered {
            bare = true;
        }
        i += 1;
    }
    (cost, bare, Ghost(made))
}

proof fn lemma_parts_cost_prefix(
    parts: Seq<PartValue>,
    a: Seq<Option<Seq<u8>>>,
    b: Seq<Option<Seq<u8>>>,
    n: int,
)
    requires
        0 <= n <= a.len() <= b.len(),
        forall|i: int| 0 <= i < n ==> a[i] == b[i],
    ensures
        parts_cost(parts, a, n) == parts_cost(parts, b, n),
    decreases n,
{
    if n > 0 {
        lemma_parts_cost_prefix(parts, a, b, n - 1);
    }
}

/// Plans one page.
fn plan_page(
    doc: &Pdf,
    page: ObjectId,
    ids: &Vec<ObjectId>,
    counts: &Vec<u64>,
    backend: DeflateBackend,
) -> (r: (Option<(Vec<u8>, bool)>, Ghost<PageDeflates>))
    requires
        doc.wf(),
        ids@ == page_content_ids(doc@.objects, page),
        counts@.len() == doc.objects@.len(),
        forall|i: int|
            0 <= i < counts@.len() ==> #[trigger] counts@[i] == saturated(
                reference_count(doc@, doc@.objects[i].0),
            ),
    ensures
        page_deflates_ok(doc@, page, backend, r.1@),
        form_view(r.0) == page_form(doc@, page, r.1@),
{
    let ghost nothing = PageDeflates { parts: Seq::empty(), text: None };
    if ids.len() == 0 {
        return (None, Ghost(nothing));
    }
    let parts = match read_parts(doc, ids) {
        Some(p) => p,
        None => {
            return (None, Ghost(nothing));
        },
    };
    if !can_merge(doc, ids, counts) {
        return (None, Ghost(nothing));
    }
    let (decoded, plain_stored) = match join_parts(&parts) {
        Some(x) => x,
        None => {
            return (None, Ghost(nothing));
        },
    };
    let text = match minify_content(decoded.as_slice(), plain_stored) {
        Some(t) => t,
        None => {
            return (None, Ghost(nothing));
        },
    };
    proof {
        assert(page_candidate(doc@, page) == Some((part_views(parts@), text@)));
    }
    let (cost, bare, Ghost(made)) = cost_of_parts(&parts, backend);
    let deflated = deflate_backend(text.as_slice(), backend);
    let ghost d = PageDeflates { parts: made, text: opt_view(deflated) };
    let form = choose_stored(text, cost, bare, deflated);
    (form, Ghost(d))
}

/// Puts the new payload into the only stream of a page.
fn replace_stream(doc: Pdf, id: ObjectId, content: Vec<u8>, deflated: bool) -> (r: (Pdf, bool))
    requires
        doc.wf(),
    ensures
        (r.0@, r.1) == (match lookup_index(doc@.objects, id) {
            Some(i) => match doc@.objects[i].1 {
                Value::Stream(s) => (
                    DocumentValue {
                        objects: doc@.objects.update(
                            i,
                            (
                                doc@.objects[i].0,
                                Value::Stream(with_flate_content(s, content@, deflated)),
                            ),
                        ),
                        ..doc@
                    },
                    true,
                ),
                _ => (doc@, false),
            },
            None => (doc@, false),
        }),
        r.0.wf(),
        r.0.objects@.len() == doc.objects@.len(),
{
    let mut d = doc;
    match find_target(&d, id) {
        None => (d, false),
        Some(i) => {
            proof {
                assert(d@.objects[i as int].1 == object_view(d.objects@[i as int].object));
            }
            match take_stream(&mut d, i) {
                None => (d, false),
                Some(s) => {
                    let mut stream = s;
                    set_flate_content(&mut stream, content, deflated);
                    d.put(i, PdfObject::Stream(stream));
                    proof {
                        assert(d@.objects =~= doc@.objects.update(
                            i as int,
                            (
                                doc@.objects[i as int].0,
                                Value::Stream(
                                    with_flate_content(
                                        doc@.objects[i as int].1->Stream_0,
                                        content@,
                                        deflated,
                                    ),
                                ),
                            ),
                        ));
                    }
                    (d, true)
                },
            }
        },
    }
}

/// Takes the stream at index `i` out of a document, leaving a null in its
/// place; leaves the document alone where there is none.
pub fn take_stream(doc: &mut Pdf, i: usize) -> (r: Option<PdfStream>)
    requires
        i < old(doc).objects@.len(),
    ensures
        match old(doc)@.objects[i as int].1 {
            Value::Stream(s) => r is Some && (r->0)@ == s && final(doc)@ == (DocumentValue {
                objects: old(doc)@.objects.update(
                    i as int,
                    (old(doc)@.objects[i as int].0, Value::Null),
                ),
                ..old(doc)@
            }),
            _ => r is None && final(doc)@ == old(doc)@,
        },
        old(doc).wf() ==> final(doc).wf(),
        final(doc).objects@.len() == old(doc).objects@.len(),
{
    proof {
        assert(doc@.objects[i as int].1 == object_view(doc.objects@[i as int].object));
    }
    let is_stream = match &doc.objects[i].object {
        PdfObject::Stream(_) => true,
        _ => false,
    };
    if !is_stream {
        return None;
    }
    let ghost before = doc@;
    let last: usize = doc.objects.len() - 1;
    let id: ObjectId = doc.objects[i].id;
    doc.objects.push(crate::object::Indirect { id, object: PdfObject::Null });
    let taken = doc.objects.swap_remove(i);
    proof {
        assert(doc@.objects =~= before.objects.update(i as int, (id, Value::Null)));
    }
    match taken.object {
        PdfObject::Stream(s) => Some(s),
        _ => None,
    }
}

/// Puts a new stream in the place of the several streams of a page.
fn merge_streams(doc: Pdf, page: ObjectId, content: Vec<u8>, deflated: bool) -> (r: (Pdf, bool))
    requires
        doc.wf(),
    ensures
        forall|ids: Seq<ObjectId>|
            ids.len() != 1 ==> (r.0@, r.1) == #[trigger] with_page_form(
                doc@,
                page,
                ids,
                content@,
                deflated,
            ),
        r.0.wf(),
{
    let (filter_key, contents_key): ([u8; 6], [u8; 8]) = (FILTER, CONTENTS);
    if doc.max_id == u32::MAX {
        return (doc, false);
    }
    let mut d = doc;
    let id: ObjectId = (d.max_id + 1, 0);
    let mut dict = Dict::new();
    if deflated {
        dict.set(filter_key.as_slice(), flate_name());
    }
    d.max_id = id.0;
    proof {
        assert(d@ == (DocumentValue { max_id: id.0, ..doc@ }));
    }
    d.insert(id, PdfObject::Stream(make_stream(dict, content)));
    match find_target(&d, page) {
        None => (d, false),
        Some(i) => {
            proof {
                assert(d@.objects[i as int].1 == object_view(d.objects@[i as int].object));
            }
            match &d.objects[i].object {
                PdfObject::Dictionary(p) => {
                    let mut new = copy_dict(p);
                    new.set(contents_key.as_slice(), PdfObject::Reference(id));
                    d.put(i, PdfObject::Dictionary(new));
                    (d, true)
                },
                _ => (d, false),
            }
        },
    }
}

/// Replaces the content of one page.
fn apply_page(doc: Pdf, page: ObjectId, ids: &Vec<ObjectId>, content: Vec<u8>, deflated: bool) -> (r:
    (Pdf, bool))
    requires
        doc.wf(),
    ensures
        (r.0@, r.1) == with_page_form(doc@, page, ids@, content@, deflated),
        r.0.wf(),
{
    if ids.len() == 1 {
        replace_stream(doc, ids[0], content, deflated)
    } else {
        merge_streams(doc, page, content, deflated)
    }
}

/// One page that is written anew.
struct PageRewrite {
    page: ObjectId,
    ids: Vec<ObjectId>,
    form: Option<(Vec<u8>, bool)>,
}

/// Plans every page.
fn plan_pages(doc: &Pdf, list: &Vec<ObjectId>, backend: DeflateBackend) -> (r: (
    Vec<PageRewrite>,
    Ghost<Seq<PageDeflates>>,
))
    requires
        doc.wf(),
    ensures
        r.0@.len() == list@.len() == r.1@.len(),
        forall|i: int|
            0 <= i < list@.len() ==> page_deflates_ok(doc@, #[trigger] list@[i], backend, r.1@[i]),
        forall|i: int|
            0 <= i < list@.len() ==> {
                let w = #[trigger] r.0@[i];
                &&& w.page == list@[i]
                &&& w.ids@ == page_content_ids(doc@.objects, list@[i])
                &&& form_view(w.form) == page_form(doc@, list@[i], r.1@[i])
            },
{
    let counts = count_object_references(doc);
    let mut out: Vec<PageRewrite> = Vec::new();
    let ghost mut made: Seq<PageDeflates> = Seq::empty();
    let mut i: usize = 0;
    while i < list.len()
        invariant
            i <= list@.len(),
            doc.wf(),
            counts@.len() == doc.objects@.len(),
            forall|i: int|
                0 <= i < counts@.len() ==> #[trigger] counts@[i] == saturated(
                    reference_count(doc@, doc@.objects[i].0),
                ),
            out@.len() == i,
            made.len() == i,
            forall|k: int|
                0 <= k < i ==> page_deflates_ok(doc@, #[trigger] list@[k], backend, made[k]),
            forall|k: int|
                0 <= k < i ==> {
                    let w = #[trigger] out@[k];
                    &&& w.page == list@[k]
                    &&& w.ids@ == page_content_ids(doc@.objects, list@[k])
                    &&& form_view(w.form) == page_form(doc@, list@[k], made[k])
                },
        decreases list@.len() - i,
    {
        let page: ObjectId = list[i];
        let ids = page_contents(doc, page);
        let (form, Ghost(d)) = plan_page(doc, page, &ids, &counts, backend);
        out.push(PageRewrite { page, ids, form });
        proof {
            made = made.push(d);
        }
        i += 1;
    }
    (out, Ghost(made))
}

/// Replaces the content of every page.
fn apply_pages(
    doc: Pdf,
    rewrites: Vec<PageRewrite>,
    Ghost(list): Ghost<Seq<ObjectId>>,
    Ghost(made): Ghost<Seq<PageDeflates>>,
) -> (r: (Pdf, bool))
    requires
        doc.wf(),
        rewrites@.len() == list.len() == made.len(),
        forall|i: int|
            0 <= i < list.len() ==> {
                let w = #[trigger] rewrites@[i];
                &&& w.page == list[i]
                &&& w.ids@ == page_content_ids(doc@.objects, list[i])
                &&& form_view(w.form) == page_form(doc@, list[i], made[i])
            },
    ensures
        (r.0@, r.1) == with_pages(doc@, list, made, list.len() as int),
        r.0.wf(),
{
    let ghost start = doc@;
    let mut cur = doc;
    let mut changed = false;
    let mut i: usize = 0;
    while i < rewrites.len()
        invariant
            i <= rewrites@.len(),
            cur.wf(),
            rewrites@.len() == list.len() == made.len(),
            forall|i: int|
                0 <= i < list.len() ==> {
                    let w = #[trigger] rewrites@[i];
                    &&& w.page == list[i]
                    &&& w.ids@ == page_content_ids(start.objects, list[i])
                    &&& form_view(w.form) == page_form(start, list[i], made[i])
                },
            (cur@, changed) == with_pages(start, list, made, i as int),
        decreases rewrites@.len() - i,
    {
        let w = &rewrites[i];
        match &w.form {
            None => {},
            Some((content, deflated)) => {
                let (next, own) = apply_page(cur, w.page, &w.ids, content.clone(), *deflated);
                cur = next;
                changed = changed || own;
            },
        }
        i += 1;
    }
    (cur, changed)
}

/// Plans one form object.
fn plan_form(doc: &Pdf, i: usize, backend: DeflateBackend) -> (r: (
    Option<(Vec<u8>, bool)>,
    Ghost<FormDeflates>,
))
    requires
        doc.wf(),
        i < doc.objects@.len(),
    ensures
        form_deflates_ok(doc@.objects, i as int, backend, r.1@),
        form_view(r.0) == form_form(doc@.objects, i as int, r.1@),
{
    let (subtype, form, filter_key): ([u8; 7], [u8; 4], [u8; 6]) = (SUBTYPE, FORM, FILTER);
    let ghost nothing = FormDeflates { bytes: None, text: None };
    proof {
        assert(doc@.objects[i as int].1 == object_view(doc.objects@[i as int].object));
    }
    match &doc.objects[i].object {
        PdfObject::Stream(s) => {
            if !is_name(s.dict.get(subtype.as_slice()), form.as_slice()) {
                return (None, Ghost(nothing));
            }
            let bytes = match content_stream_plain(doc, s) {
                Some(b) => b,
                None => {
                    return (None, Ghost(nothing));
                },
            };
            let text = match minify_content(bytes.as_slice(), bytes.len()) {
                Some(t) => t,
                None => {
                    return (None, Ghost(nothing));
                },
            };
            let part = Part {
                bytes,
                stored: s.content.len(),
                filtered: !is_absent(&s.dict, filter_key.as_slice()),
            };
            proof {
                assert(form_candidate(doc@.objects, i as int) == Some((part@, text@)));
            }
            let again = deflate_backend(part.bytes.as_slice(), backend);
            let cost: usize = cost_of_part(&part, &again);
            let deflated = deflate_backend(text.as_slice(), backend);
            let ghost d = FormDeflates { bytes: opt_view(again), text: opt_view(deflated) };
            (choose_stored(text, cost, !part.filtered, deflated), Ghost(d))
        },
        _ => (None, Ghost(nothing)),
    }
}

/// Replaces the content of every form object.
fn minify_forms(doc: Pdf, backend: DeflateBackend) -> (r: (Pdf, bool, Ghost<Seq<FormDeflates>>))
    requires
        doc.wf(),
    ensures
        r.2@.len() == doc@.objects.len(),
        forall|i: int|
            0 <= i < doc@.objects.len() ==> form_deflates_ok(
                doc@.objects,
                i,
                backend,
                #[trigger] r.2@[i],
            ),
        r.0@ == (DocumentValue { objects: with_forms(doc@.objects, r.2@), ..doc@ }),
        r.1 == any_form(doc@.objects, r.2@),
        r.0.wf(),
{
    let ghost objects = doc@.objects;
    let mut forms: Vec<Option<(Vec<u8>, bool)>> = Vec::new();
    let ghost mut made: Seq<FormDeflates> = Seq::empty();
    let mut i: usize = 0;
    while i < doc.objects.len()
        invariant
            i <= doc.objects@.len(),
            doc.wf(),
            objects == doc@.objects,
            forms@.len() == i,
            made.len() == i,
            forall|k: int|
                0 <= k < i ==> form_deflates_ok(objects, k, backend, #[trigger] made[k]),
            forall|k: int|
                0 <= k < i ==> form_view(#[trigger] forms@[k]) == form_form(objects, k, made[k]),
        decreases doc.objects@.len() - i,
    {
        let (form, Ghost(d)) = plan_form(&doc, i, backend);
        forms.push(form);
        proof {
            made = made.push(d);
        }
        i += 1;
    }
    let ghost start = doc@;
    let mut cur = doc;
    let mut changed = false;
    i = 0;
    while i < forms.len()
        invariant
            i <= forms@.len(),
            forms@.len() == objects.len() == made.len(),
            cur.wf(),
            cur.objects@.len() == objects.len(),
            objects == start.objects,
            forall|k: int|
                0 <= k < objects.len() ==> form_view(#[trigger] forms@[k]) == form_form(
                    objects,
                    k,
                    made[k],
                ),
            cur@ == (DocumentValue { objects: cur@.objects, ..start }),
            forall|k: int|
                0 <= k < objects.len() ==> #[trigger] cur@.objects[k] == if k < i {
                    with_form(objects, k, made[k])
                } else {
                    objects[k]
                },
            changed == exists|k: int|
                0 <= k < i && (#[trigger] form_form(objects, k, made[k])) is Some,
        decreases forms@.len() - i,
    {
        let ghost before = cur@.objects;
        proof {
            assert(form_view(forms@[i as int]) == form_form(objects, i as int, made[i as int]));
            assert(before[i as int] == objects[i as int]);
        }
        match &forms[i] {
            None => {},
            Some((content, deflated)) => {
                changed = true;
                match take_stream(&mut cur, i) {
                    Some(s) => {
                        let mut stream = s;
                        set_flate_content(&mut stream, content.clone(), *deflated);
                        cur.put(i, PdfObject::Stream(stream));
                    },
                    None => {},
                }
                proof {
                    assert(form_form(objects, i as int, made[i as int]) is Some);
                    assert forall|k: int| 0 <= k < objects.len() && k != i implies
                        #[trigger] cur@.objects[k] == before[k] by {}
                }
            },
        }
        i += 1;
    }
    proof {
        assert(cur@.objects =~= with_forms(objects, made));
    }
    (cur, changed, Ghost(made))
}

/// Writes the content streams of pages and form objects anew, each kept only
/// where that is smaller. A page with several streams gets one in their place,
/// since an operator may span two of them, and only where nothing else refers
/// to them. The operations that a viewer performs stay the same; comments and
/// redundant white space are the only casualties.
///
/// Declined for encrypted, PDF/A-declared and signed documents.
pub fn minify_content_streams(doc: Pdf, backend: DeflateBackend) -> (r: (Pdf, bool))
    requires
        doc.wf(),
    ensures
        minify_outcome(doc@, backend, (r.0@, r.1)),
        r.0.wf(),
{
    if locked(&doc) {
        return (doc, false);
    }
    let ghost start = doc@;
    let list = list_pages(&doc);
    let (rewrites, Ghost(p)) = plan_pages(&doc, &list, backend);
    let (mid, changed) = apply_pages(doc, rewrites, Ghost(list@), Ghost(p));
    let (out, more, Ghost(f)) = minify_forms(mid, backend);
    proof {
        assert(document_deflates_ok(start, backend, p, f));
    }
    (out, changed || more)
}

} // verus!
