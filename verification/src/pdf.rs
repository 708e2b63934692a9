//! Reading and writing PDF files through lopdf, and its view of pages and
//! content streams, on the plain object model.

use crate::filters::decodes_safely;
use crate::inline::parses_safely;
use crate::tree::tree_fits;
use crate::object::{
    Dict, DocumentValue, Entry, Indirect, ObjectId, Pdf, PdfObject, PdfStream, StreamValue, Value,
};
use vstd::prelude::*;

verus! {

/// An object of lopdf.
#[verifier::external_type_specification]
#[verifier::external_body]
pub struct OutsideObject(lopdf::Object);

/// A dictionary of lopdf.
#[verifier::external_type_specification]
#[verifier::external_body]
pub struct OutsideDictionary(lopdf::Dictionary);

/// A stream of lopdf.
#[verifier::external_type_specification]
#[verifier::external_body]
pub struct OutsideStream(lopdf::Stream);

/// A document of lopdf.
#[verifier::external_type_specification]
#[verifier::external_body]
pub struct OutsideDocument(lopdf::Document);

/// A content operation of lopdf.
#[verifier::external_type_specification]
#[verifier::external_body]
pub struct OutsideOperation(lopdf::content::Operation);

/// One operation of a content stream: operands, then operator.
pub struct ContentOp {
    pub operator: Vec<u8>,
    pub operands: Vec<PdfObject>,
}

/// The content of an operation.
pub struct OperationValue {
    pub operator: Seq<u8>,
    pub operands: Seq<Value>,
}

impl View for ContentOp {
    type V = OperationValue;

    open spec fn view(&self) -> OperationValue {
        OperationValue {
            operator: self.operator@,
            operands: crate::object::values(self.operands@),
        }
    }
}

/// The contents of a list of operations.
pub open spec fn operation_views(ops: Seq<ContentOp>) -> Seq<OperationValue> {
    ops.map_values(|o: ContentOp| o@)
}

// --- names for what lopdf returns ----------------------------------------------------

/// The file that lopdf writes for a document, each object in plain sight.
pub uninterp spec fn saved_plain(doc: DocumentValue) -> Option<Seq<u8>>;

/// The file that lopdf writes for a document with object streams.
pub uninterp spec fn saved_packed(doc: DocumentValue) -> Option<Seq<u8>>;

/// The pages of a document in reading order.
pub uninterp spec fn pages_of(doc: DocumentValue) -> Seq<ObjectId>;

/// The document without the objects that its trailer does not lead to.
pub uninterp spec fn pruned(doc: DocumentValue) -> DocumentValue;

/// The document with its objects numbered from 1 on without gaps.
pub uninterp spec fn renumbered(doc: DocumentValue) -> DocumentValue;

/// The payload of a stream with all its filters undone; `None` where that
/// fails.
pub uninterp spec fn decoded(stream: StreamValue) -> Option<Seq<u8>>;

/// The operations of a content stream; `None` where none can be read.
pub uninterp spec fn operations(content: Seq<u8>) -> Option<Seq<OperationValue>>;

/// The operations of a content stream; `None` unless it is read to its end.
pub uninterp spec fn operations_strict(content: Seq<u8>) -> Option<Seq<OperationValue>>;

/// The content stream that lopdf writes for these operations.
pub uninterp spec fn encoded(ops: Seq<OperationValue>) -> Option<Seq<u8>>;

// --- conversion ----------------------------------------------------------------------

/// A `lopdf::Object` as a plain object, part for part; a real by its
/// shortest spelling, which reads back as the same number.
#[verifier::external_body]
fn plain_object(o: lopdf::Object) -> PdfObject {
    match o {
        lopdf::Object::Null => PdfObject::Null,
        lopdf::Object::Boolean(b) => PdfObject::Boolean(b),
        lopdf::Object::Integer(i) => PdfObject::Integer(i),
        lopdf::Object::Real(v) => PdfObject::Real(v.to_string().into_bytes()),
        lopdf::Object::Name(n) => PdfObject::Name(n),
        lopdf::Object::String(t, f) => PdfObject::Text(t, f == lopdf::StringFormat::Hexadecimal),
        lopdf::Object::Array(a) => PdfObject::Array(a.into_iter().map(plain_object).collect()),
        lopdf::Object::Dictionary(d) => PdfObject::Dictionary(plain_dict(d)),
        lopdf::Object::Stream(s) => PdfObject::Stream(plain_stream(s)),
        lopdf::Object::Reference(id) => PdfObject::Reference(id),
    }
}

/// A `lopdf::Dictionary` as a plain dictionary, entry for entry.
#[verifier::external_body]
fn plain_dict(d: lopdf::Dictionary) -> Dict {
    Dict {
        entries: d.into_iter().map(|(key, value)| Entry { key, value: plain_object(value) }).collect(),
    }
}

/// A `lopdf::Stream` as a plain stream; where it stood in the file is dropped.
#[verifier::external_body]
fn plain_stream(s: lopdf::Stream) -> PdfStream {
    PdfStream {
        dict: plain_dict(s.dict),
        content: s.content,
        compressible: s.allows_compression,
    }
}

/// A `lopdf::Document` as a plain document.
#[verifier::external_body]
fn plain_document(d: lopdf::Document) -> Pdf {
    let encrypted = d.was_encrypted();
    let kind = d.reference_table.cross_reference_type;
    let pairs = d.objects.into_iter();
    Pdf {
        version: d.version.into_bytes(),
        binary_mark: d.binary_mark,
        trailer: plain_dict(d.trailer),
        objects: pairs.map(|(id, o)| Indirect { id, object: plain_object(o) }).collect(),
        max_id: d.max_id,
        xref_stream: matches!(kind, lopdf::xref::XrefType::CrossReferenceStream),
        encrypted,
    }
}

/// The spelling of a real as a `lopdf::Object`; null where it spells none.
#[verifier::external_body]
fn outside_real(text: &Vec<u8>) -> lopdf::Object {
    match String::from_utf8_lossy(text).parse() {
        Ok(v) => lopdf::Object::Real(v),
        Err(_) => lopdf::Object::Null,
    }
}

/// A plain object as a `lopdf::Object`, part for part.
#[verifier::external_body]
fn outside_object(o: &PdfObject) -> lopdf::Object {
    match o {
        PdfObject::Null => lopdf::Object::Null,
        PdfObject::Boolean(b) => lopdf::Object::Boolean(*b),
        PdfObject::Integer(i) => lopdf::Object::Integer(*i),
        PdfObject::Real(text) => outside_real(text),
        PdfObject::Name(n) => lopdf::Object::Name(n.clone()),
        PdfObject::Text(t, hex) => outside_text(t, *hex),
        PdfObject::Array(a) => lopdf::Object::Array(a.iter().map(outside_object).collect()),
        PdfObject::Dictionary(d) => lopdf::Object::Dictionary(outside_dict(d)),
        PdfObject::Stream(s) => lopdf::Object::Stream(outside_stream(s)),
        PdfObject::Reference(id) => lopdf::Object::Reference(*id),
    }
}

/// A plain string as a `lopdf::Object`.
#[verifier::external_body]
fn outside_text(text: &Vec<u8>, hex: bool) -> lopdf::Object {
    let format = match hex {
        true => lopdf::StringFormat::Hexadecimal,
        false => lopdf::StringFormat::Literal,
    };
    lopdf::Object::String(text.clone(), format)
}

/// A plain dictionary as a `lopdf::Dictionary`, the first entry of each key.
#[verifier::external_body]
fn outside_dict(d: &Dict) -> lopdf::Dictionary {
    let last_first = d.entries.iter().rev().map(|e| (e.key.clone(), outside_object(&e.value)));
    last_first.collect::<lopdf::Dictionary>().into_iter().rev().collect()
}

/// A plain stream as a `lopdf::Stream`.
#[verifier::external_body]
fn outside_stream(s: &PdfStream) -> lopdf::Stream {
    lopdf::Stream {
        dict: outside_dict(&s.dict),
        content: s.content.clone(),
        allows_compression: s.compressible,
        start_position: None,
    }
}

/// A plain document as a `lopdf::Document`.
#[verifier::external_body]
fn outside_document(doc: &Pdf) -> lopdf::Document {
    let mut d = lopdf::Document::new();
    d.version = String::from_utf8_lossy(&doc.version).into_owned();
    d.binary_mark = doc.binary_mark.clone();
    d.trailer = outside_dict(&doc.trailer);
    d.objects = doc.objects.iter().map(|o| (o.id, outside_object(&o.object))).collect();
    d.max_id = doc.max_id;
    d.reference_table.cross_reference_type = match doc.xref_stream {
        true => lopdf::xref::XrefType::CrossReferenceStream,
        false => lopdf::xref::XrefType::CrossReferenceTable,
    };
    d
}

/// A `lopdf::content::Operation` as a plain operation.
#[verifier::external_body]
fn plain_operation(o: lopdf::content::Operation) -> ContentOp {
    ContentOp {
        operator: o.operator.into_bytes(),
        operands: o.operands.into_iter().map(plain_object).collect(),
    }
}

/// A plain operation as a `lopdf::content::Operation`.
#[verifier::external_body]
fn outside_operation(o: &ContentOp) -> lopdf::content::Operation {
    lopdf::content::Operation {
        operator: String::from_utf8_lossy(&o.operator).into_owned(),
        operands: o.operands.iter().map(outside_object).collect(),
    }
}

// --- the calls -----------------------------------------------------------------------

/// Writes a document through `lopdf::Document::save_to`. lopdf counts one
/// number past the highest, so there has to be one. The result is a function
/// of the document, named [`saved_plain`].
#[verifier::external_body]
pub(crate) fn save_plain(doc: &Pdf) -> (r: Option<Vec<u8>>)
    requires
        doc.max_id < 0xFFFF_FFFE,
    ensures
        match r {
            Some(file) => saved_plain(doc@) == Some(file@),
            None => saved_plain(doc@) is None,
        },
{
    let mut file: Vec<u8> = Vec::new();
    match outside_document(doc).save_to(&mut file) {
        Ok(_) => Some(file),
        Err(_) => None,
    }
}

/// Writes a document through `lopdf::Document::save_with_options`: object
/// streams of at most 65535 objects, deflated at level 9, and a
/// cross-reference stream. lopdf takes a number past the highest for each
/// object stream and one more, and there are no more object streams than
/// objects. The result is a function of the document, named [`saved_packed`].
#[verifier::external_body]
pub(crate) fn save_packed(doc: &Pdf) -> (r: Option<Vec<u8>>)
    requires
        doc.max_id + doc.objects@.len() + 2 <= 0xFFFF_FFFF,
    ensures
        match r {
            Some(file) => saved_packed(doc@) == Some(file@),
            None => saved_packed(doc@) is None,
        },
{
    let streams = lopdf::SaveOptions::builder().use_object_streams(true).use_xref_streams(true);
    let options = streams.max_objects_per_stream(65_535).compression_level(9).build();
    let mut file: Vec<u8> = Vec::new();
    match outside_document(doc).save_with_options(&mut file, options) {
        Ok(_) => Some(file),
        Err(_) => None,
    }
}

/// The pages of a document, through `lopdf::Document::page_iter`. The result
/// is a function of the document, named [`pages_of`]. lopdf reserves room for
/// the pages that the kids of the nodes on its way claim, at most 257 lists of
/// them.
#[verifier::external_body]
pub(crate) fn pages(doc: &Pdf) -> (r: Vec<ObjectId>)
    requires
        tree_fits(doc@),
    ensures
        r@ == pages_of(doc@),
{
    outside_document(doc).page_iter().collect()
}

/// Drops the objects that the trailer does not lead to, through
/// `lopdf::Document::prune_objects`. The result is a function of the
/// document, named [`pruned`]. Objects are only taken out, and lopdf keeps
/// them in a `BTreeMap`, so they come out in ascending order.
#[verifier::external_body]
pub(crate) fn prune(doc: Pdf) -> (r: Pdf)
    ensures
        r@ == pruned(doc@),
        r.wf(),
        r@.objects.len() <= doc@.objects.len(),
{
    let mut d = outside_document(&doc);
    d.prune_objects();
    plain_document(d)
}

/// Numbers the objects from 1 on, through
/// `lopdf::Document::renumber_objects`, which counts in 31 bits and walks the
/// page tree. The result
/// is a function of the document, named [`renumbered`]. The highest number is
/// the number of objects.
#[verifier::external_body]
pub(crate) fn renumber(doc: Pdf) -> (r: Pdf)
    requires
        doc.objects@.len() < 0x7FFF_FFFF,
        tree_fits(doc@),
    ensures
        r@ == renumbered(doc@),
        r.wf(),
        r@.objects.len() <= doc@.objects.len(),
        r.max_id == r@.objects.len(),
{
    let mut d = outside_document(&doc);
    d.renumber_objects();
    plain_document(d)
}

/// Undoes all filters of a stream, through
/// `lopdf::Stream::decompressed_content`. The result is a function of the
/// stream, named [`decoded`]. lopdf multiplies row sizes and adds up ASCII85
/// groups without a check, so what would overflow there is left out.
#[verifier::external_body]
pub(crate) fn decode_stream(stream: &PdfStream) -> (r: Option<Vec<u8>>)
    requires
        decodes_safely(stream@),
    ensures
        match r {
            Some(data) => decoded(stream@) == Some(data@),
            None => decoded(stream@) is None,
        },
{
    match outside_stream(stream).decompressed_content() {
        Ok(data) => Some(data),
        Err(_) => None,
    }
}

/// Reads operations through `lopdf::content::Content::decode`. The result is
/// a function of the bytes, named [`operations`]. lopdf unwraps the color space
/// of an inline image and multiplies its size, so what fails there is left
/// out.
#[verifier::external_body]
pub(crate) fn decode_operations(content: &[u8]) -> (r: Option<Vec<ContentOp>>)
    requires
        parses_safely(content@),
    ensures
        match r {
            Some(ops) => operations(content@) == Some(operation_views(ops@)),
            None => operations(content@) is None,
        },
{
    match lopdf::content::Content::decode(content) {
        Ok(c) => Some(c.operations.into_iter().map(plain_operation).collect()),
        Err(_) => None,
    }
}

/// Reads operations through `lopdf::content::Content::decode_strict`. The
/// result is a function of the bytes, named [`operations_strict`]. As with
/// `decode`, inline images on which lopdf fails are left out.
#[verifier::external_body]
pub(crate) fn decode_operations_strict(content: &[u8]) -> (r: Option<Vec<ContentOp>>)
    requires
        parses_safely(content@),
    ensures
        match r {
            Some(ops) => operations_strict(content@) == Some(operation_views(ops@)),
            None => operations_strict(content@) is None,
        },
{
    match lopdf::content::Content::decode_strict(content) {
        Ok(c) => Some(c.operations.into_iter().map(plain_operation).collect()),
        Err(_) => None,
    }
}

/// Writes operations through `lopdf::content::Content::encode`. The result
/// is a function of the operations, named [`encoded`].
#[verifier::external_body]
pub(crate) fn encode_operations(ops: &Vec<ContentOp>) -> (r: Option<Vec<u8>>)
    ensures
        match r {
            Some(bytes) => encoded(operation_views(ops@)) == Some(bytes@),
            None => encoded(operation_views(ops@)) is None,
        },
{
    let operations: Vec<lopdf::content::Operation> = ops.iter().map(outside_operation).collect();
    match (lopdf::content::Content { operations }).encode() {
        Ok(bytes) => Some(bytes),
        Err(_) => None,
    }
}

} // verus!
