//! What is found in a document, however it is written: through references,
//! in lists, and by inheritance.

use crate::flate::{inflated, MAX_REDEFLATE_BYTES};
use crate::filters::readable;
use crate::lookup::{
    class_of_name, content_ids, dict_at, encrypted_value, filter_class, follow, is_signed,
    joined_content, lookup, named_references, page_content_ids, page_names, pdfa_declared,
    plain_content, references_in, resolved, resources_of, FilterClass,
};
use crate::names::{names_spelled_1, names_spelled_2, names_spelled_3};
use crate::minify::streams_locked;
use crate::object::{
    dict_get, dict_has, object_at, object_index, DocumentValue, ObjectId, StreamValue, Value,
};
use crate::text::{find_from, has_sub, lemma_find_from, lemma_find_from_first, occurs_at};
use vstd::prelude::*;
use vstd::string::StringSliceAdditionalSpecFns;

verus! {

// --- references -------------------------------------------------------------------------------------

/// A reference stands for the object that it names, where that is no
/// reference itself, and for nothing else than itself where there is none.
pub proof fn reference_stands_for_its_object(objects: Seq<(ObjectId, Value)>, id: ObjectId)
    ensures
        object_at(objects, id) is None ==> resolved(objects, Value::Reference(id))
            == Value::Reference(id),
        object_at(objects, id) is Some && !(object_at(objects, id)->0 is Reference) ==> resolved(
            objects,
            Value::Reference(id),
        ) == object_at(objects, id)->0,
{
}

/// A value that is no reference stands for itself, and no reference leads to
/// a reference other than itself.
pub proof fn value_stands_for_itself(objects: Seq<(ObjectId, Value)>, v: Value)
    ensures
        !(v is Reference) ==> resolved(objects, v) == v,
        resolved(objects, v) is Reference ==> resolved(objects, v) == v,
        resolved(objects, resolved(objects, v)) == resolved(objects, v),
{
    match v {
        Value::Reference(id) => {
            match object_index(objects, id) {
                Some(i) => lemma_follow_ends(objects, i, 0),
                None => {},
            }
        },
        _ => {},
    }
}

proof fn lemma_follow_ends(objects: Seq<(ObjectId, Value)>, i: int, n: int)
    ensures
        match follow(objects, i, n) {
            Some(j) => !(objects[j].1 is Reference),
            None => true,
        },
    decreases 129 - n,
{
    match objects[i].1 {
        Value::Reference(id) => {
            match object_index(objects, id) {
                Some(j) => {
                    if n + 1 <= 128 {
                        lemma_follow_ends(objects, j, n + 1);
                    }
                },
                None => {},
            }
        },
        _ => {},
    }
}

proof fn lemma_follow_nearer(objects: Seq<(ObjectId, Value)>, i: int, n: int)
    requires
        n >= 1,
        follow(objects, i, n) is Some,
    ensures
        follow(objects, i, n - 1) == follow(objects, i, n),
    decreases 129 - n,
{
    match objects[i].1 {
        Value::Reference(id) => {
            let j = object_index(objects, id)->0;
            lemma_follow_nearer(objects, j, n + 1);
        },
        _ => {},
    }
}

/// A reference to a reference leads where that one leads.
pub proof fn references_are_followed(objects: Seq<(ObjectId, Value)>, id: ObjectId, to: ObjectId)
    requires
        object_at(objects, id) == Some(Value::Reference(to)),
        lookup(objects, id) is Some,
    ensures
        lookup(objects, id) == lookup(objects, to),
{
    let i = object_index(objects, id)->0;
    let j = object_index(objects, to)->0;
    lemma_follow_nearer(objects, j, 1);
}

// --- filters ----------------------------------------------------------------------------------------

/// A filter is known by its name, and by its name alone.
pub proof fn filters_are_known_by_name(n: Seq<u8>)
    ensures
        class_of_name(n) == FilterClass::DctOnly <==> n == "DCTDecode".spec_bytes(),
        class_of_name(n) == FilterClass::FlateOnly <==> n == "FlateDecode".spec_bytes(),
        class_of_name(n) == FilterClass::CcittOnly <==> n == "CCITTFaxDecode".spec_bytes(),
        class_of_name(n) == FilterClass::JpxOnly <==> n == "JPXDecode".spec_bytes(),
        class_of_name(n) == FilterClass::Jbig2Only <==> n == "JBIG2Decode".spec_bytes(),
{
    names_spelled_1();
    names_spelled_2();
    names_spelled_3();
    lemma_filters_differ();
}

proof fn lemma_filters_differ()
    ensures
        "DCTDecode".spec_bytes().len() == 9,
        "FlateDecode".spec_bytes().len() == 11,
        "CCITTFaxDecode".spec_bytes().len() == 14,
        "JPXDecode".spec_bytes().len() == 9,
        "JBIG2Decode".spec_bytes().len() == 11,
        "DCTDecode".spec_bytes()[0] != "JPXDecode".spec_bytes()[0],
        "FlateDecode".spec_bytes()[0] != "JBIG2Decode".spec_bytes()[0],
{
    reveal_strlit("DCTDecode");
    reveal_strlit("FlateDecode");
    reveal_strlit("CCITTFaxDecode");
    reveal_strlit("JPXDecode");
    reveal_strlit("JBIG2Decode");
    assert("DCTDecode".is_ascii());
    assert("FlateDecode".is_ascii());
    assert("CCITTFaxDecode".is_ascii());
    assert("JPXDecode".is_ascii());
    assert("JBIG2Decode".is_ascii());
}

/// A filter is the same whether it is named, listed alone, or led to; two or
/// more filters are none that is known.
pub proof fn filter_is_the_same_in_a_list(objects: Seq<(ObjectId, Value)>, n: Seq<u8>, id: ObjectId)
    ensures
        filter_class(objects, Value::Array(seq![Value::Name(n)])) == filter_class(
            objects,
            Value::Name(n),
        ),
        filter_class(objects, Value::Name(n)) == class_of_name(n),
        object_at(objects, id) == Some(Value::Name(n)) ==> filter_class(
            objects,
            Value::Reference(id),
        ) == class_of_name(n) && filter_class(
            objects,
            Value::Array(seq![Value::Reference(id)]),
        ) == class_of_name(n),
        forall|items: Seq<Value>|
            items.len() != 1 ==> #[trigger] filter_class(objects, Value::Array(items))
                == FilterClass::Other,
{
}

/// Without a filter a stream's content is plain as it is; with any filter but
/// `FlateDecode` alone, or with parameters, it is not known.
pub proof fn plain_content_is_what_the_filter_gives(
    objects: Seq<(ObjectId, Value)>,
    s: StreamValue,
)
    ensures
        dict_get(s.dict, "Filter".spec_bytes()) is None ==> plain_content(objects, s) == Some(
            s.content,
        ),
        dict_get(s.dict, "Filter".spec_bytes()) == Some(
            Value::Name("FlateDecode".spec_bytes()),
        ) && dict_get(s.dict, "DecodeParms".spec_bytes()) is None ==> plain_content(objects, s)
            == inflated(s.content, MAX_REDEFLATE_BYTES as nat),
        dict_get(s.dict, "Filter".spec_bytes()) is Some && dict_get(
            s.dict,
            "DecodeParms".spec_bytes(),
        ) is Some && dict_get(s.dict, "Filter".spec_bytes()) != Some(Value::Null) && dict_get(
            s.dict,
            "DecodeParms".spec_bytes(),
        ) != Some(Value::Null) ==> plain_content(objects, s) is None,
        forall|n: Seq<u8>|
            n != "FlateDecode".spec_bytes() && #[trigger] is_filter(s, n) ==> plain_content(
                objects,
                s,
            ) is None,
{
    names_spelled_1();
    names_spelled_2();
    names_spelled_3();
    filters_are_known_by_name("FlateDecode".spec_bytes());
    assert forall|n: Seq<u8>|
        n != "FlateDecode".spec_bytes() && #[trigger] is_filter(s, n) implies plain_content(
        objects,
        s,
    ) is None by {
        filters_are_known_by_name(n);
    }
}

/// The stream has this filter.
pub open spec fn is_filter(s: StreamValue, n: Seq<u8>) -> bool {
    dict_get(s.dict, "Filter".spec_bytes()) == Some(Value::Name(n))
}

// --- trailers -------------------------------------------------------------------------------------

/// The document is encrypted where its trailer's `/Encrypt` leads to a
/// dictionary.
pub proof fn encryption_is_declared_in_the_trailer(
    trailer: Seq<(Seq<u8>, Value)>,
    objects: Seq<(ObjectId, Value)>,
)
    ensures
        encrypted_value(trailer, objects) <==> exists|id: ObjectId| #[trigger]
            encrypts(trailer, objects, id),
{
    names_spelled_1();
    names_spelled_2();
    names_spelled_3();
    match dict_get(trailer, "Encrypt".spec_bytes()) {
        Some(Value::Reference(id)) => {
            assert(encrypts(trailer, objects, id) <==> encrypted_value(trailer, objects));
        },
        _ => {},
    }
}

/// The trailer's `/Encrypt` is a reference to a dictionary.
pub open spec fn encrypts(
    trailer: Seq<(Seq<u8>, Value)>,
    objects: Seq<(ObjectId, Value)>,
    id: ObjectId,
) -> bool {
    dict_get(trailer, "Encrypt".spec_bytes()) == Some(Value::Reference(id)) && lookup(
        objects,
        id,
    ) is Some && lookup(objects, id)->0 is Dictionary
}

/// A signature is seen wherever it stands: any object with a `/ByteRange`, of
/// the type of a signature or of a time stamp, a dictionary or a stream.
pub proof fn signatures_are_seen(
    trailer: Seq<(Seq<u8>, Value)>,
    objects: Seq<(ObjectId, Value)>,
    i: int,
    d: Seq<(Seq<u8>, Value)>,
)
    requires
        0 <= i < objects.len(),
        objects[i].1 == Value::Dictionary(d) || (objects[i].1 is Stream
            && objects[i].1->Stream_0.dict == d),
        ({
            ||| dict_has(d, "ByteRange".spec_bytes())
            ||| dict_get(d, "Type".spec_bytes()) == Some(Value::Name("Sig".spec_bytes()))
            ||| dict_get(d, "Type".spec_bytes()) == Some(
                Value::Name("DocTimeStamp".spec_bytes()),
            )
        }),
    ensures
        is_signed(trailer, objects),
{
    names_spelled_1();
    names_spelled_2();
    names_spelled_3();
    assert(crate::lookup::object_signs(objects[i].1));
}

/// A form that speaks of signatures is seen, and a document in which nothing
/// of that kind stands is not signed.
pub proof fn unsigned_documents_hold_no_signature(
    trailer: Seq<(Seq<u8>, Value)>,
    objects: Seq<(ObjectId, Value)>,
    root: ObjectId,
    catalog: Seq<(Seq<u8>, Value)>,
    form: Seq<(Seq<u8>, Value)>,
)
    requires
        dict_get(trailer, "Root".spec_bytes()) == Some(Value::Reference(root)),
        object_at(objects, root) == Some(Value::Dictionary(catalog)),
        dict_get(catalog, "AcroForm".spec_bytes()) == Some(Value::Dictionary(form)),
    ensures
        dict_has(form, "SigFlags".spec_bytes()) ==> is_signed(trailer, objects),
        !is_signed(trailer, objects) ==> forall|i: int|
            0 <= i < objects.len() && (#[trigger] objects[i]).1 is Dictionary ==> !dict_has(
                objects[i].1->Dictionary_0,
                "ByteRange".spec_bytes(),
            ) && dict_get(objects[i].1->Dictionary_0, "Type".spec_bytes()) != Some(
                Value::Name("Sig".spec_bytes()),
            ),
{
    names_spelled_1();
    names_spelled_2();
    names_spelled_3();
    assert(lookup(objects, root) == Some(Value::Dictionary(catalog)));
    if !is_signed(trailer, objects) {
        assert forall|i: int|
            0 <= i < objects.len() && (#[trigger] objects[i]).1 is Dictionary implies !dict_has(
            objects[i].1->Dictionary_0,
            "ByteRange".spec_bytes(),
        ) && dict_get(objects[i].1->Dictionary_0, "Type".spec_bytes()) != Some(
            Value::Name("Sig".spec_bytes()),
        ) by {
            assert(!crate::lookup::object_signs(objects[i].1));
        }
    }
}

// --- pages -----------------------------------------------------------------------------------------

/// The contents of a page that are one stream are that stream, and contents
/// that are a list of streams are those, in order, whether the list stands in
/// the page or is led to.
pub proof fn page_contents_come_in_order(
    objects: Seq<(ObjectId, Value)>,
    page: ObjectId,
    d: Seq<(Seq<u8>, Value)>,
    ids: Seq<ObjectId>,
)
    requires
        object_at(objects, page) == Some(Value::Dictionary(d)),
        dict_get(d, "Contents".spec_bytes()) is Some,
    ensures
        ({
            let v = dict_get(d, "Contents".spec_bytes())->0;
            let list = Value::Array(ids.map_values(|id: ObjectId| Value::Reference(id)));
            &&& v == list ==> page_content_ids(objects, page) == ids
            &&& v is Reference && object_at(objects, v->Reference_0) == Some(list)
                ==> page_content_ids(objects, page) == ids
            &&& v is Reference && object_at(objects, v->Reference_0) is Some && object_at(
                objects,
                v->Reference_0,
            )->0 is Stream ==> page_content_ids(objects, page) == seq![v->Reference_0]
        }),
{
    names_spelled_1();
    names_spelled_2();
    names_spelled_3();
    assert(lookup(objects, page) == Some(Value::Dictionary(d)));
    let items = ids.map_values(|id: ObjectId| Value::Reference(id));
    lemma_references(items, ids, ids.len() as int);
    assert(ids.take(ids.len() as int) =~= ids);
    reveal_with_fuel(content_ids, 3);
}

proof fn lemma_references(items: Seq<Value>, ids: Seq<ObjectId>, n: int)
    requires
        0 <= n <= ids.len() == items.len(),
        forall|i: int| 0 <= i < ids.len() ==> #[trigger] items[i] == Value::Reference(ids[i]),
    ensures
        references_in(items, n) == ids.take(n),
    decreases n,
{
    if n > 0 {
        lemma_references(items, ids, n - 1);
        assert(items[n - 1] == Value::Reference(ids[n - 1]));
        assert(ids.take(n - 1).push(ids[n - 1]) =~= ids.take(n));
    } else {
        assert(ids.take(0) =~= Seq::empty());
    }
}

/// The content of a page is the contents of its streams, one after the other,
/// each ended by a line feed: a stream more only adds its own.
pub proof fn page_content_is_joined(
    objects: Seq<(ObjectId, Value)>,
    ids: Seq<ObjectId>,
    id: ObjectId,
)
    ensures
        ({
            let before = joined_content(objects, ids, ids.len() as int);
            let after = joined_content(objects, ids.push(id), ids.len() as int + 1);
            match lookup(objects, id) {
                Some(Value::Stream(s)) => {
                    &&& before.is_prefix_of(after)
                    &&& after.last() == 0x0A
                    &&& readable(s) is Some ==> after.skip(before.len() as int).drop_last()
                        == readable(s)->0
                    &&& readable(s) is None ==> after.skip(before.len() as int).drop_last()
                        == s.content
                },
                _ => after == before,
            }
        }),
{
    let more = ids.push(id);
    let n = ids.len() as int;
    lemma_joined_same(objects, ids, more, n);
    let before = joined_content(objects, ids, n);
    let after = joined_content(objects, more, n + 1);
    assert(more[n] == id);
    match lookup(objects, id) {
        Some(Value::Stream(s)) => {
            let own = match readable(s) {
                Some(data) => data,
                None => s.content,
            };
            assert(after == before + own + seq![0x0Au8]);
            assert(after.skip(before.len() as int).drop_last() =~= own);
        },
        _ => {},
    }
}

proof fn lemma_joined_same(
    objects: Seq<(ObjectId, Value)>,
    a: Seq<ObjectId>,
    b: Seq<ObjectId>,
    n: int,
)
    requires
        n <= a.len(),
        n <= b.len(),
        forall|i: int| 0 <= i < n ==> a[i] == b[i],
    ensures
        joined_content(objects, a, n) == joined_content(objects, b, n),
    decreases n,
{
    if n > 0 {
        lemma_joined_same(objects, a, b, n - 1);
    }
}

/// A page's own resources are its resources; one without any has those of the
/// node above it.
pub proof fn resources_are_inherited(
    objects: Seq<(ObjectId, Value)>,
    page: ObjectId,
    d: Seq<(Seq<u8>, Value)>,
    up: ObjectId,
)
    requires
        object_at(objects, page) == Some(Value::Dictionary(d)),
    ensures
        dict_get(d, "Resources".spec_bytes()) is Some && dict_get(
            d,
            "Resources".spec_bytes(),
        )->0 is Dictionary ==> resources_of(objects, page, 0) == Some(
            dict_get(d, "Resources".spec_bytes())->0->Dictionary_0,
        ),
        dict_get(d, "Resources".spec_bytes()) is None && dict_get(d, "Parent".spec_bytes())
            == Some(Value::Reference(up)) && resources_of(objects, page, 0) is Some
            ==> resources_of(objects, page, 0) == resources_of(objects, up, 0),
        dict_get(d, "Resources".spec_bytes()) is None && dict_get(d, "Parent".spec_bytes())
            == Some(Value::Reference(up)) && resources_of(objects, up, 1) is Some
            ==> resources_of(objects, page, 0) == resources_of(objects, up, 0),
{
    names_spelled_1();
    names_spelled_2();
    names_spelled_3();
    assert(lookup(objects, page) == Some(Value::Dictionary(d)));
    assert(dict_at(objects, page) == Some(d));
    if resources_of(objects, up, 1) is Some {
        lemma_resources_nearer(objects, up, 1);
    }
}

proof fn lemma_resources_nearer(objects: Seq<(ObjectId, Value)>, node: ObjectId, n: int)
    requires
        n >= 1,
        resources_of(objects, node, n) is Some,
    ensures
        resources_of(objects, node, n - 1) == resources_of(objects, node, n),
    decreases 32 - n,
{
    if n < 32 {
        match dict_at(objects, node) {
            Some(d) => {
                if dict_get(d, crate::names::RESOURCES@) is None {
                    match dict_get(d, crate::names::PARENT@) {
                        Some(Value::Reference(up)) => lemma_resources_nearer(objects, up, n + 1),
                        _ => {},
                    }
                }
            },
            None => {},
        }
    }
}

/// The image names of a page are the references among its `/XObject`
/// resources, each under its own name, in their order.
pub proof fn image_names_are_the_references(
    objects: Seq<(ObjectId, Value)>,
    page: ObjectId,
    d: Seq<(Seq<u8>, Value)>,
)
    requires
        resources_of(objects, page, 0) is Some,
        dict_get(resources_of(objects, page, 0)->0, "XObject".spec_bytes()) == Some(
            Value::Dictionary(d),
        ),
    ensures
        forall|name: Seq<u8>, id: ObjectId| #[trigger]
            page_names(objects, page).contains((name, id)) <==> d.contains(
                (name, Value::Reference(id)),
            ),
{
    names_spelled_1();
    names_spelled_2();
    names_spelled_3();
    assert(page_names(objects, page) == named_references(d, d.len() as int));
    assert(d.take(d.len() as int) =~= d);
    assert forall|name: Seq<u8>, id: ObjectId| #[trigger]
        page_names(objects, page).contains((name, id)) <==> d.contains(
            (name, Value::Reference(id)),
        ) by {
        lemma_named(d, d.len() as int, name, id);
    }
}

proof fn lemma_named(d: Seq<(Seq<u8>, Value)>, n: int, name: Seq<u8>, id: ObjectId)
    requires
        0 <= n <= d.len(),
    ensures
        named_references(d, n).contains((name, id)) <==> d.take(n).contains(
            (name, Value::Reference(id)),
        ),
    decreases n,
{
    if n > 0 {
        lemma_named(d, n - 1, name, id);
        let before = named_references(d, n - 1);
        let after = named_references(d, n);
        assert(d.take(n) =~= d.take(n - 1).push(d[n - 1]));
        lemma_push_contains(d.take(n - 1), d[n - 1], (name, Value::Reference(id)));
        match d[n - 1].1 {
            Value::Reference(own) => lemma_push_contains(before, (d[n - 1].0, own), (name, id)),
            _ => {},
        }
    }
}

proof fn lemma_push_contains<A>(s: Seq<A>, x: A, y: A)
    ensures
        s.push(x).contains(y) <==> s.contains(y) || x == y,
{
    let t = s.push(x);
    assert(t[s.len() as int] == x);
    if s.contains(y) {
        let k = choose|k: int| 0 <= k < s.len() && s[k] == y;
        assert(t[k] == y);
    }
    if t.contains(y) && x != y {
        let k = choose|k: int| 0 <= k < t.len() && t[k] == y;
        assert(s[k] == y);
    }
}

/// A document claims PDF/A where the metadata of its catalog says
/// `pdfaid:part` anywhere, and not where it does not.
pub proof fn pdfa_claims_are_seen(
    trailer: Seq<(Seq<u8>, Value)>,
    objects: Seq<(ObjectId, Value)>,
    root: ObjectId,
    catalog: Seq<(Seq<u8>, Value)>,
    meta: ObjectId,
    s: StreamValue,
)
    requires
        dict_get(trailer, "Root".spec_bytes()) == Some(Value::Reference(root)),
        object_at(objects, root) == Some(Value::Dictionary(catalog)),
        dict_get(catalog, "Metadata".spec_bytes()) == Some(Value::Reference(meta)),
        object_at(objects, meta) == Some(Value::Stream(s)),
    ensures
        pdfa_declared(trailer, objects) <==> stands_in(
            legible(s),
            "pdfaid:part".spec_bytes(),
        ),
{
    lemma_pdfa_names();
    let needle = "pdfaid:part".spec_bytes();
    assert(lookup(objects, root) == Some(Value::Dictionary(catalog)));
    assert(resolved(objects, Value::Reference(meta)) == Value::Stream(s));
    assert(pdfa_declared(trailer, objects) <==> has_sub(legible(s), needle));
    words_are_found_wherever_they_stand(legible(s), needle);
}

proof fn lemma_pdfa_names()
    ensures
        crate::names::ROOT@ == "Root".spec_bytes(),
        crate::names::METADATA@ == "Metadata".spec_bytes(),
        crate::words::PDFA_PART@ == "pdfaid:part".spec_bytes(),
{
    names_spelled_1();
    names_spelled_3();
    crate::words::words_spelled_2();
}

/// What a stream decodes to, or its payload where it cannot be decoded.
pub open spec fn legible(s: StreamValue) -> Seq<u8> {
    match readable(s) {
        Some(data) => data,
        None => s.content,
    }
}

/// The word stands somewhere in the text.
pub open spec fn stands_in(text: Seq<u8>, word: Seq<u8>) -> bool {
    exists|i: int|
        0 <= i && i + word.len() <= text.len() && #[trigger] text.subrange(i, i + word.len())
            == word
}

/// A word is found wherever it stands, and not where it does not.
pub proof fn words_are_found_wherever_they_stand(text: Seq<u8>, word: Seq<u8>)
    ensures
        has_sub(text, word) <==> stands_in(text, word),
{
    lemma_find_from(text, word, 0);
    if has_sub(text, word) {
        let i = find_from(text, word, 0)->0;
        assert(text.subrange(i, i + word.len()) == word);
    }
    if stands_in(text, word) {
        let i = choose|i: int|
            0 <= i && i + word.len() <= text.len() && #[trigger] text.subrange(i, i + word.len())
                == word;
        assert(occurs_at(text, word, i));
        lemma_find_from_first(text, word, 0, i);
    }
}

/// A document keeps its streams where it is encrypted, where it is signed and
/// where it claims PDF/A, each alone, and nowhere else.
pub proof fn streams_are_locked_for_each_reason(doc: DocumentValue)
    ensures
        encrypted_value(doc.trailer, doc.objects) ==> streams_locked(doc),
        is_signed(doc.trailer, doc.objects) ==> streams_locked(doc),
        pdfa_declared(doc.trailer, doc.objects) ==> streams_locked(doc),
        streams_locked(doc) && !encrypted_value(doc.trailer, doc.objects) && !is_signed(
            doc.trailer,
            doc.objects,
        ) ==> pdfa_declared(doc.trailer, doc.objects),
{
}

} // verus!
