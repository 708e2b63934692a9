//! What passes over a whole document leave as it is.

use crate::finish::{compressed, compressed_stream, redeflatable, tidy_trailer};
use crate::flate::zlib_level9;
use crate::gray_laws::set_key_is_there;
use crate::laws::{keys_distinct, removed_key_is_gone};
use crate::lookup::{filter_class, lemma_follow, lookup_index, FilterClass};
use crate::names::{
    names_spelled_1, names_spelled_2, names_spelled_3, DECODE_PARMS, FILTER, FLATE_DECODE, LENGTH,
    PREV, XREF_STM,
};
use crate::object::{
    dict_get, dict_has, dict_remove, dict_set, object_index, DocumentValue, ObjectId, StreamValue,
    Value,
};
use crate::pipeline::{smaller, without_structure};
use crate::store::length_value;
use vstd::prelude::*;
use vstd::string::StringSliceAdditionalSpecFns;

verus! {

/// Tidying a trailer takes out what described the cross-reference section of
/// the input, by name, and nothing else.
pub proof fn tidy_trailer_keeps_the_rest(t: Seq<(Seq<u8>, Value)>, key: Seq<u8>)
    requires
        keys_distinct(t),
    ensures
        ({
            let gone = key == "DecodeParms".spec_bytes() || key == "Filter".spec_bytes() || key
                == "Prev".spec_bytes() || key == "XRefStm".spec_bytes() || key
                == "Length".spec_bytes();
            &&& gone ==> dict_get(tidy_trailer(t), key) is None
            &&& !gone ==> dict_get(tidy_trailer(t), key) == dict_get(t, key)
        }),
{
    names_spelled_1();
    names_spelled_2();
    names_spelled_3();
    let a = dict_remove(t, DECODE_PARMS@);
    let b = dict_remove(a, FILTER@);
    let c = dict_remove(b, PREV@);
    let d = dict_remove(c, XREF_STM@);
    removed_key_is_gone(t, DECODE_PARMS@, key);
    removed_key_is_gone(a, FILTER@, key);
    removed_key_is_gone(b, PREV@, key);
    removed_key_is_gone(c, XREF_STM@, key);
    removed_key_is_gone(d, LENGTH@, key);
}

/// A stream that is compressed holds its payload deflated and says so; it is
/// smaller even with the entry that says so, and no other entry changes. A
/// stream with a filter, or one that must stay readable, is left as it is.
pub proof fn compressed_stream_says_so(s: StreamValue, other: Seq<u8>)
    requires
        keys_distinct(s.dict),
    ensures
        ({
            let t = compressed_stream(s);
            let entry = "/Filter/FlateDecode".spec_bytes();
            &&& t == s || {
                &&& zlib_level9(s.content) == Some(t.content)
                &&& t.content.len() + entry.len() < s.content.len()
                &&& dict_get(t.dict, "Filter".spec_bytes()) == Some(
                    Value::Name("FlateDecode".spec_bytes()),
                )
                &&& other != "Filter".spec_bytes() && other != "Length".spec_bytes() ==> dict_get(
                    t.dict,
                    other,
                ) == dict_get(s.dict, other)
            }
            &&& dict_has(s.dict, "Filter".spec_bytes()) || !s.compressible ==> t == s
            &&& !dict_has(s.dict, "Filter".spec_bytes()) && s.compressible && zlib_level9(
                s.content,
            ) is Some && (zlib_level9(s.content)->0).len() + entry.len() < s.content.len() ==> t
                != s
        }),
{
    names_spelled_1();
    names_spelled_2();
    reveal_strlit("/Filter/FlateDecode");
    assert("/Filter/FlateDecode".is_ascii());
    assert("/Filter/FlateDecode".spec_bytes().len() == 19);
    let flate = Value::Name(FLATE_DECODE@);
    let d = dict_set(s.dict, FILTER@, flate);
    set_key_is_there(s.dict, FILTER@, flate, other);
    let t = compressed_stream(s);
    if t != s {
        let len = length_value(t.content.len());
        set_key_is_there(d, LENGTH@, len, other);
        set_key_is_there(d, LENGTH@, len, FILTER@);
        assert(FILTER@[0] != LENGTH@[0]);
    }
}

/// Compressing a document changes no object that is not a stream, and keeps
/// all identifiers and the trailer.
pub proof fn compressing_changes_streams_alone(doc: DocumentValue, i: int)
    requires
        0 <= i < doc.objects.len(),
    ensures
        compressed(doc).objects.len() == doc.objects.len(),
        compressed(doc).objects[i].0 == doc.objects[i].0,
        !(doc.objects[i].1 is Stream) ==> compressed(doc).objects[i] == doc.objects[i],
        doc.objects[i].1 is Stream ==> compressed(doc).objects[i].1 is Stream,
        compressed(doc).trailer == doc.trailer,
{
}

/// Streams that hold objects or the cross-reference section are not deflated
/// again, nor is any whose only filter is not `FlateDecode`.
pub proof fn containers_are_not_deflated_again(
    objects: Seq<(ObjectId, Value)>,
    i: int,
    s: StreamValue,
)
    requires
        0 <= i < objects.len(),
        objects[i].1 == Value::Stream(s),
    ensures
        dict_get(s.dict, "Type".spec_bytes()) == Some(Value::Name("ObjStm".spec_bytes()))
            || dict_get(s.dict, "Type".spec_bytes()) == Some(Value::Name("XRef".spec_bytes()))
            ==> !redeflatable(objects, i),
        dict_get(s.dict, "Filter".spec_bytes()) is None ==> !redeflatable(objects, i),
        redeflatable(objects, i) ==> filter_class(
            objects,
            dict_get(s.dict, "Filter".spec_bytes())->0,
        ) == FilterClass::FlateOnly,
        dict_get(s.dict, "Type".spec_bytes()) is None && dict_get(s.dict, "Filter".spec_bytes())
            == Some(Value::Name("FlateDecode".spec_bytes())) ==> redeflatable(objects, i),
{
    names_spelled_1();
    names_spelled_2();
    crate::finding::filters_are_known_by_name("FlateDecode".spec_bytes());
}

/// Taking out the structure changes the catalog alone, to which the trailer's
/// `/Root` leads: it loses the structure tree, the marking and the language.
pub proof fn stripping_changes_the_catalog_alone(
    doc: DocumentValue,
    root: ObjectId,
    k: int,
    key: Seq<u8>,
)
    requires
        dict_get(doc.trailer, "Root".spec_bytes()) == Some(Value::Reference(root)),
        0 <= k < doc.objects.len(),
        doc.objects[k].1 is Dictionary ==> keys_distinct(doc.objects[k].1->Dictionary_0),
    ensures
        without_structure(doc).objects.len() == doc.objects.len(),
        without_structure(doc).trailer == doc.trailer,
        without_structure(doc).objects[k].0 == doc.objects[k].0,
        lookup_index(doc.objects, root) != Some(k) ==> without_structure(doc).objects[k]
            == doc.objects[k],
        lookup_index(doc.objects, root) == Some(k) && doc.objects[k].1 is Dictionary ==> {
            let old = doc.objects[k].1->Dictionary_0;
            let new = without_structure(doc).objects[k].1->Dictionary_0;
            let gone = key == "StructTreeRoot".spec_bytes() || key == "MarkInfo".spec_bytes()
                || key == "Lang".spec_bytes();
            &&& without_structure(doc).objects[k].1 is Dictionary
            &&& gone ==> dict_get(new, key) is None
            &&& !gone ==> dict_get(new, key) == dict_get(old, key)
        },
{
    names_spelled_1();
    names_spelled_3();
    match object_index(doc.objects, root) {
        Some(i) => lemma_follow(doc.objects, i, 0),
        None => {},
    }
    if lookup_index(doc.objects, root) == Some(k) && doc.objects[k].1 is Dictionary {
        crate::laws::untagged_catalog(doc.objects[k].1->Dictionary_0, key);
    }
}

/// What comes back is never larger than what came in, and is the input where
/// nothing was gained.
pub proof fn result_is_never_larger(input: Seq<u8>, rewritten: Option<Seq<u8>>)
    ensures
        smaller(input, rewritten).len() <= input.len(),
        rewritten is None ==> smaller(input, rewritten) == input,
        rewritten is Some && (rewritten->0).len() >= input.len() ==> smaller(input, rewritten)
            == input,
        rewritten is Some && (rewritten->0).len() < input.len() ==> smaller(input, rewritten)
            == rewritten->0,
{
}

} // verus!
