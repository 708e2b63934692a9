//! The page tree, told apart before it is walked.
//!
//! lopdf adds up the pages that the nodes of the tree claim and reserves room
//! for them. The tree is walked only where no list of kids claims many more
//! pages than there are objects.

use crate::lookup::{dict_at, get_dict, is_name, resolve, resolved};
use crate::names::{COUNT, KIDS, PAGES, TYPE};
use crate::object::{dict_get, object_view, values, DocumentValue, ObjectId, Pdf, PdfObject, Value};
use crate::pdf::{pages, pages_of};
use vstd::prelude::*;

verus! {

/// How many pages a kid claims: what a node counts, and one for anything else.
pub open spec fn claimed(objects: Seq<(ObjectId, Value)>, kid: Value) -> nat {
    match kid {
        Value::Reference(id) => match dict_at(objects, id) {
            Some(d) => if dict_get(d, TYPE@) != Some(Value::Name(PAGES@)) {
                1
            } else {
                match dict_get(d, COUNT@) {
                    Some(v) => match resolved(objects, v) {
                        Value::Integer(i) => if i > 0 {
                            i as nat
                        } else {
                            0
                        },
                        _ => 0,
                    },
                    None => 0,
                }
            },
            None => 1,
        },
        _ => 1,
    }
}

/// How many pages the first `n` kids claim.
pub open spec fn claimed_by(objects: Seq<(ObjectId, Value)>, kids: Seq<Value>, n: int) -> nat
    decreases n,
{
    if n <= 0 {
        0
    } else {
        claimed_by(objects, kids, n - 1) + claimed(objects, kids[n - 1])
    }
}

/// How many more pages than there are objects a list of kids may claim. Room
/// for that many is always there; a node may count wrong.
pub const SPARE_PAGES: usize = 0x1_0000;

/// The kids of an object do not claim too many pages.
pub open spec fn node_fits(objects: Seq<(ObjectId, Value)>, v: Value) -> bool {
    match v {
        Value::Dictionary(d) => match dict_get(d, KIDS@) {
            Some(k) => match resolved(objects, k) {
                Value::Array(kids) => claimed_by(objects, kids, kids.len() as int)
                    <= objects.len() + SPARE_PAGES,
                _ => true,
            },
            None => true,
        },
        _ => true,
    }
}

/// No list of kids claims too many pages.
pub open spec fn tree_fits(doc: DocumentValue) -> bool {
    forall|i: int| 0 <= i < doc.objects.len() ==> node_fits(doc.objects, (#[trigger] doc.objects[i]).1)
}

/// The pages of a document, where its page tree can be walked.
pub open spec fn known_pages(doc: DocumentValue) -> Seq<ObjectId> {
    if tree_fits(doc) {
        pages_of(doc)
    } else {
        Seq::empty()
    }
}

/// How many pages a kid claims.
fn read_claim(doc: &Pdf, kid: &PdfObject) -> (r: u64)
    requires
        doc.wf(),
    ensures
        r == claimed(doc@.objects, kid@),
{
    let (type_key, pages_name, count_key): ([u8; 4], [u8; 5], [u8; 5]) = (TYPE, PAGES, COUNT);
    match kid {
        PdfObject::Reference(id) => match get_dict(doc, *id) {
            Some(d) => if !is_name(d.get(type_key.as_slice()), pages_name.as_slice()) {
                1
            } else {
                match d.get(count_key.as_slice()) {
                    Some(v) => match resolve(doc, v) {
                        PdfObject::Integer(i) => if *i > 0 {
                            *i as u64
                        } else {
                            0
                        },
                        _ => 0,
                    },
                    None => 0,
                }
            },
            None => 1,
        },
        _ => 1,
    }
}

proof fn lemma_claims_grow(objects: Seq<(ObjectId, Value)>, kids: Seq<Value>, a: int, b: int)
    requires
        a <= b,
    ensures
        claimed_by(objects, kids, a) <= claimed_by(objects, kids, b),
    decreases b - a,
{
    if a < b {
        lemma_claims_grow(objects, kids, a, b - 1);
    }
}

/// Whether kids claim no more than `limit` pages.
fn check_kids(doc: &Pdf, kids: &Vec<PdfObject>, limit: u128) -> (r: bool)
    requires
        doc.wf(),
    ensures
        r == (claimed_by(doc@.objects, values(kids@), kids@.len() as int) <= limit),
{
    let ghost list = values(kids@);
    let mut sum: u128 = 0;
    let mut i: usize = 0;
    while i < kids.len()
        invariant
            i <= kids@.len(),
            doc.wf(),
            list == values(kids@),
            sum == claimed_by(doc@.objects, list, i as int),
            sum <= limit,
        decreases kids@.len() - i,
    {
        proof {
            assert(list[i as int] == object_view(kids@[i as int]));
            lemma_claims_grow(doc@.objects, list, i + 1, kids@.len() as int);
        }
        let claim: u128 = read_claim(doc, &kids[i]) as u128;
        if claim > limit - sum {
            return false;
        }
        sum += claim;
        i += 1;
    }
    true
}

/// Whether the kids of an object do not claim too many pages.
fn check_node(doc: &Pdf, o: &PdfObject) -> (r: bool)
    requires
        doc.wf(),
    ensures
        r == node_fits(doc@.objects, o@),
{
    let key: [u8; 4] = KIDS;
    let limit: u128 = doc.objects.len() as u128 + SPARE_PAGES as u128;
    match o {
        PdfObject::Dictionary(d) => match d.get(key.as_slice()) {
            Some(k) => {
                let target = resolve(doc, k);
                match target {
                    PdfObject::Array(kids) => {
                        proof {
                            assert(target@->Array_0 =~= values(kids@));
                            assert(values(kids@).len() == kids@.len());
                        }
                        check_kids(doc, kids, limit)
                    },
                    _ => true,
                }
            },
            None => true,
        },
        _ => true,
    }
}

/// Whether the page tree can be walked.
pub fn can_walk(doc: &Pdf) -> (r: bool)
    requires
        doc.wf(),
    ensures
        r == tree_fits(doc@),
{
    let ghost objects = doc@.objects;
    let mut i: usize = 0;
    while i < doc.objects.len()
        invariant
            i <= doc.objects@.len(),
            doc.wf(),
            objects == doc@.objects,
            objects.len() == doc.objects@.len(),
            forall|k: int| 0 <= k < i ==> node_fits(objects, (#[trigger] objects[k]).1),
        decreases doc.objects@.len() - i,
    {
        proof {
            assert(objects[i as int].1 == object_view(doc.objects@[i as int].object));
        }
        if !check_node(doc, &doc.objects[i].object) {
            proof {
                assert(!node_fits(objects, objects[i as int].1));
            }
            return false;
        }
        i += 1;
    }
    true
}

/// The pages of a document, where its page tree can be walked.
pub fn list_pages(doc: &Pdf) -> (r: Vec<ObjectId>)
    requires
        doc.wf(),
    ensures
        r@ == known_pages(doc@),
{
    if can_walk(doc) {
        pages(doc)
    } else {
        Vec::new()
    }
}

} // verus!
