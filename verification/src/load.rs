//! Reading a file, which the caller does: a PDF parser recurses as deep as the
//! file tells it to and fails hard on some broken ones, which only the caller
//! can contain.

use crate::object::{DocumentValue, Pdf};
use vstd::prelude::*;

verus! {

/// The content of an optional document.
pub open spec fn opt_document(r: Option<Pdf>) -> Option<DocumentValue> {
    match r {
        Some(doc) => Some(doc@),
        None => None,
    }
}

/// Two reads of a file agree: both fail, or both give an encrypted document,
/// or both give the same one.
pub open spec fn same_read(a: Option<DocumentValue>, b: Option<DocumentValue>) -> bool {
    match (a, b) {
        (Some(x), Some(y)) => x.encrypted == y.encrypted && (x.encrypted || x == y),
        (None, None) => true,
        _ => false,
    }
}

/// What a reader has to be: it takes every file, gives the objects in
/// ascending order, and gives the same for the same bytes. Of an encrypted
/// document only that it is one has to be the same.
pub open spec fn loads<L: Fn(&[u8]) -> Option<Pdf>>(load: L) -> bool {
    &&& forall|d: &[u8]| #[trigger] load.requires((d,))
    &&& forall|d: &[u8], r: Option<Pdf>| #[trigger]
        load.ensures((d,), r) && r is Some ==> (r->0).wf()
    &&& forall|d: &[u8], r: Option<Pdf>, e: &[u8], q: Option<Pdf>|
        #![trigger load.ensures((d,), r), load.ensures((e,), q)]
        load.ensures((d,), r) && load.ensures((e,), q) && d@ == e@ ==> same_read(
            opt_document(r),
            opt_document(q),
        )
}

/// The reader may give `r` for the file.
pub open spec fn may_load<L: Fn(&[u8]) -> Option<Pdf>>(
    load: L,
    file: Seq<u8>,
    r: Option<Pdf>,
) -> bool {
    exists|d: &[u8]| d@ == file && #[trigger] load.ensures((d,), r)
}

/// The document that the reader makes of a file; `None` where it refuses it.
pub open spec fn loaded<L: Fn(&[u8]) -> Option<Pdf>>(load: L, file: Seq<u8>) -> Option<
    DocumentValue,
> {
    opt_document(choose|r: Option<Pdf>| may_load(load, file, r))
}

/// Reads a file.
pub fn load_file<L: Fn(&[u8]) -> Option<Pdf>>(load: &L, file: &[u8]) -> (r: Option<Pdf>)
    requires
        loads(*load),
    ensures
        same_read(loaded(*load, file@), opt_document(r)),
        r is Some ==> (r->0).wf(),
{
    let r = load(file);
    proof {
        assert(load.ensures((file,), r));
        assert(may_load(*load, file@, r));
        let q = choose|q: Option<Pdf>| may_load(*load, file@, q);
        assert(may_load(*load, file@, q));
    }
    r
}

} // verus!
