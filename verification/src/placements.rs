//! Where images are painted: the state machine that walks the content of
//! every page and keeps track of the current transformation.
//!
//! A transformation is kept as what made it, the chain of `cm` operators, so
//! that whoever can compute with real numbers finds everything there.

use crate::bytes::same_bytes;
use crate::lookup::{
    joined_content, name_views, page_content, page_content_ids, page_image_names, page_names,
};
use crate::object::{copy_object, object_view, values, ObjectId, Pdf, PdfObject, Value};
use crate::inline::{known_operations, read_operations};
use crate::pdf::{
    operation_views, ContentOp, OperationValue,
};
use crate::tree::{known_pages, list_pages};
use vstd::prelude::*;

verus! {

/// A transformation: the six operands of a `cm` operator, applied before the
/// transformation `parent`. The first of all is the identity; its parent is
/// itself.
pub struct Matrix {
    pub parent: usize,
    pub operands: Vec<PdfObject>,
}

/// The content of a [`Matrix`].
pub struct MatrixValue {
    pub parent: int,
    pub operands: Seq<Value>,
}

impl View for Matrix {
    type V = MatrixValue;

    open spec fn view(&self) -> MatrixValue {
        MatrixValue { parent: self.parent as int, operands: values(self.operands@) }
    }
}

/// An image and the transformation under which it is painted.
#[derive(Clone, Copy)]
pub struct Paint {
    pub image: ObjectId,
    pub matrix: usize,
}

/// All transformations and all painted images of a document.
pub struct Placements {
    pub matrices: Vec<Matrix>,
    pub paints: Vec<Paint>,
}

/// The content of [`Placements`].
pub struct PlacementsValue {
    pub matrices: Seq<MatrixValue>,
    pub paints: Seq<(ObjectId, int)>,
}

/// The contents of a list of transformations.
pub open spec fn matrix_views(list: Seq<Matrix>) -> Seq<MatrixValue> {
    list.map_values(|m: Matrix| m@)
}

/// The contents of a list of painted images.
pub open spec fn paint_views(list: Seq<Paint>) -> Seq<(ObjectId, int)> {
    list.map_values(|p: Paint| (p.image, p.matrix as int))
}

impl View for Placements {
    type V = PlacementsValue;

    open spec fn view(&self) -> PlacementsValue {
        PlacementsValue {
            matrices: matrix_views(self.matrices@),
            paints: paint_views(self.paints@),
        }
    }
}

/// Every transformation but the first comes after its parent, and every image
/// is painted under one that is there.
pub open spec fn placements_ok(p: PlacementsValue) -> bool {
    &&& p.matrices.len() > 0
    &&& forall|i: int|
        0 <= i < p.matrices.len() ==> 0 <= (#[trigger] p.matrices[i]).parent <= i && (i > 0
            ==> p.matrices[i].parent < i && p.matrices[i].operands.len() == 6)
    &&& forall|i: int|
        0 <= i < p.paints.len() ==> 0 <= (#[trigger] p.paints[i]).1 < p.matrices.len()
}

/// Nothing painted; only the identity.
pub open spec fn no_placements() -> PlacementsValue {
    PlacementsValue {
        matrices: seq![MatrixValue { parent: 0, operands: Seq::empty() }],
        paints: Seq::empty(),
    }
}

/// The state while walking a page: what was found so far, the current
/// transformation, and those that were saved.
pub struct WalkValue {
    pub found: PlacementsValue,
    pub current: int,
    pub saved: Seq<int>,
}

/// The object that `name` stands for.
pub open spec fn named(names: Seq<(Seq<u8>, ObjectId)>, name: Seq<u8>, i: int) -> Option<ObjectId>
    decreases names.len() - i,
{
    if i < 0 || i >= names.len() {
        None
    } else if names[i].0 == name {
        Some(names[i].1)
    } else {
        named(names, name, i + 1)
    }
}

/// The operators that matter: `q`, `Q`, `cm` and `Do`.
pub open spec fn op_save() -> Seq<u8> {
    seq![0x71u8]
}

pub open spec fn op_restore() -> Seq<u8> {
    seq![0x51u8]
}

pub open spec fn op_concat() -> Seq<u8> {
    seq![0x63u8, 0x6D]
}

pub open spec fn op_paint() -> Seq<u8> {
    seq![0x44u8, 0x6F]
}

/// The state after one operation.
pub open spec fn walked(
    s: WalkValue,
    names: Seq<(Seq<u8>, ObjectId)>,
    op: OperationValue,
) -> WalkValue {
    if op.operator == op_save() {
        WalkValue { saved: s.saved.push(s.current), ..s }
    } else if op.operator == op_restore() {
        if s.saved.len() > 0 {
            WalkValue { current: s.saved.last(), saved: s.saved.drop_last(), ..s }
        } else {
            s
        }
    } else if op.operator == op_concat() && op.operands.len() == 6 {
        WalkValue {
            found: PlacementsValue {
                matrices: s.found.matrices.push(
                    MatrixValue { parent: s.current, operands: op.operands },
                ),
                ..s.found
            },
            current: s.found.matrices.len() as int,
            ..s
        }
    } else if op.operator == op_paint() && op.operands.len() > 0 {
        match op.operands[0] {
            Value::Name(n) => match named(names, n, 0) {
                Some(id) => WalkValue {
                    found: PlacementsValue {
                        paints: s.found.paints.push((id, s.current)),
                        ..s.found
                    },
                    ..s
                },
                None => s,
            },
            _ => s,
        }
    } else {
        s
    }
}

/// The state after the first `n` operations.
pub open spec fn walked_upto(
    s: WalkValue,
    names: Seq<(Seq<u8>, ObjectId)>,
    ops: Seq<OperationValue>,
    n: int,
) -> WalkValue
    decreases n,
{
    if n <= 0 {
        s
    } else {
        walked(walked_upto(s, names, ops, n - 1), names, ops[n - 1])
    }
}

/// What is found once a page is walked. A page without named objects, or
/// whose content cannot be read, adds nothing.
pub open spec fn with_page(
    found: PlacementsValue,
    objects: Seq<(ObjectId, Value)>,
    page: ObjectId,
) -> PlacementsValue {
    let names = page_names(objects, page);
    let ids = page_content_ids(objects, page);
    if names.len() == 0 {
        found
    } else {
        match known_operations(joined_content(objects, ids, ids.len() as int)) {
            Some(ops) => walked_upto(
                WalkValue { found, current: 0, saved: Seq::empty() },
                names,
                ops,
                ops.len() as int,
            ).found,
            None => found,
        }
    }
}

/// What is found in the first `n` pages.
pub open spec fn pages_walked(
    objects: Seq<(ObjectId, Value)>,
    list: Seq<ObjectId>,
    n: int,
) -> PlacementsValue
    decreases n,
{
    if n <= 0 {
        no_placements()
    } else {
        with_page(pages_walked(objects, list, n - 1), objects, list[n - 1])
    }
}

/// The state while walking a page.
struct Walk {
    found: Placements,
    current: usize,
    saved: Vec<usize>,
}

impl View for Walk {
    type V = WalkValue;

    closed spec fn view(&self) -> WalkValue {
        WalkValue {
            found: self.found@,
            current: self.current as int,
            saved: self.saved@.map_values(|i: usize| i as int),
        }
    }
}

spec fn walk_ok(w: WalkValue) -> bool {
    &&& placements_ok(w.found)
    &&& 0 <= w.current < w.found.matrices.len()
    &&& forall|i: int| 0 <= i < w.saved.len() ==> 0 <= (#[trigger] w.saved[i]) < w.found.matrices.len()
}

/// Finds the object that `name` stands for.
fn find_named(names: &Vec<(Vec<u8>, ObjectId)>, name: &[u8]) -> (r: Option<ObjectId>)
    ensures
        r == named(name_views(names@), name@, 0),
{
    let ghost list = name_views(names@);
    let mut i: usize = 0;
    while i < names.len()
        invariant
            i <= names@.len(),
            list == name_views(names@),
            named(list, name@, 0) == named(list, name@, i as int),
        decreases names@.len() - i,
    {
        proof {
            assert(list[i as int] == (names@[i as int].0@, names@[i as int].1));
        }
        if same_bytes(names[i].0.as_slice(), name) {
            return Some(names[i].1);
        }
        i += 1;
    }
    None
}

/// Copies a list of objects.
fn copy_objects(items: &Vec<PdfObject>) -> (r: Vec<PdfObject>)
    ensures
        values(r@) == values(items@),
        r@.len() == items@.len(),
{
    let mut out: Vec<PdfObject> = Vec::new();
    let mut i: usize = 0;
    while i < items.len()
        invariant
            i <= items@.len(),
            out@.len() == i,
            forall|k: int| 0 <= k < i ==> object_view(#[trigger] out@[k]) == object_view(items@[k]),
        decreases items@.len() - i,
    {
        out.push(copy_object(&items[i]));
        i += 1;
    }
    proof {
        assert(values(out@) =~= values(items@));
    }
    out
}

fn is_op(o: &Vec<u8>, a: u8) -> (r: bool)
    ensures
        r == (o@ == seq![a]),
{
    let r = o.len() == 1 && o[0] == a;
    proof {
        if r {
            assert(o@ =~= seq![a]);
        }
    }
    r
}

fn is_op2(o: &Vec<u8>, a: u8, b: u8) -> (r: bool)
    ensures
        r == (o@ == seq![a, b]),
{
    let r = o.len() == 2 && o[0] == a && o[1] == b;
    proof {
        if r {
            assert(o@ =~= seq![a, b]);
        }
    }
    r
}

/// Performs one operation.
fn walk_one(w: Walk, names: &Vec<(Vec<u8>, ObjectId)>, op: &ContentOp) -> (r: Walk)
    requires
        walk_ok(w@),
    ensures
        r@ == walked(w@, name_views(names@), op@),
        walk_ok(r@),
{
    let mut s = w;
    let ghost before = w@;
    proof {
        assert(op@.operands.len() == op.operands@.len());
        assert(seq![0x71u8] =~= op_save());
    }
    if is_op(&op.operator, 0x71) {
        s.saved.push(s.current);
        proof {
            assert(s@.saved =~= before.saved.push(before.current));
        }
        return s;
    }
    if is_op(&op.operator, 0x51) {
        match s.saved.pop() {
            Some(i) => {
                s.current = i;
                proof {
                    assert(before.saved.last() == i);
                    assert(s@.saved =~= before.saved.drop_last());
                }
            },
            None => {},
        }
        return s;
    }
    if is_op2(&op.operator, 0x63, 0x6D) && op.operands.len() == 6 {
        let at: usize = s.found.matrices.len();
        let parent: usize = s.current;
        let operands = copy_objects(&op.operands);
        s.found.matrices.push(Matrix { parent, operands });
        s.current = at;
        proof {
            assert(s@.found.matrices =~= before.found.matrices.push(
                MatrixValue { parent: before.current, operands: op@.operands },
            ));
        }
        return s;
    }
    if is_op2(&op.operator, 0x44, 0x6F) && op.operands.len() > 0 {
        proof {
            assert(op@.operands[0] == object_view(op.operands@[0]));
        }
        match &op.operands[0] {
            PdfObject::Name(n) => match find_named(names, n.as_slice()) {
                Some(id) => {
                    let matrix: usize = s.current;
                    s.found.paints.push(Paint { image: id, matrix });
                    proof {
                        assert(s@.found.paints =~= before.found.paints.push((id, before.current)));
                    }
                },
                None => {},
            },
            _ => {},
        }
    }
    s
}

/// Walks one page.
fn walk_page(found: Placements, doc: &Pdf, page: ObjectId) -> (r: Placements)
    requires
        doc.wf(),
        placements_ok(found@),
    ensures
        r@ == with_page(found@, doc@.objects, page),
        placements_ok(r@),
{
    let names = page_image_names(doc, page);
    proof {
        assert(name_views(names@).len() == names@.len());
    }
    if names.len() == 0 {
        return found;
    }
    let content = page_content(doc, page);
    let ops = match read_operations(content.as_slice()) {
        Some(o) => o,
        None => {
            return found;
        },
    };
    let ghost start = WalkValue { found: found@, current: 0, saved: Seq::empty() };
    let ghost list = operation_views(ops@);
    let ghost known = name_views(names@);
    let mut w = Walk { found, current: 0, saved: Vec::new() };
    proof {
        assert(w@.saved =~= Seq::empty());
    }
    let mut i: usize = 0;
    while i < ops.len()
        invariant
            i <= ops@.len(),
            list == operation_views(ops@),
            known == name_views(names@),
            walk_ok(w@),
            w@ == walked_upto(start, known, list, i as int),
        decreases ops@.len() - i,
    {
        proof {
            assert(list[i as int] == ops@[i as int]@);
        }
        w = walk_one(w, &names, &ops[i]);
        i += 1;
    }
    w.found
}

/// Every image that a document paints, and under which transformations.
pub fn collect_placements(doc: &Pdf) -> (r: Placements)
    requires
        doc.wf(),
    ensures
        r@ == pages_walked(doc@.objects, known_pages(doc@), known_pages(doc@).len() as int),
        placements_ok(r@),
{
    let list = list_pages(doc);
    let mut matrices: Vec<Matrix> = Vec::new();
    matrices.push(Matrix { parent: 0, operands: Vec::new() });
    let mut found = Placements { matrices, paints: Vec::new() };
    proof {
        assert(found@.matrices =~= no_placements().matrices) by {
            assert(found@.matrices[0].operands =~= Seq::empty());
        }
        assert(found@.paints =~= no_placements().paints);
    }
    let mut i: usize = 0;
    while i < list.len()
        invariant
            i <= list@.len(),
            doc.wf(),
            placements_ok(found@),
            found@ == pages_walked(doc@.objects, list@, i as int),
        decreases list@.len() - i,
    {
        found = walk_page(found, doc, list[i]);
        i += 1;
    }
    found
}

/// The images that are painted, each once, in the order of their first paint,
/// of the first `n` paints.
pub open spec fn painted(paints: Seq<(ObjectId, int)>, n: int) -> Seq<ObjectId>
    decreases n,
{
    if n <= 0 {
        Seq::empty()
    } else {
        let before = painted(paints, n - 1);
        if before.contains(paints[n - 1].0) {
            before
        } else {
            before.push(paints[n - 1].0)
        }
    }
}

fn has_id(list: &Vec<ObjectId>, id: ObjectId) -> (r: bool)
    ensures
        r == list@.contains(id),
{
    let mut i: usize = 0;
    while i < list.len()
        invariant
            i <= list@.len(),
            forall|k: int| 0 <= k < i ==> #[trigger] list@[k] != id,
        decreases list@.len() - i,
    {
        if list[i].0 == id.0 && list[i].1 == id.1 {
            proof {
                assert(list@[i as int] == id);
            }
            return true;
        }
        i += 1;
    }
    false
}

/// The images that are painted, each once, in the order of their first paint.
pub fn painted_images(p: &Placements) -> (r: Vec<ObjectId>)
    ensures
        r@ == painted(p@.paints, p@.paints.len() as int),
{
    let ghost list = p@.paints;
    let mut out: Vec<ObjectId> = Vec::new();
    let mut i: usize = 0;
    while i < p.paints.len()
        invariant
            i <= p.paints@.len(),
            list == p@.paints,
            out@ == painted(list, i as int),
        decreases p.paints@.len() - i,
    {
        proof {
            assert(list[i as int] == (p.paints@[i as int].image, p.paints@[i as int].matrix as int));
        }
        let id: ObjectId = p.paints[i].image;
        if !has_id(&out, id) {
            out.push(id);
        }
        i += 1;
    }
    out
}

} // verus!
