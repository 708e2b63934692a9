//! What the recorded transformations mean: where a point of an image comes to
//! stand on the page.

use crate::object::{ObjectId, Value};
use crate::placements::{
    no_placements, placements_ok, walked, walked_upto, MatrixValue, PlacementsValue, WalkValue,
};
use crate::pdf::OperationValue;
use vstd::prelude::*;
use vstd::string::StringSliceAdditionalSpecFns;

verus! {

/// Where the six numbers of a `cm` operator put a point: `a` and `b` are the
/// image of the first unit vector, `c` and `d` that of the second, and `e` and
/// `f` that of the origin. `num` tells what number an operand is.
pub open spec fn transformed(
    num: spec_fn(Value) -> int,
    m: Seq<Value>,
    p: (int, int),
) -> (int, int) {
    (
        num(m[0]) * p.0 + num(m[2]) * p.1 + num(m[4]),
        num(m[1]) * p.0 + num(m[3]) * p.1 + num(m[5]),
    )
}

/// Where transformation `i` puts a point: through its own numbers, and then
/// through the transformation before which it is applied.
pub open spec fn on_page(
    num: spec_fn(Value) -> int,
    matrices: Seq<MatrixValue>,
    i: int,
    p: (int, int),
) -> (int, int)
    decreases i,
{
    if i <= 0 || i >= matrices.len() || !(0 <= matrices[i].parent < i) {
        p
    } else {
        on_page(num, matrices, matrices[i].parent, transformed(num, matrices[i].operands, p))
    }
}

/// The state speaks of transformations that are there.
pub open spec fn state_ok(s: WalkValue) -> bool {
    &&& placements_ok(s.found)
    &&& 0 <= s.current < s.found.matrices.len()
    &&& forall|i: int|
        0 <= i < s.saved.len() ==> 0 <= (#[trigger] s.saved[i]) < s.found.matrices.len()
}

proof fn lemma_operators()
    ensures
        "q".spec_bytes() == seq![0x71u8],
        "Q".spec_bytes() == seq![0x51u8],
        "cm".spec_bytes() == seq![0x63u8, 0x6D],
        "Do".spec_bytes() == seq![0x44u8, 0x6F],
        "q".spec_bytes() != "Q".spec_bytes(),
        "cm".spec_bytes() != "Do".spec_bytes(),
{
    reveal_strlit("q");
    reveal_strlit("Q");
    reveal_strlit("cm");
    reveal_strlit("Do");
    assert("q".is_ascii() && "Q".is_ascii() && "cm".is_ascii() && "Do".is_ascii());
    assert("q".spec_bytes() =~= seq![0x71u8]);
    assert("Q".spec_bytes() =~= seq![0x51u8]);
    assert("cm".spec_bytes() =~= seq![0x63u8, 0x6D]);
    assert("Do".spec_bytes() =~= seq![0x44u8, 0x6F]);
    assert("q".spec_bytes()[0] != "Q".spec_bytes()[0]);
    assert("cm".spec_bytes()[0] != "Do".spec_bytes()[0]);
}

/// More transformations move no point of those that were there.
proof fn lemma_on_page_stays(
    num: spec_fn(Value) -> int,
    a: Seq<MatrixValue>,
    b: Seq<MatrixValue>,
    i: int,
    p: (int, int),
)
    requires
        0 <= i < a.len() <= b.len(),
        forall|k: int| 0 <= k < a.len() ==> a[k] == b[k],
    ensures
        on_page(num, a, i, p) == on_page(num, b, i, p),
    decreases i,
{
    assert(a[i] == b[i]);
    if i > 0 && 0 <= a[i].parent < i {
        lemma_on_page_stays(num, a, b, a[i].parent, transformed(num, a[i].operands, p));
    }
}

/// An operation keeps the state in order, and keeps everything that was
/// found.
pub proof fn walking_keeps_what_was_found(
    s: WalkValue,
    names: Seq<(Seq<u8>, ObjectId)>,
    op: OperationValue,
)
    requires
        state_ok(s),
    ensures
        ({
            let t = walked(s, names, op);
            &&& state_ok(t)
            &&& s.found.matrices.len() <= t.found.matrices.len()
            &&& forall|i: int|
                0 <= i < s.found.matrices.len() ==> #[trigger] t.found.matrices[i]
                    == s.found.matrices[i]
            &&& s.found.paints.len() <= t.found.paints.len()
            &&& forall|i: int|
                0 <= i < s.found.paints.len() ==> #[trigger] t.found.paints[i]
                    == s.found.paints[i]
        }),
{
}

/// After a `cm`, a point goes through the operator's numbers first and then
/// through the transformation that was current, wherever those before it
/// stand. Nothing is painted, and nothing that was saved changes.
pub proof fn concatenation_comes_before_the_current(
    s: WalkValue,
    names: Seq<(Seq<u8>, ObjectId)>,
    op: OperationValue,
    num: spec_fn(Value) -> int,
    p: (int, int),
)
    requires
        state_ok(s),
        op.operator == "cm".spec_bytes(),
        op.operands.len() == 6,
    ensures
        ({
            let t = walked(s, names, op);
            &&& on_page(num, t.found.matrices, t.current, p) == on_page(
                num,
                s.found.matrices,
                s.current,
                transformed(num, op.operands, p),
            )
            &&& t.saved == s.saved
            &&& t.found.paints == s.found.paints
        }),
{
    lemma_operators();
    let t = walked(s, names, op);
    let n = s.found.matrices.len() as int;
    assert(t.found.matrices[n].operands == op.operands);
    lemma_on_page_stays(
        num,
        s.found.matrices,
        t.found.matrices,
        s.current,
        transformed(num, op.operands, p),
    );
}

/// Two `cm` operators in a row and a `Do`: the image is painted once, and its
/// points go through the second, then the first, then what was current.
pub proof fn nested_concatenations_multiply(
    s: WalkValue,
    names: Seq<(Seq<u8>, ObjectId)>,
    ops: Seq<OperationValue>,
    i: int,
    num: spec_fn(Value) -> int,
    p: (int, int),
)
    requires
        state_ok(s),
        ops.len() == 3,
        ops[0].operator == "cm".spec_bytes() && ops[0].operands.len() == 6,
        ops[1].operator == "cm".spec_bytes() && ops[1].operands.len() == 6,
        ops[2].operator == "Do".spec_bytes() && ops[2].operands.len() > 0,
        0 <= i < names.len(),
        ops[2].operands[0] == Value::Name(names[i].0),
        forall|j: int| 0 <= j < i ==> (#[trigger] names[j]).0 != names[i].0,
    ensures
        ({
            let t = walked_upto(s, names, ops, 3);
            let painted = t.found.paints.last();
            &&& t.found.paints.len() == s.found.paints.len() + 1
            &&& painted.0 == names[i].1
            &&& on_page(num, t.found.matrices, painted.1, p) == on_page(
                num,
                s.found.matrices,
                s.current,
                transformed(num, ops[0].operands, transformed(num, ops[1].operands, p)),
            )
        }),
{
    reveal_with_fuel(walked_upto, 4);
    let a = walked(s, names, ops[0]);
    let b = walked(a, names, ops[1]);
    walking_keeps_what_was_found(s, names, ops[0]);
    walking_keeps_what_was_found(a, names, ops[1]);
    concatenation_comes_before_the_current(
        s,
        names,
        ops[0],
        num,
        transformed(num, ops[1].operands, p),
    );
    concatenation_comes_before_the_current(a, names, ops[1], num, p);
    painting_uses_the_current(b, names, ops[2], i);
}

proof fn lemma_named(names: Seq<(Seq<u8>, ObjectId)>, i: int, j: int)
    requires
        0 <= j <= i < names.len(),
        forall|k: int| j <= k < i ==> (#[trigger] names[k]).0 != names[i].0,
    ensures
        crate::placements::named(names, names[i].0, j) == Some(names[i].1),
    decreases i - j,
{
    if j < i {
        lemma_named(names, i, j + 1);
    }
}

proof fn lemma_unnamed(names: Seq<(Seq<u8>, ObjectId)>, n: Seq<u8>, j: int)
    requires
        0 <= j,
        forall|k: int| j <= k < names.len() ==> (#[trigger] names[k]).0 != n,
    ensures
        crate::placements::named(names, n, j) is None,
    decreases names.len() - j,
{
    if j < names.len() {
        lemma_unnamed(names, n, j + 1);
    }
}

/// A `Do` paints the object that its name stands for, under the current
/// transformation, and changes nothing else.
pub proof fn painting_uses_the_current(
    s: WalkValue,
    names: Seq<(Seq<u8>, ObjectId)>,
    op: OperationValue,
    i: int,
)
    requires
        op.operator == "Do".spec_bytes(),
        op.operands.len() > 0,
        0 <= i < names.len(),
        op.operands[0] == Value::Name(names[i].0),
        forall|j: int| 0 <= j < i ==> (#[trigger] names[j]).0 != names[i].0,
    ensures
        ({
            let t = walked(s, names, op);
            &&& t.found.paints == s.found.paints.push((names[i].1, s.current))
            &&& t.found.matrices == s.found.matrices
            &&& t.current == s.current && t.saved == s.saved
        }),
{
    lemma_operators();
    lemma_named(names, i, 0);
}

/// Whatever is not `q`, `Q`, a `cm` of six operands, or a `Do` of a name that
/// stands for something changes nothing.
pub proof fn other_operators_change_nothing(
    s: WalkValue,
    names: Seq<(Seq<u8>, ObjectId)>,
    op: OperationValue,
)
    requires
        op.operator != "q".spec_bytes(),
        op.operator != "Q".spec_bytes(),
        op.operator != "cm".spec_bytes() || op.operands.len() != 6,
        op.operator != "Do".spec_bytes() || op.operands.len() == 0 || !(op.operands[0] is Name)
            || forall|j: int|
            0 <= j < names.len() ==> Value::Name((#[trigger] names[j]).0) != op.operands[0],
    ensures
        walked(s, names, op) == s,
{
    lemma_operators();
    if op.operator == "Do".spec_bytes() && op.operands.len() > 0 && op.operands[0] is Name {
        let n = op.operands[0]->Name_0;
        assert forall|k: int| 0 <= k < names.len() implies (#[trigger] names[k]).0 != n by {
            assert(Value::Name(names[k].0) != op.operands[0]);
        }
        lemma_unnamed(names, n, 0);
    }
}

/// How many `q` more than `Q` stand among the operations from `a` up to `b`.
pub open spec fn open_between(ops: Seq<OperationValue>, a: int, b: int) -> int
    decreases b - a,
{
    if b <= a {
        0
    } else {
        open_between(ops, a, b - 1) + (if ops[b - 1].operator == "q".spec_bytes() {
            1int
        } else if ops[b - 1].operator == "Q".spec_bytes() {
            -1
        } else {
            0
        })
    }
}

proof fn lemma_saved_below(
    s: WalkValue,
    names: Seq<(Seq<u8>, ObjectId)>,
    ops: Seq<OperationValue>,
    a: int,
    t: int,
)
    requires
        0 <= a < t <= ops.len(),
        ops[a].operator == "q".spec_bytes(),
        forall|k: int| a < k <= t ==> #[trigger] open_between(ops, a, k) >= 1,
    ensures
        ({
            let x = walked_upto(s, names, ops, a);
            let y = walked_upto(s, names, ops, t);
            &&& y.saved.len() == x.saved.len() + open_between(ops, a, t)
            &&& y.saved.take(x.saved.len() as int + 1) == x.saved.push(x.current)
        }),
    decreases t,
{
    lemma_operators();
    let x = walked_upto(s, names, ops, a);
    let y = walked_upto(s, names, ops, t);
    assert(open_between(ops, a, a) == 0);
    if t == a + 1 {
        assert(y == walked(x, names, ops[a]));
        assert(open_between(ops, a, t) == 1);
        assert(y.saved.take(x.saved.len() as int + 1) =~= x.saved.push(x.current));
    } else {
        lemma_saved_below(s, names, ops, a, t - 1);
        let z = walked_upto(s, names, ops, t - 1);
        assert(y == walked(z, names, ops[t - 1]));
        assert(open_between(ops, a, t) >= 1);
        assert(open_between(ops, a, t - 1) >= 1);
        let n = x.saved.len() as int + 1;
        assert(y.saved.take(n) =~= z.saved.take(n));
    }
}

/// A `Q` restores what was current at the `q` that it closes, however many
/// operations stand between, and leaves what was saved before.
pub proof fn restoring_undoes_what_came_since(
    s: WalkValue,
    names: Seq<(Seq<u8>, ObjectId)>,
    ops: Seq<OperationValue>,
    a: int,
    b: int,
)
    requires
        0 <= a < b < ops.len(),
        ops[a].operator == "q".spec_bytes(),
        ops[b].operator == "Q".spec_bytes(),
        forall|k: int| a < k <= b ==> #[trigger] open_between(ops, a, k) >= 1,
        open_between(ops, a, b) == 1,
    ensures
        walked_upto(s, names, ops, b + 1).current == walked_upto(s, names, ops, a).current,
        walked_upto(s, names, ops, b + 1).saved == walked_upto(s, names, ops, a).saved,
{
    lemma_operators();
    lemma_saved_below(s, names, ops, a, b);
    let x = walked_upto(s, names, ops, a);
    let y = walked_upto(s, names, ops, b);
    let n = x.saved.len() as int;
    assert(y.saved.take(n + 1)[n] == x.current);
    assert(y.saved.last() == x.current);
    assert(y.saved.drop_last() =~= x.saved) by {
        assert forall|i: int| 0 <= i < n implies y.saved[i] == x.saved[i] by {
            assert(y.saved.take(n + 1)[i] == x.saved.push(x.current)[i]);
        }
    }
}

/// A `Q` that closes nothing changes nothing.
pub proof fn unmatched_restore_changes_nothing(
    s: WalkValue,
    names: Seq<(Seq<u8>, ObjectId)>,
    op: OperationValue,
)
    requires
        op.operator == "Q".spec_bytes(),
        s.saved.len() == 0,
    ensures
        walked(s, names, op) == s,
{
    lemma_operators();
}

/// Two states agree for a reading of numbers: they have the same points in
/// the same places, now and after each `Q`.
pub open spec fn agree(num: spec_fn(Value) -> int, a: WalkValue, b: WalkValue) -> bool {
    &&& state_ok(a) && state_ok(b)
    &&& forall|p: (int, int)| #[trigger]
        on_page(num, a.found.matrices, a.current, p) == on_page(
            num,
            b.found.matrices,
            b.current,
            p,
        )
    &&& a.saved.len() == b.saved.len()
    &&& forall|i: int, p: (int, int)|
        0 <= i < a.saved.len() ==> #[trigger] on_page(num, a.found.matrices, a.saved[i], p)
            == on_page(num, b.found.matrices, b.saved[i], p)
}

/// From the paints `x` and `y` on, two states have painted the same images
/// with the same points in the same places.
pub open spec fn painted_alike(
    num: spec_fn(Value) -> int,
    a: PlacementsValue,
    x: int,
    b: PlacementsValue,
    y: int,
) -> bool {
    &&& a.paints.len() - x == b.paints.len() - y
    &&& x <= a.paints.len()
    &&& forall|k: int|
        0 <= k < a.paints.len() - x ==> (#[trigger] a.paints[x + k]).0 == b.paints[y + k].0
    &&& forall|k: int, p: (int, int)|
        0 <= k < a.paints.len() - x ==> #[trigger] on_page(num, a.matrices, a.paints[x + k].1, p)
            == on_page(num, b.matrices, b.paints[y + k].1, p)
}

proof fn lemma_step_agrees(
    num: spec_fn(Value) -> int,
    a: WalkValue,
    x: int,
    b: WalkValue,
    y: int,
    names: Seq<(Seq<u8>, ObjectId)>,
    op: OperationValue,
)
    requires
        agree(num, a, b),
        painted_alike(num, a.found, x, b.found, y),
        0 <= x,
        0 <= y,
    ensures
        agree(num, walked(a, names, op), walked(b, names, op)),
        painted_alike(num, walked(a, names, op).found, x, walked(b, names, op).found, y),
{
    lemma_operators();
    let c = walked(a, names, op);
    let d = walked(b, names, op);
    walking_keeps_what_was_found(a, names, op);
    walking_keeps_what_was_found(b, names, op);
    assert forall|i: int, p: (int, int)| 0 <= i < a.found.matrices.len() implies #[trigger] on_page(
        num,
        c.found.matrices,
        i,
        p,
    ) == on_page(num, a.found.matrices, i, p) by {
        lemma_on_page_stays(num, a.found.matrices, c.found.matrices, i, p);
    }
    assert forall|i: int, p: (int, int)| 0 <= i < b.found.matrices.len() implies #[trigger] on_page(
        num,
        d.found.matrices,
        i,
        p,
    ) == on_page(num, b.found.matrices, i, p) by {
        lemma_on_page_stays(num, b.found.matrices, d.found.matrices, i, p);
    }
    if op.operator == "cm".spec_bytes() && op.operands.len() == 6 {
        assert forall|p: (int, int)| #[trigger]
            on_page(num, c.found.matrices, c.current, p) == on_page(
                num,
                d.found.matrices,
                d.current,
                p,
            ) by {
            concatenation_comes_before_the_current(a, names, op, num, p);
            concatenation_comes_before_the_current(b, names, op, num, p);
        }
    } else {
        assert forall|p: (int, int)| #[trigger]
            on_page(num, c.found.matrices, c.current, p) == on_page(
                num,
                d.found.matrices,
                d.current,
                p,
            ) by {
            assert(on_page(num, a.found.matrices, a.current, p) == on_page(
                num,
                b.found.matrices,
                b.current,
                p,
            ));
            if a.saved.len() > 0 {
                let n = a.saved.len() - 1;
                assert(on_page(num, a.found.matrices, a.saved[n], p) == on_page(
                    num,
                    b.found.matrices,
                    b.saved[n],
                    p,
                ));
            }
        }
    }
    assert forall|i: int, p: (int, int)| 0 <= i < c.saved.len() implies #[trigger] on_page(
        num,
        c.found.matrices,
        c.saved[i],
        p,
    ) == on_page(num, d.found.matrices, d.saved[i], p) by {
        if i < a.saved.len() {
            assert(on_page(num, a.found.matrices, a.saved[i], p) == on_page(
                num,
                b.found.matrices,
                b.saved[i],
                p,
            ));
        } else {
            assert(on_page(num, a.found.matrices, a.current, p) == on_page(
                num,
                b.found.matrices,
                b.current,
                p,
            ));
        }
    }
    let more = a.found.paints.len() - x;
    assert forall|k: int, p: (int, int)| 0 <= k < c.found.paints.len() - x implies
        #[trigger] on_page(num, c.found.matrices, c.found.paints[x + k].1, p) == on_page(
        num,
        d.found.matrices,
        d.found.paints[y + k].1,
        p,
    ) by {
        if k < more {
            assert(c.found.paints[x + k] == a.found.paints[x + k]);
            assert(d.found.paints[y + k] == b.found.paints[y + k]);
            assert(on_page(num, a.found.matrices, a.found.paints[x + k].1, p) == on_page(
                num,
                b.found.matrices,
                b.found.paints[y + k].1,
                p,
            ));
        } else {
            assert(on_page(num, a.found.matrices, a.current, p) == on_page(
                num,
                b.found.matrices,
                b.current,
                p,
            ));
        }
    }
    assert forall|k: int| 0 <= k < c.found.paints.len() - x implies (
    #[trigger] c.found.paints[x + k]).0 == d.found.paints[y + k].0 by {
        if k < more {
            assert(a.found.paints[x + k].0 == b.found.paints[y + k].0);
        }
    }
}

proof fn lemma_walks_agree(
    num: spec_fn(Value) -> int,
    a: WalkValue,
    b: WalkValue,
    names: Seq<(Seq<u8>, ObjectId)>,
    ops: Seq<OperationValue>,
    n: int,
)
    requires
        agree(num, a, b),
        0 <= n <= ops.len(),
    ensures
        agree(num, walked_upto(a, names, ops, n), walked_upto(b, names, ops, n)),
        painted_alike(
            num,
            walked_upto(a, names, ops, n).found,
            a.found.paints.len() as int,
            walked_upto(b, names, ops, n).found,
            b.found.paints.len() as int,
        ),
    decreases n,
{
    if n > 0 {
        lemma_walks_agree(num, a, b, names, ops, n - 1);
        lemma_step_agrees(
            num,
            walked_upto(a, names, ops, n - 1),
            a.found.paints.len() as int,
            walked_upto(b, names, ops, n - 1),
            b.found.paints.len() as int,
            names,
            ops[n - 1],
        );
    }
}

/// A page stands for itself: what it paints, and where the points of that come
/// to stand, is what it would be were it the only page, whose first operation
/// is run under the transformation that moves no point.
pub proof fn each_page_starts_afresh(
    found: PlacementsValue,
    objects: Seq<(ObjectId, Value)>,
    page: ObjectId,
    num: spec_fn(Value) -> int,
)
    requires
        placements_ok(found),
    ensures
        ({
            let own = crate::placements::with_page(no_placements(), objects, page);
            let all = crate::placements::with_page(found, objects, page);
            painted_alike(num, all, found.paints.len() as int, own, 0)
        }),
        forall|p: (int, int)| #[trigger] on_page(num, no_placements().matrices, 0, p) == p,
{
    let names = crate::lookup::page_names(objects, page);
    let ids = crate::lookup::page_content_ids(objects, page);
    let a = WalkValue { found, current: 0, saved: Seq::empty() };
    let b = WalkValue { found: no_placements(), current: 0, saved: Seq::empty() };
    assert(agree(num, a, b));
    match crate::inline::known_operations(
        crate::lookup::joined_content(objects, ids, ids.len() as int),
    ) {
        Some(ops) => {
            lemma_walks_agree(num, a, b, names, ops, ops.len() as int);
        },
        None => {},
    }
}

/// The images that are painted are listed, each once, and no other.
pub proof fn painted_images_are_listed_once(paints: Seq<(ObjectId, int)>, n: int)
    requires
        0 <= n <= paints.len(),
    ensures
        forall|id: ObjectId| #[trigger]
            crate::placements::painted(paints, n).contains(id) <==> exists|i: int|
                0 <= i < n && (#[trigger] paints[i]).0 == id,
        crate::placements::painted(paints, n).no_duplicates(),
    decreases n,
{
    if n > 0 {
        painted_images_are_listed_once(paints, n - 1);
        let before = crate::placements::painted(paints, n - 1);
        let all = crate::placements::painted(paints, n);
        let own = paints[n - 1].0;
        assert forall|id: ObjectId| #[trigger] all.contains(id) <==> exists|i: int|
            0 <= i < n && (#[trigger] paints[i]).0 == id by {
            if all.contains(id) && id != own {
                let k = choose|k: int| 0 <= k < all.len() && all[k] == id;
                assert(before[k] == id);
                assert(before.contains(id));
            }
            if before.contains(id) {
                let k = choose|k: int| 0 <= k < before.len() && before[k] == id;
                assert(all[k] == id);
            }
            if id == own {
                assert(paints[n - 1].0 == id);
                if !before.contains(own) {
                    assert(all[before.len() as int] == own);
                }
            }
            if exists|i: int| 0 <= i < n && (#[trigger] paints[i]).0 == id {
                let i = choose|i: int| 0 <= i < n && (#[trigger] paints[i]).0 == id;
                if i < n - 1 {
                    assert(before.contains(id));
                }
            }
        }
    }
}

} // verus!
