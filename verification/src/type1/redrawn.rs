//! A Type 2 program that was written draws the glyph again.
//!
//! A reader of Type 2 programs is described here by what each operator does
//! to what was read so far. What it draws from the program of a glyph are the
//! points that the glyph goes through, and it finds the glyph's width, its
//! stems and the stems that are active in each part.

use crate::type1::emit::{
    bit_set, cat, charstring, head_part, lemma_mask_len, lemma_ordered, lemma_place_of, mask_bytes,
    mask_part, masks_hold_the_active_stems, op_bytes, ops_bytes, ordered, place_of, segments_bytes,
    stem_args, stem_end, stem_part, t2_bytes, t2_value, width_part,
};
use crate::type1::interp::{all_below, all_ops, glyph_ok, GlyphValue, PathOp, SegmentValue, Stem};
use crate::type1::number::Number;
use crate::type1::outline::{outline, outline_end, step_of, Step};
use vstd::prelude::*;

verus! {

/// What was read of a Type 2 program so far, with numbers in 16.16 units.
pub struct Reading {
    pub args: Seq<int>,
    /// The first operator that may have the width before its operands has
    /// been read.
    pub begun: bool,
    pub width: Option<int>,
    /// The operands of the horizontal stems.
    pub hstems: Seq<int>,
    /// The operands of the vertical stems.
    pub vstems: Seq<int>,
    /// The masks, each with the number of steps before it.
    pub masks: Seq<(int, Seq<u8>)>,
    pub path: Seq<Step>,
}

/// The start of a program.
pub open spec fn unread() -> Reading {
    Reading {
        args: Seq::empty(),
        begun: false,
        width: None,
        hstems: Seq::empty(),
        vstems: Seq::empty(),
        masks: Seq::empty(),
        path: Seq::empty(),
    }
}

/// The bytes of the operand that starts with `b`.
pub open spec fn operand_len(b: u8) -> int {
    if b == 28 {
        3
    } else if b <= 246 {
        1
    } else if b <= 254 {
        2
    } else {
        5
    }
}

/// One operand more.
pub open spec fn with_arg(r: Reading, v: int) -> Reading {
    Reading { args: r.args.push(v), ..r }
}

/// The operands of an operator that takes `n` of them and may have the width
/// before them, and the reading without them.
pub open spec fn taken(r: Reading, n: int) -> Option<(Seq<int>, Reading)> {
    let bare = Reading { args: Seq::empty(), begun: true, ..r };
    if r.args.len() == n {
        Some((r.args, bare))
    } else if !r.begun && r.args.len() == n + 1 {
        Some((r.args.skip(1), Reading { width: Some(r.args[0]), ..bare }))
    } else {
        None
    }
}

/// One step more, from where the pen is.
pub open spec fn stepped(r: Reading, s: Step) -> Reading {
    Reading { path: r.path.push(s), ..r }
}

/// Where the pen is.
pub open spec fn pen(r: Reading) -> (int, int) {
    outline_end(r.path)
}

/// What an operator does: moves (4, 21, 22), lines (5, 6, 7), a curve (8) and
/// stems (1, 3, 18, 23), as far as a glyph's program has them.
pub open spec fn read_operator(r: Reading, op: u8) -> Option<Reading> {
    let at = pen(r);
    let a = r.args;
    let bare = Reading { args: Seq::empty(), ..r };
    if op == 21 {
        match taken(r, 2) {
            Some((a, n)) => Some(stepped(n, Step::Move((at.0 + a[0], at.1 + a[1])))),
            None => None,
        }
    } else if op == 22 {
        match taken(r, 1) {
            Some((a, n)) => Some(stepped(n, Step::Move((at.0 + a[0], at.1)))),
            None => None,
        }
    } else if op == 4 {
        match taken(r, 1) {
            Some((a, n)) => Some(stepped(n, Step::Move((at.0, at.1 + a[0])))),
            None => None,
        }
    } else if op == 5 && a.len() == 2 {
        Some(stepped(bare, Step::Line((at.0 + a[0], at.1 + a[1]))))
    } else if op == 6 && a.len() == 1 {
        Some(stepped(bare, Step::Line((at.0 + a[0], at.1))))
    } else if op == 7 && a.len() == 1 {
        Some(stepped(bare, Step::Line((at.0, at.1 + a[0]))))
    } else if op == 8 && a.len() == 6 {
        Some(
            stepped(
                bare,
                Step::Curve(
                    (at.0 + a[0], at.1 + a[1]),
                    (at.0 + a[0] + a[2], at.1 + a[1] + a[3]),
                    (at.0 + a[0] + a[2] + a[4], at.1 + a[1] + a[3] + a[5]),
                ),
            ),
        )
    } else if op == 1 || op == 18 {
        match taken(r, 2 * (a.len() as int / 2)) {
            Some((a, n)) => Some(Reading { hstems: n.hstems + a, ..n }),
            None => None,
        }
    } else if op == 3 || op == 23 {
        match taken(r, 2 * (a.len() as int / 2)) {
            Some((a, n)) => Some(Reading { vstems: n.vstems + a, ..n }),
            None => None,
        }
    } else {
        None
    }
}

/// The bytes of a mask: one bit for each stem.
pub open spec fn mask_len(r: Reading) -> int {
    ((r.hstems.len() + r.vstems.len()) as int / 2 + 7) / 8
}

/// What the rest of a program is read as. It ends with `endchar` (14), and
/// `hintmask` (19) is followed by its mask.
#[verifier::opaque]
pub open spec fn read_program(code: Seq<u8>, r: Reading) -> Option<Reading>
    decreases code.len(),
{
    if code.len() == 0 {
        None
    } else if code[0] == 28 || code[0] >= 32 {
        let k = operand_len(code[0]);
        if code.len() < k {
            None
        } else {
            read_program(code.skip(k), with_arg(r, t2_value(code)))
        }
    } else if code[0] == 14 {
        match taken(r, 0) {
            Some((_, n)) => Some(n),
            None => None,
        }
    } else if code[0] == 19 {
        let k = mask_len(r);
        if r.args.len() != 0 || code.len() < 1 + k {
            None
        } else {
            read_program(
                code.skip(1 + k),
                Reading {
                    masks: r.masks.push((r.path.len() as int, code.subrange(1, 1 + k))),
                    begun: true,
                    ..r
                },
            )
        }
    } else {
        match read_operator(r, code[0]) {
            Some(n) => read_program(code.skip(1), n),
            None => None,
        }
    }
}

/// A number in 16.16 units: a whole number of 16 bits as it is, any other to
/// the nearest.
pub open spec fn in_units<N: Number>(v: N) -> int {
    match v.whole_value() {
        Some(i) => if -32768 <= i <= 32767 {
            i * 0x1_0000
        } else {
            fixed_units(v)
        },
        None => fixed_units(v),
    }
}

/// The nearest 16.16 value.
pub open spec fn fixed_units<N: Number>(v: N) -> int {
    match v.fixed_value() {
        Some(f) => f as int,
        None => 0,
    }
}

/// What is equal to zero has no units.
pub open spec fn zero_is_zero<N: Number>() -> bool {
    forall|v: N| #[trigger] v.equals(N::integer(0)) ==> in_units(v) == 0
}

proof fn lemma_operand<N: Number>(v: N, rest: Seq<u8>, r: Reading)
    requires
        t2_bytes(v) is Some,
    ensures
        read_program(t2_bytes(v)->0 + rest, r) == read_program(rest, with_arg(r, in_units(v))),
{
    reveal(read_program);
    let b = t2_bytes(v)->0;
    let code = b + rest;
    assert(code[0] == b[0]);
    assert(operand_len(b[0]) == b.len());
    assert(code.skip(b.len() as int) =~= rest);
    assert forall|i: int| 0 <= i < b.len() implies code[i] == b[i] by {}
    assert(t2_value(code) == in_units(v));
}

proof fn lemma_operator(op: u8, rest: Seq<u8>, r: Reading)
    requires
        op < 28,
        op != 14 && op != 19,
        read_operator(r, op) is Some,
    ensures
        read_program(seq![op] + rest, r) == read_program(rest, read_operator(r, op)->0),
{
    reveal(read_program);
    let code = seq![op] + rest;
    assert(code[0] == op);
    assert(code.skip(1) =~= rest);
}

/// The reading after a path operation.
pub open spec fn after_op<N: Number>(r: Reading, op: PathOp<N>) -> Reading {
    let units = |v: N| in_units(v);
    let n = match op {
        PathOp::Move(_, _) => (taken(r, 0)->0).1,
        _ => r,
    };
    stepped(n, step_of(units, pen(r), op))
}

/// The operation may follow: one that does not move has no width before it.
pub open spec fn may_follow<N>(r: Reading, op: PathOp<N>) -> bool {
    match op {
        PathOp::Move(_, _) => r.args.len() == 0 || (!r.begun && r.args.len() == 1),
        _ => r.args.len() == 0,
    }
}

proof fn lemma_one<N: Number>(v: N, op: u8, rest: Seq<u8>, r: Reading)
    requires
        t2_bytes(v) is Some,
        op < 28,
        op != 14 && op != 19,
        read_operator(with_arg(r, in_units(v)), op) is Some,
    ensures
        read_program(cat(t2_bytes(v), Some(seq![op]))->0 + rest, r) == read_program(
            rest,
            read_operator(with_arg(r, in_units(v)), op)->0,
        ),
{
    let b = t2_bytes(v)->0;
    assert((b + seq![op]) + rest =~= b + (seq![op] + rest));
    lemma_operand(v, seq![op] + rest, r);
    lemma_operator(op, rest, with_arg(r, in_units(v)));
}

proof fn lemma_two<N: Number>(v: N, w: N, op: u8, rest: Seq<u8>, r: Reading)
    requires
        t2_bytes(v) is Some,
        t2_bytes(w) is Some,
        op < 28,
        op != 14 && op != 19,
        read_operator(with_arg(with_arg(r, in_units(v)), in_units(w)), op) is Some,
    ensures
        read_program(cat(cat(t2_bytes(v), t2_bytes(w)), Some(seq![op]))->0 + rest, r)
            == read_program(
            rest,
            read_operator(with_arg(with_arg(r, in_units(v)), in_units(w)), op)->0,
        ),
{
    let b = t2_bytes(v)->0;
    let c = t2_bytes(w)->0;
    assert(((b + c) + seq![op]) + rest =~= b + (c + (seq![op] + rest)));
    lemma_operand(v, c + (seq![op] + rest), r);
    lemma_operand(w, seq![op] + rest, with_arg(r, in_units(v)));
    lemma_operator(op, rest, with_arg(with_arg(r, in_units(v)), in_units(w)));
}

proof fn lemma_move<N: Number>(dx: N, dy: N, rest: Seq<u8>, r: Reading)
    requires
        zero_is_zero::<N>(),
        op_bytes(PathOp::Move(dx, dy)) is Some,
        may_follow(r, PathOp::Move(dx, dy)),
    ensures
        read_program(op_bytes(PathOp::Move(dx, dy))->0 + rest, r) == read_program(
            rest,
            after_op(r, PathOp::Move(dx, dy)),
        ),
{
    let zero = N::integer(0);
    let x = in_units(dx);
    let y = in_units(dy);
    let want = after_op(r, PathOp::Move(dx, dy));
    if dx.equals(zero) {
        let n = with_arg(r, y);
        assert(x == 0);
        if r.args.len() == 1 {
            assert(n.args.skip(1) =~= seq![y]);
        }
        assert(read_operator(n, 4) is Some);
        assert(read_operator(n, 4)->0.path == want.path);
        assert(read_operator(n, 4)->0 == want);
        lemma_one(dy, 4, rest, r);
    } else if dy.equals(zero) {
        let n = with_arg(r, x);
        assert(y == 0);
        if r.args.len() == 1 {
            assert(n.args.skip(1) =~= seq![x]);
        }
        assert(read_operator(n, 22)->0 == want);
        lemma_one(dx, 22, rest, r);
    } else {
        let n = with_arg(with_arg(r, x), y);
        if r.args.len() == 1 {
            assert(n.args.skip(1) =~= seq![x, y]);
        }
        assert(read_operator(n, 21)->0 == want);
        lemma_two(dx, dy, 21, rest, r);
    }
}

proof fn lemma_line<N: Number>(dx: N, dy: N, rest: Seq<u8>, r: Reading)
    requires
        zero_is_zero::<N>(),
        op_bytes(PathOp::Line(dx, dy)) is Some,
        r.args.len() == 0,
    ensures
        read_program(op_bytes(PathOp::Line(dx, dy))->0 + rest, r) == read_program(
            rest,
            after_op(r, PathOp::Line(dx, dy)),
        ),
{
    let zero = N::integer(0);
    let x = in_units(dx);
    let y = in_units(dy);
    let want = after_op(r, PathOp::Line(dx, dy));
    assert(r.args =~= Seq::empty());
    if dy.equals(zero) {
        assert(read_operator(with_arg(r, x), 6)->0 == want);
        lemma_one(dx, 6, rest, r);
    } else if dx.equals(zero) {
        assert(read_operator(with_arg(r, y), 7)->0 == want);
        lemma_one(dy, 7, rest, r);
    } else {
        assert(read_operator(with_arg(with_arg(r, x), y), 5)->0 == want);
        lemma_two(dx, dy, 5, rest, r);
    }
}

proof fn lemma_seven(
    a: Seq<u8>,
    b: Seq<u8>,
    c: Seq<u8>,
    d: Seq<u8>,
    e: Seq<u8>,
    f: Seq<u8>,
    g: Seq<u8>,
    rest: Seq<u8>,
)
    ensures
        ((((((a + b) + c) + d) + e) + f) + g) + rest == a + (b + (c + (d + (e + (f + (g
            + rest)))))),
{
    let t = f + (g + rest);
    assert((((((a + b) + c) + d) + e) + f) + g + rest =~= ((((a + b) + c) + d) + e) + t);
    assert(((((a + b) + c) + d) + e) + t =~= a + (b + (c + (d + (e + t)))));
}

proof fn lemma_curve<N: Number>(a: N, b: N, c: N, d: N, e: N, f: N, rest: Seq<u8>, r: Reading)
    requires
        op_bytes(PathOp::Curve(a, b, c, d, e, f)) is Some,
        r.args.len() == 0,
    ensures
        read_program(op_bytes(PathOp::Curve(a, b, c, d, e, f))->0 + rest, r) == read_program(
            rest,
            after_op(r, PathOp::Curve(a, b, c, d, e, f)),
        ),
{
    let want = after_op(r, PathOp::Curve(a, b, c, d, e, f));
    assert(r.args =~= Seq::empty());
    let (ba, bb, bc) = (t2_bytes(a)->0, t2_bytes(b)->0, t2_bytes(c)->0);
    let (bd, be, bf) = (t2_bytes(d)->0, t2_bytes(e)->0, t2_bytes(f)->0);
    let t6 = seq![8u8] + rest;
    let t5 = bf + t6;
    let t4 = be + t5;
    let t3 = bd + t4;
    let t2 = bc + t3;
    let t1 = bb + t2;
    lemma_seven(ba, bb, bc, bd, be, bf, seq![8u8], rest);
    assert(op_bytes(PathOp::Curve(a, b, c, d, e, f))->0 + rest == ba + t1);
    let r1 = with_arg(r, in_units(a));
    let r2 = with_arg(r1, in_units(b));
    let r3 = with_arg(r2, in_units(c));
    let r4 = with_arg(r3, in_units(d));
    let r5 = with_arg(r4, in_units(e));
    let r6 = with_arg(r5, in_units(f));
    lemma_operand(a, t1, r);
    lemma_operand(b, t2, r1);
    lemma_operand(c, t3, r2);
    lemma_operand(d, t4, r3);
    lemma_operand(e, t5, r4);
    lemma_operand(f, t6, r5);
    assert(read_operator(r6, 8)->0 == want);
    lemma_operator(8, rest, r6);
}

/// Each path operation that is written draws, in a reader, the step that it
/// is: from where the pen is to the points that its operands lead to.
pub proof fn path_operation_is_redrawn<N: Number>(op: PathOp<N>, rest: Seq<u8>, r: Reading)
    requires
        zero_is_zero::<N>(),
        op_bytes(op) is Some,
        may_follow(r, op),
    ensures
        read_program(op_bytes(op)->0 + rest, r) == read_program(rest, after_op(r, op)),
        after_op(r, op).path == r.path.push(step_of(|v: N| in_units(v), pen(r), op)),
{
    match op {
        PathOp::Move(dx, dy) => lemma_move(dx, dy, rest, r),
        PathOp::Line(dx, dy) => lemma_line(dx, dy, rest, r),
        PathOp::Curve(a, b, c, d, e, f) => lemma_curve(a, b, c, d, e, f, rest, r),
    }
}

// --- segments ----------------------------------------------------------------------------------------

/// The reading after the first `n` operations.
pub open spec fn after_ops<N: Number>(r: Reading, ops: Seq<PathOp<N>>, n: int) -> Reading
    decreases n,
{
    if n <= 0 {
        r
    } else {
        after_op(after_ops(r, ops, n - 1), ops[n - 1])
    }
}

proof fn lemma_ops<N: Number>(ops: Seq<PathOp<N>>, n: int, rest: Seq<u8>, r: Reading)
    requires
        zero_is_zero::<N>(),
        0 <= n <= ops.len(),
        ops_bytes(ops, n) is Some,
        r.args.len() == 0 || (n > 0 && may_follow(r, ops[0])),
    ensures
        read_program(ops_bytes(ops, n)->0 + rest, r) == read_program(rest, after_ops(r, ops, n)),
        after_ops(r, ops, n).args.len() == 0,
        after_ops(r, ops, n).hstems == r.hstems,
        after_ops(r, ops, n).vstems == r.vstems,
        after_ops(r, ops, n).masks == r.masks,
        after_ops(r, ops, n).path.len() == r.path.len() + n,
        after_ops(r, ops, n).width == if r.args.len() == 1 {
            Some(r.args[0])
        } else {
            r.width
        },
    decreases n,
{
    if n > 0 {
        let before = ops_bytes(ops, n - 1)->0;
        let last = op_bytes(ops[n - 1])->0;
        assert((before + last) + rest =~= before + (last + rest));
        if n > 1 || r.args.len() == 0 {
            lemma_ops(ops, n - 1, last + rest, r);
        } else {
            assert(before + (last + rest) =~= last + rest);
        }
        path_operation_is_redrawn(ops[n - 1], rest, after_ops(r, ops, n - 1));
    } else {
        assert(ops_bytes(ops, n)->0 + rest =~= rest);
    }
}

/// The steps of operations follow on those before.
proof fn lemma_path<N: Number>(r: Reading, before: Seq<PathOp<N>>, ops: Seq<PathOp<N>>, n: int)
    requires
        0 <= n <= ops.len(),
        r.path == outline(|v: N| in_units(v), before),
        r.args.len() == 0 || (n > 0 && may_follow(r, ops[0])),
    ensures
        after_ops(r, ops, n).path == outline(|v: N| in_units(v), before + ops.take(n)),
        n > 0 ==> after_ops(r, ops, n).args.len() == 0,
    decreases n,
{
    let units = |v: N| in_units(v);
    if n > 0 {
        if n > 1 || r.args.len() == 0 {
            lemma_path(r, before, ops, n - 1);
        } else {
            assert(before + ops.take(0) =~= before);
        }
        let whole = before + ops.take(n);
        assert(whole.drop_last() =~= before + ops.take(n - 1));
        assert(whole.last() == ops[n - 1]);
        let b = after_ops(r, ops, n - 1);
        assert(b.path == outline(units, before + ops.take(n - 1)));
        assert(after_op(b, ops[n - 1]).path == b.path.push(
            step_of(units, outline_end(b.path), ops[n - 1]),
        ));
    } else {
        assert(before + ops.take(n) =~= before);
    }
}

/// The reading after a mask.
pub open spec fn after_mask(r: Reading, mask: Seq<u8>, masks: bool) -> Reading {
    if masks {
        Reading { masks: r.masks.push((r.path.len() as int, mask)), begun: true, ..r }
    } else {
        r
    }
}

/// The reading after the first `n` segments.
pub open spec fn after_segments<N: Number>(
    r: Reading,
    segments: Seq<SegmentValue<N>>,
    order: Seq<usize>,
    masks: bool,
    n: int,
) -> Reading
    decreases n,
{
    if n <= 0 {
        r
    } else {
        let s = segments[n - 1];
        after_ops(
            after_mask(
                after_segments(r, segments, order, masks, n - 1),
                mask_bytes(order, s.active, s.active.len() as int),
                masks,
            ),
            s.ops,
            s.ops.len() as int,
        )
    }
}

/// The stems that segments speak of are all in the order.
pub open spec fn in_this_order<N>(segments: Seq<SegmentValue<N>>, order: Seq<usize>) -> bool {
    forall|k: int, i: int|
        0 <= k < segments.len() && 0 <= i < segments[k].active.len() ==> order.contains(
            #[trigger] segments[k].active[i],
        )
}

/// A width that waits for its operator comes before a move, or before the
/// end.
pub open spec fn width_is_heard<N>(r: Reading, segments: Seq<SegmentValue<N>>) -> bool {
    r.args.len() == 0 || (!r.begun && r.args.len() == 1 && (segments.len() == 0 || (
    segments[0].ops.len() > 0 && segments[0].ops[0] is Move)))
}

proof fn lemma_mask(mask: Seq<u8>, rest: Seq<u8>, r: Reading)
    requires
        r.args.len() == 0,
        mask.len() == mask_len(r),
    ensures
        read_program((seq![19u8] + mask) + rest, r) == read_program(
            rest,
            after_mask(r, mask, true),
        ),
{
    reveal(read_program);
    let code = (seq![19u8] + mask) + rest;
    let k = mask.len() as int;
    assert(code[0] == 19);
    assert(code.skip(1 + k) =~= rest);
    assert(code.subrange(1, 1 + k) =~= mask);
}

proof fn lemma_segments<N: Number>(
    segments: Seq<SegmentValue<N>>,
    order: Seq<usize>,
    masks: bool,
    n: int,
    rest: Seq<u8>,
    r: Reading,
)
    requires
        zero_is_zero::<N>(),
        0 <= n <= segments.len(),
        segments_bytes(segments, order, masks, n) is Some,
        in_this_order(segments, order),
        r.hstems.len() + r.vstems.len() == 2 * order.len(),
        r.path.len() == 0,
        r.masks.len() == 0,
        masks ==> r.args.len() == 0,
        width_is_heard(r, segments),
    ensures
        ({
            let e = after_segments(r, segments, order, masks, n);
            &&& read_program(segments_bytes(segments, order, masks, n)->0 + rest, r)
                == read_program(rest, e)
            &&& e.hstems == r.hstems
            &&& e.vstems == r.vstems
            &&& n > 0 ==> e.args.len() == 0
            &&& e.path == outline(|v: N| in_units(v), all_ops(segments, n))
            &&& e.path.len() == all_ops(segments, n).len()
            &&& e.width == if n > 0 && r.args.len() == 1 {
                Some(r.args[0])
            } else {
                r.width
            }
            &&& e.masks.len() == if masks {
                n
            } else {
                0
            }
            &&& masks ==> forall|k: int|
                0 <= k < n ==> #[trigger] e.masks[k] == (
                    all_ops(segments, k).len() as int,
                    mask_bytes(order, segments[k].active, segments[k].active.len() as int),
                )
        }),
    decreases n,
{
    let units = |v: N| in_units(v);
    if n > 0 {
        let s = segments[n - 1];
        let front = segments_bytes(segments, order, masks, n - 1)->0;
        let mask = mask_part(order, s.active, masks);
        let ops = ops_bytes(s.ops, s.ops.len() as int)->0;
        let tail = mask + (ops + rest);
        assert(((front + mask) + ops) + rest =~= front + tail);
        if n > 1 || r.args.len() == 0 {
            lemma_segments(segments, order, masks, n - 1, tail, r);
        } else {
            assert(front + tail =~= tail);
            assert(all_ops(segments, 0) =~= Seq::empty());
            assert(outline(units, all_ops(segments, 0)) =~= Seq::<Step>::empty());
            assert(r.path =~= Seq::<Step>::empty());
        }
        let b = after_segments(r, segments, order, masks, n - 1);
        let bytes = mask_bytes(order, s.active, s.active.len() as int);
        let c = after_mask(b, bytes, masks);
        if masks {
            assert forall|i: int| 0 <= i < s.active.len() implies order.contains(
                #[trigger] s.active[i],
            ) by {
                assert(order.contains(segments[n - 1].active[i]));
            }
            lemma_mask_len(order, s.active, s.active.len() as int);
            lemma_mask(bytes, ops + rest, b);
        } else {
            assert(mask + (ops + rest) =~= ops + rest);
        }
        lemma_ops(s.ops, s.ops.len() as int, rest, c);
        lemma_path(c, all_ops(segments, n - 1), s.ops, s.ops.len() as int);
        assert(s.ops.take(s.ops.len() as int) =~= s.ops);
    } else {
        assert(segments_bytes(segments, order, masks, n)->0 + rest =~= rest);
        assert(outline(units, all_ops(segments, n)) =~= Seq::<Step>::empty());
        assert(r.path =~= Seq::<Step>::empty());
    }
}

// --- stems ------------------------------------------------------------------------------------------

/// The operands of the first `n` stems.
pub open spec fn stem_units<N: Number>(stems: Seq<Stem<N>>, list: Seq<usize>, n: int) -> Seq<int>
    decreases n,
{
    if n <= 0 {
        Seq::empty()
    } else {
        let s = stems[list[n - 1] as int];
        stem_units(stems, list, n - 1).push(
            in_units(s.lo.difference(stem_end(stems, list, n - 1))),
        ).push(in_units(s.ext))
    }
}

proof fn lemma_stem_operands<N: Number>(
    stems: Seq<Stem<N>>,
    list: Seq<usize>,
    n: int,
    rest: Seq<u8>,
    r: Reading,
)
    requires
        0 <= n,
        stem_args(stems, list, n) is Some,
    ensures
        read_program(stem_args(stems, list, n)->0 + rest, r) == read_program(
            rest,
            (Reading { args: r.args + stem_units(stems, list, n), ..r }),
        ),
        stem_units(stems, list, n).len() == 2 * n,
    decreases n,
{
    if n > 0 {
        let s = stems[list[n - 1] as int];
        let d = s.lo.difference(stem_end(stems, list, n - 1));
        let front = stem_args(stems, list, n - 1)->0;
        let tail = t2_bytes(d)->0 + (t2_bytes(s.ext)->0 + rest);
        assert(((front + t2_bytes(d)->0) + t2_bytes(s.ext)->0) + rest =~= front + tail);
        lemma_stem_operands(stems, list, n - 1, tail, r);
        let b = Reading { args: r.args + stem_units(stems, list, n - 1), ..r };
        lemma_operand(d, t2_bytes(s.ext)->0 + rest, b);
        lemma_operand(s.ext, rest, with_arg(b, in_units(d)));
        assert(with_arg(with_arg(b, in_units(d)), in_units(s.ext)).args =~= r.args + stem_units(
            stems,
            list,
            n,
        ));
    } else {
        assert(stem_args(stems, list, n)->0 + rest =~= rest);
        assert(r.args + stem_units(stems, list, n) =~= r.args);
    }
}

/// The reading after the stems of one kind.
pub open spec fn after_stems(r: Reading, horiz: bool, units: Seq<int>) -> Reading {
    if units.len() == 0 {
        r
    } else {
        let n = (taken(r, 0)->0).1;
        if horiz {
            Reading { hstems: n.hstems + units, ..n }
        } else {
            Reading { vstems: n.vstems + units, ..n }
        }
    }
}

proof fn lemma_stem_part<N: Number>(
    stems: Seq<Stem<N>>,
    list: Seq<usize>,
    horiz: bool,
    op: u8,
    rest: Seq<u8>,
    r: Reading,
)
    requires
        stem_part(stems, list, op) is Some,
        r.args.len() == 0 || (!r.begun && r.args.len() == 1),
        horiz ==> op == 1 || op == 18,
        !horiz ==> op == 3 || op == 23,
    ensures
        stem_units(stems, list, list.len() as int).len() == 2 * list.len(),
        read_program(stem_part(stems, list, op)->0 + rest, r) == read_program(
            rest,
            after_stems(r, horiz, stem_units(stems, list, list.len() as int)),
        ),
{
    let n = list.len() as int;
    let units = stem_units(stems, list, n);
    if n == 0 {
        assert(stem_part(stems, list, op)->0 + rest =~= rest);
    } else {
        let args = stem_args(stems, list, n)->0;
        assert((args + seq![op]) + rest =~= args + (seq![op] + rest));
        lemma_stem_operands(stems, list, n, seq![op] + rest, r);
        let b = Reading { args: r.args + units, ..r };
        if r.args.len() == 1 {
            assert(b.args.skip(1) =~= units);
            assert(b.args.len() == 2 * n + 1);
        } else {
            assert(b.args =~= units);
        }
        assert(2 * (b.args.len() as int / 2) == 2 * n);
        assert(read_operator(b, op)->0 == after_stems(r, horiz, units));
        lemma_operator(op, rest, b);
    }
}

// --- glyphs -----------------------------------------------------------------------------------------

proof fn lemma_no_duplicates<N: Number>(stems: Seq<Stem<N>>, horiz: bool, n: int)
    requires
        0 <= n <= stems.len() <= usize::MAX,
    ensures
        ordered(stems, horiz, n).no_duplicates(),
    decreases n,
{
    if n > 0 {
        lemma_no_duplicates(stems, horiz, n - 1);
        lemma_ordered(stems, horiz, n - 1);
        let list = ordered(stems, horiz, n - 1);
        let x = (n - 1) as usize;
        if stems[n - 1].horiz == horiz {
            let p = crate::type1::emit::stem_place(stems, list, x, 0);
            crate::type1::emit::lemma_stem_place(stems, list, x, 0);
            let next = list.insert(p, x);
            assert forall|i: int, j: int| 0 <= i < j < next.len() implies next[i] != next[j] by {
                let a = if i < p {
                    i
                } else {
                    i - 1
                };
                let b = if j < p {
                    j
                } else {
                    j - 1
                };
                if i != p {
                    assert(next[i] == list[a]);
                }
                if j != p {
                    assert(next[j] == list[b]);
                }
            }
        }
    }
}

/// The order of the stems of a glyph: the horizontal ones and then the
/// vertical ones. Each stem is in it once.
pub open spec fn stem_order<N: Number>(g: GlyphValue<N>) -> Seq<usize> {
    ordered(g.stems, true, g.stems.len() as int) + ordered(
        g.stems,
        false,
        g.stems.len() as int,
    )
}

/// The order holds each stem exactly once, the horizontal ones first.
pub proof fn each_stem_is_written_once<N: Number>(g: GlyphValue<N>)
    requires
        g.stems.len() <= usize::MAX,
    ensures
        stem_order(g).no_duplicates(),
        forall|i: usize| i < g.stems.len() <==> #[trigger] stem_order(g).contains(i),
        forall|p: int, q: int|
            0 <= p < q < stem_order(g).len() && g.stems[(#[trigger] stem_order(g)[q]) as int].horiz
                ==> g.stems[(#[trigger] stem_order(g)[p]) as int].horiz,
{
    let n = g.stems.len() as int;
    let h = ordered(g.stems, true, n);
    let v = ordered(g.stems, false, n);
    let order = h + v;
    lemma_ordered(g.stems, true, n);
    lemma_ordered(g.stems, false, n);
    lemma_no_duplicates(g.stems, true, n);
    lemma_no_duplicates(g.stems, false, n);
    assert forall|p: int| 0 <= p < order.len() implies (#[trigger] order[p]) < n
        && g.stems[order[p] as int].horiz == (p < h.len()) by {
        if p < h.len() {
            assert(order[p] == h[p]);
        } else {
            assert(order[p] == v[p - h.len()]);
        }
    }
    assert forall|i: int, j: int| 0 <= i < j < order.len() implies order[i] != order[j] by {
        if j < h.len() {
            assert(h[i] != h[j]);
        } else if i >= h.len() {
            assert(v[i - h.len()] != v[j - h.len()]);
        }
    }
    assert forall|i: usize| i < n implies #[trigger] order.contains(i) by {
        if g.stems[i as int].horiz {
            assert(h.contains(i as int as usize));
            let k = choose|k: int| 0 <= k < h.len() && h[k] == i;
            assert(order[k] == i);
        } else {
            assert(v.contains(i as int as usize));
            let k = choose|k: int| 0 <= k < v.len() && v[k] == i;
            assert(order[h.len() + k] == i);
        }
    }
}

/// A mask says of each stem whether it is active, by its place in the order.
proof fn lemma_mask_bits<N: Number>(g: GlyphValue<N>, k: int, p: int)
    requires
        glyph_ok(g),
        g.stems.len() <= usize::MAX,
        0 <= k < g.segments.len(),
        0 <= p < stem_order(g).len(),
    ensures
        bit_set(
            mask_bytes(stem_order(g), g.segments[k].active, g.segments[k].active.len() as int),
            p,
        ) <==> g.segments[k].active.contains(stem_order(g)[p]),
{
    let order = stem_order(g);
    let active = g.segments[k].active;
    each_stem_is_written_once(g);
    assert(all_below(active, g.stems.len()));
    assert forall|i: int| 0 <= i < active.len() implies order.contains(#[trigger] active[i]) by {}
    masks_hold_the_active_stems(order, active, active.len() as int, p);
    assert forall|i: int| 0 <= i < active.len() implies (place_of(order, #[trigger] active[i], 0)
        == p <==> active[i] == order[p]) by {
        assert(order.contains(active[i]));
        lemma_place_of(order, active[i], 0);
    }
    if active.contains(order[p]) {
        let i = choose|i: int| 0 <= i < active.len() && active[i] == order[p];
        assert(place_of(order, active[i], 0) == p);
    }
}

/// The sum of the first `n` operands.
pub open spec fn sum_of(args: Seq<int>, n: int) -> int
    decreases n,
{
    if n <= 0 {
        0
    } else {
        sum_of(args, n - 1) + args[n - 1]
    }
}

proof fn lemma_sum_same(a: Seq<int>, b: Seq<int>, n: int)
    requires
        forall|i: int| 0 <= i < n ==> a[i] == b[i],
    ensures
        sum_of(a, n) == sum_of(b, n),
    decreases n,
{
    if n > 0 {
        lemma_sum_same(a, b, n - 1);
    }
}

/// The distances between the edges of stems are computed without loss.
pub open spec fn exact_edges<N: Number>(stems: Seq<Stem<N>>) -> bool {
    &&& forall|i: int|
        0 <= i < stems.len() ==> in_units((#[trigger] stems[i]).lo.difference(N::integer(0)))
            == in_units(stems[i].lo)
    &&& forall|i: int, j: int|
        0 <= i < stems.len() && 0 <= j < stems.len() ==> in_units(
            (#[trigger] stems[i]).lo.difference((#[trigger] stems[j]).lo.sum(stems[j].ext)),
        ) == in_units(stems[i].lo) - in_units(stems[j].lo) - in_units(stems[j].ext)
}

proof fn lemma_edges<N: Number>(stems: Seq<Stem<N>>, list: Seq<usize>, n: int, k: int)
    requires
        0 <= k < n <= list.len(),
        all_below(list, stems.len()),
        exact_edges(stems),
    ensures
        stem_units(stems, list, n).len() == 2 * n,
        sum_of(stem_units(stems, list, n), 2 * k + 1) == in_units(stems[list[k] as int].lo),
        sum_of(stem_units(stems, list, n), 2 * k + 2) == in_units(stems[list[k] as int].lo)
            + in_units(stems[list[k] as int].ext),
    decreases n,
{
    let u = stem_units(stems, list, n);
    let before = stem_units(stems, list, n - 1);
    lemma_units_len(stems, list, n - 1);
    assert forall|i: int| 0 <= i < 2 * (n - 1) implies u[i] == before[i] by {}
    let s = stems[list[n - 1] as int];
    assert(list[n - 1] < stems.len());
    if k < n - 1 {
        lemma_edges(stems, list, n - 1, k);
        lemma_sum_same(u, before, 2 * k + 1);
        lemma_sum_same(u, before, 2 * k + 2);
    } else {
        lemma_sum_same(u, before, 2 * k);
        if k > 0 {
            lemma_edges(stems, list, n - 1, k - 1);
            assert(list[k - 1] < stems.len());
            assert(stem_end(stems, list, k) == stems[list[k - 1] as int].lo.sum(
                stems[list[k - 1] as int].ext,
            ));
            assert(2 * (k - 1) + 2 == 2 * k);
        }
        assert(sum_of(u, 2 * k + 1) == sum_of(u, 2 * k) + u[2 * k]);
        assert(sum_of(u, 2 * k + 2) == sum_of(u, 2 * k + 1) + u[2 * k + 1]);
    }
}

proof fn lemma_units_len<N: Number>(stems: Seq<Stem<N>>, list: Seq<usize>, n: int)
    requires
        0 <= n,
    ensures
        stem_units(stems, list, n).len() == 2 * n,
    decreases n,
{
    if n > 0 {
        lemma_units_len(stems, list, n - 1);
    }
}

/// The glyph starts with a move, or has stems, or draws nothing: its width is
/// heard where it is written.
pub open spec fn starts_with_move<N>(g: GlyphValue<N>) -> bool {
    g.stems.len() > 0 || g.segments.len() == 0 || (g.segments[0].ops.len() > 0
        && g.segments[0].ops[0] is Move)
}

/// What a reader finds in the program that was written for a glyph.
pub open spec fn tells_the_glyph<N: Number>(
    r: Reading,
    g: GlyphValue<N>,
    default_width: N,
    nominal_width: N,
) -> bool {
    let order = stem_order(g);
    let count = r.hstems.len() as int / 2;
    &&& r.path == outline(|v: N| in_units(v), all_ops(g.segments, g.segments.len() as int))
    &&& r.width == if g.width.equals(default_width) {
        None
    } else {
        Some(in_units(g.width.difference(nominal_width)))
    }
    &&& r.hstems.len() + r.vstems.len() == 2 * g.stems.len()
    &&& forall|p: int|
        0 <= p < count && exact_edges(g.stems) ==> {
            let s = g.stems[(#[trigger] order[p]) as int];
            &&& s.horiz
            &&& sum_of(r.hstems, 2 * p + 1) == in_units(s.lo)
            &&& sum_of(r.hstems, 2 * p + 2) == in_units(s.lo) + in_units(s.ext)
        }
    &&& forall|p: int|
        count <= p < order.len() && exact_edges(g.stems) ==> {
            let s = g.stems[(#[trigger] order[p]) as int];
            &&& !s.horiz
            &&& sum_of(r.vstems, 2 * (p - count) + 1) == in_units(s.lo)
            &&& sum_of(r.vstems, 2 * (p - count) + 2) == in_units(s.lo) + in_units(s.ext)
        }
    &&& if g.segments.len() > 1 && g.stems.len() > 0 {
        &&& r.masks.len() == g.segments.len()
        &&& forall|k: int|
            0 <= k < g.segments.len() ==> (#[trigger] r.masks[k]).0 == all_ops(
                g.segments,
                k,
            ).len()
        &&& forall|k: int, p: int|
            #![trigger r.masks[k], order[p]]
            0 <= k < g.segments.len() && 0 <= p < order.len() ==> (bit_set(r.masks[k].1, p)
                <==> g.segments[k].active.contains(order[p]))
    } else {
        r.masks.len() == 0
    }
}

proof fn lemma_head<N: Number>(
    g: GlyphValue<N>,
    masks: bool,
    default_width: N,
    nominal_width: N,
    rest: Seq<u8>,
)
    requires
        ({
            let n = g.stems.len() as int;
            head_part(
                g,
                ordered(g.stems, true, n),
                ordered(g.stems, false, n),
                masks,
                default_width,
                nominal_width,
            ) is Some
        }),
    ensures
        ({
            let n = g.stems.len() as int;
            let h = ordered(g.stems, true, n);
            let v = ordered(g.stems, false, n);
            let e = read_head(g, default_width, nominal_width);
            &&& read_program(
                head_part(g, h, v, masks, default_width, nominal_width)->0 + rest,
                unread(),
            ) == read_program(rest, e)
            &&& stem_units(g.stems, h, h.len() as int).len() == 2 * h.len()
            &&& stem_units(g.stems, v, v.len() as int).len() == 2 * v.len()
        }),
{
    let n = g.stems.len() as int;
    let h = ordered(g.stems, true, n);
    let v = ordered(g.stems, false, n);
    let w = width_part(g.width, default_width, nominal_width)->0;
    let hop: u8 = if masks {
        18
    } else {
        1
    };
    let vop: u8 = if masks {
        23
    } else {
        3
    };
    let hs = stem_part(g.stems, h, hop)->0;
    let vs = stem_part(g.stems, v, vop)->0;
    assert(((w + hs) + vs) + rest =~= w + (hs + (vs + rest)));
    let r0 = read_width(g, default_width, nominal_width);
    if g.width.equals(default_width) {
        assert(w + (hs + (vs + rest)) =~= hs + (vs + rest));
    } else {
        lemma_operand(g.width.difference(nominal_width), hs + (vs + rest), unread());
    }
    lemma_stem_part(g.stems, h, true, hop, vs + rest, r0);
    let r1 = after_stems(r0, true, stem_units(g.stems, h, h.len() as int));
    lemma_stem_part(g.stems, v, false, vop, rest, r1);
}

/// The reading after the width.
pub open spec fn read_width<N: Number>(
    g: GlyphValue<N>,
    default_width: N,
    nominal_width: N,
) -> Reading {
    if g.width.equals(default_width) {
        unread()
    } else {
        with_arg(unread(), in_units(g.width.difference(nominal_width)))
    }
}

/// The reading after the width and the stems.
pub open spec fn read_head<N: Number>(
    g: GlyphValue<N>,
    default_width: N,
    nominal_width: N,
) -> Reading {
    let n = g.stems.len() as int;
    let h = ordered(g.stems, true, n);
    let v = ordered(g.stems, false, n);
    after_stems(
        after_stems(
            read_width(g, default_width, nominal_width),
            true,
            stem_units(g.stems, h, h.len() as int),
        ),
        false,
        stem_units(g.stems, v, v.len() as int),
    )
}

proof fn lemma_stem_count<N: Number>(g: GlyphValue<N>)
    requires
        g.stems.len() <= usize::MAX,
    ensures
        stem_order(g).len() == g.stems.len(),
{
    each_stem_is_written_once(g);
    let order = stem_order(g);
    let places = Seq::new(g.stems.len(), |i: int| i as usize);
    assert(places.no_duplicates());
    assert(order.to_set() =~= places.to_set()) by {
        assert forall|x: usize| order.to_set().contains(x) <==> places.to_set().contains(x) by {
            if x < g.stems.len() {
                assert(order.contains(x));
                assert(places[x as int] == x);
            }
            if places.contains(x) {
                let i = choose|i: int| 0 <= i < places.len() && places[i] == x;
                assert(places[i] == i as usize);
            }
            if order.contains(x) {
                assert(x < g.stems.len());
            }
        }
    }
    order.unique_seq_to_set();
    places.unique_seq_to_set();
}

/// The program that is written for a glyph draws the glyph: a reader finds
/// the points of its outline, its width where it is not the default, the
/// edges of its stems, and which of them are active in each part.
pub proof fn glyph_is_redrawn<N: Number>(g: GlyphValue<N>, default_width: N, nominal_width: N)
    requires
        zero_is_zero::<N>(),
        glyph_ok(g),
        g.stems.len() <= usize::MAX,
        g.width.equals(default_width) || starts_with_move(g),
        charstring(g, default_width, nominal_width) is Some,
    ensures
        read_program(charstring(g, default_width, nominal_width)->0, unread()) is Some,
        tells_the_glyph(
            read_program(charstring(g, default_width, nominal_width)->0, unread())->0,
            g,
            default_width,
            nominal_width,
        ),
{
    let n = g.stems.len() as int;
    let h = ordered(g.stems, true, n);
    let v = ordered(g.stems, false, n);
    let order = stem_order(g);
    let masks = g.segments.len() > 1 && h.len() + v.len() > 0;
    let head = head_part(g, h, v, masks, default_width, nominal_width)->0;
    let total = g.segments.len() as int;
    let body = segments_bytes(g.segments, order, masks, total)->0;
    let end = seq![14u8];
    assert((head + body) + end =~= head + (body + end));
    lemma_head(g, masks, default_width, nominal_width, body + end);
    lemma_stem_count(g);
    each_stem_is_written_once(g);
    lemma_ordered(g.stems, true, n);
    lemma_ordered(g.stems, false, n);
    let r = read_head(g, default_width, nominal_width);
    assert forall|k: int, i: int|
        0 <= k < g.segments.len() && 0 <= i < g.segments[k].active.len() implies order.contains(
        #[trigger] g.segments[k].active[i],
    ) by {
        assert(all_below(g.segments[k].active, g.stems.len()));
    }
    lemma_segments(g.segments, order, masks, total, end, r);
    let e = after_segments(r, g.segments, order, masks, total);
    let read = read_program(charstring(g, default_width, nominal_width)->0, unread());
    assert(read == read_program(end, e));
    assert(read is Some && read->0 == (taken(e, 0)->0).1) by {
        reveal(read_program);
    }
    let hu = stem_units(g.stems, h, h.len() as int);
    let vu = stem_units(g.stems, v, v.len() as int);
    assert(r.hstems =~= hu);
    assert(r.vstems =~= vu);
    let f = read->0;
    let count = f.hstems.len() as int / 2;
    assert(count == h.len());
    if exact_edges(g.stems) {
        assert forall|p: int| 0 <= p < count implies {
            let s = g.stems[(#[trigger] order[p]) as int];
            &&& s.horiz
            &&& sum_of(f.hstems, 2 * p + 1) == in_units(s.lo)
            &&& sum_of(f.hstems, 2 * p + 2) == in_units(s.lo) + in_units(s.ext)
        } by {
            assert(order[p] == h[p]);
            lemma_edges(g.stems, h, h.len() as int, p);
        }
        assert forall|p: int| count <= p < order.len() implies {
            let s = g.stems[(#[trigger] order[p]) as int];
            &&& !s.horiz
            &&& sum_of(f.vstems, 2 * (p - count) + 1) == in_units(s.lo)
            &&& sum_of(f.vstems, 2 * (p - count) + 2) == in_units(s.lo) + in_units(s.ext)
        } by {
            assert(order[p] == v[p - count]);
            lemma_edges(g.stems, v, v.len() as int, p - count);
        }
    }
    if masks {
        assert forall|k: int, p: int|
            #![trigger f.masks[k], order[p]]
            0 <= k < total && 0 <= p < order.len() implies (bit_set(f.masks[k].1, p)
            <==> g.segments[k].active.contains(order[p])) by {
            lemma_mask_bits(g, k, p);
        }
    }
}

} // verus!
