//! The outlines that glyph programs draw, in points on the plane.
//!
//! An outline is told by the points that it goes through. The path operators
//! of a Type 1 program draw the points that their operands lead to, and a
//! reader of the Type 2 program of a glyph draws the same points again.

use crate::type1::interp::{
    activated, all_ops, composite, drawn, end_of, escaped, flexed, joined_outline, moved, operated,
    places_in_order, plain_glyph, run, stem_added, GlyphValue, MAX_STACK, MachineValue, PathOp,
    Seac, SegmentValue, Stem,
};
use crate::type1::number::Number;
use crate::type1::parse::FontValue;
use crate::type1::standard::standard_glyph;
use vstd::prelude::*;

verus! {

// --- outlines --------------------------------------------------------------------------------------

/// A step of an outline, by the points that it leads to: a curve has two
/// control points and an end.
pub enum Step {
    Move((int, int)),
    Line((int, int)),
    Curve((int, int), (int, int), (int, int)),
}

/// The point that lies `dx` and `dy` from another.
pub open spec fn ahead<N>(val: spec_fn(N) -> int, from: (int, int), dx: N, dy: N) -> (int, int) {
    (from.0 + val(dx), from.1 + val(dy))
}

/// The step that a relative path operation takes from a point: each pair of a
/// curve counts from the point before.
pub open spec fn step_of<N>(val: spec_fn(N) -> int, from: (int, int), op: PathOp<N>) -> Step {
    match op {
        PathOp::Move(dx, dy) => Step::Move(ahead(val, from, dx, dy)),
        PathOp::Line(dx, dy) => Step::Line(ahead(val, from, dx, dy)),
        PathOp::Curve(a, b, c, d, e, f) => Step::Curve(
            ahead(val, from, a, b),
            ahead(val, ahead(val, from, a, b), c, d),
            ahead(val, ahead(val, ahead(val, from, a, b), c, d), e, f),
        ),
    }
}

/// Where a step ends.
pub open spec fn step_end(s: Step) -> (int, int) {
    match s {
        Step::Move(p) => p,
        Step::Line(p) => p,
        Step::Curve(_, _, p) => p,
    }
}

/// Where an outline ends; one without steps ends at the origin.
pub open spec fn outline_end(path: Seq<Step>) -> (int, int) {
    if path.len() == 0 {
        (0, 0)
    } else {
        step_end(path.last())
    }
}

/// The outline of path operations that start at the origin.
pub open spec fn outline<N>(val: spec_fn(N) -> int, ops: Seq<PathOp<N>>) -> Seq<Step>
    decreases ops.len(),
{
    if ops.len() == 0 {
        Seq::empty()
    } else {
        let before = outline(val, ops.drop_last());
        before.push(step_of(val, outline_end(before), ops.last()))
    }
}

/// The operations that the machine has drawn, in all its segments.
pub open spec fn drawing<N>(m: MachineValue<N>) -> Seq<PathOp<N>> {
    all_ops(m.segments, m.segments.len() as int)
}

/// The machines agree on all but their operands and what they have drawn.
pub open spec fn otherwise_alike<N>(m: MachineValue<N>, r: MachineValue<N>) -> bool {
    &&& r.results == m.results
    &&& r.width == m.width
    &&& r.sb == m.sb
    &&& r.stems == m.stems
    &&& r.active == m.active
    &&& r.replace_pending == m.replace_pending
    &&& r.in_flex == m.in_flex
    &&& r.flex == m.flex
    &&& r.seac == m.seac
}

proof fn lemma_all_ops_same<N>(a: Seq<SegmentValue<N>>, b: Seq<SegmentValue<N>>, n: int)
    requires
        0 <= n <= a.len(),
        n <= b.len(),
        forall|i: int| 0 <= i < n ==> a[i] == b[i],
    ensures
        all_ops(a, n) == all_ops(b, n),
    decreases n,
{
    if n > 0 {
        lemma_all_ops_same(a, b, n - 1);
    }
}

/// Drawing an operation puts it behind all that was drawn before.
proof fn lemma_drawn<N: Number>(m: MachineValue<N>, op: PathOp<N>)
    ensures
        drawing(drawn(m, op)) == drawing(m).push(op),
        drawn(m, op).stack == m.stack,
        drawn(m, op).path_started == m.path_started,
        otherwise_alike(m, drawn(m, op)),
{
    let r = drawn(m, op);
    let n = m.segments.len() as int;
    if n == 0 || m.dirty {
        lemma_all_ops_same(m.segments, r.segments, n);
        assert(r.segments[n] == r.segments.last());
        assert(all_ops(r.segments, n + 1) =~= all_ops(m.segments, n).push(op));
    } else {
        lemma_all_ops_same(m.segments, r.segments, n - 1);
        assert(r.segments[n - 1] == r.segments.last());
        assert(all_ops(r.segments, n) =~= all_ops(m.segments, n).push(op));
    }
}

/// The machine `r` has drawn one step more than `m`, which leads from any
/// point to where `step` says, and has the operands `rest` left.
pub open spec fn draws<N>(
    m: MachineValue<N>,
    r: Option<MachineValue<N>>,
    rest: Seq<N>,
    step: spec_fn(spec_fn(N) -> int, (int, int)) -> Step,
) -> bool {
    &&& r is Some
    &&& r->0.stack == rest
    &&& otherwise_alike(m, r->0)
    &&& drawing(r->0).len() == drawing(m).len() + 1
    &&& drawing(r->0).drop_last() == drawing(m)
    &&& forall|val: spec_fn(N) -> int, from: (int, int)| #[trigger]
        step_of(val, from, drawing(r->0).last()) == step(val, from)
}

proof fn lemma_draws<N: Number>(
    m: MachineValue<N>,
    p: MachineValue<N>,
    op: PathOp<N>,
    rest: Seq<N>,
    step: spec_fn(spec_fn(N) -> int, (int, int)) -> Step,
)
    requires
        p.stack == rest,
        p.segments == m.segments,
        otherwise_alike(m, p),
        forall|val: spec_fn(N) -> int, from: (int, int)| #[trigger]
            step_of(val, from, op) == step(val, from),
    ensures
        draws(m, Some(drawn(p, op)), rest, step),
{
    lemma_drawn(p, op);
    let r = drawn(p, op);
    assert(drawing(r).drop_last() =~= drawing(m));
    assert(drawing(r).last() == op);
}

// --- the path operators of a Type 1 program ----------------------------------------------------------

/// `rlineto` (5) draws a line to the point that its operands lead to.
pub proof fn rlineto_draws<N: Number>(m: MachineValue<N>, rest: Seq<N>, dx: N, dy: N)
    requires
        m.stack == rest + seq![dx, dy],
    ensures
        draws(
            m,
            operated(m, 5),
            rest,
            |val: spec_fn(N) -> int, from: (int, int)|
                Step::Line((from.0 + val(dx), from.1 + val(dy))),
        ),
{
    let p = MachineValue { stack: rest, ..m };
    assert(m.stack.take(m.stack.len() - 2) =~= rest);
    assert(operated(m, 5) == Some(drawn(p, PathOp::Line(dx, dy))));
    lemma_draws(
        m,
        p,
        PathOp::Line(dx, dy),
        rest,
        |val: spec_fn(N) -> int, from: (int, int)|
            Step::Line((from.0 + val(dx), from.1 + val(dy))),
    );
}

/// `rrcurveto` (8) draws a curve: the first control point lies the first pair
/// of operands from where the pen is, the second control point the second
/// pair from the first, and the end the third pair from the second.
pub proof fn rrcurveto_draws<N: Number>(
    m: MachineValue<N>,
    rest: Seq<N>,
    dx1: N,
    dy1: N,
    dx2: N,
    dy2: N,
    dx3: N,
    dy3: N,
)
    requires
        m.stack == rest + seq![dx1, dy1, dx2, dy2, dx3, dy3],
    ensures
        draws(
            m,
            operated(m, 8),
            rest,
            |val: spec_fn(N) -> int, from: (int, int)|
                Step::Curve(
                    (from.0 + val(dx1), from.1 + val(dy1)),
                    (from.0 + val(dx1) + val(dx2), from.1 + val(dy1) + val(dy2)),
                    (
                        from.0 + val(dx1) + val(dx2) + val(dx3),
                        from.1 + val(dy1) + val(dy2) + val(dy3),
                    ),
                ),
        ),
{
    let p = MachineValue { stack: rest, ..m };
    let op = PathOp::Curve(dx1, dy1, dx2, dy2, dx3, dy3);
    assert(m.stack.take(m.stack.len() - 6) =~= rest);
    assert(operated(m, 8) == Some(drawn(p, op)));
    lemma_draws(
        m,
        p,
        op,
        rest,
        |val: spec_fn(N) -> int, from: (int, int)|
            Step::Curve(
                (from.0 + val(dx1), from.1 + val(dy1)),
                (from.0 + val(dx1) + val(dx2), from.1 + val(dy1) + val(dy2)),
                (
                    from.0 + val(dx1) + val(dx2) + val(dx3),
                    from.1 + val(dy1) + val(dy2) + val(dy3),
                ),
            ),
    );
}

/// `hlineto` (6) and `vlineto` (7) do what `rlineto` does with a zero.
pub proof fn straight_lines_are_lines<N: Number>(m: MachineValue<N>, rest: Seq<N>, d: N)
    ensures
        operated(MachineValue { stack: rest.push(d), ..m }, 6) == operated(
            MachineValue { stack: rest + seq![d, N::integer(0)], ..m },
            5,
        ),
        operated(MachineValue { stack: rest.push(d), ..m }, 7) == operated(
            MachineValue { stack: rest + seq![N::integer(0), d], ..m },
            5,
        ),
{
    let zero = N::integer(0);
    assert(rest.push(d).take(rest.len() as int) =~= rest);
    assert((rest + seq![d, zero]).take(rest.len() as int) =~= rest);
    assert((rest + seq![zero, d]).take(rest.len() as int) =~= rest);
}

/// `vhcurveto` (30) and `hvcurveto` (31) do what `rrcurveto` does where the
/// curve starts and ends along an axis.
pub proof fn straight_curves_are_curves<N: Number>(
    m: MachineValue<N>,
    rest: Seq<N>,
    d1: N,
    dx2: N,
    dy2: N,
    d3: N,
)
    ensures
        operated(MachineValue { stack: rest + seq![d1, dx2, dy2, d3], ..m }, 30) == operated(
            MachineValue {
                stack: rest + seq![N::integer(0), d1, dx2, dy2, d3, N::integer(0)],
                ..m
            },
            8,
        ),
        operated(MachineValue { stack: rest + seq![d1, dx2, dy2, d3], ..m }, 31) == operated(
            MachineValue {
                stack: rest + seq![d1, N::integer(0), dx2, dy2, N::integer(0), d3],
                ..m
            },
            8,
        ),
{
    let zero = N::integer(0);
    assert((rest + seq![d1, dx2, dy2, d3]).take(rest.len() as int) =~= rest);
    assert((rest + seq![zero, d1, dx2, dy2, d3, zero]).take(rest.len() as int) =~= rest);
    assert((rest + seq![d1, zero, dx2, dy2, zero, d3]).take(rest.len() as int) =~= rest);
}

/// `hmoveto` (22) and `vmoveto` (4) do what `rmoveto` (21) does with a zero.
pub proof fn straight_moves_are_moves<N: Number>(m: MachineValue<N>, rest: Seq<N>, d: N)
    ensures
        operated(MachineValue { stack: rest.push(d), ..m }, 22) == operated(
            MachineValue { stack: rest + seq![d, N::integer(0)], ..m },
            21,
        ),
        operated(MachineValue { stack: rest.push(d), ..m }, 4) == operated(
            MachineValue { stack: rest + seq![N::integer(0), d], ..m },
            21,
        ),
{
    let zero = N::integer(0);
    assert(rest.push(d).take(rest.len() as int) =~= rest);
    assert((rest + seq![d, zero]).take(rest.len() as int) =~= rest);
    assert((rest + seq![zero, d]).take(rest.len() as int) =~= rest);
}

/// `rmoveto` (21) moves the pen to the point that its operands lead to. The
/// first move of a glyph counts from the sidebearing point.
pub proof fn rmoveto_draws<N: Number>(m: MachineValue<N>, rest: Seq<N>, dx: N, dy: N)
    requires
        m.stack == rest + seq![dx, dy],
        !m.in_flex,
    ensures
        draws(
            m,
            operated(m, 21),
            rest,
            |val: spec_fn(N) -> int, from: (int, int)|
                if m.path_started {
                    Step::Move((from.0 + val(dx), from.1 + val(dy)))
                } else {
                    Step::Move((from.0 + val(dx.sum(m.sb.0)), from.1 + val(dy.sum(m.sb.1))))
                },
        ),
        operated(m, 21)->0.path_started,
{
    let p = MachineValue { stack: rest, path_started: true, ..m };
    let q = MachineValue { stack: rest, ..m };
    let op = if m.path_started {
        PathOp::Move(dx, dy)
    } else {
        PathOp::Move(dx.sum(m.sb.0), dy.sum(m.sb.1))
    };
    assert(m.stack.take(m.stack.len() - 2) =~= rest);
    assert(operated(m, 21) == Some(moved(q, dx, dy)));
    assert(moved(q, dx, dy) == drawn(p, op));
    lemma_drawn(p, op);
    lemma_draws(
        m,
        p,
        op,
        rest,
        |val: spec_fn(N) -> int, from: (int, int)|
            if m.path_started {
                Step::Move((from.0 + val(dx), from.1 + val(dy)))
            } else {
                Step::Move((from.0 + val(dx.sum(m.sb.0)), from.1 + val(dy.sum(m.sb.1))))
            },
    );
}

/// A move inside flex draws nothing: it is a point of the flex.
pub proof fn flex_points_are_kept<N: Number>(m: MachineValue<N>, rest: Seq<N>, dx: N, dy: N)
    requires
        m.stack == rest + seq![dx, dy],
        m.in_flex,
    ensures
        operated(m, 21) is Some,
        operated(m, 21)->0.flex == m.flex.push((dx, dy)),
        operated(m, 21)->0.segments == m.segments,
        operated(m, 21)->0.stack == rest,
        operated(m, 21)->0.in_flex,
{
    assert(m.stack.take(m.stack.len() - 2) =~= rest);
}

/// A flex of seven points is drawn as two curves. The first control point
/// lies the first two of them from where the pen was, since the first is a
/// point of reference; each of the others counts from the one before.
pub proof fn flex_draws_two_curves<N: Number>(m: MachineValue<N>, val: spec_fn(N) -> int)
    requires
        m.in_flex,
        m.flex.len() == 7,
        val(m.flex[0].0.sum(m.flex[1].0)) == val(m.flex[0].0) + val(m.flex[1].0),
        val(m.flex[0].1.sum(m.flex[1].1)) == val(m.flex[0].1) + val(m.flex[1].1),
    ensures
        ({
            let r = flexed(m);
            let from = outline_end(outline(val, drawing(m)));
            let reference = ahead(val, from, m.flex[0].0, m.flex[0].1);
            let p1 = ahead(val, reference, m.flex[1].0, m.flex[1].1);
            let p2 = ahead(val, p1, m.flex[2].0, m.flex[2].1);
            let p3 = ahead(val, p2, m.flex[3].0, m.flex[3].1);
            let p4 = ahead(val, p3, m.flex[4].0, m.flex[4].1);
            let p5 = ahead(val, p4, m.flex[5].0, m.flex[5].1);
            let p6 = ahead(val, p5, m.flex[6].0, m.flex[6].1);
            &&& outline(val, drawing(r)) == outline(val, drawing(m)) + seq![
                Step::Curve(p1, p2, p3),
                Step::Curve(p4, p5, p6),
            ]
            &&& !r.in_flex
            &&& r.flex.len() == 0
            &&& r.stack == m.stack
            &&& r.stems == m.stems
        }),
{
    let p = m.flex;
    let q = MachineValue { flex: Seq::empty(), in_flex: false, ..m };
    let one = PathOp::Curve(
        p[0].0.sum(p[1].0),
        p[0].1.sum(p[1].1),
        p[2].0,
        p[2].1,
        p[3].0,
        p[3].1,
    );
    let two = PathOp::Curve(p[4].0, p[4].1, p[5].0, p[5].1, p[6].0, p[6].1);
    lemma_drawn(q, one);
    lemma_drawn(drawn(q, one), two);
    let ops = drawing(m);
    assert(ops.push(one).drop_last() =~= ops);
    assert(ops.push(one).push(two).drop_last() =~= ops.push(one));
    let o = outline(val, ops);
    let o1 = outline(val, ops.push(one));
    let o2 = outline(val, ops.push(one).push(two));
    assert(o1 == o.push(step_of(val, outline_end(o), one)));
    assert(o2 == o1.push(step_of(val, outline_end(o1), two)));
    assert(drawing(flexed(m)) == ops.push(one).push(two));
    assert(o2 =~= o + seq![o2[o.len() as int], o2[o.len() as int + 1]]);
}

// --- widths, hints, quotients ------------------------------------------------------------------------

/// `hsbw` (13) says the horizontal sidebearing and then the width, and does
/// what `sbw` (12 7) does whose vertical parts are zero.
pub proof fn hsbw_says_the_metrics<N: Number>(m: MachineValue<N>, sbx: N, wx: N)
    requires
        !m.path_started,
        N::integer(0).equals(N::integer(0)),
    ensures
        ({
            let zero = N::integer(0);
            let short = operated(MachineValue { stack: seq![sbx, wx], ..m }, 13);
            let long = escaped(MachineValue { stack: seq![sbx, zero, wx, zero], ..m }, 7);
            &&& short is Some
            &&& long == Some((short->0, false))
            &&& short->0.sb == (sbx, zero)
            &&& short->0.width == Some(wx)
            &&& short->0.segments == m.segments
            &&& short->0.stems == m.stems
        }),
{
}

/// The machine `r` has a stem declared that `m` may not have had, and has the
/// operands `rest` left. A stem that was there before is not there twice, and
/// is active from now on; what was active stays so unless the hints are to be
/// replaced, and nothing is drawn.
pub open spec fn declares<N: Number>(
    m: MachineValue<N>,
    r: MachineValue<N>,
    rest: Seq<N>,
    stem: Stem<N>,
) -> bool {
    &&& r.stack == rest
    &&& r.segments == m.segments
    &&& r.sb == m.sb
    &&& !r.replace_pending
    &&& m.stems.is_prefix_of(r.stems)
    &&& (forall|k: int|
        0 <= k < m.stems.len() ==> !alike_stems(#[trigger] m.stems[k], stem)) ==> r.stems
        == m.stems.push(stem)
    &&& (exists|k: int| 0 <= k < m.stems.len() && alike_stems(#[trigger] m.stems[k], stem))
        ==> r.stems == m.stems
    &&& exists|k: usize| #[trigger]
        r.active.contains(k) && k < r.stems.len() && (r.stems[k as int] == stem || alike_stems(
            r.stems[k as int],
            stem,
        ))
    &&& !m.replace_pending ==> forall|k: usize|
        m.active.contains(k) ==> #[trigger] r.active.contains(k)
    &&& m.replace_pending ==> r.active.len() == 1
}

/// The stems run the same way, start at one place and are equally wide.
pub open spec fn alike_stems<N: Number>(a: Stem<N>, b: Stem<N>) -> bool {
    a.horiz == b.horiz && a.lo.equals(b.lo) && a.ext.equals(b.ext)
}

proof fn lemma_stem_index<N: Number>(stems: Seq<Stem<N>>, stem: Stem<N>, i: int)
    requires
        0 <= i <= stems.len(),
    ensures
        match crate::type1::interp::stem_index(stems, stem, i) {
            Some(k) => i <= k < stems.len() && alike_stems(stems[k], stem),
            None => forall|k: int|
                i <= k < stems.len() ==> !alike_stems(#[trigger] stems[k], stem),
        },
    decreases stems.len() - i,
{
    if i < stems.len() {
        lemma_stem_index(stems, stem, i + 1);
    }
}

proof fn lemma_stem_added<N: Number>(m: MachineValue<N>, stem: Stem<N>)
    requires
        m.stems.len() < 96,
    ensures
        stem_added(m, stem.horiz, stem.lo, stem.ext) is Some,
        declares(m, stem_added(m, stem.horiz, stem.lo, stem.ext)->0, m.stack, stem),
{
    lemma_stem_index(m.stems, stem, 0);
    let r = stem_added(m, stem.horiz, stem.lo, stem.ext)->0;
    let n = if m.replace_pending {
        MachineValue { active: Seq::empty(), replace_pending: false, dirty: true, ..m }
    } else {
        m
    };
    let i = match crate::type1::interp::stem_index(m.stems, stem, 0) {
        Some(i) => i as usize,
        None => m.stems.len() as usize,
    };
    let with = MachineValue { stems: r.stems, ..n };
    assert(r == activated(with, i));
    if !n.active.contains(i) {
        assert(r.active == n.active.push(i));
        assert(r.active[n.active.len() as int] == i);
        assert forall|k: usize| n.active.contains(k) implies #[trigger] r.active.contains(k) by {
            let j = choose|j: int| 0 <= j < n.active.len() && n.active[j] == k;
            assert(r.active[j] == k);
        }
    }
    assert(r.active.contains(i));
}

/// `hstem` (1) and `vstem` (3) declare a stem: its edge counts from the
/// sidebearing point, and its extent is the second operand.
pub proof fn stems_are_declared<N: Number>(m: MachineValue<N>, rest: Seq<N>, lo: N, ext: N)
    requires
        m.stack == rest + seq![lo, ext],
        m.stems.len() < 96,
    ensures
        operated(m, 1) is Some,
        declares(m, operated(m, 1)->0, rest, Stem { horiz: true, lo: lo.sum(m.sb.1), ext }),
        operated(m, 3) is Some,
        declares(m, operated(m, 3)->0, rest, Stem { horiz: false, lo: lo.sum(m.sb.0), ext }),
{
    assert(m.stack.take(m.stack.len() - 2) =~= rest);
    let p = MachineValue { stack: rest, ..m };
    lemma_stem_added(p, Stem { horiz: true, lo: lo.sum(m.sb.1), ext });
    lemma_stem_added(p, Stem { horiz: false, lo: lo.sum(m.sb.0), ext });
}

/// `hstem3` (12 2) and `vstem3` (12 1) do what three stems do, one after the
/// other.
pub proof fn three_stems_are_three<N: Number>(
    m: MachineValue<N>,
    rest: Seq<N>,
    a: Seq<N>,
    horiz: bool,
)
    requires
        a.len() == 6,
        m.stems.len() < 94,
    ensures
        ({
            let op: u8 = if horiz {
                1
            } else {
                3
            };
            let long: u8 = if horiz {
                2
            } else {
                1
            };
            let one = operated(MachineValue { stack: rest + a.take(2), ..m }, op);
            let two = operated(
                MachineValue { stack: rest + a.subrange(2, 4), ..one->0 },
                op,
            );
            let three = operated(MachineValue { stack: rest + a.skip(4), ..two->0 }, op);
            &&& one is Some
            &&& two is Some
            &&& three is Some
            &&& escaped(MachineValue { stack: rest + a, ..m }, long) == Some((three->0, false))
        }),
{
    let op: u8 = if horiz {
        1
    } else {
        3
    };
    let one = operated(MachineValue { stack: rest + a.take(2), ..m }, op);
    assert(a.take(2) =~= seq![a[0], a[1]]);
    assert(a.subrange(2, 4) =~= seq![a[2], a[3]]);
    assert(a.skip(4) =~= seq![a[4], a[5]]);
    assert((rest + a.take(2)).take(rest.len() as int) =~= rest);
    assert((rest + a.subrange(2, 4)).take(rest.len() as int) =~= rest);
    assert((rest + a.skip(4)).take(rest.len() as int) =~= rest);
    assert((rest + a).take(rest.len() as int) =~= rest);
    stems_are_declared(MachineValue { stack: rest + a.take(2), ..m }, rest, a[0], a[1]);
    let two = operated(MachineValue { stack: rest + a.subrange(2, 4), ..one->0 }, op);
    stems_are_declared(
        MachineValue { stack: rest + a.subrange(2, 4), ..one->0 },
        rest,
        a[2],
        a[3],
    );
    stems_are_declared(MachineValue { stack: rest + a.skip(4), ..two->0 }, rest, a[4], a[5]);
    let e = rest + a;
    assert(e.skip(e.len() - 6) =~= a);
    let s = rest + a.take(2);
    assert(s.skip(s.len() - 2) =~= seq![a[0], a[1]]);
    let t = rest + a.subrange(2, 4);
    assert(t.skip(t.len() - 2) =~= seq![a[2], a[3]]);
    let u = rest + a.skip(4);
    assert(u.skip(u.len() - 2) =~= seq![a[4], a[5]]);
    assert(MachineValue { stack: rest, ..one->0 } == one->0);
    assert(MachineValue { stack: rest, ..two->0 } == two->0);
}

/// `div` (12 12) leaves the quotient of the number below by the one on top,
/// and fails where that is zero.
pub proof fn div_divides<N: Number>(m: MachineValue<N>, rest: Seq<N>, a: N, b: N)
    requires
        rest.len() < MAX_STACK,
        m.stack == rest + seq![a, b],
    ensures
        b.equals(N::integer(0)) ==> escaped(m, 12) is None,
        !b.equals(N::integer(0)) ==> escaped(m, 12) == Some(
            (MachineValue { stack: rest.push(a.quotient(b)), ..m }, false),
        ),
{
    assert(m.stack.take(m.stack.len() - 2) =~= rest);
}

/// `closepath` (9) takes all operands and changes nothing else.
pub proof fn closepath_draws_nothing<N: Number>(m: MachineValue<N>)
    ensures
        operated(m, 9) == Some(MachineValue { stack: Seq::empty(), ..m }),
{
}

/// `pop` (12 17) gives back what an other-subroutine left last.
pub proof fn results_come_back<N: Number>(m: MachineValue<N>, v: N)
    requires
        m.stack.len() < MAX_STACK,
    ensures
        escaped(MachineValue { results: m.results.push(v), ..m }, 17) == Some(
            (MachineValue { stack: m.stack.push(v), ..m }, false),
        ),
{
    assert(m.results.push(v).drop_last() =~= m.results);
}

// --- running ------------------------------------------------------------------------------------------

/// With more tokens to go a run comes to the same.
proof fn lemma_more<N: Number>(
    subrs: Seq<Seq<u8>>,
    code: Seq<u8>,
    pos: int,
    depth: int,
    left: int,
    more: int,
    m: MachineValue<N>,
)
    requires
        0 <= more,
        run(subrs, code, pos, depth, left, m) is Some,
    ensures
        run(subrs, code, pos, depth, left + more, m) is Some,
        run(subrs, code, pos, depth, left + more, m)->0.machine == run(
            subrs,
            code,
            pos,
            depth,
            left,
            m,
        )->0.machine,
        run(subrs, code, pos, depth, left + more, m)->0.ended == run(
            subrs,
            code,
            pos,
            depth,
            left,
            m,
        )->0.ended,
        run(subrs, code, pos, depth, left + more, m)->0.left == run(
            subrs,
            code,
            pos,
            depth,
            left,
            m,
        )->0.left + more,
    decreases left,
{
    if pos >= code.len() || left <= 0 {
    } else if code[pos] >= 32 {
        let (v, p) = crate::type1::interp::operand_at(code, pos)->0;
        lemma_more(
            subrs,
            code,
            p,
            depth,
            left - 1,
            more,
            MachineValue { stack: m.stack.push(N::integer(v)), ..m },
        );
    } else if code[pos] == 10 {
        let sub = crate::type1::interp::called(subrs, m)->0;
        let n = crate::type1::interp::popped(m, 1);
        lemma_more(subrs, sub, 0, depth + 1, left - 1, more, n);
        let u = run(subrs, sub, 0, depth + 1, left - 1, n)->0;
        let w = run(subrs, sub, 0, depth + 1, left - 1 + more, n)->0;
        assert(left + more - 1 == left - 1 + more);
        if !u.ended {
            lemma_more(subrs, code, pos + 1, depth, u.left, more, u.machine);
            assert(w.left == u.left + more);
        }
    } else if code[pos] == 11 || code[pos] == 14 {
    } else if code[pos] == 12 {
        let (n, ended) = escaped(m, code[pos + 1])->0;
        if !ended {
            lemma_more(subrs, code, pos + 2, depth, left - 1, more, n);
            assert(left + more - 1 == left - 1 + more);
        }
    } else {
        lemma_more(subrs, code, pos + 1, depth, left - 1, more, operated(m, code[pos])->0);
        assert(left + more - 1 == left - 1 + more);
    }
}

/// An operator that does its work in place: none that calls, goes back, ends or
/// is written with two bytes.
pub open spec fn plain_operator(op: u8) -> bool {
    op < 32 && op != 10 && op != 11 && op != 12 && op != 14
}

/// The machine with one more operand.
pub open spec fn with_operand<N>(m: MachineValue<N>, v: N) -> MachineValue<N> {
    MachineValue { stack: m.stack.push(v), ..m }
}

/// `callsubr` (10) does what the subroutine does, in its place: calling one
/// that holds an operator and a return comes to the same as the operator
/// itself, and so it does without the return.
pub proof fn subroutine_runs_in_place<N: Number>(
    subrs: Seq<Seq<u8>>,
    op: u8,
    i: N,
    code: Seq<u8>,
    pos: int,
    depth: int,
    left: int,
    m: MachineValue<N>,
)
    requires
        plain_operator(op),
        0 <= pos < code.len(),
        code[pos] == op,
        0 <= depth < 32,
        i.whole_value() is Some,
        0 <= i.whole_value()->0 < subrs.len(),
        subrs[i.whole_value()->0 as int] == seq![op] || subrs[i.whole_value()->0 as int] == seq![
            op,
            11u8,
        ],
        left > 0,
        run(subrs, code, pos, depth, left, m) is Some,
    ensures
        run(subrs, code.update(pos, 10), pos, depth, left + 2, with_operand(m, i)) is Some,
        (run(subrs, code.update(pos, 10), pos, depth, left + 2, with_operand(m, i))->0).machine
            == (run(subrs, code, pos, depth, left, m)->0).machine,
{
    let call = code.update(pos, 10);
    let mi = with_operand(m, i);
    let sub = subrs[i.whole_value()->0 as int];
    assert(mi.stack.take(mi.stack.len() - 1) =~= m.stack);
    assert(crate::type1::interp::popped(mi, 1) == m);
    assert(crate::type1::interp::called(subrs, mi) == Some(sub));
    let n = operated(m, op)->0;
    assert(run(subrs, code, pos, depth, left, m) == run(
        subrs,
        code,
        pos + 1,
        depth,
        left - 1,
        n,
    ));
    let u = run(subrs, sub, 0, depth + 1, left + 1, m);
    let goes_back = sub.len() == 2;
    assert(sub[0] == op);
    assert(u == run(subrs, sub, 1, depth + 1, left, n));
    if goes_back {
        assert(sub[1] == 11);
    }
    let u_left: int = if goes_back {
        left - 1
    } else {
        left
    };
    assert(u is Some && !u->0.ended && u->0.machine == n && u->0.left == u_left);
    assert(run(subrs, call, pos, depth, left + 2, mi) == run(
        subrs,
        call,
        pos + 1,
        depth,
        u_left,
        n,
    ));
    lemma_more(subrs, code, pos + 1, depth, left - 1, u_left - (left - 1), n);
    lemma_behind(subrs, code, call, pos + 1, depth, u_left, n);
}

/// What stands before the place of a run does not matter.
proof fn lemma_behind<N: Number>(
    subrs: Seq<Seq<u8>>,
    a: Seq<u8>,
    b: Seq<u8>,
    pos: int,
    depth: int,
    left: int,
    m: MachineValue<N>,
)
    requires
        0 <= pos,
        a.len() == b.len(),
        forall|k: int| pos <= k < a.len() ==> a[k] == b[k],
    ensures
        run(subrs, a, pos, depth, left, m) == run(subrs, b, pos, depth, left, m),
    decreases left,
{
    if pos >= a.len() || left <= 0 {
    } else if a[pos] >= 32 {
        match crate::type1::interp::operand_at(a, pos) {
            Some((v, p)) => {
                lemma_behind(
                    subrs,
                    a,
                    b,
                    p,
                    depth,
                    left - 1,
                    MachineValue { stack: m.stack.push(N::integer(v)), ..m },
                );
            },
            None => {},
        }
    } else if a[pos] == 10 {
        match crate::type1::interp::called(subrs, m) {
            Some(sub) => {
                let n = crate::type1::interp::popped(m, 1);
                match run(subrs, sub, 0, depth + 1, left - 1, n) {
                    Some(u) => {
                        if 0 <= u.left < left {
                            lemma_behind(subrs, a, b, pos + 1, depth, u.left, u.machine);
                        }
                    },
                    None => {},
                }
            },
            None => {},
        }
    } else if a[pos] == 11 || a[pos] == 14 {
    } else if a[pos] == 12 {
        if pos + 1 < a.len() {
            match escaped(m, a[pos + 1]) {
                Some((n, ended)) => {
                    if !ended {
                        lemma_behind(subrs, a, b, pos + 2, depth, left - 1, n);
                    }
                },
                None => {},
            }
        }
    } else {
        match operated(m, a[pos]) {
            Some(n) => {
                lemma_behind(subrs, a, b, pos + 1, depth, left - 1, n);
            },
            None => {},
        }
    }
}

// --- composites ---------------------------------------------------------------------------------------

/// A step moved by a distance.
pub open spec fn step_moved(s: Step, d: (int, int)) -> Step {
    match s {
        Step::Move(p) => Step::Move((p.0 + d.0, p.1 + d.1)),
        Step::Line(p) => Step::Line((p.0 + d.0, p.1 + d.1)),
        Step::Curve(p, q, r) => Step::Curve(
            (p.0 + d.0, p.1 + d.1),
            (q.0 + d.0, q.1 + d.1),
            (r.0 + d.0, r.1 + d.1),
        ),
    }
}

/// Where the numbers that place the accent are added up without loss.
pub open spec fn placed_exactly<N: Number>(
    val: spec_fn(N) -> int,
    sb: (N, N),
    seac: Seac<N>,
    end: (N, N),
    dx: N,
    dy: N,
) -> bool {
    let tx = sb.0.sum(seac.adx).difference(seac.asb);
    let ty = sb.1.sum(seac.ady);
    &&& val(dx.sum(tx).difference(end.0)) == val(dx) + (val(sb.0) + val(seac.adx) - val(seac.asb))
        - val(end.0)
    &&& val(dy.sum(ty).difference(end.1)) == val(dy) + (val(sb.1) + val(seac.ady)) - val(end.1)
}

proof fn lemma_outline_joined<N>(
    val: spec_fn(N) -> int,
    base: Seq<PathOp<N>>,
    accent: Seq<PathOp<N>>,
    first: PathOp<N>,
    d: (int, int),
    n: int,
)
    requires
        1 <= n <= accent.len(),
        step_of(val, outline_end(outline(val, base)), first) == step_moved(
            step_of(val, (0, 0), accent[0]),
            d,
        ),
    ensures
        outline(val, accent.take(n)).len() == n,
        outline(val, base + accent.update(0, first).take(n)) == outline(val, base) + outline(
            val,
            accent.take(n),
        ).map_values(|s: Step| step_moved(s, d)),
    decreases n,
{
    let own = accent.take(n);
    let joined = base + accent.update(0, first).take(n);
    assert(own.drop_last() =~= accent.take(n - 1));
    assert(joined.drop_last() =~= base + accent.update(0, first).take(n - 1));
    let shift = |s: Step| step_moved(s, d);
    if n > 1 {
        lemma_outline_joined(val, base, accent, first, d, n - 1);
        let before = outline(val, accent.take(n - 1));
        let all = outline(val, base) + before.map_values(shift);
        assert(outline_end(all) == step_end(all.last()));
        assert(all.last() == step_moved(before.last(), d));
        assert(joined.last() == own.last());
        assert(outline(val, joined) =~= outline(val, base) + outline(val, own).map_values(shift));
    } else {
        assert(accent.take(0) =~= Seq::empty());
        assert(outline(val, accent.take(0)) =~= Seq::<Step>::empty());
        assert(accent.update(0, first).take(0) =~= Seq::empty());
        assert(base + accent.update(0, first).take(0) =~= base);
        assert(joined.last() == first && own.last() == accent[0]);
        assert(outline(val, joined) =~= outline(val, base) + outline(val, own).map_values(shift));
    }
}

/// A composite is the outline of the base as it is, and then the outline of
/// the accent as it is, moved by what the composite says: by the distance of
/// the accent and the sidebearing, less the sidebearing of the accent.
pub proof fn composite_is_base_and_moved_accent<N: Number>(
    val: spec_fn(N) -> int,
    sb: (N, N),
    seac: Seac<N>,
    base: Seq<PathOp<N>>,
    accent: Seq<PathOp<N>>,
    dx: N,
    dy: N,
)
    requires
        accent.len() > 0,
        accent[0] == PathOp::Move(dx, dy),
        ({
            let end = crate::type1::interp::end_of(base, base.len() as int);
            &&& (val(end.0), val(end.1)) == outline_end(outline(val, base))
            &&& placed_exactly(val, sb, seac, end, dx, dy)
        }),
    ensures
        joined_outline(sb, seac, base, accent) is Some,
        outline(val, joined_outline(sb, seac, base, accent)->0) == outline(val, base) + outline(
            val,
            accent,
        ).map_values(
            |s: Step|
                step_moved(
                    s,
                    (
                        val(sb.0) + val(seac.adx) - val(seac.asb),
                        val(sb.1) + val(seac.ady),
                    ),
                ),
        ),
{
    let d = (val(sb.0) + val(seac.adx) - val(seac.asb), val(sb.1) + val(seac.ady));
    let joined = joined_outline(sb, seac, base, accent)->0;
    let first = joined[base.len() as int];
    let n = accent.len() as int;
    assert(accent.take(n) =~= accent);
    assert(accent.update(0, first).take(n) =~= accent.update(0, first));
    assert(joined == base + accent.update(0, first));
    lemma_outline_joined(val, base, accent, first, d, n);
}

/// `seac` (12 6) takes the sidebearing of the accent, its distance, and the
/// codes of the base and of the accent, and ends the glyph.
pub proof fn seac_takes_its_operands<N: Number>(
    m: MachineValue<N>,
    rest: Seq<N>,
    asb: N,
    adx: N,
    ady: N,
    base: N,
    accent: N,
)
    requires
        m.stack == rest + seq![asb, adx, ady, base, accent],
        !m.path_started,
        base.whole_value() is Some && 0 <= base.whole_value()->0 <= 255,
        accent.whole_value() is Some && 0 <= accent.whole_value()->0 <= 255,
    ensures
        escaped(m, 6) is Some,
        (escaped(m, 6)->0).1,
        ({
            let r = (escaped(m, 6)->0).0;
            &&& r.stack == rest
            &&& r.seac is Some
            &&& r.seac->0.asb == asb
            &&& r.seac->0.adx == adx
            &&& r.seac->0.ady == ady
            &&& r.seac->0.bchar == base.whole_value()->0
            &&& r.seac->0.achar == accent.whole_value()->0
            &&& r.width == m.width
            &&& r.sb == m.sb
        }),
{
    assert(m.stack.take(m.stack.len() - 5) =~= rest);
}

/// A composite takes the base from its first code and the accent from its
/// second, in the standard encoding, and keeps its own width.
pub proof fn composite_names_its_parts<N: Number>(
    font: FontValue<N>,
    val: spec_fn(N) -> int,
    width: N,
    sb: (N, N),
    seac: Seac<N>,
    base: GlyphValue<N>,
    accent: GlyphValue<N>,
    dx: N,
    dy: N,
)
    requires
        standard_glyph(seac.bchar as int) is Some,
        standard_glyph(seac.achar as int) is Some,
        plain_glyph(font, standard_glyph(seac.bchar as int)->0) == Some(base),
        plain_glyph(font, standard_glyph(seac.achar as int)->0) == Some(accent),
        ({
            let a = all_ops(accent.segments, accent.segments.len() as int);
            let b = all_ops(base.segments, base.segments.len() as int);
            let end = end_of(b, b.len() as int);
            &&& a.len() > 0 && a[0] == PathOp::Move(dx, dy)
            &&& (val(end.0), val(end.1)) == outline_end(outline(val, b))
            &&& placed_exactly(val, sb, seac, end, dx, dy)
        }),
    ensures
        composite(font, width, sb, seac) is Some,
        ({
            let g = composite(font, width, sb, seac)->0;
            let a = all_ops(accent.segments, accent.segments.len() as int);
            let b = all_ops(base.segments, base.segments.len() as int);
            &&& g.width == width
            &&& g.stems.len() == 0
            &&& outline(val, all_ops(g.segments, g.segments.len() as int)) == outline(val, b)
                + outline(val, a).map_values(
                |s: Step|
                    step_moved(
                        s,
                        (
                            val(sb.0) + val(seac.adx) - val(seac.asb),
                            val(sb.1) + val(seac.ady),
                        ),
                    ),
            )
        }),
{
    let a = all_ops(accent.segments, accent.segments.len() as int);
    let b = all_ops(base.segments, base.segments.len() as int);
    composite_is_base_and_moved_accent(val, sb, seac, b, a, dx, dy);
    let g = composite(font, width, sb, seac)->0;
    let ops = joined_outline(sb, seac, b, a)->0;
    reveal_with_fuel(all_ops, 2);
    assert(all_ops(g.segments, 1) =~= ops);
}

// --- other subroutines ---------------------------------------------------------------------------------

/// The machine with arguments, their number and the number of an
/// other-subroutine on its stack.
pub open spec fn asks_for<N: Number>(
    m: MachineValue<N>,
    rest: Seq<N>,
    args: Seq<N>,
    count: N,
    which: N,
    number: int,
) -> bool {
    &&& m.stack == rest + args + seq![count, which]
    &&& count.whole_value() == Some(args.len() as i64)
    &&& args.len() <= i64::MAX
    &&& which.whole_value() is Some
    &&& which.whole_value()->0 == number
}

/// `callothersubr` (12 16) for hint replacement, 3, keeps its argument for
/// the next `pop` and lets the next stem start a new set of hints; for the
/// start of flex, 1, it collects points from then on; a flex that was not
/// started, and numbers beyond 3, fail.
pub proof fn other_subroutines_are_known<N: Number>(
    m: MachineValue<N>,
    rest: Seq<N>,
    args: Seq<N>,
    count: N,
    which: N,
    number: int,
)
    requires
        asks_for(m, rest, args, count, which, number),
    ensures
        number == 3 && args.len() == 1 ==> escaped(m, 16) == Some(
            (
                MachineValue {
                    stack: rest,
                    replace_pending: true,
                    results: m.results.push(args[0]),
                    ..m
                },
                false,
            ),
        ),
        number == 1 && args.len() == 0 && m.path_started && !m.in_flex ==> escaped(m, 16) == Some(
            (MachineValue { stack: rest, in_flex: true, flex: Seq::empty(), ..m }, false),
        ),
        number == 2 && args.len() == 0 && m.in_flex ==> escaped(m, 16) == Some(
            (MachineValue { stack: rest, ..m }, false),
        ),
        number == 0 && args.len() == 3 && m.in_flex && m.flex.len() == 7 ==> escaped(m, 16)
            == Some((flexed(MachineValue { stack: rest, ..m }), false)),
        (number == 0 || number == 2) && !m.in_flex ==> escaped(m, 16) is None,
        number == 0 && m.flex.len() != 7 ==> escaped(m, 16) is None,
        number < 0 || number > 3 ==> escaped(m, 16) is None,
{
    let n = m.stack.len() as int;
    let a = m.stack.skip(n - 2);
    let r = m.stack.take(n - 2);
    assert(a =~= seq![count, which]);
    assert(r =~= rest + args);
    assert(r.take(r.len() - args.len()) =~= rest);
    assert(r.skip(r.len() - args.len()) =~= args);
}

/// A flex leaves its end point to be popped, first the abscissa and then the
/// ordinate: where its seven moves have led.
pub proof fn flex_leaves_its_end<N: Number>(m: MachineValue<N>)
    requires
        m.flex.len() == 7,
        m.stack.len() + 1 < MAX_STACK,
    ensures
        ({
            let r = flexed(m);
            let one = escaped(r, 17);
            let two = escaped((one->0).0, 17);
            &&& one is Some
            &&& two is Some
            &&& (two->0).0.stack == m.stack.push(r.cur.0).push(r.cur.1)
            &&& (two->0).0.results == m.results
        }),
{
    let r = flexed(m);
    assert(r.results == m.results.push(r.cur.1).push(r.cur.0));
    assert(r.stack == m.stack);
    assert(r.results.drop_last() =~= m.results.push(r.cur.1));
    assert(m.results.push(r.cur.1).drop_last() =~= m.results);
}

/// What is drawn after the hints have changed stands in a segment of its own
/// with the hints that are active; all else goes on with the last segment.
pub proof fn segments_follow_the_hints<N: Number>(m: MachineValue<N>, op: PathOp<N>)
    ensures
        ({
            let r = drawn(m, op);
            let n = m.segments.len() as int;
            &&& !r.dirty || (n > 0 && !m.dirty && r.dirty == m.dirty)
            &&& m.dirty || n == 0 ==> {
                &&& r.segments.len() == n + 1
                &&& r.segments.take(n) == m.segments
                &&& r.segments[n].ops == seq![op]
                &&& r.segments[n].active.len() == m.active.len()
                &&& forall|v: usize| #[trigger]
                    r.segments[n].active.contains(v) <==> m.active.contains(v)
            }
            &&& !m.dirty && n > 0 ==> {
                &&& r.segments.len() == n
                &&& r.segments.take(n - 1) == m.segments.take(n - 1)
                &&& r.segments[n - 1].active == m.segments[n - 1].active
                &&& r.segments[n - 1].ops == m.segments[n - 1].ops.push(op)
            }
        }),
{
    let r = drawn(m, op);
    let n = m.segments.len() as int;
    places_in_order(m.active);
    if m.dirty || n == 0 {
        assert(r.segments.take(n) =~= m.segments);
    } else {
        assert(r.segments.take(n - 1) =~= m.segments.take(n - 1));
    }
}

} // verus!
