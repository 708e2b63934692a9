//! Running the outline program of a glyph.
//!
//! Subroutines are followed in place, and a glyph comes down to its width,
//! its sidebearing, its stem hints and relative path operations. The four
//! standard other-subroutines are understood: flex becomes the two curves
//! that it is drawn as, and hint replacement starts a new segment. A
//! composite is put together from the outlines of its parts. Anything else
//! fails the glyph.

use crate::text::views;
use crate::type1::number::Number;
use crate::type1::parse::{program_of, FontValue, Type1Font};
use crate::type1::standard::{standard_glyph, std_name};
use vstd::prelude::*;

verus! {

/// Deepest nesting of subroutines.
pub const MAX_SUBR_DEPTH: usize = 32;

/// Most operands and operators that a glyph may run.
pub const MAX_GLYPH_TOKENS: usize = 1_048_576;

/// Most operands on the stack.
pub const MAX_STACK: usize = 96;

/// Most stem hints, all in all.
pub const MAX_STEMS: usize = 96;

/// A relative path operation. A path is closed by the next move.
#[derive(Clone, Copy)]
pub enum PathOp<N> {
    Move(N, N),
    Line(N, N),
    Curve(N, N, N, N, N, N),
}

/// A stem hint. The sidebearing is part of it.
#[derive(Clone, Copy)]
pub struct Stem<N> {
    pub horiz: bool,
    pub lo: N,
    pub ext: N,
}

/// Path operations under one set of stem hints.
pub struct Segment<N> {
    /// The stems that are active, by their places.
    pub active: Vec<usize>,
    pub ops: Vec<PathOp<N>>,
}

/// The content of a [`Segment`].
pub struct SegmentValue<N> {
    pub active: Seq<usize>,
    pub ops: Seq<PathOp<N>>,
}

impl<N> View for Segment<N> {
    type V = SegmentValue<N>;

    open spec fn view(&self) -> SegmentValue<N> {
        SegmentValue { active: self.active@, ops: self.ops@ }
    }
}

/// The contents of a list of segments.
pub open spec fn segment_views<N>(list: Seq<Segment<N>>) -> Seq<SegmentValue<N>> {
    list.map_values(|s: Segment<N>| s@)
}

/// A composite: the sidebearing and the place of the accent, and the codes of
/// the base and of the accent.
#[derive(Clone, Copy)]
pub struct Seac<N> {
    pub asb: N,
    pub adx: N,
    pub ady: N,
    pub bchar: u8,
    pub achar: u8,
}

/// A glyph.
pub struct Glyph<N> {
    pub width: N,
    pub sb: (N, N),
    pub stems: Vec<Stem<N>>,
    pub segments: Vec<Segment<N>>,
}

/// The content of a [`Glyph`].
pub struct GlyphValue<N> {
    pub width: N,
    pub sb: (N, N),
    pub stems: Seq<Stem<N>>,
    pub segments: Seq<SegmentValue<N>>,
}

impl<N> View for Glyph<N> {
    type V = GlyphValue<N>;

    open spec fn view(&self) -> GlyphValue<N> {
        GlyphValue {
            width: self.width,
            sb: self.sb,
            stems: self.stems@,
            segments: segment_views(self.segments@),
        }
    }
}

/// Every place is below `n`.
pub open spec fn all_below(list: Seq<usize>, n: nat) -> bool {
    forall|i: int| 0 <= i < list.len() ==> #[trigger] list[i] < n
}

/// The segments speak of stems that are there.
pub open spec fn segments_ok<N>(segments: Seq<SegmentValue<N>>, n: nat) -> bool {
    forall|i: int| 0 <= i < segments.len() ==> all_below((#[trigger] segments[i]).active, n)
}

// --- the machine -----------------------------------------------------------------------------------

/// The state of a glyph that is being run.
pub struct MachineValue<N> {
    pub stack: Seq<N>,
    pub results: Seq<N>,
    pub width: Option<N>,
    pub sb: (N, N),
    pub stems: Seq<Stem<N>>,
    pub segments: Seq<SegmentValue<N>>,
    pub active: Seq<usize>,
    pub dirty: bool,
    pub replace_pending: bool,
    pub in_flex: bool,
    pub flex: Seq<(N, N)>,
    pub path_started: bool,
    pub cur: (N, N),
    pub seac: Option<Seac<N>>,
}

/// The stems that the machine speaks of are there.
pub open spec fn machine_ok<N>(m: MachineValue<N>) -> bool {
    all_below(m.active, m.stems.len()) && segments_ok(m.segments, m.stems.len())
}

/// The machine at the start of a glyph.
pub open spec fn fresh<N: Number>() -> MachineValue<N> {
    let zero = N::integer(0);
    MachineValue {
        stack: Seq::empty(),
        results: Seq::empty(),
        width: None,
        sb: (zero, zero),
        stems: Seq::empty(),
        segments: Seq::empty(),
        active: Seq::empty(),
        dirty: false,
        replace_pending: false,
        in_flex: false,
        flex: Seq::empty(),
        path_started: false,
        cur: (zero, zero),
        seac: None,
    }
}

/// How far an operation moves.
pub open spec fn delta<N: Number>(op: PathOp<N>) -> (N, N) {
    match op {
        PathOp::Move(dx, dy) => (dx, dy),
        PathOp::Line(dx, dy) => (dx, dy),
        PathOp::Curve(a, b, c, d, e, f) => (a.sum(c).sum(e), b.sum(d).sum(f)),
    }
}

/// The two are the same stem.
pub open spec fn same_stem<N: Number>(a: Stem<N>, b: Stem<N>) -> bool {
    a.horiz == b.horiz && a.lo.equals(b.lo) && a.ext.equals(b.ext)
}

/// The place of a stem, from `i` on.
pub open spec fn stem_index<N: Number>(stems: Seq<Stem<N>>, stem: Stem<N>, i: int) -> Option<int>
    decreases stems.len() - i,
{
    if i < 0 || i >= stems.len() {
        None
    } else if same_stem(stems[i], stem) {
        Some(i)
    } else {
        stem_index(stems, stem, i + 1)
    }
}

/// The stem at place `i` becomes active.
pub open spec fn activated<N>(m: MachineValue<N>, i: usize) -> MachineValue<N> {
    if m.active.contains(i) {
        m
    } else {
        MachineValue { active: m.active.push(i), dirty: true, ..m }
    }
}

/// A stem is declared. Where the hints are to be replaced, it is the first of
/// the new set.
pub open spec fn stem_added<N: Number>(m: MachineValue<N>, horiz: bool, lo: N, ext: N) -> Option<
    MachineValue<N>,
> {
    let stem = Stem { horiz, lo, ext };
    let n = if m.replace_pending {
        MachineValue { active: Seq::empty(), replace_pending: false, dirty: true, ..m }
    } else {
        m
    };
    match stem_index(n.stems, stem, 0) {
        Some(i) => Some(activated(n, i as usize)),
        None => if n.stems.len() >= MAX_STEMS {
            None
        } else {
            Some(
                activated(
                    MachineValue { stems: n.stems.push(stem), ..n },
                    n.stems.len() as usize,
                ),
            )
        },
    }
}

/// Places in ascending order, with `x` put in its place.
pub open spec fn with_place(s: Seq<usize>, x: usize) -> Seq<usize>
    decreases s.len(),
{
    if s.len() == 0 || s.last() <= x {
        s.push(x)
    } else {
        with_place(s.drop_last(), x).push(s.last())
    }
}

/// Places in ascending order.
pub open spec fn in_order(s: Seq<usize>) -> Seq<usize>
    decreases s.len(),
{
    if s.len() == 0 {
        s
    } else {
        with_place(in_order(s.drop_last()), s.last())
    }
}

proof fn lemma_with_place(s: Seq<usize>, x: usize)
    requires
        forall|i: int, j: int| 0 <= i < j < s.len() ==> s[i] <= s[j],
    ensures
        with_place(s, x).len() == s.len() + 1,
        forall|v: usize| #[trigger] with_place(s, x).contains(v) <==> v == x || s.contains(v),
        forall|i: int, j: int|
            0 <= i < j < with_place(s, x).len() ==> with_place(s, x)[i] <= with_place(s, x)[j],
    decreases s.len(),
{
    let r = with_place(s, x);
    if s.len() == 0 || s.last() <= x {
        assert(r[s.len() as int] == x);
        assert forall|v: usize| #[trigger] r.contains(v) <==> v == x || s.contains(v) by {
            if s.contains(v) {
                let k = choose|k: int| 0 <= k < s.len() && s[k] == v;
                assert(r[k] == v);
            }
        }
    } else {
        let front = s.drop_last();
        let b = with_place(front, x);
        lemma_with_place(front, x);
        assert(r[b.len() as int] == s.last());
        assert forall|v: usize| #[trigger] r.contains(v) <==> v == x || s.contains(v) by {
            if b.contains(v) {
                let k = choose|k: int| 0 <= k < b.len() && b[k] == v;
                assert(r[k] == v);
            }
            if s.contains(v) && v != s.last() {
                let k = choose|k: int| 0 <= k < s.len() && s[k] == v;
                assert(front[k] == v);
            }
            if r.contains(v) && v != s.last() {
                let k = choose|k: int| 0 <= k < r.len() && r[k] == v;
                assert(b[k] == v);
                assert(b.contains(v));
            }
            if front.contains(v) {
                let k = choose|k: int| 0 <= k < front.len() && front[k] == v;
                assert(s[k] == v);
            }
        }
        assert forall|i: int, j: int| 0 <= i < j < r.len() implies r[i] <= r[j] by {
            if j == b.len() {
                assert(b.contains(r[i]));
                if r[i] != x {
                    let k = choose|k: int| 0 <= k < front.len() && front[k] == r[i];
                    assert(s[k] == r[i]);
                }
            }
        }
    }
}

/// The places in order are the places, and they ascend.
pub proof fn places_in_order(s: Seq<usize>)
    ensures
        in_order(s).len() == s.len(),
        forall|v: usize| #[trigger] in_order(s).contains(v) <==> s.contains(v),
        forall|i: int, j: int| 0 <= i < j < s.len() ==> in_order(s)[i] <= in_order(s)[j],
    decreases s.len(),
{
    if s.len() > 0 {
        let front = s.drop_last();
        places_in_order(front);
        lemma_with_place(in_order(front), s.last());
        assert forall|v: usize| #[trigger] in_order(s).contains(v) <==> s.contains(v) by {
            if s.contains(v) && v != s.last() {
                let k = choose|k: int| 0 <= k < s.len() && s[k] == v;
                assert(front[k] == v);
            }
            if front.contains(v) {
                let k = choose|k: int| 0 <= k < front.len() && front[k] == v;
                assert(s[k] == v);
            }
        }
    }
}

/// A path operation is drawn. Where the active set has changed, it starts a
/// new segment.
pub open spec fn drawn<N: Number>(m: MachineValue<N>, op: PathOp<N>) -> MachineValue<N> {
    let d = delta(op);
    let cur = (m.cur.0.sum(d.0), m.cur.1.sum(d.1));
    if m.segments.len() == 0 || m.dirty {
        MachineValue {
            cur,
            segments: m.segments.push(
                SegmentValue { active: in_order(m.active), ops: seq![op] },
            ),
            dirty: false,
            ..m
        }
    } else {
        let last = m.segments.last();
        MachineValue {
            cur,
            segments: m.segments.drop_last().push(
                SegmentValue { active: last.active, ops: last.ops.push(op) },
            ),
            ..m
        }
    }
}

/// A move. Inside flex it is a point of it; the first of a glyph starts from
/// the sidebearing point.
pub open spec fn moved<N: Number>(m: MachineValue<N>, dx: N, dy: N) -> MachineValue<N> {
    if m.in_flex {
        MachineValue {
            flex: m.flex.push((dx, dy)),
            cur: (m.cur.0.sum(dx), m.cur.1.sum(dy)),
            ..m
        }
    } else if !m.path_started {
        drawn(
            MachineValue { path_started: true, ..m },
            PathOp::Move(dx.sum(m.sb.0), dy.sum(m.sb.1)),
        )
    } else {
        drawn(m, PathOp::Move(dx, dy))
    }
}

/// The top `n` operands, in the order in which they were pushed.
pub open spec fn top<N>(m: MachineValue<N>, n: int) -> Seq<N> {
    m.stack.skip(m.stack.len() - n)
}

/// The machine without its top `n` operands.
pub open spec fn popped<N>(m: MachineValue<N>, n: int) -> MachineValue<N> {
    MachineValue { stack: m.stack.take(m.stack.len() - n), ..m }
}

/// The machine without operands.
pub open spec fn cleared<N>(m: MachineValue<N>) -> MachineValue<N> {
    MachineValue { stack: Seq::empty(), ..m }
}

/// The machine with one more operand, where there is room.
pub open spec fn pushed<N>(m: MachineValue<N>, v: N) -> Option<MachineValue<N>> {
    if m.stack.len() >= MAX_STACK {
        None
    } else {
        Some(MachineValue { stack: m.stack.push(v), ..m })
    }
}

/// The number of operands of an operator.
pub open spec fn operands(op: u8) -> int {
    if op == 1 || op == 3 || op == 5 || op == 13 || op == 21 {
        2
    } else if op == 4 || op == 6 || op == 7 || op == 22 {
        1
    } else if op == 8 {
        6
    } else if op == 30 || op == 31 {
        4
    } else {
        0
    }
}

/// The glyph has its sidebearing and its width.
pub open spec fn with_metrics<N: Number>(m: MachineValue<N>, sb: (N, N), width: N) -> Option<
    MachineValue<N>,
> {
    if m.path_started {
        None
    } else {
        Some(cleared(MachineValue { sb, width: Some(width), ..m }))
    }
}

/// What a one-byte operator does, other than those that call, return or end.
pub open spec fn operated<N: Number>(m: MachineValue<N>, op: u8) -> Option<MachineValue<N>> {
    let zero = N::integer(0);
    let n = operands(op);
    let a = top(m, n);
    let r = popped(m, n);
    if m.stack.len() < n {
        None
    } else if op == 1 {
        stem_added(r, true, a[0].sum(m.sb.1), a[1])
    } else if op == 3 {
        stem_added(r, false, a[0].sum(m.sb.0), a[1])
    } else if op == 4 {
        Some(moved(r, zero, a[0]))
    } else if op == 5 {
        Some(drawn(r, PathOp::Line(a[0], a[1])))
    } else if op == 6 {
        Some(drawn(r, PathOp::Line(a[0], zero)))
    } else if op == 7 {
        Some(drawn(r, PathOp::Line(zero, a[0])))
    } else if op == 8 {
        Some(drawn(r, PathOp::Curve(a[0], a[1], a[2], a[3], a[4], a[5])))
    } else if op == 9 {
        Some(cleared(r))
    } else if op == 13 {
        with_metrics(r, (a[0], zero), a[1])
    } else if op == 21 {
        Some(moved(r, a[0], a[1]))
    } else if op == 22 {
        Some(moved(r, a[0], zero))
    } else if op == 30 {
        Some(drawn(r, PathOp::Curve(zero, a[0], a[1], a[2], a[3], zero)))
    } else if op == 31 {
        Some(drawn(r, PathOp::Curve(a[0], zero, a[1], a[2], zero, a[3])))
    } else {
        None
    }
}

/// Three stems are declared.
pub open spec fn three_stems<N: Number>(m: MachineValue<N>, horiz: bool) -> Option<
    MachineValue<N>,
> {
    let a = top(m, 6);
    let at = if horiz {
        m.sb.1
    } else {
        m.sb.0
    };
    if m.stack.len() < 6 {
        None
    } else {
        match stem_added(popped(m, 6), horiz, a[0].sum(at), a[1]) {
            None => None,
            Some(x) => match stem_added(x, horiz, a[2].sum(at), a[3]) {
                None => None,
                Some(y) => stem_added(y, horiz, a[4].sum(at), a[5]),
            },
        }
    }
}

/// The code of a character that a number is.
pub open spec fn char_code<N: Number>(v: N) -> Option<u8> {
    match v.whole_value() {
        Some(i) => if 0 <= i <= 255 {
            Some(i as u8)
        } else {
            None
        },
        None => None,
    }
}

/// The glyph is a composite. What was drawn before is dropped; a path may not
/// have been started.
pub open spec fn composed<N: Number>(m: MachineValue<N>) -> Option<MachineValue<N>> {
    let a = top(m, 5);
    if m.stack.len() < 5 || m.path_started {
        None
    } else {
        match (char_code(a[3]), char_code(a[4])) {
            (Some(bchar), Some(achar)) => Some(
                MachineValue {
                    segments: Seq::empty(),
                    stems: Seq::empty(),
                    seac: Some(Seac { asb: a[0], adx: a[1], ady: a[2], bchar, achar }),
                    ..popped(m, 5)
                },
            ),
            _ => None,
        }
    }
}

/// Flex ends: its seven points are two curves. The first is the reference
/// point, which is part of the first control point. The end point is left as
/// a result, since the program takes it back.
pub open spec fn flexed<N: Number>(m: MachineValue<N>) -> MachineValue<N> {
    let p = m.flex;
    let a = drawn(
        MachineValue { flex: Seq::empty(), in_flex: false, ..m },
        PathOp::Curve(
            p[0].0.sum(p[1].0),
            p[0].1.sum(p[1].1),
            p[2].0,
            p[2].1,
            p[3].0,
            p[3].1,
        ),
    );
    let b = drawn(a, PathOp::Curve(p[4].0, p[4].1, p[5].0, p[5].1, p[6].0, p[6].1));
    MachineValue { results: b.results.push(b.cur.1).push(b.cur.0), ..b }
}

/// What an other-subroutine does with its arguments.
pub open spec fn other_done<N: Number>(m: MachineValue<N>, which: i64, args: Seq<N>) -> Option<
    MachineValue<N>,
> {
    if which == 0 {
        if (args.len() == 3 || args.len() == 17) && m.in_flex && m.flex.len() == 7 {
            Some(flexed(m))
        } else {
            None
        }
    } else if which == 1 {
        if args.len() == 0 && !m.in_flex && m.path_started {
            Some(MachineValue { in_flex: true, flex: Seq::empty(), ..m })
        } else {
            None
        }
    } else if which == 2 {
        if args.len() == 0 && m.in_flex {
            Some(m)
        } else {
            None
        }
    } else if which == 3 {
        if args.len() == 1 {
            Some(
                MachineValue { replace_pending: true, results: m.results.push(args[0]), ..m },
            )
        } else {
            None
        }
    } else {
        None
    }
}

/// An other-subroutine is called: its number is on top, and below it the
/// number of its arguments.
pub open spec fn other_called<N: Number>(m: MachineValue<N>) -> Option<MachineValue<N>> {
    if m.stack.len() < 2 {
        None
    } else {
        let a = top(m, 2);
        let r = popped(m, 2);
        match (a[1].whole_value(), a[0].whole_value()) {
            (Some(which), Some(n)) => if n < 0 || n > r.stack.len() {
                None
            } else {
                other_done(popped(r, n as int), which, top(r, n as int))
            },
            _ => None,
        }
    }
}

/// The quotient of the top two operands.
pub open spec fn divided<N: Number>(m: MachineValue<N>) -> Option<MachineValue<N>> {
    let a = top(m, 2);
    if m.stack.len() < 2 || a[1].equals(N::integer(0)) {
        None
    } else {
        pushed(popped(m, 2), a[0].quotient(a[1]))
    }
}

/// What a two-byte operator does. The flag tells whether it ends the glyph.
pub open spec fn escaped<N: Number>(m: MachineValue<N>, op: u8) -> Option<(MachineValue<N>, bool)> {
    if op == 6 {
        match composed(m) {
            Some(r) => Some((r, true)),
            None => None,
        }
    } else {
        let r = if op == 0 || op == 33 {
            Some(cleared(m))
        } else if op == 1 {
            three_stems(m, false)
        } else if op == 2 {
            three_stems(m, true)
        } else if op == 7 {
            let a = top(m, 4);
            if m.stack.len() < 4 || !a[3].equals(N::integer(0)) {
                None
            } else {
                with_metrics(popped(m, 4), (a[0], a[1]), a[2])
            }
        } else if op == 12 {
            divided(m)
        } else if op == 16 {
            other_called(m)
        } else if op == 17 {
            if m.results.len() == 0 {
                None
            } else {
                pushed(
                    MachineValue { results: m.results.drop_last(), ..m },
                    m.results.last(),
                )
            }
        } else {
            None
        };
        match r {
            Some(n) => Some((n, false)),
            None => None,
        }
    }
}

/// The operand at `pos`, and where it ends.
pub open spec fn operand_at(code: Seq<u8>, pos: int) -> Option<(int, int)> {
    let b = code[pos] as int;
    if b <= 246 {
        Some((b - 139, pos + 1))
    } else if b <= 250 {
        if pos + 1 < code.len() {
            Some(((b - 247) * 256 + code[pos + 1] + 108, pos + 2))
        } else {
            None
        }
    } else if b <= 254 {
        if pos + 1 < code.len() {
            Some((-(b - 251) * 256 - code[pos + 1] - 108, pos + 2))
        } else {
            None
        }
    } else if pos + 4 < code.len() {
        let v = code[pos + 1] * 0x100_0000 + code[pos + 2] * 0x1_0000 + code[pos + 3] * 0x100
            + code[pos + 4];
        Some((if v >= 0x8000_0000 {
            v - 0x1_0000_0000
        } else {
            v
        }, pos + 5))
    } else {
        None
    }
}

/// The subroutine that the top operand names.
pub open spec fn called<N: Number>(subrs: Seq<Seq<u8>>, m: MachineValue<N>) -> Option<Seq<u8>> {
    if m.stack.len() == 0 {
        None
    } else {
        match m.stack.last().whole_value() {
            Some(i) => if 0 <= i < subrs.len() {
                Some(subrs[i as int])
            } else {
                None
            },
            None => None,
        }
    }
}

/// What is left of a run: the machine, the tokens that may still be run, and
/// whether the glyph has ended.
pub struct RunValue<N> {
    pub machine: MachineValue<N>,
    pub left: int,
    pub ended: bool,
}

/// Runs a program from `pos` on, with `left` tokens to go.
pub open spec fn run<N: Number>(
    subrs: Seq<Seq<u8>>,
    code: Seq<u8>,
    pos: int,
    depth: int,
    left: int,
    m: MachineValue<N>,
) -> Option<RunValue<N>>
    decreases left,
{
    if pos >= code.len() {
        Some(RunValue { machine: m, left, ended: false })
    } else if left <= 0 {
        None
    } else if code[pos] >= 32 {
        match operand_at(code, pos) {
            None => None,
            Some((v, p)) => match pushed(m, N::integer(v)) {
                None => None,
                Some(n) => run(subrs, code, p, depth, left - 1, n),
            },
        }
    } else if code[pos] == 10 {
        match called(subrs, m) {
            None => None,
            Some(sub) => if depth + 1 > MAX_SUBR_DEPTH {
                None
            } else {
                match run(subrs, sub, 0, depth + 1, left - 1, popped(m, 1)) {
                    None => None,
                    Some(u) => if u.ended {
                        Some(u)
                    } else if 0 <= u.left < left {
                        run(subrs, code, pos + 1, depth, u.left, u.machine)
                    } else {
                        None
                    },
                }
            },
        }
    } else if code[pos] == 11 {
        Some(RunValue { machine: m, left: left - 1, ended: false })
    } else if code[pos] == 14 {
        Some(RunValue { machine: m, left: left - 1, ended: true })
    } else if code[pos] == 12 {
        if pos + 1 >= code.len() {
            None
        } else {
            match escaped(m, code[pos + 1]) {
                None => None,
                Some((n, ended)) => if ended {
                    Some(RunValue { machine: n, left: left - 1, ended: true })
                } else {
                    run(subrs, code, pos + 2, depth, left - 1, n)
                },
            }
        }
    } else {
        match operated(m, code[pos]) {
            None => None,
            Some(n) => run(subrs, code, pos + 1, depth, left - 1, n),
        }
    }
}

// --- a glyph -------------------------------------------------------------------------------------------

/// All operations of the first `n` segments.
pub open spec fn all_ops<N>(segments: Seq<SegmentValue<N>>, n: int) -> Seq<PathOp<N>>
    decreases n,
{
    if n <= 0 {
        Seq::empty()
    } else {
        all_ops(segments, n - 1) + segments[n - 1].ops
    }
}

/// Where the first `n` operations lead.
pub open spec fn end_of<N: Number>(ops: Seq<PathOp<N>>, n: int) -> (N, N)
    decreases n,
{
    if n <= 0 {
        (N::integer(0), N::integer(0))
    } else {
        let before = end_of(ops, n - 1);
        let d = delta(ops[n - 1]);
        (before.0.sum(d.0), before.1.sum(d.1))
    }
}

/// The outline of a composite: that of the base, and then that of the accent,
/// moved from where the base ended to its own place. An accent that does not
/// start with a move is declined.
pub open spec fn joined_outline<N: Number>(
    sb: (N, N),
    seac: Seac<N>,
    base: Seq<PathOp<N>>,
    accent: Seq<PathOp<N>>,
) -> Option<Seq<PathOp<N>>> {
    if accent.len() == 0 {
        None
    } else {
        match accent[0] {
            PathOp::Move(dx, dy) => {
                let end = end_of(base, base.len() as int);
                let tx = sb.0.sum(seac.adx).difference(seac.asb);
                let ty = sb.1.sum(seac.ady);
                let first = PathOp::Move(
                    dx.sum(tx).difference(end.0),
                    dy.sum(ty).difference(end.1),
                );
                Some(base + accent.update(0, first))
            },
            _ => None,
        }
    }
}

/// The machine after the program of a glyph was run.
pub open spec fn glyph_run<N: Number>(font: FontValue<N>, name: Seq<u8>) -> Option<MachineValue<N>> {
    match program_of(font.charstrings, name) {
        None => None,
        Some(code) => match run(
            font.subrs,
            code,
            0,
            0,
            MAX_GLYPH_TOKENS as int,
            fresh::<N>(),
        ) {
            None => None,
            Some(u) => if u.machine.in_flex || u.machine.width is None {
                None
            } else {
                Some(u.machine)
            },
        },
    }
}

/// A glyph that is not a composite.
pub open spec fn plain_glyph<N: Number>(font: FontValue<N>, name: Seq<u8>) -> Option<GlyphValue<N>> {
    match glyph_run(font, name) {
        None => None,
        Some(m) => if m.seac is Some {
            None
        } else {
            Some(
                GlyphValue {
                    width: m.width->0,
                    sb: m.sb,
                    stems: m.stems,
                    segments: m.segments,
                },
            )
        },
    }
}

/// The composite of a base and an accent. Its parts may not be composites
/// themselves, and their hints do not hold in it.
pub open spec fn composite<N: Number>(font: FontValue<N>, width: N, sb: (N, N), seac: Seac<N>) -> Option<
    GlyphValue<N>,
> {
    match (standard_glyph(seac.bchar as int), standard_glyph(seac.achar as int)) {
        (Some(b), Some(a)) => match (plain_glyph(font, b), plain_glyph(font, a)) {
            (Some(base), Some(accent)) => match joined_outline(
                sb,
                seac,
                all_ops(base.segments, base.segments.len() as int),
                all_ops(accent.segments, accent.segments.len() as int),
            ) {
                Some(ops) => Some(
                    GlyphValue {
                        width,
                        sb,
                        stems: Seq::empty(),
                        segments: seq![SegmentValue { active: Seq::empty(), ops }],
                    },
                ),
                None => None,
            },
            _ => None,
        },
        _ => None,
    }
}

/// The glyph of a name.
pub open spec fn glyph_of<N: Number>(font: FontValue<N>, name: Seq<u8>) -> Option<GlyphValue<N>> {
    match glyph_run(font, name) {
        None => None,
        Some(m) => match m.seac {
            Some(seac) => composite(font, m.width->0, m.sb, seac),
            None => plain_glyph(font, name),
        },
    }
}

// --- running it --------------------------------------------------------------------------------------------

/// The state of a glyph that is being run.
pub struct Interp<N> {
    pub stack: Vec<N>,
    /// What other-subroutines have left.
    pub results: Vec<N>,
    pub width: Option<N>,
    pub sb: (N, N),
    pub stems: Vec<Stem<N>>,
    pub segments: Vec<Segment<N>>,
    pub active: Vec<usize>,
    /// The active set has changed since the last path operation.
    pub dirty: bool,
    /// The next stem replaces the active set.
    pub replace_pending: bool,
    pub in_flex: bool,
    pub flex: Vec<(N, N)>,
    pub path_started: bool,
    pub cur: (N, N),
    pub seac: Option<Seac<N>>,
}

impl<N> View for Interp<N> {
    type V = MachineValue<N>;

    open spec fn view(&self) -> MachineValue<N> {
        MachineValue {
            stack: self.stack@,
            results: self.results@,
            width: self.width,
            sb: self.sb,
            stems: self.stems@,
            segments: segment_views(self.segments@),
            active: self.active@,
            dirty: self.dirty,
            replace_pending: self.replace_pending,
            in_flex: self.in_flex,
            flex: self.flex@,
            path_started: self.path_started,
            cur: self.cur,
            seac: self.seac,
        }
    }
}

/// Whether two stems are the same.
fn stems_equal<N: Number>(a: &Stem<N>, b: &Stem<N>) -> (r: bool)
    ensures
        r == same_stem(*a, *b),
{
    a.horiz == b.horiz && a.lo.is_equal(b.lo) && a.ext.is_equal(b.ext)
}

/// The place of a stem.
fn find_stem<N: Number>(stems: &Vec<Stem<N>>, stem: &Stem<N>) -> (r: Option<usize>)
    ensures
        match r {
            Some(i) => stem_index(stems@, *stem, 0) == Some(i as int) && i < stems@.len(),
            None => stem_index(stems@, *stem, 0) is None,
        },
{
    let mut i: usize = 0;
    while i < stems.len()
        invariant
            i <= stems@.len(),
            stem_index(stems@, *stem, 0) == stem_index(stems@, *stem, i as int),
        decreases stems@.len() - i,
    {
        if stems_equal(&stems[i], stem) {
            return Some(i);
        }
        i += 1;
    }
    None
}

/// Whether a place is in the list.
fn has_place(list: &Vec<usize>, x: usize) -> (r: bool)
    ensures
        r == list@.contains(x),
{
    let mut i: usize = 0;
    while i < list.len()
        invariant
            i <= list@.len(),
            forall|k: int| 0 <= k < i ==> #[trigger] list@[k] != x,
        decreases list@.len() - i,
    {
        if list[i] == x {
            proof {
                assert(list@[i as int] == x);
            }
            return true;
        }
        i += 1;
    }
    false
}

/// Puts a place into a list that is in order.
fn insert_place(list: &mut Vec<usize>, x: usize)
    ensures
        final(list)@ == with_place(old(list)@, x),
    decreases old(list)@.len(),
{
    match list.pop() {
        None => {
            list.push(x);
            proof {
                assert(list@ =~= old(list)@.push(x));
            }
        },
        Some(last) => {
            if last <= x {
                list.push(last);
                proof {
                    assert(list@ =~= old(list)@);
                }
                list.push(x);
            } else {
                proof {
                    assert(list@ =~= old(list)@.drop_last());
                }
                insert_place(list, x);
                list.push(last);
            }
        },
    }
}

/// The places in ascending order.
fn order_places(list: &Vec<usize>) -> (r: Vec<usize>)
    ensures
        r@ == in_order(list@),
{
    let mut out: Vec<usize> = Vec::new();
    let mut i: usize = 0;
    proof {
        assert(out@ =~= in_order(list@.take(0)));
    }
    while i < list.len()
        invariant
            i <= list@.len(),
            out@ == in_order(list@.take(i as int)),
        decreases list@.len() - i,
    {
        insert_place(&mut out, list[i]);
        i += 1;
        proof {
            assert(list@.take(i as int).drop_last() =~= list@.take(i - 1));
            assert(list@.take(i as int).last() == list@[i - 1]);
        }
    }
    proof {
        assert(list@.take(i as int) =~= list@);
    }
    out
}

/// How far an operation moves.
fn op_delta<N: Number>(op: &PathOp<N>) -> (r: (N, N))
    ensures
        r == delta(*op),
{
    match *op {
        PathOp::Move(dx, dy) => (dx, dy),
        PathOp::Line(dx, dy) => (dx, dy),
        PathOp::Curve(a, b, c, d, e, f) => (a.plus(c).plus(e), b.plus(d).plus(f)),
    }
}

/// The code of a character that a number is.
fn read_code<N: Number>(v: N) -> (r: Option<u8>)
    ensures
        r == char_code(v),
{
    let i: i64 = v.whole()?;
    if 0 <= i && i <= 255 {
        Some(i as u8)
    } else {
        None
    }
}

/// Reads the operand at `pos`.
fn read_operand(code: &[u8], pos: usize) -> (r: Option<(i32, usize)>)
    requires
        pos < code@.len(),
    ensures
        match r {
            Some(o) => operand_at(code@, pos as int) == Some((o.0 as int, o.1 as int)) && pos < o.1
                <= code@.len(),
            None => operand_at(code@, pos as int) is None,
        },
{
    let b: i32 = code[pos] as i32;
    let room: usize = code.len() - pos;
    if b <= 246 {
        Some((b - 139, pos + 1))
    } else if b <= 250 {
        if room < 2 {
            return None;
        }
        Some(((b - 247) * 256 + code[pos + 1] as i32 + 108, pos + 2))
    } else if b <= 254 {
        if room < 2 {
            return None;
        }
        Some((-(b - 251) * 256 - code[pos + 1] as i32 - 108, pos + 2))
    } else {
        if room < 5 {
            return None;
        }
        let v: i64 = code[pos + 1] as i64 * 0x100_0000 + code[pos + 2] as i64 * 0x1_0000 + code[pos
            + 3] as i64 * 0x100 + code[pos + 4] as i64;
        if v >= 0x8000_0000 {
            Some(((v - 0x1_0000_0000) as i32, pos + 5))
        } else {
            Some((v as i32, pos + 5))
        }
    }
}

impl<N: Number> Interp<N> {
    /// The machine at the start of a glyph.
    pub fn new() -> (r: Interp<N>)
        ensures
            r@ == fresh::<N>(),
    {
        let zero: N = N::from_int(0);
        let r = Interp {
            stack: Vec::new(),
            results: Vec::new(),
            width: None,
            sb: (zero, zero),
            stems: Vec::new(),
            segments: Vec::new(),
            active: Vec::new(),
            dirty: false,
            replace_pending: false,
            in_flex: false,
            flex: Vec::new(),
            path_started: false,
            cur: (zero, zero),
            seac: None,
        };
        proof {
            assert(r@.segments =~= Seq::empty());
        }
        r
    }

    /// Pushes an operand.
    pub fn push(&mut self, v: N) -> (r: Option<()>)
        ensures
            match r {
                Some(_) => pushed(old(self)@, v) == Some(final(self)@),
                None => pushed(old(self)@, v) is None,
            },
    {
        if self.stack.len() >= MAX_STACK {
            return None;
        }
        self.stack.push(v);
        Some(())
    }

    /// Pops `n` operands, in the order in which they were pushed.
    pub fn take(&mut self, n: usize) -> (r: Option<Vec<N>>)
        ensures
            match r {
                Some(a) => {
                    &&& n <= old(self)@.stack.len()
                    &&& a@ == top(old(self)@, n as int)
                    &&& a@.len() == n
                    &&& final(self)@ == popped(old(self)@, n as int)
                },
                None => old(self)@.stack.len() < n,
            },
    {
        if self.stack.len() < n {
            return None;
        }
        let at: usize = self.stack.len() - n;
        Some(self.stack.split_off(at))
    }

    /// Makes the stem at place `i` active.
    fn activate(&mut self, i: usize)
        ensures
            final(self)@ == activated(old(self)@, i),
    {
        if !has_place(&self.active, i) {
            self.active.push(i);
            self.dirty = true;
        }
    }

    /// Declares a stem.
    pub fn add_stem(&mut self, horiz: bool, lo: N, ext: N) -> (r: Option<()>)
        requires
            machine_ok(old(self)@),
        ensures
            match r {
                Some(_) => stem_added(old(self)@, horiz, lo, ext) == Some(final(self)@)
                    && machine_ok(final(self)@),
                None => stem_added(old(self)@, horiz, lo, ext) is None,
            },
    {
        if self.replace_pending {
            self.active = Vec::new();
            self.replace_pending = false;
            self.dirty = true;
        }
        let stem = Stem { horiz, lo, ext };
        match find_stem(&self.stems, &stem) {
            Some(i) => {
                self.activate(i);
            },
            None => {
                if self.stems.len() >= MAX_STEMS {
                    return None;
                }
                let i: usize = self.stems.len();
                self.stems.push(stem);
                self.activate(i);
            },
        }
        Some(())
    }

    /// Draws a path operation.
    pub fn path_op(&mut self, op: PathOp<N>)
        requires
            machine_ok(old(self)@),
        ensures
            final(self)@ == drawn(old(self)@, op),
            machine_ok(final(self)@),
    {
        let ghost before = self@;
        let (dx, dy) = op_delta(&op);
        self.cur = (self.cur.0.plus(dx), self.cur.1.plus(dy));
        if self.segments.len() == 0 || self.dirty {
            let mut ops: Vec<PathOp<N>> = Vec::new();
            ops.push(op);
            let active = order_places(&self.active);
            self.segments.push(Segment { active, ops });
            self.dirty = false;
            proof {
                assert(self@.segments =~= before.segments.push(
                    SegmentValue { active: in_order(before.active), ops: seq![op] },
                )) by {
                    assert(ops@ =~= seq![op]);
                }
                places_in_order(before.active);
                assert forall|i: int| 0 <= i < active@.len() implies #[trigger] active@[i]
                    < before.stems.len() by {
                    assert(in_order(before.active).contains(active@[i]));
                    let k = choose|k: int|
                        0 <= k < before.active.len() && before.active[k] == active@[i];
                    assert(before.active[k] < before.stems.len());
                }
            }
        } else {
            match self.segments.pop() {
                Some(last) => {
                    let mut seg = last;
                    seg.ops.push(op);
                    self.segments.push(seg);
                    proof {
                        assert(before.segments.last() == last@);
                        assert(self@.segments =~= drawn(before, op).segments);
                        assert forall|i: int| 0 <= i < self@.segments.len() implies all_below(
                            (#[trigger] self@.segments[i]).active,
                            self@.stems.len(),
                        ) by {
                            assert(all_below(before.segments[i].active, before.stems.len()));
                        }
                    }
                },
                None => {},
            }
        }
        proof {
            assert(self@ == drawn(before, op));
            assert forall|i: int| 0 <= i < self@.segments.len() implies all_below(
                (#[trigger] self@.segments[i]).active,
                self@.stems.len(),
            ) by {
                if i < before.segments.len() {
                    assert(all_below(before.segments[i].active, before.stems.len()));
                }
            }
        }
    }

    /// Moves.
    pub fn moveto(&mut self, dx: N, dy: N)
        requires
            machine_ok(old(self)@),
        ensures
            final(self)@ == moved(old(self)@, dx, dy),
            machine_ok(final(self)@),
    {
        if self.in_flex {
            self.flex.push((dx, dy));
            self.cur = (self.cur.0.plus(dx), self.cur.1.plus(dy));
            return;
        }
        if !self.path_started {
            self.path_started = true;
            self.path_op(PathOp::Move(dx.plus(self.sb.0), dy.plus(self.sb.1)));
        } else {
            self.path_op(PathOp::Move(dx, dy));
        }
    }

    /// Sets sidebearing and width.
    fn set_metrics(&mut self, sb: (N, N), width: N) -> (r: Option<()>)
        requires
            machine_ok(old(self)@),
        ensures
            match r {
                Some(_) => with_metrics(old(self)@, sb, width) == Some(final(self)@) && machine_ok(
                    final(self)@,
                ),
                None => with_metrics(old(self)@, sb, width) is None,
            },
    {
        if self.path_started {
            return None;
        }
        self.sb = sb;
        self.width = Some(width);
        self.stack = Vec::new();
        Some(())
    }

    /// Runs a one-byte operator other than those that call, return or end.
    fn operate(&mut self, op: u8) -> (r: Option<()>)
        requires
            machine_ok(old(self)@),
        ensures
            match r {
                Some(_) => operated(old(self)@, op) == Some(final(self)@) && machine_ok(
                    final(self)@,
                ),
                None => operated(old(self)@, op) is None,
            },
    {
        let zero: N = N::from_int(0);
        match op {
            1 => {
                let a = self.take(2)?;
                self.add_stem(true, a[0].plus(self.sb.1), a[1])
            },
            3 => {
                let a = self.take(2)?;
                self.add_stem(false, a[0].plus(self.sb.0), a[1])
            },
            4 => {
                let a = self.take(1)?;
                self.moveto(zero, a[0]);
                Some(())
            },
            5 => {
                let a = self.take(2)?;
                self.path_op(PathOp::Line(a[0], a[1]));
                Some(())
            },
            6 => {
                let a = self.take(1)?;
                self.path_op(PathOp::Line(a[0], zero));
                Some(())
            },
            7 => {
                let a = self.take(1)?;
                self.path_op(PathOp::Line(zero, a[0]));
                Some(())
            },
            8 => {
                let a = self.take(6)?;
                self.path_op(PathOp::Curve(a[0], a[1], a[2], a[3], a[4], a[5]));
                Some(())
            },
            9 => {
                self.stack = Vec::new();
                Some(())
            },
            13 => {
                let a = self.take(2)?;
                self.set_metrics((a[0], zero), a[1])
            },
            21 => {
                let a = self.take(2)?;
                self.moveto(a[0], a[1]);
                Some(())
            },
            22 => {
                let a = self.take(1)?;
                self.moveto(a[0], zero);
                Some(())
            },
            30 => {
                let a = self.take(4)?;
                self.path_op(PathOp::Curve(zero, a[0], a[1], a[2], a[3], zero));
                Some(())
            },
            31 => {
                let a = self.take(4)?;
                self.path_op(PathOp::Curve(a[0], zero, a[1], a[2], zero, a[3]));
                Some(())
            },
            _ => None,
        }
    }

    /// Declares three stems.
    fn add_three(&mut self, horiz: bool) -> (r: Option<()>)
        requires
            machine_ok(old(self)@),
        ensures
            match r {
                Some(_) => three_stems(old(self)@, horiz) == Some(final(self)@) && machine_ok(
                    final(self)@,
                ),
                None => three_stems(old(self)@, horiz) is None,
            },
    {
        let at: N = if horiz {
            self.sb.1
        } else {
            self.sb.0
        };
        let a = self.take(6)?;
        self.add_stem(horiz, a[0].plus(at), a[1])?;
        self.add_stem(horiz, a[2].plus(at), a[3])?;
        self.add_stem(horiz, a[4].plus(at), a[5])
    }

    /// Ends a composite.
    pub fn finish_seac(&mut self) -> (r: Option<()>)
        requires
            machine_ok(old(self)@),
        ensures
            match r {
                Some(_) => composed(old(self)@) == Some(final(self)@) && segments_ok(
                    final(self)@.segments,
                    final(self)@.stems.len(),
                ),
                None => composed(old(self)@) is None,
            },
    {
        let a = self.take(5)?;
        let bchar: u8 = read_code(a[3])?;
        let achar: u8 = read_code(a[4])?;
        if self.path_started {
            return None;
        }
        self.segments = Vec::new();
        self.stems = Vec::new();
        self.seac = Some(Seac { asb: a[0], adx: a[1], ady: a[2], bchar, achar });
        proof {
            assert(self@.segments =~= Seq::empty());
        }
        Some(())
    }

    /// Ends flex.
    fn end_flex(&mut self)
        requires
            machine_ok(old(self)@),
            old(self)@.flex.len() == 7,
        ensures
            final(self)@ == flexed(old(self)@),
            machine_ok(final(self)@),
    {
        let mut p: Vec<(N, N)> = Vec::new();
        p.append(&mut self.flex);
        self.in_flex = false;
        proof {
            assert(p@ =~= old(self)@.flex);
            assert(self@.flex =~= Seq::empty());
        }
        self.path_op(
            PathOp::Curve(
                p[0].0.plus(p[1].0),
                p[0].1.plus(p[1].1),
                p[2].0,
                p[2].1,
                p[3].0,
                p[3].1,
            ),
        );
        self.path_op(PathOp::Curve(p[4].0, p[4].1, p[5].0, p[5].1, p[6].0, p[6].1));
        self.results.push(self.cur.1);
        self.results.push(self.cur.0);
    }

    /// Calls an other-subroutine.
    pub fn callothersubr(&mut self) -> (r: Option<()>)
        requires
            machine_ok(old(self)@),
        ensures
            match r {
                Some(_) => other_called(old(self)@) == Some(final(self)@) && machine_ok(
                    final(self)@,
                ),
                None => other_called(old(self)@) is None,
            },
    {
        let a = self.take(2)?;
        let which: i64 = a[1].whole()?;
        let n: i64 = a[0].whole()?;
        if n < 0 || n as u64 > self.stack.len() as u64 {
            return None;
        }
        let args = self.take(n as usize)?;
        match which {
            0 => {
                if !(args.len() == 3 || args.len() == 17) || !self.in_flex || self.flex.len() != 7 {
                    return None;
                }
                self.end_flex();
            },
            1 => {
                if args.len() != 0 || self.in_flex || !self.path_started {
                    return None;
                }
                self.in_flex = true;
                self.flex = Vec::new();
            },
            2 => {
                if args.len() != 0 || !self.in_flex {
                    return None;
                }
            },
            3 => {
                if args.len() != 1 {
                    return None;
                }
                self.replace_pending = true;
                self.results.push(args[0]);
            },
            _ => {
                return None;
            },
        }
        Some(())
    }

    /// Runs a two-byte operator. The flag tells whether it ends the glyph.
    fn escape(&mut self, op: u8) -> (r: Option<bool>)
        requires
            machine_ok(old(self)@),
        ensures
            match r {
                Some(ended) => {
                    &&& escaped(old(self)@, op) == Some((final(self)@, ended))
                    &&& segments_ok(final(self)@.segments, final(self)@.stems.len())
                    &&& !ended ==> machine_ok(final(self)@)
                },
                None => escaped(old(self)@, op) is None,
            },
    {
        match op {
            0 | 33 => {
                self.stack = Vec::new();
            },
            1 => {
                self.add_three(false)?;
            },
            2 => {
                self.add_three(true)?;
            },
            6 => {
                self.finish_seac()?;
                return Some(true);
            },
            7 => {
                let a = self.take(4)?;
                if !a[3].is_equal(N::from_int(0)) {
                    return None;
                }
                self.set_metrics((a[0], a[1]), a[2])?;
            },
            12 => {
                let a = self.take(2)?;
                if a[1].is_equal(N::from_int(0)) {
                    return None;
                }
                self.push(a[0].over(a[1]))?;
            },
            16 => {
                self.callothersubr()?;
            },
            17 => {
                match self.results.pop() {
                    Some(v) => {
                        self.push(v)?;
                    },
                    None => {
                        return None;
                    },
                }
            },
            _ => {
                return None;
            },
        }
        Some(false)
    }

    /// Runs a program, with `left` tokens to go. Gives back how many are
    /// left, and whether the glyph has ended.
    pub fn exec(&mut self, subrs: &Vec<Vec<u8>>, code: &[u8], depth: usize, left: usize) -> (r:
        Option<(usize, bool)>)
        requires
            machine_ok(old(self)@),
            depth <= MAX_SUBR_DEPTH,
        ensures
            match r {
                Some(u) => {
                    &&& run(views(subrs@), code@, 0, depth as int, left as int, old(self)@) == Some(
                        RunValue { machine: final(self)@, left: u.0 as int, ended: u.1 },
                    )
                    &&& segments_ok(final(self)@.segments, final(self)@.stems.len())
                    &&& !u.1 ==> machine_ok(final(self)@)
                    &&& u.0 <= left
                },
                None => run(views(subrs@), code@, 0, depth as int, left as int, old(self)@) is None,
            },
        decreases left,
    {
        let ghost goal = run(views(subrs@), code@, 0, depth as int, left as int, self@);
        let mut rest: usize = left;
        let mut pos: usize = 0;
        while pos < code.len()
            invariant
                pos <= code@.len(),
                rest <= left,
                depth <= MAX_SUBR_DEPTH,
                machine_ok(self@),
                goal == run(views(subrs@), code@, 0, depth as int, left as int, old(self)@),
                goal == run(
                    views(subrs@),
                    code@,
                    pos as int,
                    depth as int,
                    rest as int,
                    self@,
                ),
            decreases rest,
        {
            if rest == 0 {
                return None;
            }
            let b: u8 = code[pos];
            if b >= 32 {
                let (v, next) = read_operand(code, pos)?;
                self.push(N::from_int(v))?;
                pos = next;
                rest -= 1;
            } else if b == 10 {
                let a = self.take(1)?;
                let i: i64 = a[0].whole()?;
                if i < 0 || i as u64 >= subrs.len() as u64 || depth >= MAX_SUBR_DEPTH {
                    return None;
                }
                proof {
                    assert(views(subrs@)[i as int] == subrs@[i as int]@);
                }
                let (more, ended) = self.exec(
                    subrs,
                    subrs[i as usize].as_slice(),
                    depth + 1,
                    rest - 1,
                )?;
                if ended {
                    return Some((more, true));
                }
                rest = more;
                pos += 1;
            } else if b == 11 {
                return Some((rest - 1, false));
            } else if b == 14 {
                return Some((rest - 1, true));
            } else if b == 12 {
                if pos + 1 >= code.len() {
                    return None;
                }
                let ended = self.escape(code[pos + 1])?;
                if ended {
                    return Some((rest - 1, true));
                }
                pos += 2;
                rest -= 1;
            } else {
                self.operate(b)?;
                pos += 1;
                rest -= 1;
            }
        }
        Some((rest, false))
    }
}

/// Runs the program of a glyph.
fn run_glyph<N: Number>(font: &Type1Font<N>, name: &[u8]) -> (r: Option<Interp<N>>)
    ensures
        match r {
            Some(m) => glyph_run(font@, name@) == Some(m@) && segments_ok(
                m@.segments,
                m@.stems.len(),
            ) && m.width is Some,
            None => glyph_run(font@, name@) is None,
        },
{
    let code = font.program(name)?;
    let mut m: Interp<N> = Interp::new();
    let _ = m.exec(&font.subrs, code, 0, MAX_GLYPH_TOKENS)?;
    if m.in_flex || m.width.is_none() {
        return None;
    }
    Some(m)
}

/// The stems of a glyph that its segments speak of are there.
pub open spec fn glyph_ok<N>(g: GlyphValue<N>) -> bool {
    segments_ok(g.segments, g.stems.len())
}

/// A glyph that is not a composite.
fn interpret_plain<N: Number>(font: &Type1Font<N>, name: &[u8]) -> (r: Option<Glyph<N>>)
    ensures
        match r {
            Some(g) => plain_glyph(font@, name@) == Some(g@) && glyph_ok(g@),
            None => plain_glyph(font@, name@) is None,
        },
{
    let m = run_glyph(font, name)?;
    let width: N = m.width?;
    if m.seac.is_some() {
        return None;
    }
    Some(Glyph { width, sb: m.sb, stems: m.stems, segments: m.segments })
}

/// Puts all operations of a glyph behind one another.
fn gather<N: Number>(segments: &Vec<Segment<N>>) -> (r: Vec<PathOp<N>>)
    ensures
        r@ == all_ops(segment_views(segments@), segments@.len() as int),
{
    let ghost v = segment_views(segments@);
    let mut out: Vec<PathOp<N>> = Vec::new();
    let mut i: usize = 0;
    while i < segments.len()
        invariant
            i <= segments@.len(),
            v == segment_views(segments@),
            out@ == all_ops(v, i as int),
        decreases segments@.len() - i,
    {
        let ghost front = out@;
        proof {
            assert(v[i as int] == segments@[i as int]@);
        }
        let mut j: usize = 0;
        while j < segments[i].ops.len()
            invariant
                i < segments@.len(),
                j <= segments@[i as int].ops@.len(),
                out@ == front + segments@[i as int].ops@.take(j as int),
            decreases segments@[i as int].ops@.len() - j,
        {
            out.push(segments[i].ops[j]);
            j += 1;
            proof {
                assert(out@ =~= front + segments@[i as int].ops@.take(j as int));
            }
        }
        proof {
            assert(segments@[i as int].ops@.take(j as int) =~= segments@[i as int].ops@);
        }
        i += 1;
    }
    out
}

/// Where operations lead.
fn find_end<N: Number>(ops: &Vec<PathOp<N>>) -> (r: (N, N))
    ensures
        r == end_of(ops@, ops@.len() as int),
{
    let mut x: N = N::from_int(0);
    let mut y: N = N::from_int(0);
    let mut i: usize = 0;
    while i < ops.len()
        invariant
            i <= ops@.len(),
            (x, y) == end_of(ops@, i as int),
        decreases ops@.len() - i,
    {
        let (dx, dy) = op_delta(&ops[i]);
        x = x.plus(dx);
        y = y.plus(dy);
        i += 1;
    }
    (x, y)
}

/// Puts a composite together.
pub fn compose_seac<N: Number>(font: &Type1Font<N>, width: N, sb: (N, N), seac: Seac<N>) -> (r:
    Option<Glyph<N>>)
    ensures
        match r {
            Some(g) => composite(font@, width, sb, seac) == Some(g@) && glyph_ok(g@),
            None => composite(font@, width, sb, seac) is None,
        },
{
    let bname = std_name(seac.bchar)?;
    let aname = std_name(seac.achar)?;
    let base = interpret_plain(font, bname.as_slice())?;
    let accent = interpret_plain(font, aname.as_slice())?;
    let mut ops = gather(&base.segments);
    let mut tail = gather(&accent.segments);
    if tail.len() == 0 {
        return None;
    }
    let ghost base_ops = ops@;
    let ghost accent_ops = tail@;
    let (dx, dy): (N, N) = match tail[0] {
        PathOp::Move(dx, dy) => (dx, dy),
        _ => {
            return None;
        },
    };
    let end = find_end(&ops);
    let tx: N = sb.0.plus(seac.adx).minus(seac.asb);
    let ty: N = sb.1.plus(seac.ady);
    tail.set(0, PathOp::Move(dx.plus(tx).minus(end.0), dy.plus(ty).minus(end.1)));
    ops.append(&mut tail);
    let mut segments: Vec<Segment<N>> = Vec::new();
    segments.push(Segment { active: Vec::new(), ops });
    let g = Glyph { width, sb, stems: Vec::new(), segments };
    proof {
        assert(ops@ =~= joined_outline(sb, seac, base_ops, accent_ops)->0);
        assert(g@.segments =~= seq![SegmentValue { active: Seq::empty(), ops: ops@ }]);
        assert(g@.stems =~= Seq::empty());
    }
    Some(g)
}

/// The glyph of a name.
pub fn interpret_glyph<N: Number>(font: &Type1Font<N>, name: &[u8]) -> (r: Option<Glyph<N>>)
    ensures
        match r {
            Some(g) => glyph_of(font@, name@) == Some(g@) && glyph_ok(g@),
            None => glyph_of(font@, name@) is None,
        },
{
    let m = run_glyph(font, name)?;
    let width: N = m.width?;
    match m.seac {
        Some(seac) => compose_seac(font, width, m.sb, seac),
        None => Some(Glyph { width, sb: m.sb, stems: m.stems, segments: m.segments }),
    }
}

} // verus!
