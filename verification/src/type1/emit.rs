//! Writing a glyph as a Type 2 outline program.

use crate::bytes::{be16_bytes, be32_bytes, push_be16, push_be32};
use crate::type1::interp::{
    all_below, glyph_ok, segment_views, segments_ok, Glyph, GlyphValue, PathOp, Segment,
    SegmentValue, Stem, MAX_STEMS,
};
use crate::type1::number::Number;
use vstd::prelude::*;

verus! {

/// One part and then another, where both are there.
pub open spec fn cat(a: Option<Seq<u8>>, b: Option<Seq<u8>>) -> Option<Seq<u8>> {
    match (a, b) {
        (Some(x), Some(y)) => Some(x + y),
        _ => None,
    }
}

// --- numbers -------------------------------------------------------------------------------------

/// How an integer of 16 bits is written.
pub open spec fn short_int(i: int) -> Seq<u8> {
    if -107 <= i <= 107 {
        seq![(i + 139) as u8]
    } else if 108 <= i <= 1131 {
        seq![((i - 108) / 256 + 247) as u8, ((i - 108) % 256) as u8]
    } else if -1131 <= i <= -108 {
        seq![((-i - 108) / 256 + 251) as u8, ((-i - 108) % 256) as u8]
    } else {
        seq![28u8] + be16_bytes(i % 0x1_0000)
    }
}

/// How a number of an outline program is written: as an integer of 16 bits,
/// or else as a 16.16 fixed-point number.
pub open spec fn t2_bytes<N: Number>(v: N) -> Option<Seq<u8>> {
    match v.whole_value() {
        Some(i) => if -32768 <= i <= 32767 {
            Some(short_int(i as int))
        } else {
            fixed_bytes(v)
        },
        None => fixed_bytes(v),
    }
}

/// How a number is written as a 16.16 fixed-point number.
pub open spec fn fixed_bytes<N: Number>(v: N) -> Option<Seq<u8>> {
    match v.fixed_value() {
        Some(f) => Some(seq![255u8] + be32_bytes(f as int % 0x1_0000_0000)),
        None => None,
    }
}

/// The 16.16 value of the operand that a program starts with.
pub open spec fn t2_value(s: Seq<u8>) -> int {
    let b = s[0] as int;
    if b == 28 {
        let v = s[1] * 256 + s[2];
        if v >= 0x8000 {
            (v - 0x1_0000) * 0x1_0000
        } else {
            v * 0x1_0000
        }
    } else if b <= 246 {
        (b - 139) * 0x1_0000
    } else if b <= 250 {
        ((b - 247) * 256 + s[1] + 108) * 0x1_0000
    } else if b <= 254 {
        (-(b - 251) * 256 - s[1] - 108) * 0x1_0000
    } else {
        let v = s[1] * 0x100_0000 + s[2] * 0x1_0000 + s[3] * 0x100 + s[4];
        if v >= 0x8000_0000 {
            v - 0x1_0000_0000
        } else {
            v
        }
    }
}

/// A number that is written reads back: a whole number of 16 bits as itself,
/// any other as its 16.16 value.
pub proof fn number_reads_back<N: Number>(v: N)
    requires
        t2_bytes(v) is Some,
    ensures
        match v.whole_value() {
            Some(i) => if -32768 <= i <= 32767 {
                t2_value(t2_bytes(v)->0) == i * 0x1_0000
            } else {
                Some(t2_value(t2_bytes(v)->0) as i32) == v.fixed_value()
            },
            None => Some(t2_value(t2_bytes(v)->0) as i32) == v.fixed_value(),
        },
{
}

/// Writes an integer of 16 bits.
pub fn push_short(out: &mut Vec<u8>, i: i32)
    requires
        -32768 <= i <= 32767,
    ensures
        final(out)@ == old(out)@ + short_int(i as int),
{
    let ghost before = out@;
    if -107 <= i && i <= 107 {
        out.push((i + 139) as u8);
    } else if 108 <= i && i <= 1131 {
        let d: i32 = i - 108;
        out.push((d / 256 + 247) as u8);
        out.push((d % 256) as u8);
    } else if -1131 <= i && i <= -108 {
        let d: i32 = -i - 108;
        out.push((d / 256 + 251) as u8);
        out.push((d % 256) as u8);
    } else {
        out.push(28);
        let v: i32 = if i < 0 {
            i + 0x1_0000
        } else {
            i
        };
        push_be16(out, v as u16);
    }
    proof {
        assert(out@ =~= before + short_int(i as int));
    }
}

/// Writes the 32 bits of an integer, most significant first.
pub fn push_int32(out: &mut Vec<u8>, i: i32)
    ensures
        final(out)@ == old(out)@ + be32_bytes(i as int % 0x1_0000_0000),
{
    let v: i64 = if i < 0 {
        i as i64 + 0x1_0000_0000
    } else {
        i as i64
    };
    push_be32(out, v as u32);
}

/// Writes a number of an outline program.
pub fn t2_number<N: Number>(out: &mut Vec<u8>, v: N) -> (r: Option<()>)
    ensures
        match r {
            Some(_) => t2_bytes(v) is Some && final(out)@ == old(out)@ + t2_bytes(v)->0,
            None => t2_bytes(v) is None,
        },
{
    let ghost before = out@;
    if let Some(i) = v.whole() {
        if -32768 <= i && i <= 32767 {
            push_short(out, i as i32);
            return Some(());
        }
    }
    let f: i32 = v.fixed()?;
    out.push(255);
    push_int32(out, f);
    proof {
        assert(out@ =~= before + (seq![255u8] + be32_bytes(f as int % 0x1_0000_0000)));
    }
    Some(())
}

/// Writes an operator.
pub fn t2_op(out: &mut Vec<u8>, op: u8)
    ensures
        final(out)@ == old(out)@ + seq![op],
{
    let ghost before = out@;
    out.push(op);
    proof {
        assert(out@ =~= before + seq![op]);
    }
}

// --- stems -----------------------------------------------------------------------------------------

/// One stem stands behind another: it starts higher, or starts where the
/// other does and ends higher.
pub open spec fn stands_behind<N: Number>(a: Stem<N>, b: Stem<N>) -> bool {
    b.lo.below(a.lo) || (a.lo.equals(b.lo) && b.lo.sum(b.ext).below(a.lo.sum(a.ext)))
}

/// The first place from `j` on whose stem stands behind stem `x`.
pub open spec fn stem_place<N: Number>(
    stems: Seq<Stem<N>>,
    list: Seq<usize>,
    x: usize,
    j: int,
) -> int
    decreases list.len() - j,
{
    if j < 0 || j >= list.len() || stands_behind(stems[list[j] as int], stems[x as int]) {
        j
    } else {
        stem_place(stems, list, x, j + 1)
    }
}

/// The horizontal or vertical stems among the first `n`, in order.
pub open spec fn ordered<N: Number>(stems: Seq<Stem<N>>, horiz: bool, n: int) -> Seq<usize>
    decreases n,
{
    if n <= 0 {
        Seq::empty()
    } else {
        let list = ordered(stems, horiz, n - 1);
        if stems[n - 1].horiz == horiz {
            list.insert(stem_place(stems, list, (n - 1) as usize, 0), (n - 1) as usize)
        } else {
            list
        }
    }
}

pub proof fn lemma_stem_place<N: Number>(stems: Seq<Stem<N>>, list: Seq<usize>, x: usize, j: int)
    requires
        0 <= j <= list.len(),
    ensures
        j <= stem_place(stems, list, x, j) <= list.len(),
    decreases list.len() - j,
{
    if j < list.len() && !stands_behind(stems[list[j] as int], stems[x as int]) {
        lemma_stem_place(stems, list, x, j + 1);
    }
}

/// The order holds each stem of its kind, and none of the other.
pub proof fn lemma_ordered<N: Number>(stems: Seq<Stem<N>>, horiz: bool, n: int)
    requires
        0 <= n <= stems.len() <= usize::MAX,
    ensures
        ordered(stems, horiz, n).len() <= n,
        all_below(ordered(stems, horiz, n), n as nat),
        forall|i: int|
            0 <= i < n && stems[i].horiz == horiz ==> #[trigger] ordered(stems, horiz, n).contains(
                i as usize,
            ),
        forall|j: int|
            0 <= j < ordered(stems, horiz, n).len() ==> stems[(#[trigger] ordered(
                stems,
                horiz,
                n,
            )[j]) as int].horiz == horiz,
    decreases n,
{
    if n > 0 {
        lemma_ordered(stems, horiz, n - 1);
        let list = ordered(stems, horiz, n - 1);
        let next = ordered(stems, horiz, n);
        let x = (n - 1) as usize;
        if stems[n - 1].horiz == horiz {
            let p = stem_place(stems, list, x, 0);
            lemma_stem_place(stems, list, x, 0);
            assert(next == list.insert(p, x));
            assert(next[p] == x);
            assert forall|i: int| 0 <= i < n && stems[i].horiz == horiz implies
                #[trigger] next.contains(i as usize) by {
                if i < n - 1 {
                    assert(list.contains(i as usize));
                    let k = choose|k: int| 0 <= k < list.len() && list[k] == i as usize;
                    if k < p {
                        assert(next[k] == i as usize);
                    } else {
                        assert(next[k + 1] == i as usize);
                    }
                }
            }
            assert forall|j: int| 0 <= j < next.len() implies #[trigger] next[j] < n
                && stems[next[j] as int].horiz == horiz by {
                if j < p {
                    assert(next[j] == list[j]);
                } else if j > p {
                    assert(next[j] == list[j - 1]);
                }
            }
        } else {
            assert forall|j: int| 0 <= j < next.len() implies #[trigger] next[j] < n by {
                assert(list[j] < n - 1);
            }
        }
    }
}

/// Whether one stem stands behind another.
fn is_behind<N: Number>(a: Stem<N>, b: Stem<N>) -> (r: bool)
    ensures
        r == stands_behind(a, b),
{
    b.lo.is_below(a.lo) || (a.lo.is_equal(b.lo) && b.lo.plus(b.ext).is_below(a.lo.plus(a.ext)))
}

/// The horizontal or vertical stems, in order.
pub fn order_stems<N: Number>(stems: &Vec<Stem<N>>, horiz: bool) -> (r: Vec<usize>)
    ensures
        r@ == ordered(stems@, horiz, stems@.len() as int),
{
    let mut list: Vec<usize> = Vec::new();
    let mut n: usize = 0;
    while n < stems.len()
        invariant
            n <= stems@.len(),
            list@ == ordered(stems@, horiz, n as int),
        decreases stems@.len() - n,
    {
        let stem: Stem<N> = stems[n];
        proof {
            lemma_ordered(stems@, horiz, n as int);
        }
        if stem.horiz == horiz {
            let mut j: usize = 0;
            while j < list.len() && !is_behind(stems[list[j]], stem)
                invariant
                    j <= list@.len(),
                    n < stems@.len(),
                    all_below(list@, n as nat),
                    stem == stems@[n as int],
                    stem_place(stems@, list@, n, 0) == stem_place(stems@, list@, n, j as int),
                decreases list@.len() - j,
            {
                j += 1;
            }
            list.insert(j, n);
        }
        n += 1;
    }
    list
}

/// Where the stem before place `n` ends.
pub open spec fn stem_end<N: Number>(stems: Seq<Stem<N>>, list: Seq<usize>, n: int) -> N {
    if n <= 0 {
        N::integer(0)
    } else {
        let s = stems[list[n - 1] as int];
        s.lo.sum(s.ext)
    }
}

/// The operands of the first `n` stems: each the distance from the end of the
/// one before, and its extent.
pub open spec fn stem_args<N: Number>(stems: Seq<Stem<N>>, list: Seq<usize>, n: int) -> Option<
    Seq<u8>,
>
    decreases n,
{
    if n <= 0 {
        Some(Seq::empty())
    } else {
        let s = stems[list[n - 1] as int];
        cat(
            cat(
                stem_args(stems, list, n - 1),
                t2_bytes(s.lo.difference(stem_end(stems, list, n - 1))),
            ),
            t2_bytes(s.ext),
        )
    }
}

/// A stem operator with its operands, where there are stems.
pub open spec fn stem_part<N: Number>(stems: Seq<Stem<N>>, list: Seq<usize>, op: u8) -> Option<
    Seq<u8>,
> {
    if list.len() == 0 {
        Some(Seq::empty())
    } else {
        cat(stem_args(stems, list, list.len() as int), Some(seq![op]))
    }
}

proof fn lemma_stem_args_fail<N: Number>(stems: Seq<Stem<N>>, list: Seq<usize>, k: int, n: int)
    requires
        k <= n,
        stem_args(stems, list, k) is None,
    ensures
        stem_args(stems, list, n) is None,
    decreases n - k,
{
    if k < n {
        lemma_stem_args_fail(stems, list, k, n - 1);
    }
}

/// Writes a stem operator with its operands.
pub fn push_stem_args<N: Number>(
    out: &mut Vec<u8>,
    stems: &Vec<Stem<N>>,
    list: &Vec<usize>,
    op: u8,
) -> (r: Option<()>)
    requires
        all_below(list@, stems@.len()),
    ensures
        match r {
            Some(_) => stem_part(stems@, list@, op) is Some && final(out)@ == old(out)@ + stem_part(
                stems@,
                list@,
                op,
            )->0,
            None => stem_part(stems@, list@, op) is None,
        },
{
    let ghost before = out@;
    let ghost n = list@.len() as int;
    if list.len() == 0 {
        proof {
            assert(out@ =~= before + Seq::empty());
        }
        return Some(());
    }
    let mut prev: N = N::from_int(0);
    let mut i: usize = 0;
    proof {
        assert(out@ =~= before + Seq::empty());
    }
    while i < list.len()
        invariant
            i <= list@.len(),
            n == list@.len(),
            all_below(list@, stems@.len()),
            prev == stem_end(stems@, list@, i as int),
            stem_args(stems@, list@, i as int) is Some,
            out@ == before + stem_args(stems@, list@, i as int)->0,
            list@.len() > 0,
        decreases list@.len() - i,
    {
        let ghost front = stem_args(stems@, list@, i as int)->0;
        let s: Stem<N> = stems[list[i]];
        proof {
            if stem_args(stems@, list@, i + 1) is None {
                lemma_stem_args_fail(stems@, list@, i + 1, n);
            }
        }
        t2_number(out, s.lo.minus(prev))?;
        t2_number(out, s.ext)?;
        proof {
            let a = t2_bytes(s.lo.difference(prev))->0;
            let b = t2_bytes(s.ext)->0;
            assert(out@ =~= before + ((front + a) + b));
        }
        prev = s.lo.plus(s.ext);
        i += 1;
    }
    t2_op(out, op);
    proof {
        let a = stem_args(stems@, list@, n)->0;
        assert(out@ =~= before + (a + seq![op]));
    }
    Some(())
}

// --- masks ------------------------------------------------------------------------------------------

/// The first place from `j` on that holds `x`.
pub open spec fn place_of(order: Seq<usize>, x: usize, j: int) -> int
    decreases order.len() - j,
{
    if j < 0 || j >= order.len() || order[j] == x {
        j
    } else {
        place_of(order, x, j + 1)
    }
}

pub proof fn lemma_place_of(order: Seq<usize>, x: usize, j: int)
    requires
        0 <= j,
        exists|k: int| j <= k < order.len() && order[k] == x,
    ensures
        j <= place_of(order, x, j) < order.len(),
        order[place_of(order, x, j)] == x,
    decreases order.len() - j,
{
    if order[j] != x {
        lemma_place_of(order, x, j + 1);
    }
}

/// The mask of the first `n` active stems: one bit for each stem, in order,
/// the highest first.
pub open spec fn mask_bytes(order: Seq<usize>, active: Seq<usize>, n: int) -> Seq<u8>
    decreases n,
{
    if n <= 0 {
        Seq::new(((order.len() + 7) / 8) as nat, |i: int| 0u8)
    } else {
        let mask = mask_bytes(order, active, n - 1);
        let bit = place_of(order, active[n - 1], 0);
        mask.update(bit / 8, mask[bit / 8] | (0x80u8 >> ((bit % 8) as u8)))
    }
}

pub proof fn lemma_mask_len(order: Seq<usize>, active: Seq<usize>, n: int)
    requires
        n <= active.len(),
        forall|i: int| 0 <= i < active.len() ==> order.contains(#[trigger] active[i]),
    ensures
        mask_bytes(order, active, n).len() == (order.len() + 7) / 8,
    decreases n,
{
    if n > 0 {
        lemma_mask_len(order, active, n - 1);
        assert(order.contains(active[n - 1]));
        lemma_place_of(order, active[n - 1], 0);
    }
}

/// Bit `p` of a mask is set, the highest bit of a byte first.
pub open spec fn bit_set(mask: Seq<u8>, p: int) -> bool {
    mask[p / 8] & (0x80u8 >> ((p % 8) as u8)) != 0
}

/// A mask says of each stem whether it is active: the bit of a place in the
/// order is set where one of the first `n` active stems has that place, and
/// nowhere else.
pub proof fn masks_hold_the_active_stems(order: Seq<usize>, active: Seq<usize>, n: int, p: int)
    requires
        0 <= n <= active.len(),
        0 <= p < order.len(),
        forall|i: int| 0 <= i < active.len() ==> order.contains(#[trigger] active[i]),
    ensures
        bit_set(mask_bytes(order, active, n), p) <==> exists|i: int|
            0 <= i < n && place_of(order, #[trigger] active[i], 0) == p,
    decreases n,
{
    lemma_mask_len(order, active, n);
    let shift = (p % 8) as u8;
    if n <= 0 {
        let zero: u8 = mask_bytes(order, active, n)[p / 8];
        assert(zero == 0);
        assert(0u8 & (0x80u8 >> shift) == 0) by (bit_vector);
    } else {
        masks_hold_the_active_stems(order, active, n - 1, p);
        lemma_mask_len(order, active, n - 1);
        let x = active[n - 1];
        assert(order.contains(x));
        lemma_place_of(order, x, 0);
        let bit = place_of(order, x, 0);
        let before = mask_bytes(order, active, n - 1);
        let after = mask_bytes(order, active, n);
        let old_byte = before[p / 8];
        let set = (bit % 8) as u8;
        if p / 8 == bit / 8 {
            assert(after[p / 8] == old_byte | (0x80u8 >> set));
            assert(shift < 8 && set < 8);
            assert((old_byte | (0x80u8 >> set)) & (0x80u8 >> shift) != 0 <==> (set == shift
                || old_byte & (0x80u8 >> shift) != 0)) by (bit_vector)
                requires
                    shift < 8,
                    set < 8,
            ;
            assert(set == shift <==> bit == p);
        } else {
            assert(after[p / 8] == old_byte);
        }
        if bit == p {
            assert(place_of(order, active[n - 1], 0) == p);
        }
        assert forall|i: int| 0 <= i < n && place_of(order, #[trigger] active[i], 0) == p && bit
            != p implies i < n - 1 by {}
    }
}

/// The first place that holds `x`.
fn find_place(order: &Vec<usize>, x: usize) -> (r: usize)
    requires
        order@.contains(x),
    ensures
        r == place_of(order@, x, 0),
        r < order@.len(),
{
    proof {
        lemma_place_of(order@, x, 0);
    }
    let total: usize = order.len();
    let mut j: usize = 0;
    while order[j] != x
        invariant
            total == order@.len(),
            j <= place_of(order@, x, 0) < order@.len(),
            order@[place_of(order@, x, 0)] == x,
            place_of(order@, x, 0) == place_of(order@, x, j as int),
        decreases order@.len() - j,
    {
        j += 1;
    }
    j
}

/// The mask of active stems.
fn make_mask(order: &Vec<usize>, active: &Vec<usize>) -> (r: Vec<u8>)
    requires
        order@.len() <= 2 * MAX_STEMS,
        forall|i: int| 0 <= i < active@.len() ==> order@.contains(#[trigger] active@[i]),
    ensures
        r@ == mask_bytes(order@, active@, active@.len() as int),
{
    let mut mask: Vec<u8> = Vec::new();
    let len: usize = (order.len() + 7) / 8;
    while mask.len() < len
        invariant
            mask@.len() <= len,
            forall|k: int| 0 <= k < mask@.len() ==> #[trigger] mask@[k] == 0u8,
        decreases len - mask@.len(),
    {
        mask.push(0);
    }
    proof {
        assert(mask@ =~= mask_bytes(order@, active@, 0));
    }
    let mut i: usize = 0;
    while i < active.len()
        invariant
            i <= active@.len(),
            len == (order@.len() + 7) / 8,
            forall|i: int| 0 <= i < active@.len() ==> order@.contains(#[trigger] active@[i]),
            mask@ == mask_bytes(order@, active@, i as int),
        decreases active@.len() - i,
    {
        proof {
            lemma_mask_len(order@, active@, i as int);
        }
        let bit: usize = find_place(order, active[i]);
        let shift: u8 = (bit % 8) as u8;
        let value: u8 = mask[bit / 8] | (0x80u8 >> shift);
        mask.set(bit / 8, value);
        i += 1;
    }
    mask
}

// --- paths -------------------------------------------------------------------------------------------

/// A path operation: a move or a line along one axis has an operator of its
/// own.
pub open spec fn op_bytes<N: Number>(op: PathOp<N>) -> Option<Seq<u8>> {
    let zero = N::integer(0);
    match op {
        PathOp::Move(dx, dy) => if dx.equals(zero) {
            cat(t2_bytes(dy), Some(seq![4u8]))
        } else if dy.equals(zero) {
            cat(t2_bytes(dx), Some(seq![22u8]))
        } else {
            cat(cat(t2_bytes(dx), t2_bytes(dy)), Some(seq![21u8]))
        },
        PathOp::Line(dx, dy) => if dy.equals(zero) {
            cat(t2_bytes(dx), Some(seq![6u8]))
        } else if dx.equals(zero) {
            cat(t2_bytes(dy), Some(seq![7u8]))
        } else {
            cat(cat(t2_bytes(dx), t2_bytes(dy)), Some(seq![5u8]))
        },
        PathOp::Curve(a, b, c, d, e, f) => cat(
            cat(
                cat(
                    cat(cat(cat(t2_bytes(a), t2_bytes(b)), t2_bytes(c)), t2_bytes(d)),
                    t2_bytes(e),
                ),
                t2_bytes(f),
            ),
            Some(seq![8u8]),
        ),
    }
}

/// The first `n` path operations.
pub open spec fn ops_bytes<N: Number>(ops: Seq<PathOp<N>>, n: int) -> Option<Seq<u8>>
    decreases n,
{
    if n <= 0 {
        Some(Seq::empty())
    } else {
        cat(ops_bytes(ops, n - 1), op_bytes(ops[n - 1]))
    }
}

/// The hint mask of a segment, where there are masks.
pub open spec fn mask_part(order: Seq<usize>, active: Seq<usize>, masks: bool) -> Seq<u8> {
    if masks {
        seq![19u8] + mask_bytes(order, active, active.len() as int)
    } else {
        Seq::empty()
    }
}

/// The first `n` segments.
pub open spec fn segments_bytes<N: Number>(
    segments: Seq<SegmentValue<N>>,
    order: Seq<usize>,
    masks: bool,
    n: int,
) -> Option<Seq<u8>>
    decreases n,
{
    if n <= 0 {
        Some(Seq::empty())
    } else {
        let s = segments[n - 1];
        cat(
            cat(
                segments_bytes(segments, order, masks, n - 1),
                Some(mask_part(order, s.active, masks)),
            ),
            ops_bytes(s.ops, s.ops.len() as int),
        )
    }
}

/// The width, which comes before anything else, unless it is the default.
pub open spec fn width_part<N: Number>(width: N, default_width: N, nominal_width: N) -> Option<
    Seq<u8>,
> {
    if width.equals(default_width) {
        Some(Seq::empty())
    } else {
        t2_bytes(width.difference(nominal_width))
    }
}

/// What comes before the segments: the width and the stems.
pub open spec fn head_part<N: Number>(
    g: GlyphValue<N>,
    h: Seq<usize>,
    v: Seq<usize>,
    masks: bool,
    default_width: N,
    nominal_width: N,
) -> Option<Seq<u8>> {
    let a = width_part(g.width, default_width, nominal_width);
    let b = cat(a, stem_part(g.stems, h, if masks {
        18u8
    } else {
        1u8
    }));
    cat(b, stem_part(g.stems, v, if masks {
        23u8
    } else {
        3u8
    }))
}

/// The outline program of a glyph: the width, the stems, the segments with
/// the stems that are active in them, and the end. Operators take at most 23
/// stems, and a glyph without stems has no masks.
pub open spec fn charstring<N: Number>(g: GlyphValue<N>, default_width: N, nominal_width: N) -> Option<
    Seq<u8>,
> {
    let h = ordered(g.stems, true, g.stems.len() as int);
    let v = ordered(g.stems, false, g.stems.len() as int);
    let masks = g.segments.len() > 1 && h.len() + v.len() > 0;
    if h.len() > 23 || v.len() > 23 {
        None
    } else {
        let c = head_part(g, h, v, masks, default_width, nominal_width);
        let d = cat(c, segments_bytes(g.segments, h + v, masks, g.segments.len() as int));
        cat(d, Some(seq![14u8]))
    }
}

/// Writes two numbers and an operator.
fn push_two<N: Number>(out: &mut Vec<u8>, x: N, y: N, op: u8) -> (r: Option<()>)
    ensures
        match r {
            Some(_) => cat(cat(t2_bytes(x), t2_bytes(y)), Some(seq![op])) is Some && final(out)@
                == old(out)@ + cat(cat(t2_bytes(x), t2_bytes(y)), Some(seq![op]))->0,
            None => cat(cat(t2_bytes(x), t2_bytes(y)), Some(seq![op])) is None,
        },
{
    let ghost before = out@;
    t2_number(out, x)?;
    t2_number(out, y)?;
    t2_op(out, op);
    proof {
        assert(out@ =~= before + ((t2_bytes(x)->0 + t2_bytes(y)->0) + seq![op]));
    }
    Some(())
}

/// Writes a number and an operator.
fn push_one<N: Number>(out: &mut Vec<u8>, x: N, op: u8) -> (r: Option<()>)
    ensures
        match r {
            Some(_) => cat(t2_bytes(x), Some(seq![op])) is Some && final(out)@ == old(out)@ + cat(
                t2_bytes(x),
                Some(seq![op]),
            )->0,
            None => cat(t2_bytes(x), Some(seq![op])) is None,
        },
{
    let ghost before = out@;
    t2_number(out, x)?;
    t2_op(out, op);
    proof {
        assert(out@ =~= before + (t2_bytes(x)->0 + seq![op]));
    }
    Some(())
}

/// Writes a path operation.
fn push_op<N: Number>(out: &mut Vec<u8>, op: &PathOp<N>) -> (r: Option<()>)
    ensures
        match r {
            Some(_) => op_bytes(*op) is Some && final(out)@ == old(out)@ + op_bytes(*op)->0,
            None => op_bytes(*op) is None,
        },
{
    let zero: N = N::from_int(0);
    match *op {
        PathOp::Move(dx, dy) => if dx.is_equal(zero) {
            push_one(out, dy, 4)
        } else if dy.is_equal(zero) {
            push_one(out, dx, 22)
        } else {
            push_two(out, dx, dy, 21)
        },
        PathOp::Line(dx, dy) => if dy.is_equal(zero) {
            push_one(out, dx, 6)
        } else if dx.is_equal(zero) {
            push_one(out, dy, 7)
        } else {
            push_two(out, dx, dy, 5)
        },
        PathOp::Curve(a, b, c, d, e, f) => {
            let ghost before = out@;
            t2_number(out, a)?;
            t2_number(out, b)?;
            t2_number(out, c)?;
            t2_number(out, d)?;
            t2_number(out, e)?;
            t2_number(out, f)?;
            t2_op(out, 8);
            proof {
                assert(out@ =~= before + op_bytes(*op)->0);
            }
            Some(())
        },
    }
}

proof fn lemma_ops_fail<N: Number>(ops: Seq<PathOp<N>>, k: int, n: int)
    requires
        k <= n,
        ops_bytes(ops, k) is None,
    ensures
        ops_bytes(ops, n) is None,
    decreases n - k,
{
    if k < n {
        lemma_ops_fail(ops, k, n - 1);
    }
}

/// Writes path operations.
fn push_ops<N: Number>(out: &mut Vec<u8>, ops: &Vec<PathOp<N>>) -> (r: Option<()>)
    ensures
        match r {
            Some(_) => ops_bytes(ops@, ops@.len() as int) is Some && final(out)@ == old(out)@
                + ops_bytes(ops@, ops@.len() as int)->0,
            None => ops_bytes(ops@, ops@.len() as int) is None,
        },
{
    let ghost before = out@;
    let mut i: usize = 0;
    proof {
        assert(out@ =~= before + Seq::empty());
    }
    while i < ops.len()
        invariant
            i <= ops@.len(),
            ops_bytes(ops@, i as int) is Some,
            out@ == before + ops_bytes(ops@, i as int)->0,
        decreases ops@.len() - i,
    {
        proof {
            if ops_bytes(ops@, i + 1) is None {
                lemma_ops_fail(ops@, i + 1, ops@.len() as int);
            }
        }
        let ghost front = ops_bytes(ops@, i as int)->0;
        push_op(out, &ops[i])?;
        proof {
            assert(out@ =~= before + (front + op_bytes(ops@[i as int])->0));
        }
        i += 1;
    }
    Some(())
}

proof fn lemma_segments_fail<N: Number>(
    segments: Seq<SegmentValue<N>>,
    order: Seq<usize>,
    masks: bool,
    k: int,
    n: int,
)
    requires
        k <= n,
        segments_bytes(segments, order, masks, k) is None,
    ensures
        segments_bytes(segments, order, masks, n) is None,
    decreases n - k,
{
    if k < n {
        lemma_segments_fail(segments, order, masks, k, n - 1);
    }
}

/// Writes segments.
fn push_segments<N: Number>(
    out: &mut Vec<u8>,
    segments: &Vec<Segment<N>>,
    order: &Vec<usize>,
    masks: bool,
    Ghost(stems): Ghost<nat>,
) -> (r: Option<()>)
    requires
        order@.len() <= 2 * MAX_STEMS,
        segments_ok(segment_views(segments@), stems),
        forall|i: usize| i < stems ==> #[trigger] order@.contains(i),
    ensures
        match r {
            Some(_) => segments_bytes(
                segment_views(segments@),
                order@,
                masks,
                segments@.len() as int,
            ) is Some && final(out)@ == old(out)@ + segments_bytes(
                segment_views(segments@),
                order@,
                masks,
                segments@.len() as int,
            )->0,
            None => segments_bytes(
                segment_views(segments@),
                order@,
                masks,
                segments@.len() as int,
            ) is None,
        },
{
    let ghost before = out@;
    let ghost v = segment_views(segments@);
    let mut i: usize = 0;
    proof {
        assert(out@ =~= before + Seq::empty());
    }
    while i < segments.len()
        invariant
            i <= segments@.len(),
            v == segment_views(segments@),
            order@.len() <= 2 * MAX_STEMS,
            segments_ok(v, stems),
            forall|i: usize| i < stems ==> #[trigger] order@.contains(i),
            segments_bytes(v, order@, masks, i as int) is Some,
            out@ == before + segments_bytes(v, order@, masks, i as int)->0,
        decreases segments@.len() - i,
    {
        let ghost front = segments_bytes(v, order@, masks, i as int)->0;
        let ghost seg = v[i as int];
        proof {
            assert(seg == segments@[i as int]@);
            assert(all_below(seg.active, stems));
            if segments_bytes(v, order@, masks, i + 1) is None {
                lemma_segments_fail(v, order@, masks, i + 1, segments@.len() as int);
            }
        }
        if masks {
            proof {
                assert forall|k: int| 0 <= k < seg.active.len() implies order@.contains(
                    #[trigger] seg.active[k],
                ) by {}
            }
            let mut mask = make_mask(order, &segments[i].active);
            out.push(19);
            out.append(&mut mask);
        }
        proof {
            assert(out@ =~= before + (front + mask_part(order@, seg.active, masks)));
        }
        push_ops(out, &segments[i].ops)?;
        proof {
            assert(out@ =~= before + ((front + mask_part(order@, seg.active, masks)) + ops_bytes(
                seg.ops,
                seg.ops.len() as int,
            )->0));
        }
        i += 1;
    }
    Some(())
}

/// Writes what comes before the segments.
fn emit_head<N: Number>(
    glyph: &Glyph<N>,
    h: &Vec<usize>,
    v: &Vec<usize>,
    masks: bool,
    default_width: N,
    nominal_width: N,
) -> (r: Option<Vec<u8>>)
    requires
        all_below(h@, glyph@.stems.len()),
        all_below(v@, glyph@.stems.len()),
    ensures
        match r {
            Some(out) => head_part(glyph@, h@, v@, masks, default_width, nominal_width) == Some(
                out@,
            ),
            None => head_part(glyph@, h@, v@, masks, default_width, nominal_width) is None,
        },
{
    let mut out: Vec<u8> = Vec::new();
    if !glyph.width.is_equal(default_width) {
        t2_number(&mut out, glyph.width.minus(nominal_width))?;
    }
    let ghost a = width_part(glyph.width, default_width, nominal_width);
    proof {
        assert(Some(out@) == a) by {
            if a is Some {
                assert(out@ =~= a->0);
            }
        }
    }
    push_stem_args(&mut out, &glyph.stems, h, if masks {
        18
    } else {
        1
    })?;
    push_stem_args(&mut out, &glyph.stems, v, if masks {
        23
    } else {
        3
    })?;
    Some(out)
}

/// Puts both orders behind one another.
fn join_order<N: Number>(stems: &Vec<Stem<N>>, h: Vec<usize>, v: Vec<usize>) -> (r: Vec<usize>)
    requires
        h@ == ordered(stems@, true, stems@.len() as int),
        v@ == ordered(stems@, false, stems@.len() as int),
    ensures
        r@ == h@ + v@,
        forall|i: usize| i < stems@.len() ==> #[trigger] r@.contains(i),
{
    let count: usize = stems.len();
    let ghost h_list = h@;
    let ghost v_list = v@;
    let mut order = h;
    let mut tail = v;
    order.append(&mut tail);
    proof {
        lemma_ordered(stems@, true, count as int);
        lemma_ordered(stems@, false, count as int);
        assert(order@ =~= h_list + v_list);
        assert forall|i: usize| i < stems@.len() implies #[trigger] order@.contains(i) by {
            if stems@[i as int].horiz {
                assert(h_list.contains(i as int as usize));
                let k = choose|k: int| 0 <= k < h_list.len() && h_list[k] == i;
                assert(order@[k] == i);
            } else {
                assert(v_list.contains(i as int as usize));
                let k = choose|k: int| 0 <= k < v_list.len() && v_list[k] == i;
                assert(order@[h_list.len() + k] == i);
            }
        }
    }
    order
}

/// Writes the outline program of a glyph.
pub fn emit_charstring<N: Number>(glyph: &Glyph<N>, default_width: N, nominal_width: N) -> (r: Option<
    Vec<u8>,
>)
    requires
        glyph_ok(glyph@),
    ensures
        match r {
            Some(out) => charstring(glyph@, default_width, nominal_width) == Some(out@),
            None => charstring(glyph@, default_width, nominal_width) is None,
        },
{
    let h = order_stems(&glyph.stems, true);
    let v = order_stems(&glyph.stems, false);
    if h.len() > 23 || v.len() > 23 {
        return None;
    }
    let count: usize = glyph.stems.len();
    proof {
        lemma_ordered(glyph@.stems, true, count as int);
        lemma_ordered(glyph@.stems, false, count as int);
        assert(glyph@.segments.len() == glyph.segments@.len());
    }
    let masks = glyph.segments.len() > 1 && h.len() + v.len() > 0;
    let ghost head = head_part(glyph@, h@, v@, masks, default_width, nominal_width);
    let mut out = emit_head(glyph, &h, &v, masks, default_width, nominal_width)?;
    let order = join_order(&glyph.stems, h, v);
    let ghost body = segments_bytes(
        glyph@.segments,
        order@,
        masks,
        glyph@.segments.len() as int,
    );
    proof {
        assert(charstring(glyph@, default_width, nominal_width) == cat(
            cat(head, body),
            Some(seq![14u8]),
        ));
    }
    push_segments(&mut out, &glyph.segments, &order, masks, Ghost(glyph@.stems.len()))?;
    t2_op(&mut out, 14);
    Some(out)
}

} // verus!
