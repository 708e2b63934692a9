//! What holds of a font whose hinting was removed: nothing is left to remove,
//! and nothing else is gone.

use crate::bytes::{be16_at, be16_bytes, be32_bytes, lemma_be32_reads_back, splice};
use crate::truetype::hinting::{
    component_len, components_from, even, glyph_offset, glyph_pass, has_programs, loca_bytes,
    loca_is_long, position, position_from, quiet_maxp, rebuilt_glyphs, stripped_glyph,
    unhinted_font, unhinted_tables, without_programs, CVT, FPGM, GLYF, GlyphPass, HEAD, LOCA, MAXP,
    MORE_COMPONENTS, PREP, WE_HAVE_INSTRUCTIONS,
};
use crate::truetype::laws::{
    adjusted_tables, assembled_checksum, assembled_font_reads_back, lemma_kept_tags,
    lemma_last_head, lemma_tables_have_tags, lemma_without, tags_ok,
};
use crate::truetype::sfnt::{
    can_assemble, checksum, head_tag, last_head, sfnt_of, tables_without, zero_adjustments,
};
use vstd::prelude::*;

verus! {

// --- glyphs ------------------------------------------------------------------------------------

/// Clearing the instructions flag leaves the other flags.
proof fn lemma_flags(flags: u16)
    ensures
        (flags & !WE_HAVE_INSTRUCTIONS) & WE_HAVE_INSTRUCTIONS == 0,
        (flags & !WE_HAVE_INSTRUCTIONS) & MORE_COMPONENTS == flags & MORE_COMPONENTS,
        component_len(flags & !WE_HAVE_INSTRUCTIONS) == component_len(flags),
{
    assert((flags & !0x0100u16) & 0x0100u16 == 0 && (flags & !0x0100u16) & 0x0020u16 == flags
        & 0x0020u16 && (flags & !0x0100u16) & 0x0001u16 == flags & 0x0001u16 && (flags & !0x0100u16)
        & 0x0008u16 == flags & 0x0008u16 && (flags & !0x0100u16) & 0x0040u16 == flags & 0x0040u16
        && (flags & !0x0100u16) & 0x0080u16 == flags & 0x0080u16) by (bit_vector);
}

proof fn lemma_components_len(g: Seq<u8>, pos: int)
    requires
        components_from(g, pos) is Some,
    ensures
        0 <= pos < (components_from(g, pos)->0).end <= g.len(),
        (components_from(g, pos)->0).records.len() == (components_from(g, pos)->0).end - pos,
    decreases g.len() - pos,
{
    let flags = be16_at(g, pos)->0;
    let end = pos + component_len(flags);
    if flags & MORE_COMPONENTS != 0 {
        lemma_components_len(g, end);
    }
}

/// Copied records announce no instructions.
proof fn lemma_copied_records(g: Seq<u8>, pos: int, t: Seq<u8>, p: int)
    requires
        components_from(g, pos) is Some,
        0 <= p,
        p + (components_from(g, pos)->0).records.len() <= t.len(),
        t.subrange(p, p + (components_from(g, pos)->0).records.len()) == (components_from(
            g,
            pos,
        )->0).records,
    ensures
        components_from(t, p) is Some,
        !(components_from(t, p)->0).instructions,
    decreases g.len() - pos,
{
    let c = components_from(g, pos)->0;
    let flags = be16_at(g, pos)->0;
    let clear = flags & !WE_HAVE_INSTRUCTIONS;
    let len = component_len(flags);
    let end = pos + len;
    lemma_flags(flags);
    lemma_components_len(g, pos);
    let record = splice(g.subrange(pos, end), 0, be16_bytes(clear as int));
    assert(record.len() == len);
    assert(c.records.len() >= len);
    let part = t.subrange(p, p + c.records.len());
    assert(part[0] == t[p] && part[1] == t[p + 1]);
    assert(c.records[0] == record[0] && c.records[1] == record[1]);
    assert(be16_at(t, p) == Some(clear));
    if flags & MORE_COMPONENTS != 0 {
        let rest = components_from(g, end)->0;
        lemma_components_len(g, end);
        assert(c.records == record + rest.records);
        assert(t.subrange(p + len, p + len + rest.records.len()) =~= rest.records) by {
            assert forall|i: int| 0 <= i < rest.records.len() implies t[p + len + i]
                == rest.records[i] by {
                assert(part[len + i] == c.records[len + i]);
            }
        }
        lemma_copied_records(g, end, t, p + len);
    }
}

/// A byte after the end changes no record.
proof fn lemma_components_pushed(g: Seq<u8>, pos: int)
    requires
        components_from(g, pos) is Some,
    ensures
        components_from(g.push(0), pos) == components_from(g, pos),
    decreases g.len() - pos,
{
    let t = g.push(0);
    let flags = be16_at(g, pos)->0;
    let end = pos + component_len(flags);
    assert(be16_at(t, pos) == Some(flags));
    assert(t.subrange(pos, end) =~= g.subrange(pos, end));
    if flags & MORE_COMPONENTS != 0 {
        lemma_components_pushed(g, end);
    }
}

/// A glyph without instructions, padded, has none to lose.
proof fn lemma_stripped_again(g: Seq<u8>)
    requires
        stripped_glyph(g) is Some,
    ensures
        ({
            let t = even(stripped_glyph(g)->0);
            stripped_glyph(t) is Some ==> (stripped_glyph(t)->0).len() == t.len()
        }),
{
    let s = stripped_glyph(g)->0;
    let t = even(s);
    let contours = be16_at(g, 0)->0;
    if contours < 0x8000 {
        let end_pts = 10 + 2 * contours as int;
        let len = be16_at(g, end_pts)->0;
        assert(t[0] == g[0] && t[1] == g[1]);
        assert(be16_at(t, 0) == Some(contours));
        assert(t[end_pts] == be16_bytes(0)[0] && t[end_pts + 1] == be16_bytes(0)[1]);
        assert(be16_at(t, end_pts) == Some(0u16));
    } else {
        let c = components_from(g, 10)->0;
        lemma_components_len(g, 10);
        assert(t[0] == g[0] && t[1] == g[1]);
        assert(be16_at(t, 0) == Some(contours));
        if !c.instructions && c.end != g.len() {
            if t != g {
                lemma_components_pushed(g, 10);
            }
        } else {
            assert(t.subrange(10, 10 + c.records.len() as int) =~= c.records);
            lemma_copied_records(g, 10, t, 10);
        }
        if components_from(t, 10) is Some {
            lemma_components_len(t, 10);
        }
    }
}

/// Offsets of glyphs are even.
spec fn offsets_ok(offsets: Seq<int>) -> bool {
    forall|i: int| 0 <= i < offsets.len() ==> 0 <= #[trigger] offsets[i] && offsets[i] % 2 == 0
}

proof fn lemma_pass(glyf: Seq<u8>, loca: Seq<u8>, long: bool, k: int)
    requires
        0 <= k,
        glyph_pass(glyf, loca, long, k) is Some,
    ensures
        ({
            let pass = glyph_pass(glyf, loca, long, k)->0;
            &&& pass.offsets.len() == k
            &&& offsets_ok(pass.offsets)
            &&& pass.glyf.len() % 2 == 0
        }),
    decreases k,
{
    if k > 0 {
        lemma_pass(glyf, loca, long, k - 1);
        let before = glyph_pass(glyf, loca, long, k - 1)->0;
        let pass = glyph_pass(glyf, loca, long, k)->0;
        let glyph = pass_glyph(glyf, loca, long, k - 1);
        reveal(pass_glyph);
        assert(pass.glyf == before.glyf || pass.glyf == even(before.glyf + glyph));
        assert(pass.offsets == before.offsets.push(before.glyf.len() as int));
        lemma_pass_part(before, pass, glyph);
    }
}

/// What is left of glyph `i`.
#[verifier::opaque]
spec fn pass_glyph(glyf: Seq<u8>, loca: Seq<u8>, long: bool, i: int) -> Seq<u8> {
    stripped_glyph(
        glyf.subrange(glyph_offset(loca, long, i)->0, glyph_offset(loca, long, i + 1)->0),
    )->0
}

proof fn lemma_pass_part(before: GlyphPass, pass: GlyphPass, glyph: Seq<u8>)
    requires
        offsets_ok(before.offsets),
        before.glyf.len() % 2 == 0,
        pass.offsets == before.offsets.push(before.glyf.len() as int),
        pass.glyf == before.glyf || pass.glyf == even(before.glyf + glyph),
    ensures
        offsets_ok(pass.offsets),
        pass.glyf.len() % 2 == 0,
{
    assert forall|i: int| 0 <= i < pass.offsets.len() implies 0 <= #[trigger] pass.offsets[i]
        && pass.offsets[i] % 2 == 0 by {
        if i < before.offsets.len() {
            assert(pass.offsets[i] == before.offsets[i]);
        }
    }
}

/// Glyph `i`, from its offset to the next.
pub open spec fn glyph_at(glyf: Seq<u8>, loca: Seq<u8>, long: bool, i: int) -> Seq<u8> {
    glyf.subrange(glyph_offset(loca, long, i)->0, glyph_offset(loca, long, i + 1)->0)
}

/// A glyph as it is written without its instructions: an empty one stays
/// empty, and another is padded to an even length.
#[verifier::opaque]
pub open spec fn bare_glyph(g: Seq<u8>) -> Seq<u8> {
    if g.len() == 0 {
        g
    } else {
        even(stripped_glyph(g)->0)
    }
}

/// The bytes are a glyph that lost its instructions, padded.
#[verifier::opaque]
spec fn is_bare(part: Seq<u8>) -> bool {
    exists|g: Seq<u8>| #[trigger]
        stripped_glyph(g) is Some && part == even(stripped_glyph(g)->0)
}

proof fn lemma_even(before: Seq<u8>, s: Seq<u8>)
    requires
        before.len() % 2 == 0,
    ensures
        even(before + s).len() >= before.len(),
        even(before + s).take(before.len() as int) == before,
        even(before + s).skip(before.len() as int) == even(s),
{
    let n = before.len() as int;
    assert((before + s).len() % 2 == s.len() % 2);
    assert(even(before + s).take(n) =~= before);
    assert(even(before + s).skip(n) =~= even(s));
}

proof fn lemma_is_bare(g: Seq<u8>, s: Seq<u8>)
    requires
        stripped_glyph(g) == Some(s),
        g.len() > 0,
    ensures
        is_bare(even(s)),
        bare_glyph(g) == even(s),
{
    reveal(is_bare);
    reveal(bare_glyph);
    assert(stripped_glyph(g) is Some);
}

/// The last glyph of a pass.
proof fn lemma_last_glyph(glyf: Seq<u8>, loca: Seq<u8>, long: bool, k: int)
    requires
        0 < k,
        glyph_pass(glyf, loca, long, k) is Some,
    ensures
        glyph_pass(glyf, loca, long, k - 1) is Some,
        ({
            let pass = glyph_pass(glyf, loca, long, k)->0;
            let before = glyph_pass(glyf, loca, long, k - 1)->0;
            let n = before.glyf.len() as int;
            &&& n <= pass.glyf.len()
            &&& before.offsets.len() == k - 1
            &&& pass.offsets == before.offsets.push(n)
            &&& pass.glyf.take(n) == before.glyf
            &&& n == pass.glyf.len() || is_bare(pass.glyf.skip(n))
            &&& pass.glyf.skip(n) == bare_glyph(glyph_at(glyf, loca, long, k - 1))
        }),
{
    let before = glyph_pass(glyf, loca, long, k - 1)->0;
    lemma_pass(glyf, loca, long, k - 1);
    let start = glyph_offset(loca, long, k - 1)->0;
    let end = glyph_offset(loca, long, k)->0;
    if start != end {
        let g = glyf.subrange(start, end);
        match stripped_glyph(g) {
            Some(s) => {
                lemma_is_bare(g, s);
                lemma_even(before.glyf, s);
            },
            None => {},
        }
    } else {
        let n = before.glyf.len() as int;
        let g = glyph_at(glyf, loca, long, k - 1);
        reveal(bare_glyph);
        assert(before.glyf.take(n) =~= before.glyf);
        assert(before.glyf.skip(n) =~= Seq::empty());
        assert(g =~= Seq::empty());
    }
}

/// Glyph `i` of a pass: it stands between its offset and the next, in the
/// form without instructions.
proof fn lemma_pass_glyph(glyf: Seq<u8>, loca: Seq<u8>, long: bool, k: int, i: int)
    requires
        0 <= i < k,
        glyph_pass(glyf, loca, long, k) is Some,
    ensures
        ({
            let pass = glyph_pass(glyf, loca, long, k)->0;
            let all = pass.offsets.push(pass.glyf.len() as int);
            &&& pass.offsets.len() == k
            &&& 0 <= all[i] <= all[i + 1] <= pass.glyf.len()
            &&& all[i] == all[i + 1] || is_bare(pass.glyf.subrange(all[i], all[i + 1]))
            &&& pass.glyf.subrange(all[i], all[i + 1]) == bare_glyph(
                glyph_at(glyf, loca, long, i),
            )
        }),
    decreases k,
{
    lemma_last_glyph(glyf, loca, long, k);
    let pass = glyph_pass(glyf, loca, long, k)->0;
    let before = glyph_pass(glyf, loca, long, k - 1)->0;
    let n = before.glyf.len() as int;
    let all = pass.offsets.push(pass.glyf.len() as int);
    if i == k - 1 {
        assert(pass.glyf.subrange(n, pass.glyf.len() as int) =~= pass.glyf.skip(n));
    } else {
        lemma_pass_glyph(glyf, loca, long, k - 1, i);
        let front = before.offsets.push(n);
        assert(all[i] == front[i] && all[i + 1] == front[i + 1]);
        assert(pass.glyf.subrange(all[i], all[i + 1]) =~= before.glyf.subrange(
            front[i],
            front[i + 1],
        )) by {
            assert(before.glyf == pass.glyf.take(n));
        }
    }
}

/// An offset that is written reads back.
proof fn lemma_loca(offsets: Seq<int>, long: bool, n: int, i: int)
    requires
        0 <= i < n <= offsets.len(),
        offsets_ok(offsets),
        loca_bytes(offsets, long, n) is Some,
    ensures
        (loca_bytes(offsets, long, n)->0).len() == if long {
            4 * n
        } else {
            2 * n
        },
        glyph_offset(loca_bytes(offsets, long, n)->0, long, i) == Some(offsets[i]),
    decreases n,
{
    let loca = loca_bytes(offsets, long, n)->0;
    let before = loca_bytes(offsets, long, n - 1)->0;
    if n > 1 {
        lemma_loca(
            offsets,
            long,
            n - 1,
            if i < n - 1 {
                i
            } else {
                0
            },
        );
    } else {
        assert(before.len() == 0);
    }
    let v = offsets[i];
    if long {
        if i == n - 1 {
            assert(loca.subrange(4 * i, 4 * i + 4) =~= be32_bytes(v));
            lemma_be32_reads_back(loca, 4 * i, v as u32);
        } else {
            assert(loca[4 * i] == before[4 * i] && loca[4 * i + 1] == before[4 * i + 1] && loca[4
                * i + 2] == before[4 * i + 2] && loca[4 * i + 3] == before[4 * i + 3]);
        }
    } else {
        if i == n - 1 {
            assert(loca[2 * i] == be16_bytes(v / 2)[0] && loca[2 * i + 1] == be16_bytes(v / 2)[1]);
        } else {
            assert(loca[2 * i] == before[2 * i] && loca[2 * i + 1] == before[2 * i + 1]);
        }
    }
}

/// A padded glyph that lost its instructions keeps its length.
proof fn lemma_bare_stays(part: Seq<u8>)
    requires
        is_bare(part),
    ensures
        stripped_glyph(part) is Some ==> (stripped_glyph(part)->0).len() == part.len(),
{
    reveal(is_bare);
    let g = choose|g: Seq<u8>| #[trigger]
        stripped_glyph(g) is Some && part == even(stripped_glyph(g)->0);
    lemma_stripped_again(g);
}

/// A second pass over rebuilt glyphs changes none of them.
proof fn lemma_pass_again(
    glyf: Seq<u8>,
    loca: Seq<u8>,
    long: bool,
    count: int,
    new_glyf: Seq<u8>,
    new_loca: Seq<u8>,
    k: int,
)
    requires
        0 <= k <= count,
        glyph_pass(glyf, loca, long, count) is Some,
        new_glyf == (glyph_pass(glyf, loca, long, count)->0).glyf,
        loca_bytes(
            (glyph_pass(glyf, loca, long, count)->0).offsets.push(new_glyf.len() as int),
            long,
            count + 1,
        ) == Some(new_loca),
    ensures
        glyph_pass(new_glyf, new_loca, long, k) is Some ==> !(glyph_pass(
            new_glyf,
            new_loca,
            long,
            k,
        )->0).changed,
    decreases k,
{
    if k > 0 {
        lemma_pass_again(glyf, loca, long, count, new_glyf, new_loca, k - 1);
        let pass = glyph_pass(glyf, loca, long, count)->0;
        let all = pass.offsets.push(new_glyf.len() as int);
        lemma_pass(glyf, loca, long, count);
        lemma_pass_glyph(glyf, loca, long, count, k - 1);
        assert(offsets_ok(all));
        lemma_loca(all, long, count + 1, k - 1);
        lemma_loca(all, long, count + 1, k);
        if all[k - 1] != all[k] {
            lemma_bare_stays(new_glyf.subrange(all[k - 1], all[k]));
        }
    }
}

/// Each glyph of a font whose hinting was removed, found through a `loca` of
/// the same format, is the glyph that stood in its place, without its
/// instructions.
pub proof fn rebuilt_glyphs_are_bare(
    glyf: Seq<u8>,
    loca: Seq<u8>,
    long: bool,
    count: int,
    i: int,
)
    requires
        0 <= i < count,
        rebuilt_glyphs(glyf, loca, long, count) is Some,
    ensures
        ({
            let new = rebuilt_glyphs(glyf, loca, long, count)->0;
            &&& glyph_offset(new.1, long, i) is Some && glyph_offset(new.1, long, i + 1) is Some
            &&& glyph_at(new.0, new.1, long, i) == bare_glyph(glyph_at(glyf, loca, long, i))
        }),
{
    let pass = glyph_pass(glyf, loca, long, count)->0;
    let all = pass.offsets.push(pass.glyf.len() as int);
    lemma_pass(glyf, loca, long, count);
    lemma_pass_glyph(glyf, loca, long, count, i);
    assert(offsets_ok(all));
    lemma_loca(all, long, count + 1, i);
    lemma_loca(all, long, count + 1, i + 1);
}

// --- tables ------------------------------------------------------------------------------------

/// The body of the first table with tag `tag` among the first `n`.
spec fn first_body(tables: Seq<(Seq<u8>, Seq<u8>)>, tag: Seq<u8>, n: int) -> Option<Seq<u8>>
    decreases n,
{
    if n <= 0 {
        None
    } else {
        match first_body(tables, tag, n - 1) {
            Some(body) => Some(body),
            None => if tables[n - 1].0 == tag {
                Some(tables[n - 1].1)
            } else {
                None
            },
        }
    }
}

proof fn lemma_first_prefix(
    a: Seq<(Seq<u8>, Seq<u8>)>,
    b: Seq<(Seq<u8>, Seq<u8>)>,
    tag: Seq<u8>,
    n: int,
)
    requires
        0 <= n <= a.len(),
        n <= b.len(),
        forall|i: int| 0 <= i < n ==> a[i] == b[i],
    ensures
        first_body(a, tag, n) == first_body(b, tag, n),
    decreases n,
{
    if n > 0 {
        lemma_first_prefix(a, b, tag, n - 1);
    }
}

proof fn lemma_position(tables: Seq<(Seq<u8>, Seq<u8>)>, tag: Seq<u8>, i: int)
    requires
        0 <= i <= tables.len(),
    ensures
        match position_from(tables, tag, i) {
            Some(k) => i <= k < tables.len() && tables[k].0 == tag && forall|j: int|
                i <= j < k ==> (#[trigger] tables[j]).0 != tag,
            None => forall|j: int| i <= j < tables.len() ==> (#[trigger] tables[j]).0 != tag,
        },
    decreases tables.len() - i,
{
    if i < tables.len() && tables[i].0 != tag {
        lemma_position(tables, tag, i + 1);
    }
}

proof fn lemma_first_none(tables: Seq<(Seq<u8>, Seq<u8>)>, tag: Seq<u8>, n: int)
    requires
        0 <= n <= tables.len(),
        forall|j: int| 0 <= j < n ==> (#[trigger] tables[j]).0 != tag,
    ensures
        first_body(tables, tag, n) is None,
    decreases n,
{
    if n > 0 {
        lemma_first_none(tables, tag, n - 1);
    }
}

proof fn lemma_first_kept(tables: Seq<(Seq<u8>, Seq<u8>)>, tag: Seq<u8>, k: int, n: int)
    requires
        0 <= k < n <= tables.len(),
        first_body(tables, tag, k + 1) is Some,
    ensures
        first_body(tables, tag, n) == first_body(tables, tag, k + 1),
    decreases n,
{
    if k + 1 < n {
        lemma_first_kept(tables, tag, k, n - 1);
    }
}

/// The first table with a tag, by its place.
proof fn lemma_first_at(tables: Seq<(Seq<u8>, Seq<u8>)>, tag: Seq<u8>)
    ensures
        match position(tables, tag) {
            Some(k) => 0 <= k < tables.len() && tables[k].0 == tag && first_body(
                tables,
                tag,
                tables.len() as int,
            ) == Some(tables[k].1),
            None => first_body(tables, tag, tables.len() as int) is None,
        },
{
    lemma_position(tables, tag, 0);
    match position(tables, tag) {
        Some(k) => {
            lemma_first_none(tables, tag, k);
            lemma_first_kept(tables, tag, k, tables.len() as int);
        },
        None => {
            lemma_first_none(tables, tag, tables.len() as int);
        },
    }
}

/// Taking out tables with another tag leaves the first.
proof fn lemma_first_without(
    tables: Seq<(Seq<u8>, Seq<u8>)>,
    other: Seq<u8>,
    tag: Seq<u8>,
    n: int,
)
    requires
        0 <= n <= tables.len(),
        tag != other,
    ensures
        first_body(
            tables_without(tables, other, n),
            tag,
            tables_without(tables, other, n).len() as int,
        ) == first_body(tables, tag, n),
    decreases n,
{
    if n > 0 {
        lemma_first_without(tables, other, tag, n - 1);
        let before = tables_without(tables, other, n - 1);
        let all = tables_without(tables, other, n);
        if tables[n - 1].0 != other {
            lemma_first_prefix(all, before, tag, before.len() as int);
        }
    }
}

/// Taking out tables puts none in.
proof fn lemma_still_without(
    tables: Seq<(Seq<u8>, Seq<u8>)>,
    other: Seq<u8>,
    tag: Seq<u8>,
    n: int,
)
    requires
        0 <= n <= tables.len(),
        forall|i: int| 0 <= i < tables.len() ==> (#[trigger] tables[i]).0 != tag,
    ensures
        forall|i: int|
            0 <= i < tables_without(tables, other, n).len() ==> (#[trigger] tables_without(
                tables,
                other,
                n,
            )[i]).0 != tag,
    decreases n,
{
    if n > 0 {
        lemma_still_without(tables, other, tag, n - 1);
        let before = tables_without(tables, other, n - 1);
        let all = tables_without(tables, other, n);
        assert forall|i: int| 0 <= i < all.len() implies (#[trigger] all[i]).0 != tag by {
            if i < before.len() {
                assert(all[i] == before[i]);
            }
        }
    }
}

/// No hinting program is left, and the first of the other tables stay.
proof fn lemma_without_programs(tables: Seq<(Seq<u8>, Seq<u8>)>, tag: Seq<u8>)
    requires
        tag != FPGM@ && tag != PREP@ && tag != CVT@,
        tags_ok(tables),
    ensures
        ({
            let w = without_programs(tables);
            &&& tags_ok(w)
            &&& first_body(w, tag, w.len() as int) == first_body(tables, tag, tables.len() as int)
            &&& forall|i: int|
                0 <= i < w.len() ==> (#[trigger] w[i]).0 != FPGM@ && w[i].0 != PREP@ && w[i].0
                    != CVT@
        }),
{
    let n = tables.len() as int;
    let a = tables_without(tables, FPGM@, n);
    let b = tables_without(a, PREP@, a.len() as int);
    let w = tables_without(b, CVT@, b.len() as int);
    lemma_kept_tags(tables, FPGM@, n);
    lemma_kept_tags(a, PREP@, a.len() as int);
    lemma_kept_tags(b, CVT@, b.len() as int);
    lemma_first_without(tables, FPGM@, tag, n);
    lemma_first_without(a, PREP@, tag, a.len() as int);
    lemma_first_without(b, CVT@, tag, b.len() as int);
    lemma_without(tables, FPGM@, n);
    lemma_without(a, PREP@, a.len() as int);
    lemma_without(b, CVT@, b.len() as int);
    lemma_still_without(a, PREP@, FPGM@, a.len() as int);
    lemma_still_without(b, CVT@, FPGM@, b.len() as int);
    lemma_still_without(b, CVT@, PREP@, b.len() as int);
}

/// The tags that matter are different.
proof fn lemma_tags()
    ensures
        HEAD@ == head_tag(),
        HEAD@ != FPGM@ && HEAD@ != PREP@ && HEAD@ != CVT@,
        LOCA@ != FPGM@ && LOCA@ != PREP@ && LOCA@ != CVT@ && LOCA@ != HEAD@,
        GLYF@ != FPGM@ && GLYF@ != PREP@ && GLYF@ != CVT@ && GLYF@ != HEAD@ && GLYF@ != LOCA@,
        MAXP@ != FPGM@ && MAXP@ != PREP@ && MAXP@ != CVT@ && MAXP@ != HEAD@ && MAXP@ != LOCA@,
        MAXP@ != GLYF@,
        HEAD@.len() == 4 && LOCA@.len() == 4 && GLYF@.len() == 4 && MAXP@.len() == 4,
{
    assert(HEAD@ =~= head_tag());
    assert(HEAD@[0] == 0x68 && FPGM@[0] == 0x66 && PREP@[0] == 0x70 && CVT@[0] == 0x63);
    assert(LOCA@[0] == 0x6C && GLYF@[0] == 0x67 && MAXP@[0] == 0x6D);
}

/// The first table with a tag in a font that was put together: its body as it
/// was handed in, but for the adjustment in `head`.
proof fn lemma_first_written(version: u32, w: Seq<(Seq<u8>, Seq<u8>)>, tag: Seq<u8>)
    requires
        last_head(w, w.len() as int) >= 0,
        position(w, tag) is Some,
        forall|k: int| 0 <= k < w.len() && (#[trigger] w[k]).0 == head_tag() ==> w[k].1.len() >= 12,
    ensures
        ({
            let f = adjusted_tables(version, w);
            let k = position(w, tag)->0;
            &&& position(f, tag) == Some(k)
            &&& tag != head_tag() ==> f[k].1 == w[k].1
            &&& be16_at(f[k].1, 50) == be16_at(w[k].1, 50)
        }),
{
    let f = adjusted_tables(version, w);
    let k = position(w, tag)->0;
    let z = zero_adjustments(w);
    let last = last_head(w, w.len() as int);
    lemma_last_head(w, w.len() as int);
    lemma_position(w, tag, 0);
    lemma_position(f, tag, 0);
    assert forall|i: int| 0 <= i < w.len() implies (#[trigger] f[i]).0 == w[i].0 by {}
    match position(f, tag) {
        Some(j) => {
            assert(f[j].0 == w[j].0 && f[k].0 == w[k].0);
        },
        None => {
            assert(f[k].0 == w[k].0);
        },
    }
}

/// Tables with the same tags have them in the same places.
proof fn lemma_same_places(
    a: Seq<(Seq<u8>, Seq<u8>)>,
    b: Seq<(Seq<u8>, Seq<u8>)>,
    tag: Seq<u8>,
)
    requires
        a.len() == b.len(),
        forall|i: int| 0 <= i < a.len() ==> (#[trigger] b[i]).0 == a[i].0,
    ensures
        position(a, tag) == position(b, tag),
{
    lemma_position(a, tag, 0);
    lemma_position(b, tag, 0);
    match position(a, tag) {
        Some(k) => {
            assert(b[k].0 == a[k].0);
            match position(b, tag) {
                Some(j) => {
                    assert(b[j].0 == a[j].0);
                },
                None => {},
            }
        },
        None => {
            match position(b, tag) {
                Some(j) => {
                    assert(b[j].0 == a[j].0);
                },
                None => {},
            }
        },
    }
}

/// Rebuilt glyphs have no instructions to lose.
proof fn lemma_rebuilt_again(glyf: Seq<u8>, loca: Seq<u8>, long: bool, count: int)
    requires
        0 <= count,
        rebuilt_glyphs(glyf, loca, long, count) is Some,
    ensures
        ({
            let new = rebuilt_glyphs(glyf, loca, long, count)->0;
            rebuilt_glyphs(new.0, new.1, long, count) is Some ==> !(rebuilt_glyphs(
                new.0,
                new.1,
                long,
                count,
            )->0).2
        }),
{
    let new = rebuilt_glyphs(glyf, loca, long, count)->0;
    lemma_pass_again(glyf, loca, long, count, new.0, new.1, count);
}

/// Where the first table with a tag stands once the programs are dropped and
/// the font is put together.
proof fn lemma_tag_written(
    version: u32,
    tables: Seq<(Seq<u8>, Seq<u8>)>,
    changed: Seq<(Seq<u8>, Seq<u8>)>,
    tag: Seq<u8>,
)
    requires
        tag != FPGM@ && tag != PREP@ && tag != CVT@,
        tables.len() == changed.len(),
        tags_ok(changed),
        forall|i: int| 0 <= i < tables.len() ==> (#[trigger] changed[i]).0 == tables[i].0,
        position(tables, tag) is Some,
        can_assemble(without_programs(changed)),
    ensures
        ({
            let f = adjusted_tables(version, without_programs(changed));
            let k = position(tables, tag)->0;
            &&& 0 <= k < tables.len()
            &&& position(f, tag) is Some
            &&& tag != head_tag() ==> f[position(f, tag)->0].1 == changed[k].1
            &&& be16_at(f[position(f, tag)->0].1, 50) == be16_at(changed[k].1, 50)
        }),
{
    let w = without_programs(changed);
    lemma_same_places(tables, changed, tag);
    lemma_first_at(tables, tag);
    lemma_first_at(changed, tag);
    lemma_without_programs(changed, tag);
    lemma_first_at(w, tag);
    lemma_first_written(version, w, tag);
}

/// No program stands in a font from which they were dropped.
proof fn lemma_no_programs(version: u32, changed: Seq<(Seq<u8>, Seq<u8>)>)
    requires
        tags_ok(changed),
        can_assemble(without_programs(changed)),
    ensures
        tags_ok(without_programs(changed)),
        !has_programs(adjusted_tables(version, without_programs(changed))),
{
    let w = without_programs(changed);
    let f = adjusted_tables(version, w);
    lemma_tags();
    lemma_without_programs(changed, HEAD@);
    lemma_last_head(w, w.len() as int);
    assert forall|i: int| 0 <= i < f.len() implies (#[trigger] f[i]).0 == w[i].0 by {}
    lemma_position(f, FPGM@, 0);
    lemma_position(f, PREP@, 0);
    lemma_position(f, CVT@, 0);
}

/// What removing the hinting makes of the tables before the programs are
/// dropped.
spec fn quiet_tables(tables: Seq<(Seq<u8>, Seq<u8>)>) -> Seq<(Seq<u8>, Seq<u8>)> {
    let head = position(tables, HEAD@)->0;
    let loca = position(tables, LOCA@)->0;
    let glyf = position(tables, GLYF@)->0;
    let maxp = position(tables, MAXP@)->0;
    let new = rebuilt_glyphs(
        tables[glyf].1,
        tables[loca].1,
        loca_is_long(tables[head].1)->0,
        be16_at(tables[maxp].1, 4)->0 as int,
    )->0;
    tables.update(glyf, (GLYF@, new.0)).update(loca, (LOCA@, new.1)).update(
        maxp,
        (MAXP@, quiet_maxp(tables[maxp].1)),
    )
}

/// The tables before the programs are dropped have the tags that they had,
/// and new bodies in three places.
proof fn lemma_quiet_tables(tables: Seq<(Seq<u8>, Seq<u8>)>)
    requires
        tags_ok(tables),
        unhinted_tables(tables) is Some,
    ensures
        ({
            let changed = quiet_tables(tables);
            let head = position(tables, HEAD@)->0;
            let loca = position(tables, LOCA@)->0;
            let glyf = position(tables, GLYF@)->0;
            let maxp = position(tables, MAXP@)->0;
            let long = loca_is_long(tables[head].1);
            let count = be16_at(tables[maxp].1, 4);
            let new = rebuilt_glyphs(tables[glyf].1, tables[loca].1, long->0, count->0 as int);
            &&& position(tables, HEAD@) is Some && position(tables, LOCA@) is Some
            &&& position(tables, GLYF@) is Some && position(tables, MAXP@) is Some
            &&& long is Some && count is Some && new is Some
            &&& unhinted_tables(tables) == Some(without_programs(changed))
            &&& tags_ok(changed)
            &&& changed.len() == tables.len()
            &&& forall|i: int| 0 <= i < tables.len() ==> (#[trigger] changed[i]).0 == tables[i].0
            &&& forall|i: int|
                0 <= i < tables.len() && i != glyf && i != loca && i != maxp ==> (
                #[trigger] changed[i]) == tables[i]
            &&& changed[head] == tables[head]
            &&& changed[glyf].1 == (new->0).0
            &&& changed[loca].1 == (new->0).1
            &&& changed[maxp].1 == quiet_maxp(tables[maxp].1)
        }),
{
    lemma_tags();
    lemma_position(tables, HEAD@, 0);
    lemma_position(tables, LOCA@, 0);
    lemma_position(tables, GLYF@, 0);
    lemma_position(tables, MAXP@, 0);
    let changed = quiet_tables(tables);
    assert forall|i: int| 0 <= i < changed.len() implies (#[trigger] changed[i]).0.len() == 4 by {
        assert(tables[i].0.len() == 4);
    }
}

/// Tables without programs whose glyphs have nothing to lose stay.
proof fn lemma_nothing_to_remove(
    f: Seq<(Seq<u8>, Seq<u8>)>,
    glyf: Seq<u8>,
    loca: Seq<u8>,
    long: bool,
    count: u16,
)
    requires
        rebuilt_glyphs(glyf, loca, long, count as int) is Some,
        !has_programs(f),
        position(f, HEAD@) is Some && position(f, LOCA@) is Some,
        position(f, GLYF@) is Some && position(f, MAXP@) is Some,
        loca_is_long(f[position(f, HEAD@)->0].1) == Some(long),
        be16_at(f[position(f, MAXP@)->0].1, 4) == Some(count),
        f[position(f, GLYF@)->0].1 == (rebuilt_glyphs(glyf, loca, long, count as int)->0).0,
        f[position(f, LOCA@)->0].1 == (rebuilt_glyphs(glyf, loca, long, count as int)->0).1,
    ensures
        unhinted_tables(f) is None,
{
    lemma_rebuilt_again(glyf, loca, long, count as int);
}

/// Tables whose hinting was removed, once they are in a font, have none to
/// remove.
proof fn lemma_unhinted_tables(version: u32, tables: Seq<(Seq<u8>, Seq<u8>)>)
    requires
        tags_ok(tables),
        unhinted_tables(tables) is Some,
        can_assemble(unhinted_tables(tables)->0),
    ensures
        tags_ok(unhinted_tables(tables)->0),
        unhinted_tables(adjusted_tables(version, unhinted_tables(tables)->0)) is None,
{
    lemma_tags();
    lemma_quiet_tables(tables);
    let changed = quiet_tables(tables);
    let head = position(tables, HEAD@)->0;
    let loca = position(tables, LOCA@)->0;
    let glyf = position(tables, GLYF@)->0;
    let maxp = position(tables, MAXP@)->0;
    let long = loca_is_long(tables[head].1)->0;
    let count = be16_at(tables[maxp].1, 4)->0;
    lemma_no_programs(version, changed);
    lemma_tag_written(version, tables, changed, HEAD@);
    lemma_tag_written(version, tables, changed, LOCA@);
    lemma_tag_written(version, tables, changed, GLYF@);
    lemma_tag_written(version, tables, changed, MAXP@);
    assert(be16_at(quiet_maxp(tables[maxp].1), 4) == Some(count));
    lemma_nothing_to_remove(
        adjusted_tables(version, without_programs(changed)),
        tables[glyf].1,
        tables[loca].1,
        long,
        count,
    );
}

/// Hinting that was removed stays removed: a second removal finds nothing to
/// remove.
pub proof fn unhinting_again_finds_nothing(font: Seq<u8>)
    requires
        unhinted_font(font) is Some,
    ensures
        unhinted_font(unhinted_font(font)->0) is None,
{
    let parts = sfnt_of(font)->0;
    lemma_tables_have_tags(font, be16_at(font, 4)->0 as int);
    lemma_unhinted_tables(parts.0, parts.1);
    assembled_font_reads_back(parts.0, unhinted_tables(parts.1)->0);
}

/// Removing the hinting keeps the version and the body of the first table of
/// each tag, but for the programs, which are gone, for `glyf` and `loca`, for
/// the instruction maximum in `maxp`, and for the adjustment in `head`, with
/// which the checksum of the font comes out right.
pub proof fn unhinting_keeps_the_rest(font: Seq<u8>, tag: Seq<u8>)
    requires
        unhinted_font(font) is Some,
        position((sfnt_of(font)->0).1, tag) is Some,
        tag != FPGM@ && tag != PREP@ && tag != CVT@,
        tag != GLYF@ && tag != LOCA@ && tag != HEAD@,
    ensures
        ({
            let old = sfnt_of(font)->0;
            let new = sfnt_of(unhinted_font(font)->0)->0;
            let body = old.1[position(old.1, tag)->0].1;
            &&& sfnt_of(unhinted_font(font)->0) is Some
            &&& new.0 == old.0
            &&& !has_programs(new.1)
            &&& position(new.1, tag) is Some
            &&& new.1[position(new.1, tag)->0].1 == if tag == MAXP@ {
                quiet_maxp(body)
            } else {
                body
            }
            &&& checksum(unhinted_font(font)->0) == 0xB1B0_AFBA
        }),
{
    let parts = sfnt_of(font)->0;
    let tables = parts.1;
    let changed = quiet_tables(tables);
    let w = without_programs(changed);
    lemma_tags();
    lemma_tables_have_tags(font, be16_at(font, 4)->0 as int);
    lemma_quiet_tables(tables);
    lemma_position(tables, GLYF@, 0);
    lemma_position(tables, LOCA@, 0);
    lemma_position(tables, MAXP@, 0);
    lemma_position(tables, tag, 0);
    lemma_no_programs(parts.0, changed);
    lemma_tag_written(parts.0, tables, changed, tag);
    assembled_font_reads_back(parts.0, w);
    assembled_checksum(parts.0, w);
}

} // verus!
