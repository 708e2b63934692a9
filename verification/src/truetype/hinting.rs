//! Removing TrueType hinting. It changes rasterization at small sizes, so
//! callers gate it behind explicit consent.

use crate::bytes::{
    be16_at, be16_bytes, be32_at, be32_bytes, get_range, overwrite, push_be16, push_be32, splice,
};
use crate::truetype::cmap::{be16, be32};
use crate::truetype::sfnt::{
    assemble_sfnt, assembled, drop_tables, is_tag, parse_tables, sfnt_of, table_view, table_views,
    tables_without, SfntTable,
};
use vstd::prelude::*;

verus! {

/// Component flag: both arguments are words.
pub const ARG_1_AND_2_ARE_WORDS: u16 = 0x0001;

/// Component flag: one scale follows.
pub const WE_HAVE_A_SCALE: u16 = 0x0008;

/// Component flag: another component follows.
pub const MORE_COMPONENTS: u16 = 0x0020;

/// Component flag: two scales follow.
pub const WE_HAVE_AN_X_AND_Y_SCALE: u16 = 0x0040;

/// Component flag: a two-by-two matrix follows.
pub const WE_HAVE_A_TWO_BY_TWO: u16 = 0x0080;

/// Component flag: instructions follow the last component.
pub const WE_HAVE_INSTRUCTIONS: u16 = 0x0100;

/// Length of a component record with these flags.
pub open spec fn component_len(flags: u16) -> int {
    4 + (if flags & ARG_1_AND_2_ARE_WORDS != 0 {
        4int
    } else {
        2
    }) + (if flags & WE_HAVE_A_SCALE != 0 {
        2int
    } else if flags & WE_HAVE_AN_X_AND_Y_SCALE != 0 {
        4
    } else if flags & WE_HAVE_A_TWO_BY_TWO != 0 {
        8
    } else {
        0
    })
}

/// What walking the component records of a composite glyph finds: the copied
/// records, where they end, and whether one announces instructions.
pub struct Components {
    pub records: Seq<u8>,
    pub end: int,
    pub instructions: bool,
}

/// The component records from `pos` on, each without its instructions flag;
/// `None` where one leaves the glyph.
pub open spec fn components_from(glyph: Seq<u8>, pos: int) -> Option<Components>
    decreases glyph.len() - pos,
{
    match be16_at(glyph, pos) {
        None => None,
        Some(flags) => {
            let end = pos + component_len(flags);
            if pos < 0 || end > glyph.len() {
                None
            } else {
                let record = splice(
                    glyph.subrange(pos, end),
                    0,
                    be16_bytes((flags & !WE_HAVE_INSTRUCTIONS) as int),
                );
                let own = flags & WE_HAVE_INSTRUCTIONS != 0;
                if flags & MORE_COMPONENTS == 0 {
                    Some(Components { records: record, end, instructions: own })
                } else {
                    match components_from(glyph, end) {
                        None => None,
                        Some(rest) => Some(
                            Components {
                                records: record + rest.records,
                                end: rest.end,
                                instructions: own || rest.instructions,
                            },
                        ),
                    }
                }
            }
        },
    }
}

/// A simple glyph with its instruction block emptied.
pub open spec fn stripped_simple(glyph: Seq<u8>, contours: int) -> Option<Seq<u8>> {
    let end_pts = 10 + 2 * contours;
    match be16_at(glyph, end_pts) {
        None => None,
        Some(len) => if end_pts + 2 + len <= glyph.len() {
            Some(glyph.take(end_pts) + be16_bytes(0) + glyph.skip(end_pts + 2 + len))
        } else {
            None
        },
    }
}

/// A composite glyph without instructions. One that announces none but has
/// trailing bytes stays as it is.
pub open spec fn stripped_composite(glyph: Seq<u8>) -> Option<Seq<u8>> {
    match components_from(glyph, 10) {
        None => None,
        Some(c) => if c.instructions {
            match be16_at(glyph, c.end) {
                Some(len) => if c.end + 2 + len <= glyph.len() {
                    Some(glyph.take(10) + c.records)
                } else {
                    None
                },
                None => None,
            }
        } else if c.end != glyph.len() {
            Some(glyph)
        } else {
            Some(glyph.take(10) + c.records)
        },
    }
}

/// `glyph` without its instructions; `None` on any structural doubt. The
/// first field counts the contours; its value -1 marks a composite glyph.
pub open spec fn stripped_glyph(glyph: Seq<u8>) -> Option<Seq<u8>> {
    match be16_at(glyph, 0) {
        None => None,
        Some(contours) => if contours < 0x8000 {
            stripped_simple(glyph, contours as int)
        } else if contours == 0xFFFF {
            stripped_composite(glyph)
        } else {
            None
        },
    }
}

/// Length of a component record.
fn component_length(flags: u16) -> (r: usize)
    ensures
        r == component_len(flags),
        6 <= r <= 16,
{
    let args: usize = if flags & ARG_1_AND_2_ARE_WORDS != 0 {
        4
    } else {
        2
    };
    let scale: usize = if flags & WE_HAVE_A_SCALE != 0 {
        2
    } else if flags & WE_HAVE_AN_X_AND_Y_SCALE != 0 {
        4
    } else if flags & WE_HAVE_A_TWO_BY_TWO != 0 {
        8
    } else {
        0
    };
    4 + args + scale
}

/// Copies the component records from offset 10 on.
fn copy_components(glyph: &[u8]) -> (r: Option<(Vec<u8>, usize, bool)>)
    ensures
        match (r, components_from(glyph@, 10)) {
            (Some(c), Some(model)) => c.0@ == model.records && c.1 == model.end && c.2
                == model.instructions && c.1 <= glyph@.len(),
            (None, None) => true,
            _ => false,
        },
{
    let mut out: Vec<u8> = Vec::new();
    let mut pos: usize = 10;
    let mut instructions = false;
    let ghost goal = components_from(glyph@, 10);
    loop
        invariant
            10 <= pos,
            pos <= glyph@.len() || pos == 10,
            goal == components_from(glyph@, 10),
            goal == match components_from(glyph@, pos as int) {
                None => None,
                Some(rest) => Some(
                    Components {
                        records: out@ + rest.records,
                        end: rest.end,
                        instructions: instructions || rest.instructions,
                    },
                ),
            },
        decreases glyph@.len() - pos,
    {
        let flags: u16 = be16(glyph, pos)?;
        let len: usize = component_length(flags);
        if len > glyph.len() - pos {
            return None;
        }
        let mut record: Vec<u8> = Vec::new();
        record.extend_from_slice(vstd::slice::slice_subrange(glyph, pos, pos + len));
        let mut field: Vec<u8> = Vec::new();
        push_be16(&mut field, flags & !WE_HAVE_INSTRUCTIONS);
        proof {
            assert(record@ =~= glyph@.subrange(pos as int, pos + len));
            assert(field@ =~= be16_bytes((flags & !WE_HAVE_INSTRUCTIONS) as int));
        }
        overwrite(&mut record, 0, field.as_slice());
        let ghost before = out@;
        out.extend_from_slice(record.as_slice());
        proof {
            assert(out@ =~= before + record@);
            if flags & MORE_COMPONENTS != 0 {
                match components_from(glyph@, pos + len) {
                    None => {},
                    Some(rest) => {
                        crate::bytes::lemma_add_assoc(before, record@, rest.records);
                    },
                }
            }
        }
        if flags & WE_HAVE_INSTRUCTIONS != 0 {
            instructions = true;
        }
        pos = pos + len;
        if flags & MORE_COMPONENTS == 0 {
            return Some((out, pos, instructions));
        }
    }
}

/// Appends `glyph` to `out` with its instruction block removed. A simple
/// glyph gets an instruction length of 0; a composite glyph gets its
/// instructions flag cleared and the trailing block dropped. `None` on any
/// structural doubt.
pub fn strip_glyph_instructions(glyph: &[u8], out: &mut Vec<u8>) -> (r: Option<()>)
    ensures
        match stripped_glyph(glyph@) {
            Some(stripped) => r is Some && final(out)@ == old(out)@ + stripped,
            None => r is None && final(out)@ == old(out)@,
        },
{
    let contours: u16 = be16(glyph, 0)?;
    if contours < 0x8000 {
        let end_pts: usize = 10 + contours as usize * 2;
        let instr_len: usize = be16(glyph, end_pts)? as usize;
        let rest = get_range(glyph, end_pts + 2 + instr_len, glyph.len())?;
        out.extend_from_slice(vstd::slice::slice_subrange(glyph, 0, end_pts));
        push_be16(out, 0);
        out.extend_from_slice(rest);
        proof {
            assert(out@ =~= old(out)@ + stripped_glyph(glyph@)->0);
        }
        return Some(());
    }
    if contours != 0xFFFF {
        return None;
    }
    let (records, end, instructions) = copy_components(glyph)?;
    if instructions {
        let instr_len: usize = be16(glyph, end)? as usize;
        if glyph.len() - end - 2 < instr_len {
            return None;
        }
    } else if end != glyph.len() {
        out.extend_from_slice(glyph);
        proof {
            assert(out@ =~= old(out)@ + glyph@);
        }
        return Some(());
    }
    proof {
        assert(be16_at(glyph@, 10) is Some);
    }
    out.extend_from_slice(vstd::slice::slice_subrange(glyph, 0, 10));
    out.extend_from_slice(records.as_slice());
    proof {
        assert(out@ =~= old(out)@ + stripped_glyph(glyph@)->0);
    }
    Some(())
}

// --- the whole font ----------------------------------------------------------------

/// Tag of the table that tells the format of `loca`.
pub const HEAD: [u8; 4] = [0x68, 0x65, 0x61, 0x64];

/// Tag of the glyph offsets.
pub const LOCA: [u8; 4] = [0x6C, 0x6F, 0x63, 0x61];

/// Tag of the glyphs.
pub const GLYF: [u8; 4] = [0x67, 0x6C, 0x79, 0x66];

/// Tag of the table that counts the glyphs.
pub const MAXP: [u8; 4] = [0x6D, 0x61, 0x78, 0x70];

/// Tag of the font program.
pub const FPGM: [u8; 4] = [0x66, 0x70, 0x67, 0x6D];

/// Tag of the control value program.
pub const PREP: [u8; 4] = [0x70, 0x72, 0x65, 0x70];

/// Tag of the control values.
pub const CVT: [u8; 4] = [0x63, 0x76, 0x74, 0x20];

/// Index of the first table with tag `tag` from `i` on.
pub open spec fn position_from(tables: Seq<(Seq<u8>, Seq<u8>)>, tag: Seq<u8>, i: int) -> Option<int>
    decreases tables.len() - i,
{
    if i < 0 || i >= tables.len() {
        None
    } else if tables[i].0 == tag {
        Some(i)
    } else {
        position_from(tables, tag, i + 1)
    }
}

/// Index of the first table with tag `tag`.
pub open spec fn position(tables: Seq<(Seq<u8>, Seq<u8>)>, tag: Seq<u8>) -> Option<int> {
    position_from(tables, tag, 0)
}

/// Where glyph `i` starts according to `loca`.
pub open spec fn glyph_offset(loca: Seq<u8>, long: bool, i: int) -> Option<int> {
    if long {
        match be32_at(loca, 4 * i) {
            Some(v) => Some(v as int),
            None => None,
        }
    } else {
        match be16_at(loca, 2 * i) {
            Some(v) => Some(2 * v as int),
            None => None,
        }
    }
}

/// The rewritten glyphs so far.
pub struct GlyphPass {
    pub glyf: Seq<u8>,
    pub offsets: Seq<int>,
    pub changed: bool,
}

/// `s` padded to an even length.
pub open spec fn even(s: Seq<u8>) -> Seq<u8> {
    if s.len() % 2 == 1 {
        s.push(0)
    } else {
        s
    }
}

/// The first `k` glyphs without instructions. An empty glyph stays empty; the
/// others are padded to even offsets, which the short `loca` needs.
pub open spec fn glyph_pass(glyf: Seq<u8>, loca: Seq<u8>, long: bool, k: int) -> Option<GlyphPass>
    decreases k,
{
    if k <= 0 {
        Some(GlyphPass { glyf: Seq::empty(), offsets: Seq::empty(), changed: false })
    } else {
        match (
            glyph_pass(glyf, loca, long, k - 1),
            glyph_offset(loca, long, k - 1),
            glyph_offset(loca, long, k),
        ) {
            (Some(before), Some(start), Some(end)) => if !(start <= end <= glyf.len()) {
                None
            } else if start == end {
                Some(
                    GlyphPass {
                        glyf: before.glyf,
                        offsets: before.offsets.push(before.glyf.len() as int),
                        changed: before.changed,
                    },
                )
            } else {
                match stripped_glyph(glyf.subrange(start, end)) {
                    Some(glyph) => Some(
                        GlyphPass {
                            glyf: even(before.glyf + glyph),
                            offsets: before.offsets.push(before.glyf.len() as int),
                            changed: before.changed || glyph.len() != end - start,
                        },
                    ),
                    None => None,
                }
            },
            _ => None,
        }
    }
}

/// The `loca` table for these offsets; `None` where one does not fit.
pub open spec fn loca_bytes(offsets: Seq<int>, long: bool, k: int) -> Option<Seq<u8>>
    decreases k,
{
    if k <= 0 {
        Some(Seq::empty())
    } else {
        match loca_bytes(offsets, long, k - 1) {
            None => None,
            Some(before) => if long {
                if offsets[k - 1] <= 0xFFFF_FFFF {
                    Some(before + be32_bytes(offsets[k - 1]))
                } else {
                    None
                }
            } else if offsets[k - 1] / 2 <= 0xFFFF {
                Some(before + be16_bytes(offsets[k - 1] / 2))
            } else {
                None
            },
        }
    }
}

/// `maxp` with the instruction maximum of its version 1.0 layout zeroed.
pub open spec fn quiet_maxp(maxp: Seq<u8>) -> Seq<u8> {
    if be32_at(maxp, 0) == Some(0x0001_0000u32) && maxp.len() >= 32 {
        splice(maxp, 26, seq![0u8, 0])
    } else {
        maxp
    }
}

/// The tables without the three hinting programs.
pub open spec fn without_programs(tables: Seq<(Seq<u8>, Seq<u8>)>) -> Seq<(Seq<u8>, Seq<u8>)> {
    let a = tables_without(tables, FPGM@, tables.len() as int);
    let b = tables_without(a, PREP@, a.len() as int);
    tables_without(b, CVT@, b.len() as int)
}

/// Whether a hinting program is among the tables.
pub open spec fn has_programs(tables: Seq<(Seq<u8>, Seq<u8>)>) -> bool {
    position(tables, FPGM@) is Some || position(tables, PREP@) is Some || position(tables, CVT@)
        is Some
}

/// Format of `loca` as `head` tells it; `None` for an unknown one.
pub open spec fn loca_is_long(head: Seq<u8>) -> Option<bool> {
    match be16_at(head, 50) {
        Some(0) => Some(false),
        Some(1) => Some(true),
        _ => None,
    }
}

/// The new `glyf` and `loca`, and whether a glyph lost instructions.
pub open spec fn rebuilt_glyphs(glyf: Seq<u8>, loca: Seq<u8>, long: bool, count: int) -> Option<
    (Seq<u8>, Seq<u8>, bool),
> {
    if glyph_offset(loca, long, 0) is None {
        None
    } else {
        match glyph_pass(glyf, loca, long, count) {
            None => None,
            Some(pass) => match loca_bytes(
                pass.offsets.push(pass.glyf.len() as int),
                long,
                count + 1,
            ) {
                Some(new_loca) => Some((pass.glyf, new_loca, pass.changed)),
                None => None,
            },
        }
    }
}

/// The tables with hinting removed; `None` on structural doubt and where
/// there is nothing to remove.
pub open spec fn unhinted_tables(tables: Seq<(Seq<u8>, Seq<u8>)>) -> Option<
    Seq<(Seq<u8>, Seq<u8>)>,
> {
    match (
        position(tables, HEAD@),
        position(tables, LOCA@),
        position(tables, GLYF@),
        position(tables, MAXP@),
    ) {
        (Some(head), Some(loca), Some(glyf), Some(maxp)) => match (
            loca_is_long(tables[head].1),
            be16_at(tables[maxp].1, 4),
        ) {
            (Some(long), Some(count)) => match rebuilt_glyphs(
                tables[glyf].1,
                tables[loca].1,
                long,
                count as int,
            ) {
                Some(new) => if has_programs(tables) || new.2 {
                    Some(
                        without_programs(
                            tables.update(glyf, (GLYF@, new.0)).update(loca, (LOCA@, new.1)).update(
                                maxp,
                                (MAXP@, quiet_maxp(tables[maxp].1)),
                            ),
                        ),
                    )
                } else {
                    None
                },
                None => None,
            },
            _ => None,
        },
        _ => None,
    }
}

/// The font with its hinting removed. Only the two versions with TrueType
/// outlines carry any.
pub open spec fn unhinted_font(font: Seq<u8>) -> Option<Seq<u8>> {
    match sfnt_of(font) {
        Some(parts) => if parts.0 == 0x0001_0000 || parts.0 == 0x7472_7565 {
            match unhinted_tables(parts.1) {
                Some(tables) => assembled(parts.0, tables),
                None => None,
            }
        } else {
            None
        },
        None => None,
    }
}

/// Index of the first table with tag `tag`.
fn find_position(tables: &Vec<SfntTable>, tag: &[u8; 4]) -> (r: Option<usize>)
    ensures
        match r {
            Some(i) => position(table_views(tables@), tag@) == Some(i as int) && i < tables@.len()
                && tables@[i as int].0@ == tag@,
            None => position(table_views(tables@), tag@) is None,
        },
{
    let mut i: usize = 0;
    let ghost views = table_views(tables@);
    while i < tables.len()
        invariant
            i <= tables@.len(),
            views == table_views(tables@),
            position(views, tag@) == position_from(views, tag@, i as int),
        decreases tables@.len() - i,
    {
        let own: [u8; 4] = tables[i].0;
        proof {
            assert(views[i as int] == table_view(tables@[i as int]));
        }
        if is_tag(&own, tag) {
            return Some(i);
        }
        i += 1;
    }
    None
}

/// Where glyph `i` starts.
fn read_glyph_offset(loca: &[u8], long: bool, i: usize) -> (r: Option<usize>)
    requires
        i <= 0xFFFF,
    ensures
        match r {
            Some(v) => glyph_offset(loca@, long, i as int) == Some(v as int),
            None => glyph_offset(loca@, long, i as int) is None,
        },
{
    if long {
        Some(be32(loca, i * 4)? as usize)
    } else {
        Some(be16(loca, i * 2)? as usize * 2)
    }
}

proof fn lemma_pass_stops(glyf: Seq<u8>, loca: Seq<u8>, long: bool, i: int, k: int)
    requires
        i <= k,
        glyph_pass(glyf, loca, long, i) is None,
    ensures
        glyph_pass(glyf, loca, long, k) is None,
    decreases k - i,
{
    if i < k {
        lemma_pass_stops(glyf, loca, long, i, k - 1);
    }
}

/// Offsets as mathematical integers.
pub open spec fn offset_ints(s: Seq<usize>) -> Seq<int> {
    s.map_values(|v: usize| v as int)
}

/// Rewrites every glyph without its instructions.
fn strip_glyphs(glyf: &[u8], loca: &[u8], long: bool, count: usize) -> (r: Option<
    (Vec<u8>, Vec<usize>, bool),
>)
    requires
        count <= 0xFFFF,
    ensures
        match (r, glyph_pass(glyf@, loca@, long, count as int)) {
            (Some(p), Some(model)) => p.0@ == model.glyf && offset_ints(p.1@) == model.offsets
                && p.2 == model.changed && p.1@.len() == count,
            (None, None) => true,
            _ => false,
        },
{
    let mut out: Vec<u8> = Vec::new();
    let mut offsets: Vec<usize> = Vec::new();
    let mut changed = false;
    let mut k: usize = 0;
    proof {
        assert(offset_ints(offsets@) =~= Seq::empty());
        assert(out@ =~= Seq::empty());
    }
    while k < count
        invariant
            k <= count <= 0xFFFF,
            offsets@.len() == k,
            glyph_pass(glyf@, loca@, long, k as int) == Some(
                GlyphPass { glyf: out@, offsets: offset_ints(offsets@), changed },
            ),
        decreases count - k,
    {
        let (start, end) = match (
            read_glyph_offset(loca, long, k),
            read_glyph_offset(loca, long, k + 1),
        ) {
            (Some(s), Some(e)) => (s, e),
            _ => {
                proof {
                    lemma_pass_stops(glyf@, loca@, long, k + 1, count as int);
                }
                return None;
            },
        };
        let glyph = match get_range(glyf, start, end) {
            Some(g) => g,
            None => {
                proof {
                    lemma_pass_stops(glyf@, loca@, long, k + 1, count as int);
                }
                return None;
            },
        };
        let before: usize = out.len();
        let ghost old_offsets = offsets@;
        offsets.push(before);
        proof {
            assert(offset_ints(offsets@) =~= offset_ints(old_offsets).push(before as int));
        }
        if glyph.len() != 0 {
            if strip_glyph_instructions(glyph, &mut out).is_none() {
                proof {
                    lemma_pass_stops(glyf@, loca@, long, k + 1, count as int);
                }
                return None;
            }
            if out.len() - before != glyph.len() {
                changed = true;
            }
            if out.len() % 2 == 1 {
                out.push(0);
            }
        }
        k += 1;
    }
    Some((out, offsets, changed))
}

proof fn lemma_loca_stops(offsets: Seq<int>, long: bool, i: int, k: int)
    requires
        i <= k,
        loca_bytes(offsets, long, i) is None,
    ensures
        loca_bytes(offsets, long, k) is None,
    decreases k - i,
{
    if i < k {
        lemma_loca_stops(offsets, long, i, k - 1);
    }
}

/// Writes `loca`.
fn write_loca(offsets: &Vec<usize>, long: bool) -> (r: Option<Vec<u8>>)
    ensures
        match r {
            Some(out) => loca_bytes(offset_ints(offsets@), long, offsets@.len() as int) == Some(
                out@,
            ),
            None => loca_bytes(offset_ints(offsets@), long, offsets@.len() as int) is None,
        },
{
    let ghost model = offset_ints(offsets@);
    let mut out: Vec<u8> = Vec::new();
    let mut k: usize = 0;
    proof {
        assert(out@ =~= Seq::empty());
    }
    while k < offsets.len()
        invariant
            k <= offsets@.len(),
            model == offset_ints(offsets@),
            loca_bytes(model, long, k as int) == Some(out@),
        decreases offsets@.len() - k,
    {
        let off: usize = offsets[k];
        proof {
            assert(model[k as int] == off);
        }
        if long {
            if off > 0xFFFF_FFFF {
                proof {
                    lemma_loca_stops(model, long, k + 1, offsets@.len() as int);
                }
                return None;
            }
            push_be32(&mut out, off as u32);
        } else {
            if off / 2 > 0xFFFF {
                proof {
                    lemma_loca_stops(model, long, k + 1, offsets@.len() as int);
                }
                return None;
            }
            push_be16(&mut out, (off / 2) as u16);
        }
        k += 1;
    }
    Some(out)
}

/// The new `glyf` and `loca`.
fn rebuild_glyphs(glyf: &[u8], loca: &[u8], long: bool, count: usize) -> (r: Option<
    (Vec<u8>, Vec<u8>, bool),
>)
    requires
        count <= 0xFFFF,
    ensures
        match (r, rebuilt_glyphs(glyf@, loca@, long, count as int)) {
            (Some(p), Some(model)) => p.0@ == model.0 && p.1@ == model.1 && p.2 == model.2,
            (None, None) => true,
            _ => false,
        },
{
    if read_glyph_offset(loca, long, 0).is_none() {
        return None;
    }
    let (new_glyf, mut offsets, changed) = strip_glyphs(glyf, loca, long, count)?;
    let ghost before = offsets@;
    offsets.push(new_glyf.len());
    proof {
        assert(offset_ints(offsets@) =~= offset_ints(before).push(new_glyf@.len() as int));
    }
    let new_loca = write_loca(&offsets, long)?;
    Some((new_glyf, new_loca, changed))
}

/// Replaces the body of table `i`.
fn set_body(tables: &mut Vec<SfntTable>, i: usize, body: Vec<u8>)
    requires
        i < old(tables)@.len(),
    ensures
        table_views(final(tables)@) == table_views(old(tables)@).update(
            i as int,
            (old(tables)@[i as int].0@, body@),
        ),
        final(tables)@.len() == old(tables)@.len(),
        forall|k: int|
            0 <= k < old(tables)@.len() ==> #[trigger] final(tables)@[k].0@ == old(tables)@[k].0@,
{
    let tag: [u8; 4] = tables[i].0;
    tables.set(i, (tag, body));
    proof {
        assert(table_views(tables@) =~= table_views(old(tables)@).update(
            i as int,
            (old(tables)@[i as int].0@, body@),
        ));
    }
}

/// Removes the three hinting programs.
fn drop_programs(tables: Vec<SfntTable>) -> (r: Vec<SfntTable>)
    ensures
        table_views(r@) == without_programs(table_views(tables@)),
{
    let (fpgm, prep, cvt): ([u8; 4], [u8; 4], [u8; 4]) = (FPGM, PREP, CVT);
    let a = drop_tables(tables, &fpgm);
    let b = drop_tables(a, &prep);
    drop_tables(b, &cvt)
}

/// Strips TrueType hinting: drops the `fpgm`, `prep` and `cvt ` tables and
/// every per-glyph instruction block, rebuilding `glyf`, `loca`, the
/// directory checksums and `head.checkSumAdjustment`.
///
/// Outlines, metrics and mappings are untouched. `None` on structural doubt
/// and where there is nothing to strip; the caller keeps the font in both
/// cases.
pub fn strip_hinting(font: &[u8]) -> (r: Option<Vec<u8>>)
    ensures
        match r {
            Some(out) => unhinted_font(font@) == Some(out@),
            None => unhinted_font(font@) is None,
        },
{
    let (sfnt_version, mut tables) = parse_tables(font)?;
    if sfnt_version != 0x0001_0000 && sfnt_version != 0x7472_7565 {
        return None;
    }
    let ghost views = table_views(tables@);
    let (fpgm, prep, cvt): ([u8; 4], [u8; 4], [u8; 4]) = (FPGM, PREP, CVT);
    let (head, loca, glyf, maxp): ([u8; 4], [u8; 4], [u8; 4], [u8; 4]) = (HEAD, LOCA, GLYF, MAXP);
    let had_programs = find_position(&tables, &fpgm).is_some() || find_position(
        &tables,
        &prep,
    ).is_some() || find_position(&tables, &cvt).is_some();
    let head_idx: usize = find_position(&tables, &head)?;
    let loca_idx: usize = find_position(&tables, &loca)?;
    let glyf_idx: usize = find_position(&tables, &glyf)?;
    let maxp_idx: usize = find_position(&tables, &maxp)?;
    proof {
        assert(views[head_idx as int] == table_view(tables@[head_idx as int]));
        assert(views[loca_idx as int] == table_view(tables@[loca_idx as int]));
        assert(views[glyf_idx as int] == table_view(tables@[glyf_idx as int]));
        assert(views[maxp_idx as int] == table_view(tables@[maxp_idx as int]));
    }
    let long = match be16(tables[head_idx].1.as_slice(), 50) {
        Some(0) => false,
        Some(1) => true,
        _ => {
            return None;
        },
    };
    let count: usize = be16(tables[maxp_idx].1.as_slice(), 4)? as usize;
    let (new_glyf, new_loca, changed) = rebuild_glyphs(
        tables[glyf_idx].1.as_slice(),
        tables[loca_idx].1.as_slice(),
        long,
        count,
    )?;
    if !had_programs && !changed {
        return None;
    }
    let mut new_maxp: Vec<u8> = tables[maxp_idx].1.clone();
    let zeros: [u8; 2] = [0, 0];
    proof {
        assert(zeros@ =~= seq![0u8, 0]);
    }
    if be32(new_maxp.as_slice(), 0) == Some(0x0001_0000u32) && new_maxp.len() >= 32 {
        overwrite(&mut new_maxp, 26, zeros.as_slice());
    }
    set_body(&mut tables, glyf_idx, new_glyf);
    set_body(&mut tables, loca_idx, new_loca);
    set_body(&mut tables, maxp_idx, new_maxp);
    assemble_sfnt(sfnt_version, drop_programs(tables))
}

} // verus!
