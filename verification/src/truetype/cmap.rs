//! Reading the table directory and the `cmap` table of an sfnt.

use crate::bytes::{be16_at, be32_at};
use std::collections::BTreeMap;
use vstd::prelude::*;

verus! {

broadcast use {vstd::std_specs::btree::group_btree_axioms};

/// Upper bound on total parsed `cmap` mappings across all subtables; a table
/// expanding beyond this is pathological and disqualifies the font.
pub const MAX_CMAP_ENTRIES: usize = 0x10_0000;

/// The big-endian 16-bit field at `off`.
pub fn be16(data: &[u8], off: usize) -> (r: Option<u16>)
    ensures
        r == be16_at(data@, off as int),
{
    if data.len() < 2 || off > data.len() - 2 {
        None
    } else {
        Some(data[off] as u16 * 0x100 + data[off + 1] as u16)
    }
}

/// The big-endian 32-bit field at `off`.
pub fn be32(data: &[u8], off: usize) -> (r: Option<u32>)
    ensures
        r == be32_at(data@, off as int),
{
    if data.len() < 4 || off > data.len() - 4 {
        None
    } else {
        Some(
            data[off] as u32 * 0x100_0000 + data[off + 1] as u32 * 0x1_0000 + data[off + 2] as u32
                * 0x100 + data[off + 3] as u32,
        )
    }
}

// --- reading one subtable ---------------------------------------------------

/// Number of segments of a format 4 subtable.
pub open spec fn f4_count(data: Seq<u8>) -> int {
    (be16_at(data, 6)->0) as int / 2
}

/// Last code of segment `seg`.
pub open spec fn f4_end(data: Seq<u8>, seg: int) -> Option<u16> {
    be16_at(data, 14 + 2 * seg)
}

/// First code of segment `seg`.
pub open spec fn f4_start(data: Seq<u8>, seg: int) -> Option<u16> {
    be16_at(data, 16 + 2 * f4_count(data) + 2 * seg)
}

/// Glyph delta of segment `seg`.
pub open spec fn f4_delta(data: Seq<u8>, seg: int) -> Option<u16> {
    be16_at(data, 16 + 4 * f4_count(data) + 2 * seg)
}

/// Offset of the range-offset field of segment `seg`.
pub open spec fn f4_range_at(data: Seq<u8>, seg: int) -> int {
    16 + 6 * f4_count(data) + 2 * seg
}

/// Glyph that segment `seg` gives to `code`; `None` where the glyph lies
/// outside the subtable.
pub open spec fn f4_gid(data: Seq<u8>, seg: int, code: int) -> Option<u16> {
    let delta = f4_delta(data, seg)->0;
    let range = be16_at(data, f4_range_at(data, seg))->0;
    if range == 0 {
        Some(((code + delta) % 0x1_0000) as u16)
    } else {
        match be16_at(data, f4_range_at(data, seg) + range + 2 * (code - f4_start(data, seg)->0)) {
            None => None,
            Some(raw) => if raw == 0 {
                Some(0u16)
            } else {
                Some(((raw + delta) % 0x1_0000) as u16)
            },
        }
    }
}

/// Segment `seg` can be read: its fields are there, it is not inverted, and
/// each of its codes but 0xFFFF has a glyph field.
pub open spec fn f4_segment_ok(data: Seq<u8>, seg: int) -> bool {
    &&& f4_end(data, seg) is Some
    &&& f4_start(data, seg) is Some
    &&& f4_delta(data, seg) is Some
    &&& be16_at(data, f4_range_at(data, seg)) is Some
    &&& f4_start(data, seg)->0 <= f4_end(data, seg)->0
    &&& forall|code: int|
        f4_start(data, seg)->0 <= code <= f4_end(data, seg)->0 && code != 0xFFFF ==> (
        #[trigger] f4_gid(data, seg, code)) is Some
}

/// What segment `seg` maps among the codes below `hi`. Code 0xFFFF and codes
/// that get glyph 0 are absent.
pub open spec fn f4_segment_map(data: Seq<u8>, seg: int, hi: int) -> Map<u32, u16> {
    Map::new(
        |code: u32|
            f4_start(data, seg)->0 <= code <= f4_end(data, seg)->0 && code < hi && code != 0xFFFF
                && f4_gid(data, seg, code as int)->0 != 0,
        |code: u32| f4_gid(data, seg, code as int)->0,
    )
}

/// What the first `n` segments map; a later segment overrides an earlier one.
pub open spec fn f4_map(data: Seq<u8>, n: int) -> Map<u32, u16>
    decreases n,
{
    if n <= 0 {
        Map::empty()
    } else {
        f4_map(data, n - 1).union_prefer_right(f4_segment_map(data, n - 1, 0x1_0000))
    }
}

/// First code of group `g` of a format 12 subtable.
pub open spec fn f12_start(data: Seq<u8>, g: int) -> Option<u32> {
    be32_at(data, 16 + 12 * g)
}

/// Last code of group `g`.
pub open spec fn f12_end(data: Seq<u8>, g: int) -> Option<u32> {
    be32_at(data, 20 + 12 * g)
}

/// Glyph that group `g` gives to `code`, as a 32-bit number.
pub open spec fn f12_gid(data: Seq<u8>, g: int, code: int) -> int {
    (be32_at(data, 24 + 12 * g)->0 + (code - f12_start(data, g)->0)) % 0x1_0000_0000
}

/// Group `g` can be read after `before` mappings: its fields are there, it is
/// neither inverted nor beyond Unicode, it keeps the total within bounds, and
/// its glyphs fit sixteen bits.
pub open spec fn f12_group_ok(data: Seq<u8>, g: int, before: nat) -> bool {
    &&& f12_start(data, g) is Some
    &&& f12_end(data, g) is Some
    &&& be32_at(data, 24 + 12 * g) is Some
    &&& f12_start(data, g)->0 <= f12_end(data, g)->0 <= 0x10_FFFF
    &&& before + (f12_end(data, g)->0 - f12_start(data, g)->0) + 1 <= MAX_CMAP_ENTRIES
    &&& forall|code: int|
        f12_start(data, g)->0 <= code <= f12_end(data, g)->0 ==> #[trigger] f12_gid(data, g, code)
            <= 0xFFFF
}

/// What group `g` maps among the codes below `hi`.
pub open spec fn f12_group_map(data: Seq<u8>, g: int, hi: int) -> Map<u32, u16> {
    Map::new(
        |code: u32|
            f12_start(data, g)->0 <= code <= f12_end(data, g)->0 && code < hi && f12_gid(
                data,
                g,
                code as int,
            ) != 0,
        |code: u32| f12_gid(data, g, code as int) as u16,
    )
}

/// What the first `n` groups map, or `None` where one of them cannot be read.
pub open spec fn f12_map(data: Seq<u8>, n: int) -> Option<Map<u32, u16>>
    decreases n,
{
    if n <= 0 {
        Some(Map::empty())
    } else {
        match f12_map(data, n - 1) {
            None => None,
            Some(m) => if f12_group_ok(data, n - 1, m.len()) {
                Some(m.union_prefer_right(f12_group_map(data, n - 1, 0x11_0000)))
            } else {
                None
            },
        }
    }
}

/// The first `n` codes of a format 0 subtable.
pub open spec fn f0_map(data: Seq<u8>, n: int) -> Map<u32, u16> {
    Map::new(
        |code: u32| code < n && data[6 + code as int] != 0,
        |code: u32| data[6 + code as int] as u16,
    )
}

/// The first `n` codes of a format 6 subtable.
pub open spec fn f6_map(data: Seq<u8>, n: int) -> Map<u32, u16> {
    let first = be16_at(data, 6)->0;
    Map::new(
        |code: u32| first <= code < first + n && be16_at(data, 10 + 2 * (code - first))->0 != 0,
        |code: u32| be16_at(data, 10 + 2 * (code - first))->0,
    )
}

/// The mapping that one `cmap` subtable holds, glyph 0 left out, or `None`
/// where it cannot be read.
pub open spec fn subtable_map(data: Seq<u8>) -> Option<Map<u32, u16>> {
    match be16_at(data, 0) {
        Some(0) => if data.len() >= 262 {
            Some(f0_map(data, 256))
        } else {
            None
        },
        Some(4) => if be16_at(data, 6) is Some && forall|seg: int|
            0 <= seg < f4_count(data) ==> #[trigger] f4_segment_ok(data, seg) {
            Some(f4_map(data, f4_count(data)))
        } else {
            None
        },
        Some(6) => if be16_at(data, 8) is Some && 10 + 2 * (be16_at(data, 8)->0) <= data.len() {
            Some(f6_map(data, be16_at(data, 8)->0 as int))
        } else {
            None
        },
        Some(12) => match be32_at(data, 12) {
            Some(count) => f12_map(data, count as int),
            None => None,
        },
        _ => None,
    }
}

fn parse_format0(data: &[u8]) -> (r: Option<BTreeMap<u32, u16>>)
    requires
        be16_at(data@, 0) == Some(0u16),
    ensures
        (match r {
            Some(m) => Some(m@),
            None => None,
        }) == subtable_map(data@),
{
    if data.len() < 262 {
        return None;
    }
    let mut map: BTreeMap<u32, u16> = BTreeMap::new();
    let mut code: u32 = 0;
    proof {
        assert(map@ =~= f0_map(data@, 0));
    }
    while code < 256
        invariant
            code <= 256,
            data@.len() >= 262,
            map@ == f0_map(data@, code as int),
        decreases 256 - code,
    {
        let gid: u16 = data[6 + code as usize] as u16;
        if gid != 0 {
            map.insert(code, gid);
        }
        code += 1;
        proof {
            assert(map@ =~= f0_map(data@, code as int));
        }
    }
    Some(map)
}

/// The glyph that segment `seg` of `seg_count` gives to `code`.
fn segment_gid(data: &[u8], seg_count: usize, seg: usize, code: u16) -> (r: Option<u16>)
    requires
        seg < seg_count <= 0x8000,
        seg_count == f4_count(data@),
        f4_start(data@, seg as int) is Some,
        f4_delta(data@, seg as int) is Some,
        be16_at(data@, f4_range_at(data@, seg as int)) is Some,
        f4_start(data@, seg as int)->0 <= code,
    ensures
        r == f4_gid(data@, seg as int, code as int),
{
    let start: u16 = be16(data, 16 + seg_count * 2 + seg * 2)?;
    let delta: u16 = be16(data, 16 + seg_count * 4 + seg * 2)?;
    let range_at: usize = 16 + seg_count * 6 + seg * 2;
    let range_off: u16 = be16(data, range_at)?;
    if range_off == 0 {
        Some(code.wrapping_add(delta))
    } else {
        let raw: u16 = be16(data, range_at + range_off as usize + (code - start) as usize * 2)?;
        if raw == 0 {
            Some(0)
        } else {
            Some(raw.wrapping_add(delta))
        }
    }
}

fn parse_format4(data: &[u8]) -> (r: Option<BTreeMap<u32, u16>>)
    requires
        be16_at(data@, 0) == Some(4u16),
    ensures
        (match r {
            Some(m) => Some(m@),
            None => None,
        }) == subtable_map(data@),
{
    let seg_count: usize = match be16(data, 6) {
        Some(v) => v as usize / 2,
        None => {
            return None;
        },
    };
    let end_base: usize = 14;
    let start_base: usize = end_base + seg_count * 2 + 2;
    let delta_base: usize = start_base + seg_count * 2;
    let range_base: usize = delta_base + seg_count * 2;
    let mut map: BTreeMap<u32, u16> = BTreeMap::new();
    let mut seg: usize = 0;
    while seg < seg_count
        invariant
            seg <= seg_count,
            seg_count == f4_count(data@),
            seg_count <= 0x8000,
            be16_at(data@, 0) == Some(4u16),
            be16_at(data@, 6) is Some,
            end_base == 14,
            start_base == 16 + 2 * seg_count,
            delta_base == 16 + 4 * seg_count,
            range_base == 16 + 6 * seg_count,
            forall|s: int| 0 <= s < seg ==> #[trigger] f4_segment_ok(data@, s),
            map@ == f4_map(data@, seg as int),
        decreases seg_count - seg,
    {
        let (end, start, delta, range_off) = match (
            be16(data, end_base + seg * 2),
            be16(data, start_base + seg * 2),
            be16(data, delta_base + seg * 2),
            be16(data, range_base + seg * 2),
        ) {
            (Some(e), Some(s), Some(d), Some(r)) => (e, s, d, r),
            _ => {
                proof {
                    assert(!f4_segment_ok(data@, seg as int));
                }
                return None;
            },
        };
        if start > end {
            proof {
                assert(!f4_segment_ok(data@, seg as int));
            }
            return None;
        }
        let ghost before = map@;
        let mut code: u32 = start as u32;
        proof {
            assert(before.union_prefer_right(f4_segment_map(data@, seg as int, code as int))
                =~= before);
        }
        while code <= end as u32
            invariant
                start <= code <= end + 1,
                start <= end,
                seg < seg_count,
                seg_count == f4_count(data@),
                seg_count <= 0x8000,
                be16_at(data@, 0) == Some(4u16),
                be16_at(data@, 6) is Some,
                f4_end(data@, seg as int) == Some(end),
                f4_start(data@, seg as int) == Some(start),
                f4_delta(data@, seg as int) == Some(delta),
                be16_at(data@, f4_range_at(data@, seg as int)) == Some(range_off),
                forall|c: int|
                    start <= c < code && c != 0xFFFF ==> (#[trigger] f4_gid(data@, seg as int, c)) is Some,
                map@ == before.union_prefer_right(
                    f4_segment_map(data@, seg as int, code as int),
                ),
            decreases end + 1 - code,
        {
            if code != 0xFFFF {
                match segment_gid(data, seg_count, seg, code as u16) {
                    None => {
                        proof {
                            assert(!f4_segment_ok(data@, seg as int));
                        }
                        return None;
                    },
                    Some(gid) => {
                        if gid != 0 {
                            map.insert(code, gid);
                        }
                    },
                }
            }
            code += 1;
            proof {
                assert(map@ =~= before.union_prefer_right(
                    f4_segment_map(data@, seg as int, code as int),
                ));
            }
        }
        proof {
            assert(f4_segment_map(data@, seg as int, code as int) =~= f4_segment_map(
                data@,
                seg as int,
                0x1_0000,
            ));
            assert(f4_segment_ok(data@, seg as int));
        }
        seg += 1;
    }
    Some(map)
}

fn parse_format6(data: &[u8]) -> (r: Option<BTreeMap<u32, u16>>)
    requires
        be16_at(data@, 0) == Some(6u16),
    ensures
        (match r {
            Some(m) => Some(m@),
            None => None,
        }) == subtable_map(data@),
{
    let (first, count) = match (be16(data, 6), be16(data, 8)) {
        (Some(f), Some(c)) => (f as u32, c as usize),
        _ => {
            return None;
        },
    };
    let mut map: BTreeMap<u32, u16> = BTreeMap::new();
    let mut i: usize = 0;
    proof {
        assert(map@ =~= f6_map(data@, 0));
    }
    while i < count
        invariant
            i <= count,
            count <= 0xFFFF,
            first <= 0xFFFF,
            be16_at(data@, 0) == Some(6u16),
            be16_at(data@, 6) == Some(first as u16),
            be16_at(data@, 8) == Some(count as u16),
            i > 0 ==> 10 + 2 * i <= data@.len(),
            map@ == f6_map(data@, i as int),
        decreases count - i,
    {
        let gid: u16 = match be16(data, 10 + i * 2) {
            Some(g) => g,
            None => {
                return None;
            },
        };
        if gid != 0 {
            map.insert(first + i as u32, gid);
        }
        i += 1;
        proof {
            assert(map@ =~= f6_map(data@, i as int));
        }
    }
    Some(map)
}

fn parse_format12(data: &[u8]) -> (r: Option<BTreeMap<u32, u16>>)
    requires
        be16_at(data@, 0) == Some(12u16),
    ensures
        (match r {
            Some(m) => Some(m@),
            None => None,
        }) == subtable_map(data@),
{
    let group_count: usize = match be32(data, 12) {
        Some(c) => c as usize,
        None => {
            return None;
        },
    };
    let mut map: BTreeMap<u32, u16> = BTreeMap::new();
    let mut g: usize = 0;
    while g < group_count
        invariant
            g <= group_count,
            group_count <= 0xFFFF_FFFF,
            be16_at(data@, 0) == Some(12u16),
            be32_at(data@, 12) == Some(group_count as u32),
            f12_map(data@, g as int) == Some(map@),
        decreases group_count - g,
    {
        if data.len() < 28 || g > (data.len() - 28) / 12 {
            proof {
                assert(be32_at(data@, 24 + 12 * g) is None);
                lemma_f12_stops(data@, g as int, group_count as int);
            }
            return None;
        }
        let rec: usize = 16 + g * 12;
        let (start, end, start_gid) = match (
            be32(data, rec),
            be32(data, rec + 4),
            be32(data, rec + 8),
        ) {
            (Some(s), Some(e), Some(b)) => (s, e, b),
            _ => {
                proof {
                    assert(!f12_group_ok(data@, g as int, map@.len()));
                    lemma_f12_stops(data@, g as int, group_count as int);
                }
                return None;
            },
        };
        if start > end || end > 0x10_FFFF {
            proof {
                assert(!f12_group_ok(data@, g as int, map@.len()));
                lemma_f12_stops(data@, g as int, group_count as int);
            }
            return None;
        }
        let span: usize = (end - start) as usize + 1;
        if span > MAX_CMAP_ENTRIES || map.len() > MAX_CMAP_ENTRIES - span {
            proof {
                assert(!f12_group_ok(data@, g as int, map@.len()));
                lemma_f12_stops(data@, g as int, group_count as int);
            }
            return None;
        }
        let ghost before = map@;
        let mut code: u32 = start;
        proof {
            assert(before.union_prefer_right(f12_group_map(data@, g as int, code as int))
                =~= before);
        }
        while code <= end
            invariant
                start <= code <= end + 1,
                start <= end <= 0x10_FFFF,
                g < group_count <= 0xFFFF_FFFF,
                be16_at(data@, 0) == Some(12u16),
                be32_at(data@, 12) == Some(group_count as u32),
                f12_map(data@, g as int) == Some(before),
                f12_start(data@, g as int) == Some(start),
                f12_end(data@, g as int) == Some(end),
                be32_at(data@, 24 + 12 * g) == Some(start_gid),
                forall|c: int|
                    start <= c < code ==> #[trigger] f12_gid(data@, g as int, c) <= 0xFFFF,
                map@ == before.union_prefer_right(f12_group_map(data@, g as int, code as int)),
            decreases end + 1 - code,
        {
            let gid: u32 = start_gid.wrapping_add(code - start);
            proof {
                assert(f12_gid(data@, g as int, code as int) == gid);
            }
            if gid > 0xFFFF {
                proof {
                    assert(!f12_group_ok(data@, g as int, before.len()));
                    lemma_f12_stops(data@, g as int, group_count as int);
                }
                return None;
            }
            if gid != 0 {
                map.insert(code, gid as u16);
            }
            code += 1;
            proof {
                assert(map@ =~= before.union_prefer_right(
                    f12_group_map(data@, g as int, code as int),
                ));
            }
        }
        proof {
            assert(f12_group_map(data@, g as int, code as int) =~= f12_group_map(
                data@,
                g as int,
                0x11_0000,
            ));
            assert(f12_group_ok(data@, g as int, before.len()));
        }
        g += 1;
    }
    Some(map)
}

/// An unreadable group makes every longer run of groups unreadable.
proof fn lemma_f12_stops(data: Seq<u8>, g: int, n: int)
    requires
        0 <= g < n,
        f12_map(data, g) is Some,
        !f12_group_ok(data, g, f12_map(data, g)->0.len()),
    ensures
        f12_map(data, n) is None,
    decreases n - g,
{
    if n > g + 1 {
        lemma_f12_stops(data, g, n - 1);
    }
}

/// Reads and fully enumerates one subtable; mappings to glyph 0 are left out,
/// as both they and absence mean `.notdef`. `None` on any structural doubt.
pub fn parse_subtable(data: &[u8]) -> (r: Option<BTreeMap<u32, u16>>)
    ensures
        (match r {
            Some(m) => Some(m@),
            None => None,
        }) == subtable_map(data@),
{
    match be16(data, 0) {
        Some(0) => parse_format0(data),
        Some(4) => parse_format4(data),
        Some(6) => parse_format6(data),
        Some(12) => parse_format12(data),
        _ => None,
    }
}

// --- the table directory and the `cmap` table --------------------------------

/// Offset and length of the table that directory record `rec` names, where
/// that range lies in the font.
pub open spec fn record_range(font: Seq<u8>, rec: int) -> Option<(int, int)> {
    match (be32_at(font, rec + 8), be32_at(font, rec + 12)) {
        (Some(off), Some(len)) => if off + len <= font.len() {
            Some((off as int, len as int))
        } else {
            None
        },
        _ => None,
    }
}

/// The range of the first table with tag `tag` among the directory records
/// from `i` on, of `count`.
pub open spec fn table_range_from(font: Seq<u8>, tag: Seq<u8>, i: int, count: int) -> Option<
    (int, int),
>
    decreases count - i,
{
    let rec = 12 + i * 16;
    if i >= count || rec + 4 > font.len() {
        None
    } else if font.subrange(rec, rec + 4) == tag {
        record_range(font, rec)
    } else {
        table_range_from(font, tag, i + 1, count)
    }
}

/// The range of the first table with tag `tag`.
pub open spec fn table_range(font: Seq<u8>, tag: Seq<u8>) -> Option<(int, int)> {
    match be16_at(font, 4) {
        Some(count) => table_range_from(font, tag, 0, count as int),
        None => None,
    }
}

/// Whether the four bytes at `rec` are `tag`.
fn tag_at(font: &[u8], rec: usize, tag: &[u8; 4]) -> (r: bool)
    requires
        rec + 4 <= font@.len(),
    ensures
        r == (font@.subrange(rec as int, rec + 4) == tag@),
{
    let r = font[rec] == tag[0] && font[rec + 1] == tag[1] && font[rec + 2] == tag[2] && font[rec
        + 3] == tag[3];
    proof {
        let part = font@.subrange(rec as int, rec + 4);
        if r {
            assert(part =~= tag@);
        } else {
            assert(part[0] != tag@[0] || part[1] != tag@[1] || part[2] != tag@[2] || part[3]
                != tag@[3]);
        }
    }
    r
}

/// The range that directory record `rec` names, where it lies in the font.
fn read_record_range(font: &[u8], rec: usize) -> (r: Option<(usize, usize)>)
    requires
        rec <= 12 + 0xFFFF * 16,
    ensures
        match r {
            Some(range) => record_range(font@, rec as int) == Some(
                (range.0 as int, range.1 as int),
            ),
            None => record_range(font@, rec as int) is None,
        },
{
    let off: u32 = be32(font, rec + 8)?;
    let len: u32 = be32(font, rec + 12)?;
    if off as u64 + len as u64 <= font.len() as u64 {
        Some((off as usize, len as usize))
    } else {
        None
    }
}

/// Locates a top-level table in a single (non-collection) sfnt.
pub fn find_table(font: &[u8], tag: &[u8; 4]) -> (r: Option<(usize, usize)>)
    ensures
        match r {
            Some(range) => table_range(font@, tag@) == Some((range.0 as int, range.1 as int))
                && range.0 + range.1 <= font@.len() <= usize::MAX,
            None => table_range(font@, tag@) is None,
        },
{
    let count: usize = be16(font, 4)? as usize;
    let total: usize = font.len();
    let mut i: usize = 0;
    while i < count
        invariant
            i <= count <= 0xFFFF,
            total == font@.len(),
            be16_at(font@, 4) == Some(count as u16),
            table_range(font@, tag@) == table_range_from(font@, tag@, i as int, count as int),
        decreases count - i,
    {
        let rec: usize = 12 + i * 16;
        if rec + 4 > total {
            return None;
        }
        if tag_at(font, rec, tag) {
            return read_record_range(font, rec);
        }
        i += 1;
    }
    None
}

/// One `cmap` encoding record, fully enumerated. Mappings to glyph 0 are
/// left out (both they and absence mean `.notdef`).
pub struct CmapSubtable {
    pub platform: u16,
    pub encoding: u16,
    pub map: BTreeMap<u32, u16>,
}

/// The mathematical content of a [`CmapSubtable`].
pub struct CmapRecord {
    pub platform: u16,
    pub encoding: u16,
    pub map: Map<u32, u16>,
}

impl View for CmapSubtable {
    type V = CmapRecord;

    open spec fn view(&self) -> CmapRecord {
        CmapRecord { platform: self.platform, encoding: self.encoding, map: self.map@ }
    }
}

/// The contents of a list of subtables.
pub open spec fn cmap_views(subtables: Seq<CmapSubtable>) -> Seq<CmapRecord> {
    subtables.map_values(|s: CmapSubtable| s@)
}

/// Total number of mappings.
pub open spec fn entry_total(records: Seq<CmapRecord>) -> nat
    decreases records.len(),
{
    if records.len() == 0 {
        0
    } else {
        entry_total(records.drop_last()) + records.last().map.len()
    }
}

/// Encoding record `i` of a `cmap` table with the mapping it points to.
pub open spec fn cmap_record(table: Seq<u8>, i: int) -> Option<CmapRecord> {
    match (be16_at(table, 4 + i * 8), be16_at(table, 6 + i * 8), be32_at(table, 8 + i * 8)) {
        (Some(platform), Some(encoding), Some(offset)) => if offset <= table.len() {
            match subtable_map(table.skip(offset as int)) {
                Some(map) => Some(CmapRecord { platform, encoding, map }),
                None => None,
            }
        } else {
            None
        },
        _ => None,
    }
}

/// The first `n` encoding records, or `None` where one cannot be read or the
/// running total of mappings exceeds [`MAX_CMAP_ENTRIES`].
pub open spec fn cmap_records(table: Seq<u8>, n: int) -> Option<Seq<CmapRecord>>
    decreases n,
{
    if n <= 0 {
        Some(Seq::empty())
    } else {
        match (cmap_records(table, n - 1), cmap_record(table, n - 1)) {
            (Some(before), Some(record)) => if entry_total(before.push(record))
                <= MAX_CMAP_ENTRIES {
                Some(before.push(record))
            } else {
                None
            },
            _ => None,
        }
    }
}

/// Everything that a `cmap` table starting with `table` maps.
pub open spec fn cmap_of_table(table: Seq<u8>) -> Option<Seq<CmapRecord>> {
    match be16_at(table, 2) {
        Some(count) => cmap_records(table, count as int),
        None => None,
    }
}

/// The four bytes of the tag `cmap`.
pub open spec fn cmap_tag() -> Seq<u8> {
    seq![0x63u8, 0x6D, 0x61, 0x70]
}

/// Everything that the font's `cmap` maps.
pub open spec fn cmap_of_font(font: Seq<u8>) -> Option<Seq<CmapRecord>> {
    match table_range(font, cmap_tag()) {
        Some(range) => cmap_of_table(font.skip(range.0)),
        None => None,
    }
}

/// An unreadable record makes every longer run of records unreadable.
proof fn lemma_cmap_stops(table: Seq<u8>, i: int, n: int)
    requires
        i <= n,
        cmap_records(table, i) is None,
    ensures
        cmap_records(table, n) is None,
    decreases n - i,
{
    if n > i {
        lemma_cmap_stops(table, i, n - 1);
    }
}

/// Reads and fully enumerates every `cmap` encoding record. `None` on any
/// structural doubt, a subtable format outside {0, 4, 6, 12} among them: the
/// caller cannot replicate semantics it cannot read.
pub fn parse_cmap(font: &[u8]) -> (r: Option<Vec<CmapSubtable>>)
    ensures
        match r {
            Some(subtables) => cmap_of_font(font@) == Some(cmap_views(subtables@)),
            None => cmap_of_font(font@) is None,
        },
{
    let tag: [u8; 4] = [0x63, 0x6D, 0x61, 0x70];
    proof {
        assert(tag@ =~= cmap_tag());
    }
    let (cmap_off, _) = find_table(font, &tag)?;
    let table = vstd::slice::slice_subrange(font, cmap_off, font.len());
    proof {
        assert(table@ =~= font@.skip(cmap_off as int));
    }
    let record_count: usize = be16(table, 2)? as usize;
    let mut out: Vec<CmapSubtable> = Vec::with_capacity(record_count);
    let mut total: usize = 0;
    let mut i: usize = 0;
    proof {
        assert(cmap_views(out@) =~= Seq::empty());
    }
    while i < record_count
        invariant
            i <= record_count <= 0xFFFF,
            be16_at(table@, 2) == Some(record_count as u16),
            cmap_of_font(font@) == cmap_of_table(table@),
            cmap_records(table@, i as int) == Some(cmap_views(out@)),
            total == entry_total(cmap_views(out@)),
            total <= MAX_CMAP_ENTRIES,
        decreases record_count - i,
    {
        let ghost before = cmap_views(out@);
        match read_cmap_record(table, i) {
            None => {
                proof {
                    lemma_cmap_stops(table@, i + 1, record_count as int);
                }
                return None;
            },
            Some(sub) => {
                let ghost all = before.push(sub@);
                proof {
                    assert(all.drop_last() =~= before);
                }
                if sub.map.len() > MAX_CMAP_ENTRIES - total {
                    proof {
                        lemma_cmap_stops(table@, i + 1, record_count as int);
                    }
                    return None;
                }
                total = total + sub.map.len();
                out.push(sub);
                proof {
                    assert(cmap_views(out@) =~= all);
                }
            },
        }
        i += 1;
    }
    Some(out)
}

/// Reads encoding record `i` and the subtable it points to.
fn read_cmap_record(table: &[u8], i: usize) -> (r: Option<CmapSubtable>)
    requires
        i < 0xFFFF,
    ensures
        match r {
            Some(sub) => cmap_record(table@, i as int) == Some(sub@),
            None => cmap_record(table@, i as int) is None,
        },
{
    let rec: usize = 4 + i * 8;
    let platform: u16 = be16(table, rec)?;
    let encoding: u16 = be16(table, rec + 2)?;
    let offset: usize = be32(table, rec + 4)? as usize;
    if offset > table.len() {
        return None;
    }
    let rest = vstd::slice::slice_subrange(table, offset, table.len());
    proof {
        assert(rest@ =~= table@.skip(offset as int));
    }
    let map = parse_subtable(rest)?;
    Some(CmapSubtable { platform, encoding, map })
}

} // verus!
