//! Writing `cmap` subtables: format 4 for Unicode-style mappings, format 6
//! for byte codes.

use crate::bytes::{
    be16_at, be16_list, floor_log2, lemma_be16_list_reads_back, power_of_two_within,
    write_be16_list,
};
use crate::truetype::cmap::{
    f4_count, f4_delta, f4_end, f4_gid, f4_map, f4_range_at, f4_segment_map, f4_segment_ok,
    f4_start, f6_map, subtable_map,
};
use std::collections::BTreeMap;
use vstd::arithmetic::power2::pow2;
use vstd::prelude::*;
use vstd::std_specs::cmp::OrdSpec;
use vstd::std_specs::iter::IteratorSpec;

verus! {

broadcast use {vstd::std_specs::btree::group_btree_axioms, vstd::laws_cmp::group_laws_cmp};

/// The codes of a mapping in increasing order.
fn sorted_codes(map: &BTreeMap<u32, u16>) -> (r: Vec<u32>)
    ensures
        forall|i: int, j: int| 0 <= i < j < r@.len() ==> r@[i] < r@[j],
        forall|c: u32| r@.contains(c) <==> map@.contains_key(c),
{
    let mut out: Vec<u32> = Vec::new();
    for kv in iter: map.iter()
        invariant
            out@.len() == iter.index(),
            forall|i: int| 0 <= i < out@.len() ==> out@[i] == *iter.seq()[i].0,
    {
        out.push(*kv.0);
    }
    proof {
        let s = map.iter().remaining();
        let keys = s.map_values(|kv: (&u32, &u16)| *kv.0);
        assert(out@ =~= keys);
        assert(vstd::std_specs::btree::increasing_seq(keys));
        assert forall|i: int, j: int| 0 <= i < j < out@.len() implies out@[i] < out@[j] by {
            assert(keys[i].cmp_spec(&keys[j]) is Less);
        }
        assert forall|c: u32| out@.contains(c) <==> map@.contains_key(c) by {
            if map@.contains_key(c) {
                assert(s.contains((&c, &map@[c])));
                let i = choose|i: int| 0 <= i < s.len() && s[i] == (&c, &map@[c]);
                assert(out@[i] == c);
            }
            if out@.contains(c) {
                let i = choose|i: int| 0 <= i < out@.len() && out@[i] == c;
                assert(map@.contains_key(*s[i].0));
            }
        }
    }
    out
}

/// A run of consecutive codes whose glyphs are consecutive too.
#[derive(Clone, Copy)]
pub struct Segment {
    pub start: u16,
    pub end: u16,
    pub gid: u16,
}

/// Whether `code`, with glyph `gid`, goes on the run `seg`.
pub open spec fn extends_run(seg: Segment, code: int, gid: u16) -> bool {
    code == seg.end + 1 && gid == (seg.gid + (code - seg.start)) % 0x1_0000
}

/// The maximal runs of `m` among the codes below `hi`, in order.
pub open spec fn runs(m: Map<u32, u16>, hi: int) -> Seq<Segment>
    decreases hi,
{
    if hi <= 0 {
        Seq::empty()
    } else {
        let before = runs(m, hi - 1);
        let code = (hi - 1) as u32;
        if !m.contains_key(code) {
            before
        } else if before.len() > 0 && extends_run(before.last(), code as int, m[code]) {
            before.update(
                before.len() - 1,
                Segment { start: before.last().start, end: code as u16, gid: before.last().gid },
            )
        } else {
            before.push(Segment { start: code as u16, end: code as u16, gid: m[code] })
        }
    }
}

/// The segments of a format 4 subtable: the runs, and the closing segment
/// that the format asks for.
pub open spec fn format4_segments(m: Map<u32, u16>) -> Seq<Segment> {
    runs(m, 0x1_0000).push(Segment { start: 0xFFFF, end: 0xFFFF, gid: 0 })
}

/// The 16-bit fields of a format 4 subtable with these segments.
pub open spec fn format4_fields(segments: Seq<Segment>) -> Seq<u16> {
    let n = segments.len();
    let log = floor_log2(n);
    seq![
        4u16,
        (16 + n * 8) as u16,
        0,
        (n * 2) as u16,
        (2 * pow2(log)) as u16,
        log as u16,
        (n * 2 - 2 * pow2(log)) as u16,
    ] + segments.map_values(|s: Segment| s.end) + seq![0u16] + segments.map_values(
        |s: Segment| s.start,
    ) + segments.map_values(|s: Segment| ((s.gid - s.start) % 0x1_0000) as u16) + segments.map_values(
        |s: Segment| 0u16,
    )
}

/// A format 4 subtable for `m`; `None` where its length does not fit the
/// format's 16-bit length field.
pub open spec fn format4_bytes(m: Map<u32, u16>) -> Option<Seq<u8>> {
    let segments = format4_segments(m);
    if 16 + segments.len() * 8 <= 0xFFFF {
        Some(be16_list(format4_fields(segments)))
    } else {
        None
    }
}

/// Codes that `m` lacks change no run.
proof fn lemma_runs_gap(m: Map<u32, u16>, lo: int, hi: int)
    requires
        0 <= lo <= hi <= 0x1_0000,
        forall|c: u32| lo <= c < hi ==> !m.contains_key(c),
    ensures
        runs(m, hi) == runs(m, lo),
    decreases hi - lo,
{
    if lo < hi {
        lemma_runs_gap(m, lo, hi - 1);
    }
}

/// Merges the entries of `map` into runs.
fn collect_runs(map: &BTreeMap<u32, u16>) -> (r: Vec<Segment>)
    requires
        forall|c: u32| map@.contains_key(c) ==> c <= 0xFFFF,
    ensures
        r@ == runs(map@, 0x1_0000),
{
    let codes = sorted_codes(map);
    let mut segments: Vec<Segment> = Vec::new();
    let mut i: usize = 0;
    let ghost mut below: int = 0;
    while i < codes.len()
        invariant
            i <= codes@.len(),
            0 <= below <= 0x1_0000,
            forall|a: int, b: int| 0 <= a < b < codes@.len() ==> codes@[a] < codes@[b],
            forall|c: u32| codes@.contains(c) <==> map@.contains_key(c),
            forall|c: u32| map@.contains_key(c) ==> c <= 0xFFFF,
            i == 0 ==> below == 0,
            i > 0 ==> below == codes@[i - 1] + 1,
            segments@ == runs(map@, below),
            forall|k: int| 0 <= k < segments@.len() ==> segments@[k].start <= segments@[k].end
                && segments@[k].end < below,
        decreases codes@.len() - i,
    {
        let code: u32 = codes[i];
        proof {
            assert(codes@.contains(codes@[i as int]));
            assert forall|c: u32| below <= c < code implies !map@.contains_key(c) by {
                if map@.contains_key(c) {
                    assert(codes@.contains(c));
                    let j = choose|j: int| 0 <= j < codes@.len() && codes@[j] == c;
                    if j < i {
                        assert(j == i - 1 || codes@[j] < codes@[i - 1]);
                    } else if j > i {
                        assert(codes@[i as int] < codes@[j]);
                    }
                }
            }
            lemma_runs_gap(map@, below, code as int);
        }
        let gid: u16 = match map.get(&code) {
            Some(g) => *g,
            None => 0,
        };
        let n: usize = segments.len();
        if n > 0 && segments[n - 1].end as u32 + 1 == code && gid == segments[n
            - 1].gid.wrapping_add((code - segments[n - 1].start as u32) as u16) {
            let last: Segment = segments[n - 1];
            segments.set(n - 1, Segment { start: last.start, end: code as u16, gid: last.gid });
        } else {
            segments.push(Segment { start: code as u16, end: code as u16, gid });
        }
        proof {
            below = code + 1;
            assert(segments@ =~= runs(map@, below));
        }
        i += 1;
    }
    proof {
        assert forall|c: u32| below <= c < 0x1_0000 implies !map@.contains_key(c) by {
            if map@.contains_key(c) {
                assert(codes@.contains(c));
                let j = choose|j: int| 0 <= j < codes@.len() && codes@[j] == c;
                assert(j == i - 1 || codes@[j] < codes@[i - 1]);
            }
        }
        lemma_runs_gap(map@, below, 0x1_0000);
    }
    segments
}

/// Builds one format 4 subtable (codes of the Basic Multilingual Plane only).
/// `None` where the segment list would overflow the format's 16-bit length
/// field.
pub fn build_format4(map: &BTreeMap<u32, u16>) -> (r: Option<Vec<u8>>)
    requires
        forall|c: u32| map@.contains_key(c) ==> c <= 0xFFFF,
    ensures
        match r {
            Some(out) => format4_bytes(map@) == Some(out@) && out@.len() <= 0xFFFF,
            None => format4_bytes(map@) is None,
        },
{
    let mut segments = collect_runs(map);
    segments.push(Segment { start: 0xFFFF, end: 0xFFFF, gid: 0 });
    let n: usize = segments.len();
    if n > (0xFFFF - 16) / 8 {
        return None;
    }
    let (power, log) = power_of_two_within(n);
    let mut fields: Vec<u16> = Vec::new();
    fields.push(4);
    fields.push((16 + n * 8) as u16);
    fields.push(0);
    fields.push((n * 2) as u16);
    fields.push((2 * power) as u16);
    fields.push(log as u16);
    fields.push((n * 2 - 2 * power) as u16);
    let ghost head = fields@;
    proof {
        assert(log < 0x1_0000) by {
            vstd::arithmetic::power2::lemma2_to64();
            if log >= 16 {
                if log > 16 {
                    vstd::arithmetic::power2::lemma_pow2_strictly_increases(16, log as nat);
                }
            }
        }
    }
    let mut i: usize = 0;
    while i < n
        invariant
            i <= n,
            n == segments@.len(),
            fields@ == head + segments@.take(i as int).map_values(|s: Segment| s.end),
        decreases n - i,
    {
        fields.push(segments[i].end);
        i += 1;
        proof {
            assert(fields@ =~= head + segments@.take(i as int).map_values(|s: Segment| s.end));
        }
    }
    fields.push(0);
    let ghost ends = fields@;
    i = 0;
    while i < n
        invariant
            i <= n,
            n == segments@.len(),
            fields@ == ends + segments@.take(i as int).map_values(|s: Segment| s.start),
        decreases n - i,
    {
        fields.push(segments[i].start);
        i += 1;
        proof {
            assert(fields@ =~= ends + segments@.take(i as int).map_values(|s: Segment| s.start));
        }
    }
    let ghost starts = fields@;
    i = 0;
    while i < n
        invariant
            i <= n,
            n == segments@.len(),
            fields@ == starts + segments@.take(i as int).map_values(
                |s: Segment| ((s.gid - s.start) % 0x1_0000) as u16,
            ),
        decreases n - i,
    {
        fields.push(segments[i].gid.wrapping_sub(segments[i].start));
        i += 1;
        proof {
            assert(fields@ =~= starts + segments@.take(i as int).map_values(
                |s: Segment| ((s.gid - s.start) % 0x1_0000) as u16,
            ));
        }
    }
    let ghost deltas = fields@;
    i = 0;
    while i < n
        invariant
            i <= n,
            n == segments@.len(),
            fields@ == deltas + segments@.take(i as int).map_values(|s: Segment| 0u16),
        decreases n - i,
    {
        fields.push(0);
        i += 1;
        proof {
            assert(fields@ =~= deltas + segments@.take(i as int).map_values(|s: Segment| 0u16));
        }
    }
    proof {
        assert(segments@.take(n as int) =~= segments@);
        assert(segments@ == format4_segments(map@));
        assert(fields@ =~= format4_fields(segments@));
    }
    Some(write_be16_list(&fields))
}

// --- format 6 ----------------------------------------------------------------

/// `c` is the least code of `m`.
pub open spec fn is_least(m: Map<u32, u16>, c: u32) -> bool {
    m.contains_key(c) && forall|d: u32| m.contains_key(d) ==> c <= d
}

/// `c` is the greatest code of `m`.
pub open spec fn is_greatest(m: Map<u32, u16>, c: u32) -> bool {
    m.contains_key(c) && forall|d: u32| m.contains_key(d) ==> d <= c
}

/// The least code of `m`, or 0 where `m` is empty.
pub open spec fn least_code(m: Map<u32, u16>) -> u32 {
    if exists|c: u32| is_least(m, c) {
        choose|c: u32| is_least(m, c)
    } else {
        0
    }
}

/// The greatest code of `m`, or 0 where `m` is empty.
pub open spec fn greatest_code(m: Map<u32, u16>) -> u32 {
    if exists|c: u32| is_greatest(m, c) {
        choose|c: u32| is_greatest(m, c)
    } else {
        0
    }
}

/// A format 6 subtable can hold the codes of `m`: sixteen-bit codes, spanning
/// no more of them than the length field can count.
pub open spec fn format6_fits(m: Map<u32, u16>) -> bool {
    forall|a: u32, b: u32|
        #![trigger m.contains_key(a), m.contains_key(b)]
        m.contains_key(a) && m.contains_key(b) ==> a <= 0xFFFF && b - a < 32762
}

/// The glyph of `code`, or 0.
pub open spec fn gid_or_zero(m: Map<u32, u16>, code: int) -> u16 {
    if 0 <= code <= u32::MAX && m.contains_key(code as u32) {
        m[code as u32]
    } else {
        0
    }
}

/// The 16-bit fields of a format 6 subtable for `m`.
pub open spec fn format6_fields(m: Map<u32, u16>) -> Seq<u16> {
    let first = least_code(m);
    let count = greatest_code(m) - first + 1;
    seq![6u16, (10 + count * 2) as u16, 0, first as u16, count as u16] + Seq::new(
        count as nat,
        |i: int| gid_or_zero(m, first + i),
    )
}

/// A format 6 subtable for `m`.
pub open spec fn format6_bytes(m: Map<u32, u16>) -> Seq<u8> {
    be16_list(format6_fields(m))
}

/// Builds one format 6 subtable, made for byte codes.
pub fn build_format6(map: &BTreeMap<u32, u16>) -> (r: Vec<u8>)
    requires
        format6_fits(map@),
    ensures
        r@ == format6_bytes(map@),
        r@.len() <= 0xFFFF,
{
    let codes = sorted_codes(map);
    let first: u32 = if codes.len() > 0 {
        codes[0]
    } else {
        0
    };
    let last: u32 = if codes.len() > 0 {
        codes[codes.len() - 1]
    } else {
        0
    };
    proof {
        if codes@.len() > 0 {
            assert(codes@.contains(codes@[0]));
            assert(codes@.contains(codes@[codes@.len() - 1]));
            assert forall|d: u32| map@.contains_key(d) implies first <= d && d <= last by {
                assert(codes@.contains(d));
                let j = choose|j: int| 0 <= j < codes@.len() && codes@[j] == d;
                assert(j == 0 || codes@[0] < codes@[j]);
                assert(j == codes@.len() - 1 || codes@[j] < codes@[codes@.len() - 1]);
            }
            assert(is_least(map@, first) && is_greatest(map@, last));
        } else {
            assert forall|d: u32| !map@.contains_key(d) by {
                assert(!codes@.contains(d));
            }
        }
        assert(first == least_code(map@));
        assert(last == greatest_code(map@));
    }
    let count: u32 = last - first + 1;
    let mut fields: Vec<u16> = Vec::new();
    fields.push(6);
    fields.push((10 + count * 2) as u16);
    fields.push(0);
    fields.push(first as u16);
    fields.push(count as u16);
    let ghost head = fields@;
    let mut i: u32 = 0;
    proof {
        assert(head + Seq::new(0, |k: int| gid_or_zero(map@, first + k)) =~= head);
    }
    while i < count
        invariant
            i <= count <= 32762,
            first <= 0xFFFF,
            fields@ == head + Seq::new(i as nat, |k: int| gid_or_zero(map@, first + k)),
        decreases count - i,
    {
        let gid: u16 = match map.get(&(first + i)) {
            Some(g) => *g,
            None => 0,
        };
        fields.push(gid);
        i += 1;
        proof {
            assert(fields@ =~= head + Seq::new(i as nat, |k: int| gid_or_zero(map@, first + k)));
        }
    }
    proof {
        assert(fields@ =~= format6_fields(map@));
    }
    write_be16_list(&fields)
}

// --- what is written reads back ------------------------------------------------

/// Where a segment holds a code.
pub open spec fn in_segment(s: Segment, code: int) -> bool {
    s.start <= code <= s.end
}

/// Runs are ordered, disjoint, cover the mapping and follow its glyphs.
proof fn lemma_runs(m: Map<u32, u16>, hi: int)
    requires
        0 <= hi <= 0x1_0000,
    ensures
        forall|i: int|
            0 <= i < runs(m, hi).len() ==> (#[trigger] runs(m, hi)[i]).start <= runs(m, hi)[i].end
                && runs(m, hi)[i].end < hi,
        forall|i: int, j: int|
            0 <= i < j < runs(m, hi).len() ==> (#[trigger] runs(m, hi)[i]).end < (
            #[trigger] runs(m, hi)[j]).start,
        forall|i: int, c: u32|
            0 <= i < runs(m, hi).len() && #[trigger] in_segment(runs(m, hi)[i], c as int)
                ==> m.contains_key(c) && m[c] == (runs(m, hi)[i].gid + (c - runs(m, hi)[i].start))
                % 0x1_0000,
        forall|c: u32|
            c < hi && #[trigger] m.contains_key(c) ==> exists|i: int|
                0 <= i < runs(m, hi).len() && #[trigger] in_segment(runs(m, hi)[i], c as int),
    decreases hi,
{
    if hi > 0 {
        lemma_runs(m, hi - 1);
        let before = runs(m, hi - 1);
        let after = runs(m, hi);
        let code = (hi - 1) as u32;
        assert forall|c: u32| c < hi && #[trigger] m.contains_key(c) implies exists|i: int|
            0 <= i < after.len() && #[trigger] in_segment(after[i], c as int) by {
            if c < hi - 1 {
                let i = choose|i: int| 0 <= i < before.len() && #[trigger] in_segment(
                    before[i],
                    c as int,
                );
                assert(in_segment(after[i], c as int));
            } else {
                assert(in_segment(after[after.len() - 1], c as int));
            }
        }
        assert forall|i: int, c: u32|
            0 <= i < after.len() && #[trigger] in_segment(after[i], c as int) implies m.contains_key(
            c,
        ) && m[c] == (after[i].gid + (c - after[i].start)) % 0x1_0000 by {
            if i < before.len() && in_segment(before[i], c as int) {
            } else {
                assert(c == code);
            }
        }
    }
}

/// `data` starts with the bytes that were written.
pub open spec fn written(bytes: Option<Seq<u8>>, data: Seq<u8>) -> bool {
    &&& bytes is Some
    &&& data.len() >= (bytes->0).len()
    &&& data.take((bytes->0).len() as int) == bytes->0
}

/// Positions of the fields of a format 4 subtable.
proof fn lemma_format4_fields(m: Map<u32, u16>, data: Seq<u8>)
    requires
        written(format4_bytes(m), data),
    ensures
        be16_at(data, 0) == Some(4u16),
        be16_at(data, 6) is Some,
        f4_count(data) == format4_segments(m).len(),
        forall|k: int|
            0 <= k < format4_segments(m).len() ==> {
                let s = #[trigger] format4_segments(m)[k];
                &&& f4_end(data, k) == Some(s.end)
                &&& f4_start(data, k) == Some(s.start)
                &&& f4_delta(data, k) == Some(((s.gid - s.start) % 0x1_0000) as u16)
                &&& be16_at(data, f4_range_at(data, k)) == Some(0u16)
            },
{
    let segs = format4_segments(m);
    let fields = format4_fields(segs);
    let n = segs.len() as int;
    lemma_written_field(fields, data, 0);
    lemma_written_field(fields, data, 3);
    assert(be16_at(data, 6) == Some((n * 2) as u16));
    assert forall|k: int| 0 <= k < n implies {
        let s = #[trigger] segs[k];
        &&& f4_end(data, k) == Some(s.end)
        &&& f4_start(data, k) == Some(s.start)
        &&& f4_delta(data, k) == Some(((s.gid - s.start) % 0x1_0000) as u16)
        &&& be16_at(data, f4_range_at(data, k)) == Some(0u16)
    } by {
        lemma_format4_field_values(segs, k);
        lemma_written_field(fields, data, 7 + k);
        lemma_written_field(fields, data, 8 + n + k);
        lemma_written_field(fields, data, 8 + 2 * n + k);
        lemma_written_field(fields, data, 8 + 3 * n + k);
    }
}

/// The fields of segment `k` in the field list.
proof fn lemma_format4_field_values(segs: Seq<Segment>, k: int)
    requires
        0 <= k < segs.len(),
    ensures
        format4_fields(segs).len() == 8 + 4 * segs.len(),
        format4_fields(segs)[7 + k] == segs[k].end,
        format4_fields(segs)[8 + segs.len() + k] == segs[k].start,
        format4_fields(segs)[8 + 2 * segs.len() + k] == ((segs[k].gid - segs[k].start) % 0x1_0000)
            as u16,
        format4_fields(segs)[8 + 3 * segs.len() + k] == 0,
{
}

/// A field of a written list reads back.
pub proof fn lemma_written_field(fields: Seq<u16>, data: Seq<u8>, i: int)
    requires
        written(Some(be16_list(fields)), data),
        0 <= i < fields.len(),
    ensures
        be16_at(data, 2 * i) == Some(fields[i]),
{
    let post = data.skip(be16_list(fields).len() as int);
    assert(data =~= be16_list(fields) + post);
    lemma_be16_list_reads_back(fields, post, i);
}

/// Run `s` follows the glyphs of the mapping.
proof fn lemma_run_at(m: Map<u32, u16>, s: int, c: u32)
    requires
        0 <= s < runs(m, 0x1_0000).len(),
        in_segment(runs(m, 0x1_0000)[s], c as int),
    ensures
        m.contains_key(c),
        m[c] == (runs(m, 0x1_0000)[s].gid + (c - runs(m, 0x1_0000)[s].start)) % 0x1_0000,
{
    lemma_runs(m, 0x1_0000);
}

/// The fields of segment `k` of a format 4 subtable.
proof fn lemma_format4_fields_at(m: Map<u32, u16>, data: Seq<u8>, k: int)
    requires
        written(format4_bytes(m), data),
        0 <= k < format4_segments(m).len(),
    ensures
        f4_end(data, k) == Some(format4_segments(m)[k].end),
        f4_start(data, k) == Some(format4_segments(m)[k].start),
        f4_delta(data, k) == Some(
            ((format4_segments(m)[k].gid - format4_segments(m)[k].start) % 0x1_0000) as u16,
        ),
        be16_at(data, f4_range_at(data, k)) == Some(0u16),
        format4_segments(m)[k].start <= format4_segments(m)[k].end,
{
    lemma_format4_fields(m, data);
    lemma_runs(m, 0x1_0000);
    let s = format4_segments(m)[k];
    if k < runs(m, 0x1_0000).len() {
        assert(s == runs(m, 0x1_0000)[k]);
    }
}

/// The glyph of a code in a segment without glyph list.
proof fn lemma_delta_gid(data: Seq<u8>, s: int, seg: Segment, c: int)
    requires
        f4_delta(data, s) == Some(((seg.gid - seg.start) % 0x1_0000) as u16),
        be16_at(data, f4_range_at(data, s)) == Some(0u16),
        seg.start <= c <= 0xFFFF,
    ensures
        f4_gid(data, s, c) == Some(((seg.gid + (c - seg.start)) % 0x1_0000) as u16),
{
    let delta = (seg.gid - seg.start) % 0x1_0000;
    assert((c + delta) % 0x1_0000 == (seg.gid + (c - seg.start)) % 0x1_0000);
}

/// Segment `s` of a written subtable maps what run `s` holds.
proof fn lemma_format4_segment(m: Map<u32, u16>, data: Seq<u8>, s: int)
    requires
        written(format4_bytes(m), data),
        forall|c: u32| #[trigger] m.contains_key(c) ==> c < 0xFFFF && m[c] != 0,
        0 <= s < format4_segments(m).len(),
    ensures
        f4_segment_ok(data, s),
        forall|c: u32| #[trigger]
            f4_segment_map(data, s, 0x1_0000).contains_key(c) <==> s < runs(m, 0x1_0000).len()
                && in_segment(runs(m, 0x1_0000)[s], c as int),
        forall|c: u32| #[trigger]
            f4_segment_map(data, s, 0x1_0000).contains_key(c) ==> m.contains_key(c)
                && f4_segment_map(data, s, 0x1_0000)[c] == m[c],
{
    let all = runs(m, 0x1_0000);
    let seg = format4_segments(m)[s];
    lemma_format4_fields_at(m, data, s);
    assert forall|code: int| f4_start(data, s)->0 <= code <= f4_end(data, s)->0 && code
        != 0xFFFF implies (#[trigger] f4_gid(data, s, code)) is Some by {
        lemma_delta_gid(data, s, seg, code);
    }
    let map = f4_segment_map(data, s, 0x1_0000);
    if s < all.len() {
        assert(seg == all[s]);
        assert forall|c: u32| in_segment(seg, c as int) implies #[trigger] map.contains_key(c)
            && m.contains_key(c) && map[c] == m[c] by {
            lemma_run_at(m, s, c);
            lemma_delta_gid(data, s, seg, c as int);
        }
    } else {
        assert(seg == Segment { start: 0xFFFF, end: 0xFFFF, gid: 0 });
    }
}

/// The first `k` segments of a written subtable map what the runs hold.
proof fn lemma_format4_map(m: Map<u32, u16>, data: Seq<u8>, k: int)
    requires
        written(format4_bytes(m), data),
        forall|c: u32| #[trigger] m.contains_key(c) ==> c < 0xFFFF && m[c] != 0,
        0 <= k <= format4_segments(m).len(),
    ensures
        forall|s: int| 0 <= s < k ==> #[trigger] f4_segment_ok(data, s),
        forall|c: u32, i: int|
            0 <= i < k && i < runs(m, 0x1_0000).len() && #[trigger] in_segment(
                runs(m, 0x1_0000)[i],
                c as int,
            ) ==> f4_map(data, k).contains_key(c),
        forall|c: u32| #[trigger]
            f4_map(data, k).contains_key(c) ==> m.contains_key(c) && f4_map(data, k)[c] == m[c],
    decreases k,
{
    if k > 0 {
        lemma_format4_map(m, data, k - 1);
        lemma_format4_segment(m, data, k - 1);
        let last = f4_segment_map(data, k - 1, 0x1_0000);
        assert forall|c: u32, i: int|
            0 <= i < k && i < runs(m, 0x1_0000).len() && #[trigger] in_segment(
                runs(m, 0x1_0000)[i],
                c as int,
            ) implies f4_map(data, k).contains_key(c) by {
            assert(last.contains_key(c) || f4_map(data, k - 1).contains_key(c));
        }
        assert forall|c: u32| #[trigger] f4_map(data, k).contains_key(c) implies m.contains_key(c)
            && f4_map(data, k)[c] == m[c] by {
            assert(last.contains_key(c) || f4_map(data, k - 1).contains_key(c));
        }
    }
}

/// A format 4 subtable reads back as the mapping it was built from, for
/// every mapping that gives no code glyph 0 (which means absence) and leaves
/// the reserved code 0xFFFF alone, and whatever follows the subtable.
pub proof fn format4_reads_back(m: Map<u32, u16>, data: Seq<u8>)
    requires
        forall|c: u32| #[trigger] m.contains_key(c) ==> c < 0xFFFF && m[c] != 0,
        written(format4_bytes(m), data),
    ensures
        subtable_map(data) == Some(m),
{
    let n = format4_segments(m).len() as int;
    lemma_format4_fields(m, data);
    lemma_format4_map(m, data, n);
    lemma_runs(m, 0x1_0000);
    assert(f4_map(data, n) =~= m) by {
        assert forall|c: u32| m.contains_key(c) implies f4_map(data, n).contains_key(c) by {
            let i = choose|i: int|
                0 <= i < runs(m, 0x1_0000).len() && #[trigger] in_segment(
                    runs(m, 0x1_0000)[i],
                    c as int,
                );
            assert(in_segment(runs(m, 0x1_0000)[i], c as int));
        }
    }
}

/// A format 6 subtable reads back as the mapping it was built from, for
/// every mapping that gives no code glyph 0, and whatever follows the
/// subtable.
pub proof fn format6_reads_back(m: Map<u32, u16>, data: Seq<u8>)
    requires
        m.dom().finite(),
        format6_fits(m),
        forall|c: u32| #[trigger] m.contains_key(c) ==> m[c] != 0,
        written(Some(format6_bytes(m)), data),
    ensures
        subtable_map(data) == Some(m),
{
    lemma_extremes(m);
    lemma_format6_fields(m, data);
    let first = least_code(m);
    let count = greatest_code(m) - first + 1;
    let read = f6_map(data, count);
    assert forall|c: u32| read.contains_key(c) == m.contains_key(c) by {}
    assert forall|c: u32| m.contains_key(c) implies read[c] == m[c] by {}
    assert(read =~= m);
}

/// Positions of the fields of a format 6 subtable.
proof fn lemma_format6_fields(m: Map<u32, u16>, data: Seq<u8>)
    requires
        written(Some(format6_bytes(m)), data),
        least_code(m) <= greatest_code(m) <= 0xFFFF,
        greatest_code(m) - least_code(m) < 32762,
    ensures
        be16_at(data, 0) == Some(6u16),
        be16_at(data, 6) == Some(least_code(m) as u16),
        be16_at(data, 8) == Some((greatest_code(m) - least_code(m) + 1) as u16),
        data.len() >= 10 + 2 * (greatest_code(m) - least_code(m) + 1),
        forall|c: u32|
            least_code(m) <= c <= greatest_code(m) ==> #[trigger] be16_at(
                data,
                10 + 2 * (c - least_code(m)),
            ) == Some(gid_or_zero(m, c as int)),
{
    let fields = format6_fields(m);
    let first = least_code(m);
    lemma_written_field(fields, data, 0);
    lemma_written_field(fields, data, 3);
    lemma_written_field(fields, data, 4);
    assert forall|c: u32| first <= c <= greatest_code(m) implies #[trigger] be16_at(
        data,
        10 + 2 * (c - first),
    ) == Some(gid_or_zero(m, c as int)) by {
        lemma_written_field(fields, data, 5 + (c - first));
        assert(fields[5 + (c - first)] == gid_or_zero(m, first + (c - first)));
    }
}

/// A finite mapping that is not empty has a least and a greatest code.
proof fn lemma_extremes(m: Map<u32, u16>)
    requires
        m.dom().finite(),
    ensures
        forall|c: u32| #[trigger]
            m.contains_key(c) ==> least_code(m) <= c <= greatest_code(m) && m.contains_key(
                least_code(m),
            ) && m.contains_key(greatest_code(m)),
        m.dom() =~= Set::empty() ==> least_code(m) == 0 && greatest_code(m) == 0,
    decreases m.dom().len(),
{
    if m.dom() =~= Set::empty() {
        assert forall|c: u32| !is_least(m, c) && !is_greatest(m, c) by {
            assert(!m.dom().contains(c));
        }
    } else {
        let c = m.dom().choose();
        let rest = m.remove(c);
        assert(rest.dom() =~= m.dom().remove(c));
        lemma_extremes(rest);
        let lo = least_code(rest);
        let hi = greatest_code(rest);
        if rest.dom() =~= Set::empty() {
            assert forall|d: u32| m.contains_key(d) implies d == c by {
                if d != c {
                    assert(rest.dom().contains(d));
                }
            }
            assert(is_least(m, c) && is_greatest(m, c));
        } else {
            let d0 = rest.dom().choose();
            assert(rest.contains_key(d0));
            assert forall|d: u32| m.contains_key(d) implies d == c || lo <= d <= hi by {
                if d != c {
                    assert(rest.contains_key(d));
                }
            }
            if c < lo {
                assert(is_least(m, c));
            } else {
                assert(is_least(m, lo));
            }
            if c > hi {
                assert(is_greatest(m, c));
            } else {
                assert(is_greatest(m, hi));
            }
        }
    }
}

} // verus!
