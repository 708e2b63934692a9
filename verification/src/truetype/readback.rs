//! Subtables of a `cmap` as fonts write them are read for what they say, in
//! every format.

use crate::bytes::{be16_at, be16_list, be32_at};
use crate::truetype::cmap::{
    cmap_of_table, cmap_record, cmap_records, cmap_tag, entry_total, f0_map, f12_end, f12_gid,
    f12_group_map, f12_group_ok, f12_map, f12_start, f4_count, f4_end, f4_gid, f4_map, f4_range_at,
    f4_segment_map, f4_segment_ok, f4_start, f6_map, subtable_map, CmapRecord, MAX_CMAP_ENTRIES,
};
use crate::truetype::hinting::{CVT, FPGM, GLYF, HEAD, LOCA, MAXP, PREP};
use crate::truetype::names::{masked_before, masked_name, name_tag, tag8_at, tag_letter};
use crate::truetype::sfnt::head_tag;
use crate::truetype::subtable::{lemma_written_field, written};
use vstd::prelude::*;
use vstd::string::StringSliceAdditionalSpecFns;

verus! {

// --- how fields are read -------------------------------------------------------------------------

/// A 16-bit field is read with its more significant byte first: a greater
/// first byte makes a greater number, and the second byte counts one by one.
pub proof fn first_byte_weighs_more(s: Seq<u8>, t: Seq<u8>, off: int)
    requires
        0 <= off,
        off + 2 <= s.len(),
        off + 2 <= t.len(),
    ensures
        be16_at(s, off) is Some && be16_at(t, off) is Some,
        s[off] < t[off] ==> be16_at(s, off)->0 < be16_at(t, off)->0,
        s[off] == t[off] ==> be16_at(t, off)->0 - be16_at(s, off)->0 == t[off + 1] - s[off + 1],
        s[off] == 0 ==> be16_at(s, off)->0 == s[off + 1],
{
}

/// A 32-bit field is two 16-bit fields, the more significant one first.
pub proof fn wide_field_is_two_fields(s: Seq<u8>, off: int)
    requires
        0 <= off,
        off + 4 <= s.len(),
    ensures
        be32_at(s, off) is Some,
        be32_at(s, off)->0 == be16_at(s, off)->0 * 0x1_0000 + be16_at(s, off + 2)->0,
{
}

// --- format 4 ----------------------------------------------------------------------------------

/// A run of codes as a format 4 subtable writes it: with a list of glyphs, one
/// for each code, or without one, where the glyph follows the code. In both
/// cases `delta` is added.
pub struct CodeRun {
    pub start: u16,
    pub end: u16,
    pub delta: u16,
    pub glyphs: Seq<u16>,
}

/// The glyph that a run gives to one of its codes; 0 for none.
pub open spec fn run_glyph(r: CodeRun, code: int) -> int {
    if r.glyphs.len() == 0 {
        (code + r.delta) % 0x1_0000
    } else if r.glyphs[code - r.start] == 0 {
        0
    } else {
        (r.glyphs[code - r.start] + r.delta) % 0x1_0000
    }
}

/// The code belongs to the run.
pub open spec fn in_run(r: CodeRun, code: int) -> bool {
    r.start <= code <= r.end
}

/// The runs are sound: in order and apart, and each list has one glyph for
/// each code.
pub open spec fn runs_ok(runs: Seq<CodeRun>) -> bool {
    &&& forall|k: int|
        0 <= k < runs.len() ==> (#[trigger] runs[k]).start <= runs[k].end && (runs[k].glyphs.len()
            == 0 || runs[k].glyphs.len() == runs[k].end - runs[k].start + 1)
    &&& forall|j: int, k: int|
        0 <= j < k < runs.len() ==> (#[trigger] runs[j]).end < (#[trigger] runs[k]).start
}

/// How many glyphs the lists of the first `k` runs hold.
pub open spec fn list_place(runs: Seq<CodeRun>, k: int) -> nat
    decreases k,
{
    if k <= 0 {
        0
    } else {
        list_place(runs, k - 1) + runs[k - 1].glyphs.len()
    }
}

/// The lists of the first `k` runs, one after the other.
pub open spec fn lists(runs: Seq<CodeRun>, k: int) -> Seq<u16>
    decreases k,
{
    if k <= 0 {
        Seq::empty()
    } else {
        lists(runs, k - 1) + runs[k - 1].glyphs
    }
}

/// The range offset of run `k`: from its own field to its list, in bytes.
pub open spec fn range_offset(runs: Seq<CodeRun>, k: int) -> int {
    if runs[k].glyphs.len() == 0 {
        0
    } else {
        2 * (runs.len() - k) + 2 * list_place(runs, k)
    }
}

/// The fields of a format 4 subtable with these runs. What its header says of
/// its length, its language and a binary search is left open.
pub open spec fn run_fields(runs: Seq<CodeRun>, header: Seq<u16>) -> Seq<u16> {
    seq![4u16, header[0], header[1], (2 * runs.len()) as u16, header[2], header[3], header[4]]
        + Seq::new(runs.len(), |k: int| runs[k].end) + seq![0u16] + Seq::new(
        runs.len(),
        |k: int| runs[k].start,
    ) + Seq::new(runs.len(), |k: int| runs[k].delta) + Seq::new(
        runs.len(),
        |k: int| range_offset(runs, k) as u16,
    ) + lists(runs, runs.len() as int)
}

proof fn lemma_lists(runs: Seq<CodeRun>, n: int, k: int, i: int)
    requires
        0 <= k < n <= runs.len(),
        0 <= i < runs[k].glyphs.len(),
    ensures
        lists(runs, n).len() == list_place(runs, n),
        list_place(runs, k) + i < list_place(runs, n),
        lists(runs, n)[list_place(runs, k) + i] == runs[k].glyphs[i],
    decreases n,
{
    lemma_lists_len(runs, n - 1);
    if k < n - 1 {
        lemma_lists(runs, n - 1, k, i);
    }
}

proof fn lemma_lists_len(runs: Seq<CodeRun>, n: int)
    requires
        0 <= n <= runs.len(),
    ensures
        lists(runs, n).len() == list_place(runs, n),
    decreases n,
{
    if n > 0 {
        lemma_lists_len(runs, n - 1);
    }
}

/// What is read of run `k`.
proof fn lemma_run_read(runs: Seq<CodeRun>, header: Seq<u16>, data: Seq<u8>, k: int)
    requires
        header.len() == 5,
        0 <= k < runs.len() <= 0x7FFF,
        runs_ok(runs),
        forall|j: int| 0 <= j < runs.len() ==> #[trigger] range_offset(runs, j) <= 0xFFFF,
        written(Some(be16_list(run_fields(runs, header))), data),
    ensures
        be16_at(data, 0) == Some(4u16),
        be16_at(data, 6) is Some,
        f4_count(data) == runs.len(),
        f4_segment_ok(data, k),
        f4_start(data, k) == Some(runs[k].start),
        f4_end(data, k) == Some(runs[k].end),
        forall|code: int|
            in_run(runs[k], code) ==> #[trigger] f4_gid(data, k, code) == Some(
                run_glyph(runs[k], code) as u16,
            ),
{
    let n = runs.len() as int;
    let f = run_fields(runs, header);
    let r = runs[k];
    lemma_lists_len(runs, n);
    assert(f.len() == 8 + 4 * n + list_place(runs, n));
    assert(f[0] == 4 && f[3] == (2 * n) as u16);
    assert(f[7 + k] == r.end);
    assert(f[8 + n + k] == r.start);
    assert(f[8 + 2 * n + k] == r.delta);
    assert(f[8 + 3 * n + k] == range_offset(runs, k) as u16);
    lemma_written_field(f, data, 0);
    lemma_written_field(f, data, 3);
    lemma_written_field(f, data, 7 + k);
    lemma_written_field(f, data, 8 + n + k);
    lemma_written_field(f, data, 8 + 2 * n + k);
    lemma_written_field(f, data, 8 + 3 * n + k);
    assert(range_offset(runs, k) <= 0xFFFF);
    assert(be16_at(data, 6) == Some((2 * n) as u16));
    assert(f4_count(data) == n);
    assert forall|code: int| in_run(r, code) implies #[trigger] f4_gid(data, k, code) == Some(
        run_glyph(r, code) as u16,
    ) by {
        if r.glyphs.len() > 0 {
            let i = code - r.start;
            lemma_lists(runs, n, k, i);
            let at = 8 + 4 * n + list_place(runs, k) + i;
            assert(f[at] == lists(runs, n)[list_place(runs, k) + i]);
            lemma_written_field(f, data, at);
            assert(f4_range_at(data, k) + range_offset(runs, k) + 2 * i == 2 * at);
            assert(range_offset(runs, k) > 0);
        }
    }
}

/// The glyph of a code among the first `n` runs; 0 for none.
pub open spec fn glyph_in_runs(runs: Seq<CodeRun>, n: int, code: int) -> int
    decreases n,
{
    if n <= 0 {
        0
    } else if in_run(runs[n - 1], code) {
        run_glyph(runs[n - 1], code)
    } else {
        glyph_in_runs(runs, n - 1, code)
    }
}

proof fn lemma_runs_read(runs: Seq<CodeRun>, header: Seq<u16>, data: Seq<u8>, n: int)
    requires
        header.len() == 5,
        0 <= n <= runs.len() <= 0x7FFF,
        runs_ok(runs),
        forall|j: int| 0 <= j < runs.len() ==> #[trigger] range_offset(runs, j) <= 0xFFFF,
        written(Some(be16_list(run_fields(runs, header))), data),
    ensures
        forall|code: u32| #[trigger]
            f4_map(data, n).contains_key(code) <==> code < 0xFFFF && glyph_in_runs(
                runs,
                n,
                code as int,
            ) != 0,
        forall|code: u32| #[trigger]
            f4_map(data, n).contains_key(code) ==> f4_map(data, n)[code] == glyph_in_runs(
                runs,
                n,
                code as int,
            ),
    decreases n,
{
    if n > 0 {
        lemma_runs_read(runs, header, data, n - 1);
        lemma_run_read(runs, header, data, n - 1);
        let own = f4_segment_map(data, n - 1, 0x1_0000);
        let r = runs[n - 1];
        assert forall|code: u32| #[trigger]
            f4_map(data, n).contains_key(code) <==> code < 0xFFFF && glyph_in_runs(
                runs,
                n,
                code as int,
            ) != 0 by {
            lemma_before(runs, n, code as int);
            if in_run(r, code as int) {
                assert(f4_gid(data, n - 1, code as int) == Some(
                    run_glyph(r, code as int) as u16,
                ));
            }
            assert(f4_map(data, n).contains_key(code) <==> own.contains_key(code) || f4_map(
                data,
                n - 1,
            ).contains_key(code));
        }
        assert forall|code: u32| #[trigger] f4_map(data, n).contains_key(code) implies f4_map(
            data,
            n,
        )[code] == glyph_in_runs(runs, n, code as int) by {
            lemma_before(runs, n, code as int);
            if in_run(r, code as int) {
                assert(f4_gid(data, n - 1, code as int) == Some(
                    run_glyph(r, code as int) as u16,
                ));
            }
            assert(own.contains_key(code) || f4_map(data, n - 1).contains_key(code));
        }
    }
}

/// A code of a run is in none before it.
proof fn lemma_before(runs: Seq<CodeRun>, n: int, code: int)
    requires
        0 < n <= runs.len(),
        runs_ok(runs),
    ensures
        in_run(runs[n - 1], code) ==> glyph_in_runs(runs, n - 1, code) == 0,
{
    if in_run(runs[n - 1], code) {
        lemma_none_before(runs, n - 1, n - 1, code);
    }
}

proof fn lemma_none_before(runs: Seq<CodeRun>, k: int, n: int, code: int)
    requires
        0 <= n <= k < runs.len(),
        runs_ok(runs),
        in_run(runs[k], code),
    ensures
        glyph_in_runs(runs, n, code) == 0,
    decreases n,
{
    if n > 0 {
        assert(runs[n - 1].end < runs[k].start);
        lemma_none_before(runs, k, n - 1, code);
    }
}

/// A format 4 subtable is read for what it says, with lists of glyphs and
/// without: each code of a run gets the glyph that stands for it in the run's
/// list, or that follows from the code, with the run's delta added modulo
/// 65536. Glyph 0 and the code 0xFFFF are left out, and no other code is
/// mapped.
pub proof fn format4_runs_are_read(runs: Seq<CodeRun>, header: Seq<u16>, data: Seq<u8>)
    requires
        header.len() == 5,
        0 < runs.len() <= 0x7FFF,
        runs_ok(runs),
        forall|j: int| 0 <= j < runs.len() ==> #[trigger] range_offset(runs, j) <= 0xFFFF,
        written(Some(be16_list(run_fields(runs, header))), data),
    ensures
        subtable_map(data) is Some,
        forall|code: u32| #[trigger]
            (subtable_map(data)->0).contains_key(code) <==> code < 0xFFFF && exists|k: int|
                0 <= k < runs.len() && in_run(#[trigger] runs[k], code as int) && run_glyph(
                    runs[k],
                    code as int,
                ) != 0,
        forall|code: u32, k: int|
            0 <= k < runs.len() && in_run(#[trigger] runs[k], code as int) && code < 0xFFFF
                && run_glyph(runs[k], code as int) != 0 ==> #[trigger] (subtable_map(
                data,
            )->0)[code] == run_glyph(runs[k], code as int),
{
    let n = runs.len() as int;
    lemma_run_read(runs, header, data, 0);
    assert forall|seg: int| 0 <= seg < n implies #[trigger] f4_segment_ok(data, seg) by {
        lemma_run_read(runs, header, data, seg);
    }
    lemma_runs_read(runs, header, data, n);
    let m = f4_map(data, n);
    assert(subtable_map(data) == Some(m));
    assert forall|code: u32, k: int| 0 <= k < n && in_run(#[trigger] runs[k], code as int) implies
        #[trigger] glyph_in_runs(runs, n, code as int) == run_glyph(runs[k], code as int) by {
        lemma_only(runs, n, k, code as int);
    }
    assert forall|code: u32| #[trigger] m.contains_key(code) <==> code < 0xFFFF && exists|k: int|
        0 <= k < n && in_run(#[trigger] runs[k], code as int) && run_glyph(runs[k], code as int)
            != 0 by {
        if glyph_in_runs(runs, n, code as int) != 0 {
            lemma_some(runs, n, code as int);
        }
    }
    assert forall|code: u32, k: int|
        0 <= k < n && in_run(#[trigger] runs[k], code as int) && code < 0xFFFF && run_glyph(
            runs[k],
            code as int,
        ) != 0 implies #[trigger] m[code] == run_glyph(runs[k], code as int) by {
        assert(glyph_in_runs(runs, n, code as int) == run_glyph(runs[k], code as int));
        assert(m.contains_key(code));
    }
}

proof fn lemma_only(runs: Seq<CodeRun>, n: int, k: int, code: int)
    requires
        0 <= k < n <= runs.len(),
        runs_ok(runs),
        in_run(runs[k], code),
    ensures
        glyph_in_runs(runs, n, code) == run_glyph(runs[k], code),
    decreases n,
{
    if k < n - 1 {
        assert(runs[k].end < runs[n - 1].start);
        lemma_only(runs, n - 1, k, code);
    }
}

proof fn lemma_some(runs: Seq<CodeRun>, n: int, code: int)
    requires
        0 <= n <= runs.len(),
        glyph_in_runs(runs, n, code) != 0,
    ensures
        exists|k: int|
            0 <= k < n && in_run(#[trigger] runs[k], code) && run_glyph(runs[k], code) != 0,
    decreases n,
{
    if n > 0 {
        if in_run(runs[n - 1], code) {
            assert(run_glyph(runs[n - 1], code) != 0);
        } else {
            lemma_some(runs, n - 1, code);
        }
    }
}

// --- formats 0 and 6 ------------------------------------------------------------------------------

/// A format 0 subtable is read for what it says: six bytes of header, of which
/// the first two are the format, and then the glyph of each code.
pub proof fn format0_glyphs_are_read(head: Seq<u8>, glyphs: Seq<u8>, post: Seq<u8>)
    requires
        head.len() == 6,
        head[0] == 0 && head[1] == 0,
        glyphs.len() == 256,
    ensures
        subtable_map(head + glyphs + post) is Some,
        forall|code: u32| #[trigger]
            (subtable_map(head + glyphs + post)->0).contains_key(code) <==> code < 256
                && glyphs[code as int] != 0,
        forall|code: u32|
            code < 256 && glyphs[code as int] != 0 ==> #[trigger] (subtable_map(
                head + glyphs + post,
            )->0)[code] == glyphs[code as int],
{
    let data = head + glyphs + post;
    assert(data[0] == 0 && data[1] == 0);
    assert(be16_at(data, 0) == Some(0u16));
    assert forall|code: u32| code < 256 implies #[trigger] data[6 + code as int]
        == glyphs[code as int] by {}
    assert(subtable_map(data) == Some(f0_map(data, 256)));
}

/// A format 6 subtable is read for what it says: after the format, the length
/// and the language stand the first code and the number of codes, and then
/// the glyph of each.
pub proof fn format6_glyphs_are_read(
    len: u16,
    language: u16,
    first: u16,
    glyphs: Seq<u16>,
    data: Seq<u8>,
)
    requires
        first + glyphs.len() <= 0x1_0000,
        glyphs.len() <= 0xFFFF,
        written(
            Some(be16_list(seq![6u16, len, language, first, glyphs.len() as u16] + glyphs)),
            data,
        ),
    ensures
        subtable_map(data) is Some,
        forall|code: u32| #[trigger]
            (subtable_map(data)->0).contains_key(code) <==> first <= code < first + glyphs.len()
                && glyphs[code - first] != 0,
        forall|code: u32|
            first <= code < first + glyphs.len() && glyphs[code - first] != 0 ==> #[trigger] (
            subtable_map(data)->0)[code] == glyphs[code - first],
{
    let f = seq![6u16, len, language, first, glyphs.len() as u16] + glyphs;
    let n = glyphs.len() as int;
    lemma_written_field(f, data, 0);
    lemma_written_field(f, data, 3);
    lemma_written_field(f, data, 4);
    let m = f6_map(data, n);
    assert(subtable_map(data) == Some(m));
    assert forall|code: u32| first <= code < first + n implies #[trigger] be16_at(
        data,
        10 + 2 * (code - first),
    ) == Some(glyphs[code - first]) by {
        let i = code - first;
        assert(f[5 + i] == glyphs[i]);
        lemma_written_field(f, data, 5 + i);
        assert(2 * (5 + i) == 10 + 2 * (code - first));
    }
}

// --- format 12 --------------------------------------------------------------------------------------

/// A group of codes as a format 12 subtable writes it: the first and the last
/// code, and the glyph of the first.
pub struct CodeGroup {
    pub start: u32,
    pub end: u32,
    pub glyph: u32,
}

/// The code belongs to the group.
pub open spec fn in_group(g: CodeGroup, code: int) -> bool {
    g.start <= code <= g.end
}

/// The groups are sound: in order and apart, none beyond Unicode, with glyphs
/// of sixteen bits, and no more codes than are read.
pub open spec fn groups_ok(groups: Seq<CodeGroup>) -> bool {
    &&& forall|k: int|
        0 <= k < groups.len() ==> (#[trigger] groups[k]).start <= groups[k].end <= 0x10_FFFF
            && groups[k].glyph + (groups[k].end - groups[k].start) <= 0xFFFF
    &&& forall|j: int, k: int|
        0 <= j < k < groups.len() ==> (#[trigger] groups[j]).end < (#[trigger] groups[k]).start
    &&& group_total(groups, groups.len() as int) <= MAX_CMAP_ENTRIES
}

/// How many codes the first `n` groups have.
pub open spec fn group_total(groups: Seq<CodeGroup>, n: int) -> int
    decreases n,
{
    if n <= 0 {
        0
    } else {
        group_total(groups, n - 1) + (groups[n - 1].end - groups[n - 1].start) + 1
    }
}

/// The data is a format 12 subtable of these groups: each is three 32-bit
/// fields, from the sixteenth byte on.
pub open spec fn holds_groups(data: Seq<u8>, groups: Seq<CodeGroup>) -> bool {
    &&& be16_at(data, 0) == Some(12u16)
    &&& be32_at(data, 12) == Some(groups.len() as u32)
    &&& forall|k: int|
        0 <= k < groups.len() ==> be32_at(data, 16 + 12 * k) == Some((#[trigger] groups[k]).start)
            && be32_at(data, 20 + 12 * k) == Some(groups[k].end) && be32_at(data, 24 + 12 * k)
            == Some(groups[k].glyph)
}

/// The glyph of a code among the first `n` groups; 0 for none.
pub open spec fn glyph_in_groups(groups: Seq<CodeGroup>, n: int, code: int) -> int
    decreases n,
{
    if n <= 0 {
        0
    } else if in_group(groups[n - 1], code) {
        groups[n - 1].glyph + (code - groups[n - 1].start)
    } else {
        glyph_in_groups(groups, n - 1, code)
    }
}

proof fn lemma_no_group_before(groups: Seq<CodeGroup>, k: int, n: int, code: int)
    requires
        0 <= n <= k < groups.len(),
        groups_ok(groups),
        code >= groups[k].start,
    ensures
        glyph_in_groups(groups, n, code) == 0,
    decreases n,
{
    if n > 0 {
        assert(groups[n - 1].end < groups[k].start);
        lemma_no_group_before(groups, k, n - 1, code);
    }
}

proof fn lemma_total_grows(groups: Seq<CodeGroup>, a: int, b: int)
    requires
        0 <= a <= b <= groups.len(),
        forall|k: int| 0 <= k < groups.len() ==> (#[trigger] groups[k]).start <= groups[k].end,
    ensures
        0 <= group_total(groups, a) <= group_total(groups, b),
    decreases b,
{
    if a < b {
        lemma_total_grows(groups, a, b - 1);
    } else if a > 0 {
        lemma_total_grows(groups, a - 1, a - 1);
    }
}

/// A set of codes between `lo` and `hi` is no larger than what lies between.
proof fn lemma_group_size(m: Map<u32, u16>, lo: u32, hi: u32)
    requires
        lo <= hi,
        forall|c: u32| #[trigger] m.contains_key(c) ==> lo <= c <= hi,
    ensures
        m.dom().finite(),
        m.dom().len() <= hi - lo + 1,
{
    let range = vstd::set_lib::set_int_range(lo as int, hi + 1);
    vstd::set_lib::lemma_int_range(lo as int, hi + 1);
    let image = m.dom().map(|c: u32| c as int);
    assert(image.subset_of(range)) by {
        assert forall|x: int| image.contains(x) implies range.contains(x) by {
            let c = choose|c: u32| m.dom().contains(c) && x == c as int;
            assert(m.contains_key(c));
        }
    }
    vstd::set_lib::lemma_len_subset(image, range);
    assert(m.dom() =~= image.map(|x: int| x as u32)) by {
        assert forall|c: u32| m.dom().contains(c) implies image.map(
            |x: int| x as u32,
        ).contains(c) by {
            assert(image.contains(c as int));
            assert((c as int) as u32 == c);
        }
        assert forall|c: u32| image.map(|x: int| x as u32).contains(c) implies m.dom().contains(
            c,
        ) by {
            let x = choose|x: int| image.contains(x) && c == x as u32;
            let d = choose|d: u32| m.dom().contains(d) && x == d as int;
            assert(c == d);
        }
    }
    image.lemma_map_finite(|x: int| x as u32);
    vstd::set_lib::lemma_map_size_bound(image, m.dom(), |x: int| x as u32);
}

proof fn lemma_groups_read(data: Seq<u8>, groups: Seq<CodeGroup>, n: int)
    requires
        0 <= n <= groups.len() <= u32::MAX,
        groups_ok(groups),
        holds_groups(data, groups),
    ensures
        f12_map(data, n) is Some,
        f12_map(data, n)->0.dom().finite(),
        f12_map(data, n)->0.len() <= group_total(groups, n),
        forall|code: u32| #[trigger]
            (f12_map(data, n)->0).contains_key(code) <==> glyph_in_groups(groups, n, code as int)
                != 0,
        forall|code: u32| #[trigger]
            (f12_map(data, n)->0).contains_key(code) ==> (f12_map(data, n)->0)[code]
                == glyph_in_groups(groups, n, code as int),
    decreases n,
{
    if n > 0 {
        lemma_groups_read(data, groups, n - 1);
        let g = groups[n - 1];
        let m = f12_map(data, n - 1)->0;
        let own = f12_group_map(data, n - 1, 0x11_0000);
        assert(be32_at(data, 16 + 12 * (n - 1)) == Some(g.start));
        assert(f12_start(data, n - 1) == Some(g.start) && f12_end(data, n - 1) == Some(g.end));
        lemma_total_grows(groups, n, groups.len() as int);
        assert forall|code: int| g.start <= code <= g.end implies #[trigger] f12_gid(
            data,
            n - 1,
            code,
        ) == g.glyph + (code - g.start) && f12_gid(data, n - 1, code) <= 0xFFFF by {}
        assert(f12_group_ok(data, n - 1, m.len()));
        assert(f12_map(data, n) == Some(m.union_prefer_right(own)));
        lemma_group_size(own, g.start, g.end);
        vstd::set_lib::lemma_len_union(m.dom(), own.dom());
        assert(m.union_prefer_right(own).dom() =~= m.dom().union(own.dom()));
        assert forall|code: u32| in_group(g, code as int) implies glyph_in_groups(
            groups,
            n - 1,
            code as int,
        ) == 0 by {
            lemma_no_group_before(groups, n - 1, n - 1, code as int);
        }
        assert forall|code: u32| own.contains_key(code) <==> in_group(g, code as int)
            && glyph_in_groups(groups, n, code as int) != 0 by {
            if in_group(g, code as int) {
                assert(f12_gid(data, n - 1, code as int) == g.glyph + (code - g.start));
            }
        }
    }
}

proof fn lemma_group_of(groups: Seq<CodeGroup>, n: int, k: int, code: int)
    requires
        0 <= k < n <= groups.len(),
        groups_ok(groups),
        in_group(groups[k], code),
    ensures
        glyph_in_groups(groups, n, code) == groups[k].glyph + (code - groups[k].start),
    decreases n,
{
    if k < n - 1 {
        assert(groups[k].end < groups[n - 1].start);
        lemma_group_of(groups, n - 1, k, code);
    }
}

proof fn lemma_some_group(groups: Seq<CodeGroup>, n: int, code: int)
    requires
        0 <= n <= groups.len(),
        glyph_in_groups(groups, n, code) != 0,
    ensures
        exists|k: int|
            0 <= k < n && in_group(#[trigger] groups[k], code) && groups[k].glyph + (code
                - groups[k].start) != 0,
    decreases n,
{
    if n > 0 {
        if in_group(groups[n - 1], code) {
            assert(groups[n - 1].glyph + (code - groups[n - 1].start) != 0);
        } else {
            lemma_some_group(groups, n - 1, code);
        }
    }
}

/// A format 12 subtable is read for what it says: the glyphs of a group go up
/// with its codes, glyph 0 is left out, and no other code is mapped.
pub proof fn format12_groups_are_read(data: Seq<u8>, groups: Seq<CodeGroup>)
    requires
        groups.len() <= u32::MAX,
        groups_ok(groups),
        holds_groups(data, groups),
    ensures
        subtable_map(data) is Some,
        forall|code: u32| #[trigger]
            (subtable_map(data)->0).contains_key(code) <==> exists|k: int|
                0 <= k < groups.len() && in_group(#[trigger] groups[k], code as int)
                    && groups[k].glyph + (code - groups[k].start) != 0,
        forall|code: u32, k: int|
            0 <= k < groups.len() && in_group(#[trigger] groups[k], code as int)
                && groups[k].glyph + (code - groups[k].start) != 0 ==> #[trigger] (subtable_map(
                data,
            )->0)[code] == groups[k].glyph + (code - groups[k].start),
{
    let n = groups.len() as int;
    lemma_groups_read(data, groups, n);
    let m = f12_map(data, n)->0;
    assert(subtable_map(data) == Some(m));
    assert forall|code: u32, k: int|
        0 <= k < n && in_group(#[trigger] groups[k], code as int) implies #[trigger] glyph_in_groups(
        groups,
        n,
        code as int,
    ) == groups[k].glyph + (code - groups[k].start) by {
        lemma_group_of(groups, n, k, code as int);
    }
    assert forall|code: u32| #[trigger] m.contains_key(code) <==> exists|k: int|
        0 <= k < n && in_group(#[trigger] groups[k], code as int) && groups[k].glyph + (code
            - groups[k].start) != 0 by {
        if glyph_in_groups(groups, n, code as int) != 0 {
            lemma_some_group(groups, n, code as int);
        }
    }
    assert forall|code: u32, k: int|
        0 <= k < n && in_group(#[trigger] groups[k], code as int) && groups[k].glyph + (code
            - groups[k].start) != 0 implies #[trigger] m[code] == groups[k].glyph + (code
        - groups[k].start) by {
        assert(glyph_in_groups(groups, n, code as int) == groups[k].glyph + (code
            - groups[k].start));
        assert(m.contains_key(code));
    }
}

// --- tables ------------------------------------------------------------------------------------------

/// A `cmap` table is read for what it says: behind its version and the number
/// of its subtables stand the platform, the encoding and the place of each,
/// in that order.
pub proof fn cmap_records_are_read(table: Seq<u8>, records: Seq<CmapRecord>, offsets: Seq<u32>, n: int)
    requires
        0 <= n <= records.len() == offsets.len() <= 0xFFFF,
        be16_at(table, 2) == Some(records.len() as u16),
        entry_total(records) <= MAX_CMAP_ENTRIES,
        forall|i: int|
            0 <= i < records.len() ==> {
                let r = #[trigger] records[i];
                &&& be16_at(table, 4 + 8 * i) == Some(r.platform)
                &&& be16_at(table, 6 + 8 * i) == Some(r.encoding)
                &&& be32_at(table, 8 + 8 * i) == Some(offsets[i])
                &&& offsets[i] <= table.len()
                &&& subtable_map(table.skip(offsets[i] as int)) == Some(r.map)
                &&& r.map.dom().finite()
            },
    ensures
        cmap_records(table, n) == Some(records.take(n)),
        n == records.len() ==> cmap_of_table(table) == Some(records),
    decreases n,
{
    if n > 0 {
        cmap_records_are_read(table, records, offsets, n - 1);
        let r = records[n - 1];
        assert(be16_at(table, 4 + 8 * (n - 1)) == Some(r.platform));
        assert(cmap_record(table, n - 1) == Some(r));
        assert(records.take(n) =~= records.take(n - 1).push(r));
        assert(records.take(n).drop_last() =~= records.take(n - 1));
        lemma_entries(records, n);
    } else {
        assert(records.take(0) =~= Seq::empty());
    }
    if n == records.len() {
        assert(records.take(n) =~= records);
    }
}

proof fn lemma_entries(records: Seq<CmapRecord>, n: int)
    requires
        0 <= n <= records.len(),
    ensures
        entry_total(records.take(n)) <= entry_total(records),
    decreases records.len() - n,
{
    if n < records.len() {
        lemma_entries(records, n + 1);
        assert(records.take(n + 1).drop_last() =~= records.take(n));
    } else {
        assert(records.take(n) =~= records);
    }
}

/// The tags of tables are their names.
pub proof fn tags_are_spelled()
    ensures
        cmap_tag() == "cmap".spec_bytes(),
        name_tag() == "name".spec_bytes(),
        head_tag() == "head".spec_bytes(),
        HEAD@ == "head".spec_bytes(),
        LOCA@ == "loca".spec_bytes(),
        GLYF@ == "glyf".spec_bytes(),
        MAXP@ == "maxp".spec_bytes(),
        FPGM@ == "fpgm".spec_bytes(),
        PREP@ == "prep".spec_bytes(),
        CVT@ == "cvt ".spec_bytes(),
{
    reveal_strlit("cmap");
    reveal_strlit("name");
    reveal_strlit("head");
    reveal_strlit("loca");
    reveal_strlit("glyf");
    reveal_strlit("maxp");
    reveal_strlit("fpgm");
    reveal_strlit("prep");
    reveal_strlit("cvt ");
    assert("cmap".is_ascii() && "name".is_ascii() && "head".is_ascii() && "loca".is_ascii());
    assert("glyf".is_ascii() && "maxp".is_ascii() && "fpgm".is_ascii() && "prep".is_ascii());
    assert("cvt ".is_ascii());
    assert(cmap_tag() =~= "cmap".spec_bytes());
    assert(name_tag() =~= "name".spec_bytes());
    assert(head_tag() =~= "head".spec_bytes());
    assert(HEAD@ =~= "head".spec_bytes());
    assert(LOCA@ =~= "loca".spec_bytes());
    assert(GLYF@ =~= "glyf".spec_bytes());
    assert(MAXP@ =~= "maxp".spec_bytes());
    assert(FPGM@ =~= "fpgm".spec_bytes());
    assert(PREP@ =~= "prep".spec_bytes());
    assert(CVT@ =~= "cvt ".spec_bytes());
}

/// A name that starts with six capital letters and a plus, and has no other
/// plus, gets six times the letter A in their place and keeps the rest.
pub proof fn subset_tags_become_one(tag: Seq<u8>, rest: Seq<u8>)
    requires
        tag.len() == 6,
        forall|k: int| 0 <= k < 6 ==> 0x41 <= #[trigger] tag[k] <= 0x5A,
        forall|k: int| 0 <= k < rest.len() ==> #[trigger] rest[k] != 0x2B,
    ensures
        masked_name(tag + "+".spec_bytes() + rest) == "AAAAAA+".spec_bytes() + rest,
{
    reveal_strlit("+");
    reveal_strlit("AAAAAA+");
    assert("+".is_ascii() && "AAAAAA+".is_ascii());
    assert("+".spec_bytes() =~= seq![0x2Bu8]);
    assert("AAAAAA+".spec_bytes() =~= seq![0x41u8, 0x41, 0x41, 0x41, 0x41, 0x41, 0x2B]);
    let name = tag + "+".spec_bytes() + rest;
    let want = "AAAAAA+".spec_bytes() + rest;
    assert(name[6] == 0x2B);
    assert(name[0] == tag[0] && name[1] == tag[1] && name[2] == tag[2] && name[3] == tag[3]
        && name[4] == tag[4] && name[5] == tag[5]);
    assert(tag8_at(name, 6));
    assert forall|i: int| 0 <= i < name.len() && i != 6 implies #[trigger] name[i] != 0x2B by {
        if i < 6 {
            assert(name[i] == tag[i]);
        } else {
            assert(name[i] == rest[i - 7]);
        }
    }
    assert forall|j: int| 0 <= j < name.len() implies masked_name(name)[j] == #[trigger] want[j] by {
        if j < 6 {
            assert(tag_letter(name, 6, j));
        } else {
            assert(!masked_before(name, name.len() as int, j)) by {
                if masked_before(name, name.len() as int, j) {
                    let i = choose|i: int|
                        0 <= i < name.len() && #[trigger] tag_letter(name, i, j);
                    assert(name[i] == 0x2B);
                    assert(i == 6);
                }
            }
            if j > 6 {
                assert(want[j] == rest[j - 7] && name[j] == rest[j - 7]);
            }
        }
    }
    assert(masked_name(name) =~= want);
}

} // verus!
