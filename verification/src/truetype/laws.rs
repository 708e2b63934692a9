//! What holds of the font operations as a whole: a font that was put
//! together comes apart again, its checksum is the one that the format
//! asks for, and a `cmap` that was put in is the one that is read.

use crate::bytes::{
    be16_at, be16_bytes, be32_at, be32_bytes, lemma_be32_reads_back, splice, stable_order,
    stable_order_sorts, stands_before,
};
use crate::truetype::cmap::{
    cmap_of_font, cmap_of_table, cmap_record, cmap_records, cmap_tag, entry_total, record_range,
    subtable_map, table_range_from, CmapRecord, MAX_CMAP_ENTRIES,
};
use crate::truetype::sfnt::{
    adjustment_for, assembled, bodies, can_assemble, can_build_cmap, checksum, cmap_bytes,
    cmap_header, cmap_table, codes_fit, directory, directory_record, encoding_record,
    encoding_records, head_tag, last_head, padded, padded_byte, padded_word, record_bytes,
    record_keys, sfnt_header, sfnt_of, sorted_records, subtable_bytes, subtable_offset,
    subtables_bytes, table_at, table_offset, tables_upto, tables_with_cmap, tables_without,
    tag_value, tag_values, unadjusted_font, with_cmap, word_sum, zero_adjustment,
    zero_adjustments,
};
use crate::truetype::subtable::{format4_reads_back, format6_reads_back, written};
use vstd::prelude::*;

verus! {

// --- the checksum of a whole font ----------------------------------------------

/// Overwriting an aligned word changes the sum of the words by the difference.
proof fn lemma_word_sum_splice(data: Seq<u8>, at: int, v: u32, n: int)
    requires
        0 <= at,
        at % 4 == 0,
        at + 4 <= data.len(),
        0 <= n,
    ensures
        word_sum(splice(data, at, be32_bytes(v as int)), n) == word_sum(data, n) + (if at < 4 * n {
            v - padded_word(data, at)
        } else {
            0
        }),
    decreases n,
{
    let new = splice(data, at, be32_bytes(v as int));
    if n > 0 {
        lemma_word_sum_splice(data, at, v, n - 1);
        let off = 4 * (n - 1);
        assert(new.len() == data.len());
        if off == at {
            assert(new[at] == be32_bytes(v as int)[0]);
            assert(new[at + 1] == be32_bytes(v as int)[1]);
            assert(new[at + 2] == be32_bytes(v as int)[2]);
            assert(new[at + 3] == be32_bytes(v as int)[3]);
            assert(padded_word(new, off) == v);
        } else {
            assert(padded_byte(new, off) == padded_byte(data, off));
            assert(padded_byte(new, off + 1) == padded_byte(data, off + 1));
            assert(padded_byte(new, off + 2) == padded_byte(data, off + 2));
            assert(padded_byte(new, off + 3) == padded_byte(data, off + 3));
        }
    }
}

/// Once the adjustment is filled in, an aligned field that was zero before,
/// the checksum of the whole font is 0xB1B0AFBA.
pub proof fn adjusted_checksum(font: Seq<u8>, at: int)
    requires
        0 <= at,
        at % 4 == 0,
        at + 4 <= font.len(),
        be32_at(font, at) == Some(0u32),
    ensures
        checksum(splice(font, at, be32_bytes(adjustment_for(font)))) == 0xB1B0_AFBA,
{
    let v = adjustment_for(font) as u32;
    let n = (font.len() as int + 3) / 4;
    lemma_word_sum_splice(font, at, v, n);
    assert(padded_word(font, at) == 0);
    let new = splice(font, at, be32_bytes(v as int));
    assert(new.len() == font.len());
    let sum = word_sum(font, n);
    assert((sum + (0xB1B0_AFBA - sum % 0x1_0000_0000) % 0x1_0000_0000) % 0x1_0000_0000
        == 0xB1B0_AFBA);
}

// --- a font comes apart as it was put together --------------------------------------

/// Every tag has four bytes.
pub open spec fn tags_ok(tables: Seq<(Seq<u8>, Seq<u8>)>) -> bool {
    forall|i: int| 0 <= i < tables.len() ==> (#[trigger] tables[i]).0.len() == 4
}

/// The tables as they stand in the written font: `head` carries the checksum
/// adjustment.
pub open spec fn adjusted_tables(version: u32, tables: Seq<(Seq<u8>, Seq<u8>)>) -> Seq<
    (Seq<u8>, Seq<u8>),
> {
    let zeroed = zero_adjustments(tables);
    let last = last_head(tables, tables.len() as int);
    zeroed.update(
        last,
        (
            zeroed[last].0,
            splice(
                zeroed[last].1,
                8,
                be32_bytes(adjustment_for(unadjusted_font(version, tables))),
            ),
        ),
    )
}

proof fn lemma_offsets_grow(tables: Seq<(Seq<u8>, Seq<u8>)>, i: int, k: int)
    requires
        0 <= i <= k <= tables.len(),
    ensures
        table_offset(tables, i) <= table_offset(tables, k),
        table_offset(tables, i) >= 12 + 16 * tables.len(),
        i < k ==> table_offset(tables, i) + tables[i].1.len() <= table_offset(tables, k),
    decreases k,
{
    if i < k {
        lemma_offsets_grow(tables, i, k - 1);
    } else if k > 0 {
        lemma_offsets_grow(tables, i - 1, k - 1);
    }
}

proof fn lemma_record_len(tag: Seq<u8>, body: Seq<u8>, offset: int)
    requires
        tag.len() == 4,
    ensures
        record_bytes(tag, body, offset).len() == 16,
        record_bytes(tag, body, offset).subrange(0, 4) == tag,
        record_bytes(tag, body, offset).subrange(4, 8) == be32_bytes(checksum(body) as int),
        record_bytes(tag, body, offset).subrange(8, 12) == be32_bytes(offset),
        record_bytes(tag, body, offset).subrange(12, 16) == be32_bytes(body.len() as int),
{
    reveal(record_bytes);
    let r = record_bytes(tag, body, offset);
    assert(r.subrange(0, 4) =~= tag);
    assert(r.subrange(4, 8) =~= be32_bytes(checksum(body) as int));
    assert(r.subrange(8, 12) =~= be32_bytes(offset));
    assert(r.subrange(12, 16) =~= be32_bytes(body.len() as int));
}

proof fn lemma_directory_slice(tables: Seq<(Seq<u8>, Seq<u8>)>, n: int, k: int)
    requires
        tags_ok(tables),
        0 <= k < n <= tables.len(),
    ensures
        directory(tables, n).len() == 16 * n,
        directory(tables, n).subrange(16 * k, 16 * k + 16) == directory_record(tables, k),
    decreases n,
{
    lemma_record_len(tables[n - 1].0, tables[n - 1].1, table_offset(tables, n - 1));
    if n == 1 {
        assert(directory(tables, 0).len() == 0);
    } else {
        lemma_directory_slice(
            tables,
            n - 1,
            if k < n - 1 {
                k
            } else {
                0
            },
        );
    }
    let before = directory(tables, n - 1);
    let own = directory_record(tables, n - 1);
    if k < n - 1 {
        assert((before + own).subrange(16 * k, 16 * k + 16) =~= before.subrange(
            16 * k,
            16 * k + 16,
        ));
    } else {
        assert((before + own).subrange(16 * k, 16 * k + 16) =~= own);
    }
}

proof fn lemma_bodies_slice(tables: Seq<(Seq<u8>, Seq<u8>)>, n: int, k: int)
    requires
        0 <= k < n <= tables.len(),
    ensures
        bodies(tables, n).len() == table_offset(tables, n) - table_offset(tables, 0),
        bodies(tables, n).subrange(
            table_offset(tables, k) - table_offset(tables, 0),
            table_offset(tables, k) - table_offset(tables, 0) + tables[k].1.len(),
        ) == tables[k].1,
    decreases n,
{
    if n == 1 {
        assert(bodies(tables, 0).len() == 0);
    } else {
        lemma_bodies_slice(
            tables,
            n - 1,
            if k < n - 1 {
                k
            } else {
                0
            },
        );
    }
    let before = bodies(tables, n - 1);
    let own = padded(tables[n - 1].1);
    let from = table_offset(tables, k) - table_offset(tables, 0);
    let to = from + tables[k].1.len();
    lemma_offsets_grow(tables, 0, k);
    if k < n - 1 {
        lemma_offsets_grow(tables, k, n - 1);
        assert((before + own).subrange(from, to) =~= before.subrange(from, to));
    } else {
        assert((before + own).subrange(from, to) =~= tables[k].1);
    }
}

pub proof fn lemma_last_head(tables: Seq<(Seq<u8>, Seq<u8>)>, k: int)
    requires
        0 <= k <= tables.len(),
        last_head(tables, k) >= 0,
    ensures
        last_head(tables, k) < k,
        tables[last_head(tables, k)].0 == head_tag(),
    decreases k,
{
    if k > 0 && tables[k - 1].0 != head_tag() {
        lemma_last_head(tables, k - 1);
    }
}

proof fn lemma_zeroed(tables: Seq<(Seq<u8>, Seq<u8>)>, k: int)
    requires
        0 <= k <= tables.len(),
    ensures
        zero_adjustments(tables).len() == tables.len(),
        table_offset(zero_adjustments(tables), k) == table_offset(tables, k),
        k < tables.len() ==> zero_adjustments(tables)[k].0 == tables[k].0
            && zero_adjustments(tables)[k].1.len() == tables[k].1.len(),
    decreases k,
{
    if k > 0 {
        lemma_zeroed(tables, k - 1);
    }
}

/// Parts of the written font before the adjustment.
proof fn lemma_unadjusted(version: u32, tables: Seq<(Seq<u8>, Seq<u8>)>, k: int)
    requires
        tags_ok(tables),
        0 < tables.len() < 4096,
        0 <= k < tables.len(),
    ensures
        unadjusted_font(version, tables).len() == table_offset(tables, tables.len() as int),
        unadjusted_font(version, tables).subrange(0, 12) == sfnt_header(version, tables.len()),
        unadjusted_font(version, tables).subrange(12 + 16 * k, 28 + 16 * k) == directory_record(
            zero_adjustments(tables),
            k,
        ),
        unadjusted_font(version, tables).subrange(
            table_offset(tables, k),
            table_offset(tables, k) + tables[k].1.len(),
        ) == zero_adjustments(tables)[k].1,
        table_offset(tables, k) + tables[k].1.len() <= table_offset(tables, tables.len() as int),
        table_offset(tables, k) >= 12 + 16 * tables.len(),
{
    let n = tables.len() as int;
    let z = zero_adjustments(tables);
    let u = unadjusted_font(version, tables);
    let h = sfnt_header(version, tables.len());
    let d = directory(z, n);
    let b = bodies(z, n);
    lemma_zeroed(tables, 0);
    lemma_zeroed(tables, k);
    lemma_zeroed(tables, n);
    assert forall|i: int| 0 <= i < z.len() implies (#[trigger] z[i]).0.len() == 4 by {
        assert(tables[i].0.len() == 4);
    }
    lemma_directory_slice(z, n, k);
    lemma_bodies_slice(z, n, k);
    lemma_offsets_grow(z, k, n);
    assert(h.len() == 12);
    assert(u =~= h + d + b);
    assert(u.subrange(0, 12) =~= h);
    assert(u.subrange(12 + 16 * k, 28 + 16 * k) =~= d.subrange(16 * k, 16 * k + 16));
    let from = table_offset(tables, k);
    let to = from + tables[k].1.len();
    assert(u.subrange(from, to) =~= b.subrange(from - 12 - 16 * n, to - 12 - 16 * n));
}

/// Header fields of the written font.
proof fn lemma_header(version: u32, n: nat)
    requires
        0 < n < 4096,
    ensures
        sfnt_header(version, n).len() == 12,
        be32_at(sfnt_header(version, n), 0) == Some(version),
        be16_at(sfnt_header(version, n), 4) == Some(n as u16),
{
    let h = sfnt_header(version, n);
    assert(h.subrange(0, 4) =~= be32_bytes(version as int));
    lemma_be32_reads_back(h, 0, version);
    assert(h[4] == be16_bytes(n as int)[0]);
    assert(h[5] == be16_bytes(n as int)[1]);
}

/// Directory record `k` of the written font names table `k`.
#[verifier::spinoff_prover]
#[verifier::rlimit(60)]
proof fn lemma_written_table(version: u32, tables: Seq<(Seq<u8>, Seq<u8>)>, k: int)
    requires
        tags_ok(tables),
        can_assemble(tables),
        0 <= k < tables.len(),
    ensures
        (assembled(version, tables)->0).len() == table_offset(tables, tables.len() as int),
        record_range(assembled(version, tables)->0, 12 + 16 * k) == Some(
            (table_offset(tables, k), tables[k].1.len() as int),
        ),
        table_at(assembled(version, tables)->0, k) == Some(adjusted_tables(version, tables)[k]),
        (assembled(version, tables)->0).subrange(12 + 16 * k, 16 + 16 * k) == tables[k].0,
        be32_at(assembled(version, tables)->0, 16 + 16 * k) == Some(
            checksum(zero_adjustment(tables[k]).1),
        ),
        be32_at(assembled(version, tables)->0, 20 + 16 * k) == Some(
            table_offset(tables, k) as u32,
        ),
        be32_at(assembled(version, tables)->0, 24 + 16 * k) == Some(tables[k].1.len() as u32),
{
    let n = tables.len() as int;
    let z = zero_adjustments(tables);
    let u = unadjusted_font(version, tables);
    let f = assembled(version, tables)->0;
    let last = last_head(tables, n);
    let adj = be32_bytes(adjustment_for(u));
    lemma_last_head(tables, n);
    lemma_zeroed(tables, last);
    lemma_zeroed(tables, k);
    lemma_unadjusted(version, tables, k);
    lemma_unadjusted(version, tables, last);
    let h = table_offset(tables, last);
    assert(f == splice(u, h + 8, adj));
    assert(f.len() == u.len());
    assert forall|i: int| 0 <= i < f.len() && !(h + 8 <= i < h + 12) implies #[trigger] f[i]
        == u[i] by {}
    let rec = 12 + 16 * k;
    let record = directory_record(z, k);
    lemma_record_len(z[k].0, z[k].1, table_offset(z, k));
    assert(f.subrange(rec, rec + 16) =~= record) by {
        assert(u.subrange(rec, rec + 16) == record);
    }
    assert(f.subrange(rec, rec + 4) =~= record.subrange(0, 4));
    assert(f.subrange(rec + 4, rec + 8) =~= record.subrange(4, 8));
    assert(f.subrange(rec + 8, rec + 12) =~= record.subrange(8, 12));
    assert(f.subrange(rec + 12, rec + 16) =~= record.subrange(12, 16));
    let off = table_offset(tables, k);
    let len = tables[k].1.len() as int;
    lemma_be32_reads_back(f, rec + 4, checksum(z[k].1));
    lemma_be32_reads_back(f, rec + 8, off as u32);
    lemma_be32_reads_back(f, rec + 12, len as u32);
    assert(record_range(f, rec) == Some((off, len)));
    let body = u.subrange(off, off + len);
    if k == last {
        assert(f.subrange(off, off + len) =~= splice(body, 8, adj));
    } else {
        if k < last {
            lemma_offsets_grow(tables, k, last);
        } else {
            lemma_offsets_grow(tables, last, k);
        }
        assert(f.subrange(off, off + len) =~= body);
    }
}

proof fn lemma_written_tables(version: u32, tables: Seq<(Seq<u8>, Seq<u8>)>, k: int)
    requires
        tags_ok(tables),
        can_assemble(tables),
        0 <= k <= tables.len(),
    ensures
        tables_upto(assembled(version, tables)->0, k) == Some(
            adjusted_tables(version, tables).take(k),
        ),
    decreases k,
{
    let all = adjusted_tables(version, tables);
    lemma_last_head(tables, tables.len() as int);
    if k > 0 {
        lemma_written_tables(version, tables, k - 1);
        lemma_written_table(version, tables, k - 1);
        assert(all.take(k - 1).push(all[k - 1]) =~= all.take(k));
    } else {
        assert(all.take(0) =~= Seq::empty());
    }
}

/// A font that was put together comes apart into its version word and its
/// tables; only the checksum adjustment in `head` is new.
pub proof fn assembled_font_reads_back(version: u32, tables: Seq<(Seq<u8>, Seq<u8>)>)
    requires
        tags_ok(tables),
        can_assemble(tables),
    ensures
        assembled(version, tables) is Some,
        sfnt_of(assembled(version, tables)->0) == Some((version, adjusted_tables(version, tables))),
{
    let n = tables.len() as int;
    let all = adjusted_tables(version, tables);
    lemma_written_tables(version, tables, n);
    lemma_last_head(tables, n);
    assert(all.take(n) =~= all);
    lemma_front(version, tables);
}

/// Header fields of the finished font.
proof fn lemma_front(version: u32, tables: Seq<(Seq<u8>, Seq<u8>)>)
    requires
        tags_ok(tables),
        can_assemble(tables),
    ensures
        be32_at(assembled(version, tables)->0, 0) == Some(version),
        be16_at(assembled(version, tables)->0, 4) == Some(tables.len() as u16),
{
    let n = tables.len() as int;
    let u = unadjusted_font(version, tables);
    let f = assembled(version, tables)->0;
    let last = last_head(tables, n);
    lemma_last_head(tables, n);
    lemma_zeroed(tables, last);
    lemma_unadjusted(version, tables, last);
    lemma_header(version, tables.len());
    let head = sfnt_header(version, tables.len());
    assert forall|i: int| 0 <= i < 12 implies f[i] == head[i] by {
        assert(u.subrange(0, 12)[i] == u[i]);
    }
}

proof fn lemma_offsets_aligned(tables: Seq<(Seq<u8>, Seq<u8>)>, k: int)
    ensures
        table_offset(tables, k) % 4 == 0,
    decreases k,
{
    if k > 0 {
        lemma_offsets_aligned(tables, k - 1);
    }
}

/// The directory of a font that was put together: each entry has the tag of
/// its table, the checksum of the table before the font's own is written into
/// it, an offset that is a multiple of four, and the length; and the tables
/// stand behind the directory, one after the other.
pub proof fn assembled_directory(version: u32, tables: Seq<(Seq<u8>, Seq<u8>)>, k: int)
    requires
        tags_ok(tables),
        can_assemble(tables),
        0 <= k < tables.len(),
    ensures
        ({
            let font = assembled(version, tables)->0;
            let at = table_offset(tables, k);
            &&& font.subrange(12 + 16 * k, 16 + 16 * k) == tables[k].0
            &&& be32_at(font, 16 + 16 * k) == Some(checksum(zero_adjustment(tables[k]).1))
            &&& be32_at(font, 20 + 16 * k) == Some(at as u32)
            &&& be32_at(font, 24 + 16 * k) == Some(tables[k].1.len() as u32)
            &&& 0 <= at <= u32::MAX && at % 4 == 0
            &&& 12 + 16 * tables.len() <= at
            &&& at + tables[k].1.len() <= font.len()
            &&& k + 1 < tables.len() ==> at + tables[k].1.len() <= table_offset(tables, k + 1)
        }),
{
    lemma_written_table(version, tables, k);
    lemma_offsets_aligned(tables, k);
    lemma_offsets_grow(tables, k, tables.len() as int);
    lemma_offsets_grow(tables, k, k + 1);
}

/// The checksum of a font that was put together is 0xB1B0AFBA.
#[verifier::spinoff_prover]
#[verifier::rlimit(60)]
pub proof fn assembled_checksum(version: u32, tables: Seq<(Seq<u8>, Seq<u8>)>)
    requires
        tags_ok(tables),
        can_assemble(tables),
    ensures
        checksum(assembled(version, tables)->0) == 0xB1B0_AFBA,
{
    let n = tables.len() as int;
    let u = unadjusted_font(version, tables);
    let last = last_head(tables, n);
    lemma_last_head(tables, n);
    lemma_zeroed(tables, last);
    lemma_unadjusted(version, tables, last);
    let h = table_offset(tables, last);
    let body = u.subrange(h, h + tables[last].1.len());
    assert(body == splice(tables[last].1, 8, seq![0u8, 0, 0, 0]));
    assert(u[h + 8] == body[8] && u[h + 9] == body[9] && u[h + 10] == body[10] && u[h + 11]
        == body[11]);
    assert(be32_at(u, h + 8) == Some(0u32));
    lemma_offsets_aligned(tables, last);
    adjusted_checksum(u, h + 8);
}

// --- a `cmap` reads back ---------------------------------------------------------------

/// A record that its subtable can express: no glyph 0, which means absence,
/// and not the code 0xFFFF, which format 4 reserves.
pub open spec fn expressible(r: CmapRecord) -> bool {
    &&& r.map.dom().finite()
    &&& codes_fit(r)
    &&& forall|c: u32| #[trigger] r.map.contains_key(c) ==> r.map[c] != 0 && (r.platform == 1 || c
        < 0xFFFF)
}

proof fn lemma_subtable_reads_back(r: CmapRecord, data: Seq<u8>)
    requires
        expressible(r),
        written(subtable_bytes(r), data),
    ensures
        subtable_map(data) == Some(r.map),
{
    if r.platform == 1 {
        format6_reads_back(r.map, data);
    } else {
        format4_reads_back(r.map, data);
    }
}

proof fn lemma_encoding_record(r: CmapRecord, offset: int, data: Seq<u8>, at: int)
    requires
        0 <= offset <= u32::MAX,
        0 <= at,
        at + 8 <= data.len(),
        data.subrange(at, at + 8) == encoding_record(r, offset),
    ensures
        be16_at(data, at) == Some(r.platform),
        be16_at(data, at + 2) == Some(r.encoding),
        be32_at(data, at + 4) == Some(offset as u32),
{
    reveal(encoding_record);
    let e = encoding_record(r, offset);
    let d = data.subrange(at, at + 8);
    assert(d[0] == data[at] && d[1] == data[at + 1] && d[2] == data[at + 2] && d[3] == data[at + 3]);
    assert(e[0] == be16_bytes(r.platform as int)[0] && e[1] == be16_bytes(r.platform as int)[1]);
    assert(e[2] == be16_bytes(r.encoding as int)[0] && e[3] == be16_bytes(r.encoding as int)[1]);
    assert(data.subrange(at + 4, at + 8) =~= be32_bytes(offset)) by {
        assert(e.subrange(4, 8) =~= be32_bytes(offset));
        assert(data.subrange(at + 4, at + 8) =~= d.subrange(4, 8));
    }
    lemma_be32_reads_back(data, at + 4, offset as u32);
}

proof fn lemma_encoding_records_slice(records: Seq<CmapRecord>, n: int, k: int)
    requires
        0 <= k < n <= records.len(),
    ensures
        encoding_records(records, n).len() == 8 * n,
        encoding_records(records, n).subrange(8 * k, 8 * k + 8) == encoding_record(
            records[k],
            subtable_offset(records, k),
        ),
    decreases n,
{
    let before = encoding_records(records, n - 1);
    let own = encoding_record(records[n - 1], subtable_offset(records, n - 1));
    assert(own.len() == 8) by {
        reveal(encoding_record);
    }
    if n == 1 {
        assert(before.len() == 0);
    } else {
        lemma_encoding_records_slice(
            records,
            n - 1,
            if k < n - 1 {
                k
            } else {
                0
            },
        );
    }
    if k < n - 1 {
        assert((before + own).subrange(8 * k, 8 * k + 8) =~= before.subrange(8 * k, 8 * k + 8));
    } else {
        assert((before + own).subrange(8 * k, 8 * k + 8) =~= own);
    }
}

proof fn lemma_subtable_offsets(records: Seq<CmapRecord>, i: int, k: int)
    requires
        0 <= i <= k,
    ensures
        4 + 8 * records.len() <= subtable_offset(records, i) <= subtable_offset(records, k),
        i < k ==> subtable_offset(records, i) + (subtable_bytes(records[i])->0).len()
            <= subtable_offset(records, k),
    decreases k,
{
    if i < k {
        lemma_subtable_offsets(records, i, k - 1);
    } else if k > 0 {
        lemma_subtable_offsets(records, i - 1, k - 1);
    }
}

proof fn lemma_subtables_slice(records: Seq<CmapRecord>, n: int, k: int)
    requires
        0 <= k < n <= records.len(),
    ensures
        subtables_bytes(records, n).len() == subtable_offset(records, n) - subtable_offset(
            records,
            0,
        ),
        subtables_bytes(records, n).subrange(
            subtable_offset(records, k) - subtable_offset(records, 0),
            subtable_offset(records, k) - subtable_offset(records, 0) + (subtable_bytes(
                records[k],
            )->0).len(),
        ) == subtable_bytes(records[k])->0,
    decreases n,
{
    let before = subtables_bytes(records, n - 1);
    let own = subtable_bytes(records[n - 1])->0;
    if n == 1 {
        assert(before.len() == 0);
    } else {
        lemma_subtables_slice(
            records,
            n - 1,
            if k < n - 1 {
                k
            } else {
                0
            },
        );
    }
    let from = subtable_offset(records, k) - subtable_offset(records, 0);
    let to = from + (subtable_bytes(records[k])->0).len();
    lemma_subtable_offsets(records, 0, k);
    if k < n - 1 {
        lemma_subtable_offsets(records, k, n - 1);
        assert((before + own).subrange(from, to) =~= before.subrange(from, to));
    } else {
        assert((before + own).subrange(from, to) =~= own);
    }
}

/// Record `k` of a written `cmap` table reads back.
proof fn lemma_cmap_record(records: Seq<CmapRecord>, data: Seq<u8>, k: int)
    requires
        can_build_cmap(records),
        written(Some(cmap_table(records)), data),
        0 <= k < records.len(),
        expressible(records[k]),
    ensures
        cmap_record(data, k) == Some(records[k]),
{
    let n = records.len() as int;
    let r = records[k];
    let t = cmap_table(records);
    let h = cmap_header(n);
    let e = encoding_records(records, n);
    let b = subtables_bytes(records, n);
    assert(h.len() == 4) by {
        reveal(cmap_header);
    }
    lemma_encoding_records_slice(records, n, k);
    lemma_subtables_slice(records, n, k);
    lemma_subtable_offsets(records, k, n);
    let off = subtable_offset(records, k);
    assert(off <= u32::MAX);
    assert(subtable_bytes(records[k]) is Some);
    let at = 4 + 8 * k;
    assert(t.subrange(at, at + 8) =~= e.subrange(8 * k, 8 * k + 8));
    assert(data.subrange(at, at + 8) =~= t.subrange(at, at + 8)) by {
        assert(data.take(t.len() as int) == t);
        assert(data.take(t.len() as int).subrange(at, at + 8) =~= data.subrange(at, at + 8));
    }
    lemma_encoding_record(r, off, data, at);
    let own = subtable_bytes(r)->0;
    let rest = data.skip(off);
    let base = subtable_offset(records, 0);
    assert(t.subrange(off, off + own.len()) =~= b.subrange(off - base, off - base + own.len()));
    assert(rest.take(own.len() as int) =~= own) by {
        assert(rest.take(own.len() as int) =~= data.take(t.len() as int).subrange(
            off,
            off + own.len(),
        ));
    }
    lemma_subtable_reads_back(r, rest);
}

proof fn lemma_total_prefix(records: Seq<CmapRecord>, k: int)
    requires
        0 <= k <= records.len(),
    ensures
        entry_total(records.take(k)) <= entry_total(records),
    decreases records.len(),
{
    if k < records.len() {
        lemma_total_prefix(records.drop_last(), k);
        assert(records.drop_last().take(k) =~= records.take(k));
    } else {
        assert(records.take(k) =~= records);
    }
}

proof fn lemma_cmap_records(records: Seq<CmapRecord>, data: Seq<u8>, k: int)
    requires
        can_build_cmap(records),
        written(Some(cmap_table(records)), data),
        0 <= k <= records.len(),
        forall|i: int| 0 <= i < records.len() ==> expressible(#[trigger] records[i]),
        entry_total(records) <= MAX_CMAP_ENTRIES,
    ensures
        cmap_records(data, k) == Some(records.take(k)),
    decreases k,
{
    if k > 0 {
        lemma_cmap_records(records, data, k - 1);
        lemma_cmap_record(records, data, k - 1);
        lemma_total_prefix(records, k);
        assert(records.take(k - 1).push(records[k - 1]) =~= records.take(k));
    } else {
        assert(records.take(0) =~= Seq::empty());
    }
}

/// A `cmap` table reads back as the records it was written from, whatever
/// follows it.
pub proof fn cmap_table_reads_back(records: Seq<CmapRecord>, data: Seq<u8>)
    requires
        can_build_cmap(records),
        written(Some(cmap_table(records)), data),
        forall|i: int| 0 <= i < records.len() ==> expressible(#[trigger] records[i]),
        entry_total(records) <= MAX_CMAP_ENTRIES,
    ensures
        cmap_of_table(data) == Some(records),
{
    let n = records.len() as int;
    let t = cmap_table(records);
    lemma_cmap_records(records, data, n);
    assert(records.take(n) =~= records);
    reveal(cmap_header);
    let h = cmap_header(n);
    assert(data.take(t.len() as int)[2] == data[2] && data.take(t.len() as int)[3] == data[3]);
    assert(t[2] == h[2] && t[3] == h[3]);
    assert(h[2] == be16_bytes(n)[0] && h[3] == be16_bytes(n)[1]);
}

pub proof fn lemma_without(tables: Seq<(Seq<u8>, Seq<u8>)>, tag: Seq<u8>, n: int)
    requires
        0 <= n <= tables.len(),
    ensures
        forall|i: int|
            0 <= i < tables_without(tables, tag, n).len() ==> (#[trigger] tables_without(
                tables,
                tag,
                n,
            )[i]).0 != tag,
    decreases n,
{
    if n > 0 {
        lemma_without(tables, tag, n - 1);
        let before = tables_without(tables, tag, n - 1);
        let all = tables_without(tables, tag, n);
        assert forall|i: int| 0 <= i < all.len() implies (#[trigger] all[i]).0 != tag by {
            if i < before.len() {
                assert(all[i] == before[i]);
            }
        }
    }
}

/// Scanning the directory finds the first table with a tag.
proof fn lemma_scan(version: u32, tables: Seq<(Seq<u8>, Seq<u8>)>, tag: Seq<u8>, i: int, j: int)
    requires
        tags_ok(tables),
        can_assemble(tables),
        0 <= i <= j < tables.len(),
        tables[j].0 == tag,
    ensures
        exists|k: int|
            i <= k <= j && (#[trigger] tables[k]).0 == tag && table_range_from(
                assembled(version, tables)->0,
                tag,
                i,
                tables.len() as int,
            ) == Some((table_offset(tables, k), tables[k].1.len() as int)),
    decreases j - i,
{
    let f = assembled(version, tables)->0;
    lemma_written_table(version, tables, i);
    lemma_offsets_grow(tables, tables.len() as int, tables.len() as int);
    assert(12 + i * 16 == 12 + 16 * i);
    if tables[i].0 == tag {
        assert(table_range_from(f, tag, i, tables.len() as int) == Some(
            (table_offset(tables, i), tables[i].1.len() as int),
        ));
    } else {
        lemma_scan(version, tables, tag, i + 1, j);
    }
}

/// The `cmap` that was put into a font is the one that is read from it.
pub proof fn inserted_cmap_reads_back(font: Seq<u8>, records: Seq<CmapRecord>)
    requires
        with_cmap(font, records) is Some,
        forall|i: int| 0 <= i < records.len() ==> expressible(#[trigger] records[i]),
        entry_total(sorted_records(records)) <= MAX_CMAP_ENTRIES,
    ensures
        cmap_of_font(with_cmap(font, records)->0) == Some(sorted_records(records)),
{
    let parts = sfnt_of(font)->0;
    let version = parts.0;
    let cmap = cmap_bytes(records)->0;
    let sorted = sorted_records(records);
    let kept = tables_without(parts.1, cmap_tag(), parts.1.len() as int);
    let list = kept.push((cmap_tag(), cmap));
    let tables = tables_with_cmap(parts.1, cmap);
    let order = stable_order(tag_values(list), list.len() as int);
    let f = assembled(version, tables)->0;
    lemma_tables_have_tags(font, be16_at(font, 4)->0 as int);
    lemma_kept_tags(parts.1, cmap_tag(), parts.1.len() as int);
    lemma_without(parts.1, cmap_tag(), parts.1.len() as int);
    stable_order_sorts(tag_values(list), list.len() as int);
    assert(tables.len() == list.len());
    assert forall|i: int| 0 <= i < tables.len() implies (#[trigger] tables[i]).0.len() == 4 && (
    tables[i].0 == cmap_tag() ==> tables[i].1 == cmap) by {
        assert(tables[i] == list[order[i]]);
        if order[i] < kept.len() {
            assert(kept[order[i]].0.len() == 4);
        }
    }
    assert(order.contains(list.len() - 1));
    let j = choose|j: int| 0 <= j < order.len() && order[j] == list.len() - 1;
    assert(tables[j] == list[list.len() - 1]);
    lemma_scan(version, tables, cmap_tag(), 0, j);
    let k = choose|k: int|
        0 <= k <= j && (#[trigger] tables[k]).0 == cmap_tag() && table_range_from(
            f,
            cmap_tag(),
            0,
            tables.len() as int,
        ) == Some((table_offset(tables, k), tables[k].1.len() as int));
    lemma_front(version, tables);
    lemma_written_table(version, tables, k);
    lemma_last_head(tables, tables.len() as int);
    assert(cmap_tag()[0] != head_tag()[0]);
    let off = table_offset(tables, k);
    assert(adjusted_tables(version, tables)[k] == tables[k]);
    assert(f.subrange(off, off + cmap.len()) == cmap);
    lemma_offsets_grow(tables, k, tables.len() as int);
    assert(f.skip(off).take(cmap.len() as int) =~= f.subrange(off, off + cmap.len()));
    stable_order_sorts(record_keys(records), records.len() as int);
    assert forall|i: int| 0 <= i < sorted.len() implies expressible(#[trigger] sorted[i]) by {
        let o = stable_order(record_keys(records), records.len() as int);
        assert(sorted[i] == records[o[i]]);
    }
    cmap_table_reads_back(sorted, f.skip(off));
}

/// Tables in the order of their tags.
pub open spec fn tags_ascend(tables: Seq<(Seq<u8>, Seq<u8>)>) -> bool {
    forall|i: int, j: int|
        0 <= i < j < tables.len() ==> tag_value((#[trigger] tables[i]).0) <= tag_value(
            (#[trigger] tables[j]).0,
        )
}

/// Putting a `cmap` into a font keeps the version, sorts the directory, and
/// keeps every other table and no other, but for the adjustment in `head`,
/// which follows from the rest.
pub proof fn inserted_cmap_keeps_tables(font: Seq<u8>, records: Seq<CmapRecord>)
    requires
        with_cmap(font, records) is Some,
    ensures
        ({
            let old = sfnt_of(font)->0;
            let new = sfnt_of(with_cmap(font, records)->0)->0;
            let others = tables_without(old.1, cmap_tag(), old.1.len() as int);
            let expected = zero_adjustments(others.push((cmap_tag(), cmap_bytes(records)->0)));
            let found = zero_adjustments(new.1);
            &&& sfnt_of(with_cmap(font, records)->0) is Some
            &&& new.0 == old.0
            &&& tags_ascend(new.1)
            &&& found.len() == expected.len()
            &&& forall|i: int| 0 <= i < expected.len() ==> found.contains(#[trigger] expected[i])
            &&& forall|i: int| 0 <= i < found.len() ==> expected.contains(#[trigger] found[i])
        }),
{
    let parts = sfnt_of(font)->0;
    let version = parts.0;
    let cmap = cmap_bytes(records)->0;
    let kept = tables_without(parts.1, cmap_tag(), parts.1.len() as int);
    let list = kept.push((cmap_tag(), cmap));
    let tables = tables_with_cmap(parts.1, cmap);
    let order = stable_order(tag_values(list), list.len() as int);
    lemma_tables_have_tags(font, be16_at(font, 4)->0 as int);
    lemma_kept_tags(parts.1, cmap_tag(), parts.1.len() as int);
    stable_order_sorts(tag_values(list), list.len() as int);
    assert(tables.len() == list.len());
    assert forall|i: int| 0 <= i < tables.len() implies (#[trigger] tables[i]).0.len() == 4 by {
        assert(tables[i] == list[order[i]]);
        if order[i] < kept.len() {
            assert(kept[order[i]].0.len() == 4);
        }
    }
    assembled_font_reads_back(version, tables);
    let new = adjusted_tables(version, tables);
    let last = last_head(tables, tables.len() as int);
    lemma_last_head(tables, tables.len() as int);
    assert forall|i: int| 0 <= i < new.len() implies (#[trigger] new[i]).0 == tables[i].0
        && zero_adjustment(new[i]) == zero_adjustment(tables[i]) by {
        if tables[i].0 == head_tag() {
            let zeroed = splice(tables[i].1, 8, seq![0u8, 0, 0, 0]);
            assert(splice(new[i].1, 8, seq![0u8, 0, 0, 0]) =~= zeroed);
        }
    }
    assert forall|i: int, j: int| 0 <= i < j < new.len() implies tag_value((#[trigger] new[i]).0)
        <= tag_value((#[trigger] new[j]).0) by {
        assert(stands_before(tag_values(list), order[i], order[j]));
        assert(tables[i] == list[order[i]] && tables[j] == list[order[j]]);
    }
    let expected = zero_adjustments(list);
    let found = zero_adjustments(new);
    assert forall|i: int| 0 <= i < expected.len() implies found.contains(
        #[trigger] expected[i],
    ) by {
        assert(order.contains(i));
        let j = choose|j: int| 0 <= j < order.len() && order[j] == i;
        assert(tables[j] == list[i]);
        assert(new[j].0 == tables[j].0);
        assert(found[j] == expected[i]);
    }
    assert forall|i: int| 0 <= i < found.len() implies expected.contains(#[trigger] found[i]) by {
        assert(tables[i] == list[order[i]]);
        assert(new[i].0 == tables[i].0);
        assert(found[i] == expected[order[i]]);
    }
}

pub proof fn lemma_tables_have_tags(font: Seq<u8>, n: int)
    requires
        tables_upto(font, n) is Some,
    ensures
        tags_ok(tables_upto(font, n)->0),
    decreases n,
{
    if n > 0 {
        lemma_tables_have_tags(font, n - 1);
    }
}

pub proof fn lemma_kept_tags(tables: Seq<(Seq<u8>, Seq<u8>)>, tag: Seq<u8>, n: int)
    requires
        tags_ok(tables),
        0 <= n <= tables.len(),
    ensures
        tags_ok(tables_without(tables, tag, n)),
    decreases n,
{
    if n > 0 {
        lemma_kept_tags(tables, tag, n - 1);
    }
}

} // verus!
