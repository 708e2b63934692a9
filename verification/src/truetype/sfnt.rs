//! Whole-font operations: checksums, taking an sfnt apart into tables and
//! putting it together again, replacing the `cmap`, and neutralising subset
//! tags in the `name` table.

use crate::bytes::{
    be16_at, be16_bytes, be32_at, be32_bytes, floor_log2, index_ints, ints, lemma_add_assoc,
    overwrite, power_of_two_within, push_be16, push_be32, round4, sort_order, splice, stable_order,
    stable_order_sorts, to_vec,
};
use crate::truetype::cmap::{
    be16, be32, cmap_tag, cmap_views, record_range, CmapRecord, CmapSubtable,
};
use crate::truetype::subtable::{
    build_format4, build_format6, format4_bytes, format6_bytes, format6_fits,
};
use vstd::arithmetic::power2::pow2;
use vstd::prelude::*;

verus! {

/// Byte `i`, or 0 past the end.
pub open spec fn padded_byte(data: Seq<u8>, i: int) -> int {
    if 0 <= i < data.len() {
        data[i] as int
    } else {
        0
    }
}

/// The big-endian 32-bit word at `off`, the data read as if zeros followed.
pub open spec fn padded_word(data: Seq<u8>, off: int) -> int {
    padded_byte(data, off) * 0x100_0000 + padded_byte(data, off + 1) * 0x1_0000 + padded_byte(
        data,
        off + 2,
    ) * 0x100 + padded_byte(data, off + 3)
}

/// The sum of the first `n` words.
pub open spec fn word_sum(data: Seq<u8>, n: int) -> int
    decreases n,
{
    if n <= 0 {
        0
    } else {
        word_sum(data, n - 1) + padded_word(data, 4 * (n - 1))
    }
}

/// The sfnt checksum of `data`: the sum of its words modulo 2^32.
pub open spec fn checksum(data: Seq<u8>) -> u32 {
    (word_sum(data, (data.len() as int + 3) / 4) % 0x1_0000_0000) as u32
}

/// The sfnt checksum of a table, its short last word padded with zeros.
pub fn table_checksum(data: &[u8]) -> (r: u32)
    ensures
        r == checksum(data@),
{
    let len: usize = data.len();
    let mut sum: u32 = 0;
    let mut i: usize = 0;
    let ghost mut n: int = 0;
    while i < len
        invariant
            len == data@.len(),
            n >= 0,
            i == 4 * n || (i == len && 4 * (n - 1) < len <= 4 * n),
            i <= len,
            sum == word_sum(data@, n) % 0x1_0000_0000,
            i < len ==> i == 4 * n,
        decreases len - i,
    {
        let b0: u32 = data[i] as u32;
        let b1: u32 = if len - i > 1 {
            data[i + 1] as u32
        } else {
            0
        };
        let b2: u32 = if len - i > 2 {
            data[i + 2] as u32
        } else {
            0
        };
        let b3: u32 = if len - i > 3 {
            data[i + 3] as u32
        } else {
            0
        };
        let word: u32 = b0 * 0x100_0000 + b1 * 0x1_0000 + b2 * 0x100 + b3;
        proof {
            assert(word == padded_word(data@, 4 * n));
        }
        sum = sum.wrapping_add(word);
        proof {
            n = n + 1;
        }
        i = if len - i > 4 {
            i + 4
        } else {
            len
        };
    }
    proof {
        assert(n == (len + 3) / 4);
    }
    sum
}

/// An sfnt table: tag and body.
pub type SfntTable = ([u8; 4], Vec<u8>);

/// The content of a table.
pub open spec fn table_view(t: SfntTable) -> (Seq<u8>, Seq<u8>) {
    (t.0@, t.1@)
}

/// The contents of a list of tables.
pub open spec fn table_views(tables: Seq<SfntTable>) -> Seq<(Seq<u8>, Seq<u8>)> {
    tables.map_values(|t: SfntTable| table_view(t))
}

/// The table that directory record `i` names.
pub open spec fn table_at(font: Seq<u8>, i: int) -> Option<(Seq<u8>, Seq<u8>)> {
    let rec = 12 + i * 16;
    match record_range(font, rec) {
        Some(range) => Some(
            (font.subrange(rec, rec + 4), font.subrange(range.0, range.0 + range.1)),
        ),
        None => None,
    }
}

/// The first `n` tables of the directory, or `None` where one of them does
/// not lie in the font.
pub open spec fn tables_upto(font: Seq<u8>, n: int) -> Option<Seq<(Seq<u8>, Seq<u8>)>>
    decreases n,
{
    if n <= 0 {
        Some(Seq::empty())
    } else {
        match (tables_upto(font, n - 1), table_at(font, n - 1)) {
            (Some(before), Some(table)) => Some(before.push(table)),
            _ => None,
        }
    }
}

/// The version word and all tables of a single (non-collection) sfnt.
pub open spec fn sfnt_of(font: Seq<u8>) -> Option<(u32, Seq<(Seq<u8>, Seq<u8>)>)> {
    match (be32_at(font, 0), be16_at(font, 4)) {
        (Some(version), Some(count)) => match tables_upto(font, count as int) {
            Some(tables) => Some((version, tables)),
            None => None,
        },
        _ => None,
    }
}

proof fn lemma_tables_stop(font: Seq<u8>, i: int, n: int)
    requires
        i <= n,
        tables_upto(font, i) is None,
    ensures
        tables_upto(font, n) is None,
    decreases n - i,
{
    if n > i {
        lemma_tables_stop(font, i, n - 1);
    }
}

/// Reads the table that directory record `i` names.
fn read_table(font: &[u8], i: usize) -> (r: Option<SfntTable>)
    requires
        i < 0xFFFF,
    ensures
        match r {
            Some(t) => table_at(font@, i as int) == Some(table_view(t)),
            None => table_at(font@, i as int) is None,
        },
{
    let rec: usize = 12 + i * 16;
    let off: u32 = be32(font, rec + 8)?;
    let len: u32 = be32(font, rec + 12)?;
    if off as u64 + len as u64 > font.len() as u64 {
        return None;
    }
    let tag: [u8; 4] = [font[rec], font[rec + 1], font[rec + 2], font[rec + 3]];
    let body = to_vec(vstd::slice::slice_subrange(font, off as usize, off as usize + len as usize));
    proof {
        assert(tag@ =~= font@.subrange(rec as int, rec + 4));
    }
    Some((tag, body))
}

/// Reads every top-level table out of a single (non-collection) sfnt.
pub fn parse_tables(font: &[u8]) -> (r: Option<(u32, Vec<SfntTable>)>)
    ensures
        match r {
            Some(parts) => sfnt_of(font@) == Some((parts.0, table_views(parts.1@)))
                && parts.1@.len() <= 0xFFFF,
            None => sfnt_of(font@) is None,
        },
{
    let sfnt_version: u32 = be32(font, 0)?;
    let count: usize = be16(font, 4)? as usize;
    let mut tables: Vec<SfntTable> = Vec::with_capacity(count + 1);
    let mut i: usize = 0;
    proof {
        assert(table_views(tables@) =~= Seq::empty());
    }
    while i < count
        invariant
            i <= count <= 0xFFFF,
            be32_at(font@, 0) == Some(sfnt_version),
            be16_at(font@, 4) == Some(count as u16),
            tables@.len() == i,
            tables_upto(font@, i as int) == Some(table_views(tables@)),
        decreases count - i,
    {
        match read_table(font, i) {
            Some(t) => {
                let ghost before = table_views(tables@);
                tables.push(t);
                proof {
                    assert(table_views(tables@) =~= before.push(table_view(t)));
                }
            },
            None => {
                proof {
                    lemma_tables_stop(font@, i + 1, count as int);
                }
                return None;
            },
        }
        i += 1;
    }
    Some((sfnt_version, tables))
}

// --- putting a font together ---------------------------------------------------

/// The four bytes of the tag `head`.
pub open spec fn head_tag() -> Seq<u8> {
    seq![0x68u8, 0x65, 0x61, 0x64]
}

/// A table as it is written: the checksum adjustment of `head` is zero.
pub open spec fn zero_adjustment(t: (Seq<u8>, Seq<u8>)) -> (Seq<u8>, Seq<u8>) {
    if t.0 == head_tag() && t.1.len() >= 12 {
        (t.0, splice(t.1, 8, seq![0u8, 0, 0, 0]))
    } else {
        t
    }
}

/// The tables as they are written.
pub open spec fn zero_adjustments(tables: Seq<(Seq<u8>, Seq<u8>)>) -> Seq<(Seq<u8>, Seq<u8>)> {
    tables.map_values(|t: (Seq<u8>, Seq<u8>)| zero_adjustment(t))
}

/// Where table `k` of the written font starts.
pub open spec fn table_offset(tables: Seq<(Seq<u8>, Seq<u8>)>, k: int) -> int
    decreases k,
{
    if k <= 0 {
        12 + 16 * tables.len() as int
    } else {
        table_offset(tables, k - 1) + round4(tables[k - 1].1.len() as int)
    }
}

/// The first `k` directory records of the written font.
pub open spec fn directory(tables: Seq<(Seq<u8>, Seq<u8>)>, k: int) -> Seq<u8>
    decreases k,
{
    if k <= 0 {
        Seq::empty()
    } else {
        directory(tables, k - 1) + directory_record(tables, k - 1)
    }
}

/// Directory record `k` of the written font.
pub open spec fn directory_record(tables: Seq<(Seq<u8>, Seq<u8>)>, k: int) -> Seq<u8> {
    record_bytes(tables[k].0, tables[k].1, table_offset(tables, k))
}

/// The directory record of a table that starts at `offset`.
#[verifier::opaque]
pub open spec fn record_bytes(tag: Seq<u8>, body: Seq<u8>, offset: int) -> Seq<u8> {
    tag + be32_bytes(checksum(body) as int) + be32_bytes(offset) + be32_bytes(body.len() as int)
}

/// `body` followed by zeros up to a multiple of four bytes.
pub open spec fn padded(body: Seq<u8>) -> Seq<u8> {
    body + Seq::new((round4(body.len() as int) - body.len()) as nat, |i: int| 0u8)
}

/// The first `k` bodies of the written font, each padded.
pub open spec fn bodies(tables: Seq<(Seq<u8>, Seq<u8>)>, k: int) -> Seq<u8>
    decreases k,
{
    if k <= 0 {
        Seq::empty()
    } else {
        bodies(tables, k - 1) + padded(tables[k - 1].1)
    }
}

/// The first twelve bytes of a font with `n` tables.
pub open spec fn sfnt_header(version: u32, n: nat) -> Seq<u8> {
    let log = floor_log2(n);
    be32_bytes(version as int) + be16_bytes(n as int) + be16_bytes(16 * pow2(log) as int)
        + be16_bytes(log as int) + be16_bytes(16 * n - 16 * pow2(log))
}

/// Index of the last `head` among the first `k` tables, or -1.
pub open spec fn last_head(tables: Seq<(Seq<u8>, Seq<u8>)>, k: int) -> int
    decreases k,
{
    if k <= 0 {
        -1
    } else if tables[k - 1].0 == head_tag() {
        k - 1
    } else {
        last_head(tables, k - 1)
    }
}

/// The font before its checksum adjustment is filled in.
pub open spec fn unadjusted_font(version: u32, tables: Seq<(Seq<u8>, Seq<u8>)>) -> Seq<u8> {
    let n = tables.len();
    sfnt_header(version, n) + directory(zero_adjustments(tables), n as int) + bodies(
        zero_adjustments(tables),
        n as int,
    )
}

/// A font can be put together from these tables: there is a `head`, every
/// `head` holds the adjustment field, the directory header can count the
/// tables, and the offsets fit 32 bits.
pub open spec fn can_assemble(tables: Seq<(Seq<u8>, Seq<u8>)>) -> bool {
    &&& 0 < tables.len() < 4096
    &&& last_head(tables, tables.len() as int) >= 0
    &&& forall|k: int|
        0 <= k < tables.len() && (#[trigger] tables[k]).0 == head_tag() ==> tables[k].1.len() >= 12
    &&& table_offset(tables, tables.len() as int) <= u32::MAX
}

/// The value that makes the checksum of a font come out as the format asks.
pub open spec fn adjustment_for(font: Seq<u8>) -> int {
    (0xB1B0_AFBA - checksum(font)) % 0x1_0000_0000
}

/// The font made of `tables`, with its checksum adjustment.
pub open spec fn assembled(version: u32, tables: Seq<(Seq<u8>, Seq<u8>)>) -> Option<Seq<u8>> {
    if can_assemble(tables) {
        let font = unadjusted_font(version, tables);
        let head = table_offset(
            zero_adjustments(tables),
            last_head(tables, tables.len() as int),
        );
        Some(splice(font, head + 8, be32_bytes(adjustment_for(font))))
    } else {
        None
    }
}

proof fn lemma_offsets_grow(tables: Seq<(Seq<u8>, Seq<u8>)>, i: int, k: int)
    requires
        0 <= i <= k <= tables.len(),
    ensures
        table_offset(tables, i) <= table_offset(tables, k),
        table_offset(tables, i) >= 12 + 16 * tables.len(),
    decreases k,
{
    if i < k {
        lemma_offsets_grow(tables, i, k - 1);
    } else if k > 0 {
        lemma_offsets_grow(tables, i - 1, k - 1);
    }
}

proof fn lemma_offsets_same(tables: Seq<(Seq<u8>, Seq<u8>)>, k: int)
    requires
        0 <= k <= tables.len(),
    ensures
        table_offset(zero_adjustments(tables), k) == table_offset(tables, k),
    decreases k,
{
    if k > 0 {
        lemma_offsets_same(tables, k - 1);
    }
}

proof fn lemma_directory_len(tables: Seq<(Seq<u8>, Seq<u8>)>, k: int)
    requires
        0 <= k <= tables.len(),
        forall|i: int| 0 <= i < tables.len() ==> (#[trigger] tables[i]).0.len() == 4,
    ensures
        directory(tables, k).len() == 16 * k,
    decreases k,
{
    if k > 0 {
        lemma_directory_len(tables, k - 1);
        reveal(record_bytes);
    }
}

proof fn lemma_bodies_len(tables: Seq<(Seq<u8>, Seq<u8>)>, k: int)
    requires
        0 <= k <= tables.len(),
    ensures
        bodies(tables, k).len() == table_offset(tables, k) - table_offset(tables, 0),
    decreases k,
{
    if k > 0 {
        lemma_bodies_len(tables, k - 1);
    }
}

/// Whether two tags are equal.
pub fn is_tag(tag: &[u8; 4], other: &[u8; 4]) -> (r: bool)
    ensures
        r == (tag@ == other@),
{
    let r = tag[0] == other[0] && tag[1] == other[1] && tag[2] == other[2] && tag[3] == other[3];
    proof {
        if r {
            assert(tag@ =~= other@);
        }
    }
    r
}

/// Appends `body` and zeros up to a multiple of four bytes.
fn push_padded(out: &mut Vec<u8>, body: &Vec<u8>)
    ensures
        final(out)@ == old(out)@ + padded(body@),
{
    out.extend_from_slice(body.as_slice());
    let ghost mid = out@;
    let extra: usize = (4 - body.len() % 4) % 4;
    let mut i: usize = 0;
    proof {
        assert(extra == round4(body@.len() as int) - body@.len());
        assert(mid =~= mid + Seq::new(0, |k: int| 0u8));
    }
    while i < extra
        invariant
            i <= extra,
            out@ == mid + Seq::new(i as nat, |k: int| 0u8),
        decreases extra - i,
    {
        out.push(0);
        i += 1;
        proof {
            assert(out@ =~= mid + Seq::new(i as nat, |k: int| 0u8));
        }
    }
    proof {
        assert(out@ =~= old(out)@ + padded(body@));
    }
}

/// Zeroes the checksum adjustment of each `head` and lays the tables out:
/// the end of the last one, and where the last `head` starts. `None` where a
/// `head` is too short, or where an offset leaves 32 bits.
fn lay_out(tables: &mut Vec<SfntTable>) -> (r: Option<(usize, Option<usize>)>)
    requires
        0 < old(tables)@.len() < 4096,
    ensures
        final(tables)@.len() == old(tables)@.len(),
        r is Some <==> (table_offset(
            table_views(old(tables)@),
            old(tables)@.len() as int,
        ) <= u32::MAX && forall|k: int|
            0 <= k < old(tables)@.len() && (#[trigger] table_views(old(tables)@)[k]).0 == head_tag()
                ==> table_views(old(tables)@)[k].1.len() >= 12),
        r is Some ==> table_views(final(tables)@) == zero_adjustments(table_views(old(tables)@)),
        r is Some ==> {
            let last = last_head(table_views(old(tables)@), old(tables)@.len() as int);
            match (r->0).1 {
                None => last == -1,
                Some(at) => 0 <= last < old(tables)@.len() && at == table_offset(
                    table_views(old(tables)@),
                    last,
                ),
            }
        },
{
    let head: [u8; 4] = [0x68, 0x65, 0x61, 0x64];
    let zeros: [u8; 4] = [0, 0, 0, 0];
    let n: usize = tables.len();
    let ghost views = table_views(tables@);
    let mut offset: usize = 12 + n * 16;
    let mut head_offset: Option<usize> = None;
    let mut i: usize = 0;
    proof {
        assert(head@ =~= head_tag());
        assert(zeros@ =~= seq![0u8, 0, 0, 0]);
    }
    while i < n
        invariant
            0 < n < 4096,
            i <= n,
            n == tables@.len(),
            views == table_views(old(tables)@),
            views.len() == n,
            head@ == head_tag(),
            zeros@ == seq![0u8, 0, 0, 0],
            offset == table_offset(views, i as int),
            offset <= u32::MAX,
            forall|k: int| 0 <= k < n ==> #[trigger] table_view(tables@[k]) == if k < i {
                zero_adjustment(views[k])
            } else {
                views[k]
            },
            forall|k: int|
                0 <= k < i && (#[trigger] views[k]).0 == head_tag() ==> views[k].1.len() >= 12,
            match head_offset {
                None => last_head(views, i as int) == -1,
                Some(at) => 0 <= last_head(views, i as int) < i && at == table_offset(
                    views,
                    last_head(views, i as int),
                ),
            },
        decreases n - i,
    {
        let ghost before = tables@;
        proof {
            assert(table_view(tables@[i as int]) == views[i as int]);
            lemma_offsets_grow(views, i + 1, n as int);
        }
        let tag: [u8; 4] = tables[i].0;
        if is_tag(&tag, &head) {
            if tables[i].1.len() < 12 {
                return None;
            }
            let mut body: Vec<u8> = tables[i].1.clone();
            overwrite(&mut body, 8, zeros.as_slice());
            tables.set(i, (tag, body));
            head_offset = Some(offset);
        }
        let len: usize = tables[i].1.len();
        proof {
            assert(len == views[i as int].1.len());
            assert forall|k: int| 0 <= k < n implies #[trigger] table_view(tables@[k]) == if k < i
                + 1 {
                zero_adjustment(views[k])
            } else {
                views[k]
            } by {
                if k != i {
                    assert(tables@[k] == before[k]);
                    assert(table_view(before[k]) == if k < i {
                        zero_adjustment(views[k])
                    } else {
                        views[k]
                    });
                }
            }
        }
        if len > 0xFFFF_FFFF {
            return None;
        }
        let next: u64 = offset as u64 + (len as u64 + 3) / 4 * 4;
        if next > 0xFFFF_FFFF {
            return None;
        }
        offset = next as usize;
        i += 1;
    }
    proof {
        assert forall|k: int| 0 <= k < n implies #[trigger] table_views(tables@)[k]
            == zero_adjustments(views)[k] by {
            assert(table_view(tables@[k]) == zero_adjustment(views[k]));
        }
        assert(table_views(tables@) =~= zero_adjustments(views));
    }
    Some((offset, head_offset))
}

/// The first twelve bytes of a font with `num` tables.
fn write_header(sfnt_version: u32, num: usize) -> (r: Vec<u8>)
    requires
        0 < num < 4096,
    ensures
        r@ == sfnt_header(sfnt_version, num as nat),
        r@.len() == 12,
{
    let (power, log) = power_of_two_within(num);
    let mut out: Vec<u8> = Vec::new();
    proof {
        assert(log < 16) by {
            vstd::arithmetic::power2::lemma2_to64();
            if log > 16 {
                vstd::arithmetic::power2::lemma_pow2_strictly_increases(16, log as nat);
            }
        }
    }
    push_be32(&mut out, sfnt_version);
    push_be16(&mut out, num as u16);
    push_be16(&mut out, (16 * power) as u16);
    push_be16(&mut out, log as u16);
    push_be16(&mut out, (num * 16 - 16 * power) as u16);
    proof {
        assert(out@ =~= sfnt_header(sfnt_version, num as nat));
    }
    out
}

/// Appends one directory record.
fn push_record(out: &mut Vec<u8>, table: &SfntTable, offset: u32)
    requires
        table.1@.len() <= u32::MAX,
    ensures
        final(out)@ == old(out)@ + record_bytes(table.0@, table.1@, offset as int),
{
    let tag: [u8; 4] = table.0;
    out.extend_from_slice(tag.as_slice());
    push_be32(out, table_checksum(table.1.as_slice()));
    push_be32(out, offset);
    push_be32(out, table.1.len() as u32);
    proof {
        reveal(record_bytes);
        assert(out@ =~= old(out)@ + record_bytes(table.0@, table.1@, offset as int));
    }
}

/// Appends the directory.
fn write_directory(out: &mut Vec<u8>, tables: &Vec<SfntTable>)
    requires
        tables@.len() < 4096,
        table_offset(table_views(tables@), tables@.len() as int) <= u32::MAX,
    ensures
        final(out)@ == old(out)@ + directory(table_views(tables@), tables@.len() as int),
{
    let ghost header = out@;
    let ghost views = table_views(tables@);
    let num: usize = tables.len();
    let mut offset: usize = 12 + num * 16;
    let mut i: usize = 0;
    proof {
        assert(out@ =~= header + directory(views, 0));
    }
    while i < num
        invariant
            i <= num < 4096,
            num == tables@.len(),
            views == table_views(tables@),
            table_offset(views, num as int) <= u32::MAX,
            offset == table_offset(views, i as int),
            out@ == header + directory(views, i as int),
        decreases num - i,
    {
        let ghost before = out@;
        proof {
            lemma_offsets_grow(views, i as int, num as int);
            lemma_offsets_grow(views, i + 1, num as int);
            assert(views[i as int] == table_view(tables@[i as int]));
        }
        let len: usize = tables[i].1.len();
        push_record(out, &tables[i], offset as u32);
        proof {
            assert(out@ == before + directory_record(views, i as int));
            lemma_add_assoc(
                header,
                directory(views, i as int),
                directory_record(views, i as int),
            );
        }
        offset = offset + (len + (4 - len % 4) % 4);
        i += 1;
    }
}

/// Appends the padded bodies.
fn write_bodies(out: &mut Vec<u8>, tables: &Vec<SfntTable>)
    ensures
        final(out)@ == old(out)@ + bodies(table_views(tables@), tables@.len() as int),
{
    let ghost front = out@;
    let ghost views = table_views(tables@);
    let mut i: usize = 0;
    proof {
        assert(out@ =~= front + bodies(views, 0));
    }
    while i < tables.len()
        invariant
            i <= tables@.len(),
            views == table_views(tables@),
            out@ == front + bodies(views, i as int),
        decreases tables@.len() - i,
    {
        push_padded(out, &tables[i].1);
        proof {
            assert(views[i as int] == table_view(tables@[i as int]));
            assert(out@ =~= front + bodies(views, i + 1));
        }
        i += 1;
    }
}

/// The last `head` of the written font lies inside it.
proof fn lemma_head_fits(version: u32, tables: Seq<(Seq<u8>, Seq<u8>)>)
    requires
        can_assemble(tables),
        forall|i: int| 0 <= i < tables.len() ==> (#[trigger] tables[i]).0.len() == 4,
    ensures
        table_offset(zero_adjustments(tables), last_head(tables, tables.len() as int))
            == table_offset(tables, last_head(tables, tables.len() as int)),
        table_offset(tables, last_head(tables, tables.len() as int)) + 12 <= unadjusted_font(
            version,
            tables,
        ).len() == table_offset(tables, tables.len() as int),
        table_offset(tables, last_head(tables, tables.len() as int)) + 12 <= u32::MAX,
{
    let n = tables.len() as int;
    let zeroed = zero_adjustments(tables);
    let last = last_head(tables, n);
    lemma_head_is_head(tables, n);
    lemma_offsets_same(tables, last);
    lemma_offsets_same(tables, n);
    lemma_offsets_grow(tables, last + 1, n);
    assert forall|i: int| 0 <= i < n implies (#[trigger] zeroed[i]).0.len() == 4 by {
        assert(zeroed[i] == zero_adjustment(tables[i]));
    }
    lemma_directory_len(zeroed, n);
    lemma_bodies_len(zeroed, n);
}

/// Puts a font together from its tables, with directory, checksums and
/// `head.checkSumAdjustment`. `None` where [`can_assemble`] does not hold.
#[verifier::spinoff_prover]
#[verifier::rlimit(60)]
pub fn assemble_sfnt(sfnt_version: u32, tables: Vec<SfntTable>) -> (r: Option<Vec<u8>>)
    ensures
        match r {
            Some(font) => assembled(sfnt_version, table_views(tables@)) == Some(font@),
            None => assembled(sfnt_version, table_views(tables@)) is None,
        },
{
    let num: usize = tables.len();
    if num == 0 || num >= 4096 {
        return None;
    }
    let ghost views = table_views(tables@);
    let mut parts = tables;
    let (_, head) = lay_out(&mut parts)?;
    let head_offset: usize = head?;
    proof {
        assert(can_assemble(views));
        assert forall|k: int| 0 <= k < views.len() implies (#[trigger] views[k]).0.len() == 4 by {
            assert(views[k] == table_view(tables@[k]));
        }
        lemma_head_fits(sfnt_version, views);
        lemma_offsets_same(views, num as int);
    }
    let mut out = write_header(sfnt_version, num);
    write_directory(&mut out, &parts);
    write_bodies(&mut out, &parts);
    proof {
        assert(out@ == unadjusted_font(sfnt_version, views));
    }
    let adjustment: u32 = 0xB1B0_AFBAu32.wrapping_sub(table_checksum(out.as_slice()));
    let mut field: Vec<u8> = Vec::new();
    push_be32(&mut field, adjustment);
    proof {
        assert(field@ =~= be32_bytes(adjustment as int));
    }
    overwrite(&mut out, head_offset + 8, field.as_slice());
    Some(out)
}

proof fn lemma_head_is_head(tables: Seq<(Seq<u8>, Seq<u8>)>, k: int)
    requires
        0 <= k <= tables.len(),
        last_head(tables, k) >= 0,
    ensures
        last_head(tables, k) < k,
        tables[last_head(tables, k)].0 == head_tag(),
    decreases k,
{
    if k > 0 && tables[k - 1].0 != head_tag() {
        lemma_head_is_head(tables, k - 1);
    }
}

// --- the `cmap` table ------------------------------------------------------------

/// What a `cmap` directory is sorted by.
pub open spec fn record_key(r: CmapRecord) -> int {
    r.platform * 0x1_0000 + r.encoding
}

/// The keys of a list of records.
pub open spec fn record_keys(records: Seq<CmapRecord>) -> Seq<int> {
    records.map_values(|r: CmapRecord| record_key(r))
}

/// The records in the order of platform and encoding, equal ones as they came.
pub open spec fn sorted_records(records: Seq<CmapRecord>) -> Seq<CmapRecord> {
    stable_order(record_keys(records), records.len() as int).map_values(|i: int| records[i])
}

/// A record's subtable. Platform 1 (Macintosh) readers expect byte-oriented
/// formats, so it gets format 6; everything else gets format 4.
pub open spec fn subtable_bytes(r: CmapRecord) -> Option<Seq<u8>> {
    if r.platform == 1 {
        Some(format6_bytes(r.map))
    } else {
        format4_bytes(r.map)
    }
}

/// The codes of a record fit the format of its subtable.
pub open spec fn codes_fit(r: CmapRecord) -> bool {
    if r.platform == 1 {
        format6_fits(r.map)
    } else {
        forall|c: u32| #[trigger] r.map.contains_key(c) ==> c <= 0xFFFF
    }
}

/// Where the subtable of record `k` starts.
pub open spec fn subtable_offset(records: Seq<CmapRecord>, k: int) -> int
    decreases k,
{
    if k <= 0 {
        4 + 8 * records.len() as int
    } else {
        subtable_offset(records, k - 1) + (subtable_bytes(records[k - 1])->0).len()
    }
}

/// The encoding record of a subtable that starts at `offset`.
#[verifier::opaque]
pub open spec fn encoding_record(r: CmapRecord, offset: int) -> Seq<u8> {
    be16_bytes(r.platform as int) + be16_bytes(r.encoding as int) + be32_bytes(offset)
}

/// The first `k` encoding records.
pub open spec fn encoding_records(records: Seq<CmapRecord>, k: int) -> Seq<u8>
    decreases k,
{
    if k <= 0 {
        Seq::empty()
    } else {
        encoding_records(records, k - 1) + encoding_record(
            records[k - 1],
            subtable_offset(records, k - 1),
        )
    }
}

/// The first `k` subtables.
pub open spec fn subtables_bytes(records: Seq<CmapRecord>, k: int) -> Seq<u8>
    decreases k,
{
    if k <= 0 {
        Seq::empty()
    } else {
        subtables_bytes(records, k - 1) + subtable_bytes(records[k - 1])->0
    }
}

/// A `cmap` table can hold these records.
pub open spec fn can_build_cmap(records: Seq<CmapRecord>) -> bool {
    &&& records.len() <= 0xFFFF
    &&& forall|k: int| 0 <= k < records.len() ==> (#[trigger] subtable_bytes(records[k])) is Some
    &&& forall|k: int|
        0 <= k < records.len() ==> #[trigger] subtable_offset(records, k) <= u32::MAX
}

/// Version and record count of a `cmap` table.
#[verifier::opaque]
pub open spec fn cmap_header(n: int) -> Seq<u8> {
    be16_bytes(0) + be16_bytes(n)
}

/// The `cmap` table for these records, taken in this order.
pub open spec fn cmap_table(records: Seq<CmapRecord>) -> Seq<u8> {
    let n = records.len() as int;
    cmap_header(n) + encoding_records(records, n) + subtables_bytes(records, n)
}

/// The `cmap` table for these records, sorted as the format asks; `None`
/// where it cannot hold them.
pub open spec fn cmap_bytes(records: Seq<CmapRecord>) -> Option<Seq<u8>> {
    let sorted = sorted_records(records);
    if can_build_cmap(sorted) {
        Some(cmap_table(sorted))
    } else {
        None
    }
}

proof fn lemma_subtable_offsets_grow(records: Seq<CmapRecord>, i: int, k: int)
    requires
        0 <= i <= k,
    ensures
        subtable_offset(records, i) <= subtable_offset(records, k),
    decreases k - i,
{
    if i < k {
        lemma_subtable_offsets_grow(records, i, k - 1);
    }
}

/// The order in which the encoding records are written.
fn record_order(subtables: &[CmapSubtable]) -> (r: Vec<usize>)
    ensures
        r@.len() == subtables@.len(),
        forall|i: int| 0 <= i < r@.len() ==> #[trigger] r@[i] < subtables@.len(),
        sorted_records(cmap_views(subtables@)) == r@.map_values(
            |i: usize| subtables@[i as int]@,
        ),
{
    let mut keys: Vec<u64> = Vec::new();
    let mut i: usize = 0;
    while i < subtables.len()
        invariant
            i <= subtables@.len(),
            keys@.len() == i,
            forall|k: int| 0 <= k < i ==> #[trigger] keys@[k] == record_key(subtables@[k]@),
        decreases subtables@.len() - i,
    {
        keys.push(subtables[i].platform as u64 * 0x1_0000 + subtables[i].encoding as u64);
        i += 1;
    }
    let order = sort_order(&keys);
    proof {
        let views = cmap_views(subtables@);
        assert(ints(keys@) =~= record_keys(views));
        let so = stable_order(record_keys(views), views.len() as int);
        stable_order_sorts(record_keys(views), views.len() as int);
        assert(so == index_ints(order@));
        assert(sorted_records(views) =~= order@.map_values(|i: usize| subtables@[i as int]@)) by {
            assert forall|k: int| 0 <= k < order@.len() implies sorted_records(views)[k]
                == subtables@[order@[k] as int]@ by {
                assert(so[k] == order@[k]);
            }
        }
    }
    order
}

/// Appends one encoding record.
fn push_encoding_record(out: &mut Vec<u8>, sub: &CmapSubtable, offset: u32)
    ensures
        final(out)@ == old(out)@ + encoding_record(sub@, offset as int),
{
    push_be16(out, sub.platform);
    push_be16(out, sub.encoding);
    push_be32(out, offset);
    proof {
        reveal(encoding_record);
        assert(out@ =~= old(out)@ + encoding_record(sub@, offset as int));
    }
}

/// Builds the subtable of one record.
fn build_subtable(sub: &CmapSubtable) -> (r: Option<Vec<u8>>)
    requires
        codes_fit(sub@),
    ensures
        match r {
            Some(out) => subtable_bytes(sub@) == Some(out@) && out@.len() <= 0xFFFF,
            None => subtable_bytes(sub@) is None,
        },
{
    if sub.platform == 1 {
        Some(build_format6(&sub.map))
    } else {
        build_format4(&sub.map)
    }
}

/// Builds a `cmap` table that holds these subtables.
pub fn build_cmap_table(subtables: &[CmapSubtable]) -> (r: Option<Vec<u8>>)
    requires
        forall|k: int| 0 <= k < subtables@.len() ==> codes_fit(#[trigger] subtables@[k]@),
    ensures
        match r {
            Some(out) => cmap_bytes(cmap_views(subtables@)) == Some(out@),
            None => cmap_bytes(cmap_views(subtables@)) is None,
        },
{
    let n: usize = subtables.len();
    let order = record_order(subtables);
    let ghost records = order@.map_values(|i: usize| subtables@[i as int]@);
    if n > 0xFFFF {
        return None;
    }
    let mut bodies: Vec<Vec<u8>> = Vec::new();
    let mut i: usize = 0;
    while i < n
        invariant
            i <= n <= 0xFFFF,
            n == order@.len() == subtables@.len(),
            records == order@.map_values(|i: usize| subtables@[i as int]@),
            sorted_records(cmap_views(subtables@)) == records,
            forall|k: int| 0 <= k < subtables@.len() ==> codes_fit(#[trigger] subtables@[k]@),
            forall|k: int| 0 <= k < n ==> #[trigger] order@[k] < subtables@.len(),
            bodies@.len() == i,
            forall|k: int|
                0 <= k < i ==> (#[trigger] subtable_bytes(records[k])) == Some(bodies@[k]@)
                    && bodies@[k]@.len() <= 0xFFFF,
        decreases n - i,
    {
        proof {
            assert(records[i as int] == subtables@[order@[i as int] as int]@);
        }
        match build_subtable(&subtables[order[i]]) {
            Some(body) => {
                bodies.push(body);
            },
            None => {
                proof {
                    assert(subtable_bytes(records[i as int]) is None);
                }
                return None;
            },
        }
        i += 1;
    }
    let mut out: Vec<u8> = Vec::new();
    push_be16(&mut out, 0);
    push_be16(&mut out, n as u16);
    proof {
        reveal(cmap_header);
        assert(out@ =~= cmap_header(n as int));
        assert(out@ =~= cmap_header(n as int) + encoding_records(records, 0));
    }
    let mut offset: u64 = 4 + n as u64 * 8;
    i = 0;
    while i < n
        invariant
            i <= n <= 0xFFFF,
            n == order@.len() == subtables@.len(),
            records == order@.map_values(|i: usize| subtables@[i as int]@),
            sorted_records(cmap_views(subtables@)) == records,
            forall|k: int| 0 <= k < n ==> #[trigger] order@[k] < subtables@.len(),
            bodies@.len() == n,
            forall|k: int|
                0 <= k < n ==> (#[trigger] subtable_bytes(records[k])) == Some(bodies@[k]@)
                    && bodies@[k]@.len() <= 0xFFFF,
            offset == subtable_offset(records, i as int),
            forall|k: int| 0 <= k < i ==> #[trigger] subtable_offset(records, k) <= u32::MAX,
            out@ == cmap_header(n as int) + encoding_records(records, i as int),
        decreases n - i,
    {
        if offset > 0xFFFF_FFFF {
            proof {
                assert(subtable_offset(records, i as int) > u32::MAX);
            }
            return None;
        }
        proof {
            assert(records[i as int] == subtables@[order@[i as int] as int]@);
            assert(subtable_bytes(records[i as int]) == Some(bodies@[i as int]@));
            lemma_add_assoc(
                cmap_header(n as int),
                encoding_records(records, i as int),
                encoding_record(records[i as int], offset as int),
            );
        }
        push_encoding_record(&mut out, &subtables[order[i]], offset as u32);
        offset = offset + bodies[i].len() as u64;
        i += 1;
    }
    let ghost front = out@;
    proof {
        assert(out@ =~= front + subtables_bytes(records, 0));
    }
    i = 0;
    while i < n
        invariant
            i <= n,
            n == records.len() == bodies@.len(),
            forall|k: int|
                0 <= k < n ==> (#[trigger] subtable_bytes(records[k])) == Some(bodies@[k]@),
            out@ == front + subtables_bytes(records, i as int),
        decreases n - i,
    {
        proof {
            assert(subtable_bytes(records[i as int]) == Some(bodies@[i as int]@));
            lemma_add_assoc(front, subtables_bytes(records, i as int), bodies@[i as int]@);
        }
        out.extend_from_slice(bodies[i].as_slice());
        i += 1;
    }
    Some(out)
}

/// The value of a tag, by which a table directory is sorted.
pub open spec fn tag_value(tag: Seq<u8>) -> int {
    tag[0] * 0x100_0000 + tag[1] * 0x1_0000 + tag[2] * 0x100 + tag[3]
}

/// The tag values of a list of tables.
pub open spec fn tag_values(tables: Seq<(Seq<u8>, Seq<u8>)>) -> Seq<int> {
    tables.map_values(|t: (Seq<u8>, Seq<u8>)| tag_value(t.0))
}

/// The tables in the order of their tags, equal ones as they came.
pub open spec fn sorted_tables(tables: Seq<(Seq<u8>, Seq<u8>)>) -> Seq<(Seq<u8>, Seq<u8>)> {
    stable_order(tag_values(tables), tables.len() as int).map_values(|i: int| tables[i])
}

/// The tables other than those with tag `tag`, in their order, of the first `n`.
pub open spec fn tables_without(
    tables: Seq<(Seq<u8>, Seq<u8>)>,
    tag: Seq<u8>,
    n: int,
) -> Seq<(Seq<u8>, Seq<u8>)>
    decreases n,
{
    if n <= 0 {
        Seq::empty()
    } else if tables[n - 1].0 == tag {
        tables_without(tables, tag, n - 1)
    } else {
        tables_without(tables, tag, n - 1).push(tables[n - 1])
    }
}

/// The tables of the font whose `cmap` is replaced by one with `records`.
pub open spec fn tables_with_cmap(
    tables: Seq<(Seq<u8>, Seq<u8>)>,
    cmap: Seq<u8>,
) -> Seq<(Seq<u8>, Seq<u8>)> {
    sorted_tables(tables_without(tables, cmap_tag(), tables.len() as int).push((cmap_tag(), cmap)))
}

/// The font with its `cmap` replaced by one that holds `records`.
pub open spec fn with_cmap(font: Seq<u8>, records: Seq<CmapRecord>) -> Option<Seq<u8>> {
    match (sfnt_of(font), cmap_bytes(records)) {
        (Some(parts), Some(cmap)) => assembled(parts.0, tables_with_cmap(parts.1, cmap)),
        _ => None,
    }
}

/// The tables other than those with tag `tag`.
pub fn drop_tables(tables: Vec<SfntTable>, tag: &[u8; 4]) -> (r: Vec<SfntTable>)
    ensures
        table_views(r@) == tables_without(table_views(tables@), tag@, tables@.len() as int),
        r@.len() <= tables@.len(),
{
    let mut out: Vec<SfntTable> = Vec::new();
    let ghost views = table_views(tables@);
    let mut i: usize = 0;
    proof {
        assert(table_views(out@) =~= Seq::empty());
    }
    while i < tables.len()
        invariant
            i <= tables@.len(),
            out@.len() <= i,
            views == table_views(tables@),
            table_views(out@) == tables_without(views, tag@, i as int),
        decreases tables@.len() - i,
    {
        let own: [u8; 4] = tables[i].0;
        proof {
            assert(views[i as int] == table_view(tables@[i as int]));
        }
        if !is_tag(&own, tag) {
            let ghost before = out@;
            out.push((own, tables[i].1.clone()));
            proof {
                assert(table_views(out@) =~= table_views(before).push(views[i as int]));
            }
        }
        i += 1;
    }
    out
}

/// Puts the tables in the order of their tags.
fn sort_tables(tables: &Vec<SfntTable>) -> (r: Vec<SfntTable>)
    ensures
        table_views(r@) == sorted_tables(table_views(tables@)),
        r@.len() == tables@.len(),
{
    let mut keys: Vec<u64> = Vec::new();
    let mut i: usize = 0;
    let ghost views = table_views(tables@);
    while i < tables.len()
        invariant
            i <= tables@.len(),
            keys@.len() == i,
            forall|k: int| 0 <= k < i ==> #[trigger] keys@[k] == tag_value(tables@[k].0@),
        decreases tables@.len() - i,
    {
        let tag: [u8; 4] = tables[i].0;
        keys.push(
            tag[0] as u64 * 0x100_0000 + tag[1] as u64 * 0x1_0000 + tag[2] as u64 * 0x100
                + tag[3] as u64,
        );
        i += 1;
    }
    let order = sort_order(&keys);
    proof {
        assert(ints(keys@) =~= tag_values(views));
    }
    let mut out: Vec<SfntTable> = Vec::new();
    i = 0;
    while i < order.len()
        invariant
            i <= order@.len(),
            order@.len() == tables@.len(),
            views == table_views(tables@),
            forall|k: int| 0 <= k < order@.len() ==> #[trigger] order@[k] < tables@.len(),
            out@.len() == i,
            forall|k: int|
                0 <= k < i ==> table_view(#[trigger] out@[k]) == views[order@[k] as int],
        decreases order@.len() - i,
    {
        let k: usize = order[i];
        let t: SfntTable = (tables[k].0, tables[k].1.clone());
        proof {
            assert(table_view(t) == views[k as int]);
        }
        out.push(t);
        i += 1;
    }
    proof {
        let so = stable_order(tag_values(views), views.len() as int);
        assert(so == index_ints(order@));
        assert forall|k: int| 0 <= k < out@.len() implies #[trigger] table_views(out@)[k]
            == sorted_tables(views)[k] by {
            assert(table_view(out@[k]) == views[order@[k] as int]);
            assert(so[k] == order@[k]);
        }
        assert(table_views(out@) =~= sorted_tables(views));
    }
    out
}

/// Splices `subtables` into `font` as its `cmap`, in place of any it had, and
/// rebuilds the table directory, the checksums of the tables, and
/// `head.checkSumAdjustment`. `None` on any structural doubt about the input.
pub fn insert_cmap(font: &[u8], subtables: &[CmapSubtable]) -> (r: Option<Vec<u8>>)
    requires
        forall|k: int| 0 <= k < subtables@.len() ==> codes_fit(#[trigger] subtables@[k]@),
    ensures
        match r {
            Some(out) => with_cmap(font@, cmap_views(subtables@)) == Some(out@),
            None => with_cmap(font@, cmap_views(subtables@)) is None,
        },
{
    let (sfnt_version, tables) = parse_tables(font)?;
    let cmap = build_cmap_table(subtables)?;
    let tag: [u8; 4] = [0x63, 0x6D, 0x61, 0x70];
    proof {
        assert(tag@ =~= cmap_tag());
    }
    let mut kept = drop_tables(tables, &tag);
    let ghost before = kept@;
    kept.push((tag, cmap));
    proof {
        assert(table_views(kept@) =~= table_views(before).push((cmap_tag(), cmap@)));
    }
    assemble_sfnt(sfnt_version, sort_tables(&kept))
}

} // verus!
