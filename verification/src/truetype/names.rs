//! Neutralising the subset tags that a producer left in the `name` table.

use crate::bytes::{be16_at, be32_at, be32_bytes, overwrite, push_be32, same_bytes, splice, to_vec};
use crate::truetype::cmap::{be16, find_table, record_range, table_range, table_range_from};
use crate::truetype::laws::adjusted_checksum;
use crate::truetype::sfnt::{adjustment_for, checksum, head_tag, table_checksum};
use vstd::prelude::*;

verus! {

/// The four bytes of the tag `name`.
pub open spec fn name_tag() -> Seq<u8> {
    seq![0x6Eu8, 0x61, 0x6D, 0x65]
}

/// `A` to `Z`.
pub open spec fn is_upper(b: u8) -> bool {
    0x41 <= b <= 0x5A
}

/// A one-byte subset tag ends at `i`: six capitals, then `+`.
pub open spec fn tag8_at(name: Seq<u8>, i: int) -> bool {
    &&& 6 <= i < name.len()
    &&& name[i] == 0x2B
    &&& is_upper(name[i - 6]) && is_upper(name[i - 5]) && is_upper(name[i - 4]) && is_upper(
        name[i - 3],
    ) && is_upper(name[i - 2]) && is_upper(name[i - 1])
}

/// A UTF-16BE subset tag ends at `i`: six capitals, then `+`, each after a
/// zero byte.
pub open spec fn tag16_at(name: Seq<u8>, i: int) -> bool {
    &&& 13 <= i < name.len()
    &&& name[i] == 0x2B
    &&& name[i - 1] == 0
    &&& name[i - 13] == 0 && name[i - 11] == 0 && name[i - 9] == 0 && name[i - 7] == 0 && name[i
        - 5] == 0 && name[i - 3] == 0
    &&& is_upper(name[i - 12]) && is_upper(name[i - 10]) && is_upper(name[i - 8]) && is_upper(
        name[i - 6],
    ) && is_upper(name[i - 4]) && is_upper(name[i - 2])
}

/// Byte `j` is a letter of a subset tag that ends at `i`.
pub open spec fn tag_letter(name: Seq<u8>, i: int, j: int) -> bool {
    ||| tag8_at(name, i) && i - 6 <= j < i
    ||| tag16_at(name, i) && (j == i - 12 || j == i - 10 || j == i - 8 || j == i - 6 || j == i - 4
        || j == i - 2)
}

/// Byte `j` is a letter of a subset tag that ends before `hi`.
pub open spec fn masked_before(name: Seq<u8>, hi: int, j: int) -> bool {
    exists|i: int| 0 <= i < hi && #[trigger] tag_letter(name, i, j)
}

/// `name` with the letters of the subset tags that end before `hi` replaced
/// by `A`.
pub open spec fn mask_upto(name: Seq<u8>, hi: int) -> Seq<u8> {
    Seq::new(
        name.len(),
        |j: int|
            if masked_before(name, hi, j) {
                0x41u8
            } else {
                name[j]
            },
    )
}

/// `name` with every subset tag replaced by `AAAAAA`.
pub open spec fn masked_name(name: Seq<u8>) -> Seq<u8> {
    mask_upto(name, name.len() as int)
}

/// Rewrites the checksum in each directory record of `name`, from record `i`
/// on; `None` where the directory leaves the font.
pub open spec fn fix_name_records(font: Seq<u8>, off: int, len: int, i: int, count: int) -> Option<
    Seq<u8>,
>
    decreases count - i,
{
    let rec = 12 + i * 16;
    if i >= count {
        Some(font)
    } else if rec + 4 > font.len() {
        None
    } else if font.subrange(rec, rec + 4) != name_tag() {
        fix_name_records(font, off, len, i + 1, count)
    } else if rec + 8 > font.len() {
        None
    } else {
        fix_name_records(
            splice(font, rec + 4, be32_bytes(checksum(font.subrange(off, off + len)) as int)),
            off,
            len,
            i + 1,
            count,
        )
    }
}

/// `font` with its checksum adjustment, the field at `at`, made right.
pub open spec fn readjusted(font: Seq<u8>, at: int) -> Seq<u8> {
    let zeroed = splice(font, at, seq![0u8, 0, 0, 0]);
    splice(zeroed, at, be32_bytes(adjustment_for(zeroed)))
}

/// The font with its subset tags masked and the checksums repaired.
pub open spec fn masked_font(font: Seq<u8>) -> Option<Seq<u8>> {
    match (table_range(font, name_tag()), table_range(font, head_tag())) {
        (Some(name), Some(head)) => {
            let old_name = font.subrange(name.0, name.0 + name.1);
            let changed = splice(font, name.0, masked_name(old_name));
            if head.1 < 12 {
                None
            } else if masked_name(old_name) == old_name {
                Some(font)
            } else {
                match be16_at(changed, 4) {
                    Some(count) => match fix_name_records(
                        changed,
                        name.0,
                        name.1,
                        0,
                        count as int,
                    ) {
                        Some(fixed) => Some(readjusted(fixed, head.0 + 8)),
                        None => None,
                    },
                    None => None,
                }
            }
        },
        _ => None,
    }
}

/// Masking letters with `A` neither makes nor breaks a tag.
proof fn lemma_mask_keeps_tags(name: Seq<u8>, hi: int, i: int)
    requires
        0 <= hi <= name.len(),
    ensures
        tag8_at(mask_upto(name, hi), i) == tag8_at(name, i),
        tag16_at(mask_upto(name, hi), i) == tag16_at(name, i),
{
    let cur = mask_upto(name, hi);
    assert forall|j: int| 0 <= j < name.len() implies (#[trigger] cur[j] == name[j] || (cur[j]
        == 0x41 && is_upper(name[j]))) by {
        if masked_before(name, hi, j) {
            let k = choose|k: int| 0 <= k < hi && #[trigger] tag_letter(name, k, j);
            assert(tag_letter(name, k, j));
        }
    }
    assert forall|j: int| 0 <= j < name.len() implies is_upper(#[trigger] cur[j]) == is_upper(
        name[j],
    ) by {}
    assert forall|j: int| 0 <= j < name.len() implies (#[trigger] cur[j] == 0) == (name[j] == 0)
        && (cur[j] == 0x2B) == (name[j] == 0x2B) by {}
}

/// One more position changes the letters of the tag that ends there.
proof fn lemma_mask_step(name: Seq<u8>, i: int)
    requires
        0 <= i < name.len(),
    ensures
        forall|j: int|
            0 <= j < name.len() ==> #[trigger] mask_upto(name, i + 1)[j] == if tag_letter(
                name,
                i,
                j,
            ) {
                0x41u8
            } else {
                mask_upto(name, i)[j]
            },
{
    assert forall|j: int| 0 <= j < name.len() implies masked_before(name, i + 1, j) == (tag_letter(
        name,
        i,
        j,
    ) || masked_before(name, i, j)) by {
        if masked_before(name, i + 1, j) {
            let k = choose|k: int| 0 <= k < i + 1 && #[trigger] tag_letter(name, k, j);
            if k < i {
                assert(masked_before(name, i, j));
            }
        }
        if masked_before(name, i, j) {
            let k = choose|k: int| 0 <= k < i && #[trigger] tag_letter(name, k, j);
            assert(tag_letter(name, k, j) && k < i + 1);
        }
        if tag_letter(name, i, j) {
            assert(i < i + 1);
        }
    }
}

/// Whether `b` is a capital letter.
fn upper(b: u8) -> (r: bool)
    ensures
        r == is_upper(b),
{
    0x41 <= b && b <= 0x5A
}

/// Replaces the letters of every subset tag in a `name` table by `A`.
fn mask_name(name: &[u8]) -> (r: Vec<u8>)
    ensures
        r@ == masked_name(name@),
{
    let mut out = to_vec(name);
    let n: usize = out.len();
    let mut i: usize = 0;
    proof {
        assert(out@ =~= mask_upto(name@, 0));
    }
    while i < n
        invariant
            i <= n,
            n == name@.len(),
            out@ == mask_upto(name@, i as int),
        decreases n - i,
    {
        proof {
            lemma_mask_keeps_tags(name@, i as int, i as int);
            lemma_mask_step(name@, i as int);
        }
        if out[i] == 0x2B && i >= 6 && upper(out[i - 6]) && upper(out[i - 5]) && upper(out[i - 4])
            && upper(out[i - 3]) && upper(out[i - 2]) && upper(out[i - 1]) {
            out.set(i - 6, 0x41);
            out.set(i - 5, 0x41);
            out.set(i - 4, 0x41);
            out.set(i - 3, 0x41);
            out.set(i - 2, 0x41);
            out.set(i - 1, 0x41);
            proof {
                assert(tag8_at(name@, i as int));
                assert(!tag16_at(name@, i as int));
            }
        } else if out[i] == 0x2B && i >= 13 && out[i - 1] == 0 && out[i - 13] == 0 && out[i - 11]
            == 0 && out[i - 9] == 0 && out[i - 7] == 0 && out[i - 5] == 0 && out[i - 3] == 0
            && upper(out[i - 12]) && upper(out[i - 10]) && upper(out[i - 8]) && upper(out[i - 6])
            && upper(out[i - 4]) && upper(out[i - 2]) {
            out.set(i - 12, 0x41);
            out.set(i - 10, 0x41);
            out.set(i - 8, 0x41);
            out.set(i - 6, 0x41);
            out.set(i - 4, 0x41);
            out.set(i - 2, 0x41);
            proof {
                assert(tag16_at(name@, i as int));
                assert(!tag8_at(name@, i as int));
            }
        } else {
            proof {
                assert(!tag16_at(name@, i as int));
                assert(!tag8_at(name@, i as int));
            }
        }
        i += 1;
        proof {
            assert(out@ =~= mask_upto(name@, i as int));
        }
    }
    out
}

/// Rewrites the checksum in each directory record of `name`.
fn repair_name_records(out: &mut Vec<u8>, off: usize, len: usize, count: usize) -> (r: bool)
    requires
        off + len <= old(out)@.len(),
        count <= 0xFFFF,
    ensures
        match fix_name_records(old(out)@, off as int, len as int, 0, count as int) {
            Some(fixed) => r && final(out)@ == fixed,
            None => !r,
        },
        final(out)@.len() == old(out)@.len(),
{
    let mut i: usize = 0;
    let total: usize = out.len();
    let ghost goal = fix_name_records(out@, off as int, len as int, 0, count as int);
    while i < count
        invariant
            i <= count <= 0xFFFF,
            total == out@.len() == old(out)@.len(),
            off + len <= total,
            goal == fix_name_records(old(out)@, off as int, len as int, 0, count as int),
            goal == fix_name_records(out@, off as int, len as int, i as int, count as int),
        decreases count - i,
    {
        let rec: usize = 12 + i * 16;
        if rec + 4 > total {
            return false;
        }
        let is_name = out[rec] == 0x6E && out[rec + 1] == 0x61 && out[rec + 2] == 0x6D && out[rec
            + 3] == 0x65;
        proof {
            let part = out@.subrange(rec as int, rec + 4);
            if is_name {
                assert(part =~= name_tag());
            } else {
                assert(part[0] != 0x6E || part[1] != 0x61 || part[2] != 0x6D || part[3] != 0x65);
                assert(name_tag()[0] == 0x6E && name_tag()[1] == 0x61 && name_tag()[2] == 0x6D
                    && name_tag()[3] == 0x65);
            }
        }
        if is_name {
            if rec + 8 > total {
                return false;
            }
            let sum: u32 = table_checksum(
                vstd::slice::slice_subrange(out.as_slice(), off, off + len),
            );
            let mut field: Vec<u8> = Vec::new();
            push_be32(&mut field, sum);
            proof {
                assert(field@ =~= be32_bytes(sum as int));
            }
            overwrite(out, rec + 4, field.as_slice());
        }
        i += 1;
    }
    true
}

/// Makes the checksum adjustment, the field at `at`, right.
fn readjust(out: &mut Vec<u8>, at: usize)
    requires
        at + 4 <= old(out)@.len(),
    ensures
        final(out)@ == readjusted(old(out)@, at as int),
{
    let zeros: [u8; 4] = [0, 0, 0, 0];
    proof {
        assert(zeros@ =~= seq![0u8, 0, 0, 0]);
    }
    overwrite(out, at, zeros.as_slice());
    let adjustment: u32 = 0xB1B0_AFBAu32.wrapping_sub(table_checksum(out.as_slice()));
    let mut field: Vec<u8> = Vec::new();
    push_be32(&mut field, adjustment);
    proof {
        assert(field@ =~= be32_bytes(adjustment as int));
    }
    overwrite(out, at, field.as_slice());
}

/// Neutralises the six-letter `ABCDEF+` subset tags that the producer left
/// in the string storage of the `name` table, replacing each by `AAAAAA`, in
/// one-byte and in UTF-16BE strings.
///
/// Two embeds of the same subset of the same font differ only in those
/// letters and in `head.checkSumAdjustment`, which the letters perturb; the
/// mask makes them byte-equal. Names play no part in rendering an embedded
/// font. `None` on any structural doubt: the caller then keeps the font.
pub fn mask_subset_tags(font: &[u8]) -> (r: Option<Vec<u8>>)
    ensures
        match r {
            Some(out) => masked_font(font@) == Some(out@),
            None => masked_font(font@) is None,
        },
{
    let name: [u8; 4] = [0x6E, 0x61, 0x6D, 0x65];
    let head: [u8; 4] = [0x68, 0x65, 0x61, 0x64];
    proof {
        assert(name@ =~= name_tag());
        assert(head@ =~= head_tag());
    }
    let (name_off, name_len) = find_table(font, &name)?;
    let (head_off, head_len) = find_table(font, &head)?;
    if head_len < 12 {
        return None;
    }
    let old_name = vstd::slice::slice_subrange(font, name_off, name_off + name_len);
    let new_name = mask_name(old_name);
    let mut out = to_vec(font);
    if same_bytes(new_name.as_slice(), old_name) {
        return Some(out);
    }
    overwrite(&mut out, name_off, new_name.as_slice());
    let count: usize = be16(out.as_slice(), 4)? as usize;
    if !repair_name_records(&mut out, name_off, name_len, count) {
        return None;
    }
    readjust(&mut out, head_off + 8);
    Some(out)
}

/// Where two `name` tables differ only in the letters of their subset tags,
/// masking makes them equal.
pub proof fn masking_unifies_names(a: Seq<u8>, b: Seq<u8>)
    requires
        a.len() == b.len(),
        forall|i: int| #![trigger tag8_at(a, i)] tag8_at(a, i) == tag8_at(b, i),
        forall|i: int| #![trigger tag16_at(a, i)] tag16_at(a, i) == tag16_at(b, i),
        forall|j: int|
            0 <= j < a.len() && !masked_before(a, a.len() as int, j) ==> #[trigger] a[j] == b[j],
    ensures
        masked_name(a) == masked_name(b),
{
    assert forall|j: int| 0 <= j < a.len() implies masked_name(a)[j] == masked_name(b)[j] by {
        if masked_before(a, a.len() as int, j) {
            let i = choose|i: int| 0 <= i < a.len() && #[trigger] tag_letter(a, i, j);
            assert(tag8_at(a, i) == tag8_at(b, i) && tag16_at(a, i) == tag16_at(b, i));
            assert(tag_letter(b, i, j));
        } else {
            if masked_before(b, b.len() as int, j) {
                let i = choose|i: int| 0 <= i < b.len() && #[trigger] tag_letter(b, i, j);
                assert(tag8_at(a, i) == tag8_at(b, i) && tag16_at(a, i) == tag16_at(b, i));
                assert(tag_letter(a, i, j));
            }
        }
    }
    assert(masked_name(a) =~= masked_name(b));
}

/// Masking an already masked `name` table changes nothing.
pub proof fn masking_is_idempotent(name: Seq<u8>)
    ensures
        masked_name(masked_name(name)) == masked_name(name),
{
    let once = masked_name(name);
    assert forall|j: int| 0 <= j < name.len() implies masked_name(once)[j] == once[j] by {
        if masked_before(once, once.len() as int, j) {
            let i = choose|i: int| 0 <= i < once.len() && #[trigger] tag_letter(once, i, j);
            lemma_mask_keeps_tags(name, name.len() as int, i);
            assert(tag_letter(name, i, j));
        }
    }
    assert(masked_name(once) =~= once);
}

// --- what masking does to a whole font -------------------------------------------------------

/// Directory record `j` is that of a `name` table.
pub open spec fn name_record(font: Seq<u8>, j: int) -> bool {
    font.subrange(12 + j * 16, 16 + j * 16) == name_tag()
}

/// Byte `p` belongs to the checksum of a `name` table in the directory, in one
/// of the records from `i` on, of `count`.
pub open spec fn sum_field(font: Seq<u8>, i: int, count: int, p: int) -> bool {
    exists|j: int| i <= j < count && 16 + j * 16 <= p < 20 + j * 16 && #[trigger]
        name_record(font, j)
}

/// The font has a `name` and a `head` table, both behind the directory, and
/// the checksum adjustment is no part of the names.
pub open spec fn apart(font: Seq<u8>) -> bool {
    match (be16_at(font, 4), table_range(font, name_tag()), table_range(font, head_tag())) {
        (Some(count), Some(name), Some(head)) => {
            &&& 12 + 16 * count <= name.0
            &&& 12 + 16 * count <= head.0
            &&& head.1 >= 12
            &&& name.0 + name.1 <= head.0 + 8 || head.0 + 12 <= name.0
        },
        _ => false,
    }
}

/// The `name` table.
pub open spec fn names_part(font: Seq<u8>) -> Seq<u8> {
    let name = table_range(font, name_tag())->0;
    font.subrange(name.0, name.0 + name.1)
}

/// Byte `p` is a letter of a subset tag, or belongs to a checksum that those
/// letters perturb.
pub open spec fn tag_or_sum(font: Seq<u8>, p: int) -> bool {
    let name = table_range(font, name_tag())->0;
    let head = table_range(font, head_tag())->0;
    ||| name.0 <= p < name.0 + name.1 && masked_before(names_part(font), name.1, p - name.0)
    ||| sum_field(font, 0, be16_at(font, 4)->0 as int, p)
    ||| head.0 + 8 <= p < head.0 + 12
}

/// Two fonts have their subset tags in the same places and differ only in the
/// letters of those and in the checksums that the letters perturb.
pub open spec fn same_but_tags(a: Seq<u8>, b: Seq<u8>) -> bool {
    let name = table_range(a, name_tag())->0;
    let other = b.subrange(name.0, name.0 + name.1);
    &&& a.len() == b.len()
    &&& forall|p: int| 0 <= p < a.len() && #[trigger] a[p] != b[p] ==> tag_or_sum(a, p)
    &&& forall|i: int| #[trigger] tag8_at(names_part(a), i) == tag8_at(other, i)
    &&& forall|i: int| #[trigger] tag16_at(names_part(a), i) == tag16_at(other, i)
}

/// The checksums of the `name` table and of the whole font are right.
pub open spec fn sums_right(font: Seq<u8>) -> bool {
    let name = table_range(font, name_tag())->0;
    let head = table_range(font, head_tag())->0;
    &&& fix_name_records(font, name.0, name.1, 0, be16_at(font, 4)->0 as int) == Some(font)
    &&& readjusted(font, head.0 + 8) == font
}

proof fn lemma_range_inside(font: Seq<u8>, tag: Seq<u8>, i: int, count: int)
    ensures
        table_range_from(font, tag, i, count) is Some ==> ({
            let r = table_range_from(font, tag, i, count)->0;
            0 <= r.0 && 0 <= r.1 && r.0 + r.1 <= font.len()
        }),
    decreases count - i,
{
    if i < count {
        lemma_range_inside(font, tag, i + 1, count);
    }
}

/// Fonts that differ in no tag of the directory have the same tags.
proof fn lemma_same_record(a: Seq<u8>, b: Seq<u8>, i: int, count: int, end: int, j: int)
    requires
        a.len() == b.len(),
        12 + 16 * count <= end <= a.len(),
        forall|p: int| 0 <= p < end && #[trigger] a[p] != b[p] ==> sum_field(a, i, count, p),
        0 <= j < count,
    ensures
        a.subrange(12 + j * 16, 16 + j * 16) == b.subrange(12 + j * 16, 16 + j * 16),
        name_record(a, j) == name_record(b, j),
        record_range(a, 12 + j * 16) == record_range(b, 12 + j * 16),
{
    assert forall|q: int|
        12 + j * 16 <= q < 16 + j * 16 || 20 + j * 16 <= q < 28 + j * 16 implies #[trigger] a[q]
        == b[q] by {
        if a[q] != b[q] {
            let k = choose|k: int|
                i <= k < count && 16 + k * 16 <= q < 20 + k * 16 && #[trigger] name_record(a, k);
            assert(k == j || k < j || k > j);
        }
    }
    assert(a.subrange(12 + j * 16, 16 + j * 16) =~= b.subrange(12 + j * 16, 16 + j * 16));
}

proof fn lemma_same_ranges(a: Seq<u8>, b: Seq<u8>, tag: Seq<u8>, i: int, count: int)
    requires
        a.len() == b.len(),
        0 <= i,
        12 + 16 * count <= a.len(),
        forall|p: int|
            0 <= p < 12 + 16 * count && #[trigger] a[p] != b[p] ==> sum_field(a, 0, count, p),
    ensures
        table_range_from(a, tag, i, count) == table_range_from(b, tag, i, count),
    decreases count - i,
{
    if i < count {
        lemma_same_record(a, b, 0, count, 12 + 16 * count, i);
        lemma_same_ranges(a, b, tag, i + 1, count);
    }
}

/// Fonts that differ in their tags and sums alone have the same layout.
proof fn lemma_same_layout(a: Seq<u8>, b: Seq<u8>)
    requires
        apart(a),
        a.len() == b.len(),
        forall|p: int| 0 <= p < a.len() && #[trigger] a[p] != b[p] ==> ({
            let name = table_range(a, name_tag())->0;
            ||| tag_or_sum(a, p)
            ||| name.0 <= p < name.0 + name.1
        }),
    ensures
        be16_at(b, 4) == be16_at(a, 4),
        table_range(b, name_tag()) == table_range(a, name_tag()),
        table_range(b, head_tag()) == table_range(a, head_tag()),
        apart(b),
{
    let count = be16_at(a, 4)->0 as int;
    let name = table_range(a, name_tag())->0;
    lemma_range_inside(a, name_tag(), 0, count);
    lemma_range_inside(a, head_tag(), 0, count);
    assert forall|p: int| 0 <= p < 12 + 16 * count && #[trigger] a[p] != b[p] implies sum_field(
        a,
        0,
        count,
        p,
    ) by {
        assert(tag_or_sum(a, p));
    }
    assert(a[4] == b[4]) by {
        if a[4] != b[4] {
            assert(sum_field(a, 0, count, 4));
        }
    }
    assert(a[5] == b[5]) by {
        if a[5] != b[5] {
            assert(sum_field(a, 0, count, 5));
        }
    }
    lemma_same_ranges(a, b, name_tag(), 0, count);
    lemma_same_ranges(a, b, head_tag(), 0, count);
}

/// Repairing the directory changes nothing but the checksums of `name`, and
/// fonts that differ there alone, but for four bytes, come out alike.
proof fn lemma_fixed(
    x: Seq<u8>,
    y: Seq<u8>,
    off: int,
    len: int,
    i: int,
    count: int,
    h: int,
)
    requires
        x.len() == y.len(),
        0 <= i <= count,
        12 + 16 * count <= off,
        0 <= len,
        off + len <= x.len(),
        12 + 16 * count <= h,
        x.subrange(off, off + len) == y.subrange(off, off + len),
        forall|p: int| 0 <= p < x.len() && #[trigger] x[p] != y[p] ==> sum_field(x, i, count, p)
            || h <= p < h + 4,
    ensures
        fix_name_records(x, off, len, i, count) is Some,
        fix_name_records(y, off, len, i, count) is Some,
        ({
            let (f, g) = (
                fix_name_records(x, off, len, i, count)->0,
                fix_name_records(y, off, len, i, count)->0,
            );
            &&& f.len() == x.len() && g.len() == x.len()
            &&& forall|p: int| 0 <= p < x.len() && #[trigger] f[p] != g[p] ==> h <= p < h + 4
            &&& forall|p: int| 0 <= p < x.len() && #[trigger] f[p] != x[p] ==> sum_field(
                x,
                i,
                count,
                p,
            )
        }),
    decreases count - i,
{
    if i < count {
        let rec = 12 + i * 16;
        assert forall|p: int| 0 <= p < 12 + 16 * count && #[trigger] x[p] != y[p] implies sum_field(
            x,
            i,
            count,
            p,
        ) by {}
        lemma_same_record(x, y, i, count, 12 + 16 * count, i);
        assert(x.subrange(rec, rec + 4) == y.subrange(rec, rec + 4));
        let named = name_record(x, i);
        let field = be32_bytes(checksum(x.subrange(off, off + len)) as int);
        let nx = if named {
            splice(x, rec + 4, field)
        } else {
            x
        };
        let ny = if named {
            splice(y, rec + 4, field)
        } else {
            y
        };
        assert(nx.len() == x.len() && ny.len() == y.len());
        assert(nx.subrange(off, off + len) =~= x.subrange(off, off + len));
        assert(ny.subrange(off, off + len) =~= y.subrange(off, off + len));
        assert forall|p: int| 0 <= p < x.len() && #[trigger] nx[p] != x[p] implies sum_field(
            x,
            i,
            count,
            p,
        ) by {
            assert(named && rec + 4 <= p < rec + 8);
        }
        assert forall|j: int| 0 <= j < count implies #[trigger] name_record(nx, j) == name_record(
            x,
            j,
        ) by {
            assert forall|p: int| 0 <= p < 12 + 16 * count && #[trigger] x[p] != nx[p] implies
                sum_field(x, i, count, p) by {
                assert(nx[p] != x[p]);
            }
            lemma_same_record(x, nx, i, count, 12 + 16 * count, j);
        }
        assert forall|p: int| 0 <= p < x.len() && #[trigger] nx[p] != ny[p] implies sum_field(
            nx,
            i + 1,
            count,
            p,
        ) || h <= p < h + 4 by {
            assert(x[p] != y[p]);
            if !(h <= p < h + 4) {
                let j = choose|j: int|
                    i <= j < count && 16 + j * 16 <= p < 20 + j * 16 && #[trigger] name_record(
                        x,
                        j,
                    );
                assert(name_record(nx, j));
                assert(j != i);
            }
        }
        lemma_fixed(nx, ny, off, len, i + 1, count, h);
        let f = fix_name_records(nx, off, len, i + 1, count)->0;
        assert forall|p: int| 0 <= p < x.len() && #[trigger] f[p] != x[p] implies sum_field(
            x,
            i,
            count,
            p,
        ) by {
            if f[p] != nx[p] {
                let j = choose|j: int|
                    i + 1 <= j < count && 16 + j * 16 <= p < 20 + j * 16 && #[trigger] name_record(
                        nx,
                        j,
                    );
                assert(name_record(x, j));
            } else {
                assert(nx[p] != x[p]);
            }
        }
    }
}

/// The font with its names masked, before the checksums are repaired.
spec fn names_masked(font: Seq<u8>) -> Seq<u8> {
    splice(font, (table_range(font, name_tag())->0).0, masked_name(names_part(font)))
}

/// A masked font where there is something to mask or the sums are right: the
/// names are masked and the sums repaired.
proof fn lemma_masked(font: Seq<u8>)
    requires
        apart(font),
    ensures
        ({
            let count = be16_at(font, 4)->0 as int;
            let name = table_range(font, name_tag())->0;
            let head = table_range(font, head_tag())->0;
            let changed = names_masked(font);
            &&& 0 <= name.1 && name.0 + name.1 <= font.len()
            &&& head.0 + head.1 <= font.len()
            &&& names_part(font).len() == name.1
            &&& masked_name(names_part(font)).len() == name.1
            &&& changed.len() == font.len()
            &&& changed.subrange(name.0, name.0 + name.1) == masked_name(names_part(font))
            &&& forall|p: int| 0 <= p < font.len() && #[trigger] changed[p] != font[p] ==> name.0
                <= p < name.0 + name.1 && masked_before(names_part(font), name.1, p - name.0)
            &&& be16_at(changed, 4) == be16_at(font, 4)
            &&& masked_name(names_part(font)) == names_part(font) ==> changed == font
        }),
{
    let count = be16_at(font, 4)->0 as int;
    let name = table_range(font, name_tag())->0;
    lemma_range_inside(font, name_tag(), 0, count);
    lemma_range_inside(font, head_tag(), 0, count);
    let changed = names_masked(font);
    assert(changed.subrange(name.0, name.0 + name.1) =~= masked_name(names_part(font)));
    if masked_name(names_part(font)) == names_part(font) {
        assert(changed =~= font);
    }
}

/// What a masked font is: the names are masked, and nothing else but sums
/// changes.
proof fn lemma_masked_parts(font: Seq<u8>)
    requires
        apart(font),
    ensures
        masked_font(font) is Some,
        same_but_tags(font, masked_font(font)->0),
        ({
            let name = table_range(font, name_tag())->0;
            (masked_font(font)->0).subrange(name.0, name.0 + name.1) == masked_name(
                names_part(font),
            )
        }),
{
    let count = be16_at(font, 4)->0 as int;
    let name = table_range(font, name_tag())->0;
    let head = table_range(font, head_tag())->0;
    let changed = names_masked(font);
    let old = names_part(font);
    lemma_masked(font);
    if masked_name(old) != old {
        lemma_fixed(changed, changed, name.0, name.1, 0, count, head.0 + 8);
        let fixed = fix_name_records(changed, name.0, name.1, 0, count)->0;
        let r = readjusted(fixed, head.0 + 8);
        assert(masked_font(font) == Some(r));
        assert(r.len() == font.len());
        assert forall|p: int| 0 <= p < font.len() && #[trigger] font[p] != r[p] implies tag_or_sum(
            font,
            p,
        ) by {
            if !(head.0 + 8 <= p < head.0 + 12) {
                assert(r[p] == fixed[p]);
                if fixed[p] != changed[p] {
                    let j = choose|j: int|
                        0 <= j < count && 16 + j * 16 <= p < 20 + j * 16 && #[trigger] name_record(
                            changed,
                            j,
                        );
                    assert(changed.subrange(12 + j * 16, 16 + j * 16) =~= font.subrange(
                        12 + j * 16,
                        16 + j * 16,
                    ));
                    assert(name_record(font, j));
                } else {
                    assert(changed[p] != font[p]);
                }
            }
        }
        let new = r.subrange(name.0, name.0 + name.1);
        assert(new =~= masked_name(old)) by {
            assert forall|q: int| 0 <= q < name.1 implies new[q] == masked_name(old)[q] by {
                let p = name.0 + q;
                assert(r[p] == fixed[p]);
                assert(!sum_field(changed, 0, count, p));
                assert(fixed[p] == changed[p]);
                assert(changed.subrange(name.0, name.0 + name.1)[q] == changed[p]);
            }
        }
        assert forall|i: int| #[trigger] tag8_at(old, i) == tag8_at(new, i) by {
            lemma_mask_keeps_tags(old, old.len() as int, i);
        }
        assert forall|i: int| #[trigger] tag16_at(old, i) == tag16_at(new, i) by {
            lemma_mask_keeps_tags(old, old.len() as int, i);
        }
    }
}

/// Masking a font changes nothing but the letters of its subset tags and the
/// checksums that they perturb.
pub proof fn masking_changes_tags_alone(font: Seq<u8>)
    requires
        apart(font),
    ensures
        masked_font(font) is Some,
        same_but_tags(font, masked_font(font)->0),
{
    lemma_masked_parts(font);
}

/// Masking a masked font changes nothing.
pub proof fn masking_a_font_is_idempotent(font: Seq<u8>)
    requires
        apart(font),
    ensures
        masked_font(masked_font(font)->0) == masked_font(font),
{
    lemma_masked_parts(font);
    lemma_same_layout(font, masked_font(font)->0);
    masking_is_idempotent(names_part(font));
}

/// What masking gives where there is something to mask or the sums are right.
proof fn lemma_masked_form(font: Seq<u8>)
    requires
        apart(font),
        masked_name(names_part(font)) != names_part(font) || sums_right(font),
    ensures
        ({
            let count = be16_at(font, 4)->0 as int;
            let name = table_range(font, name_tag())->0;
            let head = table_range(font, head_tag())->0;
            let fixed = fix_name_records(names_masked(font), name.0, name.1, 0, count);
            fixed is Some && masked_font(font) == Some(readjusted(fixed->0, head.0 + 8))
        }),
{
    let count = be16_at(font, 4)->0 as int;
    let name = table_range(font, name_tag())->0;
    let head = table_range(font, head_tag())->0;
    let changed = names_masked(font);
    lemma_masked(font);
    lemma_fixed(changed, changed, name.0, name.1, 0, count, head.0 + 8);
}

/// Two embeds of a font that differ only in the letters of their subset tags,
/// and in the checksums that those perturb, become the same bytes. A font
/// that is masked already has to carry the right checksums.
pub proof fn masking_unifies_fonts(a: Seq<u8>, b: Seq<u8>)
    requires
        apart(a),
        same_but_tags(a, b),
        masked_name(names_part(a)) != names_part(a) || sums_right(a),
        masked_name(names_part(b)) != names_part(b) || sums_right(b),
    ensures
        masked_font(a) is Some,
        masked_font(a) == masked_font(b),
{
    let count = be16_at(a, 4)->0 as int;
    let name = table_range(a, name_tag())->0;
    let head = table_range(a, head_tag())->0;
    lemma_same_layout(a, b);
    lemma_masked(a);
    lemma_masked(b);
    lemma_masked_form(a);
    lemma_masked_form(b);
    let (na, nb) = (names_part(a), names_part(b));
    assert forall|j: int|
        0 <= j < na.len() && !masked_before(na, na.len() as int, j) implies #[trigger] na[j]
        == nb[j] by {
        let p = name.0 + j;
        if a[p] != b[p] {
            assert(tag_or_sum(a, p));
            assert(!sum_field(a, 0, count, p));
        }
    }
    masking_unifies_names(na, nb);
    let (x, y) = (names_masked(a), names_masked(b));
    assert(x.subrange(name.0, name.0 + name.1) == y.subrange(name.0, name.0 + name.1));
    assert forall|p: int| 0 <= p < x.len() && #[trigger] x[p] != y[p] implies sum_field(
        x,
        0,
        count,
        p,
    ) || head.0 + 8 <= p < head.0 + 8 + 4 by {
        if name.0 <= p < name.0 + name.1 {
            assert(x.subrange(name.0, name.0 + name.1)[p - name.0] == y.subrange(
                name.0,
                name.0 + name.1,
            )[p - name.0]);
        } else {
            assert(x[p] == a[p] && y[p] == b[p]);
            assert(tag_or_sum(a, p));
            if sum_field(a, 0, count, p) {
                let j = choose|j: int|
                    0 <= j < count && 16 + j * 16 <= p < 20 + j * 16 && #[trigger] name_record(
                        a,
                        j,
                    );
                assert(x.subrange(12 + j * 16, 16 + j * 16) =~= a.subrange(
                    12 + j * 16,
                    16 + j * 16,
                ));
                assert(name_record(x, j));
            }
        }
    }
    lemma_fixed(x, y, name.0, name.1, 0, count, head.0 + 8);
    let f = fix_name_records(x, name.0, name.1, 0, count)->0;
    let g = fix_name_records(y, name.0, name.1, 0, count)->0;
    let zero = seq![0u8, 0, 0, 0];
    assert(splice(f, head.0 + 8, zero) =~= splice(g, head.0 + 8, zero));
}

/// The checksum of a font whose tags were masked is the one that the format
/// asks for, where `head` stands at a multiple of four, as it has to.
pub proof fn masked_font_has_its_checksum(font: Seq<u8>)
    requires
        apart(font),
        (table_range(font, head_tag())->0).0 % 4 == 0,
        masked_name(names_part(font)) != names_part(font),
    ensures
        masked_font(font) is Some,
        checksum(masked_font(font)->0) == 0xB1B0_AFBA,
{
    let count = be16_at(font, 4)->0 as int;
    let name = table_range(font, name_tag())->0;
    let head = table_range(font, head_tag())->0;
    let changed = names_masked(font);
    lemma_masked(font);
    lemma_masked_form(font);
    lemma_fixed(changed, changed, name.0, name.1, 0, count, head.0 + 8);
    let fixed = fix_name_records(changed, name.0, name.1, 0, count)->0;
    let zeroed = splice(fixed, head.0 + 8, seq![0u8, 0, 0, 0]);
    assert(be32_at(zeroed, head.0 + 8) == Some(0u32));
    adjusted_checksum(zeroed, head.0 + 8);
}

} // verus!
