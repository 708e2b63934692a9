//! Replacing byte ranges of a file, and following what that does to byte
//! offsets recorded in it.

use crate::text::{parse_word, split_words, views, word_value, words};
use vstd::prelude::*;

verus! {

/// One byte-range replacement.
pub struct Edit {
    pub at: usize,
    pub len: usize,
    pub text: Vec<u8>,
}

/// The content of an [`Edit`].
pub struct EditValue {
    pub at: int,
    pub len: int,
    pub text: Seq<u8>,
}

impl View for Edit {
    type V = EditValue;

    open spec fn view(&self) -> EditValue {
        EditValue { at: self.at as int, len: self.len as int, text: self.text@ }
    }
}

/// The contents of a list of edits.
pub open spec fn edit_views(edits: Seq<Edit>) -> Seq<EditValue> {
    edits.map_values(|e: Edit| e@)
}

/// The edits stand in order, do not overlap, and lie inside `len` bytes.
pub open spec fn edits_fit(edits: Seq<EditValue>, len: int) -> bool {
    &&& forall|i: int|
        0 <= i < edits.len() ==> 0 <= (#[trigger] edits[i]).at && 0 <= edits[i].len && edits[i].at
            + edits[i].len <= len
    &&& forall|i: int, j: int|
        0 <= i < j < edits.len() ==> (#[trigger] edits[i]).at + edits[i].len <= (
        #[trigger] edits[j]).at
}

/// `data` from `cursor` on with the edits from index `i` on applied.
pub open spec fn edited_from(data: Seq<u8>, edits: Seq<EditValue>, i: int, cursor: int) -> Seq<u8>
    decreases edits.len() - i,
{
    if i < 0 || i >= edits.len() {
        data.skip(cursor)
    } else {
        data.subrange(cursor, edits[i].at) + edits[i].text + edited_from(
            data,
            edits,
            i + 1,
            edits[i].at + edits[i].len,
        )
    }
}

/// `data` with all edits applied.
pub open spec fn edited(data: Seq<u8>, edits: Seq<EditValue>) -> Seq<u8> {
    edited_from(data, edits, 0, 0)
}

/// Splices `edits` (in order, without overlap) into `data`.
pub fn apply_edits(data: &[u8], edits: &[Edit]) -> (r: Vec<u8>)
    requires
        edits_fit(edit_views(edits@), data@.len() as int),
    ensures
        r@ == edited(data@, edit_views(edits@)),
{
    let ghost list = edit_views(edits@);
    let mut out: Vec<u8> = Vec::new();
    let mut cursor: usize = 0;
    let mut i: usize = 0;
    let total: usize = data.len();
    proof {
        assert(out@ + edited_from(data@, list, 0, 0) =~= edited(data@, list));
    }
    while i < edits.len()
        invariant
            i <= edits@.len(),
            total == data@.len(),
            list == edit_views(edits@),
            edits_fit(list, data@.len() as int),
            cursor <= total,
            i == 0 ==> cursor == 0,
            i > 0 ==> cursor == list[i - 1].at + list[i - 1].len,
            edited(data@, list) == out@ + edited_from(data@, list, i as int, cursor as int),
        decreases edits@.len() - i,
    {
        let ghost before = out@;
        proof {
            assert(list[i as int] == edits@[i as int]@);
            if i > 0 {
                assert(list[i - 1].at + list[i - 1].len <= list[i as int].at);
            }
        }
        let at: usize = edits[i].at;
        out.extend_from_slice(vstd::slice::slice_subrange(data, cursor, at));
        out.extend_from_slice(edits[i].text.as_slice());
        proof {
            assert(out@ =~= before + (data@.subrange(cursor as int, at as int)
                + list[i as int].text));
            assert(before + edited_from(data@, list, i as int, cursor as int) =~= out@
                + edited_from(data@, list, i + 1, at + edits@[i as int].len));
        }
        cursor = at + edits[i].len;
        i += 1;
    }
    out.extend_from_slice(vstd::slice::slice_subrange(data, cursor, total));
    proof {
        assert(data@.subrange(cursor as int, total as int) =~= data@.skip(cursor as int));
        assert(out@ =~= edited(data@, list));
    }
    out
}

/// By how much the first `n` edits lengthen what they are applied to.
pub open spec fn growth(edits: Seq<EditValue>, n: int) -> int
    decreases n,
{
    if n <= 0 {
        0
    } else {
        growth(edits, n - 1) + edits[n - 1].text.len() - edits[n - 1].len
    }
}

/// Where the text of edit `i` stands once all are applied.
pub open spec fn landing(edits: Seq<EditValue>, i: int) -> int {
    edits[i].at + growth(edits, i)
}

proof fn lemma_landing(data: Seq<u8>, edits: Seq<EditValue>, i: int, j: int, cursor: int)
    requires
        edits_fit(edits, data.len() as int),
        0 <= j <= i < edits.len(),
        0 <= cursor <= edits[j].at,
    ensures
        ({
            let off = landing(edits, i) - growth(edits, j) - cursor;
            let rest = edited_from(data, edits, j, cursor);
            &&& 0 <= off && off + edits[i].text.len() <= rest.len()
            &&& rest.subrange(off, off + edits[i].text.len()) == edits[i].text
        }),
    decreases i - j,
{
    let e = edits[j];
    let front = data.subrange(cursor, e.at) + e.text;
    let tail = edited_from(data, edits, j + 1, e.at + e.len);
    let rest = edited_from(data, edits, j, cursor);
    let off = landing(edits, i) - growth(edits, j) - cursor;
    assert(rest == front + tail);
    if j == i {
        assert(rest.subrange(off, off + e.text.len()) =~= e.text);
    } else {
        assert(e.at + e.len <= edits[j + 1].at);
        lemma_landing(data, edits, i, j + 1, e.at + e.len);
        let inner = landing(edits, i) - growth(edits, j + 1) - (e.at + e.len);
        assert(off == front.len() + inner);
        assert(rest.subrange(off, off + edits[i].text.len()) =~= tail.subrange(
            inner,
            inner + edits[i].text.len(),
        ));
    }
}

/// The text of an edit stands where the edits before it have moved its place.
pub proof fn edit_puts_its_text(data: Seq<u8>, edits: Seq<EditValue>, i: int)
    requires
        edits_fit(edits, data.len() as int),
        0 <= i < edits.len(),
    ensures
        ({
            let at = landing(edits, i);
            let out = edited(data, edits);
            &&& 0 <= at && at + edits[i].text.len() <= out.len()
            &&& out.subrange(at, at + edits[i].text.len()) == edits[i].text
        }),
{
    lemma_landing(data, edits, i, 0, 0);
}

/// Where an offset lands, given the edits from index `i` on and the distance
/// `moved` that those before it have moved it to. `None` where it points
/// inside something that was rewritten.
pub open spec fn shifted_from(edits: Seq<EditValue>, offset: int, i: int, moved: int) -> Option<int>
    decreases edits.len() - i,
{
    if i < 0 || i >= edits.len() {
        Some(moved)
    } else if edits[i].at + edits[i].len <= offset {
        shifted_from(edits, offset, i + 1, moved + edits[i].text.len() - edits[i].len)
    } else if edits[i].at < offset {
        None
    } else {
        Some(moved)
    }
}

/// Where a byte offset into the file lands after the edits, where that is an
/// offset that the machine can hold.
pub open spec fn shifted(edits: Seq<EditValue>, offset: int) -> Option<int> {
    match shifted_from(edits, offset, 0, offset) {
        Some(moved) => if moved <= usize::MAX {
            Some(moved)
        } else {
            None
        },
        None => None,
    }
}

/// Later edits only move an offset forward from where the text before it
/// has put it, less what they replace.
proof fn lemma_shifted_bound(edits: Seq<EditValue>, offset: int, i: int, moved: int, floor: int)
    requires
        edits_fit(edits, usize::MAX as int),
        0 <= i <= edits.len(),
        0 <= floor <= offset,
        i > 0 ==> floor == edits[i - 1].at + edits[i - 1].len,
        i == 0 ==> floor == 0,
        moved >= offset - floor,
    ensures
        shifted_from(edits, offset, i, moved) is Some ==> shifted_from(edits, offset, i, moved)->0
            >= moved - (offset - floor),
    decreases edits.len() - i,
{
    if i < edits.len() && edits[i].at + edits[i].len <= offset {
        let next = edits[i].at + edits[i].len;
        if i > 0 {
            assert(edits[i - 1].at + edits[i - 1].len <= edits[i].at);
        }
        lemma_shifted_bound(
            edits,
            offset,
            i + 1,
            moved + edits[i].text.len() - edits[i].len,
            next,
        );
    }
}

proof fn lemma_shifted_byte(
    data: Seq<u8>,
    edits: Seq<EditValue>,
    offset: int,
    i: int,
    cursor: int,
    base: int,
)
    requires
        edits_fit(edits, data.len() as int),
        0 <= i <= edits.len(),
        0 <= cursor <= offset < data.len(),
        i > 0 ==> cursor == edits[i - 1].at + edits[i - 1].len,
        i == 0 ==> cursor == 0,
        forall|k: int| 0 <= k < edits.len() ==> (#[trigger] edits[k]).at != offset || edits[k].len == 0,
        shifted_from(edits, offset, i, base + offset - cursor) is Some,
    ensures
        ({
            let m = shifted_from(edits, offset, i, base + offset - cursor)->0;
            let rest = edited_from(data, edits, i, cursor);
            0 <= m - base < rest.len() && rest[m - base] == data[offset]
        }),
    decreases edits.len() - i,
{
    if i < edits.len() {
        let e = edits[i];
        if i > 0 {
            assert(edits[i - 1].at + edits[i - 1].len <= e.at);
        }
        if e.at + e.len <= offset {
            lemma_shifted_byte(
                data,
                edits,
                offset,
                i + 1,
                e.at + e.len,
                base + (e.at - cursor) + e.text.len(),
            );
        }
    }
}

/// A byte that no edit replaces stands where its offset is shifted to.
pub proof fn shifted_offset_finds_its_byte(data: Seq<u8>, edits: Seq<EditValue>, offset: int)
    requires
        edits_fit(edits, data.len() as int),
        0 <= offset < data.len(),
        forall|k: int| 0 <= k < edits.len() ==> (#[trigger] edits[k]).at != offset || edits[k].len == 0,
        shifted(edits, offset) is Some,
    ensures
        0 <= shifted(edits, offset)->0 < edited(data, edits).len(),
        edited(data, edits)[shifted(edits, offset)->0] == data[offset],
{
    lemma_shifted_byte(data, edits, offset, 0, 0, 0);
}

/// Where a byte offset into the file lands after the edits. `None` if the
/// offset points inside something that was rewritten.
pub fn shift(edits: &[Edit], offset: usize) -> (r: Option<usize>)
    requires
        edits_fit(edit_views(edits@), usize::MAX as int),
    ensures
        match r {
            Some(moved) => shifted(edit_views(edits@), offset as int) == Some(moved as int),
            None => shifted(edit_views(edits@), offset as int) is None,
        },
{
    let ghost list = edit_views(edits@);
    let mut kept: usize = offset;
    let mut added: u64 = 0;
    let mut i: usize = 0;
    let ghost mut floor: int = 0;
    while i < edits.len()
        invariant
            i <= edits@.len(),
            list == edit_views(edits@),
            edits_fit(list, usize::MAX as int),
            0 <= floor <= offset,
            i > 0 ==> floor == list[i - 1].at + list[i - 1].len,
            i == 0 ==> floor == 0,
            kept >= offset - floor,
            shifted_from(list, offset as int, 0, offset as int) == shifted_from(
                list,
                offset as int,
                i as int,
                kept + added,
            ),
        decreases edits@.len() - i,
    {
        proof {
            assert(list[i as int] == edits@[i as int]@);
            if i > 0 {
                assert(list[i - 1].at + list[i - 1].len <= list[i as int].at);
            }
        }
        let at: usize = edits[i].at;
        let len: usize = edits[i].len;
        let grown: usize = edits[i].text.len();
        if at + len <= offset {
            proof {
                floor = at + len;
            }
            kept = kept - len;
            if grown as u64 > 0xFFFF_FFFF_FFFF_FFFF - added {
                proof {
                    lemma_shifted_bound(
                        list,
                        offset as int,
                        i + 1,
                        kept + added + grown,
                        floor,
                    );
                }
                return None;
            }
            added = added + grown as u64;
        } else if at < offset {
            return None;
        } else {
            return finish_shift(kept, added);
        }
        i += 1;
    }
    finish_shift(kept, added)
}

/// The sum, where the machine can hold it as an offset.
fn finish_shift(kept: usize, added: u64) -> (r: Option<usize>)
    ensures
        match r {
            Some(v) => v == kept + added,
            None => kept + added > usize::MAX,
        },
{
    if added <= usize::MAX as u64 && added as usize <= usize::MAX - kept {
        Some(kept + added as usize)
    } else {
        None
    }
}

// --- rows of a cross-reference stream ------------------------------------------------------

/// The big-endian number that the bytes spell.
pub open spec fn be_value(s: Seq<u8>) -> int
    decreases s.len(),
{
    if s.len() == 0 {
        0
    } else {
        be_value(s.drop_last()) * 0x100 + s.last()
    }
}

/// The last `n` bytes of the big-endian spelling of `v`.
pub open spec fn be_bytes(v: int, n: int) -> Seq<u8>
    decreases n,
{
    if n <= 0 {
        Seq::empty()
    } else {
        be_bytes(v / 0x100, n - 1).push((v % 0x100) as u8)
    }
}

/// How offsets move.
pub enum Movement<'a> {
    /// What stands past `end` moves back by `delta`; what stands between
    /// `start` and `end` has no place; what stands up to `start` stays.
    Back { start: usize, end: usize, delta: usize },
    /// By a list of edits.
    Edits(&'a [Edit]),
}

/// The content of a [`Movement`].
pub enum Move {
    Back { start: int, end: int, delta: int },
    Edits(Seq<EditValue>),
}

impl<'a> View for Movement<'a> {
    type V = Move;

    open spec fn view(&self) -> Move {
        match *self {
            Movement::Back { start, end, delta } => Move::Back {
                start: start as int,
                end: end as int,
                delta: delta as int,
            },
            Movement::Edits(edits) => Move::Edits(edit_views(edits@)),
        }
    }
}

/// Where an offset goes.
pub open spec fn target(m: Move, offset: int) -> Option<int> {
    match m {
        Move::Back { start, end, delta } => if offset <= start {
            Some(offset)
        } else if offset < end {
            None
        } else {
            Some(offset - delta)
        },
        Move::Edits(edits) => shifted(edits, offset),
    }
}

/// The movement is sound: it moves no offset below zero.
pub open spec fn movement_ok(m: Move) -> bool {
    match m {
        Move::Back { start, end, delta } => delta <= end,
        Move::Edits(edits) => edits_fit(edits, usize::MAX as int),
    }
}

/// One row of a cross-reference stream with its offset moved. A row of type
/// 1 holds an offset in the `width` bytes after its type byte; `None` where
/// the offset has no place, or where the new one does not fit.
pub open spec fn moved_row(row: Seq<u8>, width: int, m: Move) -> Option<Seq<u8>> {
    if row[0] != 1 {
        Some(row)
    } else {
        let offset = be_value(row.subrange(1, 1 + width));
        if offset > usize::MAX {
            None
        } else {
            match target(m, offset) {
                None => None,
                Some(to) => if be_value(be_bytes(to, width)) == to {
                    Some(row.take(1) + be_bytes(to, width) + row.skip(1 + width))
                } else {
                    None
                },
            }
        }
    }
}

/// The first `n` rows with their offsets moved.
pub open spec fn moved_rows(
    content: Seq<u8>,
    row_len: int,
    width: int,
    m: Move,
    n: int,
) -> Option<Seq<u8>>
    decreases n,
{
    if n <= 0 {
        Some(Seq::empty())
    } else {
        match (
            moved_rows(content, row_len, width, m, n - 1),
            moved_row(content.subrange((n - 1) * row_len, n * row_len), width, m),
        ) {
            (Some(before), Some(row)) => Some(before + row),
            _ => None,
        }
    }
}

proof fn lemma_rows_stop(
    content: Seq<u8>,
    row_len: int,
    width: int,
    m: Move,
    i: int,
    n: int,
)
    requires
        i <= n,
        moved_rows(content, row_len, width, m, i) is None,
    ensures
        moved_rows(content, row_len, width, m, n) is None,
    decreases n - i,
{
    if i < n {
        lemma_rows_stop(content, row_len, width, m, i, n - 1);
    }
}

/// Moving offsets keeps the length of the rows.
pub proof fn lemma_moved_rows_len(content: Seq<u8>, row_len: int, width: int, m: Move, n: int)
    requires
        1 <= width,
        1 + width <= row_len,
        0 <= n,
        n * row_len <= content.len(),
        moved_rows(content, row_len, width, m, n) is Some,
    ensures
        (moved_rows(content, row_len, width, m, n)->0).len() == n * row_len,
    decreases n,
{
    if n > 0 {
        assert((n - 1) * row_len + row_len == n * row_len) by (nonlinear_arith);
        assert((n - 1) * row_len >= 0) by (nonlinear_arith)
            requires
                n >= 1,
                row_len >= 1,
        ;
        lemma_moved_rows_len(content, row_len, width, m, n - 1);
        let row = content.subrange((n - 1) * row_len, n * row_len);
        let offset = be_value(row.subrange(1, 1 + width));
        if row[0] == 1 {
            lemma_be_bytes_len(target(m, offset)->0, width);
        }
    } else {
        assert(0 * row_len == 0);
    }
}

/// Bytes spell a number that their count bounds.
proof fn lemma_be_value_bound(s: Seq<u8>)
    requires
        s.len() <= 8,
    ensures
        0 <= be_value(s) <= 0xFFFF_FFFF_FFFF_FFFF,
        s.len() <= 7 ==> be_value(s) <= 0xFF_FFFF_FFFF_FFFF,
        s.len() <= 6 ==> be_value(s) <= 0xFFFF_FFFF_FFFF,
        s.len() <= 5 ==> be_value(s) <= 0xFF_FFFF_FFFF,
        s.len() <= 4 ==> be_value(s) <= 0xFFFF_FFFF,
        s.len() <= 3 ==> be_value(s) <= 0xFF_FFFF,
        s.len() <= 2 ==> be_value(s) <= 0xFFFF,
        s.len() <= 1 ==> be_value(s) <= 0xFF,
        s.len() == 0 ==> be_value(s) == 0,
    decreases s.len(),
{
    if s.len() > 0 {
        lemma_be_value_bound(s.drop_last());
    }
}

/// Reads the big-endian number in `data[from..to]`.
fn read_be(data: &[u8], from: usize, to: usize) -> (r: u64)
    requires
        from <= to <= data@.len(),
        to - from <= 8,
    ensures
        r == be_value(data@.subrange(from as int, to as int)),
{
    let mut value: u64 = 0;
    let mut i: usize = from;
    proof {
        assert(data@.subrange(from as int, from as int) =~= Seq::empty());
    }
    while i < to
        invariant
            from <= i <= to <= data@.len(),
            to - from <= 8,
            value == be_value(data@.subrange(from as int, i as int)),
        decreases to - i,
    {
        proof {
            let s = data@.subrange(from as int, i + 1);
            assert(s.drop_last() =~= data@.subrange(from as int, i as int));
            assert(s.last() == data@[i as int]);
            lemma_be_value_bound(s);
        }
        value = value * 0x100 + data[i] as u64;
        i += 1;
    }
    value
}

proof fn lemma_be_bytes_len(v: int, n: int)
    requires
        n >= 0,
    ensures
        be_bytes(v, n).len() == n,
    decreases n,
{
    if n > 0 {
        lemma_be_bytes_len(v / 0x100, n - 1);
    }
}

/// The last bytes of a spelling spell a number no greater, and the same
/// number exactly where nothing is left over.
proof fn lemma_be_bytes_value(v: int, n: int)
    requires
        v >= 0,
        n >= 0,
    ensures
        be_value(be_bytes(v, n)) <= v,
        n == 0 ==> be_value(be_bytes(v, n)) == 0,
        n > 0 ==> (be_value(be_bytes(v, n)) == v <==> be_value(be_bytes(v / 0x100, n - 1)) == v
            / 0x100),
    decreases n,
{
    if n > 0 {
        lemma_be_bytes_value(v / 0x100, n - 1);
        lemma_be_bytes_len(v / 0x100, n - 1);
        let s = be_bytes(v, n);
        assert(s.drop_last() =~= be_bytes(v / 0x100, n - 1));
        assert(s.last() == (v % 0x100) as u8);
    }
}

/// Writes the number `v` big-endian into `n` bytes; `None` where it does not
/// fit.
fn write_be(v: u64, n: usize) -> (r: Option<Vec<u8>>)
    ensures
        match r {
            Some(out) => out@ == be_bytes(v as int, n as int) && be_value(
                be_bytes(v as int, n as int),
            ) == v,
            None => be_value(be_bytes(v as int, n as int)) != v,
        },
    decreases n,
{
    proof {
        lemma_be_bytes_value(v as int, n as int);
    }
    if n == 0 {
        let out: Vec<u8> = Vec::new();
        proof {
            assert(out@ =~= Seq::empty());
        }
        return if v == 0 {
            Some(out)
        } else {
            None
        };
    }
    let mut out = write_be(v / 0x100, n - 1)?;
    out.push((v % 0x100) as u8);
    Some(out)
}

/// Where an offset goes.
fn move_offset(m: &Movement, offset: usize) -> (r: Option<usize>)
    requires
        movement_ok(m@),
    ensures
        match r {
            Some(to) => target(m@, offset as int) == Some(to as int),
            None => target(m@, offset as int) is None,
        },
{
    match m {
        Movement::Back { start, end, delta } => {
            if offset <= *start {
                Some(offset)
            } else if offset < *end {
                None
            } else {
                Some(offset - *delta)
            }
        },
        Movement::Edits(edits) => shift(edits, offset),
    }
}

/// Moves the offset in one row.
fn move_row(row: &[u8], width: usize, m: &Movement) -> (r: Option<Vec<u8>>)
    requires
        movement_ok(m@),
        1 <= width <= 8,
        1 + width <= row@.len(),
    ensures
        match r {
            Some(out) => moved_row(row@, width as int, m@) == Some(out@),
            None => moved_row(row@, width as int, m@) is None,
        },
{
    if row[0] != 1 {
        return Some(crate::bytes::to_vec(row));
    }
    let offset: u64 = read_be(row, 1, 1 + width);
    if offset > usize::MAX as u64 {
        return None;
    }
    let to: usize = move_offset(m, offset as usize)?;
    let field = write_be(to as u64, width)?;
    let mut out: Vec<u8> = Vec::new();
    out.push(row[0]);
    out.extend_from_slice(field.as_slice());
    out.extend_from_slice(vstd::slice::slice_subrange(row, 1 + width, row.len()));
    proof {
        assert(out@ =~= row@.take(1) + field@ + row@.skip(1 + width));
    }
    Some(out)
}

/// Moves the offsets in the rows of a cross-reference stream whose length is
/// a multiple of `row_len`.
pub fn move_rows(content: &[u8], row_len: usize, width: usize, m: &Movement) -> (r: Option<
    Vec<u8>,
>)
    requires
        movement_ok(m@),
        1 <= width <= 8,
        1 + width <= row_len,
        content@.len() % (row_len as nat) == 0,
    ensures
        match r {
            Some(out) => moved_rows(
                content@,
                row_len as int,
                width as int,
                m@,
                content@.len() as int / row_len as int,
            ) == Some(out@),
            None => moved_rows(
                content@,
                row_len as int,
                width as int,
                m@,
                content@.len() as int / row_len as int,
            ) is None,
        },
{
    let total: usize = content.len();
    let rows: usize = total / row_len;
    proof {
        vstd::arithmetic::div_mod::lemma_fundamental_div_mod(total as int, row_len as int);
        assert(rows * row_len == total) by (nonlinear_arith)
            requires
                total == row_len * rows,
        ;
    }
    let mut out: Vec<u8> = Vec::new();
    let mut i: usize = 0;
    proof {
        assert(out@ =~= Seq::empty());
    }
    while i < rows
        invariant
            i <= rows,
            rows == content@.len() as int / row_len as int,
            rows * row_len == total == content@.len(),
            movement_ok(m@),
            1 <= width <= 8,
            1 + width <= row_len,
            moved_rows(content@, row_len as int, width as int, m@, i as int) == Some(out@),
        decreases rows - i,
    {
        proof {
            assert((i + 1) * row_len <= rows * row_len) by (nonlinear_arith)
                requires
                    i + 1 <= rows,
            ;
            assert(i * row_len + row_len == (i + 1) * row_len) by (nonlinear_arith);
        }
        let at: usize = i * row_len;
        let row = vstd::slice::slice_subrange(content, at, at + row_len);
        match move_row(row, width, m) {
            Some(new) => {
                let ghost before = out@;
                out.extend_from_slice(new.as_slice());
                proof {
                    assert(out@ =~= before + new@);
                }
            },
            None => {
                proof {
                    lemma_rows_stop(
                        content@,
                        row_len as int,
                        width as int,
                        m@,
                        i + 1,
                        rows as int,
                    );
                }
                return None;
            },
        }
        i += 1;
    }
    Some(out)
}

/// Field widths of a cross-reference stream.
pub struct Widths {
    pub offset: int,
    pub row: int,
}

/// The numbers that a list of words spells; `None` where one spells none.
pub open spec fn word_numbers(list: Seq<Seq<u8>>, n: int) -> Option<Seq<int>>
    decreases n,
{
    if n <= 0 {
        Some(Seq::empty())
    } else {
        match (word_numbers(list, n - 1), word_value(list[n - 1], usize::MAX as int)) {
            (Some(before), Some(v)) => Some(before.push(v)),
            _ => None,
        }
    }
}

/// Three fields, the first a single byte, the second up to eight, as rows of
/// a cross-reference stream have them.
pub open spec fn row_widths(numbers: Seq<int>) -> Option<Widths> {
    if numbers.len() == 3 && numbers[0] == 1 && 1 <= numbers[1] <= 8 && 0 <= numbers[2] && 1
        + numbers[1] + numbers[2] <= usize::MAX {
        Some(Widths { offset: numbers[1], row: 1 + numbers[1] + numbers[2] })
    } else {
        None
    }
}

/// Machine numbers as mathematical integers.
pub open spec fn number_ints(s: Seq<usize>) -> Seq<int> {
    s.map_values(|v: usize| v as int)
}

proof fn lemma_word_numbers_stop(list: Seq<Seq<u8>>, i: int, n: int)
    requires
        i <= n,
        word_numbers(list, i) is None,
    ensures
        word_numbers(list, n) is None,
    decreases n - i,
{
    if i < n {
        lemma_word_numbers_stop(list, i, n - 1);
    }
}

/// Reads a list of numbers parted by white space.
pub fn parse_numbers(data: &[u8]) -> (r: Option<Vec<usize>>)
    ensures
        match r {
            Some(v) => word_numbers(words(data@), words(data@).len() as int) == Some(
                number_ints(v@),
            ),
            None => word_numbers(words(data@), words(data@).len() as int) is None,
        },
{
    let list = split_words(data);
    let ghost model = words(data@);
    let mut out: Vec<usize> = Vec::new();
    let mut i: usize = 0;
    proof {
        assert(number_ints(out@) =~= Seq::empty());
    }
    while i < list.len()
        invariant
            i <= list@.len(),
            model == words(data@),
            views(list@) == model,
            word_numbers(model, i as int) == Some(number_ints(out@)),
        decreases list@.len() - i,
    {
        proof {
            assert(views(list@)[i as int] == list@[i as int]@);
        }
        match parse_word(list[i].as_slice(), usize::MAX as u64) {
            Some(v) => {
                let ghost before = out@;
                out.push(v as usize);
                proof {
                    assert(number_ints(out@) =~= number_ints(before).push(v as int));
                }
            },
            None => {
                proof {
                    lemma_word_numbers_stop(model, i + 1, model.len() as int);
                }
                return None;
            },
        }
        i += 1;
    }
    Some(out)
}

/// Offset width and row length, where the fields are as expected.
pub fn read_row_widths(numbers: &Vec<usize>) -> (r: Option<(usize, usize)>)
    ensures
        match r {
            Some(w) => row_widths(number_ints(numbers@)) == Some(
                Widths { offset: w.0 as int, row: w.1 as int },
            ) && 1 <= w.0 <= 8 && 1 + w.0 <= w.1,
            None => row_widths(number_ints(numbers@)) is None,
        },
{
    if numbers.len() != 3 {
        return None;
    }
    proof {
        let n = number_ints(numbers@);
        assert(n[0] == numbers@[0] && n[1] == numbers@[1] && n[2] == numbers@[2]);
    }
    if numbers[0] != 1 || numbers[1] == 0 || numbers[1] > 8 {
        return None;
    }
    let front: usize = 1 + numbers[1];
    if numbers[2] > usize::MAX - front {
        return None;
    }
    Some((numbers[1], front + numbers[2]))
}

} // verus!
