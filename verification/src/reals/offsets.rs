//! Repairing the byte offsets that an edit of a file invalidates: those in
//! its cross-reference table or stream, and the one after `startxref`.

use crate::bytes::{overwrite, splice};
use crate::edit::{
    apply_edits, edit_views, edited, edits_fit, number_ints, shift, shifted, Edit, EditValue, Move,
    Movement,
};
use crate::patch::{
    find_startxref, find_stream, move_xref, moved_xref, number_at, parse_int_array, site_dict,
    startxref_of, stream_site, Number,
};
use crate::text::{
    blanks_end, contains_sub, decimal_digits, decimal_usize, digits_end, end_of_digits, find_from,
    find_sub, has_sub, matches_at, occurs_at, parse_digits, parse_word, skip_ascii_digits,
    skip_blanks, word_value,
};
use crate::words::{DICT_OPEN, FILTER_KEY, OBJ_LINE, TRAILER_WORD, TYPE_XREF, XREF_WORD};
use vstd::prelude::*;

verus! {

/// The greatest signed 64-bit number.
pub const LARGEST: u64 = 0x7FFF_FFFF_FFFF_FFFF;

/// The number at `at`, not above [`LARGEST`], and the index just past its
/// digits.
pub fn parse_int_at(data: &[u8], at: usize) -> (r: Option<(i64, usize)>)
    ensures
        match r {
            Some(n) => number_at(data@, at as int, LARGEST as int) == Some(
                Number { at: at as int, end: n.1 as int, value: n.0 as int },
            ) && n.0 >= 0 && at < n.1 <= data@.len(),
            None => number_at(data@, at as int, LARGEST as int) is None,
        },
{
    let end: usize = skip_ascii_digits(data, at)?;
    match parse_digits(data, at, end, LARGEST) {
        Some(v) => Some((v as i64, end)),
        None => None,
    }
}

/// The number after the first `key` of a dictionary.
pub open spec fn value_after(dict: Seq<u8>, key: Seq<u8>) -> Option<Number> {
    match find_from(dict, key, 0) {
        Some(at) => number_at(dict, at + key.len(), LARGEST as int),
        None => None,
    }
}

/// `(value, offset of its digits in the dictionary, digit count)` for `key`
/// followed by a number.
pub fn int_value(dict: &[u8], key: &[u8]) -> (r: Option<(i64, usize, usize)>)
    requires
        key@.len() > 0,
    ensures
        match r {
            Some(n) => value_after(dict@, key@) == Some(
                Number { at: n.1 as int, end: n.1 + n.2, value: n.0 as int },
            ) && n.0 >= 0 && n.1 + n.2 <= dict@.len() && n.2 > 0,
            None => value_after(dict@, key@) is None,
        },
{
    let at: usize = find_sub(dict, key, 0)? + key.len();
    let (value, end) = parse_int_at(dict, at)?;
    Some((value, at, end - at))
}

// --- the classic table -------------------------------------------------------------

/// The last `k` decimal digits of `n`.
pub open spec fn fixed_digits(n: int, k: int) -> Seq<u8>
    decreases k,
{
    if k <= 0 {
        Seq::empty()
    } else {
        fixed_digits(n / 10, k - 1).push((0x30 + n % 10) as u8)
    }
}

/// The file with the offset in the table row at `q` moved. A row is twenty
/// bytes, ten of them the offset; the eighteenth tells whether it is in use.
pub open spec fn classic_row(s: Seq<u8>, q: int, edits: Seq<EditValue>) -> Option<Seq<u8>> {
    if q + 20 > s.len() {
        None
    } else if s[q + 17] == 0x6E {
        match word_value(s.subrange(q, q + 10), usize::MAX as int) {
            None => None,
            Some(offset) => match shifted(edits, offset) {
                None => None,
                Some(moved) => if moved > 9_999_999_999 {
                    None
                } else {
                    Some(splice(s, q, fixed_digits(moved, 10)))
                },
            },
        }
    } else if s[q + 17] == 0x66 {
        Some(s)
    } else {
        None
    }
}

/// The file with the offsets in `count` table rows from `q` on moved.
pub open spec fn classic_rows(s: Seq<u8>, q: int, count: int, edits: Seq<EditValue>) -> Option<
    Seq<u8>,
>
    decreases count,
{
    if count <= 0 {
        Some(s)
    } else {
        match classic_row(s, q, edits) {
            Some(t) => classic_rows(t, q + 20, count - 1, edits),
            None => None,
        }
    }
}

/// The file with the offsets in the table sections from `p` on moved: each
/// section is headed by its first number and its count, and the trailer ends
/// them.
pub open spec fn classic_sections(s: Seq<u8>, p: int, edits: Seq<EditValue>) -> Option<Seq<u8>>
    decreases s.len() - p,
{
    let a = blanks_end(s, p);
    if occurs_at(s, TRAILER_WORD@, a) {
        Some(s)
    } else {
        match number_at(s, a, LARGEST as int) {
            None => None,
            Some(first) => if first.end >= s.len() || s[first.end] != 0x20 {
                None
            } else {
                match number_at(s, first.end + 1, LARGEST as int) {
                    None => None,
                    Some(count) => {
                        let q = blanks_end(s, count.end);
                        match classic_rows(s, q, count.value, edits) {
                            None => None,
                            Some(t) => {
                                let next = q + 20 * count.value;
                                if t.len() == s.len() && p < next <= s.len() {
                                    classic_sections(t, next, edits)
                                } else {
                                    None
                                }
                            },
                        }
                    },
                }
            },
        }
    }
}

/// Writes the last ten decimal digits of `n`.
fn ten_digits(n: u64) -> (r: Vec<u8>)
    ensures
        r@ == fixed_digits(n as int, 10),
        r@.len() == 10,
{
    fixed(n, 10)
}

fn fixed(n: u64, k: usize) -> (r: Vec<u8>)
    ensures
        r@ == fixed_digits(n as int, k as int),
        r@.len() == k,
    decreases k,
{
    if k == 0 {
        let r: Vec<u8> = Vec::new();
        proof {
            assert(r@ =~= Seq::empty());
        }
        return r;
    }
    let mut r = fixed(n / 10, k - 1);
    r.push((0x30 + n % 10) as u8);
    r
}

/// Moves the offset in the table row at `q`; false where the row is not as
/// expected or its offset has no place.
fn move_classic_row(patched: &mut Vec<u8>, q: usize, edits: &[Edit]) -> (r: bool)
    requires
        edits_fit(edit_views(edits@), usize::MAX as int),
    ensures
        match classic_row(old(patched)@, q as int, edit_views(edits@)) {
            Some(t) => r && final(patched)@ == t,
            None => !r,
        },
        final(patched)@.len() == old(patched)@.len(),
        r ==> q + 20 <= old(patched)@.len() <= usize::MAX,
{
    if patched.len() < 20 || q > patched.len() - 20 {
        return false;
    }
    let kind: u8 = patched[q + 17];
    if kind == 0x66 {
        return true;
    }
    if kind != 0x6E {
        return false;
    }
    let field = vstd::slice::slice_subrange(patched.as_slice(), q, q + 10);
    let offset: u64 = match parse_word(field, usize::MAX as u64) {
        Some(v) => v,
        None => {
            return false;
        },
    };
    let moved: usize = match shift(edits, offset as usize) {
        Some(v) => v,
        None => {
            return false;
        },
    };
    if moved as u64 > 9_999_999_999 {
        return false;
    }
    let text = ten_digits(moved as u64);
    overwrite(patched, q, text.as_slice());
    true
}

/// Moves the offsets in `count` table rows from `q` on.
fn move_classic_rows(patched: &mut Vec<u8>, q: usize, count: u64, edits: &[Edit]) -> (r: Option<
    usize,
>)
    requires
        edits_fit(edit_views(edits@), usize::MAX as int),
        q <= old(patched)@.len(),
    ensures
        match classic_rows(old(patched)@, q as int, count as int, edit_views(edits@)) {
            Some(t) => r is Some && final(patched)@ == t && r->0 == q + 20 * count && r->0
                <= old(patched)@.len(),
            None => r is None,
        },
        final(patched)@.len() == old(patched)@.len(),
{
    let ghost list = edit_views(edits@);
    let ghost goal = classic_rows(patched@, q as int, count as int, list);
    let mut at: usize = q;
    let mut left: u64 = count;
    while left > 0
        invariant
            left <= count,
            list == edit_views(edits@),
            edits_fit(list, usize::MAX as int),
            patched@.len() == old(patched)@.len(),
            at == q + 20 * (count - left),
            at <= patched@.len(),
            goal == classic_rows(old(patched)@, q as int, count as int, list),
            goal == classic_rows(patched@, at as int, left as int, list),
        decreases left,
    {
        if !move_classic_row(patched, at, edits) {
            return None;
        }
        at = at + 20;
        left = left - 1;
    }
    Some(at)
}

/// Classic table: rows of fixed width, so every offset is rewritten in place.
pub fn rewrite_classic_xref(patched: &mut Vec<u8>, xref_at: usize, edits: &[Edit]) -> (r: Option<
    (),
>)
    requires
        edits_fit(edit_views(edits@), usize::MAX as int),
        xref_at + 4 <= usize::MAX,
    ensures
        match classic_sections(old(patched)@, xref_at + 4, edit_views(edits@)) {
            Some(t) => r is Some && final(patched)@ == t,
            None => r is None,
        },
        final(patched)@.len() == old(patched)@.len(),
{
    let word: [u8; 7] = TRAILER_WORD;
    let ghost list = edit_views(edits@);
    let ghost goal = classic_sections(patched@, xref_at + 4, list);
    let mut p: usize = xref_at + 4;
    loop
        invariant
            list == edit_views(edits@),
            edits_fit(list, usize::MAX as int),
            patched@.len() == old(patched)@.len(),
            word@ == TRAILER_WORD@,
            goal == classic_sections(old(patched)@, xref_at + 4, list),
            goal == classic_sections(patched@, p as int, list),
        decreases patched@.len() - p,
    {
        let a: usize = skip_blanks(patched.as_slice(), p);
        if matches_at(patched.as_slice(), word.as_slice(), a) {
            return Some(());
        }
        let (_, first_end) = parse_int_at(patched.as_slice(), a)?;
        if first_end >= patched.len() || patched[first_end] != 0x20 {
            return None;
        }
        let (count, count_end) = parse_int_at(patched.as_slice(), first_end + 1)?;
        let q: usize = skip_blanks(patched.as_slice(), count_end);
        let next: usize = move_classic_rows(patched, q, count as u64, edits)?;
        p = next;
    }
}

// --- the cross-reference stream --------------------------------------------------------

/// Where the dictionary starts of the object whose header stands at `at`,
/// whatever its numbers.
pub open spec fn loose_dict(s: Seq<u8>, at: int) -> Option<int> {
    let a = digits_end(s, at);
    let b = digits_end(s, a + 1);
    if a < s.len() && s[a] == 0x20 && occurs_at(s, OBJ_LINE@, b) && occurs_at(s, DICT_OPEN@, b + 5) {
        Some(b + 5)
    } else {
        None
    }
}

/// The file with the offsets in the uncompressed cross-reference stream at
/// `at` moved.
pub open spec fn stream_rows(s: Seq<u8>, at: int, edits: Seq<EditValue>) -> Option<Seq<u8>> {
    match loose_dict(s, at) {
        None => None,
        Some(dict_start) => match stream_site(s, dict_start) {
            None => None,
            Some(site) => if has_sub(site_dict(s, site), TYPE_XREF@) && !has_sub(
                site_dict(s, site),
                FILTER_KEY@,
            ) {
                match moved_xref(s, site, Move::Edits(edits)) {
                    Some(rows) => Some(splice(s, site.start, rows)),
                    None => None,
                }
            } else {
                None
            },
        },
    }
}

/// `/W[a b c]` out of the dictionary of a cross-reference stream.
pub fn width_array(dict: &[u8]) -> (r: Option<Vec<usize>>)
    ensures
        match r {
            Some(v) => crate::patch::width_numbers(dict@) == Some(number_ints(v@)),
            None => crate::patch::width_numbers(dict@) is None,
        },
{
    parse_int_array(dict)
}

/// Cross-reference stream, not yet compressed: rows of type 1 carry offsets.
pub fn rewrite_xref_stream(patched: &mut Vec<u8>, xref_at: usize, edits: &[Edit]) -> (r: Option<
    (),
>)
    requires
        edits_fit(edit_views(edits@), usize::MAX as int),
    ensures
        match stream_rows(old(patched)@, xref_at as int, edit_views(edits@)) {
            Some(t) => r is Some && final(patched)@ == t,
            None => r is None,
        },
        final(patched)@.len() == old(patched)@.len(),
{
    let (obj, open, type_word, filter_word): ([u8; 5], [u8; 2], [u8; 10], [u8; 7]) = (
        OBJ_LINE,
        DICT_OPEN,
        TYPE_XREF,
        FILTER_KEY,
    );
    let a: usize = end_of_digits(patched.as_slice(), xref_at);
    if a >= patched.len() || patched[a] != 0x20 {
        return None;
    }
    let b: usize = end_of_digits(patched.as_slice(), a + 1);
    if !matches_at(patched.as_slice(), obj.as_slice(), b) || !matches_at(
        patched.as_slice(),
        open.as_slice(),
        b + 5,
    ) {
        return None;
    }
    let site = find_stream(patched.as_slice(), b + 5)?;
    let dict = vstd::slice::slice_subrange(patched.as_slice(), site.dict_start, site.dict_end);
    if !contains_sub(dict, type_word.as_slice()) || contains_sub(dict, filter_word.as_slice()) {
        return None;
    }
    let movement = Movement::Edits(edits);
    let rows = move_xref(patched.as_slice(), &site, &movement)?;
    proof {
        crate::patch::lemma_moved_xref_len(patched@, site@, movement@);
    }
    overwrite(patched, site.start, rows.as_slice());
    Some(())
}

// --- both ------------------------------------------------------------------------------------

/// The edit that rewrites the offset after `startxref`.
pub open spec fn tail_edit(at: int, len: int, offset: int) -> EditValue {
    EditValue { at, len, text: decimal_digits(offset as nat) }
}

/// `patched`, which is `original` with the edits, with its offsets repaired.
/// `None` where the file is not shaped as expected.
pub open spec fn repaired(patched: Seq<u8>, original: Seq<u8>, edits: Seq<EditValue>) -> Option<
    Seq<u8>,
> {
    match startxref_of(original) {
        None => None,
        Some(sx) => match (shifted(edits, sx.offset.value), shifted(edits, sx.offset.at)) {
            (Some(xref_at), Some(digits_at)) => {
                let len = sx.offset.end - sx.offset.at;
                let moved = if occurs_at(original, XREF_WORD@, sx.offset.value) {
                    classic_sections(patched, xref_at + 4, edits)
                } else {
                    stream_rows(patched, xref_at, edits)
                };
                match moved {
                    Some(t) => if digits_at + len <= t.len() {
                        Some(edited(t, seq![tail_edit(digits_at, len, xref_at)]))
                    } else {
                        None
                    },
                    None => None,
                }
            },
            _ => None,
        },
    }
}

/// Nothing can be read past the end of a file.
proof fn lemma_sections_past_end(s: Seq<u8>, p: int, edits: Seq<EditValue>)
    requires
        p >= s.len(),
    ensures
        classic_sections(s, p, edits) is None,
{
    assert(blanks_end(s, p) == p);
    assert(digits_end(s, p) == p);
}

/// Rewrites every byte offset that the patch invalidated: those in the
/// cross-reference section and the one after `startxref`, whose own digit
/// count can change and which is therefore spliced last.
pub fn repair_offsets(patched: Vec<u8>, original: &[u8], edits: &[Edit]) -> (r: Option<Vec<u8>>)
    requires
        edits_fit(edit_views(edits@), usize::MAX as int),
    ensures
        crate::flate::opt_view(r) == repaired(patched@, original@, edit_views(edits@)),
{
    let word: [u8; 4] = XREF_WORD;
    let (_, offset) = find_startxref(original)?;
    let xref_at: usize = shift(edits, offset.value)?;
    let digits_at: usize = shift(edits, offset.at)?;
    let len: usize = offset.end - offset.at;
    let mut moved = patched;
    if matches_at(original, word.as_slice(), offset.value) {
        if xref_at >= moved.len() {
            proof {
                lemma_sections_past_end(moved@, xref_at + 4, edit_views(edits@));
            }
            return None;
        }
        if xref_at > usize::MAX - 4 {
            proof {
                lemma_sections_past_end(moved@, xref_at + 4, edit_views(edits@));
            }
            return None;
        }
        rewrite_classic_xref(&mut moved, xref_at, edits)?;
    } else {
        rewrite_xref_stream(&mut moved, xref_at, edits)?;
    }
    if len > moved.len() || digits_at > moved.len() - len {
        return None;
    }
    let tail: [Edit; 1] = [Edit { at: digits_at, len, text: decimal_usize(xref_at) }];
    proof {
        assert(edit_views(tail@) =~= seq![tail_edit(digits_at as int, len as int, xref_at as int)]);
    }
    Some(apply_edits(moved.as_slice(), tail.as_slice()))
}

} // verus!
