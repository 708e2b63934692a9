//! What holds of the literals that are put back: each stands in the file as it
//! stood in the input.

use crate::bytes::{splice, stable_order, stable_order_sorts};
use crate::edit::{
    edit_puts_its_text, edited, edited_from, edits_fit, landing, shifted, EditValue, Move,
};
use crate::object::DocumentValue;
use crate::patch::{
    lemma_moved_xref_len, lemma_site_ordered, moved_xref, number_at, startxref_of, stream_site,
};
use crate::reals::capture::{replaced_by, ReadingValue};
use crate::reals::offsets::{
    classic_row, classic_rows, classic_sections, fixed_digits, loose_dict, repaired, stream_rows,
    tail_edit, value_after,
};
use crate::reals::restore::{
    all_edits, edit_places, edits_inside, lemma_apart_fit, literal_edits, number_edits,
    objstm_edit_list, restored, sorted_edits, stream_around, stream_edits,
};
use crate::reals::scan::{number_end, step, token_places, tokens_from, within};
use crate::text::{
    blanks_end, digits_end, find_from, lemma_digits_end, lemma_find_from, lemma_find_last,
};
use crate::words::{DICT_STREAM, FIRST_KEY, OBJ_DICT, TYPE_OBJSTM, XREF_WORD};
use vstd::prelude::*;

verus! {

// --- where the numbers stand ---------------------------------------------------------------

proof fn lemma_number_end(s: Seq<u8>, i: int)
    requires
        0 <= i <= s.len(),
    ensures
        i <= number_end(s, i) <= s.len(),
    decreases s.len() - i,
{
    if i < s.len() && crate::reals::scan::in_number(s[i]) {
        lemma_number_end(s, i + 1);
    }
}

/// The numbers from `i` on stand in order behind `i`.
proof fn lemma_tokens(s: Seq<u8>, skip: bool, i: int)
    requires
        0 <= i <= s.len(),
    ensures
        forall|k: int|
            0 <= k < tokens_from(s, skip, i).len() ==> i <= (#[trigger] tokens_from(s, skip, i)[k]).0
                < tokens_from(s, skip, i)[k].1 <= s.len(),
        forall|j: int, k: int|
            0 <= j < k < tokens_from(s, skip, i).len() ==> (#[trigger] tokens_from(s, skip, i)[j]).1
                <= (#[trigger] tokens_from(s, skip, i)[k]).0,
    decreases s.len() - i,
{
    if i < s.len() {
        let st = step(s, skip, i);
        lemma_number_end(s, i);
        if st.token is Some {
            assert(number_end(s, i) > i) by {
                lemma_number_end(s, i + 1);
            }
        }
        if st.next > i {
            let next = within(st.next, s);
            lemma_tokens(s, skip, next);
            let rest = tokens_from(s, skip, next);
            let all = tokens_from(s, skip, i);
            if st.token is Some {
                assert(all == seq![st.token->0] + rest);
                assert forall|k: int| 0 <= k < all.len() implies i <= (#[trigger] all[k]).0
                    < all[k].1 <= s.len() by {
                    if k > 0 {
                        assert(all[k] == rest[k - 1]);
                    }
                }
                assert forall|j: int, k: int| 0 <= j < k < all.len() implies (#[trigger] all[j]).1
                    <= (#[trigger] all[k]).0 by {
                    assert(all[k] == rest[k - 1]);
                    if j > 0 {
                        assert(all[j] == rest[j - 1]);
                    }
                }
            }
        }
    }
}

/// The edits of numbers stand in order at numbers, and put in what replaces
/// them.
proof fn lemma_number_edits(
    s: Seq<u8>,
    places: Seq<(int, int)>,
    literals: Map<u32, Seq<u8>>,
    m: spec_fn(Seq<u8>) -> Option<ReadingValue>,
    n: int,
)
    requires
        0 <= n <= places.len(),
        forall|k: int|
            0 <= k < places.len() ==> 0 <= (#[trigger] places[k]).0 < places[k].1 <= s.len(),
        forall|j: int, k: int|
            0 <= j < k < places.len() ==> (#[trigger] places[j]).1 <= (#[trigger] places[k]).0,
    ensures
        edits_fit(number_edits(s, places, literals, m, n), s.len() as int),
        forall|k: int|
            0 <= k < number_edits(s, places, literals, m, n).len() ==> {
                let e = #[trigger] number_edits(s, places, literals, m, n)[k];
                &&& n > 0 && e.at + e.len <= places[n - 1].1
                &&& replaced_by(literals, m, s.subrange(e.at, e.at + e.len)) == Some(e.text)
            },
    decreases n,
{
    if n > 0 {
        lemma_number_edits(s, places, literals, m, n - 1);
        let before = number_edits(s, places, literals, m, n - 1);
        let all = number_edits(s, places, literals, m, n);
        let (from, to) = places[n - 1];
        if n > 1 {
            assert(places[n - 2].1 <= places[n - 1].0);
        }
        assert forall|k: int| 0 <= k < all.len() implies {
            let e = #[trigger] all[k];
            &&& 0 <= e.at && 0 <= e.len && e.at + e.len <= places[n - 1].1
            &&& replaced_by(literals, m, s.subrange(e.at, e.at + e.len)) == Some(e.text)
        } by {
            if k < before.len() {
                assert(all[k] == before[k]);
            } else {
                assert(all[k].at == from && all[k].at + all[k].len == to);
            }
        }
        assert forall|i: int, j: int| 0 <= i < j < all.len() implies (#[trigger] all[i]).at
            + all[i].len <= (#[trigger] all[j]).at by {
            assert(all[i] == before[i]);
            if j < before.len() {
                assert(all[j] == before[j]);
            }
        }
    }
}

/// The edits of the numbers of `s` stand in order inside it, and each puts in
/// the captured spelling of the number that it replaces.
proof fn lemma_literal_edits(
    s: Seq<u8>,
    skip: bool,
    literals: Map<u32, Seq<u8>>,
    m: spec_fn(Seq<u8>) -> Option<ReadingValue>,
)
    ensures
        edits_fit(literal_edits(s, skip, literals, m), s.len() as int),
        forall|k: int|
            0 <= k < literal_edits(s, skip, literals, m).len() ==> {
                let e = #[trigger] literal_edits(s, skip, literals, m)[k];
                replaced_by(literals, m, s.subrange(e.at, e.at + e.len)) == Some(e.text)
            },
{
    let places = token_places(s, skip);
    lemma_tokens(s, skip, 0);
    lemma_number_edits(s, places, literals, m, places.len() as int);
}

/// In the body of an object of an object stream, each number that is edited is
/// spelled as it was captured.
pub proof fn restored_body_spells_literals(
    body: Seq<u8>,
    literals: Map<u32, Seq<u8>>,
    m: spec_fn(Seq<u8>) -> Option<ReadingValue>,
    i: int,
)
    requires
        0 <= i < literal_edits(body, false, literals, m).len(),
    ensures
        ({
            let edits = literal_edits(body, false, literals, m);
            let e = edits[i];
            let at = landing(edits, i);
            let out = edited(body, edits);
            &&& replaced_by(literals, m, body.subrange(e.at, e.at + e.len)) == Some(e.text)
            &&& 0 <= at && at + e.text.len() <= out.len()
            &&& out.subrange(at, at + e.text.len()) == e.text
        }),
{
    lemma_literal_edits(body, false, literals, m);
    edit_puts_its_text(body, literal_edits(body, false, literals, m), i);
}

// --- all edits of a file ---------------------------------------------------------------------

proof fn lemma_objstm_inside(
    s: Seq<u8>,
    tag_at: int,
    literals: Map<u32, Seq<u8>>,
    m: spec_fn(Seq<u8>) -> Option<ReadingValue>,
)
    requires
        objstm_edit_list(s, tag_at, literals, m) is Some,
        0 <= tag_at,
    ensures
        edits_inside(objstm_edit_list(s, tag_at, literals, m)->0, s.len() as int),
{
    let site = stream_around(s, tag_at)->0;
    lemma_find_last(s, OBJ_DICT@, tag_at - OBJ_DICT@.len());
    let start = site.dict_start;
    lemma_site_ordered(s, start);
    lemma_find_from(s, DICT_STREAM@, start);
    let dict = s.subrange(start, site.dict_end);
    lemma_find_from(dict, FIRST_KEY@, 0);
    let first = value_after(dict, FIRST_KEY@)->0;
    lemma_digits_end(dict, first.at);
    assert(start + first.end <= s.len());
}

proof fn lemma_stream_edits_inside(
    s: Seq<u8>,
    literals: Map<u32, Seq<u8>>,
    m: spec_fn(Seq<u8>) -> Option<ReadingValue>,
    i: int,
)
    requires
        0 <= i,
    ensures
        edits_inside(stream_edits(s, literals, m, i), s.len() as int),
    decreases s.len() - i + 1,
{
    lemma_find_from(s, TYPE_OBJSTM@, i);
    match find_from(s, TYPE_OBJSTM@, i) {
        None => {},
        Some(at) => {
            if i <= at < s.len() {
                lemma_stream_edits_inside(s, literals, m, at + 1);
            }
            if objstm_edit_list(s, at, literals, m) is Some {
                lemma_objstm_inside(s, at, literals, m);
            }
        },
    }
}

proof fn lemma_all_inside(
    s: Seq<u8>,
    literals: Map<u32, Seq<u8>>,
    m: spec_fn(Seq<u8>) -> Option<ReadingValue>,
)
    ensures
        edits_inside(sorted_edits(all_edits(s, literals, m)), s.len() as int),
{
    let all = all_edits(s, literals, m);
    let front = literal_edits(s, true, literals, m);
    let back = stream_edits(s, literals, m, 0);
    lemma_literal_edits(s, true, literals, m);
    lemma_stream_edits_inside(s, literals, m, 0);
    stable_order_sorts(edit_places(all), all.len() as int);
    let order = stable_order(edit_places(all), all.len() as int);
    let sorted = sorted_edits(all);
    assert forall|i: int| 0 <= i < sorted.len() implies 0 <= (#[trigger] sorted[i]).at && 0
        <= sorted[i].len && sorted[i].at + sorted[i].len <= s.len() by {
        let k = order[i];
        assert(sorted[i] == all[k]);
        if k < front.len() {
            assert(all[k] == front[k]);
        } else {
            assert(all[k] == back[k - front.len()]);
        }
    }
}

// --- what repairing the offsets leaves alone ---------------------------------------------------

/// Two files are the same before `end`.
spec fn same_before(a: Seq<u8>, b: Seq<u8>, end: int) -> bool {
    &&& a.len() == b.len()
    &&& forall|i: int| 0 <= i < end && i < a.len() ==> #[trigger] a[i] == b[i]
}

proof fn lemma_fixed_digits(n: int, k: int)
    requires
        0 <= k,
    ensures
        fixed_digits(n, k).len() == k,
    decreases k,
{
    if k > 0 {
        lemma_fixed_digits(n / 10, k - 1);
    }
}

proof fn lemma_rows_after(s: Seq<u8>, q: int, count: int, edits: Seq<EditValue>, end: int)
    requires
        0 <= end <= q,
        classic_rows(s, q, count, edits) is Some,
    ensures
        same_before(s, classic_rows(s, q, count, edits)->0, end),
    decreases count,
{
    if count > 0 {
        let t = classic_row(s, q, edits)->0;
        lemma_rows_after(t, q + 20, count - 1, edits, end);
        if s[q + 17] == 0x6E {
            let moved = shifted(
                edits,
                crate::text::word_value(s.subrange(q, q + 10), usize::MAX as int)->0,
            )->0;
            lemma_fixed_digits(moved, 10);
            assert(t == splice(s, q, fixed_digits(moved, 10)));
        }
        assert(same_before(s, t, end));
    }
}

proof fn lemma_blanks(s: Seq<u8>, i: int)
    ensures
        i <= blanks_end(s, i),
    decreases s.len() - i,
{
    if 0 <= i < s.len() && crate::text::is_blank(s[i]) {
        lemma_blanks(s, i + 1);
    }
}

proof fn lemma_sections_after(s: Seq<u8>, p: int, edits: Seq<EditValue>, end: int)
    requires
        0 <= end <= p,
        classic_sections(s, p, edits) is Some,
    ensures
        same_before(s, classic_sections(s, p, edits)->0, end),
    decreases s.len() - p,
{
    let a = blanks_end(s, p);
    lemma_blanks(s, p);
    if !crate::text::occurs_at(s, crate::words::TRAILER_WORD@, a) {
        let first = number_at(s, a, crate::reals::offsets::LARGEST as int)->0;
        let count = number_at(s, first.end + 1, crate::reals::offsets::LARGEST as int)->0;
        let q = blanks_end(s, count.end);
        lemma_digits_end(s, a);
        lemma_digits_end(s, first.end + 1);
        lemma_blanks(s, count.end);
        lemma_rows_after(s, q, count.value, edits, end);
        let t = classic_rows(s, q, count.value, edits)->0;
        lemma_sections_after(t, q + 20 * count.value, edits, end);
    }
}

proof fn lemma_stream_after(s: Seq<u8>, at: int, edits: Seq<EditValue>, end: int)
    requires
        0 <= end <= at,
        stream_rows(s, at, edits) is Some,
    ensures
        same_before(s, stream_rows(s, at, edits)->0, end),
{
    let dict_start = loose_dict(s, at)->0;
    lemma_digits_end(s, at);
    lemma_digits_end(s, digits_end(s, at) + 1);
    lemma_site_ordered(s, dict_start);
    let site = stream_site(s, dict_start)->0;
    lemma_moved_xref_len(s, site, Move::Edits(edits));
    let rows = moved_xref(s, site, Move::Edits(edits))->0;
    assert(stream_rows(s, at, edits) == Some(splice(s, site.start, rows)));
}

/// Where the cross-reference section of a file starts once it is edited, and
/// where the digits after `startxref`.
pub open spec fn moved_section(s: Seq<u8>, edits: Seq<EditValue>) -> (int, int) {
    let sx = startxref_of(s)->0;
    (shifted(edits, sx.offset.value)->0, shifted(edits, sx.offset.at)->0)
}

/// Repairing the offsets of a file leaves what stands before its
/// cross-reference section and its `startxref`.
proof fn lemma_repaired_after(patched: Seq<u8>, s: Seq<u8>, edits: Seq<EditValue>, end: int)
    requires
        repaired(patched, s, edits) is Some,
        0 <= end <= moved_section(s, edits).0,
        end <= moved_section(s, edits).1,
        end <= patched.len(),
    ensures
        end <= (repaired(patched, s, edits)->0).len(),
        forall|i: int| 0 <= i < end ==> #[trigger] (repaired(patched, s, edits)->0)[i] == patched[i],
{
    let sx = startxref_of(s)->0;
    let (xref_at, digits_at) = moved_section(s, edits);
    let len = sx.offset.end - sx.offset.at;
    let t = if crate::text::occurs_at(s, XREF_WORD@, sx.offset.value) {
        lemma_sections_after(patched, xref_at + 4, edits, end);
        classic_sections(patched, xref_at + 4, edits)->0
    } else {
        lemma_stream_after(patched, xref_at, edits, end);
        stream_rows(patched, xref_at, edits)->0
    };
    let e = tail_edit(digits_at, len, xref_at);
    let out = edited(t, seq![e]);
    assert(out == t.subrange(0, digits_at) + e.text + edited_from(t, seq![e], 1, digits_at + len));
    assert forall|i: int| 0 <= i < end implies #[trigger] out[i] == patched[i] by {
        assert(t[i] == patched[i]);
    }
}

/// Where literals are put back into a file, each number in plain sight that is
/// edited is spelled in the result as it was captured. The writer puts the
/// cross-reference section and `startxref` behind all objects; of a number
/// behind one of them nothing is said.
pub proof fn restored_file_spells_literals(
    s: Seq<u8>,
    literals: Map<u32, Seq<u8>>,
    m: spec_fn(Seq<u8>) -> Option<ReadingValue>,
    l: spec_fn(Seq<u8>) -> Option<DocumentValue>,
    i: int,
)
    requires
        restored(s, literals, m, l) is Some,
        0 <= i < sorted_edits(all_edits(s, literals, m)).len(),
        literal_edits(s, true, literals, m).contains(sorted_edits(all_edits(s, literals, m))[i]),
        ({
            let edits = sorted_edits(all_edits(s, literals, m));
            let end = landing(edits, i) + edits[i].text.len();
            end <= moved_section(s, edits).0 && end <= moved_section(s, edits).1
        }),
    ensures
        ({
            let edits = sorted_edits(all_edits(s, literals, m));
            let e = edits[i];
            let at = landing(edits, i);
            let file = restored(s, literals, m, l)->0;
            &&& replaced_by(literals, m, s.subrange(e.at, e.at + e.len)) == Some(e.text)
            &&& 0 <= at && at + e.text.len() <= file.len()
            &&& file.subrange(at, at + e.text.len()) == e.text
        }),
{
    let edits = sorted_edits(all_edits(s, literals, m));
    let list = literal_edits(s, true, literals, m);
    let e = edits[i];
    let at = landing(edits, i);
    let end = at + e.text.len();
    lemma_literal_edits(s, true, literals, m);
    let k = choose|k: int| 0 <= k < list.len() && list[k] == e;
    assert(list[k] == e);
    lemma_all_inside(s, literals, m);
    lemma_apart_fit(edits, s.len() as int);
    edit_puts_its_text(s, edits, i);
    let patched = edited(s, edits);
    lemma_repaired_after(patched, s, edits, end);
    let file = repaired(patched, s, edits)->0;
    assert(file.subrange(at, end) =~= patched.subrange(at, end));
}

} // verus!
