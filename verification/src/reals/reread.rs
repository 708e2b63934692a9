//! What is scanned from a text, and what is read back of what was written.

use crate::edit::{shifted, word_numbers, EditValue, Widths};
use crate::patch::xref_widths;
use crate::reals::offsets::{classic_row, fixed_digits};
use crate::reals::restore::{body_at, body_offset, header_pairs, joined, new_header, objstm_header};
use crate::reals::scan::{comment_end, hex_end, number_end, string_end, tokens, tokens_from};
use crate::text::{
    all_digits, blanks_end, decimal_digits, decimal_reads_back, digits_value, find_from, is_blank,
    is_digit, signed_digits, signed_word_value, word_end, word_value, words, words_from,
};
use vstd::prelude::*;
use vstd::string::StringSliceAdditionalSpecFns;

verus! {

// --- words --------------------------------------------------------------------------------------------

proof fn lemma_blanks_shift(pre: Seq<u8>, b: Seq<u8>, k: int)
    requires
        0 <= k <= b.len(),
    ensures
        blanks_end(pre + b, pre.len() + k) == pre.len() + blanks_end(b, k),
        k <= blanks_end(b, k) <= b.len(),
    decreases b.len() - k,
{
    if k < b.len() {
        assert((pre + b)[pre.len() + k] == b[k]);
        if is_blank(b[k]) {
            lemma_blanks_shift(pre, b, k + 1);
        }
    }
}

proof fn lemma_word_shift(pre: Seq<u8>, b: Seq<u8>, k: int)
    requires
        0 <= k <= b.len(),
    ensures
        word_end(pre + b, pre.len() + k) == pre.len() + word_end(b, k),
        k <= word_end(b, k) <= b.len(),
    decreases b.len() - k,
{
    if k < b.len() {
        assert((pre + b)[pre.len() + k] == b[k]);
        if !is_blank(b[k]) {
            lemma_word_shift(pre, b, k + 1);
        }
    }
}

proof fn lemma_words_shift(pre: Seq<u8>, b: Seq<u8>, k: int)
    requires
        0 <= k <= b.len(),
    ensures
        words_from(pre + b, pre.len() + k) == words_from(b, k),
    decreases b.len() - k,
{
    let s = pre + b;
    lemma_blanks_shift(pre, b, k);
    let from = blanks_end(b, k);
    lemma_word_shift(pre, b, from);
    let to = word_end(b, from);
    if from < to {
        lemma_words_shift(pre, b, to);
        assert(s.subrange(pre.len() + from, pre.len() + to) =~= b.subrange(from, to));
    }
}

proof fn lemma_blank_first(s: Seq<u8>, i: int)
    requires
        0 <= i < s.len(),
        is_blank(s[i]),
    ensures
        words_from(s, i) == words_from(s, i + 1),
{
    lemma_blanks_shift(Seq::empty(), s, i + 1);
    assert(Seq::<u8>::empty() + s =~= s);
    assert(blanks_end(s, i) == blanks_end(s, i + 1));
}

proof fn lemma_word_same(a: Seq<u8>, c: u8, b: Seq<u8>, i: int)
    requires
        is_blank(c),
        0 <= i <= a.len(),
    ensures
        word_end(a + seq![c] + b, i) == word_end(a, i),
        i <= word_end(a, i) <= a.len(),
    decreases a.len() - i,
{
    let s = a + seq![c] + b;
    if i < a.len() {
        assert(s[i] == a[i]);
        if !is_blank(a[i]) {
            lemma_word_same(a, c, b, i + 1);
        }
    } else {
        assert(s[i] == c);
    }
}

proof fn lemma_words_join(a: Seq<u8>, c: u8, b: Seq<u8>, i: int)
    requires
        is_blank(c),
        0 <= i <= a.len(),
    ensures
        words_from(a + seq![c] + b, i) == words_from(a, i) + words(b),
    decreases a.len() - i,
{
    let s = a + seq![c] + b;
    if i == a.len() {
        assert(s[i] == c);
        lemma_blank_first(s, i);
        lemma_words_shift(a + seq![c], b, 0);
        assert((a + seq![c]).len() == i + 1);
        assert(words_from(s, i + 1) == words(b));
        assert(words_from(a, i) =~= Seq::<Seq<u8>>::empty());
        assert(words_from(a, i) + words(b) =~= words(b));
    } else if is_blank(a[i]) {
        assert(s[i] == a[i]);
        lemma_blank_first(s, i);
        lemma_blank_first(a, i);
        lemma_words_join(a, c, b, i + 1);
    } else {
        assert(s[i] == a[i]);
        lemma_word_same(a, c, b, i);
        let to = word_end(a, i);
        lemma_word_same(a, c, b, i + 1);
        assert(to > i);
        assert(blanks_end(a, i) == i && blanks_end(s, i) == i);
        lemma_words_join(a, c, b, to);
        assert(s.subrange(i, to) =~= a.subrange(i, to));
        let w = seq![a.subrange(i, to)];
        assert(words_from(a, i) == w + words_from(a, to));
        assert(words_from(s, i) == w + words_from(s, to));
        assert((w + words_from(a, to)) + words(b) =~= w + (words_from(a, to) + words(b)));
    }
}

/// White space parts words: the words of two texts with white space between
/// them are those of the one and then those of the other.
pub proof fn white_space_parts_words(a: Seq<u8>, c: u8, b: Seq<u8>)
    requires
        is_blank(c),
    ensures
        words(a + seq![c] + b) == words(a) + words(b),
{
    lemma_words_join(a, c, b, 0);
}

/// A text without white space is one word.
pub proof fn unparted_text_is_one_word(w: Seq<u8>)
    requires
        w.len() > 0,
        forall|i: int| 0 <= i < w.len() ==> !is_blank(#[trigger] w[i]),
    ensures
        words(w) == seq![w],
        words(Seq::empty()) == Seq::<Seq<u8>>::empty(),
{
    lemma_word_full(w, 0);
    assert(!is_blank(w[0]));
    assert(blanks_end(w, 0) == 0);
    assert(words_from(w, w.len() as int) =~= Seq::<Seq<u8>>::empty());
    assert(w.subrange(0, w.len() as int) =~= w);
    assert(words(w) =~= seq![w]);
    assert(words(Seq::empty()) =~= Seq::<Seq<u8>>::empty());
}

proof fn lemma_word_full(w: Seq<u8>, i: int)
    requires
        0 <= i <= w.len(),
        forall|k: int| 0 <= k < w.len() ==> !is_blank(#[trigger] w[k]),
    ensures
        word_end(w, i) == w.len(),
    decreases w.len() - i,
{
    if i < w.len() {
        assert(!is_blank(w[i]));
        lemma_word_full(w, i + 1);
    }
}

// --- scanning -----------------------------------------------------------------------------------------

/// A byte of a number: a digit, a sign or a point.
pub open spec fn number_byte(b: u8) -> bool {
    (0x30 <= b <= 0x39) || b == 0x2B || b == 0x2D || b == 0x2E
}

proof fn lemma_number_end(s: Seq<u8>, i: int)
    requires
        0 <= i <= s.len(),
        forall|k: int| 0 <= k < s.len() ==> number_byte(#[trigger] s[k]) || is_blank(s[k]),
    ensures
        number_end(s, i) == word_end(s, i),
        i <= word_end(s, i) <= s.len(),
        word_end(s, i) < s.len() ==> is_blank(s[word_end(s, i)]),
    decreases s.len() - i,
{
    if i < s.len() {
        assert(number_byte(s[i]) || is_blank(s[i]));
        if !is_blank(s[i]) {
            lemma_number_end(s, i + 1);
        }
    }
}

proof fn lemma_numbers_scanned(s: Seq<u8>, i: int)
    requires
        0 <= i <= s.len(),
        i == 0 || i == s.len() || is_blank(s[i]) || is_blank(s[i - 1]),
        forall|k: int| 0 <= k < s.len() ==> number_byte(#[trigger] s[k]) || is_blank(s[k]),
    ensures
        tokens_from(s, false, i).map_values(|t: (int, int)| s.subrange(t.0, t.1)) == words_from(
            s,
            i,
        ),
    decreases s.len() - i,
{
    let f = |t: (int, int)| s.subrange(t.0, t.1);
    if i < s.len() {
        assert(number_byte(s[i]) || is_blank(s[i]));
        if is_blank(s[i]) {
            lemma_blank_first(s, i);
            lemma_numbers_scanned(s, i + 1);
            assert(tokens_from(s, false, i) == tokens_from(s, false, i + 1));
        } else {
            lemma_number_end(s, i);
            lemma_number_end(s, i + 1);
            let to = word_end(s, i);
            assert(to > i);
            assert(blanks_end(s, i) == i);
            lemma_numbers_scanned(s, to);
            let rest = tokens_from(s, false, to);
            assert(tokens_from(s, false, i) == seq![(i, to)] + rest);
            assert((seq![(i, to)] + rest).map_values(f) =~= seq![s.subrange(i, to)]
                + rest.map_values(f));
        }
    } else {
        assert(words_from(s, i) =~= Seq::<Seq<u8>>::empty());
        assert(tokens_from(s, false, i).map_values(f) =~= Seq::<Seq<u8>>::empty());
    }
}

/// In a text of numbers and white space, what is scanned is every word.
pub proof fn numbers_are_scanned(s: Seq<u8>)
    requires
        forall|k: int| 0 <= k < s.len() ==> number_byte(#[trigger] s[k]) || is_blank(s[k]),
    ensures
        tokens(s, false) == words(s),
{
    lemma_numbers_scanned(s, 0);
}

/// A string without parentheses or escapes inside ends behind its closing
/// parenthesis.
proof fn lemma_string(s: Seq<u8>, i: int, end: int, depth: int)
    requires
        0 <= i <= end < s.len(),
        depth >= 1,
        s[end] == 0x29,
        forall|k: int|
            i <= k < end ==> (#[trigger] s[k]) != 0x28 && s[k] != 0x29 && s[k] != 0x5C,
    ensures
        string_end(s, i, depth) == string_end(s, end + 1, depth - 1),
    decreases end - i,
{
    if i < end {
        assert(s[i] != 0x28);
        lemma_string(s, i + 1, end, depth);
    }
}

proof fn lemma_hex(s: Seq<u8>, i: int, end: int)
    requires
        0 <= i <= end < s.len(),
        s[end] == 0x3E,
        forall|k: int| i <= k < end ==> (#[trigger] s[k]) != 0x3E,
    ensures
        hex_end(s, i) == end,
    decreases end - i,
{
    if i < end {
        assert(s[i] != 0x3E);
        lemma_hex(s, i + 1, end);
    }
}

proof fn lemma_comment(s: Seq<u8>, i: int, end: int)
    requires
        0 <= i <= end < s.len(),
        s[end] == 0x0A,
        forall|k: int| i <= k < end ==> (#[trigger] s[k]) != 0x0A && s[k] != 0x0D,
    ensures
        comment_end(s, i) == end,
    decreases end - i,
{
    if i < end {
        assert(s[i] != 0x0A);
        lemma_comment(s, i + 1, end);
    }
}

/// Nothing inside a string, a hexadecimal string or a comment is scanned:
/// scanning goes on behind it.
pub proof fn strings_and_comments_are_passed_over(
    pre: Seq<u8>,
    t: Seq<u8>,
    post: Seq<u8>,
    skip: bool,
)
    requires
        forall|k: int|
            0 <= k < t.len() ==> (#[trigger] t[k]) != 0x28 && t[k] != 0x29 && t[k] != 0x5C && t[k]
                != 0x3C && t[k] != 0x3E && t[k] != 0x0A && t[k] != 0x0D,
    ensures
        ({
            let s = pre + seq![0x28u8] + t + seq![0x29u8] + post;
            tokens_from(s, skip, pre.len() as int) == tokens_from(
                s,
                skip,
                (pre.len() + t.len() + 2) as int,
            )
        }),
        ({
            let s = pre + seq![0x3Cu8] + t + seq![0x3Eu8] + post;
            tokens_from(s, skip, pre.len() as int) == tokens_from(
                s,
                skip,
                (pre.len() + t.len() + 2) as int,
            )
        }),
        ({
            let s = pre + seq![0x25u8] + t + seq![0x0Au8] + post;
            tokens_from(s, skip, pre.len() as int) == tokens_from(
                s,
                skip,
                (pre.len() + t.len() + 1) as int,
            )
        }),
{
    let at = pre.len() as int;
    let end = at + 1 + t.len();
    let a = pre + seq![0x28u8] + t + seq![0x29u8] + post;
    assert(a[at] == 0x28 && a[end] == 0x29);
    assert forall|k: int| at + 1 <= k < end implies (#[trigger] a[k]) != 0x28 && a[k] != 0x29 && a[k]
        != 0x5C by {
        assert(a[k] == t[k - at - 1]);
    }
    lemma_string(a, at + 1, end, 1);
    assert(string_end(a, at + 1, 1) == end + 1);
    let b = pre + seq![0x3Cu8] + t + seq![0x3Eu8] + post;
    assert(b[at] == 0x3C && b[end] == 0x3E);
    assert forall|k: int| at + 1 <= k < end implies (#[trigger] b[k]) != 0x3E && b[k] != 0x3C by {
        assert(b[k] == t[k - at - 1]);
    }
    lemma_hex(b, at + 1, end);
    assert(b[at + 1] != 0x3C) by {
        if t.len() > 0 {
            assert(b[at + 1] == t[0]);
        }
    }
    let c = pre + seq![0x25u8] + t + seq![0x0Au8] + post;
    assert(c[at] == 0x25 && c[end] == 0x0A);
    assert forall|k: int| at <= k < end implies (#[trigger] c[k]) != 0x0A && c[k] != 0x0D by {
        if k > at {
            assert(c[k] == t[k - at - 1]);
        }
    }
    lemma_comment(c, at, end);
}

// --- object streams -----------------------------------------------------------------------------------

/// The objects with the offsets of their bodies.
pub open spec fn told(pairs: Seq<(int, int)>, list: Seq<Seq<u8>>) -> Seq<(int, int)> {
    Seq::new(pairs.len(), |k: int| (pairs[k].0, body_offset(list, k) as int))
}

proof fn lemma_digit_word(n: nat)
    ensures
        words(decimal_digits(n)) == seq![decimal_digits(n)],
        word_value(decimal_digits(n), n as int) == Some(n as int),
{
    decimal_reads_back(n);
    let d = decimal_digits(n);
    assert(is_digit(d[0]));
    assert forall|i: int| 0 <= i < d.len() implies !is_blank(#[trigger] d[i]) by {
        assert(is_digit(d[i]));
    }
    unparted_text_is_one_word(d);
}

proof fn lemma_signed_word(v: int)
    requires
        -0x8000_0000_0000_0000 <= v <= 0x7FFF_FFFF_FFFF_FFFF,
    ensures
        words(signed_digits(v)) == seq![signed_digits(v)],
        signed_word_value(signed_digits(v)) == Some(v),
{
    let d = signed_digits(v);
    if v < 0 {
        let m = decimal_digits((-v) as nat);
        decimal_reads_back((-v) as nat);
        assert(d.skip(1) =~= m);
        assert forall|i: int| 0 <= i < d.len() implies !is_blank(#[trigger] d[i]) by {
            if i > 0 {
                assert(d[i] == m[i - 1]);
                assert(is_digit(m[i - 1]));
            }
        }
        unparted_text_is_one_word(d);
    } else {
        decimal_reads_back(v as nat);
        assert(is_digit(d[0]));
        lemma_digit_word(v as nat);
    }
}

proof fn lemma_header_words(pairs: Seq<(int, int)>, list: Seq<Seq<u8>>, n: int)
    requires
        0 <= n <= pairs.len(),
        forall|k: int|
            0 <= k < pairs.len() ==> -0x8000_0000_0000_0000 <= (#[trigger] pairs[k]).0
                <= 0x7FFF_FFFF_FFFF_FFFF,
    ensures
        words(new_header(pairs, list, n)).len() == 2 * n,
        forall|k: int|
            0 <= k < n ==> words(new_header(pairs, list, n))[2 * k] == signed_digits(
                (#[trigger] pairs[k]).0,
            ) && words(new_header(pairs, list, n))[2 * k + 1] == decimal_digits(
                body_offset(list, k),
            ),
    decreases n,
{
    if n > 0 {
        lemma_header_words(pairs, list, n - 1);
        let before = new_header(pairs, list, n - 1);
        assert(-0x8000_0000_0000_0000 <= pairs[n - 1].0 <= 0x7FFF_FFFF_FFFF_FFFF);
        let id = signed_digits(pairs[n - 1].0);
        let off = decimal_digits(body_offset(list, n - 1));
        lemma_signed_word(pairs[n - 1].0);
        lemma_digit_word(body_offset(list, n - 1));
        let own = id + seq![0x20u8] + off;
        white_space_parts_words(id, 0x20, off);
        assert(words(own) =~= seq![id, off]);
        let all = new_header(pairs, list, n);
        if n > 1 {
            white_space_parts_words(before, 0x20, own);
            assert(all =~= before + seq![0x20u8] + own);
        } else {
            assert(all =~= own);
            assert(words(before) =~= Seq::<Seq<u8>>::empty());
        }
        let w = words(all);
        assert(w =~= words(before) + seq![id, off]);
        assert forall|k: int| 0 <= k < n implies w[2 * k] == signed_digits((#[trigger] pairs[k]).0)
            && w[2 * k + 1] == decimal_digits(body_offset(list, k)) by {
            if k < n - 1 {
                assert(w[2 * k] == words(before)[2 * k] && w[2 * k + 1] == words(before)[2 * k
                    + 1]);
            }
        }
    } else {
        assert(words(new_header(pairs, list, n)) =~= Seq::<Seq<u8>>::empty());
    }
}

proof fn lemma_pairs(w: Seq<Seq<u8>>, pairs: Seq<(int, int)>, list: Seq<Seq<u8>>, n: int)
    requires
        0 <= n <= pairs.len(),
        forall|k: int|
            0 <= k < n ==> w[2 * k] == signed_digits((#[trigger] pairs[k]).0) && w[2 * k + 1]
                == decimal_digits(body_offset(list, k)),
        forall|k: int|
            0 <= k < n ==> -0x8000_0000_0000_0000 <= (#[trigger] pairs[k]).0
                <= 0x7FFF_FFFF_FFFF_FFFF && body_offset(list, k) <= usize::MAX,
    ensures
        header_pairs(w, n) == Some(told(pairs, list).take(n)),
    decreases n,
{
    if n > 0 {
        lemma_pairs(w, pairs, list, n - 1);
        assert(-0x8000_0000_0000_0000 <= pairs[n - 1].0 <= 0x7FFF_FFFF_FFFF_FFFF);
        lemma_signed_word(pairs[n - 1].0);
        lemma_digit_word(body_offset(list, n - 1));
        assert(w[2 * (n - 1)] == signed_digits(pairs[n - 1].0));
        assert(told(pairs, list).take(n) =~= told(pairs, list).take(n - 1).push(
            told(pairs, list)[n - 1],
        ));
    } else {
        assert(told(pairs, list).take(0) =~= Seq::empty());
    }
}

proof fn lemma_offsets_within(list: Seq<Seq<u8>>, k: int, n: int)
    requires
        0 <= k <= n <= list.len(),
    ensures
        body_offset(list, k) <= body_offset(list, n),
        joined(list, n).len() == body_offset(list, n),
        joined(list, k).len() == body_offset(list, k),
        joined(list, n).take(body_offset(list, k) as int) == joined(list, k),
    decreases n,
{
    if k < n {
        lemma_offsets_within(list, k, n - 1);
        assert(joined(list, n).take(body_offset(list, k) as int) =~= joined(list, n - 1).take(
            body_offset(list, k) as int,
        ));
    } else {
        if n > 0 {
            lemma_offsets_within(list, n - 1, n - 1);
        }
        assert(joined(list, n).take(joined(list, n).len() as int) =~= joined(list, n));
    }
}

/// An object stream that is put together again reads back: its header gives
/// each object its number and the place of its body, and at that place the
/// body stands.
pub proof fn object_stream_reads_back(pairs: Seq<(int, int)>, list: Seq<Seq<u8>>, i: int)
    requires
        0 < pairs.len(),
        pairs.len() == list.len(),
        forall|k: int|
            0 <= k < pairs.len() ==> -0x8000_0000_0000_0000 <= (#[trigger] pairs[k]).0
                <= 0x7FFF_FFFF_FFFF_FFFF,
        body_offset(list, list.len() as int) <= usize::MAX,
        0 <= i < pairs.len(),
    ensures
        ({
            let n = list.len() as int;
            let header = new_header(pairs, list, n) + seq![0x0Au8];
            let payload = header + joined(list, n);
            &&& payload.take(header.len() as int) == header
            &&& objstm_header(header, n) == Some(told(pairs, list))
            &&& told(pairs, list)[i].0 == pairs[i].0
            &&& body_at(payload, header.len() as int, told(pairs, list), i) == Some(list[i])
        }),
{
    let n = list.len() as int;
    let h = new_header(pairs, list, n);
    let header = h + seq![0x0Au8];
    let body = joined(list, n);
    let payload = header + body;
    lemma_header_words(pairs, list, n);
    white_space_parts_words(h, 0x0A, Seq::empty());
    assert(h + seq![0x0Au8] + Seq::<u8>::empty() =~= header);
    assert(words(Seq::<u8>::empty()) =~= Seq::<Seq<u8>>::empty());
    assert(words(header) =~= words(h));
    assert forall|k: int| 0 <= k < n implies -0x8000_0000_0000_0000 <= (#[trigger] pairs[k]).0
        <= 0x7FFF_FFFF_FFFF_FFFF && body_offset(list, k) <= usize::MAX by {
        lemma_offsets_within(list, k, n);
    }
    lemma_pairs(words(header), pairs, list, n);
    let t = told(pairs, list);
    assert(t.take(n) =~= t);
    assert(payload.take(header.len() as int) =~= header);
    lemma_offsets_within(list, i, n);
    lemma_offsets_within(list, i + 1, n);
    let from = body_offset(list, i) as int;
    let to = body_offset(list, i + 1) as int;
    assert(to == from + list[i].len());
    assert(body.take(to) == joined(list, i + 1));
    assert(body.subrange(from, to) =~= body.take(to).skip(from));
    assert(joined(list, i + 1).skip(from) =~= list[i]);
    if i + 1 < n {
        assert(t[i + 1].1 == to);
    } else {
        assert(body.len() == to);
    }
    assert(payload.subrange(header.len() + from, header.len() + to) =~= body.subrange(from, to));
}

// --- cross-reference tables ---------------------------------------------------------------------------

/// The power of ten.
pub open spec fn tens(k: int) -> int
    decreases k,
{
    if k <= 0 {
        1
    } else {
        10 * tens(k - 1)
    }
}

proof fn lemma_fixed(v: int, k: int)
    requires
        0 <= k,
        0 <= v < tens(k),
    ensures
        fixed_digits(v, k).len() == k,
        all_digits(fixed_digits(v, k)),
        digits_value(fixed_digits(v, k)) == v,
    decreases k,
{
    if k > 0 {
        lemma_fixed(v / 10, k - 1);
        let d = fixed_digits(v, k);
        let front = fixed_digits(v / 10, k - 1);
        assert(d.drop_last() =~= front);
        assert forall|i: int| 0 <= i < d.len() implies is_digit(#[trigger] d[i]) by {
            if i < k - 1 {
                assert(d[i] == front[i]);
            }
        }
    }
}

/// A row of a cross-reference table that is in use gets the moved offset in
/// its ten digits, and nothing else of the file changes; a free row stays as
/// it is.
pub proof fn table_row_is_moved(s: Seq<u8>, q: int, edits: Seq<EditValue>, i: int)
    requires
        0 <= q,
        classic_row(s, q, edits) is Some,
        forall|offset: int|
            0 <= offset ==> (shifted(edits, offset) is Some ==> #[trigger] shifted(edits, offset)->0
                >= 0),
        0 <= i < s.len(),
    ensures
        ({
            let t = classic_row(s, q, edits)->0;
            let old = digits_value(s.subrange(q, q + 10));
            &&& t.len() == s.len()
            &&& i < q || q + 10 <= i ==> t[i] == s[i]
            &&& s[q + 17] == 0x66 ==> t == s
            &&& s[q + 17] == 0x6E && s[q] != 0x2B ==> shifted(edits, old as int) == Some(
                digits_value(t.subrange(q, q + 10)) as int,
            )
        }),
{
    let t = classic_row(s, q, edits)->0;
    if s[q + 17] == 0x6E {
        let field = s.subrange(q, q + 10);
        let offset = word_value(field, usize::MAX as int)->0;
        let moved = shifted(edits, offset)->0;
        assert(offset >= 0);
        assert(tens(10) == 10_000_000_000) by {
            reveal_with_fuel(tens, 11);
        }
        lemma_fixed(moved, 10);
        let d = fixed_digits(moved, 10);
        assert(t == s.take(q) + d + s.skip(q + 10));
        assert(t.subrange(q, q + 10) =~= d);
        assert(field[0] == s[q]);
    }
}

/// The widths of the fields of a cross-reference stream are read from its
/// `/W`: a first field of one byte, an offset of `a` bytes and a last field
/// of `b` bytes make rows of all three.
pub proof fn field_widths_are_read(pre: Seq<u8>, a: nat, b: nat, post: Seq<u8>)
    requires
        1 <= a <= 8,
        1 + a + b <= usize::MAX,
        ({
            let dict = pre + "/W[".spec_bytes() + seq![0x31u8, 0x20] + decimal_digits(a)
                + seq![0x20u8] + decimal_digits(b) + "]".spec_bytes() + post;
            &&& find_from(dict, "/W[".spec_bytes(), 0) == Some(pre.len() as int)
            &&& find_from(dict, "]".spec_bytes(), pre.len() as int) == Some(
                (pre.len() + 6 + decimal_digits(a).len() + decimal_digits(b).len()) as int,
            )
        }),
    ensures
        ({
            let dict = pre + "/W[".spec_bytes() + seq![0x31u8, 0x20] + decimal_digits(a)
                + seq![0x20u8] + decimal_digits(b) + "]".spec_bytes() + post;
            xref_widths(dict) == Some((Widths { offset: a as int, row: (1 + a + b) as int }))
        }),
{
    crate::words::words_spelled_1();
    reveal_strlit("/W[");
    reveal_strlit("]");
    assert("/W[".is_ascii() && "]".is_ascii());
    assert("/W[".spec_bytes().len() == 3);
    let x = decimal_digits(a);
    let y = decimal_digits(b);
    let one = seq![0x31u8];
    let dict = pre + "/W[".spec_bytes() + seq![0x31u8, 0x20] + x + seq![0x20u8] + y
        + "]".spec_bytes() + post;
    let at = pre.len() as int + 3;
    let close = at + 3 + x.len() + y.len();
    let inner = one + seq![0x20u8] + (x + seq![0x20u8] + y);
    assert(dict.subrange(at, close) =~= inner);
    lemma_digit_word(a);
    lemma_digit_word(b);
    decimal_reads_back(1);
    assert(decimal_digits(1) =~= one);
    lemma_digit_word(1);
    white_space_parts_words(x, 0x20, y);
    white_space_parts_words(one, 0x20, x + seq![0x20u8] + y);
    let list = words(inner);
    assert(list =~= seq![one, x, y]);
    lemma_word_within(a, usize::MAX as int);
    lemma_word_within(b, usize::MAX as int);
    lemma_word_within(1, usize::MAX as int);
    reveal_with_fuel(word_numbers, 4);
    assert(word_numbers(list, 3) == Some(seq![1int, a as int, b as int])) by {
        assert(Seq::<int>::empty().push(1).push(a as int).push(b as int) =~= seq![
            1int,
            a as int,
            b as int,
        ]);
    }
}

proof fn lemma_word_within(n: nat, limit: int)
    requires
        n <= limit,
    ensures
        word_value(decimal_digits(n), limit) == Some(n as int),
{
    decimal_reads_back(n);
    assert(is_digit(decimal_digits(n)[0]));
}

} // verus!
