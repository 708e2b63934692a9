//! Content streams: finding their numbers, spelling those as short as
//! possible, and writing a stream anew in fewer bytes.

use crate::bytes::same_bytes;
use crate::edit::{apply_edits, edit_views, edited, Edit, EditValue};
use crate::equiv::{equivalent_operations, operations_equivalent};
use crate::flate::{deflate_backend, deflate_outcome, opt_view, DeflateBackend};
use crate::inline::{known_operations_strict, read_operations_strict};
use crate::pdf::{
    encode_operations, encoded, operation_views,
    ContentOp, OperationValue,
};
use crate::reals::scan::{comment_end, hex_end, place_ints, within};
use crate::text::is_digit;
use vstd::prelude::*;

verus! {

// --- finding numbers ---------------------------------------------------------------

/// White space of a content stream.
pub open spec fn is_content_blank(b: u8) -> bool {
    b == 0 || b == 0x09 || b == 0x0A || b == 0x0C || b == 0x0D || b == 0x20
}

/// A regular character: neither white space nor a delimiter.
pub open spec fn is_regular(b: u8) -> bool {
    !is_content_blank(b) && b != 0x28 && b != 0x29 && b != 0x3C && b != 0x3E && b != 0x5B && b
        != 0x5D && b != 0x7B && b != 0x7D && b != 0x2F && b != 0x25
}

/// Whether `b` is a regular character.
pub fn is_regular_content_char(b: u8) -> (r: bool)
    ensures
        r == is_regular(b),
{
    b != 0 && b != 0x09 && b != 0x0A && b != 0x0C && b != 0x0D && b != 0x20 && b != 0x28 && b
        != 0x29 && b != 0x3C && b != 0x3E && b != 0x5B && b != 0x5D && b != 0x7B && b != 0x7D && b
        != 0x2F && b != 0x25
}

/// End of the run of regular characters from `i` on.
pub open spec fn regular_end(s: Seq<u8>, i: int) -> int
    decreases s.len() - i,
{
    if 0 <= i < s.len() && is_regular(s[i]) {
        regular_end(s, i + 1)
    } else {
        i
    }
}

/// End of the run of digits and points from `i` on.
pub open spec fn figures_end(s: Seq<u8>, i: int) -> int
    decreases s.len() - i,
{
    if 0 <= i < s.len() && (is_digit(s[i]) || s[i] == 0x2E) {
        figures_end(s, i + 1)
    } else {
        i
    }
}

/// End of the literal string of which `depth` parentheses are open at `i`;
/// `None` where it does not end.
pub open spec fn string_close(s: Seq<u8>, i: int, depth: int) -> Option<int>
    decreases s.len() - i + 1,
{
    if depth <= 0 {
        Some(i)
    } else if i < 0 || i >= s.len() {
        None
    } else if s[i] == 0x5C {
        string_close(s, i + 2, depth)
    } else if s[i] == 0x28 {
        string_close(s, i + 1, depth + 1)
    } else if s[i] == 0x29 {
        string_close(s, i + 1, depth - 1)
    } else {
        string_close(s, i + 1, depth)
    }
}

/// A number starts with `b`.
pub open spec fn starts_number(b: u8) -> bool {
    is_digit(b) || b == 0x2B || b == 0x2D || b == 0x2E
}

/// Where the lexer goes on from `i`; `None` where it is lost. What can hide
/// digits is skipped: strings, names, comments and other words.
pub open spec fn next_at(s: Seq<u8>, i: int) -> Option<int> {
    let b = s[i];
    if is_content_blank(b) {
        Some(i + 1)
    } else if b == 0x25 {
        Some(comment_end(s, i))
    } else if b == 0x28 {
        string_close(s, i + 1, 1)
    } else if b == 0x3C {
        if i + 1 < s.len() && s[i + 1] == 0x3C {
            Some(i + 2)
        } else {
            Some(within(hex_end(s, i + 1) + 1, s))
        }
    } else if b == 0x2F {
        Some(regular_end(s, i + 1))
    } else if starts_number(b) {
        Some(figures_end(s, i + 1))
    } else if is_regular(b) {
        Some(regular_end(s, i + 1))
    } else {
        Some(i + 1)
    }
}

/// The places of the numbers from `i` on; `None` where the lexer is lost.
pub open spec fn number_places_from(s: Seq<u8>, i: int) -> Option<Seq<(int, int)>>
    decreases s.len() - i,
{
    if i < 0 || i >= s.len() {
        Some(Seq::empty())
    } else {
        match next_at(s, i) {
            None => None,
            Some(next) => if !(i < next <= s.len()) {
                None
            } else {
                match number_places_from(s, next) {
                    None => None,
                    Some(rest) => if starts_number(s[i]) {
                        Some(seq![(i, next)] + rest)
                    } else {
                        Some(rest)
                    },
                }
            },
        }
    }
}

/// The places of the numbers of a content stream.
pub open spec fn number_places(s: Seq<u8>) -> Option<Seq<(int, int)>> {
    number_places_from(s, 0)
}

fn skip_regular(data: &[u8], from: usize) -> (r: usize)
    requires
        from <= data@.len(),
    ensures
        r == regular_end(data@, from as int),
        from <= r <= data@.len(),
{
    let mut i: usize = from;
    while i < data.len() && is_regular_content_char(data[i])
        invariant
            from <= i <= data@.len(),
            regular_end(data@, from as int) == regular_end(data@, i as int),
        decreases data@.len() - i,
    {
        i += 1;
    }
    i
}

fn skip_figures(data: &[u8], from: usize) -> (r: usize)
    requires
        from <= data@.len(),
    ensures
        r == figures_end(data@, from as int),
        from <= r <= data@.len(),
{
    let mut i: usize = from;
    while i < data.len() && (crate::text::digit(data[i]) || data[i] == 0x2E)
        invariant
            from <= i <= data@.len(),
            figures_end(data@, from as int) == figures_end(data@, i as int),
        decreases data@.len() - i,
    {
        i += 1;
    }
    i
}

fn skip_comment(data: &[u8], from: usize) -> (r: usize)
    requires
        from < data@.len(),
        data@[from as int] == 0x25,
    ensures
        r == comment_end(data@, from as int),
        from < r <= data@.len(),
{
    let mut i: usize = from;
    while i < data.len() && data[i] != 0x0A && data[i] != 0x0D
        invariant
            from <= i <= data@.len(),
            data@[from as int] == 0x25,
            comment_end(data@, from as int) == comment_end(data@, i as int),
        decreases data@.len() - i,
    {
        i += 1;
    }
    i
}

fn skip_hex(data: &[u8], from: usize) -> (r: usize)
    requires
        from <= data@.len(),
    ensures
        r == within(hex_end(data@, from as int) + 1, data@),
        from <= r <= data@.len(),
{
    let mut i: usize = from;
    while i < data.len() && data[i] != 0x3E
        invariant
            from <= i <= data@.len(),
            hex_end(data@, from as int) == hex_end(data@, i as int),
        decreases data@.len() - i,
    {
        i += 1;
    }
    if i < data.len() {
        i + 1
    } else {
        i
    }
}

fn skip_string(data: &[u8], from: usize) -> (r: Option<usize>)
    requires
        1 <= from <= data@.len(),
    ensures
        match r {
            Some(end) => string_close(data@, from as int, 1) == Some(end as int) && from <= end
                <= data@.len(),
            None => string_close(data@, from as int, 1) is None,
        },
{
    let total: usize = data.len();
    let mut i: usize = from;
    let mut depth: usize = 1;
    while i < total && depth > 0
        invariant
            total == data@.len(),
            1 <= from <= i <= total,
            depth <= 1 + (i - from),
            string_close(data@, from as int, 1) == string_close(data@, i as int, depth as int),
        decreases total - i,
    {
        let b: u8 = data[i];
        if b == 0x5C {
            if total - i < 2 {
                proof {
                    assert(string_close(data@, i + 2, depth as int) is None);
                }
                return None;
            }
            i = i + 2;
        } else if b == 0x28 {
            depth = depth + 1;
            i += 1;
        } else if b == 0x29 {
            depth = depth - 1;
            i += 1;
        } else {
            i += 1;
        }
    }
    if depth > 0 {
        None
    } else {
        Some(i)
    }
}

/// One step of the lexer.
fn lex(data: &[u8], i: usize) -> (r: Option<usize>)
    requires
        i < data@.len(),
    ensures
        match r {
            Some(next) => next_at(data@, i as int) == Some(next as int) && i < next <= data@.len(),
            None => next_at(data@, i as int) is None,
        },
{
    let b: u8 = data[i];
    if b == 0 || b == 0x09 || b == 0x0A || b == 0x0C || b == 0x0D || b == 0x20 {
        Some(i + 1)
    } else if b == 0x25 {
        Some(skip_comment(data, i))
    } else if b == 0x28 {
        skip_string(data, i + 1)
    } else if b == 0x3C {
        if i + 1 < data.len() && data[i + 1] == 0x3C {
            Some(i + 2)
        } else {
            Some(skip_hex(data, i + 1))
        }
    } else if b == 0x2F {
        Some(skip_regular(data, i + 1))
    } else if crate::text::digit(b) || b == 0x2B || b == 0x2D || b == 0x2E {
        Some(skip_figures(data, i + 1))
    } else if is_regular_content_char(b) {
        Some(skip_regular(data, i + 1))
    } else {
        Some(i + 1)
    }
}

/// The places, start and end, of every number of a content stream, in order.
/// `None` where the lexer is lost; the caller then keeps the stream.
pub fn content_number_tokens(bytes: &[u8]) -> (r: Option<Vec<(usize, usize)>>)
    ensures
        match r {
            Some(v) => number_places(bytes@) == Some(place_ints(v@)) && places_ordered(
                place_ints(v@),
                bytes@.len() as int,
            ),
            None => number_places(bytes@) is None,
        },
{
    let total: usize = bytes.len();
    let mut out: Vec<(usize, usize)> = Vec::new();
    let mut i: usize = 0;
    let ghost goal = number_places(bytes@);
    proof {
        match number_places_from(bytes@, 0) {
            Some(rest) => {
                assert(place_ints(out@) + rest =~= rest);
            },
            None => {},
        }
    }
    while i < total
        invariant
            i <= total,
            total == bytes@.len(),
            goal == number_places(bytes@),
            goal == match number_places_from(bytes@, i as int) {
                Some(rest) => Some(place_ints(out@) + rest),
                None => None,
            },
            places_ordered(place_ints(out@), i as int),
        decreases total - i,
    {
        let next: usize = lex(bytes, i)?;
        let b: u8 = bytes[i];
        let ghost before = place_ints(out@);
        if crate::text::digit(b) || b == 0x2B || b == 0x2D || b == 0x2E {
            out.push((i, next));
            proof {
                assert(place_ints(out@) =~= before.push((i as int, next as int)));
                match number_places_from(bytes@, next as int) {
                    Some(rest) => {
                        assert(before + (seq![(i as int, next as int)] + rest) =~= place_ints(out@)
                            + rest);
                    },
                    None => {},
                }
            }
        }
        i = next;
    }
    proof {
        assert(place_ints(out@) + Seq::empty() =~= place_ints(out@));
    }
    Some(out)
}

/// Places in order, without overlap, inside `len` bytes.
pub open spec fn places_ordered(places: Seq<(int, int)>, len: int) -> bool {
    &&& forall|k: int|
        0 <= k < places.len() ==> 0 <= (#[trigger] places[k]).0 < places[k].1 <= len
    &&& forall|j: int, k: int|
        0 <= j < k < places.len() ==> (#[trigger] places[j]).1 <= (#[trigger] places[k]).0
}

// --- spelling numbers -------------------------------------------------------------------

/// Place of the first point of `s` from `i` on; the length where there is none.
pub open spec fn point_at(s: Seq<u8>, i: int) -> int
    decreases s.len() - i,
{
    if 0 <= i < s.len() && s[i] != 0x2E {
        point_at(s, i + 1)
    } else {
        i
    }
}

/// `s` without leading zeros.
pub open spec fn trim_front(s: Seq<u8>) -> Seq<u8>
    decreases s.len(),
{
    if s.len() > 0 && s[0] == 0x30 {
        trim_front(s.skip(1))
    } else {
        s
    }
}

/// `s` without trailing zeros.
pub open spec fn trim_back(s: Seq<u8>) -> Seq<u8>
    decreases s.len(),
{
    if s.len() > 0 && s.last() == 0x30 {
        trim_back(s.drop_last())
    } else {
        s
    }
}

/// The literal starts with a minus sign.
pub open spec fn is_negative(s: Seq<u8>) -> bool {
    s.len() > 0 && s[0] == 0x2D
}

/// The literal without its sign.
pub open spec fn unsigned(s: Seq<u8>) -> Seq<u8> {
    if s.len() > 0 && (s[0] == 0x2D || s[0] == 0x2B) {
        s.skip(1)
    } else {
        s
    }
}

/// What stands before the point.
pub open spec fn whole_part(s: Seq<u8>) -> Seq<u8> {
    unsigned(s).take(point_at(unsigned(s), 0))
}

/// What stands after the point.
pub open spec fn fraction_part(s: Seq<u8>) -> Seq<u8> {
    let u = unsigned(s);
    let p = point_at(u, 0);
    if p < u.len() {
        u.skip(p + 1)
    } else {
        Seq::empty()
    }
}

/// The shortest spelling with the same decimal value: no `+`, no leading
/// zeros, no trailing zeros after the point, no bare point, no negative zero.
pub open spec fn minified_number(s: Seq<u8>) -> Seq<u8> {
    let whole = trim_front(whole_part(s));
    let fraction = trim_back(fraction_part(s));
    let sign = if is_negative(s) && !(whole.len() == 0 && fraction.len() == 0) {
        seq![0x2Du8]
    } else {
        Seq::empty()
    };
    if fraction.len() == 0 {
        if whole.len() == 0 {
            seq![0x30u8]
        } else {
            sign + whole
        }
    } else {
        sign + whole + seq![0x2Eu8] + fraction
    }
}

pub proof fn lemma_point_at(s: Seq<u8>, i: int)
    requires
        0 <= i <= s.len(),
    ensures
        i <= point_at(s, i) <= s.len(),
        forall|k: int| i <= k < point_at(s, i) ==> #[trigger] s[k] != 0x2E,
        point_at(s, i) < s.len() ==> s[point_at(s, i)] == 0x2E,
    decreases s.len() - i,
{
    if i < s.len() && s[i] != 0x2E {
        lemma_point_at(s, i + 1);
    }
}

/// The first byte of `data[from..to]` that is not a zero digit.
fn front_trimmed(data: &[u8], from: usize, to: usize) -> (r: usize)
    requires
        from <= to <= data@.len(),
    ensures
        from <= r <= to,
        data@.subrange(r as int, to as int) == trim_front(
            data@.subrange(from as int, to as int),
        ),
{
    let mut i: usize = from;
    while i < to && data[i] == 0x30
        invariant
            from <= i <= to <= data@.len(),
            trim_front(data@.subrange(from as int, to as int)) == trim_front(
                data@.subrange(i as int, to as int),
            ),
        decreases to - i,
    {
        proof {
            assert(data@.subrange(i as int, to as int).skip(1) =~= data@.subrange(
                i + 1,
                to as int,
            ));
        }
        i += 1;
    }
    i
}

/// The end of `data[from..to]` without its trailing zero digits.
pub fn back_trimmed(data: &[u8], from: usize, to: usize) -> (r: usize)
    requires
        from <= to <= data@.len(),
    ensures
        from <= r <= to,
        data@.subrange(from as int, r as int) == trim_back(data@.subrange(from as int, to as int)),
{
    let mut i: usize = to;
    while i > from && data[i - 1] == 0x30
        invariant
            from <= i <= to <= data@.len(),
            trim_back(data@.subrange(from as int, to as int)) == trim_back(
                data@.subrange(from as int, i as int),
            ),
        decreases i,
    {
        proof {
            assert(data@.subrange(from as int, i as int).drop_last() =~= data@.subrange(
                from as int,
                i - 1,
            ));
        }
        i -= 1;
    }
    i
}

/// Shortest decimal-exact form of a number literal: drops a `+` sign,
/// leading zeros, trailing zeros after the point, and a bare trailing point.
/// It never changes the decimal value.
pub fn minify_number_literal(text: &[u8]) -> (r: Vec<u8>)
    ensures
        r@ == minified_number(text@),
{
    let total: usize = text.len();
    let negative = total > 0 && text[0] == 0x2D;
    let from: usize = if total > 0 && (text[0] == 0x2D || text[0] == 0x2B) {
        1
    } else {
        0
    };
    let ghost u = unsigned(text@);
    proof {
        assert(u =~= text@.subrange(from as int, total as int));
    }
    let mut point: usize = from;
    while point < total && text[point] != 0x2E
        invariant
            from <= point <= total,
            total == text@.len(),
            u == text@.subrange(from as int, total as int),
            point_at(u, 0) == point_at(u, point - from),
        decreases total - point,
    {
        point += 1;
    }
    let whole_from: usize = front_trimmed(text, from, point);
    let (frac_from, frac_to): (usize, usize) = if point < total {
        (point + 1, back_trimmed(text, point + 1, total))
    } else {
        (total, total)
    };
    proof {
        assert(whole_part(text@) =~= text@.subrange(from as int, point as int));
        if point < total {
            assert(fraction_part(text@) =~= text@.subrange(point + 1, total as int));
        } else {
            assert(fraction_part(text@) =~= Seq::empty());
            assert(text@.subrange(total as int, total as int) =~= Seq::empty());
            assert(trim_back(Seq::<u8>::empty()) =~= Seq::empty());
        }
    }
    let ghost whole = trim_front(whole_part(text@));
    let ghost fraction = trim_back(fraction_part(text@));
    let mut out: Vec<u8> = Vec::new();
    if whole_from == point && frac_from == frac_to {
        out.push(0x30);
        proof {
            assert(whole.len() == 0 && fraction.len() == 0);
            assert(out@ =~= minified_number(text@));
        }
        return out;
    }
    if negative {
        out.push(0x2D);
    }
    out.extend_from_slice(vstd::slice::slice_subrange(text, whole_from, point));
    if frac_from < frac_to {
        out.push(0x2E);
        out.extend_from_slice(vstd::slice::slice_subrange(text, frac_from, frac_to));
    }
    proof {
        assert(out@ =~= minified_number(text@));
    }
    out
}

// --- what numbers are worth ------------------------------------------------------------

/// Number of points in `s`.
pub open spec fn points_in(s: Seq<u8>) -> int
    decreases s.len(),
{
    if s.len() == 0 {
        0
    } else {
        points_in(s.drop_last()) + (if s.last() == 0x2E {
            1int
        } else {
            0
        })
    }
}

/// A number literal: at most one point and at least one digit.
pub open spec fn is_number(s: Seq<u8>) -> bool {
    points_in(s) <= 1 && exists|i: int| 0 <= i < s.len() && is_digit(#[trigger] s[i])
}

/// The numbers at the first `n` places, each in its shortest spelling;
/// `None` where one is no number.
pub open spec fn values_at(s: Seq<u8>, places: Seq<(int, int)>, n: int) -> Option<Seq<Seq<u8>>>
    decreases n,
{
    if n <= 0 {
        Some(Seq::empty())
    } else {
        let t = s.subrange(places[n - 1].0, places[n - 1].1);
        match values_at(s, places, n - 1) {
            None => None,
            Some(before) => if is_number(t) {
                Some(before.push(minified_number(t)))
            } else {
                None
            },
        }
    }
}

/// The numbers of a content stream by their exact decimal values; `None`
/// where the lexer is lost or meets what is no number.
pub open spec fn number_values(s: Seq<u8>) -> Option<Seq<Seq<u8>>> {
    match number_places(s) {
        Some(places) => values_at(s, places, places.len() as int),
        None => None,
    }
}

/// Whether `text` is a number literal.
fn is_number_literal(text: &[u8]) -> (r: bool)
    ensures
        r == is_number(text@),
{
    let mut points: usize = 0;
    let mut digits = false;
    let mut i: usize = 0;
    proof {
        assert(text@.take(0) =~= Seq::empty());
    }
    while i < text.len()
        invariant
            i <= text@.len(),
            points == points_in(text@.take(i as int)),
            points <= i,
            digits == exists|k: int| 0 <= k < i && is_digit(#[trigger] text@[k]),
        decreases text@.len() - i,
    {
        proof {
            assert(text@.take(i + 1).drop_last() =~= text@.take(i as int));
        }
        if text[i] == 0x2E {
            points += 1;
        }
        if crate::text::digit(text[i]) {
            digits = true;
        }
        i += 1;
    }
    proof {
        assert(text@.take(i as int) =~= text@);
    }
    points <= 1 && digits
}

proof fn lemma_values_stop(s: Seq<u8>, places: Seq<(int, int)>, i: int, n: int)
    requires
        i <= n,
        values_at(s, places, i) is None,
    ensures
        values_at(s, places, n) is None,
    decreases n - i,
{
    if i < n {
        lemma_values_stop(s, places, i, n - 1);
    }
}

/// The numbers of a content stream, in order, by their exact decimal values,
/// each in its shortest spelling. `None` is lexing confusion; the caller must
/// skip the stream.
pub fn content_number_values(bytes: &[u8]) -> (r: Option<Vec<Vec<u8>>>)
    ensures
        match r {
            Some(v) => number_values(bytes@) == Some(crate::text::views(v@)),
            None => number_values(bytes@) is None,
        },
{
    let found = content_number_tokens(bytes)?;
    let ghost places = place_ints(found@);
    let mut out: Vec<Vec<u8>> = Vec::new();
    let mut i: usize = 0;
    proof {
        assert(crate::text::views(out@) =~= Seq::empty());
    }
    while i < found.len()
        invariant
            i <= found@.len(),
            places == place_ints(found@),
            number_places(bytes@) == Some(places),
            places_ordered(places, bytes@.len() as int),
            values_at(bytes@, places, i as int) == Some(crate::text::views(out@)),
        decreases found@.len() - i,
    {
        let (from, to) = found[i];
        proof {
            assert(places[i as int] == (from as int, to as int));
        }
        let text = vstd::slice::slice_subrange(bytes, from, to);
        if !is_number_literal(text) {
            proof {
                lemma_values_stop(bytes@, places, i + 1, places.len() as int);
            }
            return None;
        }
        let short = minify_number_literal(text);
        let ghost before = crate::text::views(out@);
        out.push(short);
        proof {
            assert(crate::text::views(out@) =~= before.push(short@));
        }
        i += 1;
    }
    Some(out)
}

/// Whether two lists of byte strings are equal.
fn same_lists(a: &Vec<Vec<u8>>, b: &Vec<Vec<u8>>) -> (r: bool)
    ensures
        r == (crate::text::views(a@) == crate::text::views(b@)),
{
    let ghost x = crate::text::views(a@);
    let ghost y = crate::text::views(b@);
    if a.len() != b.len() {
        proof {
            assert(x.len() != y.len());
        }
        return false;
    }
    let mut i: usize = 0;
    while i < a.len()
        invariant
            i <= a@.len(),
            a@.len() == b@.len(),
            x == crate::text::views(a@),
            y == crate::text::views(b@),
            forall|k: int| 0 <= k < i ==> x[k] == y[k],
        decreases a@.len() - i,
    {
        proof {
            assert(x[i as int] == a@[i as int]@ && y[i as int] == b@[i as int]@);
        }
        if !same_bytes(a[i].as_slice(), b[i].as_slice()) {
            return false;
        }
        i += 1;
    }
    proof {
        assert(x =~= y);
    }
    true
}

// --- writing a stream anew ---------------------------------------------------------------

/// The operator that starts an inline image.
pub open spec fn inline_image() -> Seq<u8> {
    seq![0x42u8, 0x49]
}

/// The edits that put the numbers of `from`, in their shortest spelling, in
/// the place of those of the emitted stream.
pub open spec fn spelling_edits(
    from: Seq<u8>,
    from_places: Seq<(int, int)>,
    places: Seq<(int, int)>,
) -> Seq<EditValue> {
    Seq::new(
        places.len(),
        |i: int|
            EditValue {
                at: places[i].0,
                len: places[i].1 - places[i].0,
                text: minified_number(from.subrange(from_places[i].0, from_places[i].1)),
            },
    )
}

/// The stream that operations are written as, with the original numbers in
/// their shortest exact spelling; `None` where the numbers do not correspond.
pub open spec fn respelled(decoded: Seq<u8>, emitted: Seq<u8>) -> Option<Seq<u8>> {
    match (number_places(decoded), number_places(emitted)) {
        (Some(a), Some(b)) => if a.len() == b.len() {
            Some(edited(emitted, spelling_edits(decoded, a, b)))
        } else {
            None
        },
        _ => None,
    }
}

/// The new stream means the same as the old: the same operations, and the
/// same numbers to the last digit.
pub open spec fn means_same(
    decoded: Seq<u8>,
    ops: Seq<OperationValue>,
    text: Seq<u8>,
) -> bool {
    match (known_operations_strict(text), number_values(decoded), number_values(text)) {
        (Some(again), Some(a), Some(b)) => equivalent_operations(ops, again) && a == b,
        _ => false,
    }
}

/// The content stream written anew, where that is possible and shorter than
/// `plain_stored` bytes: it can be read strictly, holds no inline image,
/// and the new text means the same.
pub open spec fn minified_content(decoded: Seq<u8>, plain_stored: int) -> Option<Seq<u8>> {
    match known_operations_strict(decoded) {
        None => None,
        Some(ops) => if exists|i: int|
            0 <= i < ops.len() && (#[trigger] ops[i]).operator == inline_image() {
            None
        } else {
            match encoded(ops) {
                None => None,
                Some(emitted) => match respelled(decoded, emitted) {
                    None => None,
                    Some(text) => if text.len() < plain_stored && means_same(decoded, ops, text) {
                        Some(text)
                    } else {
                        None
                    },
                },
            }
        },
    }
}

/// Bytes that `/Filter/FlateDecode` takes in a dictionary.
pub const FILTER_DICT_COST: usize = 19;

/// The better of a text and its compressed form, and whether it is the
/// latter, where it costs less than `disk_stored`. A stream that had no
/// filter pays for the dictionary entry that it gains.
pub open spec fn stored_form(
    text: Seq<u8>,
    disk_stored: int,
    gains_filter_cost: bool,
    deflated: Option<Seq<u8>>,
) -> Option<(Seq<u8>, bool)> {
    let shrinks = deflated is Some && (deflated->0).len() < text.len();
    let best = if shrinks {
        deflated->0
    } else {
        text
    };
    let cost = best.len() + (if shrinks && gains_filter_cost {
        FILTER_DICT_COST as int
    } else {
        0
    });
    if cost < disk_stored {
        Some((best, shrinks))
    } else {
        None
    }
}

/// What writing a content stream anew may give.
pub open spec fn content_outcome(
    decoded: Seq<u8>,
    plain_stored: int,
    disk_stored: int,
    gains_filter_cost: bool,
    backend: DeflateBackend,
    r: Option<(Seq<u8>, bool)>,
) -> bool {
    match minified_content(decoded, plain_stored) {
        None => r is None,
        Some(text) => exists|deflated: Option<Seq<u8>>| #[trigger]
            deflate_outcome(text, backend, deflated) && r == stored_form(
                text,
                disk_stored,
                gains_filter_cost,
                deflated,
            ),
    }
}

/// The content of an optional stored form.
pub open spec fn form_view(r: Option<(Vec<u8>, bool)>) -> Option<(Seq<u8>, bool)> {
    match r {
        Some(x) => Some((x.0@, x.1)),
        None => None,
    }
}

/// Whether an operation starts an inline image.
fn has_inline_image(ops: &Vec<ContentOp>) -> (r: bool)
    ensures
        r == exists|i: int|
            0 <= i < operation_views(ops@).len() && (#[trigger] operation_views(ops@)[i]).operator
                == inline_image(),
{
    let ghost list = operation_views(ops@);
    let mut i: usize = 0;
    while i < ops.len()
        invariant
            i <= ops@.len(),
            list == operation_views(ops@),
            forall|k: int| 0 <= k < i ==> (#[trigger] list[k]).operator != inline_image(),
        decreases ops@.len() - i,
    {
        let o = &ops[i].operator;
        let hit = o.len() == 2 && o[0] == 0x42 && o[1] == 0x49;
        proof {
            assert(list[i as int].operator == o@);
            if hit {
                assert(o@ =~= inline_image());
            }
        }
        if hit {
            return true;
        }
        i += 1;
    }
    false
}

/// Puts the original numbers, in their shortest spelling, into the emitted
/// stream.
fn respell(decoded: &[u8], emitted: &[u8]) -> (r: Option<Vec<u8>>)
    ensures
        opt_view(r) == respelled(decoded@, emitted@),
{
    let from = content_number_tokens(decoded)?;
    let to = content_number_tokens(emitted)?;
    let ghost a = place_ints(from@);
    let ghost b = place_ints(to@);
    proof {
        assert(a.len() == from@.len() && b.len() == to@.len());
    }
    if from.len() != to.len() {
        return None;
    }
    let ghost goal = spelling_edits(decoded@, a, b);
    let mut edits: Vec<Edit> = Vec::new();
    let mut i: usize = 0;
    while i < to.len()
        invariant
            i <= to@.len(),
            from@.len() == to@.len(),
            a == place_ints(from@),
            b == place_ints(to@),
            places_ordered(a, decoded@.len() as int),
            places_ordered(b, emitted@.len() as int),
            goal == spelling_edits(decoded@, a, b),
            edits@.len() == i,
            forall|k: int| 0 <= k < i ==> (#[trigger] edits@[k])@ == goal[k],
        decreases to@.len() - i,
    {
        proof {
            assert(a[i as int] == (from@[i as int].0 as int, from@[i as int].1 as int));
            assert(b[i as int] == (to@[i as int].0 as int, to@[i as int].1 as int));
        }
        let (f0, f1) = from[i];
        let (t0, t1) = to[i];
        let text = minify_number_literal(vstd::slice::slice_subrange(decoded, f0, f1));
        edits.push(Edit { at: t0, len: t1 - t0, text });
        i += 1;
    }
    proof {
        assert(edit_views(edits@) =~= goal);
        assert forall|i: int, j: int| 0 <= i < j < goal.len() implies (#[trigger] goal[i]).at
            + goal[i].len <= (#[trigger] goal[j]).at by {
            assert(b[i].1 <= b[j].0);
        }
        assert forall|i: int| 0 <= i < goal.len() implies 0 <= (#[trigger] goal[i]).at && 0
            <= goal[i].len && goal[i].at + goal[i].len <= emitted@.len() by {
            assert(0 <= b[i].0 < b[i].1 <= emitted@.len());
        }
    }
    Some(apply_edits(emitted, edits.as_slice()))
}

/// Whether the new stream means the same as the old.
fn check_same(decoded: &[u8], ops: &Vec<ContentOp>, text: &[u8]) -> (r: bool)
    ensures
        r == means_same(decoded@, operation_views(ops@), text@),
{
    match (
        read_operations_strict(text),
        content_number_values(decoded),
        content_number_values(text),
    ) {
        (Some(again), Some(a), Some(b)) => operations_equivalent(ops, &again) && same_lists(&a, &b),
        _ => false,
    }
}

/// Writes a content stream anew, where that is possible and shorter than
/// `plain_stored` bytes.
pub fn minify_content(decoded: &[u8], plain_stored: usize) -> (r: Option<Vec<u8>>)
    ensures
        opt_view(r) == minified_content(decoded@, plain_stored as int),
{
    let ops = read_operations_strict(decoded)?;
    if has_inline_image(&ops) {
        return None;
    }
    let emitted = encode_operations(&ops)?;
    let text = respell(decoded, emitted.as_slice())?;
    if text.len() < plain_stored && check_same(decoded, &ops, text.as_slice()) {
        Some(text)
    } else {
        None
    }
}

/// The better of a text and its compressed form, where it costs less than
/// `disk_stored`.
pub fn choose_stored(
    text: Vec<u8>,
    disk_stored: usize,
    gains_filter_cost: bool,
    deflated: Option<Vec<u8>>,
) -> (r: Option<(Vec<u8>, bool)>)
    ensures
        form_view(r) == stored_form(
            text@,
            disk_stored as int,
            gains_filter_cost,
            opt_view(deflated),
        ),
{
    let (best, shrinks) = match deflated {
        Some(d) => if d.len() < text.len() {
            (d, true)
        } else {
            (text, false)
        },
        None => (text, false),
    };
    let extra: usize = if shrinks && gains_filter_cost {
        FILTER_DICT_COST
    } else {
        0
    };
    if extra <= disk_stored && best.len() < disk_stored - extra {
        Some((best, shrinks))
    } else {
        None
    }
}

/// Writes one decoded content stream anew, compactly; `None` unless every
/// guard passes. Gives the bytes to store and whether they are deflated.
///
/// The guards: the stream reads strictly (a lenient reader would silently
/// truncate it); it holds no inline image; the new text reads back as
/// operations that mean the same, with the same numbers to the last digit;
/// the text is shorter than `plain_stored`; and what is stored costs less
/// than `disk_stored`, what would be stored without this.
pub fn replan_content(
    decoded: &[u8],
    plain_stored: usize,
    disk_stored: usize,
    gains_filter_cost: bool,
    backend: DeflateBackend,
) -> (r: Option<(Vec<u8>, bool)>)
    ensures
        content_outcome(
            decoded@,
            plain_stored as int,
            disk_stored as int,
            gains_filter_cost,
            backend,
            form_view(r),
        ),
{
    let text = minify_content(decoded, plain_stored)?;
    let deflated = deflate_backend(text.as_slice(), backend);
    proof {
        assert(deflate_outcome(text@, backend, opt_view(deflated)));
    }
    choose_stored(text, disk_stored, gains_filter_cost, deflated)
}

} // verus!
