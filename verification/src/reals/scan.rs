//! Finding the real literals in PDF syntax.

use crate::flate::{inflate_capped, inflated, opt_view, MAX_REDEFLATE_BYTES};
use crate::text::{
    contains_sub, find_before, find_from, find_sub, has_sub, is_blank, matches_at, occurs_at,
    rfind_within, views,
};
use crate::words::{DECODE_PARMS_KEY, ENDSTREAM, FLATE_DECODE, OBJSTM_NAME, OBJ_WORD, STREAM};
use vstd::prelude::*;

verus! {

/// White space and delimiters of PDF syntax.
pub open spec fn delimits(b: u8) -> bool {
    is_blank(b) || b == 0 || b == 0x28 || b == 0x29 || b == 0x3C || b == 0x3E || b == 0x5B || b
        == 0x5D || b == 0x7B || b == 0x7D || b == 0x2F || b == 0x25
}

/// A token can start at `at`.
pub open spec fn starts_token(s: Seq<u8>, at: int) -> bool {
    at == 0 || delimits(s[at - 1])
}

/// A byte of a number: digit, sign or point.
pub open spec fn in_number(b: u8) -> bool {
    (0x30 <= b <= 0x39) || b == 0x2B || b == 0x2D || b == 0x2E
}

/// End of the comment at `i`: the next line feed or carriage return.
pub open spec fn comment_end(s: Seq<u8>, i: int) -> int
    decreases s.len() - i,
{
    if 0 <= i < s.len() && s[i] != 0x0A && s[i] != 0x0D {
        comment_end(s, i + 1)
    } else {
        i
    }
}

/// End of the literal string of which `depth` parentheses are open at `i`.
pub open spec fn string_end(s: Seq<u8>, i: int, depth: int) -> int
    decreases s.len() - i + 1,
{
    if i < 0 || i >= s.len() || depth <= 0 {
        i
    } else if s[i] == 0x5C {
        string_end(s, i + 2, depth)
    } else if s[i] == 0x28 {
        string_end(s, i + 1, depth + 1)
    } else if s[i] == 0x29 {
        string_end(s, i + 1, depth - 1)
    } else {
        string_end(s, i + 1, depth)
    }
}

/// Place of the `>` that ends a hexadecimal string, from `i` on.
pub open spec fn hex_end(s: Seq<u8>, i: int) -> int
    decreases s.len() - i,
{
    if 0 <= i < s.len() && s[i] != 0x3E {
        hex_end(s, i + 1)
    } else {
        i
    }
}

/// End of the run of number bytes from `i` on.
pub open spec fn number_end(s: Seq<u8>, i: int) -> int
    decreases s.len() - i,
{
    if 0 <= i < s.len() && in_number(s[i]) {
        number_end(s, i + 1)
    } else {
        i
    }
}

/// The keyword `stream` with its line end stands at `i`.
pub open spec fn stream_at(s: Seq<u8>, i: int) -> bool {
    &&& occurs_at(s, STREAM@, i)
    &&& starts_token(s, i)
    &&& i + 6 < s.len()
    &&& (s[i + 6] == 0x0D || s[i + 6] == 0x0A)
}

/// `i`, or the length where that is less.
pub open spec fn within(i: int, s: Seq<u8>) -> int {
    if i <= s.len() {
        i
    } else {
        s.len() as int
    }
}

/// What the lexer does at `i`: where it goes on, and the number it found.
pub struct Step {
    pub next: int,
    pub token: Option<(int, int)>,
}

/// One step of the lexer. Comments and strings are skipped, and stream
/// payloads where `skip_streams` asks for it. A number glued to something
/// other than a delimiter is none.
pub open spec fn step(s: Seq<u8>, skip_streams: bool, i: int) -> Step {
    let b = s[i];
    if b == 0x25 {
        Step { next: comment_end(s, i), token: None }
    } else if b == 0x28 {
        Step { next: string_end(s, i + 1, 1), token: None }
    } else if b == 0x3C {
        if i + 1 < s.len() && s[i + 1] == 0x3C {
            Step { next: i + 2, token: None }
        } else {
            Step { next: hex_end(s, i + 1) + 1, token: None }
        }
    } else if skip_streams && stream_at(s, i) {
        match find_from(s, ENDSTREAM@, i) {
            Some(end) => Step { next: end + 9, token: None },
            None => Step { next: s.len() as int, token: None },
        }
    } else if in_number(b) && starts_token(s, i) {
        let end = number_end(s, i);
        if end >= s.len() || delimits(s[end]) {
            Step { next: end, token: Some((i, end)) }
        } else {
            Step { next: end, token: None }
        }
    } else {
        Step { next: i + 1, token: None }
    }
}

/// The places of the numbers from `i` on.
pub open spec fn tokens_from(s: Seq<u8>, skip_streams: bool, i: int) -> Seq<(int, int)>
    decreases s.len() - i,
{
    if i < 0 || i >= s.len() {
        Seq::empty()
    } else {
        let st = step(s, skip_streams, i);
        let rest = if st.next > i {
            tokens_from(s, skip_streams, within(st.next, s))
        } else {
            Seq::empty()
        };
        match st.token {
            Some(t) => seq![t] + rest,
            None => rest,
        }
    }
}

/// The places of the numbers in `s`.
pub open spec fn token_places(s: Seq<u8>, skip_streams: bool) -> Seq<(int, int)> {
    tokens_from(s, skip_streams, 0)
}

/// The numbers in `s`.
pub open spec fn tokens(s: Seq<u8>, skip_streams: bool) -> Seq<Seq<u8>> {
    token_places(s, skip_streams).map_values(|t: (int, int)| s.subrange(t.0, t.1))
}

/// White space and delimiters of PDF syntax.
pub fn is_delimiter(byte: u8) -> (r: bool)
    ensures
        r == delimits(byte),
{
    crate::text::blank(byte) || byte == 0 || byte == 0x28 || byte == 0x29 || byte == 0x3C || byte
        == 0x3E || byte == 0x5B || byte == 0x5D || byte == 0x7B || byte == 0x7D || byte == 0x2F
        || byte == 0x25
}

/// Is the byte before `at` a delimiter, that is, can a token start here?
pub fn is_boundary(data: &[u8], at: usize) -> (r: bool)
    requires
        at <= data@.len(),
    ensures
        r == starts_token(data@, at as int),
{
    at == 0 || is_delimiter(data[at - 1])
}

fn number_byte(b: u8) -> (r: bool)
    ensures
        r == in_number(b),
{
    (0x30 <= b && b <= 0x39) || b == 0x2B || b == 0x2D || b == 0x2E
}

fn skip_comment(data: &[u8], from: usize) -> (r: usize)
    requires
        from < data@.len(),
        data@[from as int] == 0x25,
    ensures
        r == comment_end(data@, from as int),
        from < r <= data@.len(),
{
    let mut i: usize = from;
    while i < data.len() && data[i] != 0x0A && data[i] != 0x0D
        invariant
            from <= i <= data@.len(),
            data@[from as int] == 0x25,
            comment_end(data@, from as int) == comment_end(data@, i as int),
        decreases data@.len() - i,
    {
        i += 1;
    }
    i
}

fn skip_string(data: &[u8], from: usize) -> (r: usize)
    requires
        1 <= from <= data@.len(),
    ensures
        r == within(string_end(data@, from as int, 1), data@),
        from <= r <= data@.len(),
{
    let total: usize = data.len();
    let mut i: usize = from;
    let mut depth: usize = 1;
    while i < total && depth > 0
        invariant
            total == data@.len(),
            1 <= from <= i <= total,
            depth <= 1 + (i - from),
            string_end(data@, from as int, 1) == string_end(data@, i as int, depth as int),
        decreases total - i,
    {
        let b: u8 = data[i];
        if b == 0x5C {
            if total - i < 2 {
                proof {
                    assert(string_end(data@, i + 2, depth as int) == i + 2);
                }
                return total;
            }
            i = i + 2;
        } else if b == 0x28 {
            depth = depth + 1;
            i += 1;
        } else if b == 0x29 {
            depth = depth - 1;
            i += 1;
        } else {
            i += 1;
        }
    }
    i
}

fn skip_hex(data: &[u8], from: usize) -> (r: usize)
    requires
        from <= data@.len(),
    ensures
        r == within(hex_end(data@, from as int) + 1, data@),
        from <= r <= data@.len(),
{
    let mut i: usize = from;
    while i < data.len() && data[i] != 0x3E
        invariant
            from <= i <= data@.len(),
            hex_end(data@, from as int) == hex_end(data@, i as int),
        decreases data@.len() - i,
    {
        i += 1;
    }
    if i < data.len() {
        i + 1
    } else {
        i
    }
}

fn skip_number(data: &[u8], from: usize) -> (r: usize)
    requires
        from < data@.len(),
        in_number(data@[from as int]),
    ensures
        r == number_end(data@, from as int),
        from < r <= data@.len(),
{
    let mut i: usize = from;
    while i < data.len() && number_byte(data[i])
        invariant
            from <= i <= data@.len(),
            in_number(data@[from as int]),
            number_end(data@, from as int) == number_end(data@, i as int),
        decreases data@.len() - i,
    {
        i += 1;
    }
    i
}

/// Whether the keyword `stream` with its line end stands at `i`.
fn at_stream(data: &[u8], i: usize) -> (r: bool)
    requires
        i < data@.len(),
    ensures
        r == stream_at(data@, i as int),
{
    let word: [u8; 6] = STREAM;
    matches_at(data, word.as_slice(), i) && is_boundary(data, i) && data.len() - i > 6 && (data[i
        + 6] == 0x0D || data[i + 6] == 0x0A)
}

/// One step of the lexer: where it goes on, and whether the bytes up to
/// there are a number.
fn lex(data: &[u8], skip_streams: bool, i: usize) -> (r: (usize, bool))
    requires
        i < data@.len(),
    ensures
        ({
            let st = step(data@, skip_streams, i as int);
            &&& r.0 == within(st.next, data@)
            &&& i < r.0 <= data@.len()
            &&& i < st.next
            &&& st.token == if r.1 {
                Some((i as int, r.0 as int))
            } else {
                None
            }
        }),
{
    let word: [u8; 9] = ENDSTREAM;
    let b: u8 = data[i];
    if b == 0x25 {
        (skip_comment(data, i), false)
    } else if b == 0x28 {
        (skip_string(data, i + 1), false)
    } else if b == 0x3C {
        if i + 1 < data.len() && data[i + 1] == 0x3C {
            (i + 2, false)
        } else {
            (skip_hex(data, i + 1), false)
        }
    } else if skip_streams && at_stream(data, i) {
        match find_sub(data, word.as_slice(), i) {
            Some(end) => (end + 9, false),
            None => (data.len(), false),
        }
    } else if number_byte(b) && is_boundary(data, i) {
        let end: usize = skip_number(data, i);
        (end, end >= data.len() || is_delimiter(data[end]))
    } else {
        (i + 1, false)
    }
}

/// Machine offsets as mathematical integers.
pub open spec fn place_ints(s: Seq<(usize, usize)>) -> Seq<(int, int)> {
    s.map_values(|t: (usize, usize)| (t.0 as int, t.1 as int))
}

/// Walks PDF syntax and gives the place, start and end, of every number.
///
/// Comments, literal strings and hexadecimal strings are skipped, so that
/// their contents cannot be mistaken for numbers. With `skip_streams`, stream
/// payloads are skipped too. This is a lexer, not a parser: it has no opinion
/// about dictionaries.
pub fn scan_reals_positions(data: &[u8], skip_streams: bool) -> (r: Vec<(usize, usize)>)
    ensures
        place_ints(r@) == token_places(data@, skip_streams),
        forall|k: int| 0 <= k < r@.len() ==> (#[trigger] r@[k]).0 < r@[k].1 <= data@.len(),
        forall|j: int, k: int| 0 <= j < k < r@.len() ==> (#[trigger] r@[j]).1 <= (
        #[trigger] r@[k]).0,
{
    let total: usize = data.len();
    let mut out: Vec<(usize, usize)> = Vec::new();
    let mut i: usize = 0;
    proof {
        assert(place_ints(out@) + tokens_from(data@, skip_streams, 0) =~= token_places(
            data@,
            skip_streams,
        ));
    }
    while i < total
        invariant
            i <= total,
            total == data@.len(),
            token_places(data@, skip_streams) == place_ints(out@) + tokens_from(
                data@,
                skip_streams,
                i as int,
            ),
            forall|k: int| 0 <= k < out@.len() ==> (#[trigger] out@[k]).0 < out@[k].1 <= i,
            forall|j: int, k: int|
                0 <= j < k < out@.len() ==> (#[trigger] out@[j]).1 <= (#[trigger] out@[k]).0,
        decreases total - i,
    {
        let (next, found) = lex(data, skip_streams, i);
        let ghost before = out@;
        if found {
            out.push((i, next));
            proof {
                assert(place_ints(out@) =~= place_ints(before).push((i as int, next as int)));
                assert(place_ints(before) + tokens_from(data@, skip_streams, i as int)
                    =~= place_ints(out@) + tokens_from(data@, skip_streams, next as int));
            }
        }
        i = next;
    }
    proof {
        assert(place_ints(out@) =~= token_places(data@, skip_streams));
    }
    out
}

/// The text of every number.
pub fn scan_reals(data: &[u8], skip_streams: bool) -> (r: Vec<Vec<u8>>)
    ensures
        views(r@) == tokens(data@, skip_streams),
{
    let places = scan_reals_positions(data, skip_streams);
    let ghost model = tokens(data@, skip_streams);
    let mut out: Vec<Vec<u8>> = Vec::new();
    let mut i: usize = 0;
    while i < places.len()
        invariant
            i <= places@.len(),
            model == tokens(data@, skip_streams),
            place_ints(places@) == token_places(data@, skip_streams),
            forall|k: int|
                0 <= k < places@.len() ==> (#[trigger] places@[k]).0 < places@[k].1 <= data@.len(),
            out@.len() == i,
            forall|k: int| 0 <= k < i ==> (#[trigger] out@[k])@ == model[k],
        decreases places@.len() - i,
    {
        let (from, to) = places[i];
        proof {
            assert(place_ints(places@)[i as int] == (from as int, to as int));
        }
        out.push(crate::bytes::to_vec(vstd::slice::slice_subrange(data, from, to)));
        i += 1;
    }
    proof {
        assert(place_ints(places@).len() == model.len());
        assert(views(out@) =~= model);
    }
    out
}

// --- object streams of a raw file ----------------------------------------------------------

/// Past one line end at `at`: a carriage return, a line feed, or both.
pub open spec fn past_line_end(s: Seq<u8>, at: int) -> int {
    let a = if 0 <= at < s.len() && s[at] == 0x0D {
        at + 1
    } else {
        at
    };
    if 0 <= a < s.len() && s[a] == 0x0A {
        a + 1
    } else {
        a
    }
}

/// How far back from its `/ObjStm` an object's header is looked for.
pub open spec fn window_start(at: int) -> int {
    if at >= 4096 {
        at - 4096
    } else {
        0
    }
}

/// What the object stream holds whose `/ObjStm` stands at `tag_at`. Its
/// length may be an indirect reference at this point, so the payload is
/// inflated from `stream` on and ends where it ends.
pub open spec fn payload_at(s: Seq<u8>, tag_at: int) -> Option<Seq<u8>> {
    match (find_before(s, OBJ_WORD@, tag_at), find_from(s, STREAM@, tag_at)) {
        (Some(from), Some(stream)) => {
            let dict = s.subrange(from, stream);
            if from < window_start(tag_at) || !has_sub(dict, FLATE_DECODE@) || has_sub(
                dict,
                DECODE_PARMS_KEY@,
            ) {
                None
            } else {
                inflated(s.skip(past_line_end(s, stream + 6)), MAX_REDEFLATE_BYTES as nat)
            }
        },
        _ => None,
    }
}

/// What the object streams from `i` on hold.
pub open spec fn payloads_from(s: Seq<u8>, i: int) -> Seq<Seq<u8>>
    decreases s.len() - i + 1,
{
    match find_from(s, OBJSTM_NAME@, i) {
        None => Seq::empty(),
        Some(at) => {
            let rest = if i <= at && at < s.len() {
                payloads_from(s, at + 1)
            } else {
                Seq::empty()
            };
            match payload_at(s, at) {
                Some(p) => seq![p] + rest,
                None => rest,
            }
        },
    }
}

/// What the object streams of a raw file hold.
pub open spec fn payloads(s: Seq<u8>) -> Seq<Seq<u8>> {
    payloads_from(s, 0)
}

fn skip_line_end(data: &[u8], at: usize) -> (r: usize)
    requires
        at <= data@.len(),
    ensures
        r == past_line_end(data@, at as int),
        at <= r <= data@.len(),
{
    let a: usize = if at < data.len() && data[at] == 0x0D {
        at + 1
    } else {
        at
    };
    if a < data.len() && data[a] == 0x0A {
        a + 1
    } else {
        a
    }
}

/// Inflates the object stream whose `/ObjStm` stands at `tag_at`.
fn read_payload(input: &[u8], tag_at: usize) -> (r: Option<Vec<u8>>)
    requires
        tag_at <= input@.len(),
    ensures
        opt_view(r) == payload_at(input@, tag_at as int),
{
    let (obj, stream_word, flate, parms): ([u8; 3], [u8; 6], [u8; 11], [u8; 12]) = (
        OBJ_WORD,
        STREAM,
        FLATE_DECODE,
        DECODE_PARMS_KEY,
    );
    let floor: usize = if tag_at >= 4096 {
        tag_at - 4096
    } else {
        0
    };
    let from: usize = rfind_within(input, obj.as_slice(), floor, tag_at)?;
    let stream: usize = find_sub(input, stream_word.as_slice(), tag_at)?;
    let dict = vstd::slice::slice_subrange(input, from, stream);
    if !contains_sub(dict, flate.as_slice()) || contains_sub(
        dict,
        parms.as_slice(),
    ) {
        return None;
    }
    let at: usize = skip_line_end(input, stream + 6);
    let rest = vstd::slice::slice_subrange(input, at, input.len());
    proof {
        assert(rest@ =~= input@.skip(at as int));
    }
    inflate_capped(rest, MAX_REDEFLATE_BYTES)
}

/// What every `FlateDecode` object stream of a raw file holds. Anything that
/// does not inflate is skipped.
pub fn objstm_payloads(input: &[u8]) -> (r: Vec<Vec<u8>>)
    ensures
        views(r@) == payloads(input@),
{
    let word: [u8; 7] = OBJSTM_NAME;
    let mut out: Vec<Vec<u8>> = Vec::new();
    let mut from: usize = 0;
    proof {
        assert(views(out@) + payloads_from(input@, 0) =~= payloads(input@));
    }
    loop
        invariant
            from <= input@.len(),
            word@ == OBJSTM_NAME@,
            payloads(input@) == views(out@) + payloads_from(input@, from as int),
        decreases input@.len() - from,
    {
        match find_sub(input, word.as_slice(), from) {
            None => {
                proof {
                    assert(views(out@) =~= payloads(input@));
                }
                return out;
            },
            Some(tag_at) => {
                let ghost before = out@;
                match read_payload(input, tag_at) {
                    Some(p) => {
                        out.push(p);
                        proof {
                            assert(views(out@) =~= views(before).push(p@));
                            assert(views(before) + payloads_from(input@, from as int) =~= views(
                                out@,
                            ) + payloads_from(input@, tag_at + 1));
                        }
                    },
                    None => {},
                }
                from = tag_at + 1;
            },
        }
    }
}

} // verus!
