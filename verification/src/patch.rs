//! Patches on a serialized document: deflating its cross-reference stream
//! and compressing its object streams again.
//!
//! Both work on the bytes that the writer has just produced. Every structural
//! assumption is checked against the bytes actually there; on any mismatch
//! the document stays as it is.

use crate::edit::{
    move_rows, moved_rows, number_ints, parse_numbers, read_row_widths, row_widths, word_numbers,
    Move, Movement, Widths,
};
use crate::flate::{
    accept_deflated, accepted, deflate_backend, deflate_outcome, inflate_capped, inflated, opt_view,
    DeflateBackend, MAX_REDEFLATE_BYTES,
};
use crate::load::{load_file, loaded, loads};
use crate::object::{DocumentValue, Pdf};
use crate::text::{
    blanks_end, contains_sub, decimal_digits, decimal_usize, digits_end, digits_value, find_before,
    find_from, find_sub, has_sub, is_digit, lemma_digits_end, lemma_find_from, lemma_find_last,
    matches_at, occurs_at, parse_digits, rfind_sub, skip_ascii_digits, skip_blanks, words,
};
use crate::words::{
    CLOSE_BRACKET, DECODE_PARMS_KEY, DICT_OPEN, DICT_STREAM, ENDSTREAM_LINE, FILTER_FLATE,
    FILTER_FLATE_LENGTH, FILTER_KEY, LENGTH_KEY, OBJ_DICT, OBJ_LINE, STARTXREF, TYPE_OBJSTM,
    TYPE_XREF, WIDTHS_OPEN,
};
use vstd::prelude::*;

verus! {

// --- where things stand in the file ---------------------------------------------------

/// A run of digits and the number it spells.
pub struct Number {
    pub at: int,
    pub end: int,
    pub value: int,
}

/// The number at `i`; `None` where no digit stands there or the number
/// exceeds `limit`.
pub open spec fn number_at(s: Seq<u8>, i: int, limit: int) -> Option<Number> {
    let end = digits_end(s, i);
    if end > i && digits_value(s.subrange(i, end)) <= limit {
        Some(Number { at: i, end, value: digits_value(s.subrange(i, end)) as int })
    } else {
        None
    }
}

/// The keyword `startxref` at the end of a file and the offset after it.
pub struct StartXref {
    pub at: int,
    pub offset: Number,
}

/// The last `startxref` of a file.
pub open spec fn startxref_of(s: Seq<u8>) -> Option<StartXref> {
    match find_before(s, STARTXREF@, s.len() as int) {
        None => None,
        Some(at) => match number_at(s, blanks_end(s, at + 9), usize::MAX as int) {
            None => None,
            Some(offset) => Some(StartXref { at, offset }),
        },
    }
}

/// Where the dictionary starts of the object whose header `<id> <gen> obj`
/// stands at `at`.
pub open spec fn dict_after_header(s: Seq<u8>, at: int) -> Option<int> {
    let a = digits_end(s, at);
    let b = digits_end(s, a + 1);
    if a > at && a < s.len() && s[a] == 0x20 && b > a + 1 && occurs_at(s, OBJ_LINE@, b)
        && occurs_at(s, DICT_OPEN@, b + 5) {
        Some(b + 5)
    } else {
        None
    }
}

/// A stream in a file: where its dictionary starts and ends, the digits of
/// its length, and where its payload starts and ends.
pub struct StreamSite {
    pub dict_start: int,
    pub dict_end: int,
    pub key_at: int,
    pub length: Number,
    pub start: int,
    pub end: int,
}

/// The stream whose dictionary starts at `dict_start`: the dictionary ends at
/// the first `>>stream`, and the payload, as long as `/Length` says, is
/// followed by `endstream`.
pub open spec fn stream_site(s: Seq<u8>, dict_start: int) -> Option<StreamSite> {
    match find_from(s, DICT_STREAM@, dict_start) {
        None => None,
        Some(close) => {
            let dict_end = close + 2;
            let dict = s.subrange(dict_start, dict_end);
            match find_from(dict, LENGTH_KEY@, 0) {
                None => None,
                Some(key) => match number_at(dict, key + 8, usize::MAX as int) {
                    None => None,
                    Some(n) => {
                        let start = dict_end + 7;
                        let end = start + n.value;
                        if end <= s.len() && occurs_at(s, ENDSTREAM_LINE@, end) {
                            Some(
                                StreamSite {
                                    dict_start,
                                    dict_end,
                                    key_at: dict_start + key,
                                    length: Number {
                                        at: dict_start + n.at,
                                        end: dict_start + n.end,
                                        value: n.value,
                                    },
                                    start,
                                    end,
                                },
                            )
                        } else {
                            None
                        }
                    },
                },
            }
        },
    }
}

/// The dictionary of a stream.
pub open spec fn site_dict(s: Seq<u8>, site: StreamSite) -> Seq<u8> {
    s.subrange(site.dict_start, site.dict_end)
}

/// The payload of a stream.
pub open spec fn site_content(s: Seq<u8>, site: StreamSite) -> Seq<u8> {
    s.subrange(site.start, site.end)
}

/// The uncompressed cross-reference stream that `startxref` points to.
pub open spec fn xref_site(s: Seq<u8>) -> Option<(StartXref, StreamSite)> {
    match startxref_of(s) {
        None => None,
        Some(sx) => if sx.offset.value >= sx.at {
            None
        } else {
            match dict_after_header(s, sx.offset.value) {
                None => None,
                Some(dict_start) => match stream_site(s, dict_start) {
                    None => None,
                    Some(site) => if has_sub(site_dict(s, site), TYPE_XREF@) && !has_sub(
                        site_dict(s, site),
                        FILTER_KEY@,
                    ) {
                        Some((sx, site))
                    } else {
                        None
                    },
                },
            }
        },
    }
}

// --- finding them ---------------------------------------------------------------------

/// A run of digits and the number it spells.
#[derive(Clone, Copy)]
pub struct FoundNumber {
    pub at: usize,
    pub end: usize,
    pub value: usize,
}

impl View for FoundNumber {
    type V = Number;

    open spec fn view(&self) -> Number {
        Number { at: self.at as int, end: self.end as int, value: self.value as int }
    }
}

/// A stream in a file.
#[derive(Clone, Copy)]
pub struct FoundStream {
    pub dict_start: usize,
    pub dict_end: usize,
    pub key_at: usize,
    pub length: FoundNumber,
    pub start: usize,
    pub end: usize,
}

impl View for FoundStream {
    type V = StreamSite;

    open spec fn view(&self) -> StreamSite {
        StreamSite {
            dict_start: self.dict_start as int,
            dict_end: self.dict_end as int,
            key_at: self.key_at as int,
            length: self.length@,
            start: self.start as int,
            end: self.end as int,
        }
    }
}

impl FoundStream {
    /// The parts follow one another inside a file of `len` bytes.
    pub open spec fn ordered(&self, len: int) -> bool {
        &&& self.dict_start <= self.key_at < self.length.at < self.length.end <= self.dict_end
        &&& self.length.at == self.key_at + 8
        &&& self.dict_end + 7 == self.start
        &&& self.start <= self.end <= len
    }
}

/// Reads the number at `i`.
pub fn read_number(data: &[u8], i: usize) -> (r: Option<FoundNumber>)
    ensures
        match r {
            Some(n) => number_at(data@, i as int, usize::MAX as int) == Some(n@) && n.at == i && i
                < n.end <= data@.len(),
            None => number_at(data@, i as int, usize::MAX as int) is None,
        },
{
    let end: usize = skip_ascii_digits(data, i)?;
    match parse_digits(data, i, end, usize::MAX as u64) {
        Some(v) => Some(FoundNumber { at: i, end, value: v as usize }),
        None => None,
    }
}

/// Finds the last `startxref`: where it stands, and the offset after it.
pub fn find_startxref(data: &[u8]) -> (r: Option<(usize, FoundNumber)>)
    ensures
        match r {
            Some(sx) => startxref_of(data@) == Some(
                StartXref { at: sx.0 as int, offset: sx.1@ },
            ) && sx.0 + 9 <= sx.1.at < sx.1.end <= data@.len(),
            None => startxref_of(data@) is None,
        },
{
    let word: [u8; 9] = STARTXREF;
    let at: usize = rfind_sub(data, word.as_slice(), data.len())?;
    let p: usize = skip_blanks(data, at + 9);
    let offset = read_number(data, p)?;
    Some((at, offset))
}

/// Finds the dictionary of the object whose header stands at `at`.
pub fn find_dict(data: &[u8], at: usize) -> (r: Option<usize>)
    ensures
        match r {
            Some(d) => dict_after_header(data@, at as int) == Some(d as int) && at < d && d + 2
                <= data@.len(),
            None => dict_after_header(data@, at as int) is None,
        },
{
    let (obj, open): ([u8; 5], [u8; 2]) = (OBJ_LINE, DICT_OPEN);
    let a: usize = skip_ascii_digits(data, at)?;
    if a >= data.len() || data[a] != 0x20 {
        return None;
    }
    let b: usize = skip_ascii_digits(data, a + 1)?;
    if !matches_at(data, obj.as_slice(), b) || !matches_at(data, open.as_slice(), b + 5) {
        return None;
    }
    Some(b + 5)
}

/// Finds the stream whose dictionary starts at `dict_start`.
pub fn find_stream(data: &[u8], dict_start: usize) -> (r: Option<FoundStream>)
    ensures
        match r {
            Some(site) => stream_site(data@, dict_start as int) == Some(site@) && site.ordered(
                data@.len() as int,
            ) && site.dict_start == dict_start,
            None => stream_site(data@, dict_start as int) is None,
        },
{
    let (close_word, key_word, end_word): ([u8; 9], [u8; 8], [u8; 10]) = (
        DICT_STREAM,
        LENGTH_KEY,
        ENDSTREAM_LINE,
    );
    let close: usize = find_sub(data, close_word.as_slice(), dict_start)?;
    let dict_end: usize = close + 2;
    let dict = vstd::slice::slice_subrange(data, dict_start, dict_end);
    let key: usize = find_sub(dict, key_word.as_slice(), 0)?;
    let n = read_number(dict, key + 8)?;
    let start: usize = dict_end + 7;
    if n.value > data.len() - start {
        return None;
    }
    let end: usize = start + n.value;
    if !matches_at(data, end_word.as_slice(), end) {
        return None;
    }
    Some(
        FoundStream {
            dict_start,
            dict_end,
            key_at: dict_start + key,
            length: FoundNumber {
                at: dict_start + n.at,
                end: dict_start + n.end,
                value: n.value,
            },
            start,
            end,
        },
    )
}

/// Finds the uncompressed cross-reference stream that `startxref` points to.
pub fn find_xref_stream(data: &[u8]) -> (r: Option<(usize, FoundNumber, FoundStream)>)
    ensures
        match r {
            Some(x) => xref_site(data@) == Some(
                (StartXref { at: x.0 as int, offset: x.1@ }, x.2@),
            ) && x.2.ordered(data@.len() as int) && x.0 + 9 <= x.1.at < x.1.end <= data@.len()
                && x.1.value < x.2.dict_start,
            None => xref_site(data@) is None,
        },
{
    let (type_word, filter_word): ([u8; 10], [u8; 7]) = (TYPE_XREF, FILTER_KEY);
    let (at, offset) = find_startxref(data)?;
    if offset.value >= at {
        return None;
    }
    let dict_start: usize = find_dict(data, offset.value)?;
    let site = find_stream(data, dict_start)?;
    let dict = vstd::slice::slice_subrange(data, site.dict_start, site.dict_end);
    if contains_sub(dict, type_word.as_slice()) && !contains_sub(dict, filter_word.as_slice()) {
        Some((at, offset, site))
    } else {
        None
    }
}

// --- deflating the cross-reference stream ------------------------------------------------

/// The cross-reference stream that can be deflated: one with no filter and,
/// as the patch applies no predictor, no `/DecodeParms`.
pub open spec fn deflatable_xref(s: Seq<u8>) -> Option<StreamSite> {
    match xref_site(s) {
        Some(x) => if has_sub(site_dict(s, x.1), DECODE_PARMS_KEY@) {
            None
        } else {
            Some(x.1)
        },
        None => None,
    }
}

/// The file with the payload of `site` replaced by `deflated`, and its
/// dictionary saying so.
pub open spec fn with_deflated(s: Seq<u8>, site: StreamSite, deflated: Seq<u8>) -> Seq<u8> {
    s.take(site.key_at) + FILTER_FLATE_LENGTH@ + decimal_digits(deflated.len()) + s.subrange(
        site.length.end,
        site.start,
    ) + deflated + s.skip(site.end)
}

/// The file with its cross-reference stream deflated, given what the encoder
/// makes of its payload. `None` where there is no such stream, or where the
/// encoded form is not smaller or does not inflate back.
pub open spec fn xref_deflated(s: Seq<u8>, deflated: Option<Seq<u8>>) -> Option<Seq<u8>> {
    match deflatable_xref(s) {
        None => None,
        Some(site) => match accepted(
            site_content(s, site),
            site_content(s, site).len() as int,
            deflated,
        ) {
            Some(new) => Some(with_deflated(s, site, new)),
            None => None,
        },
    }
}

/// Finds the cross-reference stream that can be deflated.
pub fn find_deflatable_xref(out: &[u8]) -> (r: Option<FoundStream>)
    ensures
        match r {
            Some(site) => deflatable_xref(out@) == Some(site@) && site.ordered(out@.len() as int),
            None => deflatable_xref(out@) is None,
        },
{
    let parms_word: [u8; 12] = DECODE_PARMS_KEY;
    let (_, _, site) = find_xref_stream(out)?;
    let dict = vstd::slice::slice_subrange(out, site.dict_start, site.dict_end);
    if contains_sub(dict, parms_word.as_slice()) {
        None
    } else {
        Some(site)
    }
}

/// Puts a deflated payload in the place of the cross-reference stream's.
pub fn patch_xref_stream(out: &[u8], deflated: Option<Vec<u8>>) -> (r: Option<Vec<u8>>)
    ensures
        opt_view(r) == xref_deflated(out@, opt_view(deflated)),
{
    let site = find_deflatable_xref(out)?;
    let content = vstd::slice::slice_subrange(out, site.start, site.end);
    proof {
        assert(content@ =~= site_content(out@, site@));
    }
    let new = accept_deflated(content, content.len(), deflated)?;
    Some(splice_deflated(out, &site, &new))
}

/// Puts `deflated` in the place of the payload of `site`.
fn splice_deflated(out: &[u8], site: &FoundStream, deflated: &Vec<u8>) -> (r: Vec<u8>)
    requires
        site.ordered(out@.len() as int),
    ensures
        r@ == with_deflated(out@, site@, deflated@),
{
    let words: [u8; 27] = FILTER_FLATE_LENGTH;
    let mut r: Vec<u8> = Vec::new();
    r.extend_from_slice(vstd::slice::slice_subrange(out, 0, site.key_at));
    r.extend_from_slice(words.as_slice());
    r.extend_from_slice(decimal_usize(deflated.len()).as_slice());
    r.extend_from_slice(vstd::slice::slice_subrange(out, site.length.end, site.start));
    r.extend_from_slice(deflated.as_slice());
    r.extend_from_slice(vstd::slice::slice_subrange(out, site.end, out.len()));
    proof {
        assert(r@ =~= with_deflated(out@, site@, deflated@));
    }
    r
}

/// What deflating the cross-reference stream may give.
pub open spec fn xref_outcome(s: Seq<u8>, backend: DeflateBackend, r: Option<Seq<u8>>) -> bool {
    match deflatable_xref(s) {
        None => r is None,
        Some(site) => exists|deflated: Option<Seq<u8>>| #[trigger]
            deflate_outcome(site_content(s, site), backend, deflated) && r == xref_deflated(
                s,
                deflated,
            ),
    }
}

/// Deflates the cross-reference stream of a document that has just been
/// written, where there is one and it gets smaller.
///
/// The patch is sound because that stream is the last object of the file:
/// `startxref` and its own entry both record where it starts, which does not
/// move.
pub fn try_compress_xref_stream(out: &[u8], backend: DeflateBackend) -> (r: Option<Vec<u8>>)
    ensures
        xref_outcome(out@, backend, opt_view(r)),
{
    let site = find_deflatable_xref(out)?;
    let content = vstd::slice::slice_subrange(out, site.start, site.end);
    proof {
        assert(content@ =~= site_content(out@, site@));
    }
    let deflated = deflate_backend(content, backend);
    proof {
        assert(deflate_outcome(site_content(out@, site@), backend, opt_view(deflated)));
    }
    patch_xref_stream(out, deflated)
}

/// `patched`, or `s` where there is none.
pub open spec fn or_same(s: Seq<u8>, patched: Option<Seq<u8>>) -> Seq<u8> {
    match patched {
        Some(new) => new,
        None => s,
    }
}

/// Deflates the cross-reference stream of a document that has just been
/// written; the document itself where that is not possible.
pub fn compress_xref_stream(out: Vec<u8>, backend: DeflateBackend) -> (r: Vec<u8>)
    ensures
        exists|patched: Option<Seq<u8>>| #[trigger]
            xref_outcome(out@, backend, patched) && r@ == or_same(out@, patched),
{
    let patched = try_compress_xref_stream(out.as_slice(), backend);
    proof {
        assert(xref_outcome(out@, backend, opt_view(patched)));
    }
    match patched {
        Some(new) => new,
        None => out,
    }
}

// --- compressing object streams again ---------------------------------------------------

/// Start of the run of digits that ends at `i`.
pub open spec fn digits_start(s: Seq<u8>, i: int) -> int
    decreases i,
{
    if 0 < i <= s.len() && is_digit(s[i - 1]) {
        digits_start(s, i - 1)
    } else {
        i
    }
}

/// Where the object starts whose header `<id> <gen>` ends at `end`.
pub open spec fn object_start(s: Seq<u8>, end: int) -> Option<int> {
    let gen = digits_start(s, end);
    let id = digits_start(s, gen - 1);
    if gen < end && gen > 0 && s[gen - 1] == 0x20 && id < gen - 1 {
        Some(id)
    } else {
        None
    }
}

/// The object stream whose `/Type/ObjStm` stands at `tag_at`: where its
/// object starts, and the stream. Only plain Flate without predictor counts.
pub open spec fn objstm_site(s: Seq<u8>, tag_at: int) -> Option<(int, StreamSite)> {
    match find_before(s, OBJ_DICT@, tag_at) {
        None => None,
        Some(hdr) => match (object_start(s, hdr), stream_site(s, hdr + 5)) {
            (Some(start), Some(site)) => if tag_at < site.dict_end && has_sub(
                site_dict(s, site),
                FILTER_FLATE@,
            ) && !has_sub(site_dict(s, site), DECODE_PARMS_KEY@) {
                Some((start, site))
            } else {
                None
            },
            _ => None,
        },
    }
}

/// What the object stream holds.
pub open spec fn objstm_plain(s: Seq<u8>, tag_at: int) -> Option<Seq<u8>> {
    match objstm_site(s, tag_at) {
        Some(x) => inflated(site_content(s, x.1), MAX_REDEFLATE_BYTES as nat),
        None => None,
    }
}

/// The numbers of a cross-reference stream's `/W`.
pub open spec fn width_numbers(dict: Seq<u8>) -> Option<Seq<int>> {
    match find_from(dict, WIDTHS_OPEN@, 0) {
        None => None,
        Some(at) => match find_from(dict, CLOSE_BRACKET@, at) {
            None => None,
            Some(close) => {
                let list = words(dict.subrange(at + 3, close));
                word_numbers(list, list.len() as int)
            },
        },
    }
}

/// The row layout that a cross-reference stream's `/W` gives.
pub open spec fn xref_widths(dict: Seq<u8>) -> Option<Widths> {
    match width_numbers(dict) {
        Some(numbers) => row_widths(numbers),
        None => None,
    }
}

/// The rows of the cross-reference stream with their offsets moved.
pub open spec fn moved_xref(s: Seq<u8>, site: StreamSite, m: Move) -> Option<Seq<u8>> {
    let content = site_content(s, site);
    match xref_widths(site_dict(s, site)) {
        None => None,
        Some(w) => if content.len() % (w.row as nat) == 0 {
            moved_rows(content, w.row, w.offset, m, content.len() as int / w.row)
        } else {
            None
        },
    }
}

/// By how much the file shrinks before its cross-reference stream.
pub open spec fn shrinkage(site: StreamSite, new: Seq<u8>) -> int {
    (site.end - site.start - new.len()) + (site.length.end - site.length.at - decimal_digits(
        new.len(),
    ).len())
}

/// The file with the payload of the object stream replaced, its length, the
/// rows of the cross-reference stream and the offset after `startxref`
/// rewritten.
pub open spec fn with_objstm(
    s: Seq<u8>,
    site: StreamSite,
    new: Seq<u8>,
    xref: StreamSite,
    rows: Seq<u8>,
    sx: StartXref,
) -> Seq<u8> {
    s.take(site.length.at) + decimal_digits(new.len()) + s.subrange(site.length.end, site.start)
        + new + s.subrange(site.end, xref.start) + rows + s.subrange(xref.end, sx.offset.at)
        + decimal_digits((sx.offset.value - shrinkage(site, new)) as nat) + s.skip(sx.offset.end)
}

/// How the offsets move when the payload of an object stream shrinks.
pub open spec fn objstm_movement(start: int, site: StreamSite, new: Seq<u8>) -> Move {
    Move::Back { start, end: site.end, delta: shrinkage(site, new) }
}

/// The file with the object stream at `tag_at` compressed again, given what
/// the encoder makes of what it holds. `None`, which leaves the file as it
/// is, unless the new payload is smaller and inflates back, the
/// cross-reference stream stands after it in a layout that can be rewritten,
/// no offset points inside the object, and the result can be read.
pub open spec fn objstm_redeflated(
    s: Seq<u8>,
    tag_at: int,
    deflated: Option<Seq<u8>>,
    l: spec_fn(Seq<u8>) -> Option<DocumentValue>,
) -> Option<Seq<u8>> {
    match (objstm_site(s, tag_at), objstm_plain(s, tag_at), xref_site(s)) {
        (Some((start, site)), Some(plain), Some((sx, xref))) => match accepted(
            plain,
            site.end - site.start,
            deflated,
        ) {
            None => None,
            Some(new) => if sx.offset.value <= site.end || xref.end > sx.offset.at {
                None
            } else {
                match moved_xref(s, xref, objstm_movement(start, site, new)) {
                    None => None,
                    Some(rows) => {
                        let patched = with_objstm(s, site, new, xref, rows, sx);
                        if l(patched) is Some {
                            Some(patched)
                        } else {
                            None
                        }
                    },
                }
            },
        },
        _ => None,
    }
}

/// Start of the run of digits that ends at `i`.
fn start_of_digits(data: &[u8], i: usize) -> (r: usize)
    requires
        i <= data@.len(),
    ensures
        r == digits_start(data@, i as int),
        r <= i,
{
    let mut k: usize = i;
    while k > 0 && crate::text::digit(data[k - 1])
        invariant
            k <= i <= data@.len(),
            digits_start(data@, i as int) == digits_start(data@, k as int),
        decreases k,
    {
        k -= 1;
    }
    k
}

/// Finds the object stream whose `/Type/ObjStm` stands at `tag_at`.
pub fn find_objstm(out: &[u8], tag_at: usize) -> (r: Option<(usize, FoundStream)>)
    ensures
        match r {
            Some(x) => objstm_site(out@, tag_at as int) == Some((x.0 as int, x.1@)) && x.1.ordered(
                out@.len() as int,
            ) && x.0 < x.1.dict_start,
            None => objstm_site(out@, tag_at as int) is None,
        },
{
    let (header, flate, parms): ([u8; 7], [u8; 19], [u8; 12]) = (
        OBJ_DICT,
        FILTER_FLATE,
        DECODE_PARMS_KEY,
    );
    let hdr: usize = rfind_sub(out, header.as_slice(), tag_at)?;
    let gen: usize = start_of_digits(out, hdr);
    if gen == hdr || gen == 0 || out[gen - 1] != 0x20 {
        return None;
    }
    let id: usize = start_of_digits(out, gen - 1);
    if id == gen - 1 {
        return None;
    }
    let site = find_stream(out, hdr + 5)?;
    if tag_at >= site.dict_end {
        return None;
    }
    let dict = vstd::slice::slice_subrange(out, site.dict_start, site.dict_end);
    if contains_sub(dict, flate.as_slice()) && !contains_sub(dict, parms.as_slice()) {
        Some((id, site))
    } else {
        None
    }
}

/// Reads `key[int int ...]` out of the bytes of a dictionary, `key` being
/// `/W[`.
pub fn parse_int_array(dict: &[u8]) -> (r: Option<Vec<usize>>)
    ensures
        match r {
            Some(v) => width_numbers(dict@) == Some(number_ints(v@)),
            None => width_numbers(dict@) is None,
        },
{
    let (open, close_word): ([u8; 3], [u8; 1]) = (WIDTHS_OPEN, CLOSE_BRACKET);
    let at: usize = find_sub(dict, open.as_slice(), 0)?;
    let close: usize = find_sub(dict, close_word.as_slice(), at)?;
    proof {
        // The key holds no closing bracket, so the bracket stands after it.
        let part = dict@.subrange(at as int, at + 3);
        assert(part[0] == WIDTHS_OPEN@[0] && part[1] == WIDTHS_OPEN@[1] && part[2]
            == WIDTHS_OPEN@[2]);
        assert(dict@.subrange(close as int, close + 1)[0] == CLOSE_BRACKET@[0]);
        assert(close >= at + 3);
    }
    parse_numbers(vstd::slice::slice_subrange(dict, at + 3, close))
}

/// Moves the offsets in the rows of a cross-reference stream.
pub fn move_xref(out: &[u8], site: &FoundStream, m: &Movement) -> (r: Option<Vec<u8>>)
    requires
        site.ordered(out@.len() as int),
        crate::edit::movement_ok(m@),
    ensures
        opt_view(r) == moved_xref(out@, site@, m@),
{
    let dict = vstd::slice::slice_subrange(out, site.dict_start, site.dict_end);
    let content = vstd::slice::slice_subrange(out, site.start, site.end);
    let numbers = parse_int_array(dict)?;
    let (width, row) = read_row_widths(&numbers)?;
    if content.len() % row != 0 {
        return None;
    }
    move_rows(content, row, width, m)
}

/// Moving offsets keeps the length of the rows.
pub proof fn lemma_moved_xref_len(s: Seq<u8>, site: StreamSite, m: Move)
    requires
        0 <= site.start <= site.end <= s.len(),
    ensures
        moved_xref(s, site, m) is Some ==> (moved_xref(s, site, m)->0).len() == site.end
            - site.start,
{
    let content = site_content(s, site);
    match xref_widths(site_dict(s, site)) {
        None => {},
        Some(w) => {
            if content.len() % (w.row as nat) == 0 && moved_xref(s, site, m) is Some {
                let n = content.len() as int / w.row;
                vstd::arithmetic::div_mod::lemma_fundamental_div_mod(content.len() as int, w.row);
                assert(n * w.row == content.len()) by (nonlinear_arith)
                    requires
                        content.len() == w.row * n,
                ;
                crate::edit::lemma_moved_rows_len(content, w.row, w.offset, m, n);
            }
        },
    }
}

/// A number that is not greater has no longer spelling.
pub proof fn lemma_spelling_len(n: nat, s: Seq<u8>)
    requires
        crate::text::all_digits(s),
        s.len() > 0,
        n <= digits_value(s),
    ensures
        decimal_digits(n).len() <= s.len(),
    decreases s.len(),
{
    if n >= 10 {
        let init = s.drop_last();
        assert(crate::text::all_digits(init)) by {
            assert forall|i: int| 0 <= i < init.len() implies is_digit(#[trigger] init[i]) by {
                assert(init[i] == s[i]);
            }
        }
        assert(is_digit(s[s.len() - 1]));
        if init.len() == 0 {
            assert(digits_value(init) == 0);
        } else {
            lemma_spelling_len(n / 10, init);
        }
    }
}

/// The file with the payload of the object stream replaced.
fn splice_objstm(
    out: &[u8],
    site: &FoundStream,
    new: &Vec<u8>,
    xref: &FoundStream,
    rows: &Vec<u8>,
    sx_at: usize,
    offset: &FoundNumber,
    new_offset: usize,
) -> (r: Vec<u8>)
    requires
        site.ordered(out@.len() as int),
        xref.ordered(out@.len() as int),
        site.end <= xref.start,
        xref.end <= offset.at < offset.end <= out@.len(),
        new_offset == offset.value - shrinkage(site@, new@),
    ensures
        r@ == with_objstm(
            out@,
            site@,
            new@,
            xref@,
            rows@,
            StartXref { at: sx_at as int, offset: offset@ },
        ),
{
    let mut r: Vec<u8> = Vec::new();
    r.extend_from_slice(vstd::slice::slice_subrange(out, 0, site.length.at));
    r.extend_from_slice(decimal_usize(new.len()).as_slice());
    r.extend_from_slice(vstd::slice::slice_subrange(out, site.length.end, site.start));
    r.extend_from_slice(new.as_slice());
    r.extend_from_slice(vstd::slice::slice_subrange(out, site.end, xref.start));
    r.extend_from_slice(rows.as_slice());
    r.extend_from_slice(vstd::slice::slice_subrange(out, xref.end, offset.at));
    r.extend_from_slice(decimal_usize(new_offset).as_slice());
    r.extend_from_slice(vstd::slice::slice_subrange(out, offset.end, out.len()));
    proof {
        assert(r@ =~= with_objstm(
            out@,
            site@,
            new@,
            xref@,
            rows@,
            StartXref { at: sx_at as int, offset: offset@ },
        ));
    }
    r
}

/// The length that a stream declares is the length of its payload, in
/// digits that are there.
pub proof fn lemma_site_length(s: Seq<u8>, dict_start: int)
    requires
        stream_site(s, dict_start) is Some,
        0 <= dict_start,
    ensures
        ({
            let site = stream_site(s, dict_start)->0;
            let spelled = s.subrange(site.length.at, site.length.end);
            &&& 0 <= site.length.at < site.length.end <= s.len()
            &&& crate::text::all_digits(spelled)
            &&& digits_value(spelled) == site.end - site.start
        }),
{
    let site = stream_site(s, dict_start)->0;
    lemma_find_from(s, DICT_STREAM@, dict_start);
    let dict = s.subrange(dict_start, site.dict_end);
    lemma_find_from(dict, LENGTH_KEY@, 0);
    let key = find_from(dict, LENGTH_KEY@, 0)->0;
    let from = key + 8;
    let to = digits_end(dict, from);
    lemma_digits_end(dict, from);
    assert(dict.subrange(from, to) =~= s.subrange(dict_start + from, dict_start + to));
    assert forall|i: int| 0 <= i < to - from implies is_digit(
        #[trigger] dict.subrange(from, to)[i],
    ) by {
        assert(is_digit(dict[from + i]));
    }
}

/// Puts a recompressed payload in the place of an object stream's.
pub fn patch_objstm<L: Fn(&[u8]) -> Option<Pdf>>(
    out: &[u8],
    tag_at: usize,
    deflated: Option<Vec<u8>>,
    load: &L,
) -> (r: Option<Vec<u8>>)
    requires
        loads(*load),
    ensures
        opt_view(r) == objstm_redeflated(
            out@,
            tag_at as int,
            opt_view(deflated),
            |t: Seq<u8>| loaded(*load, t),
        ),
{
    let (start, site) = find_objstm(out, tag_at)?;
    let content = vstd::slice::slice_subrange(out, site.start, site.end);
    let plain = inflate_capped(content, MAX_REDEFLATE_BYTES)?;
    let (sx_at, offset, xref) = find_xref_stream(out)?;
    let new = accept_deflated(plain.as_slice(), site.end - site.start, deflated)?;
    if offset.value <= site.end || xref.end > offset.at {
        return None;
    }
    let digits: usize = decimal_usize(new.len()).len();
    proof {
        let hdr = find_before(out@, OBJ_DICT@, tag_at as int)->0;
        lemma_find_last(out@, OBJ_DICT@, tag_at - 7);
        lemma_site_length(out@, hdr + 5);
        lemma_spelling_len(new@.len(), out@.subrange(site.length.at as int, site.length.end as int));
    }
    let delta: usize = (site.end - site.start - new.len()) + (site.length.end - site.length.at
        - digits);
    let movement = Movement::Back { start, end: site.end, delta };
    proof {
        assert(delta == shrinkage(site@, new@));
        assert(movement@ == objstm_movement(start as int, site@, new@));
    }
    let rows = move_xref(out, &xref, &movement)?;
    let patched = splice_objstm(
        out,
        &site,
        &new,
        &xref,
        &rows,
        sx_at,
        &offset,
        offset.value - delta,
    );
    match load_file(load, patched.as_slice()) {
        Some(_) => Some(patched),
        None => None,
    }
}

/// What compressing the object stream at `tag_at` again may give.
pub open spec fn objstm_outcome(
    s: Seq<u8>,
    tag_at: int,
    l: spec_fn(Seq<u8>) -> Option<DocumentValue>,
    r: Option<Seq<u8>>,
) -> bool {
    match objstm_plain(s, tag_at) {
        None => r is None,
        Some(plain) => exists|deflated: Option<Seq<u8>>| #[trigger]
            deflate_outcome(plain, DeflateBackend::Zopfli, deflated) && r == objstm_redeflated(
                s,
                tag_at,
                deflated,
                l,
            ),
    }
}

/// Compresses the single object stream whose `/Type/ObjStm` stands at
/// `tag_at` again, with zopfli.
pub fn try_rezopfli_objstm<L: Fn(&[u8]) -> Option<Pdf>>(
    out: &[u8],
    tag_at: usize,
    load: &L,
) -> (r: Option<Vec<u8>>)
    requires
        loads(*load),
    ensures
        objstm_outcome(out@, tag_at as int, |t: Seq<u8>| loaded(*load, t), opt_view(r)),
{
    let (_, site) = find_objstm(out, tag_at)?;
    let content = vstd::slice::slice_subrange(out, site.start, site.end);
    let plain = inflate_capped(content, MAX_REDEFLATE_BYTES)?;
    let deflated = deflate_backend(plain.as_slice(), DeflateBackend::Zopfli);
    proof {
        assert(deflate_outcome(plain@, DeflateBackend::Zopfli, opt_view(deflated)));
    }
    patch_objstm(out, tag_at, deflated, load)
}

/// Where `/Type/ObjStm` stands from `i` on, without overlap.
pub open spec fn objstm_tags(s: Seq<u8>, i: int) -> Seq<int>
    decreases s.len() - i + 1,
{
    match find_from(s, TYPE_OBJSTM@, i) {
        Some(at) => if i <= at && at + 12 <= s.len() {
            seq![at] + objstm_tags(s, at + 12)
        } else {
            Seq::empty()
        },
        None => Seq::empty(),
    }
}

/// Compressing one object stream after the other, from the last of `tags` to
/// the first, may turn `from` into `to`.
pub open spec fn rezopfli_chain(
    tags: Seq<int>,
    from: Seq<u8>,
    l: spec_fn(Seq<u8>) -> Option<DocumentValue>,
    to: Seq<u8>,
) -> bool
    decreases tags.len(),
{
    if tags.len() == 0 {
        to == from
    } else {
        exists|patched: Option<Seq<u8>>| #[trigger]
            objstm_outcome(from, tags.last(), l, patched) && rezopfli_chain(
                tags.drop_last(),
                or_same(from, patched),
                l,
                to,
            )
    }
}

/// Finds every `/Type/ObjStm`.
fn find_objstm_tags(out: &[u8]) -> (r: Vec<usize>)
    ensures
        number_ints(r@) == objstm_tags(out@, 0),
{
    let word: [u8; 12] = TYPE_OBJSTM;
    let mut tags: Vec<usize> = Vec::new();
    let mut from: usize = 0;
    proof {
        assert(number_ints(tags@) + objstm_tags(out@, 0) =~= objstm_tags(out@, 0));
    }
    loop
        invariant
            from <= out@.len(),
            word@ == TYPE_OBJSTM@,
            objstm_tags(out@, 0) == number_ints(tags@) + objstm_tags(out@, from as int),
        decreases out@.len() - from,
    {
        match find_sub(out, word.as_slice(), from) {
            Some(at) => {
                let ghost before = tags@;
                tags.push(at);
                proof {
                    assert(number_ints(tags@) =~= number_ints(before).push(at as int));
                    assert(number_ints(before) + objstm_tags(out@, from as int) =~= number_ints(
                        tags@,
                    ) + objstm_tags(out@, at + 12));
                }
                from = at + 12;
            },
            None => {
                proof {
                    assert(number_ints(tags@) =~= objstm_tags(out@, 0));
                }
                return tags;
            },
        }
    }
}

/// Compresses every object stream of a document that has just been written
/// again, with zopfli.
///
/// It goes strictly from the last to the first: a patch moves only bytes
/// after the stream that it rewrites, so the places of those still to come
/// stay valid. A stream that declines stays as it is without affecting the
/// others.
pub fn rezopfli_objstm<L: Fn(&[u8]) -> Option<Pdf>>(out: Vec<u8>, load: &L) -> (r: Vec<u8>)
    requires
        loads(*load),
    ensures
        rezopfli_chain(objstm_tags(out@, 0), out@, |t: Seq<u8>| loaded(*load, t), r@),
{
    let tags = find_objstm_tags(out.as_slice());
    rezopfli_tags(out, tags, load)
}

/// Compresses the object streams at `tags` again, from the last on.
fn rezopfli_tags<L: Fn(&[u8]) -> Option<Pdf>>(
    out: Vec<u8>,
    tags: Vec<usize>,
    load: &L,
) -> (r: Vec<u8>)
    requires
        loads(*load),
    ensures
        rezopfli_chain(number_ints(tags@), out@, |t: Seq<u8>| loaded(*load, t), r@),
    decreases tags@.len(),
{
    let mut rest = tags;
    match rest.pop() {
        None => out,
        Some(tag_at) => {
            proof {
                assert(number_ints(tags@).last() == tag_at);
                assert(number_ints(tags@).drop_last() =~= number_ints(rest@));
            }
            let patched = try_rezopfli_objstm(out.as_slice(), tag_at, load);
            let ghost outcome = opt_view(patched);
            proof {
                assert(objstm_outcome(
                    out@,
                    number_ints(tags@).last(),
                    |t: Seq<u8>| loaded(*load, t),
                    outcome,
                ));
            }
            let next = match patched {
                Some(new) => new,
                None => out,
            };
            rezopfli_tags(next, rest, load)
        },
    }
}

/// The parts of a stream stand in order.
pub proof fn lemma_site_ordered(s: Seq<u8>, dict_start: int)
    requires
        stream_site(s, dict_start) is Some,
        0 <= dict_start,
    ensures
        ({
            let site = stream_site(s, dict_start)->0;
            &&& dict_start <= site.length.at < site.length.end <= site.start <= site.end <= s.len()
        }),
{
    let site = stream_site(s, dict_start)->0;
    lemma_find_from(s, DICT_STREAM@, dict_start);
    let dict = s.subrange(dict_start, site.dict_end);
    lemma_find_from(dict, LENGTH_KEY@, 0);
    let key = find_from(dict, LENGTH_KEY@, 0)->0;
    lemma_digits_end(dict, key + 8);
}

proof fn lemma_blanks_end(s: Seq<u8>, i: int)
    requires
        0 <= i <= s.len(),
    ensures
        i <= blanks_end(s, i) <= s.len(),
    decreases s.len() - i,
{
    if i < s.len() && crate::text::is_blank(s[i]) {
        lemma_blanks_end(s, i + 1);
    }
}

/// The offset after `startxref` is spelled in digits that are there, and the
/// cross-reference stream stands behind it.
proof fn lemma_xref_ordered(s: Seq<u8>)
    requires
        xref_site(s) is Some,
    ensures
        ({
            let (sx, xref) = xref_site(s)->0;
            let spelled = s.subrange(sx.offset.at, sx.offset.end);
            &&& 0 <= sx.offset.at < sx.offset.end <= s.len()
            &&& crate::text::all_digits(spelled)
            &&& digits_value(spelled) == sx.offset.value
            &&& 0 <= sx.offset.value <= xref.start <= xref.end <= s.len()
        }),
{
    let (sx, xref) = xref_site(s)->0;
    lemma_find_last(s, STARTXREF@, s.len() - STARTXREF@.len());
    let from = blanks_end(s, sx.at + 9);
    lemma_blanks_end(s, sx.at + 9);
    lemma_digits_end(s, from);
    let spelled = s.subrange(sx.offset.at, sx.offset.end);
    assert forall|i: int| 0 <= i < spelled.len() implies is_digit(#[trigger] spelled[i]) by {
        assert(spelled[i] == s[from + i]);
    }
    let at = sx.offset.value;
    let dict_start = dict_after_header(s, at)->0;
    lemma_digits_end(s, at);
    lemma_digits_end(s, digits_end(s, at) + 1);
    lemma_site_ordered(s, dict_start);
}

/// Compressing an object stream again makes the file strictly smaller.
pub proof fn repacked_file_is_smaller(
    s: Seq<u8>,
    tag_at: int,
    deflated: Option<Seq<u8>>,
    l: spec_fn(Seq<u8>) -> Option<DocumentValue>,
)
    requires
        objstm_redeflated(s, tag_at, deflated, l) is Some,
    ensures
        (objstm_redeflated(s, tag_at, deflated, l)->0).len() < s.len(),
{
    let (start, site) = objstm_site(s, tag_at)->0;
    let plain = objstm_plain(s, tag_at)->0;
    let (sx, xref) = xref_site(s)->0;
    let new = accepted(plain, site.end - site.start, deflated)->0;
    let hdr = find_before(s, OBJ_DICT@, tag_at)->0;
    lemma_find_last(s, OBJ_DICT@, tag_at - OBJ_DICT@.len());
    lemma_site_length(s, hdr + 5);
    lemma_site_ordered(s, hdr + 5);
    lemma_xref_ordered(s);
    let m = objstm_movement(start, site, new);
    lemma_moved_xref_len(s, xref, m);
    let old_len = s.subrange(site.length.at, site.length.end);
    lemma_spelling_len(new.len(), old_len);
    assert(shrinkage(site, new) > 0);
    assert(sx.offset.value - shrinkage(site, new) >= 0);
    let old_offset = s.subrange(sx.offset.at, sx.offset.end);
    lemma_spelling_len((sx.offset.value - shrinkage(site, new)) as nat, old_offset);
}

/// Deflating the cross-reference stream makes its payload strictly smaller,
/// and adds no more to the file than the 19 bytes that name the filter, less
/// what the payload saves: a file whose payload saves that much never grows.
pub proof fn deflated_xref_pays_for_its_filter(s: Seq<u8>, deflated: Option<Seq<u8>>)
    requires
        xref_deflated(s, deflated) is Some,
    ensures
        ({
            let old = site_content(s, deflatable_xref(s)->0).len();
            let new = (deflated->0).len();
            &&& new < old
            &&& (xref_deflated(s, deflated)->0).len() <= s.len() + 19 - (old - new)
        }),
{
    lemma_xref_ordered(s);
    let (sx, xref) = xref_site(s)->0;
    let at = sx.offset.value;
    let dict_start = dict_after_header(s, at)->0;
    lemma_digits_end(s, at);
    lemma_digits_end(s, digits_end(s, at) + 1);
    lemma_site_ordered(s, dict_start);
    lemma_site_length(s, dict_start);
    lemma_find_from(s.subrange(dict_start, xref.dict_end), LENGTH_KEY@, 0);
    lemma_find_from(s, DICT_STREAM@, dict_start);
    let new = deflated->0;
    lemma_spelling_len(new.len(), s.subrange(xref.length.at, xref.length.end));
}

/// Deflating the cross-reference stream leaves every byte before it where it
/// was, and the new payload inflates back to the old.
pub proof fn deflated_xref_moves_nothing_before_it(s: Seq<u8>, deflated: Option<Seq<u8>>, i: int)
    requires
        xref_deflated(s, deflated) is Some,
        0 <= i < (xref_site(s)->0).0.offset.value,
    ensures
        i < (xref_deflated(s, deflated)->0).len(),
        (xref_deflated(s, deflated)->0)[i] == s[i],
        deflated is Some,
        ({
            let old = site_content(s, deflatable_xref(s)->0);
            inflated(deflated->0, old.len()) == Some(old)
        }),
{
    lemma_xref_ordered(s);
    let (sx, xref) = xref_site(s)->0;
    let at = sx.offset.value;
    let dict_start = dict_after_header(s, at)->0;
    lemma_digits_end(s, at);
    lemma_digits_end(s, digits_end(s, at) + 1);
    lemma_site_ordered(s, dict_start);
    lemma_find_from(s.subrange(dict_start, xref.dict_end), LENGTH_KEY@, 0);
    lemma_find_from(s, DICT_STREAM@, dict_start);
}

} // verus!
