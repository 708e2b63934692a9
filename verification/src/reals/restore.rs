//! Putting the literals back into a document that has just been written.

use crate::bytes::{index_ints, ints, same_bytes, sort_order, stable_order, stable_order_sorts};
use crate::edit::{apply_edits, edit_views, edited, edits_fit, Edit, EditValue};
use crate::equiv::{dicts_equal, objects_equal, same_entries, same_value};
use crate::flate::{
    deflate_level9, inflate_capped, inflated, opt_view, zlib_level9, MAX_REDEFLATE_BYTES,
};
use crate::object::{dict_get, object_at, object_view, DocumentValue, Pdf, PdfObject, Value};
use crate::patch::{find_stream, site_content, site_dict, stream_site, FoundStream, StreamSite};
use crate::load::{load_file, loaded, loads};
use crate::reals::capture::{meaning, reads_text, replaced_by, Reading, ReadingValue, RealLiterals};
use crate::reals::offsets::{int_value, repair_offsets, repaired, value_after};
use crate::reals::scan::{place_ints, scan_reals_positions, token_places, window_start};
use crate::text::{
    contains_sub, decimal_digits, decimal_usize, find_before, find_from, find_sub, has_sub,
    parse_signed_word, parse_word, rfind_within, signed_decimal, signed_digits, signed_word_value,
    split_words, views, word_value, words,
};
use crate::words::{
    COUNT_KEY, DECODE_PARMS_KEY, FILTER_FLATE, FIRST_KEY, OBJSTM_TYPE, OBJ_DICT, TYPE_NAME,
    TYPE_OBJSTM, XREF_TYPE,
};
use vstd::prelude::*;

verus! {

// --- edits in plain syntax ----------------------------------------------------------

/// The edits that put literals in the place of the first `n` numbers.
pub open spec fn number_edits(
    s: Seq<u8>,
    places: Seq<(int, int)>,
    literals: Map<u32, Seq<u8>>,
    m: spec_fn(Seq<u8>) -> Option<ReadingValue>,
    n: int,
) -> Seq<EditValue>
    decreases n,
{
    if n <= 0 {
        Seq::empty()
    } else {
        let before = number_edits(s, places, literals, m, n - 1);
        let (from, to) = places[n - 1];
        let printed = s.subrange(from, to);
        match replaced_by(literals, m, printed) {
            Some(text) => before.push(EditValue { at: from, len: to - from, text }),
            None => before,
        }
    }
}

/// The edits that put literals in the place of the numbers of `s`.
pub open spec fn literal_edits(
    s: Seq<u8>,
    skip_streams: bool,
    literals: Map<u32, Seq<u8>>,
    m: spec_fn(Seq<u8>) -> Option<ReadingValue>,
) -> Seq<EditValue> {
    let places = token_places(s, skip_streams);
    number_edits(s, places, literals, m, places.len() as int)
}

/// Finds the numbers whose exact literal is known.
fn find_literal_edits<F: Fn(&[u8]) -> Option<Reading>>(
    data: &[u8],
    skip_streams: bool,
    literals: &RealLiterals,
    read: &F,
) -> (r: Vec<Edit>)
    requires
        reads_text(*read),
    ensures
        edit_views(r@) == literal_edits(
            data@,
            skip_streams,
            literals@,
            |t: Seq<u8>| meaning(*read, t),
        ),
        edits_fit(edit_views(r@), data@.len() as int),
{
    let ghost m = |t: Seq<u8>| meaning(*read, t);
    let found = scan_reals_positions(data, skip_streams);
    let ghost places = token_places(data@, skip_streams);
    let mut out: Vec<Edit> = Vec::new();
    let mut i: usize = 0;
    proof {
        assert(edit_views(out@) =~= Seq::empty());
    }
    while i < found.len()
        invariant
            i <= found@.len(),
            reads_text(*read),
            m == |t: Seq<u8>| meaning(*read, t),
            places == token_places(data@, skip_streams),
            place_ints(found@) == places,
            forall|k: int|
                0 <= k < found@.len() ==> (#[trigger] found@[k]).0 < found@[k].1 <= data@.len(),
            forall|j: int, k: int|
                0 <= j < k < found@.len() ==> (#[trigger] found@[j]).1 <= (#[trigger] found@[k]).0,
            edit_views(out@) == number_edits(data@, places, literals@, m, i as int),
            edits_fit(edit_views(out@), data@.len() as int),
            forall|k: int|
                0 <= k < out@.len() ==> i > 0 && (#[trigger] edit_views(out@)[k]).at + edit_views(
                    out@,
                )[k].len <= found@[i - 1].1,
        decreases found@.len() - i,
    {
        let (from, to) = found[i];
        proof {
            assert(places[i as int] == (from as int, to as int)) by {
                assert(place_ints(found@)[i as int] == (from as int, to as int));
            }
            if i > 0 {
                assert(found@[i - 1].1 <= found@[i as int].0);
            }
        }
        let printed = vstd::slice::slice_subrange(data, from, to);
        let ghost before = edit_views(out@);
        match literals.replacement(printed, read) {
            Some(text) => {
                out.push(Edit { at: from, len: to - from, text });
                proof {
                    assert(edit_views(out@) =~= before.push(
                        EditValue { at: from as int, len: to - from, text: text@ },
                    ));
                }
            },
            None => {},
        }
        i += 1;
    }
    out
}

// --- one object stream -----------------------------------------------------------------

/// The stream whose dictionary holds the place `inside`, its object header
/// standing no more than 4096 bytes before.
pub open spec fn stream_around(s: Seq<u8>, inside: int) -> Option<StreamSite> {
    match find_before(s, OBJ_DICT@, inside) {
        None => None,
        Some(hdr) => if hdr < window_start(inside) {
            None
        } else {
            match stream_site(s, hdr + 5) {
                Some(site) => if inside < site.dict_end {
                    Some(site)
                } else {
                    None
                },
                None => None,
            }
        },
    }
}

/// The identifiers and offsets that the header of an object stream lists,
/// for `n` objects.
pub open spec fn header_pairs(list: Seq<Seq<u8>>, n: int) -> Option<Seq<(int, int)>>
    decreases n,
{
    if n <= 0 {
        Some(Seq::empty())
    } else {
        match (
            header_pairs(list, n - 1),
            signed_word_value(list[2 * n - 2]),
            word_value(list[2 * n - 1], usize::MAX as int),
        ) {
            (Some(before), Some(id), Some(offset)) => Some(before.push((id, offset))),
            _ => None,
        }
    }
}

/// The header of an object stream: exactly `count` pairs, the first at 0.
pub open spec fn objstm_header(header: Seq<u8>, count: int) -> Option<Seq<(int, int)>> {
    let list = words(header);
    if list.len() != 2 * count || count < 1 {
        None
    } else {
        match header_pairs(list, count) {
            Some(pairs) => if pairs[0].1 == 0 {
                Some(pairs)
            } else {
                None
            },
            None => None,
        }
    }
}

/// The body of object `i`: from its offset to the next, or to the end.
pub open spec fn body_at(payload: Seq<u8>, first: int, pairs: Seq<(int, int)>, i: int) -> Option<
    Seq<u8>,
> {
    let from = first + pairs[i].1;
    let to = if i + 1 < pairs.len() {
        first + pairs[i + 1].1
    } else {
        payload.len() as int
    };
    if from <= to <= payload.len() {
        Some(payload.subrange(from, to))
    } else {
        None
    }
}

/// The first `n` bodies with their literals put back, and whether any had
/// some.
pub open spec fn restored_bodies(
    payload: Seq<u8>,
    first: int,
    pairs: Seq<(int, int)>,
    literals: Map<u32, Seq<u8>>,
    m: spec_fn(Seq<u8>) -> Option<ReadingValue>,
    n: int,
) -> Option<(Seq<Seq<u8>>, bool)>
    decreases n,
{
    if n <= 0 {
        Some((Seq::empty(), false))
    } else {
        match (
            restored_bodies(payload, first, pairs, literals, m, n - 1),
            body_at(payload, first, pairs, n - 1),
        ) {
            (Some((before, changed)), Some(body)) => {
                let edits = literal_edits(body, false, literals, m);
                Some((before.push(edited(body, edits)), changed || edits.len() > 0))
            },
            _ => None,
        }
    }
}

/// Where body `n` starts after the header.
pub open spec fn body_offset(list: Seq<Seq<u8>>, n: int) -> nat
    decreases n,
{
    if n <= 0 {
        0
    } else {
        body_offset(list, n - 1) + list[n - 1].len()
    }
}

/// The header for `n` objects: identifiers and offsets, parted by spaces.
pub open spec fn new_header(pairs: Seq<(int, int)>, list: Seq<Seq<u8>>, n: int) -> Seq<u8>
    decreases n,
{
    if n <= 0 {
        Seq::empty()
    } else {
        new_header(pairs, list, n - 1) + (if n > 1 {
            seq![0x20u8]
        } else {
            Seq::empty()
        }) + signed_digits(pairs[n - 1].0) + seq![0x20u8] + decimal_digits(
            body_offset(list, n - 1),
        )
    }
}

/// The first `n` bodies, one after the other.
pub open spec fn joined(list: Seq<Seq<u8>>, n: int) -> Seq<u8>
    decreases n,
{
    if n <= 0 {
        Seq::empty()
    } else {
        joined(list, n - 1) + list[n - 1]
    }
}

/// The edits for one object stream, given where it stands and what it
/// holds: its length, its `/First`, and its payload. `None` where nothing in
/// it changes or it is not shaped as expected.
pub open spec fn objstm_rebuilt(
    s: Seq<u8>,
    site: StreamSite,
    payload: Seq<u8>,
    literals: Map<u32, Seq<u8>>,
    m: spec_fn(Seq<u8>) -> Option<ReadingValue>,
) -> Option<Seq<EditValue>> {
    let dict = site_dict(s, site);
    match (value_after(dict, COUNT_KEY@), value_after(dict, FIRST_KEY@)) {
        (Some(count), Some(first)) => if first.value > payload.len() {
            None
        } else {
            match objstm_header(payload.take(first.value), count.value) {
                None => None,
                Some(pairs) => match restored_bodies(
                    payload,
                    first.value,
                    pairs,
                    literals,
                    m,
                    pairs.len() as int,
                ) {
                    None => None,
                    Some((list, changed)) => if !changed {
                        None
                    } else {
                        let header = new_header(pairs, list, list.len() as int) + seq![0x0Au8];
                        let new = header + joined(list, list.len() as int);
                        match zlib_level9(new) {
                            None => None,
                            Some(content) => if new.len() < usize::MAX && inflated(content, new.len()) == Some(new) {
                                Some(
                                    seq![
                                        EditValue {
                                            at: site.length.at,
                                            len: site.length.end - site.length.at,
                                            text: decimal_digits(content.len()),
                                        },
                                        EditValue {
                                            at: site.dict_start + first.at,
                                            len: first.end - first.at,
                                            text: decimal_digits(header.len()),
                                        },
                                        EditValue {
                                            at: site.start,
                                            len: site.end - site.start,
                                            text: content,
                                        },
                                    ],
                                )
                            } else {
                                None
                            },
                        }
                    },
                },
            }
        },
        _ => None,
    }
}

/// The edits for the object stream whose `/Type/ObjStm` stands at `tag_at`.
pub open spec fn objstm_edit_list(
    s: Seq<u8>,
    tag_at: int,
    literals: Map<u32, Seq<u8>>,
    m: spec_fn(Seq<u8>) -> Option<ReadingValue>,
) -> Option<Seq<EditValue>> {
    match stream_around(s, tag_at) {
        None => None,
        Some(site) => if !has_sub(site_dict(s, site), FILTER_FLATE@) || has_sub(
            site_dict(s, site),
            DECODE_PARMS_KEY@,
        ) {
            None
        } else {
            match inflated(site_content(s, site), MAX_REDEFLATE_BYTES as nat) {
                None => None,
                Some(payload) => objstm_rebuilt(s, site, payload, literals, m),
            }
        },
    }
}

/// Finds the stream whose dictionary holds `inside`, shaped as the writer
/// shapes it: `<id> <gen> obj`, dictionary, `stream`, payload, `endstream`.
pub fn locate_stream(out: &[u8], inside: usize) -> (r: Option<FoundStream>)
    ensures
        match r {
            Some(site) => stream_around(out@, inside as int) == Some(site@) && site.ordered(
                out@.len() as int,
            ),
            None => stream_around(out@, inside as int) is None,
        },
{
    let header: [u8; 7] = OBJ_DICT;
    let floor: usize = if inside >= 4096 {
        inside - 4096
    } else {
        0
    };
    let hdr: usize = rfind_within(out, header.as_slice(), floor, inside)?;
    let site = find_stream(out, hdr + 5)?;
    if inside >= site.dict_end {
        return None;
    }
    Some(site)
}

/// Identifiers and offsets as mathematical integers.
pub open spec fn pair_ints(s: Seq<(i64, usize)>) -> Seq<(int, int)> {
    s.map_values(|p: (i64, usize)| (p.0 as int, p.1 as int))
}

proof fn lemma_pairs_stop(list: Seq<Seq<u8>>, i: int, n: int)
    requires
        i <= n,
        header_pairs(list, i) is None,
    ensures
        header_pairs(list, n) is None,
    decreases n - i,
{
    if i < n {
        lemma_pairs_stop(list, i, n - 1);
    }
}

/// Reads the header of an object stream.
fn read_header(header: &[u8], count: u64) -> (r: Option<Vec<(i64, usize)>>)
    ensures
        match r {
            Some(pairs) => objstm_header(header@, count as int) == Some(pair_ints(pairs@))
                && pairs@.len() == count,
            None => objstm_header(header@, count as int) is None,
        },
{
    let list = split_words(header);
    let ghost model = words(header@);
    let total: usize = list.len();
    proof {
        assert(model.len() == list@.len());
    }
    if count < 1 || count > 0x7FFF_FFFF_FFFF_FFFF || total as u64 != 2 * count {
        return None;
    }
    let n: usize = total / 2;
    let mut pairs: Vec<(i64, usize)> = Vec::new();
    let mut i: usize = 0;
    proof {
        assert(pair_ints(pairs@) =~= Seq::empty());
    }
    while i < n
        invariant
            i <= n,
            n == count,
            model == words(header@),
            views(list@) == model,
            list@.len() == 2 * n,
            total == 2 * n,
            pairs@.len() == i,
            header_pairs(model, i as int) == Some(pair_ints(pairs@)),
        decreases n - i,
    {
        proof {
            assert(views(list@)[2 * i] == list@[2 * i]@);
            assert(views(list@)[2 * i + 1] == list@[2 * i + 1]@);
        }
        match (
            parse_signed_word(list[2 * i].as_slice()),
            parse_word(list[2 * i + 1].as_slice(), usize::MAX as u64),
        ) {
            (Some(id), Some(offset)) => {
                let ghost before = pairs@;
                pairs.push((id, offset as usize));
                proof {
                    assert(pair_ints(pairs@) =~= pair_ints(before).push((id as int, offset as int)));
                }
            },
            _ => {
                proof {
                    lemma_pairs_stop(model, i + 1, n as int);
                }
                return None;
            },
        }
        i += 1;
    }
    proof {
        assert(pair_ints(pairs@)[0] == (pairs@[0].0 as int, pairs@[0].1 as int));
    }
    if pairs[0].1 != 0 {
        return None;
    }
    Some(pairs)
}

/// Takes the body of object `i` out of a payload.
fn take_body<'a>(payload: &'a [u8], first: usize, pairs: &Vec<(i64, usize)>, i: usize) -> (r: Option<
    &'a [u8],
>)
    requires
        i < pairs@.len(),
        first <= payload@.len(),
    ensures
        match r {
            Some(body) => body_at(payload@, first as int, pair_ints(pairs@), i as int) == Some(
                body@,
            ),
            None => body_at(payload@, first as int, pair_ints(pairs@), i as int) is None,
        },
{
    let total: usize = payload.len();
    let n: usize = pairs.len();
    proof {
        assert(pair_ints(pairs@)[i as int] == (
            pairs@[i as int].0 as int,
            pairs@[i as int].1 as int,
        ));
    }
    if pairs[i].1 > total - first {
        proof {
            if i + 1 < pairs@.len() {
                assert(pair_ints(pairs@)[i + 1] == (pairs@[i + 1].0 as int, pairs@[i + 1].1 as int));
            }
        }
        return None;
    }
    let from: usize = first + pairs[i].1;
    let to: usize = if i + 1 < n {
        proof {
            assert(pair_ints(pairs@)[i + 1] == (pairs@[i + 1].0 as int, pairs@[i + 1].1 as int));
        }
        if pairs[i + 1].1 > total - first {
            return None;
        }
        first + pairs[i + 1].1
    } else {
        total
    };
    crate::bytes::get_range(payload, from, to)
}

proof fn lemma_bodies_stop(
    payload: Seq<u8>,
    first: int,
    pairs: Seq<(int, int)>,
    literals: Map<u32, Seq<u8>>,
    m: spec_fn(Seq<u8>) -> Option<ReadingValue>,
    i: int,
    n: int,
)
    requires
        i <= n,
        restored_bodies(payload, first, pairs, literals, m, i) is None,
    ensures
        restored_bodies(payload, first, pairs, literals, m, n) is None,
    decreases n - i,
{
    if i < n {
        lemma_bodies_stop(payload, first, pairs, literals, m, i, n - 1);
    }
}

/// Puts the literals back into each body.
fn restore_bodies<F: Fn(&[u8]) -> Option<Reading>>(
    payload: &[u8],
    first: usize,
    pairs: &Vec<(i64, usize)>,
    literals: &RealLiterals,
    read: &F,
) -> (r: Option<(Vec<Vec<u8>>, bool)>)
    requires
        reads_text(*read),
        first <= payload@.len(),
    ensures
        match (
            r,
            restored_bodies(
                payload@,
                first as int,
                pair_ints(pairs@),
                literals@,
                |t: Seq<u8>| meaning(*read, t),
                pairs@.len() as int,
            ),
        ) {
            (Some(x), Some(model)) => views(x.0@) == model.0 && x.1 == model.1 && x.0@.len()
                == pairs@.len(),
            (None, None) => true,
            _ => false,
        },
{
    let ghost m = |t: Seq<u8>| meaning(*read, t);
    let ghost model = pair_ints(pairs@);
    let mut out: Vec<Vec<u8>> = Vec::new();
    let mut changed = false;
    let mut i: usize = 0;
    proof {
        assert(views(out@) =~= Seq::empty());
    }
    while i < pairs.len()
        invariant
            i <= pairs@.len(),
            reads_text(*read),
            m == |t: Seq<u8>| meaning(*read, t),
            model == pair_ints(pairs@),
            first <= payload@.len(),
            out@.len() == i,
            restored_bodies(payload@, first as int, model, literals@, m, i as int) == Some(
                (views(out@), changed),
            ),
        decreases pairs@.len() - i,
    {
        match take_body(payload, first, pairs, i) {
            None => {
                proof {
                    lemma_bodies_stop(
                        payload@,
                        first as int,
                        model,
                        literals@,
                        m,
                        i + 1,
                        pairs@.len() as int,
                    );
                }
                return None;
            },
            Some(body) => {
                let edits = find_literal_edits(body, false, literals, read);
                let ghost before = views(out@);
                let new = apply_edits(body, edits.as_slice());
                if edits.len() > 0 {
                    changed = true;
                }
                out.push(new);
                proof {
                    assert(views(out@) =~= before.push(new@));
                }
            },
        }
        i += 1;
    }
    Some((out, changed))
}

/// Writes the header of an object stream; `None` where its offsets leave the
/// machine's range.
fn write_header(pairs: &Vec<(i64, usize)>, list: &Vec<Vec<u8>>) -> (r: Option<Vec<u8>>)
    requires
        pairs@.len() == list@.len(),
    ensures
        match r {
            Some(out) => out@ == new_header(pair_ints(pairs@), views(list@), list@.len() as int)
                + seq![0x0Au8],
            None => joined(views(list@), list@.len() as int).len() > usize::MAX,
        },
{
    let ghost model = pair_ints(pairs@);
    let ghost parts = views(list@);
    let mut out: Vec<u8> = Vec::new();
    let mut running: usize = 0;
    let mut i: usize = 0;
    proof {
        assert(out@ =~= Seq::empty());
    }
    while i < pairs.len()
        invariant
            i <= pairs@.len(),
            pairs@.len() == list@.len(),
            model == pair_ints(pairs@),
            parts == views(list@),
            running == body_offset(parts, i as int),
            out@ == new_header(model, parts, i as int),
        decreases pairs@.len() - i,
    {
        if i > 0 {
            out.push(0x20);
        }
        out.extend_from_slice(signed_decimal(pairs[i].0).as_slice());
        out.push(0x20);
        out.extend_from_slice(decimal_usize(running).as_slice());
        proof {
            assert(model[i as int].0 == pairs@[i as int].0);
            assert(parts[i as int] == list@[i as int]@);
            assert(out@ =~= new_header(model, parts, i + 1));
        }
        if list[i].len() > usize::MAX - running {
            proof {
                lemma_joined_len(parts, i + 1);
                lemma_joined_grows(parts, i + 1, parts.len() as int);
            }
            return None;
        }
        running = running + list[i].len();
        i += 1;
    }
    out.push(0x0A);
    proof {
        assert(out@ =~= new_header(model, parts, list@.len() as int) + seq![0x0Au8]);
    }
    Some(out)
}

proof fn lemma_joined_len(list: Seq<Seq<u8>>, n: int)
    requires
        0 <= n <= list.len(),
    ensures
        joined(list, n).len() == body_offset(list, n),
    decreases n,
{
    if n > 0 {
        lemma_joined_len(list, n - 1);
    }
}

proof fn lemma_joined_grows(list: Seq<Seq<u8>>, i: int, n: int)
    requires
        0 <= i <= n <= list.len(),
    ensures
        joined(list, i).len() <= joined(list, n).len(),
    decreases n - i,
{
    if i < n {
        lemma_joined_grows(list, i, n - 1);
    }
}

/// Appends the bodies.
fn append_bodies(out: &mut Vec<u8>, list: &Vec<Vec<u8>>)
    ensures
        final(out)@ == old(out)@ + joined(views(list@), list@.len() as int),
{
    let ghost parts = views(list@);
    let ghost front = out@;
    let mut i: usize = 0;
    proof {
        assert(out@ =~= front + joined(parts, 0));
    }
    while i < list.len()
        invariant
            i <= list@.len(),
            parts == views(list@),
            out@ == front + joined(parts, i as int),
        decreases list@.len() - i,
    {
        out.extend_from_slice(list[i].as_slice());
        proof {
            assert(parts[i as int] == list@[i as int]@);
            assert(out@ =~= front + joined(parts, i + 1));
        }
        i += 1;
    }
}

/// The spellings of a stream's place and of the places inside its
/// dictionary.
fn place_edits(
    site: &FoundStream,
    first_at: usize,
    first_len: usize,
    header_len: usize,
    content: Vec<u8>,
) -> (r: Vec<Edit>)
    requires
        site.dict_start + first_at <= usize::MAX,
        site.length.at <= site.length.end,
        site.start <= site.end,
    ensures
        edit_views(r@) == seq![
            EditValue {
                at: site.length.at as int,
                len: site.length.end - site.length.at,
                text: decimal_digits(content@.len()),
            },
            EditValue {
                at: site.dict_start + first_at,
                len: first_len as int,
                text: decimal_digits(header_len as nat),
            },
            EditValue {
                at: site.start as int,
                len: site.end - site.start,
                text: content@,
            },
        ],
{
    let mut r: Vec<Edit> = Vec::new();
    r.push(
        Edit {
            at: site.length.at,
            len: site.length.end - site.length.at,
            text: decimal_usize(content.len()),
        },
    );
    r.push(
        Edit {
            at: site.dict_start + first_at,
            len: first_len,
            text: decimal_usize(header_len),
        },
    );
    r.push(Edit { at: site.start, len: site.end - site.start, text: content });
    proof {
        assert(edit_views(r@) =~= seq![
            EditValue {
                at: site.length.at as int,
                len: site.length.end - site.length.at,
                text: decimal_digits(content@.len()),
            },
            EditValue {
                at: site.dict_start + first_at,
                len: first_len as int,
                text: decimal_digits(header_len as nat),
            },
            EditValue {
                at: site.start as int,
                len: site.end - site.start,
                text: content@,
            },
        ]);
    }
    r
}

/// Each edit lies inside `len` bytes.
pub open spec fn edits_inside(edits: Seq<EditValue>, len: int) -> bool {
    forall|i: int|
        0 <= i < edits.len() ==> 0 <= (#[trigger] edits[i]).at && 0 <= edits[i].len && edits[i].at
            + edits[i].len <= len
}

/// The rebuilt payload of an object stream, compressed, and the length of
/// its header.
fn rebuild_payload(pairs: &Vec<(i64, usize)>, list: &Vec<Vec<u8>>) -> (r: Option<
    (usize, Vec<u8>),
>)
    requires
        pairs@.len() == list@.len(),
    ensures
        ({
            let header = new_header(pair_ints(pairs@), views(list@), list@.len() as int) + seq![
                0x0Au8,
            ];
            let new = header + joined(views(list@), list@.len() as int);
            match r {
                Some(x) => zlib_level9(new) == Some(x.1@) && x.0 == header.len() && new.len()
                    < usize::MAX && inflated(x.1@, new.len()) == Some(new),
                None => zlib_level9(new) is None || !(new.len() < usize::MAX && inflated(
                    zlib_level9(new)->0,
                    new.len(),
                ) == Some(new)),
            }
        }),
{
    let mut new = write_header(pairs, list)?;
    let header_len: usize = new.len();
    append_bodies(&mut new, list);
    if new.len() == usize::MAX {
        return None;
    }
    let content = deflate_level9(new.as_slice())?;
    let back = inflate_capped(content.as_slice(), new.len())?;
    if !same_bytes(back.as_slice(), new.as_slice()) {
        return None;
    }
    Some((header_len, content))
}

/// Rebuilds one object stream with its reals restored.
///
/// Gives the edits for its payload and for the `/Length` and `/First` that
/// describe it, or `None` where nothing in it changes or the stream is not
/// shaped as the writer shapes one.
pub fn objstm_edits<F: Fn(&[u8]) -> Option<Reading>>(
    out: &[u8],
    tag_at: usize,
    literals: &RealLiterals,
    read: &F,
) -> (r: Option<Vec<Edit>>)
    requires
        reads_text(*read),
    ensures
        match r {
            Some(edits) => objstm_edit_list(
                out@,
                tag_at as int,
                literals@,
                |t: Seq<u8>| meaning(*read, t),
            ) == Some(edit_views(edits@)) && edits_inside(edit_views(edits@), out@.len() as int),
            None => objstm_edit_list(
                out@,
                tag_at as int,
                literals@,
                |t: Seq<u8>| meaning(*read, t),
            ) is None,
        },
{
    let (flate, parms, count_key, first_key): ([u8; 19], [u8; 12], [u8; 3], [u8; 7]) = (
        FILTER_FLATE,
        DECODE_PARMS_KEY,
        COUNT_KEY,
        FIRST_KEY,
    );
    let total: usize = out.len();
    let site = locate_stream(out, tag_at)?;
    let dict = vstd::slice::slice_subrange(out, site.dict_start, site.dict_end);
    if !contains_sub(dict, flate.as_slice()) || contains_sub(dict, parms.as_slice()) {
        return None;
    }
    let content = vstd::slice::slice_subrange(out, site.start, site.end);
    let payload = inflate_capped(content, MAX_REDEFLATE_BYTES)?;
    let (count, _, _) = int_value(dict, count_key.as_slice())?;
    let (first, first_at, first_len) = int_value(dict, first_key.as_slice())?;
    if first as u64 > payload.len() as u64 {
        return None;
    }
    let header = vstd::slice::slice_subrange(payload.as_slice(), 0, first as usize);
    proof {
        assert(header@ =~= payload@.take(first as int));
    }
    let pairs = read_header(header, count as u64)?;
    let (list, changed) = restore_bodies(
        payload.as_slice(),
        first as usize,
        &pairs,
        literals,
        read,
    )?;
    if !changed {
        return None;
    }
    let (header_len, new_content) = rebuild_payload(&pairs, &list)?;
    let edits = place_edits(&site, first_at, first_len, header_len, new_content);
    Some(edits)
}

// --- the whole file ------------------------------------------------------------------------

/// The edits for the object streams from `i` on.
pub open spec fn stream_edits(
    s: Seq<u8>,
    literals: Map<u32, Seq<u8>>,
    m: spec_fn(Seq<u8>) -> Option<ReadingValue>,
    i: int,
) -> Seq<EditValue>
    decreases s.len() - i + 1,
{
    match find_from(s, TYPE_OBJSTM@, i) {
        None => Seq::empty(),
        Some(at) => {
            let rest = if i <= at < s.len() {
                stream_edits(s, literals, m, at + 1)
            } else {
                Seq::empty()
            };
            match objstm_edit_list(s, at, literals, m) {
                Some(edits) => edits + rest,
                None => rest,
            }
        },
    }
}

/// All edits: in plain object bodies, then in object streams.
pub open spec fn all_edits(
    s: Seq<u8>,
    literals: Map<u32, Seq<u8>>,
    m: spec_fn(Seq<u8>) -> Option<ReadingValue>,
) -> Seq<EditValue> {
    literal_edits(s, true, literals, m) + stream_edits(s, literals, m, 0)
}

/// Where the edits stand.
pub open spec fn edit_places(edits: Seq<EditValue>) -> Seq<int> {
    edits.map_values(|e: EditValue| e.at)
}

/// The edits in the order of their places.
pub open spec fn sorted_edits(edits: Seq<EditValue>) -> Seq<EditValue> {
    stable_order(edit_places(edits), edits.len() as int).map_values(|i: int| edits[i])
}

/// Each edit ends before the next begins.
pub open spec fn edits_apart(edits: Seq<EditValue>) -> bool {
    forall|i: int|
        0 <= i < edits.len() - 1 ==> (#[trigger] edits[i]).at + edits[i].len <= edits[i + 1].at
}

/// An object stream or a cross-reference stream: structure of the file
/// rather than content of the document.
pub open spec fn is_container_value(v: Value) -> bool {
    match v {
        Value::Stream(s) => dict_get(s.dict, TYPE_NAME@) == Some(Value::Name(OBJSTM_TYPE@))
            || dict_get(s.dict, TYPE_NAME@) == Some(Value::Name(XREF_TYPE@)),
        _ => false,
    }
}

/// Two objects hold the same: streams by dictionary and payload, arrays and
/// dictionaries part for part, all else equal.
pub open spec fn holds_same(a: Value, b: Value) -> bool
    decreases a,
{
    match (a, b) {
        (Value::Stream(x), Value::Stream(y)) => same_entries(x.dict, y.dict) && x.content
            == y.content,
        (Value::Array(x), Value::Array(y)) => x.len() == y.len() && forall|i: int|
            0 <= i < x.len() ==> holds_same(#[trigger] x[i], y[i]),
        (Value::Dictionary(x), Value::Dictionary(y)) => x.len() == y.len() && forall|i: int|
            0 <= i < x.len() ==> (#[trigger] x[i]).0 == y[i].0 && holds_same(x[i].1, y[i].1),
        _ => same_value(a, b),
    }
}

/// Two documents hold the same objects. The containers that a patch rewrites
/// differ by construction; what they carry is compared object by object.
pub open spec fn same_documents(a: DocumentValue, b: DocumentValue) -> bool {
    &&& a.objects.len() == b.objects.len()
    &&& same_entries(a.trailer, b.trailer)
    &&& forall|i: int|
        0 <= i < a.objects.len() ==> match object_at(b.objects, (#[trigger] a.objects[i]).0) {
            Some(right) => is_container_value(a.objects[i].1) || holds_same(
                a.objects[i].1,
                right,
            ),
            None => false,
        }
}

/// The two files can be read, are not encrypted, and hold the same objects.
pub open spec fn reads_same(
    before: Seq<u8>,
    after: Seq<u8>,
    l: spec_fn(Seq<u8>) -> Option<DocumentValue>,
) -> bool {
    match (l(before), l(after)) {
        (Some(a), Some(b)) => !a.encrypted && !b.encrypted && same_documents(a, b),
        _ => false,
    }
}

/// The file with the captured literals put back. `None` where there is
/// nothing to put back or the file is not shaped as the writer shapes it.
pub open spec fn restored(
    s: Seq<u8>,
    literals: Map<u32, Seq<u8>>,
    m: spec_fn(Seq<u8>) -> Option<ReadingValue>,
    l: spec_fn(Seq<u8>) -> Option<DocumentValue>,
) -> Option<Seq<u8>> {
    let edits = sorted_edits(all_edits(s, literals, m));
    if edits.len() == 0 || !edits_apart(edits) {
        None
    } else {
        match repaired(edited(s, edits), s, edits) {
            Some(patched) => if reads_same(s, patched, l) {
                Some(patched)
            } else {
                None
            },
            None => None,
        }
    }
}

/// Whether an object is structure of the file rather than content.
pub fn is_container(object: &PdfObject) -> (r: bool)
    ensures
        r == is_container_value(object@),
{
    let (type_key, objstm, xref): ([u8; 4], [u8; 6], [u8; 4]) = (
        TYPE_NAME,
        OBJSTM_TYPE,
        XREF_TYPE,
    );
    match object {
        PdfObject::Stream(s) => match s.dict.get(type_key.as_slice()) {
            Some(PdfObject::Name(n)) => same_bytes(n.as_slice(), objstm.as_slice()) || same_bytes(
                n.as_slice(),
                xref.as_slice(),
            ),
            _ => false,
        },
        _ => false,
    }
}

/// Whether two objects hold the same.
pub fn equivalent(left: &PdfObject, right: &PdfObject) -> (r: bool)
    ensures
        r == holds_same(left@, right@),
    decreases left,
{
    match (left, right) {
        (PdfObject::Stream(x), PdfObject::Stream(y)) => dicts_equal(&x.dict, &y.dict)
            && same_bytes(x.content.as_slice(), y.content.as_slice()),
        (PdfObject::Array(x), PdfObject::Array(y)) => {
            if x.len() != y.len() {
                return false;
            }
            let mut i: usize = 0;
            while i < x.len()
                invariant
                    i <= x@.len(),
                    x@.len() == y@.len(),
                    *left == PdfObject::Array(*x),
                    *right == PdfObject::Array(*y),
                    left@->Array_0.len() == x@.len(),
                    right@->Array_0.len() == y@.len(),
                    forall|k: int|
                        0 <= k < i ==> holds_same(#[trigger] left@->Array_0[k], right@->Array_0[k]),
                decreases x@.len() - i,
            {
                proof {
                    assert(decreases_to!(*left => left->Array_0));
                    assert(decreases_to!(x => x[i as int]));
                    assert(left@->Array_0[i as int] == object_view(x@[i as int]));
                    assert(right@->Array_0[i as int] == object_view(y@[i as int]));
                }
                if !equivalent(&x[i], &y[i]) {
                    return false;
                }
                i += 1;
            }
            true
        },
        (PdfObject::Dictionary(x), PdfObject::Dictionary(y)) => {
            if x.entries.len() != y.entries.len() {
                proof {
                    assert(x@.len() != y@.len());
                }
                return false;
            }
            let mut i: usize = 0;
            while i < x.entries.len()
                invariant
                    i <= x.entries@.len(),
                    x.entries@.len() == y.entries@.len(),
                    *left == PdfObject::Dictionary(*x),
                    *right == PdfObject::Dictionary(*y),
                    x@.len() == y@.len() == x.entries@.len(),
                    forall|k: int|
                        0 <= k < i ==> (#[trigger] x@[k]).0 == y@[k].0 && holds_same(
                            x@[k].1,
                            y@[k].1,
                        ),
                decreases x.entries@.len() - i,
            {
                proof {
                    assert(x@[i as int] == (
                        x.entries@[i as int].key@,
                        object_view(x.entries@[i as int].value),
                    ));
                    assert(y@[i as int] == (
                        y.entries@[i as int].key@,
                        object_view(y.entries@[i as int].value),
                    ));
                    assert(decreases_to!(*left => left->Dictionary_0));
                    assert(decreases_to!(x.entries => x.entries[i as int]));
                }
                if !same_bytes(x.entries[i].key.as_slice(), y.entries[i].key.as_slice())
                    || !equivalent(&x.entries[i].value, &y.entries[i].value) {
                    return false;
                }
                i += 1;
            }
            true
        },
        _ => objects_equal(left, right),
    }
}

/// Do two documents hold the same objects?
pub fn same_objects(a: &Pdf, b: &Pdf) -> (r: bool)
    requires
        b.wf(),
    ensures
        r == same_documents(a@, b@),
{
    if a.objects.len() != b.objects.len() || !dicts_equal(&a.trailer, &b.trailer) {
        return false;
    }
    let mut i: usize = 0;
    while i < a.objects.len()
        invariant
            i <= a.objects@.len(),
            b.wf(),
            forall|k: int|
                0 <= k < i ==> match object_at(b@.objects, (#[trigger] a@.objects[k]).0) {
                    Some(right) => is_container_value(a@.objects[k].1) || holds_same(
                        a@.objects[k].1,
                        right,
                    ),
                    None => false,
                },
        decreases a.objects@.len() - i,
    {
        proof {
            assert(a@.objects[i as int] == (
                a.objects@[i as int].id,
                object_view(a.objects@[i as int].object),
            ));
        }
        let same = match b.object(a.objects[i].id) {
            Some(right) => is_container(&a.objects[i].object) || equivalent(
                &a.objects[i].object,
                right,
            ),
            None => false,
        };
        if !same {
            return false;
        }
        i += 1;
    }
    true
}

/// Finds all edits.
fn find_all_edits<F: Fn(&[u8]) -> Option<Reading>>(
    out: &[u8],
    literals: &RealLiterals,
    read: &F,
) -> (r: Vec<Edit>)
    requires
        reads_text(*read),
    ensures
        edit_views(r@) == all_edits(out@, literals@, |t: Seq<u8>| meaning(*read, t)),
        edits_inside(edit_views(r@), out@.len() as int),
{
    let word: [u8; 12] = TYPE_OBJSTM;
    let ghost m = |t: Seq<u8>| meaning(*read, t);
    let mut edits = find_literal_edits(out, true, literals, read);
    let ghost goal = all_edits(out@, literals@, m);
    let mut from: usize = 0;
    loop
        invariant
            from <= out@.len(),
            word@ == TYPE_OBJSTM@,
            reads_text(*read),
            m == |t: Seq<u8>| meaning(*read, t),
            goal == all_edits(out@, literals@, m),
            goal == edit_views(edits@) + stream_edits(out@, literals@, m, from as int),
            edits_inside(edit_views(edits@), out@.len() as int),
        decreases out@.len() - from,
    {
        match find_sub(out, word.as_slice(), from) {
            None => {
                proof {
                    assert(edit_views(edits@) =~= goal);
                }
                return edits;
            },
            Some(tag_at) => {
                let ghost before = edit_views(edits@);
                match objstm_edits(out, tag_at, literals, read) {
                    Some(more) => {
                        let ghost added = edit_views(more@);
                        let mut rest = more;
                        edits.append(&mut rest);
                        proof {
                            assert(edit_views(edits@) =~= before + added);
                            assert(before + stream_edits(out@, literals@, m, from as int)
                                =~= edit_views(edits@) + stream_edits(
                                out@,
                                literals@,
                                m,
                                tag_at + 1,
                            ));
                        }
                    },
                    None => {},
                }
                from = tag_at + 1;
            },
        }
    }
}

/// Puts the edits in the order of their places.
fn sort_edits(edits: &Vec<Edit>) -> (r: Vec<Edit>)
    ensures
        edit_views(r@) == sorted_edits(edit_views(edits@)),
{
    let ghost list = edit_views(edits@);
    let mut keys: Vec<u64> = Vec::new();
    let mut i: usize = 0;
    while i < edits.len()
        invariant
            i <= edits@.len(),
            keys@.len() == i,
            forall|k: int| 0 <= k < i ==> #[trigger] keys@[k] == edits@[k].at,
        decreases edits@.len() - i,
    {
        keys.push(edits[i].at as u64);
        i += 1;
    }
    let order = sort_order(&keys);
    proof {
        assert(ints(keys@) =~= edit_places(list));
    }
    let mut out: Vec<Edit> = Vec::new();
    i = 0;
    while i < order.len()
        invariant
            i <= order@.len(),
            order@.len() == edits@.len(),
            list == edit_views(edits@),
            forall|k: int| 0 <= k < order@.len() ==> #[trigger] order@[k] < edits@.len(),
            out@.len() == i,
            forall|k: int| 0 <= k < i ==> (#[trigger] out@[k])@ == list[order@[k] as int],
        decreases order@.len() - i,
    {
        let k: usize = order[i];
        out.push(Edit { at: edits[k].at, len: edits[k].len, text: edits[k].text.clone() });
        proof {
            assert(list[k as int] == edits@[k as int]@);
        }
        i += 1;
    }
    proof {
        let so = stable_order(edit_places(list), list.len() as int);
        assert(so == index_ints(order@));
        assert forall|k: int| 0 <= k < out@.len() implies #[trigger] edit_views(out@)[k]
            == sorted_edits(list)[k] by {
            assert(out@[k]@ == list[order@[k] as int]);
            assert(so[k] == order@[k]);
        }
        assert(edit_views(out@) =~= sorted_edits(list));
    }
    out
}

/// Edits that stand apart and inside fit.
pub proof fn lemma_apart_fit(edits: Seq<EditValue>, len: int)
    requires
        edits_apart(edits),
        edits_inside(edits, len),
    ensures
        edits_fit(edits, len),
{
    assert forall|i: int, j: int| 0 <= i < j < edits.len() implies (#[trigger] edits[i]).at
        + edits[i].len <= (#[trigger] edits[j]).at by {
        lemma_apart_far(edits, len, i, j);
    }
}

proof fn lemma_apart_far(edits: Seq<EditValue>, len: int, i: int, j: int)
    requires
        edits_apart(edits),
        edits_inside(edits, len),
        0 <= i < j < edits.len(),
    ensures
        edits[i].at + edits[i].len <= edits[j].at,
    decreases j - i,
{
    assert(edits[j - 1].at + edits[j - 1].len <= edits[j - 1 + 1].at);
    if i < j - 1 {
        lemma_apart_far(edits, len, i, j - 1);
    }
}

/// Whether each edit ends before the next begins.
fn stand_apart(edits: &Vec<Edit>) -> (r: bool)
    requires
        edits_inside(edit_views(edits@), usize::MAX as int),
    ensures
        r == edits_apart(edit_views(edits@)),
{
    let ghost list = edit_views(edits@);
    let n: usize = edits.len();
    let mut i: usize = 1;
    while i < n
        invariant
            1 <= i,
            n == edits@.len(),
            list == edit_views(edits@),
            edits_inside(list, usize::MAX as int),
            n > 0 ==> i <= n,
            forall|k: int|
                0 <= k < i - 1 ==> (#[trigger] list[k]).at + list[k].len <= list[k + 1].at,
        decreases n - i,
    {
        proof {
            assert(list[i - 1] == edits@[i - 1]@);
            assert(list[i as int] == edits@[i as int]@);
        }
        if edits[i - 1].at + edits[i - 1].len > edits[i].at {
            proof {
                assert(list[i - 1].at + list[i - 1].len > list[i - 1 + 1].at);
            }
            return false;
        }
        i += 1;
    }
    true
}

/// Whether two files can be read and hold the same objects.
fn read_same<L: Fn(&[u8]) -> Option<Pdf>>(before: &[u8], after: &[u8], load: &L) -> (r: bool)
    requires
        loads(*load),
    ensures
        r == reads_same(before@, after@, |t: Seq<u8>| loaded(*load, t)),
{
    match (load_file(load, before), load_file(load, after)) {
        (Some(a), Some(b)) => !a.encrypted && !b.encrypted && same_objects(&a, &b),
        _ => false,
    }
}

/// Puts the captured literals back, where that is possible.
pub fn try_restore<F: Fn(&[u8]) -> Option<Reading>, L: Fn(&[u8]) -> Option<Pdf>>(
    out: &[u8],
    literals: &RealLiterals,
    read: &F,
    load: &L,
) -> (r: Option<Vec<u8>>)
    requires
        reads_text(*read),
        loads(*load),
    ensures
        opt_view(r) == restored(
            out@,
            literals@,
            |t: Seq<u8>| meaning(*read, t),
            |t: Seq<u8>| loaded(*load, t),
        ),
{
    let total: usize = out.len();
    let found = find_all_edits(out, literals, read);
    let edits = sort_edits(&found);
    let ghost list = edit_views(edits@);
    proof {
        let all = edit_views(found@);
        stable_order_sorts(edit_places(all), all.len() as int);
        assert forall|i: int| 0 <= i < list.len() implies 0 <= (#[trigger] list[i]).at && 0
            <= list[i].len && list[i].at + list[i].len <= out@.len() by {
            let o = stable_order(edit_places(all), all.len() as int);
            assert(list[i] == all[o[i]]);
        }
    }
    if edits.len() == 0 || !stand_apart(&edits) {
        return None;
    }
    proof {
        lemma_apart_fit(list, out@.len() as int);
        lemma_apart_fit(list, usize::MAX as int);
    }
    let patched = apply_edits(out, edits.as_slice());
    let fixed = repair_offsets(patched, out, edits.as_slice())?;
    if read_same(out, fixed.as_slice(), load) {
        Some(fixed)
    } else {
        None
    }
}

/// Puts the captured literals back into a document that has just been
/// written. Gives it back untouched where there is nothing to restore or
/// anything about its shape is not what the writer makes.
pub fn restore<F: Fn(&[u8]) -> Option<Reading>, L: Fn(&[u8]) -> Option<Pdf>>(
    out: Vec<u8>,
    literals: &RealLiterals,
    read: &F,
    load: &L,
) -> (r: Vec<u8>)
    requires
        reads_text(*read),
        loads(*load),
    ensures
        r@ == if literals@.is_empty() {
            out@
        } else {
            crate::patch::or_same(
                out@,
                restored(
                    out@,
                    literals@,
                    |t: Seq<u8>| meaning(*read, t),
                    |t: Seq<u8>| loaded(*load, t),
                ),
            )
        },
{
    if literals.is_empty() {
        return out;
    }
    match try_restore(out.as_slice(), literals, read, load) {
        Some(patched) => patched,
        None => out,
    }
}

} // verus!
