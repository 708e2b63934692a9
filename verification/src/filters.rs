//! Undoing the filters of a stream, where the decoder can be trusted with it.
//!
//! lopdf multiplies row sizes and adds up ASCII85 groups without a check, so
//! what would overflow there is told apart first and counts as undecodable.

use crate::bytes::to_vec;
use crate::flate::opt_view;
use crate::names::{BITS_PER_COMPONENT, COLORS, COLUMNS, DECODE_PARMS, FILTER, PREDICTOR};
use crate::object::{
    copy_object, dict_get, lemma_dict_index, object_view, values, Dict, Entry, PdfObject, PdfStream,
    StreamValue, Value,
};
use crate::pdf::{decode_stream, decoded};
use crate::text::{blank, is_blank};
use vstd::prelude::*;
use vstd::string::StringSliceAdditionalSpecFns;

verus! {

/// The largest row, in bits, that is decoded.
pub const MAX_ROW_BITS: u64 = 0x7FFF_FFFF;

/// An integer entry, or else `default`, and at least `least`.
pub open spec fn at_least(d: Seq<(Seq<u8>, Value)>, key: Seq<u8>, default: i64, least: i64) -> i64 {
    let v = match dict_get(d, key) {
        Some(Value::Integer(i)) => i,
        _ => default,
    };
    if v < least {
        least
    } else {
        v
    }
}

/// The rows that a predictor asks for have a size.
pub open spec fn rows_fit(d: Seq<(Seq<u8>, Value)>) -> bool {
    match dict_get(d, DECODE_PARMS@) {
        Some(Value::Dictionary(p)) => 10 <= at_least(p, PREDICTOR@, 1, i64::MIN) <= 15 ==> at_least(
            p,
            COLUMNS@,
            1,
            1,
        ) * at_least(p, COLORS@, 1, 1) * at_least(p, BITS_PER_COMPONENT@, 8, 8) <= MAX_ROW_BITS,
        _ => true,
    }
}

/// What a group is after it is filled up to five digits, where nothing
/// overflows on the way.
pub open spec fn tail_fits(buffer: int, count: int) -> bool
    decreases 5 - count,
{
    if count <= 0 || count >= 5 || buffer * 85 > 0xFFFF_FFFF {
        true
    } else {
        buffer * 85 + 84 <= 0xFFFF_FFFF && tail_fits(buffer * 85 + 84, count + 1)
    }
}

/// No ASCII85 group from `i` on overflows, after `count` digits that make
/// `buffer`. What is refused on the way is refused before it can.
pub open spec fn groups_fit(t: Seq<u8>, i: int, buffer: int, count: int) -> bool
    decreases t.len() - i,
{
    if i < 0 || i >= t.len() {
        tail_fits(buffer, count)
    } else if t[i] == 0x7A {
        count != 0 || groups_fit(t, i + 1, buffer, count)
    } else if is_blank(t[i]) {
        groups_fit(t, i + 1, buffer, count)
    } else if t[i] < 0x21 || t[i] > 0x75 {
        tail_fits(buffer, count)
    } else if buffer * 85 > 0xFFFF_FFFF {
        true
    } else if buffer * 85 + (t[i] - 0x21) > 0xFFFF_FFFF {
        false
    } else if count == 4 {
        groups_fit(t, i + 1, 0, 0)
    } else {
        groups_fit(t, i + 1, buffer * 85 + (t[i] - 0x21), count + 1)
    }
}

/// ASCII85 data without its end marker.
pub open spec fn without_end(s: Seq<u8>) -> Seq<u8> {
    if s.len() >= 2 && s[s.len() - 2] == 0x7E && s[s.len() - 1] == 0x3E {
        s.take(s.len() - 2)
    } else {
        s
    }
}

/// The filter is ASCII85.
pub open spec fn is_ascii85(v: Value) -> bool {
    v == Value::Name("ASCII85Decode".spec_bytes())
}

/// A stream with these filters and parameters alone.
pub open spec fn stage(content: Seq<u8>, items: Seq<Value>, parms: Option<Value>) -> StreamValue {
    let filter = seq![(FILTER@, Value::Array(items))];
    StreamValue {
        dict: match parms {
            Some(p) => filter.push((DECODE_PARMS@, p)),
            None => filter,
        },
        content,
        compressible: true,
    }
}

/// What filter `k` gets: the payload with the filters before it undone.
pub open spec fn staged(
    content: Seq<u8>,
    items: Seq<Value>,
    parms: Option<Value>,
    k: int,
) -> Option<Seq<u8>> {
    if k <= 0 {
        Some(content)
    } else {
        decoded(stage(content, items.take(k), parms))
    }
}

/// No group overflows in what filter `k` gets, where that is ASCII85.
pub open spec fn filter_fits(
    content: Seq<u8>,
    items: Seq<Value>,
    parms: Option<Value>,
    k: int,
) -> bool {
    is_ascii85(items[k]) ==> match staged(content, items, parms, k) {
        Some(data) => groups_fit(without_end(data), 0, 0, 0),
        None => true,
    }
}

/// No group overflows in what the first `n` filters get.
pub open spec fn chain_fits(
    content: Seq<u8>,
    items: Seq<Value>,
    parms: Option<Value>,
    n: int,
) -> bool {
    forall|k: int| 0 <= k < n ==> #[trigger] filter_fits(content, items, parms, k)
}

/// No ASCII85 group of the stream overflows.
pub open spec fn ascii85_fits(s: StreamValue) -> bool {
    match dict_get(s.dict, FILTER@) {
        Some(Value::Array(items)) => chain_fits(
            s.content,
            items,
            dict_get(s.dict, DECODE_PARMS@),
            items.len() as int,
        ),
        Some(v) => is_ascii85(v) ==> groups_fit(without_end(s.content), 0, 0, 0),
        None => true,
    }
}

/// Nothing overflows when the filters of the stream are undone.
pub open spec fn decodes_safely(s: StreamValue) -> bool {
    rows_fit(s.dict) && ascii85_fits(s)
}

/// The payload of a stream with all its filters undone, where that is safe.
pub open spec fn readable(s: StreamValue) -> Option<Seq<u8>> {
    if decodes_safely(s) {
        decoded(s)
    } else {
        None
    }
}

/// An integer entry, or else `default`, and at least `least`.
fn read_at_least(d: &Dict, key: &[u8], default: i64, least: i64) -> (r: i64)
    ensures
        r == at_least(d@, key@, default, least),
{
    let v: i64 = match d.get(key) {
        Some(PdfObject::Integer(i)) => *i,
        _ => default,
    };
    if v < least {
        least
    } else {
        v
    }
}

/// Whether the rows that a predictor asks for have a size.
fn check_rows(d: &Dict) -> (r: bool)
    ensures
        r == rows_fit(d@),
{
    let (parms, predictor, columns, colors, bits): ([u8; 11], [u8; 9], [u8; 7], [u8; 6], [u8; 16]) =
        (DECODE_PARMS, PREDICTOR, COLUMNS, COLORS, BITS_PER_COMPONENT);
    match d.get(parms.as_slice()) {
        Some(PdfObject::Dictionary(p)) => {
            let kind: i64 = read_at_least(p, predictor.as_slice(), 1, i64::MIN);
            if kind < 10 || kind > 15 {
                return true;
            }
            let a: i64 = read_at_least(p, columns.as_slice(), 1, 1);
            let b: i64 = read_at_least(p, colors.as_slice(), 1, 1);
            let c: i64 = read_at_least(p, bits.as_slice(), 8, 8);
            if a as u64 > MAX_ROW_BITS || b as u64 > MAX_ROW_BITS || c as u64 > MAX_ROW_BITS {
                proof {
                    assert(a * b * c >= a && a * b * c >= b && a * b * c >= c) by (nonlinear_arith)
                        requires
                            a >= 1,
                            b >= 1,
                            c >= 1,
                    ;
                }
                return false;
            }
            proof {
                assert(a * b <= 0x7FFF_FFFF * 0x7FFF_FFFF && a * b >= 1) by (nonlinear_arith)
                    requires
                        1 <= a <= 0x7FFF_FFFF,
                        1 <= b <= 0x7FFF_FFFF,
                ;
                assert(a * b * c <= 0x7FFF_FFFF * 0x7FFF_FFFF * 0x7FFF_FFFF) by (nonlinear_arith)
                    requires
                        1 <= a * b <= 0x7FFF_FFFF * 0x7FFF_FFFF,
                        1 <= c <= 0x7FFF_FFFF,
                ;
            }
            a as u128 * b as u128 * c as u128 <= MAX_ROW_BITS as u128
        },
        _ => true,
    }
}

/// Whether a group can be filled up.
fn check_tail(buffer: u64, count: u64) -> (r: bool)
    requires
        buffer <= 0xFFFF_FFFF,
        count <= 5,
    ensures
        r == tail_fits(buffer as int, count as int),
    decreases 5 - count,
{
    if count == 0 || count == 5 || buffer * 85 > 0xFFFF_FFFF {
        return true;
    }
    let next: u64 = buffer * 85 + 84;
    next <= 0xFFFF_FFFF && check_tail(next, count + 1)
}

/// Whether no ASCII85 group of the first `len` bytes overflows.
fn check_groups(data: &[u8], len: usize) -> (r: bool)
    requires
        len <= data@.len(),
    ensures
        r == groups_fit(data@.take(len as int), 0, 0, 0),
{
    let ghost t = data@.take(len as int);
    let mut buffer: u64 = 0;
    let mut count: u64 = 0;
    let mut i: usize = 0;
    while i < len
        invariant
            i <= len <= data@.len(),
            t == data@.take(len as int),
            t.len() == len,
            buffer <= 0xFFFF_FFFF,
            count <= 4,
            groups_fit(t, 0, 0, 0) == groups_fit(t, i as int, buffer as int, count as int),
        decreases len - i,
    {
        let b: u8 = data[i];
        proof {
            assert(b == t[i as int]);
        }
        if b == 0x7A {
            if count != 0 {
                return true;
            }
        } else if !blank(b) {
            if b < 0x21 || b > 0x75 {
                return check_tail(buffer, count);
            }
            if buffer * 85 > 0xFFFF_FFFF {
                return true;
            }
            let next: u64 = buffer * 85 + (b - 0x21) as u64;
            if next > 0xFFFF_FFFF {
                return false;
            }
            if count == 4 {
                buffer = 0;
                count = 0;
            } else {
                buffer = next;
                count += 1;
            }
        }
        i += 1;
    }
    check_tail(buffer, count)
}

/// Whether no group of the payload overflows.
fn check_payload(content: &Vec<u8>) -> (r: bool)
    ensures
        r == groups_fit(without_end(content@), 0, 0, 0),
{
    let n: usize = content.len();
    proof {
        assert(content@.take(n as int) =~= content@);
    }
    let len: usize = if n >= 2 && content[n - 2] == 0x7E && content[n - 1] == 0x3E {
        n - 2
    } else {
        n
    };
    check_groups(content.as_slice(), len)
}

/// Whether a filter is ASCII85.
fn names_ascii85(o: &PdfObject) -> (r: bool)
    ensures
        r == is_ascii85(o@),
{
    match o {
        PdfObject::Name(n) => crate::bytes::same_bytes(n.as_slice(), "ASCII85Decode".as_bytes()),
        _ => false,
    }
}

/// What a stage is made of.
proof fn lemma_stage(content: Seq<u8>, items: Seq<Value>, parms: Option<Value>)
    ensures
        dict_get(stage(content, items, parms).dict, FILTER@) == Some(Value::Array(items)),
        dict_get(stage(content, items, parms).dict, DECODE_PARMS@) == parms,
{
    let d = stage(content, items, parms).dict;
    assert(FILTER@.len() != DECODE_PARMS@.len());
    lemma_dict_index(d, FILTER@, 0);
    lemma_dict_index(d, DECODE_PARMS@, 0);
    assert(d[0].0 == FILTER@);
    if parms is Some {
        assert(d[1].0 == DECODE_PARMS@);
    }
}

/// A stage of a stream can be decoded where the filters before its last one
/// fit.
proof fn lemma_stage_decodes(s: StreamValue, items: Seq<Value>, k: int)
    requires
        0 < k <= items.len(),
        rows_fit(s.dict),
        chain_fits(s.content, items, dict_get(s.dict, DECODE_PARMS@), k),
    ensures
        decodes_safely(stage(s.content, items.take(k), dict_get(s.dict, DECODE_PARMS@))),
{
    let parms = dict_get(s.dict, DECODE_PARMS@);
    let part = items.take(k);
    lemma_stage(s.content, part, parms);
    assert forall|j: int| 0 <= j < k implies #[trigger] filter_fits(
        s.content,
        part,
        parms,
        j,
    ) by {
        assert(filter_fits(s.content, items, parms, j));
        assert(part[j] == items[j]);
        assert(part.take(j) =~= items.take(j));
    }
}

/// The first `k` objects of a list.
fn copy_first(items: &Vec<PdfObject>, k: usize) -> (r: Vec<PdfObject>)
    requires
        k <= items@.len(),
    ensures
        values(r@) == values(items@).take(k as int),
{
    let mut out: Vec<PdfObject> = Vec::new();
    let mut i: usize = 0;
    proof {
        assert(values(out@) =~= values(items@).take(0));
    }
    while i < k
        invariant
            i <= k <= items@.len(),
            values(out@) == values(items@).take(i as int),
        decreases k - i,
    {
        let ghost before = values(out@);
        let copy = copy_object(&items[i]);
        out.push(copy);
        i += 1;
        proof {
            assert(values(out@) =~= before.push(copy@));
            assert(values(items@)[i - 1] == object_view(items@[i - 1]));
            assert(values(items@).take(i as int) =~= before.push(values(items@)[i - 1]));
        }
    }
    out
}

/// A stream with the first `k` filters of another.
fn make_stage(s: &PdfStream, items: &Vec<PdfObject>, k: usize) -> (r: PdfStream)
    requires
        k <= items@.len(),
    ensures
        r@ == stage(
            s.content@,
            values(items@).take(k as int),
            dict_get(s.dict@, DECODE_PARMS@),
        ),
{
    let (filter, parms): ([u8; 6], [u8; 11]) = (FILTER, DECODE_PARMS);
    let part = PdfObject::Array(copy_first(items, k));
    proof {
        assert(part@->Array_0 =~= values(items@).take(k as int));
    }
    let mut entries: Vec<Entry> = Vec::new();
    entries.push(Entry { key: to_vec(filter.as_slice()), value: part });
    match s.dict.get(parms.as_slice()) {
        Some(p) => {
            entries.push(Entry { key: to_vec(parms.as_slice()), value: copy_object(p) });
        },
        None => {},
    }
    let r = PdfStream { dict: Dict { entries }, content: s.content.clone(), compressible: true };
    proof {
        assert(r@.dict =~= stage(
            s.content@,
            values(items@).take(k as int),
            dict_get(s.dict@, DECODE_PARMS@),
        ).dict);
    }
    r
}

/// Whether no group overflows in what the filters get.
fn check_chain(s: &PdfStream, items: &Vec<PdfObject>) -> (r: bool)
    requires
        rows_fit(s.dict@),
    ensures
        r == chain_fits(
            s.content@,
            values(items@),
            dict_get(s.dict@, DECODE_PARMS@),
            items@.len() as int,
        ),
{
    let ghost list = values(items@);
    let ghost parms = dict_get(s.dict@, DECODE_PARMS@);
    let mut k: usize = 0;
    while k < items.len()
        invariant
            k <= items@.len(),
            list == values(items@),
            list.len() == items@.len(),
            parms == dict_get(s.dict@, DECODE_PARMS@),
            rows_fit(s.dict@),
            chain_fits(s.content@, list, parms, k as int),
        decreases items@.len() - k,
    {
        proof {
            assert(list[k as int] == object_view(items@[k as int]));
        }
        if names_ascii85(&items[k]) {
            let fits = if k == 0 {
                check_payload(&s.content)
            } else {
                proof {
                    lemma_stage_decodes(s@, list, k as int);
                }
                match decode_stream(&make_stage(s, items, k)) {
                    Some(data) => check_payload(&data),
                    None => true,
                }
            };
            proof {
                assert(fits == filter_fits(s.content@, list, parms, k as int));
            }
            if !fits {
                return false;
            }
        }
        proof {
            assert(filter_fits(s.content@, list, parms, k as int));
        }
        k += 1;
    }
    true
}

/// Whether no ASCII85 group of the stream overflows.
fn check_ascii85(s: &PdfStream) -> (r: bool)
    requires
        rows_fit(s.dict@),
    ensures
        r == ascii85_fits(s@),
{
    let key: [u8; 6] = FILTER;
    let filter = s.dict.get(key.as_slice());
    match filter {
        Some(PdfObject::Array(items)) => {
            proof {
                assert((*filter->0)@->Array_0 =~= values(items@));
            }
            check_chain(s, items)
        },
        Some(o) => !names_ascii85(o) || check_payload(&s.content),
        None => true,
    }
}

/// Undoes all filters of a stream, where that is safe.
pub fn read_stream(s: &PdfStream) -> (r: Option<Vec<u8>>)
    ensures
        opt_view(r) == readable(s@),
{
    if check_rows(&s.dict) && check_ascii85(s) {
        decode_stream(s)
    } else {
        None
    }
}

} // verus!
