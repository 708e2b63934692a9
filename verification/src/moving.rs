//! Offsets that move with the bytes they point to.

use crate::edit::{be_bytes, be_value, moved_row, moved_rows, target, Move};
use crate::patch::{
    number_at, objstm_movement, shrinkage, site_content, site_dict, startxref_of, stream_site,
    with_deflated, with_objstm, Number, StartXref, StreamSite,
};
use crate::text::{
    blanks_end, decimal_digits, digits_end, digits_value, find_from, find_last, is_digit, occurs_at,
};
use vstd::prelude::*;
use vstd::string::StringSliceAdditionalSpecFns;

verus! {

/// The weight of a byte before `n` others.
pub open spec fn byte_weight(n: int) -> int
    decreases n,
{
    if n <= 0 {
        1
    } else {
        0x100 * byte_weight(n - 1)
    }
}

/// A field is read with its most significant byte first: a byte in front of
/// it counts for all that the field can hold.
pub proof fn field_reads_most_significant_first(b: u8, s: Seq<u8>)
    ensures
        be_value(seq![b] + s) == b * byte_weight(s.len() as int) + be_value(s),
        0 <= be_value(s) < byte_weight(s.len() as int),
    decreases s.len(),
{
    let t = seq![b] + s;
    if s.len() == 0 {
        assert(t.drop_last() =~= Seq::empty());
        assert(be_value(t.drop_last()) == 0);
        assert(t.last() == b);
    } else {
        field_reads_most_significant_first(b, s.drop_last());
        assert(t.drop_last() =~= seq![b] + s.drop_last());
        assert(t.last() == s.last());
        let w = byte_weight(s.len() - 1);
        let v = be_value(s.drop_last());
        assert((b * w + v) * 0x100 + s.last() == b * (0x100 * w) + (v * 0x100 + s.last()))
            by (nonlinear_arith);
    }
}

/// A number that a field of `n` bytes can hold is read as it was written.
pub proof fn field_reads_back(v: int, n: int)
    requires
        0 <= n,
        0 <= v < byte_weight(n),
    ensures
        be_bytes(v, n).len() == n,
        be_value(be_bytes(v, n)) == v,
    decreases n,
{
    if n > 0 {
        field_reads_back(v / 0x100, n - 1);
        let s = be_bytes(v, n);
        assert(s.drop_last() =~= be_bytes(v / 0x100, n - 1));
        assert(s.last() == v % 0x100);
    }
}

proof fn lemma_field_len(v: int, n: int)
    requires
        0 <= n,
    ensures
        be_bytes(v, n).len() == n,
    decreases n,
{
    if n > 0 {
        lemma_field_len(v / 0x100, n - 1);
    }
}

/// A row of a cross-reference stream.
pub open spec fn row_of(content: Seq<u8>, row_len: int, k: int) -> Seq<u8> {
    content.subrange(k * row_len, k * row_len + row_len)
}

/// The offset in a row.
pub open spec fn offset_in(row: Seq<u8>, width: int) -> int {
    be_value(row.subrange(1, 1 + width))
}

/// Moving the rows of a cross-reference stream moves the offset of each row
/// in use to where the movement takes it, and changes nothing else: no other
/// byte of such a row, and no byte of any other row.
pub proof fn moved_rows_move_their_offsets(
    content: Seq<u8>,
    row_len: int,
    width: int,
    m: Move,
    n: int,
    k: int,
)
    requires
        1 <= width,
        1 + width <= row_len,
        0 <= k < n,
        n * row_len <= content.len(),
        moved_rows(content, row_len, width, m, n) is Some,
    ensures
        ({
            let after = moved_rows(content, row_len, width, m, n)->0;
            let old = row_of(content, row_len, k);
            let new = row_of(after, row_len, k);
            &&& after.len() == n * row_len
            &&& old[0] != 1 ==> new == old
            &&& old[0] == 1 ==> {
                &&& target(m, offset_in(old, width)) == Some(offset_in(new, width))
                &&& new[0] == 1
                &&& new.skip(1 + width) == old.skip(1 + width)
            }
        }),
    decreases n,
{
    let before = moved_rows(content, row_len, width, m, n - 1)->0;
    let after = moved_rows(content, row_len, width, m, n)->0;
    assert((n - 1) * row_len + row_len == n * row_len) by (nonlinear_arith);
    assert((n - 1) * row_len >= 0) by (nonlinear_arith)
        requires
            n >= 1,
            row_len >= 1,
    ;
    crate::edit::lemma_moved_rows_len(content, row_len, width, m, n - 1);
    crate::edit::lemma_moved_rows_len(content, row_len, width, m, n);
    assert(k * row_len >= 0) by (nonlinear_arith)
        requires
            k >= 0,
            row_len >= 1,
    ;
    if k < n - 1 {
        moved_rows_move_their_offsets(content, row_len, width, m, n - 1, k);
        assert(k * row_len + row_len <= (n - 1) * row_len) by (nonlinear_arith)
            requires
                k + 1 <= n - 1,
                row_len >= 1,
        ;
        assert(row_of(after, row_len, k) =~= row_of(before, row_len, k));
    } else {
        let old = content.subrange((n - 1) * row_len, n * row_len);
        assert(old =~= row_of(content, row_len, k));
        let row = moved_row(old, width, m)->0;
        assert(row_of(after, row_len, k) =~= row);
        if old[0] == 1 {
            let to = target(m, offset_in(old, width))->0;
            lemma_field_len(to, width);
            assert(row.subrange(1, 1 + width) =~= be_bytes(to, width));
            assert(row.skip(1 + width) =~= old.skip(1 + width));
        }
    }
}

/// What stands in the file is in order: the length and the payload of the
/// object stream, then the cross-reference stream, then the offset of it.
pub open spec fn in_file_order(
    s: Seq<u8>,
    start: int,
    site: StreamSite,
    xref: StreamSite,
    sx: StartXref,
) -> bool {
    &&& 0 <= start < site.length.at < site.length.end <= site.start <= site.end
    &&& site.end <= sx.offset.value <= xref.start <= xref.end <= sx.offset.at
    &&& sx.offset.at <= sx.offset.end <= s.len()
}

/// When an object stream is replaced by a smaller one, each byte that was not
/// replaced stands where the rows of the cross-reference stream are moved to:
/// what stood before the stream where it stood, and what stood behind it at
/// its moved offset.
pub proof fn moved_offsets_find_their_bytes(
    s: Seq<u8>,
    start: int,
    site: StreamSite,
    new: Seq<u8>,
    xref: StreamSite,
    rows: Seq<u8>,
    sx: StartXref,
    offset: int,
)
    requires
        in_file_order(s, start, site, xref, sx),
        rows.len() == xref.end - xref.start,
        0 <= offset <= start || site.end <= offset < xref.start,
    ensures
        ({
            let after = with_objstm(s, site, new, xref, rows, sx);
            let to = target(objstm_movement(start, site, new), offset);
            &&& to is Some
            &&& 0 <= to->0 < after.len()
            &&& after[to->0] == s[offset]
        }),
{
    let d = decimal_digits(new.len());
    let n = decimal_digits((sx.offset.value - shrinkage(site, new)) as nat);
    let after = with_objstm(s, site, new, xref, rows, sx);
    let a = s.take(site.length.at);
    let b = s.subrange(site.length.end, site.start);
    let c = s.subrange(site.end, xref.start);
    let e = s.subrange(xref.end, sx.offset.at);
    let head = a + d + b + new;
    assert(after == head + c + rows + e + n + s.skip(sx.offset.end));
    if offset < site.length.at {
        assert(after[offset] == a[offset]);
    } else {
        let to = offset - shrinkage(site, new);
        assert(head.len() == site.length.at + d.len() + (site.start - site.length.end)
            + new.len());
        assert(to - head.len() == offset - site.end);
        assert(after[to] == c[offset - site.end]);
    }
}

/// When an object stream is replaced, the new payload stands behind its
/// dictionary with its own length before it, and the offset after `startxref`
/// is the one that the cross-reference stream has moved to.
pub proof fn replaced_object_stream_is_told(
    s: Seq<u8>,
    start: int,
    site: StreamSite,
    new: Seq<u8>,
    xref: StreamSite,
    rows: Seq<u8>,
    sx: StartXref,
)
    requires
        in_file_order(s, start, site, xref, sx),
        rows.len() == xref.end - xref.start,
        shrinkage(site, new) <= sx.offset.value,
        start < sx.offset.value,
    ensures
        ({
            let after = with_objstm(s, site, new, xref, rows, sx);
            let d = decimal_digits(new.len());
            let at = site.length.at + d.len() + (site.start - site.length.end);
            let told = decimal_digits(
                target(objstm_movement(start, site, new), sx.offset.value)->0 as nat,
            );
            let moved = sx.offset.at - shrinkage(site, new);
            &&& after.subrange(site.length.at, site.length.at + d.len()) == d
            &&& digits_value(d) == new.len()
            &&& after.subrange(at, at + new.len()) == new
            &&& after.subrange(
                xref.start - shrinkage(site, new),
                xref.end - shrinkage(site, new),
            ) == rows
            &&& after.subrange(moved, moved + told.len()) == told
        }),
{
    let d = decimal_digits(new.len());
    let gone = shrinkage(site, new);
    let told = decimal_digits((sx.offset.value - gone) as nat);
    let after = with_objstm(s, site, new, xref, rows, sx);
    let a = s.take(site.length.at);
    let b = s.subrange(site.length.end, site.start);
    let c = s.subrange(site.end, xref.start);
    let e = s.subrange(xref.end, sx.offset.at);
    let tail = s.skip(sx.offset.end);
    crate::text::decimal_reads_back(new.len());
    let head = a + d + b + new;
    let at = site.length.at + d.len() + (site.start - site.length.end);
    assert(after =~= head + (c + rows + e + told + tail));
    assert(head.len() == at + new.len());
    assert(after.subrange(site.length.at, site.length.at + d.len()) =~= d);
    assert(after.subrange(at, at + new.len()) =~= new);
    assert(xref.start - gone == head.len() + c.len());
    assert(after.subrange(xref.start - gone, xref.end - gone) =~= rows);
    let moved = sx.offset.at - gone;
    assert(moved == head.len() + c.len() + rows.len() + e.len());
    assert(after.subrange(moved, moved + told.len()) =~= told);
}

/// When a cross-reference stream is deflated, the payload stands behind its
/// dictionary, which names the filter and tells the new length; nothing
/// before the dictionary entry moves, and what followed the payload follows.
pub proof fn deflated_stream_is_told(s: Seq<u8>, site: StreamSite, deflated: Seq<u8>)
    requires
        0 <= site.key_at <= site.length.end <= site.start <= site.end <= s.len(),
    ensures
        ({
            let after = with_deflated(s, site, deflated);
            let key = "/Filter/FlateDecode/Length ".spec_bytes();
            let d = decimal_digits(deflated.len());
            let behind = site.key_at + key.len() + d.len();
            let at = behind + (site.start - site.length.end);
            &&& after.take(site.key_at) == s.take(site.key_at)
            &&& after.subrange(site.key_at, site.key_at + key.len()) == key
            &&& after.subrange(site.key_at + key.len(), behind) == d
            &&& after.subrange(behind, at) == s.subrange(site.length.end, site.start)
            &&& after.subrange(at, at + deflated.len()) == deflated
            &&& after.skip(at + deflated.len()) == s.skip(site.end)
        }),
{
    lemma_key();
    lemma_six(
        s.take(site.key_at),
        crate::words::FILTER_FLATE_LENGTH@,
        decimal_digits(deflated.len()),
        s.subrange(site.length.end, site.start),
        deflated,
        s.skip(site.end),
    );
}

proof fn lemma_key()
    ensures
        crate::words::FILTER_FLATE_LENGTH@ == "/Filter/FlateDecode/Length ".spec_bytes(),
{
    crate::words::words_spelled_1();
}

proof fn lemma_six(
    a: Seq<u8>,
    b: Seq<u8>,
    c: Seq<u8>,
    d: Seq<u8>,
    e: Seq<u8>,
    f: Seq<u8>,
)
    ensures
        ({
            let s = a + b + c + d + e + f;
            let i = a.len() as int;
            let j = i + b.len();
            let k = j + c.len();
            let l = k + d.len();
            let m = l + e.len();
            &&& s.take(i) == a
            &&& s.subrange(i, j) == b
            &&& s.subrange(j, k) == c
            &&& s.subrange(k, l) == d
            &&& s.subrange(l, m) == e
            &&& s.skip(m) == f
        }),
{
    let s = a + b + c + d + e + f;
    let i = a.len() as int;
    let j = i + b.len();
    let k = j + c.len();
    let l = k + d.len();
    let m = l + e.len();
    assert(s.take(i) =~= a);
    assert(s.subrange(i, j) =~= b);
    assert(s.subrange(j, k) =~= c);
    assert(s.subrange(k, l) =~= d);
    assert(s.subrange(l, m) =~= e);
    assert(s.skip(m) =~= f);
}

// --- where things stand in a file --------------------------------------------------------------------

proof fn lemma_last_one(h: Seq<u8>, needle: Seq<u8>, at: int, i: int)
    requires
        0 <= at <= i,
        occurs_at(h, needle, at),
        forall|k: int| at < k <= i ==> !(#[trigger] occurs_at(h, needle, k)),
    ensures
        find_last(h, needle, i) == Some(at),
    decreases i - at,
{
    if at < i {
        assert(!occurs_at(h, needle, i));
        lemma_last_one(h, needle, at, i - 1);
    }
}

proof fn lemma_digit_run(s: Seq<u8>, i: int, end: int)
    requires
        0 <= i <= end <= s.len(),
        forall|k: int| i <= k < end ==> is_digit(#[trigger] s[k]),
        end < s.len() ==> !is_digit(s[end]),
    ensures
        digits_end(s, i) == end,
    decreases end - i,
{
    if i < end {
        assert(is_digit(s[i]));
        lemma_digit_run(s, i + 1, end);
    }
}

proof fn lemma_spelled_number(s: Seq<u8>, at: int, n: nat, limit: int)
    requires
        0 <= at,
        at + decimal_digits(n).len() <= s.len(),
        s.subrange(at, at + decimal_digits(n).len()) == decimal_digits(n),
        at + decimal_digits(n).len() < s.len() ==> !is_digit(s[at + decimal_digits(n).len()]),
        n <= limit,
    ensures
        number_at(s, at, limit) == Some(
            (Number { at, end: at + decimal_digits(n).len(), value: n as int }),
        ),
{
    let d = decimal_digits(n);
    crate::text::decimal_reads_back(n);
    let end = at + d.len();
    assert forall|k: int| at <= k < end implies is_digit(#[trigger] s[k]) by {
        assert(s.subrange(at, end)[k - at] == d[k - at]);
        assert(is_digit(d[k - at]));
    }
    lemma_digit_run(s, at, end);
}

/// The offset of the cross-reference section is the number behind the last
/// `startxref` of the file.
pub proof fn last_startxref_is_found(pre: Seq<u8>, n: nat, post: Seq<u8>)
    requires
        n <= usize::MAX,
        post.len() > 0 ==> !is_digit(post[0]),
        ({
            let s = pre + "startxref".spec_bytes() + seq![0x0Au8] + decimal_digits(n) + post;
            forall|k: int|
                pre.len() < k <= s.len() ==> !(#[trigger] occurs_at(
                    s,
                    "startxref".spec_bytes(),
                    k,
                ))
        }),
    ensures
        ({
            let s = pre + "startxref".spec_bytes() + seq![0x0Au8] + decimal_digits(n) + post;
            &&& startxref_of(s) is Some
            &&& (startxref_of(s)->0).at == pre.len()
            &&& (startxref_of(s)->0).offset.value == n
            &&& (startxref_of(s)->0).offset.at == pre.len() + 10
            &&& (startxref_of(s)->0).offset.end == pre.len() + 10 + decimal_digits(n).len()
        }),
{
    crate::words::words_spelled_1();
    let word = "startxref".spec_bytes();
    let d = decimal_digits(n);
    let s = pre + word + seq![0x0Au8] + d + post;
    let at = pre.len() as int;
    assert(crate::words::STARTXREF@.len() == 9);
    assert(word.len() == 9);
    assert(s.subrange(at, at + 9) =~= word);
    assert(occurs_at(s, word, at));
    lemma_last_one(s, word, at, s.len() - 9);
    assert(s[at + 9] == 0x0A);
    crate::text::decimal_reads_back(n);
    assert(is_digit(d[0]));
    assert(s[at + 10] == d[0]);
    reveal_with_fuel(blanks_end, 3);
    assert(blanks_end(s, at + 9) == at + 10);
    assert(s.subrange(at + 10, at + 10 + d.len()) =~= d);
    if at + 10 + d.len() < s.len() {
        assert(s[at + 10 + d.len()] == post[0]);
    }
    lemma_spelled_number(s, at + 10, n, usize::MAX as int);
}

/// A stream stands behind its dictionary and is as long as its `/Length`
/// says.
pub proof fn stream_is_as_long_as_it_says(
    pre: Seq<u8>,
    front: Seq<u8>,
    back: Seq<u8>,
    content: Seq<u8>,
    post: Seq<u8>,
)
    requires
        content.len() <= usize::MAX,
        back.len() > 0 ==> !is_digit(back[0]),
        ({
            let dict = front + "/Length ".spec_bytes() + decimal_digits(content.len()) + back
                + ">>".spec_bytes();
            let s = pre + dict + "stream\n".spec_bytes() + content + "\nendstream".spec_bytes()
                + post;
            &&& find_from(s, ">>stream\n".spec_bytes(), pre.len() as int) == Some(
                (pre.len() + dict.len() - 2) as int,
            )
            &&& find_from(dict, "/Length ".spec_bytes(), 0) == Some(front.len() as int)
        }),
    ensures
        ({
            let dict = front + "/Length ".spec_bytes() + decimal_digits(content.len()) + back
                + ">>".spec_bytes();
            let s = pre + dict + "stream\n".spec_bytes() + content + "\nendstream".spec_bytes()
                + post;
            let site = stream_site(s, pre.len() as int);
            &&& site is Some
            &&& site_dict(s, site->0) == dict
            &&& site_content(s, site->0) == content
            &&& s.subrange((site->0).length.at, (site->0).length.end) == decimal_digits(
                content.len(),
            )
        }),
{
    lemma_marks();
    let d = decimal_digits(content.len());
    let key = "/Length ".spec_bytes();
    let dict = front + key + d + back + ">>".spec_bytes();
    let tail = "stream\n".spec_bytes();
    let stop = "\nendstream".spec_bytes();
    let s = pre + dict + tail + content + stop + post;
    let at = pre.len() as int;
    let from = at + dict.len() + 7;
    let n = front.len() + 8;
    assert(s.subrange(at, at + dict.len()) =~= dict);
    assert(dict.subrange(n as int, (n + d.len()) as int) =~= d);
    assert(dict[(n + d.len()) as int] == (if back.len() > 0 {
        back[0]
    } else {
        ">>".spec_bytes()[0]
    }));
    lemma_spelled_number(dict, n as int, content.len(), usize::MAX as int);
    assert(s.subrange(from, from + content.len()) =~= content);
    assert(s.subrange(from + content.len(), from + content.len() + stop.len()) =~= stop);
    assert(occurs_at(s, stop, from + content.len()));
    assert(s.subrange(at + n, at + n + d.len()) =~= d);
}

proof fn lemma_marks()
    ensures
        crate::words::DICT_STREAM@ == ">>stream\n".spec_bytes(),
        crate::words::LENGTH_KEY@ == "/Length ".spec_bytes(),
        crate::words::ENDSTREAM_LINE@ == "\nendstream".spec_bytes(),
        "/Length ".spec_bytes().len() == 8,
        ">>".spec_bytes().len() == 2,
        ">>".spec_bytes()[0] == 0x3E,
        "stream\n".spec_bytes().len() == 7,
        "\nendstream".spec_bytes().len() == 10,
{
    crate::words::words_spelled_1();
    reveal_strlit(">>");
    reveal_strlit("stream\n");
    reveal_strlit("/Length ");
    reveal_strlit("\nendstream");
    assert(">>".is_ascii() && "stream\n".is_ascii() && "/Length ".is_ascii());
    assert("\nendstream".is_ascii());
}

} // verus!
