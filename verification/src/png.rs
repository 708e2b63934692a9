//! PNG row filters, as the `FlateDecode` predictors 10 to 15 use them.

use vstd::prelude::*;

verus! {

/// The distance of two numbers.
pub open spec fn distance(a: int, b: int) -> int {
    if a < b {
        b - a
    } else {
        a - b
    }
}

/// The Paeth predictor: whichever of left, up and upper left is closest to
/// left + up - upper left, taken in that order.
pub open spec fn paeth(left: u8, up: u8, upper_left: u8) -> u8 {
    let p = left + up - upper_left;
    let pa = distance(p, left as int);
    let pb = distance(p, up as int);
    let pc = distance(p, upper_left as int);
    if pa <= pb && pa <= pc {
        left
    } else if pb <= pc {
        up
    } else {
        upper_left
    }
}

/// PNG Paeth predictor.
pub fn paeth_predict(left: u8, up: u8, upper_left: u8) -> (r: u8)
    ensures
        r == paeth(left, up, upper_left),
{
    let p: i16 = left as i16 + up as i16 - upper_left as i16;
    let pa: i16 = if p < left as i16 {
        left as i16 - p
    } else {
        p - left as i16
    };
    let pb: i16 = if p < up as i16 {
        up as i16 - p
    } else {
        p - up as i16
    };
    let pc: i16 = if p < upper_left as i16 {
        upper_left as i16 - p
    } else {
        p - upper_left as i16
    };
    if pa <= pb && pa <= pc {
        left
    } else if pb <= pc {
        up
    } else {
        upper_left
    }
}

/// What filter `tag` adds to a byte.
pub open spec fn predicted(tag: u8, left: u8, up: u8, upper_left: u8) -> int {
    if tag == 1 {
        left as int
    } else if tag == 2 {
        up as int
    } else if tag == 3 {
        (left + up) / 2
    } else if tag == 4 {
        paeth(left, up, upper_left) as int
    } else {
        0
    }
}

/// The byte `bpp` places before `i`, or 0.
pub open spec fn byte_before(s: Seq<u8>, i: int, bpp: int) -> u8 {
    if i >= bpp {
        s[i - bpp]
    } else {
        0
    }
}

/// The first `n` bytes of a row without its filter. With pixels of no bytes
/// a byte stands before itself, still filtered.
pub open spec fn defiltered(tag: u8, row: Seq<u8>, prev: Seq<u8>, bpp: int, n: int) -> Seq<u8>
    decreases n,
{
    if n <= 0 {
        Seq::empty()
    } else {
        let before = defiltered(tag, row, prev, bpp, n - 1);
        let i = n - 1;
        before.push(
            ((row[i] + predicted(
                tag,
                byte_before(before.push(row[i]), i, bpp),
                prev[i],
                byte_before(prev, i, bpp),
            )) % 0x100) as u8,
        )
    }
}

/// The row above row `r` of what is decoded so far; zeros above the first.
pub open spec fn row_above(done: Seq<u8>, row_len: int) -> Seq<u8> {
    if done.len() >= row_len {
        done.skip(done.len() - row_len)
    } else {
        Seq::new(row_len as nat, |i: int| 0u8)
    }
}

/// The first `r` rows of a frame of `[tag][filtered row]` records, without
/// their filters; `None` where a tag is unknown.
pub open spec fn defiltered_rows(data: Seq<u8>, bpp: int, row_len: int, r: int) -> Option<Seq<u8>>
    decreases r,
{
    if r <= 0 {
        Some(Seq::empty())
    } else {
        match defiltered_rows(data, bpp, row_len, r - 1) {
            None => None,
            Some(done) => {
                let at = (r - 1) * (row_len + 1);
                if data[at] <= 4 {
                    Some(
                        done + defiltered(
                            data[at],
                            data.subrange(at + 1, at + 1 + row_len),
                            row_above(done, row_len),
                            bpp,
                            row_len,
                        ),
                    )
                } else {
                    None
                }
            },
        }
    }
}

/// A whole frame without its filters; `None` on any malformed shape.
pub open spec fn defiltered_frame(data: Seq<u8>, bpp: int, row_len: int) -> Option<Seq<u8>> {
    if row_len > 0 && data.len() % ((row_len + 1) as nat) == 0 {
        defiltered_rows(data, bpp, row_len, data.len() as int / (row_len + 1))
    } else {
        None
    }
}

proof fn lemma_defiltered_len(tag: u8, row: Seq<u8>, prev: Seq<u8>, bpp: int, n: int)
    requires
        n >= 0,
    ensures
        defiltered(tag, row, prev, bpp, n).len() == n,
    decreases n,
{
    if n > 0 {
        lemma_defiltered_len(tag, row, prev, bpp, n - 1);
    }
}

proof fn lemma_rows_stop(data: Seq<u8>, bpp: int, row_len: int, i: int, r: int)
    requires
        i <= r,
        defiltered_rows(data, bpp, row_len, i) is None,
    ensures
        defiltered_rows(data, bpp, row_len, r) is None,
    decreases r - i,
{
    if i < r {
        lemma_rows_stop(data, bpp, row_len, i, r - 1);
    }
}

/// Undoes the filter of one row.
fn defilter_row(tag: u8, row: &[u8], prev: &[u8], bpp: usize) -> (r: Vec<u8>)
    requires
        prev@.len() == row@.len(),
    ensures
        r@ == defiltered(tag, row@, prev@, bpp as int, row@.len() as int),
        r@.len() == row@.len(),
{
    let mut out: Vec<u8> = Vec::new();
    let mut i: usize = 0;
    while i < row.len()
        invariant
            i <= row@.len(),
            prev@.len() == row@.len(),
            out@ == defiltered(tag, row@, prev@, bpp as int, i as int),
            out@.len() == i,
        decreases row@.len() - i,
    {
        let left: u8 = if bpp == 0 {
            row[i]
        } else if i >= bpp {
            out[i - bpp]
        } else {
            0
        };
        let up: u8 = prev[i];
        let upper_left: u8 = if i >= bpp {
            prev[i - bpp]
        } else {
            0
        };
        let added: u8 = if tag == 1 {
            left
        } else if tag == 2 {
            up
        } else if tag == 3 {
            ((left as u16 + up as u16) / 2) as u8
        } else if tag == 4 {
            paeth_predict(left, up, upper_left)
        } else {
            0
        };
        let value: u8 = row[i].wrapping_add(added);
        proof {
            assert(value == (row@[i as int] + added) % 0x100);
        }
        out.push(value);
        i += 1;
    }
    out
}

/// Undoes the PNG row filters of a whole frame of `[tag][filtered row]`
/// records. `None` on any malformed shape.
pub fn png_defilter(data: &[u8], bytes_per_pixel: usize, bytes_per_row: usize) -> (r: Option<
    Vec<u8>,
>)
    ensures
        match r {
            Some(out) => defiltered_frame(
                data@,
                bytes_per_pixel as int,
                bytes_per_row as int,
            ) == Some(out@),
            None => defiltered_frame(data@, bytes_per_pixel as int, bytes_per_row as int) is None,
        },
{
    let total: usize = data.len();
    if bytes_per_row == 0 {
        return None;
    }
    if bytes_per_row == usize::MAX {
        return if total == 0 {
            proof {
                assert(0nat % ((bytes_per_row + 1) as nat) == 0);
                assert(0int / (bytes_per_row + 1) == 0) by (nonlinear_arith)
                    requires
                        bytes_per_row > 0,
                ;
            }
            Some(Vec::new())
        } else {
            proof {
                vstd::arithmetic::div_mod::lemma_small_mod(
                    total as nat,
                    (bytes_per_row + 1) as nat,
                );
            }
            None
        };
    }
    let stride: usize = bytes_per_row + 1;
    if total % stride != 0 {
        return None;
    }
    let rows: usize = total / stride;
    proof {
        vstd::arithmetic::div_mod::lemma_fundamental_div_mod(total as int, stride as int);
        assert(rows * stride == total) by (nonlinear_arith)
            requires
                total == stride * rows,
        ;
    }
    let mut out: Vec<u8> = Vec::new();
    let mut prev: Vec<u8> = Vec::new();
    let mut k: usize = 0;
    while k < bytes_per_row
        invariant
            k <= bytes_per_row,
            prev@ == Seq::new(k as nat, |i: int| 0u8),
        decreases bytes_per_row - k,
    {
        prev.push(0);
        k += 1;
        proof {
            assert(prev@ =~= Seq::new(k as nat, |i: int| 0u8));
        }
    }
    let mut r: usize = 0;
    proof {
        assert(prev@ =~= row_above(out@, bytes_per_row as int));
    }
    while r < rows
        invariant
            r <= rows,
            rows * stride == total == data@.len(),
            rows == data@.len() as int / (bytes_per_row + 1),
            stride == bytes_per_row + 1,
            bytes_per_row > 0,
            data@.len() % ((bytes_per_row + 1) as nat) == 0,
            prev@ == row_above(out@, bytes_per_row as int),
            prev@.len() == bytes_per_row,
            r > 0 ==> out@.len() >= bytes_per_row,
            defiltered_rows(data@, bytes_per_pixel as int, bytes_per_row as int, r as int) == Some(
                out@,
            ),
        decreases rows - r,
    {
        proof {
            assert((r + 1) * stride <= rows * stride) by (nonlinear_arith)
                requires
                    r + 1 <= rows,
            ;
            assert(r * stride + stride == (r + 1) * stride) by (nonlinear_arith);
        }
        let at: usize = r * stride;
        let tag: u8 = data[at];
        if tag > 4 {
            proof {
                lemma_rows_stop(
                    data@,
                    bytes_per_pixel as int,
                    bytes_per_row as int,
                    r + 1,
                    rows as int,
                );
            }
            return None;
        }
        let row = vstd::slice::slice_subrange(data, at + 1, at + stride);
        let cur = defilter_row(tag, row, prev.as_slice(), bytes_per_pixel);
        let ghost before = out@;
        out.extend_from_slice(cur.as_slice());
        proof {
            assert(out@ =~= before + cur@);
            assert(row_above(out@, bytes_per_row as int) =~= cur@);
        }
        prev = cur;
        r += 1;
    }
    Some(out)
}

// --- the Up filter -----------------------------------------------------------------

/// A row minus the row above it, byte by byte.
pub open spec fn up_row(row: Seq<u8>, prev: Seq<u8>) -> Seq<u8> {
    Seq::new(row.len(), |i: int| ((row[i] - prev[i]) % 0x100) as u8)
}

/// Row `r` of an unfiltered frame.
pub open spec fn raw_row(raw: Seq<u8>, row_len: int, r: int) -> Seq<u8> {
    raw.subrange(r * row_len, (r + 1) * row_len)
}

/// The first `r` rows with the Up filter, each after its tag.
pub open spec fn up_filtered(raw: Seq<u8>, row_len: int, r: int) -> Seq<u8>
    decreases r,
{
    if r <= 0 {
        Seq::empty()
    } else {
        let prev = if r == 1 {
            Seq::new(row_len as nat, |i: int| 0u8)
        } else {
            raw_row(raw, row_len, r - 2)
        };
        up_filtered(raw, row_len, r - 1) + seq![2u8] + up_row(raw_row(raw, row_len, r - 1), prev)
    }
}

/// Applies the Up filter of `lopdf::filters::png::encode_row` to one row:
/// every byte becomes its difference, modulo 256, to the byte above it. The
/// outside function reads as much of the row above as there is of this one.
#[verifier::external_body]
fn encode_up_row(bytes_per_pixel: usize, previous: &[u8], current: Vec<u8>) -> (r: Vec<u8>)
    requires
        previous@.len() >= current@.len(),
    ensures
        r@ == up_row(current@, previous@),
{
    let mut row = current;
    lopdf::filters::png::encode_row(
        lopdf::filters::png::FilterType::Up,
        bytes_per_pixel,
        previous,
        &mut row,
    );
    row
}

/// Applies the PNG Up filter to every row, producing the byte stream that
/// `FlateDecode` with a predictor of 10 or more expects: each row is a tag
/// (2 for Up) followed by the filtered bytes. Bytes past the last whole row
/// are dropped.
pub fn png_up_filter(raw: &[u8], width: u32, channels: usize) -> (r: Vec<u8>)
    requires
        0 < width * channels <= usize::MAX,
    ensures
        r@ == up_filtered(
            raw@,
            (width * channels) as int,
            raw@.len() as int / (width * channels) as int,
        ),
{
    let row_len: usize = width as usize * channels;
    let rows: usize = raw.len() / row_len;
    proof {
        vstd::arithmetic::div_mod::lemma_fundamental_div_mod(raw@.len() as int, row_len as int);
        assert(rows * row_len <= raw@.len()) by (nonlinear_arith)
            requires
                raw@.len() == row_len * rows + raw@.len() as int % row_len as int,
                raw@.len() as int % row_len as int >= 0,
        ;
    }
    let mut out: Vec<u8> = Vec::new();
    let mut previous: Vec<u8> = Vec::new();
    let mut k: usize = 0;
    while k < row_len
        invariant
            k <= row_len,
            previous@ == Seq::new(k as nat, |i: int| 0u8),
        decreases row_len - k,
    {
        previous.push(0);
        k += 1;
        proof {
            assert(previous@ =~= Seq::new(k as nat, |i: int| 0u8));
        }
    }
    let mut r: usize = 0;
    while r < rows
        invariant
            r <= rows,
            row_len > 0,
            rows * row_len <= raw@.len() <= usize::MAX,
            previous@ == if r == 0 {
                Seq::new(row_len as nat, |i: int| 0u8)
            } else {
                raw_row(raw@, row_len as int, r - 1)
            },
            previous@.len() == row_len,
            out@ == up_filtered(raw@, row_len as int, r as int),
        decreases rows - r,
    {
        proof {
            assert((r + 1) * row_len <= rows * row_len) by (nonlinear_arith)
                requires
                    r + 1 <= rows,
            ;
            assert(r * row_len + row_len == (r + 1) * row_len) by (nonlinear_arith);
        }
        let at: usize = r * row_len;
        let row = crate::bytes::to_vec(vstd::slice::slice_subrange(raw, at, at + row_len));
        let current = encode_up_row(channels, previous.as_slice(), row.clone());
        out.push(2);
        out.extend_from_slice(current.as_slice());
        proof {
            assert(row@ =~= raw_row(raw@, row_len as int, r as int));
            assert(out@ =~= up_filtered(raw@, row_len as int, r + 1));
        }
        previous = row;
        r += 1;
    }
    out
}

// --- filtering is undone ---------------------------------------------------------------

proof fn lemma_up_row_undone(row: Seq<u8>, prev: Seq<u8>, bpp: int, n: int)
    requires
        prev.len() == row.len(),
        0 <= n <= row.len(),
    ensures
        defiltered(2, up_row(row, prev), prev, bpp, n) == row.take(n),
    decreases n,
{
    if n > 0 {
        lemma_up_row_undone(row, prev, bpp, n - 1);
        let i = n - 1;
        assert(((row[i] - prev[i]) % 0x100 + prev[i]) % 0x100 == row[i]);
        assert(row.take(n - 1).push(row[i]) =~= row.take(n));
    } else {
        assert(row.take(0) =~= Seq::empty());
    }
}

pub proof fn lemma_up_filtered(raw: Seq<u8>, row_len: int, r: int)
    requires
        row_len > 0,
        0 <= r,
        r * row_len <= raw.len(),
    ensures
        up_filtered(raw, row_len, r).len() == r * (row_len + 1),
    decreases r,
{
    if r > 0 {
        assert((r - 1) * row_len + row_len == r * row_len) by (nonlinear_arith);
        assert((r - 1) * (row_len + 1) + row_len + 1 == r * (row_len + 1)) by (nonlinear_arith);
        assert((r - 1) * row_len >= 0) by (nonlinear_arith)
            requires
                r >= 1,
                row_len > 0,
        ;
        lemma_up_filtered(raw, row_len, r - 1);
    } else {
        assert(0 * (row_len + 1) == 0);
    }
}

/// Decoding goes row by row, so a longer stream starts with the same rows.
proof fn lemma_rows_prefix(a: Seq<u8>, b: Seq<u8>, bpp: int, row_len: int, r: int)
    requires
        row_len > 0,
        0 <= r,
        r * (row_len + 1) <= a.len() <= b.len(),
        b.take(a.len() as int) == a,
    ensures
        defiltered_rows(b, bpp, row_len, r) == defiltered_rows(a, bpp, row_len, r),
    decreases r,
{
    if r > 0 {
        let at = (r - 1) * (row_len + 1);
        assert(at + row_len + 1 == r * (row_len + 1)) by (nonlinear_arith)
            requires
                at == (r - 1) * (row_len + 1),
        ;
        assert(at >= 0) by (nonlinear_arith)
            requires
                at == (r - 1) * (row_len + 1),
                r >= 1,
                row_len > 0,
        ;
        lemma_rows_prefix(a, b, bpp, row_len, r - 1);
        assert(b.take(a.len() as int)[at] == b[at]);
        assert(b.subrange(at + 1, at + 1 + row_len) =~= b.take(a.len() as int).subrange(
            at + 1,
            at + 1 + row_len,
        ));
    }
}

proof fn lemma_up_rows_undone(raw: Seq<u8>, bpp: int, row_len: int, r: int)
    requires
        row_len > 0,
        0 <= r,
        r * row_len <= raw.len(),
    ensures
        defiltered_rows(up_filtered(raw, row_len, r), bpp, row_len, r) == Some(
            raw.take(r * row_len),
        ),
    decreases r,
{
    if r > 0 {
        let at = (r - 1) * (row_len + 1);
        let below = (r - 1) * row_len;
        assert(below + row_len == r * row_len) by (nonlinear_arith)
            requires
                below == (r - 1) * row_len,
        ;
        assert(at + row_len + 1 == r * (row_len + 1)) by (nonlinear_arith)
            requires
                at == (r - 1) * (row_len + 1),
        ;
        assert(below >= 0) by (nonlinear_arith)
            requires
                below == (r - 1) * row_len,
                r >= 1,
                row_len > 0,
        ;
        lemma_up_filtered(raw, row_len, r - 1);
        lemma_up_filtered(raw, row_len, r);
        lemma_up_rows_undone(raw, bpp, row_len, r - 1);
        let a = up_filtered(raw, row_len, r - 1);
        let b = up_filtered(raw, row_len, r);
        assert(b.take(a.len() as int) =~= a);
        lemma_rows_prefix(a, b, bpp, row_len, r - 1);
        let done = raw.take(below);
        let row = raw_row(raw, row_len, r - 1);
        let prev = if r == 1 {
            Seq::new(row_len as nat, |i: int| 0u8)
        } else {
            raw_row(raw, row_len, r - 2)
        };
        if r == 1 {
            assert(below == 0) by (nonlinear_arith)
                requires
                    r == 1,
                    below == (r - 1) * row_len,
            ;
            assert(row_above(done, row_len) =~= prev);
        } else {
            assert((r - 2) * row_len + row_len == below) by (nonlinear_arith)
                requires
                    below == (r - 1) * row_len,
            ;
            assert((r - 2) * row_len >= 0) by (nonlinear_arith)
                requires
                    r >= 2,
                    row_len > 0,
            ;
            assert(row_above(done, row_len) =~= prev);
        }
        assert(b[at] == 2);
        assert(b.subrange(at + 1, at + 1 + row_len) =~= up_row(row, prev));
        lemma_up_row_undone(row, prev, bpp, row_len);
        assert(row.take(row_len) =~= row);
        assert(done + row =~= raw.take(r * row_len));
    } else {
        assert(0 * row_len == 0);
        assert(raw.take(0) =~= Seq::empty());
    }
}

/// Row `i` names a filter that is known.
pub open spec fn row_known(data: Seq<u8>, row_len: int, i: int) -> bool {
    data[i * (row_len + 1)] <= 4
}

proof fn lemma_rows_known(data: Seq<u8>, bpp: int, row_len: int, r: int)
    ensures
        defiltered_rows(data, bpp, row_len, r) is Some <==> forall|i: int|
            0 <= i < r ==> #[trigger] row_known(data, row_len, i),
    decreases r,
{
    if r > 0 {
        lemma_rows_known(data, bpp, row_len, r - 1);
        assert(row_known(data, row_len, r - 1) <==> data[(r - 1) * (row_len + 1)] <= 4);
    }
}

/// The filters of a frame are undone exactly where it is made of whole rows
/// that each name a known filter, whatever the size of a pixel.
pub proof fn whole_known_rows_are_defiltered(data: Seq<u8>, bpp: int, row_len: int)
    ensures
        defiltered_frame(data, bpp, row_len) is Some <==> (row_len > 0 && data.len() % ((row_len
            + 1) as nat) == 0 && forall|i: int|
            0 <= i < data.len() as int / (row_len + 1) ==> #[trigger] row_known(data, row_len, i)),
{
    if row_len > 0 {
        lemma_rows_known(data, bpp, row_len, data.len() as int / (row_len + 1));
    }
}

/// Undoing the filters of a frame that was filtered gives the frame back.
pub proof fn up_filter_is_undone(raw: Seq<u8>, bpp: int, row_len: int)
    requires
        row_len > 0,
        raw.len() as int % row_len == 0,
    ensures
        defiltered_frame(
            up_filtered(raw, row_len, raw.len() as int / row_len),
            bpp,
            row_len,
        ) == Some(raw),
{
    let r = raw.len() as int / row_len;
    let stride = row_len + 1;
    vstd::arithmetic::div_mod::lemma_fundamental_div_mod(raw.len() as int, row_len);
    assert(r * row_len == raw.len()) by (nonlinear_arith)
        requires
            raw.len() == row_len * r,
    ;
    assert(r >= 0) by {
        vstd::arithmetic::div_mod::lemma_div_pos_is_pos(raw.len() as int, row_len);
    }
    lemma_up_filtered(raw, row_len, r);
    lemma_up_rows_undone(raw, bpp, row_len, r);
    let data = up_filtered(raw, row_len, r);
    assert(data.len() == r * stride);
    vstd::arithmetic::div_mod::lemma_mod_multiples_basic(r, stride);
    vstd::arithmetic::div_mod::lemma_div_by_multiple(r, stride);
    assert(data.len() as int % stride == 0);
    assert(data.len() % (stride as nat) == 0);
    assert(raw.take(r * row_len) =~= raw);
}

} // verus!
