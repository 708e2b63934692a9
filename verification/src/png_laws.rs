//! A frame of filtered rows holds an image: whatever filters its rows chose,
//! the image comes back.

use crate::png::{
    byte_before, defiltered, defiltered_frame, defiltered_rows, paeth, predicted, row_above,
};
use vstd::prelude::*;

verus! {

/// A sample of an image of rows of `row_len` bytes; nothing outside it is
/// other than zero.
pub open spec fn sample(img: Seq<u8>, row_len: int, r: int, i: int) -> int {
    if r < 0 || i < 0 {
        0
    } else {
        img[r * row_len + i] as int
    }
}

/// How far a value is from left + up - upper left.
pub open spec fn off_plane(v: int, left: int, up: int, upper_left: int) -> int {
    let p = left + up - upper_left;
    if v < p {
        p - v
    } else {
        v - p
    }
}

/// The guess that a filter makes of a sample from its neighbours: none, the
/// left one, the upper one, their mean rounded down, or the one that is
/// nearest to left + up - upper left, where of two that are as near the left
/// one comes first and the upper left one last.
pub open spec fn guesses(tag: u8, left: int, up: int, upper_left: int, guess: int) -> bool {
    let l = off_plane(left, left, up, upper_left);
    let u = off_plane(up, left, up, upper_left);
    let c = off_plane(upper_left, left, up, upper_left);
    let g = off_plane(guess, left, up, upper_left);
    &&& tag <= 4
    &&& tag == 0 ==> guess == 0
    &&& tag == 1 ==> guess == left
    &&& tag == 2 ==> guess == up
    &&& tag == 3 ==> 2 * guess <= left + up < 2 * guess + 2
    &&& tag == 4 ==> {
        &&& guess == left || guess == up || guess == upper_left
        &&& g <= l && g <= u && g <= c
        &&& l == g ==> guess == left
        &&& l != g && u == g ==> guess == up
    }
}

/// A filtered row holds a row of the image: each byte is what the sample
/// exceeds its guess by, modulo 256.
pub open spec fn row_holds(
    tag: u8,
    row: Seq<u8>,
    img: Seq<u8>,
    bpp: int,
    row_len: int,
    r: int,
) -> bool {
    forall|i: int| #![trigger row[i]]
        0 <= i < row_len ==> exists|guess: int| #[trigger]
            guesses(
                tag,
                sample(img, row_len, r, i - bpp),
                sample(img, row_len, r - 1, i),
                sample(img, row_len, r - 1, i - bpp),
                guess,
            ) && row[i] == (sample(img, row_len, r, i) - guess) % 0x100
}

/// The data is a frame of an image: each row is the tag of its filter, and
/// then the filtered row.
pub open spec fn frame_holds(data: Seq<u8>, img: Seq<u8>, bpp: int, row_len: int, rows: int) -> bool {
    &&& data.len() == rows * (row_len + 1)
    &&& img.len() == rows * row_len
    &&& forall|r: int|
        0 <= r < rows ==> row_holds(
            data[r * (row_len + 1)],
            #[trigger] filtered_row(data, row_len, r),
            img,
            bpp,
            row_len,
            r,
        )
}

/// A filtered row, behind its tag.
pub open spec fn filtered_row(data: Seq<u8>, row_len: int, r: int) -> Seq<u8> {
    data.subrange(r * (row_len + 1) + 1, r * (row_len + 1) + 1 + row_len)
}

/// There is one guess, and it is the one that is made.
proof fn lemma_guess(tag: u8, left: u8, up: u8, upper_left: u8, guess: int)
    requires
        guesses(tag, left as int, up as int, upper_left as int, guess),
    ensures
        guess == predicted(tag, left, up, upper_left),
{
}

proof fn lemma_row(
    tag: u8,
    row: Seq<u8>,
    prev: Seq<u8>,
    img: Seq<u8>,
    bpp: int,
    row_len: int,
    rows: int,
    r: int,
    n: int,
)
    requires
        1 <= bpp,
        0 <= n <= row_len,
        0 <= r < rows,
        row.len() == row_len,
        prev.len() == row_len,
        img.len() == rows * row_len,
        row_holds(tag, row, img, bpp, row_len, r),
        forall|i: int| 0 <= i < row_len ==> #[trigger] prev[i] == sample(img, row_len, r - 1, i),
    ensures
        defiltered(tag, row, prev, bpp, n).len() == n,
        forall|i: int|
            0 <= i < n ==> #[trigger] defiltered(tag, row, prev, bpp, n)[i] == img[r * row_len + i],
    decreases n,
{
    if n > 0 {
        lemma_row(tag, row, prev, img, bpp, row_len, rows, r, n - 1);
        let i = n - 1;
        let before = defiltered(tag, row, prev, bpp, n - 1);
        let left = byte_before(before.push(row[i]), i, bpp);
        let upper_left = byte_before(prev, i, bpp);
        assert(0 <= r * row_len + i < rows * row_len) by (nonlinear_arith)
            requires
                0 <= r < rows,
                0 <= i < row_len,
        ;
        if i >= bpp {
            assert(before[i - bpp] == img[r * row_len + (i - bpp)]);
            assert(left == before[i - bpp]);
        }
        let l = sample(img, row_len, r, i - bpp);
        let u = sample(img, row_len, r - 1, i);
        let c = sample(img, row_len, r - 1, i - bpp);
        assert(row[i] == row[i]);
        let guess = choose|guess: int| #[trigger]
            guesses(tag, l, u, c, guess) && row[i] == (sample(img, row_len, r, i) - guess) % 0x100;
        assert(l == left && u == prev[i] && c == upper_left);
        lemma_guess(tag, left, prev[i], upper_left, guess);
        let x = img[r * row_len + i] as int;
        assert((row[i] + guess) % 0x100 == x);
    }
}

proof fn lemma_tag(tag: u8, row: Seq<u8>, img: Seq<u8>, bpp: int, row_len: int, r: int)
    requires
        0 < row_len,
        row_holds(tag, row, img, bpp, row_len, r),
    ensures
        tag <= 4,
{
    let first = row[0];
    let guess = choose|guess: int| #[trigger]
        guesses(
            tag,
            sample(img, row_len, r, 0 - bpp),
            sample(img, row_len, r - 1, 0),
            sample(img, row_len, r - 1, 0 - bpp),
            guess,
        ) && row[0] == (sample(img, row_len, r, 0) - guess) % 0x100;
    assert(guesses(
        tag,
        sample(img, row_len, r, 0 - bpp),
        sample(img, row_len, r - 1, 0),
        sample(img, row_len, r - 1, 0 - bpp),
        guess,
    ));
}

proof fn lemma_rows(data: Seq<u8>, img: Seq<u8>, bpp: int, row_len: int, rows: int, n: int)
    requires
        1 <= bpp,
        0 < row_len,
        0 <= n <= rows,
        frame_holds(data, img, bpp, row_len, rows),
    ensures
        defiltered_rows(data, bpp, row_len, n) == Some(img.take(n * row_len)),
    decreases n,
{
    if n > 0 {
        lemma_rows(data, img, bpp, row_len, rows, n - 1);
        let done = img.take((n - 1) * row_len);
        let at = (n - 1) * (row_len + 1);
        assert(n * row_len == (n - 1) * row_len + row_len) by (nonlinear_arith);
        assert(n * row_len <= rows * row_len) by (nonlinear_arith)
            requires
                n <= rows,
                row_len > 0,
        ;
        assert(0 <= (n - 1) * row_len) by (nonlinear_arith)
            requires
                n >= 1,
                row_len > 0,
        ;
        assert(at + row_len + 1 <= rows * (row_len + 1)) by (nonlinear_arith)
            requires
                n <= rows,
                row_len > 0,
                at == (n - 1) * (row_len + 1),
        ;
        assert(0 <= at) by (nonlinear_arith)
            requires
                n >= 1,
                row_len > 0,
                at == (n - 1) * (row_len + 1),
        ;
        let row = filtered_row(data, row_len, n - 1);
        assert(row_holds(data[at], row, img, bpp, row_len, n - 1));
        lemma_tag(data[at], row, img, bpp, row_len, n - 1);
        let prev = row_above(done, row_len);
        if n > 1 {
            assert((n - 1) * row_len == (n - 2) * row_len + row_len) by (nonlinear_arith);
            assert(0 <= (n - 2) * row_len) by (nonlinear_arith)
                requires
                    n >= 2,
                    row_len > 0,
            ;
        } else {
            assert((n - 1) * row_len == 0) by (nonlinear_arith)
                requires
                    n == 1,
            ;
        }
        lemma_row(data[at], row, prev, img, bpp, row_len, rows, n - 1, row_len);
        assert(done + defiltered(data[at], row, prev, bpp, row_len) =~= img.take(n * row_len));
    } else {
        assert(n * row_len == 0) by (nonlinear_arith)
            requires
                n == 0,
        ;
        assert(img.take(0) =~= Seq::empty());
    }
}

/// Undoing the filters of a frame gives the image back, whichever filter each
/// row has.
pub proof fn filtered_frame_gives_the_image_back(
    data: Seq<u8>,
    img: Seq<u8>,
    bpp: int,
    row_len: int,
    rows: int,
)
    requires
        1 <= bpp,
        0 < row_len,
        0 <= rows,
        frame_holds(data, img, bpp, row_len, rows),
    ensures
        defiltered_frame(data, bpp, row_len) == Some(img),
{
    lemma_rows(data, img, bpp, row_len, rows, rows);
    vstd::arithmetic::div_mod::lemma_fundamental_div_mod_converse(
        data.len() as int,
        row_len + 1,
        rows,
        0,
    );
    assert(img.take(rows * row_len) =~= img);
}

/// The Paeth guess is one of its three neighbours, and none of them is nearer
/// to left + up - upper left.
pub proof fn paeth_is_nearest(left: u8, up: u8, upper_left: u8)
    ensures
        guesses(4, left as int, up as int, upper_left as int, paeth(left, up, upper_left) as int),
{
}

} // verus!
