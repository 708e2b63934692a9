//! What counts as line art.

use crate::raster::{
    color_count, edge_count, histogram, is_line_art, largest, on_edge, quantized, raster_ok,
    row_edges, top_sum, RasterValue,
};
use vstd::prelude::*;

verus! {

proof fn lemma_largest(counts: Seq<nat>, n: int, i: int)
    requires
        0 <= i < n <= counts.len(),
    ensures
        0 <= largest(counts, n) < n,
        counts[largest(counts, n)] >= counts[i],
    decreases n,
{
    if n > 1 {
        if i < n - 1 {
            lemma_largest(counts, n - 1, i);
        } else {
            lemma_largest(counts, n - 1, 0);
        }
    }
}

proof fn lemma_color(p: Seq<u8>, gray: bool, q: int, n: int)
    requires
        forall|i: int| 0 <= i < n ==> #[trigger] quantized(p, gray, i) == q,
        0 <= n,
    ensures
        color_count(p, gray, q, n) == n,
    decreases n,
{
    if n > 0 {
        lemma_color(p, gray, q, n - 1);
        assert(quantized(p, gray, n - 1) == q);
    }
}

proof fn lemma_no_edges(r: RasterValue, y: int)
    requires
        forall|x: int, y: int| !(#[trigger] on_edge(r, x, y)),
    ensures
        edge_count(r, y) == 0,
    decreases y,
{
    if y > 0 {
        lemma_no_edges(r, y - 1);
        lemma_no_row_edges(r, y - 1, r.width as int);
    }
}

proof fn lemma_no_row_edges(r: RasterValue, y: int, x: int)
    requires
        forall|x: int, y: int| !(#[trigger] on_edge(r, x, y)),
    ensures
        row_edges(r, y, x) == 0,
    decreases x,
{
    if x > 0 {
        lemma_no_row_edges(r, y, x - 1);
        assert(!on_edge(r, x - 1, y));
    }
}

/// An image of one color without a sharp edge is line art.
pub proof fn plain_picture_is_line_art(r: RasterValue, q: int)
    requires
        r.width > 0 && r.height > 0,
        0 <= q < 0x8000,
        forall|i: int|
            0 <= i < r.width * r.height ==> #[trigger] quantized(r.pixels, r.gray, i) == q,
        forall|x: int, y: int| !(#[trigger] on_edge(r, x, y)),
    ensures
        is_line_art(r),
{
    let total = r.width * r.height;
    assert(total > 0) by (nonlinear_arith)
        requires
            r.width > 0,
            r.height > 0,
            total == r.width * r.height,
    ;
    let counts = histogram(r.pixels, r.gray, total);
    lemma_color(r.pixels, r.gray, q, total);
    assert(counts[q] == total);
    lemma_largest(counts, 0x8000, q);
    let i = largest(counts, 0x8000);
    assert(top_sum(counts, 1) >= counts[i]);
    assert(top_sum(counts, 8) >= counts[i]);
    lemma_no_edges(r, r.height as int);
}

/// An image in which no color fills three quarters of the pixels is no line
/// art.
pub proof fn colorful_picture_is_no_line_art(r: RasterValue)
    requires
        forall|q: int|
            0 <= q < 0x8000 ==> 4 * #[trigger] color_count(
                r.pixels,
                r.gray,
                q,
                r.width * r.height,
            ) < 3 * (r.width * r.height),
    ensures
        !is_line_art(r),
{
    let total = r.width * r.height;
    let counts = histogram(r.pixels, r.gray, total);
    lemma_largest(counts, 0x8000, 0);
    let i = largest(counts, 0x8000);
    assert(counts[i] == color_count(r.pixels, r.gray, i, total));
    let rest = counts.update(i, 0);
    assert(top_sum(rest, 0) == 0);
    assert(top_sum(counts, 1) == counts[i] + top_sum(rest, 0));
}

/// An image in which a tenth of the pixels or more are on a sharp edge is no
/// line art.
pub proof fn busy_picture_is_no_line_art(r: RasterValue)
    requires
        10 * edge_count(r, r.height as int) >= r.width * r.height,
    ensures
        !is_line_art(r),
{
}

/// A pixel is on a sharp edge where a channel of it and of the pixel to its
/// right, or of the one below it, are more than 48 apart.
pub proof fn edges_are_steps_between_neighbors(r: RasterValue, x: int, y: int)
    requires
        r.gray,
        raster_ok(r),
        0 <= x < r.width,
        0 <= y < r.height,
    ensures
        on_edge(r, x, y) <==> ({
            let at = |u: int, v: int| r.pixels[v * r.width + u] as int;
            ||| x + 1 < r.width && (at(x, y) - at(x + 1, y) > 48 || at(x + 1, y) - at(x, y) > 48)
            ||| y + 1 < r.height && (at(x, y) - at(x, y + 1) > 48 || at(x, y + 1) - at(x, y) > 48)
        }),
{
    assert((y + 1) * r.width + x == y * r.width + x + r.width) by (nonlinear_arith);
    assert(y * r.width + (x + 1) == y * r.width + x + 1);
}

/// Two pixels are of one color where they agree in the five high bits of each
/// channel.
pub proof fn colors_are_told_by_five_bits(p: Seq<u8>, i: int, j: int)
    ensures
        quantized(p, false, i) == quantized(p, false, j) <==> p[3 * i] / 8 == p[3 * j] / 8 && p[3
            * i + 1] / 8 == p[3 * j + 1] / 8 && p[3 * i + 2] / 8 == p[3 * j + 2] / 8,
        quantized(p, true, i) == quantized(p, true, j) <==> p[i] / 8 == p[j] / 8,
{
}

} // verus!
