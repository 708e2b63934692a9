//! Inline images of content streams, told apart before a stream is handed to
//! the parser.
//!
//! lopdf looks up the color space of an inline image without a check and
//! multiplies its size. A stream is handed on only where each inline image is
//! written plainly, has a color space or is a mask, and has a size that fits;
//! any other is declined.

use crate::bytes::same_bytes;
use crate::pdf::{
    decode_operations, decode_operations_strict, operation_views, operations, operations_strict,
    ContentOp, OperationValue,
};
use crate::text::{digit, digits_end, digits_value, end_of_digits, is_digit, parse_digits};
use vstd::prelude::*;
use vstd::string::StringSliceAdditionalSpecFns;

verus! {

/// A letter or a digit.
pub open spec fn is_word_byte(b: u8) -> bool {
    is_digit(b) || 0x41 <= b <= 0x5A || 0x61 <= b <= 0x7A
}

/// White space between the entries of a dictionary.
pub open spec fn is_gap(b: u8) -> bool {
    b == 0x20 || b == 0x09 || b == 0x0A || b == 0x0D || b == 0 || b == 0x0C
}

/// A byte that ends a name or a number: white space or a delimiter.
pub open spec fn ends_word(b: u8) -> bool {
    is_gap(b) || b == 0x28 || b == 0x29 || b == 0x3C || b == 0x3E || b == 0x5B || b == 0x5D || b
        == 0x7B || b == 0x7D || b == 0x2F || b == 0x25
}

/// End of the letters and digits at `i`.
pub open spec fn plain_end(s: Seq<u8>, i: int) -> int
    decreases s.len() - i,
{
    if 0 <= i < s.len() && is_word_byte(s[i]) {
        plain_end(s, i + 1)
    } else {
        i
    }
}

/// End of the white space at `i`.
pub open spec fn gap_end(s: Seq<u8>, i: int) -> int
    decreases s.len() - i,
{
    if 0 <= i < s.len() && is_gap(s[i]) {
        gap_end(s, i + 1)
    } else {
        i
    }
}

/// A byte of a plain array or dictionary.
pub open spec fn is_inner_byte(b: u8) -> bool {
    is_word_byte(b) || is_gap(b) || b == 0x2F || b == 0x2D || b == 0x2E || b == 0x2B
}

/// End of the plain bytes of an array or a dictionary at `i`.
pub open spec fn inner_end(s: Seq<u8>, i: int) -> int
    decreases s.len() - i,
{
    if 0 <= i < s.len() && is_inner_byte(s[i]) {
        inner_end(s, i + 1)
    } else {
        i
    }
}

/// A hexadecimal digit or white space.
pub open spec fn is_hex_byte(b: u8) -> bool {
    is_digit(b) || 0x41 <= b <= 0x46 || 0x61 <= b <= 0x66 || is_gap(b)
}

/// End of the digits of a hexadecimal string at `i`.
pub open spec fn hex_end(s: Seq<u8>, i: int) -> int
    decreases s.len() - i,
{
    if 0 <= i < s.len() && is_hex_byte(s[i]) {
        hex_end(s, i + 1)
    } else {
        i
    }
}

/// End of the bytes of a literal string at `i`, up to a parenthesis or an
/// escape.
pub open spec fn text_end(s: Seq<u8>, i: int) -> int
    decreases s.len() - i,
{
    if 0 <= i < s.len() && s[i] != 0x28 && s[i] != 0x29 && s[i] != 0x5C {
        text_end(s, i + 1)
    } else {
        i
    }
}

/// End of the string at `i`; `i` itself where there is none.
pub open spec fn string_end(s: Seq<u8>, i: int) -> int {
    if i < 0 || i >= s.len() {
        i
    } else if s[i] == 0x3C {
        let e = hex_end(s, i + 1);
        if e < s.len() && s[e] == 0x3E {
            e + 1
        } else {
            i
        }
    } else if s[i] == 0x28 {
        let e = text_end(s, i + 1);
        if e < s.len() && s[e] == 0x29 {
            e + 1
        } else {
            i
        }
    } else {
        i
    }
}

/// End of the plain bytes and strings of an array at `i`.
pub open spec fn array_end(s: Seq<u8>, i: int) -> int
    decreases s.len() - i,
{
    if i < 0 || i >= s.len() {
        i
    } else if is_inner_byte(s[i]) {
        array_end(s, i + 1)
    } else if i < string_end(s, i) <= s.len() {
        array_end(s, string_end(s, i))
    } else {
        i
    }
}

/// A value of an inline image: a plain name, word or number, a plain
/// dictionary, or an array of such words and of strings.
pub enum Shape {
    Word(Seq<u8>),
    Other,
}

/// The value at `i`, and where it ends.
pub open spec fn shape_at(s: Seq<u8>, i: int) -> Option<(Shape, int)> {
    if i < 0 || i >= s.len() {
        None
    } else if s[i] == 0x2F {
        let end = plain_end(s, i + 1);
        if end < s.len() && ends_word(s[end]) {
            Some((Shape::Other, end))
        } else {
            None
        }
    } else if is_word_byte(s[i]) {
        let end = plain_end(s, i);
        if end < s.len() && ends_word(s[end]) {
            Some((Shape::Word(s.subrange(i, end)), end))
        } else {
            None
        }
    } else if s[i] == 0x5B {
        let end = array_end(s, i + 1);
        if end < s.len() && s[end] == 0x5D {
            Some((Shape::Other, end + 1))
        } else {
            None
        }
    } else if s[i] == 0x3C && i + 1 < s.len() && s[i + 1] == 0x3C {
        let end = inner_end(s, i + 2);
        if end + 1 < s.len() && s[end] == 0x3E && s[end + 1] == 0x3E {
            Some((Shape::Other, end + 2))
        } else {
            None
        }
    } else {
        None
    }
}

/// What is known of an inline image: the greatest width, height and depth that
/// are named, and whether a color space, a mask, and anything but a mask is.
pub struct Sketch {
    pub width: int,
    pub height: int,
    pub depth: int,
    pub color: bool,
    pub mask: bool,
    pub no_mask: bool,
}

/// The number that a word is, up to nine digits.
pub open spec fn small_number(w: Seq<u8>) -> Option<int> {
    if 0 < w.len() <= 9 && digits_end(w, 0) == w.len() {
        Some(digits_value(w) as int)
    } else {
        None
    }
}

/// The word is written plainly: a small number, `true` or `false`.
pub open spec fn plain_word(w: Seq<u8>) -> bool {
    small_number(w) is Some || w == "true".spec_bytes() || w == "false".spec_bytes()
}

/// The greater of two numbers.
pub open spec fn greater(a: int, b: int) -> int {
    if a < b {
        b
    } else {
        a
    }
}

/// The number that a value is, or 0.
pub open spec fn number_in(v: Shape) -> int {
    match v {
        Shape::Word(w) => match small_number(w) {
            Some(n) => n,
            None => 0,
        },
        Shape::Other => 0,
    }
}

/// The sketch with one more entry.
pub open spec fn sketched(k: Sketch, key: Seq<u8>, v: Shape) -> Sketch {
    if key == "W".spec_bytes() || key == "Width".spec_bytes() {
        Sketch { width: greater(k.width, number_in(v)), ..k }
    } else if key == "H".spec_bytes() || key == "Height".spec_bytes() {
        Sketch { height: greater(k.height, number_in(v)), ..k }
    } else if key == "BPC".spec_bytes() || key == "BitsPerComponent".spec_bytes() {
        Sketch { depth: greater(k.depth, number_in(v)), ..k }
    } else if key == "CS".spec_bytes() || key == "ColorSpace".spec_bytes() {
        Sketch { color: true, ..k }
    } else if key == "IM".spec_bytes() || key == "ImageMask".spec_bytes() {
        if v == Shape::Word("true".spec_bytes()) {
            Sketch { mask: true, ..k }
        } else {
            Sketch { no_mask: true, ..k }
        }
    } else {
        k
    }
}

/// The largest payload of an inline image that is handed on.
pub const MAX_INLINE: u64 = 0x7FFF_FFFF;

/// The image has a color space or is a mask, and its rows and payload have a
/// size.
pub open spec fn sketch_fits(k: Sketch) -> bool {
    &&& k.color || (k.mask && !k.no_mask)
    &&& k.width * (4 * k.depth) + 7 <= MAX_INLINE
    &&& k.height * ((k.width * (4 * k.depth) + 7) / 8) <= MAX_INLINE
}

/// The inline image whose entries go on at `i` is written plainly and fits.
pub open spec fn image_fits(s: Seq<u8>, i: int, k: Sketch) -> bool
    decreases s.len() - i,
{
    if i < 0 || i + 1 >= s.len() {
        false
    } else if s[i] == 0x49 && s[i + 1] == 0x44 {
        sketch_fits(k)
    } else if s[i] != 0x2F {
        false
    } else {
        let end = plain_end(s, i + 1);
        if end >= s.len() || !ends_word(s[end]) {
            false
        } else {
            match shape_at(s, gap_end(s, end)) {
                None => false,
                Some((v, e)) => {
                    let next = gap_end(s, e);
                    &&& v is Word ==> plain_word(v->Word_0)
                    &&& i < next <= s.len()
                    &&& image_fits(s, next, sketched(k, s.subrange(i + 1, end), v))
                },
            }
        }
    }
}

/// Nothing is known.
pub open spec fn blank_sketch() -> Sketch {
    Sketch { width: 0, height: 0, depth: 0, color: false, mask: false, no_mask: false }
}

/// White space between operations.
pub open spec fn is_content_gap(b: u8) -> bool {
    b == 0x20 || b == 0x09 || b == 0x0A || b == 0x0D
}

/// End of the white space between operations at `i`.
pub open spec fn content_gap_end(s: Seq<u8>, i: int) -> int
    decreases s.len() - i,
{
    if 0 <= i < s.len() && is_content_gap(s[i]) {
        content_gap_end(s, i + 1)
    } else {
        i
    }
}

/// Where `BI` stands at `p` with an entry behind it, that is an inline image
/// that fits.
pub open spec fn start_fits(s: Seq<u8>, p: int) -> bool {
    let q = content_gap_end(s, p + 2);
    s[p] == 0x42 && s[p + 1] == 0x49 && q < s.len() && s[q] == 0x2F ==> image_fits(
        s,
        q,
        blank_sketch(),
    )
}

/// Every inline image of the stream is written plainly and fits.
pub open spec fn parses_safely(s: Seq<u8>) -> bool {
    forall|p: int| 0 <= p && p + 2 <= s.len() ==> #[trigger] start_fits(s, p)
}

/// The operations of a content stream, where it can be handed to the parser.
pub open spec fn known_operations(s: Seq<u8>) -> Option<Seq<OperationValue>> {
    if parses_safely(s) {
        operations(s)
    } else {
        None
    }
}

/// The operations of a content stream that is read to its end, where it can
/// be handed to the parser.
pub open spec fn known_operations_strict(s: Seq<u8>) -> Option<Seq<OperationValue>> {
    if parses_safely(s) {
        operations_strict(s)
    } else {
        None
    }
}

fn word_byte(b: u8) -> (r: bool)
    ensures
        r == is_word_byte(b),
{
    digit(b) || (0x41 <= b && b <= 0x5A) || (0x61 <= b && b <= 0x7A)
}

fn gap(b: u8) -> (r: bool)
    ensures
        r == is_gap(b),
{
    b == 0x20 || b == 0x09 || b == 0x0A || b == 0x0D || b == 0 || b == 0x0C
}

fn word_ends(b: u8) -> (r: bool)
    ensures
        r == ends_word(b),
{
    gap(b) || b == 0x28 || b == 0x29 || b == 0x3C || b == 0x3E || b == 0x5B || b == 0x5D || b
        == 0x7B || b == 0x7D || b == 0x2F || b == 0x25
}

fn skip_plain(s: &[u8], i: usize) -> (r: usize)
    requires
        i <= s@.len(),
    ensures
        r == plain_end(s@, i as int),
        i <= r <= s@.len(),
{
    let mut k: usize = i;
    while k < s.len() && word_byte(s[k])
        invariant
            i <= k <= s@.len(),
            plain_end(s@, i as int) == plain_end(s@, k as int),
        decreases s@.len() - k,
    {
        k += 1;
    }
    k
}

fn skip_gap(s: &[u8], i: usize) -> (r: usize)
    requires
        i <= s@.len(),
    ensures
        r == gap_end(s@, i as int),
        i <= r <= s@.len(),
{
    let mut k: usize = i;
    while k < s.len() && gap(s[k])
        invariant
            i <= k <= s@.len(),
            gap_end(s@, i as int) == gap_end(s@, k as int),
        decreases s@.len() - k,
    {
        k += 1;
    }
    k
}

fn skip_inner(s: &[u8], i: usize) -> (r: usize)
    requires
        i <= s@.len(),
    ensures
        r == inner_end(s@, i as int),
        i <= r <= s@.len(),
{
    let mut k: usize = i;
    while k < s.len() && (word_byte(s[k]) || gap(s[k]) || s[k] == 0x2F || s[k] == 0x2D || s[k]
        == 0x2E || s[k] == 0x2B)
        invariant
            i <= k <= s@.len(),
            inner_end(s@, i as int) == inner_end(s@, k as int),
        decreases s@.len() - k,
    {
        k += 1;
    }
    k
}

/// Skips the string at `i`.
fn skip_string(s: &[u8], i: usize) -> (r: usize)
    requires
        i <= s@.len(),
    ensures
        r == string_end(s@, i as int),
        i <= r <= s@.len(),
{
    if i >= s.len() {
        return i;
    }
    let mut k: usize = i + 1;
    if s[i] == 0x3C {
        while k < s.len() && (digit(s[k]) || (0x41 <= s[k] && s[k] <= 0x46) || (0x61 <= s[k] && s[k]
            <= 0x66) || gap(s[k]))
            invariant
                i < k <= s@.len(),
                hex_end(s@, i + 1) == hex_end(s@, k as int),
            decreases s@.len() - k,
        {
            k += 1;
        }
        if k < s.len() && s[k] == 0x3E {
            return k + 1;
        }
    } else if s[i] == 0x28 {
        while k < s.len() && s[k] != 0x28 && s[k] != 0x29 && s[k] != 0x5C
            invariant
                i < k <= s@.len(),
                text_end(s@, i + 1) == text_end(s@, k as int),
            decreases s@.len() - k,
        {
            k += 1;
        }
        if k < s.len() && s[k] == 0x29 {
            return k + 1;
        }
    }
    i
}

/// Skips the plain bytes and strings of an array.
fn skip_array(s: &[u8], i: usize) -> (r: usize)
    requires
        i <= s@.len(),
    ensures
        r == array_end(s@, i as int),
        i <= r <= s@.len(),
{
    let mut k: usize = i;
    while k < s.len()
        invariant
            i <= k <= s@.len(),
            array_end(s@, i as int) == array_end(s@, k as int),
        decreases s@.len() - k,
    {
        if word_byte(s[k]) || gap(s[k]) || s[k] == 0x2F || s[k] == 0x2D || s[k] == 0x2E || s[k]
            == 0x2B {
            k += 1;
        } else {
            let next: usize = skip_string(s, k);
            if next == k {
                return k;
            }
            k = next;
        }
    }
    k
}

fn skip_content_gap(s: &[u8], i: usize) -> (r: usize)
    requires
        i <= s@.len(),
    ensures
        r == content_gap_end(s@, i as int),
        i <= r <= s@.len(),
{
    let mut k: usize = i;
    while k < s.len() && (s[k] == 0x20 || s[k] == 0x09 || s[k] == 0x0A || s[k] == 0x0D)
        invariant
            i <= k <= s@.len(),
            content_gap_end(s@, i as int) == content_gap_end(s@, k as int),
        decreases s@.len() - k,
    {
        k += 1;
    }
    k
}

/// Finds the value at `i`: whether it is a word, and where it ends.
fn find_shape(s: &[u8], i: usize) -> (r: Option<(bool, usize)>)
    requires
        i <= s@.len(),
    ensures
        match r {
            Some((word, end)) => {
                &&& i < end <= s@.len()
                &&& shape_at(s@, i as int) == Some(
                    (if word {
                        Shape::Word(s@.subrange(i as int, end as int))
                    } else {
                        Shape::Other
                    }, end as int),
                )
            },
            None => shape_at(s@, i as int) is None,
        },
{
    if i >= s.len() {
        return None;
    }
    if s[i] == 0x2F {
        let end: usize = skip_plain(s, i + 1);
        if end < s.len() && word_ends(s[end]) {
            return Some((false, end));
        }
        return None;
    }
    if word_byte(s[i]) {
        let end: usize = skip_plain(s, i);
        if end < s.len() && word_ends(s[end]) {
            proof {
                assert(end > i) by {
                    reveal_with_fuel(plain_end, 2);
                }
            }
            return Some((true, end));
        }
        return None;
    }
    if s[i] == 0x5B {
        let end: usize = skip_array(s, i + 1);
        if end < s.len() && s[end] == 0x5D {
            return Some((false, end + 1));
        }
        return None;
    }
    if s[i] == 0x3C && s.len() - i > 1 && s[i + 1] == 0x3C {
        let end: usize = skip_inner(s, i + 2);
        if s.len() - end > 1 && s[end] == 0x3E && s[end + 1] == 0x3E {
            return Some((false, end + 2));
        }
        return None;
    }
    None
}

/// The number that a word is, up to nine digits.
fn read_small(w: &[u8]) -> (r: Option<u64>)
    ensures
        match r {
            Some(n) => small_number(w@) == Some(n as int) && n <= 0xFFFF_FFFF,
            None => small_number(w@) is None,
        },
{
    let n: usize = w.len();
    if n == 0 || n > 9 {
        return None;
    }
    let end: usize = end_of_digits(w, 0);
    if end != n {
        return None;
    }
    proof {
        assert(w@.subrange(0, n as int) =~= w@);
        lemma_nine_digits(w@);
    }
    parse_digits(w, 0, n, 0xFFFF_FFFF)
}

proof fn lemma_nine_digits(w: Seq<u8>)
    requires
        w.len() <= 9,
        forall|i: int| 0 <= i < w.len() ==> is_digit(#[trigger] w[i]),
    ensures
        digits_value(w) <= 999_999_999,
{
    reveal_with_fuel(digits_value, 10);
    lemma_digits_bound(w, 9);
}

proof fn lemma_digits_bound(w: Seq<u8>, n: int)
    requires
        w.len() <= n <= 9,
        forall|i: int| 0 <= i < w.len() ==> is_digit(#[trigger] w[i]),
    ensures
        digits_value(w) < power_bound(n),
    decreases n,
{
    if w.len() > 0 {
        let init = w.drop_last();
        assert forall|i: int| 0 <= i < init.len() implies is_digit(#[trigger] init[i]) by {
            assert(init[i] == w[i]);
        }
        assert(is_digit(w[w.len() - 1]));
        lemma_digits_bound(init, n - 1);
    } else {
        lemma_power_positive(n);
    }
}

spec fn power_bound(n: int) -> nat
    decreases n,
{
    if n <= 0 {
        1
    } else {
        10 * power_bound(n - 1)
    }
}

proof fn lemma_power_positive(n: int)
    ensures
        power_bound(n) >= 1,
    decreases n,
{
    if n > 0 {
        lemma_power_positive(n - 1);
    }
}

/// What is known of an inline image.
struct Outline {
    width: u64,
    height: u64,
    depth: u64,
    color: bool,
    mask: bool,
    no_mask: bool,
}

impl View for Outline {
    type V = Sketch;

    closed spec fn view(&self) -> Sketch {
        Sketch {
            width: self.width as int,
            height: self.height as int,
            depth: self.depth as int,
            color: self.color,
            mask: self.mask,
            no_mask: self.no_mask,
        }
    }
}

impl Outline {
    /// Every number is small.
    closed spec fn small(&self) -> bool {
        self.width <= 0xFFFF_FFFF && self.height <= 0xFFFF_FFFF && self.depth <= 0xFFFF_FFFF
    }
}

fn is_key(key: &[u8], text: &'static str) -> (r: bool)
    ensures
        r == (key@ == text.spec_bytes()),
{
    same_bytes(key, text.as_bytes())
}

fn max_of(a: u64, b: u64) -> (r: u64)
    ensures
        r == greater(a as int, b as int),
        r == a || r == b,
{
    if a < b {
        b
    } else {
        a
    }
}

/// Notes one more entry. `None` where a word is not written plainly.
fn note_entry(k: Outline, key: &[u8], word: bool, value: &[u8]) -> (r: Option<Outline>)
    requires
        k.small(),
    ensures
        ({
            let v = if word {
                Shape::Word(value@)
            } else {
                Shape::Other
            };
            match r {
                Some(n) => (word ==> plain_word(value@)) && n@ == sketched(k@, key@, v)
                    && n.small(),
                None => word && !plain_word(value@),
            }
        }),
{
    let number: Option<u64> = if word {
        read_small(value)
    } else {
        None
    };
    let truth = word && is_key(value, "true");
    if word && number.is_none() && !truth && !is_key(value, "false") {
        return None;
    }
    let n: u64 = match number {
        Some(n) => n,
        None => 0,
    };
    let mut out = k;
    if is_key(key, "W") || is_key(key, "Width") {
        out.width = max_of(out.width, n);
    } else if is_key(key, "H") || is_key(key, "Height") {
        out.height = max_of(out.height, n);
    } else if is_key(key, "BPC") || is_key(key, "BitsPerComponent") {
        out.depth = max_of(out.depth, n);
    } else if is_key(key, "CS") || is_key(key, "ColorSpace") {
        out.color = true;
    } else if is_key(key, "IM") || is_key(key, "ImageMask") {
        if truth {
            out.mask = true;
        } else {
            out.no_mask = true;
        }
    }
    Some(out)
}

/// Whether an image has a color space or is a mask, and fits.
fn outline_fits(k: &Outline) -> (r: bool)
    requires
        k.small(),
    ensures
        r == sketch_fits(k@),
{
    if !(k.color || (k.mask && !k.no_mask)) {
        return false;
    }
    proof {
        let d = 4 * k.depth;
        assert(k.width * d <= 0xFFFF_FFFF * 0x3_FFFF_FFFC) by (nonlinear_arith)
            requires
                0 <= k.width <= 0xFFFF_FFFF,
                0 <= d <= 0x3_FFFF_FFFC,
        ;
    }
    let bits: u128 = k.width as u128 * (4 * k.depth as u128) + 7;
    if bits > MAX_INLINE as u128 {
        return false;
    }
    let stride: u128 = bits / 8;
    proof {
        assert(k.height * stride <= 0xFFFF_FFFF * 0x7FFF_FFFF) by (nonlinear_arith)
            requires
                0 <= k.height <= 0xFFFF_FFFF,
                0 <= stride <= 0x7FFF_FFFF,
        ;
    }
    k.height as u128 * stride <= MAX_INLINE as u128
}

/// Whether the inline image whose entries start at `from` fits.
fn check_image(s: &[u8], from: usize) -> (r: bool)
    requires
        from <= s@.len(),
    ensures
        r == image_fits(s@, from as int, blank_sketch()),
{
    let mut k = Outline {
        width: 0,
        height: 0,
        depth: 0,
        color: false,
        mask: false,
        no_mask: false,
    };
    let mut i: usize = from;
    loop
        invariant
            i <= s@.len(),
            from <= s@.len(),
            k.small(),
            image_fits(s@, from as int, blank_sketch()) == image_fits(s@, i as int, k@),
        decreases s@.len() - i,
    {
        if s.len() - i < 2 {
            return false;
        }
        if s[i] == 0x49 && s[i + 1] == 0x44 {
            return outline_fits(&k);
        }
        if s[i] != 0x2F {
            return false;
        }
        let end: usize = skip_plain(s, i + 1);
        if end >= s.len() || !word_ends(s[end]) {
            return false;
        }
        let at: usize = skip_gap(s, end);
        match find_shape(s, at) {
            None => {
                return false;
            },
            Some((word, e)) => {
                let next: usize = skip_gap(s, e);
                let key = vstd::slice::slice_subrange(s, i + 1, end);
                let value = vstd::slice::slice_subrange(s, at, e);
                match note_entry(k, key, word, value) {
                    None => {
                        return false;
                    },
                    Some(n) => {
                        k = n;
                    },
                }
                i = next;
            },
        }
    }
}

/// Whether a content stream can be handed to the parser.
pub fn can_parse(s: &[u8]) -> (r: bool)
    ensures
        r == parses_safely(s@),
{
    let mut p: usize = 0;
    while p < s.len() && s.len() - p >= 2
        invariant
            p <= s@.len(),
            forall|k: int| 0 <= k < p && k + 2 <= s@.len() ==> #[trigger] start_fits(s@, k),
        decreases s@.len() - p,
    {
        if s[p] == 0x42 && s[p + 1] == 0x49 {
            let q: usize = skip_content_gap(s, p + 2);
            if q < s.len() && s[q] == 0x2F && !check_image(s, q) {
                proof {
                    assert(!start_fits(s@, p as int));
                }
                return false;
            }
        }
        proof {
            assert(start_fits(s@, p as int));
        }
        p += 1;
    }
    true
}

/// Reads the operations of a content stream, where it can be handed to the
/// parser.
pub fn read_operations(s: &[u8]) -> (r: Option<Vec<ContentOp>>)
    ensures
        match r {
            Some(ops) => known_operations(s@) == Some(operation_views(ops@)),
            None => known_operations(s@) is None,
        },
{
    if can_parse(s) {
        decode_operations(s)
    } else {
        None
    }
}

/// Reads the operations of a content stream to its end, where it can be handed
/// to the parser.
pub fn read_operations_strict(s: &[u8]) -> (r: Option<Vec<ContentOp>>)
    ensures
        match r {
            Some(ops) => known_operations_strict(s@) == Some(operation_views(ops@)),
            None => known_operations_strict(s@) is None,
        },
{
    if can_parse(s) {
        decode_operations_strict(s)
    } else {
        None
    }
}

} // verus!
