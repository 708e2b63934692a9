//! The encryption of Type 1 fonts, and the containers that hold them.

use crate::bytes::{get_range, to_vec};
use crate::text::{blank, blanks_end, find_from, find_sub, is_blank, skip_blanks};
use vstd::prelude::*;
use vstd::string::StringSliceAdditionalSpecFns;

verus! {

/// Key of the encrypted part of a font.
pub const EEXEC_KEY: u16 = 55665;

/// Key of an outline program.
pub const CHARSTRING_KEY: u16 = 4330;

/// The key after the encrypted byte `c`.
pub open spec fn next_key(key: u16, c: u8) -> u16 {
    (((c + key) % 0x1_0000 * 52845 % 0x1_0000 + 22719) % 0x1_0000) as u16
}

/// The key at byte `i`.
pub open spec fn key_at(data: Seq<u8>, key: u16, i: int) -> u16
    decreases i,
{
    if i <= 0 {
        key
    } else {
        next_key(key_at(data, key, i - 1), data[i - 1])
    }
}

/// Byte `i` in the clear.
pub open spec fn clear_byte(data: Seq<u8>, key: u16, i: int) -> u8 {
    data[i] ^ ((key_at(data, key, i) >> 8) as u8)
}

/// The data in the clear, without its first `skip` bytes.
pub open spec fn decrypted(data: Seq<u8>, key: u16, skip: int) -> Option<Seq<u8>> {
    if data.len() < skip {
        None
    } else {
        Some(Seq::new((data.len() - skip) as nat, |i: int| clear_byte(data, key, i + skip)))
    }
}

/// The key after the encrypted byte `c`.
fn advance(key: u16, c: u8) -> (r: u16)
    ensures
        r == next_key(key, c),
{
    let sum: u32 = (c as u32 + key as u32) % 0x1_0000;
    let product: u32 = sum * 52845 % 0x1_0000;
    ((product + 22719) % 0x1_0000) as u16
}

/// Decrypts, and drops the first `skip` bytes: four of the encrypted part of
/// a font, as many of an outline program as the font says.
pub fn decrypt(data: &[u8], key: u16, skip: usize) -> (r: Option<Vec<u8>>)
    ensures
        match r {
            Some(plain) => decrypted(data@, key, skip as int) == Some(plain@),
            None => decrypted(data@, key, skip as int) is None,
        },
{
    if data.len() < skip {
        return None;
    }
    let mut k: u16 = key;
    let mut out: Vec<u8> = Vec::new();
    let mut i: usize = 0;
    while i < data.len()
        invariant
            i <= data@.len(),
            skip <= data@.len(),
            k == key_at(data@, key, i as int),
            out@.len() == if i < skip {
                0
            } else {
                i - skip
            },
            forall|j: int|
                0 <= j < out@.len() ==> #[trigger] out@[j] == clear_byte(data@, key, j + skip),
        decreases data@.len() - i,
    {
        let c: u8 = data[i];
        #[verifier::truncate]
        let high: u8 = (k >> 8) as u8;
        if i >= skip {
            out.push(c ^ high);
        }
        k = advance(k, c);
        i += 1;
    }
    proof {
        assert(out@ =~= decrypted(data@, key, skip as int)->0);
    }
    Some(out)
}

/// Bytes encrypted so that [`decrypted`] gives them back.
pub open spec fn encrypted(plain: Seq<u8>, key: u16) -> Seq<u8>
    decreases plain.len(),
{
    if plain.len() == 0 {
        Seq::empty()
    } else {
        let front = encrypted(plain.drop_last(), key);
        front.push(plain.last() ^ ((key_at(front, key, front.len() as int) >> 8) as u8))
    }
}

proof fn lemma_key_prefix(a: Seq<u8>, b: Seq<u8>, key: u16, i: int)
    requires
        0 <= i <= a.len(),
        i <= b.len(),
        forall|k: int| 0 <= k < i ==> a[k] == b[k],
    ensures
        key_at(a, key, i) == key_at(b, key, i),
    decreases i,
{
    if i > 0 {
        lemma_key_prefix(a, b, key, i - 1);
    }
}

/// Decrypting gives back what was encrypted, less the bytes that are dropped.
pub proof fn decrypting_undoes_encrypting(plain: Seq<u8>, key: u16, skip: int)
    requires
        0 <= skip <= plain.len(),
    ensures
        encrypted(plain, key).len() == plain.len(),
        decrypted(encrypted(plain, key), key, skip) == Some(plain.skip(skip)),
    decreases plain.len(),
{
    lemma_clear_bytes(plain, key);
    assert(decrypted(encrypted(plain, key), key, skip)->0 =~= plain.skip(skip));
}

proof fn lemma_clear_bytes(plain: Seq<u8>, key: u16)
    ensures
        encrypted(plain, key).len() == plain.len(),
        forall|i: int|
            0 <= i < plain.len() ==> #[trigger] clear_byte(encrypted(plain, key), key, i)
                == plain[i],
    decreases plain.len(),
{
    if plain.len() > 0 {
        let front = encrypted(plain.drop_last(), key);
        let whole = encrypted(plain, key);
        lemma_clear_bytes(plain.drop_last(), key);
        assert forall|i: int| 0 <= i < plain.len() implies #[trigger] clear_byte(whole, key, i)
            == plain[i] by {
            lemma_key_prefix(front, whole, key, i);
            if i < front.len() {
                assert(clear_byte(front, key, i) == plain.drop_last()[i]);
            } else {
                let p = plain.last();
                let k = (key_at(front, key, i) >> 8) as u8;
                assert((p ^ k) ^ k == p) by (bit_vector);
            }
        }
    }
}

// --- containers ----------------------------------------------------------------------------

/// The little-endian 32-bit field at `i`.
pub open spec fn le32_at(s: Seq<u8>, i: int) -> int {
    s[i] + s[i + 1] * 0x100 + s[i + 2] * 0x1_0000 + s[i + 3] * 0x100_0000
}

/// The joined segments of a segmented font from `pos` on. A segment is
/// marked 80, its kind is 1 or 2, and its length follows; kind 3 ends the
/// font.
pub open spec fn segments_from(data: Seq<u8>, pos: int) -> Option<Seq<u8>>
    decreases data.len() - pos,
{
    if pos < 0 || pos + 2 > data.len() || data[pos] != 0x80 || data[pos + 1] == 3 {
        Some(Seq::empty())
    } else if data[pos + 1] != 1 && data[pos + 1] != 2 {
        None
    } else if pos + 6 > data.len() || pos + 6 + le32_at(data, pos + 2) > data.len() {
        None
    } else {
        let end = pos + 6 + le32_at(data, pos + 2);
        match segments_from(data, end) {
            Some(rest) => Some(data.subrange(pos + 6, end) + rest),
            None => None,
        }
    }
}

/// The font as one run of bytes.
pub open spec fn linear(data: Seq<u8>) -> Option<Seq<u8>> {
    if data.len() > 0 && data[0] == 0x80 {
        segments_from(data, 0)
    } else {
        Some(data)
    }
}

/// The value of a hexadecimal digit.
pub open spec fn hex_value(b: u8) -> Option<u8> {
    if 0x30 <= b <= 0x39 {
        Some((b - 0x30) as u8)
    } else if 0x61 <= b <= 0x66 {
        Some((b - 0x61 + 10) as u8)
    } else if 0x41 <= b <= 0x46 {
        Some((b - 0x41 + 10) as u8)
    } else {
        None
    }
}

/// The bytes that hexadecimal digits from `i` on spell, after the digit
/// `pending`. White space is skipped, and anything else ends the digits.
pub open spec fn hex_from(s: Seq<u8>, i: int, pending: Option<u8>) -> Seq<u8>
    decreases s.len() - i,
{
    if i < 0 || i >= s.len() {
        Seq::empty()
    } else {
        match hex_value(s[i]) {
            Some(v) => match pending {
                None => hex_from(s, i + 1, Some(v)),
                Some(hi) => seq![(hi << 4) | v] + hex_from(s, i + 1, None),
            },
            None => if is_blank(s[i]) {
                hex_from(s, i + 1, pending)
            } else {
                Seq::empty()
            },
        }
    }
}

/// The encrypted part is written in hexadecimal: a binary one never starts
/// with four such digits.
pub open spec fn is_hex(s: Seq<u8>) -> bool {
    forall|i: int| 0 <= i < 4 ==> hex_value(#[trigger] s[i]) is Some
}

/// The encrypted part in binary.
pub open spec fn as_binary(s: Seq<u8>) -> Seq<u8> {
    if is_hex(s) {
        hex_from(s, 0, None)
    } else {
        s
    }
}

/// The clear part of a font and its decrypted part. The clear part ends at
/// the word `eexec`; white space follows, and then at least eight bytes.
pub open spec fn font_parts(data: Seq<u8>) -> Option<(Seq<u8>, Seq<u8>)> {
    match linear(data) {
        None => None,
        Some(s) => match find_from(s, "eexec".spec_bytes(), 0) {
            None => None,
            Some(at) => {
                let body = s.skip(blanks_end(s, at + 5));
                if body.len() < 8 {
                    None
                } else {
                    match decrypted(as_binary(body), EEXEC_KEY, 4) {
                        None => None,
                        Some(plain) => Some((s.take(at), plain)),
                    }
                }
            },
        },
    }
}

/// First place where `needle` stands in `haystack`.
pub fn find(haystack: &[u8], needle: &[u8]) -> (r: Option<usize>)
    requires
        needle@.len() > 0,
    ensures
        match r {
            Some(at) => find_from(haystack@, needle@, 0) == Some(at as int) && at + needle@.len()
                <= haystack@.len(),
            None => find_from(haystack@, needle@, 0) is None,
        },
{
    find_sub(haystack, needle, 0)
}

/// The value of a hexadecimal digit.
fn read_hex(b: u8) -> (r: Option<u8>)
    ensures
        r == hex_value(b),
{
    if 0x30 <= b && b <= 0x39 {
        Some(b - 0x30)
    } else if 0x61 <= b && b <= 0x66 {
        Some(b - 0x61 + 10)
    } else if 0x41 <= b && b <= 0x46 {
        Some(b - 0x41 + 10)
    } else {
        None
    }
}

/// The bytes that hexadecimal digits spell.
fn decode_hex(data: &[u8]) -> (r: Vec<u8>)
    ensures
        r@ == hex_from(data@, 0, None),
{
    let mut out: Vec<u8> = Vec::new();
    let mut pending: Option<u8> = None;
    let mut i: usize = 0;
    while i < data.len()
        invariant
            i <= data@.len(),
            out@ + hex_from(data@, i as int, pending) == hex_from(data@, 0, None),
        decreases data@.len() - i,
    {
        let ghost rest = hex_from(data@, i as int, pending);
        let ghost before = out@;
        match read_hex(data[i]) {
            Some(v) => match pending {
                None => {
                    pending = Some(v);
                },
                Some(hi) => {
                    out.push((hi << 4) | v);
                    pending = None;
                    proof {
                        assert(before + rest =~= out@ + hex_from(data@, i + 1, None));
                    }
                },
            },
            None => if !blank(data[i]) {
                proof {
                    assert(out@ + rest =~= out@);
                }
                return out;
            },
        }
        i += 1;
    }
    proof {
        assert(out@ + hex_from(data@, i as int, pending) =~= out@);
    }
    out
}

/// Joins the segments of a segmented font.
fn join_segments(data: &[u8]) -> (r: Option<Vec<u8>>)
    ensures
        match r {
            Some(s) => segments_from(data@, 0) == Some(s@),
            None => segments_from(data@, 0) is None,
        },
{
    let mut out: Vec<u8> = Vec::new();
    let mut pos: usize = 0;
    while data.len() - pos >= 2 && data[pos] == 0x80
        invariant
            pos <= data@.len(),
            match segments_from(data@, pos as int) {
                Some(rest) => segments_from(data@, 0) == Some(out@ + rest),
                None => segments_from(data@, 0) is None,
            },
        decreases data@.len() - pos,
    {
        let kind: u8 = data[pos + 1];
        if kind == 3 {
            proof {
                assert(out@ + Seq::<u8>::empty() =~= out@);
            }
            return Some(out);
        }
        if kind != 1 && kind != 2 {
            return None;
        }
        if data.len() - pos < 6 {
            return None;
        }
        let len: u64 = data[pos + 2] as u64 + data[pos + 3] as u64 * 0x100 + data[pos + 4] as u64
            * 0x1_0000 + data[pos + 5] as u64 * 0x100_0000;
        if len > (data.len() - pos - 6) as u64 {
            return None;
        }
        let end: usize = pos + 6 + len as usize;
        let ghost before = out@;
        match get_range(data, pos + 6, end) {
            Some(part) => {
                let mut part = to_vec(part);
                out.append(&mut part);
            },
            None => {
                return None;
            },
        }
        proof {
            match segments_from(data@, end as int) {
                Some(rest) => {
                    assert(before + (data@.subrange(pos + 6, end as int) + rest) =~= out@ + rest);
                },
                None => {},
            }
        }
        pos = end;
    }
    proof {
        assert(out@ + Seq::<u8>::empty() =~= out@);
    }
    Some(out)
}

/// Whether the encrypted part is written in hexadecimal.
fn check_hex(s: &[u8]) -> (r: bool)
    requires
        s@.len() >= 4,
    ensures
        r == is_hex(s@),
{
    let r = read_hex(s[0]).is_some() && read_hex(s[1]).is_some() && read_hex(s[2]).is_some()
        && read_hex(s[3]).is_some();
    proof {
        if r {
            assert forall|i: int| 0 <= i < 4 implies hex_value(#[trigger] s@[i]) is Some by {
                assert(i == 0 || i == 1 || i == 2 || i == 3);
            }
        } else {
            assert(!(hex_value(s@[0]) is Some && hex_value(s@[1]) is Some && hex_value(s@[2])
                is Some && hex_value(s@[3]) is Some));
        }
    }
    r
}

/// Parts a font into its clear part and its decrypted part.
pub fn split_and_decrypt(data: &[u8]) -> (r: Option<(Vec<u8>, Vec<u8>)>)
    ensures
        match r {
            Some(parts) => font_parts(data@) == Some((parts.0@, parts.1@)),
            None => font_parts(data@) is None,
        },
{
    let line = if data.len() > 0 && data[0] == 0x80 {
        join_segments(data)?
    } else {
        to_vec(data)
    };
    let s = line.as_slice();
    proof {
        reveal_strlit("eexec");
        assert("eexec".is_ascii());
    }
    let mark = "eexec".as_bytes();
    proof {
        assert(mark@.len() == 5);
    }
    let total: usize = s.len();
    let at: usize = find(s, mark)?;
    let start: usize = skip_blanks(s, at + 5);
    let body = get_range(s, start, total)?;
    proof {
        assert(body@ =~= s@.skip(start as int));
    }
    if body.len() < 8 {
        return None;
    }
    let binary = if check_hex(body) {
        decode_hex(body)
    } else {
        to_vec(body)
    };
    let plain = decrypt(binary.as_slice(), EEXEC_KEY, 4)?;
    let clear = get_range(s, 0, at)?;
    proof {
        assert(clear@ =~= s@.take(at as int));
    }
    Some((to_vec(clear), plain))
}

// --- one font in several containers ----------------------------------------------------------

/// The four bytes of a length, least significant first.
pub open spec fn le32_bytes(v: int) -> Seq<u8> {
    seq![
        (v % 0x100) as u8,
        (v / 0x100 % 0x100) as u8,
        (v / 0x1_0000 % 0x100) as u8,
        (v / 0x100_0000) as u8,
    ]
}

/// The parts of a font as segments, each with its kind.
pub open spec fn segmented(parts: Seq<(u8, Seq<u8>)>) -> Seq<u8>
    decreases parts.len(),
{
    if parts.len() == 0 {
        seq![0x80u8, 3]
    } else {
        seq![0x80u8, parts[0].0] + le32_bytes(parts[0].1.len() as int) + parts[0].1 + segmented(
            parts.skip(1),
        )
    }
}

/// The parts of a font as one run of bytes.
pub open spec fn joined(parts: Seq<(u8, Seq<u8>)>) -> Seq<u8>
    decreases parts.len(),
{
    if parts.len() == 0 {
        Seq::empty()
    } else {
        parts[0].1 + joined(parts.skip(1))
    }
}

/// Each part is text or binary, and its length fits its field.
pub open spec fn parts_ok(parts: Seq<(u8, Seq<u8>)>) -> bool {
    forall|i: int|
        0 <= i < parts.len() ==> ((#[trigger] parts[i]).0 == 1 || parts[i].0 == 2)
            && parts[i].1.len() <= 0xFFFF_FFFF
}

proof fn lemma_segments(before: Seq<u8>, parts: Seq<(u8, Seq<u8>)>)
    requires
        parts_ok(parts),
    ensures
        segments_from(before + segmented(parts), before.len() as int) == Some(joined(parts)),
    decreases parts.len(),
{
    let data = before + segmented(parts);
    let pos = before.len() as int;
    if parts.len() > 0 {
        let body = parts[0].1;
        let rest = parts.skip(1);
        let field = le32_bytes(body.len() as int);
        let head = seq![0x80u8, parts[0].0] + field;
        let front = before + head + body;
        assert forall|i: int| 0 <= i < rest.len() implies ((#[trigger] rest[i]).0 == 1
            || rest[i].0 == 2) && rest[i].1.len() <= 0xFFFF_FFFF by {
            assert(rest[i] == parts[i + 1]);
        }
        lemma_segments(front, rest);
        assert(data =~= front + segmented(rest));
        assert(data[pos] == head[0] && data[pos + 1] == head[1]);
        assert(data[pos + 2] == field[0] && data[pos + 3] == field[1] && data[pos + 4] == field[2]
            && data[pos + 5] == field[3]);
        assert(le32_at(data, pos + 2) == body.len());
        assert(data.subrange(pos + 6, pos + 6 + body.len()) =~= body);
    } else {
        assert(data[pos] == 0x80 && data[pos + 1] == 3);
    }
}

/// A font in segments is the font in one run: its parts come out the same. A
/// run that looks like a segment itself is left out.
pub proof fn segments_hold_the_same_font(parts: Seq<(u8, Seq<u8>)>)
    requires
        parts_ok(parts),
        joined(parts).len() > 0 ==> joined(parts)[0] != 0x80,
    ensures
        font_parts(segmented(parts)) == font_parts(joined(parts)),
{
    lemma_segments(Seq::empty(), parts);
    assert(Seq::<u8>::empty() + segmented(parts) =~= segmented(parts));
    if parts.len() > 0 {
        assert(segmented(parts)[0] == 0x80);
    }
}

/// A hexadecimal digit.
pub open spec fn hex_digit(v: int) -> u8 {
    if v < 10 {
        (0x30 + v) as u8
    } else {
        (0x61 + v - 10) as u8
    }
}

/// Bytes written in hexadecimal.
pub open spec fn hex_text(data: Seq<u8>) -> Seq<u8> {
    Seq::new(
        2 * data.len(),
        |i: int|
            if i % 2 == 0 {
                hex_digit(data[i / 2] as int / 16)
            } else {
                hex_digit(data[i / 2] as int % 16)
            },
    )
}

proof fn lemma_nibbles(b: u8)
    ensures
        (((b / 16) as u8) << 4) | ((b % 16) as u8) == b,
{
    assert(((b / 16) << 4) | (b % 16) == b) by (bit_vector);
}

proof fn lemma_hex_text(data: Seq<u8>, i: int)
    requires
        0 <= i <= data.len(),
    ensures
        hex_from(hex_text(data), 2 * i, None) == data.skip(i),
    decreases data.len() - i,
{
    let t = hex_text(data);
    if i < data.len() {
        lemma_hex_text(data, i + 1);
        let b = data[i];
        assert(t[2 * i] == hex_digit(b as int / 16));
        assert(t[2 * i + 1] == hex_digit(b as int % 16));
        assert(hex_value(t[2 * i]) == Some((b / 16) as u8));
        assert(hex_value(t[2 * i + 1]) == Some((b % 16) as u8));
        lemma_nibbles(b);
        let v = (b / 16) as u8;
        assert(hex_from(t, 2 * i, None) == hex_from(t, 2 * i + 1, Some(v)));
        assert(hex_from(t, 2 * i + 1, Some(v)) == seq![(v << 4) | ((b % 16) as u8)] + hex_from(
            t,
            2 * i + 2,
            None,
        ));
        assert(data.skip(i) =~= seq![b] + data.skip(i + 1));
    } else {
        assert(data.skip(i) =~= Seq::empty());
    }
}

proof fn lemma_found_in_front(front: Seq<u8>, tail: Seq<u8>, needle: Seq<u8>, i: int)
    requires
        0 <= i,
        find_from(front, needle, i) is Some,
    ensures
        find_from(front + tail, needle, i) == find_from(front, needle, i),
    decreases front.len() - i + 1,
{
    let s = front + tail;
    assert(s.subrange(i, i + needle.len()) =~= front.subrange(i, i + needle.len()));
    if !crate::text::occurs_at(front, needle, i) {
        lemma_found_in_front(front, tail, needle, i + 1);
    }
}

/// The parts of a font in one run, of which the clear part and the encrypted
/// one are given.
proof fn lemma_font_parts(clear: Seq<u8>, body: Seq<u8>)
    requires
        find_from(clear + "eexec".spec_bytes(), "eexec".spec_bytes(), 0) == Some(
            clear.len() as int,
        ),
        clear.len() > 0 ==> clear[0] != 0x80,
        body.len() >= 8,
        !is_blank(body[0]),
    ensures
        font_parts(clear + "eexec".spec_bytes() + seq![0x0Au8] + body) == match decrypted(
            as_binary(body),
            EEXEC_KEY,
            4,
        ) {
            None => None,
            Some(plain) => Some((clear, plain)),
        },
{
    reveal_strlit("eexec");
    assert("eexec".is_ascii());
    let mark = "eexec".spec_bytes();
    assert(mark.len() == 5);
    assert(mark[0] == 0x65);
    let front = clear + mark;
    let tail = seq![0x0Au8] + body;
    let s = clear + mark + seq![0x0Au8] + body;
    assert(s =~= front + tail);
    lemma_found_in_front(front, tail, mark, 0);
    let n = clear.len() as int;
    assert(s[n + 5] == 0x0A);
    assert(s[n + 6] == body[0]);
    assert(blanks_end(s, n + 6) == n + 6);
    assert(blanks_end(s, n + 5) == n + 6);
    assert(s.skip(n + 6) =~= body);
    assert(s.take(n) =~= clear);
    assert(s[0] != 0x80);
}

/// An encrypted part in hexadecimal is the same as in binary. A binary part
/// starts with no white space, and not with four hexadecimal digits.
pub proof fn hexadecimal_holds_the_same_font(clear: Seq<u8>, body: Seq<u8>)
    requires
        find_from(clear + "eexec".spec_bytes(), "eexec".spec_bytes(), 0) == Some(
            clear.len() as int,
        ),
        clear.len() > 0 ==> clear[0] != 0x80,
        body.len() >= 8,
        !is_blank(body[0]),
        !is_hex(body),
    ensures
        font_parts(clear + "eexec".spec_bytes() + seq![0x0Au8] + hex_text(body)) == font_parts(
            clear + "eexec".spec_bytes() + seq![0x0Au8] + body,
        ),
{
    let t = hex_text(body);
    lemma_hex_text(body, 0);
    assert(body.skip(0) =~= body);
    assert forall|i: int| 0 <= i < 4 implies hex_value(#[trigger] t[i]) is Some by {
        let b = body[i / 2];
        assert(b as int / 16 < 16);
    }
    assert(is_hex(t));
    assert(!is_blank(t[0]));
    lemma_font_parts(clear, body);
    lemma_font_parts(clear, t);
}

} // verus!
