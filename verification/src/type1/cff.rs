//! Putting a font in the compact font format together.

use crate::bytes::{be16_bytes, be32_bytes, push_be16, push_be32, to_vec};
use crate::text::views;
use crate::type1::emit::{cat, push_int32, push_short, short_int};
use crate::type1::number::Number;
use crate::type1::parse::{HintsValue, PrivateHints};
use vstd::prelude::*;
use vstd::string::StringSliceAdditionalSpecFns;

verus! {

// --- lists of byte strings -----------------------------------------------------------------------

/// The length of the first `n` items.
pub open spec fn total_len(items: Seq<Seq<u8>>, n: int) -> nat
    decreases n,
{
    if n <= 0 {
        0
    } else {
        total_len(items, n - 1) + items[n - 1].len()
    }
}

/// The first `n` items behind one another.
pub open spec fn all_items(items: Seq<Seq<u8>>, n: int) -> Seq<u8>
    decreases n,
{
    if n <= 0 {
        Seq::empty()
    } else {
        all_items(items, n - 1) + items[n - 1]
    }
}

/// The bytes that an offset takes, given the highest.
pub open spec fn offset_size(last: int) -> int {
    if last <= 0xFF {
        1
    } else if last <= 0xFFFF {
        2
    } else if last <= 0xFF_FFFF {
        3
    } else {
        4
    }
}

/// The lowest `size` bytes of an offset, most significant first.
pub open spec fn offset_bytes(offset: int, size: int) -> Seq<u8> {
    be32_bytes(offset % 0x1_0000_0000).skip(4 - size)
}

/// The first `n` offsets. They count from 1.
pub open spec fn offsets(items: Seq<Seq<u8>>, size: int, n: int) -> Seq<u8>
    decreases n,
{
    if n <= 0 {
        Seq::empty()
    } else {
        offsets(items, size, n - 1) + offset_bytes(1 + total_len(items, n - 1) as int, size)
    }
}

/// A list of byte strings: their number, the size of an offset, the offsets,
/// and the strings. An empty list is its number alone. `None` where the
/// number takes more than 16 bits or the length is not a length.
pub open spec fn index_bytes(items: Seq<Seq<u8>>) -> Option<Seq<u8>> {
    let n = items.len() as int;
    let total = total_len(items, n) as int;
    let size = offset_size(total + 1);
    if n == 0 {
        Some(seq![0u8, 0u8])
    } else if n > 0xFFFF || total + 1 > usize::MAX {
        None
    } else {
        Some(be16_bytes(n) + seq![size as u8] + offsets(items, size, n + 1) + all_items(items, n))
    }
}

/// The number that bytes are, most significant first.
pub open spec fn be_value(s: Seq<u8>) -> int
    decreases s.len(),
{
    if s.len() == 0 {
        0
    } else {
        be_value(s.drop_last()) * 256 + s.last()
    }
}

/// Offset `k` of a list of byte strings that stands at the start of `s`.
pub open spec fn index_offset(s: Seq<u8>, k: int) -> int {
    be_value(s.subrange(3 + k * s[2], 3 + (k + 1) * s[2]))
}

/// Item `i` of a list of byte strings that stands at the start of `s`.
pub open spec fn index_item(s: Seq<u8>, i: int) -> Seq<u8> {
    let count = s[0] * 256 + s[1];
    let base = 3 + (count + 1) * s[2] - 1;
    s.subrange(base + index_offset(s, i), base + index_offset(s, i + 1))
}

proof fn lemma_offset_value(v: int, size: int)
    requires
        0 <= v < 0x1_0000_0000,
        1 <= size <= 4,
        size == 1 ==> v <= 0xFF,
        size == 2 ==> v <= 0xFFFF,
        size == 3 ==> v <= 0xFF_FFFF,
    ensures
        offset_bytes(v, size).len() == size,
        be_value(offset_bytes(v, size)) == v,
{
    let b = be32_bytes(v);
    assert(v % 0x1_0000_0000 == v);
    let s = offset_bytes(v, size);
    assert(s == b.skip(4 - size));
    assert forall|j: int| 0 <= j < size implies s[j] == b[4 - size + j] by {}
    reveal_with_fuel(be_value, 5);
    if size == 1 {
        assert(s =~= seq![b[3]]);
        assert(s.drop_last() =~= Seq::empty());
    } else if size == 2 {
        assert(s.drop_last() =~= seq![b[2]]);
        assert(s.drop_last().drop_last() =~= Seq::empty());
    } else if size == 3 {
        assert(s.drop_last() =~= seq![b[1], b[2]]);
        assert(s.drop_last().drop_last() =~= seq![b[1]]);
        assert(s.drop_last().drop_last().drop_last() =~= Seq::empty());
    } else {
        assert(s.drop_last() =~= seq![b[0], b[1], b[2]]);
        assert(s.drop_last().drop_last() =~= seq![b[0], b[1]]);
        assert(s.drop_last().drop_last().drop_last() =~= seq![b[0]]);
        assert(s.drop_last().drop_last().drop_last().drop_last() =~= Seq::empty());
    }
}

proof fn lemma_total_grows(items: Seq<Seq<u8>>, a: int, b: int)
    requires
        a <= b,
    ensures
        total_len(items, a) <= total_len(items, b),
    decreases b - a,
{
    if a < b {
        lemma_total_grows(items, a, b - 1);
    }
}

proof fn lemma_offsets(items: Seq<Seq<u8>>, size: int, n: int, k: int)
    requires
        1 <= size <= 4,
        0 <= k < n,
    ensures
        offsets(items, size, n).len() == n * size,
        offsets(items, size, n).subrange(k * size, (k + 1) * size) == offset_bytes(
            1 + total_len(items, k) as int,
            size,
        ),
    decreases n,
{
    let front = offsets(items, size, n - 1);
    let last = offset_bytes(1 + total_len(items, n - 1) as int, size);
    assert(last.len() == size);
    if n > 1 {
        lemma_offsets(items, size, n - 1, if k < n - 1 {
            k
        } else {
            0
        });
    }
    assert(front.len() == (n - 1) * size);
    assert((n - 1) * size + size == n * size) by (nonlinear_arith);
    assert((k + 1) * size == k * size + size) by (nonlinear_arith);
    if k < n - 1 {
        assert((k + 1) * size <= (n - 1) * size) by (nonlinear_arith)
            requires
                k + 1 <= n - 1,
                size >= 1,
        ;
        assert(0 <= k * size) by (nonlinear_arith)
            requires
                0 <= k,
                size >= 1,
        ;
        assert((front + last).subrange(k * size, (k + 1) * size) =~= front.subrange(
            k * size,
            (k + 1) * size,
        ));
    } else {
        assert((front + last).subrange(k * size, (k + 1) * size) =~= last);
    }
}

proof fn lemma_all_items(items: Seq<Seq<u8>>, n: int, i: int)
    requires
        0 <= i < n <= items.len(),
    ensures
        all_items(items, n).len() == total_len(items, n),
        total_len(items, i + 1) <= total_len(items, n),
        all_items(items, n).subrange(
            total_len(items, i) as int,
            total_len(items, i + 1) as int,
        ) == items[i],
    decreases n,
{
    let front = all_items(items, n - 1);
    if n > 1 {
        lemma_all_items(items, n - 1, if i < n - 1 {
            i
        } else {
            0
        });
    }
    if i < n - 1 {
        assert((front + items[n - 1]).subrange(
            total_len(items, i) as int,
            total_len(items, i + 1) as int,
        ) =~= front.subrange(total_len(items, i) as int, total_len(items, i + 1) as int));
    } else {
        assert((front + items[n - 1]).subrange(
            total_len(items, i) as int,
            total_len(items, i + 1) as int,
        ) =~= items[i]);
    }
}

/// An item of a list that is written is found again, whatever follows the
/// list.
pub proof fn index_reads_back(items: Seq<Seq<u8>>, post: Seq<u8>, i: int)
    requires
        index_bytes(items) is Some,
        total_len(items, items.len() as int) + 1 < 0x1_0000_0000,
        0 <= i < items.len(),
    ensures
        index_item(index_bytes(items)->0 + post, i) == items[i],
{
    let n = items.len() as int;
    let total = total_len(items, n) as int;
    let size = offset_size(total + 1);
    let offs = offsets(items, size, n + 1);
    let body = all_items(items, n);
    let s = index_bytes(items)->0 + post;
    assert(s[0] * 256 + s[1] == n);
    assert(s[2] == size);
    lemma_total_grows(items, i, n);
    lemma_total_grows(items, i + 1, n);
    lemma_offsets(items, size, n + 1, i);
    lemma_offsets(items, size, n + 1, i + 1);
    lemma_offset_value(1 + total_len(items, i) as int, size);
    lemma_offset_value(1 + total_len(items, i + 1) as int, size);
    lemma_all_items(items, n, i);
    assert(0 <= i * size && (i + 1) * size <= (n + 1) * size && (i + 2) * size <= (n + 1) * size
        && i * size <= (i + 1) * size && (i + 1) * size <= (i + 2) * size) by (nonlinear_arith)
        requires
            0 <= i < n,
            size >= 1,
    ;
    assert((i + 1 + 1) * size == (i + 2) * size);
    assert(s.subrange(3 + i * size, 3 + (i + 1) * size) =~= offs.subrange(
        i * size,
        (i + 1) * size,
    ));
    assert(s.subrange(3 + (i + 1) * size, 3 + (i + 2) * size) =~= offs.subrange(
        (i + 1) * size,
        (i + 2) * size,
    ));
    assert(index_offset(s, i) == 1 + total_len(items, i));
    assert(index_offset(s, i + 1) == 1 + total_len(items, i + 1));
    let base = 3 + (n + 1) * size - 1;
    assert(s.subrange(base + 1 + total_len(items, i), base + 1 + total_len(items, i + 1))
        =~= body.subrange(total_len(items, i) as int, total_len(items, i + 1) as int));
}

/// The lowest bytes of an offset.
fn push_offset(out: &mut Vec<u8>, offset: usize, size: usize)
    requires
        1 <= size <= 4,
    ensures
        final(out)@ == old(out)@ + offset_bytes(offset as int, size as int),
{
    let ghost before = out@;
    let v: u64 = offset as u64 % 0x1_0000_0000;
    if size >= 4 {
        out.push((v / 0x100_0000) as u8);
    }
    if size >= 3 {
        out.push((v / 0x1_0000 % 0x100) as u8);
    }
    if size >= 2 {
        out.push((v / 0x100 % 0x100) as u8);
    }
    out.push((v % 0x100) as u8);
    proof {
        assert(out@ =~= before + offset_bytes(offset as int, size as int));
    }
}

/// The length of all items.
fn measure_items(items: &Vec<Vec<u8>>) -> (r: Option<usize>)
    ensures
        match r {
            Some(n) => n == total_len(views(items@), items@.len() as int),
            None => total_len(views(items@), items@.len() as int) > usize::MAX,
        },
{
    let ghost v = views(items@);
    let mut total: usize = 0;
    let mut i: usize = 0;
    while i < items.len()
        invariant
            i <= items@.len(),
            v == views(items@),
            total == total_len(v, i as int),
        decreases items@.len() - i,
    {
        proof {
            assert(v[i as int] == items@[i as int]@);
            lemma_total_grows(v, i + 1, items@.len() as int);
        }
        match total.checked_add(items[i].len()) {
            Some(n) => {
                total = n;
            },
            None => {
                return None;
            },
        }
        i += 1;
    }
    Some(total)
}

/// Writes a list of byte strings.
pub fn cff_index(items: &Vec<Vec<u8>>) -> (r: Option<Vec<u8>>)
    ensures
        match r {
            Some(out) => index_bytes(views(items@)) == Some(out@),
            None => index_bytes(views(items@)) is None,
        },
{
    let ghost v = views(items@);
    let n: usize = items.len();
    proof {
        assert(v.len() == n);
    }
    let mut out: Vec<u8> = Vec::new();
    if n == 0 {
        out.push(0);
        out.push(0);
        proof {
            assert(out@ =~= seq![0u8, 0u8]);
        }
        return Some(out);
    }
    if n > 0xFFFF {
        return None;
    }
    let total: usize = measure_items(items)?;
    if total == usize::MAX {
        return None;
    }
    let last: usize = total + 1;
    let size: usize = if last <= 0xFF {
        1
    } else if last <= 0xFFFF {
        2
    } else if last <= 0xFF_FFFF {
        3
    } else {
        4
    };
    push_be16(&mut out, n as u16);
    out.push(size as u8);
    let ghost head = be16_bytes(n as int) + seq![size as u8];
    proof {
        assert(out@ =~= head + offsets(v, size as int, 0));
    }
    let mut offset: usize = 1;
    let mut i: usize = 0;
    while i <= n
        invariant
            i <= n + 1,
            n == items@.len(),
            n <= 0xFFFF,
            v == views(items@),
            v.len() == n,
            total == total_len(v, n as int),
            total < usize::MAX,
            1 <= size <= 4,
            i <= n ==> offset == 1 + total_len(v, i as int),
            out@ == head + offsets(v, size as int, i as int),
        decreases n + 1 - i,
    {
        let ghost before = offsets(v, size as int, i as int);
        push_offset(&mut out, offset, size);
        proof {
            assert(out@ =~= head + (before + offset_bytes(offset as int, size as int)));
        }
        if i < n {
            proof {
                assert(v[i as int] == items@[i as int]@);
                lemma_total_grows(v, i + 1, n as int);
            }
            offset += items[i].len();
        }
        i += 1;
    }
    let ghost front = head + offsets(v, size as int, n + 1);
    proof {
        assert(out@ =~= front + all_items(v, 0));
    }
    let mut i: usize = 0;
    while i < n
        invariant
            i <= n,
            n == items@.len(),
            v == views(items@),
            out@ == front + all_items(v, i as int),
        decreases n - i,
    {
        let ghost before = all_items(v, i as int);
        let mut item = to_vec(items[i].as_slice());
        out.append(&mut item);
        proof {
            assert(v[i as int] == items@[i as int]@);
            assert(out@ =~= front + (before + v[i as int]));
        }
        i += 1;
    }
    Some(out)
}

// --- dictionaries ------------------------------------------------------------------------------------

/// How an integer of a dictionary is written.
pub open spec fn int_bytes(v: int) -> Seq<u8> {
    if -32768 <= v <= 32767 {
        short_int(v)
    } else {
        seq![29u8] + be32_bytes(v % 0x1_0000_0000)
    }
}

/// The integer that a dictionary starts with.
pub open spec fn int_value(s: Seq<u8>) -> int {
    let b = s[0] as int;
    if b == 28 {
        let v = s[1] * 256 + s[2];
        if v >= 0x8000 {
            v - 0x1_0000
        } else {
            v
        }
    } else if b == 29 {
        let v = s[1] * 0x100_0000 + s[2] * 0x1_0000 + s[3] * 0x100 + s[4];
        if v >= 0x8000_0000 {
            v - 0x1_0000_0000
        } else {
            v
        }
    } else if b <= 246 {
        b - 139
    } else if b <= 250 {
        (b - 247) * 256 + s[1] + 108
    } else {
        -(b - 251) * 256 - s[1] - 108
    }
}

/// An integer of a dictionary that is written reads back.
pub proof fn integer_reads_back(v: int)
    requires
        -0x8000_0000 <= v <= 0x7FFF_FFFF,
    ensures
        int_value(int_bytes(v)) == v,
{
}

/// Writes an integer of a dictionary.
pub fn dict_int(out: &mut Vec<u8>, v: i32)
    ensures
        final(out)@ == old(out)@ + int_bytes(v as int),
{
    let ghost before = out@;
    if -32768 <= v && v <= 32767 {
        push_short(out, v);
    } else {
        out.push(29);
        push_int32(out, v);
        proof {
            assert(out@ =~= before + (seq![29u8] + be32_bytes(v as int % 0x1_0000_0000)));
        }
    }
}

/// Writes an integer of a dictionary in five bytes, whatever its size: an
/// offset that is known once everything is laid out.
pub fn dict_int32(out: &mut Vec<u8>, v: u32)
    ensures
        final(out)@ == old(out)@ + (seq![29u8] + be32_bytes(v as int)),
{
    let ghost before = out@;
    out.push(29);
    push_be32(out, v);
    proof {
        assert(out@ =~= before + (seq![29u8] + be32_bytes(v as int)));
    }
}

/// How an operator of a dictionary is written.
pub open spec fn dict_op_bytes(op: u16) -> Seq<u8> {
    if op > 0xFF {
        seq![12u8, (op % 0x100) as u8]
    } else {
        seq![op as u8]
    }
}

/// Writes an operator of a dictionary.
pub fn dict_op(out: &mut Vec<u8>, op: u16)
    ensures
        final(out)@ == old(out)@ + dict_op_bytes(op),
{
    let ghost before = out@;
    if op > 0xFF {
        out.push(12);
        out.push((op % 0x100) as u8);
    } else {
        out.push(op as u8);
    }
    proof {
        assert(out@ =~= before + dict_op_bytes(op));
    }
}

/// The half bytes that a decimal text from `i` on is.
pub open spec fn nibbles_from(t: Seq<u8>, i: int) -> Option<Seq<u8>>
    decreases t.len() - i + 1,
{
    if i < 0 || i >= t.len() {
        Some(Seq::empty())
    } else if 0x30 <= t[i] <= 0x39 {
        cat(Some(seq![(t[i] - 0x30) as u8]), nibbles_from(t, i + 1))
    } else if t[i] == 0x2E {
        cat(Some(seq![0xAu8]), nibbles_from(t, i + 1))
    } else if t[i] == 0x2D {
        cat(Some(seq![0xEu8]), nibbles_from(t, i + 1))
    } else if t[i] == 0x65 || t[i] == 0x45 {
        if i + 1 < t.len() && t[i + 1] == 0x2D {
            cat(Some(seq![0xCu8]), nibbles_from(t, i + 2))
        } else if i + 1 < t.len() && t[i + 1] == 0x2B {
            cat(Some(seq![0xBu8]), nibbles_from(t, i + 2))
        } else {
            cat(Some(seq![0xBu8]), nibbles_from(t, i + 1))
        }
    } else {
        None
    }
}

/// The half bytes with their end: one of ones, or two so that bytes come out
/// whole.
pub open spec fn ended(n: Seq<u8>) -> Seq<u8> {
    if n.len() % 2 == 0 {
        n + seq![0xFu8, 0xFu8]
    } else {
        n + seq![0xFu8]
    }
}

/// Pairs of half bytes as bytes.
pub open spec fn paired(n: Seq<u8>) -> Seq<u8> {
    Seq::new(n.len() / 2, |j: int| (n[2 * j] << 4) | n[2 * j + 1])
}

/// How a number that is not an integer is written in a dictionary: its
/// decimal text, by half bytes.
pub open spec fn real_bytes<N: Number>(v: N) -> Option<Seq<u8>> {
    match v.spelling() {
        None => None,
        Some(t) => match nibbles_from(t, 0) {
            None => None,
            Some(n) => Some(seq![30u8] + paired(ended(n))),
        },
    }
}

/// Half byte `j` of bytes.
pub open spec fn nibble_at(s: Seq<u8>, j: int) -> u8 {
    if j % 2 == 0 {
        s[j / 2] >> 4
    } else {
        s[j / 2] & 0x0F
    }
}

proof fn lemma_nibbles_small(t: Seq<u8>, i: int)
    requires
        nibbles_from(t, i) is Some,
    ensures
        forall|j: int|
            0 <= j < (nibbles_from(t, i)->0).len() ==> #[trigger] (nibbles_from(t, i)->0)[j] < 16,
    decreases t.len() - i + 1,
{
    if 0 <= i < t.len() {
        if (t[i] == 0x65 || t[i] == 0x45) && i + 1 < t.len() && (t[i + 1] == 0x2D || t[i + 1]
            == 0x2B) {
            lemma_nibbles_small(t, i + 2);
        } else {
            lemma_nibbles_small(t, i + 1);
        }
    }
}

/// The half bytes of a decimal text that is written read back.
pub proof fn nibbles_read_back(t: Seq<u8>, j: int)
    requires
        nibbles_from(t, 0) is Some,
        0 <= j < ended(nibbles_from(t, 0)->0).len(),
    ensures
        nibble_at(paired(ended(nibbles_from(t, 0)->0)), j) == ended(nibbles_from(t, 0)->0)[j],
{
    lemma_nibbles_small(t, 0);
    let n = ended(nibbles_from(t, 0)->0);
    let k = j / 2;
    let a = n[2 * k];
    let b = n[2 * k + 1];
    assert(a < 16 && b < 16);
    assert(paired(n)[k] == (a << 4) | b);
    assert(((a << 4) | b) >> 4 == a && ((a << 4) | b) & 0x0F == b) by (bit_vector)
        requires
            a < 16,
            b < 16,
    ;
}

/// The half bytes of a decimal text.
fn to_nibbles(t: &[u8]) -> (r: Option<Vec<u8>>)
    ensures
        match r {
            Some(n) => nibbles_from(t@, 0) == Some(n@),
            None => nibbles_from(t@, 0) is None,
        },
{
    let mut out: Vec<u8> = Vec::new();
    let mut i: usize = 0;
    proof {
        assert(forall|x: Seq<u8>| #[trigger] (Seq::<u8>::empty() + x) =~= x);
    }
    while i < t.len()
        invariant
            i <= t@.len(),
            nibbles_from(t@, 0) == cat(Some(out@), nibbles_from(t@, i as int)),
        decreases t@.len() - i,
    {
        let ghost before = out@;
        let ghost at = i as int;
        let c: u8 = t[i];
        let nibble: u8;
        if 0x30 <= c && c <= 0x39 {
            nibble = c - 0x30;
            i += 1;
        } else if c == 0x2E {
            nibble = 0xA;
            i += 1;
        } else if c == 0x2D {
            nibble = 0xE;
            i += 1;
        } else if c == 0x65 || c == 0x45 {
            if t.len() - i > 1 && t[i + 1] == 0x2D {
                nibble = 0xC;
                i += 2;
            } else if t.len() - i > 1 && t[i + 1] == 0x2B {
                nibble = 0xB;
                i += 2;
            } else {
                nibble = 0xB;
                i += 1;
            }
        } else {
            return None;
        }
        out.push(nibble);
        proof {
            assert(nibbles_from(t@, at) == cat(Some(seq![nibble]), nibbles_from(t@, i as int)));
            match nibbles_from(t@, i as int) {
                Some(rest) => {
                    assert(before + (seq![nibble] + rest) =~= out@ + rest);
                },
                None => {},
            }
        }
    }
    proof {
        assert(out@ + Seq::<u8>::empty() =~= out@);
    }
    Some(out)
}

/// Writes a number that is not an integer.
pub fn dict_real<N: Number>(out: &mut Vec<u8>, v: N) -> (r: Option<()>)
    ensures
        match r {
            Some(_) => real_bytes(v) is Some && final(out)@ == old(out)@ + real_bytes(v)->0,
            None => real_bytes(v) is None,
        },
{
    let ghost before = out@;
    let text = v.spell()?;
    let mut n = to_nibbles(text.as_slice())?;
    let ghost plain = n@;
    if n.len() % 2 == 0 {
        n.push(0xF);
    }
    n.push(0xF);
    proof {
        assert(n@ =~= ended(plain));
        assert(n@.len() % 2 == 0);
    }
    out.push(30);
    let ghost all = paired(n@);
    let mut j: usize = 0;
    proof {
        assert(out@ =~= before + (seq![30u8] + all.take(0)));
    }
    while j < n.len()
        invariant
            j <= n@.len(),
            j % 2 == 0,
            n@.len() % 2 == 0,
            all == paired(n@),
            out@ == before + (seq![30u8] + all.take(j as int / 2)),
        decreases n@.len() - j,
    {
        out.push((n[j] << 4) | n[j + 1]);
        j += 2;
        proof {
            assert(all.take(j as int / 2) =~= all.take(j as int / 2 - 1).push(all[j as int / 2 - 1]));
            assert(out@ =~= before + (seq![30u8] + all.take(j as int / 2)));
        }
    }
    proof {
        assert(all.take(j as int / 2) =~= all);
    }
    Some(())
}

/// How a number of a dictionary is written.
pub open spec fn number_bytes<N: Number>(v: N) -> Option<Seq<u8>> {
    match v.whole_value() {
        Some(i) => if -0x8000_0000 <= i <= 0x7FFF_FFFF {
            Some(int_bytes(i as int))
        } else {
            real_bytes(v)
        },
        None => real_bytes(v),
    }
}

/// Writes a number of a dictionary.
pub fn dict_number<N: Number>(out: &mut Vec<u8>, v: N) -> (r: Option<()>)
    ensures
        match r {
            Some(_) => number_bytes(v) is Some && final(out)@ == old(out)@ + number_bytes(v)->0,
            None => number_bytes(v) is None,
        },
{
    if let Some(i) = v.whole() {
        if -0x8000_0000 <= i && i <= 0x7FFF_FFFF {
            dict_int(out, i as i32);
            return Some(());
        }
    }
    dict_real(out, v)
}

/// The first `n` numbers, each as the distance from the one before.
pub open spec fn delta_bytes<N: Number>(values: Seq<N>, n: int) -> Option<Seq<u8>>
    decreases n,
{
    if n <= 0 {
        Some(Seq::empty())
    } else {
        let prev = if n == 1 {
            N::integer(0)
        } else {
            values[n - 2]
        };
        cat(delta_bytes(values, n - 1), number_bytes(values[n - 1].difference(prev)))
    }
}

proof fn lemma_delta_fail<N: Number>(values: Seq<N>, k: int, n: int)
    requires
        k <= n,
        delta_bytes(values, k) is None,
    ensures
        delta_bytes(values, n) is None,
    decreases n - k,
{
    if k < n {
        lemma_delta_fail(values, k, n - 1);
    }
}

/// Writes numbers, each as the distance from the one before.
pub fn dict_delta<N: Number>(out: &mut Vec<u8>, values: &Vec<N>) -> (r: Option<()>)
    ensures
        match r {
            Some(_) => delta_bytes(values@, values@.len() as int) is Some && final(out)@ == old(
                out,
            )@ + delta_bytes(values@, values@.len() as int)->0,
            None => delta_bytes(values@, values@.len() as int) is None,
        },
{
    let ghost before = out@;
    let mut prev: N = N::from_int(0);
    let mut i: usize = 0;
    proof {
        assert(out@ =~= before + Seq::empty());
    }
    while i < values.len()
        invariant
            i <= values@.len(),
            prev == if i == 0 {
                N::integer(0)
            } else {
                values@[i - 1]
            },
            delta_bytes(values@, i as int) is Some,
            out@ == before + delta_bytes(values@, i as int)->0,
        decreases values@.len() - i,
    {
        proof {
            if delta_bytes(values@, i + 1) is None {
                lemma_delta_fail(values@, i + 1, values@.len() as int);
            }
        }
        let ghost front = delta_bytes(values@, i as int)->0;
        let v: N = values[i];
        dict_number(out, v.minus(prev))?;
        proof {
            assert(out@ =~= before + (front + number_bytes(v.difference(prev))->0));
        }
        prev = v;
        i += 1;
    }
    Some(())
}

/// The entry of a list of numbers, where there are any.
pub open spec fn array_entry<N: Number>(values: Seq<N>, op: u16) -> Option<Seq<u8>> {
    if values.len() == 0 {
        Some(Seq::empty())
    } else {
        cat(delta_bytes(values, values.len() as int), Some(dict_op_bytes(op)))
    }
}

/// The entry of a number, where there is one.
pub open spec fn number_entry<N: Number>(v: Option<N>, op: u16) -> Option<Seq<u8>> {
    match v {
        None => Some(Seq::empty()),
        Some(x) => cat(number_bytes(x), Some(dict_op_bytes(op))),
    }
}

/// The entry of a flag, where there is one.
pub open spec fn flag_entry(v: Option<bool>, op: u16) -> Seq<u8> {
    match v {
        None => Seq::empty(),
        Some(b) => int_bytes(if b {
            1
        } else {
            0
        }) + dict_op_bytes(op),
    }
}

/// The alignment zones of the private dictionary.
pub open spec fn zone_bytes<N: Number>(h: HintsValue<N>) -> Option<Seq<u8>> {
    cat(
        cat(
            cat(array_entry(h.blue_values, 6), array_entry(h.other_blues, 7)),
            array_entry(h.family_blues, 8),
        ),
        array_entry(h.family_other_blues, 9),
    )
}

/// The scale and the standard stems of the private dictionary.
pub open spec fn scale_bytes<N: Number>(h: HintsValue<N>) -> Option<Seq<u8>> {
    cat(
        cat(
            cat(
                cat(number_entry(h.blue_scale, 0x0C09), number_entry(h.blue_shift, 0x0C0A)),
                number_entry(h.blue_fuzz, 0x0C0B),
            ),
            number_entry(h.std_hw, 10),
        ),
        number_entry(h.std_vw, 11),
    )
}

/// The stem snaps and flags of the private dictionary.
pub open spec fn snap_bytes<N: Number>(h: HintsValue<N>) -> Option<Seq<u8>> {
    cat(
        cat(
            cat(array_entry(h.stem_snap_h, 0x0C0C), array_entry(h.stem_snap_v, 0x0C0D)),
            Some(flag_entry(h.force_bold, 0x0C0E)),
        ),
        number_entry(h.language_group, 0x0C11),
    )
}

/// The private dictionary: the hint parameters that are there, and the
/// widths.
pub open spec fn private_bytes<N: Number>(h: HintsValue<N>, default_width: N, nominal_width: N) -> Option<
    Seq<u8>,
> {
    let a = cat(cat(zone_bytes(h), scale_bytes(h)), snap_bytes(h));
    cat(
        cat(a, number_entry(Some(default_width), 20)),
        number_entry(Some(nominal_width), 21),
    )
}

/// Writes the entry of a list of numbers.
fn push_array<N: Number>(out: &mut Vec<u8>, values: &Vec<N>, op: u16) -> (r: Option<()>)
    ensures
        match r {
            Some(_) => array_entry(values@, op) is Some && final(out)@ == old(out)@ + array_entry(
                values@,
                op,
            )->0,
            None => array_entry(values@, op) is None,
        },
{
    let ghost before = out@;
    if values.len() > 0 {
        dict_delta(out, values)?;
        dict_op(out, op);
    }
    proof {
        assert(out@ =~= before + array_entry(values@, op)->0);
    }
    Some(())
}

/// Writes the entry of a number.
fn push_number<N: Number>(out: &mut Vec<u8>, v: Option<N>, op: u16) -> (r: Option<()>)
    ensures
        match r {
            Some(_) => number_entry(v, op) is Some && final(out)@ == old(out)@ + number_entry(
                v,
                op,
            )->0,
            None => number_entry(v, op) is None,
        },
{
    let ghost before = out@;
    if let Some(x) = v {
        dict_number(out, x)?;
        dict_op(out, op);
    }
    proof {
        assert(out@ =~= before + number_entry(v, op)->0);
    }
    Some(())
}

/// Writes the alignment zones.
fn push_zones<N: Number>(out: &mut Vec<u8>, h: &PrivateHints<N>) -> (r: Option<()>)
    ensures
        match r {
            Some(_) => zone_bytes(h@) is Some && final(out)@ == old(out)@ + zone_bytes(h@)->0,
            None => zone_bytes(h@) is None,
        },
{
    let ghost before = out@;
    push_array(out, &h.blue_values, 6)?;
    push_array(out, &h.other_blues, 7)?;
    push_array(out, &h.family_blues, 8)?;
    push_array(out, &h.family_other_blues, 9)?;
    proof {
        assert(out@ =~= before + zone_bytes(h@)->0);
    }
    Some(())
}

/// Writes the scale and the standard stems.
fn push_scale<N: Number>(out: &mut Vec<u8>, h: &PrivateHints<N>) -> (r: Option<()>)
    ensures
        match r {
            Some(_) => scale_bytes(h@) is Some && final(out)@ == old(out)@ + scale_bytes(h@)->0,
            None => scale_bytes(h@) is None,
        },
{
    let ghost before = out@;
    push_number(out, h.blue_scale, 0x0C09)?;
    push_number(out, h.blue_shift, 0x0C0A)?;
    push_number(out, h.blue_fuzz, 0x0C0B)?;
    push_number(out, h.std_hw, 10)?;
    push_number(out, h.std_vw, 11)?;
    proof {
        assert(out@ =~= before + scale_bytes(h@)->0);
    }
    Some(())
}

/// Writes the stem snaps and flags.
fn push_snaps<N: Number>(out: &mut Vec<u8>, h: &PrivateHints<N>) -> (r: Option<()>)
    ensures
        match r {
            Some(_) => snap_bytes(h@) is Some && final(out)@ == old(out)@ + snap_bytes(h@)->0,
            None => snap_bytes(h@) is None,
        },
{
    let ghost before = out@;
    push_array(out, &h.stem_snap_h, 0x0C0C)?;
    push_array(out, &h.stem_snap_v, 0x0C0D)?;
    if let Some(b) = h.force_bold {
        dict_int(out, if b {
            1
        } else {
            0
        });
        dict_op(out, 0x0C0E);
    }
    push_number(out, h.language_group, 0x0C11)?;
    proof {
        assert(out@ =~= before + snap_bytes(h@)->0);
    }
    Some(())
}

/// Writes the private dictionary.
pub fn private_dict<N: Number>(hints: &PrivateHints<N>, default_width: N, nominal_width: N) -> (r: Option<
    Vec<u8>,
>)
    ensures
        match r {
            Some(out) => private_bytes(hints@, default_width, nominal_width) == Some(out@),
            None => private_bytes(hints@, default_width, nominal_width) is None,
        },
{
    let mut out: Vec<u8> = Vec::new();
    push_zones(&mut out, hints)?;
    push_scale(&mut out, hints)?;
    push_snaps(&mut out, hints)?;
    push_number(&mut out, Some(default_width), 20)?;
    push_number(&mut out, Some(nominal_width), 21)?;
    proof {
        assert(out@ =~= private_bytes(hints@, default_width, nominal_width)->0);
    }
    Some(out)
}

} // verus!
