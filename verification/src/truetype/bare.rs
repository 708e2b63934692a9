//! What is left of a glyph without its instructions, and what a checksum
//! sums up.

use crate::bytes::{be16_at, be16_bytes, be32_at, be32_bytes, floor_log2, splice};
use crate::truetype::hinting::{
    components_from, loca_is_long, quiet_maxp, stripped_glyph, Components,
};
use crate::truetype::sfnt::{checksum, padded_byte, padded_word, sfnt_header, word_sum};
use vstd::arithmetic::power2::pow2;
use vstd::prelude::*;

verus! {

// --- checksums --------------------------------------------------------------------------------------

proof fn lemma_sum_parts(a: Seq<u8>, b: Seq<u8>, n: int)
    requires
        a.len() % 4 == 0,
        n >= 0,
    ensures
        word_sum(a + b, a.len() as int / 4 + n) == word_sum(a, a.len() as int / 4) + word_sum(b, n),
    decreases n,
{
    let k = a.len() as int / 4;
    if n > 0 {
        lemma_sum_parts(a, b, n - 1);
        let off = 4 * (n - 1);
        assert(4 * (k + n - 1) == a.len() + off);
        assert forall|i: int| 0 <= i < 4 implies #[trigger] padded_byte(a + b, a.len() + off + i)
            == padded_byte(b, off + i) by {}
        assert(padded_byte(a + b, a.len() + off + 0) == padded_byte(b, off + 0));
        assert(padded_byte(a + b, a.len() + off + 1) == padded_byte(b, off + 1));
        assert(padded_byte(a + b, a.len() + off + 2) == padded_byte(b, off + 2));
        assert(padded_byte(a + b, a.len() + off + 3) == padded_byte(b, off + 3));
        assert(padded_word(a + b, a.len() + off) == padded_word(b, off));
    } else {
        lemma_sum_front(a, b, k);
    }
}

proof fn lemma_sum_front(a: Seq<u8>, b: Seq<u8>, n: int)
    requires
        4 * n <= a.len(),
    ensures
        word_sum(a + b, n) == word_sum(a, n),
    decreases n,
{
    if n > 0 {
        lemma_sum_front(a, b, n - 1);
        let off = 4 * (n - 1);
        assert(padded_byte(a + b, off) == padded_byte(a, off));
        assert(padded_byte(a + b, off + 1) == padded_byte(a, off + 1));
        assert(padded_byte(a + b, off + 2) == padded_byte(a, off + 2));
        assert(padded_byte(a + b, off + 3) == padded_byte(a, off + 3));
    }
}

/// The checksum of whole words followed by anything is the sum of both
/// checksums, modulo 2^32.
pub proof fn checksums_add_up(a: Seq<u8>, b: Seq<u8>)
    requires
        a.len() % 4 == 0,
    ensures
        checksum(a + b) as int == (checksum(a) + checksum(b)) % 0x1_0000_0000,
{
    let n = (b.len() as int + 3) / 4;
    let k = a.len() as int / 4;
    lemma_sum_parts(a, b, n);
    assert(((a + b).len() as int + 3) / 4 == k + n);
    assert((a.len() as int + 3) / 4 == k);
    let x = word_sum(a, k);
    let y = word_sum(b, n);
    assert((x + y) % 0x1_0000_0000 == (x % 0x1_0000_0000 + y % 0x1_0000_0000) % 0x1_0000_0000);
}

/// The checksum of one word is the word, its most significant byte first; of
/// no bytes it is zero, and zeros behind a short word do not count.
pub proof fn checksum_of_a_word(v: u32, s: Seq<u8>)
    requires
        s.len() < 4,
    ensures
        checksum(be32_bytes(v as int)) == v,
        checksum(Seq::empty()) == 0,
        checksum(s) == checksum(s + Seq::new((4 - s.len()) as nat, |i: int| 0u8)),
{
    let w = be32_bytes(v as int);
    reveal_with_fuel(word_sum, 3);
    assert(padded_word(w, 0) == v) by {
        assert(w.len() == 4);
    }
    assert(word_sum(w, 1) == v);
    let t = s + Seq::new((4 - s.len()) as nat, |i: int| 0u8);
    assert(t.len() == 4);
    if s.len() > 0 {
        assert(padded_word(t, 0) == padded_word(s, 0));
        assert((s.len() as int + 3) / 4 == 1);
    } else {
        assert(padded_word(t, 0) == 0);
    }
}

// --- simple glyphs -----------------------------------------------------------------------------------

/// A simple glyph keeps its header, the ends of its contours, and its flags
/// and coordinates; of its instructions nothing is left but a length of zero.
pub proof fn simple_glyph_loses_its_instructions(
    head: Seq<u8>,
    ends: Seq<u8>,
    program: Seq<u8>,
    rest: Seq<u8>,
)
    requires
        head.len() == 10,
        head[0] * 256 + head[1] < 0x8000,
        ends.len() == 2 * (head[0] * 256 + head[1]),
        program.len() <= 0xFFFF,
    ensures
        stripped_glyph(head + ends + be16_bytes(program.len() as int) + program + rest) == Some(
            head + ends + seq![0u8, 0] + rest,
        ),
{
    let g = head + ends + be16_bytes(program.len() as int) + program + rest;
    let at = 10 + ends.len() as int;
    let len = be16_bytes(program.len() as int);
    assert(g[0] == head[0] && g[1] == head[1]);
    assert(g[at] == len[0] && g[at + 1] == len[1]);
    assert(be16_at(g, at) == Some(program.len() as u16));
    assert(g.take(at) =~= head + ends);
    assert(g.skip(at + 2 + program.len()) =~= rest);
    assert(be16_bytes(0) =~= seq![0u8, 0]);
}

// --- composite glyphs --------------------------------------------------------------------------------

/// A component of a composite glyph: its flags, and then the glyph, the place
/// and the scale.
pub struct Part {
    pub flags: u16,
    pub body: Seq<u8>,
}

/// The bytes behind the flags of a component: two for the glyph, four or two
/// for the place, and none, two, four or eight for the scale.
pub open spec fn body_len(flags: u16) -> int {
    let place: int = if flags & 0x0001 != 0 {
        4
    } else {
        2
    };
    let scale: int = if flags & 0x0008 != 0 {
        2
    } else if flags & 0x0040 != 0 {
        4
    } else if flags & 0x0080 != 0 {
        8
    } else {
        0
    };
    2 + place + scale
}

/// Each component is as long as its flags say, and each but the last says
/// that more follow.
pub open spec fn parts_ok(parts: Seq<Part>) -> bool {
    &&& parts.len() > 0
    &&& forall|i: int|
        0 <= i < parts.len() ==> (#[trigger] parts[i]).body.len() == body_len(parts[i].flags)
    &&& forall|i: int|
        0 <= i < parts.len() ==> ((#[trigger] parts[i]).flags & 0x0020 != 0 <==> i < parts.len()
            - 1)
}

/// The bytes of components.
pub open spec fn part_bytes(parts: Seq<Part>) -> Seq<u8>
    decreases parts.len(),
{
    if parts.len() == 0 {
        Seq::empty()
    } else {
        be16_bytes(parts[0].flags as int) + parts[0].body + part_bytes(parts.skip(1))
    }
}

/// The components, each without the flag that announces instructions.
pub open spec fn without_flag(parts: Seq<Part>) -> Seq<Part> {
    parts.map_values(|p: Part| Part { flags: p.flags & !0x0100u16, body: p.body })
}

/// A component announces instructions.
pub open spec fn announces(parts: Seq<Part>) -> bool {
    exists|i: int| 0 <= i < parts.len() && (#[trigger] parts[i]).flags & 0x0100 != 0
}

proof fn lemma_parts(pre: Seq<u8>, parts: Seq<Part>, tail: Seq<u8>)
    requires
        parts_ok(parts),
    ensures
        components_from(pre + part_bytes(parts) + tail, pre.len() as int) == Some(
            (Components {
                records: part_bytes(without_flag(parts)),
                end: (pre.len() + part_bytes(parts).len()) as int,
                instructions: announces(parts),
            }),
        ),
    decreases parts.len(),
{
    let g = pre + part_bytes(parts) + tail;
    let p = parts[0];
    let own = be16_bytes(p.flags as int) + p.body;
    let rest = parts.skip(1);
    let at = pre.len() as int;
    let end = at + own.len();
    assert(g[at] == own[0] && g[at + 1] == own[1]);
    assert(be16_at(g, at) == Some(p.flags));
    assert(g.subrange(at, end) =~= own);
    let bare = Part { flags: p.flags & !0x0100u16, body: p.body };
    let record = splice(own, 0, be16_bytes(bare.flags as int));
    assert(record =~= be16_bytes(bare.flags as int) + bare.body);
    let all = without_flag(parts);
    assert(all[0] == bare);
    assert(all.skip(1) =~= without_flag(rest));
    assert(part_bytes(all) == record + part_bytes(without_flag(rest)));
    if parts.len() == 1 {
        assert(part_bytes(rest) =~= Seq::empty());
        assert(part_bytes(without_flag(rest)) =~= Seq::empty());
        assert(part_bytes(all) =~= record);
        assert(announces(parts) == (p.flags & 0x0100 != 0)) by {
            if p.flags & 0x0100 != 0 {
                assert(parts[0].flags & 0x0100 != 0);
            }
        }
    } else {
        assert(parts_ok(rest)) by {
            assert forall|i: int| 0 <= i < rest.len() implies (#[trigger] rest[i]).body.len()
                == body_len(rest[i].flags) && (rest[i].flags & 0x0020 != 0 <==> i < rest.len()
                - 1) by {
                assert(rest[i] == parts[i + 1]);
            }
        }
        lemma_parts(pre + own, rest, tail);
        assert(g =~= (pre + own) + part_bytes(rest) + tail);
        assert(announces(parts) == (p.flags & 0x0100 != 0 || announces(rest))) by {
            if announces(rest) {
                let i = choose|i: int|
                    0 <= i < rest.len() && (#[trigger] rest[i]).flags & 0x0100 != 0;
                assert(parts[i + 1].flags & 0x0100 != 0);
            }
            if announces(parts) && p.flags & 0x0100 == 0 {
                let i = choose|i: int|
                    0 <= i < parts.len() && (#[trigger] parts[i]).flags & 0x0100 != 0;
                assert(rest[i - 1].flags & 0x0100 != 0);
            }
            if p.flags & 0x0100 != 0 {
                assert(parts[0].flags & 0x0100 != 0);
            }
        }
    }
}

/// A composite glyph keeps its header and its components, each as it was but
/// for the flag that announces instructions; the instructions are gone.
pub proof fn composite_glyph_loses_its_instructions(
    head: Seq<u8>,
    parts: Seq<Part>,
    program: Seq<u8>,
)
    requires
        head.len() == 10,
        head[0] == 0xFF && head[1] == 0xFF,
        parts_ok(parts),
        program.len() <= 0xFFFF,
    ensures
        announces(parts) ==> stripped_glyph(
            head + part_bytes(parts) + (be16_bytes(program.len() as int) + program),
        ) == Some(head + part_bytes(without_flag(parts))),
        !announces(parts) ==> stripped_glyph(head + part_bytes(parts) + Seq::empty()) == Some(
            head + part_bytes(without_flag(parts)),
        ),
{
    let tail = be16_bytes(program.len() as int) + program;
    lemma_parts(head, parts, tail);
    lemma_parts(head, parts, Seq::empty());
    let g = head + part_bytes(parts) + tail;
    let h = head + part_bytes(parts) + Seq::empty();
    let end = 10 + part_bytes(parts).len() as int;
    assert(g[0] == 0xFF && g[1] == 0xFF && h[0] == 0xFF && h[1] == 0xFF);
    assert(g.take(10) =~= head);
    assert(h.take(10) =~= head);
    assert(g[end] == tail[0] && g[end + 1] == tail[1]);
    assert(be16_at(g, end) == Some(program.len() as u16));
}

/// The format of `loca` stands in `head`, and the instruction maximum of a
/// `maxp` of version 1 is zeroed, with nothing else in it changed.
pub proof fn font_says_what_its_glyphs_are(head: Seq<u8>, maxp: Seq<u8>, i: int)
    requires
        head.len() >= 54,
        maxp.len() >= 32,
        0 <= i < maxp.len(),
    ensures
        loca_is_long(head) == Some(false) <==> head[50] == 0 && head[51] == 0,
        loca_is_long(head) == Some(true) <==> head[50] == 0 && head[51] == 1,
        quiet_maxp(maxp).len() == maxp.len(),
        i != 26 && i != 27 ==> quiet_maxp(maxp)[i] == maxp[i],
        maxp[0] == 0 && maxp[1] == 1 && maxp[2] == 0 && maxp[3] == 0 ==> quiet_maxp(maxp)[26] == 0
            && quiet_maxp(maxp)[27] == 0,
{
}

// --- headers ----------------------------------------------------------------------------------------

proof fn lemma_log(n: nat)
    requires
        n > 0,
    ensures
        pow2(floor_log2(n)) <= n < 2 * pow2(floor_log2(n)),
    decreases n,
{
    vstd::arithmetic::power2::lemma2_to64();
    if n >= 2 {
        lemma_log(n / 2);
        vstd::arithmetic::power2::lemma_pow2_unfold(floor_log2(n));
    }
}

/// The header of a font tells its version and how many tables it has, and
/// what a binary search over them needs: the largest power of two that is no
/// more than their number, its exponent, and what is left, the first and the
/// last in bytes of the directory.
pub proof fn font_header_tells_its_tables(version: u32, n: nat)
    requires
        0 < n < 4096,
    ensures
        ({
            let h = sfnt_header(version, n);
            let range = be16_at(h, 6)->0 as int;
            let exponent = be16_at(h, 8)->0 as nat;
            let shift = be16_at(h, 10)->0 as int;
            &&& h.len() == 12
            &&& be32_at(h, 0) == Some(version)
            &&& be16_at(h, 4) == Some(n as u16)
            &&& range == 16 * pow2(exponent)
            &&& range <= 16 * n < 2 * range
            &&& range + shift == 16 * n
        }),
{
    let h = sfnt_header(version, n);
    let log = floor_log2(n);
    lemma_log(n);
    let p = pow2(log) as int;
    assert(log < 12) by {
        vstd::arithmetic::power2::lemma2_to64();
        if log >= 12 {
            if log > 12 {
                vstd::arithmetic::power2::lemma_pow2_strictly_increases(12, log);
            }
        }
    }
    let a = be32_bytes(version as int);
    let b = be16_bytes(n as int);
    let c = be16_bytes(16 * p);
    let d = be16_bytes(log as int);
    let e = be16_bytes(16 * n - 16 * p);
    assert(h == a + b + c + d + e);
    assert(h[0] == a[0] && h[1] == a[1] && h[2] == a[2] && h[3] == a[3]);
    assert(h[4] == b[0] && h[5] == b[1] && h[6] == c[0] && h[7] == c[1]);
    assert(h[8] == d[0] && h[9] == d[1] && h[10] == e[0] && h[11] == e[1]);
    assert(be16_at(h, 6) == Some((16 * p) as u16));
    assert(be16_at(h, 8) == Some(log as u16));
    assert(be16_at(h, 10) == Some((16 * n - 16 * p) as u16));
}

} // verus!
