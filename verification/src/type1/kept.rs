//! A font that was written tells its glyphs apart: by name, by code and in
//! order.

use crate::bytes::{be32_at, be32_bytes};
use crate::type1::convert::{
    charset_bytes, code_kept, distinct, encoding_bytes, further_codes, glyph_names, glyphs_upto,
    has_code, is_lowest, lowest_codes, most_frequent, names_of, programs_upto, sid_bytes,
    string_place, supplement_bytes, supplements, top_dict, wide_int, width_count, without_code,
    Layout,
};
use crate::type1::emit::charstring;
use crate::type1::interp::{glyph_of, GlyphValue};
use crate::type1::number::Number;
use crate::type1::parse::FontValue;
use crate::type1::standard::NOTDEF;
use vstd::prelude::*;
use vstd::string::StringSliceAdditionalSpecFns;

verus! {

// --- names ------------------------------------------------------------------------------------------

proof fn lemma_push_has<A>(s: Seq<A>, x: A, y: A)
    ensures
        s.push(x).contains(y) <==> s.contains(y) || x == y,
{
    let t = s.push(x);
    assert(t[s.len() as int] == x);
    if s.contains(y) {
        let k = choose|k: int| 0 <= k < s.len() && s[k] == y;
        assert(t[k] == y);
    }
    if t.contains(y) && x != y {
        let k = choose|k: int| 0 <= k < t.len() && t[k] == y;
        assert(s[k] == y);
    }
}

/// The strings of a font hold each name, and hold it once.
pub proof fn strings_hold_each_name_once(names: Seq<Seq<u8>>, n: int, x: Seq<u8>)
    requires
        0 <= n <= names.len(),
    ensures
        distinct(names, n).no_duplicates(),
        distinct(names, n).contains(x) <==> names.take(n).contains(x),
    decreases n,
{
    if n > 0 {
        let front = distinct(names, n - 1);
        strings_hold_each_name_once(names, n - 1, x);
        strings_hold_each_name_once(names, n - 1, names[n - 1]);
        assert(names.take(n) =~= names.take(n - 1).push(names[n - 1]));
        lemma_push_has(names.take(n - 1), names[n - 1], x);
        lemma_push_has(front, names[n - 1], x);
    } else {
        assert(names.take(0) =~= Seq::empty());
    }
}

proof fn lemma_place(strings: Seq<Seq<u8>>, name: Seq<u8>, i: int)
    requires
        0 <= i <= strings.len(),
        exists|k: int| i <= k < strings.len() && strings[k] == name,
    ensures
        i <= string_place(strings, name, i) < strings.len(),
        strings[string_place(strings, name, i)] == name,
    decreases strings.len() - i,
{
    if strings[i] != name {
        lemma_place(strings, name, i + 1);
    }
}

/// The name that a string identifier stands for: the strings of a font count
/// from 391, behind the standard ones.
pub open spec fn named(strings: Seq<Seq<u8>>, sid: int, name: Seq<u8>) -> bool {
    391 <= sid < 391 + strings.len() && strings[sid - 391] == name
}

proof fn lemma_sid(strings: Seq<Seq<u8>>, name: Seq<u8>)
    requires
        strings.contains(name),
        sid_bytes(strings, name) is Some,
    ensures
        (sid_bytes(strings, name)->0).len() == 2,
        ({
            let b = sid_bytes(strings, name)->0;
            named(strings, b[0] * 256 + b[1], name)
        }),
{
    let k = choose|k: int| 0 <= k < strings.len() && strings[k] == name;
    assert(strings[k] == name);
    lemma_place(strings, name, 0);
}

/// The charset names each glyph behind the first, in order: what identifier
/// it has stands for its name.
pub proof fn charset_names_the_glyphs(
    strings: Seq<Seq<u8>>,
    names: Seq<Seq<u8>>,
    n: int,
    j: int,
)
    requires
        0 <= n <= names.len(),
        forall|i: int| 0 <= i < n ==> strings.contains(#[trigger] names[i]),
        charset_bytes(strings, names, n) is Some,
    ensures
        ({
            let b = charset_bytes(strings, names, n)->0;
            &&& b.len() == 1 + 2 * n
            &&& b[0] == 0
            &&& 0 <= j < n ==> named(strings, b[1 + 2 * j] * 256 + b[2 + 2 * j], names[j])
        }),
    decreases n,
{
    if n > 0 {
        charset_names_the_glyphs(strings, names, n - 1, j);
        assert(strings.contains(names[n - 1]));
        lemma_sid(strings, names[n - 1]);
        let front = charset_bytes(strings, names, n - 1)->0;
        let own = sid_bytes(strings, names[n - 1])->0;
        let b = front + own;
        assert(b[2 * n - 1] == own[0] && b[2 * n] == own[1]);
        if 0 <= j < n - 1 {
            assert(b[1 + 2 * j] == front[1 + 2 * j] && b[2 + 2 * j] == front[2 + 2 * j]);
        }
    }
}

// --- codes ------------------------------------------------------------------------------------------

proof fn lemma_codes(enc: Seq<Option<Seq<u8>>>, keep: Seq<Seq<u8>>, n: int)
    requires
        enc.len() == 256,
        0 <= n <= 256,
    ensures
        lowest_codes(enc, keep, n).len() <= n,
        forall|k: int|
            0 <= k < lowest_codes(enc, keep, n).len() ==> {
                let c = (#[trigger] lowest_codes(enc, keep, n)[k]) as int;
                c < n && code_kept(enc, keep, c) && is_lowest(enc, c)
            },
    decreases n,
{
    if n > 0 {
        lemma_codes(enc, keep, n - 1);
        let front = lowest_codes(enc, keep, n - 1);
        let all = lowest_codes(enc, keep, n);
        assert forall|k: int| 0 <= k < all.len() implies {
            let c = (#[trigger] all[k]) as int;
            c < n && code_kept(enc, keep, c) && is_lowest(enc, c)
        } by {
            if k < front.len() {
                assert(all[k] == front[k]);
            }
        }
    }
}

proof fn lemma_supplements(enc: Seq<Option<Seq<u8>>>, codes: Seq<u8>, n: int)
    requires
        enc.len() == 256,
        0 <= n <= codes.len(),
    ensures
        forall|i: int|
            0 <= i < supplements(enc, codes, n).len() ==> {
                let e = #[trigger] supplements(enc, codes, n)[i];
                enc[e.0 as int] == enc[e.1 as int] && e.1 < e.0 && codes.take(n).contains(e.1)
            },
    decreases n,
{
    if n > 0 {
        lemma_supplements(enc, codes, n - 1);
        let front = supplements(enc, codes, n - 1);
        let own = further_codes(enc, codes[n - 1], 256);
        lemma_further_codes(enc, codes[n - 1], 256);
        let all = supplements(enc, codes, n);
        assert(codes.take(n) =~= codes.take(n - 1).push(codes[n - 1]));
        assert forall|i: int| 0 <= i < all.len() implies {
            let e = #[trigger] all[i];
            enc[e.0 as int] == enc[e.1 as int] && e.1 < e.0 && codes.take(n).contains(e.1)
        } by {
            if i < front.len() {
                assert(all[i] == front[i]);
                lemma_push_has(codes.take(n - 1), codes[n - 1], front[i].1);
            } else {
                assert(all[i] == (own[i - front.len()], codes[n - 1]));
                lemma_push_has(codes.take(n - 1), codes[n - 1], codes[n - 1]);
            }
        }
    }
}

proof fn lemma_further_codes(enc: Seq<Option<Seq<u8>>>, first: u8, n: int)
    requires
        enc.len() == 256,
        n <= 256,
    ensures
        forall|i: int|
            0 <= i < further_codes(enc, first, n).len() ==> {
                let d = #[trigger] further_codes(enc, first, n)[i];
                first < d < n && enc[d as int] == enc[first as int]
            },
    decreases n,
{
    if n > first + 1 {
        lemma_further_codes(enc, first, n - 1);
        let front = further_codes(enc, first, n - 1);
        let all = further_codes(enc, first, n);
        assert forall|i: int| 0 <= i < all.len() implies {
            let d = #[trigger] all[i];
            first < d < n && enc[d as int] == enc[first as int]
        } by {
            if i < front.len() {
                assert(all[i] == front[i]);
            }
        }
    }
}

proof fn lemma_supplement_bytes(
    enc: Seq<Option<Seq<u8>>>,
    strings: Seq<Seq<u8>>,
    list: Seq<(u8, u8)>,
    n: int,
    i: int,
)
    requires
        0 <= n <= list.len(),
        supplement_bytes(enc, strings, list, n) is Some,
        forall|k: int| 0 <= k < n ==> strings.contains(enc[(#[trigger] list[k]).1 as int]->0),
    ensures
        ({
            let b = supplement_bytes(enc, strings, list, n)->0;
            &&& b.len() == 3 * n
            &&& 0 <= i < n ==> b[3 * i] == list[i].0 && named(
                strings,
                b[3 * i + 1] * 256 + b[3 * i + 2],
                enc[list[i].1 as int]->0,
            )
        }),
    decreases n,
{
    if n > 0 {
        lemma_supplement_bytes(enc, strings, list, n - 1, i);
        let name = enc[list[n - 1].1 as int]->0;
        lemma_sid(strings, name);
        let front = supplement_bytes(enc, strings, list, n - 1)->0;
        let own = sid_bytes(strings, name)->0;
        let b = front + seq![list[n - 1].0] + own;
        assert(supplement_bytes(enc, strings, list, n) == Some(b));
        assert(b[3 * n - 3] == list[n - 1].0 && b[3 * n - 2] == own[0] && b[3 * n - 1] == own[1]);
        if 0 <= i < n - 1 {
            assert(b[3 * i] == front[3 * i] && b[3 * i + 1] == front[3 * i + 1] && b[3 * i + 2]
                == front[3 * i + 2]);
        }
    }
}

/// The encoding that is written gives each glyph its own code: the code of
/// the glyph behind the first, in order, is one that had its name, and each
/// further code stands beside the name that it had. No code stands twice for
/// different names.
pub proof fn encoding_tells_the_glyphs(
    enc: Seq<Option<Seq<u8>>>,
    keep: Seq<Seq<u8>>,
    strings: Seq<Seq<u8>>,
    k: int,
    i: int,
)
    requires
        enc.len() == 256,
        forall|x: Seq<u8>| keep.contains(x) ==> #[trigger] strings.contains(x) || x
            == ".notdef".spec_bytes(),
        encoding_bytes(enc, strings, lowest_codes(enc, keep, 256)) is Some,
    ensures
        ({
            let codes = lowest_codes(enc, keep, 256);
            let list = supplements(enc, codes, codes.len() as int);
            let b = encoding_bytes(enc, strings, codes)->0;
            let n = b[1] as int;
            let at = 2 + n + 1 + 3 * i;
            &&& n == codes.len()
            &&& 0 <= k < n ==> enc[b[2 + k] as int] == Some(glyph_names(enc, keep)[k])
            &&& b[0] == 0x80 <==> list.len() > 0
            &&& list.len() == 0 ==> b[0] == 0 && b.len() == 2 + n
            &&& list.len() > 0 ==> b[2 + n] == list.len() && b.len() == 3 + n + 3 * list.len()
            &&& 0 <= i < list.len() ==> enc[b[at] as int] is Some && named(
                strings,
                b[at + 1] * 256 + b[at + 2],
                enc[b[at] as int]->0,
            )
        }),
{
    let codes = lowest_codes(enc, keep, 256);
    let n = codes.len() as int;
    let list = supplements(enc, codes, n);
    let b = encoding_bytes(enc, strings, codes)->0;
    lemma_codes(enc, keep, 256);
    lemma_supplements(enc, codes, n);
    assert(codes.take(n) =~= codes);
    if 0 <= k < n {
        assert(b[2 + k] == codes[k]);
        assert(names_of(enc, codes)[k] == enc[codes[k] as int]->0);
        assert(code_kept(enc, keep, codes[k] as int));
    }
    if list.len() > 0 {
        assert forall|j: int| 0 <= j < list.len() implies strings.contains(
            enc[(#[trigger] list[j]).1 as int]->0,
        ) by {
            let c = list[j].1;
            let p = choose|p: int| 0 <= p < codes.len() && codes[p] == c;
            assert(code_kept(enc, keep, codes[p] as int));
            assert(keep.contains(enc[c as int]->0));
        }
        lemma_supplement_bytes(enc, strings, list, list.len() as int, i);
        let front = seq![0x80u8, codes.len() as u8] + codes + seq![list.len() as u8];
        let tail = supplement_bytes(enc, strings, list, list.len() as int)->0;
        assert(b == front + tail);
        assert(b[2 + n] == list.len());
        if 0 <= i < list.len() {
            let at = 2 + n + 1 + 3 * i;
            assert(b[at] == tail[3 * i] && b[at + 1] == tail[3 * i + 1] && b[at + 2] == tail[3 * i
                + 2]);
            assert(enc[list[i].0 as int] == enc[list[i].1 as int]);
            let c = list[i].1;
            let p = choose|p: int| 0 <= p < codes.len() && codes[p] == c;
            assert(code_kept(enc, keep, codes[p] as int));
        }
    }
}

/// The glyphs of the font that is written are those that are kept, whether
/// they have a code or not.
pub proof fn kept_glyphs_are_named(enc: Seq<Option<Seq<u8>>>, keep: Seq<Seq<u8>>, x: Seq<u8>)
    requires
        enc.len() == 256,
    ensures
        glyph_names(enc, keep).contains(x) <==> keep.contains(x) && x != ".notdef".spec_bytes(),
{
    let codes = lowest_codes(enc, keep, 256);
    let coded = names_of(enc, codes);
    let rest = without_code(enc, keep, keep.len() as int);
    let all = glyph_names(enc, keep);
    lemma_codes(enc, keep, 256);
    lemma_without_code(enc, keep, keep.len() as int, x);
    assert(keep.take(keep.len() as int) =~= keep);
    if all.contains(x) {
        let j = choose|j: int| 0 <= j < all.len() && all[j] == x;
        if j < coded.len() {
            assert(coded[j] == enc[codes[j] as int]->0);
            assert(code_kept(enc, keep, codes[j] as int));
        } else {
            assert(rest[j - coded.len()] == x);
            assert(rest.contains(x));
        }
    }
    if keep.contains(x) && x != ".notdef".spec_bytes() {
        if has_code(enc, x) {
            let c = choose|c: int| 0 <= c < enc.len() && #[trigger] enc[c] == Some(x);
            lemma_coded(enc, keep, 256, x, c);
            let j = choose|j: int| 0 <= j < codes.len() && #[trigger] enc[codes[j] as int]
                == Some(x);
            assert(coded[j] == x);
            assert(all[j] == x);
        } else {
            assert(rest.contains(x));
            let j = choose|j: int| 0 <= j < rest.len() && rest[j] == x;
            assert(all[coded.len() + j] == x);
        }
    }
}

proof fn lemma_without_code(enc: Seq<Option<Seq<u8>>>, keep: Seq<Seq<u8>>, n: int, x: Seq<u8>)
    requires
        0 <= n <= keep.len(),
    ensures
        without_code(enc, keep, n).contains(x) <==> keep.take(n).contains(x) && x
            != NOTDEF.spec_bytes() && !has_code(enc, x),
    decreases n,
{
    if n > 0 {
        lemma_without_code(enc, keep, n - 1, x);
        assert(keep.take(n) =~= keep.take(n - 1).push(keep[n - 1]));
        lemma_push_has(keep.take(n - 1), keep[n - 1], x);
        lemma_push_has(without_code(enc, keep, n - 1), keep[n - 1], x);
    } else {
        assert(keep.take(0) =~= Seq::empty());
    }
}

/// A kept glyph with a code below `n` has its lowest code among the lowest.
proof fn lemma_coded(
    enc: Seq<Option<Seq<u8>>>,
    keep: Seq<Seq<u8>>,
    n: int,
    x: Seq<u8>,
    c: int,
)
    requires
        enc.len() == 256,
        0 <= c < n <= 256,
        enc[c] == Some(x),
        keep.contains(x),
        x != NOTDEF.spec_bytes(),
    ensures
        exists|j: int|
            0 <= j < lowest_codes(enc, keep, n).len() && #[trigger] enc[lowest_codes(
                enc,
                keep,
                n,
            )[j] as int] == Some(x),
    decreases n,
{
    let all = lowest_codes(enc, keep, n);
    let front = lowest_codes(enc, keep, n - 1);
    if exists|d: int| 0 <= d < n - 1 && #[trigger] enc[d] == Some(x) {
        let d = choose|d: int| 0 <= d < n - 1 && #[trigger] enc[d] == Some(x);
        lemma_coded(enc, keep, n - 1, x, d);
        let j = choose|j: int| 0 <= j < front.len() && #[trigger] enc[front[j] as int] == Some(x);
        assert(all[j] == front[j]);
        assert(enc[all[j] as int] == Some(x));
    } else {
        assert(c == n - 1);
        assert(is_lowest(enc, c));
        assert(code_kept(enc, keep, c));
        assert(all == front.push(c as u8));
        assert(enc[all[front.len() as int] as int] == Some(x));
    }
}

// --- glyphs in order ----------------------------------------------------------------------------------

/// Each program is that of the glyph with its name, in order.
pub proof fn programs_come_in_order<N: Number>(
    font: FontValue<N>,
    order: Seq<Seq<u8>>,
    glyphs: Seq<GlyphValue<N>>,
    width: N,
    j: int,
)
    requires
        glyphs_upto(font, order, order.len() as int) == Some(glyphs),
        programs_upto(glyphs, width, glyphs.len() as int) is Some,
        0 <= j < order.len(),
    ensures
        glyphs.len() == order.len(),
        (programs_upto(glyphs, width, glyphs.len() as int)->0).len() == order.len(),
        glyph_of(font, order[j]) == Some(glyphs[j]),
        charstring(glyphs[j], width, width) == Some(
            (programs_upto(glyphs, width, glyphs.len() as int)->0)[j],
        ),
{
    lemma_glyphs(font, order, order.len() as int, j);
    lemma_programs(glyphs, width, glyphs.len() as int, j);
}

proof fn lemma_glyphs<N: Number>(font: FontValue<N>, order: Seq<Seq<u8>>, n: int, j: int)
    requires
        0 <= n <= order.len(),
        glyphs_upto(font, order, n) is Some,
    ensures
        (glyphs_upto(font, order, n)->0).len() == n,
        0 <= j < n ==> glyph_of(font, order[j]) == Some((glyphs_upto(font, order, n)->0)[j]),
    decreases n,
{
    if n > 0 {
        lemma_glyphs(font, order, n - 1, j);
    }
}

proof fn lemma_programs<N: Number>(glyphs: Seq<GlyphValue<N>>, width: N, n: int, j: int)
    requires
        0 <= n <= glyphs.len(),
        programs_upto(glyphs, width, n) is Some,
    ensures
        (programs_upto(glyphs, width, n)->0).len() == n,
        0 <= j < n ==> charstring(glyphs[j], width, width) == Some(
            (programs_upto(glyphs, width, n)->0)[j],
        ),
    decreases n,
{
    if n > 0 {
        lemma_programs(glyphs, width, n - 1, j);
    }
}

/// The width that need not be written is the most frequent one: no other
/// width has more glyphs.
pub proof fn default_width_is_most_frequent<N: Number>(glyphs: Seq<GlyphValue<N>>, n: int, i: int)
    requires
        0 < n <= glyphs.len(),
        0 <= i < n,
    ensures
        0 <= most_frequent(glyphs, n) < n,
        width_count(glyphs, glyphs[most_frequent(glyphs, n)].width.key(), glyphs.len() as int)
            >= width_count(glyphs, glyphs[i].width.key(), glyphs.len() as int),
    decreases n,
{
    if n > 1 {
        if i < n - 1 {
            default_width_is_most_frequent(glyphs, n - 1, i);
        } else {
            default_width_is_most_frequent(glyphs, n - 1, 0);
        }
    }
}

/// How many glyphs have a width: a glyph more counts where it has that width.
pub proof fn widths_are_counted<N: Number>(
    glyphs: Seq<GlyphValue<N>>,
    g: GlyphValue<N>,
    key: u128,
)
    ensures
        width_count(glyphs.push(g), key, glyphs.len() as int + 1) == width_count(
            glyphs,
            key,
            glyphs.len() as int,
        ) + (if g.width.key() == key {
            1int
        } else {
            0
        }),
{
    lemma_same_count(glyphs, glyphs.push(g), key, glyphs.len() as int);
}

proof fn lemma_same_count<N: Number>(
    a: Seq<GlyphValue<N>>,
    b: Seq<GlyphValue<N>>,
    key: u128,
    n: int,
)
    requires
        n <= a.len(),
        n <= b.len(),
        forall|i: int| 0 <= i < n ==> a[i] == b[i],
    ensures
        width_count(a, key, n) == width_count(b, key, n),
    decreases n,
{
    if n > 0 {
        lemma_same_count(a, b, key, n - 1);
    }
}

/// The top dictionary tells where the charset (15), the encoding (16), the
/// programs (17) and the private dictionary (18) stand, the last with its
/// length before its place.
pub proof fn top_dict_tells_the_layout(prefix: Seq<u8>, l: Layout)
    requires
        0 <= l.charset <= u32::MAX,
        0 <= l.encoding <= u32::MAX,
        0 <= l.programs <= u32::MAX,
        0 <= l.private <= u32::MAX,
        0 <= l.private_len <= u32::MAX,
    ensures
        ({
            let t = top_dict(prefix, l);
            let p = prefix.len() as int;
            &&& t.len() == p + 29
            &&& t.take(p) == prefix
            &&& t[p] == 29 && be32_at(t, p + 1) == Some(l.charset as u32) && t[p + 5] == 15
            &&& t[p + 6] == 29 && be32_at(t, p + 7) == Some(l.encoding as u32) && t[p + 11] == 16
            &&& t[p + 12] == 29 && be32_at(t, p + 13) == Some(l.programs as u32) && t[p + 17]
                == 17
            &&& t[p + 18] == 29 && be32_at(t, p + 19) == Some(l.private_len as u32)
            &&& t[p + 23] == 29 && be32_at(t, p + 24) == Some(l.private as u32) && t[p + 28] == 18
        }),
{
    let t = top_dict(prefix, l);
    let p = prefix.len() as int;
    let a = wide_int(l.charset) + seq![15u8];
    let b = wide_int(l.encoding) + seq![16u8];
    let c = wide_int(l.programs) + seq![17u8];
    let d = wide_int(l.private_len) + wide_int(l.private) + seq![18u8];
    assert(t == prefix + a + b + c + d);
    assert(t.take(p) =~= prefix);
    lemma_field(t, p, a, 0, l.charset);
    lemma_field(t, p + 6, b, 0, l.encoding);
    lemma_field(t, p + 12, c, 0, l.programs);
    lemma_field(t, p + 18, d, 0, l.private_len);
    lemma_field(t, p + 18, d, 5, l.private);
    assert(t[p + 5] == a[5] && t[p + 11] == b[5] && t[p + 17] == c[5] && t[p + 28] == d[10]);
}

proof fn lemma_field(t: Seq<u8>, at: int, part: Seq<u8>, k: int, v: int)
    requires
        0 <= v <= u32::MAX,
        0 <= at,
        0 <= k,
        k + 5 <= part.len(),
        at + part.len() <= t.len(),
        forall|i: int| 0 <= i < part.len() ==> t[at + i] == #[trigger] part[i],
        forall|i: int| 0 <= i < 5 ==> part[k + i] == #[trigger] wide_int(v)[i],
    ensures
        t[at + k] == 29,
        be32_at(t, at + k + 1) == Some(v as u32),
{
    let w = wide_int(v);
    let b = be32_bytes(v);
    assert(w[0] == 29);
    assert(t[at + k] == part[k + 0] && part[k + 0] == w[0]);
    assert(t[at + k + 1] == part[k + 1] && part[k + 1] == w[1] && w[1] == b[0]);
    assert(t[at + k + 2] == part[k + 2] && part[k + 2] == w[2] && w[2] == b[1]);
    assert(t[at + k + 3] == part[k + 3] && part[k + 3] == w[3] && w[3] == b[2]);
    assert(t[at + k + 4] == part[k + 4] && part[k + 4] == w[4] && w[4] == b[3]);
}

} // verus!
