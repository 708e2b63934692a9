//! Converting a Type 1 font to a subset in the compact font format.

use crate::bytes::{be16_bytes, be32_bytes, push_be16, same_bytes, to_vec};
use crate::dedup::opt_views;
use crate::text::views;
use crate::type1::cff::{
    all_items, cff_index, dict_int32, dict_number, dict_op, dict_op_bytes, index_bytes,
    number_bytes, offset_size, offsets, private_bytes, private_dict, total_len,
};
use crate::type1::emit::{cat, charstring, emit_charstring};
use crate::type1::interp::{glyph_of, glyph_ok, interpret_glyph, Glyph, GlyphValue};
use crate::type1::number::Number;
use crate::type1::parse::{program_of, FontValue, Type1Font};
use crate::type1::standard::NOTDEF;
use vstd::prelude::*;
use vstd::string::StringSliceAdditionalSpecFns;

verus! {

/// The first string identifier that is not a standard one.
pub const FIRST_SID: usize = 391;

// --- the order of the glyphs ----------------------------------------------------------------------

/// The code has a glyph that is kept.
pub open spec fn code_kept(enc: Seq<Option<Seq<u8>>>, keep: Seq<Seq<u8>>, c: int) -> bool {
    enc[c] is Some && enc[c]->0 != NOTDEF.spec_bytes() && keep.contains(enc[c]->0)
}

/// No lower code has the same glyph.
pub open spec fn is_lowest(enc: Seq<Option<Seq<u8>>>, c: int) -> bool {
    forall|d: int| 0 <= d < c ==> #[trigger] enc[d] != enc[c]
}

/// The lowest code of each kept glyph that has one, among the first `n`.
pub open spec fn lowest_codes(enc: Seq<Option<Seq<u8>>>, keep: Seq<Seq<u8>>, n: int) -> Seq<u8>
    decreases n,
{
    if n <= 0 {
        Seq::empty()
    } else {
        let front = lowest_codes(enc, keep, n - 1);
        if code_kept(enc, keep, n - 1) && is_lowest(enc, n - 1) {
            front.push((n - 1) as u8)
        } else {
            front
        }
    }
}

/// The glyph has a code.
pub open spec fn has_code(enc: Seq<Option<Seq<u8>>>, name: Seq<u8>) -> bool {
    exists|c: int| 0 <= c < enc.len() && #[trigger] enc[c] == Some(name)
}

/// The glyphs among the first `n` kept ones that have no code.
pub open spec fn without_code(enc: Seq<Option<Seq<u8>>>, keep: Seq<Seq<u8>>, n: int) -> Seq<Seq<u8>>
    decreases n,
{
    if n <= 0 {
        Seq::empty()
    } else {
        let front = without_code(enc, keep, n - 1);
        if keep[n - 1] != NOTDEF.spec_bytes() && !has_code(enc, keep[n - 1]) {
            front.push(keep[n - 1])
        } else {
            front
        }
    }
}

/// The glyphs of codes.
pub open spec fn names_of(enc: Seq<Option<Seq<u8>>>, codes: Seq<u8>) -> Seq<Seq<u8>> {
    codes.map_values(|c: u8| enc[c as int]->0)
}

/// The glyphs after the first, which is `.notdef`: those with a code, by
/// their lowest, and then the others. The encoding needs those with a code to
/// come first.
pub open spec fn glyph_names(enc: Seq<Option<Seq<u8>>>, keep: Seq<Seq<u8>>) -> Seq<Seq<u8>> {
    names_of(enc, lowest_codes(enc, keep, 256)) + without_code(enc, keep, keep.len() as int)
}

/// Whether a name is in a list.
fn has_name(list: &Vec<Vec<u8>>, name: &[u8]) -> (r: bool)
    ensures
        r == views(list@).contains(name@),
{
    let ghost v = views(list@);
    let mut i: usize = 0;
    while i < list.len()
        invariant
            i <= list@.len(),
            v == views(list@),
            forall|k: int| 0 <= k < i ==> #[trigger] v[k] != name@,
        decreases list@.len() - i,
    {
        proof {
            assert(v[i as int] == list@[i as int]@);
        }
        if same_bytes(list[i].as_slice(), name) {
            return true;
        }
        i += 1;
    }
    false
}

/// Whether the entries of two codes name the same glyph.
fn same_entry(enc: &Vec<Option<Vec<u8>>>, c: usize, name: &[u8]) -> (r: bool)
    requires
        c < enc@.len(),
    ensures
        r == (opt_views(enc@)[c as int] == Some(name@)),
{
    match &enc[c] {
        Some(n) => same_bytes(n.as_slice(), name),
        None => false,
    }
}

/// Whether no code below `end` has the glyph.
fn none_below(enc: &Vec<Option<Vec<u8>>>, name: &[u8], end: usize) -> (r: bool)
    requires
        end <= enc@.len(),
    ensures
        r == forall|d: int| 0 <= d < end ==> #[trigger] opt_views(enc@)[d] != Some(name@),
{
    let mut d: usize = 0;
    while d < end
        invariant
            d <= end <= enc@.len(),
            forall|k: int| 0 <= k < d ==> #[trigger] opt_views(enc@)[k] != Some(name@),
        decreases end - d,
    {
        if same_entry(enc, d, name) {
            proof {
                assert(opt_views(enc@)[d as int] == Some(name@));
            }
            return false;
        }
        d += 1;
    }
    true
}

/// The lowest code of each kept glyph that has one.
fn find_lowest(enc: &Vec<Option<Vec<u8>>>, keep: &Vec<Vec<u8>>) -> (r: Vec<u8>)
    requires
        enc@.len() == 256,
    ensures
        r@ == lowest_codes(opt_views(enc@), views(keep@), 256),
{
    let ghost e = opt_views(enc@);
    let ghost k = views(keep@);
    let mut out: Vec<u8> = Vec::new();
    let mut c: usize = 0;
    while c < 256
        invariant
            c <= 256,
            enc@.len() == 256,
            e == opt_views(enc@),
            k == views(keep@),
            out@ == lowest_codes(e, k, c as int),
        decreases 256 - c,
    {
        match &enc[c] {
            Some(name) => {
                proof {
                    assert(e[c as int] == Some(name@));
                }
                if !same_bytes(name.as_slice(), NOTDEF.as_bytes()) && has_name(
                    keep,
                    name.as_slice(),
                ) && none_below(enc, name.as_slice(), c) {
                    proof {
                        assert(is_lowest(e, c as int));
                    }
                    out.push(c as u8);
                } else {
                    proof {
                        assert(!(code_kept(e, k, c as int) && is_lowest(e, c as int)));
                    }
                }
            },
            None => {
                proof {
                    assert(e[c as int] is None);
                }
            },
        }
        c += 1;
    }
    out
}

/// What is known of the codes that are found.
proof fn lemma_lowest(enc: Seq<Option<Seq<u8>>>, keep: Seq<Seq<u8>>, n: int)
    requires
        0 <= n <= 256,
    ensures
        forall|i: int|
            0 <= i < lowest_codes(enc, keep, n).len() ==> (#[trigger] lowest_codes(
                enc,
                keep,
                n,
            )[i]) < n && enc[lowest_codes(enc, keep, n)[i] as int] is Some,
    decreases n,
{
    if n > 0 {
        lemma_lowest(enc, keep, n - 1);
    }
}

/// The glyphs after the first.
fn find_names(enc: &Vec<Option<Vec<u8>>>, keep: &Vec<Vec<u8>>, codes: &Vec<u8>) -> (r: Vec<Vec<u8>>)
    requires
        enc@.len() == 256,
        codes@ == lowest_codes(opt_views(enc@), views(keep@), 256),
    ensures
        views(r@) == glyph_names(opt_views(enc@), views(keep@)),
{
    let ghost e = opt_views(enc@);
    let ghost k = views(keep@);
    let ghost coded = names_of(e, codes@);
    let mut out: Vec<Vec<u8>> = Vec::new();
    let mut i: usize = 0;
    proof {
        lemma_lowest(e, k, 256);
        assert(views(out@) =~= coded.take(0));
    }
    while i < codes.len()
        invariant
            i <= codes@.len(),
            enc@.len() == 256,
            e == opt_views(enc@),
            coded == names_of(e, codes@),
            forall|j: int|
                0 <= j < codes@.len() ==> (#[trigger] codes@[j]) < 256 && e[codes@[j] as int]
                    is Some,
            views(out@) == coded.take(i as int),
        decreases codes@.len() - i,
    {
        let c: usize = codes[i] as usize;
        let ghost before = out@;
        match &enc[c] {
            Some(name) => {
                let copy = to_vec(name.as_slice());
                out.push(copy);
                proof {
                    assert(e[c as int] == Some(name@));
                    assert(coded[i as int] == name@);
                    assert(views(out@) =~= views(before).push(name@));
                    assert(coded.take(i + 1) =~= coded.take(i as int).push(coded[i as int]));
                }
            },
            None => {
                proof {
                    assert(e[c as int] is None);
                }
            },
        }
        i += 1;
    }
    let mut j: usize = 0;
    proof {
        assert(coded.take(i as int) =~= coded);
        assert(coded + without_code(e, k, 0) =~= coded);
    }
    while j < keep.len()
        invariant
            j <= keep@.len(),
            enc@.len() == 256,
            e == opt_views(enc@),
            e.len() == 256,
            k == views(keep@),
            views(out@) == coded + without_code(e, k, j as int),
        decreases keep@.len() - j,
    {
        let name = keep[j].as_slice();
        let ghost before = out@;
        let ghost front = without_code(e, k, j as int);
        proof {
            assert(k[j as int] == name@);
        }
        if !same_bytes(name, NOTDEF.as_bytes()) && none_below(enc, name, 256) {
            proof {
                assert(!has_code(e, name@));
            }
            let copy = to_vec(name);
            out.push(copy);
            proof {
                assert(views(out@) =~= views(before).push(name@));
                assert((coded + front).push(name@) =~= coded + front.push(name@));
            }
        }
        j += 1;
    }
    out
}

// --- strings ----------------------------------------------------------------------------------------

/// The first `n` names, each once.
pub open spec fn distinct(names: Seq<Seq<u8>>, n: int) -> Seq<Seq<u8>>
    decreases n,
{
    if n <= 0 {
        Seq::empty()
    } else {
        let front = distinct(names, n - 1);
        if front.contains(names[n - 1]) {
            front
        } else {
            front.push(names[n - 1])
        }
    }
}

/// The first place from `i` on of a name.
pub open spec fn string_place(strings: Seq<Seq<u8>>, name: Seq<u8>, i: int) -> int
    decreases strings.len() - i,
{
    if i < 0 || i >= strings.len() || strings[i] == name {
        i
    } else {
        string_place(strings, name, i + 1)
    }
}

/// The string identifier of a name: two bytes, where they hold it.
pub open spec fn sid_bytes(strings: Seq<Seq<u8>>, name: Seq<u8>) -> Option<Seq<u8>> {
    let sid = FIRST_SID + string_place(strings, name, 0);
    if sid <= 0xFFFF {
        Some(be16_bytes(sid))
    } else {
        None
    }
}

/// Lists names, each once.
fn list_strings(names: &Vec<Vec<u8>>) -> (r: Vec<Vec<u8>>)
    ensures
        views(r@) == distinct(views(names@), names@.len() as int),
{
    let ghost v = views(names@);
    let mut out: Vec<Vec<u8>> = Vec::new();
    let mut i: usize = 0;
    proof {
        assert(views(out@) =~= Seq::empty());
    }
    while i < names.len()
        invariant
            i <= names@.len(),
            v == views(names@),
            views(out@) == distinct(v, i as int),
        decreases names@.len() - i,
    {
        let ghost before = out@;
        proof {
            assert(v[i as int] == names@[i as int]@);
        }
        if !has_name(&out, names[i].as_slice()) {
            let copy = to_vec(names[i].as_slice());
            out.push(copy);
            proof {
                assert(views(out@) =~= views(before).push(v[i as int]));
            }
        }
        i += 1;
    }
    out
}

proof fn lemma_string_place(strings: Seq<Seq<u8>>, name: Seq<u8>, i: int)
    requires
        0 <= i <= strings.len(),
    ensures
        i <= string_place(strings, name, i) <= strings.len(),
    decreases strings.len() - i,
{
    if i < strings.len() && strings[i] != name {
        lemma_string_place(strings, name, i + 1);
    }
}

/// Writes the string identifier of a name.
fn push_sid(out: &mut Vec<u8>, strings: &Vec<Vec<u8>>, name: &[u8]) -> (r: Option<()>)
    ensures
        match r {
            Some(_) => sid_bytes(views(strings@), name@) is Some && final(out)@ == old(out)@
                + sid_bytes(views(strings@), name@)->0,
            None => sid_bytes(views(strings@), name@) is None,
        },
{
    let ghost v = views(strings@);
    let mut i: usize = 0;
    while i < strings.len() && !same_bytes(strings[i].as_slice(), name)
        invariant
            i <= strings@.len(),
            v == views(strings@),
            string_place(v, name@, 0) == string_place(v, name@, i as int),
        decreases strings@.len() - i,
    {
        proof {
            assert(v[i as int] == strings@[i as int]@);
        }
        i += 1;
    }
    proof {
        if i < strings@.len() {
            assert(v[i as int] == strings@[i as int]@);
        }
    }
    if i > 0xFFFF - FIRST_SID {
        return None;
    }
    push_be16(out, (FIRST_SID + i) as u16);
    Some(())
}

/// The string identifiers of the first `n` glyphs.
pub open spec fn charset_bytes(strings: Seq<Seq<u8>>, names: Seq<Seq<u8>>, n: int) -> Option<Seq<u8>>
    decreases n,
{
    if n <= 0 {
        Some(seq![0u8])
    } else {
        cat(charset_bytes(strings, names, n - 1), sid_bytes(strings, names[n - 1]))
    }
}

proof fn lemma_charset_fail(strings: Seq<Seq<u8>>, names: Seq<Seq<u8>>, k: int, n: int)
    requires
        k <= n,
        charset_bytes(strings, names, k) is None,
    ensures
        charset_bytes(strings, names, n) is None,
    decreases n - k,
{
    if k < n {
        lemma_charset_fail(strings, names, k, n - 1);
    }
}

/// Writes the string identifiers of the glyphs.
fn make_charset(strings: &Vec<Vec<u8>>, names: &Vec<Vec<u8>>) -> (r: Option<Vec<u8>>)
    ensures
        match r {
            Some(out) => charset_bytes(views(strings@), views(names@), names@.len() as int) == Some(
                out@,
            ),
            None => charset_bytes(views(strings@), views(names@), names@.len() as int) is None,
        },
{
    let ghost s = views(strings@);
    let ghost v = views(names@);
    let mut out: Vec<u8> = Vec::new();
    out.push(0);
    proof {
        assert(out@ =~= seq![0u8]);
    }
    let mut i: usize = 0;
    while i < names.len()
        invariant
            i <= names@.len(),
            s == views(strings@),
            v == views(names@),
            charset_bytes(s, v, i as int) == Some(out@),
        decreases names@.len() - i,
    {
        proof {
            assert(v[i as int] == names@[i as int]@);
            if charset_bytes(s, v, i + 1) is None {
                lemma_charset_fail(s, v, i + 1, names@.len() as int);
            }
        }
        push_sid(&mut out, strings, names[i].as_slice())?;
        i += 1;
    }
    Some(out)
}

// --- the encoding -------------------------------------------------------------------------------------

/// The codes above `first`, below `n`, that have its glyph.
pub open spec fn further_codes(enc: Seq<Option<Seq<u8>>>, first: u8, n: int) -> Seq<u8>
    decreases n,
{
    if n <= first + 1 {
        Seq::empty()
    } else {
        let front = further_codes(enc, first, n - 1);
        if enc[n - 1] == enc[first as int] {
            front.push((n - 1) as u8)
        } else {
            front
        }
    }
}

/// The further codes of the first `n` glyphs, each with the lowest code of
/// the glyph.
pub open spec fn supplements(enc: Seq<Option<Seq<u8>>>, codes: Seq<u8>, n: int) -> Seq<(u8, u8)>
    decreases n,
{
    if n <= 0 {
        Seq::empty()
    } else {
        supplements(enc, codes, n - 1) + further_codes(enc, codes[n - 1], 256).map_values(
            |d: u8| (d, codes[n - 1]),
        )
    }
}

/// The first `n` supplements: each a code and the string identifier of its
/// glyph.
pub open spec fn supplement_bytes(
    enc: Seq<Option<Seq<u8>>>,
    strings: Seq<Seq<u8>>,
    list: Seq<(u8, u8)>,
    n: int,
) -> Option<Seq<u8>>
    decreases n,
{
    if n <= 0 {
        Some(Seq::empty())
    } else {
        let (d, c) = list[n - 1];
        cat(
            cat(supplement_bytes(enc, strings, list, n - 1), Some(seq![d])),
            sid_bytes(strings, enc[c as int]->0),
        )
    }
}

/// The encoding: the lowest code of each glyph, and then the further ones.
pub open spec fn encoding_bytes(
    enc: Seq<Option<Seq<u8>>>,
    strings: Seq<Seq<u8>>,
    codes: Seq<u8>,
) -> Option<Seq<u8>> {
    let list = supplements(enc, codes, codes.len() as int);
    if codes.len() > 255 || list.len() > 255 {
        None
    } else if list.len() == 0 {
        Some(seq![0u8, codes.len() as u8] + codes)
    } else {
        cat(
            Some(seq![0x80u8, codes.len() as u8] + codes + seq![list.len() as u8]),
            supplement_bytes(enc, strings, list, list.len() as int),
        )
    }
}

/// The further codes of a glyph.
fn find_further(enc: &Vec<Option<Vec<u8>>>, first: u8) -> (r: Vec<u8>)
    requires
        enc@.len() == 256,
        opt_views(enc@)[first as int] is Some,
    ensures
        r@ == further_codes(opt_views(enc@), first, 256),
{
    let ghost e = opt_views(enc@);
    let mut out: Vec<u8> = Vec::new();
    match &enc[first as usize] {
        Some(name) => {
            proof {
                assert(e[first as int] == Some(name@));
            }
            let mut d: usize = first as usize + 1;
            while d < 256
                invariant
                    first < d <= 256,
                    enc@.len() == 256,
                    e == opt_views(enc@),
                    e[first as int] == Some(name@),
                    out@ == further_codes(e, first, d as int),
                decreases 256 - d,
            {
                if same_entry(enc, d, name.as_slice()) {
                    out.push(d as u8);
                }
                d += 1;
            }
        },
        None => {
            proof {
                assert(e[first as int] is None);
            }
        },
    }
    out
}

/// The further codes of all glyphs.
fn find_supplements(enc: &Vec<Option<Vec<u8>>>, codes: &Vec<u8>) -> (r: Vec<(u8, u8)>)
    requires
        enc@.len() == 256,
        forall|j: int|
            0 <= j < codes@.len() ==> opt_views(enc@)[(#[trigger] codes@[j]) as int] is Some,
    ensures
        r@ == supplements(opt_views(enc@), codes@, codes@.len() as int),
{
    let ghost e = opt_views(enc@);
    let mut out: Vec<(u8, u8)> = Vec::new();
    let mut i: usize = 0;
    while i < codes.len()
        invariant
            i <= codes@.len(),
            enc@.len() == 256,
            e == opt_views(enc@),
            forall|j: int| 0 <= j < codes@.len() ==> e[(#[trigger] codes@[j]) as int] is Some,
            out@ == supplements(e, codes@, i as int),
        decreases codes@.len() - i,
    {
        let ghost front = out@;
        let first: u8 = codes[i];
        proof {
            assert(e[codes@[i as int] as int] is Some);
        }
        let more = find_further(enc, first);
        let ghost pairs = more@.map_values(|d: u8| (d, first));
        let mut j: usize = 0;
        while j < more.len()
            invariant
                j <= more@.len(),
                pairs == more@.map_values(|d: u8| (d, first)),
                out@ == front + pairs.take(j as int),
            decreases more@.len() - j,
        {
            out.push((more[j], first));
            j += 1;
            proof {
                assert(out@ =~= front + pairs.take(j as int));
            }
        }
        proof {
            assert(pairs.take(j as int) =~= pairs);
            assert(pairs =~= further_codes(e, first, 256).map_values(
                |d: u8| (d, codes@[i as int]),
            ));
        }
        i += 1;
    }
    out
}

proof fn lemma_supplement_fail(
    enc: Seq<Option<Seq<u8>>>,
    strings: Seq<Seq<u8>>,
    list: Seq<(u8, u8)>,
    k: int,
    n: int,
)
    requires
        k <= n,
        supplement_bytes(enc, strings, list, k) is None,
    ensures
        supplement_bytes(enc, strings, list, n) is None,
    decreases n - k,
{
    if k < n {
        lemma_supplement_fail(enc, strings, list, k, n - 1);
    }
}

proof fn lemma_supplement_codes(enc: Seq<Option<Seq<u8>>>, codes: Seq<u8>, n: int)
    requires
        0 <= n <= codes.len(),
    ensures
        forall|i: int|
            0 <= i < supplements(enc, codes, n).len() ==> codes.contains(
                (#[trigger] supplements(enc, codes, n)[i]).1,
            ),
    decreases n,
{
    if n > 0 {
        lemma_supplement_codes(enc, codes, n - 1);
        let front = supplements(enc, codes, n - 1);
        assert forall|i: int| 0 <= i < supplements(enc, codes, n).len() implies codes.contains(
            (#[trigger] supplements(enc, codes, n)[i]).1,
        ) by {
            if i < front.len() {
                assert(supplements(enc, codes, n)[i] == front[i]);
            } else {
                assert(supplements(enc, codes, n)[i].1 == codes[n - 1]);
            }
        }
    }
}

proof fn lemma_further(enc: Seq<Option<Seq<u8>>>, first: u8, n: int, c: int)
    requires
        first < c < n <= 256,
        enc[c] == enc[first as int],
    ensures
        further_codes(enc, first, n).contains(c as u8),
    decreases n,
{
    let all = further_codes(enc, first, n);
    if c == n - 1 {
        assert(all.last() == c as u8);
    } else {
        lemma_further(enc, first, n - 1, c);
        let front = further_codes(enc, first, n - 1);
        let i = choose|i: int| 0 <= i < front.len() && front[i] == c as u8;
        assert(all[i] == c as u8);
    }
}

proof fn lemma_supplement_has(
    enc: Seq<Option<Seq<u8>>>,
    codes: Seq<u8>,
    k: int,
    n: int,
    c: int,
)
    requires
        0 <= k < n <= codes.len(),
        codes[k] < c < 256,
        enc[c] == enc[codes[k] as int],
    ensures
        supplements(enc, codes, n).contains((c as u8, codes[k])),
    decreases n,
{
    let all = supplements(enc, codes, n);
    let front = supplements(enc, codes, n - 1);
    if k == n - 1 {
        lemma_further(enc, codes[k], 256, c);
        let more = further_codes(enc, codes[k], 256);
        let i = choose|i: int| 0 <= i < more.len() && more[i] == c as u8;
        assert(all[front.len() + i] == (c as u8, codes[k]));
    } else {
        lemma_supplement_has(enc, codes, k, n - 1, c);
        let i = choose|i: int| 0 <= i < front.len() && front[i] == (c as u8, codes[k]);
        assert(all[i] == (c as u8, codes[k]));
    }
}

proof fn lemma_lowest_has(enc: Seq<Option<Seq<u8>>>, keep: Seq<Seq<u8>>, n: int, c: int)
    requires
        0 <= c < n <= 256,
        code_kept(enc, keep, c),
        is_lowest(enc, c),
    ensures
        lowest_codes(enc, keep, n).contains(c as u8),
    decreases n,
{
    let all = lowest_codes(enc, keep, n);
    if c == n - 1 {
        assert(all.last() == c as u8);
    } else {
        lemma_lowest_has(enc, keep, n - 1, c);
        let front = lowest_codes(enc, keep, n - 1);
        let i = choose|i: int| 0 <= i < front.len() && front[i] == c as u8;
        assert(all[i] == c as u8);
    }
}

/// The lowest code of the glyph of a code.
spec fn lowest_of(enc: Seq<Option<Seq<u8>>>, c: int, d: int) -> int
    decreases c - d,
{
    if d >= c || enc[d] == enc[c] {
        d
    } else {
        lowest_of(enc, c, d + 1)
    }
}

proof fn lemma_lowest_of(enc: Seq<Option<Seq<u8>>>, c: int, d: int)
    requires
        0 <= d <= c,
        forall|e: int| 0 <= e < d ==> #[trigger] enc[e] != enc[c],
    ensures
        d <= lowest_of(enc, c, d) <= c,
        enc[lowest_of(enc, c, d)] == enc[c],
        is_lowest(enc, lowest_of(enc, c, d)),
    decreases c - d,
{
    if d < c && enc[d] != enc[c] {
        lemma_lowest_of(enc, c, d + 1);
    }
}

/// The encoding that is written has every code whose glyph is kept: as the
/// lowest of its glyph, or as a further one beside it.
pub proof fn every_kept_code_is_written(enc: Seq<Option<Seq<u8>>>, keep: Seq<Seq<u8>>, c: int)
    requires
        enc.len() == 256,
        0 <= c < 256,
        code_kept(enc, keep, c),
    ensures
        ({
            let codes = lowest_codes(enc, keep, 256);
            let list = supplements(enc, codes, codes.len() as int);
            codes.contains(c as u8) || exists|i: int|
                0 <= i < list.len() && (#[trigger] list[i]).0 == c && enc[list[i].1 as int]
                    == enc[c]
        }),
{
    let codes = lowest_codes(enc, keep, 256);
    let list = supplements(enc, codes, codes.len() as int);
    lemma_lowest_of(enc, c, 0);
    let low = lowest_of(enc, c, 0);
    lemma_lowest_has(enc, keep, 256, low);
    if low < c {
        let k = choose|k: int| 0 <= k < codes.len() && codes[k] == low as u8;
        lemma_supplement_has(enc, codes, k, codes.len() as int, c);
        let i = choose|i: int| 0 <= i < list.len() && list[i] == (c as u8, codes[k]);
        assert(list[i].0 == c && enc[list[i].1 as int] == enc[c]);
    }
}

/// Writes supplements.
fn push_supplements(
    out: &mut Vec<u8>,
    enc: &Vec<Option<Vec<u8>>>,
    strings: &Vec<Vec<u8>>,
    list: &Vec<(u8, u8)>,
) -> (r: Option<()>)
    requires
        enc@.len() == 256,
        forall|j: int|
            0 <= j < list@.len() ==> opt_views(enc@)[(#[trigger] list@[j]).1 as int] is Some,
    ensures
        match r {
            Some(_) => supplement_bytes(
                opt_views(enc@),
                views(strings@),
                list@,
                list@.len() as int,
            ) is Some && final(out)@ == old(out)@ + supplement_bytes(
                opt_views(enc@),
                views(strings@),
                list@,
                list@.len() as int,
            )->0,
            None => supplement_bytes(
                opt_views(enc@),
                views(strings@),
                list@,
                list@.len() as int,
            ) is None,
        },
{
    let ghost e = opt_views(enc@);
    let ghost s = views(strings@);
    let ghost before = out@;
    let mut i: usize = 0;
    proof {
        assert(out@ =~= before + Seq::empty());
    }
    while i < list.len()
        invariant
            i <= list@.len(),
            enc@.len() == 256,
            e == opt_views(enc@),
            s == views(strings@),
            forall|j: int| 0 <= j < list@.len() ==> e[(#[trigger] list@[j]).1 as int] is Some,
            supplement_bytes(e, s, list@, i as int) is Some,
            out@ == before + supplement_bytes(e, s, list@, i as int)->0,
        decreases list@.len() - i,
    {
        let ghost front = supplement_bytes(e, s, list@, i as int)->0;
        proof {
            assert(e[list@[i as int].1 as int] is Some);
            if supplement_bytes(e, s, list@, i + 1) is None {
                lemma_supplement_fail(e, s, list@, i + 1, list@.len() as int);
            }
        }
        let (d, c): (u8, u8) = list[i];
        out.push(d);
        match &enc[c as usize] {
            Some(name) => {
                proof {
                    assert(e[c as int] == Some(name@));
                }
                push_sid(out, strings, name.as_slice())?;
                proof {
                    assert(out@ =~= before + ((front + seq![d]) + sid_bytes(s, name@)->0));
                }
            },
            None => {
                proof {
                    assert(e[c as int] is None);
                }
            },
        }
        i += 1;
    }
    Some(())
}

/// Writes the encoding.
fn make_encoding(enc: &Vec<Option<Vec<u8>>>, strings: &Vec<Vec<u8>>, codes: &Vec<u8>) -> (r: Option<
    Vec<u8>,
>)
    requires
        enc@.len() == 256,
        forall|j: int|
            0 <= j < codes@.len() ==> opt_views(enc@)[(#[trigger] codes@[j]) as int] is Some,
    ensures
        match r {
            Some(out) => encoding_bytes(opt_views(enc@), views(strings@), codes@) == Some(out@),
            None => encoding_bytes(opt_views(enc@), views(strings@), codes@) is None,
        },
{
    let list = find_supplements(enc, codes);
    if codes.len() > 255 || list.len() > 255 {
        return None;
    }
    proof {
        lemma_supplement_codes(opt_views(enc@), codes@, codes@.len() as int);
        assert forall|j: int| 0 <= j < list@.len() implies opt_views(enc@)[(
        #[trigger] list@[j]).1 as int] is Some by {
            assert(codes@.contains(list@[j].1));
        }
    }
    let mut out: Vec<u8> = Vec::new();
    out.push(if list.len() == 0 {
        0
    } else {
        0x80
    });
    out.push(codes.len() as u8);
    let mut all = to_vec(codes.as_slice());
    out.append(&mut all);
    if list.len() == 0 {
        proof {
            assert(out@ =~= seq![0u8, codes@.len() as u8] + codes@);
        }
        return Some(out);
    }
    out.push(list.len() as u8);
    proof {
        assert(out@ =~= seq![0x80u8, codes@.len() as u8] + codes@ + seq![list@.len() as u8]);
    }
    push_supplements(&mut out, enc, strings, &list)?;
    Some(out)
}

// --- the glyphs -----------------------------------------------------------------------------------------

/// The first `n` glyphs.
pub open spec fn glyphs_upto<N: Number>(font: FontValue<N>, order: Seq<Seq<u8>>, n: int) -> Option<
    Seq<GlyphValue<N>>,
>
    decreases n,
{
    if n <= 0 {
        Some(Seq::empty())
    } else {
        match (glyphs_upto(font, order, n - 1), glyph_of(font, order[n - 1])) {
            (Some(front), Some(g)) => Some(front.push(g)),
            _ => None,
        }
    }
}

/// How many of the first `n` glyphs have this width.
pub open spec fn width_count<N: Number>(glyphs: Seq<GlyphValue<N>>, key: u128, n: int) -> nat
    decreases n,
{
    if n <= 0 {
        0
    } else {
        width_count(glyphs, key, n - 1) + (if glyphs[n - 1].width.key() == key {
            1nat
        } else {
            0nat
        })
    }
}

/// The width of glyph `i` is more frequent than that of glyph `j`, or as
/// frequent with the higher key.
pub open spec fn wider_spread<N: Number>(glyphs: Seq<GlyphValue<N>>, i: int, j: int) -> bool {
    let n = glyphs.len() as int;
    let a = width_count(glyphs, glyphs[i].width.key(), n);
    let b = width_count(glyphs, glyphs[j].width.key(), n);
    a > b || (a == b && glyphs[i].width.key() > glyphs[j].width.key())
}

/// The first of the first `n` glyphs whose width is the most frequent.
pub open spec fn most_frequent<N: Number>(glyphs: Seq<GlyphValue<N>>, n: int) -> int
    decreases n,
{
    if n <= 1 {
        0
    } else {
        let best = most_frequent(glyphs, n - 1);
        if wider_spread(glyphs, n - 1, best) {
            n - 1
        } else {
            best
        }
    }
}

/// The outline programs of the first `n` glyphs.
pub open spec fn programs_upto<N: Number>(glyphs: Seq<GlyphValue<N>>, width: N, n: int) -> Option<
    Seq<Seq<u8>>,
>
    decreases n,
{
    if n <= 0 {
        Some(Seq::empty())
    } else {
        match (programs_upto(glyphs, width, n - 1), charstring(glyphs[n - 1], width, width)) {
            (Some(front), Some(p)) => Some(front.push(p)),
            _ => None,
        }
    }
}

/// The contents of a list of glyphs.
pub open spec fn glyph_views<N>(list: Seq<Glyph<N>>) -> Seq<GlyphValue<N>> {
    list.map_values(|g: Glyph<N>| g@)
}

proof fn lemma_glyphs_fail<N: Number>(font: FontValue<N>, order: Seq<Seq<u8>>, k: int, n: int)
    requires
        k <= n,
        glyphs_upto(font, order, k) is None,
    ensures
        glyphs_upto(font, order, n) is None,
    decreases n - k,
{
    if k < n {
        lemma_glyphs_fail(font, order, k, n - 1);
    }
}

/// Interprets the glyphs: `.notdef` and then those named.
fn interpret_all<N: Number>(font: &Type1Font<N>, order: &Vec<Vec<u8>>) -> (r: Option<Vec<Glyph<N>>>)
    ensures
        match r {
            Some(list) => {
                &&& glyphs_upto(font@, views(order@), order@.len() as int) == Some(
                    glyph_views(list@),
                )
                &&& list@.len() == order@.len()
                &&& forall|i: int| 0 <= i < list@.len() ==> glyph_ok((#[trigger] list@[i])@)
            },
            None => glyphs_upto(font@, views(order@), order@.len() as int) is None,
        },
{
    let ghost v = views(order@);
    let mut list: Vec<Glyph<N>> = Vec::new();
    let mut i: usize = 0;
    proof {
        assert(glyph_views(list@) =~= Seq::empty());
    }
    while i < order.len()
        invariant
            i <= order@.len(),
            v == views(order@),
            list@.len() == i,
            glyphs_upto(font@, v, i as int) == Some(glyph_views(list@)),
            forall|k: int| 0 <= k < list@.len() ==> glyph_ok((#[trigger] list@[k])@),
        decreases order@.len() - i,
    {
        let ghost before = list@;
        proof {
            assert(v[i as int] == order@[i as int]@);
            if glyphs_upto(font@, v, i + 1) is None {
                lemma_glyphs_fail(font@, v, i + 1, order@.len() as int);
            }
        }
        let g = interpret_glyph(font, order[i].as_slice())?;
        list.push(g);
        proof {
            assert(glyph_views(list@) =~= glyph_views(before).push(g@));
        }
        i += 1;
    }
    Some(list)
}

/// How many glyphs have this width.
fn count_width<N: Number>(glyphs: &Vec<Glyph<N>>, key: u128) -> (r: usize)
    ensures
        r == width_count(glyph_views(glyphs@), key, glyphs@.len() as int),
{
    let ghost v = glyph_views(glyphs@);
    let mut count: usize = 0;
    let mut i: usize = 0;
    while i < glyphs.len()
        invariant
            i <= glyphs@.len(),
            count <= i,
            v == glyph_views(glyphs@),
            count == width_count(v, key, i as int),
        decreases glyphs@.len() - i,
    {
        proof {
            assert(v[i as int] == glyphs@[i as int]@);
        }
        if glyphs[i].width.bits() == key {
            count += 1;
        }
        i += 1;
    }
    count
}

/// The most frequent width.
fn find_width<N: Number>(glyphs: &Vec<Glyph<N>>) -> (r: N)
    requires
        glyphs@.len() > 0,
    ensures
        r == glyph_views(glyphs@)[most_frequent(
            glyph_views(glyphs@),
            glyphs@.len() as int,
        )].width,
{
    let ghost v = glyph_views(glyphs@);
    let mut best: usize = 0;
    let mut best_key: u128 = glyphs[0].width.bits();
    let mut best_count: usize = count_width(glyphs, best_key);
    let mut i: usize = 1;
    proof {
        assert(v[0] == glyphs@[0]@);
    }
    while i < glyphs.len()
        invariant
            1 <= i <= glyphs@.len(),
            best < glyphs@.len(),
            v == glyph_views(glyphs@),
            v.len() == glyphs@.len(),
            best == most_frequent(v, i as int),
            best_key == v[best as int].width.key(),
            best_count == width_count(v, best_key, glyphs@.len() as int),
        decreases glyphs@.len() - i,
    {
        proof {
            assert(v[i as int] == glyphs@[i as int]@);
        }
        let key: u128 = glyphs[i].width.bits();
        let count: usize = count_width(glyphs, key);
        if count > best_count || (count == best_count && key > best_key) {
            best = i;
            best_key = key;
            best_count = count;
        }
        i += 1;
    }
    proof {
        assert(v[best as int] == glyphs@[best as int]@);
    }
    glyphs[best].width
}

proof fn lemma_programs_fail<N: Number>(glyphs: Seq<GlyphValue<N>>, width: N, k: int, n: int)
    requires
        k <= n,
        programs_upto(glyphs, width, k) is None,
    ensures
        programs_upto(glyphs, width, n) is None,
    decreases n - k,
{
    if k < n {
        lemma_programs_fail(glyphs, width, k, n - 1);
    }
}

/// Writes the outline programs of the glyphs.
fn emit_all<N: Number>(glyphs: &Vec<Glyph<N>>, width: N) -> (r: Option<Vec<Vec<u8>>>)
    requires
        forall|i: int| 0 <= i < glyphs@.len() ==> glyph_ok((#[trigger] glyphs@[i])@),
    ensures
        match r {
            Some(list) => programs_upto(glyph_views(glyphs@), width, glyphs@.len() as int) == Some(
                views(list@),
            ),
            None => programs_upto(glyph_views(glyphs@), width, glyphs@.len() as int) is None,
        },
{
    let ghost v = glyph_views(glyphs@);
    let mut list: Vec<Vec<u8>> = Vec::new();
    let mut i: usize = 0;
    proof {
        assert(views(list@) =~= Seq::empty());
    }
    while i < glyphs.len()
        invariant
            i <= glyphs@.len(),
            v == glyph_views(glyphs@),
            programs_upto(v, width, i as int) == Some(views(list@)),
            forall|k: int| 0 <= k < glyphs@.len() ==> glyph_ok((#[trigger] glyphs@[k])@),
        decreases glyphs@.len() - i,
    {
        let ghost before = list@;
        proof {
            assert(v[i as int] == glyphs@[i as int]@);
            if programs_upto(v, width, i + 1) is None {
                lemma_programs_fail(v, width, i + 1, glyphs@.len() as int);
            }
        }
        let p = emit_charstring(&glyphs[i], width, width)?;
        list.push(p);
        proof {
            assert(views(list@) =~= views(before).push(p@));
        }
        i += 1;
    }
    Some(list)
}

// --- the top dictionary -----------------------------------------------------------------------------------

/// The first `n` numbers.
pub open spec fn numbers_bytes<N: Number>(values: Seq<N>, n: int) -> Option<Seq<u8>>
    decreases n,
{
    if n <= 0 {
        Some(Seq::empty())
    } else {
        cat(numbers_bytes(values, n - 1), number_bytes(values[n - 1]))
    }
}

/// The matrix is the one that a font has by default: a thousandth.
pub open spec fn default_matrix<N: Number>(m: Seq<N>) -> bool {
    let zero = N::integer(0);
    match N::spelled("0.001".spec_bytes()) {
        Some(x) => m[0].equals(x) && m[1].equals(zero) && m[2].equals(zero) && m[3].equals(x)
            && m[4].equals(zero) && m[5].equals(zero),
        None => false,
    }
}

/// What the top dictionary starts with: the matrix, unless it is the default
/// one, and the bounding box.
pub open spec fn top_prefix<N: Number>(font: FontValue<N>) -> Option<Seq<u8>> {
    let matrix = if default_matrix(font.font_matrix) {
        Some(Seq::empty())
    } else {
        cat(
            numbers_bytes(font.font_matrix, font.font_matrix.len() as int),
            Some(dict_op_bytes(0x0C07)),
        )
    };
    cat(
        cat(matrix, numbers_bytes(font.font_bbox, font.font_bbox.len() as int)),
        Some(dict_op_bytes(5)),
    )
}

/// An integer of five bytes.
pub open spec fn wide_int(v: int) -> Seq<u8> {
    seq![29u8] + be32_bytes(v)
}

/// The places of the parts of a font, and the length of the last.
pub struct Layout {
    pub charset: int,
    pub encoding: int,
    pub programs: int,
    pub private: int,
    pub private_len: int,
}

/// The top dictionary.
pub open spec fn top_dict(prefix: Seq<u8>, l: Layout) -> Seq<u8> {
    prefix + (wide_int(l.charset) + seq![15u8]) + (wide_int(l.encoding) + seq![16u8]) + (wide_int(
        l.programs,
    ) + seq![17u8]) + (wide_int(l.private_len) + wide_int(l.private) + seq![18u8])
}

/// The parts of a font.
pub struct CffParts {
    pub names: Seq<u8>,
    pub prefix: Seq<u8>,
    pub strings: Seq<u8>,
    pub charset: Seq<u8>,
    pub encoding: Seq<u8>,
    pub programs: Seq<u8>,
    pub private: Seq<u8>,
}

/// The length of a list of one byte string of `n` bytes.
pub open spec fn single_len(n: int) -> int {
    3 + 2 * offset_size(n + 1) + n
}

/// Where the parts stand. The places take five bytes each, so the top
/// dictionary is as long as it will be before they are known.
pub open spec fn layout(p: CffParts) -> Layout {
    let charset = 4 + p.names.len() + single_len(p.prefix.len() as int + 29) + p.strings.len() + 2;
    let encoding = charset + p.charset.len();
    let programs = encoding + p.encoding.len();
    let private = programs + p.programs.len();
    Layout { charset, encoding, programs, private, private_len: p.private.len() as int }
}

/// The font that the parts make: the header, the name, the top dictionary,
/// the strings, no subroutines, and the parts that the top dictionary points
/// to. `None` where a place takes more than 32 bits.
pub open spec fn assembled(p: CffParts) -> Option<Seq<u8>> {
    let l = layout(p);
    if l.private > 0xFFFF_FFFF || l.private_len > 0xFFFF_FFFF {
        None
    } else {
        match index_bytes(seq![top_dict(p.prefix, l)]) {
            Some(top) => Some(
                seq![1u8, 0u8, 4u8, 4u8] + p.names + top + p.strings + seq![0u8, 0u8] + p.charset
                    + p.encoding + p.programs + p.private,
            ),
            None => None,
        }
    }
}

proof fn lemma_single_len(s: Seq<u8>)
    requires
        index_bytes(seq![s]) is Some,
    ensures
        (index_bytes(seq![s])->0).len() == single_len(s.len() as int),
{
    let items = seq![s];
    let size = offset_size(s.len() as int + 1);
    reveal_with_fuel(offsets, 3);
    reveal_with_fuel(all_items, 2);
    reveal_with_fuel(total_len, 2);
    assert(total_len(items, 1) == s.len());
    assert(offsets(items, size, 2).len() == 2 * size);
}

/// In a font that was put together, each part stands where the top
/// dictionary says.
pub proof fn parts_stand_in_place(p: CffParts)
    requires
        assembled(p) is Some,
    ensures
        ({
            let s = assembled(p)->0;
            let l = layout(p);
            &&& s.subrange(l.charset, l.encoding) == p.charset
            &&& s.subrange(l.encoding, l.programs) == p.encoding
            &&& s.subrange(l.programs, l.private) == p.programs
            &&& s.subrange(l.private, l.private + l.private_len) == p.private
            &&& s.len() == l.private + l.private_len
        }),
{
    let l = layout(p);
    let s = assembled(p)->0;
    let t = top_dict(p.prefix, l);
    lemma_single_len(t);
    assert(t.len() == p.prefix.len() + 29);
    assert(s.subrange(l.charset, l.encoding) =~= p.charset);
    assert(s.subrange(l.encoding, l.programs) =~= p.encoding);
    assert(s.subrange(l.programs, l.private) =~= p.programs);
    assert(s.subrange(l.private, l.private + l.private_len) =~= p.private);
}

/// The font that the parts make, where all are there.
pub open spec fn assembled_from(
    names: Option<Seq<u8>>,
    prefix: Option<Seq<u8>>,
    strings: Option<Seq<u8>>,
    charset: Option<Seq<u8>>,
    encoding: Option<Seq<u8>>,
    programs: Option<Seq<u8>>,
    private: Option<Seq<u8>>,
) -> Option<Seq<u8>> {
    if names is None || prefix is None || strings is None || charset is None || encoding is None
        || programs is None || private is None {
        None
    } else {
        assembled(
            CffParts {
                names: names->0,
                prefix: prefix->0,
                strings: strings->0,
                charset: charset->0,
                encoding: encoding->0,
                programs: programs->0,
                private: private->0,
            },
        )
    }
}

/// The font of glyphs that were interpreted. The width that most of them have
/// is the default one.
pub open spec fn font_with<N: Number>(
    font: FontValue<N>,
    keep: Seq<Seq<u8>>,
    glyphs: Seq<GlyphValue<N>>,
) -> Option<Seq<u8>> {
    let n = glyphs.len() as int;
    let names = glyph_names(font.encoding, keep);
    let strings = distinct(names, names.len() as int);
    let width = glyphs[most_frequent(glyphs, n)].width;
    assembled_from(
        index_bytes(seq![font.font_name]),
        top_prefix(font),
        index_bytes(strings),
        charset_bytes(strings, names, names.len() as int),
        encoding_bytes(font.encoding, strings, lowest_codes(font.encoding, keep, 256)),
        match programs_upto(glyphs, width, n) {
            Some(list) => index_bytes(list),
            None => None,
        },
        private_bytes(font.hints, width, width),
    )
}

/// The subset of a font in the compact font format. A font that strokes its
/// outlines or has no `.notdef` is declined, and so is one with a glyph that
/// cannot be interpreted or written.
pub open spec fn converted<N: Number>(font: FontValue<N>, keep: Seq<Seq<u8>>) -> Option<Seq<u8>> {
    let order = seq![NOTDEF.spec_bytes()] + glyph_names(font.encoding, keep);
    if !font.paint_type.equals(N::integer(0)) || program_of(
        font.charstrings,
        NOTDEF.spec_bytes(),
    ) is None || order.len() > 0xFFFF {
        None
    } else {
        match glyphs_upto(font, order, order.len() as int) {
            None => None,
            Some(glyphs) => font_with(font, keep, glyphs),
        }
    }
}

proof fn lemma_numbers_fail<N: Number>(values: Seq<N>, k: int, n: int)
    requires
        k <= n,
        numbers_bytes(values, k) is None,
    ensures
        numbers_bytes(values, n) is None,
    decreases n - k,
{
    if k < n {
        lemma_numbers_fail(values, k, n - 1);
    }
}

/// Writes numbers.
fn push_numbers<N: Number>(out: &mut Vec<u8>, values: &Vec<N>) -> (r: Option<()>)
    ensures
        match r {
            Some(_) => numbers_bytes(values@, values@.len() as int) is Some && final(out)@ == old(
                out,
            )@ + numbers_bytes(values@, values@.len() as int)->0,
            None => numbers_bytes(values@, values@.len() as int) is None,
        },
{
    let ghost before = out@;
    let mut i: usize = 0;
    proof {
        assert(out@ =~= before + Seq::empty());
    }
    while i < values.len()
        invariant
            i <= values@.len(),
            numbers_bytes(values@, i as int) is Some,
            out@ == before + numbers_bytes(values@, i as int)->0,
        decreases values@.len() - i,
    {
        proof {
            if numbers_bytes(values@, i + 1) is None {
                lemma_numbers_fail(values@, i + 1, values@.len() as int);
            }
        }
        let ghost front = numbers_bytes(values@, i as int)->0;
        dict_number(out, values[i])?;
        proof {
            assert(out@ =~= before + (front + number_bytes(values@[i as int])->0));
        }
        i += 1;
    }
    Some(())
}

/// Whether the matrix is the default one.
fn is_default_matrix<N: Number>(m: &Vec<N>) -> (r: bool)
    requires
        m@.len() == 6,
    ensures
        r == default_matrix(m@),
{
    let zero: N = N::from_int(0);
    match N::read("0.001".as_bytes()) {
        Some(x) => m[0].is_equal(x) && m[1].is_equal(zero) && m[2].is_equal(zero) && m[3].is_equal(
            x,
        ) && m[4].is_equal(zero) && m[5].is_equal(zero),
        None => false,
    }
}

/// Writes what the top dictionary starts with.
fn make_prefix<N: Number>(font: &Type1Font<N>) -> (r: Option<Vec<u8>>)
    requires
        font.font_matrix@.len() == 6,
    ensures
        match r {
            Some(out) => top_prefix(font@) == Some(out@),
            None => top_prefix(font@) is None,
        },
{
    let mut out: Vec<u8> = Vec::new();
    if !is_default_matrix(&font.font_matrix) {
        push_numbers(&mut out, &font.font_matrix)?;
        dict_op(&mut out, 0x0C07);
        proof {
            assert(out@ =~= numbers_bytes(font@.font_matrix, 6)->0 + dict_op_bytes(0x0C07));
        }
    }
    push_numbers(&mut out, &font.font_bbox)?;
    dict_op(&mut out, 5);
    Some(out)
}

/// The length of a part, where it takes no more than 32 bits.
fn part_len(part: &Vec<u8>) -> (r: Option<u64>)
    ensures
        match r {
            Some(n) => n == part@.len() && n <= 0xFFFF_FFFF,
            None => part@.len() > 0xFFFF_FFFF,
        },
{
    if part.len() as u64 > 0xFFFF_FFFF {
        None
    } else {
        Some(part.len() as u64)
    }
}

/// The places of the parts.
struct Places {
    charset: u32,
    encoding: u32,
    programs: u32,
    private: u32,
    private_len: u32,
}

/// Writes the top dictionary.
fn make_top(prefix: Vec<u8>, at: &Places) -> (r: Vec<u8>)
    ensures
        r@ == top_dict(
            prefix@,
            Layout {
                charset: at.charset as int,
                encoding: at.encoding as int,
                programs: at.programs as int,
                private: at.private as int,
                private_len: at.private_len as int,
            },
        ),
{
    let ghost before = prefix@;
    let mut out = prefix;
    dict_int32(&mut out, at.charset);
    dict_op(&mut out, 15);
    dict_int32(&mut out, at.encoding);
    dict_op(&mut out, 16);
    dict_int32(&mut out, at.programs);
    dict_op(&mut out, 17);
    dict_int32(&mut out, at.private_len);
    dict_int32(&mut out, at.private);
    dict_op(&mut out, 18);
    proof {
        assert(out@ =~= top_dict(
            before,
            Layout {
                charset: at.charset as int,
                encoding: at.encoding as int,
                programs: at.programs as int,
                private: at.private as int,
                private_len: at.private_len as int,
            },
        ));
    }
    out
}

/// The parts of a font.
struct Parts {
    names: Vec<u8>,
    prefix: Vec<u8>,
    strings: Vec<u8>,
    charset: Vec<u8>,
    encoding: Vec<u8>,
    programs: Vec<u8>,
    private: Vec<u8>,
}

impl View for Parts {
    type V = CffParts;

    closed spec fn view(&self) -> CffParts {
        CffParts {
            names: self.names@,
            prefix: self.prefix@,
            strings: self.strings@,
            charset: self.charset@,
            encoding: self.encoding@,
            programs: self.programs@,
            private: self.private@,
        }
    }
}

/// Finds where the parts stand.
fn find_places(p: &Parts) -> (r: Option<Places>)
    ensures
        match r {
            Some(at) => {
                &&& layout(p@) == (Layout {
                    charset: at.charset as int,
                    encoding: at.encoding as int,
                    programs: at.programs as int,
                    private: at.private as int,
                    private_len: at.private_len as int,
                })
            },
            None => layout(p@).private > 0xFFFF_FFFF || layout(p@).private_len > 0xFFFF_FFFF,
        },
{
    let private_len: u64 = part_len(&p.private)?;
    let names: u64 = part_len(&p.names)?;
    let top: u64 = part_len(&p.prefix)? + 29;
    let strings: u64 = part_len(&p.strings)?;
    let charset_len: u64 = part_len(&p.charset)?;
    let encoding_len: u64 = part_len(&p.encoding)?;
    let programs_len: u64 = part_len(&p.programs)?;
    let size: u64 = if top + 1 <= 0xFF {
        1
    } else if top + 1 <= 0xFFFF {
        2
    } else if top + 1 <= 0xFF_FFFF {
        3
    } else {
        4
    };
    let charset: u64 = 4 + names + (3 + 2 * size + top) + strings + 2;
    let encoding: u64 = charset + charset_len;
    let programs: u64 = encoding + encoding_len;
    let private: u64 = programs + programs_len;
    if private > 0xFFFF_FFFF {
        return None;
    }
    Some(
        Places {
            charset: charset as u32,
            encoding: encoding as u32,
            programs: programs as u32,
            private: private as u32,
            private_len: private_len as u32,
        },
    )
}

/// Puts a font together.
fn assemble(p: Parts) -> (r: Option<Vec<u8>>)
    ensures
        match r {
            Some(out) => assembled(p@) == Some(out@),
            None => assembled(p@) is None,
        },
{
    let ghost v = p@;
    let at = find_places(&p)?;
    let top = make_top(p.prefix, &at);
    let ghost dict = top@;
    let mut list: Vec<Vec<u8>> = Vec::new();
    list.push(top);
    proof {
        assert(views(list@) =~= seq![dict]);
    }
    let mut top_index = cff_index(&list)?;
    let ghost index = top_index@;
    let (mut names, mut strings, mut charset, mut encoding, mut programs, mut private) = (
        p.names,
        p.strings,
        p.charset,
        p.encoding,
        p.programs,
        p.private,
    );
    let mut out: Vec<u8> = Vec::new();
    out.push(1);
    out.push(0);
    out.push(4);
    out.push(4);
    out.append(&mut names);
    out.append(&mut top_index);
    out.append(&mut strings);
    out.push(0);
    out.push(0);
    out.append(&mut charset);
    out.append(&mut encoding);
    out.append(&mut programs);
    out.append(&mut private);
    proof {
        assert(out@ =~= seq![1u8, 0u8, 4u8, 4u8] + v.names + index + v.strings + seq![0u8, 0u8]
            + v.charset + v.encoding + v.programs + v.private);
    }
    Some(out)
}

/// Puts the font of glyphs that were interpreted together.
fn finish_font<N: Number>(
    font: &Type1Font<N>,
    keep: &Vec<Vec<u8>>,
    codes: &Vec<u8>,
    names: &Vec<Vec<u8>>,
    glyphs: &Vec<Glyph<N>>,
) -> (r: Option<Vec<u8>>)
    requires
        font.wf(),
        font.font_matrix@.len() == 6,
        codes@ == lowest_codes(font@.encoding, views(keep@), 256),
        views(names@) == glyph_names(font@.encoding, views(keep@)),
        glyphs@.len() > 0,
        forall|i: int| 0 <= i < glyphs@.len() ==> glyph_ok((#[trigger] glyphs@[i])@),
    ensures
        match r {
            Some(out) => font_with(font@, views(keep@), glyph_views(glyphs@)) == Some(out@),
            None => font_with(font@, views(keep@), glyph_views(glyphs@)) is None,
        },
{
    proof {
        lemma_lowest(font@.encoding, views(keep@), 256);
        assert(views(names@).len() == names@.len());
    }
    let width: N = find_width(glyphs);
    let list = emit_all(glyphs, width)?;
    let strings = list_strings(names);
    let charset = make_charset(&strings, names)?;
    let encoding = make_encoding(&font.encoding, &strings, codes)?;
    let programs = cff_index(&list)?;
    let private = private_dict(&font.hints, width, width)?;
    let prefix = make_prefix(font)?;
    let mut single: Vec<Vec<u8>> = Vec::new();
    single.push(to_vec(font.font_name.as_slice()));
    proof {
        assert(views(single@) =~= seq![font@.font_name]);
    }
    let name_index = cff_index(&single)?;
    let string_index = cff_index(&strings)?;
    assemble(
        Parts {
            names: name_index,
            prefix,
            strings: string_index,
            charset,
            encoding,
            programs,
            private,
        },
    )
}

/// The first name comes before the second, byte by byte.
pub open spec fn name_before(a: Seq<u8>, b: Seq<u8>) -> bool
    decreases a.len(),
{
    if a.len() == 0 || b.len() == 0 {
        a.len() < b.len()
    } else {
        a[0] < b[0] || (a[0] == b[0] && name_before(a.skip(1), b.skip(1)))
    }
}

/// The names stand in order, and none occurs twice.
pub open spec fn names_ascend(names: Seq<Seq<u8>>) -> bool {
    forall|i: int, j: int|
        0 <= i < j < names.len() ==> name_before(#[trigger] names[i], #[trigger] names[j])
}

/// Converts a font to a subset in the compact font format: `.notdef` and the
/// glyphs that are kept, those with a code in the order of their lowest codes
/// and then the others in the order of their names. The kept names are a set,
/// listed in order. `None` on any doubt.
pub fn convert_to_cff<N: Number>(font: &Type1Font<N>, keep: &Vec<Vec<u8>>) -> (r: Option<Vec<u8>>)
    requires
        font.wf(),
        font.font_matrix@.len() == 6,
        names_ascend(views(keep@)),
    ensures
        match r {
            Some(out) => converted(font@, views(keep@)) == Some(out@),
            None => converted(font@, views(keep@)) is None,
        },
{
    if !font.paint_type.is_equal(N::from_int(0)) || !font.has_glyph(NOTDEF.as_bytes()) {
        return None;
    }
    let codes = find_lowest(&font.encoding, keep);
    let names = find_names(&font.encoding, keep, &codes);
    proof {
        assert(views(names@).len() == names@.len());
    }
    if names.len() >= 0xFFFF {
        return None;
    }
    let mut order: Vec<Vec<u8>> = Vec::new();
    order.push(to_vec(NOTDEF.as_bytes()));
    let mut i: usize = 0;
    proof {
        assert(views(order@) =~= seq![NOTDEF.spec_bytes()] + views(names@).take(0));
    }
    while i < names.len()
        invariant
            i <= names@.len(),
            views(order@) == seq![NOTDEF.spec_bytes()] + views(names@).take(i as int),
            order@.len() == i + 1,
        decreases names@.len() - i,
    {
        let ghost before = order@;
        let copy = to_vec(names[i].as_slice());
        order.push(copy);
        i += 1;
        proof {
            assert(views(order@) =~= views(before).push(copy@));
            assert(views(names@)[i - 1] == copy@);
            assert(views(names@).take(i as int) =~= views(names@).take(i - 1).push(copy@));
            assert(views(order@) =~= seq![NOTDEF.spec_bytes()] + views(names@).take(i as int));
        }
    }
    proof {
        assert(views(names@).take(i as int) =~= views(names@));
    }
    let glyphs = interpret_all(font, &order)?;
    finish_font(font, keep, &codes, &names, &glyphs)
}

} // verus!
