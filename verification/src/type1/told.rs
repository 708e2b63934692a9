//! What the text of a font says, word by word.

use crate::text::{is_blank, is_digit};
use crate::type1::cipher::{ciphers_are_decrypted, encrypts};
use crate::type1::lexer::{binary_at, lexeme, regular_end, space_end, Lexeme};
use crate::type1::number::Number;
use crate::type1::parse::{encoding_entry, encoding_from, program_at};
use vstd::prelude::*;
use vstd::string::StringSliceAdditionalSpecFns;

verus! {

/// A byte that names, numbers and operators of a font are made of.
pub open spec fn name_byte(b: u8) -> bool {
    &&& b != 0 && b != 0x09 && b != 0x0A && b != 0x0C && b != 0x0D && b != 0x20
    &&& b != 0x2F && b != 0x5B && b != 0x5D && b != 0x7B && b != 0x7D
    &&& b != 0x28 && b != 0x29 && b != 0x25 && b != 0x3C
}

/// The text stands at this place, and whatever follows does not go on with
/// it.
pub open spec fn stands_at(s: Seq<u8>, at: int, t: Seq<u8>) -> bool {
    &&& 0 <= at
    &&& at + t.len() <= s.len()
    &&& s.subrange(at, at + t.len()) == t
    &&& at + t.len() < s.len() ==> !name_byte(s[at + t.len()])
}

proof fn lemma_run(s: Seq<u8>, i: int, end: int)
    requires
        0 <= i <= end <= s.len(),
        forall|k: int| i <= k < end ==> name_byte(#[trigger] s[k]),
        end < s.len() ==> !name_byte(s[end]),
    ensures
        regular_end(s, i) == end,
    decreases end - i,
{
    if i < end {
        assert(name_byte(s[i]));
        lemma_run(s, i + 1, end);
    }
}

proof fn lemma_same_space(s: Seq<u8>, pos: int)
    requires
        0 <= pos < s.len(),
        is_blank(s[pos]),
    ensures
        space_end(s, pos) == space_end(s, pos + 1),
{
}

/// White space before a word does not count.
pub proof fn white_space_is_passed_over<N: Number>(s: Seq<u8>, pos: int)
    requires
        0 <= pos < s.len(),
        is_blank(s[pos]),
    ensures
        lexeme::<N>(s, pos) == lexeme::<N>(s, pos + 1),
{
    lemma_same_space(s, pos);
}

/// A slash and the bytes behind it are a name, as far as it goes on.
pub proof fn names_are_read<N: Number>(s: Seq<u8>, at: int, t: Seq<u8>)
    requires
        0 <= at < s.len(),
        s[at] == 0x2F,
        stands_at(s, at + 1, t),
        forall|k: int| 0 <= k < t.len() ==> name_byte(#[trigger] t[k]),
    ensures
        lexeme::<N>(s, at) == Some((Lexeme::<N>::Name(t), at + 1 + t.len())),
{
    let end = at + 1 + t.len();
    assert forall|k: int| at + 1 <= k < end implies name_byte(#[trigger] s[k]) by {
        assert(s.subrange(at + 1, end)[k - at - 1] == t[k - at - 1]);
    }
    lemma_run(s, at + 1, end);
}

/// A word is read whole: as the number that it spells, where it is made of
/// digits, signs, points and exponents and spells one, and else as it is.
pub proof fn words_are_read<N: Number>(s: Seq<u8>, at: int, t: Seq<u8>)
    requires
        stands_at(s, at, t),
        t.len() > 0,
        forall|k: int| 0 <= k < t.len() ==> name_byte(#[trigger] t[k]),
    ensures
        ({
            let figures = forall|k: int|
                0 <= k < t.len() ==> is_digit(#[trigger] t[k]) || t[k] == 0x2B || t[k] == 0x2D
                    || t[k] == 0x2E || t[k] == 0x65 || t[k] == 0x45;
            let end = at + t.len();
            &&& figures && N::spelled(t) is Some ==> lexeme::<N>(s, at) == Some(
                (Lexeme::Number(N::spelled(t)->0), end),
            )
            &&& !figures || N::spelled(t) is None ==> lexeme::<N>(s, at) == Some(
                (Lexeme::<N>::Word(t), end),
            )
        }),
{
    let end = at + t.len();
    assert forall|k: int| at <= k < end implies name_byte(#[trigger] s[k]) by {
        assert(s.subrange(at, end)[k - at] == t[k - at]);
    }
    assert(t[0] == s[at]) by {
        assert(s.subrange(at, end)[0] == t[0]);
    }
    lemma_run(s, at, end);
}

proof fn lemma_put()
    ensures
        "dup".spec_bytes() == seq![0x64u8, 0x75, 0x70],
        "put".spec_bytes() == seq![0x70u8, 0x75, 0x74],
        "dup".spec_bytes().len() == 3,
        "StandardEncoding".spec_bytes().len() == 16,
        "def".spec_bytes() == seq![0x64u8, 0x65, 0x66],
        "readonly".spec_bytes().len() == 8,
{
    reveal_strlit("dup");
    reveal_strlit("put");
    reveal_strlit("StandardEncoding");
    reveal_strlit("def");
    reveal_strlit("readonly");
    assert("dup".is_ascii() && "put".is_ascii() && "StandardEncoding".is_ascii());
    assert("def".is_ascii() && "readonly".is_ascii());
    assert("dup".spec_bytes() =~= seq![0x64u8, 0x75, 0x70]);
    assert("put".spec_bytes() =~= seq![0x70u8, 0x75, 0x74]);
    assert("def".spec_bytes() =~= seq![0x64u8, 0x65, 0x66]);
}

/// `dup code /name put` gives the code its name, and leaves the names of all
/// other codes as they were.
pub proof fn encoding_entries_are_read<N: Number>(
    pre: Seq<u8>,
    d: Seq<u8>,
    v: N,
    t: Seq<u8>,
    post: Seq<u8>,
    entries: Seq<Option<Seq<u8>>>,
    first: bool,
)
    requires
        d.len() > 0,
        forall|k: int| 0 <= k < d.len() ==> is_digit(#[trigger] d[k]),
        N::spelled(d) == Some(v),
        v.whole_value() is Some,
        0 <= v.whole_value()->0 <= 255,
        forall|k: int| 0 <= k < t.len() ==> name_byte(#[trigger] t[k]),
        post.len() > 0 ==> !name_byte(post[0]),
        N::spelled("dup".spec_bytes()) is None,
        N::spelled("put".spec_bytes()) is None,
    ensures
        ({
            let s = pre + "dup".spec_bytes() + seq![0x20u8] + d + seq![0x20u8, 0x2F] + t
                + seq![0x20u8] + "put".spec_bytes() + post;
            let end = (pre.len() + 3 + 1 + d.len() + 2 + t.len() + 1 + 3) as int;
            encoding_from::<N>(s, pre.len() as int, entries, first) == encoding_from::<N>(
                s,
                end,
                entries.update(v.whole_value()->0 as int, Some(t)),
                false,
            )
        }),
{
    lemma_put();
    let dup = "dup".spec_bytes();
    let put = "put".spec_bytes();
    let s = pre + dup + seq![0x20u8] + d + seq![0x20u8, 0x2F] + t + seq![0x20u8] + put + post;
    let a = pre.len() as int;
    let c = a + 4 + d.len();
    let e = c + 2 + t.len();
    lemma_entry_stands(pre, dup, d, t, put, post);
    lemma_word_dup::<N>(s, a);
    lemma_entry::<N>(s, a + 3, d, v, t);
    lemma_from_entry::<N>(s, a, v.whole_value()->0 as int, t, e + 4, entries, first);
}

proof fn lemma_entry_stands(
    pre: Seq<u8>,
    dup: Seq<u8>,
    d: Seq<u8>,
    t: Seq<u8>,
    put: Seq<u8>,
    post: Seq<u8>,
)
    requires
        dup.len() == 3,
        put.len() == 3,
        post.len() > 0 ==> !name_byte(post[0]),
    ensures
        ({
            let s = pre + dup + seq![0x20u8] + d + seq![0x20u8, 0x2F] + t + seq![0x20u8] + put
                + post;
            let a = pre.len() as int;
            let c = a + 4 + d.len();
            let e = c + 2 + t.len();
            &&& stands_at(s, a, dup)
            &&& s[a + 3] == 0x20
            &&& stands_at(s, a + 4, d)
            &&& s[c] == 0x20 && s[c + 1] == 0x2F
            &&& stands_at(s, c + 2, t)
            &&& s[e] == 0x20
            &&& stands_at(s, e + 1, put)
            &&& e + 4 <= s.len()
        }),
{
    let s = pre + dup + seq![0x20u8] + d + seq![0x20u8, 0x2F] + t + seq![0x20u8] + put + post;
    let a = pre.len() as int;
    let c = a + 4 + d.len();
    let e = c + 2 + t.len();
    assert(s.subrange(a, a + 3) =~= dup);
    assert(s.subrange(a + 4, c) =~= d);
    assert(s.subrange(c + 2, e) =~= t);
    assert(s.subrange(e + 1, e + 4) =~= put);
    if e + 4 < s.len() {
        assert(s[e + 4] == post[0]);
    }
}

proof fn lemma_word_dup<N: Number>(s: Seq<u8>, a: int)
    requires
        stands_at(s, a, "dup".spec_bytes()),
        N::spelled("dup".spec_bytes()) is None,
    ensures
        lexeme::<N>(s, a) == Some((Lexeme::<N>::Word("dup".spec_bytes()), a + 3)),
{
    lemma_put();
    words_are_read::<N>(s, a, "dup".spec_bytes());
}

proof fn lemma_entry<N: Number>(s: Seq<u8>, at: int, d: Seq<u8>, v: N, t: Seq<u8>)
    requires
        0 <= at < s.len(),
        s[at] == 0x20,
        stands_at(s, at + 1, d),
        ({
            let c = at + 1 + d.len();
            let e = c + 2 + t.len();
            &&& e + 4 <= s.len()
            &&& s[c] == 0x20 && s[c + 1] == 0x2F
            &&& stands_at(s, c + 2, t)
            &&& s[e] == 0x20
            &&& stands_at(s, e + 1, "put".spec_bytes())
        }),
        d.len() > 0,
        forall|k: int| 0 <= k < d.len() ==> is_digit(#[trigger] d[k]),
        N::spelled(d) == Some(v),
        v.whole_value() is Some,
        0 <= v.whole_value()->0 <= 255,
        forall|k: int| 0 <= k < t.len() ==> name_byte(#[trigger] t[k]),
        N::spelled("put".spec_bytes()) is None,
    ensures
        encoding_entry::<N>(s, at) == Some(
            (v.whole_value()->0 as int, t, at + 1 + d.len() + 2 + t.len() + 4),
        ),
{
    let c = at + 1 + d.len();
    let e = c + 2 + t.len();
    assert(lexeme::<N>(s, at) == Some((Lexeme::Number(v), c))) by {
        assert forall|k: int| 0 <= k < d.len() implies name_byte(#[trigger] d[k]) by {
            assert(is_digit(d[k]));
        }
        words_are_read::<N>(s, at + 1, d);
        white_space_is_passed_over::<N>(s, at);
    }
    assert(lexeme::<N>(s, c) == Some((Lexeme::<N>::Name(t), e))) by {
        names_are_read::<N>(s, c + 1, t);
        white_space_is_passed_over::<N>(s, c);
    }
    assert(lexeme::<N>(s, e) == Some((Lexeme::<N>::Word("put".spec_bytes()), e + 4))) by {
        lemma_put();
        words_are_read::<N>(s, e + 1, "put".spec_bytes());
        white_space_is_passed_over::<N>(s, e);
    }
}

proof fn lemma_from_entry<N: Number>(
    s: Seq<u8>,
    a: int,
    code: int,
    t: Seq<u8>,
    end: int,
    entries: Seq<Option<Seq<u8>>>,
    first: bool,
)
    requires
        lexeme::<N>(s, a) == Some((Lexeme::<N>::Word("dup".spec_bytes()), a + 3)),
        encoding_entry::<N>(s, a + 3) == Some((code, t, end)),
        0 <= a,
        a + 3 < end <= s.len(),
    ensures
        encoding_from::<N>(s, a, entries, first) == encoding_from::<N>(
            s,
            end,
            entries.update(code, Some(t)),
            false,
        ),
{
    lemma_put();
}

/// The program of a glyph is as many bytes as its number says, behind one
/// word and one blank, and is decrypted under the key 4330 with `skip` bytes
/// dropped.
pub proof fn programs_are_decrypted<N: Number>(
    pre: Seq<u8>,
    d: Seq<u8>,
    v: N,
    word: Seq<u8>,
    plain: Seq<u8>,
    cipher: Seq<u8>,
    keys: Seq<int>,
    post: Seq<u8>,
    skip: int,
)
    requires
        d.len() > 0,
        forall|k: int| 0 <= k < d.len() ==> is_digit(#[trigger] d[k]),
        N::spelled(d) == Some(v),
        v.whole_value() == Some(cipher.len() as i64),
        cipher.len() <= 10_000_000,
        word.len() > 0,
        forall|k: int| 0 <= k < word.len() ==> name_byte(#[trigger] word[k]),
        N::spelled(word) is None,
        encrypts(plain, cipher, keys, 4330),
        0 <= skip <= plain.len(),
    ensures
        ({
            let s = pre + seq![0x20u8] + d + seq![0x20u8] + word + seq![0x20u8] + cipher + post;
            let end = (pre.len() + 1 + d.len() + 1 + word.len() + 1 + cipher.len()) as int;
            program_at::<N>(s, pre.len() as int, skip) == Some((plain.skip(skip), end))
        }),
{
    let s = pre + seq![0x20u8] + d + seq![0x20u8] + word + seq![0x20u8] + cipher + post;
    let a = pre.len() as int + 1;
    let b = a + d.len();
    let c = b + 1 + word.len();
    assert(s[a - 1] == 0x20);
    assert(s.subrange(a, b) =~= d);
    assert(s[b] == 0x20);
    assert forall|k: int| 0 <= k < d.len() implies name_byte(#[trigger] d[k]) by {
        assert(is_digit(d[k]));
    }
    words_are_read::<N>(s, a, d);
    white_space_is_passed_over::<N>(s, a - 1);
    assert(s.subrange(b + 1, c) =~= word);
    assert(s[c] == 0x20);
    words_are_read::<N>(s, b + 1, word);
    white_space_is_passed_over::<N>(s, b);
    assert(s.subrange(c + 1, c + 1 + cipher.len()) =~= cipher);
    assert(binary_at(s, c, cipher.len() as int) == Some(cipher));
    ciphers_are_decrypted(plain, cipher, keys, 4330, skip);
}

} // verus!
