//! Which numbers stand in a content stream, and in which form a stream is
//! stored.

use crate::content::{
    figures_end, inline_image, minified_content, number_places_from, regular_end, stored_form,
    string_close,
};
use crate::inline::known_operations_strict;
use vstd::prelude::*;
use vstd::string::StringSliceAdditionalSpecFns;

verus! {

/// A byte that names and operators are made of: neither white space nor one
/// of `()<>[]{}/%`.
pub open spec fn word_byte(b: u8) -> bool {
    &&& b != 0 && b != 0x09 && b != 0x0A && b != 0x0C && b != 0x0D && b != 0x20
    &&& b != 0x28 && b != 0x29 && b != 0x3C && b != 0x3E && b != 0x5B && b != 0x5D
    &&& b != 0x7B && b != 0x7D && b != 0x2F && b != 0x25
}

/// A digit or a point.
pub open spec fn figure(b: u8) -> bool {
    (0x30 <= b <= 0x39) || b == 0x2E
}

proof fn lemma_figures(s: Seq<u8>, i: int, end: int)
    requires
        0 <= i <= end <= s.len(),
        forall|k: int| i <= k < end ==> figure(#[trigger] s[k]),
        end < s.len() ==> !figure(s[end]),
    ensures
        figures_end(s, i) == end,
    decreases end - i,
{
    if i < end {
        assert(figure(s[i]));
        lemma_figures(s, i + 1, end);
    }
}

proof fn lemma_regular(s: Seq<u8>, i: int, end: int)
    requires
        0 <= i <= end <= s.len(),
        forall|k: int| i <= k < end ==> word_byte(#[trigger] s[k]),
        end < s.len() ==> !word_byte(s[end]),
    ensures
        regular_end(s, i) == end,
    decreases end - i,
{
    if i < end {
        assert(word_byte(s[i]));
        lemma_regular(s, i + 1, end);
    }
}

proof fn lemma_closed(s: Seq<u8>, i: int, end: int)
    requires
        0 <= i <= end < s.len(),
        s[end] == 0x29,
        forall|k: int|
            i <= k < end ==> (#[trigger] s[k]) != 0x28 && s[k] != 0x29 && s[k] != 0x5C,
    ensures
        string_close(s, i, 1) == Some(end + 1),
    decreases end - i,
{
    if i < end {
        assert(s[i] != 0x28);
        lemma_closed(s, i + 1, end);
    } else {
        assert(string_close(s, end + 1, 0) == Some(end + 1));
    }
}

/// A number in a content stream is found whole: a sign, a digit or a point,
/// and all digits and points behind it.
pub proof fn numbers_are_found_whole(pre: Seq<u8>, first: u8, t: Seq<u8>, post: Seq<u8>)
    requires
        figure(first) || first == 0x2B || first == 0x2D,
        forall|k: int| 0 <= k < t.len() ==> figure(#[trigger] t[k]),
        post.len() > 0 ==> !figure(post[0]),
    ensures
        ({
            let s = pre + seq![first] + t + post;
            let at = pre.len() as int;
            let end = (pre.len() + 1 + t.len()) as int;
            let rest = number_places_from(s, end);
            &&& rest is Some ==> number_places_from(s, at) == Some(seq![(at, end)] + rest->0)
            &&& rest is None ==> number_places_from(s, at) is None
        }),
{
    let s = pre + seq![first] + t + post;
    let at = pre.len() as int;
    let end = at + 1 + t.len();
    assert(s[at] == first);
    assert forall|k: int| at + 1 <= k < end implies figure(#[trigger] s[k]) by {
        assert(s[k] == t[k - at - 1]);
    }
    if end < s.len() {
        assert(s[end] == post[0]);
    }
    lemma_figures(s, at + 1, end);
}

/// No number is found inside a name, an operator or a string, whatever digits
/// it has: the search goes on behind it.
pub proof fn words_and_strings_hold_no_numbers(
    pre: Seq<u8>,
    first: u8,
    t: Seq<u8>,
    text: Seq<u8>,
    post: Seq<u8>,
)
    requires
        word_byte(first) && !figure(first) && first != 0x2B && first != 0x2D,
        forall|k: int| 0 <= k < t.len() ==> word_byte(#[trigger] t[k]),
        post.len() > 0 ==> !word_byte(post[0]),
        forall|k: int|
            0 <= k < text.len() ==> (#[trigger] text[k]) != 0x28 && text[k] != 0x29 && text[k]
                != 0x5C,
    ensures
        ({
            let s = pre + seq![0x2Fu8] + t + post;
            number_places_from(s, pre.len() as int) == number_places_from(
                s,
                (pre.len() + 1 + t.len()) as int,
            )
        }),
        ({
            let s = pre + seq![first] + t + post;
            number_places_from(s, pre.len() as int) == number_places_from(
                s,
                (pre.len() + 1 + t.len()) as int,
            )
        }),
        ({
            let s = pre + seq![0x28u8] + text + seq![0x29u8] + post;
            number_places_from(s, pre.len() as int) == number_places_from(
                s,
                (pre.len() + 2 + text.len()) as int,
            )
        }),
{
    let at = pre.len() as int;
    let end = at + 1 + t.len();
    let a = pre + seq![0x2Fu8] + t + post;
    assert(a[at] == 0x2F);
    assert forall|k: int| at + 1 <= k < end implies word_byte(#[trigger] a[k]) by {
        assert(a[k] == t[k - at - 1]);
    }
    if end < a.len() {
        assert(a[end] == post[0]);
    }
    lemma_regular(a, at + 1, end);
    let b = pre + seq![first] + t + post;
    assert(b[at] == first);
    assert forall|k: int| at + 1 <= k < end implies word_byte(#[trigger] b[k]) by {
        assert(b[k] == t[k - at - 1]);
    }
    if end < b.len() {
        assert(b[end] == post[0]);
    }
    lemma_regular(b, at + 1, end);
    let c = pre + seq![0x28u8] + text + seq![0x29u8] + post;
    let close = at + 1 + text.len();
    assert(c[at] == 0x28 && c[close] == 0x29);
    assert forall|k: int| at + 1 <= k < close implies (#[trigger] c[k]) != 0x28 && c[k] != 0x29
        && c[k] != 0x5C by {
        assert(c[k] == text[k - at - 1]);
    }
    lemma_closed(c, at + 1, close);
}

/// Content with an inline image is left as it is.
pub proof fn inline_images_are_left_alone(decoded: Seq<u8>, plain_stored: int, i: int)
    requires
        known_operations_strict(decoded) is Some,
        0 <= i < (known_operations_strict(decoded)->0).len(),
        (known_operations_strict(decoded)->0)[i].operator == "BI".spec_bytes(),
    ensures
        minified_content(decoded, plain_stored) is None,
{
    reveal_strlit("BI");
    assert("BI".is_ascii());
    assert("BI".spec_bytes() =~= inline_image());
}

/// A stream is stored in the smaller of both forms and told in which, and
/// only where that is smaller than what it takes now; a filter that it did
/// not have costs the nineteen bytes of its entry.
pub proof fn stored_form_is_smaller(
    text: Seq<u8>,
    disk_stored: int,
    gains_filter: bool,
    deflated: Option<Seq<u8>>,
)
    ensures
        match stored_form(text, disk_stored, gains_filter, deflated) {
            Some((form, packed)) => {
                &&& packed ==> deflated == Some(form) && form.len() < text.len()
                &&& !packed ==> form == text
                &&& packed && gains_filter ==> form.len() + "/Filter/FlateDecode".spec_bytes().len()
                    < disk_stored
                &&& form.len() < disk_stored
                &&& deflated is Some ==> form.len() <= (deflated->0).len()
                &&& form.len() <= text.len()
            },
            None => {
                &&& text.len() >= disk_stored || (deflated is Some && (deflated->0).len()
                    < text.len())
                &&& deflated is Some && (deflated->0).len() < text.len() && !gains_filter
                    ==> (deflated->0).len() >= disk_stored
            },
        },
{
    reveal_strlit("/Filter/FlateDecode");
    assert("/Filter/FlateDecode".is_ascii());
    assert("/Filter/FlateDecode".spec_bytes().len() == 19);
}

} // verus!
