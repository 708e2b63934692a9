//! The standard encoding of fonts.

use crate::bytes::same_bytes;
use crate::text::{split_words, views, words};
use vstd::prelude::*;
use vstd::string::StringSliceAdditionalSpecFns;

verus! {

/// The name of the glyph that stands for what is missing.
pub const NOTDEF: &'static str = ".notdef";

/// The glyphs of the codes from 32 on.
pub const LOW_NAMES: &'static str =
    "space exclam quotedbl numbersign dollar percent ampersand quoteright parenleft parenright \
    asterisk plus comma hyphen period slash zero one two three four five six seven eight nine \
    colon semicolon less equal greater question at A B C D E F G H I J K L M N O P Q R S T U V \
    W X Y Z bracketleft backslash bracketright asciicircum underscore quoteleft a b c d e f g \
    h i j k l m n o p q r s t u v w x y z braceleft bar braceright asciitilde";

/// The glyphs of the codes from 161 on. A code without a glyph has `.notdef`.
pub const HIGH_NAMES: &'static str =
    "exclamdown cent sterling fraction yen florin section currency quotesingle quotedblleft \
    guillemotleft guilsinglleft guilsinglright fi fl .notdef endash dagger daggerdbl \
    periodcentered .notdef paragraph bullet quotesinglbase quotedblbase quotedblright \
    guillemotright ellipsis perthousand .notdef questiondown .notdef grave acute circumflex \
    tilde macron breve dotaccent dieresis .notdef ring cedilla .notdef hungarumlaut ogonek \
    caron emdash .notdef .notdef .notdef .notdef .notdef .notdef .notdef .notdef .notdef \
    .notdef .notdef .notdef .notdef .notdef .notdef .notdef AE .notdef ordfeminine .notdef \
    .notdef .notdef .notdef Lslash Oslash OE ordmasculine .notdef .notdef .notdef .notdef \
    .notdef ae .notdef .notdef .notdef dotlessi .notdef .notdef lslash oslash oe germandbls";

/// Word `i` of a table, unless it is `.notdef`.
pub open spec fn table_name(table: Seq<Seq<u8>>, i: int) -> Option<Seq<u8>> {
    if 0 <= i < table.len() && table[i] != NOTDEF.spec_bytes() {
        Some(table[i])
    } else {
        None
    }
}

/// The glyph of a code in the standard encoding.
pub open spec fn standard_glyph(code: int) -> Option<Seq<u8>> {
    if code < 161 {
        table_name(words(LOW_NAMES.spec_bytes()), code - 32)
    } else {
        table_name(words(HIGH_NAMES.spec_bytes()), code - 161)
    }
}

/// Word `i` of a table, unless it is `.notdef`.
fn name_in(table: &'static str, i: usize) -> (r: Option<Vec<u8>>)
    ensures
        match r {
            Some(name) => table_name(words(table.spec_bytes()), i as int) == Some(name@),
            None => table_name(words(table.spec_bytes()), i as int) is None,
        },
{
    let mut list = split_words(table.as_bytes());
    proof {
        assert(views(list@).len() == list@.len());
    }
    if i >= list.len() {
        return None;
    }
    proof {
        assert(views(list@)[i as int] == list@[i as int]@);
    }
    if same_bytes(list[i].as_slice(), NOTDEF.as_bytes()) {
        return None;
    }
    Some(list.swap_remove(i))
}

/// The glyph of a code in the standard encoding.
pub fn std_name(code: u8) -> (r: Option<Vec<u8>>)
    ensures
        match r {
            Some(name) => standard_glyph(code as int) == Some(name@),
            None => standard_glyph(code as int) is None,
        },
{
    if code < 32 {
        None
    } else if code < 161 {
        name_in(LOW_NAMES, (code - 32) as usize)
    } else {
        name_in(HIGH_NAMES, (code - 161) as usize)
    }
}

} // verus!
