//! Reading a Type 1 font program.

use crate::bytes::{same_bytes, to_vec};
use crate::dedup::opt_views;
use crate::text::views;
use crate::type1::crypt::{decrypt, decrypted, font_parts, split_and_decrypt, CHARSTRING_KEY};
use crate::type1::lexer::{binary_at, lexeme, Lexeme, Lexer, Token};
use crate::type1::number::Number;
use crate::type1::standard::{standard_glyph, std_name, NOTDEF};
use vstd::prelude::*;
use vstd::string::StringSliceAdditionalSpecFns;

verus! {

/// Most glyphs and subroutines that a font may have.
pub const MAX_GLYPHS: usize = 20_000;

/// Longest program of a glyph or a subroutine.
pub const MAX_PROGRAM: i64 = 10_000_000;

/// Whether a word is this one.
fn is_word(w: &[u8], text: &'static str) -> (r: bool)
    ensures
        r == (w@ == text.spec_bytes()),
{
    same_bytes(w, text.as_bytes())
}

// --- arrays of numbers ---------------------------------------------------------------------------

/// The numbers from `pos` on, up to the closing delimiter, after those read.
pub open spec fn numbers_from<N: Number>(
    s: Seq<u8>,
    pos: int,
    close: u8,
    max: int,
    read: Seq<N>,
) -> Option<(Seq<N>, int)>
    decreases s.len() - pos,
{
    match lexeme::<N>(s, pos) {
        Some((t, p)) => if pos < p <= s.len() {
            match t {
                Lexeme::Number(v) => if read.len() + 1 > max {
                    None
                } else {
                    numbers_from(s, p, close, max, read.push(v))
                },
                Lexeme::Delim(d) => if d == close {
                    Some((read, p))
                } else {
                    None
                },
                _ => None,
            }
        } else {
            None
        },
        None => None,
    }
}

/// The array of at most `max` numbers at `pos`, in brackets or braces.
pub open spec fn number_array<N: Number>(s: Seq<u8>, pos: int, max: int) -> Option<(Seq<N>, int)> {
    match lexeme::<N>(s, pos) {
        Some((Lexeme::Delim(d), p)) => if d == 0x5B {
            numbers_from(s, p, 0x5D, max, Seq::empty())
        } else if d == 0x7B {
            numbers_from(s, p, 0x7D, max, Seq::empty())
        } else {
            None
        },
        _ => None,
    }
}

/// The array of exactly `count` numbers at `pos`.
pub open spec fn exact_array<N: Number>(s: Seq<u8>, pos: int, count: int) -> Option<(Seq<N>, int)> {
    match number_array::<N>(s, pos, count) {
        Some((v, p)) => if v.len() == count {
            Some((v, p))
        } else {
            None
        },
        None => None,
    }
}

/// Reads an array of at most `max` numbers.
pub fn parse_number_array<N: Number>(lex: &mut Lexer, max: usize) -> (r: Option<Vec<N>>)
    requires
        old(lex).wf(),
    ensures
        final(lex).wf(),
        final(lex).data == old(lex).data,
        final(lex).pos >= old(lex).pos,
        match r {
            Some(v) => number_array::<N>(old(lex).data@, old(lex).pos as int, max as int) == Some(
                (v@, final(lex).pos as int),
            ),
            None => number_array::<N>(old(lex).data@, old(lex).pos as int, max as int) is None,
        },
{
    let ghost s = lex.data@;
    let ghost goal = number_array::<N>(s, lex.pos as int, max as int);
    let ghost begin = lex.pos;
    let close: u8 = match lex.next::<N>()? {
        Token::Delim(d) => if d == 0x5B {
            0x5D
        } else if d == 0x7B {
            0x7D
        } else {
            return None;
        },
        _ => {
            return None;
        },
    };
    let mut out: Vec<N> = Vec::new();
    loop
        invariant
            lex.wf(),
            lex.data == old(lex).data,
            lex.data@ == s,
            begin <= lex.pos,
            begin == old(lex).pos,
            goal == number_array::<N>(old(lex).data@, old(lex).pos as int, max as int),
            out@.len() <= max,
            goal == numbers_from(s, lex.pos as int, close, max as int, out@),
        decreases s.len() - lex.pos,
    {
        match lex.next::<N>()? {
            Token::Number(v) => {
                if out.len() >= max {
                    return None;
                }
                out.push(v);
            },
            Token::Delim(d) => {
                if d == close {
                    return Some(out);
                }
                return None;
            },
            _ => {
                return None;
            },
        }
    }
}

/// Reads an array of exactly `count` numbers.
pub fn parse_array<N: Number>(lex: &mut Lexer, count: usize) -> (r: Option<Vec<N>>)
    requires
        old(lex).wf(),
    ensures
        final(lex).wf(),
        final(lex).data == old(lex).data,
        final(lex).pos >= old(lex).pos,
        match r {
            Some(v) => exact_array::<N>(old(lex).data@, old(lex).pos as int, count as int) == Some(
                (v@, final(lex).pos as int),
            ) && v@.len() == count,
            None => exact_array::<N>(old(lex).data@, old(lex).pos as int, count as int) is None,
        },
{
    let out = parse_number_array::<N>(lex, count)?;
    if out.len() == count {
        Some(out)
    } else {
        None
    }
}

// --- the encoding --------------------------------------------------------------------------------------

/// The standard encoding as a list of 256 names.
pub open spec fn standard_entries() -> Seq<Option<Seq<u8>>> {
    Seq::new(256, |c: int| standard_glyph(c))
}

/// The whole number at `pos`, from `lo` to `hi`, and where it ends.
pub open spec fn whole_at<N: Number>(s: Seq<u8>, pos: int, lo: int, hi: int) -> Option<(int, int)> {
    match lexeme::<N>(s, pos) {
        Some((Lexeme::Number(v), p)) => match v.whole_value() {
            Some(i) => if lo <= i <= hi {
                Some((i as int, p))
            } else {
                None
            },
            None => None,
        },
        _ => None,
    }
}

/// The code and the name of the entry `code /name put` at `pos`.
pub open spec fn encoding_entry<N: Number>(s: Seq<u8>, pos: int) -> Option<(int, Seq<u8>, int)> {
    match lexeme::<N>(s, pos) {
        Some((Lexeme::Number(v), p)) => match lexeme::<N>(s, p) {
            Some((Lexeme::Name(name), q)) => match lexeme::<N>(s, q) {
                Some((Lexeme::Word(w), e)) => match v.whole_value() {
                    Some(i) => if w == "put".spec_bytes() && 0 <= i <= 255 {
                        Some((i as int, name, e))
                    } else {
                        None
                    },
                    None => None,
                },
                _ => None,
            },
            _ => None,
        },
        _ => None,
    }
}

/// The encoding from `pos` on, after the entries read: the name of the
/// standard encoding, if that comes first, or entries up to `def` or
/// `readonly`. Copying from another encoding is declined.
pub open spec fn encoding_from<N: Number>(
    s: Seq<u8>,
    pos: int,
    entries: Seq<Option<Seq<u8>>>,
    first: bool,
) -> Option<(Seq<Option<Seq<u8>>>, int)>
    decreases s.len() - pos,
{
    match lexeme::<N>(s, pos) {
        Some((t, p)) => if pos < p <= s.len() {
            match t {
                Lexeme::Word(w) => if w == "StandardEncoding".spec_bytes() {
                    if first {
                        Some((standard_entries(), p))
                    } else {
                        None
                    }
                } else if w == "def".spec_bytes() || w == "readonly".spec_bytes() {
                    Some((entries, p))
                } else if w == "dup".spec_bytes() {
                    match encoding_entry::<N>(s, p) {
                        Some((code, name, e)) => if p < e <= s.len() {
                            encoding_from::<N>(s, e, entries.update(code, Some(name)), false)
                        } else {
                            None
                        },
                        None => None,
                    }
                } else if w == "getinterval".spec_bytes() || w == "putinterval".spec_bytes() {
                    None
                } else {
                    encoding_from::<N>(s, p, entries, false)
                },
                _ => encoding_from::<N>(s, p, entries, false),
            }
        } else {
            None
        },
        None => None,
    }
}

/// 256 times nothing.
pub open spec fn no_entries() -> Seq<Option<Seq<u8>>> {
    Seq::new(256, |c: int| None)
}

/// Reads an entry `code /name put`.
fn parse_entry<N: Number>(lex: &mut Lexer) -> (r: Option<(usize, Vec<u8>)>)
    requires
        old(lex).wf(),
    ensures
        final(lex).wf(),
        final(lex).data == old(lex).data,
        final(lex).pos >= old(lex).pos,
        match r {
            Some(e) => encoding_entry::<N>(old(lex).data@, old(lex).pos as int) == Some(
                (e.0 as int, e.1@, final(lex).pos as int),
            ) && e.0 < 256 && final(lex).pos > old(lex).pos,
            None => encoding_entry::<N>(old(lex).data@, old(lex).pos as int) is None,
        },
{
    let code: N = match lex.next::<N>()? {
        Token::Number(v) => v,
        _ => {
            return None;
        },
    };
    let name = match lex.next::<N>()? {
        Token::Name(n) => n,
        _ => {
            return None;
        },
    };
    match lex.next::<N>()? {
        Token::Word(w) => {
            if !is_word(w, "put") {
                return None;
            }
        },
        _ => {
            return None;
        },
    }
    let i: i64 = code.whole()?;
    if i < 0 || i > 255 {
        return None;
    }
    Some((i as usize, to_vec(name)))
}

/// The standard encoding as a list.
fn standard_list() -> (r: Vec<Option<Vec<u8>>>)
    ensures
        opt_views(r@) == standard_entries(),
        r@.len() == 256,
{
    let mut out: Vec<Option<Vec<u8>>> = Vec::new();
    let mut c: u16 = 0;
    while c < 256
        invariant
            c <= 256,
            out@.len() == c,
            forall|k: int|
                0 <= k < c ==> #[trigger] opt_views(out@)[k] == standard_glyph(k),
        decreases 256 - c,
    {
        let ghost before = out@;
        let name = std_name(c as u8);
        out.push(name);
        proof {
            assert forall|k: int| 0 <= k <= c implies #[trigger] opt_views(out@)[k]
                == standard_glyph(k) by {
                if k < c {
                    assert(opt_views(before)[k] == standard_glyph(k));
                }
            }
        }
        c += 1;
    }
    proof {
        assert(opt_views(out@) =~= standard_entries());
    }
    out
}

/// Reads the encoding: the name of the standard encoding, or an array that
/// entries `dup code /name put` fill.
pub fn parse_encoding<N: Number>(lex: &mut Lexer) -> (r: Option<Vec<Option<Vec<u8>>>>)
    requires
        old(lex).wf(),
    ensures
        final(lex).wf(),
        final(lex).data == old(lex).data,
        final(lex).pos >= old(lex).pos,
        match r {
            Some(v) => encoding_from::<N>(
                old(lex).data@,
                old(lex).pos as int,
                no_entries(),
                true,
            ) == Some((opt_views(v@), final(lex).pos as int)) && v@.len() == 256,
            None => encoding_from::<N>(
                old(lex).data@,
                old(lex).pos as int,
                no_entries(),
                true,
            ) is None,
        },
{
    let ghost s = lex.data@;
    let ghost goal = encoding_from::<N>(s, lex.pos as int, no_entries(), true);
    let ghost begin = lex.pos;
    let mut entries: Vec<Option<Vec<u8>>> = Vec::new();
    while entries.len() < 256
        invariant
            entries@.len() <= 256,
            forall|k: int| 0 <= k < entries@.len() ==> (#[trigger] entries@[k]) is None,
        decreases 256 - entries@.len(),
    {
        entries.push(None);
    }
    proof {
        assert(opt_views(entries@) =~= no_entries());
    }
    let mut first = true;
    loop
        invariant
            lex.wf(),
            lex.data == old(lex).data,
            lex.data@ == s,
            begin <= lex.pos,
            begin == old(lex).pos,
            goal == encoding_from::<N>(old(lex).data@, old(lex).pos as int, no_entries(), true),
            entries@.len() == 256,
            goal == encoding_from::<N>(s, lex.pos as int, opt_views(entries@), first),
        decreases s.len() - lex.pos,
    {
        match lex.next::<N>()? {
            Token::Word(w) => {
                if is_word(w, "StandardEncoding") {
                    if first {
                        return Some(standard_list());
                    }
                    return None;
                }
                if is_word(w, "def") || is_word(w, "readonly") {
                    return Some(entries);
                }
                if is_word(w, "dup") {
                    let (code, name) = parse_entry::<N>(lex)?;
                    let ghost before = entries@;
                    entries.set(code, Some(name));
                    proof {
                        assert(opt_views(entries@) =~= opt_views(before).update(
                            code as int,
                            Some(name@),
                        ));
                    }
                } else if is_word(w, "getinterval") || is_word(w, "putinterval") {
                    return None;
                }
            },
            _ => {},
        }
        first = false;
    }
}

// --- the font -------------------------------------------------------------------------------------------

/// Hint parameters. What is missing keeps its default.
pub struct PrivateHints<N> {
    pub blue_values: Vec<N>,
    pub other_blues: Vec<N>,
    pub family_blues: Vec<N>,
    pub family_other_blues: Vec<N>,
    pub blue_scale: Option<N>,
    pub blue_shift: Option<N>,
    pub blue_fuzz: Option<N>,
    pub std_hw: Option<N>,
    pub std_vw: Option<N>,
    pub stem_snap_h: Vec<N>,
    pub stem_snap_v: Vec<N>,
    pub force_bold: Option<bool>,
    pub language_group: Option<N>,
}

/// The content of [`PrivateHints`].
pub struct HintsValue<N> {
    pub blue_values: Seq<N>,
    pub other_blues: Seq<N>,
    pub family_blues: Seq<N>,
    pub family_other_blues: Seq<N>,
    pub blue_scale: Option<N>,
    pub blue_shift: Option<N>,
    pub blue_fuzz: Option<N>,
    pub std_hw: Option<N>,
    pub std_vw: Option<N>,
    pub stem_snap_h: Seq<N>,
    pub stem_snap_v: Seq<N>,
    pub force_bold: Option<bool>,
    pub language_group: Option<N>,
}

impl<N> View for PrivateHints<N> {
    type V = HintsValue<N>;

    open spec fn view(&self) -> HintsValue<N> {
        HintsValue {
            blue_values: self.blue_values@,
            other_blues: self.other_blues@,
            family_blues: self.family_blues@,
            family_other_blues: self.family_other_blues@,
            blue_scale: self.blue_scale,
            blue_shift: self.blue_shift,
            blue_fuzz: self.blue_fuzz,
            std_hw: self.std_hw,
            std_vw: self.std_vw,
            stem_snap_h: self.stem_snap_h@,
            stem_snap_v: self.stem_snap_v@,
            force_bold: self.force_bold,
            language_group: self.language_group,
        }
    }
}

/// No hint parameters.
pub open spec fn no_hints<N>() -> HintsValue<N> {
    HintsValue {
        blue_values: Seq::empty(),
        other_blues: Seq::empty(),
        family_blues: Seq::empty(),
        family_other_blues: Seq::empty(),
        blue_scale: None,
        blue_shift: None,
        blue_fuzz: None,
        std_hw: None,
        std_vw: None,
        stem_snap_h: Seq::empty(),
        stem_snap_v: Seq::empty(),
        force_bold: None,
        language_group: None,
    }
}

/// A named outline program.
pub struct Program {
    pub name: Vec<u8>,
    pub code: Vec<u8>,
}

/// The names and programs of a list.
pub open spec fn program_views(list: Seq<Program>) -> Seq<(Seq<u8>, Seq<u8>)> {
    list.map_values(|p: Program| (p.name@, p.code@))
}

/// The place of a name among the first `n`.
pub open spec fn name_index(list: Seq<(Seq<u8>, Seq<u8>)>, name: Seq<u8>, n: int) -> Option<int>
    decreases n,
{
    if n <= 0 {
        None
    } else {
        match name_index(list, name, n - 1) {
            Some(i) => Some(i),
            None => if list[n - 1].0 == name {
                Some(n - 1)
            } else {
                None
            },
        }
    }
}

/// The program of a name.
pub open spec fn program_of(list: Seq<(Seq<u8>, Seq<u8>)>, name: Seq<u8>) -> Option<Seq<u8>> {
    match name_index(list, name, list.len() as int) {
        Some(i) => Some(list[i].1),
        None => None,
    }
}

/// The list with the program of a name set.
pub open spec fn with_program(
    list: Seq<(Seq<u8>, Seq<u8>)>,
    name: Seq<u8>,
    code: Seq<u8>,
) -> Seq<(Seq<u8>, Seq<u8>)> {
    match name_index(list, name, list.len() as int) {
        Some(i) => list.update(i, (name, code)),
        None => list.push((name, code)),
    }
}

proof fn lemma_name_index(list: Seq<(Seq<u8>, Seq<u8>)>, name: Seq<u8>, n: int)
    requires
        n <= list.len(),
    ensures
        match name_index(list, name, n) {
            Some(i) => 0 <= i < n && list[i].0 == name,
            None => forall|k: int| 0 <= k < n ==> (#[trigger] list[k]).0 != name,
        },
    decreases n,
{
    if n > 0 {
        lemma_name_index(list, name, n - 1);
    }
}

/// Setting the program of a name sets that one and no other.
pub proof fn set_program_is_found(
    list: Seq<(Seq<u8>, Seq<u8>)>,
    name: Seq<u8>,
    code: Seq<u8>,
    other: Seq<u8>,
)
    ensures
        program_of(with_program(list, name, code), name) == Some(code),
        other != name ==> program_of(with_program(list, name, code), other) == program_of(
            list,
            other,
        ),
{
    let n = list.len() as int;
    let next = with_program(list, name, code);
    lemma_name_index(list, name, n);
    match name_index(list, name, n) {
        Some(i) => {
            lemma_same_names(list, next, name, n);
            lemma_same_names(list, next, other, n);
            if other != name {
                lemma_name_index(list, other, n);
            }
        },
        None => {
            lemma_same_names(list, next, name, n);
            lemma_same_names(list, next, other, n);
            lemma_name_index(list, other, n);
        },
    }
}

proof fn lemma_same_names(
    a: Seq<(Seq<u8>, Seq<u8>)>,
    b: Seq<(Seq<u8>, Seq<u8>)>,
    name: Seq<u8>,
    n: int,
)
    requires
        n <= a.len(),
        n <= b.len(),
        forall|k: int| 0 <= k < n ==> (#[trigger] a[k]).0 == b[k].0,
    ensures
        name_index(a, name, n) == name_index(b, name, n),
    decreases n,
{
    if n > 0 {
        lemma_same_names(a, b, name, n - 1);
    }
}

/// The place of a name.
fn find_name(list: &Vec<Program>, name: &[u8]) -> (r: Option<usize>)
    ensures
        match r {
            Some(i) => name_index(program_views(list@), name@, list@.len() as int) == Some(i as int)
                && i < list@.len() && list@[i as int].name@ == name@,
            None => name_index(program_views(list@), name@, list@.len() as int) is None,
        },
{
    let ghost v = program_views(list@);
    let mut i: usize = 0;
    while i < list.len()
        invariant
            i <= list@.len(),
            v == program_views(list@),
            name_index(v, name@, i as int) is None,
        decreases list@.len() - i,
    {
        proof {
            assert(v[i as int] == (list@[i as int].name@, list@[i as int].code@));
        }
        if same_bytes(list[i].name.as_slice(), name) {
            proof {
                lemma_first_name(v, name@, i as int, list@.len() as int);
            }
            return Some(i);
        }
        i += 1;
    }
    None
}

proof fn lemma_first_name(list: Seq<(Seq<u8>, Seq<u8>)>, name: Seq<u8>, i: int, n: int)
    requires
        0 <= i < n <= list.len(),
        name_index(list, name, i) is None,
        list[i].0 == name,
    ensures
        name_index(list, name, n) == Some(i),
    decreases n,
{
    if n > i + 1 {
        lemma_first_name(list, name, i, n - 1);
    }
}

/// A Type 1 font program: the header fields, and the programs in the clear.
pub struct Type1Font<N> {
    pub font_name: Vec<u8>,
    pub font_matrix: Vec<N>,
    pub font_bbox: Vec<N>,
    pub paint_type: N,
    /// The name of the glyph of each of the 256 codes.
    pub encoding: Vec<Option<Vec<u8>>>,
    /// The programs of the glyphs.
    pub charstrings: Vec<Program>,
    /// The subroutines.
    pub subrs: Vec<Vec<u8>>,
    pub hints: PrivateHints<N>,
}

/// The content of a [`Type1Font`].
pub struct FontValue<N> {
    pub font_name: Seq<u8>,
    pub font_matrix: Seq<N>,
    pub font_bbox: Seq<N>,
    pub paint_type: N,
    pub encoding: Seq<Option<Seq<u8>>>,
    pub charstrings: Seq<(Seq<u8>, Seq<u8>)>,
    pub subrs: Seq<Seq<u8>>,
    pub hints: HintsValue<N>,
}

impl<N> View for Type1Font<N> {
    type V = FontValue<N>;

    open spec fn view(&self) -> FontValue<N> {
        FontValue {
            font_name: self.font_name@,
            font_matrix: self.font_matrix@,
            font_bbox: self.font_bbox@,
            paint_type: self.paint_type,
            encoding: opt_views(self.encoding@),
            charstrings: program_views(self.charstrings@),
            subrs: views(self.subrs@),
            hints: self.hints@,
        }
    }
}

impl<N> Type1Font<N> {
    /// The encoding has 256 codes.
    pub open spec fn wf(&self) -> bool {
        self.encoding@.len() == 256
    }

    /// The glyph of a code in the encoding of the font.
    pub fn builtin_name(&self, code: u8) -> (r: Option<&[u8]>)
        requires
            self.wf(),
        ensures
            match r {
                Some(name) => self@.encoding[code as int] == Some(name@) && name@
                    != NOTDEF.spec_bytes(),
                None => self@.encoding[code as int] is None || self@.encoding[code as int] == Some(
                    NOTDEF.spec_bytes(),
                ),
            },
    {
        match &self.encoding[code as usize] {
            Some(name) => if is_word(name.as_slice(), NOTDEF) {
                None
            } else {
                Some(name.as_slice())
            },
            None => None,
        }
    }

    /// The program of a glyph.
    pub fn program(&self, name: &[u8]) -> (r: Option<&[u8]>)
        ensures
            match r {
                Some(code) => program_of(self@.charstrings, name@) == Some(code@),
                None => program_of(self@.charstrings, name@) is None,
            },
    {
        match find_name(&self.charstrings, name) {
            Some(i) => Some(self.charstrings[i].code.as_slice()),
            None => None,
        }
    }

    /// Whether the font has a glyph of this name.
    pub fn has_glyph(&self, name: &[u8]) -> (r: bool)
        ensures
            r == (program_of(self@.charstrings, name@) is Some),
    {
        find_name(&self.charstrings, name).is_some()
    }
}

// --- the encrypted part -------------------------------------------------------------------------------

/// What the encrypted part has given so far.
pub struct PrivateValue<N> {
    pub len_iv: int,
    pub hints: HintsValue<N>,
    pub subrs: Seq<Seq<u8>>,
    pub charstrings: Seq<(Seq<u8>, Seq<u8>)>,
}

/// The most numbers of the array that a key has.
pub open spec fn array_max(key: Seq<u8>) -> Option<int> {
    if key == "BlueValues".spec_bytes() || key == "FamilyBlues".spec_bytes() {
        Some(14)
    } else if key == "OtherBlues".spec_bytes() || key == "FamilyOtherBlues".spec_bytes() {
        Some(10)
    } else if key == "StemSnapH".spec_bytes() || key == "StemSnapV".spec_bytes() {
        Some(12)
    } else if key == "StdHW".spec_bytes() || key == "StdVW".spec_bytes() {
        Some(1)
    } else {
        None
    }
}

/// The first of a list.
pub open spec fn first_of<N>(v: Seq<N>) -> Option<N> {
    if v.len() > 0 {
        Some(v[0])
    } else {
        None
    }
}

/// The hints with the array of a key set.
pub open spec fn with_array<N>(h: HintsValue<N>, key: Seq<u8>, v: Seq<N>) -> HintsValue<N> {
    if key == "BlueValues".spec_bytes() {
        HintsValue { blue_values: v, ..h }
    } else if key == "OtherBlues".spec_bytes() {
        HintsValue { other_blues: v, ..h }
    } else if key == "FamilyBlues".spec_bytes() {
        HintsValue { family_blues: v, ..h }
    } else if key == "FamilyOtherBlues".spec_bytes() {
        HintsValue { family_other_blues: v, ..h }
    } else if key == "StemSnapH".spec_bytes() {
        HintsValue { stem_snap_h: v, ..h }
    } else if key == "StemSnapV".spec_bytes() {
        HintsValue { stem_snap_v: v, ..h }
    } else if key == "StdHW".spec_bytes() {
        HintsValue { std_hw: first_of(v), ..h }
    } else {
        HintsValue { std_vw: first_of(v), ..h }
    }
}

/// The key has a number.
pub open spec fn is_number_key(key: Seq<u8>) -> bool {
    key == "BlueScale".spec_bytes() || key == "BlueShift".spec_bytes() || key
        == "BlueFuzz".spec_bytes() || key == "LanguageGroup".spec_bytes()
}

/// The hints with the number of a key set.
pub open spec fn with_number<N>(h: HintsValue<N>, key: Seq<u8>, v: Option<N>) -> HintsValue<N> {
    if key == "BlueScale".spec_bytes() {
        HintsValue { blue_scale: v, ..h }
    } else if key == "BlueShift".spec_bytes() {
        HintsValue { blue_shift: v, ..h }
    } else if key == "BlueFuzz".spec_bytes() {
        HintsValue { blue_fuzz: v, ..h }
    } else {
        HintsValue { language_group: v, ..h }
    }
}

/// The number at `pos`, if there is one, and where the token ends.
pub open spec fn number_at<N: Number>(s: Seq<u8>, pos: int) -> (Option<N>, int) {
    match lexeme::<N>(s, pos) {
        Some((Lexeme::Number(v), p)) => (Some(v), p),
        Some((_, p)) => (None, p),
        None => (None, s.len() as int),
    }
}

/// The binary program at `pos`, in the clear: its length, a word, and as many
/// bytes.
pub open spec fn program_at<N: Number>(s: Seq<u8>, pos: int, len_iv: int) -> Option<
    (Seq<u8>, int),
> {
    match whole_at::<N>(s, pos, 0, MAX_PROGRAM as int) {
        Some((len, p)) => match lexeme::<N>(s, p) {
            Some((Lexeme::Word(_), q)) => match binary_at(s, q, len) {
                Some(raw) => match decrypted(raw, CHARSTRING_KEY, len_iv) {
                    Some(plain) => Some((plain, q + 1 + len)),
                    None => None,
                },
                None => None,
            },
            _ => None,
        },
        None => None,
    }
}

/// The subroutines from `pos` on, until `left` were read: each `dup`, an
/// index and a program, with other words between them.
pub open spec fn subrs_from<N: Number>(
    s: Seq<u8>,
    pos: int,
    left: int,
    len_iv: int,
    list: Seq<Seq<u8>>,
) -> Option<(Seq<Seq<u8>>, int)>
    decreases s.len() - pos,
{
    if left <= 0 {
        Some((list, pos))
    } else {
        match lexeme::<N>(s, pos) {
            Some((Lexeme::Word(w), p)) => if !(pos < p <= s.len()) {
                None
            } else if w != "dup".spec_bytes() {
                subrs_from::<N>(s, p, left, len_iv, list)
            } else {
                match whole_at::<N>(s, p, 0, i64::MAX as int) {
                    Some((i, q)) => match program_at::<N>(s, q, len_iv) {
                        Some((plain, e)) => if i < list.len() && p < e <= s.len() {
                            subrs_from::<N>(s, e, left - 1, len_iv, list.update(i, plain))
                        } else {
                            None
                        },
                        None => None,
                    },
                    None => None,
                }
            },
            _ => None,
        }
    }
}

/// The subroutines at `pos`: their number, and then each of them.
pub open spec fn subrs_at<N: Number>(s: Seq<u8>, pos: int, len_iv: int) -> Option<
    (Seq<Seq<u8>>, int),
> {
    match whole_at::<N>(s, pos, 0, MAX_GLYPHS as int) {
        Some((count, p)) => subrs_from::<N>(
            s,
            p,
            count,
            len_iv,
            Seq::new(count as nat, |i: int| Seq::<u8>::empty()),
        ),
        None => None,
    }
}

/// Where the word `begin` that numbers and words precede ends.
pub open spec fn begin_from<N: Number>(s: Seq<u8>, pos: int) -> Option<int>
    decreases s.len() - pos,
{
    match lexeme::<N>(s, pos) {
        Some((t, p)) => if !(pos < p <= s.len()) {
            None
        } else {
            match t {
                Lexeme::Word(w) => if w == "begin".spec_bytes() {
                    Some(p)
                } else {
                    begin_from::<N>(s, p)
                },
                Lexeme::Number(_) => begin_from::<N>(s, p),
                _ => None,
            }
        },
        None => None,
    }
}

/// The programs of the glyphs from `pos` on, up to the word `end`: each a
/// name and a program, with other words between them.
pub open spec fn charstrings_from<N: Number>(
    s: Seq<u8>,
    pos: int,
    len_iv: int,
    list: Seq<(Seq<u8>, Seq<u8>)>,
) -> Option<Seq<(Seq<u8>, Seq<u8>)>>
    decreases s.len() - pos,
{
    match lexeme::<N>(s, pos) {
        Some((t, p)) => if !(pos < p <= s.len()) {
            None
        } else {
            match t {
                Lexeme::Word(w) => if w == "end".spec_bytes() {
                    Some(list)
                } else {
                    charstrings_from::<N>(s, p, len_iv, list)
                },
                Lexeme::Name(name) => match program_at::<N>(s, p, len_iv) {
                    Some((plain, e)) => if list.len() < MAX_GLYPHS && p < e <= s.len() {
                        charstrings_from::<N>(s, e, len_iv, with_program(list, name, plain))
                    } else {
                        None
                    },
                    None => None,
                },
                _ => None,
            }
        },
        None => None,
    }
}

/// What the entry of a key gives, and where it ends.
pub open spec fn private_entry<N: Number>(
    s: Seq<u8>,
    pos: int,
    key: Seq<u8>,
    v: PrivateValue<N>,
) -> Option<(PrivateValue<N>, int)> {
    if key == "lenIV".spec_bytes() {
        match whole_at::<N>(s, pos, 0, 16) {
            Some((i, p)) => Some((PrivateValue { len_iv: i, ..v }, p)),
            None => None,
        }
    } else if array_max(key) is Some {
        match number_array::<N>(s, pos, array_max(key)->0) {
            Some((a, p)) => Some((PrivateValue { hints: with_array(v.hints, key, a), ..v }, p)),
            None => None,
        }
    } else if is_number_key(key) {
        let (n, p) = number_at::<N>(s, pos);
        Some((PrivateValue { hints: with_number(v.hints, key, n), ..v }, p))
    } else if key == "ForceBold".spec_bytes() {
        match lexeme::<N>(s, pos) {
            Some((Lexeme::Word(w), p)) => if w == "true".spec_bytes() {
                Some(
                    (PrivateValue { hints: HintsValue { force_bold: Some(true), ..v.hints }, ..v }, p),
                )
            } else if w == "false".spec_bytes() {
                Some(
                    (PrivateValue { hints: HintsValue { force_bold: Some(false), ..v.hints }, ..v }, p),
                )
            } else {
                None
            },
            _ => None,
        }
    } else if key == "Subrs".spec_bytes() {
        match subrs_at::<N>(s, pos, v.len_iv) {
            Some((list, p)) => Some((PrivateValue { subrs: list, ..v }, p)),
            None => None,
        }
    } else {
        Some((v, pos))
    }
}

/// What the encrypted part gives from `pos` on. It ends with the programs of
/// the glyphs; nothing is read past them, so no keyword is ever looked for
/// inside binary data.
pub open spec fn private_from<N: Number>(s: Seq<u8>, pos: int, v: PrivateValue<N>) -> Option<
    PrivateValue<N>,
>
    decreases s.len() - pos,
{
    match lexeme::<N>(s, pos) {
        Some((t, p)) => if !(pos < p <= s.len()) {
            None
        } else {
            match t {
                Lexeme::Name(key) => if key == "CharStrings".spec_bytes() {
                    match begin_from::<N>(s, p) {
                        Some(q) => match charstrings_from::<N>(s, q, v.len_iv, v.charstrings) {
                            Some(list) => Some(PrivateValue { charstrings: list, ..v }),
                            None => None,
                        },
                        None => None,
                    }
                } else {
                    match private_entry(s, p, key, v) {
                        Some((next, q)) => if p <= q <= s.len() {
                            private_from(s, q, next)
                        } else {
                            None
                        },
                        None => None,
                    }
                },
                _ => private_from(s, p, v),
            }
        },
        None => None,
    }
}

/// What the encrypted part starts from.
pub open spec fn empty_private<N>() -> PrivateValue<N> {
    PrivateValue {
        len_iv: 4,
        hints: no_hints(),
        subrs: Seq::empty(),
        charstrings: Seq::empty(),
    }
}

/// What the encrypted part has given so far.
struct Private<N> {
    len_iv: usize,
    hints: PrivateHints<N>,
    subrs: Vec<Vec<u8>>,
    charstrings: Vec<Program>,
}

impl<N> View for Private<N> {
    type V = PrivateValue<N>;

    closed spec fn view(&self) -> PrivateValue<N> {
        PrivateValue {
            len_iv: self.len_iv as int,
            hints: self.hints@,
            subrs: views(self.subrs@),
            charstrings: program_views(self.charstrings@),
        }
    }
}

/// Reads a whole number from `lo` to `hi`.
fn parse_whole<N: Number>(lex: &mut Lexer, lo: i64, hi: i64) -> (r: Option<i64>)
    requires
        old(lex).wf(),
    ensures
        final(lex).wf(),
        final(lex).data == old(lex).data,
        final(lex).pos >= old(lex).pos,
        match r {
            Some(i) => whole_at::<N>(old(lex).data@, old(lex).pos as int, lo as int, hi as int)
                == Some((i as int, final(lex).pos as int)) && lo <= i <= hi && final(lex).pos > old(
                lex,
            ).pos,
            None => whole_at::<N>(old(lex).data@, old(lex).pos as int, lo as int, hi as int)
                is None,
        },
{
    match lex.next::<N>()? {
        Token::Number(v) => {
            let i: i64 = v.whole()?;
            if lo <= i && i <= hi {
                Some(i)
            } else {
                None
            }
        },
        _ => None,
    }
}

/// Reads the number that comes next, if it is one.
pub fn next_number<N: Number>(lex: &mut Lexer) -> (r: Option<N>)
    requires
        old(lex).wf(),
    ensures
        final(lex).wf(),
        final(lex).data == old(lex).data,
        final(lex).pos >= old(lex).pos,
        (r, final(lex).pos as int) == number_at::<N>(old(lex).data@, old(lex).pos as int),
{
    match lex.next::<N>()? {
        Token::Number(v) => Some(v),
        _ => None,
    }
}

/// Reads a binary program, in the clear.
fn parse_program<N: Number>(lex: &mut Lexer, len_iv: usize) -> (r: Option<Vec<u8>>)
    requires
        old(lex).wf(),
    ensures
        final(lex).wf(),
        final(lex).data == old(lex).data,
        final(lex).pos >= old(lex).pos,
        match r {
            Some(code) => program_at::<N>(old(lex).data@, old(lex).pos as int, len_iv as int)
                == Some((code@, final(lex).pos as int)) && final(lex).pos > old(lex).pos,
            None => program_at::<N>(old(lex).data@, old(lex).pos as int, len_iv as int) is None,
        },
{
    let len: i64 = parse_whole::<N>(lex, 0, MAX_PROGRAM)?;
    match lex.next::<N>()? {
        Token::Word(_) => {},
        _ => {
            return None;
        },
    }
    let raw = lex.read_binary(len as usize)?;
    decrypt(raw, CHARSTRING_KEY, len_iv)
}

/// Reads the subroutines.
pub fn parse_subrs<N: Number>(lex: &mut Lexer, len_iv: usize) -> (r: Option<Vec<Vec<u8>>>)
    requires
        old(lex).wf(),
    ensures
        final(lex).wf(),
        final(lex).data == old(lex).data,
        final(lex).pos >= old(lex).pos,
        match r {
            Some(list) => subrs_at::<N>(old(lex).data@, old(lex).pos as int, len_iv as int) == Some(
                (views(list@), final(lex).pos as int),
            ),
            None => subrs_at::<N>(old(lex).data@, old(lex).pos as int, len_iv as int) is None,
        },
{
    let ghost s = lex.data@;
    let ghost goal = subrs_at::<N>(s, lex.pos as int, len_iv as int);
    let count: i64 = parse_whole::<N>(lex, 0, MAX_GLYPHS as i64)?;
    let mut list: Vec<Vec<u8>> = Vec::new();
    while list.len() < count as usize
        invariant
            0 <= count <= MAX_GLYPHS,
            list@.len() <= count,
            forall|k: int| 0 <= k < list@.len() ==> (#[trigger] list@[k])@.len() == 0,
        decreases count - list@.len(),
    {
        list.push(Vec::new());
    }
    proof {
        let blank_list = Seq::new(count as nat, |i: int| Seq::<u8>::empty());
        assert forall|k: int| 0 <= k < count implies #[trigger] views(list@)[k]
            == blank_list[k] by {
            assert(list@[k]@.len() == 0);
            assert(list@[k]@ =~= Seq::empty());
        }
        assert(views(list@) =~= blank_list);
    }
    let mut left: i64 = count;
    while left > 0
        invariant
            lex.wf(),
            lex.data == old(lex).data,
            lex.data@ == s,
            lex.pos >= old(lex).pos,
            0 <= left,
            goal == subrs_at::<N>(old(lex).data@, old(lex).pos as int, len_iv as int),
            goal == subrs_from::<N>(s, lex.pos as int, left as int, len_iv as int, views(list@)),
        decreases s.len() - lex.pos,
    {
        match lex.next::<N>()? {
            Token::Word(w) => {
                if is_word(w, "dup") {
                    let i: i64 = parse_whole::<N>(lex, 0, i64::MAX)?;
                    let code = parse_program::<N>(lex, len_iv)?;
                    if i as u64 >= list.len() as u64 {
                        return None;
                    }
                    let ghost before = list@;
                    list.set(i as usize, code);
                    proof {
                        assert(views(list@) =~= views(before).update(i as int, code@));
                    }
                    left -= 1;
                }
            },
            _ => {
                return None;
            },
        }
    }
    Some(list)
}

/// Sets the program of a name.
fn put_program(list: &mut Vec<Program>, name: &[u8], code: Vec<u8>)
    ensures
        program_views(final(list)@) == with_program(program_views(old(list)@), name@, code@),
{
    let ghost before = program_views(list@);
    match find_name(list, name) {
        Some(i) => {
            list.set(i, Program { name: to_vec(name), code });
            proof {
                assert(program_views(list@) =~= before.update(i as int, (name@, code@)));
            }
        },
        None => {
            list.push(Program { name: to_vec(name), code });
            proof {
                assert(program_views(list@) =~= before.push((name@, code@)));
            }
        },
    }
}

/// Reads up to the word `begin`.
fn skip_to_begin<N: Number>(lex: &mut Lexer) -> (r: Option<()>)
    requires
        old(lex).wf(),
    ensures
        final(lex).wf(),
        final(lex).data == old(lex).data,
        match r {
            Some(_) => begin_from::<N>(old(lex).data@, old(lex).pos as int) == Some(
                final(lex).pos as int,
            ),
            None => begin_from::<N>(old(lex).data@, old(lex).pos as int) is None,
        },
{
    loop
        invariant
            lex.wf(),
            lex.data == old(lex).data,
            begin_from::<N>(old(lex).data@, old(lex).pos as int) == begin_from::<N>(
                lex.data@,
                lex.pos as int,
            ),
        decreases lex.data@.len() - lex.pos,
    {
        match lex.next::<N>()? {
            Token::Word(w) => {
                if is_word(w, "begin") {
                    return Some(());
                }
            },
            Token::Number(_) => {},
            _ => {
                return None;
            },
        }
    }
}

/// Reads the programs of the glyphs.
pub fn parse_charstrings<N: Number>(
    lex: &mut Lexer,
    len_iv: usize,
    charstrings: Vec<Program>,
) -> (r: Option<Vec<Program>>)
    requires
        old(lex).wf(),
    ensures
        match begin_from::<N>(old(lex).data@, old(lex).pos as int) {
            Some(p) => match r {
                Some(list) => charstrings_from::<N>(
                    old(lex).data@,
                    p,
                    len_iv as int,
                    program_views(charstrings@),
                ) == Some(program_views(list@)),
                None => charstrings_from::<N>(
                    old(lex).data@,
                    p,
                    len_iv as int,
                    program_views(charstrings@),
                ) is None,
            },
            None => r is None,
        },
{
    skip_to_begin::<N>(lex)?;
    let ghost s = lex.data@;
    let ghost goal = charstrings_from::<N>(
        s,
        lex.pos as int,
        len_iv as int,
        program_views(charstrings@),
    );
    let ghost start = lex.pos as int;
    let mut list = charstrings;
    loop
        invariant
            lex.wf(),
            lex.data == old(lex).data,
            lex.data@ == s,
            begin_from::<N>(old(lex).data@, old(lex).pos as int) == Some(start),
            goal == charstrings_from::<N>(
                s,
                start,
                len_iv as int,
                program_views(charstrings@),
            ),
            goal == charstrings_from::<N>(
                s,
                lex.pos as int,
                len_iv as int,
                program_views(list@),
            ),
        decreases s.len() - lex.pos,
    {
        match lex.next::<N>()? {
            Token::Word(w) => {
                if is_word(w, "end") {
                    return Some(list);
                }
            },
            Token::Name(name) => {
                let code = parse_program::<N>(lex, len_iv)?;
                proof {
                    assert(program_views(list@).len() == list@.len());
                }
                if list.len() >= MAX_GLYPHS {
                    return None;
                }
                put_program(&mut list, name, code);
            },
            _ => {
                return None;
            },
        }
    }
}

/// The most numbers of the array that a key has.
fn max_of(key: &[u8]) -> (r: Option<usize>)
    ensures
        match r {
            Some(m) => array_max(key@) == Some(m as int),
            None => array_max(key@) is None,
        },
{
    if is_word(key, "BlueValues") || is_word(key, "FamilyBlues") {
        Some(14)
    } else if is_word(key, "OtherBlues") || is_word(key, "FamilyOtherBlues") {
        Some(10)
    } else if is_word(key, "StemSnapH") || is_word(key, "StemSnapV") {
        Some(12)
    } else if is_word(key, "StdHW") || is_word(key, "StdVW") {
        Some(1)
    } else {
        None
    }
}

/// The first of a list.
fn head<N: Copy>(v: &Vec<N>) -> (r: Option<N>)
    ensures
        r == first_of(v@),
{
    if v.len() > 0 {
        Some(v[0])
    } else {
        None
    }
}

/// Sets the array of a key.
fn set_array<N: Copy>(h: &mut PrivateHints<N>, key: &[u8], v: Vec<N>)
    ensures
        final(h)@ == with_array(old(h)@, key@, v@),
{
    if is_word(key, "BlueValues") {
        h.blue_values = v;
    } else if is_word(key, "OtherBlues") {
        h.other_blues = v;
    } else if is_word(key, "FamilyBlues") {
        h.family_blues = v;
    } else if is_word(key, "FamilyOtherBlues") {
        h.family_other_blues = v;
    } else if is_word(key, "StemSnapH") {
        h.stem_snap_h = v;
    } else if is_word(key, "StemSnapV") {
        h.stem_snap_v = v;
    } else if is_word(key, "StdHW") {
        h.std_hw = head(&v);
    } else {
        h.std_vw = head(&v);
    }
}

/// Whether the key has a number.
fn has_number(key: &[u8]) -> (r: bool)
    ensures
        r == is_number_key(key@),
{
    is_word(key, "BlueScale") || is_word(key, "BlueShift") || is_word(key, "BlueFuzz")
        || is_word(key, "LanguageGroup")
}

/// Sets the number of a key.
fn set_number<N: Copy>(h: &mut PrivateHints<N>, key: &[u8], v: Option<N>)
    ensures
        final(h)@ == with_number(old(h)@, key@, v),
{
    if is_word(key, "BlueScale") {
        h.blue_scale = v;
    } else if is_word(key, "BlueShift") {
        h.blue_shift = v;
    } else if is_word(key, "BlueFuzz") {
        h.blue_fuzz = v;
    } else {
        h.language_group = v;
    }
}

/// Reads the entry of a key other than the programs of the glyphs.
fn parse_private_entry<N: Number>(lex: &mut Lexer, key: &[u8], v: &mut Private<N>) -> (r: Option<
    (),
>)
    requires
        old(lex).wf(),
    ensures
        final(lex).wf(),
        final(lex).data == old(lex).data,
        final(lex).pos >= old(lex).pos,
        match r {
            Some(_) => private_entry(old(lex).data@, old(lex).pos as int, key@, old(v)@) == Some(
                (final(v)@, final(lex).pos as int),
            ),
            None => private_entry(old(lex).data@, old(lex).pos as int, key@, old(v)@) is None,
        },
{
    if is_word(key, "lenIV") {
        let i: i64 = parse_whole::<N>(lex, 0, 16)?;
        v.len_iv = i as usize;
        return Some(());
    }
    if let Some(max) = max_of(key) {
        let list = parse_number_array::<N>(lex, max)?;
        set_array(&mut v.hints, key, list);
        return Some(());
    }
    if has_number(key) {
        let n = next_number::<N>(lex);
        set_number(&mut v.hints, key, n);
        return Some(());
    }
    if is_word(key, "ForceBold") {
        match lex.next::<N>()? {
            Token::Word(w) => {
                if is_word(w, "true") {
                    v.hints.force_bold = Some(true);
                } else if is_word(w, "false") {
                    v.hints.force_bold = Some(false);
                } else {
                    return None;
                }
            },
            _ => {
                return None;
            },
        }
        return Some(());
    }
    if is_word(key, "Subrs") {
        v.subrs = parse_subrs::<N>(lex, v.len_iv)?;
        return Some(());
    }
    Some(())
}

/// No hint parameters.
fn new_hints<N>() -> (r: PrivateHints<N>)
    ensures
        r@ == no_hints::<N>(),
{
    PrivateHints {
        blue_values: Vec::new(),
        other_blues: Vec::new(),
        family_blues: Vec::new(),
        family_other_blues: Vec::new(),
        blue_scale: None,
        blue_shift: None,
        blue_fuzz: None,
        std_hw: None,
        std_vw: None,
        stem_snap_h: Vec::new(),
        stem_snap_v: Vec::new(),
        force_bold: None,
        language_group: None,
    }
}

/// Reads the encrypted part, in the clear.
fn parse_private<N: Number>(data: &[u8]) -> (r: Option<Private<N>>)
    ensures
        match r {
            Some(v) => private_from::<N>(data@, 0, empty_private()) == Some(v@),
            None => private_from::<N>(data@, 0, empty_private()) is None,
        },
{
    let mut lex = Lexer::new(data);
    let mut v: Private<N> = Private {
        len_iv: 4,
        hints: new_hints(),
        subrs: Vec::new(),
        charstrings: Vec::new(),
    };
    proof {
        assert(v@.subrs =~= Seq::<Seq<u8>>::empty());
        assert(v@.charstrings =~= Seq::<(Seq<u8>, Seq<u8>)>::empty());
    }
    loop
        invariant
            lex.wf(),
            lex.data == data,
            private_from::<N>(data@, 0, empty_private()) == private_from(
                data@,
                lex.pos as int,
                v@,
            ),
        decreases data@.len() - lex.pos,
    {
        match lex.next::<N>()? {
            Token::Name(key) => {
                if is_word(key, "CharStrings") {
                    let list = parse_charstrings::<N>(&mut lex, v.len_iv, v.charstrings)?;
                    return Some(
                        Private {
                            len_iv: v.len_iv,
                            hints: v.hints,
                            subrs: v.subrs,
                            charstrings: list,
                        },
                    );
                }
                parse_private_entry(&mut lex, key, &mut v)?;
            },
            _ => {},
        }
    }
}

// --- the clear part ---------------------------------------------------------------------------------------

/// What the clear part has given so far.
pub struct HeaderValue<N> {
    pub font_name: Option<Seq<u8>>,
    pub font_matrix: Option<Seq<N>>,
    pub font_bbox: Option<Seq<N>>,
    pub paint_type: N,
    pub encoding: Option<Seq<Option<Seq<u8>>>>,
}

/// What the entry of a key gives, and where it ends.
pub open spec fn header_entry<N: Number>(
    s: Seq<u8>,
    pos: int,
    key: Seq<u8>,
    h: HeaderValue<N>,
) -> Option<(HeaderValue<N>, int)> {
    if key == "FontName".spec_bytes() {
        match lexeme::<N>(s, pos) {
            Some((Lexeme::Name(n), p)) => Some((HeaderValue { font_name: Some(n), ..h }, p)),
            Some((_, p)) => Some((h, p)),
            None => Some((h, s.len() as int)),
        }
    } else if key == "PaintType".spec_bytes() {
        match number_at::<N>(s, pos) {
            (Some(v), p) => Some((HeaderValue { paint_type: v, ..h }, p)),
            (None, p) => Some((h, p)),
        }
    } else if key == "FontMatrix".spec_bytes() {
        match exact_array::<N>(s, pos, 6) {
            Some((v, p)) => Some((HeaderValue { font_matrix: Some(v), ..h }, p)),
            None => None,
        }
    } else if key == "FontBBox".spec_bytes() {
        match exact_array::<N>(s, pos, 4) {
            Some((v, p)) => Some((HeaderValue { font_bbox: Some(v), ..h }, p)),
            None => None,
        }
    } else if key == "Encoding".spec_bytes() {
        match encoding_from::<N>(s, pos, no_entries(), true) {
            Some((v, p)) => Some((HeaderValue { encoding: Some(v), ..h }, p)),
            None => None,
        }
    } else {
        Some((h, pos))
    }
}

/// What the clear part gives from `pos` on.
pub open spec fn header_from<N: Number>(s: Seq<u8>, pos: int, h: HeaderValue<N>) -> Option<
    HeaderValue<N>,
>
    decreases s.len() - pos,
{
    match lexeme::<N>(s, pos) {
        Some((t, p)) => if !(pos < p <= s.len()) {
            None
        } else {
            match t {
                Lexeme::Name(key) => match header_entry(s, p, key, h) {
                    Some((next, q)) => if p <= q <= s.len() {
                        header_from(s, q, next)
                    } else {
                        None
                    },
                    None => None,
                },
                _ => header_from(s, p, h),
            }
        },
        None => Some(h),
    }
}

/// What the clear part starts from.
pub open spec fn empty_header<N: Number>() -> HeaderValue<N> {
    HeaderValue {
        font_name: None,
        font_matrix: None,
        font_bbox: None,
        paint_type: N::integer(0),
        encoding: None,
    }
}

/// The font that a file holds: name, matrix, bounding box and encoding have
/// to be there, and at least one glyph.
pub open spec fn font_of<N: Number>(data: Seq<u8>) -> Option<FontValue<N>> {
    match font_parts(data) {
        None => None,
        Some((clear, plain)) => match (
            header_from::<N>(clear, 0, empty_header()),
            private_from::<N>(plain, 0, empty_private()),
        ) {
            (Some(h), Some(v)) => if h.font_name is None || h.font_matrix is None || h.font_bbox
                is None || h.encoding is None || v.charstrings.len() == 0 {
                None
            } else {
                Some(
                    FontValue {
                        font_name: h.font_name->0,
                        font_matrix: h.font_matrix->0,
                        font_bbox: h.font_bbox->0,
                        paint_type: h.paint_type,
                        encoding: h.encoding->0,
                        charstrings: v.charstrings,
                        subrs: v.subrs,
                        hints: v.hints,
                    },
                )
            },
            _ => None,
        },
    }
}

/// What the clear part has given so far.
struct Header<N> {
    font_name: Option<Vec<u8>>,
    font_matrix: Option<Vec<N>>,
    font_bbox: Option<Vec<N>>,
    paint_type: N,
    encoding: Option<Vec<Option<Vec<u8>>>>,
}

impl<N> View for Header<N> {
    type V = HeaderValue<N>;

    closed spec fn view(&self) -> HeaderValue<N> {
        HeaderValue {
            font_name: match self.font_name {
                Some(n) => Some(n@),
                None => None,
            },
            font_matrix: match self.font_matrix {
                Some(v) => Some(v@),
                None => None,
            },
            font_bbox: match self.font_bbox {
                Some(v) => Some(v@),
                None => None,
            },
            paint_type: self.paint_type,
            encoding: match self.encoding {
                Some(v) => Some(opt_views(v@)),
                None => None,
            },
        }
    }
}

impl<N> Header<N> {
    /// An encoding has 256 codes, a matrix six numbers and a box four.
    spec fn wf(&self) -> bool {
        &&& self.encoding is Some ==> (self.encoding->0)@.len() == 256
        &&& self.font_matrix is Some ==> (self.font_matrix->0)@.len() == 6
        &&& self.font_bbox is Some ==> (self.font_bbox->0)@.len() == 4
    }
}

/// Reads the entry of a key.
fn parse_header_entry<N: Number>(lex: &mut Lexer, key: &[u8], h: &mut Header<N>) -> (r: Option<()>)
    requires
        old(lex).wf(),
        old(h).wf(),
    ensures
        final(lex).wf(),
        final(lex).data == old(lex).data,
        final(lex).pos >= old(lex).pos,
        final(h).wf(),
        match r {
            Some(_) => header_entry(old(lex).data@, old(lex).pos as int, key@, old(h)@) == Some(
                (final(h)@, final(lex).pos as int),
            ),
            None => header_entry(old(lex).data@, old(lex).pos as int, key@, old(h)@) is None,
        },
{
    if is_word(key, "FontName") {
        if let Some(Token::Name(n)) = lex.next::<N>() {
            h.font_name = Some(to_vec(n));
        }
    } else if is_word(key, "PaintType") {
        if let Some(v) = next_number::<N>(lex) {
            h.paint_type = v;
        }
    } else if is_word(key, "FontMatrix") {
        h.font_matrix = Some(parse_array::<N>(lex, 6)?);
    } else if is_word(key, "FontBBox") {
        h.font_bbox = Some(parse_array::<N>(lex, 4)?);
    } else if is_word(key, "Encoding") {
        h.encoding = Some(parse_encoding::<N>(lex)?);
    }
    Some(())
}

/// Reads the clear part.
fn parse_header<N: Number>(data: &[u8]) -> (r: Option<Header<N>>)
    ensures
        match r {
            Some(h) => header_from::<N>(data@, 0, empty_header()) == Some(h@) && h.wf(),
            None => header_from::<N>(data@, 0, empty_header()) is None,
        },
{
    let mut lex = Lexer::new(data);
    let mut h: Header<N> = Header {
        font_name: None,
        font_matrix: None,
        font_bbox: None,
        paint_type: N::from_int(0),
        encoding: None,
    };
    loop
        invariant
            lex.wf(),
            lex.data == data,
            h.wf(),
            header_from::<N>(data@, 0, empty_header()) == header_from(data@, lex.pos as int, h@),
        decreases data@.len() - lex.pos,
    {
        match lex.next::<N>() {
            None => {
                return Some(h);
            },
            Some(Token::Name(key)) => {
                parse_header_entry(&mut lex, key, &mut h)?;
            },
            Some(_) => {},
        }
    }
}

/// Reads a Type 1 font program, segmented or not. `None` on any doubt.
pub fn parse<N: Number>(data: &[u8]) -> (r: Option<Type1Font<N>>)
    ensures
        match r {
            Some(font) => font_of::<N>(data@) == Some(font@) && font.wf() && font.font_matrix@.len()
                == 6 && font.font_bbox@.len() == 4,
            None => font_of::<N>(data@) is None,
        },
{
    let (clear, plain) = split_and_decrypt(data)?;
    let h = parse_header::<N>(clear.as_slice())?;
    let font_name = h.font_name?;
    let font_matrix = h.font_matrix?;
    let font_bbox = h.font_bbox?;
    let encoding = h.encoding?;
    let v = parse_private::<N>(plain.as_slice())?;
    proof {
        assert(v@.charstrings.len() == v.charstrings@.len());
    }
    if v.charstrings.len() == 0 {
        return None;
    }
    Some(
        Type1Font {
            font_name,
            font_matrix,
            font_bbox,
            paint_type: h.paint_type,
            encoding,
            charstrings: v.charstrings,
            subrs: v.subrs,
            hints: v.hints,
        },
    )
}

} // verus!
