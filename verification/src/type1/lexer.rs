//! Words, names and numbers of the PostScript subset that fonts are written
//! in.

use crate::bytes::get_range;
use crate::text::{blank, digit, is_blank, is_digit};
use crate::type1::number::Number;
use vstd::prelude::*;

verus! {

/// A token.
pub enum Token<'a, N> {
    /// `/name`, without the slash.
    Name(&'a [u8]),
    /// A number.
    Number(N),
    /// Any other word.
    Word(&'a [u8]),
    /// A bracket or a brace.
    Delim(u8),
}

/// The content of a token.
pub enum Lexeme<N> {
    Name(Seq<u8>),
    Number(N),
    Word(Seq<u8>),
    Delim(u8),
}

impl<'a, N> View for Token<'a, N> {
    type V = Lexeme<N>;

    open spec fn view(&self) -> Lexeme<N> {
        match self {
            Token::Name(s) => Lexeme::Name(s@),
            Token::Number(v) => Lexeme::Number(*v),
            Token::Word(s) => Lexeme::Word(s@),
            Token::Delim(b) => Lexeme::Delim(*b),
        }
    }
}

/// White space of a font program.
pub open spec fn is_space(b: u8) -> bool {
    is_blank(b) || b == 0
}

/// End of the comment at `i`: the next line feed.
pub open spec fn comment_end(s: Seq<u8>, i: int) -> int
    decreases s.len() - i,
{
    if 0 <= i < s.len() && s[i] != 0x0A {
        comment_end(s, i + 1)
    } else {
        i
    }
}

/// A comment ends after it starts, inside the text.
pub proof fn lemma_comment_end(s: Seq<u8>, i: int)
    requires
        0 <= i <= s.len(),
    ensures
        i <= comment_end(s, i) <= s.len(),
        i < s.len() && s[i] != 0x0A ==> i < comment_end(s, i),
    decreases s.len() - i,
{
    if i < s.len() && s[i] != 0x0A {
        lemma_comment_end(s, i + 1);
    }
}

/// End of the white space and comments at `i`.
pub open spec fn space_end(s: Seq<u8>, i: int) -> int
    decreases s.len() - i,
{
    if 0 <= i < s.len() && is_space(s[i]) {
        space_end(s, i + 1)
    } else if 0 <= i < s.len() && s[i] == 0x25 && i < comment_end(s, i) <= s.len() {
        space_end(s, comment_end(s, i))
    } else {
        i
    }
}

/// A byte that words and names are made of.
pub open spec fn is_regular(b: u8) -> bool {
    !is_space(b) && b != 0x2F && b != 0x5B && b != 0x5D && b != 0x7B && b != 0x7D && b != 0x28
        && b != 0x29 && b != 0x25 && b != 0x3C
}

/// End of the regular bytes at `i`.
pub open spec fn regular_end(s: Seq<u8>, i: int) -> int
    decreases s.len() - i,
{
    if 0 <= i < s.len() && is_regular(s[i]) {
        regular_end(s, i + 1)
    } else {
        i
    }
}

/// A byte that numbers are made of.
pub open spec fn is_number_byte(b: u8) -> bool {
    is_digit(b) || b == 0x2B || b == 0x2D || b == 0x2E || b == 0x65 || b == 0x45
}

/// The number that a word is. Other notations are words.
pub open spec fn number_of<N: Number>(w: Seq<u8>) -> Option<N> {
    if forall|i: int| 0 <= i < w.len() ==> is_number_byte(#[trigger] w[i]) {
        N::spelled(w)
    } else {
        None
    }
}

/// A bracket or a brace.
pub open spec fn is_delim(b: u8) -> bool {
    b == 0x5B || b == 0x5D || b == 0x7B || b == 0x7D
}

/// The token at `pos`, and where it ends.
pub open spec fn lexeme<N: Number>(s: Seq<u8>, pos: int) -> Option<(Lexeme<N>, int)> {
    let i = space_end(s, pos);
    if i >= s.len() {
        None
    } else if is_delim(s[i]) {
        Some((Lexeme::Delim(s[i]), i + 1))
    } else if s[i] == 0x2F {
        let end = regular_end(s, i + 1);
        Some((Lexeme::Name(s.subrange(i + 1, end)), end))
    } else {
        let end = regular_end(s, i);
        if end == i {
            Some((Lexeme::Word(s.subrange(i, i + 1)), i + 1))
        } else {
            match number_of::<N>(s.subrange(i, end)) {
                Some(v) => Some((Lexeme::Number(v), end)),
                None => Some((Lexeme::Word(s.subrange(i, end)), end)),
            }
        }
    }
}

/// The `len` bytes that follow the white space byte at `pos`.
pub open spec fn binary_at(s: Seq<u8>, pos: int, len: int) -> Option<Seq<u8>> {
    if 0 <= pos && pos + 1 + len <= s.len() && is_blank(s[pos]) {
        Some(s.subrange(pos + 1, pos + 1 + len))
    } else {
        None
    }
}

/// A place in a font program.
pub struct Lexer<'a> {
    pub data: &'a [u8],
    pub pos: usize,
}

/// Whether a byte is white space of a font program.
fn space(b: u8) -> (r: bool)
    ensures
        r == is_space(b),
{
    blank(b) || b == 0
}

/// The number that a word is.
pub fn parse_number<N: Number>(word: &[u8]) -> (r: Option<N>)
    ensures
        r == number_of::<N>(word@),
{
    let mut i: usize = 0;
    while i < word.len()
        invariant
            i <= word@.len(),
            forall|k: int| 0 <= k < i ==> is_number_byte(#[trigger] word@[k]),
        decreases word@.len() - i,
    {
        let b: u8 = word[i];
        if !(digit(b) || b == 0x2B || b == 0x2D || b == 0x2E || b == 0x65 || b == 0x45) {
            proof {
                assert(!is_number_byte(word@[i as int]));
            }
            return None;
        }
        i += 1;
    }
    N::read(word)
}

impl<'a> Lexer<'a> {
    /// The place lies inside the text.
    pub open spec fn wf(&self) -> bool {
        self.pos <= self.data@.len()
    }

    /// The start of a text.
    pub fn new(data: &'a [u8]) -> (r: Lexer<'a>)
        ensures
            r.data == data,
            r.pos == 0,
            r.wf(),
    {
        Lexer { data, pos: 0 }
    }

    /// Skips white space and comments.
    pub fn skip_ws(&mut self)
        requires
            old(self).wf(),
        ensures
            final(self).data == old(self).data,
            final(self).pos == space_end(old(self).data@, old(self).pos as int),
            old(self).pos <= final(self).pos,
            final(self).wf(),
    {
        let ghost goal = space_end(self.data@, self.pos as int);
        let ghost start = self.pos;
        while self.pos < self.data.len()
            invariant
                self.wf(),
                start <= self.pos,
                self.data == old(self).data,
                start == old(self).pos,
                goal == space_end(old(self).data@, old(self).pos as int),
                goal == space_end(self.data@, self.pos as int),
            decreases self.data@.len() - self.pos,
        {
            let b: u8 = self.data[self.pos];
            if space(b) {
                self.pos += 1;
            } else if b == 0x25 {
                let ghost begin = self.pos as int;
                proof {
                    lemma_comment_end(self.data@, begin);
                }
                while self.pos < self.data.len() && self.data[self.pos] != 0x0A
                    invariant
                        self.wf(),
                        begin <= self.pos,
                        self.data == old(self).data,
                        comment_end(self.data@, begin) == comment_end(
                            self.data@,
                            self.pos as int,
                        ),
                    decreases self.data@.len() - self.pos,
                {
                    self.pos += 1;
                }
            } else {
                return;
            }
        }
    }

    /// Skips regular bytes.
    pub fn consume_regular(&mut self)
        requires
            old(self).wf(),
        ensures
            final(self).data == old(self).data,
            final(self).pos == regular_end(old(self).data@, old(self).pos as int),
            old(self).pos <= final(self).pos,
            final(self).wf(),
    {
        let ghost goal = regular_end(self.data@, self.pos as int);
        let ghost start = self.pos;
        while self.pos < self.data.len()
            invariant
                self.wf(),
                start <= self.pos,
                self.data == old(self).data,
                start == old(self).pos,
                goal == regular_end(old(self).data@, old(self).pos as int),
                goal == regular_end(self.data@, self.pos as int),
            decreases self.data@.len() - self.pos,
        {
            let b: u8 = self.data[self.pos];
            if space(b) || b == 0x2F || b == 0x5B || b == 0x5D || b == 0x7B || b == 0x7D || b
                == 0x28 || b == 0x29 || b == 0x25 || b == 0x3C {
                return;
            }
            self.pos += 1;
        }
    }

    /// Reads the next token.
    pub fn next<N: Number>(&mut self) -> (r: Option<Token<'a, N>>)
        requires
            old(self).wf(),
        ensures
            final(self).data == old(self).data,
            final(self).wf(),
            match r {
                Some(t) => {
                    &&& lexeme::<N>(old(self).data@, old(self).pos as int) == Some(
                        (t@, final(self).pos as int),
                    )
                    &&& old(self).pos < final(self).pos
                },
                None => {
                    &&& lexeme::<N>(old(self).data@, old(self).pos as int) is None
                    &&& final(self).pos == final(self).data@.len()
                },
            },
    {
        self.skip_ws();
        if self.pos >= self.data.len() {
            return None;
        }
        let b: u8 = self.data[self.pos];
        if b == 0x5B || b == 0x5D || b == 0x7B || b == 0x7D {
            self.pos += 1;
            return Some(Token::Delim(b));
        }
        let start: usize = self.pos;
        if b == 0x2F {
            self.pos += 1;
            self.consume_regular();
            let name = vstd::slice::slice_subrange(self.data, start + 1, self.pos);
            return Some(Token::Name(name));
        }
        self.consume_regular();
        if self.pos == start {
            self.pos += 1;
            let word = vstd::slice::slice_subrange(self.data, start, self.pos);
            return Some(Token::Word(word));
        }
        let word = vstd::slice::slice_subrange(self.data, start, self.pos);
        match parse_number(word) {
            Some(v) => Some(Token::Number(v)),
            None => Some(Token::Word(word)),
        }
    }

    /// Reads the white space byte and the `len` bytes of binary data that
    /// follow it.
    pub fn read_binary(&mut self, len: usize) -> (r: Option<&'a [u8]>)
        requires
            old(self).wf(),
        ensures
            final(self).data == old(self).data,
            final(self).wf(),
            match r {
                Some(part) => {
                    &&& binary_at(old(self).data@, old(self).pos as int, len as int) == Some(part@)
                    &&& final(self).pos == old(self).pos + 1 + len
                },
                None => {
                    &&& binary_at(old(self).data@, old(self).pos as int, len as int) is None
                    &&& final(self).pos == old(self).pos
                },
            },
    {
        let room: usize = self.data.len() - self.pos;
        if room == 0 || len > room - 1 || !blank(self.data[self.pos]) {
            return None;
        }
        let end: usize = self.pos + 1 + len;
        let part = get_range(self.data, self.pos + 1, end)?;
        self.pos = end;
        Some(part)
    }
}

} // verus!
