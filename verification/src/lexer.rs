//! The lexer: one token for each byte, with its line and column.

use vstd::prelude::*;

verus! {

/// What a byte is to the section parser.
#[derive(Clone, Copy, Debug, PartialEq, Eq, Structural)]
pub enum LowerLexerToken {
    /// A plain byte; the flag is false for white space.
    Constant(bool, u8),
    /// A parenthesis; the flag is true for the opening one.
    Paren(bool),
    /// The escape byte.
    Escape(u8),
}

impl LowerLexerToken {
    /// True of a white-space byte.
    pub fn is_space(self) -> (r: bool)
        ensures
            r == (self matches LowerLexerToken::Constant(false, _)),
    {
        match self {
            LowerLexerToken::Constant(false, _) => true,
            _ => false,
        }
    }

    /// True of the escape byte.
    pub fn is_escape(self) -> (r: bool)
        ensures
            r == (self is Escape),
    {
        match self {
            LowerLexerToken::Escape(_) => true,
            _ => false,
        }
    }

    /// The byte that the token was made from.
    pub open spec fn byte(self) -> u8 {
        match self {
            LowerLexerToken::Constant(_, x) => x,
            LowerLexerToken::Escape(x) => x,
            LowerLexerToken::Paren(true) => 40,
            LowerLexerToken::Paren(false) => 41,
        }
    }

    /// The byte that the token was made from.
    pub fn to_byte(self) -> (r: u8)
        ensures
            r == self.byte(),
    {
        match self {
            LowerLexerToken::Constant(_, x) => x,
            LowerLexerToken::Escape(x) => x,
            LowerLexerToken::Paren(true) => 40,
            LowerLexerToken::Paren(false) => 41,
        }
    }
}

/// A place in the input; line and column count from zero.
#[derive(Clone, Copy, Debug, PartialEq, Eq, Structural)]
pub struct Position {
    pub line: usize,
    pub col: usize,
}

/// A token with its place.
#[derive(Clone, Copy, Debug, PartialEq, Eq, Structural)]
pub struct LexerToken {
    pub llt: LowerLexerToken,
    pub pos: Position,
}

impl LexerToken {
    /// True of a white-space byte.
    pub fn is_space(&self) -> (r: bool)
        ensures
            r == (self.llt matches LowerLexerToken::Constant(false, _)),
    {
        self.llt.is_space()
    }
}

/// The token of the byte `b`, with `escc` as the escape byte. White space
/// is here tab, line feed, vertical tab, form feed, carriage return and
/// space.
pub open spec fn token_of(b: u8, escc: u8) -> LowerLexerToken {
    if b == escc {
        LowerLexerToken::Escape(escc)
    } else if (9 <= b <= 13) || b == 32 {
        LowerLexerToken::Constant(false, b)
    } else if b == 40 {
        LowerLexerToken::Paren(true)
    } else if b == 41 {
        LowerLexerToken::Paren(false)
    } else {
        LowerLexerToken::Constant(true, b)
    }
}

/// True where the byte `b` is read as the end of a line.
pub open spec fn is_newline(b: u8, escc: u8) -> bool {
    token_of(b, escc) == LowerLexerToken::Constant(false, 10)
}

/// Line and column of the byte at `i`: the first byte stands at line 0 and
/// column 0; a byte behind a line feed begins the next line; any other
/// stands one column behind the byte before it.
pub open spec fn position_at(d: Seq<u8>, escc: u8, i: int) -> (int, int)
    decreases i,
{
    if i <= 0 {
        (0, 0)
    } else {
        let (line, col) = position_at(d, escc, i - 1);
        if is_newline(d[i - 1], escc) {
            (line + 1, 0)
        } else {
            (line, col + 1)
        }
    }
}

/// Line and column are at most the index.
pub proof fn lemma_position_bound(d: Seq<u8>, escc: u8, i: int)
    requires
        0 <= i,
    ensures
        0 <= position_at(d, escc, i).0 <= i,
        0 <= position_at(d, escc, i).1 <= i,
    decreases i,
{
    if i > 0 {
        lemma_position_bound(d, escc, i - 1);
    }
}

/// The token of the byte `b`.
pub fn lex_byte(b: u8, escc: u8) -> (r: LowerLexerToken)
    ensures
        r == token_of(b, escc),
{
    if b == escc {
        LowerLexerToken::Escape(escc)
    } else if (9 <= b && b <= 13) || b == 32 {
        LowerLexerToken::Constant(false, b)
    } else if b == 40 {
        LowerLexerToken::Paren(true)
    } else if b == 41 {
        LowerLexerToken::Paren(false)
    } else {
        LowerLexerToken::Constant(true, b)
    }
}

/// The tokens of `input`, one for each byte, each with its place.
pub fn lex(input: &[u8], escc: u8) -> (r: Vec<LexerToken>)
    ensures
        r@.len() == input@.len(),
        forall|i: int|
            0 <= i < r@.len() ==> (#[trigger] r@[i]).llt == token_of(input@[i], escc) && (
            r@[i].pos.line as int,
            r@[i].pos.col as int,
        ) == position_at(input@, escc, i),
{
    let mut out: Vec<LexerToken> = Vec::new();
    let mut line: usize = 0;
    let mut col: usize = 0;
    let mut i: usize = 0;
    while i < input.len()
        invariant
            i <= input@.len(),
            out@.len() == i,
            (line as int, col as int) == position_at(input@, escc, i as int),
            forall|k: int|
                0 <= k < i ==> (#[trigger] out@[k]).llt == token_of(input@[k], escc) && (
                out@[k].pos.line as int,
                out@[k].pos.col as int,
            ) == position_at(input@, escc, k),
        decreases input@.len() - i,
    {
        let llt = lex_byte(input[i], escc);
        out.push(LexerToken { llt, pos: Position { line, col } });
        proof {
            lemma_position_bound(input@, escc, i as int);
            lemma_position_bound(input@, escc, i + 1);
        }
        let newline: bool = match llt {
            LowerLexerToken::Constant(false, 10) => true,
            _ => false,
        };
        if newline {
            line += 1;
            col = 0;
        } else {
            col += 1;
        }
        i += 1;
    }
    out
}

} // verus!
