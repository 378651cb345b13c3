use vstd::prelude::*;

verus! {

/// Line and column numbers of the source text; both start at 1.
pub type UnsignedInt = u32;

/// The syntactic category of a token.
#[derive(Debug, Clone, Copy, PartialEq, Eq, Structural)]
pub enum TokenType {
    /// `,`
    Comma,
    /// `:`
    Colon,
    /// `[`
    OpeningBrace,
    /// `]`
    ClosingBrace,
    /// `{`
    OpeningSquirly,
    /// `}`
    ClosingSquirly,
    /// A quoted string; the lexeme holds the characters between the quotes.
    String,
    /// `true` or `false`.
    Bool,
    /// A run of decimal digits whose value fits in an [`UnsignedInt`].
    Number,
    /// `null`.
    Null,
}

/// A lexeme with its category and the line and column of its first character.
#[derive(Debug)]
pub struct Token {
    pub lexeme: String,
    pub token_type: TokenType,
    pub line: UnsignedInt,
    pub column: UnsignedInt,
}

/// What a token is, with its position as mathematical integers.
pub ghost struct TokenView {
    pub kind: TokenType,
    pub lexeme: Seq<char>,
    pub line: int,
    pub column: int,
}

impl View for Token {
    type V = TokenView;

    open spec fn view(&self) -> TokenView {
        TokenView {
            kind: self.token_type,
            lexeme: self.lexeme@,
            line: self.line as int,
            column: self.column as int,
        }
    }
}

/// The views of a sequence of tokens.
pub open spec fn views(t: Seq<Token>) -> Seq<TokenView> {
    t.map_values(|x: Token| x@)
}

impl Clone for Token {
    fn clone(&self) -> (r: Self)
        ensures
            r@ == self@,
    {
        Token {
            lexeme: self.lexeme.clone(),
            token_type: self.token_type,
            line: self.line,
            column: self.column,
        }
    }
}

} // verus!
