use vstd::prelude::*;

verus! {

/// An ordered list of token definitions; position expresses nothing,
/// priority is carried by each token's own index.
pub struct LexerDefinition {
    pub tokens: Vec<TokenDefinition>,
}

impl LexerDefinition {
    /// Wraps a list of token definitions.
    pub fn new(tokens: Vec<TokenDefinition>) -> (def: Self)
        ensures
            def.tokens == tokens,
    {
        LexerDefinition { tokens }
    }
}

/// A regular-expression tree: one character, an inclusive character
/// range, an alternation, or a concatenation.
pub enum Expr {
    Single { ch: char },
    Range { from: char, to: char },
    Or { variants: Vec<Expr> },
    Concat { exprs: Vec<Expr> },
}

/// One token: its expression, its 16-bit type index (0 and 1 are
/// reserved for the error and end-of-input tokens, so user indices
/// start at 2), and a human-readable name.
pub struct TokenDefinition {
    pub expr: Expr,
    pub index: u16,
    pub name: String,
}

} // verus!
