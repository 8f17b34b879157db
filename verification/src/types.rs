//! The token vocabulary of the lexer, with its mathematical view.

use vstd::prelude::*;

verus! {

/// One structural token of the dialect.
///
/// `LiteralBlock`, `FoldedBlock`, `Anchor`, `Alias` and `Merge` are reserved
/// introducers: the token kinds exist for a downstream consumer, but the
/// lexer of this crate never produces them.
#[derive(Debug, PartialEq, Eq)]
pub enum Token {
    /// A scalar: a mapping key, a mapping value, or a sequence item's value.
    Identifier(String),
    /// Separates a mapping key from its value on the same logical line.
    Colon,
    /// Marks that what follows is a block-sequence element.
    ListItem,
    /// Nesting increased by exactly one level.
    Indent,
    /// Nesting decreased by one level; emitted once per level closed.
    Dedent,
    /// Reserved introducer `|`; content capture is out of scope.
    LiteralBlock,
    /// Reserved introducer `>`; content capture is out of scope.
    FoldedBlock,
    /// Reserved `&name`; resolution is out of scope.
    Anchor(String),
    /// Reserved `*name`; resolution is out of scope.
    Alias(String),
    /// Reserved `<<`; resolution is out of scope.
    Merge,
}

/// The mathematical shape of a [`Token`]: the same variants, with every
/// text payload abstracted to its character sequence.
pub ghost enum TokenModel {
    Identifier(Seq<char>),
    Colon,
    ListItem,
    Indent,
    Dedent,
    LiteralBlock,
    FoldedBlock,
    Anchor(Seq<char>),
    Alias(Seq<char>),
    Merge,
}

impl View for Token {
    type V = TokenModel;

    open spec fn view(&self) -> TokenModel {
        match self {
            Token::Identifier(s) => TokenModel::Identifier(s@),
            Token::Colon => TokenModel::Colon,
            Token::ListItem => TokenModel::ListItem,
            Token::Indent => TokenModel::Indent,
            Token::Dedent => TokenModel::Dedent,
            Token::LiteralBlock => TokenModel::LiteralBlock,
            Token::FoldedBlock => TokenModel::FoldedBlock,
            Token::Anchor(s) => TokenModel::Anchor(s@),
            Token::Alias(s) => TokenModel::Alias(s@),
            Token::Merge => TokenModel::Merge,
        }
    }
}

/// The views of a sequence of tokens, in order.
pub open spec fn views_of(tokens: Seq<Token>) -> Seq<TokenModel> {
    tokens.map_values(|t: Token| t@)
}

} // verus!
