//! The closed error taxonomy of the lexer.

use vstd::prelude::*;

verus! {

/// Why a run was rejected. Every error is fatal to the whole run: no
/// partial token sequence is returned beside it.
#[derive(Debug, Clone, Copy, PartialEq, Eq)]
pub enum YamlError {
    /// A character other than a space stood in a line's indentation, or a
    /// tab stood anywhere in a line's content; the payload is the
    /// offending character.
    InvalidIndentCharacter(char),
    /// The first non-empty line of the input began with a space.
    FirstLineNotZeroIndentation,
    /// A line held a colon with no key before it.
    ColonWithNoKey,
    /// A line's leading-space count was odd, or its depth exceeded the
    /// previous structural line's depth by more than one level.
    InvalidIndentation,
    /// A line held a key and no colon, outside a block-sequence item.
    KeyWithNoColon,
    /// A `-` began a block-sequence item at a depth that no enclosing
    /// mapping key had licensed.
    InvalidListItemPosition,
}

} // verus!
