//! Interned names.

use vstd::prelude::*;

verus! {

/// An interned identifier standing for a name: a layer kind, an attribute
/// path or a type. Two tokens are the same name exactly if they hold the
/// same number.
#[derive(Clone, Copy, Debug, PartialEq, Eq, Structural)]
pub struct Token {
    pub id: u64,
}

impl Token {
    /// The token with the given number.
    pub fn new(id: u64) -> (t: Token)
        ensures
            t == (Token { id }),
    {
        Token { id }
    }

    /// The number this token was interned as.
    pub fn id(&self) -> (id: u64)
        ensures
            id == self.id,
    {
        self.id
    }

    /// Whether two tokens are the same name.
    pub fn same(&self, other: &Token) -> (b: bool)
        ensures
            b == (*self == *other),
    {
        self.id == other.id
    }
}

} // verus!
