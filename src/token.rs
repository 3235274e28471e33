use vstd::prelude::*;

verus! {

/// A dictionary entry: left and right context ids and the emission cost.
#[derive(Debug, Clone, Copy, PartialEq, Eq, Structural)]
pub struct Token {
    pub left_id: u16,
    pub right_id: u16,
    pub cost: i16,
}

/// The largest context id; a token carrying it has no row or column in the
/// connection-cost matrix.
pub const UNKNOWN_ID: u16 = 0xffff;

impl Token {
    pub open spec fn spec_eos_bos() -> Token {
        Token { left_id: 0, right_id: 0, cost: 0 }
    }

    pub open spec fn spec_unknown() -> Token {
        Token { left_id: UNKNOWN_ID, right_id: UNKNOWN_ID, cost: 0x7fff }
    }

    /// The token of the sentence boundaries (beginning and end of sentence).
    pub fn eos_bos() -> (t: Token)
        ensures
            t == Token::spec_eos_bos(),
    {
        Token { left_id: 0, right_id: 0, cost: 0 }
    }

    /// The token given to a span that the dictionary does not know.
    pub fn unknown() -> (t: Token)
        ensures
            t == Token::spec_unknown(),
    {
        Token { left_id: UNKNOWN_ID, right_id: UNKNOWN_ID, cost: 0x7fff }
    }
}

} // verus!
