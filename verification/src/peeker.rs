//! A cursor over a sequence of tokens.

use crate::tokeniser::Token;
use vstd::prelude::*;

verus! {

/// A sequence of tokens and a place in it.
#[derive(Debug)]
pub struct Peeker {
    pub vec: Vec<Token>,
    pub at: usize,
}

impl Peeker {
    /// The token at `index`, counted from the start of the sequence.
    pub open spec fn token_at(self, index: int) -> Option<Token> {
        if 0 <= index < self.vec.len() {
            Some(self.vec@[index])
        } else {
            None
        }
    }

    /// Moves the cursor one token on, unless it stands past the end already,
    /// and gives the token that it has moved to.
    pub fn next(&mut self) -> (r: Option<&Token>)
        ensures
            final(self).vec == old(self).vec,
            final(self).at == if old(self).at < old(self).vec.len() {
                old(self).at + 1
            } else {
                old(self).at as int
            },
            match r {
                Some(t) => old(self).token_at(old(self).at + 1) == Some(*t),
                None => old(self).token_at(old(self).at + 1) is None,
            },
    {
        if self.at >= self.vec.len() {
            return None;
        }
        self.at += 1;
        if self.at < self.vec.len() {
            Some(&self.vec[self.at])
        } else {
            None
        }
    }

    /// The token `num` places after the cursor.
    pub fn peek(&self, num: usize) -> (r: Option<&Token>)
        ensures
            match r {
                Some(t) => self.token_at(self.at + num) == Some(*t),
                None => self.token_at(self.at + num) is None,
            },
    {
        if num < self.vec.len() && self.at < self.vec.len() - num {
            Some(&self.vec[self.at + num])
        } else {
            None
        }
    }
}

} // verus!
