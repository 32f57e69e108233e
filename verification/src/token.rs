//! The eight recognized source symbols.

use vstd::prelude::*;

verus! {

/// One recognized source character, mapped to a fixed meaning. Every other
/// character of a source text is a comment and produces no token.
#[derive(Clone, Copy, Debug, PartialEq, Eq, Structural)]
pub enum Token {
    /// `>`: move the cursor one cell to the right.
    IncrementPointer,
    /// `<`: move the cursor one cell to the left.
    DecrementPointer,
    /// `+`: increment the current cell, wrapping modulo 256.
    Increment,
    /// `-`: decrement the current cell, wrapping modulo 256.
    Decrement,
    /// `.`: emit the current cell as one output byte.
    Output,
    /// `,`: overwrite the current cell with one input byte.
    Input,
    /// `[`: open a loop, matched with the corresponding `]`.
    LoopOpen,
    /// `]`: close a loop, matched with the corresponding `[`.
    LoopClose,
}

/// The fixed bijection between the eight recognized characters and the eight
/// token variants; every other character maps to `None`.
pub open spec fn token_of(c: char) -> Option<Token> {
    match c {
        '>' => Some(Token::IncrementPointer),
        '<' => Some(Token::DecrementPointer),
        '+' => Some(Token::Increment),
        '-' => Some(Token::Decrement),
        '.' => Some(Token::Output),
        ',' => Some(Token::Input),
        '[' => Some(Token::LoopOpen),
        ']' => Some(Token::LoopClose),
        _ => None,
    }
}

impl Token {
    /// Recognize a single source character, or report that it is a comment.
    pub fn from_char(c: char) -> (r: Option<Token>)
        ensures
            r == token_of(c),
    {
        match c {
            '>' => Some(Token::IncrementPointer),
            '<' => Some(Token::DecrementPointer),
            '+' => Some(Token::Increment),
            '-' => Some(Token::Decrement),
            '.' => Some(Token::Output),
            ',' => Some(Token::Input),
            '[' => Some(Token::LoopOpen),
            ']' => Some(Token::LoopClose),
            _ => None,
        }
    }
}

} // verus!
