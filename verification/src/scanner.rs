//! The scanner: source text to a flat token sequence.

use vstd::prelude::*;
use crate::token::{Token, token_of};
use crate::instruction::{leaf_count_seq, leaf_of};
use crate::structurer::{lemma_structurer_leaf_count, nb_count, spec_parse};

verus! {

/// The tokens of a character sequence, in source order: each recognized
/// character contributes its token, every other character is skipped.
pub open spec fn scan(s: Seq<char>) -> Seq<Token>
    decreases s.len(),
{
    if s.len() == 0 {
        Seq::empty()
    } else {
        scan(s.drop_last())
            + match token_of(s.last()) {
                Some(t) => seq![t],
                None => Seq::empty(),
            }
    }
}

/// Scan a source text into its ordered token sequence, discarding every
/// unrecognized character as a comment. This stage cannot fail: any string,
/// the empty one included, yields a (possibly empty) token sequence.
pub fn lexer(source: &str) -> (tokens: Vec<Token>)
    ensures
        tokens@ == scan(source@),
{
    let mut tokens: Vec<Token> = Vec::new();
    let len = source.unicode_len();
    let mut i: usize = 0;
    while i < len
        invariant
            i <= len,
            len == source@.len(),
            tokens@ == scan(source@.take(i as int)),
        decreases len - i,
    {
        let c = source.get_char(i);
        if let Some(t) = Token::from_char(c) {
            tokens.push(t);
        }
        proof {
            assert(source@.take(i + 1).drop_last() =~= source@.take(i as int));
        }
        i = i + 1;
    }
    proof {
        assert(source@.take(len as int) =~= source@);
    }
    tokens
}

/// Whether a token sequence holds an input token at all — and so whether a
/// run of the program could ever ask for input.
pub fn uses_input(tokens: &Vec<Token>) -> (r: bool)
    ensures
        r == tokens@.contains(Token::Input),
{
    let n = tokens.len();
    let mut i: usize = 0;
    while i < n
        invariant
            i <= n,
            n == tokens@.len(),
            forall|k: int| 0 <= k < i ==> tokens@[k] != Token::Input,
        decreases n - i,
    {
        if tokens[i] == Token::Input {
            assert(tokens@[i as int] == Token::Input);
            return true;
        }
        i = i + 1;
    }
    false
}

/// The number of characters that are recognized and are not brackets — the
/// characters that scanning and structuring keep as atomic instructions.
pub open spec fn nb_char_count(s: Seq<char>) -> nat
    decreases s.len(),
{
    if s.len() == 0 {
        0
    } else {
        nb_char_count(s.drop_last())
            + match token_of(s.last()) {
                Some(t) => if leaf_of(t) is Some {
                    1nat
                } else {
                    0nat
                },
                None => 0nat,
            }
    }
}

/// Scanning keeps the non-bracket count: each recognized non-bracket
/// character becomes one non-bracket token.
proof fn lemma_scan_nb_count(s: Seq<char>)
    ensures
        nb_count(scan(s)) == nb_char_count(s),
    decreases s.len(),
{
    if s.len() > 0 {
        lemma_scan_nb_count(s.drop_last());
        match token_of(s.last()) {
            Some(t) => {
                assert((scan(s.drop_last()) + seq![t]).drop_last() =~= scan(s.drop_last()));
                assert((scan(s.drop_last()) + seq![t]).last() == t);
            },
            None => {
                assert(scan(s) =~= scan(s.drop_last()));
            },
        }
    }
}

/// Scanner followed by structurer keeps every non-bracket character: when
/// the scanned tokens structure into a tree, the tree's total count of
/// atomic instructions equals the source's count of recognized non-bracket
/// characters. For a source of only recognized characters that is exactly
/// its non-bracket character count.
pub proof fn lemma_scan_structure_leaf_count(s: Seq<char>)
    ensures
        spec_parse(scan(s)) matches Ok(prog) ==> leaf_count_seq(prog) == nb_char_count(s),
{
    lemma_scan_nb_count(s);
    lemma_structurer_leaf_count(scan(s));
}

} // verus!
