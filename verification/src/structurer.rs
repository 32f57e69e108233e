//! The structurer: a flat token sequence to an instruction tree.

use vstd::prelude::*;
use vstd::slice::{slice_subrange, slice_to_vec};
use crate::token::Token;
use crate::instruction::{Instruction, SpecInst, leaf_count_seq, leaf_of, view_insts, lemma_view_insts_push};

verus! {

/// A structural fault: a bracket with no matching partner. The position is
/// the index of the offending token within the sequence handed to the
/// structurer, so for a recursively structured loop body it counts from the
/// start of that body.
#[derive(Clone, Copy, Debug, PartialEq, Eq, Structural)]
pub enum ParseError {
    /// A `]` appeared while no loop was open at this nesting level.
    UnmatchedClose { position: usize },
    /// A `[` at this position was never closed.
    UnmatchedOpen { position: usize },
}

/// One scanning step of the structurer, from index `i` of `tokens` onward.
///
/// `depth` counts the brackets opened since the loop-open recorded at index
/// `start` (zero when no loop is pending), and `acc` holds the instructions
/// already produced at this nesting level. When a loop-close returns the
/// depth to zero, the span strictly between the brackets is structured by a
/// recursive scan of its own and becomes the body of one loop instruction.
pub open spec fn parse_at(
    tokens: Seq<Token>,
    i: int,
    depth: int,
    start: int,
    acc: Seq<SpecInst>,
) -> Result<Seq<SpecInst>, ParseError>
    decreases tokens.len(), tokens.len() - i,
        when 0 <= i <= tokens.len() && (depth > 0 ==> 0 <= start < i)
{
    if i == tokens.len() {
        if depth == 0 {
            Ok(acc)
        } else {
            Err(ParseError::UnmatchedOpen { position: start as usize })
        }
    } else if depth == 0 {
        match tokens[i] {
            Token::LoopOpen => parse_at(tokens, i + 1, 1, i, acc),
            Token::LoopClose => Err(ParseError::UnmatchedClose { position: i as usize }),
            t => parse_at(tokens, i + 1, 0, start, acc.push(leaf_of(t)->Some_0)),
        }
    } else {
        match tokens[i] {
            Token::LoopOpen => parse_at(tokens, i + 1, depth + 1, start, acc),
            Token::LoopClose => {
                if depth == 1 {
                    match parse_at(tokens.subrange(start + 1, i), 0, 0, 0, Seq::empty()) {
                        Ok(body) => parse_at(
                            tokens,
                            i + 1,
                            0,
                            start,
                            acc.push(SpecInst::Loop(body)),
                        ),
                        Err(e) => Err(e),
                    }
                } else {
                    parse_at(tokens, i + 1, depth - 1, start, acc)
                }
            },
            _ => parse_at(tokens, i + 1, depth, start, acc),
        }
    }
}

/// The instruction tree of a token sequence, or the structural fault that
/// stops its construction.
pub open spec fn spec_parse(tokens: Seq<Token>) -> Result<Seq<SpecInst>, ParseError> {
    parse_at(tokens, 0, 0, 0, Seq::empty())
}

/// Structure a token sequence into a tree of instructions, collapsing each
/// matched bracket pair into one loop instruction that owns the recursively
/// structured span between the brackets. A loop-close with no open loop, or
/// a loop-open that is never closed, is a structural fault naming the
/// offending position; a program with any bracket imbalance yields no tree
/// at all.
pub fn parser(tokens: &Vec<Token>) -> (r: Result<Vec<Instruction>, ParseError>)
    ensures
        match r {
            Ok(instructions) => spec_parse(tokens@) == Ok::<_, ParseError>(
                view_insts(instructions@),
            ),
            Err(e) => spec_parse(tokens@) == Err::<Seq<SpecInst>, _>(e),
        },
    decreases tokens@.len(),
{
    let mut instructions: Vec<Instruction> = Vec::new();

    let mut loop_stack: usize = 0;
    let mut loop_start: usize = 0;

    let n = tokens.len();
    let mut i: usize = 0;
    proof {
        assert(view_insts(instructions@) =~= Seq::<SpecInst>::empty());
    }
    while i < n
        invariant
            n == tokens@.len(),
            i <= n,
            loop_stack <= i,
            loop_stack > 0 ==> loop_start < i,
            spec_parse(tokens@) == parse_at(
                tokens@,
                i as int,
                loop_stack as int,
                loop_start as int,
                view_insts(instructions@),
            ),
        decreases n - i,
    {
        let token = tokens[i];
        if loop_stack == 0 {
            match token {
                Token::LoopOpen => {
                    loop_start = i;
                    loop_stack = 1;
                },
                Token::LoopClose => {
                    return Err(ParseError::UnmatchedClose { position: i });
                },
                _ => {
                    let ghost pre = instructions@;
                    let inst = Instruction::from_token(token).unwrap();
                    instructions.push(inst);
                    proof {
                        lemma_view_insts_push(pre, inst);
                    }
                },
            }
        } else {
            match token {
                Token::LoopOpen => {
                    loop_stack = loop_stack + 1;
                },
                Token::LoopClose => {
                    loop_stack = loop_stack - 1;
                    if loop_stack == 0 {
                        let span = slice_subrange(tokens.as_slice(), loop_start + 1, i);
                        let inner = slice_to_vec(span);
                        match parser(&inner) {
                            Ok(body) => {
                                let ghost pre = instructions@;
                                let inst = Instruction::Loop(body);
                                instructions.push(inst);
                                proof {
                                    lemma_view_insts_push(pre, inst);
                                }
                            },
                            Err(e) => {
                                return Err(e);
                            },
                        }
                    }
                },
                _ => {},
            }
        }
        i = i + 1;
    }

    if loop_stack != 0 {
        return Err(ParseError::UnmatchedOpen { position: loop_start });
    }

    Ok(instructions)
}

/// The contribution of one token to the nesting balance.
pub open spec fn bracket_delta(t: Token) -> int {
    match t {
        Token::LoopOpen => 1,
        Token::LoopClose => -1,
        _ => 0,
    }
}

/// The nesting balance of a token sequence: loop-opens minus loop-closes.
pub open spec fn net(tokens: Seq<Token>) -> int
    decreases tokens.len(),
{
    if tokens.len() == 0 {
        0
    } else {
        net(tokens.drop_last()) + bracket_delta(tokens.last())
    }
}

/// A token sequence is balanced when no prefix closes more loops than it has
/// opened and every opened loop is eventually closed.
pub open spec fn balanced(tokens: Seq<Token>) -> bool {
    &&& forall|j: int| 0 <= j <= tokens.len() ==> net(#[trigger] tokens.take(j)) >= 0
    &&& net(tokens) == 0
}

/// The number of non-bracket tokens, each of which becomes one atomic
/// instruction.
pub open spec fn nb_count(tokens: Seq<Token>) -> nat
    decreases tokens.len(),
{
    if tokens.len() == 0 {
        0
    } else {
        nb_count(tokens.drop_last())
            + if leaf_of(tokens.last()) is Some {
                1nat
            } else {
                0nat
            }
    }
}

/// The balance of a span grows by the last token's contribution.
proof fn lemma_net_last(tokens: Seq<Token>, a: int, b: int)
    requires
        0 <= a <= b < tokens.len(),
    ensures
        net(tokens.subrange(a, b + 1)) == net(tokens.subrange(a, b)) + bracket_delta(tokens[b]),
{
    assert(tokens.subrange(a, b + 1).drop_last() =~= tokens.subrange(a, b));
    assert(tokens.subrange(a, b + 1).last() == tokens[b]);
}

/// The balance of a span is its first token's contribution plus the rest's.
proof fn lemma_net_first(tokens: Seq<Token>, a: int, b: int)
    requires
        0 <= a < b <= tokens.len(),
    ensures
        net(tokens.subrange(a, b)) == bracket_delta(tokens[a]) + net(tokens.subrange(a + 1, b)),
    decreases b - a,
{
    if b == a + 1 {
        assert(tokens.subrange(a, b).drop_last() =~= Seq::<Token>::empty());
        assert(tokens.subrange(a, b).last() == tokens[a]);
        assert(tokens.subrange(a + 1, b) =~= Seq::<Token>::empty());
    } else {
        lemma_net_last(tokens, a, b - 1);
        lemma_net_first(tokens, a, b - 1);
        lemma_net_last(tokens, a + 1, b - 1);
    }
}

/// The non-bracket count of a span grows by the last token.
proof fn lemma_nb_last(tokens: Seq<Token>, a: int, b: int)
    requires
        0 <= a <= b < tokens.len(),
    ensures
        nb_count(tokens.subrange(a, b + 1)) == nb_count(tokens.subrange(a, b)) + if leaf_of(
            tokens[b],
        ) is Some {
            1nat
        } else {
            0nat
        },
{
    assert(tokens.subrange(a, b + 1).drop_last() =~= tokens.subrange(a, b));
    assert(tokens.subrange(a, b + 1).last() == tokens[b]);
}

/// The non-bracket count of a span is the first token's plus the rest's.
proof fn lemma_nb_first(tokens: Seq<Token>, a: int, b: int)
    requires
        0 <= a < b <= tokens.len(),
    ensures
        nb_count(tokens.subrange(a, b)) == nb_count(tokens.subrange(a + 1, b)) + if leaf_of(
            tokens[a],
        ) is Some {
            1nat
        } else {
            0nat
        },
    decreases b - a,
{
    if b == a + 1 {
        assert(tokens.subrange(a, b).drop_last() =~= Seq::<Token>::empty());
        assert(tokens.subrange(a, b).last() == tokens[a]);
        assert(tokens.subrange(a + 1, b) =~= Seq::<Token>::empty());
    } else {
        lemma_nb_last(tokens, a, b - 1);
        lemma_nb_first(tokens, a, b - 1);
        lemma_nb_last(tokens, a + 1, b - 1);
    }
}

/// What one scanning step does to the suffix conditions: stepping over the
/// token at `i` trades its contribution against the depth.
proof fn lemma_suffix_shift(tokens: Seq<Token>, i: int, depth: int)
    requires
        0 <= i < tokens.len(),
        depth >= 0,
    ensures
        depth + net(tokens.subrange(i, tokens.len() as int)) == (depth + bracket_delta(
            tokens[i],
        )) + net(tokens.subrange(i + 1, tokens.len() as int)),
        (forall|j: int|
            i <= j <= tokens.len() ==> depth + net(#[trigger] tokens.subrange(i, j)) >= 0) <==> (
        forall|j: int|
            i + 1 <= j <= tokens.len() ==> (depth + bracket_delta(tokens[i])) + net(
                #[trigger] tokens.subrange(i + 1, j),
            ) >= 0),
        nb_count(tokens.subrange(i, tokens.len() as int)) == nb_count(
            tokens.subrange(i + 1, tokens.len() as int),
        ) + if leaf_of(tokens[i]) is Some {
            1nat
        } else {
            0nat
        },
{
    let len = tokens.len() as int;
    lemma_net_first(tokens, i, len);
    lemma_nb_first(tokens, i, len);
    assert(tokens.subrange(i, i) =~= Seq::<Token>::empty());
    assert forall|j: int| i + 1 <= j <= len implies depth + net(tokens.subrange(i, j)) == (depth
        + bracket_delta(tokens[i])) + net(#[trigger] tokens.subrange(i + 1, j)) by {
        lemma_net_first(tokens, i, j);
    }
    if forall|j: int| i <= j <= len ==> depth + net(#[trigger] tokens.subrange(i, j)) >= 0 {
        assert forall|j: int| i + 1 <= j <= len implies (depth + bracket_delta(tokens[i])) + net(
            #[trigger] tokens.subrange(i + 1, j),
        ) >= 0 by {
            assert(depth + net(tokens.subrange(i, j)) >= 0);
        }
    }
    if forall|j: int|
        i + 1 <= j <= len ==> (depth + bracket_delta(tokens[i])) + net(
            #[trigger] tokens.subrange(i + 1, j),
        ) >= 0 {
        assert forall|j: int| i <= j <= len implies depth + net(
            #[trigger] tokens.subrange(i, j),
        ) >= 0 by {
            if j > i {
                assert((depth + bracket_delta(tokens[i])) + net(tokens.subrange(i + 1, j)) >= 0);
            }
        }
    }
}

/// The full behaviour of one scanning step of the structurer, by induction
/// over its recursion: it succeeds exactly when the remaining suffix closes
/// every pending loop and never over-closes, and on success the produced
/// tree carries one atomic instruction for each non-bracket token.
proof fn lemma_parse_at_characterization(
    tokens: Seq<Token>,
    i: int,
    depth: int,
    start: int,
    acc: Seq<SpecInst>,
)
    requires
        0 <= i <= tokens.len(),
        depth >= 0,
        depth > 0 ==> 0 <= start < i && depth == 1 + net(tokens.subrange(start + 1, i)) && forall|
            j: int,
        | start < j < i ==> 1 + net(#[trigger] tokens.subrange(start + 1, j)) >= 1,
    ensures
        (parse_at(tokens, i, depth, start, acc) is Ok) <==> (depth + net(
            tokens.subrange(i, tokens.len() as int),
        ) == 0 && forall|j: int|
            i <= j <= tokens.len() ==> depth + net(#[trigger] tokens.subrange(i, j)) >= 0),
        (parse_at(tokens, i, depth, start, acc) matches Err(e) && e is UnmatchedClose) <==> !(
        forall|j: int|
            i <= j <= tokens.len() ==> depth + net(#[trigger] tokens.subrange(i, j)) >= 0),
        (parse_at(tokens, i, depth, start, acc) matches Ok(res) ==> leaf_count_seq(res)
            == leaf_count_seq(acc) + nb_count(tokens.subrange(i, tokens.len() as int)) + if depth
            > 0 {
            nb_count(tokens.subrange(start + 1, i))
        } else {
            0nat
        }),
    decreases tokens.len(), tokens.len() - i,
{
    let len = tokens.len() as int;
    if i == len {
        assert(tokens.subrange(i, len) =~= Seq::<Token>::empty());
    } else {
        lemma_suffix_shift(tokens, i, depth);
        if depth == 0 {
            match tokens[i] {
                Token::LoopOpen => {
                    assert(tokens.subrange(i + 1, i + 1) =~= Seq::<Token>::empty());
                    lemma_parse_at_characterization(tokens, i + 1, 1, i, acc);
                },
                Token::LoopClose => {
                    assert(tokens.subrange(i, i + 1).drop_last() =~= Seq::<Token>::empty());
                    assert(tokens.subrange(i, i + 1).last() == tokens[i]);
                    assert(net(Seq::<Token>::empty()) == 0);
                    assert(depth + net(tokens.subrange(i, i + 1)) < 0);
                },
                t => {
                    lemma_parse_at_characterization(
                        tokens,
                        i + 1,
                        0,
                        start,
                        acc.push(leaf_of(t)->Some_0),
                    );
                    crate::instruction::lemma_leaf_count_push(acc, leaf_of(t)->Some_0, 0);
                },
            }
        } else {
            match tokens[i] {
                Token::LoopOpen => {
                    lemma_net_last(tokens, start + 1, i);
                    lemma_nb_last(tokens, start + 1, i);
                    lemma_parse_at_characterization(tokens, i + 1, depth + 1, start, acc);
                },
                Token::LoopClose => {
                    lemma_net_last(tokens, start + 1, i);
                    lemma_nb_last(tokens, start + 1, i);
                    if depth == 1 {
                        let sub = tokens.subrange(start + 1, i);
                        lemma_parse_at_characterization(sub, 0, 0, 0, Seq::empty());
                        assert(sub.subrange(0, sub.len() as int) =~= sub);
                        assert forall|j: int| 0 <= j <= sub.len() implies net(
                            #[trigger] sub.subrange(0, j),
                        ) >= 0 by {
                            assert(sub.subrange(0, j) =~= tokens.subrange(start + 1, start + 1
                                + j));
                            if j < sub.len() {
                                assert(1 + net(tokens.subrange(start + 1, start + 1 + j)) >= 1);
                            }
                        }
                        let inner = parse_at(sub, 0, 0, 0, Seq::empty());
                        assert(inner is Ok);
                        let body = inner->Ok_0;
                        assert(leaf_count_seq(body) == nb_count(sub));
                        lemma_parse_at_characterization(
                            tokens,
                            i + 1,
                            0,
                            start,
                            acc.push(SpecInst::Loop(body)),
                        );
                        crate::instruction::lemma_leaf_count_push(acc, SpecInst::Loop(body), 0);
                    } else {
                        lemma_parse_at_characterization(tokens, i + 1, depth - 1, start, acc);
                    }
                },
                _ => {
                    lemma_net_last(tokens, start + 1, i);
                    lemma_nb_last(tokens, start + 1, i);
                    lemma_parse_at_characterization(tokens, i + 1, depth, start, acc);
                },
            }
        }
    }
}

/// The structurer accepts exactly the balanced token sequences: a sequence
/// with an unmatched loop-close or loop-open — and only such a sequence — is
/// reported as a structural error, so a balanced program always structures.
pub proof fn lemma_structurer_ok_iff_balanced(tokens: Seq<Token>)
    ensures
        spec_parse(tokens) is Ok <==> balanced(tokens),
{
    lemma_parse_at_characterization(tokens, 0, 0, 0, Seq::empty());
    assert(tokens.subrange(0, tokens.len() as int) =~= tokens);
}

/// A sequence that at some point has closed more loops than it opened — an
/// extra loop-close — is always reported as an unmatched close.
pub proof fn lemma_extra_close_reported(tokens: Seq<Token>)
    requires
        exists|j: int| 0 <= j <= tokens.len() && net(#[trigger] tokens.take(j)) < 0,
    ensures
        spec_parse(tokens) matches Err(e) && e is UnmatchedClose,
{
    lemma_parse_at_characterization(tokens, 0, 0, 0, Seq::empty());
}

/// A sequence that never over-closes but leaves some loop open — an
/// unmatched loop-open — is always reported as an unmatched open.
pub proof fn lemma_unmatched_open_reported(tokens: Seq<Token>)
    requires
        forall|j: int| 0 <= j <= tokens.len() ==> net(#[trigger] tokens.take(j)) >= 0,
        net(tokens) != 0,
    ensures
        spec_parse(tokens) matches Err(e) && e is UnmatchedOpen,
{
    lemma_parse_at_characterization(tokens, 0, 0, 0, Seq::empty());
    assert(tokens.subrange(0, tokens.len() as int) =~= tokens);
}

/// On success the structurer keeps every non-bracket token as exactly one
/// atomic instruction: brackets build the loops, everything else stays a
/// leaf, so the tree's leaf count is the non-bracket token count.
pub proof fn lemma_structurer_leaf_count(tokens: Seq<Token>)
    ensures
        spec_parse(tokens) matches Ok(prog) ==> leaf_count_seq(prog) == nb_count(tokens),
{
    lemma_parse_at_characterization(tokens, 0, 0, 0, Seq::empty());
    assert(tokens.subrange(0, tokens.len() as int) =~= tokens);
}

/// Structuring is deterministic: the same token sequence always yields the
/// same instruction tree, or the same structural fault.
pub proof fn lemma_structurer_deterministic(t1: Seq<Token>, t2: Seq<Token>)
    requires
        t1 == t2,
    ensures
        spec_parse(t1) == spec_parse(t2),
{
}

} // verus!
