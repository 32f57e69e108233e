//! The instruction tree and its mathematical model.

use vstd::prelude::*;
use crate::token::Token;

verus! {

/// A structural unit of execution: the six atomic actions, plus a loop that
/// owns the ordered sequence of instructions between its matched brackets.
/// Ownership is exclusive and recursive, so a program is a finite tree.
#[derive(Debug, PartialEq)]
pub enum Instruction {
    /// `>`: move the cursor one cell to the right.
    IncrementPointer,
    /// `<`: move the cursor one cell to the left.
    DecrementPointer,
    /// `+`: increment the current cell, wrapping modulo 256.
    Increment,
    /// `-`: decrement the current cell, wrapping modulo 256.
    Decrement,
    /// `.`: emit the current cell as one output byte.
    Output,
    /// `,`: overwrite the current cell with one input byte.
    Input,
    /// `[` ... `]`: run the child sequence repeatedly while the current cell
    /// is nonzero, tested before each pass.
    Loop(Vec<Instruction>),
}

/// The mathematical shape of an instruction: as [`Instruction`], with loop
/// bodies as sequences. Contracts and the interpreter's semantics are stated
/// over this type.
pub enum SpecInst {
    IncrementPointer,
    DecrementPointer,
    Increment,
    Decrement,
    Output,
    Input,
    Loop(Seq<SpecInst>),
}

/// The model of one instruction.
pub open spec fn view_inst(inst: Instruction) -> SpecInst
    decreases inst,
{
    match inst {
        Instruction::IncrementPointer => SpecInst::IncrementPointer,
        Instruction::DecrementPointer => SpecInst::DecrementPointer,
        Instruction::Increment => SpecInst::Increment,
        Instruction::Decrement => SpecInst::Decrement,
        Instruction::Output => SpecInst::Output,
        Instruction::Input => SpecInst::Input,
        Instruction::Loop(body) => SpecInst::Loop(view_insts(body@)),
    }
}

/// The model of an instruction sequence, element by element.
pub open spec fn view_insts(insts: Seq<Instruction>) -> Seq<SpecInst>
    decreases insts,
{
    Seq::new(
        insts.len(),
        |i: int|
            if 0 <= i < insts.len() {
                view_inst(insts[i])
            } else {
                SpecInst::IncrementPointer
            },
    )
}

/// Appending an instruction extends the model by its view.
pub proof fn lemma_view_insts_push(insts: Seq<Instruction>, inst: Instruction)
    ensures
        view_insts(insts.push(inst)) == view_insts(insts).push(view_inst(inst)),
{
    assert(view_insts(insts.push(inst)) =~= view_insts(insts).push(view_inst(inst)));
}

/// The atomic instruction of a non-bracket token; the two bracket tokens
/// have no instruction of their own.
pub open spec fn leaf_of(t: Token) -> Option<SpecInst> {
    match t {
        Token::IncrementPointer => Some(SpecInst::IncrementPointer),
        Token::DecrementPointer => Some(SpecInst::DecrementPointer),
        Token::Increment => Some(SpecInst::Increment),
        Token::Decrement => Some(SpecInst::Decrement),
        Token::Output => Some(SpecInst::Output),
        Token::Input => Some(SpecInst::Input),
        Token::LoopOpen => None,
        Token::LoopClose => None,
    }
}

impl Instruction {
    /// Translate one token into its atomic instruction; the two bracket
    /// tokens yield `None`, since a loop instruction only arises from a
    /// matched pair.
    pub fn from_token(t: Token) -> (r: Option<Instruction>)
        ensures
            match r {
                Some(inst) => leaf_of(t) == Some(view_inst(inst)),
                None => leaf_of(t) is None,
            },
    {
        match t {
            Token::IncrementPointer => Some(Instruction::IncrementPointer),
            Token::DecrementPointer => Some(Instruction::DecrementPointer),
            Token::Increment => Some(Instruction::Increment),
            Token::Decrement => Some(Instruction::Decrement),
            Token::Output => Some(Instruction::Output),
            Token::Input => Some(Instruction::Input),
            Token::LoopOpen => None,
            Token::LoopClose => None,
        }
    }
}

/// The number of atomic instructions in the tree rooted at one instruction:
/// a loop contributes the leaves of its body, an atom contributes itself.
pub open spec fn leaf_count(inst: SpecInst) -> nat
    decreases inst, 0int,
{
    match inst {
        SpecInst::Loop(body) => leaf_count_from(body, 0),
        _ => 1,
    }
}

/// The leaves of `insts[i..]`, summed left to right.
pub open spec fn leaf_count_from(insts: Seq<SpecInst>, i: int) -> nat
    decreases insts, insts.len() - i,
{
    if i < 0 || i >= insts.len() {
        0
    } else {
        leaf_count(insts[i]) + leaf_count_from(insts, i + 1)
    }
}

/// The total number of atomic instructions in an instruction sequence.
pub open spec fn leaf_count_seq(insts: Seq<SpecInst>) -> nat {
    leaf_count_from(insts, 0)
}

/// Appending an instruction adds its leaves to the total.
pub proof fn lemma_leaf_count_push(insts: Seq<SpecInst>, inst: SpecInst, i: int)
    requires
        0 <= i <= insts.len(),
    ensures
        leaf_count_from(insts.push(inst), i) == leaf_count_from(insts, i) + leaf_count(inst),
    decreases insts.len() - i,
{
    if i < insts.len() {
        lemma_leaf_count_push(insts, inst, i + 1);
    } else {
        assert(leaf_count_from(insts.push(inst), i + 1) == 0);
        assert(leaf_count_from(insts, i) == 0);
    }
}

} // verus!
