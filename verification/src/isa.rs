//! The target instruction set description.
//!
//! A target answers one question: given an instruction, is it legal — and if
//! so, through which encoding recipe — or illegal, and if so, through which
//! legalization action it is made legal. The verdict is a pure, deterministic
//! function of the instruction.

use vstd::prelude::*;

use crate::ir::InstData;
use crate::ir::InstModel;
use crate::ir::Opcode;

verus! {

/// A legalization action, carried by an illegal verdict. Every action may
/// rewrite instructions, create and split EBBs and update the control-flow
/// graph, and reports whether it changed anything.
#[derive(Clone, Copy, Debug, PartialEq, Eq, Structural)]
pub enum Action {
    /// Expand a conditional trap into an explicit branch over an
    /// unconditional trap; the one rewrite that must restructure control
    /// flow rather than substitute instructions in place.
    ExpandCondTrap,
}

/// The verdict of a legality query.
#[derive(Clone, Copy, Debug, PartialEq, Eq, Structural)]
pub enum Verdict {
    /// The instruction is legal; the recipe realizes it.
    Legal(u32),
    /// The instruction is illegal; the action legalizes it.
    Illegal(Action),
}

/// A target instruction set. The description is deliberately small: a
/// calling-convention signature that call and return boundaries must conform
/// to, and whether conditional traps lack a direct encoding and must be
/// expanded into explicit control flow.
#[derive(Clone, Copy, Debug)]
pub struct TargetIsa {
    /// The signature identity that the target's calling convention assigns
    /// to call and return boundaries.
    pub abi_sig: u32,
    /// Whether the two conditional-trap opcodes have no direct encoding.
    pub expand_cond_traps: bool,
}

impl TargetIsa {
    /// The encoding recipe that realizes each opcode.
    pub open spec fn spec_recipe(op: Opcode) -> u32 {
        match op {
            Opcode::Jump => 1,
            Opcode::Brz => 2,
            Opcode::Brnz => 3,
            Opcode::Call => 4,
            Opcode::Return => 5,
            Opcode::Trap => 6,
            Opcode::Trapz => 7,
            Opcode::Trapnz => 8,
            Opcode::Convert => 9,
            Opcode::Nop => 10,
        }
    }

    /// The verdict on an instruction: a conditional trap is illegal when the
    /// target expands conditional traps, and carries the custom expansion
    /// action; every other instruction is legal under its opcode's recipe.
    pub open spec fn spec_encode(self, m: InstModel) -> Verdict {
        if m.opcode().spec_is_cond_trap() && self.expand_cond_traps {
            Verdict::Illegal(Action::ExpandCondTrap)
        } else {
            Verdict::Legal(Self::spec_recipe(m.opcode()))
        }
    }

    /// The encoding recipe for an opcode.
    pub fn recipe(op: Opcode) -> (r: u32)
        ensures
            r == Self::spec_recipe(op),
    {
        match op {
            Opcode::Jump => 1,
            Opcode::Brz => 2,
            Opcode::Brnz => 3,
            Opcode::Call => 4,
            Opcode::Return => 5,
            Opcode::Trap => 6,
            Opcode::Trapz => 7,
            Opcode::Trapnz => 8,
            Opcode::Convert => 9,
            Opcode::Nop => 10,
        }
    }

    /// Query the legality of one instruction. The verdict is a pure function
    /// of the instruction.
    pub fn encode(&self, data: &InstData) -> (r: Verdict)
        ensures
            r == self.spec_encode(data.model()),
    {
        proof {
            lemma_model_opcode(*data);
        }
        let op = data.opcode();
        if op.is_cond_trap() && self.expand_cond_traps {
            Verdict::Illegal(Action::ExpandCondTrap)
        } else {
            Verdict::Legal(Self::recipe(op))
        }
    }
}

/// The model keeps the instruction's opcode.
pub proof fn lemma_model_opcode(d: InstData)
    ensures
        d.model().opcode() == d.spec_opcode(),
{
}

} // verus!
