//! Intermediate representation of the function being legalized.
//!
//! A function holds a data flow graph (the instructions themselves, plus the
//! value-alias table used when normalizing branch arguments), a layout (the
//! extended basic blocks in their linear emission order, each with its ordered
//! instruction sequence), and the encoding map that the legalizer fills out.

use vstd::prelude::*;

verus! {

/// An SSA value reference, identified by index into the alias table.
pub type Value = u32;

/// An extended basic block, identified by index.
pub type Ebb = usize;

/// An instruction identity, an index into the data flow graph.
pub type Inst = usize;

/// The alias table maps every value into range, and resolving twice is the
/// same as resolving once: canonical values are roots.
pub open spec fn aliases_wf(resolved: Seq<Value>) -> bool {
    forall|v: int|
        0 <= v < resolved.len() ==> (#[trigger] resolved[v] < resolved.len()
            && resolved[resolved[v] as int] == resolved[v])
}

/// Every instruction payload in `insts` is well formed for `nv` values and
/// `ne` EBBs.
pub open spec fn all_insts_wf(insts: Seq<InstData>, nv: nat, ne: nat) -> bool {
    forall|i: int| 0 <= i < insts.len() ==> #[trigger] insts[i].wf(nv, ne)
}

/// Every entry of the layout order names one of `ne` EBBs.
pub open spec fn order_in_range(order: Seq<Ebb>, ne: nat) -> bool {
    forall|k: int| 0 <= k < order.len() ==> #[trigger] order[k] < ne
}

/// No EBB stands twice in the layout order.
pub open spec fn order_nodup(order: Seq<Ebb>) -> bool {
    forall|k1: int, k2: int|
        0 <= k1 < order.len() && 0 <= k2 < order.len() && k1 != k2 ==> #[trigger] order[k1]
            != #[trigger] order[k2]
}

/// Every placement slot of `blocks` holds one of `n` instruction identities.
pub open spec fn slots_in_range(blocks: Seq<Seq<Inst>>, n: nat) -> bool {
    forall|b: int, j: int|
        0 <= b < blocks.len() && 0 <= j < blocks[b].len() ==> #[trigger] blocks[b][j] < n
}

/// Every placement slot of `blocks` holds a distinct instruction identity.
pub open spec fn distinct_slots(blocks: Seq<Seq<Inst>>) -> bool {
    forall|b1: int, j1: int, b2: int, j2: int|
        0 <= b1 < blocks.len() && 0 <= j1 < blocks[b1].len() && 0 <= b2 < blocks.len() && 0 <= j2
            < blocks[b2].len() && (b1 != b2 || j1 != j2) ==> #[trigger] blocks[b1][j1]
            != #[trigger] blocks[b2][j2]
}

/// Operation codes. The driver classifies opcodes with the predicates below;
/// it never matches on instruction payloads itself, except in the custom
/// conditional-trap expansion, which must.
#[derive(Clone, Copy, Debug, PartialEq, Eq, Structural)]
pub enum Opcode {
    /// Unconditional jump to an EBB, passing block arguments.
    Jump,
    /// Branch to an EBB when the controlling value is zero.
    Brz,
    /// Branch to an EBB when the controlling value is nonzero.
    Brnz,
    /// Call a function through a signature.
    Call,
    /// Return from the function through a signature.
    Return,
    /// Unconditional trap.
    Trap,
    /// Trap when the operand is zero.
    Trapz,
    /// Trap when the operand is nonzero.
    Trapnz,
    /// ABI conversion step inserted around call and return boundaries.
    Convert,
    /// No operation; straight-line filler.
    Nop,
}

impl Opcode {
    /// True for instructions that transfer control to another EBB.
    pub open spec fn spec_is_branch(self) -> bool {
        self is Jump || self is Brz || self is Brnz
    }

    #[verifier::when_used_as_spec(spec_is_branch)]
    pub fn is_branch(self) -> (r: bool)
        ensures
            r == self.spec_is_branch(),
    {
        matches!(self, Opcode::Jump | Opcode::Brz | Opcode::Brnz)
    }

    /// True for call instructions, which must conform to the calling convention.
    pub open spec fn spec_is_call(self) -> bool {
        self is Call
    }

    #[verifier::when_used_as_spec(spec_is_call)]
    pub fn is_call(self) -> (r: bool)
        ensures
            r == self.spec_is_call(),
    {
        matches!(self, Opcode::Call)
    }

    /// True for return instructions, which must conform to the calling convention.
    pub open spec fn spec_is_return(self) -> bool {
        self is Return
    }

    #[verifier::when_used_as_spec(spec_is_return)]
    pub fn is_return(self) -> (r: bool)
        ensures
            r == self.spec_is_return(),
    {
        matches!(self, Opcode::Return)
    }

    /// True for the two conditional-trap opcodes.
    pub open spec fn spec_is_cond_trap(self) -> bool {
        self is Trapz || self is Trapnz
    }

    #[verifier::when_used_as_spec(spec_is_cond_trap)]
    pub fn is_cond_trap(self) -> (r: bool)
        ensures
            r == self.spec_is_cond_trap(),
    {
        matches!(self, Opcode::Trapz | Opcode::Trapnz)
    }
}

/// Instruction payloads, grouped by operand shape.
#[derive(Clone, Debug)]
pub enum InstData {
    /// An instruction with no operands: `Trap`, `Convert` or `Nop`.
    Nullary { opcode: Opcode },
    /// A single-operand instruction: `Trapz` or `Trapnz`.
    Unary { opcode: Opcode, arg: Value },
    /// A call through signature `sig` with argument values.
    Call { sig: u32, args: Vec<Value> },
    /// A return through signature `sig` with returned values.
    Ret { sig: u32, args: Vec<Value> },
    /// An unconditional jump to `dest`, passing EBB arguments.
    Jump { dest: Ebb, args: Vec<Value> },
    /// A conditional branch (`Brz` or `Brnz`) on `arg` to `dest`,
    /// passing EBB arguments.
    Branch { opcode: Opcode, arg: Value, dest: Ebb, args: Vec<Value> },
}

/// The mathematical shape of an instruction: payloads with argument sequences
/// in place of vectors. Contracts speak of this model.
pub enum InstModel {
    Nullary { opcode: Opcode },
    Unary { opcode: Opcode, arg: Value },
    Call { sig: u32, args: Seq<Value> },
    Ret { sig: u32, args: Seq<Value> },
    Jump { dest: Ebb, args: Seq<Value> },
    Branch { opcode: Opcode, arg: Value, dest: Ebb, args: Seq<Value> },
}

impl InstData {
    /// The model of this instruction.
    pub open spec fn model(self) -> InstModel {
        match self {
            InstData::Nullary { opcode } => InstModel::Nullary { opcode },
            InstData::Unary { opcode, arg } => InstModel::Unary { opcode, arg },
            InstData::Call { sig, args } => InstModel::Call { sig, args: args@ },
            InstData::Ret { sig, args } => InstModel::Ret { sig, args: args@ },
            InstData::Jump { dest, args } => InstModel::Jump { dest, args: args@ },
            InstData::Branch { opcode, arg, dest, args } => InstModel::Branch {
                opcode,
                arg,
                dest,
                args: args@,
            },
        }
    }

    /// The opcode of this instruction.
    pub open spec fn spec_opcode(&self) -> Opcode {
        match self {
            InstData::Nullary { opcode } => *opcode,
            InstData::Unary { opcode, .. } => *opcode,
            InstData::Call { .. } => Opcode::Call,
            InstData::Ret { .. } => Opcode::Return,
            InstData::Jump { .. } => Opcode::Jump,
            InstData::Branch { opcode, .. } => *opcode,
        }
    }

    #[verifier::when_used_as_spec(spec_opcode)]
    pub fn opcode(&self) -> (r: Opcode)
        ensures
            r == self.spec_opcode(),
    {
        match self {
            InstData::Nullary { opcode } => *opcode,
            InstData::Unary { opcode, .. } => *opcode,
            InstData::Call { .. } => Opcode::Call,
            InstData::Ret { .. } => Opcode::Return,
            InstData::Jump { .. } => Opcode::Jump,
            InstData::Branch { opcode, .. } => *opcode,
        }
    }

    /// Well-formed instruction data: the opcode matches the payload shape,
    /// every operand names an existing value, and a branch destination names
    /// an existing EBB.
    pub open spec fn wf(self, num_values: nat, num_ebbs: nat) -> bool {
        match self {
            InstData::Nullary { opcode } => opcode is Trap || opcode is Convert
                || opcode is Nop,
            InstData::Unary { opcode, arg } => opcode.spec_is_cond_trap() && arg < num_values,
            InstData::Call { sig, args } => forall|k: int|
                0 <= k < args.len() ==> args[k] < num_values,
            InstData::Ret { sig, args } => forall|k: int|
                0 <= k < args.len() ==> args[k] < num_values,
            InstData::Jump { dest, args } => dest < num_ebbs && forall|k: int|
                0 <= k < args.len() ==> args[k] < num_values,
            InstData::Branch { opcode, arg, dest, args } => (opcode is Brz || opcode is Brnz)
                && arg < num_values && dest < num_ebbs && forall|k: int|
                0 <= k < args.len() ==> args[k] < num_values,
        }
    }
}

impl InstModel {
    /// The opcode of a modeled instruction.
    pub open spec fn opcode(self) -> Opcode {
        match self {
            InstModel::Nullary { opcode } => opcode,
            InstModel::Unary { opcode, .. } => opcode,
            InstModel::Call { .. } => Opcode::Call,
            InstModel::Ret { .. } => Opcode::Return,
            InstModel::Jump { .. } => Opcode::Jump,
            InstModel::Branch { opcode, .. } => opcode,
        }
    }

    /// Every operand of the modeled instruction names one of `nv` values.
    pub open spec fn args_in_range(self, nv: nat) -> bool {
        match self {
            InstModel::Nullary { .. } => true,
            InstModel::Unary { arg, .. } => arg < nv,
            InstModel::Call { args, .. } => forall|k: int|
                0 <= k < args.len() ==> args[k] < nv,
            InstModel::Ret { args, .. } => forall|k: int| 0 <= k < args.len() ==> args[k] < nv,
            InstModel::Jump { args, .. } => forall|k: int| 0 <= k < args.len() ==> args[k] < nv,
            InstModel::Branch { arg, args, .. } => arg < nv && forall|k: int|
                0 <= k < args.len() ==> args[k] < nv,
        }
    }

    /// The same instruction with its boundary signature set to `sig`; calls
    /// and returns only.
    pub open spec fn with_boundary_sig(self, sig: u32) -> InstModel {
        match self {
            InstModel::Call { sig: _, args } => InstModel::Call { sig, args },
            InstModel::Ret { sig: _, args } => InstModel::Ret { sig, args },
            _ => self,
        }
    }
}

/// A well-formed payload has all operands in range.
pub proof fn lemma_wf_args_in_range(d: InstData, nv: nat, ne: nat)
    requires
        d.wf(nv, ne),
    ensures
        d.model().args_in_range(nv),
{
}

/// The data flow graph: instruction payloads by identity, and the value-alias
/// table. `resolved[v]` is the canonical value that `v` stands for; a value
/// that is its own canonical form is a root. Upstream passes introduce
/// aliases; the branch-argument simplifier rewrites arguments to roots.
#[derive(Clone, Debug)]
pub struct DataFlowGraph {
    pub insts: Vec<InstData>,
    pub resolved: Vec<Value>,
}

impl DataFlowGraph {
    pub open spec fn num_insts(self) -> nat {
        self.insts.len() as nat
    }

    pub open spec fn num_values(self) -> nat {
        self.resolved.len() as nat
    }

    /// The alias table maps every value into range, and resolving twice is
    /// the same as resolving once: canonical values are roots.
    pub open spec fn wf_aliases(self) -> bool {
        aliases_wf(self.resolved@)
    }
}

/// The layout: EBBs in linear emission order, and the ordered instruction
/// sequence of every EBB. `blocks` is indexed by EBB identity; `order` lists
/// the EBB identities in emission order. An EBB that was created but not yet
/// placed in the order is empty.
#[derive(Clone, Debug)]
pub struct Layout {
    pub order: Vec<Ebb>,
    pub blocks: Vec<Vec<Inst>>,
}

impl Layout {
    pub open spec fn num_ebbs(self) -> nat {
        self.blocks.len() as nat
    }
}

/// The program unit being legalized.
#[derive(Clone, Debug)]
pub struct Function {
    pub dfg: DataFlowGraph,
    pub layout: Layout,
    /// The encoding map, keyed by instruction identity. `Some` holds the
    /// recipe recorded for a legal instruction.
    pub encodings: Vec<Option<u32>>,
    /// The signature identity that call and return boundaries must conform
    /// to; established from the target by signature legalization.
    pub abi_sig: u32,
}

impl Function {
    pub open spec fn num_insts(self) -> nat {
        self.dfg.num_insts()
    }

    pub open spec fn num_values(self) -> nat {
        self.dfg.num_values()
    }

    pub open spec fn num_ebbs(self) -> nat {
        self.layout.num_ebbs()
    }

    /// The models of all instructions, by identity.
    pub open spec fn insts_model(self) -> Seq<InstModel> {
        self.dfg.insts@.map_values(|d: InstData| d.model())
    }

    /// The model of one instruction.
    pub open spec fn inst_model(self, i: Inst) -> InstModel {
        self.dfg.insts[i as int].model()
    }

    /// The instruction sequences of all EBBs, by identity.
    pub open spec fn blocks_seq(self) -> Seq<Seq<Inst>> {
        self.layout.blocks@.map_values(|b: Vec<Inst>| b@)
    }

    /// The EBB identities in layout order.
    pub open spec fn order_seq(self) -> Seq<Ebb> {
        self.layout.order@
    }

    pub open spec fn enc_seq(self) -> Seq<Option<u32>> {
        self.encodings@
    }

    pub open spec fn resolved_seq(self) -> Seq<Value> {
        self.dfg.resolved@
    }

    /// The instruction sequence of the EBB at layout position `bi`.
    pub open spec fn block_at(self, bi: int) -> Seq<Inst> {
        self.blocks_seq()[self.order_seq()[bi] as int]
    }

    /// `i` stands at offset `off` of the EBB at layout position `bi`.
    pub open spec fn pos_of(self, bi: int, off: int, i: Inst) -> bool {
        &&& 0 <= bi < self.order_seq().len()
        &&& 0 <= off < self.block_at(bi).len()
        &&& self.block_at(bi)[off] == i
    }

    /// `i` stands somewhere in the layout.
    pub open spec fn placed(self, i: Inst) -> bool {
        exists|bi: int, off: int| self.pos_of(bi, off, i)
    }

    /// Every placement slot holds a distinct instruction identity: an
    /// instruction stands in at most one place of the layout.
    pub open spec fn wf_distinct(self) -> bool {
        distinct_slots(self.blocks_seq())
    }

    /// Every instruction payload is well formed.
    pub open spec fn wf_insts(self) -> bool {
        all_insts_wf(self.dfg.insts@, self.num_values(), self.num_ebbs())
    }

    /// The layout order names existing EBBs.
    pub open spec fn wf_order_bound(self) -> bool {
        order_in_range(self.order_seq(), self.num_ebbs())
    }

    /// No EBB stands twice in the layout order.
    pub open spec fn wf_order_nodup(self) -> bool {
        order_nodup(self.order_seq())
    }

    /// Every placed instruction identity exists in the data flow graph.
    pub open spec fn wf_placed_bound(self) -> bool {
        slots_in_range(self.blocks_seq(), self.num_insts())
    }

    /// Well-formed function:
    /// - the encoding map is sized to the instruction count;
    /// - the alias table is closed and resolves to roots;
    /// - every instruction payload is well formed;
    /// - the layout order names existing EBBs and names none twice, every
    ///   placed instruction exists, and no instruction stands in two places.
    pub open spec fn wf(self) -> bool {
        &&& self.encodings.len() == self.dfg.insts.len()
        &&& self.dfg.wf_aliases()
        &&& self.wf_insts()
        &&& self.wf_order_bound()
        &&& self.wf_order_nodup()
        &&& self.wf_placed_bound()
        &&& self.wf_distinct()
    }

    /// Create a new, empty EBB. It is not yet placed in the layout order.
    pub fn make_ebb(&mut self) -> (b: Ebb)
        ensures
            b == old(self).num_ebbs(),
            final(self).blocks_seq() =~= old(self).blocks_seq().push(Seq::empty()),
            final(self).layout.order == old(self).layout.order,
            final(self).order_seq() == old(self).order_seq(),
            final(self).dfg == old(self).dfg,
            final(self).enc_seq() == old(self).enc_seq(),
            final(self).abi_sig == old(self).abi_sig,
            old(self).wf() ==> final(self).wf(),
    {
        let b = self.layout.blocks.len();
        self.layout.blocks.push(Vec::new());
        proof {
            if old(self).wf() {
                lemma_all_insts_wf_mono(
                    self.dfg.insts@,
                    old(self).num_values(),
                    old(self).num_ebbs(),
                    self.num_values(),
                    self.num_ebbs(),
                );
                lemma_order_in_range_mono(
                    self.order_seq(),
                    old(self).num_ebbs(),
                    self.num_ebbs(),
                );
                lemma_slots_push_empty(old(self).blocks_seq(), old(self).num_insts());
                assert(self.blocks_seq() =~= old(self).blocks_seq().push(Seq::empty()));
                assert(self.wf());
            }
        }
        b
    }

    /// Place EBB `b` at the end of the layout order. The EBB must not
    /// already stand in the order.
    pub fn append_ebb(&mut self, b: Ebb)
        requires
            b < old(self).num_ebbs(),
            forall|k: int|
                0 <= k < old(self).order_seq().len() ==> #[trigger] old(self).order_seq()[k] != b,
        ensures
            final(self).order_seq() =~= old(self).order_seq().push(b),
            final(self).layout.blocks == old(self).layout.blocks,
            final(self).blocks_seq() == old(self).blocks_seq(),
            final(self).dfg == old(self).dfg,
            final(self).enc_seq() == old(self).enc_seq(),
            final(self).abi_sig == old(self).abi_sig,
            old(self).wf() ==> final(self).wf(),
    {
        let pos = self.layout.order.len();
        self.layout.order.insert(pos, b);
        proof {
            old(self).order_seq().insert_ensures(pos as int, b);
            assert(self.order_seq() =~= old(self).order_seq().push(b));
            if old(self).wf() {
                lemma_order_insert(
                    old(self).order_seq(),
                    pos as int,
                    b,
                    old(self).num_ebbs(),
                );
                assert(self.wf());
            }
        }
    }

    /// Place EBB `b` at position `pos` of the layout order. The EBB must not
    /// already stand in the order.
    pub fn insert_ebb_in_order(&mut self, pos: usize, b: Ebb)
        requires
            b < old(self).num_ebbs(),
            pos <= old(self).order_seq().len(),
            forall|k: int|
                0 <= k < old(self).order_seq().len() ==> #[trigger] old(self).order_seq()[k] != b,
        ensures
            final(self).order_seq() =~= old(self).order_seq().insert(pos as int, b),
            final(self).layout.blocks == old(self).layout.blocks,
            final(self).blocks_seq() == old(self).blocks_seq(),
            final(self).dfg == old(self).dfg,
            final(self).enc_seq() == old(self).enc_seq(),
            final(self).abi_sig == old(self).abi_sig,
            old(self).wf() ==> final(self).wf(),
    {
        self.layout.order.insert(pos, b);
        proof {
            if old(self).wf() {
                lemma_order_insert(
                    old(self).order_seq(),
                    pos as int,
                    b,
                    old(self).num_ebbs(),
                );
                assert(self.wf());
            }
        }
    }

    /// Create a new instruction in the data flow graph, with no encoding yet.
    /// It is not placed in the layout.
    pub fn make_inst(&mut self, data: InstData) -> (i: Inst)
        ensures
            i == old(self).num_insts(),
            final(self).insts_model() =~= old(self).insts_model().push(data.model()),
            final(self).dfg.insts@ =~= old(self).dfg.insts@.push(data),
            final(self).enc_seq() =~= old(self).enc_seq().push(None),
            final(self).layout == old(self).layout,
            final(self).blocks_seq() == old(self).blocks_seq(),
            final(self).order_seq() == old(self).order_seq(),
            final(self).dfg.resolved == old(self).dfg.resolved,
            final(self).resolved_seq() == old(self).resolved_seq(),
            final(self).abi_sig == old(self).abi_sig,
            old(self).wf() && data.wf(old(self).num_values(), old(self).num_ebbs()) ==> final(self).wf(),
    {
        let i = self.dfg.insts.len();
        self.dfg.insts.push(data);
        self.encodings.push(None);
        proof {
            assert(self.insts_model() =~= old(self).insts_model().push(data.model()));
            if old(self).wf() && data.wf(old(self).num_values(), old(self).num_ebbs()) {
                lemma_all_insts_wf_push(
                    old(self).dfg.insts@,
                    data,
                    old(self).num_values(),
                    old(self).num_ebbs(),
                );
                assert(self.dfg.insts@ =~= old(self).dfg.insts@.push(data));
                lemma_slots_in_range_mono(
                    self.blocks_seq(),
                    old(self).num_insts(),
                    self.num_insts(),
                );
                assert(self.wf());
            }
        }
        i
    }

    /// Replace the payload of instruction `i` in place, keeping its identity,
    /// its position in the layout and its encoding slot.
    pub fn replace_inst(&mut self, i: Inst, data: InstData)
        requires
            i < old(self).num_insts(),
        ensures
            final(self).insts_model() =~= old(self).insts_model().update(i as int, data.model()),
            final(self).dfg.insts@ =~= old(self).dfg.insts@.update(i as int, data),
            final(self).encodings == old(self).encodings,
            final(self).enc_seq() == old(self).enc_seq(),
            final(self).layout == old(self).layout,
            final(self).blocks_seq() == old(self).blocks_seq(),
            final(self).order_seq() == old(self).order_seq(),
            final(self).dfg.resolved == old(self).dfg.resolved,
            final(self).resolved_seq() == old(self).resolved_seq(),
            final(self).abi_sig == old(self).abi_sig,
            old(self).wf() && data.wf(old(self).num_values(), old(self).num_ebbs()) ==> final(self).wf(),
    {
        self.dfg.insts[i] = data;
        proof {
            assert(self.insts_model() =~= old(self).insts_model().update(i as int, data.model()));
            if old(self).wf() && data.wf(old(self).num_values(), old(self).num_ebbs()) {
                lemma_all_insts_wf_update(
                    old(self).dfg.insts@,
                    i as int,
                    data,
                    old(self).num_values(),
                    old(self).num_ebbs(),
                );
                assert(self.dfg.insts@ =~= old(self).dfg.insts@.update(i as int, data));
                assert(self.wf());
            }
        }
    }

    /// Create an instruction and place it at offset `off` of EBB `b`.
    pub fn insert_inst(&mut self, b: Ebb, off: usize, data: InstData) -> (i: Inst)
        requires
            old(self).wf(),
            b < old(self).num_ebbs(),
            off <= old(self).blocks_seq()[b as int].len(),
            data.wf(old(self).num_values(), old(self).num_ebbs()),
        ensures
            i == old(self).num_insts(),
            final(self).insts_model() =~= old(self).insts_model().push(data.model()),
            final(self).enc_seq() =~= old(self).enc_seq().push(None),
            final(self).blocks_seq() =~= old(self).blocks_seq().update(
                b as int,
                old(self).blocks_seq()[b as int].insert(off as int, i),
            ),
            final(self).layout.order == old(self).layout.order,
            final(self).order_seq() == old(self).order_seq(),
            final(self).dfg.resolved == old(self).dfg.resolved,
            final(self).resolved_seq() == old(self).resolved_seq(),
            final(self).abi_sig == old(self).abi_sig,
            final(self).wf(),
    {
        let i = self.make_inst(data);
        proof {
            assert(self.layout.blocks@[b as int]@ == self.blocks_seq()[b as int]);
        }
        self.layout.blocks[b].insert(off, i);
        proof {
            let pre = *old(self);
            let blk = pre.blocks_seq()[b as int];
            assert(self.blocks_seq() =~= pre.blocks_seq().update(
                b as int,
                blk.insert(off as int, i),
            ));
            lemma_place_fresh(pre.blocks_seq(), b as int, off as int, i, pre.num_insts());
            assert(self.wf());
        }
        i
    }

    /// Create an instruction and place it at the end of EBB `b`.
    pub fn append_inst(&mut self, b: Ebb, data: InstData) -> (i: Inst)
        requires
            old(self).wf(),
            b < old(self).num_ebbs(),
            data.wf(old(self).num_values(), old(self).num_ebbs()),
        ensures
            i == old(self).num_insts(),
            final(self).insts_model() =~= old(self).insts_model().push(data.model()),
            final(self).enc_seq() =~= old(self).enc_seq().push(None),
            final(self).blocks_seq() =~= old(self).blocks_seq().update(
                b as int,
                old(self).blocks_seq()[b as int].push(i),
            ),
            final(self).layout.order == old(self).layout.order,
            final(self).order_seq() == old(self).order_seq(),
            final(self).dfg.resolved == old(self).dfg.resolved,
            final(self).resolved_seq() == old(self).resolved_seq(),
            final(self).abi_sig == old(self).abi_sig,
            final(self).wf(),
    {
        let off = self.layout.blocks[b].len();
        let i = self.insert_inst(b, off, data);
        proof {
            assert(old(self).blocks_seq()[b as int].insert(
                old(self).blocks_seq()[b as int].len() as int,
                i,
            ) =~= old(self).blocks_seq()[b as int].push(i));
        }
        i
    }

    /// Move the instructions of EBB `b` from offset `at` onwards into the
    /// empty EBB `nb`, keeping their order.
    pub fn split_block(&mut self, b: Ebb, at: usize, nb: Ebb)
        requires
            old(self).wf(),
            b < old(self).num_ebbs(),
            nb < old(self).num_ebbs(),
            b != nb,
            at <= old(self).blocks_seq()[b as int].len(),
            old(self).blocks_seq()[nb as int].len() == 0,
        ensures
            final(self).blocks_seq() =~= old(self).blocks_seq().update(
                b as int,
                old(self).blocks_seq()[b as int].take(at as int),
            ).update(nb as int, old(self).blocks_seq()[b as int].skip(at as int)),
            final(self).dfg == old(self).dfg,
            final(self).insts_model() == old(self).insts_model(),
            final(self).encodings == old(self).encodings,
            final(self).enc_seq() == old(self).enc_seq(),
            final(self).layout.order == old(self).layout.order,
            final(self).order_seq() == old(self).order_seq(),
            final(self).resolved_seq() == old(self).resolved_seq(),
            final(self).abi_sig == old(self).abi_sig,
            final(self).wf(),
    {
        let tail = self.layout.blocks[b].split_off(at);
        self.layout.blocks[nb] = tail;
        proof {
            let pre = *old(self);
            let blk = pre.blocks_seq()[b as int];
            assert(blk.subrange(0, at as int) =~= blk.take(at as int));
            assert(blk.subrange(at as int, blk.len() as int) =~= blk.skip(at as int));
            assert(self.blocks_seq() =~= pre.blocks_seq().update(b as int, blk.take(at as int))
                .update(nb as int, blk.skip(at as int)));
            lemma_split_slots(pre.blocks_seq(), b as int, at as int, nb as int, pre.num_insts());
            assert(self.wf());
        }
    }

    /// Set the boundary signature of the call or return instruction `i`,
    /// leaving its operands in place.
    pub fn set_boundary_sig(&mut self, i: Inst, sig: u32)
        requires
            i < old(self).num_insts(),
            old(self).insts_model()[i as int] is Call || old(self).insts_model()[i as int] is Ret,
        ensures
            final(self).insts_model() =~= old(self).insts_model().update(
                i as int,
                old(self).insts_model()[i as int].with_boundary_sig(sig),
            ),
            final(self).encodings == old(self).encodings,
            final(self).enc_seq() == old(self).enc_seq(),
            final(self).layout == old(self).layout,
            final(self).blocks_seq() == old(self).blocks_seq(),
            final(self).order_seq() == old(self).order_seq(),
            final(self).dfg.resolved == old(self).dfg.resolved,
            final(self).resolved_seq() == old(self).resolved_seq(),
            final(self).abi_sig == old(self).abi_sig,
            old(self).wf() ==> final(self).wf(),
    {
        match &mut self.dfg.insts[i] {
            InstData::Call { sig: s, .. } => {
                *s = sig;
            },
            InstData::Ret { sig: s, .. } => {
                *s = sig;
            },
            _ => {
            },
        }
        proof {
            assert(self.insts_model() =~= old(self).insts_model().update(
                i as int,
                old(self).insts_model()[i as int].with_boundary_sig(sig),
            ));
            if old(self).wf() {
                assert(self.dfg.insts@[i as int].wf(self.num_values(), self.num_ebbs())) by {
                    assert(old(self).dfg.insts@[i as int].wf(
                        old(self).num_values(),
                        old(self).num_ebbs(),
                    ));
                }
                assert forall|k: int| 0 <= k < self.dfg.insts@.len() implies #[trigger] self
                    .dfg
                    .insts@[k].wf(self.num_values(), self.num_ebbs()) by {
                    if k != i {
                        assert(old(self).dfg.insts@[k].wf(
                            old(self).num_values(),
                            old(self).num_ebbs(),
                        ));
                    }
                }
                assert(self.wf());
            }
        }
    }

    /// The layout position of a placed instruction.
    pub fn find_inst_pos(&self, i: Inst) -> (r: (usize, usize))
        requires
            self.wf(),
            self.placed(i),
        ensures
            self.pos_of(r.0 as int, r.1 as int, i),
    {
        let mut bi: usize = 0;
        while bi < self.layout.order.len()
            invariant
                self.wf(),
                self.placed(i),
                bi <= self.order_seq().len(),
                forall|bx: int, off: int|
                    0 <= bx < bi && 0 <= off < self.block_at(bx).len()
                        ==> #[trigger] self.block_at(bx)[off] != i,
            decreases self.order_seq().len() - bi,
        {
            let b = self.layout.order[bi];
            let mut j: usize = 0;
            while j < self.layout.blocks[b].len()
                invariant
                    self.wf(),
                    bi < self.order_seq().len(),
                    b == self.order_seq()[bi as int],
                    j <= self.block_at(bi as int).len(),
                    forall|off: int| 0 <= off < j ==> #[trigger] self.block_at(bi as int)[off] != i,
                decreases self.block_at(bi as int).len() - j,
            {
                if self.layout.blocks[b][j] == i {
                    return (bi, j);
                }
                j += 1;
            }
            bi += 1;
        }
        proof {
            let (bx, off) = choose|bx: int, off: int| self.pos_of(bx, off, i);
            assert(self.block_at(bx)[off] != i);
            assert(false);
        }
        (0, 0)
    }
}

/// Payload well-formedness depends only on the instruction's model.
pub proof fn lemma_wf_model_congruent(d1: InstData, d2: InstData, nv: nat, ne: nat)
    requires
        d1.model() == d2.model(),
        d1.wf(nv, ne),
    ensures
        d2.wf(nv, ne),
{
}

/// Replacing one payload with one of a well-formed model keeps every payload
/// well formed.
pub proof fn lemma_all_insts_wf_update_model(
    i1: Seq<InstData>,
    i2: Seq<InstData>,
    i: int,
    nv: nat,
    ne: nat,
)
    requires
        all_insts_wf(i1, nv, ne),
        i2.len() == i1.len(),
        0 <= i < i1.len(),
        forall|k: int|
            0 <= k < i1.len() && k != i ==> #[trigger] i2[k].model() == i1[k].model(),
        i2[i].wf(nv, ne),
    ensures
        all_insts_wf(i2, nv, ne),
{
    assert forall|k: int| 0 <= k < i2.len() implies #[trigger] i2[k].wf(nv, ne) by {
        if k != i {
            assert(i1[k].wf(nv, ne));
            lemma_wf_model_congruent(i1[k], i2[k], nv, ne);
        }
    }
}

/// An instruction stands in at most one place of the layout.
pub proof fn lemma_pos_unique(f: Function, i: Inst, bi1: int, off1: int, bi2: int, off2: int)
    requires
        f.wf(),
        f.pos_of(bi1, off1, i),
        f.pos_of(bi2, off2, i),
    ensures
        bi1 == bi2,
        off1 == off2,
{
    let b1 = f.order_seq()[bi1] as int;
    let b2 = f.order_seq()[bi2] as int;
    assert(f.order_seq()[bi1] < f.num_ebbs());
    assert(f.order_seq()[bi2] < f.num_ebbs());
    if b1 != b2 || off1 != off2 {
        assert(f.blocks_seq()[b1][off1] != f.blocks_seq()[b2][off2]);
        assert(false);
    }
    if bi1 != bi2 {
        assert(f.order_seq()[bi1] != f.order_seq()[bi2]);
        assert(false);
    }
}

/// Instruction well-formedness is monotone in the number of values and EBBs.
proof fn lemma_inst_wf_mono(d: InstData, nv1: nat, ne1: nat, nv2: nat, ne2: nat)
    requires
        d.wf(nv1, ne1),
        nv1 <= nv2,
        ne1 <= ne2,
    ensures
        d.wf(nv2, ne2),
{
}

/// `all_insts_wf` is monotone in the number of values and EBBs.
pub proof fn lemma_all_insts_wf_mono(insts: Seq<InstData>, nv1: nat, ne1: nat, nv2: nat, ne2: nat)
    requires
        all_insts_wf(insts, nv1, ne1),
        nv1 <= nv2,
        ne1 <= ne2,
    ensures
        all_insts_wf(insts, nv2, ne2),
{
    assert forall|i: int| 0 <= i < insts.len() implies #[trigger] insts[i].wf(nv2, ne2) by {
        lemma_inst_wf_mono(insts[i], nv1, ne1, nv2, ne2);
    }
}

/// Pushing a well-formed payload keeps every payload well formed.
pub proof fn lemma_all_insts_wf_push(insts: Seq<InstData>, d: InstData, nv: nat, ne: nat)
    requires
        all_insts_wf(insts, nv, ne),
        d.wf(nv, ne),
    ensures
        all_insts_wf(insts.push(d), nv, ne),
{
    assert forall|i: int| 0 <= i < insts.push(d).len() implies #[trigger] insts.push(d)[i].wf(
        nv,
        ne,
    ) by {
        if i < insts.len() {
            assert(insts[i].wf(nv, ne));
        }
    }
}

/// Replacing one payload with a well-formed one keeps every payload well
/// formed.
pub proof fn lemma_all_insts_wf_update(insts: Seq<InstData>, i: int, d: InstData, nv: nat, ne: nat)
    requires
        all_insts_wf(insts, nv, ne),
        0 <= i < insts.len(),
        d.wf(nv, ne),
    ensures
        all_insts_wf(insts.update(i, d), nv, ne),
{
    assert forall|k: int| 0 <= k < insts.update(i, d).len() implies #[trigger] insts.update(
        i,
        d,
    )[k].wf(nv, ne) by {
        if k != i {
            assert(insts[k].wf(nv, ne));
        }
    }
}

/// `order_in_range` is monotone in the number of EBBs.
pub proof fn lemma_order_in_range_mono(order: Seq<Ebb>, ne1: nat, ne2: nat)
    requires
        order_in_range(order, ne1),
        ne1 <= ne2,
    ensures
        order_in_range(order, ne2),
{
}

/// Inserting an EBB that does not yet stand in the order keeps the order in
/// range and free of duplicates.
pub proof fn lemma_order_insert(order: Seq<Ebb>, pos: int, b: Ebb, ne: nat)
    requires
        order_in_range(order, ne),
        order_nodup(order),
        b < ne,
        0 <= pos <= order.len(),
        forall|k: int| 0 <= k < order.len() ==> #[trigger] order[k] != b,
    ensures
        order_in_range(order.insert(pos, b), ne),
        order_nodup(order.insert(pos, b)),
{
    let post = order.insert(pos, b);
    order.insert_ensures(pos, b);
    assert forall|k: int| 0 <= k < post.len() implies #[trigger] post[k] < ne by {
        if k < pos {
            assert(post[k] == order[k]);
        } else if k > pos {
            assert(post[k] == order[k - 1]);
        }
    }
    assert forall|k1: int, k2: int|
        0 <= k1 < post.len() && 0 <= k2 < post.len() && k1 != k2 implies #[trigger] post[k1]
        != #[trigger] post[k2] by {
        let o1: int = if k1 < pos {
            k1
        } else {
            k1 - 1
        };
        let o2: int = if k2 < pos {
            k2
        } else {
            k2 - 1
        };
        if k1 != pos && k2 != pos {
            assert(post[k1] == order[o1]);
            assert(post[k2] == order[o2]);
            assert(order[o1] != order[o2]);
        } else if k1 == pos {
            assert(post[k2] == order[o2]);
            assert(order[o2] != b);
        } else {
            assert(post[k1] == order[o1]);
            assert(order[o1] != b);
        }
    }
}

/// `slots_in_range` is monotone in the number of instructions.
pub proof fn lemma_slots_in_range_mono(blocks: Seq<Seq<Inst>>, n1: nat, n2: nat)
    requires
        slots_in_range(blocks, n1),
        n1 <= n2,
    ensures
        slots_in_range(blocks, n2),
{
}

/// Adding an empty EBB keeps the placement slots in range and distinct.
pub proof fn lemma_slots_push_empty(blocks: Seq<Seq<Inst>>, n: nat)
    requires
        slots_in_range(blocks, n),
        distinct_slots(blocks),
    ensures
        slots_in_range(blocks.push(Seq::empty()), n),
        distinct_slots(blocks.push(Seq::empty())),
{
    let post = blocks.push(Seq::<Inst>::empty());
    assert forall|b: int, j: int|
        0 <= b < post.len() && 0 <= j < post[b].len() implies #[trigger] post[b][j] < n by {
        assert(blocks[b][j] < n);
    }
    assert forall|b1: int, j1: int, b2: int, j2: int|
        0 <= b1 < post.len() && 0 <= j1 < post[b1].len() && 0 <= b2 < post.len() && 0 <= j2
            < post[b2].len() && (b1 != b2 || j1 != j2) implies #[trigger] post[b1][j1]
        != #[trigger] post[b2][j2] by {
        assert(blocks[b1][j1] != blocks[b2][j2]);
    }
}

/// Placing one fresh instruction identity into an EBB keeps the placement
/// slots in range (for the grown count) and distinct.
pub proof fn lemma_place_fresh(blocks: Seq<Seq<Inst>>, b: int, at: int, i: Inst, n: nat)
    requires
        slots_in_range(blocks, n),
        distinct_slots(blocks),
        0 <= b < blocks.len(),
        0 <= at <= blocks[b].len(),
        i >= n,
    ensures
        slots_in_range(blocks.update(b, blocks[b].insert(at, i)), (i + 1) as nat),
        distinct_slots(blocks.update(b, blocks[b].insert(at, i))),
{
    let post = blocks.update(b, blocks[b].insert(at, i));
    blocks[b].insert_ensures(at, i);
    assert forall|b2: int, j: int|
        0 <= b2 < post.len() && 0 <= j < post[b2].len() implies #[trigger] post[b2][j] < i + 1 by {
        if b2 == b {
            if j < at {
                assert(post[b2][j] == blocks[b][j]);
                assert(blocks[b][j] < n);
            } else if j > at {
                assert(post[b2][j] == blocks[b][j - 1]);
                assert(blocks[b][j - 1] < n);
            }
        } else {
            assert(blocks[b2][j] < n);
        }
    }
    assert forall|b1: int, j1: int, b2: int, j2: int|
        0 <= b1 < post.len() && 0 <= j1 < post[b1].len() && 0 <= b2 < post.len() && 0 <= j2
            < post[b2].len() && (b1 != b2 || j1 != j2) implies #[trigger] post[b1][j1]
        != #[trigger] post[b2][j2] by {
        let fresh1 = b1 == b && j1 == at;
        let fresh2 = b2 == b && j2 == at;
        let o1: int = if b1 == b && j1 > at {
            j1 - 1
        } else {
            j1
        };
        let o2: int = if b2 == b && j2 > at {
            j2 - 1
        } else {
            j2
        };
        if fresh1 && !fresh2 {
            assert(post[b2][j2] == blocks[b2][o2]);
            assert(blocks[b2][o2] < n);
        } else if fresh2 && !fresh1 {
            assert(post[b1][j1] == blocks[b1][o1]);
            assert(blocks[b1][o1] < n);
        } else if !fresh1 && !fresh2 {
            assert(post[b1][j1] == blocks[b1][o1]);
            assert(post[b2][j2] == blocks[b2][o2]);
            assert(b1 != b2 || o1 != o2);
            assert(blocks[b1][o1] != blocks[b2][o2]);
        }
    }
}

/// Splitting an EBB in two keeps the placement slots in range and distinct.
pub proof fn lemma_split_slots(blocks: Seq<Seq<Inst>>, b: int, at: int, nb: int, n: nat)
    requires
        slots_in_range(blocks, n),
        distinct_slots(blocks),
        0 <= b < blocks.len(),
        0 <= nb < blocks.len(),
        b != nb,
        0 <= at <= blocks[b].len(),
        blocks[nb].len() == 0,
    ensures
        slots_in_range(
            blocks.update(b, blocks[b].take(at)).update(nb, blocks[b].skip(at)),
            n,
        ),
        distinct_slots(blocks.update(b, blocks[b].take(at)).update(nb, blocks[b].skip(at))),
{
    let post = blocks.update(b, blocks[b].take(at)).update(nb, blocks[b].skip(at));
    assert forall|b2: int, j: int|
        0 <= b2 < post.len() && 0 <= j < post[b2].len() implies #[trigger] post[b2][j] < n by {
        if b2 == nb {
            assert(post[b2][j] == blocks[b][at + j]);
            assert(blocks[b][at + j] < n);
        } else if b2 == b {
            assert(post[b2][j] == blocks[b][j]);
            assert(blocks[b][j] < n);
        } else {
            assert(blocks[b2][j] < n);
        }
    }
    assert forall|b1: int, j1: int, b2: int, j2: int|
        0 <= b1 < post.len() && 0 <= j1 < post[b1].len() && 0 <= b2 < post.len() && 0 <= j2
            < post[b2].len() && (b1 != b2 || j1 != j2) implies #[trigger] post[b1][j1]
        != #[trigger] post[b2][j2] by {
        let ob1: int = if b1 == nb {
            b
        } else {
            b1
        };
        let oj1: int = if b1 == nb {
            at + j1
        } else {
            j1
        };
        let ob2: int = if b2 == nb {
            b
        } else {
            b2
        };
        let oj2: int = if b2 == nb {
            at + j2
        } else {
            j2
        };
        assert(post[b1][j1] == blocks[ob1][oj1]);
        assert(post[b2][j2] == blocks[ob2][oj2]);
        assert(ob1 != ob2 || oj1 != oj2);
        assert(blocks[ob1][oj1] != blocks[ob2][oj2]);
    }
}

} // verus!
