//! Legalize instructions.
//!
//! A legal instruction is one that can be mapped directly to a machine code
//! instruction for the target instruction set. The `legalize_function` driver
//! takes any function and transforms it into an equivalent function using
//! only legal instructions, filling out the function's encoding map along the
//! way.
//!
//! Which instructions are legal depends on the target, so a given instruction
//! can be legal for one target and illegal for another. The legalizer does
//! not deal with register allocation constraints: those are derived from the
//! encoding recipes and solved later.

use vstd::prelude::*;

pub mod boundary;
pub mod flowgraph;
pub mod ir;
pub mod isa;
pub mod split;

use crate::flowgraph::branch_dests;
use crate::flowgraph::dest_of;
use crate::flowgraph::dest_of_id;
use crate::flowgraph::lemma_branch_dests_congruent;
use crate::flowgraph::ControlFlowGraph;
use crate::ir::distinct_slots;
use crate::ir::Ebb;
use crate::ir::Function;
use crate::ir::Inst;
use crate::ir::InstData;
use crate::ir::InstModel;
use crate::ir::Opcode;
use crate::ir::Value;
use crate::isa::Action;
use crate::isa::TargetIsa;
use crate::isa::Verdict;
use crate::split::simplify_model;

verus! {

/// One instruction's legality/encoding state: the target's verdict on its
/// model is "legal", and the encoding map records exactly the returned
/// recipe.
pub open spec fn slot_encoded(
    models: Seq<InstModel>,
    encs: Seq<Option<u32>>,
    isa: TargetIsa,
    i: Inst,
) -> bool {
    &&& i < models.len()
    &&& i < encs.len()
    &&& match isa.spec_encode(models[i as int]) {
        Verdict::Legal(e) => encs[i as int] == Some(e),
        Verdict::Illegal(_) => false,
    }
}

/// Every instruction of `blk` before offset `upto` is legal and encoded.
pub open spec fn block_encoded(
    models: Seq<InstModel>,
    encs: Seq<Option<u32>>,
    blk: Seq<Inst>,
    isa: TargetIsa,
    upto: int,
) -> bool {
    forall|j: int| 0 <= j < upto ==> slot_encoded(models, encs, isa, #[trigger] blk[j])
}

/// Every instruction of every EBB before layout position `nbi` is legal and
/// encoded.
pub open spec fn blocks_encoded_before(
    models: Seq<InstModel>,
    encs: Seq<Option<u32>>,
    blocks: Seq<Seq<Inst>>,
    order: Seq<Ebb>,
    isa: TargetIsa,
    nbi: int,
) -> bool {
    forall|bj: int, j: int|
        0 <= bj < nbi && 0 <= j < blocks[order[bj] as int].len() ==> slot_encoded(
            models,
            encs,
            isa,
            #[trigger] blocks[order[bj] as int][j],
        )
}

/// Termination and fixed point: every instruction in the final layout is
/// legal for the target and has its encoding recorded.
pub open spec fn all_encoded(f: Function, isa: TargetIsa) -> bool {
    blocks_encoded_before(
        f.insts_model(),
        f.enc_seq(),
        f.blocks_seq(),
        f.order_seq(),
        isa,
        f.order_seq().len() as int,
    )
}

/// At the fixed point, a target that expands conditional traps has none
/// left: every placed instruction's opcode is something else.
pub proof fn lemma_fixed_point_no_cond_traps(f: Function, isa: TargetIsa)
    requires
        all_encoded(f, isa),
        isa.expand_cond_traps,
    ensures
        forall|bi: int, j: int|
            0 <= bi < f.order_seq().len() && 0 <= j < f.block_at(bi).len()
                ==> !f.insts_model()[#[trigger] f.block_at(bi)[j] as int].opcode().spec_is_cond_trap(),
{
    assert forall|bi: int, j: int|
        0 <= bi < f.order_seq().len() && 0 <= j < f.block_at(bi).len()
        implies !f.insts_model()[#[trigger] f.block_at(bi)[j] as int].opcode().spec_is_cond_trap() by {
        assert(slot_encoded(
            f.insts_model(),
            f.enc_seq(),
            isa,
            f.blocks_seq()[f.order_seq()[bi] as int][j],
        ));
    }
}

/// One instruction needs no work at all from the driver: it is legal, it
/// conforms to the target's calling convention if it is a call or return,
/// and it is already simplified if it is a branch.
pub open spec fn inst_settled(
    models: Seq<InstModel>,
    resolved: Seq<Value>,
    isa: TargetIsa,
    i: Inst,
) -> bool {
    &&& i < models.len()
    &&& isa.spec_encode(models[i as int]) is Legal
    &&& (models[i as int] is Call || models[i as int] is Ret) ==> crate::boundary::boundary_sig(
        models[i as int],
    ) == isa.abi_sig
    &&& simplify_model(resolved, models[i as int]) == models[i as int]
}

/// The driver has nothing to do on `f`: signatures are already legalized and
/// every placed instruction is settled.
pub open spec fn noop_ready(f: Function, isa: TargetIsa) -> bool {
    &&& f.abi_sig == isa.abi_sig
    &&& forall|bi: int, j: int|
        0 <= bi < f.order_seq().len() && 0 <= j < f.block_at(bi).len() ==> inst_settled(
            f.insts_model(),
            f.resolved_seq(),
            isa,
            #[trigger] f.block_at(bi)[j],
        )
}

/// The code of `f2` is the code of `f1`: instructions, layout, aliases and
/// the legalized signature are the same; only the encoding map may differ.
pub open spec fn same_code(f1: Function, f2: Function) -> bool {
    &&& f2.insts_model() == f1.insts_model()
    &&& f2.blocks_seq() == f1.blocks_seq()
    &&& f2.order_seq() == f1.order_seq()
    &&& f2.resolved_seq() == f1.resolved_seq()
    &&& f2.abi_sig == f1.abi_sig
}

/// The termination weight of one instruction: how much driver work it can
/// still cause. A conditional trap costs an expansion and a revisit of the
/// code it leaves behind; a nonconforming call or return costs a boundary
/// conversion and a revisit; everything else costs only its own visit.
pub open spec fn inst_weight(m: InstModel, abi: u32) -> nat {
    if m.opcode().spec_is_cond_trap() {
        4
    } else if (m is Call || m is Ret) && crate::boundary::boundary_sig(m) != abi {
        2
    } else {
        0
    }
}

/// The total termination weight of an instruction table.
pub open spec fn weight_sum(models: Seq<InstModel>, abi: u32) -> nat
    decreases models.len(),
{
    if models.len() == 0 {
        0
    } else {
        weight_sum(models.drop_last(), abi) + inst_weight(models.last(), abi)
    }
}

/// The number of instruction slots scheduled at or after layout position
/// `k`.
pub open spec fn sched_len(blocks: Seq<Seq<Inst>>, order: Seq<Ebb>, k: int) -> nat
    decreases order.len() - k,
{
    if 0 <= k < order.len() {
        blocks[order[k] as int].len() + sched_len(blocks, order, k + 1)
    } else {
        0
    }
}

/// Appending an instruction adds its weight.
pub proof fn lemma_weight_sum_push(models: Seq<InstModel>, m: InstModel, abi: u32)
    ensures
        weight_sum(models.push(m), abi) == weight_sum(models, abi) + inst_weight(m, abi),
{
    assert(models.push(m).drop_last() =~= models);
    assert(models.push(m).last() == m);
}

/// Replacing an instruction exchanges its weight.
pub proof fn lemma_weight_sum_update(models: Seq<InstModel>, i: int, m: InstModel, abi: u32)
    requires
        0 <= i < models.len(),
    ensures
        weight_sum(models.update(i, m), abi) + inst_weight(models[i], abi) == weight_sum(
            models,
            abi,
        ) + inst_weight(m, abi),
    decreases models.len(),
{
    let post = models.update(i, m);
    if i == models.len() - 1 {
        assert(post.drop_last() =~= models.drop_last());
        assert(post.last() == m);
    } else {
        assert(post.drop_last() =~= models.drop_last().update(i, m));
        assert(post.last() == models.last());
        lemma_weight_sum_update(models.drop_last(), i, m, abi);
        assert(models.drop_last()[i] == models[i]);
    }
}

/// Two block tables that agree on every EBB scheduled at or after `k` give
/// the same scheduled length.
pub proof fn lemma_sched_congruent(
    blocks1: Seq<Seq<Inst>>,
    blocks2: Seq<Seq<Inst>>,
    order: Seq<Ebb>,
    k: int,
)
    requires
        forall|x: int|
            k <= x < order.len() ==> blocks1[#[trigger] order[x] as int] == blocks2[order[x] as int],
    ensures
        sched_len(blocks1, order, k) == sched_len(blocks2, order, k),
    decreases order.len() - k,
{
    if 0 <= k < order.len() {
        lemma_sched_congruent(blocks1, blocks2, order, k + 1);
    }
}

/// Replacing the EBB at layout position `k` changes the scheduled length by
/// the difference of the two lengths, provided that EBB is scheduled once.
pub proof fn lemma_sched_update_at(
    blocks: Seq<Seq<Inst>>,
    order: Seq<Ebb>,
    k: int,
    newv: Seq<Inst>,
)
    requires
        0 <= k < order.len(),
        forall|x: int| k <= x < order.len() ==> #[trigger] order[x] < blocks.len(),
        forall|x: int| k < x < order.len() ==> #[trigger] order[x] != order[k],
    ensures
        sched_len(blocks.update(order[k] as int, newv), order, k) == sched_len(blocks, order, k)
            - blocks[order[k] as int].len() + newv.len(),
{
    let blocks2 = blocks.update(order[k] as int, newv);
    assert(blocks2[order[k] as int] == newv);
    assert forall|x: int|
        k + 1 <= x < order.len() implies blocks[#[trigger] order[x] as int] == blocks2[order[x] as int] by {
        assert(order[x] != order[k]);
    }
    lemma_sched_congruent(blocks, blocks2, order, k + 1);
}

/// The scheduled length from `k+1` over an order with one EBB inserted at
/// position `p <= k` equals the scheduled length from `k` over the original
/// order.
proof fn lemma_sched_shift(blocks: Seq<Seq<Inst>>, order: Seq<Ebb>, p: int, nb: Ebb, k: int)
    requires
        0 <= p <= order.len(),
        p <= k <= order.len(),
    ensures
        sched_len(blocks, order.insert(p, nb), k + 1) == sched_len(blocks, order, k),
    decreases order.len() - k,
{
    let post = order.insert(p, nb);
    order.insert_ensures(p, nb);
    if k < order.len() {
        assert(post[k + 1] == order[k]);
        lemma_sched_shift(blocks, order, p, nb, k + 1);
    }
}

/// Inserting an EBB into the order at position `p`, at or after the current
/// position `k`, adds that EBB's length to the scheduled length.
pub proof fn lemma_sched_insert(blocks: Seq<Seq<Inst>>, order: Seq<Ebb>, p: int, nb: Ebb, k: int)
    requires
        0 <= k <= p <= order.len(),
    ensures
        sched_len(blocks, order.insert(p, nb), k) == sched_len(blocks, order, k) + blocks[nb as int].len(),
    decreases p - k,
{
    let post = order.insert(p, nb);
    order.insert_ensures(p, nb);
    if k == p {
        assert(post[k] == nb);
        lemma_sched_shift(blocks, order, p, nb, k);
    } else {
        assert(post[k] == order[k]);
        lemma_sched_insert(blocks, order, p, nb, k + 1);
    }
}

/// The conditional branch that replaces a conditional trap: it branches
/// *over* the trap, to the continuation EBB `dest`, so its condition is the
/// logical negation of the trap condition. "Trap if zero" becomes "branch if
/// nonzero"; "trap if nonzero" becomes "branch if zero". The controlling
/// operand is kept; the branch passes no EBB arguments.
pub open spec fn branch_over(m: InstModel, dest: Ebb) -> InstModel {
    match m {
        InstModel::Unary { opcode, arg } => InstModel::Branch {
            opcode: if opcode is Trapz {
                Opcode::Brnz
            } else {
                Opcode::Brz
            },
            arg,
            dest,
            args: Seq::empty(),
        },
        _ => m,
    }
}

/// What conditional-trap expansion does to the function: the trap at offset
/// `off` of the EBB at layout position `bi` is replaced in place by a branch
/// over a fresh unconditional trap to a fresh EBB; the rest of the original
/// EBB moves, in order, into the fresh EBB, which follows the original EBB
/// in the layout. Nothing else changes.
pub open spec fn cond_trap_expanded(
    pre: Function,
    post: Function,
    inst: Inst,
    bi: int,
    off: int,
) -> bool {
    let b = pre.order_seq()[bi] as int;
    let nb = pre.num_ebbs() as Ebb;
    let t = pre.num_insts() as Inst;
    let blk = pre.blocks_seq()[b];
    &&& post.insts_model() =~= pre.insts_model().update(
        inst as int,
        branch_over(pre.insts_model()[inst as int], nb),
    ).push(InstModel::Nullary { opcode: Opcode::Trap })
    &&& post.blocks_seq() =~= pre.blocks_seq().update(
        b,
        blk.take(off).push(inst).push(t),
    ).push(blk.skip(off + 1))
    &&& post.order_seq() =~= pre.order_seq().insert(bi + 1, nb)
    &&& post.enc_seq() =~= pre.enc_seq().push(None)
    &&& post.resolved_seq() == pre.resolved_seq()
    &&& post.abi_sig == pre.abi_sig
    &&& post.num_insts() == pre.num_insts() + 1
    &&& post.num_ebbs() == pre.num_ebbs() + 1
}

/// Custom expansion for conditional trap instructions.
///
/// A conditional trap has no direct encoding on targets that expand it, and
/// local substitution cannot express it: its meaning is "optionally skip the
/// rest of this EBB". The fix restructures control flow. Let the trap's EBB
/// be B and its operand `arg`:
///
/// - a fresh EBB B' is allocated;
/// - the trap is replaced in place by a conditional branch over the trap:
///   to B' on the negation of the trap condition;
/// - an unconditional trap is inserted immediately after the branch;
/// - the instructions that followed the trap move, in order, into B', which
///   is placed in the layout immediately after B as the fall-through
///   continuation;
/// - the successor rows of both B and B' are recomputed.
///
/// This action always reports a change; the driver re-examines the branch on
/// rewind, so the branch passes through argument simplification and its own
/// legality check like any other instruction.
pub fn expand_cond_trap(inst: Inst, func: &mut Function, cfg: &mut ControlFlowGraph)
    requires
        old(func).wf(),
        old(func).placed(inst),
        old(func).insts_model()[inst as int] is Unary,
        old(cfg).valid_for(*old(func)),
    ensures
        final(func).wf(),
        final(cfg).valid_for(*final(func)),
        forall|bi: int, off: int|
            old(func).pos_of(bi, off, inst) ==> cond_trap_expanded(
                *old(func),
                *final(func),
                inst,
                bi,
                off,
            ),
{
    let (bi, off) = func.find_inst_pos(inst);
    let old_ebb = func.layout.order[bi];
    proof {
        assert(inst < func.num_insts());
        assert(func.insts_model()[inst as int] == func.dfg.insts@[inst as int].model());
        assert(func.dfg.insts@[inst as int].wf(func.num_values(), func.num_ebbs()));
    }
    let trapz = match &func.dfg.insts[inst] {
        InstData::Unary { opcode, .. } => match opcode {
            Opcode::Trapz => true,
            Opcode::Trapnz => false,
            _ => {
                proof {
                    assert(false);
                }
                false
            },
        },
        _ => {
            proof {
                assert(false);
            }
            false
        },
    };
    let arg = match &func.dfg.insts[inst] {
        InstData::Unary { arg, .. } => *arg,
        _ => {
            proof {
                assert(false);
            }
            0
        },
    };
    let ghost pre = *old(func);
    let ghost b = pre.order_seq()[bi as int] as int;
    let ghost blk = pre.blocks_seq()[b];

    // Split the EBB after `inst`:
    //
    //     trapnz arg
    //
    // Becomes:
    //
    //     brz arg, new_ebb
    //     trap
    //   new_ebb:
    let new_ebb = func.make_ebb();
    if trapz {
        func.replace_inst(
            inst,
            InstData::Branch { opcode: Opcode::Brnz, arg, dest: new_ebb, args: Vec::new() },
        );
    } else {
        func.replace_inst(
            inst,
            InstData::Branch { opcode: Opcode::Brz, arg, dest: new_ebb, args: Vec::new() },
        );
    }
    proof {
        let vb = func.layout.blocks@[b];
        assert(vb@ == func.blocks_seq()[b]);
        assert(func.blocks_seq()[b] == blk);
        assert(vb.len() == vb@.len());
        assert(blk.len() <= usize::MAX);
        let vo = func.layout.order;
        assert(vo.len() == vo@.len());
        assert(bi < usize::MAX);
    }
    let t = func.insert_inst(old_ebb, off + 1, InstData::Nullary { opcode: Opcode::Trap });
    let ghost blk2 = blk.insert(off as int + 1, t);
    proof {
        blk.insert_ensures(off as int + 1, t);
        assert(func.blocks_seq()[b] == blk2);
        assert(blk2.len() == blk.len() + 1);
        assert(off + 2 <= blk2.len());
        let vb = func.layout.blocks@[b];
        assert(vb@ == func.blocks_seq()[b]);
        assert(vb.len() == vb@.len());
        assert(blk2.len() <= usize::MAX);
    }
    func.split_block(old_ebb, off + 2, new_ebb);
    proof {
        assert forall|k: int|
            0 <= k < func.order_seq().len() implies #[trigger] func.order_seq()[k]
            != new_ebb by {
            assert(pre.order_seq()[k] < pre.num_ebbs());
        }
    }
    func.insert_ebb_in_order(bi + 1, new_ebb);

    // Finally update the CFG.
    cfg.recompute_ebb(func, old_ebb);
    cfg.recompute_ebb(func, new_ebb);

    proof {
        let post = *func;
        let m1 = pre.insts_model();
        let m2 = post.insts_model();
        let nb = pre.num_ebbs() as Ebb;
        assert(blk2.take(off as int + 2) =~= blk.take(off as int).push(inst).push(t));
        assert(blk2.skip(off as int + 2) =~= blk.skip(off as int + 1));
        assert(post.blocks_seq() =~= pre.blocks_seq().update(
            b,
            blk.take(off as int).push(inst).push(t),
        ).push(blk.skip(off as int + 1)));
        assert(m2 =~= m1.update(
            inst as int,
            branch_over(m1[inst as int], nb),
        ).push(InstModel::Nullary { opcode: Opcode::Trap }));
        assert(cond_trap_expanded(pre, post, inst, bi as int, off as int));
        assert forall|bix: int, offx: int| pre.pos_of(bix, offx, inst) implies cond_trap_expanded(
            pre,
            post,
            inst,
            bix,
            offx,
        ) by {
            crate::ir::lemma_pos_unique(pre, inst, bi as int, off as int, bix, offx);
        }
        assert forall|x: int| 0 <= x < post.num_ebbs() implies #[trigger] cfg.succs@[x]@
            == branch_dests(m2, post.blocks_seq()[x]) by {
            if x != old_ebb as int && x != nb as int {
                assert(cfg.succs@[x]@ == branch_dests(m1, pre.blocks_seq()[x]));
                let blkx = pre.blocks_seq()[x];
                assert(post.blocks_seq()[x] == blkx);
                assert forall|k: int|
                    0 <= k < blkx.len() implies dest_of_id(m1, #[trigger] blkx[k]) == dest_of_id(
                    m2,
                    blkx[k],
                ) by {
                    assert(pre.blocks_seq()[x][k] < pre.num_insts());
                    assert(pre.blocks_seq()[x][k] != pre.blocks_seq()[b][off as int]);
                }
                lemma_branch_dests_congruent(m1, m2, blkx);
            }
        }
        assert(cfg.valid_for(post));
    }
}

/// Whether a conditional trap fires, given whether its operand is zero at
/// run time.
pub open spec fn cond_trap_fires(m: InstModel, arg_is_zero: bool) -> bool {
    match m {
        InstModel::Unary { opcode, .. } => (opcode is Trapz && arg_is_zero) || (opcode is Trapnz
            && !arg_is_zero),
        _ => false,
    }
}

/// Whether a control-transfer instruction is taken, given whether its
/// controlling value is zero at run time.
pub open spec fn branch_taken(m: InstModel, arg_is_zero: bool) -> bool {
    match m {
        InstModel::Jump { .. } => true,
        InstModel::Branch { opcode, .. } => (opcode is Brz && arg_is_zero) || (opcode is Brnz
            && !arg_is_zero),
        _ => false,
    }
}

/// The operand of a single-operand or branch instruction.
pub open spec fn control_arg(m: InstModel) -> Value {
    match m {
        InstModel::Unary { arg, .. } => arg,
        InstModel::Branch { arg, .. } => arg,
        _ => 0,
    }
}

/// Conditional-trap expansion preserves the trap's behaviour, for every
/// run-time value of its operand: the replacement branch reads the same
/// operand; control jumps over the trap, into the continuation EBB, exactly
/// when the original trap would not have fired, and falls through to an
/// unconditional trap exactly when it would have; and the continuation EBB
/// holds exactly the instructions that followed the trap, in their original
/// order. Values are never changed, only the instruction-level realization.
pub proof fn lemma_cond_trap_expansion_preserves_behaviour(
    pre: Function,
    post: Function,
    inst: Inst,
    bi: int,
    off: int,
    arg_is_zero: bool,
)
    requires
        pre.wf(),
        pre.pos_of(bi, off, inst),
        pre.insts_model()[inst as int] is Unary,
        cond_trap_expanded(pre, post, inst, bi, off),
    ensures
        ({
            let b = pre.order_seq()[bi] as int;
            let nb = pre.num_ebbs() as int;
            let t = pre.num_insts() as int;
            let trap = pre.insts_model()[inst as int];
            let branch = post.insts_model()[inst as int];
            &&& branch is Branch
            &&& control_arg(branch) == control_arg(trap)
            &&& branch_taken(branch, arg_is_zero) == !cond_trap_fires(trap, arg_is_zero)
            &&& post.insts_model()[t] == InstModel::Nullary { opcode: Opcode::Trap }
            &&& post.blocks_seq()[b] == pre.blocks_seq()[b].take(off).push(inst).push(t as Inst)
            &&& post.blocks_seq()[nb] == pre.blocks_seq()[b].skip(off + 1)
            &&& post.order_seq() == pre.order_seq().insert(bi + 1, nb as Ebb)
        }),
{
    let trap = pre.insts_model()[inst as int];
    assert(trap.opcode().spec_is_cond_trap()) by {
        assert(pre.dfg.insts@[inst as int].wf(pre.num_values(), pre.num_ebbs()));
    }
}

/// Placement is unaffected by edits that keep the layout's shape.
proof fn lemma_placed_same_shape(f1: Function, f2: Function, i: Inst)
    requires
        f1.placed(i),
        f2.blocks_seq() == f1.blocks_seq(),
        f2.order_seq() == f1.order_seq(),
    ensures
        f2.placed(i),
{
    let (bi, off) = choose|bi: int, off: int| f1.pos_of(bi, off, i);
    assert(f2.pos_of(bi, off, i));
}

/// A boundary conversion inserts an instruction but displaces none: every
/// placed instruction stays placed.
proof fn lemma_placed_after_boundary(
    pre: Function,
    post: Function,
    inst: Inst,
    bi: int,
    off: int,
    i: Inst,
)
    requires
        pre.wf(),
        pre.pos_of(bi, off, inst),
        crate::boundary::boundary_expanded(pre, post, inst, bi, off),
        pre.placed(i),
    ensures
        post.placed(i),
{
    let b = pre.order_seq()[bi] as int;
    let conv = pre.num_insts() as Inst;
    pre.blocks_seq()[b].insert_ensures(off, conv);
    let (bi2, off2) = choose|bi2: int, off2: int| pre.pos_of(bi2, off2, i);
    if bi2 == bi {
        if off2 < off {
            assert(post.pos_of(bi2, off2, i));
        } else {
            assert(post.blocks_seq()[b][off2 + 1] == pre.blocks_seq()[b][off2]);
            assert(post.pos_of(bi2, off2 + 1, i));
        }
    } else {
        assert(pre.order_seq()[bi2] != pre.order_seq()[bi]);
        assert(post.pos_of(bi2, off2, i));
    }
}

/// Conditional-trap expansion moves instructions into the continuation EBB
/// but loses none: every placed instruction stays placed.
proof fn lemma_placed_after_expand(
    pre: Function,
    post: Function,
    inst: Inst,
    bi: int,
    off: int,
    i: Inst,
)
    requires
        pre.wf(),
        pre.pos_of(bi, off, inst),
        cond_trap_expanded(pre, post, inst, bi, off),
        pre.placed(i),
    ensures
        post.placed(i),
{
    let b = pre.order_seq()[bi] as int;
    let nb = pre.num_ebbs() as Ebb;
    let blk = pre.blocks_seq()[b];
    pre.order_seq().insert_ensures(bi + 1, nb);
    let (bi2, off2) = choose|bi2: int, off2: int| pre.pos_of(bi2, off2, i);
    if bi2 == bi {
        assert(post.order_seq()[bi] == pre.order_seq()[bi]);
        if off2 < off {
            assert(post.blocks_seq()[b][off2] == blk.take(off)[off2]);
            assert(post.pos_of(bi, off2, i));
        } else if off2 == off {
            assert(i == inst);
            assert(post.blocks_seq()[b][off] == inst);
            assert(post.pos_of(bi, off, i));
        } else {
            assert(post.order_seq()[bi + 1] == nb);
            assert(post.blocks_seq()[nb as int] == blk.skip(off + 1));
            assert(post.blocks_seq()[nb as int][off2 - off - 1] == blk[off2]);
            assert(post.pos_of(bi + 1, off2 - off - 1, i));
        }
    } else {
        assert(pre.order_seq()[bi2] != pre.order_seq()[bi]);
        assert(pre.order_seq()[bi2] < pre.num_ebbs());
        if bi2 < bi + 1 {
            assert(post.order_seq()[bi2] == pre.order_seq()[bi2]);
            assert(post.pos_of(bi2, off2, i));
        } else {
            assert(post.order_seq()[bi2 + 1] == pre.order_seq()[bi2]);
            assert(post.pos_of(bi2 + 1, off2, i));
        }
    }
}

/// Rewind correctness, for a boundary conversion: the handler touches
/// nothing before the examined instruction's offset, and the instruction now
/// standing at that offset is the conversion it inserted. The driver rewinds
/// to exactly that offset — its checkpoint is never advanced past an
/// unconfirmed instruction — so the very next instruction it examines is the
/// conversion, and nothing the handler inserted or left behind is skipped.
pub proof fn lemma_rewind_boundary(pre: Function, post: Function, inst: Inst, bi: int, off: int)
    requires
        pre.wf(),
        pre.pos_of(bi, off, inst),
        crate::boundary::boundary_expanded(pre, post, inst, bi, off),
    ensures
        ({
            let b = pre.order_seq()[bi] as int;
            &&& forall|j: int|
                0 <= j < off ==> #[trigger] post.blocks_seq()[b][j] == pre.blocks_seq()[b][j]
            &&& post.blocks_seq()[b][off] == pre.num_insts() as Inst
            &&& post.blocks_seq()[b][off + 1] == inst
        }),
{
    let b = pre.order_seq()[bi] as int;
    pre.blocks_seq()[b].insert_ensures(off, pre.num_insts() as Inst);
}

/// Rewind correctness, for conditional-trap expansion: the expansion touches
/// nothing before the examined instruction's offset, and the instruction at
/// that offset is the replacement branch, under the trap's own identity. The
/// driver rewinds to exactly that offset, so the branch and the trap after
/// it are the next instructions examined, and nothing is skipped.
pub proof fn lemma_rewind_expand(pre: Function, post: Function, inst: Inst, bi: int, off: int)
    requires
        pre.wf(),
        pre.pos_of(bi, off, inst),
        cond_trap_expanded(pre, post, inst, bi, off),
    ensures
        ({
            let b = pre.order_seq()[bi] as int;
            &&& forall|j: int|
                0 <= j < off ==> #[trigger] post.blocks_seq()[b][j] == pre.blocks_seq()[b][j]
            &&& post.blocks_seq()[b][off] == inst
            &&& post.blocks_seq()[b][off + 1] == pre.num_insts() as Inst
        }),
{
}

/// A slot's legality/encoding state survives edits that touch neither its
/// instruction nor its encoding slot.
proof fn lemma_slot_encoded_frame(
    m1: Seq<InstModel>,
    e1: Seq<Option<u32>>,
    m2: Seq<InstModel>,
    e2: Seq<Option<u32>>,
    isa: TargetIsa,
    i: Inst,
    changed: Inst,
)
    requires
        slot_encoded(m1, e1, isa, i),
        i != changed,
        m1.len() <= m2.len(),
        e1.len() <= e2.len(),
        forall|k: int| 0 <= k < m1.len() && k != changed ==> m2[k] == #[trigger] m1[k],
        forall|k: int| 0 <= k < e1.len() && k != changed ==> e2[k] == #[trigger] e1[k],
    ensures
        slot_encoded(m2, e2, isa, i),
{
}

/// Re-establishes the driver's bookkeeping after a boundary handler changed
/// the function: everything confirmed before the rewind point stays
/// confirmed, the rewind point is still inside the EBB, and the termination
/// measure dropped.
proof fn lemma_driver_after_boundary(
    fpre: Function,
    fpost: Function,
    isa: TargetIsa,
    ebb_i: int,
    j0: int,
    inst: Inst,
)
    requires
        fpre.wf(),
        fpre.abi_sig == isa.abi_sig,
        fpre.pos_of(ebb_i, j0, inst),
        fpre.insts_model()[inst as int] is Call || fpre.insts_model()[inst as int] is Ret,
        crate::boundary::boundary_sig(fpre.insts_model()[inst as int]) != isa.abi_sig,
        crate::boundary::boundary_expanded(fpre, fpost, inst, ebb_i, j0),
        blocks_encoded_before(
            fpre.insts_model(),
            fpre.enc_seq(),
            fpre.blocks_seq(),
            fpre.order_seq(),
            isa,
            ebb_i,
        ),
        block_encoded(
            fpre.insts_model(),
            fpre.enc_seq(),
            fpre.blocks_seq()[fpre.order_seq()[ebb_i] as int],
            isa,
            j0,
        ),
    ensures
        fpost.order_seq() == fpre.order_seq(),
        fpost.abi_sig == fpre.abi_sig,
        j0 <= fpost.blocks_seq()[fpost.order_seq()[ebb_i] as int].len(),
        blocks_encoded_before(
            fpost.insts_model(),
            fpost.enc_seq(),
            fpost.blocks_seq(),
            fpost.order_seq(),
            isa,
            ebb_i,
        ),
        block_encoded(
            fpost.insts_model(),
            fpost.enc_seq(),
            fpost.blocks_seq()[fpost.order_seq()[ebb_i] as int],
            isa,
            j0,
        ),
        3 * weight_sum(fpost.insts_model(), isa.abi_sig) + sched_len(
            fpost.blocks_seq(),
            fpost.order_seq(),
            ebb_i,
        ) <= 3 * weight_sum(fpre.insts_model(), isa.abi_sig) + sched_len(
            fpre.blocks_seq(),
            fpre.order_seq(),
            ebb_i,
        ) - 5,
{
    let b = fpre.order_seq()[ebb_i] as int;
    let blk = fpre.blocks_seq()[b];
    let conv = fpre.num_insts() as Inst;
    let m1 = fpre.insts_model();
    let m2 = fpost.insts_model();
    let e1 = fpre.enc_seq();
    let e2 = fpost.enc_seq();
    blk.insert_ensures(j0, conv);
    // weight: the nonconforming boundary becomes conforming; the conversion
    // instruction weighs nothing.
    let newm = m1[inst as int].with_boundary_sig(fpre.abi_sig);
    lemma_weight_sum_update(m1, inst as int, newm, isa.abi_sig);
    lemma_weight_sum_push(
        m1.update(inst as int, newm),
        InstModel::Nullary { opcode: Opcode::Convert },
        isa.abi_sig,
    );
    assert(inst_weight(m1[inst as int], isa.abi_sig) == 2);
    assert(inst_weight(newm, isa.abi_sig) == 0);
    assert(inst_weight(InstModel::Nullary { opcode: Opcode::Convert }, isa.abi_sig) == 0);
    assert(weight_sum(m2, isa.abi_sig) + 2 == weight_sum(m1, isa.abi_sig));
    // scheduled length: one slot was inserted into the current EBB.
    assert forall|x: int|
        ebb_i <= x < fpre.order_seq().len() implies #[trigger] fpre.order_seq()[x]
        < fpre.blocks_seq().len() by {}
    assert forall|x: int|
        ebb_i < x < fpre.order_seq().len() implies #[trigger] fpre.order_seq()[x]
        != fpre.order_seq()[ebb_i] by {}
    lemma_sched_update_at(fpre.blocks_seq(), fpre.order_seq(), ebb_i, blk.insert(j0, conv));
    assert(sched_len(fpost.blocks_seq(), fpost.order_seq(), ebb_i) == sched_len(
        fpre.blocks_seq(),
        fpre.order_seq(),
        ebb_i,
    ) + 1);
    // everything confirmed before the rewind point is untouched.
    assert forall|bj: int, j: int|
        0 <= bj < ebb_i && 0 <= j < fpost.blocks_seq()[fpost.order_seq()[bj] as int].len()
        implies slot_encoded(
        m2,
        e2,
        isa,
        #[trigger] fpost.blocks_seq()[fpost.order_seq()[bj] as int][j],
    ) by {
        let ob = fpre.order_seq()[bj] as int;
        assert(fpre.order_seq()[bj] != fpre.order_seq()[ebb_i]);
        assert(fpost.blocks_seq()[ob] == fpre.blocks_seq()[ob]);
        let i = fpre.blocks_seq()[ob][j];
        assert(slot_encoded(m1, e1, isa, i));
        assert(fpre.blocks_seq()[ob][j] != fpre.blocks_seq()[b][j0]);
        lemma_slot_encoded_frame(m1, e1, m2, e2, isa, i, inst);
    }
    assert forall|j: int|
        0 <= j < j0 implies slot_encoded(
        m2,
        e2,
        isa,
        #[trigger] fpost.blocks_seq()[fpost.order_seq()[ebb_i] as int][j],
    ) by {
        assert(fpost.blocks_seq()[b][j] == blk[j]);
        let i = blk[j];
        assert(slot_encoded(m1, e1, isa, i));
        assert(fpre.blocks_seq()[b][j] != fpre.blocks_seq()[b][j0]);
        lemma_slot_encoded_frame(m1, e1, m2, e2, isa, i, inst);
    }
}

/// Re-establishes the driver's bookkeeping after conditional-trap expansion:
/// everything confirmed before the rewind point stays confirmed, the rewind
/// point is still inside the (now shorter) EBB, and the termination measure
/// dropped even counting the new EBB.
proof fn lemma_driver_after_expand(
    fpre: Function,
    fpost: Function,
    isa: TargetIsa,
    ebb_i: int,
    j0: int,
    inst: Inst,
)
    requires
        fpre.wf(),
        fpre.pos_of(ebb_i, j0, inst),
        fpre.insts_model()[inst as int] is Unary,
        fpre.insts_model()[inst as int].opcode().spec_is_cond_trap(),
        cond_trap_expanded(fpre, fpost, inst, ebb_i, j0),
        blocks_encoded_before(
            fpre.insts_model(),
            fpre.enc_seq(),
            fpre.blocks_seq(),
            fpre.order_seq(),
            isa,
            ebb_i,
        ),
        block_encoded(
            fpre.insts_model(),
            fpre.enc_seq(),
            fpre.blocks_seq()[fpre.order_seq()[ebb_i] as int],
            isa,
            j0,
        ),
    ensures
        fpost.abi_sig == fpre.abi_sig,
        ebb_i < fpost.order_seq().len(),
        fpost.order_seq()[ebb_i] == fpre.order_seq()[ebb_i],
        j0 <= fpost.blocks_seq()[fpost.order_seq()[ebb_i] as int].len(),
        blocks_encoded_before(
            fpost.insts_model(),
            fpost.enc_seq(),
            fpost.blocks_seq(),
            fpost.order_seq(),
            isa,
            ebb_i,
        ),
        block_encoded(
            fpost.insts_model(),
            fpost.enc_seq(),
            fpost.blocks_seq()[fpost.order_seq()[ebb_i] as int],
            isa,
            j0,
        ),
        3 * weight_sum(fpost.insts_model(), fpost.abi_sig) + sched_len(
            fpost.blocks_seq(),
            fpost.order_seq(),
            ebb_i,
        ) + fpost.order_seq().len() <= 3 * weight_sum(fpre.insts_model(), fpre.abi_sig)
            + sched_len(fpre.blocks_seq(), fpre.order_seq(), ebb_i) + fpre.order_seq().len()
            - 10,
{
    let b = fpre.order_seq()[ebb_i] as int;
    let blk = fpre.blocks_seq()[b];
    let nb = fpre.num_ebbs() as Ebb;
    let t = fpre.num_insts() as Inst;
    let m1 = fpre.insts_model();
    let m2 = fpost.insts_model();
    let e1 = fpre.enc_seq();
    let e2 = fpost.enc_seq();
    let newb = blk.take(j0).push(inst).push(t);
    let tail = blk.skip(j0 + 1);
    let blocks1 = fpre.blocks_seq();
    let blocks_mid = blocks1.update(b, newb);
    let blocks2 = fpost.blocks_seq();
    let order1 = fpre.order_seq();
    let order2 = fpost.order_seq();
    order1.insert_ensures(ebb_i + 1, nb);
    // weight: the conditional trap becomes a branch; the trap instruction
    // weighs nothing.
    let newm = branch_over(m1[inst as int], nb);
    lemma_weight_sum_update(m1, inst as int, newm, fpre.abi_sig);
    lemma_weight_sum_push(
        m1.update(inst as int, newm),
        InstModel::Nullary { opcode: Opcode::Trap },
        fpre.abi_sig,
    );
    assert(inst_weight(m1[inst as int], fpre.abi_sig) == 4);
    assert(inst_weight(newm, fpre.abi_sig) == 0);
    assert(inst_weight(InstModel::Nullary { opcode: Opcode::Trap }, fpre.abi_sig) == 0);
    assert(weight_sum(m2, fpre.abi_sig) + 4 == weight_sum(m1, fpre.abi_sig));
    // scheduled length: the current EBB shrank to the branch and the trap,
    // and the continuation EBB entered the order right after it.
    assert forall|x: int|
        ebb_i <= x < order1.len() implies #[trigger] order1[x] < blocks1.len() by {}
    assert forall|x: int|
        ebb_i < x < order1.len() implies #[trigger] order1[x] != order1[ebb_i] by {}
    lemma_sched_update_at(blocks1, order1, ebb_i, newb);
    assert forall|x: int|
        ebb_i <= x < order1.len() implies blocks_mid[#[trigger] order1[x] as int] == blocks2[order1[x] as int] by {
        assert(order1[x] < blocks1.len());
    }
    lemma_sched_congruent(blocks_mid, blocks2, order1, ebb_i);
    lemma_sched_insert(blocks2, order1, ebb_i + 1, nb, ebb_i);
    assert(blocks2[nb as int] == tail);
    assert(sched_len(blocks2, order2, ebb_i) == sched_len(blocks1, order1, ebb_i) - blk.len()
        + (j0 + 2) + (blk.len() - j0 - 1));
    // everything confirmed before the rewind point is untouched.
    assert forall|bj: int, j: int|
        0 <= bj < ebb_i && 0 <= j < blocks2[order2[bj] as int].len() implies slot_encoded(
        m2,
        e2,
        isa,
        #[trigger] blocks2[order2[bj] as int][j],
    ) by {
        assert(order2[bj] == order1[bj]);
        let ob = order1[bj] as int;
        assert(order1[bj] != order1[ebb_i]);
        assert(ob < blocks1.len());
        assert(blocks2[ob] == blocks1[ob]);
        let i = blocks1[ob][j];
        assert(slot_encoded(m1, e1, isa, i));
        assert(blocks1[ob][j] != blocks1[b][j0]);
        lemma_slot_encoded_frame(m1, e1, m2, e2, isa, i, inst);
    }
    assert(order2[ebb_i] == order1[ebb_i]);
    assert forall|j: int|
        0 <= j < j0 implies slot_encoded(
        m2,
        e2,
        isa,
        #[trigger] blocks2[order2[ebb_i] as int][j],
    ) by {
        assert(blocks2[b] == newb);
        assert(newb[j] == blk[j]);
        let i = blk[j];
        assert(slot_encoded(m1, e1, isa, i));
        assert(blocks1[b][j] != blocks1[b][j0]);
        lemma_slot_encoded_frame(m1, e1, m2, e2, isa, i, inst);
    }
}

/// Re-establishes the driver's bookkeeping after branch-argument
/// simplification: nothing but the examined instruction's model changed, its
/// weight did not change, and nothing already confirmed is disturbed.
proof fn lemma_driver_after_simplify(
    m1: Seq<InstModel>,
    m2: Seq<InstModel>,
    encs: Seq<Option<u32>>,
    blocks: Seq<Seq<Inst>>,
    order: Seq<Ebb>,
    resolved: Seq<Value>,
    isa: TargetIsa,
    ebb_i: int,
    j0: int,
    inst: Inst,
)
    requires
        inst < m1.len(),
        m2 == m1.update(inst as int, simplify_model(resolved, m1[inst as int])),
        distinct_slots(blocks),
        crate::ir::order_nodup(order),
        0 <= ebb_i < order.len(),
        forall|x: int| 0 <= x < order.len() ==> #[trigger] order[x] < blocks.len(),
        order[ebb_i] < blocks.len(),
        0 <= j0 < blocks[order[ebb_i] as int].len(),
        blocks[order[ebb_i] as int][j0] == inst,
        blocks_encoded_before(m1, encs, blocks, order, isa, ebb_i),
        block_encoded(m1, encs, blocks[order[ebb_i] as int], isa, j0),
    ensures
        weight_sum(m2, isa.abi_sig) == weight_sum(m1, isa.abi_sig),
        blocks_encoded_before(m2, encs, blocks, order, isa, ebb_i),
        block_encoded(m2, encs, blocks[order[ebb_i] as int], isa, j0),
{
    let b = order[ebb_i] as int;
    let sm = simplify_model(resolved, m1[inst as int]);
    assert(inst_weight(sm, isa.abi_sig) == inst_weight(m1[inst as int], isa.abi_sig));
    lemma_weight_sum_update(m1, inst as int, sm, isa.abi_sig);
    assert forall|bj: int, j: int|
        0 <= bj < ebb_i && 0 <= j < blocks[order[bj] as int].len() implies slot_encoded(
        m2,
        encs,
        isa,
        #[trigger] blocks[order[bj] as int][j],
    ) by {
        let ob = order[bj] as int;
        assert(order[bj] != order[ebb_i]);
        let i = blocks[ob][j];
        assert(slot_encoded(m1, encs, isa, i));
        assert(blocks[ob][j] != blocks[b][j0]);
        lemma_slot_encoded_frame(m1, encs, m2, encs, isa, i, inst);
    }
    assert forall|j: int|
        0 <= j < j0 implies slot_encoded(
        m2,
        encs,
        isa,
        #[trigger] blocks[order[ebb_i] as int][j],
    ) by {
        let i = blocks[b][j];
        assert(slot_encoded(m1, encs, isa, i));
        assert(blocks[b][j] != blocks[b][j0]);
        lemma_slot_encoded_frame(m1, encs, m2, encs, isa, i, inst);
    }
}

/// Re-establishes the driver's bookkeeping after recording an encoding: the
/// examined instruction is now confirmed, and nothing already confirmed is
/// disturbed.
proof fn lemma_driver_after_confirm(
    models: Seq<InstModel>,
    e1: Seq<Option<u32>>,
    e2: Seq<Option<u32>>,
    blocks: Seq<Seq<Inst>>,
    order: Seq<Ebb>,
    isa: TargetIsa,
    ebb_i: int,
    j0: int,
    inst: Inst,
    enc: u32,
)
    requires
        inst < models.len(),
        inst < e1.len(),
        e2 == e1.update(inst as int, Some(enc)),
        isa.spec_encode(models[inst as int]) == Verdict::Legal(enc),
        distinct_slots(blocks),
        crate::ir::order_nodup(order),
        0 <= ebb_i < order.len(),
        forall|x: int| 0 <= x < order.len() ==> #[trigger] order[x] < blocks.len(),
        order[ebb_i] < blocks.len(),
        0 <= j0 < blocks[order[ebb_i] as int].len(),
        blocks[order[ebb_i] as int][j0] == inst,
        blocks_encoded_before(models, e1, blocks, order, isa, ebb_i),
        block_encoded(models, e1, blocks[order[ebb_i] as int], isa, j0),
    ensures
        blocks_encoded_before(models, e2, blocks, order, isa, ebb_i),
        block_encoded(models, e2, blocks[order[ebb_i] as int], isa, j0 + 1),
{
    let b = order[ebb_i] as int;
    assert forall|bj: int, j: int|
        0 <= bj < ebb_i && 0 <= j < blocks[order[bj] as int].len() implies slot_encoded(
        models,
        e2,
        isa,
        #[trigger] blocks[order[bj] as int][j],
    ) by {
        let ob = order[bj] as int;
        assert(order[bj] != order[ebb_i]);
        let i = blocks[ob][j];
        assert(slot_encoded(models, e1, isa, i));
        assert(blocks[ob][j] != blocks[b][j0]);
        lemma_slot_encoded_frame(models, e1, models, e2, isa, i, inst);
    }
    assert forall|j: int|
        0 <= j < j0 + 1 implies slot_encoded(
        models,
        e2,
        isa,
        #[trigger] blocks[order[ebb_i] as int][j],
    ) by {
        let i = blocks[b][j];
        if j < j0 {
            assert(slot_encoded(models, e1, isa, i));
            assert(blocks[b][j] != blocks[b][j0]);
            lemma_slot_encoded_frame(models, e1, models, e2, isa, i, inst);
        } else {
            assert(i == inst);
            assert(e2[inst as int] == Some(enc));
        }
    }
}

/// Legalize `func` for `isa`.
///
/// - Transform any instructions that do not have a legal representation on
///   `isa`.
/// - Fill out `func.encodings`.
///
/// The driver walks the EBBs in layout order; legalization actions may split
/// the current EBB or append new ones, and those are visited too. Within an
/// EBB it keeps, besides the current position, the position `prev` before
/// the instruction being examined, confirmed legal; whenever a boundary
/// handler or a legalization action reports a change, the walk rewinds to
/// `prev`, so that everything an action inserted or left behind is itself
/// examined, encoded, and — if need be — expanded further.
#[verifier::rlimit(100)]
pub fn legalize_function(func: &mut Function, cfg: &mut ControlFlowGraph, isa: &TargetIsa)
    requires
        old(func).wf(),
        old(cfg).valid_for(*old(func)),
    ensures
        final(func).wf(),
        final(cfg).valid_for(*final(func)),
        final(func).abi_sig == isa.abi_sig,
        all_encoded(*final(func), *isa),
        final(func).resolved_seq() == old(func).resolved_seq(),
        final(func).num_insts() >= old(func).num_insts(),
        final(func).num_ebbs() >= old(func).num_ebbs(),
        final(func).order_seq().len() >= old(func).order_seq().len(),
        forall|i: Inst| old(func).placed(i) ==> final(func).placed(i),
        noop_ready(*old(func), *isa) ==> same_code(*old(func), *final(func)),
{
    let ghost forig = *old(func);

    // Convert function-level signatures to the target's calling convention
    // first: it changes what the instructions are checked against.
    crate::boundary::legalize_signatures(func, isa);

    // Size the encoding map to the function's current instruction count.
    let n = func.dfg.insts.len();
    let mut encs: Vec<Option<u32>> = Vec::new();
    while encs.len() < n
        invariant
            encs@.len() <= n,
        decreases n - encs@.len(),
    {
        encs.push(None);
    }
    func.encodings = encs;
    proof {
        assert(func.wf());
        assert forall|x: int| 0 <= x < func.num_ebbs() implies #[trigger] cfg.succs@[x]@
            == branch_dests(func.insts_model(), func.blocks_seq()[x]) by {
            assert(cfg.succs@[x]@ == branch_dests(forig.insts_model(), forig.blocks_seq()[x]));
        }
        assert(cfg.valid_for(*func));
        assert forall|i: Inst| forig.placed(i) implies func.placed(i) by {
            lemma_placed_same_shape(forig, *func, i);
        }
    }

    let mut ebb_i: usize = 0;
    let mut pos: usize = 0;
    let mut prev: usize = 0;

    // Process EBBs in layout order. Some legalization actions may split the
    // current EBB or append new ones to the end; those are visited too.
    while ebb_i < func.layout.order.len()
        invariant
            func.wf(),
            cfg.valid_for(*func),
            func.abi_sig == isa.abi_sig,
            func.resolved_seq() == forig.resolved_seq(),
            func.num_insts() >= forig.num_insts(),
            func.num_ebbs() >= forig.num_ebbs(),
            func.order_seq().len() >= forig.order_seq().len(),
            forall|i: Inst| forig.placed(i) ==> func.placed(i),
            ebb_i <= func.order_seq().len(),
            prev == pos,
            ebb_i < func.order_seq().len() ==> pos <= func.blocks_seq()[func.order_seq()[ebb_i as int] as int].len(),
            blocks_encoded_before(
                func.insts_model(),
                func.enc_seq(),
                func.blocks_seq(),
                func.order_seq(),
                *isa,
                ebb_i as int,
            ),
            ebb_i < func.order_seq().len() ==> block_encoded(
                func.insts_model(),
                func.enc_seq(),
                func.blocks_seq()[func.order_seq()[ebb_i as int] as int],
                *isa,
                pos as int,
            ),
            noop_ready(forig, *isa) ==> same_code(forig, *func),
        decreases 3 * weight_sum(func.insts_model(), func.abi_sig) + sched_len(
            func.blocks_seq(),
            func.order_seq(),
            ebb_i as int,
        ) - pos + func.order_seq().len() - ebb_i,
    {
        let b = func.layout.order[ebb_i];
        if pos >= func.layout.blocks[b].len() {
            // This EBB is finished; move to the next one in layout order.
            proof {
                let models = func.insts_model();
                let es = func.enc_seq();
                let blocks = func.blocks_seq();
                let order = func.order_seq();
                assert(pos as int == blocks[b as int].len());
                assert forall|bj: int, j: int|
                    0 <= bj < ebb_i + 1 && 0 <= j < blocks[order[bj] as int].len()
                    implies slot_encoded(models, es, *isa, #[trigger] blocks[order[bj] as int][j]) by {
                    if bj == ebb_i as int {
                        assert(slot_encoded(models, es, *isa, blocks[order[ebb_i as int] as int][j]));
                    }
                }
            }
            ebb_i += 1;
            pos = 0;
            prev = 0;
        } else {
            let inst = func.layout.blocks[b][pos];
            let ghost fpre = *func;
            let ghost j0 = pos as int;
            proof {
                assert(func.blocks_seq()[b as int][j0] < func.num_insts());
                assert(func.pos_of(ebb_i as int, j0, inst));
                assert(func.dfg.insts@[inst as int].wf(func.num_values(), func.num_ebbs()));
            }
            pos = pos + 1;
            let op = func.dfg.insts[inst].opcode();
            let mut rewound = false;

            // Check for ABI boundaries that need to be converted to the
            // legalized signature.
            if op.is_call() {
                proof {
                    crate::isa::lemma_model_opcode(func.dfg.insts@[inst as int]);
                    assert(func.insts_model()[inst as int] is Call);
                }
                if crate::boundary::handle_call_abi(inst, func, cfg) {
                    // Go back and legalize the inserted argument conversion
                    // instructions.
                    pos = prev;
                    rewound = true;
                    proof {
                        if noop_ready(forig, *isa) {
                            assert(inst_settled(
                                forig.insts_model(),
                                forig.resolved_seq(),
                                *isa,
                                forig.block_at(ebb_i as int)[j0],
                            ));
                            assert(false);
                        }
                        lemma_driver_after_boundary(fpre, *func, *isa, ebb_i as int, j0, inst);
                        assert forall|i: Inst| forig.placed(i) implies func.placed(i) by {
                            lemma_placed_after_boundary(fpre, *func, inst, ebb_i as int, j0, i);
                        }
                    }
                }
            }
            if !rewound && op.is_return() {
                proof {
                    crate::isa::lemma_model_opcode(func.dfg.insts@[inst as int]);
                    assert(func.insts_model()[inst as int] is Ret);
                }
                if crate::boundary::handle_return_abi(inst, func, cfg) {
                    // Go back and legalize the inserted return value
                    // conversion instructions.
                    pos = prev;
                    rewound = true;
                    proof {
                        if noop_ready(forig, *isa) {
                            assert(inst_settled(
                                forig.insts_model(),
                                forig.resolved_seq(),
                                *isa,
                                forig.block_at(ebb_i as int)[j0],
                            ));
                            assert(false);
                        }
                        lemma_driver_after_boundary(fpre, *func, *isa, ebb_i as int, j0, inst);
                        assert forall|i: Inst| forig.placed(i) implies func.placed(i) by {
                            lemma_placed_after_boundary(fpre, *func, inst, ebb_i as int, j0, i);
                        }
                    }
                }
            }
            if !rewound {
                let ghost fmid = *func;
                if op.is_branch() {
                    proof {
                        crate::ir::lemma_wf_args_in_range(
                            func.dfg.insts@[inst as int],
                            func.num_values(),
                            func.num_ebbs(),
                        );
                    }
                    crate::split::simplify_branch_arguments(&mut func.dfg, inst);
                    proof {
                        let m1 = fmid.insts_model();
                        let m2 = func.insts_model();
                        let sm = simplify_model(fmid.resolved_seq(), m1[inst as int]);
                        assert(m2 =~= m1.update(inst as int, sm));
                        assert(func.dfg.insts@[inst as int].wf(func.num_values(), func.num_ebbs()));
                        assert(func.dfg.insts@.len() == fmid.dfg.insts@.len());
                        assert forall|k: int|
                            0 <= k < fmid.dfg.insts@.len() && k != inst implies #[trigger] func
                            .dfg
                            .insts@[k].model() == fmid.dfg.insts@[k].model() by {
                            assert(m2[k] == m1[k]);
                        }
                        crate::ir::lemma_all_insts_wf_update_model(
                            fmid.dfg.insts@,
                            func.dfg.insts@,
                            inst as int,
                            func.num_values(),
                            func.num_ebbs(),
                        );
                        assert(func.wf());
                        assert forall|i: Inst|
                            i < fmid.num_insts() implies #[trigger] dest_of_id(m2, i)
                            == dest_of_id(m1, i) by {
                            if i == inst {
                                assert(dest_of(sm) == dest_of(m1[inst as int]));
                            }
                        }
                        crate::flowgraph::lemma_valid_same_blocks(fmid, *func, *cfg);
                        assert forall|i: Inst| forig.placed(i) implies func.placed(i) by {
                            lemma_placed_same_shape(fmid, *func, i);
                        }
                        lemma_driver_after_simplify(
                            m1,
                            m2,
                            func.enc_seq(),
                            func.blocks_seq(),
                            func.order_seq(),
                            fmid.resolved_seq(),
                            *isa,
                            ebb_i as int,
                            j0,
                            inst,
                        );
                        if noop_ready(forig, *isa) {
                            assert(inst_settled(
                                forig.insts_model(),
                                forig.resolved_seq(),
                                *isa,
                                forig.block_at(ebb_i as int)[j0],
                            ));
                            assert(sm == m1[inst as int]);
                            assert(m2 =~= m1);
                            assert(same_code(forig, *func));
                        }
                    }
                }
                match isa.encode(&func.dfg.insts[inst]) {
                    Verdict::Legal(enc) => {
                        let ghost fenc = *func;
                        func.encodings[inst] = Some(enc);
                        prev = pos;
                        proof {
                            assert(func.enc_seq() =~= fenc.enc_seq().update(
                                inst as int,
                                Some(enc),
                            ));
                            lemma_driver_after_confirm(
                                func.insts_model(),
                                fenc.enc_seq(),
                                func.enc_seq(),
                                func.blocks_seq(),
                                func.order_seq(),
                                *isa,
                                ebb_i as int,
                                j0,
                                inst,
                                enc,
                            );
                            assert(func.wf());
                            assert(cfg.valid_for(*func));
                            assert forall|i: Inst| forig.placed(i) implies func.placed(i) by {
                                lemma_placed_same_shape(fenc, *func, i);
                            }
                        }
                    },
                    Verdict::Illegal(action) => {
                        // Transform the instruction into legal equivalents.
                        match action {
                            Action::ExpandCondTrap => {
                                let ghost fx = *func;
                                proof {
                                    assert(isa.spec_encode(func.insts_model()[inst as int])
                                        == Verdict::Illegal(Action::ExpandCondTrap));
                                    assert(func.insts_model()[inst as int].opcode()
                                        .spec_is_cond_trap());
                                    assert(func.insts_model()[inst as int] is Unary);
                                    assert(func.pos_of(ebb_i as int, j0, inst));
                                }
                                expand_cond_trap(inst, func, cfg);
                                // The custom expansion always changes the
                                // function: double back and revisit the
                                // expanded sequence, both to assign
                                // encodings and possibly to expand further.
                                pos = prev;
                                proof {
                                    if noop_ready(forig, *isa) {
                                        assert(inst_settled(
                                            forig.insts_model(),
                                            forig.resolved_seq(),
                                            *isa,
                                            forig.block_at(ebb_i as int)[j0],
                                        ));
                                        assert(false);
                                    }
                                    lemma_driver_after_expand(
                                        fx,
                                        *func,
                                        *isa,
                                        ebb_i as int,
                                        j0,
                                        inst,
                                    );
                                    assert forall|i: Inst| forig.placed(i) implies func.placed(
                                        i,
                                    ) by {
                                        lemma_placed_after_expand(
                                            fx,
                                            *func,
                                            inst,
                                            ebb_i as int,
                                            j0,
                                            i,
                                        );
                                    }
                                }
                            },
                        }
                    },
                }
            }
        }
    }
    proof {
        assert(all_encoded(*func, *isa));
    }
}

} // verus!
