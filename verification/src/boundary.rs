//! ABI boundary legalization.
//!
//! Call and return instructions must conform to the target's calling
//! convention. Signature legalization runs once, before the main loop,
//! because it can change what the instructions are checked against. The two
//! boundary handlers then bring each call and return into conformance,
//! inserting a conversion step in front of the instruction; they report
//! whether they changed anything, accurately, because the driver's rewind
//! decision depends on it.

use vstd::prelude::*;

use crate::flowgraph::branch_dests;
use crate::flowgraph::dest_of;
use crate::flowgraph::dest_of_id;
use crate::flowgraph::lemma_branch_dests_concat;
use crate::flowgraph::lemma_branch_dests_congruent;
use crate::flowgraph::ControlFlowGraph;
use crate::ir::Function;
use crate::ir::Inst;
use crate::ir::InstData;
use crate::ir::InstModel;
use crate::ir::Opcode;
use crate::isa::TargetIsa;

verus! {

/// The boundary signature that a call or return currently conforms to.
pub open spec fn boundary_sig(m: InstModel) -> u32 {
    match m {
        InstModel::Call { sig, .. } => sig,
        InstModel::Ret { sig, .. } => sig,
        _ => 0,
    }
}

/// What a boundary handler does when it changes anything: the call or return
/// at offset `off` of the EBB at layout position `bi` now conforms to the
/// legalized signature, and one freshly created conversion instruction
/// stands immediately before it. Nothing else changes.
pub open spec fn boundary_expanded(
    pre: Function,
    post: Function,
    inst: Inst,
    bi: int,
    off: int,
) -> bool {
    let b = pre.order_seq()[bi] as int;
    let conv = pre.num_insts() as Inst;
    &&& post.insts_model() =~= pre.insts_model().update(
        inst as int,
        pre.insts_model()[inst as int].with_boundary_sig(pre.abi_sig),
    ).push(InstModel::Nullary { opcode: Opcode::Convert })
    &&& post.blocks_seq() =~= pre.blocks_seq().update(
        b,
        pre.blocks_seq()[b].insert(off, conv),
    )
    &&& post.order_seq() == pre.order_seq()
    &&& post.enc_seq() =~= pre.enc_seq().push(None)
    &&& post.resolved_seq() == pre.resolved_seq()
    &&& post.abi_sig == pre.abi_sig
    &&& post.num_insts() == pre.num_insts() + 1
    &&& post.num_ebbs() == pre.num_ebbs()
}

/// Legalize the function's signatures against the target's calling
/// convention: record the signature identity that every call and return
/// boundary must be brought to. This runs before the driver's main loop.
pub fn legalize_signatures(func: &mut Function, isa: &TargetIsa)
    ensures
        final(func).abi_sig == isa.abi_sig,
        final(func).dfg == old(func).dfg,
        final(func).layout == old(func).layout,
        final(func).encodings == old(func).encodings,
        old(func).wf() ==> final(func).wf(),
{
    func.abi_sig = isa.abi_sig;
}

/// Bring the call instruction `inst` into conformance with the legalized
/// signature, inserting an argument-conversion step immediately before it
/// when its signature does not yet conform. Reports whether anything
/// changed; a call that already conforms is left untouched.
pub fn handle_call_abi(inst: Inst, func: &mut Function, cfg: &mut ControlFlowGraph) -> (changed:
    bool)
    requires
        old(func).wf(),
        old(func).placed(inst),
        old(func).insts_model()[inst as int] is Call,
        old(cfg).valid_for(*old(func)),
    ensures
        final(func).wf(),
        final(cfg).valid_for(*final(func)),
        final(func).abi_sig == old(func).abi_sig,
        changed == (boundary_sig(old(func).insts_model()[inst as int]) != old(func).abi_sig),
        !changed ==> *final(func) == *old(func) && *final(cfg) == *old(cfg),
        changed ==> forall|bi: int, off: int|
            old(func).pos_of(bi, off, inst) ==> boundary_expanded(
                *old(func),
                *final(func),
                inst,
                bi,
                off,
            ),
{
    conform_boundary(inst, func, cfg)
}

/// Bring the return instruction `inst` into conformance with the legalized
/// signature, inserting a return-value-conversion step immediately before
/// it when its signature does not yet conform. Reports whether anything
/// changed; a return that already conforms is left untouched.
pub fn handle_return_abi(inst: Inst, func: &mut Function, cfg: &mut ControlFlowGraph) -> (changed:
    bool)
    requires
        old(func).wf(),
        old(func).placed(inst),
        old(func).insts_model()[inst as int] is Ret,
        old(cfg).valid_for(*old(func)),
    ensures
        final(func).wf(),
        final(cfg).valid_for(*final(func)),
        final(func).abi_sig == old(func).abi_sig,
        changed == (boundary_sig(old(func).insts_model()[inst as int]) != old(func).abi_sig),
        !changed ==> *final(func) == *old(func) && *final(cfg) == *old(cfg),
        changed ==> forall|bi: int, off: int|
            old(func).pos_of(bi, off, inst) ==> boundary_expanded(
                *old(func),
                *final(func),
                inst,
                bi,
                off,
            ),
{
    conform_boundary(inst, func, cfg)
}

/// The shared body of the two boundary handlers.
fn conform_boundary(inst: Inst, func: &mut Function, cfg: &mut ControlFlowGraph) -> (changed:
    bool)
    requires
        old(func).wf(),
        old(func).placed(inst),
        old(func).insts_model()[inst as int] is Call || old(func).insts_model()[inst as int]
            is Ret,
        old(cfg).valid_for(*old(func)),
    ensures
        final(func).wf(),
        final(cfg).valid_for(*final(func)),
        final(func).abi_sig == old(func).abi_sig,
        changed == (boundary_sig(old(func).insts_model()[inst as int]) != old(func).abi_sig),
        !changed ==> *final(func) == *old(func) && *final(cfg) == *old(cfg),
        changed ==> forall|bi: int, off: int|
            old(func).pos_of(bi, off, inst) ==> boundary_expanded(
                *old(func),
                *final(func),
                inst,
                bi,
                off,
            ),
{
    proof {
        let (bi0, off0) = choose|bi0: int, off0: int| old(func).pos_of(bi0, off0, inst);
        assert(inst < old(func).num_insts());
    }
    let sig = match &func.dfg.insts[inst] {
        InstData::Call { sig, .. } => *sig,
        InstData::Ret { sig, .. } => *sig,
        _ => {
            proof {
                assert(false);
            }
            0
        },
    };
    if sig == func.abi_sig {
        proof {
            assert(func.insts_model()[inst as int].with_boundary_sig(func.abi_sig)
                == func.insts_model()[inst as int]);
        }
        return false;
    }
    let (bi, off) = func.find_inst_pos(inst);
    let abi = func.abi_sig;
    func.set_boundary_sig(inst, abi);
    let b = func.layout.order[bi];
    let conv = func.insert_inst(b, off, InstData::Nullary { opcode: Opcode::Convert });
    proof {
        let pre = *old(func);
        let post = *func;
        assert(post.insts_model() =~= pre.insts_model().update(
            inst as int,
            pre.insts_model()[inst as int].with_boundary_sig(pre.abi_sig),
        ).push(InstModel::Nullary { opcode: Opcode::Convert }));
        assert(boundary_expanded(pre, post, inst, bi as int, off as int));
        assert forall|bix: int, offx: int| pre.pos_of(bix, offx, inst) implies boundary_expanded(
            pre,
            post,
            inst,
            bix,
            offx,
        ) by {
            crate::ir::lemma_pos_unique(pre, inst, bi as int, off as int, bix, offx);
        }
        lemma_cfg_valid_after_nonbranch_insert(
            pre,
            post,
            *cfg,
            inst,
            pre.order_seq()[bi as int] as int,
            off as int,
        );
    }
    true
}

/// Inserting a fresh instruction with no branch destinations, and changing
/// one instruction without changing its destinations, leaves every EBB's
/// implied successors unchanged: a graph valid before is valid after.
proof fn lemma_cfg_valid_after_nonbranch_insert(
    pre: Function,
    post: Function,
    cfg: ControlFlowGraph,
    inst: Inst,
    b: int,
    off: int,
)
    requires
        pre.wf(),
        cfg.valid_for(pre),
        inst < pre.num_insts(),
        0 <= b < pre.num_ebbs(),
        0 <= off <= pre.blocks_seq()[b].len(),
        post.num_ebbs() == pre.num_ebbs(),
        post.num_insts() == pre.num_insts() + 1,
        post.blocks_seq() =~= pre.blocks_seq().update(
            b,
            pre.blocks_seq()[b].insert(off, pre.num_insts() as Inst),
        ),
        post.insts_model().len() == pre.insts_model().len() + 1,
        forall|k: int|
            0 <= k < pre.insts_model().len() && k != inst ==> post.insts_model()[k]
                == #[trigger] pre.insts_model()[k],
        dest_of(post.insts_model()[inst as int]) == dest_of(pre.insts_model()[inst as int]),
        dest_of(post.insts_model()[pre.num_insts() as int]) == Seq::<crate::ir::Ebb>::empty(),
    ensures
        cfg.valid_for(post),
{
    let m1 = pre.insts_model();
    let m2 = post.insts_model();
    let conv = pre.num_insts() as Inst;
    assert forall|x: int| 0 <= x < post.num_ebbs() implies #[trigger] cfg.succs@[x]@
        == branch_dests(m2, post.blocks_seq()[x]) by {
        assert(cfg.succs@[x]@ == branch_dests(m1, pre.blocks_seq()[x]));
        let blk = pre.blocks_seq()[x];
        assert forall|k: int| 0 <= k < blk.len() implies dest_of_id(m1, #[trigger] blk[k])
            == dest_of_id(m2, blk[k]) by {
            assert(pre.blocks_seq()[x][k] < pre.num_insts());
        }
        if x == b {
            let blkb = pre.blocks_seq()[b];
            let nblk = post.blocks_seq()[b];
            blkb.insert_ensures(off, conv);
            assert(blkb =~= blkb.take(off) + blkb.skip(off));
            lemma_branch_dests_concat(m1, blkb.take(off), blkb.skip(off));
            assert(nblk =~= (blkb.take(off) + seq![conv]) + blkb.skip(off));
            lemma_branch_dests_concat(m2, blkb.take(off) + seq![conv], blkb.skip(off));
            lemma_branch_dests_concat(m2, blkb.take(off), seq![conv]);
            assert(seq![conv].drop_last() =~= Seq::<Inst>::empty());
            assert(seq![conv].last() == conv);
            assert(conv == pre.num_insts());
            assert(conv < m2.len());
            assert(dest_of_id(m2, conv) == dest_of(m2[conv as int]));
            assert(branch_dests(m2, Seq::<Inst>::empty()) =~= Seq::<crate::ir::Ebb>::empty());
            assert(branch_dests(m2, seq![conv]) == branch_dests(m2, seq![conv].drop_last())
                + dest_of_id(m2, seq![conv].last()));
            assert(branch_dests(m2, seq![conv]) =~= Seq::<crate::ir::Ebb>::empty());
            assert forall|k: int|
                0 <= k < blkb.take(off).len() implies dest_of_id(m1, #[trigger] blkb.take(
                off,
            )[k]) == dest_of_id(m2, blkb.take(off)[k]) by {
                assert(blkb.take(off)[k] == blkb[k]);
                assert(pre.blocks_seq()[b][k] < pre.num_insts());
            }
            lemma_branch_dests_congruent(m1, m2, blkb.take(off));
            assert forall|k: int|
                0 <= k < blkb.skip(off).len() implies dest_of_id(m1, #[trigger] blkb.skip(
                off,
            )[k]) == dest_of_id(m2, blkb.skip(off)[k]) by {
                assert(blkb.skip(off)[k] == blkb[off + k]);
                assert(pre.blocks_seq()[b][off + k] < pre.num_insts());
            }
            lemma_branch_dests_congruent(m1, m2, blkb.skip(off));
            assert(branch_dests(m2, nblk) =~= branch_dests(m1, blkb));
        } else {
            lemma_branch_dests_congruent(m1, m2, blk);
            assert(post.blocks_seq()[x] == blk);
        }
    }
}

} // verus!
