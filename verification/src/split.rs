//! Branch-argument simplification.
//!
//! Upstream passes leave aliases among values; a branch may pass an aliased
//! value as an EBB argument. Simplification normalizes a branch's argument
//! list by replacing every value with its canonical root. It is a pure
//! normalization: the canonical value is the same value, so branch semantics
//! are unchanged, and it is idempotent, so it is safe to run on every branch
//! on every visit.

use vstd::prelude::*;

use crate::ir::aliases_wf;
use crate::ir::DataFlowGraph;
use crate::ir::Inst;
use crate::ir::InstData;
use crate::ir::InstModel;
use crate::ir::Value;

verus! {

/// Every value of `args` replaced by its canonical root.
pub open spec fn resolved_args(resolved: Seq<Value>, args: Seq<Value>) -> Seq<Value> {
    args.map_values(
        |v: Value|
            if v < resolved.len() {
                resolved[v as int]
            } else {
                v
            },
    )
}

/// The EBB-argument sequence of a jump or branch model.
pub open spec fn arg_seq(m: InstModel) -> Seq<Value> {
    match m {
        InstModel::Jump { args, .. } => args,
        InstModel::Branch { args, .. } => args,
        _ => Seq::empty(),
    }
}

/// The simplified form of an instruction: a jump or branch with its EBB
/// arguments resolved to roots; any other instruction unchanged.
pub open spec fn simplify_model(resolved: Seq<Value>, m: InstModel) -> InstModel {
    match m {
        InstModel::Jump { dest, args } => InstModel::Jump {
            dest,
            args: resolved_args(resolved, args),
        },
        InstModel::Branch { opcode, arg, dest, args } => InstModel::Branch {
            opcode,
            arg,
            dest,
            args: resolved_args(resolved, args),
        },
        _ => m,
    }
}

/// Simplification reaches a fixed point after one application: simplifying
/// an already-simplified instruction changes nothing.
pub proof fn lemma_simplify_idempotent(resolved: Seq<Value>, m: InstModel)
    requires
        aliases_wf(resolved),
    ensures
        simplify_model(resolved, simplify_model(resolved, m)) == simplify_model(resolved, m),
{
    match m {
        InstModel::Jump { dest, args } => {
            lemma_resolved_args_idempotent(resolved, args);
        },
        InstModel::Branch { opcode, arg, dest, args } => {
            lemma_resolved_args_idempotent(resolved, args);
        },
        _ => {},
    }
}

/// Resolving to roots is idempotent.
pub proof fn lemma_resolved_args_idempotent(resolved: Seq<Value>, args: Seq<Value>)
    requires
        aliases_wf(resolved),
    ensures
        resolved_args(resolved, resolved_args(resolved, args)) == resolved_args(resolved, args),
{
    let once = resolved_args(resolved, args);
    let twice = resolved_args(resolved, once);
    assert forall|k: int| 0 <= k < twice.len() implies twice[k] == once[k] by {
        if args[k] < resolved.len() {
            assert(resolved[resolved[args[k] as int] as int] == resolved[args[k] as int]);
        }
    }
    assert(twice =~= once);
}

/// Replace every EBB argument of the branch or jump instruction `inst` with
/// its canonical root. On any other instruction this is a no-op. Running it
/// on an already-simplified instruction changes nothing.
pub fn simplify_branch_arguments(dfg: &mut DataFlowGraph, inst: Inst)
    requires
        old(dfg).wf_aliases(),
        inst < old(dfg).num_insts(),
        old(dfg).insts@[inst as int].model().args_in_range(old(dfg).num_values()),
    ensures
        final(dfg).insts@.map_values(|d: InstData| d.model()) =~= old(dfg).insts@.map_values(
            |d: InstData| d.model(),
        ).update(
            inst as int,
            simplify_model(old(dfg).resolved@, old(dfg).insts@[inst as int].model()),
        ),
        final(dfg).resolved == old(dfg).resolved,
        simplify_model(old(dfg).resolved@, old(dfg).insts@[inst as int].model()) == old(
            dfg,
        ).insts@[inst as int].model() ==> final(dfg).insts@.map_values(|d: InstData| d.model())
            =~= old(dfg).insts@.map_values(|d: InstData| d.model()),
        forall|ne: nat|
            #[trigger] old(dfg).insts@[inst as int].wf(old(dfg).num_values(), ne) ==> final(dfg).insts@[inst as int].wf(old(dfg).num_values(), ne),
{
    let ghost m0 = dfg.insts@[inst as int].model();
    let mut rewritten: Option<InstData> = None;
    match &dfg.insts[inst] {
        InstData::Jump { dest, args } => {
            let d = *dest;
            let new_args = resolve_all(&dfg.resolved, args);
            rewritten = Some(InstData::Jump { dest: d, args: new_args });
        },
        InstData::Branch { opcode, arg, dest, args } => {
            let op = *opcode;
            let a = *arg;
            let d = *dest;
            let new_args = resolve_all(&dfg.resolved, args);
            rewritten = Some(InstData::Branch { opcode: op, arg: a, dest: d, args: new_args });
        },
        _ => {
        },
    }
    match rewritten {
        Some(data) => {
            proof {
                assert(data.model() == simplify_model(dfg.resolved@, m0));
            }
            dfg.insts[inst] = data;
            proof {
                assert forall|ne: nat|
                    old(dfg).insts@[inst as int].wf(old(dfg).num_values(), ne) implies dfg
                    .insts@[inst as int].wf(old(dfg).num_values(), ne) by {
                    match data {
                        InstData::Jump { dest, args } => {
                            assert forall|k: int| 0 <= k < args@.len() implies args@[k] < old(dfg).num_values() by {
                                assert(args@[k] == resolved_args(old(dfg).resolved@, arg_seq(old(dfg).insts@[inst as int].model()))[k]);
                            }
                        },
                        InstData::Branch { opcode, arg, dest, args } => {
                            assert forall|k: int| 0 <= k < args@.len() implies args@[k] < old(dfg).num_values() by {
                                assert(args@[k] == resolved_args(old(dfg).resolved@, arg_seq(old(dfg).insts@[inst as int].model()))[k]);
                            }
                        },
                        _ => {},
                    }
                }
                assert(dfg.insts@.map_values(|d: InstData| d.model()) =~= old(
                    dfg,
                ).insts@.map_values(|d: InstData| d.model()).update(
                    inst as int,
                    simplify_model(old(dfg).resolved@, m0),
                ));
            }
        },
        None => {
            proof {
                assert(simplify_model(dfg.resolved@, m0) == m0);
                assert(dfg.insts@.map_values(|d: InstData| d.model()) =~= old(
                    dfg,
                ).insts@.map_values(|d: InstData| d.model()).update(
                    inst as int,
                    simplify_model(old(dfg).resolved@, m0),
                ));
            }
        },
    }
}

/// Resolve every value of `args` to its canonical root.
fn resolve_all(resolved: &Vec<Value>, args: &Vec<Value>) -> (r: Vec<Value>)
    requires
        aliases_wf(resolved@),
        forall|k: int| 0 <= k < args@.len() ==> args@[k] < resolved@.len(),
    ensures
        r@ == resolved_args(resolved@, args@),
{
    let mut r: Vec<Value> = Vec::new();
    let mut k: usize = 0;
    while k < args.len()
        invariant
            aliases_wf(resolved@),
            forall|t: int| 0 <= t < args@.len() ==> args@[t] < resolved@.len(),
            k <= args@.len(),
            r@.len() == k,
            forall|t: int| 0 <= t < k ==> #[trigger] r@[t] == resolved@[args@[t] as int],
        decreases args@.len() - k,
    {
        let v = args[k];
        r.push(resolved[v as usize]);
        k += 1;
    }
    proof {
        assert(r@ =~= resolved_args(resolved@, args@));
    }
    r
}

} // verus!
