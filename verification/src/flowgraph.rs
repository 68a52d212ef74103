//! The control-flow graph: a cached successor relation over EBBs, derived
//! from the branch instructions that each EBB holds.
//!
//! The relation is recomputed one EBB at a time, on demand: after any
//! structural edit that can change an EBB's outgoing edges, the caller must
//! recompute that EBB's entry before relying on the graph again. Predecessor
//! sets are derived from the successor rows on demand.

use vstd::prelude::*;

use crate::ir::Ebb;
use crate::ir::Function;
use crate::ir::Inst;
use crate::ir::InstData;
use crate::ir::InstModel;

verus! {

/// The EBBs that one instruction transfers control to.
pub open spec fn dest_of(m: InstModel) -> Seq<Ebb> {
    match m {
        InstModel::Jump { dest, .. } => seq![dest],
        InstModel::Branch { dest, .. } => seq![dest],
        _ => Seq::empty(),
    }
}

/// The EBBs that the instruction identity `i` transfers control to, read
/// from the instruction models.
pub open spec fn dest_of_id(models: Seq<InstModel>, i: Inst) -> Seq<Ebb> {
    if i < models.len() {
        dest_of(models[i as int])
    } else {
        Seq::empty()
    }
}

/// The branch destinations of the instruction sequence `s`, in order.
pub open spec fn branch_dests(models: Seq<InstModel>, s: Seq<Inst>) -> Seq<Ebb>
    decreases s.len(),
{
    if s.len() == 0 {
        Seq::empty()
    } else {
        branch_dests(models, s.drop_last()) + dest_of_id(models, s.last())
    }
}

/// The successors that EBB `b` of `f` implies: the destinations of its
/// branch instructions, in order.
pub open spec fn block_succs(f: Function, b: int) -> Seq<Ebb> {
    branch_dests(f.insts_model(), f.blocks_seq()[b])
}

/// The cached successor relation. `succs[b]` lists the successor EBBs that
/// EBB `b`'s branch instructions imply, in order.
pub struct ControlFlowGraph {
    pub succs: Vec<Vec<Ebb>>,
}

impl ControlFlowGraph {
    /// An empty graph, valid for a function without EBBs.
    pub fn new() -> (r: ControlFlowGraph)
        ensures
            r.succs@.len() == 0,
    {
        ControlFlowGraph { succs: Vec::new() }
    }

    /// The graph is valid for `f`: it has a row for every EBB, and every
    /// row holds exactly the successors that the EBB's branch instructions
    /// imply.
    pub open spec fn valid_for(self, f: Function) -> bool {
        &&& self.succs.len() == f.num_ebbs()
        &&& forall|b: int|
            0 <= b < f.num_ebbs() ==> #[trigger] self.succs@[b]@ == branch_dests(
                f.insts_model(),
                f.blocks_seq()[b],
            )
    }

    /// Recompute the successor row of EBB `b` from the function, growing the
    /// graph with empty rows when the function has new EBBs.
    pub fn recompute_ebb(&mut self, f: &Function, b: Ebb)
        requires
            f.wf(),
            b < f.num_ebbs(),
            old(self).succs@.len() <= f.num_ebbs(),
        ensures
            final(self).succs@.len() == f.num_ebbs(),
            final(self).succs@[b as int]@ == block_succs(*f, b as int),
            forall|j: int|
                0 <= j < old(self).succs@.len() && j != b ==> #[trigger] final(self).succs@[j]
                    == old(self).succs@[j],
            forall|j: int|
                old(self).succs@.len() <= j < f.num_ebbs() && j != b
                    ==> #[trigger] final(self).succs@[j]@ == Seq::<Ebb>::empty(),
    {
        while self.succs.len() < f.layout.blocks.len()
            invariant
                old(self).succs@.len() <= self.succs@.len() <= f.num_ebbs(),
                forall|j: int|
                    0 <= j < old(self).succs@.len() ==> #[trigger] self.succs@[j] == old(
                        self,
                    ).succs@[j],
                forall|j: int|
                    old(self).succs@.len() <= j < self.succs@.len() ==> #[trigger] self.succs@[j]@
                        == Seq::<Ebb>::empty(),
            decreases f.layout.blocks.len() - self.succs.len(),
        {
            self.succs.push(Vec::new());
        }
        let mut dests: Vec<Ebb> = Vec::new();
        let mut j: usize = 0;
        let ghost blk = f.blocks_seq()[b as int];
        let ghost grown = *self;
        proof {
            assert(blk.take(0) =~= Seq::<Inst>::empty());
        }
        while j < f.layout.blocks[b].len()
            invariant
                f.wf(),
                b < f.num_ebbs(),
                j <= blk.len(),
                blk == f.blocks_seq()[b as int],
                dests@ == branch_dests(f.insts_model(), blk.take(j as int)),
            decreases blk.len() - j,
        {
            let i = f.layout.blocks[b][j];
            proof {
                assert(blk[j as int] < f.num_insts());
                lemma_branch_dests_take_step(f.insts_model(), blk, j as int);
            }
            match &f.dfg.insts[i] {
                InstData::Jump { dest, .. } => {
                    dests.push(*dest);
                },
                InstData::Branch { dest, .. } => {
                    dests.push(*dest);
                },
                _ => {
                    proof {
                        assert(dest_of_id(f.insts_model(), blk[j as int]) =~= Seq::<Ebb>::empty());
                        assert(dests@ =~= branch_dests(f.insts_model(), blk.take(j as int + 1)));
                    }
                },
            }
            j += 1;
        }
        proof {
            assert(blk.take(blk.len() as int) =~= blk);
        }
        self.succs[b] = dests;
        proof {
            assert(self.succs@ =~= grown.succs@.update(b as int, dests));
        }
    }

    /// The predecessors of EBB `b`: every EBB whose successor row names `b`.
    pub fn pred_ebbs(&self, b: Ebb) -> (r: Vec<Ebb>)
        ensures
            forall|p: Ebb|
                #[trigger] r@.contains(p) <==> (p < self.succs@.len() && self.succs@[p as int]@
                    .contains(b)),
    {
        let mut r: Vec<Ebb> = Vec::new();
        let mut p: usize = 0;
        while p < self.succs.len()
            invariant
                p <= self.succs@.len(),
                forall|q: Ebb|
                    #[trigger] r@.contains(q) <==> (q < p && self.succs@[q as int]@.contains(b)),
            decreases self.succs@.len() - p,
        {
            let ghost r0 = r@;
            if row_contains(&self.succs[p], b) {
                r.push(p);
                proof {
                    assert forall|q: Ebb| #[trigger] r@.contains(q) implies (q < p + 1
                        && self.succs@[q as int]@.contains(b)) by {
                        let k = choose|k: int| 0 <= k < r@.len() && r@[k] == q;
                        if k < r0.len() {
                            assert(r0.contains(q));
                        }
                    }
                    assert forall|q: Ebb| (q < p + 1 && self.succs@[q as int]@.contains(b))
                        implies #[trigger] r@.contains(q) by {
                        if q < p {
                            assert(r0.contains(q));
                            let k = choose|k: int| 0 <= k < r0.len() && r0[k] == q;
                            assert(r@[k] == q);
                        } else {
                            assert(r@[r@.len() - 1] == q);
                        }
                    }
                }
            } else {
                proof {
                    assert forall|q: Ebb| #[trigger] r@.contains(q) implies (q < p + 1
                        && self.succs@[q as int]@.contains(b)) by {}
                    assert forall|q: Ebb| (q < p + 1 && self.succs@[q as int]@.contains(b))
                        implies #[trigger] r@.contains(q) by {
                        assert(q != p);
                    }
                }
            }
            p += 1;
        }
        r
    }
}

/// Whether one successor row names `x`.
fn row_contains(v: &Vec<Ebb>, x: Ebb) -> (r: bool)
    ensures
        r == v@.contains(x),
{
    let mut k: usize = 0;
    while k < v.len()
        invariant
            k <= v@.len(),
            forall|t: int| 0 <= t < k ==> v@[t] != x,
        decreases v@.len() - k,
    {
        if v[k] == x {
            return true;
        }
        k += 1;
    }
    false
}

/// A graph stays valid when the function's EBB contents are unchanged and no
/// instruction's branch destinations changed.
pub proof fn lemma_valid_same_blocks(pre: Function, post: Function, cfg: ControlFlowGraph)
    requires
        pre.wf(),
        cfg.valid_for(pre),
        post.num_ebbs() == pre.num_ebbs(),
        post.blocks_seq() == pre.blocks_seq(),
        forall|i: Inst|
            i < pre.num_insts() ==> #[trigger] dest_of_id(post.insts_model(), i) == dest_of_id(
                pre.insts_model(),
                i,
            ),
    ensures
        cfg.valid_for(post),
{
    assert forall|x: int| 0 <= x < post.num_ebbs() implies #[trigger] cfg.succs@[x]@
        == branch_dests(post.insts_model(), post.blocks_seq()[x]) by {
        assert(cfg.succs@[x]@ == branch_dests(pre.insts_model(), pre.blocks_seq()[x]));
        let blk = pre.blocks_seq()[x];
        assert forall|k: int|
            0 <= k < blk.len() implies dest_of_id(pre.insts_model(), #[trigger] blk[k])
            == dest_of_id(post.insts_model(), blk[k]) by {
            assert(pre.blocks_seq()[x][k] < pre.num_insts());
        }
        lemma_branch_dests_congruent(pre.insts_model(), post.insts_model(), blk);
    }
}

/// Scanning one more instruction appends its branch destinations.
pub proof fn lemma_branch_dests_take_step(models: Seq<InstModel>, s: Seq<Inst>, j: int)
    requires
        0 <= j < s.len(),
    ensures
        branch_dests(models, s.take(j + 1)) == branch_dests(models, s.take(j)) + dest_of_id(
            models,
            s[j],
        ),
{
    assert(s.take(j + 1).drop_last() =~= s.take(j));
    assert(s.take(j + 1).last() == s[j]);
}

/// Branch destinations distribute over concatenation.
pub proof fn lemma_branch_dests_concat(models: Seq<InstModel>, s1: Seq<Inst>, s2: Seq<Inst>)
    ensures
        branch_dests(models, s1 + s2) == branch_dests(models, s1) + branch_dests(models, s2),
    decreases s2.len(),
{
    if s2.len() == 0 {
        assert(s1 + s2 =~= s1);
        assert(branch_dests(models, s1) + branch_dests(models, s2) =~= branch_dests(models, s1));
    } else {
        lemma_branch_dests_concat(models, s1, s2.drop_last());
        assert((s1 + s2).drop_last() =~= s1 + s2.drop_last());
        assert((s1 + s2).last() == s2.last());
        assert(branch_dests(models, s1) + branch_dests(models, s2.drop_last()) + dest_of_id(
            models,
            s2.last(),
        ) =~= branch_dests(models, s1) + branch_dests(models, s2));
    }
}

/// Two instruction tables that give every scanned identity the same
/// destinations give the scan the same result.
pub proof fn lemma_branch_dests_congruent(
    m1: Seq<InstModel>,
    m2: Seq<InstModel>,
    s: Seq<Inst>,
)
    requires
        forall|k: int|
            0 <= k < s.len() ==> dest_of_id(m1, #[trigger] s[k]) == dest_of_id(m2, s[k]),
    ensures
        branch_dests(m1, s) == branch_dests(m2, s),
    decreases s.len(),
{
    if s.len() > 0 {
        assert forall|k: int|
            0 <= k < s.drop_last().len() implies dest_of_id(m1, #[trigger] s.drop_last()[k])
            == dest_of_id(m2, s.drop_last()[k]) by {
            assert(s.drop_last()[k] == s[k]);
        }
        lemma_branch_dests_congruent(m1, m2, s.drop_last());
        assert(s.last() == s[s.len() - 1]);
    }
}

} // verus!
