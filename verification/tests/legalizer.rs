use legalizer::flowgraph::ControlFlowGraph;
use legalizer::ir::{DataFlowGraph, Function, InstData, Layout, Opcode};
use legalizer::isa::TargetIsa;
use legalizer::boundary::{handle_call_abi, handle_return_abi, legalize_signatures};
use legalizer::split::simplify_branch_arguments;
use legalizer::{expand_cond_trap, legalize_function};

/// A function with `num_values` root values and no instructions yet.
fn empty_function(num_values: u32) -> Function {
    Function {
        dfg: DataFlowGraph {
            insts: Vec::new(),
            resolved: (0..num_values).collect(),
        },
        layout: Layout {
            order: Vec::new(),
            blocks: Vec::new(),
        },
        encodings: Vec::new(),
        abi_sig: 0,
    }
}

/// A control-flow graph recomputed for every EBB of `f`.
fn cfg_for(f: &Function) -> ControlFlowGraph {
    let mut cfg = ControlFlowGraph::new();
    for b in 0..f.layout.blocks.len() {
        cfg.recompute_ebb(f, b);
    }
    cfg
}

fn nop() -> InstData {
    InstData::Nullary {
        opcode: Opcode::Nop,
    }
}

#[test]
fn expands_trapnz_into_branch_over_trap() {
    // A block ending in `trapnz v0` followed by straight-line I1, I2.
    let mut f = empty_function(1);
    let b0 = f.make_ebb();
    f.append_ebb(b0);
    let trap = f.append_inst(
        b0,
        InstData::Unary {
            opcode: Opcode::Trapnz,
            arg: 0,
        },
    );
    let i1 = f.append_inst(b0, nop());
    let i2 = f.append_inst(b0, nop());
    let mut cfg = cfg_for(&f);

    expand_cond_trap(trap, &mut f, &mut cfg);

    // The original block now ends in `brz v0 -> B'` then `trap`.
    let bp = 1; // the continuation EBB
    let t = 3; // the inserted unconditional trap
    assert_eq!(f.layout.blocks[b0], vec![trap, t]);
    match &f.dfg.insts[trap] {
        InstData::Branch {
            opcode,
            arg,
            dest,
            args,
        } => {
            assert_eq!(*opcode, Opcode::Brz);
            assert_eq!(*arg, 0);
            assert_eq!(*dest, bp);
            assert!(args.is_empty());
        }
        other => panic!("expected a branch, got {:?}", other),
    }
    assert!(matches!(
        f.dfg.insts[t],
        InstData::Nullary {
            opcode: Opcode::Trap
        }
    ));
    // B' holds exactly I1, I2 in original order and follows B in the layout.
    assert_eq!(f.layout.blocks[bp], vec![i1, i2]);
    assert_eq!(f.layout.order, vec![b0, bp]);
    // The CFG shows B -> {B'} and B' preceded by B.
    assert_eq!(cfg.succs[b0], vec![bp]);
    assert!(cfg.succs[bp].is_empty());
    assert!(cfg.pred_ebbs(bp).contains(&b0));
    assert!(cfg.pred_ebbs(b0).is_empty());
}

#[test]
fn expands_trapz_into_brnz() {
    // "Trap if zero" branches over the trap when the operand is nonzero.
    let mut f = empty_function(1);
    let b0 = f.make_ebb();
    f.append_ebb(b0);
    let trap = f.append_inst(
        b0,
        InstData::Unary {
            opcode: Opcode::Trapz,
            arg: 0,
        },
    );
    let mut cfg = cfg_for(&f);

    expand_cond_trap(trap, &mut f, &mut cfg);

    match &f.dfg.insts[trap] {
        InstData::Branch { opcode, dest, .. } => {
            assert_eq!(*opcode, Opcode::Brnz);
            assert_eq!(*dest, 1);
        }
        other => panic!("expected a branch, got {:?}", other),
    }
    // The split block is empty: nothing followed the trap.
    assert!(f.layout.blocks[1].is_empty());
}

#[test]
fn driver_reaches_fixed_point_on_cond_trap() {
    // Termination and fixed point: after the driver runs, every instruction
    // is legal and has an encoding, including the ones the expansion made.
    let mut f = empty_function(1);
    let b0 = f.make_ebb();
    f.append_ebb(b0);
    f.append_inst(b0, nop());
    f.append_inst(
        b0,
        InstData::Unary {
            opcode: Opcode::Trapnz,
            arg: 0,
        },
    );
    f.append_inst(b0, nop());
    let mut cfg = cfg_for(&f);
    let isa = TargetIsa {
        abi_sig: 0,
        expand_cond_traps: true,
    };

    legalize_function(&mut f, &mut cfg, &isa);

    // Every placed instruction carries the recipe of its (final) opcode.
    assert_eq!(f.layout.order, vec![0, 1]);
    assert_eq!(f.layout.blocks[0], vec![0, 1, 3]); // nop, brz, trap
    assert_eq!(f.layout.blocks[1], vec![2]); // the trailing nop
    assert_eq!(f.encodings[0], Some(10)); // nop
    assert_eq!(f.encodings[1], Some(2)); // brz
    assert_eq!(f.encodings[3], Some(6)); // trap
    assert_eq!(f.encodings[2], Some(10)); // nop
    // The CFG matches the rewritten terminators.
    assert_eq!(cfg.succs[0], vec![1]);
    assert!(cfg.succs[1].is_empty());
}

#[test]
fn driver_leaves_legal_function_unchanged() {
    // No-op safety: a function whose instructions are all legal is left
    // structurally unchanged; only the encoding map is populated.
    let mut f = empty_function(2);
    let b0 = f.make_ebb();
    let b1 = f.make_ebb();
    f.append_ebb(b0);
    f.append_ebb(b1);
    f.append_inst(b0, nop());
    f.append_inst(
        b0,
        InstData::Jump {
            dest: b1,
            args: vec![1],
        },
    );
    f.append_inst(
        b1,
        InstData::Ret {
            sig: 7,
            args: vec![0],
        },
    );
    f.abi_sig = 7;
    let mut cfg = cfg_for(&f);
    let isa = TargetIsa {
        abi_sig: 7,
        expand_cond_traps: true,
    };
    let insts_before = format!("{:?}", f.dfg.insts);
    let layout_before = format!("{:?}", f.layout);

    legalize_function(&mut f, &mut cfg, &isa);

    assert_eq!(format!("{:?}", f.dfg.insts), insts_before);
    assert_eq!(format!("{:?}", f.layout), layout_before);
    assert_eq!(f.abi_sig, 7);
    assert_eq!(f.encodings, vec![Some(10), Some(1), Some(5)]);
    assert_eq!(cfg.succs[b0], vec![b1]);
}

#[test]
fn cond_trap_stays_when_target_encodes_it() {
    // The same instruction is legal for one target and illegal for another.
    let mut f = empty_function(1);
    let b0 = f.make_ebb();
    f.append_ebb(b0);
    let trap = f.append_inst(
        b0,
        InstData::Unary {
            opcode: Opcode::Trapnz,
            arg: 0,
        },
    );
    let mut cfg = cfg_for(&f);
    let isa = TargetIsa {
        abi_sig: 0,
        expand_cond_traps: false,
    };

    legalize_function(&mut f, &mut cfg, &isa);

    assert!(matches!(
        f.dfg.insts[trap],
        InstData::Unary {
            opcode: Opcode::Trapnz,
            ..
        }
    ));
    assert_eq!(f.layout.blocks[b0], vec![trap]);
    assert_eq!(f.encodings[trap], Some(8));
}

#[test]
fn simplification_resolves_aliases_and_is_idempotent() {
    // v1 is an alias of v0; the jump's argument list is rewritten to roots,
    // and a second run changes nothing further.
    let mut f = empty_function(3);
    f.dfg.resolved[1] = 0;
    let b0 = f.make_ebb();
    f.append_ebb(b0);
    let j = f.append_inst(
        b0,
        InstData::Jump {
            dest: b0,
            args: vec![1, 2],
        },
    );

    simplify_branch_arguments(&mut f.dfg, j);
    match &f.dfg.insts[j] {
        InstData::Jump { args, .. } => assert_eq!(args, &vec![0, 2]),
        other => panic!("expected a jump, got {:?}", other),
    }

    simplify_branch_arguments(&mut f.dfg, j);
    match &f.dfg.insts[j] {
        InstData::Jump { args, .. } => assert_eq!(args, &vec![0, 2]),
        other => panic!("expected a jump, got {:?}", other),
    }
}

#[test]
fn call_boundary_conversion_and_idempotence() {
    // A call whose signature does not conform gets a conversion step in
    // front of it; one that already conforms reports no change.
    let mut f = empty_function(1);
    let b0 = f.make_ebb();
    f.append_ebb(b0);
    let call = f.append_inst(
        b0,
        InstData::Call {
            sig: 3,
            args: vec![0],
        },
    );
    let mut cfg = cfg_for(&f);
    let isa = TargetIsa {
        abi_sig: 9,
        expand_cond_traps: true,
    };
    legalize_signatures(&mut f, &isa);
    assert_eq!(f.abi_sig, 9);

    let changed = handle_call_abi(call, &mut f, &mut cfg);
    assert!(changed);
    let conv = 1;
    assert_eq!(f.layout.blocks[b0], vec![conv, call]);
    assert!(matches!(
        f.dfg.insts[conv],
        InstData::Nullary {
            opcode: Opcode::Convert
        }
    ));
    match &f.dfg.insts[call] {
        InstData::Call { sig, args } => {
            assert_eq!(*sig, 9);
            assert_eq!(args, &vec![0]);
        }
        other => panic!("expected a call, got {:?}", other),
    }

    // Invoking the handler on the already-legalized call reports no change.
    let before = format!("{:?}", f.dfg.insts);
    assert!(!handle_call_abi(call, &mut f, &mut cfg));
    assert_eq!(format!("{:?}", f.dfg.insts), before);
    assert_eq!(f.layout.blocks[b0], vec![conv, call]);
}

#[test]
fn return_boundary_conversion_and_idempotence() {
    let mut f = empty_function(1);
    let b0 = f.make_ebb();
    f.append_ebb(b0);
    let ret = f.append_inst(
        b0,
        InstData::Ret {
            sig: 2,
            args: vec![0],
        },
    );
    let mut cfg = cfg_for(&f);
    let isa = TargetIsa {
        abi_sig: 5,
        expand_cond_traps: true,
    };
    legalize_signatures(&mut f, &isa);

    assert!(handle_return_abi(ret, &mut f, &mut cfg));
    assert_eq!(f.layout.blocks[b0], vec![1, ret]);
    match &f.dfg.insts[ret] {
        InstData::Ret { sig, .. } => assert_eq!(*sig, 5),
        other => panic!("expected a return, got {:?}", other),
    }
    assert!(!handle_return_abi(ret, &mut f, &mut cfg));
}

#[test]
fn driver_rewinds_over_inserted_conversions() {
    // Rewind correctness, observed through the driver: the conversion the
    // call handler inserts is itself examined and encoded.
    let mut f = empty_function(1);
    let b0 = f.make_ebb();
    f.append_ebb(b0);
    let call = f.append_inst(
        b0,
        InstData::Call {
            sig: 3,
            args: vec![0],
        },
    );
    let mut cfg = cfg_for(&f);
    let isa = TargetIsa {
        abi_sig: 4,
        expand_cond_traps: true,
    };

    legalize_function(&mut f, &mut cfg, &isa);

    let conv = 1;
    assert_eq!(f.layout.blocks[b0], vec![conv, call]);
    assert_eq!(f.encodings[conv], Some(9)); // the conversion got its encoding
    assert_eq!(f.encodings[call], Some(4));
    match &f.dfg.insts[call] {
        InstData::Call { sig, .. } => assert_eq!(*sig, 4),
        other => panic!("expected a call, got {:?}", other),
    }
}

#[test]
fn branch_arguments_simplified_by_driver() {
    // The driver runs the simplifier on every branch before checking
    // legality.
    let mut f = empty_function(2);
    f.dfg.resolved[1] = 0;
    let b0 = f.make_ebb();
    f.append_ebb(b0);
    let j = f.append_inst(
        b0,
        InstData::Jump {
            dest: b0,
            args: vec![1],
        },
    );
    let mut cfg = cfg_for(&f);
    let isa = TargetIsa {
        abi_sig: 0,
        expand_cond_traps: true,
    };

    legalize_function(&mut f, &mut cfg, &isa);

    match &f.dfg.insts[j] {
        InstData::Jump { args, .. } => assert_eq!(args, &vec![0]),
        other => panic!("expected a jump, got {:?}", other),
    }
    assert_eq!(f.encodings[j], Some(1));
}

#[test]
fn recompute_tracks_every_branch_in_the_block() {
    // Successors are implied by all the block's control-transfer
    // instructions, in order.
    let mut f = empty_function(1);
    let b0 = f.make_ebb();
    let b1 = f.make_ebb();
    let b2 = f.make_ebb();
    f.append_ebb(b0);
    f.append_ebb(b1);
    f.append_ebb(b2);
    f.append_inst(
        b0,
        InstData::Branch {
            opcode: Opcode::Brz,
            arg: 0,
            dest: b2,
            args: vec![],
        },
    );
    f.append_inst(
        b0,
        InstData::Jump {
            dest: b1,
            args: vec![],
        },
    );
    let cfg = cfg_for(&f);

    assert_eq!(cfg.succs[b0], vec![b2, b1]);
    assert!(cfg.pred_ebbs(b1).contains(&b0));
    assert!(cfg.pred_ebbs(b2).contains(&b0));
    assert!(cfg.pred_ebbs(b0).is_empty());
}

#[test]
fn expansion_mid_layout_visits_the_split_block() {
    // A trap in the first of two blocks: the continuation block is spliced
    // between them and still visited by the driver.
    let mut f = empty_function(1);
    let b0 = f.make_ebb();
    let b1 = f.make_ebb();
    f.append_ebb(b0);
    f.append_ebb(b1);
    f.append_inst(
        b0,
        InstData::Unary {
            opcode: Opcode::Trapz,
            arg: 0,
        },
    );
    let tail = f.append_inst(b0, nop());
    let other = f.append_inst(b1, nop());
    let mut cfg = cfg_for(&f);
    let isa = TargetIsa {
        abi_sig: 0,
        expand_cond_traps: true,
    };

    legalize_function(&mut f, &mut cfg, &isa);

    let bp = 2;
    assert_eq!(f.layout.order, vec![b0, bp, b1]);
    assert_eq!(f.layout.blocks[bp], vec![tail]);
    // Every instruction, in every block, got an encoding.
    for b in &f.layout.order {
        for i in &f.layout.blocks[*b] {
            assert!(f.encodings[*i].is_some());
        }
    }
    assert_eq!(f.encodings[other], Some(10));
}

#[test]
fn driver_accepts_an_empty_function() {
    let mut f = empty_function(0);
    let mut cfg = cfg_for(&f);
    let isa = TargetIsa {
        abi_sig: 1,
        expand_cond_traps: true,
    };

    legalize_function(&mut f, &mut cfg, &isa);

    assert!(f.layout.order.is_empty());
    assert!(f.encodings.is_empty());
    assert_eq!(f.abi_sig, 1);
}

#[test]
fn chained_expansion_converges() {
    // Two conditional traps in one block: the first expansion leaves the
    // second trap in the continuation EBB, where the driver finds and
    // expands it again, converging to a fixed point.
    let mut f = empty_function(2);
    let b0 = f.make_ebb();
    f.append_ebb(b0);
    f.append_inst(
        b0,
        InstData::Unary {
            opcode: Opcode::Trapnz,
            arg: 0,
        },
    );
    f.append_inst(
        b0,
        InstData::Unary {
            opcode: Opcode::Trapz,
            arg: 1,
        },
    );
    f.append_inst(b0, nop());
    let mut cfg = cfg_for(&f);
    let isa = TargetIsa {
        abi_sig: 0,
        expand_cond_traps: true,
    };

    legalize_function(&mut f, &mut cfg, &isa);

    // Three EBBs now: each trap got its own continuation.
    assert_eq!(f.layout.order.len(), 3);
    for b in &f.layout.order {
        for i in &f.layout.blocks[*b] {
            assert!(f.encodings[*i].is_some());
            assert!(!matches!(
                f.dfg.insts[*i],
                InstData::Unary {
                    opcode: Opcode::Trapz | Opcode::Trapnz,
                    ..
                }
            ));
        }
    }
}
