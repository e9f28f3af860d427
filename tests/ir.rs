use noir_ir::cfg::ControlFlowGraph;
use noir_ir::clean::{plan_step, CleanCommand, CleanStep, CleanTarget, LockType, PackageSelection};
use noir_ir::dfg::{DataFlowGraph, IrError};
use noir_ir::dom::DominatorTree;
use noir_ir::fold::constant_fold;
use noir_ir::ids::{BlockId, InstructionId, ValueId};
use noir_ir::instruction::{BinaryOp, Instruction, Terminator, Value};
use noir_ir::map::{Id, MapError, TagSource};
use noir_ir::types::Type;

fn two_block_graph() -> (DataFlowGraph, BlockId, BlockId) {
    let mut dfg = DataFlowGraph::new();
    let entry = dfg.make_block();
    let exit = dfg.make_block();
    dfg.set_terminator(entry, Terminator::Jmp { destination: exit, arguments: vec![] }).unwrap();
    dfg.set_terminator(exit, Terminator::Return(vec![])).unwrap();
    (dfg, entry, exit)
}

#[test]
fn straight_line_cfg_and_dominators() {
    let (dfg, entry, exit) = two_block_graph();
    let cfg = ControlFlowGraph::new(&dfg);
    assert_eq!(cfg.successors(entry), vec![exit]);
    assert_eq!(cfg.predecessors(exit), vec![entry]);
    assert_eq!(cfg.predecessors(entry), vec![]);
    let dom = DominatorTree::with_cfg(cfg, entry);
    assert_eq!(dom.immediate_dominator(exit), Some(entry));
    assert_eq!(dom.immediate_dominator(entry), None);
    assert!(dom.dominates(entry, exit));
    assert!(!dom.dominates(exit, entry));
}

#[test]
fn diamond_immediate_dominator_is_the_branch() {
    let mut dfg = DataFlowGraph::new();
    let b0 = dfg.make_block();
    let b1 = dfg.make_block();
    let b2 = dfg.make_block();
    let b3 = dfg.make_block();
    let cond = dfg.add_block_parameter(b0, Type::Bool).unwrap();
    dfg.set_terminator(b0, Terminator::JmpIf { condition: cond, then_destination: b1, else_destination: b2 }).unwrap();
    dfg.set_terminator(b1, Terminator::Jmp { destination: b3, arguments: vec![] }).unwrap();
    dfg.set_terminator(b2, Terminator::Jmp { destination: b3, arguments: vec![] }).unwrap();
    dfg.set_terminator(b3, Terminator::Return(vec![])).unwrap();
    let cfg = ControlFlowGraph::new(&dfg);
    assert_eq!(cfg.predecessors(b3), vec![b1, b2]);
    let dom = DominatorTree::with_cfg(cfg, b0);
    assert_eq!(dom.immediate_dominator(b3), Some(b0));
    assert_eq!(dom.immediate_dominator(b1), Some(b0));
    assert!(!dom.dominates(b1, b3));
    let again = DominatorTree::with_cfg(ControlFlowGraph::new(&dfg), b0);
    for b in 0..4 {
        assert_eq!(dom.immediate_dominator(BlockId(b)), again.immediate_dominator(BlockId(b)));
    }
}

#[test]
fn unreachable_block_is_not_reached() {
    let (mut dfg, entry, exit) = two_block_graph();
    let orphan = dfg.make_block();
    dfg.set_terminator(orphan, Terminator::Jmp { destination: exit, arguments: vec![] }).unwrap();
    assert_eq!(dfg.num_blocks(), 3);
    let cfg = ControlFlowGraph::new(&dfg);
    let reached = cfg.reachable_from(entry, None);
    assert_eq!(reached, vec![true, true, false]);
    assert_eq!(cfg.predecessors(exit), vec![entry, orphan]);
    let dom = DominatorTree::with_cfg(cfg, entry);
    assert_eq!(dom.immediate_dominator(orphan), None);
}

fn add_of_constants(a: u128, b: u128, typ: Type) -> (DataFlowGraph, InstructionId, ValueId, BlockId) {
    let mut dfg = DataFlowGraph::new();
    let block = dfg.make_block();
    let x = dfg.make_constant(a, typ);
    let y = dfg.make_constant(b, typ);
    let results = dfg.insert_instruction(block, Instruction::Binary { op: BinaryOp::Add, lhs: x, rhs: y }, vec![typ]).unwrap();
    let sum = results[0];
    let doubled = dfg.insert_instruction(block, Instruction::Binary { op: BinaryOp::Add, lhs: sum, rhs: sum }, vec![typ]).unwrap();
    dfg.set_terminator(block, Terminator::Return(vec![sum, doubled[0]])).unwrap();
    (dfg, InstructionId(0), sum, block)
}

#[test]
fn folding_three_plus_four_gives_seven() {
    let (mut dfg, add, sum, block) = add_of_constants(3, 4, Type::Unsigned(32));
    let c = constant_fold(&mut dfg, add).unwrap().unwrap();
    assert_eq!(dfg.values[c.0], Value::NumericConstant { constant: 7, typ: Type::Unsigned(32) });
    match &dfg.instructions[1] {
        Instruction::Binary { lhs, rhs, .. } => {
            assert_eq!(*lhs, c);
            assert_eq!(*rhs, c);
        }
        _ => panic!("expected a binary instruction"),
    }
    match &dfg.blocks[block.0].terminator {
        Some(Terminator::Return(vs)) => {
            assert_eq!(vs[0], c);
            assert_ne!(vs[0], sum);
        }
        _ => panic!("expected a return"),
    }
}

#[test]
fn folding_reports_overflow() {
    let (mut dfg, add, _, _) = add_of_constants(200, 100, Type::Unsigned(8));
    assert_eq!(constant_fold(&mut dfg, add), Err(IrError::ArithmeticOverflow));
}

#[test]
fn folding_skips_non_constants() {
    let (mut dfg, _, _, _) = add_of_constants(1, 2, Type::Unsigned(8));
    assert_eq!(constant_fold(&mut dfg, InstructionId(1)), Ok(None));
    assert_eq!(constant_fold(&mut dfg, InstructionId(9)), Err(IrError::InvalidIdentifier));
}

#[test]
fn instruction_after_terminator_is_refused() {
    let (mut dfg, entry, _) = two_block_graph();
    let v = dfg.make_constant(1, Type::Unsigned(8));
    let r = dfg.insert_instruction(entry, Instruction::Not(v), vec![Type::Unsigned(8)]);
    assert_eq!(r, Err(IrError::BlockAlreadyTerminated));
    assert_eq!(dfg.set_terminator(entry, Terminator::Unreachable), Err(IrError::BlockAlreadyTerminated));
}

#[test]
fn mismatched_operand_types_are_refused() {
    let mut dfg = DataFlowGraph::new();
    let b = dfg.make_block();
    let x = dfg.make_constant(1, Type::Unsigned(8));
    let y = dfg.make_constant(1, Type::Unsigned(16));
    let r = dfg.insert_instruction(b, Instruction::Binary { op: BinaryOp::Add, lhs: x, rhs: y }, vec![Type::Unsigned(8)]);
    assert_eq!(r, Err(IrError::TypeMismatch));
    let r = dfg.insert_instruction(b, Instruction::Not(ValueId(7)), vec![]);
    assert_eq!(r, Err(IrError::InvalidIdentifier));
    assert_eq!(dfg.add_block_parameter(BlockId(3), Type::Bool), Err(IrError::InvalidIdentifier));
}

#[test]
fn results_and_types_are_recorded() {
    let mut dfg = DataFlowGraph::new();
    let b = dfg.make_block();
    let p = dfg.add_block_parameter(b, Type::Signed(64)).unwrap();
    assert_eq!(dfg.value_type(p), Ok(Type::Signed(64)));
    let rs = dfg.insert_instruction(b, Instruction::Call { func: p, arguments: vec![p] }, vec![Type::Bool, Type::Field]).unwrap();
    assert_eq!(rs, vec![ValueId(1), ValueId(2)]);
    assert_eq!(dfg.instruction_results(InstructionId(0)), Ok(vec![ValueId(1), ValueId(2)]));
    assert_eq!(dfg.value_type(ValueId(2)), Ok(Type::Field));
    assert_eq!(dfg.value_type(ValueId(3)), Err(IrError::InvalidIdentifier));
    assert_eq!(Type::Field.bit_size(), Some(254));
    assert!(!Type::Unit.is_numeric());
}

#[test]
fn replacing_uses_twice_changes_nothing_more() {
    let (mut dfg, _, sum, block) = add_of_constants(1, 2, Type::Unsigned(8));
    let z = dfg.make_constant(0, Type::Unsigned(8));
    dfg.replace_value_uses(sum, z).unwrap();
    let once = format!("{:?}", dfg);
    dfg.replace_value_uses(sum, z).unwrap();
    assert_eq!(once, format!("{:?}", dfg));
    match &dfg.blocks[block.0].terminator {
        Some(Terminator::Return(vs)) => assert_eq!(vs[0], z),
        _ => panic!("expected a return"),
    }
    assert_eq!(dfg.replace_value_uses(sum, ValueId(99)), Err(IrError::InvalidIdentifier));
}

#[test]
fn ids_of_different_maps_never_alias() {
    let mut tags = TagSource::new();
    let mut m1 = tags.new_map::<u32>().unwrap();
    let mut m2 = tags.new_map::<u32>().unwrap();
    let a = m1.insert(10);
    let b = m2.insert(20);
    assert_ne!(a, b);
    assert_eq!(m1.get(a), Ok(&10));
    assert_eq!(m1.get(b), Err(MapError::InvalidIdentifier));
    assert_eq!(m2.get(Id { map_tag: m2.tag, index: 5 }), Err(MapError::InvalidIdentifier));
    assert_eq!(m1.len(), 1);
}

#[test]
fn clean_command_settings() {
    let c = CleanCommand {};
    assert_eq!(c.package_selection(), PackageSelection::All);
    assert_eq!(c.lock_type(), LockType::Exclusive);
    assert_eq!(plan_step(CleanTarget::TargetDirectory, false), CleanStep::ReportMissing(CleanTarget::TargetDirectory));
    assert_eq!(plan_step(CleanTarget::GlobalCrs, false), CleanStep::Skip(CleanTarget::GlobalCrs));
    assert_eq!(plan_step(CleanTarget::LocalCrs, true), CleanStep::Remove(CleanTarget::LocalCrs));
}

#[test]
fn clean_steps_follow_the_fixed_order() {
    use_steps();
}

fn use_steps() {
    let steps = noir_ir::clean::clean_steps(true, false, None);
    assert_eq!(
        steps,
        vec![
            CleanStep::Remove(CleanTarget::TargetDirectory),
            CleanStep::Skip(CleanTarget::LocalCrs),
            CleanStep::HomeUnknown,
        ]
    );
    let steps = noir_ir::clean::clean_steps(false, true, Some(true));
    assert_eq!(
        steps,
        vec![
            CleanStep::ReportMissing(CleanTarget::TargetDirectory),
            CleanStep::Remove(CleanTarget::LocalCrs),
            CleanStep::Remove(CleanTarget::GlobalCrs),
        ]
    );
}

#[test]
fn finished_only_when_every_block_is_terminated() {
    let (mut dfg, _, _) = two_block_graph();
    assert!(dfg.is_finished());
    dfg.make_block();
    assert!(!dfg.is_finished());
}
