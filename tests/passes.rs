use noir_ir::call_graph::CallGraph;
use noir_ir::cfg::ControlFlowGraph;
use noir_ir::dfg::{DataFlowGraph, IrError};
use noir_ir::dom::{check_ssa_dominance, DominatorTree};
use noir_ir::function::Function;
use noir_ir::ids::{BlockId, FunctionId, ValueId};
use noir_ir::inserter::inline_block;
use noir_ir::instruction::{BinaryOp, Instruction, Terminator, Value};
use noir_ir::types::Type;

fn callee() -> (Function, ValueId) {
    let mut f = Function::new(FunctionId(1), String::from("add_one"));
    let p = f.add_parameter(Type::Unsigned(32));
    let one = f.dfg.make_constant(1, Type::Unsigned(32));
    let entry = f.entry_block;
    let r = f.dfg.insert_instruction(entry, Instruction::Binary { op: BinaryOp::Add, lhs: p, rhs: one }, vec![Type::Unsigned(32)]).unwrap();
    f.dfg.set_terminator(entry, Terminator::Return(vec![r[0]])).unwrap();
    (f, p)
}

#[test]
fn inlining_substitutes_the_argument() {
    let (callee, p) = callee();
    let mut caller = Function::new(FunctionId(0), String::from("main"));
    let _unused = caller.dfg.make_constant(9, Type::Unsigned(8));
    let five = caller.dfg.make_constant(5, Type::Unsigned(32));
    let entry = caller.entry_block;
    let returned = inline_block(&mut caller.dfg, entry, &callee.dfg, callee.entry_block, &vec![(p, five)]).unwrap();
    assert_eq!(caller.dfg.instructions.len(), 1);
    let n = caller.dfg.values.len();
    match &caller.dfg.instructions[0] {
        Instruction::Binary { op, lhs, rhs } => {
            assert_eq!(*op, BinaryOp::Add);
            assert_eq!(*lhs, five);
            assert_ne!(*lhs, p);
            assert!(rhs.0 < n);
            assert_eq!(caller.dfg.values[rhs.0], Value::NumericConstant { constant: 1, typ: Type::Unsigned(32) });
        }
        _ => panic!("expected the copied addition"),
    }
    assert_eq!(returned, caller.dfg.instruction_results(noir_ir::ids::InstructionId(0)).unwrap());
    assert!(returned.iter().all(|v| v.0 < n));
    assert_eq!(caller.dfg.blocks[entry.0].instructions.len(), 1);
}

#[test]
fn inlining_refuses_a_mistyped_argument() {
    let (callee, p) = callee();
    let mut caller = Function::new(FunctionId(0), String::from("main"));
    let wide = caller.dfg.make_constant(5, Type::Unsigned(64));
    let entry = caller.entry_block;
    let r = inline_block(&mut caller.dfg, entry, &callee.dfg, callee.entry_block, &vec![(p, wide)]);
    assert_eq!(r, Err(IrError::TypeMismatch));
    let r = inline_block(&mut caller.dfg, BlockId(4), &callee.dfg, callee.entry_block, &vec![]);
    assert_eq!(r, Err(IrError::InvalidIdentifier));
}

#[test]
fn post_order_leaves_out_unreachable_blocks() {
    let mut dfg = DataFlowGraph::new();
    let b0 = dfg.make_block();
    let b1 = dfg.make_block();
    let dead = dfg.make_block();
    let b3 = dfg.make_block();
    let c = dfg.add_block_parameter(b0, Type::Bool).unwrap();
    dfg.set_terminator(b0, Terminator::JmpIf { condition: c, then_destination: b1, else_destination: b3 }).unwrap();
    dfg.set_terminator(b1, Terminator::Jmp { destination: b3, arguments: vec![] }).unwrap();
    dfg.set_terminator(dead, Terminator::Jmp { destination: b1, arguments: vec![] }).unwrap();
    dfg.set_terminator(b3, Terminator::Return(vec![])).unwrap();
    let cfg = ControlFlowGraph::new(&dfg);
    assert_eq!(cfg.post_order(b0), vec![b3, b1, b0]);
    let rpo = cfg.reverse_post_order(b0);
    assert_eq!(rpo, vec![b0, b1, b3]);
    assert!(!rpo.contains(&dead));
}

#[test]
fn call_graph_records_direct_and_indirect_calls() {
    let mut main = Function::new(FunctionId(0), String::from("main"));
    let target = main.dfg.make_constant_value(Value::Function(FunctionId(1)));
    let p = main.add_parameter(Type::Function);
    let entry = main.entry_block;
    main.dfg.insert_instruction(entry, Instruction::Call { func: target, arguments: vec![] }, vec![]).unwrap();
    main.dfg.insert_instruction(entry, Instruction::Call { func: p, arguments: vec![] }, vec![]).unwrap();
    let (leaf, _) = callee();
    let functions = vec![main, leaf];
    let cg = CallGraph::new(&functions);
    assert_eq!(cg.callees[0], vec![false, true]);
    assert_eq!(cg.callees[1], vec![false, false]);
    assert_eq!(cg.calls_unknown, vec![true, false]);
}

#[test]
fn function_parameters_live_in_the_entry_block() {
    let mut f = Function::new(FunctionId(3), String::from("f"));
    let a = f.add_parameter(Type::Field);
    let b = f.add_parameter(Type::Bool);
    assert_eq!(f.parameters(), vec![a, b]);
    assert_eq!(f.parameter_types(), vec![Type::Field, Type::Bool]);
    assert_eq!(f.dfg.values[b.0], Value::Param { block: f.entry_block, position: 1, typ: Type::Bool });
}

#[test]
fn branch_to_entry_is_refused() {
    let mut f = Function::new(FunctionId(0), String::from("loop_to_entry"));
    let entry = f.entry_block;
    let body = f.dfg.make_block();
    let r = f.set_terminator(body, Terminator::Jmp { destination: entry, arguments: vec![] });
    assert_eq!(r, Err(IrError::BranchToEntry));
    assert_eq!(f.set_terminator(entry, Terminator::Jmp { destination: body, arguments: vec![] }), Ok(()));
    assert_eq!(f.set_terminator(entry, Terminator::Unreachable), Err(IrError::BlockAlreadyTerminated));
    let cfg = ControlFlowGraph::new(&f.dfg);
    assert!(cfg.predecessors(entry).is_empty());
}

#[test]
fn dominance_check_accepts_and_rejects() {
    let mut dfg = DataFlowGraph::new();
    let b0 = dfg.make_block();
    let b1 = dfg.make_block();
    let b2 = dfg.make_block();
    let c = dfg.add_block_parameter(b0, Type::Bool).unwrap();
    let x = dfg.add_block_parameter(b1, Type::Bool).unwrap();
    dfg.insert_instruction(b1, Instruction::Not(c), vec![Type::Bool]).unwrap();
    dfg.set_terminator(b0, Terminator::JmpIf { condition: c, then_destination: b1, else_destination: b2 }).unwrap();
    dfg.set_terminator(b1, Terminator::Return(vec![])).unwrap();
    let tree = DominatorTree::with_cfg(ControlFlowGraph::new(&dfg), b0);
    assert!(check_ssa_dominance(&dfg, &tree));
    dfg.insert_instruction(b2, Instruction::Not(x), vec![Type::Bool]).unwrap();
    let tree = DominatorTree::with_cfg(ControlFlowGraph::new(&dfg), b0);
    assert!(!check_ssa_dominance(&dfg, &tree));
}
