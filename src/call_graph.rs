use vstd::prelude::*;
use crate::dfg::DataFlowGraph;
use crate::function::Function;
use crate::ids::{FunctionId, values_below};
use crate::instruction::{Instruction, Value};

verus! {

/// The function that instruction `i` calls directly, if it is a call of a function reference.
pub open spec fn call_target(dfg: DataFlowGraph, i: int) -> Option<FunctionId> {
    match dfg.instructions@[i] {
        Instruction::Call { func, .. } => match dfg.values@[func.0 as int] {
            Value::Function(f) => Some(f),
            _ => None,
        },
        _ => None,
    }
}

/// Instruction `i` is a call through a value that is no function reference,
/// or of a function that is not among the program's `n` functions.
pub open spec fn is_indirect_call(dfg: DataFlowGraph, i: int, n: nat) -> bool {
    match dfg.instructions@[i] {
        Instruction::Call { func, .. } => match dfg.values@[func.0 as int] {
            Value::Function(f) => f.0 >= n,
            _ => true,
        },
        _ => false,
    }
}

/// Some instruction of `dfg` calls function `g` directly.
pub open spec fn calls(dfg: DataFlowGraph, g: int) -> bool {
    exists|i: int| 0 <= i < dfg.instructions@.len() && #[trigger] call_target(dfg, i) == Some(FunctionId(g as usize))
}

pub open spec fn calls_indirectly(dfg: DataFlowGraph, n: nat) -> bool {
    exists|i: int| 0 <= i < dfg.instructions@.len() && #[trigger] is_indirect_call(dfg, i, n)
}

/// Which functions of a program call which, by position in the program's list of functions.
pub struct CallGraph {
    pub callees: Vec<Vec<bool>>,
    pub calls_unknown: Vec<bool>,
}

impl CallGraph {
    /// Scans every function's calls. A call through a value that is no function reference,
    /// or of a function outside the list, is recorded as a call of an unknown function.
    pub fn new(functions: &Vec<Function>) -> (r: CallGraph)
        requires
            forall|f: int| 0 <= f < functions@.len() ==> (#[trigger] functions@[f]).wf(),
        ensures
            r.callees@.len() == functions@.len(),
            r.calls_unknown@.len() == functions@.len(),
            forall|f: int| 0 <= f < functions@.len() ==> (#[trigger] r.callees@[f])@.len() == functions@.len(),
            forall|f: int, g: int| 0 <= f < functions@.len() && 0 <= g < functions@.len() ==>
                (#[trigger] r.callees@[f]@[g] <==> calls(functions@[f].dfg, g)),
            forall|f: int| 0 <= f < functions@.len() ==> (#[trigger] r.calls_unknown@[f] <==> calls_indirectly(functions@[f].dfg, functions@.len() as nat)),
    {
        let n = functions.len();
        let mut callees: Vec<Vec<bool>> = Vec::new();
        let mut calls_unknown: Vec<bool> = Vec::new();
        let mut f: usize = 0;
        while f < n
            invariant
                n == functions@.len(),
                f <= n,
                forall|f: int| 0 <= f < functions@.len() ==> (#[trigger] functions@[f]).wf(),
                callees@.len() == f,
                calls_unknown@.len() == f,
                forall|x: int| 0 <= x < f ==> (#[trigger] callees@[x])@.len() == n,
                forall|x: int, g: int| 0 <= x < f && 0 <= g < n ==> (#[trigger] callees@[x]@[g] <==> calls(functions@[x].dfg, g)),
                forall|x: int| 0 <= x < f ==> (#[trigger] calls_unknown@[x] <==> calls_indirectly(functions@[x].dfg, n as nat)),
            decreases n - f,
        {
            let (row, unknown) = Self::scan(&functions[f].dfg, n);
            callees.push(row);
            calls_unknown.push(unknown);
            f = f + 1;
        }
        CallGraph { callees, calls_unknown }
    }

    fn scan(dfg: &DataFlowGraph, n: usize) -> (r: (Vec<bool>, bool))
        requires
            dfg.wf(),
        ensures
            r.0@.len() == n,
            forall|g: int| 0 <= g < n ==> (#[trigger] r.0@[g] <==> calls(*dfg, g)),
            r.1 <==> calls_indirectly(*dfg, n as nat),
    {
        let mut row: Vec<bool> = vec![false; n];
        let mut unknown = false;
        let mut i: usize = 0;
        while i < dfg.instructions.len()
            invariant
                dfg.wf(),
                i <= dfg.instructions@.len(),
                row@.len() == n,
                forall|g: int| 0 <= g < n ==> (#[trigger] row@[g] <==>
                    exists|j: int| 0 <= j < i && #[trigger] call_target(*dfg, j) == Some(FunctionId(g as usize))),
                unknown <==> exists|j: int| 0 <= j < i && #[trigger] is_indirect_call(*dfg, j, n as nat),
            decreases dfg.instructions@.len() - i,
        {
            let ghost row0 = row@;
            let ghost u0 = unknown;
            if let Instruction::Call { func, .. } = &dfg.instructions[i] {
                proof {
                    let ops = dfg.instructions@[i as int].operands();
                    assert(values_below(ops, dfg.values@.len() as nat));
                    assert(ops[0] == *func);
                }
                match &dfg.values[func.0] {
                    Value::Function(fid) => {
                        if fid.0 < n {
                            row.set(fid.0, true);
                        } else {
                            unknown = true;
                        }
                    },
                    _ => {
                        unknown = true;
                    },
                }
            }
            proof {
                if is_indirect_call(*dfg, i as int, n as nat) {
                    assert(unknown);
                } else if exists|j: int| 0 <= j < i + 1 && #[trigger] is_indirect_call(*dfg, j, n as nat) {
                    let j = choose|j: int| 0 <= j < i + 1 && #[trigger] is_indirect_call(*dfg, j, n as nat);
                    assert(j < i);
                }
                if unknown && !is_indirect_call(*dfg, i as int, n as nat) {
                    assert(u0);
                }
                assert forall|g: int| 0 <= g < n implies (#[trigger] row@[g] <==>
                    exists|j: int| 0 <= j < i + 1 && #[trigger] call_target(*dfg, j) == Some(FunctionId(g as usize))) by {
                    if call_target(*dfg, i as int) == Some(FunctionId(g as usize)) {
                        assert(row@[g]);
                    } else {
                        if row@[g] {
                            assert(row0[g]);
                        }
                        if exists|j: int| 0 <= j < i + 1 && #[trigger] call_target(*dfg, j) == Some(FunctionId(g as usize)) {
                            let j = choose|j: int| 0 <= j < i + 1 && #[trigger] call_target(*dfg, j) == Some(FunctionId(g as usize));
                            assert(j < i);
                        }
                    }
                }
            }
            i = i + 1;
        }
        (row, unknown)
    }
}

} // verus!
