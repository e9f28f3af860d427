use vstd::prelude::*;
use crate::dfg::{DataFlowGraph, IrError, terminator_replaced};
use crate::ids::{InstructionId, ValueId, values_below};
use crate::instruction::{BinaryOp, Instruction, Value, replace_seq};
use crate::types::Type;

verus! {

/// The number of values of an unsigned type that constant folding handles.
pub open spec fn unsigned_limit(bits: u32) -> Option<nat> {
    if bits == 1 {
        Some(2nat)
    } else if bits == 8 {
        Some(0x100nat)
    } else if bits == 16 {
        Some(0x1_0000nat)
    } else if bits == 32 {
        Some(0x1_0000_0000nat)
    } else if bits == 64 {
        Some(0x1_0000_0000_0000_0000nat)
    } else {
        None
    }
}

fn limit_of(bits: u32) -> (r: Option<u128>)
    ensures
        match r {
            Some(l) => unsigned_limit(bits) == Some(l as nat),
            None => unsigned_limit(bits).is_none(),
        },
{
    if bits == 1 {
        Some(2)
    } else if bits == 8 {
        Some(0x100)
    } else if bits == 16 {
        Some(0x1_0000)
    } else if bits == 32 {
        Some(0x1_0000_0000)
    } else if bits == 64 {
        Some(0x1_0000_0000_0000_0000)
    } else {
        None
    }
}

/// The exact result of an arithmetic operator.
pub open spec fn arith(op: BinaryOp, a: int, b: int) -> Option<int> {
    match op {
        BinaryOp::Add => Some(a + b),
        BinaryOp::Sub => Some(a - b),
        BinaryOp::Mul => Some(a * b),
        _ => None,
    }
}

/// Folds `a op b` on an unsigned type with `limit` values: the result if it is in range,
/// `ArithmeticOverflow` if it is not; `None` for an operator that is not arithmetic.
pub fn fold_checked(op: BinaryOp, a: u128, b: u128, limit: u128) -> (r: Option<Result<u128, IrError>>)
    requires
        a < limit,
        b < limit,
        limit <= 0x1_0000_0000_0000_0000,
    ensures
        arith(op, a as int, b as int) is None <==> r is None,
        arith(op, a as int, b as int) matches Some(x) ==> {
            if 0 <= x < limit {
                r == Some(Ok::<u128, IrError>(x as u128))
            } else {
                r == Some(Err::<u128, IrError>(IrError::ArithmeticOverflow))
            }
        },
{
    let x: u128 = match op {
        BinaryOp::Add => a + b,
        BinaryOp::Sub => {
            if a < b {
                return Some(Err(IrError::ArithmeticOverflow));
            }
            a - b
        },
        BinaryOp::Mul => {
            assert(a * b <= 0xffff_ffff_ffff_ffff * 0xffff_ffff_ffff_ffff) by (nonlinear_arith)
                requires a <= 0xffff_ffff_ffff_ffff, b <= 0xffff_ffff_ffff_ffff;
            a * b
        },
        _ => {
            return None;
        },
    };
    if x < limit {
        Some(Ok(x))
    } else {
        Some(Err(IrError::ArithmeticOverflow))
    }
}

/// The constant and the type of a value, if it is a numeric constant.
pub open spec fn constant_of(dfg: DataFlowGraph, v: ValueId) -> Option<(u128, Type)> {
    match dfg.values@[v.0 as int] {
        Value::NumericConstant { constant, typ } => Some((constant, typ)),
        _ => None,
    }
}

/// Instruction `i` is an arithmetic instruction with one result on two in-range constants
/// of the same foldable unsigned type; gives the operator, the operands, the type and the limit.
pub open spec fn fold_candidate(dfg: DataFlowGraph, i: int) -> Option<(BinaryOp, u128, u128, Type, nat)> {
    match dfg.instructions@[i] {
        Instruction::Binary { op, lhs, rhs } => {
            match (constant_of(dfg, lhs), constant_of(dfg, rhs)) {
                (Some((a, ta)), Some((b, tb))) => {
                    match ta {
                        Type::Unsigned(bits) => {
                            match unsigned_limit(bits) {
                                Some(l) => if ta == tb && a < l && b < l && arith(op, a as int, b as int).is_some()
                                    && dfg.results@[i]@.len() == 1 {
                                    Some((op, a, b, ta, l))
                                } else {
                                    None
                                },
                                None => None,
                            }
                        },
                        _ => None,
                    }
                },
                _ => None,
            }
        },
        _ => None,
    }
}

/// Replaces the result of an arithmetic instruction on constants by a new constant,
/// in the operands of every instruction and terminator.
/// Returns the new constant, or `None` where the instruction is no candidate and nothing changes.
pub fn constant_fold(dfg: &mut DataFlowGraph, i: InstructionId) -> (r: Result<Option<ValueId>, IrError>)
    requires
        old(dfg).wf(),
    ensures
        final(dfg).wf(),
        i.0 >= old(dfg).instructions@.len() <==> r == Err::<Option<ValueId>, IrError>(IrError::InvalidIdentifier),
        r matches Err(_) ==> *final(dfg) == *old(dfg),
        r == Ok::<Option<ValueId>, IrError>(None) ==> *final(dfg) == *old(dfg),
        i.0 < old(dfg).instructions@.len() ==> match fold_candidate(*old(dfg), i.0 as int) {
            None => r == Ok::<Option<ValueId>, IrError>(None),
            Some((op, a, b, typ, l)) => {
                let x = arith(op, a as int, b as int).unwrap();
                let res = old(dfg).results@[i.0 as int]@[0];
                if 0 <= x < l {
                    r matches Ok(Some(c)) && {
                        &&& c.0 == old(dfg).values@.len()
                        &&& final(dfg).values@ == old(dfg).values@.push(Value::NumericConstant { constant: x as u128, typ })
                        &&& final(dfg).instructions@.len() == old(dfg).instructions@.len()
                        &&& forall|j: int| 0 <= j < old(dfg).instructions@.len() ==>
                            (#[trigger] final(dfg).instructions@[j]).operands() == replace_seq(old(dfg).instructions@[j].operands(), res, c)
                            && final(dfg).instructions@[j].same_shape(&old(dfg).instructions@[j])
                        &&& final(dfg).results == old(dfg).results
                        &&& final(dfg).blocks@.len() == old(dfg).blocks@.len()
                        &&& forall|x: int| 0 <= x < old(dfg).blocks@.len() ==> {
                            &&& (#[trigger] final(dfg).blocks@[x]).parameters@ == old(dfg).blocks@[x].parameters@
                            &&& final(dfg).blocks@[x].instructions@ == old(dfg).blocks@[x].instructions@
                            &&& terminator_replaced(final(dfg).blocks@[x].terminator, old(dfg).blocks@[x].terminator, res, c)
                        }
                    }
                } else {
                    r == Err::<Option<ValueId>, IrError>(IrError::ArithmeticOverflow)
                }
            },
        },
{
    if i.0 >= dfg.instructions.len() {
        return Err(IrError::InvalidIdentifier);
    }
    let (op, lhs, rhs) = match &dfg.instructions[i.0] {
        Instruction::Binary { op, lhs, rhs } => (*op, *lhs, *rhs),
        _ => {
            return Ok(None);
        },
    };
    proof {
        let ops = dfg.instructions@[i.0 as int].operands();
        assert(values_below(ops, dfg.values@.len() as nat));
        assert(ops[0] == lhs && ops[1] == rhs);
    }
    let (a, ta) = match &dfg.values[lhs.0] {
        Value::NumericConstant { constant, typ } => (*constant, *typ),
        _ => {
            return Ok(None);
        },
    };
    let (b, tb) = match &dfg.values[rhs.0] {
        Value::NumericConstant { constant, typ } => (*constant, *typ),
        _ => {
            return Ok(None);
        },
    };
    let bits = match ta {
        Type::Unsigned(bits) => bits,
        _ => {
            return Ok(None);
        },
    };
    let limit = match limit_of(bits) {
        Some(l) => l,
        None => {
            return Ok(None);
        },
    };
    if ta != tb || a >= limit || b >= limit || dfg.results[i.0].len() != 1 {
        return Ok(None);
    }
    let x = match fold_checked(op, a, b, limit) {
        None => {
            return Ok(None);
        },
        Some(Err(e)) => {
            return Err(e);
        },
        Some(Ok(x)) => x,
    };
    let res = dfg.results[i.0][0];
    assert(res.0 < dfg.values@.len());
    let c = dfg.make_constant(x, ta);
    let rr = dfg.replace_value_uses(res, c);
    assert(rr is Ok);
    Ok(Some(c))
}

} // verus!
