use vstd::prelude::*;
use crate::ids::{BlockId, FunctionId, InstructionId, ValueId};
use crate::types::Type;

verus! {

/// Binary operators of the instruction set.
#[derive(Clone, Copy, Debug, PartialEq, Eq, Structural)]
pub enum BinaryOp {
    Add,
    Sub,
    Mul,
    Eq,
    Lt,
}

/// A value of the data flow graph and what produced it.
#[derive(Clone, Copy, Debug, PartialEq, Eq, Structural)]
pub enum Value {
    Param { block: BlockId, position: usize, typ: Type },
    InstructionResult { instruction: InstructionId, position: usize, typ: Type },
    NumericConstant { constant: u128, typ: Type },
    Function(FunctionId),
}

impl Value {
    pub open spec fn spec_type(self) -> Type {
        match self {
            Value::Param { typ, .. } => typ,
            Value::InstructionResult { typ, .. } => typ,
            Value::NumericConstant { typ, .. } => typ,
            Value::Function(_) => Type::Function,
        }
    }

    pub fn get_type(&self) -> (r: Type)
        ensures
            r == self.spec_type(),
    {
        match self {
            Value::Param { typ, .. } => *typ,
            Value::InstructionResult { typ, .. } => *typ,
            Value::NumericConstant { typ, .. } => *typ,
            Value::Function(_) => Type::Function,
        }
    }
}

/// A non-branching instruction.
#[derive(Debug)]
pub enum Instruction {
    Binary { op: BinaryOp, lhs: ValueId, rhs: ValueId },
    Not(ValueId),
    Call { func: ValueId, arguments: Vec<ValueId> },
}

/// The control transfer that ends a block.
#[derive(Debug)]
pub enum Terminator {
    Jmp { destination: BlockId, arguments: Vec<ValueId> },
    JmpIf { condition: ValueId, then_destination: BlockId, else_destination: BlockId },
    Return(Vec<ValueId>),
    Unreachable,
}

/// `s` with every `old` replaced by `new`.
pub open spec fn replace_seq(s: Seq<ValueId>, old: ValueId, new: ValueId) -> Seq<ValueId> {
    s.map_values(|v: ValueId| if v == old { new } else { v })
}

/// Replacing twice changes nothing more than replacing once.
pub proof fn lemma_replace_seq_idempotent(s: Seq<ValueId>, old: ValueId, new: ValueId)
    ensures
        replace_seq(replace_seq(s, old, new), old, new) == replace_seq(s, old, new),
{
    assert(replace_seq(replace_seq(s, old, new), old, new) =~= replace_seq(s, old, new));
}

/// Replaces `old` by `new` in a list of value ids.
pub fn replace_in_vec(v: &Vec<ValueId>, old: ValueId, new: ValueId) -> (r: Vec<ValueId>)
    ensures
        r@ == replace_seq(v@, old, new),
{
    let mut r: Vec<ValueId> = Vec::new();
    let mut i: usize = 0;
    while i < v.len()
        invariant
            i <= v.len(),
            r@ == replace_seq(v@.subrange(0, i as int), old, new),
        decreases v.len() - i,
    {
        let x = v[i];
        r.push(if x == old { new } else { x });
        i = i + 1;
        assert(r@ =~= replace_seq(v@.subrange(0, i as int), old, new));
    }
    assert(v@.subrange(0, i as int) =~= v@);
    r
}

impl Instruction {
    /// The operands, in order.
    pub open spec fn operands(&self) -> Seq<ValueId> {
        match self {
            Instruction::Binary { lhs, rhs, .. } => seq![*lhs, *rhs],
            Instruction::Not(v) => seq![*v],
            Instruction::Call { func, arguments } => seq![*func] + arguments@,
        }
    }

    /// The operands, in order.
    pub fn operands_vec(&self) -> (r: Vec<ValueId>)
        ensures
            r@ == self.operands(),
    {
        match self {
            Instruction::Binary { lhs, rhs, .. } => {
                let r = vec![*lhs, *rhs];
                assert(r@ =~= self.operands());
                r
            },
            Instruction::Not(v) => {
                let r = vec![*v];
                assert(r@ =~= self.operands());
                r
            },
            Instruction::Call { func, arguments } => {
                let mut r = vec![*func];
                let mut i: usize = 0;
                while i < arguments.len()
                    invariant
                        i <= arguments@.len(),
                        r@ == seq![*func] + arguments@.subrange(0, i as int),
                    decreases arguments@.len() - i,
                {
                    r.push(arguments[i]);
                    i = i + 1;
                    assert(r@ =~= seq![*func] + arguments@.subrange(0, i as int));
                }
                assert(arguments@.subrange(0, i as int) =~= arguments@);
                r
            },
        }
    }

    /// Same kind of instruction, with the same operator.
    pub open spec fn same_shape(&self, other: &Instruction) -> bool {
        match (self, other) {
            (Instruction::Binary { op: a, .. }, Instruction::Binary { op: b, .. }) => a == b,
            (Instruction::Not(_), Instruction::Not(_)) => true,
            (Instruction::Call { arguments: a, .. }, Instruction::Call { arguments: b, .. }) => a@.len() == b@.len(),
            _ => false,
        }
    }

    /// The instruction with `old` replaced by `new` among its operands.
    pub fn replace_value(&self, old: ValueId, new: ValueId) -> (r: Instruction)
        ensures
            r.same_shape(self),
            r.operands() == replace_seq(self.operands(), old, new),
    {
        let f = |x: ValueId| -> (y: ValueId)
            ensures
                y == (if x == old { new } else { x }),
            { if x == old { new } else { x } };
        match self {
            Instruction::Binary { op, lhs, rhs } => {
                let r = Instruction::Binary { op: *op, lhs: f(*lhs), rhs: f(*rhs) };
                assert(r.operands() =~= replace_seq(self.operands(), old, new));
                r
            },
            Instruction::Not(v) => {
                let r = Instruction::Not(f(*v));
                assert(r.operands() =~= replace_seq(self.operands(), old, new));
                r
            },
            Instruction::Call { func, arguments } => {
                let r = Instruction::Call { func: f(*func), arguments: replace_in_vec(arguments, old, new) };
                assert(r.operands() =~= replace_seq(self.operands(), old, new));
                r
            },
        }
    }
}

impl Terminator {
    /// The values that the terminator reads, in order.
    pub open spec fn operands(&self) -> Seq<ValueId> {
        match self {
            Terminator::Jmp { arguments, .. } => arguments@,
            Terminator::JmpIf { condition, .. } => seq![*condition],
            Terminator::Return(vs) => vs@,
            Terminator::Unreachable => seq![],
        }
    }

    /// The blocks that control may pass to, in order.
    pub open spec fn destinations(&self) -> Seq<BlockId> {
        match self {
            Terminator::Jmp { destination, .. } => seq![*destination],
            Terminator::JmpIf { then_destination, else_destination, .. } => seq![*then_destination, *else_destination],
            _ => seq![],
        }
    }

    pub open spec fn same_shape(&self, other: &Terminator) -> bool {
        &&& self.destinations() == other.destinations()
        &&& match (self, other) {
            (Terminator::Jmp { .. }, Terminator::Jmp { .. }) => true,
            (Terminator::JmpIf { .. }, Terminator::JmpIf { .. }) => true,
            (Terminator::Return(_), Terminator::Return(_)) => true,
            (Terminator::Unreachable, Terminator::Unreachable) => true,
            _ => false,
        }
    }

    pub fn destinations_vec(&self) -> (r: Vec<BlockId>)
        ensures
            r@ == self.destinations(),
    {
        match self {
            Terminator::Jmp { destination, .. } => {
                let r = vec![*destination];
                assert(r@ =~= self.destinations());
                r
            },
            Terminator::JmpIf { then_destination, else_destination, .. } => {
                let r = vec![*then_destination, *else_destination];
                assert(r@ =~= self.destinations());
                r
            },
            _ => {
                let r: Vec<BlockId> = Vec::new();
                assert(r@ =~= self.destinations());
                r
            },
        }
    }

    /// The terminator with `old` replaced by `new` among its operands.
    pub fn replace_value(&self, old: ValueId, new: ValueId) -> (r: Terminator)
        ensures
            r.same_shape(self),
            r.operands() == replace_seq(self.operands(), old, new),
    {
        match self {
            Terminator::Jmp { destination, arguments } => {
                Terminator::Jmp { destination: *destination, arguments: replace_in_vec(arguments, old, new) }
            },
            Terminator::JmpIf { condition, then_destination, else_destination } => {
                let c = if *condition == old { new } else { *condition };
                let r = Terminator::JmpIf { condition: c, then_destination: *then_destination, else_destination: *else_destination };
                assert(r.operands() =~= replace_seq(self.operands(), old, new));
                r
            },
            Terminator::Return(vs) => Terminator::Return(replace_in_vec(vs, old, new)),
            Terminator::Unreachable => {
                let r = Terminator::Unreachable;
                assert(r.operands() =~= replace_seq(self.operands(), old, new));
                r
            },
        }
    }
}

} // verus!
