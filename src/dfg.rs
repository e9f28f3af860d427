use vstd::prelude::*;
use crate::ids::{BlockId, InstructionId, ValueId, values_below, lemma_values_below_mono, copy_values};
use crate::instruction::{Instruction, Terminator, Value, replace_seq, lemma_replace_seq_idempotent};
use crate::types::Type;

verus! {

/// Violations of the IR's construction rules.
#[derive(Clone, Copy, Debug, PartialEq, Eq, Structural)]
pub enum IrError {
    InvalidIdentifier,
    BlockAlreadyTerminated,
    TypeMismatch,
    BranchToEntry,
    ArithmeticOverflow,
}

/// A basic block: parameters, straight-line instructions, and at most one terminator.
#[derive(Debug)]
pub struct BasicBlock {
    pub parameters: Vec<ValueId>,
    pub instructions: Vec<InstructionId>,
    pub terminator: Option<Terminator>,
}

/// Owns the values, instructions and blocks of one function.
#[derive(Debug)]
pub struct DataFlowGraph {
    pub values: Vec<Value>,
    pub instructions: Vec<Instruction>,
    pub results: Vec<Vec<ValueId>>,
    pub instruction_blocks: Vec<BlockId>,
    pub blocks: Vec<BasicBlock>,
}

/// Every block id of `s` indexes a table of `n` blocks.
pub open spec fn blocks_below(s: Seq<BlockId>, n: nat) -> bool {
    forall|k: int| 0 <= k < s.len() ==> (#[trigger] s[k]).0 < n
}

pub open spec fn instructions_below(s: Seq<InstructionId>, n: nat) -> bool {
    forall|k: int| 0 <= k < s.len() ==> (#[trigger] s[k]).0 < n
}

/// The producer that a value names exists.
pub open spec fn value_ok(v: Value, ni: nat, nb: nat) -> bool {
    match v {
        Value::Param { block, .. } => block.0 < nb,
        Value::InstructionResult { instruction, .. } => instruction.0 < ni,
        _ => true,
    }
}

pub open spec fn terminator_ok(t: Terminator, nv: nat, nb: nat) -> bool {
    values_below(t.operands(), nv) && blocks_below(t.destinations(), nb)
}

pub open spec fn block_ok(b: BasicBlock, nv: nat, ni: nat, nb: nat) -> bool {
    &&& values_below(b.parameters@, nv)
    &&& instructions_below(b.instructions@, ni)
    &&& (b.terminator matches Some(t) ==> terminator_ok(t, nv, nb))
}

pub proof fn lemma_block_ok_mono(b: BasicBlock, nv: nat, ni: nat, nb: nat, nv2: nat, ni2: nat, nb2: nat)
    requires
        block_ok(b, nv, ni, nb),
        nv <= nv2,
        ni <= ni2,
        nb <= nb2,
    ensures
        block_ok(b, nv2, ni2, nb2),
{
    lemma_values_below_mono(b.parameters@, nv, nv2);
    if let Some(t) = b.terminator {
        lemma_values_below_mono(t.operands(), nv, nv2);
    }
}

/// The values that an instruction inserted as number `ni` gets, one for each result type.
pub open spec fn result_values(ni: nat, types: Seq<Type>) -> Seq<Value> {
    Seq::new(types.len(), |k: int| Value::InstructionResult { instruction: InstructionId(ni as usize), position: k as usize, typ: types[k] })
}

/// The ids `start`, `start + 1`, ... of `n` consecutive values.
pub open spec fn fresh_ids(start: nat, n: nat) -> Seq<ValueId> {
    Seq::new(n, |k: int| ValueId((start + k) as usize))
}

impl BasicBlock {
    pub open spec fn is_terminated(&self) -> bool {
        self.terminator.is_some()
    }
}

impl DataFlowGraph {
    pub open spec fn wf(&self) -> bool {
        let nv = self.values@.len();
        let ni = self.instructions@.len();
        let nb = self.blocks@.len();
        &&& self.results@.len() == ni
        &&& self.instruction_blocks@.len() == ni
        &&& forall|v: int| 0 <= v < nv ==> value_ok(#[trigger] self.values@[v], ni, nb)
        &&& forall|i: int| 0 <= i < ni ==> values_below(#[trigger] self.instructions@[i].operands(), nv)
        &&& forall|i: int| 0 <= i < ni ==> values_below(#[trigger] self.results@[i]@, nv)
        &&& forall|i: int| 0 <= i < ni ==> (#[trigger] self.instruction_blocks@[i]).0 < nb
        &&& forall|b: int| 0 <= b < nb ==> block_ok(#[trigger] self.blocks@[b], nv, ni, nb)
    }

    pub open spec fn valid_value(&self, v: ValueId) -> bool {
        v.0 < self.values@.len()
    }

    pub open spec fn valid_block(&self, b: BlockId) -> bool {
        b.0 < self.blocks@.len()
    }

    pub open spec fn spec_value_type(&self, v: ValueId) -> Type {
        self.values@[v.0 as int].spec_type()
    }

    /// The argument types of a binary instruction agree.
    pub open spec fn operand_types_agree(&self, ins: Instruction) -> bool {
        match ins {
            Instruction::Binary { lhs, rhs, .. } => self.spec_value_type(lhs) == self.spec_value_type(rhs),
            _ => true,
        }
    }

    /// An empty graph.
    pub fn new() -> (r: DataFlowGraph)
        ensures
            r.wf(),
            r.values@.len() == 0,
            r.instructions@.len() == 0,
            r.blocks@.len() == 0,
    {
        DataFlowGraph {
            values: Vec::new(),
            instructions: Vec::new(),
            results: Vec::new(),
            instruction_blocks: Vec::new(),
            blocks: Vec::new(),
        }
    }

    pub fn num_blocks(&self) -> (r: usize)
        ensures
            r == self.blocks@.len(),
    {
        self.blocks.len()
    }

    pub fn num_values(&self) -> (r: usize)
        ensures
            r == self.values@.len(),
    {
        self.values.len()
    }

    /// Adds an empty block.
    pub fn make_block(&mut self) -> (r: BlockId)
        requires
            old(self).wf(),
        ensures
            final(self).wf(),
            r.0 == old(self).blocks@.len(),
            final(self).blocks@.len() == old(self).blocks@.len() + 1,
            forall|b: int| 0 <= b < old(self).blocks@.len() ==> final(self).blocks@[b] == old(self).blocks@[b],
            final(self).blocks@[r.0 as int].parameters@.len() == 0,
            final(self).blocks@[r.0 as int].instructions@.len() == 0,
            final(self).blocks@[r.0 as int].terminator.is_none(),
            final(self).values == old(self).values,
            final(self).instructions == old(self).instructions,
            final(self).results == old(self).results,
    {
        let ghost g = *self;
        let r = BlockId(self.blocks.len());
        self.blocks.push(BasicBlock { parameters: Vec::new(), instructions: Vec::new(), terminator: None });
        proof {
            let nv = g.values@.len();
            let ni = g.instructions@.len();
            let nb = g.blocks@.len();
            assert forall|b: int| 0 <= b < self.blocks@.len() implies block_ok(#[trigger] self.blocks@[b], nv, ni, nb + 1) by {
                if b < nb {
                    assert(self.blocks@[b] == g.blocks@[b]);
                    lemma_block_ok_mono(g.blocks@[b], nv, ni, nb, nv, ni, nb + 1);
                }
            }
        }
        r
    }

    /// Adds a value of type `typ` to the end of a block's parameters.
    pub fn add_block_parameter(&mut self, block: BlockId, typ: Type) -> (r: Result<ValueId, IrError>)
        requires
            old(self).wf(),
        ensures
            final(self).wf(),
            !old(self).valid_block(block) <==> r == Err::<ValueId, IrError>(IrError::InvalidIdentifier),
            old(self).valid_block(block) <==> r is Ok,
            !old(self).valid_block(block) ==> *final(self) == *old(self),
            r matches Ok(v) ==> {
                &&& v.0 == old(self).values@.len()
                &&& final(self).values@ == old(self).values@.push(
                    Value::Param { block, position: old(self).blocks@[block.0 as int].parameters@.len() as usize, typ })
                &&& final(self).blocks@ == old(self).blocks@.update(block.0 as int, BasicBlock {
                    parameters: final(self).blocks@[block.0 as int].parameters,
                    instructions: old(self).blocks@[block.0 as int].instructions,
                    terminator: old(self).blocks@[block.0 as int].terminator,
                })
                &&& final(self).blocks@[block.0 as int].parameters@ == old(self).blocks@[block.0 as int].parameters@.push(v)
                &&& final(self).instructions == old(self).instructions
                &&& final(self).results == old(self).results
            },
    {
        if block.0 >= self.blocks.len() {
            return Err(IrError::InvalidIdentifier);
        }
        let ghost g = *self;
        let v = ValueId(self.values.len());
        let position = self.blocks[block.0].parameters.len();
        self.values.push(Value::Param { block, position, typ });
        let b = self.blocks.remove(block.0);
        let mut parameters = b.parameters;
        parameters.push(v);
        let nb = BasicBlock { parameters, instructions: b.instructions, terminator: b.terminator };
        self.blocks.insert(block.0, nb);
        proof {
            assert(self.blocks@ =~= g.blocks@.update(block.0 as int, nb));
            let nv = g.values@.len();
            let ni = g.instructions@.len();
            let n = g.blocks@.len();
            assert forall|x: int| 0 <= x < self.blocks@.len() implies block_ok(#[trigger] self.blocks@[x], nv + 1, ni, n) by {
                if x != block.0 {
                    lemma_block_ok_mono(g.blocks@[x], nv, ni, n, nv + 1, ni, n);
                } else {
                    lemma_block_ok_mono(g.blocks@[x], nv, ni, n, nv + 1, ni, n);
                    assert(self.blocks@[x].parameters@ == g.blocks@[x].parameters@.push(v));
                }
            }
            assert forall|i: int| 0 <= i < ni implies values_below(#[trigger] self.instructions@[i].operands(), nv + 1) by {
                lemma_values_below_mono(g.instructions@[i].operands(), nv, nv + 1);
            }
            assert forall|i: int| 0 <= i < ni implies values_below(#[trigger] self.results@[i]@, nv + 1) by {
                lemma_values_below_mono(g.results@[i]@, nv, nv + 1);
            }
            assert forall|x: int| 0 <= x < nv + 1 implies value_ok(#[trigger] self.values@[x], ni, n) by {
                if x < nv {
                    assert(self.values@[x] == g.values@[x]);
                }
            }
        }
        Ok(v)
    }

    /// Adds a numeric constant.
    pub fn make_constant(&mut self, constant: u128, typ: Type) -> (r: ValueId)
        requires
            old(self).wf(),
        ensures
            final(self).wf(),
            r.0 == old(self).values@.len(),
            final(self).values@ == old(self).values@.push(Value::NumericConstant { constant, typ }),
            final(self).instructions == old(self).instructions,
            final(self).results == old(self).results,
            final(self).blocks == old(self).blocks,
            final(self).instruction_blocks == old(self).instruction_blocks,
    {
        let ghost g = *self;
        let r = ValueId(self.values.len());
        self.values.push(Value::NumericConstant { constant, typ });
        proof { self.lemma_grow_values(g); }
        r
    }

    /// Adds a copy of a constant or function reference of another graph.
    pub fn make_constant_value(&mut self, v: Value) -> (r: ValueId)
        requires
            old(self).wf(),
            v matches Value::NumericConstant { .. } || v matches Value::Function(_),
        ensures
            final(self).wf(),
            r.0 == old(self).values@.len(),
            final(self).values@ == old(self).values@.push(v),
            final(self).instructions == old(self).instructions,
            final(self).results == old(self).results,
            final(self).blocks == old(self).blocks,
            final(self).instruction_blocks == old(self).instruction_blocks,
    {
        let ghost g = *self;
        let r = ValueId(self.values.len());
        self.values.push(v);
        proof { self.lemma_grow_values(g); }
        r
    }

    /// Pushing values keeps a well-formed graph well formed.
    proof fn lemma_grow_values(&self, g: DataFlowGraph)
        requires
            g.wf(),
            g.values@.len() <= self.values@.len(),
            forall|x: int| 0 <= x < g.values@.len() ==> self.values@[x] == g.values@[x],
            forall|x: int| g.values@.len() <= x < self.values@.len() ==> value_ok(#[trigger] self.values@[x], g.instructions@.len() as nat, g.blocks@.len() as nat),
            self.instructions == g.instructions,
            self.results == g.results,
            self.blocks == g.blocks,
            self.instruction_blocks == g.instruction_blocks,
        ensures
            self.wf(),
    {
        let nv = g.values@.len();
        let nv2 = self.values@.len();
        let ni = g.instructions@.len();
        let nb = g.blocks@.len();
        assert forall|b: int| 0 <= b < nb implies block_ok(#[trigger] self.blocks@[b], nv2, ni, nb) by {
            lemma_block_ok_mono(g.blocks@[b], nv, ni, nb, nv2, ni, nb);
        }
        assert forall|i: int| 0 <= i < ni implies values_below(#[trigger] self.instructions@[i].operands(), nv2) by {
            lemma_values_below_mono(g.instructions@[i].operands(), nv, nv2);
        }
        assert forall|i: int| 0 <= i < ni implies values_below(#[trigger] self.results@[i]@, nv2) by {
            lemma_values_below_mono(g.results@[i]@, nv, nv2);
        }
        assert forall|x: int| 0 <= x < nv2 implies value_ok(#[trigger] self.values@[x], ni, nb) by {
            if x < nv {
                assert(self.values@[x] == g.values@[x]);
            }
        }
    }

    /// The type of a value.
    pub fn value_type(&self, v: ValueId) -> (r: Result<Type, IrError>)
        ensures
            self.valid_value(v) ==> r == Ok::<Type, IrError>(self.spec_value_type(v)),
            !self.valid_value(v) ==> r == Err::<Type, IrError>(IrError::InvalidIdentifier),
    {
        if v.0 < self.values.len() {
            Ok(self.values[v.0].get_type())
        } else {
            Err(IrError::InvalidIdentifier)
        }
    }

    /// The result values of an instruction, in order.
    pub fn instruction_results(&self, i: InstructionId) -> (r: Result<Vec<ValueId>, IrError>)
        requires
            self.wf(),
        ensures
            i.0 < self.instructions@.len() ==> (r matches Ok(vs) && vs@ == self.results@[i.0 as int]@),
            i.0 >= self.instructions@.len() ==> r == Err::<Vec<ValueId>, IrError>(IrError::InvalidIdentifier),
    {
        if i.0 < self.instructions.len() {
            Ok(copy_values(&self.results[i.0]))
        } else {
            Err(IrError::InvalidIdentifier)
        }
    }

    /// Whether every id of `vs` names a value of this graph.
    pub fn all_valid(&self, vs: &Vec<ValueId>) -> (r: bool)
        ensures
            r == values_below(vs@, self.values@.len()),
    {
        let mut i: usize = 0;
        while i < vs.len()
            invariant
                i <= vs.len(),
                forall|k: int| 0 <= k < i ==> (#[trigger] vs@[k]).0 < self.values@.len(),
            decreases vs.len() - i,
        {
            if vs[i].0 >= self.values.len() {
                return false;
            }
            i = i + 1;
        }
        true
    }

    fn instruction_operands_valid(&self, ins: &Instruction) -> (r: bool)
        ensures
            r == values_below(ins.operands(), self.values@.len()),
    {
        let n = self.values.len();
        match ins {
            Instruction::Binary { lhs, rhs, .. } => {
                assert(ins.operands().len() == 2 && ins.operands()[0] == *lhs && ins.operands()[1] == *rhs);
                lhs.0 < n && rhs.0 < n
            },
            Instruction::Not(v) => {
                assert(ins.operands().len() == 1 && ins.operands()[0] == *v);
                v.0 < n
            },
            Instruction::Call { func, arguments } => {
                let ok = self.all_valid(arguments);
                let ghost ops = ins.operands();
                assert(ops =~= seq![*func] + arguments@);
                if func.0 < n && ok {
                    assert forall|k: int| 0 <= k < ops.len() implies (#[trigger] ops[k]).0 < n by {
                        if k > 0 {
                            assert(ops[k] == arguments@[k - 1]);
                        }
                    }
                    true
                } else {
                    if func.0 >= n {
                        assert(ops[0] == *func);
                    } else {
                        proof {
                        assert(exists|k: int| 0 <= k < arguments@.len() && (#[trigger] arguments@[k]).0 >= n);
                        let ghost k = choose|k: int| 0 <= k < arguments@.len() && (#[trigger] arguments@[k]).0 >= n;
                        assert(ops[k + 1] == arguments@[k]);
                        }
                    }
                    false
                }
            },
        }
    }
}

/// Copies a list of instruction ids.
pub fn copy_instruction_ids(v: &Vec<InstructionId>) -> (r: Vec<InstructionId>)
    ensures
        r@ == v@,
{
    crate::ids::copy_vec(v)
}

/// Replacing ids by a valid id keeps every id valid.
pub proof fn lemma_replace_keeps_below(s: Seq<ValueId>, a: ValueId, b: ValueId, n: nat)
    requires
        values_below(s, n),
        b.0 < n,
    ensures
        values_below(replace_seq(s, a, b), n),
{
    let t = replace_seq(s, a, b);
    assert forall|k: int| 0 <= k < t.len() implies (#[trigger] t[k]).0 < n by {
        assert(s[k].0 < n);
    }
}

/// The operands of a block's terminator; none where there is no terminator.
pub open spec fn terminator_operands(t: Option<Terminator>) -> Seq<ValueId> {
    match t {
        Some(t) => t.operands(),
        None => seq![],
    }
}

/// `new` is `old` with `a` replaced by `b` among the operands, if there is a terminator.
pub open spec fn terminator_replaced(new: Option<Terminator>, old: Option<Terminator>, a: ValueId, b: ValueId) -> bool {
    match (new, old) {
        (None, None) => true,
        (Some(t2), Some(t1)) => t2.same_shape(&t1) && t2.operands() == replace_seq(t1.operands(), a, b),
        _ => false,
    }
}

impl DataFlowGraph {
    /// Whether a terminator names only values and blocks of this graph.
    pub fn terminator_valid(&self, t: &Terminator) -> (r: bool)
        ensures
            r == terminator_ok(*t, self.values@.len() as nat, self.blocks@.len() as nat),
    {
        let ds = t.destinations_vec();
        let mut i: usize = 0;
        while i < ds.len()
            invariant
                i <= ds.len(),
                ds@ == t.destinations(),
                forall|k: int| 0 <= k < i ==> (#[trigger] ds@[k]).0 < self.blocks@.len(),
            decreases ds.len() - i,
        {
            if ds[i].0 >= self.blocks.len() {
                return false;
            }
            i = i + 1;
        }
        match t {
            Terminator::Jmp { arguments, .. } => self.all_valid(arguments),
            Terminator::JmpIf { condition, .. } => {
                assert(t.operands().len() == 1 && t.operands()[0] == *condition);
                condition.0 < self.values.len()
            },
            Terminator::Return(vs) => self.all_valid(vs),
            Terminator::Unreachable => true,
        }
    }

    /// Appends an instruction to a block that has no terminator yet, with one new value per result type.
    pub fn insert_instruction(&mut self, block: BlockId, instruction: Instruction, result_types: Vec<Type>) -> (r: Result<Vec<ValueId>, IrError>)
        requires
            old(self).wf(),
        ensures
            final(self).wf(),
            r matches Err(_) ==> *final(self) == *old(self),
            (!old(self).valid_block(block) || !values_below(instruction.operands(), old(self).values@.len()))
                <==> r == Err::<Vec<ValueId>, IrError>(IrError::InvalidIdentifier),
            (old(self).valid_block(block) && values_below(instruction.operands(), old(self).values@.len())
                && old(self).blocks@[block.0 as int].is_terminated())
                <==> r == Err::<Vec<ValueId>, IrError>(IrError::BlockAlreadyTerminated),
            (old(self).valid_block(block) && values_below(instruction.operands(), old(self).values@.len())
                && !old(self).blocks@[block.0 as int].is_terminated() && !old(self).operand_types_agree(instruction))
                <==> r == Err::<Vec<ValueId>, IrError>(IrError::TypeMismatch),
            (old(self).valid_block(block) && values_below(instruction.operands(), old(self).values@.len())
                && !old(self).blocks@[block.0 as int].is_terminated() && old(self).operand_types_agree(instruction))
                <==> r is Ok,
            r matches Ok(vs) ==> {
                let ni = old(self).instructions@.len();
                let ob = old(self).blocks@[block.0 as int];
                let fb = final(self).blocks@[block.0 as int];
                &&& vs@ == fresh_ids(old(self).values@.len() as nat, result_types@.len() as nat)
                &&& final(self).values@ == old(self).values@ + result_values(ni, result_types@)
                &&& final(self).instructions@ == old(self).instructions@.push(instruction)
                &&& final(self).results@.len() == ni + 1
                &&& final(self).results@.subrange(0, ni as int) == old(self).results@
                &&& final(self).results@[ni as int]@ == vs@
                &&& final(self).instruction_blocks@ == old(self).instruction_blocks@.push(block)
                &&& final(self).blocks@.len() == old(self).blocks@.len()
                &&& forall|x: int| 0 <= x < old(self).blocks@.len() && x != block.0 ==> final(self).blocks@[x] == old(self).blocks@[x]
                &&& fb.parameters == ob.parameters
                &&& fb.terminator == ob.terminator
                &&& fb.instructions@ == ob.instructions@.push(InstructionId(ni as usize))
            },
    {
        if block.0 >= self.blocks.len() || !self.instruction_operands_valid(&instruction) {
            return Err(IrError::InvalidIdentifier);
        }
        if self.blocks[block.0].terminator.is_some() {
            return Err(IrError::BlockAlreadyTerminated);
        }
        match &instruction {
            Instruction::Binary { lhs, rhs, .. } => {
                if self.values[lhs.0].get_type() != self.values[rhs.0].get_type() {
                    return Err(IrError::TypeMismatch);
                }
            },
            _ => {},
        }
        let ghost g = *self;
        let ni = self.instructions.len();
        let nv = self.values.len();
        let mut vs: Vec<ValueId> = Vec::new();
        let mut k: usize = 0;
        while k < result_types.len()
            invariant
                k <= result_types@.len(),
                ni == g.instructions@.len(),
                nv == g.values@.len(),
                self.values@ == g.values@ + result_values(ni as nat, result_types@.subrange(0, k as int)),
                vs@ == fresh_ids(nv as nat, k as nat),
                self.instructions == g.instructions,
                self.results == g.results,
                self.blocks == g.blocks,
                self.instruction_blocks == g.instruction_blocks,
            decreases result_types.len() - k,
        {
            let v = ValueId(self.values.len());
            self.values.push(Value::InstructionResult { instruction: InstructionId(ni), position: k, typ: result_types[k] });
            vs.push(v);
            k = k + 1;
            assert(self.values@ =~= g.values@ + result_values(ni as nat, result_types@.subrange(0, k as int)));
            assert(vs@ =~= fresh_ids(nv as nat, k as nat));
        }
        assert(result_types@.subrange(0, k as int) =~= result_types@);
        self.instructions.push(instruction);
        self.results.push(copy_values(&vs));
        self.instruction_blocks.push(block);
        let b = self.blocks.remove(block.0);
        let mut instrs = b.instructions;
        instrs.push(InstructionId(ni));
        let nb = BasicBlock { parameters: b.parameters, instructions: instrs, terminator: b.terminator };
        self.blocks.insert(block.0, nb);
        proof {
            assert(self.blocks@ =~= g.blocks@.update(block.0 as int, nb));
            assert(self.results@.subrange(0, ni as int) =~= g.results@);
            let nv2 = self.values@.len();
            let n = g.blocks@.len();
            assert forall|x: int| 0 <= x < n implies block_ok(#[trigger] self.blocks@[x], nv2, (ni + 1) as nat, n) by {
                lemma_block_ok_mono(g.blocks@[x], nv as nat, ni as nat, n, nv2, (ni + 1) as nat, n);
            }
            assert forall|i: int| 0 <= i < ni + 1 implies values_below(#[trigger] self.instructions@[i].operands(), nv2) by {
                if i < ni {
                    lemma_values_below_mono(g.instructions@[i].operands(), nv as nat, nv2);
                } else {
                    lemma_values_below_mono(instruction.operands(), nv as nat, nv2);
                }
            }
            assert forall|i: int| 0 <= i < ni + 1 implies values_below(#[trigger] self.results@[i]@, nv2) by {
                if i < ni {
                    assert(self.results@[i] == g.results@[i]);
                    lemma_values_below_mono(g.results@[i]@, nv as nat, nv2);
                }
            }
            assert forall|i: int| 0 <= i < ni + 1 implies (#[trigger] self.instruction_blocks@[i]).0 < n by {
                if i < ni {
                    assert(self.instruction_blocks@[i] == g.instruction_blocks@[i]);
                }
            }
            assert forall|x: int| 0 <= x < nv2 implies value_ok(#[trigger] self.values@[x], (ni + 1) as nat, n as nat) by {
                if x < nv {
                    assert(self.values@[x] == g.values@[x]);
                } else {
                    assert(self.values@[x] == result_values(ni as nat, result_types@)[x - nv]);
                }
            }
        }
        Ok(vs)
    }

    /// Ends a block with a terminator.
    pub fn set_terminator(&mut self, block: BlockId, terminator: Terminator) -> (r: Result<(), IrError>)
        requires
            old(self).wf(),
        ensures
            final(self).wf(),
            r matches Err(_) ==> *final(self) == *old(self),
            (!old(self).valid_block(block) || !terminator_ok(terminator, old(self).values@.len() as nat, old(self).blocks@.len() as nat))
                <==> r == Err::<(), IrError>(IrError::InvalidIdentifier),
            (old(self).valid_block(block) && terminator_ok(terminator, old(self).values@.len() as nat, old(self).blocks@.len() as nat)
                && old(self).blocks@[block.0 as int].is_terminated())
                <==> r == Err::<(), IrError>(IrError::BlockAlreadyTerminated),
            (old(self).valid_block(block) && terminator_ok(terminator, old(self).values@.len() as nat, old(self).blocks@.len() as nat)
                && !old(self).blocks@[block.0 as int].is_terminated())
                <==> r is Ok,
            r matches Ok(_) ==> {
                let ob = old(self).blocks@[block.0 as int];
                &&& final(self).blocks@ == old(self).blocks@.update(block.0 as int,
                    BasicBlock { parameters: ob.parameters, instructions: ob.instructions, terminator: Some(terminator) })
                &&& final(self).values == old(self).values
                &&& final(self).instructions == old(self).instructions
                &&& final(self).results == old(self).results
                &&& final(self).instruction_blocks == old(self).instruction_blocks
            },
    {
        if block.0 >= self.blocks.len() || !self.terminator_valid(&terminator) {
            return Err(IrError::InvalidIdentifier);
        }
        if self.blocks[block.0].terminator.is_some() {
            return Err(IrError::BlockAlreadyTerminated);
        }
        let ghost g = *self;
        let b = self.blocks.remove(block.0);
        let nb = BasicBlock { parameters: b.parameters, instructions: b.instructions, terminator: Some(terminator) };
        self.blocks.insert(block.0, nb);
        assert(self.blocks@ =~= g.blocks@.update(block.0 as int, nb));
        Ok(())
    }

    /// `self` is `before` with every use of `a` by an instruction or a terminator turned into a use of `b`.
    pub open spec fn uses_replaced(&self, before: &DataFlowGraph, a: ValueId, b: ValueId) -> bool {
        &&& self.values == before.values
        &&& self.results == before.results
        &&& self.instruction_blocks == before.instruction_blocks
        &&& self.instructions@.len() == before.instructions@.len()
        &&& forall|i: int| 0 <= i < before.instructions@.len() ==> {
            &&& (#[trigger] self.instructions@[i]).same_shape(&before.instructions@[i])
            &&& self.instructions@[i].operands() == replace_seq(before.instructions@[i].operands(), a, b)
        }
        &&& self.blocks@.len() == before.blocks@.len()
        &&& forall|x: int| 0 <= x < before.blocks@.len() ==> {
            &&& (#[trigger] self.blocks@[x]).parameters@ == before.blocks@[x].parameters@
            &&& self.blocks@[x].instructions@ == before.blocks@[x].instructions@
            &&& terminator_replaced(self.blocks@[x].terminator, before.blocks@[x].terminator, a, b)
        }
    }

    /// Makes every instruction and terminator that reads `a` read `b` instead.
    pub fn replace_value_uses(&mut self, a: ValueId, b: ValueId) -> (r: Result<(), IrError>)
        requires
            old(self).wf(),
        ensures
            final(self).wf(),
            r matches Err(_) ==> *final(self) == *old(self),
            (!old(self).valid_value(a) || !old(self).valid_value(b)) <==> r == Err::<(), IrError>(IrError::InvalidIdentifier),
            (old(self).valid_value(a) && old(self).valid_value(b)) <==> r is Ok,
            r matches Ok(_) ==> final(self).uses_replaced(old(self), a, b),
    {
        if a.0 >= self.values.len() || b.0 >= self.values.len() {
            return Err(IrError::InvalidIdentifier);
        }
        let ghost g = *self;
        let mut instrs: Vec<Instruction> = Vec::new();
        let mut i: usize = 0;
        while i < self.instructions.len()
            invariant
                i <= self.instructions@.len(),
                *self == g,
                instrs@.len() == i,
                forall|j: int| 0 <= j < i ==> {
                    &&& (#[trigger] instrs@[j]).same_shape(&g.instructions@[j])
                    &&& instrs@[j].operands() == replace_seq(g.instructions@[j].operands(), a, b)
                },
            decreases self.instructions@.len() - i,
        {
            let ins = self.instructions[i].replace_value(a, b);
            instrs.push(ins);
            i = i + 1;
        }
        let mut blocks: Vec<BasicBlock> = Vec::new();
        let mut x: usize = 0;
        while x < self.blocks.len()
            invariant
                x <= self.blocks@.len(),
                *self == g,
                blocks@.len() == x,
                forall|j: int| 0 <= j < x ==> {
                    &&& (#[trigger] blocks@[j]).parameters@ == g.blocks@[j].parameters@
                    &&& blocks@[j].instructions@ == g.blocks@[j].instructions@
                    &&& terminator_replaced(blocks@[j].terminator, g.blocks@[j].terminator, a, b)
                },
            decreases self.blocks@.len() - x,
        {
            let ob = &self.blocks[x];
            let terminator = match &ob.terminator {
                Some(t) => Some(t.replace_value(a, b)),
                None => None,
            };
            blocks.push(BasicBlock {
                parameters: copy_values(&ob.parameters),
                instructions: copy_instruction_ids(&ob.instructions),
                terminator,
            });
            x = x + 1;
        }
        self.instructions = instrs;
        self.blocks = blocks;
        proof {
            let nv = g.values@.len();
            let ni = g.instructions@.len();
            let n = g.blocks@.len();
            assert forall|i: int| 0 <= i < ni implies values_below(#[trigger] self.instructions@[i].operands(), nv) by {
                lemma_replace_keeps_below(g.instructions@[i].operands(), a, b, nv as nat);
            }
            assert forall|y: int| 0 <= y < n implies block_ok(#[trigger] self.blocks@[y], nv, ni, n) by {
                assert(block_ok(g.blocks@[y], nv, ni, n));
                if let Some(t) = g.blocks@[y].terminator {
                    lemma_replace_keeps_below(t.operands(), a, b, nv as nat);
                }
            }
        }
        Ok(())
    }
}

impl DataFlowGraph {
    /// Every block ends in its terminator: the form of a finished function.
    pub open spec fn all_terminated(&self) -> bool {
        forall|b: int| 0 <= b < self.blocks@.len() ==> (#[trigger] self.blocks@[b]).is_terminated()
    }

    /// Whether every block has its terminator.
    pub fn is_finished(&self) -> (r: bool)
        ensures
            r == self.all_terminated(),
    {
        let mut b: usize = 0;
        while b < self.blocks.len()
            invariant
                b <= self.blocks@.len(),
                forall|x: int| 0 <= x < b ==> (#[trigger] self.blocks@[x]).is_terminated(),
            decreases self.blocks@.len() - b,
        {
            if self.blocks[b].terminator.is_none() {
                return false;
            }
            b = b + 1;
        }
        true
    }
}

/// After replacing the uses of `a` by `b`, every operand position that held `a` holds `b`,
/// no instruction or terminator reads `a` any more (unless `a` is `b`), and replacing again changes nothing.
pub proof fn lemma_replace_uses_law(before: DataFlowGraph, after: DataFlowGraph, again: DataFlowGraph, a: ValueId, b: ValueId)
    requires
        after.uses_replaced(&before, a, b),
        again.uses_replaced(&after, a, b),
    ensures
        forall|i: int, k: int| 0 <= i < before.instructions@.len() && 0 <= k < before.instructions@[i].operands().len()
            && #[trigger] before.instructions@[i].operands()[k] == a ==> after.instructions@[i].operands()[k] == b,
        a != b ==> forall|i: int| 0 <= i < after.instructions@.len() ==> !(#[trigger] after.instructions@[i]).operands().contains(a),
        a != b ==> forall|x: int| 0 <= x < after.blocks@.len() ==>
            ((#[trigger] after.blocks@[x]).terminator matches Some(t) ==> !t.operands().contains(a)),
        again.instructions@.len() == after.instructions@.len(),
        forall|i: int| 0 <= i < after.instructions@.len() ==>
            (#[trigger] again.instructions@[i]).operands() == after.instructions@[i].operands(),
        forall|x: int| 0 <= x < after.blocks@.len() ==>
            terminator_operands((#[trigger] again.blocks@[x]).terminator) == terminator_operands(after.blocks@[x].terminator),
{
    assert forall|i: int| 0 <= i < after.instructions@.len() implies
        (#[trigger] again.instructions@[i]).operands() == after.instructions@[i].operands() by {
        lemma_replace_seq_idempotent(before.instructions@[i].operands(), a, b);
    }
    assert forall|x: int| 0 <= x < after.blocks@.len() implies
        terminator_operands((#[trigger] again.blocks@[x]).terminator) == terminator_operands(after.blocks@[x].terminator) by {
        assert(terminator_replaced(after.blocks@[x].terminator, before.blocks@[x].terminator, a, b));
        assert(terminator_replaced(again.blocks@[x].terminator, after.blocks@[x].terminator, a, b));
        if let Some(t) = before.blocks@[x].terminator {
            lemma_replace_seq_idempotent(t.operands(), a, b);
        }
    }
    if a != b {
        assert forall|i: int| 0 <= i < after.instructions@.len() implies !(#[trigger] after.instructions@[i]).operands().contains(a) by {
            let s = after.instructions@[i].operands();
            if s.contains(a) {
                let k = choose|k: int| 0 <= k < s.len() && s[k] == a;
                assert(s[k] == replace_seq(before.instructions@[i].operands(), a, b)[k]);
            }
        }
        assert forall|x: int| 0 <= x < after.blocks@.len() implies
            ((#[trigger] after.blocks@[x]).terminator matches Some(t) ==> !t.operands().contains(a)) by {
            assert(terminator_replaced(after.blocks@[x].terminator, before.blocks@[x].terminator, a, b));
            if let Some(t) = after.blocks@[x].terminator {
                let s = t.operands();
                if s.contains(a) {
                    let k = choose|k: int| 0 <= k < s.len() && s[k] == a;
                    let t0 = before.blocks@[x].terminator.unwrap();
                    assert(s[k] == replace_seq(t0.operands(), a, b)[k]);
                }
            }
        }
    }
}

} // verus!
