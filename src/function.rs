use vstd::prelude::*;
use crate::cfg::{ControlFlowGraph, block_successors};
use crate::dfg::{DataFlowGraph, IrError, terminator_ok};
use crate::ids::{BlockId, FunctionId, ValueId, copy_values};
use crate::instruction::{Terminator, Value};
use crate::types::Type;

verus! {

/// A function: its graph and the block where it starts.
#[derive(Debug)]
pub struct Function {
    pub id: FunctionId,
    pub name: String,
    pub dfg: DataFlowGraph,
    pub entry_block: BlockId,
}

impl Function {
    /// The graph is well formed, and no terminator branches to the entry block.
    pub open spec fn wf(&self) -> bool {
        &&& self.dfg.wf()
        &&& self.entry_block.0 < self.dfg.blocks@.len()
        &&& forall|b: int| 0 <= b < self.dfg.blocks@.len() ==>
            !block_successors((#[trigger] self.dfg.blocks@[b]).terminator).contains(self.entry_block)
    }

    /// A function with an empty entry block and no parameters.
    pub fn new(id: FunctionId, name: String) -> (r: Function)
        ensures
            r.wf(),
            r.id == id,
            r.name@ == name@,
            r.entry_block == BlockId(0),
            r.dfg.blocks@.len() == 1,
            r.dfg.blocks@[0].parameters@.len() == 0,
            r.dfg.blocks@[0].instructions@.len() == 0,
            r.dfg.blocks@[0].terminator.is_none(),
            r.dfg.values@.len() == 0,
            r.dfg.instructions@.len() == 0,
    {
        let mut dfg = DataFlowGraph::new();
        let entry_block = dfg.make_block();
        let r = Function { id, name, dfg, entry_block };
        assert(block_successors(r.dfg.blocks@[0].terminator) =~= seq![]);
        r
    }

    /// Appends a parameter of type `typ`: a new parameter of the entry block.
    pub fn add_parameter(&mut self, typ: Type) -> (r: ValueId)
        requires
            old(self).wf(),
        ensures
            final(self).wf(),
            final(self).id == old(self).id,
            final(self).entry_block == old(self).entry_block,
            r.0 == old(self).dfg.values@.len(),
            final(self).dfg.values@ == old(self).dfg.values@.push(Value::Param {
                block: old(self).entry_block,
                position: old(self).dfg.blocks@[old(self).entry_block.0 as int].parameters@.len() as usize,
                typ,
            }),
            final(self).dfg.blocks@[old(self).entry_block.0 as int].parameters@
                == old(self).dfg.blocks@[old(self).entry_block.0 as int].parameters@.push(r),
    {
        let ghost g = *self;
        let r = self.dfg.add_block_parameter(self.entry_block, typ);
        proof {
            assert forall|b: int| 0 <= b < self.dfg.blocks@.len() implies
                !block_successors((#[trigger] self.dfg.blocks@[b]).terminator).contains(self.entry_block) by {
                assert(self.dfg.blocks@[b].terminator == g.dfg.blocks@[b].terminator);
            }
        }
        match r {
            Ok(v) => v,
            Err(_) => {
                assert(false);
                ValueId(0)
            },
        }
    }

    /// The parameters, in order: those of the entry block.
    pub fn parameters(&self) -> (r: Vec<ValueId>)
        requires
            self.wf(),
        ensures
            r@ == self.dfg.blocks@[self.entry_block.0 as int].parameters@,
    {
        copy_values(&self.dfg.blocks[self.entry_block.0].parameters)
    }

    /// The type of each parameter, in order.
    pub fn parameter_types(&self) -> (r: Vec<Type>)
        requires
            self.wf(),
        ensures
            r@.len() == self.dfg.blocks@[self.entry_block.0 as int].parameters@.len(),
            forall|i: int| 0 <= i < r@.len() ==>
                #[trigger] r@[i] == self.dfg.spec_value_type(self.dfg.blocks@[self.entry_block.0 as int].parameters@[i]),
    {
        let ps = &self.dfg.blocks[self.entry_block.0].parameters;
        let mut ts: Vec<Type> = Vec::new();
        let mut i: usize = 0;
        while i < ps.len()
            invariant
                self.wf(),
                ps@ == self.dfg.blocks@[self.entry_block.0 as int].parameters@,
                i <= ps@.len(),
                ts@.len() == i,
                forall|j: int| 0 <= j < i ==> #[trigger] ts@[j] == self.dfg.spec_value_type(ps@[j]),
            decreases ps@.len() - i,
        {
            assert(crate::dfg::block_ok(self.dfg.blocks@[self.entry_block.0 as int], self.dfg.values@.len() as nat,
                self.dfg.instructions@.len() as nat, self.dfg.blocks@.len() as nat));
            assert(ps@[i as int].0 < self.dfg.values@.len());
            ts.push(self.dfg.values[ps[i].0].get_type());
            i = i + 1;
        }
        ts
    }
    /// Ends a block with a terminator; a terminator that branches to the entry block is refused.
    pub fn set_terminator(&mut self, block: BlockId, terminator: Terminator) -> (r: Result<(), IrError>)
        requires
            old(self).wf(),
        ensures
            final(self).wf(),
            final(self).entry_block == old(self).entry_block,
            r matches Err(_) ==> *final(self) == *old(self),
            terminator.destinations().contains(old(self).entry_block) ==> r == Err::<(), IrError>(IrError::BranchToEntry),
            !terminator.destinations().contains(old(self).entry_block) ==> ({
                let nv = old(self).dfg.values@.len() as nat;
                let nb = old(self).dfg.blocks@.len() as nat;
                &&& (!old(self).dfg.valid_block(block) || !terminator_ok(terminator, nv, nb))
                    <==> r == Err::<(), IrError>(IrError::InvalidIdentifier)
                &&& (old(self).dfg.valid_block(block) && terminator_ok(terminator, nv, nb)
                    && old(self).dfg.blocks@[block.0 as int].is_terminated())
                    <==> r == Err::<(), IrError>(IrError::BlockAlreadyTerminated)
                &&& (old(self).dfg.valid_block(block) && terminator_ok(terminator, nv, nb)
                    && !old(self).dfg.blocks@[block.0 as int].is_terminated()) <==> r is Ok
                &&& r matches Ok(_) ==> final(self).dfg.blocks@[block.0 as int].terminator == Some(terminator)
            }),
    {
        let ds = terminator.destinations_vec();
        let mut i: usize = 0;
        while i < ds.len()
            invariant
                i <= ds@.len(),
                *self == *old(self),
                old(self).wf(),
                ds@ == terminator.destinations(),
                forall|k: int| 0 <= k < i ==> ds@[k] != self.entry_block,
            decreases ds@.len() - i,
        {
            if ds[i] == self.entry_block {
                assert(ds@[i as int] == self.entry_block);
                return Err(IrError::BranchToEntry);
            }
            i = i + 1;
        }
        let ghost g = *self;
        let r = self.dfg.set_terminator(block, terminator);
        proof {
            assert forall|b: int| 0 <= b < self.dfg.blocks@.len() implies
                !block_successors((#[trigger] self.dfg.blocks@[b]).terminator).contains(self.entry_block) by {
                if r is Ok && b == block.0 {
                    assert(block_successors(self.dfg.blocks@[b].terminator) == ds@);
                } else {
                    assert(self.dfg.blocks@[b] == g.dfg.blocks@[b]);
                }
            }
        }
        r
    }
}

/// The entry block has no predecessors in the control flow graph of a function.
pub proof fn lemma_entry_has_no_predecessors(f: Function, cfg: ControlFlowGraph)
    requires
        f.wf(),
        cfg.successors@.len() == f.dfg.blocks@.len(),
        forall|x: int| 0 <= x < f.dfg.blocks@.len() ==> (#[trigger] cfg.successors@[x])@ == block_successors(f.dfg.blocks@[x].terminator),
    ensures
        forall|p: int| !#[trigger] cfg.edge(p, f.entry_block.0 as int),
{
    assert forall|p: int| !#[trigger] cfg.edge(p, f.entry_block.0 as int) by {
        if 0 <= p < cfg.successors@.len() {
            assert(BlockId((f.entry_block.0 as int) as usize) == f.entry_block);
            assert(cfg.successors@[p]@ == block_successors(f.dfg.blocks@[p].terminator));
        }
    }
}

} // verus!
