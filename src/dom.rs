use vstd::prelude::*;
use crate::cfg::ControlFlowGraph;
use crate::dfg::DataFlowGraph;
use crate::ids::{BlockId, ValueId, values_below};
use crate::instruction::Value;

verus! {

/// `a` dominates `b`: `b` is reachable from `entry`, and every walk from `entry` to `b` passes through `a`.
pub open spec fn dominates(cfg: ControlFlowGraph, entry: int, a: int, b: int) -> bool {
    cfg.reachable(entry, None, b) && (a == b || !cfg.reachable(entry, Some(BlockId(a as usize)), b))
}

pub open spec fn strictly_dominates(cfg: ControlFlowGraph, entry: int, a: int, b: int) -> bool {
    a != b && dominates(cfg, entry, a, b)
}

/// `d` strictly dominates `b`, and every other strict dominator of `b` dominates `d`.
pub open spec fn is_immediate_dominator(cfg: ControlFlowGraph, entry: int, d: int, b: int) -> bool {
    &&& 0 <= d < cfg.num_blocks()
    &&& strictly_dominates(cfg, entry, d, b)
    &&& forall|d2: int| 0 <= d2 < cfg.num_blocks() && #[trigger] strictly_dominates(cfg, entry, d2, b) ==> dominates(cfg, entry, d2, d)
}

/// What `immediate_dominator` answers for `b`: the least block that is its immediate dominator, if any.
pub open spec fn idom_answer(cfg: ControlFlowGraph, entry: int, b: int, r: Option<BlockId>) -> bool {
    match r {
        Some(d) => is_immediate_dominator(cfg, entry, d.0 as int, b)
            && forall|d2: int| 0 <= d2 < d.0 ==> !#[trigger] is_immediate_dominator(cfg, entry, d2, b),
        None => forall|d2: int| 0 <= d2 < cfg.num_blocks() ==> !#[trigger] is_immediate_dominator(cfg, entry, d2, b),
    }
}

/// Dominance over a control flow graph, answered from one reachability search per block.
pub struct DominatorTree {
    pub cfg: ControlFlowGraph,
    pub entry: BlockId,
    pub reachable: Vec<bool>,
    pub reach_avoiding: Vec<Vec<bool>>,
}

impl DominatorTree {
    pub open spec fn wf(&self) -> bool {
        let n = self.cfg.num_blocks();
        &&& self.cfg.wf()
        &&& self.entry.0 < n
        &&& self.reachable@.len() == n
        &&& self.reach_avoiding@.len() == n
        &&& forall|y: int| 0 <= y < n ==> (#[trigger] self.reachable@[y] <==> self.cfg.reachable(self.entry.0 as int, None, y))
        &&& forall|a: int| 0 <= a < n ==> (#[trigger] self.reach_avoiding@[a])@.len() == n
        &&& forall|a: int, y: int| 0 <= a < n && 0 <= y < n ==>
            (#[trigger] self.reach_avoiding@[a]@[y] <==> self.cfg.reachable(self.entry.0 as int, Some(BlockId(a as usize)), y))
    }

    /// Computes dominance for the blocks reachable from `entry`.
    pub fn with_cfg(cfg: ControlFlowGraph, entry: BlockId) -> (r: DominatorTree)
        requires
            cfg.wf(),
            entry.0 < cfg.num_blocks(),
        ensures
            r.wf(),
            r.cfg == cfg,
            r.entry == entry,
    {
        let n = cfg.successors.len();
        let reachable = cfg.reachable_from(entry, None);
        let mut rows: Vec<Vec<bool>> = Vec::new();
        let mut a: usize = 0;
        while a < n
            invariant
                cfg.wf(),
                n == cfg.num_blocks(),
                a <= n,
                rows@.len() == a,
                forall|x: int| 0 <= x < a ==> (#[trigger] rows@[x])@.len() == n,
                forall|x: int, y: int| 0 <= x < a && 0 <= y < n ==>
                    (#[trigger] rows@[x]@[y] <==> cfg.reachable(entry.0 as int, Some(BlockId(x as usize)), y)),
            decreases n - a,
        {
            let row = cfg.reachable_from(entry, Some(BlockId(a)));
            rows.push(row);
            proof {
                assert forall|x: int, y: int| 0 <= x < a + 1 && 0 <= y < n implies
                    (#[trigger] rows@[x]@[y] <==> cfg.reachable(entry.0 as int, Some(BlockId(x as usize)), y)) by {
                    if x == a {
                        assert(BlockId(x as usize) == BlockId(a));
                    }
                }
            }
            a = a + 1;
        }
        DominatorTree { cfg, entry, reachable, reach_avoiding: rows }
    }

    /// Whether `a` dominates `b`.
    pub fn dominates(&self, a: BlockId, b: BlockId) -> (r: bool)
        requires
            self.wf(),
            a.0 < self.cfg.num_blocks(),
            b.0 < self.cfg.num_blocks(),
        ensures
            r == dominates(self.cfg, self.entry.0 as int, a.0 as int, b.0 as int),
    {
        assert(BlockId((a.0 as int) as usize) == a);
        self.reachable[b.0] && (a.0 == b.0 || !self.reach_avoiding[a.0][b.0])
    }

    /// The immediate dominator of `b`; `None` for the entry block and for unreachable blocks.
    pub fn immediate_dominator(&self, b: BlockId) -> (r: Option<BlockId>)
        requires
            self.wf(),
            b.0 < self.cfg.num_blocks(),
        ensures
            idom_answer(self.cfg, self.entry.0 as int, b.0 as int, r),
    {
        let n = self.reachable.len();
        let mut d: usize = 0;
        while d < n
            invariant
                self.wf(),
                n == self.cfg.num_blocks(),
                b.0 < n,
                d <= n,
                forall|d2: int| 0 <= d2 < d ==> !#[trigger] is_immediate_dominator(self.cfg, self.entry.0 as int, d2, b.0 as int),
            decreases n - d,
        {
            if d != b.0 && self.dominates(BlockId(d), b) {
                let mut ok = true;
                let mut e: usize = 0;
                while e < n
                    invariant
                        self.wf(),
                        n == self.cfg.num_blocks(),
                        b.0 < n,
                        d < n,
                        e <= n,
                        ok ==> forall|d2: int| 0 <= d2 < e && #[trigger] strictly_dominates(self.cfg, self.entry.0 as int, d2, b.0 as int)
                            ==> dominates(self.cfg, self.entry.0 as int, d2, d as int),
                        !ok ==> !is_immediate_dominator(self.cfg, self.entry.0 as int, d as int, b.0 as int),
                    decreases n - e,
                {
                    if ok && e != b.0 && self.dominates(BlockId(e), b) && !self.dominates(BlockId(e), BlockId(d)) {
                        ok = false;
                        assert(strictly_dominates(self.cfg, self.entry.0 as int, e as int, b.0 as int));
                    }
                    e = e + 1;
                }
                if ok {
                    return Some(BlockId(d));
                }
            }
            d = d + 1;
        }
        None
    }
}

/// The block that defines a value: its block for a parameter, its instruction's block for a result;
/// `None` for constants and function references, which every block may read.
pub open spec fn def_block(dfg: DataFlowGraph, v: ValueId) -> Option<int> {
    match dfg.values@[v.0 as int] {
        Value::Param { block, .. } => Some(block.0 as int),
        Value::InstructionResult { instruction, .. } => Some(dfg.instruction_blocks@[instruction.0 as int].0 as int),
        _ => None,
    }
}

/// Each operand of instruction `i` is defined in a block that dominates the instruction's block,
/// where that block is reachable from the entry.
pub open spec fn uses_dominated(dfg: DataFlowGraph, tree: DominatorTree, i: int) -> bool {
    let u = dfg.instruction_blocks@[i].0 as int;
    tree.cfg.reachable(tree.entry.0 as int, None, u) ==> forall|k: int| 0 <= k < dfg.instructions@[i].operands().len() ==>
        match def_block(dfg, #[trigger] dfg.instructions@[i].operands()[k]) {
            Some(d) => dominates(tree.cfg, tree.entry.0 as int, d, u),
            None => true,
        }
}

/// Whether every instruction of `dfg` reads only values whose definitions dominate it.
pub fn check_ssa_dominance(dfg: &DataFlowGraph, tree: &DominatorTree) -> (r: bool)
    requires
        dfg.wf(),
        tree.wf(),
        tree.cfg.num_blocks() == dfg.blocks@.len(),
    ensures
        r <==> forall|i: int| 0 <= i < dfg.instructions@.len() ==> #[trigger] uses_dominated(*dfg, *tree, i),
{
    let mut i: usize = 0;
    while i < dfg.instructions.len()
        invariant
            dfg.wf(),
            tree.wf(),
            tree.cfg.num_blocks() == dfg.blocks@.len(),
            i <= dfg.instructions@.len(),
            forall|j: int| 0 <= j < i ==> #[trigger] uses_dominated(*dfg, *tree, j),
        decreases dfg.instructions@.len() - i,
    {
        let u = dfg.instruction_blocks[i];
        if tree.reachable[u.0] {
            let ops = dfg.instructions[i].operands_vec();
            let mut k: usize = 0;
            while k < ops.len()
                invariant
                    dfg.wf(),
                    tree.wf(),
                    tree.cfg.num_blocks() == dfg.blocks@.len(),
                    i < dfg.instructions@.len(),
                    u == dfg.instruction_blocks@[i as int],
                    u.0 < dfg.blocks@.len(),
                    tree.reachable@[u.0 as int],
                    ops@ == dfg.instructions@[i as int].operands(),
                    k <= ops@.len(),
                    forall|m: int| 0 <= m < k ==> match def_block(*dfg, #[trigger] ops@[m]) {
                        Some(d) => dominates(tree.cfg, tree.entry.0 as int, d, u.0 as int),
                        None => true,
                    },
                decreases ops@.len() - k,
            {
                let v = ops[k];
                assert(values_below(dfg.instructions@[i as int].operands(), dfg.values@.len() as nat));
                assert(v.0 < dfg.values@.len());
                let d = match &dfg.values[v.0] {
                    Value::Param { block, .. } => Some(*block),
                    Value::InstructionResult { instruction, .. } => Some(dfg.instruction_blocks[instruction.0]),
                    _ => None,
                };
                assert(crate::dfg::value_ok(dfg.values@[v.0 as int], dfg.instructions@.len() as nat, dfg.blocks@.len() as nat));
                if let Some(d) = d {
                    assert(def_block(*dfg, v) == Some(d.0 as int));
                    assert(d.0 < dfg.blocks@.len());
                    if !tree.dominates(d, u) {
                        proof {
                            assert(tree.cfg.reachable(tree.entry.0 as int, None, u.0 as int));
                            assert(dfg.instructions@[i as int].operands()[k as int] == v);
                            assert(!uses_dominated(*dfg, *tree, i as int));
                        }
                        return false;
                    }
                } else {
                    assert(def_block(*dfg, v) is None);
                }
                k = k + 1;
            }
        }
        i = i + 1;
    }
    true
}

/// Dominance answers are a function of the graph: two computations for one block agree.
pub proof fn lemma_idom_deterministic(cfg: ControlFlowGraph, entry: int, b: int, r1: Option<BlockId>, r2: Option<BlockId>)
    requires
        idom_answer(cfg, entry, b, r1),
        idom_answer(cfg, entry, b, r2),
    ensures
        r1 == r2,
{
    match (r1, r2) {
        (Some(d1), Some(d2)) => {
            if d1.0 < d2.0 {
                assert(!is_immediate_dominator(cfg, entry, d1.0 as int, b));
            } else if d2.0 < d1.0 {
                assert(!is_immediate_dominator(cfg, entry, d2.0 as int, b));
            }
        },
        (Some(d1), None) => {
            assert(!is_immediate_dominator(cfg, entry, d1.0 as int, b));
        },
        (None, Some(d2)) => {
            assert(!is_immediate_dominator(cfg, entry, d2.0 as int, b));
        },
        (None, None) => {},
    }
}

} // verus!
