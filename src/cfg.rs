use vstd::prelude::*;
use crate::dfg::{DataFlowGraph, blocks_below, block_ok};
use crate::ids::BlockId;
use crate::instruction::Terminator;

verus! {

/// The destinations of a block's terminator; none for a block without one.
pub open spec fn block_successors(t: Option<Terminator>) -> Seq<BlockId> {
    match t {
        Some(t) => t.destinations(),
        None => seq![],
    }
}

/// Successor edges of every block of a function.
pub struct ControlFlowGraph {
    pub successors: Vec<Vec<BlockId>>,
}

/// Number of `true` entries.
pub open spec fn count_true(s: Seq<bool>) -> nat
    decreases s.len(),
{
    if s.len() == 0 {
        0
    } else {
        count_true(s.drop_last()) + if s.last() { 1nat } else { 0nat }
    }
}

pub proof fn lemma_count_true_bound(s: Seq<bool>)
    ensures
        count_true(s) <= s.len(),
    decreases s.len(),
{
    if s.len() > 0 {
        lemma_count_true_bound(s.drop_last());
    }
}

pub proof fn lemma_count_true_set(s: Seq<bool>, i: int)
    requires
        0 <= i < s.len(),
        !s[i],
    ensures
        count_true(s.update(i, true)) == count_true(s) + 1,
    decreases s.len(),
{
    let t = s.update(i, true);
    if i == s.len() - 1 {
        assert(t.drop_last() =~= s.drop_last());
    } else {
        assert(t.drop_last() =~= s.drop_last().update(i, true));
        lemma_count_true_set(s.drop_last(), i);
    }
}

impl ControlFlowGraph {
    pub open spec fn wf(&self) -> bool {
        forall|x: int| 0 <= x < self.successors@.len() ==> blocks_below(
            (#[trigger] self.successors@[x])@, self.successors@.len() as nat)
    }

    pub open spec fn num_blocks(&self) -> nat {
        self.successors@.len()
    }

    /// An edge from block `x` to block `y`.
    pub open spec fn edge(&self, x: int, y: int) -> bool {
        0 <= x < self.successors@.len() && 0 <= y < self.successors@.len()
            && self.successors@[x]@.contains(BlockId(y as usize))
    }

    pub open spec fn allowed(avoid: Option<BlockId>, y: int) -> bool {
        avoid != Some(BlockId(y as usize))
    }

    /// `p` is a walk along edges from `start` that never enters `avoid`.
    pub open spec fn is_path(&self, start: int, avoid: Option<BlockId>, p: Seq<int>) -> bool {
        &&& p.len() > 0
        &&& p[0] == start
        &&& forall|i: int| 0 <= i < p.len() ==> 0 <= #[trigger] p[i] < self.num_blocks() && Self::allowed(avoid, p[i])
        &&& forall|i: int| 0 <= i < p.len() - 1 ==> #[trigger] self.edge(p[i], p[i + 1])
    }

    /// `y` can be reached from `start` along edges, never entering `avoid`.
    pub open spec fn reachable(&self, start: int, avoid: Option<BlockId>, y: int) -> bool {
        exists|p: Seq<int>| #[trigger] self.is_path(start, avoid, p) && p.last() == y
    }

    /// Builds the graph from the blocks' terminators.
    pub fn new(dfg: &DataFlowGraph) -> (r: ControlFlowGraph)
        requires
            dfg.wf(),
        ensures
            r.wf(),
            r.successors@.len() == dfg.blocks@.len(),
            forall|x: int| 0 <= x < dfg.blocks@.len() ==> (#[trigger] r.successors@[x])@ == block_successors(dfg.blocks@[x].terminator),
    {
        let mut successors: Vec<Vec<BlockId>> = Vec::new();
        let mut x: usize = 0;
        while x < dfg.blocks.len()
            invariant
                x <= dfg.blocks@.len(),
                successors@.len() == x,
                forall|j: int| 0 <= j < x ==> (#[trigger] successors@[j])@ == block_successors(dfg.blocks@[j].terminator),
            decreases dfg.blocks@.len() - x,
        {
            let s = match &dfg.blocks[x].terminator {
                Some(t) => t.destinations_vec(),
                None => Vec::new(),
            };
            proof {
                if dfg.blocks@[x as int].terminator.is_none() {
                    assert(s@ =~= block_successors(dfg.blocks@[x as int].terminator));
                }
            }
            successors.push(s);
            x = x + 1;
        }
        let r = ControlFlowGraph { successors };
        assert forall|j: int| 0 <= j < r.successors@.len() implies blocks_below(
            (#[trigger] r.successors@[j])@, r.successors@.len() as nat) by {
            assert(block_ok(dfg.blocks@[j], dfg.values@.len() as nat, dfg.instructions@.len() as nat, dfg.blocks@.len() as nat));
        }
        r
    }

    /// The blocks that `block` may pass control to, in terminator order.
    pub fn successors(&self, block: BlockId) -> (r: Vec<BlockId>)
        requires
            block.0 < self.successors@.len(),
        ensures
            r@ == self.successors@[block.0 as int]@,
    {
        crate::ids::copy_vec(&self.successors[block.0])
    }

    fn has_edge(&self, x: usize, y: BlockId) -> (r: bool)
        requires
            self.wf(),
            x < self.successors@.len(),
        ensures
            r == self.edge(x as int, y.0 as int),
    {
        let s = &self.successors[x];
        assert(BlockId((y.0 as int) as usize) == y);
        let mut i: usize = 0;
        while i < s.len()
            invariant
                self.wf(),
                i <= s@.len(),
                x < self.successors@.len(),
                s@ == self.successors@[x as int]@,
                forall|k: int| 0 <= k < i ==> s@[k] != y,
            decreases s@.len() - i,
        {
            if s[i] == y {
                assert(s@[i as int] == y);
                assert(self.successors@[x as int]@.contains(y));
                assert(blocks_below(self.successors@[x as int]@, self.successors@.len() as nat));
                return true;
            }
            i = i + 1;
        }
        false
    }

    /// The blocks with an edge into `block`, in increasing order.
    pub fn predecessors(&self, block: BlockId) -> (r: Vec<BlockId>)
        requires
            self.wf(),
        ensures
            forall|p: int| 0 <= p < r@.len() ==> (#[trigger] r@[p]).0 < self.num_blocks(),
            forall|p: int| 0 <= p < self.num_blocks() ==> (r@.contains(BlockId(p as usize)) <==> self.edge(p, block.0 as int)),
            forall|i: int, j: int| 0 <= i < j < r@.len() ==> r@[i].0 < r@[j].0,
    {
        let mut r: Vec<BlockId> = Vec::new();
        let mut x: usize = 0;
        while x < self.successors.len()
            invariant
                x <= self.successors@.len(),
                self.wf(),
                forall|p: int| 0 <= p < r@.len() ==> (#[trigger] r@[p]).0 < x,
                forall|p: int| 0 <= p < x ==> (r@.contains(BlockId(p as usize)) <==> self.edge(p, block.0 as int)),
                forall|i: int, j: int| 0 <= i < j < r@.len() ==> r@[i].0 < r@[j].0,
            decreases self.successors@.len() - x,
        {
            let ghost r0 = r@;
            let e = self.has_edge(x, block);
            if e {
                r.push(BlockId(x));
                assert(r@[r@.len() - 1] == BlockId(x));
            }
            proof {
                assert forall|p: int| 0 <= p <= x implies (r@.contains(BlockId(p as usize)) <==> self.edge(p, block.0 as int)) by {
                    if r@.contains(BlockId(p as usize)) {
                        let q = choose|q: int| 0 <= q < r@.len() && r@[q] == BlockId(p as usize);
                        assert(r@[q].0 == p);
                        if p < x {
                            assert(q < r0.len());
                            assert(r0[q] == BlockId(p as usize));
                            assert(r0.contains(BlockId(p as usize)));
                        }
                    } else if p < x {
                        if r0.contains(BlockId(p as usize)) {
                            let q = choose|q: int| 0 <= q < r0.len() && r0[q] == BlockId(p as usize);
                            assert(r@[q] == r0[q]);
                        }
                    }
                }
            }
            x = x + 1;
        }
        r
    }

    /// Every allowed successor of `y` is marked in `vis`.
    pub open spec fn closed_at(&self, vis: Seq<bool>, avoid: Option<BlockId>, y: int) -> bool {
        forall|z: int| #[trigger] self.edge(y, z) && Self::allowed(avoid, z) ==> vis[z]
    }

    pub proof fn lemma_reach_step(&self, start: int, avoid: Option<BlockId>, p: Seq<int>, y: int)
        requires
            self.is_path(start, avoid, p),
            self.edge(p.last(), y),
            Self::allowed(avoid, y),
        ensures
            self.is_path(start, avoid, p.push(y)),
            self.reachable(start, avoid, y),
    {
        let q = p.push(y);
        assert forall|i: int| 0 <= i < q.len() - 1 implies #[trigger] self.edge(q[i], q[i + 1]) by {
            if i < p.len() - 1 {
                assert(self.edge(p[i], p[i + 1]));
            }
        }
        assert(q.last() == y);
    }

    pub proof fn lemma_closed_complete(&self, vis: Seq<bool>, start: int, avoid: Option<BlockId>, p: Seq<int>)
        requires
            vis.len() == self.num_blocks(),
            (0 <= start < self.num_blocks() && Self::allowed(avoid, start)) ==> vis[start],
            forall|v: int| 0 <= v < self.num_blocks() && #[trigger] vis[v] ==> self.closed_at(vis, avoid, v),
            self.is_path(start, avoid, p),
        ensures
            0 <= p.last() < self.num_blocks(),
            vis[p.last()],
        decreases p.len(),
    {
        if p.len() > 1 {
            let q = p.drop_last();
            assert forall|i: int| 0 <= i < q.len() - 1 implies #[trigger] self.edge(q[i], q[i + 1]) by {
                assert(self.edge(p[i], p[i + 1]));
            }
            assert(q[0] == p[0]);
            assert forall|i: int| 0 <= i < q.len() implies 0 <= #[trigger] q[i] < self.num_blocks() && Self::allowed(avoid, q[i]) by {
                assert(q[i] == p[i]);
            }
            self.lemma_closed_complete(vis, start, avoid, q);
            let i = p.len() - 2;
            assert(0 <= i < p.len() - 1);
            assert(self.edge(p[i], p[i + 1]));
            assert(q.last() == p[i] && p.last() == p[i + 1]);
            assert(self.closed_at(vis, avoid, q.last()));
        } else {
            assert(p[0] == start);
        }
    }

    /// Marks each block that can be reached from `start` without entering `avoid`.
    pub fn reachable_from(&self, start: BlockId, avoid: Option<BlockId>) -> (r: Vec<bool>)
        requires
            self.wf(),
        ensures
            r@.len() == self.num_blocks(),
            forall|y: int| 0 <= y < self.num_blocks() ==> (r@[y] <==> self.reachable(start.0 as int, avoid, y)),
    {
        let n = self.successors.len();
        let mut visited: Vec<bool> = vec![false; n];
        let mut stack: Vec<usize> = Vec::new();
        let start_ok = start.0 < n && avoid != Some(start);
        assert(BlockId((start.0 as int) as usize) == start);
        if start_ok {
            visited.set(start.0, true);
            stack.push(start.0);
            assert(self.is_path(start.0 as int, avoid, seq![start.0 as int]));
        }
        proof {
            lemma_count_true_bound(visited@);
            assert forall|y: int| 0 <= y < n && #[trigger] visited@[y] implies y == start.0 && stack@[0] == y as usize by {}
            if start_ok {
                assert(self.reachable(start.0 as int, avoid, start.0 as int));
            }
        }
        while stack.len() > 0
            invariant
                self.wf(),
                n == self.num_blocks(),
                visited@.len() == n,
                start_ok == (0 <= start.0 < n && Self::allowed(avoid, start.0 as int)),
                start_ok ==> visited@[start.0 as int],
                forall|y: int| 0 <= y < n && #[trigger] visited@[y] ==> self.reachable(start.0 as int, avoid, y),
                forall|i: int| 0 <= i < stack@.len() ==> (#[trigger] stack@[i]) < n && visited@[stack@[i] as int],
                forall|y: int| 0 <= y < n && #[trigger] visited@[y] && !stack@.contains(y as usize) ==> self.closed_at(visited@, avoid, y),
                count_true(visited@) <= n,
            decreases 2 * (n - count_true(visited@)) + stack@.len(),
        {
            let ghost measure = 2 * (n - count_true(visited@)) + stack@.len();
            let ghost stack0 = stack@;
            let y = stack.pop().unwrap();
            assert(stack0[stack0.len() - 1] == y);
            let succ = &self.successors[y];
            proof {
                assert(stack0 =~= stack@.push(y));
                assert forall|v: int| 0 <= v < n && #[trigger] visited@[v] && v != y && !stack@.contains(v as usize)
                    implies self.closed_at(visited@, avoid, v) by {
                    if stack0.contains(v as usize) {
                        let i = choose|i: int| 0 <= i < stack0.len() && stack0[i] == v as usize;
                        assert(stack@[i] == v as usize);
                    }
                }
            }
            let mut j: usize = 0;
            while j < succ.len()
                invariant
                    self.wf(),
                    n == self.num_blocks(),
                    y < n,
                    visited@[y as int],
                    succ@ == self.successors@[y as int]@,
                    j <= succ@.len(),
                    visited@.len() == n,
                    start_ok == (0 <= start.0 < n && Self::allowed(avoid, start.0 as int)),
                    start_ok ==> visited@[start.0 as int],
                    forall|y: int| 0 <= y < n && #[trigger] visited@[y] ==> self.reachable(start.0 as int, avoid, y),
                    forall|i: int| 0 <= i < stack@.len() ==> (#[trigger] stack@[i]) < n && visited@[stack@[i] as int],
                    forall|v: int| 0 <= v < n && #[trigger] visited@[v] && v != y && !stack@.contains(v as usize) ==> self.closed_at(visited@, avoid, v),
                    forall|i: int| 0 <= i < j && Self::allowed(avoid, (#[trigger] succ@[i]).0 as int) ==> visited@[succ@[i].0 as int],
                    count_true(visited@) <= n,
                    2 * (n - count_true(visited@)) + stack@.len() < measure,
                decreases succ@.len() - j,
            {
                let z = succ[j];
                assert(blocks_below(self.successors@[y as int]@, n as nat));
                assert(z.0 < n);
                if avoid != Some(z) && !visited[z.0] {
                    let ghost vis0 = visited@;
                    let ghost st0 = stack@;
                    proof {
                        lemma_count_true_set(visited@, z.0 as int);
                        lemma_count_true_bound(visited@.update(z.0 as int, true));
                        let p = choose|p: Seq<int>| #[trigger] self.is_path(start.0 as int, avoid, p) && p.last() == y as int;
                        assert(BlockId((z.0 as int) as usize) == z);
                        assert(succ@[j as int] == z);
                        assert(self.edge(y as int, z.0 as int));
                        self.lemma_reach_step(start.0 as int, avoid, p, z.0 as int);
                    }
                    visited.set(z.0, true);
                    stack.push(z.0);
                    proof {
                        assert(stack@[stack@.len() - 1] == z.0);
                        assert forall|v: int| 0 <= v < n && #[trigger] visited@[v] && v != y && !stack@.contains(v as usize)
                            implies self.closed_at(visited@, avoid, v) by {
                            assert(v != z.0);
                            assert(vis0[v]);
                            if st0.contains(v as usize) {
                                let i = choose|i: int| 0 <= i < st0.len() && st0[i] == v as usize;
                                assert(stack@[i] == v as usize);
                            }
                            assert(self.closed_at(vis0, avoid, v));
                            assert forall|w: int| #[trigger] self.edge(v, w) && Self::allowed(avoid, w) implies visited@[w] by {
                                assert(vis0[w]);
                            }
                        }
                        assert forall|i: int| 0 <= i < stack@.len() implies (#[trigger] stack@[i]) < n && visited@[stack@[i] as int] by {
                            if i < st0.len() {
                                assert(stack@[i] == st0[i]);
                            }
                        }
                    }
                } else {
                    proof {
                        assert(BlockId((z.0 as int) as usize) == z);
                    }
                }
                j = j + 1;
            }
            proof {
                assert forall|w: int| #[trigger] self.edge(y as int, w) && Self::allowed(avoid, w) implies visited@[w] by {
                    let i = choose|i: int| 0 <= i < succ@.len() && succ@[i] == BlockId(w as usize);
                    assert(succ@[i].0 as int == w);
                }
                assert forall|v: int| 0 <= v < n && #[trigger] visited@[v] && !stack@.contains(v as usize)
                    implies self.closed_at(visited@, avoid, v) by {
                    if v == y {
                        assert(self.closed_at(visited@, avoid, y as int));
                    }
                }
            }
        }
        proof {
            assert forall|y: int| 0 <= y < n && #[trigger] visited@[y] implies self.closed_at(visited@, avoid, y) by {
                assert(!stack@.contains(y as usize));
            }
            assert forall|y: int| 0 <= y < n && self.reachable(start.0 as int, avoid, y) implies visited@[y] by {
                let p = choose|p: Seq<int>| #[trigger] self.is_path(start.0 as int, avoid, p) && p.last() == y;
                self.lemma_closed_complete(visited@, start.0 as int, avoid, p);
            }
        }
        visited
    }
}

} // verus!
