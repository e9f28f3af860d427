use vstd::prelude::*;
use crate::cfg::{ControlFlowGraph, count_true, lemma_count_true_bound, lemma_count_true_set};
use crate::dfg::blocks_below;
use crate::ids::BlockId;

verus! {

/// Every entry of `a` that is set is set in `b` too.
pub open spec fn grows(a: Seq<bool>, b: Seq<bool>) -> bool {
    a.len() == b.len() && forall|i: int| 0 <= i < a.len() && #[trigger] a[i] ==> b[i]
}

proof fn lemma_count_grows(a: Seq<bool>, b: Seq<bool>)
    requires
        grows(a, b),
    ensures
        count_true(a) <= count_true(b),
    decreases a.len(),
{
    if a.len() > 0 {
        assert(grows(a.drop_last(), b.drop_last()));
        lemma_count_grows(a.drop_last(), b.drop_last());
    }
}

/// No block occurs twice.
pub open spec fn distinct(s: Seq<BlockId>) -> bool {
    forall|i: int, j: int| 0 <= i < j < s.len() ==> s[i] != s[j]
}

impl ControlFlowGraph {
    /// Depth-first visit of `b`, which the caller has just marked, appending blocks as they finish.
    fn visit(&self, entry: usize, b: usize, visited: &mut Vec<bool>, order: &mut Vec<BlockId>)
        requires
            self.wf(),
            b < self.num_blocks(),
            old(visited)@.len() == self.num_blocks(),
            old(visited)@[b as int],
            self.reachable(entry as int, None, b as int),
            forall|v: int| 0 <= v < self.num_blocks() && #[trigger] old(visited)@[v] ==> self.reachable(entry as int, None, v),
            forall|k: int| 0 <= k < old(order)@.len() ==> (#[trigger] old(order)@[k]).0 < self.num_blocks()
                && old(visited)@[old(order)@[k].0 as int] && old(order)@[k].0 != b,
            distinct(old(order)@),
        ensures
            grows(old(visited)@, final(visited)@),
            forall|v: int| 0 <= v < self.num_blocks() && #[trigger] final(visited)@[v] ==> self.reachable(entry as int, None, v),
            final(order)@.len() > old(order)@.len(),
            final(order)@.subrange(0, old(order)@.len() as int) == old(order)@,
            final(order)@.last() == BlockId(b),
            forall|k: int| old(order)@.len() <= k < final(order)@.len() - 1 ==> !old(visited)@[(#[trigger] final(order)@[k]).0 as int],
            forall|k: int| 0 <= k < final(order)@.len() ==> (#[trigger] final(order)@[k]).0 < self.num_blocks()
                && final(visited)@[final(order)@[k].0 as int],
            distinct(final(order)@),
            forall|v: int| 0 <= v < self.num_blocks() && #[trigger] final(visited)@[v] && !old(visited)@[v]
                ==> final(order)@.contains(BlockId(v as usize)),
            forall|k: int| old(order)@.len() <= k < final(order)@.len() ==>
                self.closed_at(final(visited)@, None, (#[trigger] final(order)@[k]).0 as int),
        decreases self.num_blocks() - count_true(old(visited)@),
    {
        let ghost v0 = visited@;
        let ghost o0 = order@;
        proof {
            lemma_count_true_bound(visited@);
        }
        let succ = &self.successors[b];
        let n = self.successors.len();
        let mut j: usize = 0;
        while j < succ.len()
            invariant
                self.wf(),
                n == self.num_blocks(),
                b < self.num_blocks(),
                succ@ == self.successors@[b as int]@,
                j <= succ@.len(),
                v0 == old(visited)@,
                o0 == old(order)@,
                grows(v0, visited@),
                visited@[b as int],
                forall|v: int| 0 <= v < self.num_blocks() && #[trigger] visited@[v] ==> self.reachable(entry as int, None, v),
                order@.subrange(0, o0.len() as int) == o0,
                order@.len() >= o0.len(),
                forall|k: int| o0.len() <= k < order@.len() ==> !v0[(#[trigger] order@[k]).0 as int],
                forall|k: int| 0 <= k < order@.len() ==> (#[trigger] order@[k]).0 < self.num_blocks()
                    && visited@[order@[k].0 as int],
                forall|k: int| 0 <= k < o0.len() ==> (#[trigger] o0[k]).0 != b,
                distinct(order@),
                v0.len() == self.num_blocks(),
                forall|v: int| 0 <= v < self.num_blocks() && #[trigger] visited@[v] && !v0[v]
                    ==> order@.contains(BlockId(v as usize)),
                forall|k: int| o0.len() <= k < order@.len() ==>
                    self.closed_at(visited@, None, (#[trigger] order@[k]).0 as int),
                forall|i: int| 0 <= i < j ==> visited@[(#[trigger] succ@[i]).0 as int],
            decreases succ@.len() - j,
        {
            let z = succ[j];
            assert(blocks_below(self.successors@[b as int]@, self.num_blocks()));
            assert(z.0 < self.num_blocks());
            if !visited[z.0] {
                let ghost vb = visited@;
                let ghost ob = order@;
                proof {
                    lemma_count_grows(v0, visited@);
                    lemma_count_true_set(visited@, z.0 as int);
                    let p = choose|p: Seq<int>| #[trigger] self.is_path(entry as int, None, p) && p.last() == b as int;
                    assert(BlockId((z.0 as int) as usize) == z);
                    assert(succ@[j as int] == z);
                    assert(self.edge(b as int, z.0 as int));
                    self.lemma_reach_step(entry as int, None, p, z.0 as int);
                }
                visited.set(z.0, true);
                let ghost vs = visited@;
                proof {
                    lemma_count_true_bound(visited@);
                    assert(count_true(visited@) == count_true(vb) + 1);
                    assert(count_true(vb) >= count_true(v0));
                    assert forall|k: int| 0 <= k < order@.len() implies (#[trigger] order@[k]).0 != z.0 by {
                        assert(visited@[order@[k].0 as int] == vb[order@[k].0 as int]);
                    }
                }
                self.visit(entry, z.0, visited, order);
                proof {
                    assert forall|k: int| o0.len() <= k < order@.len() implies
                        self.closed_at(visited@, None, (#[trigger] order@[k]).0 as int) by {
                        if k < ob.len() {
                            assert(order@[k] == ob[k]);
                            assert(self.closed_at(vb, None, ob[k].0 as int));
                            assert forall|w: int| #[trigger] self.edge(ob[k].0 as int, w) && ControlFlowGraph::allowed(None, w)
                                implies visited@[w] by {
                                assert(vb[w]);
                                assert(vs[w]);
                            }
                        }
                    }
                    assert forall|v: int| 0 <= v < self.num_blocks() && #[trigger] visited@[v] && !v0[v]
                        implies order@.contains(BlockId(v as usize)) by {
                        if vs[v] {
                            if v == z.0 {
                                assert(order@[order@.len() - 1] == z);
                            } else {
                                assert(vb[v]);
                                assert(ob.contains(BlockId(v as usize)));
                                let i = choose|i: int| 0 <= i < ob.len() && ob[i] == BlockId(v as usize);
                                assert(order@[i] == ob[i]);
                            }
                        }
                    }
                    assert forall|i: int| 0 <= i < j + 1 implies visited@[(#[trigger] succ@[i]).0 as int] by {
                        if i < j {
                            assert(vb[succ@[i].0 as int]);
                            assert(vs[succ@[i].0 as int]);
                        } else {
                            assert(succ@[i] == z);
                            assert(vs[z.0 as int]);
                        }
                    }
                    assert(vs[b as int]);
                    assert(visited@[b as int]);
                    assert forall|i: int| 0 <= i < v0.len() && #[trigger] v0[i] implies visited@[i] by {
                        assert(vb[i]);
                        assert(vs[i]);
                    }
                    assert forall|k: int| o0.len() <= k < order@.len() implies !v0[(#[trigger] order@[k]).0 as int] by {
                        if k < ob.len() {
                            assert(order@[k] == ob[k]);
                        } else if k < order@.len() - 1 {
                            assert(!vb[order@[k].0 as int]);
                        } else {
                            assert(order@[k] == z);
                        }
                    }
                    assert(order@.subrange(0, o0.len() as int) =~= o0) by {
                        assert(order@.subrange(0, ob.len() as int) == ob);
                        assert forall|k: int| 0 <= k < o0.len() implies order@[k] == o0[k] by {
                            assert(order@[k] == ob[k]);
                            assert(ob[k] == o0[k]);
                        }
                    }
                }
            }
            j = j + 1;
        }
        proof {
            assert forall|k: int| 0 <= k < order@.len() implies (#[trigger] order@[k]).0 != b by {
                if k < o0.len() {
                    assert(order@[k] == o0[k]);
                } else {
                    assert(v0[b as int]);
                }
            }
        }
        proof {
            assert forall|w: int| #[trigger] self.edge(b as int, w) && ControlFlowGraph::allowed(None, w) implies visited@[w] by {
                assert(0 <= w < self.num_blocks());
                assert(self.successors@[b as int]@.contains(BlockId(w as usize)));
                assert(succ@.contains(BlockId(w as usize)));
                let i = choose|i: int| 0 <= i < succ@.len() && succ@[i] == BlockId(w as usize);
                assert(succ@[i].0 as int == w);
                assert(visited@[succ@[i].0 as int]);
            }
        }
        let ghost of = order@;
        order.push(BlockId(b));
        proof {
            assert(order@.subrange(0, o0.len() as int) =~= o0);
            assert forall|v: int| 0 <= v < self.num_blocks() && #[trigger] visited@[v] && !v0[v]
                implies order@.contains(BlockId(v as usize)) by {
                assert(of.contains(BlockId(v as usize)));
                let i = choose|i: int| 0 <= i < of.len() && of[i] == BlockId(v as usize);
                assert(order@[i] == of[i]);
            }
            assert forall|k: int| o0.len() <= k < order@.len() implies
                self.closed_at(visited@, None, (#[trigger] order@[k]).0 as int) by {
                if k < of.len() {
                    assert(order@[k] == of[k]);
                } else {
                    assert(order@[k] == BlockId(b));
                }
            }
        }
    }

    /// The blocks reachable from `entry`, each once, in the order in which a depth-first search
    /// from `entry` finishes them; `entry` comes last. Blocks that cannot be reached do not occur.
    pub fn post_order(&self, entry: BlockId) -> (r: Vec<BlockId>)
        requires
            self.wf(),
            entry.0 < self.num_blocks(),
        ensures
            distinct(r@),
            r@.len() > 0,
            r@.last() == entry,
            forall|k: int| 0 <= k < r@.len() ==> (#[trigger] r@[k]).0 < self.num_blocks()
                && self.reachable(entry.0 as int, None, r@[k].0 as int),
            forall|y: int| 0 <= y < self.num_blocks() && self.reachable(entry.0 as int, None, y)
                ==> r@.contains(BlockId(y as usize)),
    {
        let n = self.successors.len();
        let mut visited: Vec<bool> = vec![false; n];
        visited.set(entry.0, true);
        let mut order: Vec<BlockId> = Vec::new();
        proof {
            assert(BlockId((entry.0 as int) as usize) == entry);
            assert(self.is_path(entry.0 as int, None, seq![entry.0 as int]));
            assert forall|v: int| 0 <= v < n && #[trigger] visited@[v] implies self.reachable(entry.0 as int, None, v) by {
                assert(v == entry.0);
            }
        }
        let ghost v0 = visited@;
        self.visit(entry.0, entry.0, &mut visited, &mut order);
        proof {
            assert forall|v: int| 0 <= v < n && #[trigger] visited@[v] implies order@.contains(BlockId(v as usize)) by {
                if v == entry.0 {
                    assert(order@[order@.len() - 1] == entry);
                } else {
                    assert(!v0[v]);
                }
            }
            assert forall|v: int| 0 <= v < n && #[trigger] visited@[v] implies self.closed_at(visited@, None, v) by {
                assert(order@.contains(BlockId(v as usize)));
                let k = choose|k: int| 0 <= k < order@.len() && order@[k] == BlockId(v as usize);
                assert(self.closed_at(visited@, None, order@[k].0 as int));
            }
            assert forall|y: int| 0 <= y < n && self.reachable(entry.0 as int, None, y)
                implies order@.contains(BlockId(y as usize)) by {
                let p = choose|p: Seq<int>| #[trigger] self.is_path(entry.0 as int, None, p) && p.last() == y;
                self.lemma_closed_complete(visited@, entry.0 as int, None, p);
            }
        }
        order
    }

    /// The post-order reversed: `entry` first, then the other reachable blocks, each once.
    pub fn reverse_post_order(&self, entry: BlockId) -> (r: Vec<BlockId>)
        requires
            self.wf(),
            entry.0 < self.num_blocks(),
        ensures
            r@.len() > 0,
            r@[0] == entry,
            distinct(r@),
            forall|k: int| 0 <= k < r@.len() ==> (#[trigger] r@[k]).0 < self.num_blocks()
                && self.reachable(entry.0 as int, None, r@[k].0 as int),
            forall|y: int| 0 <= y < self.num_blocks() && self.reachable(entry.0 as int, None, y)
                ==> r@.contains(BlockId(y as usize)),
    {
        let po = self.post_order(entry);
        let mut r: Vec<BlockId> = Vec::new();
        let mut i: usize = po.len();
        while i > 0
            invariant
                i <= po@.len(),
                r@.len() == po@.len() - i,
                forall|k: int| 0 <= k < r@.len() ==> #[trigger] r@[k] == po@[po@.len() - 1 - k],
            decreases i,
        {
            i = i - 1;
            r.push(po[i]);
        }
        proof {
            assert forall|k: int| 0 <= k < r@.len() implies (#[trigger] r@[k]).0 < self.num_blocks()
                && self.reachable(entry.0 as int, None, r@[k].0 as int) by {
                assert(r@[k] == po@[po@.len() - 1 - k]);
            }
            assert forall|y: int| 0 <= y < self.num_blocks() && self.reachable(entry.0 as int, None, y)
                implies r@.contains(BlockId(y as usize)) by {
                let k = choose|k: int| 0 <= k < po@.len() && po@[k] == BlockId(y as usize);
                assert(r@[po@.len() - 1 - k] == po@[k]);
            }
            assert forall|a: int, b: int| 0 <= a < b < r@.len() implies r@[a] != r@[b] by {
                assert(r@[a] == po@[po@.len() - 1 - a]);
                assert(r@[b] == po@[po@.len() - 1 - b]);
            }
        }
        r
    }
}

} // verus!
