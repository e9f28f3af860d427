use vstd::prelude::*;
use crate::dfg::{DataFlowGraph, IrError};
use crate::ids::{BlockId, ValueId, values_below};
use crate::instruction::{Instruction, Terminator, Value};
use crate::types::Type;

verus! {

/// Every value that `map` gives is a value of a graph with `n` values.
pub open spec fn map_below(map: Seq<Option<ValueId>>, n: nat) -> bool {
    forall|v: int| 0 <= v < map.len() ==> (#[trigger] map[v] matches Some(t) ==> t.0 < n)
}

/// `new` reads, position by position, what `map` gives for what `old` reads.
pub open spec fn remapped(new: Seq<ValueId>, old: Seq<ValueId>, map: Seq<Option<ValueId>>) -> bool {
    new.len() == old.len() && forall|k: int| 0 <= k < old.len() ==>
        0 <= (#[trigger] old[k]).0 < map.len() && map[old[k].0 as int] == Some(new[k])
}

/// Every id of `s` has an entry in `map`.
pub open spec fn all_mapped(s: Seq<ValueId>, map: Seq<Option<ValueId>>) -> bool {
    forall|k: int| 0 <= k < s.len() ==> (#[trigger] s[k]).0 < map.len() && map[s[k].0 as int] is Some
}

fn map_value(v: ValueId, map: &Vec<Option<ValueId>>) -> (r: Option<ValueId>)
    ensures
        r matches Some(t) ==> v.0 < map@.len() && map@[v.0 as int] == Some(t),
        r is None ==> !(v.0 < map@.len() && map@[v.0 as int] is Some),
{
    if v.0 < map.len() {
        map[v.0]
    } else {
        None
    }
}

fn map_values(vs: &Vec<ValueId>, map: &Vec<Option<ValueId>>) -> (r: Option<Vec<ValueId>>)
    ensures
        r matches Some(ws) ==> remapped(ws@, vs@, map@),
        r is None ==> exists|k: int| 0 <= k < vs@.len() && !((#[trigger] vs@[k]).0 < map@.len() && map@[vs@[k].0 as int] is Some),
{
    let mut ws: Vec<ValueId> = Vec::new();
    let mut i: usize = 0;
    while i < vs.len()
        invariant
            i <= vs@.len(),
            remapped(ws@, vs@.subrange(0, i as int), map@),
        decreases vs@.len() - i,
    {
        match map_value(vs[i], map) {
            Some(t) => ws.push(t),
            None => {
                assert(!((vs@[i as int]).0 < map@.len() && map@[vs@[i as int].0 as int] is Some));
                return None;
            },
        }
        i = i + 1;
        assert forall|k: int| 0 <= k < i implies 0 <= (#[trigger] vs@.subrange(0, i as int)[k]).0 < map@.len()
            && map@[vs@.subrange(0, i as int)[k].0 as int] == Some(ws@[k]) by {
            if k < i - 1 {
                assert(vs@.subrange(0, i as int)[k] == vs@.subrange(0, i - 1)[k]);
            }
        }
    }
    assert(vs@.subrange(0, i as int) =~= vs@);
    Some(ws)
}

/// The instruction with each operand replaced by what `map` gives for it; `None` if an operand has no entry.
pub fn remap_instruction(ins: &Instruction, map: &Vec<Option<ValueId>>) -> (r: Option<Instruction>)
    ensures
        r is Some <==> all_mapped(ins.operands(), map@),
        r matches Some(n) ==> n.same_shape(ins) && remapped(n.operands(), ins.operands(), map@),
{
    match ins {
        Instruction::Binary { op, lhs, rhs } => {
            assert(ins.operands().len() == 2 && ins.operands()[0] == *lhs && ins.operands()[1] == *rhs);
            match (map_value(*lhs, map), map_value(*rhs, map)) {
                (Some(a), Some(b)) => {
                    let n = Instruction::Binary { op: *op, lhs: a, rhs: b };
                    assert(n.operands()[0] == a && n.operands()[1] == b);
                    Some(n)
                },
                _ => None,
            }
        },
        Instruction::Not(v) => {
            assert(ins.operands().len() == 1 && ins.operands()[0] == *v);
            match map_value(*v, map) {
                Some(a) => {
                    let n = Instruction::Not(a);
                    assert(n.operands()[0] == a);
                    Some(n)
                },
                None => None,
            }
        },
        Instruction::Call { func, arguments } => {
            assert(ins.operands()[0] == *func);
            assert forall|k: int| 0 < k < ins.operands().len() implies ins.operands()[k] == arguments@[k - 1] by {}
            match (map_value(*func, map), map_values(arguments, map)) {
                (Some(f), Some(args)) => {
                    let n = Instruction::Call { func: f, arguments: args };
                    assert forall|k: int| 0 <= k < ins.operands().len() implies 0 <= (#[trigger] ins.operands()[k]).0 < map@.len()
                        && map@[ins.operands()[k].0 as int] == Some(n.operands()[k]) by {
                        if k > 0 {
                            assert(ins.operands()[k] == arguments@[k - 1]);
                            assert(n.operands()[k] == n.operands().subrange(1, n.operands().len() as int)[k - 1]);
                        }
                    }
                    Some(n)
                },
                (None, _) => None,
                (_, None) => {
                    proof {
                        let k = choose|k: int| 0 <= k < arguments@.len() && !((#[trigger] arguments@[k]).0 < map@.len() && map@[arguments@[k].0 as int] is Some);
                        assert(ins.operands()[k + 1] == arguments@[k]);
                    }
                    None
                },
            }
        },
    }
}

/// Pair `s` of `substitution` names a parameter of block `from` of `source` and a value of `target`,
/// and no earlier pair names the same parameter.
pub open spec fn pair_ok(source: DataFlowGraph, target: DataFlowGraph, from: BlockId, substitution: Seq<(ValueId, ValueId)>, s: int) -> bool {
    let (p, a) = substitution[s];
    &&& p.0 < source.values@.len()
    &&& a.0 < target.values@.len()
    &&& source.values@[p.0 as int] matches Value::Param { block, .. } && block == from
    &&& forall|s2: int| 0 <= s2 < s ==> (#[trigger] substitution[s2]).0 != p
}

pub open spec fn pairs_ok(source: DataFlowGraph, target: DataFlowGraph, from: BlockId, substitution: Seq<(ValueId, ValueId)>) -> bool {
    forall|s: int| 0 <= s < substitution.len() ==> #[trigger] pair_ok(source, target, from, substitution, s)
}

pub open spec fn pairs_typed(source: DataFlowGraph, target: DataFlowGraph, substitution: Seq<(ValueId, ValueId)>) -> bool {
    forall|s: int| 0 <= s < substitution.len() ==>
        source.spec_value_type((#[trigger] substitution[s]).0) == target.spec_value_type(substitution[s].1)
}

/// Entries of `m1` stay in `m2`.
pub open spec fn map_grows(m1: Seq<Option<ValueId>>, m2: Seq<Option<ValueId>>) -> bool {
    m1.len() == m2.len() && forall|v: int| 0 <= v < m1.len() && (#[trigger] m1[v]) is Some ==> m2[v] == m1[v]
}

proof fn lemma_remapped_grows(n: Seq<ValueId>, o: Seq<ValueId>, m1: Seq<Option<ValueId>>, m2: Seq<Option<ValueId>>)
    requires
        remapped(n, o, m1),
        map_grows(m1, m2),
    ensures
        remapped(n, o, m2),
{
    assert forall|k: int| 0 <= k < o.len() implies 0 <= (#[trigger] o[k]).0 < m2.len() && m2[o[k].0 as int] == Some(n[k]) by {
        assert(m1[o[k].0 as int] is Some);
    }
}

/// What the copy keeps of `source` in `target` through the value map `m`: each substituted
/// parameter becomes its argument, and each constant or function reference becomes an equal value.
pub open spec fn map_keeps(source: DataFlowGraph, target: DataFlowGraph, substitution: Seq<(ValueId, ValueId)>, m: Seq<Option<ValueId>>) -> bool {
    &&& m.len() == source.values@.len()
    &&& forall|s: int| 0 <= s < substitution.len() ==> m[(#[trigger] substitution[s]).0.0 as int] == Some(substitution[s].1)
    &&& forall|v: int| 0 <= v < m.len() && ((#[trigger] source.values@[v]) is NumericConstant || source.values@[v] is Function) ==>
        (m[v] matches Some(t) && t.0 < target.values@.len() && target.values@[t.0 as int] == source.values@[v])
}

/// Copies the instructions of block `from` of `source` to the end of block `at` of `target`, for inlining.
/// Each pair `(p, a)` of `substitution` makes the copies read `a`, a value of `target` of the same type,
/// where the source reads `p`, a parameter of `from`. Constants and function references of the source
/// are copied; instruction results are those of the copies. `from` must end in a return: the values
/// it returns, as read in `target`, are the result.
pub fn inline_block(
    target: &mut DataFlowGraph,
    at: BlockId,
    source: &DataFlowGraph,
    from: BlockId,
    substitution: &Vec<(ValueId, ValueId)>,
) -> (r: Result<Vec<ValueId>, IrError>)
    requires
        old(target).wf(),
        source.wf(),
    ensures
        final(target).wf(),
        (!source.valid_block(from) || !old(target).valid_block(at)
            || !pairs_ok(*source, *old(target), from, substitution@)) ==> (r == Err::<Vec<ValueId>, IrError>(IrError::InvalidIdentifier)
            && *final(target) == *old(target)),
        (source.valid_block(from) && old(target).valid_block(at) && pairs_ok(*source, *old(target), from, substitution@)
            && !pairs_typed(*source, *old(target), substitution@)) ==> (r == Err::<Vec<ValueId>, IrError>(IrError::TypeMismatch)
            && *final(target) == *old(target)),
        (source.valid_block(from) && old(target).valid_block(at) && pairs_ok(*source, *old(target), from, substitution@)
            && pairs_typed(*source, *old(target), substitution@) && old(target).blocks@[at.0 as int].is_terminated())
            ==> (r == Err::<Vec<ValueId>, IrError>(IrError::BlockAlreadyTerminated) && *final(target) == *old(target)),
        r matches Ok(vs) ==> {
            let sb = source.blocks@[from.0 as int];
            let ni0 = old(target).instructions@.len();
            &&& final(target).instructions@.len() == ni0 + sb.instructions@.len()
            &&& sb.terminator matches Some(Terminator::Return(rv)) && exists|m: Seq<Option<ValueId>>| {
                &&& #[trigger] map_keeps(*source, *final(target), substitution@, m)
                &&& remapped(vs@, rv@, m)
                &&& forall|k: int| 0 <= k < sb.instructions@.len() ==> {
                    &&& (#[trigger] final(target).instructions@[ni0 + k]).same_shape(&source.instructions@[sb.instructions@[k].0 as int])
                    &&& remapped(final(target).instructions@[ni0 + k].operands(), source.instructions@[sb.instructions@[k].0 as int].operands(), m)
                }
            }
        },
{
    if from.0 >= source.blocks.len() || at.0 >= target.blocks.len() {
        return Err(IrError::InvalidIdentifier);
    }
    let ghost t0 = *target;
    let n = source.values.len();
    let mut s: usize = 0;
    while s < substitution.len()
        invariant
            *target == t0,
            t0 == *old(target),
            t0.wf(),
            from.0 < source.blocks@.len(),
            at.0 < t0.blocks@.len(),
            n == source.values@.len(),
            s <= substitution@.len(),
            forall|j: int| 0 <= j < s ==> #[trigger] pair_ok(*source, t0, from, substitution@, j),
        decreases substitution@.len() - s,
    {
        let (p, a) = substitution[s];
        let ok = p.0 < n && a.0 < target.values.len() && match &source.values[p.0] {
            Value::Param { block, .. } => *block == from,
            _ => false,
        };
        if !ok {
            assert(!pair_ok(*source, t0, from, substitution@, s as int));
            return Err(IrError::InvalidIdentifier);
        }
        let mut s2: usize = 0;
        while s2 < s
            invariant
                *target == t0,
                t0 == *old(target),
                t0.wf(),
                s2 <= s < substitution@.len(),
                substitution@[s as int].0 == p,
                forall|j: int| 0 <= j < s2 ==> (#[trigger] substitution@[j]).0 != p,
            decreases s - s2,
        {
            if substitution[s2].0 == p {
                assert(!pair_ok(*source, t0, from, substitution@, s as int));
                return Err(IrError::InvalidIdentifier);
            }
            s2 = s2 + 1;
        }
        assert(pair_ok(*source, t0, from, substitution@, s as int));
        s = s + 1;
    }
    let mut s: usize = 0;
    while s < substitution.len()
        invariant
            *target == t0,
            t0 == *old(target),
            t0.wf(),
            from.0 < source.blocks@.len(),
            at.0 < t0.blocks@.len(),
            n == source.values@.len(),
            s <= substitution@.len(),
            pairs_ok(*source, t0, from, substitution@),
            forall|j: int| 0 <= j < s ==> source.spec_value_type((#[trigger] substitution@[j]).0) == t0.spec_value_type(substitution@[j].1),
        decreases substitution@.len() - s,
    {
        let (p, a) = substitution[s];
        assert(pair_ok(*source, t0, from, substitution@, s as int));
        if source.values[p.0].get_type() != target.values[a.0].get_type() {
            return Err(IrError::TypeMismatch);
        }
        s = s + 1;
    }
    if target.blocks[at.0].terminator.is_some() {
        return Err(IrError::BlockAlreadyTerminated);
    }
    let mut map: Vec<Option<ValueId>> = Vec::new();
    let mut v: usize = 0;
    while v < n
        invariant
            v <= n,
            n == source.values@.len(),
            map@.len() == v,
            target.wf(),
            map_below(map@, target.values@.len() as nat),
            target.instructions == t0.instructions,
            target.blocks == t0.blocks,
            target.values@.len() >= t0.values@.len(),
            target.values@.subrange(0, t0.values@.len() as int) == t0.values@,
            t0 == *old(target),
            pairs_ok(*source, t0, from, substitution@),
            pairs_typed(*source, t0, substitution@),
            !t0.blocks@[at.0 as int].is_terminated(),
            from.0 < source.blocks@.len(),
            at.0 < t0.blocks@.len(),
            forall|x: int| 0 <= x < v && ((#[trigger] source.values@[x]) is NumericConstant || source.values@[x] is Function) ==>
                (map@[x] matches Some(t) && t.0 < target.values@.len() && target.values@[t.0 as int] == source.values@[x]),
            forall|x: int| 0 <= x < v && (#[trigger] source.values@[x]) is Param ==> map@[x] is None,
        decreases n - v,
    {
        let ghost tv = target.values@;
        let e = match &source.values[v] {
            Value::NumericConstant { .. } | Value::Function(_) => {
                let c = source.values[v];
                Some(target.make_constant_value(c))
            },
            _ => None,
        };
        map.push(e);
        proof {
            assert(target.values@.subrange(0, t0.values@.len() as int) =~= t0.values@) by {
                assert forall|i: int| 0 <= i < t0.values@.len() implies target.values@[i] == t0.values@[i] by {
                    assert(tv.subrange(0, t0.values@.len() as int)[i] == t0.values@[i]);
                }
            }
            assert forall|x: int| 0 <= x < v + 1 && ((#[trigger] source.values@[x]) is NumericConstant || source.values@[x] is Function) implies
                (map@[x] matches Some(t) && t.0 < target.values@.len() && target.values@[t.0 as int] == source.values@[x]) by {
                if x < v {
                    let t = map@[x].unwrap();
                    assert(target.values@[t.0 as int] == tv[t.0 as int]);
                }
            }
        }
        v = v + 1;
    }
    let mut s: usize = 0;
    while s < substitution.len()
        invariant
            map@.len() == n,
            n == source.values@.len(),
            target.wf(),
            t0.wf(),
            target.values@.len() >= t0.values@.len(),
            map_below(map@, target.values@.len() as nat),
            pairs_ok(*source, t0, from, substitution@),
            s <= substitution@.len(),
            forall|x: int| 0 <= x < n && ((#[trigger] source.values@[x]) is NumericConstant || source.values@[x] is Function) ==>
                (map@[x] matches Some(t) && t.0 < target.values@.len() && target.values@[t.0 as int] == source.values@[x]),
            forall|j: int| 0 <= j < s ==> map@[(#[trigger] substitution@[j]).0.0 as int] == Some(substitution@[j].1),
            target.instructions == t0.instructions,
            target.blocks == t0.blocks,
            t0 == *old(target),
            pairs_typed(*source, t0, substitution@),
            !t0.blocks@[at.0 as int].is_terminated(),
            from.0 < source.blocks@.len(),
            at.0 < t0.blocks@.len(),
        decreases substitution@.len() - s,
    {
        let (p, a) = substitution[s];
        assert(pair_ok(*source, t0, from, substitution@, s as int));
        let ghost mb = map@;
        map.set(p.0, Some(a));
        proof {
            assert(map@ == mb.update(p.0 as int, Some(a)));
            assert forall|j: int| 0 <= j < s + 1 implies map@[(#[trigger] substitution@[j]).0.0 as int] == Some(substitution@[j].1) by {
                assert(pair_ok(*source, t0, from, substitution@, j));
                if j < s {
                    assert(substitution@[j].0 != p);
                    assert(substitution@[j].0.0 != p.0);
                    assert(mb[substitution@[j].0.0 as int] == Some(substitution@[j].1));
                } else {
                    assert(substitution@[j] == (p, a));
                }
            }
        }
        s = s + 1;
    }
    let block = &source.blocks[from.0];
    let count = block.instructions.len();
    let ni0 = target.instructions.len();
    let mut k: usize = 0;
    assert(block.instructions@.len() == source.blocks@[from.0 as int].instructions@.len());
    while k < count
        invariant
            k <= count,
            count == source.blocks@[from.0 as int].instructions@.len(),
            block == &source.blocks@[from.0 as int],
            from.0 < source.blocks@.len(),
            source.wf(),
            map@.len() == n,
            n == source.values@.len(),
            target.wf(),
            at.0 < target.blocks@.len(),
            map_below(map@, target.values@.len() as nat),
            ni0 == t0.instructions@.len(),
            t0 == *old(target),
            pairs_ok(*source, t0, from, substitution@),
            pairs_typed(*source, t0, substitution@),
            !t0.blocks@[at.0 as int].is_terminated(),
            at.0 < t0.blocks@.len(),
            target.instructions@.len() == ni0 + k,
            map_keeps(*source, *target, substitution@, map@),
            forall|j: int| 0 <= j < k ==> {
                &&& (#[trigger] target.instructions@[ni0 + j]).same_shape(
                    &source.instructions@[source.blocks@[from.0 as int].instructions@[j].0 as int])
                &&& remapped(target.instructions@[ni0 + j].operands(),
                    source.instructions@[source.blocks@[from.0 as int].instructions@[j].0 as int].operands(), map@)
            },
        decreases count - k,
    {
        let iid = block.instructions[k];
        assert(crate::dfg::block_ok(source.blocks@[from.0 as int], source.values@.len() as nat,
            source.instructions@.len() as nat, source.blocks@.len() as nat));
        assert(iid.0 < source.instructions@.len());
        let ins = &source.instructions[iid.0];
        let copied = match remap_instruction(ins, &map) {
            Some(c) => c,
            None => {
                return Err(IrError::InvalidIdentifier);
            },
        };
        let rs = &source.results[iid.0];
        let mut types: Vec<Type> = Vec::new();
        let mut q: usize = 0;
        while q < rs.len()
            invariant
                q <= rs@.len(),
                source.wf(),
                rs@ == source.results@[iid.0 as int]@,
                iid.0 < source.instructions@.len(),
            decreases rs@.len() - q,
        {
            assert(values_below(source.results@[iid.0 as int]@, source.values@.len() as nat));
            assert(rs@[q as int].0 < source.values@.len());
            types.push(source.values[rs[q].0].get_type());
            q = q + 1;
        }
        let ghost tb = *target;
        proof {
            assert forall|j: int| 0 <= j < copied.operands().len() implies (#[trigger] copied.operands()[j]).0 < target.values@.len() by {
                let o = ins.operands()[j];
                assert(map@[o.0 as int] == Some(copied.operands()[j]));
            }
        }
        let new_results = match target.insert_instruction(at, copied, types) {
            Ok(vs) => vs,
            Err(e) => {
                return Err(e);
            },
        };
        let ghost m0 = map@;
        let mut q: usize = 0;
        while q < rs.len() && q < new_results.len()
            invariant
                map@.len() == n,
                map_below(map@, target.values@.len() as nat),
                values_below(new_results@, target.values@.len() as nat),
                map_grows(m0, map@),
            decreases rs@.len() - q,
        {
            let sv = rs[q];
            if sv.0 < map.len() && map[sv.0].is_none() {
                map.set(sv.0, Some(new_results[q]));
            }
            q = q + 1;
        }
        proof {
            assert forall|j: int| 0 <= j < k + 1 implies {
                &&& (#[trigger] target.instructions@[ni0 + j]).same_shape(
                    &source.instructions@[source.blocks@[from.0 as int].instructions@[j].0 as int])
                &&& remapped(target.instructions@[ni0 + j].operands(),
                    source.instructions@[source.blocks@[from.0 as int].instructions@[j].0 as int].operands(), map@)
            } by {
                if j < k {
                    assert(target.instructions@[ni0 + j] == tb.instructions@[ni0 + j]);
                }
                lemma_remapped_grows(target.instructions@[ni0 + j].operands(),
                    source.instructions@[source.blocks@[from.0 as int].instructions@[j].0 as int].operands(), m0, map@);
            }
            assert forall|s: int| 0 <= s < substitution@.len() implies map@[(#[trigger] substitution@[s]).0.0 as int] == Some(substitution@[s].1) by {
                assert(pair_ok(*source, t0, from, substitution@, s));
                assert(m0[substitution@[s].0.0 as int] is Some);
            }
            assert forall|v: int| 0 <= v < map@.len() && ((#[trigger] source.values@[v]) is NumericConstant || source.values@[v] is Function) implies
                (map@[v] matches Some(t) && t.0 < target.values@.len() && target.values@[t.0 as int] == source.values@[v]) by {
                assert(m0[v] is Some);
                let t = m0[v].unwrap();
                assert(target.values@[t.0 as int] == tb.values@[t.0 as int]);
            }
        }
        k = k + 1;
    }
    match &block.terminator {
        Some(Terminator::Return(vs)) => {
            match map_values(vs, &map) {
                Some(ws) => {
                    proof {
                        assert forall|j: int| 0 <= j < ws@.len() implies (#[trigger] ws@[j]).0 < target.values@.len() by {
                            assert(map@[vs@[j].0 as int] == Some(ws@[j]));
                        }
                        assert(map_keeps(*source, *target, substitution@, map@));
                    }
                    Ok(ws)
                },
                None => Err(IrError::InvalidIdentifier),
            }
        },
        _ => Err(IrError::InvalidIdentifier),
    }
}

} // verus!
