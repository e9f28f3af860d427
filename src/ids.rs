use vstd::prelude::*;

verus! {

/// Identifies a value of one function's data flow graph.
#[derive(Clone, Copy, Debug, PartialEq, Eq, Structural, PartialOrd, Ord, Hash)]
pub struct ValueId(pub usize);

/// Identifies an instruction of one function's data flow graph.
#[derive(Clone, Copy, Debug, PartialEq, Eq, Structural, PartialOrd, Ord, Hash)]
pub struct InstructionId(pub usize);

/// Identifies a basic block of one function's data flow graph.
#[derive(Clone, Copy, Debug, PartialEq, Eq, Structural, PartialOrd, Ord, Hash)]
pub struct BlockId(pub usize);

/// Identifies a function of a program.
#[derive(Clone, Copy, Debug, PartialEq, Eq, Structural, PartialOrd, Ord, Hash)]
pub struct FunctionId(pub usize);

/// Every id of `s` indexes a table of `n` entries.
pub open spec fn values_below(s: Seq<ValueId>, n: nat) -> bool {
    forall|k: int| 0 <= k < s.len() ==> (#[trigger] s[k]).0 < n
}

pub proof fn lemma_values_below_mono(s: Seq<ValueId>, n: nat, m: nat)
    requires
        values_below(s, n),
        n <= m,
    ensures
        values_below(s, m),
{
}

/// Copies a list of value ids.
pub fn copy_values(v: &Vec<ValueId>) -> (r: Vec<ValueId>)
    ensures
        r@ == v@,
{
    copy_vec(v)
}

/// Copies a list of plain values.
pub fn copy_vec<T: Copy>(v: &Vec<T>) -> (r: Vec<T>)
    ensures
        r@ == v@,
{
    let mut r: Vec<T> = Vec::new();
    let mut i: usize = 0;
    while i < v.len()
        invariant
            i <= v.len(),
            r@ == v@.subrange(0, i as int),
        decreases v.len() - i,
    {
        r.push(v[i]);
        i = i + 1;
        assert(r@ =~= v@.subrange(0, i as int));
    }
    assert(r@ =~= v@);
    r
}

} // verus!
