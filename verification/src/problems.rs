//! Worksheet problems: a column of operands combined by one operator.

use vstd::prelude::*;

verus! {

/// The operator of one worksheet column.
#[derive(Clone, Copy)]
pub enum Op {
    Add,
    Mul,
}

/// The sum of a sequence of operands.
pub open spec fn seq_sum(s: Seq<u64>) -> int
    decreases s.len(),
{
    if s.len() == 0 {
        0
    } else {
        seq_sum(s.drop_last()) + s.last()
    }
}

/// The product of a sequence of operands.
pub open spec fn seq_prod(s: Seq<u64>) -> int
    decreases s.len(),
{
    if s.len() == 0 {
        1
    } else {
        seq_prod(s.drop_last()) * s.last()
    }
}

/// One problem: its operands and the operator that combines them.
pub struct Problem {
    pub operands: Vec<u64>,
    pub op: Op,
}

impl Problem {
    /// A problem from its parts.
    pub fn new(operands: Vec<u64>, op: Op) -> (r: Problem)
        ensures
            r.operands@ == operands@,
            r.op == op,
    {
        Problem { operands, op }
    }

    /// The problem's answer: the sum or the product of its operands.
    pub fn solve(&self) -> (r: u64)
        requires
            self.op is Add ==> seq_sum(self.operands@) <= u64::MAX,
            self.op is Mul ==> forall|i: int| 0 <= i <= self.operands@.len()
                ==> 0 <= seq_prod(#[trigger] self.operands@.take(i)) <= u64::MAX,
        ensures
            self.op is Add ==> r == seq_sum(self.operands@),
            self.op is Mul ==> r == seq_prod(self.operands@),
    {
        let ops = &self.operands;
        match self.op {
            Op::Add => {
                let mut acc: u64 = 0;
                let mut i: usize = 0;
                while i < ops.len()
                    invariant
                        ops@ == self.operands@,
                        seq_sum(ops@) <= u64::MAX,
                        i <= ops@.len(),
                        acc == seq_sum(ops@.take(i as int)),
                    decreases ops@.len() - i,
                {
                    proof {
                        assert(ops@.take(i + 1).drop_last() =~= ops@.take(i as int));
                        assert(ops@.take(i + 1).last() == ops@[i as int]);
                        lemma_seq_sum_take_le(ops@, i + 1);
                        lemma_seq_sum_nonneg(ops@.take(i as int));
                    }
                    acc += ops[i];
                    i += 1;
                }
                proof {
                    assert(ops@.take(ops@.len() as int) =~= ops@);
                }
                acc
            },
            Op::Mul => {
                let mut acc: u64 = 1;
                let mut i: usize = 0;
                while i < ops.len()
                    invariant
                        ops@ == self.operands@,
                        forall|k: int| 0 <= k <= ops@.len()
                            ==> 0 <= seq_prod(#[trigger] ops@.take(k)) <= u64::MAX,
                        i <= ops@.len(),
                        acc == seq_prod(ops@.take(i as int)),
                    decreases ops@.len() - i,
                {
                    proof {
                        assert(ops@.take(i + 1).drop_last() =~= ops@.take(i as int));
                        assert(ops@.take(i + 1).last() == ops@[i as int]);
                        assert(seq_prod(ops@.take(i + 1))
                            == seq_prod(ops@.take(i as int)) * ops@[i as int]);
                    }
                    acc = acc * ops[i];
                    i += 1;
                }
                proof {
                    assert(ops@.take(ops@.len() as int) =~= ops@);
                }
                acc
            },
        }
    }
}

proof fn lemma_seq_sum_nonneg(s: Seq<u64>)
    ensures
        seq_sum(s) >= 0,
    decreases s.len(),
{
    if s.len() > 0 {
        lemma_seq_sum_nonneg(s.drop_last());
    }
}

proof fn lemma_seq_sum_take_le(s: Seq<u64>, i: int)
    requires
        0 <= i <= s.len(),
    ensures
        seq_sum(s.take(i)) <= seq_sum(s),
    decreases s.len() - i,
{
    if i == s.len() {
        assert(s.take(i) =~= s);
    } else {
        assert(s.take(i + 1).drop_last() =~= s.take(i));
        lemma_seq_sum_take_le(s, i + 1);
    }
}

} // verus!
