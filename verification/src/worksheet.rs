//! Column-wise worksheet reading: operand digits run down the columns, the
//! operator row sits at the bottom, and columns are read right to left.

use vstd::prelude::*;
use vstd::string::StringSliceAdditionalSpecFns;

verus! {

/// An operator met at the bottom of a column.
#[derive(PartialEq, Eq, Structural)]
pub enum Op {
    Add,
    Mull,
}

/// The number read down one column: digits concatenated top to bottom,
/// spaces skipped, over the first n rows.
pub open spec fn col_val(rows: Seq<Vec<u8>>, pos: int, n: int) -> int
    decreases n,
{
    if n <= 0 {
        0
    } else {
        let b = rows[n - 1]@[pos];
        if b == 32 {
            col_val(rows, pos, n - 1)
        } else {
            col_val(rows, pos, n - 1) * 10 + (b - 48)
        }
    }
}

/// Every byte in the column is a digit or a space, with at least one digit.
pub open spec fn col_ok(rows: Seq<Vec<u8>>, pos: int) -> bool {
    &&& forall|i: int| 0 <= i < rows.len()
        ==> (#[trigger] rows[i])@[pos] == 32 || 48 <= rows[i]@[pos] <= 57
    &&& exists|i: int| 0 <= i < rows.len() && (#[trigger] rows[i])@[pos] != 32
}

/// A reader over the worksheet: operand rows, the operator row, and the
/// column cursor, which moves right to left.
pub struct WorksheetReader {
    pub operand_rows: Vec<Vec<u8>>,
    pub operator_row: Vec<u8>,
    pub pos: usize,
    pub finished: bool,
}

impl WorksheetReader {
    /// Rows all have the same positive width, the cursor is on a column,
    /// and all bytes are ASCII.
    pub open spec fn wf(&self) -> bool {
        &&& self.operator_row@.len() >= 1
        &&& self.operand_rows@.len() >= 1
        &&& forall|i: int| 0 <= i < self.operand_rows@.len()
            ==> (#[trigger] self.operand_rows@[i])@.len() == self.operator_row@.len()
        &&& self.pos < self.operator_row@.len()
    }

    /// Split the worksheet text into rows and check their shape: at least
    /// two lines, equal widths, ASCII only, and a non-empty first line.
    pub fn new(content: &str) -> (r: Result<WorksheetReader, &'static str>)
        ensures
            r matches Ok(w) ==> w.wf() && !w.finished
                && w.pos == w.operator_row@.len() - 1,
    {
        let bs = content.as_bytes();
        let n = bs.len();
        let mut rows: Vec<Vec<u8>> = Vec::new();
        let mut cur: Vec<u8> = Vec::new();
        let mut i: usize = 0;
        while i < n
            invariant
                n == bs@.len(),
                i <= n,
            decreases n - i,
        {
            let b = bs[i];
            if b == 10 {
                rows.push(cur);
                cur = Vec::new();
            } else {
                if b >= 128 {
                    return Err("input is expected to be ascii");
                }
                cur.push(b);
            }
            i += 1;
        }
        if cur.len() > 0 {
            rows.push(cur);
        }
        if rows.len() < 2 {
            return Err("Worksheet must have 2 lines minimum");
        }
        let width = rows[0].len();
        if width == 0 {
            return Err("Inconsistent row lengths in worksheet");
        }
        let mut k: usize = 0;
        while k < rows.len()
            invariant
                k <= rows@.len(),
                rows@.len() >= 2,
                width >= 1,
                width == rows@[0]@.len(),
                forall|j: int| 0 <= j < k ==> (#[trigger] rows@[j])@.len() == width,
            decreases rows@.len() - k,
        {
            if rows[k].len() != width {
                return Err("Inconsistent row lengths in worksheet");
            }
            k += 1;
        }
        let operator_row = match rows.pop() {
            Some(r) => r,
            None => {
                return Err("Worksheet must have 2 lines minimum");
            },
        };
        Ok(WorksheetReader {
            operand_rows: rows,
            operator_row,
            pos: width - 1,
            finished: false,
        })
    }

    /// Read the column under the cursor: its operand and, if the operator
    /// row holds one there, its operator; then step the cursor left, one
    /// extra column after an operator. None once the sheet is exhausted.
    /// A column with a bad byte, no digits, or an oversized operand is an
    /// error and leaves the reader unchanged.
    pub fn next(&mut self) -> (r: Option<Result<(u64, Option<Op>), &'static str>>)
        requires
            old(self).wf(),
        ensures
            final(self).wf(),
            final(self).operand_rows@ == old(self).operand_rows@,
            final(self).operator_row@ == old(self).operator_row@,
            r is None <==> old(self).finished,
            old(self).finished ==> *final(self) == *old(self),
            r matches Some(Ok((v, op))) ==> {
                let rows = old(self).operand_rows@;
                let p = old(self).pos as int;
                let opb = old(self).operator_row@[p];
                &&& col_ok(rows, p)
                &&& v == col_val(rows, p, rows.len() as int)
                &&& (op is Some <==> (opb == 43 || opb == 42))
                &&& (opb == 43 ==> op == Some(Op::Add))
                &&& (opb == 42 ==> op == Some(Op::Mull))
                &&& final(self).finished == (p == 0 || (op is Some && p == 1))
                &&& final(self).pos == if p == 0 {
                    0int
                } else if op is Some && p >= 2 {
                    p - 2
                } else if p >= 1 && !(op is Some) {
                    p - 1
                } else {
                    0int
                }
            },
            r matches Some(Err(e)) ==> *final(self) == *old(self),
    {
        if self.finished {
            return None;
        }
        let p = self.pos;
        let n = self.operand_rows.len();
        let mut val: u64 = 0;
        let mut saw_digit = false;
        let mut i: usize = 0;
        while i < n
            invariant
                old(self).wf(),
                !old(self).finished,
                p == old(self).pos,
                n == self.operand_rows@.len(),
                i <= n,
                forall|j: int| 0 <= j < i ==> (#[trigger] self.operand_rows@[j])@[p as int] == 32
                    || 48 <= self.operand_rows@[j]@[p as int] <= 57,
                saw_digit <==> exists|j: int| 0 <= j < i
                    && (#[trigger] self.operand_rows@[j])@[p as int] != 32,
                val == col_val(self.operand_rows@, p as int, i as int),
            decreases n - i,
        {
            let b = self.operand_rows[i][p];
            if b == 32 {
                proof {
                    assert(self.operand_rows@[i as int]@[p as int] == 32);
                }
            } else if 48 <= b && b <= 57 {
                let d = (b - 48) as u64;
                if val > (u64::MAX - d) / 10 {
                    return Some(Err("operand does not fit"));
                }
                val = val * 10 + d;
                saw_digit = true;
                proof {
                    assert(self.operand_rows@[i as int]@[p as int] != 32);
                }
            } else {
                return Some(Err("Invalid character in operand rows"));
            }
            i += 1;
        }
        if !saw_digit {
            return Some(Err("empty operand column"));
        }
        let c = self.operator_row[p];
        let op: Option<Op> = if c == 32 {
            None
        } else if c == 43 {
            Some(Op::Add)
        } else if c == 42 {
            Some(Op::Mull)
        } else {
            return Some(Err("Invalid operator character in operator row"));
        };
        let has_op = match op {
            Some(_) => true,
            None => false,
        };
        if self.pos == 0 {
            self.finished = true;
        } else {
            self.pos = self.pos - 1;
        }
        if has_op && !self.finished {
            if self.pos == 0 {
                self.finished = true;
            } else {
                self.pos = self.pos - 1;
            }
        }
        Some(Ok((val, op)))
    }
}

/// The worksheet total, read column by column from the right: operands
/// gather until an operator column, which folds them into the tally (sum
/// for +, product for *) and skips one separator column.
pub open spec fn spec_tally(
    rows: Seq<Vec<u8>>, ops: Seq<u8>, p: int, alive: bool, pending: Seq<u64>, acc: int,
) -> int
    decreases (if !alive || p < 0 { 0int } else { p + 1 }),
{
    if !alive || p < 0 {
        acc
    } else {
        let v = col_val(rows, p, rows.len() as int);
        let pend2 = pending.push(v as u64);
        let opb = ops[p];
        let folded = opb == 43 || opb == 42;
        let acc2 = if opb == 43 {
            acc + crate::problems::seq_sum(pend2)
        } else if opb == 42 {
            acc + crate::problems::seq_prod(pend2)
        } else {
            acc
        };
        let pend3: Seq<u64> = if folded { Seq::empty() } else { pend2 };
        if p == 0 {
            acc2
        } else if folded && p == 1 {
            acc2
        } else if folded {
            spec_tally(rows, ops, p - 2, true, pend3, acc2)
        } else {
            spec_tally(rows, ops, p - 1, true, pend3, acc2)
        }
    }
}

/// The sum of the pending operands, or an error when it cannot be held.
fn fold_sum(operands: &Vec<u64>) -> (r: Result<u64, &'static str>)
    ensures
        r matches Ok(v) ==> v == crate::problems::seq_sum(operands@),
{
    let mut acc: u64 = 0;
    let mut i: usize = 0;
    while i < operands.len()
        invariant
            i <= operands@.len(),
            acc == crate::problems::seq_sum(operands@.take(i as int)),
        decreases operands@.len() - i,
    {
        proof {
            assert(operands@.take(i + 1).drop_last() =~= operands@.take(i as int));
            assert(operands@.take(i + 1).last() == operands@[i as int]);
        }
        let x = operands[i];
        if acc > u64::MAX - x {
            return Err("worksheet total does not fit");
        }
        acc += x;
        i += 1;
    }
    proof {
        assert(operands@.take(operands@.len() as int) =~= operands@);
    }
    Ok(acc)
}

/// The product of the pending operands, or an error when it cannot be held.
fn fold_product(operands: &Vec<u64>) -> (r: Result<u64, &'static str>)
    ensures
        r matches Ok(v) ==> v == crate::problems::seq_prod(operands@),
{
    let mut acc: u64 = 1;
    let mut i: usize = 0;
    while i < operands.len()
        invariant
            i <= operands@.len(),
            acc == crate::problems::seq_prod(operands@.take(i as int)),
        decreases operands@.len() - i,
    {
        proof {
            assert(operands@.take(i + 1).drop_last() =~= operands@.take(i as int));
            assert(operands@.take(i + 1).last() == operands@[i as int]);
        }
        let x = operands[i];
        if x != 0 && acc > u64::MAX / x {
            return Err("worksheet total does not fit");
        }
        proof {
            if x != 0 {
                vstd::arithmetic::div_mod::lemma_fundamental_div_mod(u64::MAX as int, x as int);
                assert(acc * x <= u64::MAX) by (nonlinear_arith)
                    requires
                        acc <= (u64::MAX as int) / (x as int),
                        u64::MAX as int == (x as int) * ((u64::MAX as int) / (x as int))
                            + (u64::MAX as int) % (x as int),
                        (u64::MAX as int) % (x as int) >= 0,
                        acc >= 0,
                        x >= 1;
            } else {
                assert(acc as int * x as int == 0) by (nonlinear_arith)
                    requires x == 0;
            }
        }
        acc = acc * x;
        i += 1;
    }
    proof {
        assert(operands@.take(operands@.len() as int) =~= operands@);
    }
    Ok(acc)
}

/// Read the whole worksheet and return its total: the value of spec_tally
/// over the reader's starting state. A malformed column or a total that
/// does not fit is an error.
pub fn tally_worksheet(reader: WorksheetReader) -> (r: Result<u64, &'static str>)
    requires
        reader.wf(),
    ensures
        r matches Ok(v) ==> v as int == spec_tally(
            reader.operand_rows@,
            reader.operator_row@,
            reader.pos as int,
            !reader.finished,
            Seq::empty(),
            0,
        ),
{
    let ghost rows = reader.operand_rows@;
    let ghost ops = reader.operator_row@;
    let ghost target = spec_tally(
        rows, ops, reader.pos as int, !reader.finished, Seq::empty(), 0,
    );
    let mut rd = reader;
    let mut tally: u64 = 0;
    let mut operands: Vec<u64> = Vec::new();
    while !rd.finished
        invariant
            rd.wf(),
            rd.operand_rows@ == rows,
            rd.operator_row@ == ops,
            spec_tally(rows, ops, rd.pos as int, !rd.finished, operands@, tally as int) == target,
        decreases (if rd.finished { 0int } else { rd.pos + 1 }),
    {
        let ghost p = rd.pos as int;
        let ghost pend0 = operands@;
        let ghost tally0 = tally;
        let step = rd.next();
        match step {
            None => {
                proof {
                    assert(false);
                }
            },
            Some(Err(e)) => {
                return Err(e);
            },
            Some(Ok((operand, op))) => {
                proof {
                    assert(operand as int == col_val(rows, p, rows.len() as int));
                }
                operands.push(operand);
                match op {
                    Some(Op::Add) => {
                        let sum = match fold_sum(&operands) {
                            Ok(v) => v,
                            Err(e) => {
                                return Err(e);
                            },
                        };
                        if tally > u64::MAX - sum {
                            return Err("worksheet total does not fit");
                        }
                        tally += sum;
                        operands = Vec::new();
                    },
                    Some(Op::Mull) => {
                        let product = match fold_product(&operands) {
                            Ok(v) => v,
                            Err(e) => {
                                return Err(e);
                            },
                        };
                        if tally > u64::MAX - product {
                            return Err("worksheet total does not fit");
                        }
                        tally += product;
                        operands = Vec::new();
                    },
                    None => {},
                }
                proof {
                    let pend2 = pend0.push(operand);
                    let opb = ops[p];
                    assert(spec_tally(rows, ops, p, true, pend0, tally0 as int) == target);
                    if opb == 43 || opb == 42 {
                        assert(operands@ =~= Seq::<u64>::empty());
                        assert(tally as int == tally0 + (if opb == 43 {
                            crate::problems::seq_sum(pend2)
                        } else {
                            crate::problems::seq_prod(pend2)
                        }));
                        if p == 0 || p == 1 {
                            assert(rd.finished);
                            assert(spec_tally(rows, ops, p, true, pend0, tally0 as int)
                                == tally as int);
                        } else {
                            assert(!rd.finished && rd.pos == p - 2);
                            assert(spec_tally(rows, ops, p, true, pend0, tally0 as int)
                                == spec_tally(rows, ops, p - 2, true, Seq::empty(), tally as int));
                        }
                    } else {
                        assert(operands@ =~= pend2);
                        assert(tally == tally0);
                        if p == 0 {
                            assert(rd.finished);
                            assert(spec_tally(rows, ops, p, true, pend0, tally0 as int)
                                == tally as int);
                        } else {
                            assert(!rd.finished && rd.pos == p - 1);
                            assert(spec_tally(rows, ops, p, true, pend0, tally0 as int)
                                == spec_tally(rows, ops, p - 1, true, pend2, tally as int));
                        }
                    }
                    if rd.finished {
                        assert(spec_tally(rows, ops, rd.pos as int, false, operands@, tally as int)
                            == tally as int);
                    }
                }
            },
        }
    }
    proof {
        assert(spec_tally(rows, ops, rd.pos as int, false, operands@, tally as int) == tally as int);
    }
    Ok(tally)
}

} // verus!
