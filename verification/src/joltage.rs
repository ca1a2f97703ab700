//! Joltage readings: digit-line parsing, suffix maxima, and the largest
//! numbers that can be read off a line by picking digits left to right.

use vstd::prelude::*;
use crate::repeats::{pow10, lemma_pow10_pos, lemma_pow10_mono};
use vstd::string::StringSliceAdditionalSpecFns;

verus! {

/// Why a digit line is rejected.
#[derive(Debug)]
pub enum JoltageError {
    /// Fewer than two characters.
    TooShort,
    /// A character outside '0'..'9'.
    BadDigit,
}

/// A byte is an ASCII digit.
pub open spec fn is_digit_byte(b: u8) -> bool {
    48 <= b <= 57
}

/// Every byte of the line is an ASCII digit and there are at least two.
pub open spec fn line_ok(bs: Seq<u8>) -> bool {
    bs.len() >= 2 && forall|i: int| 0 <= i < bs.len() ==> is_digit_byte(#[trigger] bs[i])
}

/// The digit values of a line of ASCII digits.
pub open spec fn line_digits(bs: Seq<u8>) -> Seq<u8> {
    bs.map_values(|b: u8| (b - 48) as u8)
}

/// The digit values of a digit line.
fn digits_from_slice(bs: &[u8]) -> (r: Result<Vec<u8>, JoltageError>)
    ensures
        r is Ok <==> line_ok(bs@),
        r matches Ok(v) ==> v@ == line_digits(bs@),
        r is Err ==> (r matches Err(e) ==> (e is TooShort <==> bs@.len() < 2)),
{
    if bs.len() < 2 {
        return Err(JoltageError::TooShort);
    }
    let mut v: Vec<u8> = Vec::new();
    let mut i: usize = 0;
    while i < bs.len()
        invariant
            bs@.len() >= 2,
            i <= bs@.len(),
            v@.len() == i,
            forall|j: int| 0 <= j < i ==> is_digit_byte(#[trigger] bs@[j]),
            forall|j: int| 0 <= j < i ==> v@[j] == bs@[j] - 48,
        decreases bs@.len() - i,
    {
        let b = bs[i];
        if b < 48 || b > 57 {
            return Err(JoltageError::BadDigit);
        }
        v.push(b - 48);
        i += 1;
    }
    proof {
        assert(v@ =~= line_digits(bs@));
    }
    Ok(v)
}

/// Parse a reading: at least two characters, all decimal digits, as their
/// digit values.
pub fn input_from_str(input: &str) -> (r: Result<Vec<u8>, JoltageError>)
    ensures
        r is Ok <==> line_ok(input.spec_bytes()),
        r matches Ok(v) ==> v@ == line_digits(input.spec_bytes()),
{
    let bs = input.as_bytes();
    digits_from_slice(bs)
}

/// The largest digit in d at an index of at least i.
pub open spec fn suffix_max(d: Seq<u8>, i: int) -> u8
    decreases d.len() - i,
{
    if i >= d.len() - 1 {
        d[d.len() - 1]
    } else if d[i] > suffix_max(d, i + 1) {
        d[i]
    } else {
        suffix_max(d, i + 1)
    }
}

proof fn lemma_suffix_max(d: Seq<u8>, i: int)
    requires
        0 <= i < d.len(),
    ensures
        forall|j: int| i <= j < d.len() ==> #[trigger] d[j] <= suffix_max(d, i),
        exists|j: int| i <= j < d.len() && #[trigger] d[j] == suffix_max(d, i),
    decreases d.len() - i,
{
    if i >= d.len() - 1 {
        assert(d[d.len() - 1] == suffix_max(d, i));
    } else {
        lemma_suffix_max(d, i + 1);
        if d[i] > suffix_max(d, i + 1) {
            assert(d[i] == suffix_max(d, i));
        } else {
            let j = choose|j: int| i + 1 <= j < d.len() && #[trigger] d[j] == suffix_max(d, i + 1);
            assert(d[j] == suffix_max(d, i));
        }
    }
}

/// For each position, the largest digit at that position or later.
pub fn build_suffix_max_array(digits: &Vec<u8>) -> (r: Vec<u8>)
    requires
        digits@.len() >= 1,
    ensures
        r@.len() == digits@.len(),
        forall|i: int| 0 <= i < r@.len() ==> r@[i] == suffix_max(digits@, i),
{
    let n = digits.len();
    let mut r: Vec<u8> = Vec::new();
    let mut i: usize = 0;
    while i < n
        invariant
            n == digits@.len(),
            i <= n,
            r@.len() == i,
        decreases n - i,
    {
        r.push(0);
        i += 1;
    }
    r.set(n - 1, digits[n - 1]);
    let mut i: usize = n - 1;
    while i > 0
        invariant
            n == digits@.len(),
            n >= 1,
            r@.len() == n,
            i < n,
            forall|j: int| i <= j < n ==> r@[j] == suffix_max(digits@, j),
        decreases i,
    {
        i -= 1;
        let m = if r[i + 1] > digits[i] { r[i + 1] } else { digits[i] };
        r.set(i, m);
    }
    r
}

/// The best two-digit reading: over all index pairs i < j, the largest
/// value of ten times the first digit plus the second.
pub open spec fn pair_best(d: Seq<u8>) -> int
    decreases d.len(),
{
    if d.len() < 2 {
        0
    } else {
        let with_last = 10 * prefix_max(d, d.len() - 1) + d[d.len() - 1];
        let without = pair_best(d.drop_last());
        if with_last >= without {
            with_last
        } else {
            without
        }
    }
}

/// The largest digit in d strictly before index hi.
pub open spec fn prefix_max(d: Seq<u8>, hi: int) -> u8
    decreases hi,
{
    if hi <= 1 {
        d[0]
    } else if d[hi - 1] > prefix_max(d, hi - 1) {
        d[hi - 1]
    } else {
        prefix_max(d, hi - 1)
    }
}

proof fn lemma_prefix_max(d: Seq<u8>, hi: int)
    requires
        1 <= hi <= d.len(),
    ensures
        forall|j: int| 0 <= j < hi ==> #[trigger] d[j] <= prefix_max(d, hi),
        exists|j: int| 0 <= j < hi && #[trigger] d[j] == prefix_max(d, hi),
    decreases hi,
{
    if hi <= 1 {
        assert(d[0] == prefix_max(d, hi));
    } else {
        lemma_prefix_max(d, hi - 1);
        if d[hi - 1] > prefix_max(d, hi - 1) {
            assert(d[hi - 1] == prefix_max(d, hi));
        } else {
            let j = choose|j: int| 0 <= j < hi - 1 && #[trigger] d[j] == prefix_max(d, hi - 1);
            assert(d[j] == prefix_max(d, hi));
        }
    }
}

/// pair_best is the largest pair value and is attained.
proof fn lemma_pair_best(d: Seq<u8>)
    requires
        d.len() >= 2,
    ensures
        forall|i: int, j: int| 0 <= i < j < d.len() ==>
            10 * (#[trigger] d[i]) + #[trigger] d[j] <= pair_best(d),
        exists|i: int, j: int| 0 <= i < j < d.len()
            && 10 * (#[trigger] d[i]) + #[trigger] d[j] == pair_best(d),
    decreases d.len(),
{
    let last = d.len() - 1;
    lemma_prefix_max(d, last);
    let with_last = 10 * prefix_max(d, last) + d[last];
    if d.len() == 2 {
        assert(prefix_max(d, 1) == d[0]);
        assert forall|i: int, j: int| 0 <= i < j < d.len() implies
            10 * (#[trigger] d[i]) + #[trigger] d[j] <= pair_best(d) by {
            assert(i == 0 && j == 1);
            assert(pair_best(d) >= with_last);
        }
        assert(10 * d[0] + d[1] == with_last);
        assert(pair_best(d.drop_last()) == 0);
        assert(10 * d[0] + d[1] == pair_best(d));
    } else {
        lemma_pair_best(d.drop_last());
        assert(forall|j: int| 0 <= j < d.len() - 1 ==> d.drop_last()[j] == d[j]);
        assert forall|i: int, j: int| 0 <= i < j < d.len() implies
            10 * (#[trigger] d[i]) + #[trigger] d[j] <= pair_best(d) by {
            if j == last {
                assert(d[i] <= prefix_max(d, last));
            } else {
                assert(10 * d.drop_last()[i] + d.drop_last()[j] <= pair_best(d.drop_last()));
            }
        }
        if with_last >= pair_best(d.drop_last()) {
            let i0 = choose|j: int| 0 <= j < last && #[trigger] d[j] == prefix_max(d, last);
            assert(10 * d[i0] + d[last] == pair_best(d));
        } else {
            let (i0, j0) = choose|i: int, j: int| 0 <= i < j < d.drop_last().len()
                && 10 * (#[trigger] d.drop_last()[i]) + #[trigger] d.drop_last()[j]
                    == pair_best(d.drop_last());
            assert(10 * d[i0] + d[j0] == pair_best(d));
        }
    }
}

/// The best two-digit reading of the line: pick two digits left to right
/// and read them as a two-digit number, as large as possible.
pub fn find_joltage_2(digits: &Vec<u8>) -> (r: u64)
    requires
        digits@.len() >= 2,
        forall|i: int| 0 <= i < digits@.len() ==> #[trigger] digits@[i] <= 9,
    ensures
        r == pair_best(digits@),
{
    let d = digits;
    let n = d.len();
    let max_right = build_suffix_max_array(d);
    let mut b0 = d[0];
    let mut b1 = max_right[1];
    let mut i: usize = 1;
    proof {
        lemma_suffix_max(d@, 1);
    }
    while i < n - 1
        invariant
            d@ == digits@,
            n == d@.len(),
            n >= 2,
            forall|k: int| 0 <= k < n ==> #[trigger] d@[k] <= 9,
            max_right@.len() == n,
            forall|k: int| 0 <= k < n ==> max_right@[k] == suffix_max(d@, k),
            1 <= i <= n - 1,
            b1 <= 9,
            b0 <= 9,
            exists|k: int| 0 <= k < i && #[trigger] d@[k] == b0 && suffix_max(d@, k + 1) == b1,
            forall|k: int| 0 <= k < i ==> #[trigger] d@[k] < b0
                || (d@[k] == b0 && suffix_max(d@, k + 1) <= b1),
        decreases n - i,
    {
        proof {
            lemma_suffix_max(d@, i + 1);
        }
        let ci = d[i];
        let cm = max_right[i + 1];
        if ci > b0 || (ci == b0 && cm > b1) {
            b0 = ci;
            b1 = cm;
            proof {
                assert(d@[i as int] == b0 && suffix_max(d@, i + 1) == b1);
            }
        }
        i += 1;
    }
    proof {
        lemma_pair_best(d@);
        let k0 = choose|k: int| 0 <= k < n - 1 && #[trigger] d@[k] == b0 && suffix_max(d@, k + 1) == b1;
        lemma_suffix_max(d@, k0 + 1);
        let j0 = choose|j: int| k0 + 1 <= j < n && #[trigger] d@[j] == suffix_max(d@, k0 + 1);
        // The tracked pair value is attained and dominates every pair.
        assert(10 * d@[k0] + d@[j0] == 10 * b0 + b1);
        assert forall|i2: int, j2: int| 0 <= i2 < j2 < n implies
            10 * (#[trigger] d@[i2]) + #[trigger] d@[j2] <= 10 * b0 + b1 by {
            assert(i2 <= n - 2);
            lemma_suffix_max(d@, i2 + 1);
            assert(d@[j2] <= suffix_max(d@, i2 + 1));
            assert(d@[i2] < b0 || (d@[i2] == b0 && suffix_max(d@, i2 + 1) <= b1));
        }
        let (pi, pj) = choose|i2: int, j2: int| 0 <= i2 < j2 < n
            && 10 * (#[trigger] d@[i2]) + #[trigger] d@[j2] == pair_best(d@);
        assert(pair_best(d@) <= 10 * b0 + b1);
        assert(10 * d@[k0] + d@[j0] <= pair_best(d@));
    }
    b0 as u64 * 10 + b1 as u64
}

/// The first index before hi holding the largest digit before hi.
pub open spec fn argmax_first(d: Seq<u8>, hi: int) -> int
    decreases hi,
{
    if hi <= 1 {
        0
    } else {
        let p = argmax_first(d, hi - 1);
        if d[hi - 1] > d[p] {
            hi - 1
        } else {
            p
        }
    }
}

proof fn lemma_argmax_first(d: Seq<u8>, hi: int)
    requires
        1 <= hi <= d.len(),
    ensures
        0 <= argmax_first(d, hi) < hi,
        forall|j: int| 0 <= j < hi ==> #[trigger] d[j] <= d[argmax_first(d, hi)],
    decreases hi,
{
    if hi > 1 {
        lemma_argmax_first(d, hi - 1);
    }
}

/// The largest k-digit reading of the line: the digits chosen greedily,
/// each time the leftmost largest digit that still leaves enough digits
/// for the rest.
pub open spec fn best_subseq(d: Seq<u8>, k: nat) -> Seq<u8>
    decreases k,
{
    if k == 0 || k > d.len() {
        Seq::empty()
    } else {
        let w = d.len() - k;
        let i = argmax_first(d, w + 1);
        seq![d[i]] + best_subseq(d.skip(i + 1), (k - 1) as nat)
    }
}

/// The number read from a digit sequence.
pub open spec fn digits_val(d: Seq<u8>) -> int
    decreases d.len(),
{
    if d.len() == 0 {
        0
    } else {
        digits_val(d.drop_last()) * 10 + d.last()
    }
}

proof fn lemma_digits_val_bound(d: Seq<u8>)
    requires
        forall|i: int| 0 <= i < d.len() ==> #[trigger] d[i] <= 9,
    ensures
        0 <= digits_val(d) < pow10(d.len()),
    decreases d.len(),
{
    if d.len() == 0 {
        assert(pow10(0) == 1);
    } else {
        assert(forall|i: int| 0 <= i < d.len() - 1 ==> d.drop_last()[i] == d[i]);
        lemma_digits_val_bound(d.drop_last());
        assert(pow10(d.len()) == 10 * pow10((d.len() - 1) as nat));
    }
}

proof fn lemma_best_subseq_len(d: Seq<u8>, k: nat)
    requires
        k <= d.len(),
    ensures
        best_subseq(d, k).len() == k,
        forall|i: int| 0 <= i < k ==> #[trigger] best_subseq(d, k)[i] <= 9
            || !(forall|j: int| 0 <= j < d.len() ==> #[trigger] d[j] <= 9),
    decreases k,
{
    if k > 0 {
        let w = d.len() - k;
        lemma_argmax_first(d, w + 1);
        let i = argmax_first(d, w + 1);
        lemma_best_subseq_len(d.skip(i + 1), (k - 1) as nat);
    }
}

/// The largest k-digit reading of the line.
pub fn find_joltage_k(digits: &Vec<u8>, k: usize) -> (r: u64)
    requires
        k <= digits@.len(),
        k <= 19,
        forall|i: int| 0 <= i < digits@.len() ==> #[trigger] digits@[i] <= 9,
    ensures
        r == digits_val(best_subseq(digits@, k as nat)),
{
    let mut out: Vec<u8> = Vec::new();
    let mut start: usize = 0;
    let mut rem: usize = k;
    proof {
        assert(digits@.skip(0) =~= digits@);
    }
    while rem > 0
        invariant
            k <= digits@.len(),
            k <= 19,
            forall|i: int| 0 <= i < digits@.len() ==> #[trigger] digits@[i] <= 9,
            rem <= k,
            start <= digits@.len(),
            rem <= digits@.len() - start,
            out@.len() == k - rem,
            forall|i: int| 0 <= i < out@.len() ==> #[trigger] out@[i] <= 9,
            out@ + best_subseq(digits@.skip(start as int), rem as nat)
                == best_subseq(digits@, k as nat),
        decreases rem,
    {
        let ghost tail = digits@.skip(start as int);
        let window_end = digits.len() - rem;
        let mut best_i: usize = start;
        let mut idx: usize = start + 1;
        proof {
            assert(tail.len() == digits@.len() - start);
            assert(forall|j: int| 0 <= j < tail.len() ==> #[trigger] tail[j] == digits@[start + j]);
            assert(best_i - start == argmax_first(tail, 1)) by {
                assert(argmax_first(tail, 1) == 0);
            }
        }
        while idx <= window_end
            invariant
                k <= digits@.len(),
                digits@.len() <= usize::MAX,
                rem >= 1,
                rem <= digits@.len() - start,
                window_end == digits@.len() - rem,
                tail == digits@.skip(start as int),
                tail.len() == digits@.len() - start,
                forall|j: int| 0 <= j < tail.len() ==> #[trigger] tail[j] == digits@[start + j],
                start <= best_i < idx,
                start + 1 <= idx <= window_end + 1,
                best_i - start == argmax_first(tail, idx - start),
            decreases window_end + 1 - idx,
        {
            let ghost pos = idx - start;
            if digits[idx] > digits[best_i] {
                best_i = idx;
            }
            proof {
                assert(tail[pos as int] == digits@[idx as int]);
                assert(argmax_first(tail, pos + 1) == if tail[pos as int] > tail[argmax_first(tail, pos as int)] {
                    pos as int
                } else {
                    argmax_first(tail, pos as int)
                });
                assert(tail[argmax_first(tail, pos as int)] == digits@[start + argmax_first(tail, pos as int)]);
                assert(idx < digits@.len());
            }
            idx += 1;
        }
        out.push(digits[best_i]);
        proof {
            let w = tail.len() - rem;
            assert(idx - start == w + 1);
            let i0 = argmax_first(tail, w + 1);
            assert(i0 == best_i - start);
            lemma_argmax_first(tail, w + 1);
            assert(best_subseq(tail, rem as nat)
                == seq![tail[i0]] + best_subseq(tail.skip(i0 + 1), (rem - 1) as nat));
            assert(tail[i0] == digits@[best_i as int]);
            assert(tail.skip(i0 + 1) =~= digits@.skip(best_i + 1));
            assert(out@ + best_subseq(digits@.skip(best_i + 1), (rem - 1) as nat)
                =~= best_subseq(digits@, k as nat)) by {
                assert(out@.drop_last() + best_subseq(tail, rem as nat)
                    == best_subseq(digits@, k as nat));
                assert(out@.drop_last().push(digits@[best_i as int])
                    + best_subseq(digits@.skip(best_i + 1), (rem - 1) as nat)
                    =~= out@.drop_last() + (seq![tail[i0]]
                        + best_subseq(tail.skip(i0 + 1), (rem - 1) as nat)));
                assert(out@ == out@.drop_last().push(digits@[best_i as int]));
            }
        }
        start = best_i + 1;
        rem -= 1;
    }
    proof {
        assert(best_subseq(digits@.skip(start as int), 0) =~= Seq::<u8>::empty());
        assert(out@ + Seq::<u8>::empty() =~= out@);
        assert(out@ == best_subseq(digits@, k as nat));
        lemma_digits_val_bound(out@);
        lemma_pow10_mono(out@.len(), 19);
        assert(pow10(19) == 0x8AC7230489E80000) by {
            reveal_with_fuel(pow10, 20);
        }
    }
    let mut val: u64 = 0;
    let mut i: usize = 0;
    while i < out.len()
        invariant
            out@.len() <= 19,
            forall|j: int| 0 <= j < out@.len() ==> #[trigger] out@[j] <= 9,
            i <= out@.len(),
            val == digits_val(out@.take(i as int)),
            pow10(19) == 0x8AC7230489E80000,
        decreases out@.len() - i,
    {
        proof {
            assert(out@.take(i + 1).drop_last() =~= out@.take(i as int));
            assert(out@.take(i + 1).last() == out@[i as int]);
            assert(forall|j: int| 0 <= j < i + 1 ==> out@.take(i + 1)[j] == out@[j]);
            lemma_digits_val_bound(out@.take(i + 1));
            lemma_pow10_mono((i + 1) as nat, 19);
        }
        val = val * 10 + out[i] as u64;
        i += 1;
    }
    proof {
        assert(out@.take(out@.len() as int) =~= out@);
    }
    val
}

/// The sum of the best two-digit readings over the lines read so far.
pub open spec fn sum_joltage2(lines: Seq<Vec<u8>>, n: int) -> int
    decreases n,
{
    if n <= 0 {
        0
    } else {
        sum_joltage2(lines, n - 1) + pair_best(line_digits(lines[n - 1]@))
    }
}

/// The sum of the best twelve-digit readings over the lines read so far.
pub open spec fn sum_joltage12(lines: Seq<Vec<u8>>, n: int) -> int
    decreases n,
{
    if n <= 0 {
        0
    } else {
        sum_joltage12(lines, n - 1) + digits_val(best_subseq(line_digits(lines[n - 1]@), 12))
    }
}

/// Every line parses as a digit line.
pub open spec fn all_lines_ok(lines: Seq<Vec<u8>>) -> bool {
    forall|i: int| 0 <= i < lines.len() ==> line_ok((#[trigger] lines[i])@)
}

/// The total of the best two-digit readings of all lines; a malformed line
/// is an error.
pub fn solve_problem_1(lines: &Vec<Vec<u8>>) -> (r: Result<u64, JoltageError>)
    requires
        all_lines_ok(lines@) ==> sum_joltage2(lines@, lines@.len() as int) <= u64::MAX,
    ensures
        r is Ok <==> all_lines_ok(lines@),
        r matches Ok(v) ==> v == sum_joltage2(lines@, lines@.len() as int),
{
    let mut parsed: Vec<Vec<u8>> = Vec::new();
    let mut i: usize = 0;
    while i < lines.len()
        invariant
            i <= lines@.len(),
            parsed@.len() == i,
            forall|j: int| 0 <= j < i ==> line_ok((#[trigger] lines@[j])@),
            forall|j: int| 0 <= j < i ==> (#[trigger] parsed@[j])@ == line_digits(lines@[j]@),
        decreases lines@.len() - i,
    {
        let ds = match digits_from_slice(lines[i].as_slice()) {
            Ok(ds) => ds,
            Err(e) => {
                return Err(e);
            },
        };
        parsed.push(ds);
        i += 1;
    }
    let mut acc: u64 = 0;
    let mut j: usize = 0;
    while j < parsed.len()
        invariant
            all_lines_ok(lines@),
            sum_joltage2(lines@, lines@.len() as int) <= u64::MAX,
            parsed@.len() == lines@.len(),
            forall|m: int| 0 <= m < lines@.len() ==> line_ok((#[trigger] lines@[m])@),
            forall|m: int| 0 <= m < lines@.len() ==> (#[trigger] parsed@[m])@ == line_digits(lines@[m]@),
            j <= parsed@.len(),
            acc == sum_joltage2(lines@, j as int),
        decreases parsed@.len() - j,
    {
        proof {
            lemma_sum_joltage2_bounds(lines@, j as int);
            lemma_sum_joltage2_mono(lines@, j + 1);
            lemma_pair_best_nonneg(line_digits(lines@[j as int]@));
            assert(line_ok(lines@[j as int]@));
            assert(parsed@[j as int]@.len() == lines@[j as int]@.len());
            assert forall|m: int| 0 <= m < parsed@[j as int]@.len()
                implies #[trigger] parsed@[j as int]@[m] <= 9 by {
                assert(is_digit_byte(lines@[j as int]@[m]));
                assert(parsed@[j as int]@[m] == line_digits(lines@[j as int]@)[m]);
            }
        }
        let v = find_joltage_2(&parsed[j]);
        acc += v;
        j += 1;
    }
    Ok(acc)
}

/// The total of the best twelve-digit readings of all lines; a malformed
/// line is an error.
pub fn solve_problem_2(lines: &Vec<Vec<u8>>) -> (r: Result<u64, JoltageError>)
    requires
        all_lines_ok(lines@) ==> sum_joltage12(lines@, lines@.len() as int) <= u64::MAX,
        forall|i: int| 0 <= i < lines@.len() && line_ok((#[trigger] lines@[i])@)
            ==> lines@[i]@.len() >= 12,
    ensures
        r is Ok <==> all_lines_ok(lines@),
        r matches Ok(v) ==> v == sum_joltage12(lines@, lines@.len() as int),
{
    let mut parsed: Vec<Vec<u8>> = Vec::new();
    let mut i: usize = 0;
    while i < lines.len()
        invariant
            i <= lines@.len(),
            parsed@.len() == i,
            forall|j: int| 0 <= j < i ==> line_ok((#[trigger] lines@[j])@),
            forall|j: int| 0 <= j < i ==> (#[trigger] parsed@[j])@ == line_digits(lines@[j]@),
        decreases lines@.len() - i,
    {
        let ds = match digits_from_slice(lines[i].as_slice()) {
            Ok(ds) => ds,
            Err(e) => {
                return Err(e);
            },
        };
        parsed.push(ds);
        i += 1;
    }
    let mut acc: u64 = 0;
    let mut j: usize = 0;
    while j < parsed.len()
        invariant
            all_lines_ok(lines@),
            sum_joltage12(lines@, lines@.len() as int) <= u64::MAX,
            forall|m: int| 0 <= m < lines@.len() && line_ok((#[trigger] lines@[m])@)
                ==> lines@[m]@.len() >= 12,
            parsed@.len() == lines@.len(),
            forall|m: int| 0 <= m < lines@.len() ==> line_ok((#[trigger] lines@[m])@),
            forall|m: int| 0 <= m < lines@.len() ==> (#[trigger] parsed@[m])@ == line_digits(lines@[m]@),
            j <= parsed@.len(),
            acc == sum_joltage12(lines@, j as int),
        decreases parsed@.len() - j,
    {
        proof {
            lemma_sum_joltage12_bounds(lines@, j as int);
            lemma_sum_joltage12_mono(lines@, j + 1);
            assert(line_ok(lines@[j as int]@));
            assert(parsed@[j as int]@.len() == lines@[j as int]@.len());
            assert forall|m: int| 0 <= m < parsed@[j as int]@.len()
                implies #[trigger] parsed@[j as int]@[m] <= 9 by {
                assert(is_digit_byte(lines@[j as int]@[m]));
                assert(parsed@[j as int]@[m] == line_digits(lines@[j as int]@)[m]);
            }
            lemma_best_subseq_val_nonneg(line_digits(lines@[j as int]@), 12);
        }
        let v = find_joltage_k(&parsed[j], 12);
        acc += v;
        j += 1;
    }
    Ok(acc)
}

proof fn lemma_best_subseq_val_nonneg(d: Seq<u8>, k: nat)
    ensures
        digits_val(best_subseq(d, k)) >= 0,
{
    lemma_digits_val_nonneg(best_subseq(d, k));
}

proof fn lemma_digits_val_nonneg(d: Seq<u8>)
    ensures
        digits_val(d) >= 0,
    decreases d.len(),
{
    if d.len() > 0 {
        lemma_digits_val_nonneg(d.drop_last());
    }
}

proof fn lemma_sum_joltage12_bounds(lines: Seq<Vec<u8>>, n: int)
    requires
        0 <= n <= lines.len(),
    ensures
        sum_joltage12(lines, n) >= 0,
    decreases n,
{
    if n > 0 {
        lemma_sum_joltage12_bounds(lines, n - 1);
        lemma_best_subseq_val_nonneg(line_digits(lines[n - 1]@), 12);
    }
}

proof fn lemma_sum_joltage12_mono(lines: Seq<Vec<u8>>, n: int)
    requires
        0 <= n <= lines.len(),
    ensures
        sum_joltage12(lines, n) <= sum_joltage12(lines, lines.len() as int),
    decreases lines.len() - n,
{
    if n < lines.len() {
        lemma_sum_joltage12_mono(lines, n + 1);
        lemma_best_subseq_val_nonneg(line_digits(lines[n as int]@), 12);
    }
}

proof fn lemma_sum_joltage2_bounds(lines: Seq<Vec<u8>>, n: int)
    requires
        0 <= n <= lines.len(),
    ensures
        sum_joltage2(lines, n) >= 0,
    decreases n,
{
    if n > 0 {
        lemma_sum_joltage2_bounds(lines, n - 1);
        lemma_pair_best_nonneg(line_digits(lines[n - 1]@));
    }
}

proof fn lemma_pair_best_nonneg(d: Seq<u8>)
    ensures
        pair_best(d) >= 0,
    decreases d.len(),
{
    if d.len() >= 2 {
        lemma_pair_best_nonneg(d.drop_last());
    }
}

proof fn lemma_sum_joltage2_mono(lines: Seq<Vec<u8>>, n: int)
    requires
        0 <= n <= lines.len(),
    ensures
        sum_joltage2(lines, n) <= sum_joltage2(lines, lines.len() as int),
    decreases lines.len() - n,
{
    if n < lines.len() {
        lemma_sum_joltage2_mono(lines, n + 1);
        lemma_pair_best_nonneg(line_digits(lines[n as int]@));
    }
}

/// t can be read from d left to right, skipping digits: t is a subsequence
/// of d.
pub open spec fn is_subseq(t: Seq<u8>, d: Seq<u8>) -> bool
    decreases d.len(),
{
    if t.len() == 0 {
        true
    } else if d.len() == 0 {
        false
    } else {
        (t[0] == d[0] && is_subseq(t.skip(1), d.skip(1))) || is_subseq(t, d.skip(1))
    }
}

/// A subsequence is no longer than its source.
proof fn lemma_subseq_len(t: Seq<u8>, d: Seq<u8>)
    requires
        is_subseq(t, d),
    ensures
        t.len() <= d.len(),
    decreases d.len(),
{
    if t.len() > 0 && d.len() > 0 {
        if t[0] == d[0] && is_subseq(t.skip(1), d.skip(1)) {
            lemma_subseq_len(t.skip(1), d.skip(1));
        } else {
            lemma_subseq_len(t, d.skip(1));
        }
    }
}

/// A subsequence's digits come from the source, so its digits obey the
/// source's bound.
proof fn lemma_subseq_digits(t: Seq<u8>, d: Seq<u8>)
    requires
        is_subseq(t, d),
        forall|i: int| 0 <= i < d.len() ==> #[trigger] d[i] <= 9,
    ensures
        forall|i: int| 0 <= i < t.len() ==> #[trigger] t[i] <= 9,
    decreases d.len(),
{
    if t.len() > 0 && d.len() > 0 {
        assert(forall|i: int| 0 <= i < d.skip(1).len() ==> #[trigger] d.skip(1)[i] <= 9);
        if t[0] == d[0] && is_subseq(t.skip(1), d.skip(1)) {
            lemma_subseq_digits(t.skip(1), d.skip(1));
            assert forall|i: int| 0 <= i < t.len() implies #[trigger] t[i] <= 9 by {
                if i > 0 {
                    assert(t.skip(1)[i - 1] == t[i]);
                }
            }
        } else {
            lemma_subseq_digits(t, d.skip(1));
        }
    }
}

/// A non-empty subsequence starts at some source index that leaves room
/// for the rest.
proof fn lemma_subseq_head(t: Seq<u8>, d: Seq<u8>)
    requires
        is_subseq(t, d),
        t.len() >= 1,
    ensures
        exists|j: int| 0 <= j <= d.len() - t.len() && t[0] == d[j]
            && #[trigger] is_subseq(t.skip(1), d.skip(j + 1)),
    decreases d.len(),
{
    lemma_subseq_len(t, d);
    if t[0] == d[0] && is_subseq(t.skip(1), d.skip(1)) {
        lemma_subseq_len(t.skip(1), d.skip(1));
        assert(0 <= 0 <= d.len() - t.len() && t[0] == d[0]
            && is_subseq(t.skip(1), d.skip(0int + 1)));
    } else {
        lemma_subseq_head(t, d.skip(1));
        let j1 = choose|j: int| 0 <= j <= d.skip(1).len() - t.len() && t[0] == d.skip(1)[j]
            && #[trigger] is_subseq(t.skip(1), d.skip(1).skip(j + 1));
        assert(d.skip(1).skip(j1 + 1) =~= d.skip(j1 + 2));
        assert(d.skip(1)[j1] == d[j1 + 1]);
        assert(0 <= j1 + 1 <= d.len() - t.len() && t[0] == d[j1 + 1]
            && is_subseq(t.skip(1), d.skip((j1 + 1) + 1)));
    }
}

/// A subsequence of a later suffix is a subsequence of an earlier one.
proof fn lemma_subseq_suffix(t: Seq<u8>, d: Seq<u8>, a: int, b: int)
    requires
        0 <= b <= a <= d.len(),
        is_subseq(t, d.skip(a)),
    ensures
        is_subseq(t, d.skip(b)),
    decreases a - b,
{
    if b < a {
        assert(d.skip(a - 1).skip(1) =~= d.skip(a));
        if t.len() == 0 {
        } else {
            assert(d.skip(a - 1).len() > 0);
            assert(is_subseq(t, d.skip(a - 1)));
        }
        lemma_subseq_suffix(t, d, a - 1, b);
    }
}

/// Prepending the source digit at index i to a subsequence of the suffix
/// after i gives a subsequence of the whole.
proof fn lemma_subseq_prepend(t: Seq<u8>, d: Seq<u8>, i: int)
    requires
        0 <= i < d.len(),
        is_subseq(t, d.skip(i + 1)),
    ensures
        is_subseq(seq![d[i]] + t, d),
    decreases i,
{
    let u = seq![d[i]] + t;
    assert(u.len() >= 1);
    assert(u[0] == d[i]);
    if i == 0 {
        assert(u.skip(1) =~= t);
        assert(d.skip(0int + 1) == d.skip(1));
        assert(u[0] == d[0] && is_subseq(u.skip(1), d.skip(1)));
    } else {
        assert(d.skip(1)[i - 1] == d[i]);
        assert(d.skip(1).skip(i) =~= d.skip(i + 1));
        assert(seq![d.skip(1)[i - 1]] + t =~= u);
        lemma_subseq_prepend(t, d.skip(1), i - 1);
        assert(is_subseq(u, d.skip(1)));
        assert(d.len() > 0);
    }
}

/// The greedy result is itself a k-digit subsequence of the line.
proof fn lemma_best_subseq_is_subseq(d: Seq<u8>, k: nat)
    requires
        k <= d.len(),
    ensures
        is_subseq(best_subseq(d, k), d),
        best_subseq(d, k).len() == k,
    decreases k,
{
    if k > 0 {
        let w = d.len() - k;
        lemma_argmax_first(d, w + 1);
        let i = argmax_first(d, w + 1);
        let tail = best_subseq(d.skip(i + 1), (k - 1) as nat);
        lemma_best_subseq_is_subseq(d.skip(i + 1), (k - 1) as nat);
        lemma_subseq_prepend(tail, d, i);
        assert(best_subseq(d, k) == seq![d[i]] + tail);
    }
}

/// The value of a digit sequence, split at its first digit.
proof fn lemma_digits_val_head(t: Seq<u8>)
    requires
        t.len() >= 1,
    ensures
        digits_val(t) == t[0] * pow10((t.len() - 1) as nat) + digits_val(t.skip(1)),
    decreases t.len(),
{
    if t.len() == 1 {
        assert(t.drop_last() =~= Seq::<u8>::empty());
        assert(t.skip(1) =~= Seq::<u8>::empty());
        assert(pow10(0) == 1);
    } else {
        let dl = t.drop_last();
        lemma_digits_val_head(dl);
        assert(dl[0] == t[0]);
        assert(dl.skip(1) =~= t.skip(1).drop_last());
        assert(t.skip(1).last() == t.last());
        assert(t.skip(1).len() >= 1);
        assert(digits_val(t) == digits_val(dl) * 10 + t.last());
        assert(digits_val(t.skip(1))
            == digits_val(t.skip(1).drop_last()) * 10 + t.skip(1).last());
        let p = pow10((dl.len() - 1) as nat);
        assert(pow10((t.len() - 1) as nat) == 10 * p);
        assert((t[0] * p + digits_val(dl.skip(1))) * 10
            == t[0] * (10 * p) + digits_val(dl.skip(1)) * 10) by (nonlinear_arith);
    }
}

/// Earlier digits than the window's first maximum are strictly smaller.
proof fn lemma_argmax_first_strict(d: Seq<u8>, hi: int)
    requires
        1 <= hi <= d.len(),
    ensures
        forall|j: int| 0 <= j < argmax_first(d, hi) ==> #[trigger] d[j] < d[argmax_first(d, hi)],
    decreases hi,
{
    if hi > 1 {
        lemma_argmax_first_strict(d, hi - 1);
        lemma_argmax_first(d, hi - 1);
    }
}

/// The greedy choice is the best: over every k-digit subsequence of the
/// line, the greedy leftmost-largest construction reads the largest value.
pub proof fn lemma_best_subseq_maximal(d: Seq<u8>, k: nat)
    requires
        k <= d.len(),
        forall|i: int| 0 <= i < d.len() ==> #[trigger] d[i] <= 9,
    ensures
        is_subseq(best_subseq(d, k), d),
        best_subseq(d, k).len() == k,
        forall|t: Seq<u8>| t.len() == k && #[trigger] is_subseq(t, d)
            ==> digits_val(t) <= digits_val(best_subseq(d, k)),
    decreases k,
{
    lemma_best_subseq_is_subseq(d, k);
    if k == 0 {
        assert forall|t: Seq<u8>| t.len() == k && #[trigger] is_subseq(t, d)
            implies digits_val(t) <= digits_val(best_subseq(d, k)) by {
            assert(t =~= Seq::<u8>::empty());
        }
    } else {
        let w = d.len() - k;
        lemma_argmax_first(d, w + 1);
        lemma_argmax_first_strict(d, w + 1);
        let i = argmax_first(d, w + 1);
        let tail = best_subseq(d.skip(i + 1), (k - 1) as nat);
        let best = best_subseq(d, k);
        assert(best == seq![d[i]] + tail);
        assert(forall|m: int| 0 <= m < d.skip(i + 1).len()
            ==> #[trigger] d.skip(i + 1)[m] <= 9);
        lemma_best_subseq_maximal(d.skip(i + 1), (k - 1) as nat);
        lemma_digits_val_head(best);
        assert(best[0] == d[i]);
        assert(best.skip(1) =~= tail);
        assert forall|t: Seq<u8>| t.len() == k && #[trigger] is_subseq(t, d)
            implies digits_val(t) <= digits_val(best) by {
            lemma_subseq_head(t, d);
            let j = choose|j: int| 0 <= j <= d.len() - t.len() && t[0] == d[j]
                && #[trigger] is_subseq(t.skip(1), d.skip(j + 1));
            assert(t[0] <= d[i]);
            lemma_digits_val_head(t);
            lemma_subseq_digits(t, d);
            if t[0] < d[i] {
                lemma_digits_val_bound(t.skip(1));
                assert(forall|m: int| 0 <= m < t.skip(1).len()
                    ==> #[trigger] t.skip(1)[m] <= 9);
                lemma_digits_val_nonneg(tail);
                let p = pow10((k - 1) as nat);
                lemma_pow10_pos((k - 1) as nat);
                assert(digits_val(t.skip(1)) < p);
                assert(t[0] * p + p <= d[i] * p) by (nonlinear_arith)
                    requires (t[0] as int) < d[i] as int, p >= 1;
                assert(d[i] * p <= digits_val(best));
            } else {
                assert(j >= i) by {
                    if j < i {
                        assert(d[j] < d[i]);
                    }
                }
                lemma_subseq_suffix(t.skip(1), d, j + 1, i + 1);
                assert(is_subseq(t.skip(1), d.skip(i + 1)));
                assert(t.skip(1).len() == (k - 1) as nat);
                assert(digits_val(t.skip(1)) <= digits_val(tail));
            }
        }
    }
}

} // verus!
