//! Invalid-ID detection: numbers made of a repeated block of digits, and
//! sums of such numbers over inclusive ranges.

use vstd::prelude::*;

verus! {

/// 10 to the k-th power.
pub open spec fn pow10(k: nat) -> int
    decreases k,
{
    if k == 0 {
        1
    } else {
        10 * pow10((k - 1) as nat)
    }
}

/// The number of decimal digits of n; zero has none.
pub open spec fn spec_count_digits(n: int) -> nat
    decreases n,
{
    if n <= 0 {
        0
    } else {
        1 + spec_count_digits(n / 10)
    }
}

/// Every block of d-digits above the lowest equals pat.
pub open spec fn rep_ok(v: int, pat: int, d: int) -> bool
    decreases v,
    via rep_ok_dec
{
    if v <= 0 {
        true
    } else if d < 2 {
        false
    } else {
        v % d == pat && rep_ok(v / d, pat, d)
    }
}

#[via_fn]
proof fn rep_ok_dec(v: int, pat: int, d: int) {
    if v > 0 && d >= 2 {
        vstd::arithmetic::div_mod::lemma_div_decreases(v, d);
        vstd::arithmetic::div_mod::lemma_div_pos_is_pos(v, d);
    }
}

/// n consists of its lowest len digits repeated all the way up.
pub open spec fn spec_pattern_repeats(n: int, len: nat) -> bool {
    rep_ok(n / pow10(len), n % pow10(len), pow10(len))
}

/// n is two copies of one digit block: an even digit count whose upper half
/// repeats the lower half.
pub open spec fn spec_twice_repeated(n: int) -> bool {
    let dc = spec_count_digits(n);
    dc % 2 == 0 && spec_pattern_repeats(n, dc / 2)
}

/// d is listed by divisors(n): a divisor of n below n, or 1.
pub open spec fn spec_listed_divisor(n: int, d: int) -> bool {
    1 <= d && n % d == 0 && (d < n || d == 1)
}

pub proof fn lemma_pow10_pos(k: nat)
    ensures
        pow10(k) >= 1,
    decreases k,
{
    if k > 0 {
        lemma_pow10_pos((k - 1) as nat);
    }
}

pub proof fn lemma_pow10_mono(a: nat, b: nat)
    requires
        a <= b,
    ensures
        pow10(a) <= pow10(b),
    decreases b,
{
    if a < b {
        lemma_pow10_mono(a, (b - 1) as nat);
        lemma_pow10_pos((b - 1) as nat);
    }
}

/// Numbers below 10^k have at most k digits.
proof fn lemma_count_digits_bound(n: int, k: nat)
    requires
        0 <= n < pow10(k),
    ensures
        spec_count_digits(n) <= k,
    decreases n,
{
    if n > 0 {
        assert(k > 0) by {
            if k == 0 {
                assert(pow10(0) == 1);
            }
        }
        assert(n / 10 < pow10((k - 1) as nat)) by {
            assert(pow10(k) == 10 * pow10((k - 1) as nat));
        }
        lemma_count_digits_bound(n / 10, (k - 1) as nat);
    }
}

/// Every u64 has at most 20 digits.
proof fn lemma_count_digits_u64(n: u64)
    ensures
        spec_count_digits(n as int) <= 20,
{
    assert(pow10(20) == 0x56BC75E2D63100000) by {
        reveal_with_fuel(pow10, 21);
    }
    lemma_count_digits_bound(n as int, 20);
}

/// The number of decimal digits in n.
pub fn count_digits(n: u64) -> (r: u32)
    ensures
        r == spec_count_digits(n as int),
{
    proof {
        lemma_count_digits_u64(n);
    }
    let mut temp = n;
    let mut count: u32 = 0;
    while temp > 0
        invariant
            count + spec_count_digits(temp as int) == spec_count_digits(n as int),
            spec_count_digits(n as int) <= 20,
        decreases temp,
    {
        proof {
            lemma_count_digits_u64(temp);
        }
        count += 1;
        temp /= 10;
    }
    count
}

/// 10 to the k-th power, as a machine word.
pub fn pow10_u64(k: u32) -> (r: u64)
    requires
        k <= 19,
    ensures
        r == pow10(k as nat),
{
    proof {
        assert(pow10(19) == 0x8AC7230489E80000) by {
            reveal_with_fuel(pow10, 20);
        }
    }
    let mut r: u64 = 1;
    let mut i: u32 = 0;
    while i < k
        invariant
            i <= k,
            k <= 19,
            r == pow10(i as nat),
        decreases k - i,
    {
        proof {
            assert(pow10(19) == 0x8AC7230489E80000) by {
                reveal_with_fuel(pow10, 20);
            }
            assert(pow10((i + 1) as nat) == 10 * pow10(i as nat));
            lemma_pow10_mono((i + 1) as nat, 19);
            lemma_pow10_pos(i as nat);
        }
        r = r * 10;
        i += 1;
    }
    r
}

/// If every digit block of length pattern_length above the lowest equals
/// the lowest, return that lowest block.
pub fn is_pattern_repeating(n: u64, pattern_length: u32) -> (r: Option<u64>)
    requires
        pattern_length <= 19,
        pattern_length >= 1 || n == 0,
    ensures
        r == if spec_pattern_repeats(n as int, pattern_length as nat) {
            Some((n as int % pow10(pattern_length as nat)) as u64)
        } else {
            None::<u64>
        },
{
    let divisor = pow10_u64(pattern_length);
    proof {
        lemma_pow10_pos(pattern_length as nat);
        if pattern_length >= 1 {
            lemma_pow10_mono(1, pattern_length as nat);
        }
    }
    let pattern = n % divisor;
    let mut remaining = n / divisor;
    while remaining > 0
        invariant
            divisor == pow10(pattern_length as nat),
            divisor >= 2 || remaining == 0,
            divisor >= 1,
            pattern == n % divisor,
            rep_ok(remaining as int, pattern as int, divisor as int)
                == spec_pattern_repeats(n as int, pattern_length as nat),
        decreases remaining,
    {
        if remaining % divisor != pattern {
            return None;
        }
        proof {
            vstd::arithmetic::div_mod::lemma_div_decreases(remaining as int, divisor as int);
            vstd::arithmetic::div_mod::lemma_div_pos_is_pos(remaining as int, divisor as int);
        }
        remaining /= divisor;
    }
    Some(pattern)
}

/// True iff n is one digit block written twice.
pub fn is_twice_repeated(n: u64) -> (r: bool)
    ensures
        r == spec_twice_repeated(n as int),
{
    let digit_count = count_digits(n);
    if digit_count % 2 != 0 {
        return false;
    }
    proof {
        lemma_count_digits_u64(n);
    }
    is_pattern_repeating(n, digit_count / 2).is_some()
}

/// Whether (fs + 1) squared still fits within n.
fn below_sqrt(fs: u32, n: u32) -> (r: bool)
    requires
        fs <= 0xFFFF,
    ensures
        r == ((fs as int + 1) * (fs as int + 1) <= n as int),
{
    proof {
        assert((fs as int + 1) * (fs as int + 1) <= 0x1_0000_0000) by (nonlinear_arith)
            requires fs <= 0xFFFF;
    }
    (fs as u64 + 1) * (fs as u64 + 1) <= n as u64
}

/// All divisors of n that are smaller than n, together with 1, in strictly
/// increasing order; empty for n = 0.
pub fn divisors(n: u32) -> (r: Vec<u32>)
    ensures
        n == 0 ==> r@.len() == 0,
        forall|i: int, j: int| 0 <= i < j < r@.len() ==> r@[i] < r@[j],
        forall|i: int| 0 <= i < r@.len() ==> spec_listed_divisor(n as int, (#[trigger] r@[i]) as int),
        n > 0 ==> forall|d: u32| spec_listed_divisor(n as int, d as int) ==> r@.contains(d),
{
    if n == 0 {
        return Vec::new();
    }
    let mut divs: Vec<u32> = Vec::new();
    divs.push(1);
    // The floor of the square root of n.
    let mut fs: u32 = 1;
    while below_sqrt(fs, n)
        invariant
            n >= 1,
            1 <= fs,
            fs as int * fs as int <= n as int,
            fs <= 0xFFFF,
        decreases n - fs,
    {
        proof {
            assert(fs as int + 1 <= 0xFFFF && fs as int + 1 <= n as int) by (nonlinear_arith)
                requires
                    (fs as int + 1) * (fs as int + 1) <= n as int,
                    n <= 0xFFFF_FFFFu32,
                    fs >= 1;
        }
        fs = fs + 1;
    }
    proof {
        assert(fs as int * fs as int <= n < (fs as int + 1) * (fs as int + 1));
    }
    // Small divisors, ascending.
    let mut i: u32 = 2;
    while i <= fs
        invariant
            n >= 1,
            fs as int * fs as int <= n < (fs as int + 1) * (fs as int + 1),
            fs <= 0xFFFF,
            2 <= i <= fs + 1,
            divs@.len() >= 1,
            divs@[0] == 1u32,
            forall|a: int, b: int| 0 <= a < b < divs@.len() ==> divs@[a] < divs@[b],
            forall|a: int| 0 <= a < divs@.len() ==> (#[trigger] divs@[a]) < i,
            forall|a: int| 0 <= a < divs@.len() ==>
                spec_listed_divisor(n as int, (#[trigger] divs@[a]) as int),
            forall|d: u32| 1 <= d < i && #[trigger] (n % d) == 0 ==> divs@.contains(d),
        decreases fs + 1 - i,
    {
        let ghost prev = divs@;
        if n % i == 0 {
            proof {
                assert(i < n) by (nonlinear_arith)
                    requires
                        2 <= i,
                        i as int <= fs as int,
                        (fs as int) * (fs as int) <= n as int;
            }
            divs.push(i);
            proof {
                assert(divs@[divs@.len() - 1] == i);
            }
        }
        proof {
            assert forall|d: u32| 1 <= d < i + 1 && #[trigger] (n % d) == 0
                implies divs@.contains(d) by {
                if d == i {
                    assert(divs@[divs@.len() - 1] == d);
                } else {
                    let k = choose|k: int| 0 <= k < prev.len() && prev[k] == d;
                    assert(divs@[k] == d);
                }
            }
        }
        i += 1;
    }
    // Large divisors: the cofactors of the small ones, ascending.
    let mut j: u32 = fs;
    while j >= 2
        invariant
            n >= 1,
            fs as int * fs as int <= n < (fs as int + 1) * (fs as int + 1),
            fs <= 0xFFFF,
            1 <= j <= fs,
            divs@.len() >= 1,
            divs@[0] == 1u32,
            forall|a: int, b: int| 0 <= a < b < divs@.len() ==> divs@[a] < divs@[b],
            forall|a: int| 0 <= a < divs@.len() ==>
                spec_listed_divisor(n as int, (#[trigger] divs@[a]) as int),
            forall|d: u32| 1 <= d <= fs && #[trigger] (n % d) == 0 ==> divs@.contains(d),
            forall|d: u32| j < d && d <= fs && #[trigger] (n % d) == 0 && ((d as int) * (d as int) < n as int)
                ==> divs@.contains(n / d),
            forall|a: int| 0 <= a < divs@.len() ==>
                (#[trigger] divs@[a]) <= fs
                || (exists|e: u32| j < e && e <= fs && #[trigger] (n % e) == 0 && divs@[a] == n / e),
        decreases j,
    {
        proof {
            assert((j as int) * (j as int) < 0xFFFF_FFFF) by (nonlinear_arith)
                requires j <= 0xFFFF;
        }
        let ghost prev = divs@;
        if n % j == 0 && j * j != n {
            let q = n / j;
            proof {
                lemma_cofactor(n, j, fs);
                assert forall|a: int| 0 <= a < divs@.len() implies divs@[a] < q by {
                    if divs@[a] as int <= fs as int {
                        assert(q as int > fs as int);
                    } else {
                        let e = choose|e: u32| j < e && e <= fs && #[trigger] (n % e) == 0 && divs@[a] == n / e;
                        lemma_cofactor_order(n, j, e);
                    }
                }
            }
            divs.push(q);
            proof {
                assert(divs@[divs@.len() - 1] == q);
            }
        }
        proof {
            assert forall|d: u32| 1 <= d <= fs && #[trigger] (n % d) == 0
                implies divs@.contains(d) by {
                let k = choose|k: int| 0 <= k < prev.len() && prev[k] == d;
                assert(divs@[k] == d);
            }
            assert forall|d: u32| j - 1 < d && d <= fs && #[trigger] (n % d) == 0
                && ((d as int) * (d as int) < n as int)
                implies divs@.contains(n / d) by {
                if d == j {
                    assert(divs@[divs@.len() - 1] == n / d);
                } else {
                    let k = choose|k: int| 0 <= k < prev.len() && prev[k] == n / d;
                    assert(divs@[k] == n / d);
                }
            }
        }
        j -= 1;
    }
    proof {
        assert forall|d: u32| spec_listed_divisor(n as int, d as int) implies divs@.contains(d) by {
            if d as int <= fs as int {
                assert(1 <= d && d <= fs && n % d == 0);
            } else {
                lemma_big_divisor_pairs(n, d, fs);
                let e = n / d;
                assert(1 < e && e <= fs && n % e == 0 && ((e as int) * (e as int) < n as int)
                    && n / e == d);
            }
        }
    }
    divs
}

/// The quotient of an exact division, in product form.
proof fn lemma_exact_div(n: int, j: int)
    requires
        n >= 0,
        j >= 1,
        n % j == 0,
    ensures
        n == j * (n / j),
        n / j >= 0,
{
    vstd::arithmetic::div_mod::lemma_fundamental_div_mod(n, j);
    vstd::arithmetic::div_mod::lemma_div_pos_is_pos(n, j);
}

/// The cofactor of a small divisor lies strictly above the square root.
proof fn lemma_cofactor(n: u32, j: u32, fs: u32)
    requires
        n >= 1,
        2 <= j,
        j as int <= fs as int,
        (fs as int) * (fs as int) <= n as int,
        (n as int) < (fs as int + 1) * (fs as int + 1),
        n % j == 0,
        (j as int) * (j as int) != n as int,
    ensures
        (n / j) as int > fs as int,
        n % (n / j) == 0,
        n / (n / j) == j,
        ((n / j) as int) * ((n / j) as int) > n as int,
        spec_listed_divisor(n as int, (n / j) as int),
{
    let ni = n as int;
    let ji = j as int;
    let fsi = fs as int;
    lemma_exact_div(ni, ji);
    let q = ni / ji;
    assert(q >= 1) by (nonlinear_arith)
        requires ni == ji * q, ni >= 1, ji >= 2, q >= 0;
    assert(q > fsi) by (nonlinear_arith)
        requires
            ni == ji * q,
            2 <= ji <= fsi,
            fsi * fsi <= ni,
            ji * ji != ni,
            q >= 1;
    vstd::arithmetic::div_mod::lemma_fundamental_div_mod_converse(ni, q, ji, 0);
    assert(q * q > ni) by (nonlinear_arith)
        requires q > fsi, ni < (fsi + 1) * (fsi + 1), fsi >= 1;
    assert(q < ni) by (nonlinear_arith)
        requires ni == ji * q, ji >= 2, q >= 1;
}

/// Cofactors of strictly larger small divisors are strictly smaller.
proof fn lemma_cofactor_order(n: u32, j: u32, e: u32)
    requires
        n >= 1,
        2 <= j < e,
        e <= n,
        n % j == 0,
        n % e == 0,
    ensures
        n / e < n / j,
{
    let ni = n as int;
    lemma_exact_div(ni, j as int);
    lemma_exact_div(ni, e as int);
    assert(ni / (e as int) < ni / (j as int)) by (nonlinear_arith)
        requires
            ni == (j as int) * (ni / (j as int)),
            ni == (e as int) * (ni / (e as int)),
            2 <= (j as int) < (e as int),
            ni >= 1,
            ni / (j as int) >= 0,
            ni / (e as int) >= 0;
}

/// A divisor above the square root pairs with one strictly below it.
proof fn lemma_big_divisor_pairs(n: u32, d: u32, fs: u32)
    requires
        n >= 1,
        spec_listed_divisor(n as int, d as int),
        (d as int) > fs as int,
        fs >= 1,
        (fs as int) * (fs as int) <= n as int,
        (n as int) < (fs as int + 1) * (fs as int + 1),
    ensures
        1 < n / d,
        (n / d) as int <= fs as int,
        n % (n / d) == 0,
        ((n / d) as int) * ((n / d) as int) < n as int,
        n / (n / d) == d,
{
    let ni = n as int;
    let di = d as int;
    let fsi = fs as int;
    assert(di < ni);
    lemma_exact_div(ni, di);
    let e = ni / di;
    assert(e >= 1) by (nonlinear_arith)
        requires ni == di * e, ni >= 1, di >= 1, e >= 0;
    assert(e >= 2) by (nonlinear_arith)
        requires ni == di * e, di < ni, e >= 1;
    assert(e <= fsi) by (nonlinear_arith)
        requires
            ni == di * e,
            di > fsi,
            ni < (fsi + 1) * (fsi + 1),
            fsi >= 1,
            e >= 2;
    vstd::arithmetic::div_mod::lemma_fundamental_div_mod_converse(ni, e, di, 0);
    assert(e * e < ni) by (nonlinear_arith)
        requires ni == di * e, e < di, e >= 2;
}

/// The smallest block length, among the listed divisors of the digit count
/// other than the digit count itself, whose block repeats through n; the
/// pattern returned is n's lowest such block.
pub fn smallest_repeating_pattern(n: u64) -> (r: Option<u64>)
    ensures
        n == 0 ==> r is None,
        n > 0 ==> {
            let dc = spec_count_digits(n as int) as int;
            &&& (r is Some <==> exists|len: int| 1 <= len <= 19
                && #[trigger] spec_listed_divisor(dc, len) && len != dc
                && spec_pattern_repeats(n as int, len as nat))
            &&& (r is Some ==> exists|len: int| 1 <= len <= 19
                && #[trigger] spec_listed_divisor(dc, len) && len != dc
                && spec_pattern_repeats(n as int, len as nat)
                && r == Some((n as int % pow10(len as nat)) as u64)
                && forall|len2: int| 1 <= len2 < len && spec_listed_divisor(dc, len2)
                    ==> !spec_pattern_repeats(n as int, len2 as nat))
        },
{
    let digit_count = count_digits(n);
    proof {
        lemma_count_digits_u64(n);
    }
    proof {
        if n > 0 {
            assert(spec_count_digits(n as int) >= 1);
        }
    }
    let divs = divisors(digit_count);
    let ghost dci = digit_count as int;
    let mut k: usize = 0;
    while k < divs.len()
        invariant
            n > 0 ==> digit_count >= 1,
            digit_count == spec_count_digits(n as int),
            digit_count <= 20,
            forall|a: int, b: int| 0 <= a < b < divs@.len() ==> divs@[a] < divs@[b],
            forall|a: int| 0 <= a < divs@.len() ==>
                spec_listed_divisor(dci, (#[trigger] divs@[a]) as int),
            n > 0 ==> forall|d: u32| spec_listed_divisor(dci, d as int) ==> divs@.contains(d),
            n > 0 || divs@.len() == 0,
            dci == digit_count as int,
            k <= divs@.len(),
            forall|a: int| 0 <= a < k ==> (#[trigger] divs@[a]) as int == dci
                || !spec_pattern_repeats(n as int, divs@[a] as nat),
        decreases divs@.len() - k,
    {
        let len = divs[k];
        if len != digit_count {
            proof {
                assert(spec_listed_divisor(dci, len as int));
                assert(len < digit_count || len == 1);
                assert(n > 0);
            }
            let res = is_pattern_repeating(n, len);
            if res.is_some() {
                proof {
                    assert(spec_pattern_repeats(n as int, len as nat));
                    assert(1 <= len as int <= 19 && spec_listed_divisor(dci, len as int)
                        && len as int != dci);
                    lemma_pow10_mono(len as nat, 19);
                    lemma_pow10_pos(len as nat);
                    assert(pow10(19) == 0x8AC7230489E80000) by {
                        reveal_with_fuel(pow10, 20);
                    }
                    assert forall|len2: int| 1 <= len2 < len as int && spec_listed_divisor(dci, len2)
                        implies !spec_pattern_repeats(n as int, len2 as nat) by {
                        let d2 = len2 as u32;
                        assert(spec_listed_divisor(dci, d2 as int));
                        assert(divs@.contains(d2));
                        let a = choose|a: int| 0 <= a < divs@.len() && divs@[a] == d2;
                        assert(a < k) by {
                            if a >= k {
                                assert(divs@[k as int] <= divs@[a]);
                            }
                        }
                        assert(d2 as int != dci) by {
                            assert(len2 < len as int);
                            assert(len as int == dci ==> false);
                        }
                    }
                    assert(res == Some((n as int % pow10(len as nat)) as u64));
                    assert(1 <= len as int <= 19 && spec_listed_divisor(dci, len as int)
                        && len as int != dci
                        && spec_pattern_repeats(n as int, len as nat)
                        && res == Some((n as int % pow10(len as nat)) as u64)
                        && forall|len2: int| 1 <= len2 < len as int && spec_listed_divisor(dci, len2)
                            ==> !spec_pattern_repeats(n as int, len2 as nat));
                }
                return res;
            }
        }
        k += 1;
    }
    proof {
        if n > 0 {
            assert forall|len: int| 1 <= len <= 19 && #[trigger] spec_listed_divisor(dci, len)
                && len != dci implies !spec_pattern_repeats(n as int, len as nat) by {
                let d = len as u32;
                assert(spec_listed_divisor(dci, d as int));
                assert(divs@.contains(d));
                let a = choose|a: int| 0 <= a < divs@.len() && divs@[a] == d;
            }
        }
    }
    None
}

/// The numbers in [low, high] that the test accepts, in increasing order,
/// with none missing.
pub fn collect_invalid_numbers<F: Fn(u64) -> bool>(low: u64, high: u64, f: F) -> (r: Vec<u64>)
    requires
        forall|x: u64| low <= x <= high ==> f.requires((x,)),
    ensures
        forall|k: int| 0 <= k < r@.len() ==> low <= #[trigger] r@[k] <= high,
        forall|k1: int, k2: int| 0 <= k1 < k2 < r@.len() ==> r@[k1] < r@[k2],
        forall|k: int| 0 <= k < r@.len() ==> f.ensures((#[trigger] r@[k],), true),
        forall|x: u64| low <= x <= high && !r@.contains(x) ==> f.ensures((x,), false),
{
    let mut out: Vec<u64> = Vec::new();
    if low > high {
        return out;
    }
    let mut x = low;
    let mut done = false;
    while !done
        invariant
            low <= x <= high,
            forall|x2: u64| low <= x2 <= high ==> f.requires((x2,)),
            forall|k: int| 0 <= k < out@.len() ==> low <= #[trigger] out@[k] <= high,
            forall|k1: int, k2: int| 0 <= k1 < k2 < out@.len() ==> out@[k1] < out@[k2],
            forall|k: int| 0 <= k < out@.len() ==> f.ensures((#[trigger] out@[k],), true),
            forall|k: int| 0 <= k < out@.len() ==> #[trigger] out@[k] < x || (done && out@[k] <= x),
            forall|x2: u64| low <= x2 < x && !out@.contains(x2) ==> f.ensures((x2,), false),
            done ==> x == high && (forall|x2: u64|
                low <= x2 <= high && !out@.contains(x2) ==> f.ensures((x2,), false)),
        decreases high - x + if done { 0int } else { 1int },
    {
        let ghost prev = out@;
        let b = f(x);
        if b {
            out.push(x);
            proof {
                assert(out@[out@.len() - 1] == x);
            }
        }
        proof {
            assert forall|x2: u64| low <= x2 <= x && !out@.contains(x2)
                implies f.ensures((x2,), false) by {
                if x2 == x {
                    if b {
                        assert(out@[out@.len() - 1] == x);
                        assert(out@.contains(x));
                    }
                } else {
                    if prev.contains(x2) {
                        let k = choose|k: int| 0 <= k < prev.len() && prev[k] == x2;
                        assert(out@[k] == x2);
                    }
                }
            }
        }
        if x == high {
            done = true;
        } else {
            x += 1;
        }
    }
    out
}

/// The sum of the twice-repeated numbers in [lo, hi].
pub open spec fn sum_twice_in(lo: int, hi: int) -> int
    decreases (if lo > hi { 0int } else { hi + 1 - lo }),
{
    if lo > hi {
        0
    } else {
        sum_twice_in(lo, hi - 1) + if spec_twice_repeated(hi) { hi } else { 0 }
    }
}

/// The sum of the twice-repeated numbers over a list of inclusive ranges.
pub open spec fn sum_ranges_twice(rs: Seq<(u64, u64)>) -> int
    decreases rs.len(),
{
    if rs.len() == 0 {
        0
    } else {
        sum_ranges_twice(rs.drop_last()) + sum_twice_in(rs.last().0 as int, rs.last().1 as int)
    }
}

proof fn lemma_sum_twice_nonneg(lo: int, hi: int)
    requires
        lo >= 0,
    ensures
        sum_twice_in(lo, hi) >= 0,
    decreases (if lo > hi { 0int } else { hi + 1 - lo }),
{
    if lo <= hi {
        lemma_sum_twice_nonneg(lo, hi - 1);
    }
}

proof fn lemma_sum_ranges_nonneg(rs: Seq<(u64, u64)>)
    ensures
        sum_ranges_twice(rs) >= 0,
    decreases rs.len(),
{
    if rs.len() > 0 {
        assert(forall|i: int| 0 <= i < rs.len() - 1 ==> rs.drop_last()[i] == rs[i]);
        lemma_sum_ranges_nonneg(rs.drop_last());
        assert(rs.last() == rs[rs.len() - 1]);
        lemma_sum_twice_nonneg(rs.last().0 as int, rs.last().1 as int);
    }
}

proof fn lemma_sum_ranges_take_le(rs: Seq<(u64, u64)>, i: int)
    requires
        0 <= i <= rs.len(),
    ensures
        sum_ranges_twice(rs.take(i)) <= sum_ranges_twice(rs),
    decreases rs.len() - i,
{
    if i == rs.len() {
        assert(rs.take(i) =~= rs);
    } else {
        assert(rs.take(i + 1).drop_last() =~= rs.take(i));
        assert(rs.take(i + 1).last() == rs[i]);
        lemma_sum_ranges_take_le(rs, i + 1);
        lemma_sum_twice_nonneg(rs[i].0 as int, rs[i].1 as int);
    }
}

proof fn lemma_sum_twice_step_le(lo: int, x: int, hi: int)
    requires
        lo >= 0,
        lo <= x <= hi,
    ensures
        sum_twice_in(lo, x) <= sum_twice_in(lo, hi),
    decreases hi - x,
{
    if x < hi {
        lemma_sum_twice_step_le(lo, x + 1, hi);
    }
}

/// The sum over the ranges of all twice-repeated numbers they hold. A range
/// whose low end exceeds its high end contributes nothing.
pub fn solve_problem_1(ranges: &Vec<(u64, u64)>) -> (r: u64)
    requires
        sum_ranges_twice(ranges@) <= u64::MAX,
    ensures
        r as int == sum_ranges_twice(ranges@),
{
    let ghost rs = ranges@;
    let mut acc: u64 = 0;
    let mut i: usize = 0;
    while i < ranges.len()
        invariant
            rs == ranges@,
            sum_ranges_twice(rs) <= u64::MAX,
            i <= rs.len(),
            acc as int == sum_ranges_twice(rs.take(i as int)),
        decreases rs.len() - i,
    {
        let (lo, hi) = ranges[i];
        proof {
            assert(rs.take(i + 1).drop_last() =~= rs.take(i as int));
            assert(rs.take(i + 1).last() == rs[i as int]);
            lemma_sum_ranges_take_le(rs, i + 1);
            lemma_sum_ranges_nonneg(rs.take(i as int));
        }
        if lo > hi {
            proof {
                assert(sum_twice_in(lo as int, hi as int) == 0);
            }
        } else {
        let mut x = lo;
        let mut done = false;
        while !done
            invariant
                rs == ranges@,
                sum_ranges_twice(rs) <= u64::MAX,
                i < rs.len(),
                (lo, hi) == rs[i as int],
                lo <= x <= hi,
                done ==> x == hi,
                sum_ranges_twice(rs.take(i + 1)) <= u64::MAX,
                sum_ranges_twice(rs.take(i as int)) >= 0,
                sum_ranges_twice(rs.take(i + 1)) == sum_ranges_twice(rs.take(i as int))
                    + sum_twice_in(lo as int, hi as int),
                acc as int == sum_ranges_twice(rs.take(i as int))
                    + sum_twice_in(lo as int, if done { x as int } else { x as int - 1 }),
            decreases hi - x + if done { 0int } else { 1int },
        {
            proof {
                lemma_sum_twice_step_le(lo as int, x as int, hi as int);
                lemma_sum_twice_nonneg(lo as int, x as int - 1);
            }
            if is_twice_repeated(x) {
                acc += x;
            }
            if x == hi {
                done = true;
            } else {
                x += 1;
            }
        }
        }
        proof {
            assert(acc as int == sum_ranges_twice(rs.take(i + 1)));
        }
        i += 1;
    }
    proof {
        assert(rs.take(rs.len() as int) =~= rs);
    }
    acc
}

/// n has some repeated block shorter than itself.
pub open spec fn spec_any_repeat(n: int) -> bool {
    n > 0 && exists|len: int| 1 <= len <= 19
        && #[trigger] spec_listed_divisor(spec_count_digits(n) as int, len)
        && len != spec_count_digits(n) as int
        && spec_pattern_repeats(n, len as nat)
}

/// The sum of the pattern-repeating numbers in [lo, hi].
pub open spec fn sum_repeat_in(lo: int, hi: int) -> int
    decreases (if lo > hi { 0int } else { hi + 1 - lo }),
{
    if lo > hi {
        0
    } else {
        sum_repeat_in(lo, hi - 1) + if spec_any_repeat(hi) { hi } else { 0 }
    }
}

/// The sum of the pattern-repeating numbers over a list of ranges.
pub open spec fn sum_ranges_repeat(rs: Seq<(u64, u64)>) -> int
    decreases rs.len(),
{
    if rs.len() == 0 {
        0
    } else {
        sum_ranges_repeat(rs.drop_last()) + sum_repeat_in(rs.last().0 as int, rs.last().1 as int)
    }
}

proof fn lemma_sum_repeat_nonneg(lo: int, hi: int)
    requires
        lo >= 0,
    ensures
        sum_repeat_in(lo, hi) >= 0,
    decreases (if lo > hi { 0int } else { hi + 1 - lo }),
{
    if lo <= hi {
        lemma_sum_repeat_nonneg(lo, hi - 1);
    }
}

proof fn lemma_sum_ranges_repeat_nonneg(rs: Seq<(u64, u64)>)
    ensures
        sum_ranges_repeat(rs) >= 0,
    decreases rs.len(),
{
    if rs.len() > 0 {
        assert(forall|i: int| 0 <= i < rs.len() - 1 ==> rs.drop_last()[i] == rs[i]);
        lemma_sum_ranges_repeat_nonneg(rs.drop_last());
        assert(rs.last() == rs[rs.len() - 1]);
        lemma_sum_repeat_nonneg(rs.last().0 as int, rs.last().1 as int);
    }
}

proof fn lemma_sum_ranges_repeat_take_le(rs: Seq<(u64, u64)>, i: int)
    requires
        0 <= i <= rs.len(),
    ensures
        sum_ranges_repeat(rs.take(i)) <= sum_ranges_repeat(rs),
    decreases rs.len() - i,
{
    if i == rs.len() {
        assert(rs.take(i) =~= rs);
    } else {
        assert(rs.take(i + 1).drop_last() =~= rs.take(i));
        assert(rs.take(i + 1).last() == rs[i]);
        lemma_sum_ranges_repeat_take_le(rs, i + 1);
        lemma_sum_repeat_nonneg(rs[i].0 as int, rs[i].1 as int);
    }
}

proof fn lemma_sum_repeat_step_le(lo: int, x: int, hi: int)
    requires
        lo >= 0,
        lo <= x <= hi,
    ensures
        sum_repeat_in(lo, x) <= sum_repeat_in(lo, hi),
    decreases hi - x,
{
    if x < hi {
        lemma_sum_repeat_step_le(lo, x + 1, hi);
    }
}

/// The sum over the ranges of all numbers with a repeated block shorter
/// than themselves.
pub fn solve_problem_2(ranges: &Vec<(u64, u64)>) -> (r: u64)
    requires
        sum_ranges_repeat(ranges@) <= u64::MAX,
    ensures
        r as int == sum_ranges_repeat(ranges@),
{
    let ghost rs = ranges@;
    let mut acc: u64 = 0;
    let mut i: usize = 0;
    while i < ranges.len()
        invariant
            rs == ranges@,
            sum_ranges_repeat(rs) <= u64::MAX,
            i <= rs.len(),
            acc as int == sum_ranges_repeat(rs.take(i as int)),
        decreases rs.len() - i,
    {
        let (lo, hi) = ranges[i];
        proof {
            assert(rs.take(i + 1).drop_last() =~= rs.take(i as int));
            assert(rs.take(i + 1).last() == rs[i as int]);
            lemma_sum_ranges_repeat_take_le(rs, i + 1);
            lemma_sum_ranges_repeat_nonneg(rs.take(i as int));
        }
        if lo > hi {
            proof {
                assert(sum_repeat_in(lo as int, hi as int) == 0);
            }
        } else {
        let mut x = lo;
        let mut done = false;
        while !done
            invariant
                rs == ranges@,
                sum_ranges_repeat(rs) <= u64::MAX,
                i < rs.len(),
                (lo, hi) == rs[i as int],
                lo <= x <= hi,
                done ==> x == hi,
                sum_ranges_repeat(rs.take(i + 1)) <= u64::MAX,
                sum_ranges_repeat(rs.take(i as int)) >= 0,
                sum_ranges_repeat(rs.take(i + 1)) == sum_ranges_repeat(rs.take(i as int))
                    + sum_repeat_in(lo as int, hi as int),
                acc as int == sum_ranges_repeat(rs.take(i as int))
                    + sum_repeat_in(lo as int, if done { x as int } else { x as int - 1 }),
            decreases hi - x + if done { 0int } else { 1int },
        {
            proof {
                lemma_sum_repeat_step_le(lo as int, x as int, hi as int);
                lemma_sum_repeat_nonneg(lo as int, x as int - 1);
            }
            let hit = smallest_repeating_pattern(x);
            proof {
                assert(hit is Some <==> spec_any_repeat(x as int));
            }
            if hit.is_some() {
                acc += x;
            }
            if x == hi {
                done = true;
            } else {
                x += 1;
            }
        }
        }
        proof {
            assert(acc as int == sum_ranges_repeat(rs.take(i + 1)));
        }
        i += 1;
    }
    proof {
        assert(rs.take(rs.len() as int) =~= rs);
    }
    acc
}

} // verus!
