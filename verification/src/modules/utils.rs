//! Stateless helper functions: list statistics, unit conversion, validation,
//! and id generation.

use vstd::prelude::*;

use crate::div_trunc;
use crate::modules::error::ProjectError;
use crate::modules::stats::trunc_mean;
use vstd::arithmetic::div_mod::{
    lemma_fundamental_div_mod, lemma_div_pos_is_pos, lemma_div_is_ordered,
};
use vstd::string::StringSliceAdditionalSpecFns;
use vstd::multiset::Multiset;

verus! {

/// The sum of a sequence of numbers.
pub open spec fn sum_seq(s: Seq<i64>) -> int
    decreases s.len(),
{
    if s.len() == 0 {
        0
    } else {
        sum_seq(s.drop_last()) + s.last()
    }
}

/// The sum of the squared deviations of a sequence from a midpoint `m`.
pub open spec fn sq_dev_sum(s: Seq<i64>, m: int) -> int
    decreases s.len(),
{
    if s.len() == 0 {
        0
    } else {
        sq_dev_sum(s.drop_last(), m) + (s.last() - m) * (s.last() - m)
    }
}

/// Positions `i` and `j` hold an `@` and a `.` respectively.
pub open spec fn at_then_dot(bytes: Seq<u8>, i: int, j: int) -> bool {
    bytes[i] == 64u8 && bytes[j] == 46u8
}

/// An email candidate passes the simple check when it is longer than five
/// bytes and an `@` that is not the first byte is followed, somewhere later,
/// by a `.`.
pub open spec fn valid_email_spec(bytes: Seq<u8>) -> bool {
    &&& bytes.len() > 5
    &&& exists|i: int, j: int| 1 <= i < j < bytes.len() && #[trigger] at_then_dot(bytes, i, j)
}

/// The first position of a byte at or after `start`, if there is one.
fn find_byte_from(b: &[u8], start: usize, target: u8) -> (r: Option<usize>)
    requires
        start <= b@.len(),
    ensures
        match r {
            Some(i) => start <= i < b@.len() && b@[i as int] == target && forall|j: int|
                start <= j < i ==> b@[j] != target,
            None => forall|j: int| start <= j < b@.len() ==> b@[j] != target,
        },
{
    let n = b.len();
    let mut idx: usize = start;
    while idx < n
        invariant
            start <= idx <= n,
            n == b@.len(),
            forall|j: int| start <= j < idx ==> b@[j] != target,
        decreases n - idx,
    {
        if b[idx] == target {
            return Some(idx);
        }
        idx += 1;
    }
    None
}

/// A simple email check: the text must be longer than five bytes and hold
/// an `@` after the first byte, with a `.` somewhere after that `@`.
pub fn validate_email(email: &str) -> (r: bool)
    ensures
        r == valid_email_spec(email.spec_bytes()),
{
    let bytes = email.as_bytes();
    if bytes.len() < 2 {
        return false;
    }
    let at = match find_byte_from(bytes, 1, 64) {
        Some(i) => i,
        None => {
            proof {
                assert(!valid_email_spec(email.spec_bytes()));
            }
            return false;
        },
    };
    match find_byte_from(bytes, at + 1, 46) {
        Some(dot) => {
            let ok = bytes.len() > 5;
            proof {
                if ok {
                    assert(at_then_dot(email.spec_bytes(), at as int, dot as int));
                }
            }
            ok
        },
        None => {
            proof {
                // Any `@` at or after the first one has no `.` after it.
                let sb = email.spec_bytes();
                assert forall|i: int, j: int| 1 <= i < j < sb.len() implies !(
                #[trigger] at_then_dot(sb, i, j)) by {
                    if i < at {
                        assert(sb[i] != 64u8);
                    } else {
                        assert(sb[j] != 46u8);
                    }
                }
            }
            false
        },
    }
}

/// Draws a fresh random identifier in hyphenated textual form.
/// Relies on `uuid::Uuid::new_v4` and its `Display` impl: a version-4 UUID
/// formats as 36 hyphenated lowercase hex characters. The value itself is
/// random; nothing more is promised of it.
#[verifier::external_body]
fn new_v4_string() -> (r: String)
    ensures
        r@.len() == 36,
{
    uuid::Uuid::new_v4().to_string()
}

/// A unique textual identifier: a random version-4 UUID, 36 characters in
/// hyphenated form.
pub fn generate_id() -> (r: String)
    ensures
        r@.len() == 36,
{
    new_v4_string()
}

/// Whether a path exists on disk.
/// Relies on `std::path::Path::exists`; the answer depends on the file
/// system, so nothing is promised of it.
#[verifier::external_body]
pub fn file_exists(file_path: &str) -> bool {
    std::path::Path::new(file_path).exists()
}

/// The truncated mean of a list of numbers; an empty list is rejected.
pub fn calculate_average(numbers: &Vec<i64>) -> (r: Result<i64, ProjectError>)
    ensures
        numbers@.len() == 0 ==> (r matches Err(e) && e matches ProjectError::InvalidInput(m)
            && m@ == "Liste ist leer"@),
        numbers@.len() > 0 ==> (r matches Ok(a) && a == div_trunc(
            sum_seq(numbers@),
            numbers@.len() as int,
        )),
{
    if numbers.len() == 0 {
        return Err(ProjectError::InvalidInput(String::from_str("Liste ist leer")));
    }
    let sum = sum_list(numbers);
    let count = numbers.len() as u64;
    Ok(trunc_mean(sum, count))
}

/// The sum of the list, accumulated exactly in 128 bits.
fn sum_list(numbers: &Vec<i64>) -> (r: i128)
    ensures
        r == sum_seq(numbers@),
        (numbers@.len() as int) * (i64::MIN as int) <= r as int <= (numbers@.len() as int) * (
        i64::MAX as int),
{
    let n = numbers.len();
    let mut acc: i128 = 0;
    let mut idx: usize = 0;
    while idx < n
        invariant
            n == numbers@.len(),
            0 <= idx <= n,
            acc == sum_seq(numbers@.take(idx as int)),
            (idx as int) * (i64::MIN as int) <= acc as int <= (idx as int) * (i64::MAX as int),
            n * (i64::MIN as int) >= i128::MIN,
            n * (i64::MAX as int) <= i128::MAX,
        decreases n - idx,
    {
        proof {
            assert(numbers@.take(idx as int + 1).drop_last() =~= numbers@.take(idx as int));
            assert(numbers@.take(idx as int + 1).last() == numbers@[idx as int]);
            assert((idx as int + 1) * (i64::MIN as int) == (idx as int) * (i64::MIN as int)
                + i64::MIN);
            assert((idx as int + 1) * (i64::MAX as int) == (idx as int) * (i64::MAX as int)
                + i64::MAX);
        }
        acc = acc + numbers[idx] as i128;
        idx += 1;
    }
    proof {
        assert(numbers@.take(n as int) =~= numbers@);
    }
    acc
}

/// The smallest number in the list; an empty list is rejected.
pub fn find_minimum(numbers: &Vec<i64>) -> (r: Result<i64, ProjectError>)
    ensures
        numbers@.len() == 0 ==> (r matches Err(e) && e matches ProjectError::InvalidInput(m)
            && m@ == "Liste ist leer"@),
        numbers@.len() > 0 ==> (r matches Ok(m) && numbers@.contains(m) && forall|j: int|
            0 <= j < numbers@.len() ==> m <= #[trigger] numbers@[j]),
{
    if numbers.len() == 0 {
        return Err(ProjectError::InvalidInput(String::from_str("Liste ist leer")));
    }
    let n = numbers.len();
    let mut best = numbers[0];
    let mut idx: usize = 1;
    while idx < n
        invariant
            n == numbers@.len(),
            1 <= idx <= n,
            numbers@.contains(best),
            forall|j: int| 0 <= j < idx ==> best <= #[trigger] numbers@[j],
        decreases n - idx,
    {
        if numbers[idx] < best {
            best = numbers[idx];
            assert(numbers@.contains(best)) by {
                assert(numbers@[idx as int] == best);
            }
        }
        idx += 1;
    }
    Ok(best)
}

/// The largest number in the list; an empty list is rejected.
pub fn find_maximum(numbers: &Vec<i64>) -> (r: Result<i64, ProjectError>)
    ensures
        numbers@.len() == 0 ==> (r matches Err(e) && e matches ProjectError::InvalidInput(m)
            && m@ == "Liste ist leer"@),
        numbers@.len() > 0 ==> (r matches Ok(m) && numbers@.contains(m) && forall|j: int|
            0 <= j < numbers@.len() ==> m >= #[trigger] numbers@[j]),
{
    if numbers.len() == 0 {
        return Err(ProjectError::InvalidInput(String::from_str("Liste ist leer")));
    }
    let n = numbers.len();
    let mut best = numbers[0];
    let mut idx: usize = 1;
    while idx < n
        invariant
            n == numbers@.len(),
            1 <= idx <= n,
            numbers@.contains(best),
            forall|j: int| 0 <= j < idx ==> best >= #[trigger] numbers@[j],
        decreases n - idx,
    {
        if numbers[idx] > best {
            best = numbers[idx];
            assert(numbers@.contains(best)) by {
                assert(numbers@[idx as int] == best);
            }
        }
        idx += 1;
    }
    Ok(best)
}

/// The population standard deviation, rounded down to a whole number: the
/// integer square root of the truncated mean of squared deviations from the
/// truncated mean. An empty list is rejected; a sum of squared deviations
/// beyond 128 bits reports an overflow.
pub fn calculate_standard_deviation(numbers: &Vec<i64>) -> (r: Result<u64, ProjectError>)
    ensures
        numbers@.len() == 0 ==> (r matches Err(e) && e matches ProjectError::InvalidInput(m)
            && m@ == "Liste ist leer"@),
        numbers@.len() > 0 && sq_dev_sum(
            numbers@,
            div_trunc(sum_seq(numbers@), numbers@.len() as int),
        ) <= u128::MAX ==> (r matches Ok(d) && {
            let variance = sq_dev_sum(
                numbers@,
                div_trunc(sum_seq(numbers@), numbers@.len() as int),
            ) / (numbers@.len() as int);
            (d * d <= variance) && ((d + 1) * (d + 1) > variance)
        }),
        numbers@.len() > 0 && sq_dev_sum(
            numbers@,
            div_trunc(sum_seq(numbers@), numbers@.len() as int),
        ) > u128::MAX ==> (r matches Err(e) && e matches ProjectError::OverflowError(m)
            && m@ == "Summe der Quadrate zu groß"@),
{
    if numbers.len() == 0 {
        return Err(ProjectError::InvalidInput(String::from_str("Liste ist leer")));
    }
    let sum = sum_list(numbers);
    let count = numbers.len() as u64;
    let mean = trunc_mean(sum, count);
    let total_sq = match sq_dev_total(numbers, mean) {
        Some(t) => t,
        None => {
            return Err(ProjectError::OverflowError(String::from_str(
                "Summe der Quadrate zu groß",
            )));
        },
    };
    let variance = total_sq / (count as u128);
    Ok(isqrt_u128(variance))
}

/// The sum of squared deviations from `m`, or nothing if it exceeds 128
/// bits.
fn sq_dev_total(numbers: &Vec<i64>, m: i64) -> (r: Option<u128>)
    ensures
        match r {
            Some(t) => t == sq_dev_sum(numbers@, m as int),
            None => sq_dev_sum(numbers@, m as int) > u128::MAX,
        },
{
    let n = numbers.len();
    let mut acc: u128 = 0;
    let mut idx: usize = 0;
    while idx < n
        invariant
            n == numbers@.len(),
            0 <= idx <= n,
            acc == sq_dev_sum(numbers@.take(idx as int), m as int),
        decreases n - idx,
    {
        proof {
            assert(numbers@.take(idx as int + 1).drop_last() =~= numbers@.take(idx as int));
            assert(numbers@.take(idx as int + 1).last() == numbers@[idx as int]);
            lemma_sq_dev_sum_monotone(numbers@, m as int, idx as int);
        }
        let x = numbers[idx];
        let dev = (x as i128) - (m as i128);
        let dev_mag: u128 = if dev >= 0 {
            dev as u128
        } else {
            (-dev) as u128
        };
        proof {
            assert(dev_mag as int * (dev_mag as int) == ((x - m) * (x - m))) by (nonlinear_arith)
                requires
                    dev_mag == if x - m >= 0 {
                        x - m
                    } else {
                        -(x - m)
                    },
        ;
        }
        proof {
            assert(dev_mag <= 0xFFFF_FFFF_FFFF_FFFFu128);
            vstd::arithmetic::mul::lemma_mul_upper_bound(
                dev_mag as int,
                0xFFFF_FFFF_FFFF_FFFF as int,
                dev_mag as int,
                0xFFFF_FFFF_FFFF_FFFF as int,
            );
        }
        let sq = match dev_mag.checked_mul(dev_mag) {
            Some(s) => s,
            None => {
                proof {
                    assert(false);
                }
                return None;
            },
        };
        acc = match acc.checked_add(sq) {
            Some(a) => a,
            None => {
                return None;
            },
        };
        idx += 1;
    }
    proof {
        assert(numbers@.take(n as int) =~= numbers@);
    }
    Some(acc)
}

/// Later prefixes of the squared-deviation sum are at least as large.
proof fn lemma_sq_dev_sum_monotone(s: Seq<i64>, m: int, i: int)
    requires
        0 <= i < s.len(),
    ensures
        sq_dev_sum(s, m) >= sq_dev_sum(s.take(i + 1), m),
        sq_dev_sum(s.take(i + 1), m) >= sq_dev_sum(s.take(i), m),
    decreases s.len(),
{
    assert(sq_dev_sum(s.take(i + 1), m) == sq_dev_sum(s.take(i), m) + (s[i] - m) * (s[i] - m))
        by {
        assert(s.take(i + 1).drop_last() =~= s.take(i));
        assert(s.take(i + 1).last() == s[i]);
    }
    assert((s[i] - m) * (s[i] - m) >= 0) by (nonlinear_arith);
    if i + 1 < s.len() {
        assert(s.drop_last().take(i + 1) =~= s.take(i + 1));
        assert(s.drop_last().take(i) =~= s.take(i));
        lemma_sq_dev_sum_monotone(s.drop_last(), m, i);
        assert((s.last() - m) * (s.last() - m) >= 0) by (nonlinear_arith);
    } else {
        assert(s.take(i + 1) =~= s);
    }
}

/// The whole-number square root: the largest integer whose square does not
/// exceed the argument.
fn isqrt_u128(v: u128) -> (r: u64)
    ensures
        (r as int) * (r as int) <= v as int,
        (r as int + 1) * (r as int + 1) > v as int,
{
    let mut lo: u128 = 0;
    let mut hi: u128 = 0xFFFF_FFFF_FFFF_FFFF;
    proof {
        assert((hi as int + 1) * (hi as int + 1) > u128::MAX as int) by (nonlinear_arith)
            requires
                hi == 0xFFFF_FFFF_FFFF_FFFFu128,
        ;
    }
    while lo < hi
        invariant
            lo <= hi <= 0xFFFF_FFFF_FFFF_FFFF,
            (lo as int) * (lo as int) <= v as int,
            (hi as int + 1) * (hi as int + 1) > v as int,
        decreases hi - lo,
    {
        let mid = lo + (hi - lo + 1) / 2;
        proof {
            assert(lo < mid <= hi) by {
                lemma_fundamental_div_mod((hi - lo + 1) as int, 2);
            }
        }
        let q = v / mid;
        proof {
            lemma_fundamental_div_mod(v as int, mid as int);
            if mid <= q {
                assert((mid as int) * (mid as int) <= v as int) by (nonlinear_arith)
                    requires
                        v as int == (mid as int) * (q as int) + ((v as int) % (mid as int)),
                        ((v as int) % (mid as int)) >= 0,
                        mid <= q,
                        mid > 0,
                ;
            } else {
                assert((mid as int) * (mid as int) > v as int) by (nonlinear_arith)
                    requires
                        v as int == (mid as int) * (q as int) + ((v as int) % (mid as int)),
                        ((v as int) % (mid as int)) < mid,
                        mid > q,
                        mid > 0,
                        q >= 0,
                ;
            }
        }
        if mid <= q {
            lo = mid;
        } else {
            hi = mid - 1;
        }
    }
    lo as u64
}

/// A sequence is sorted when no element exceeds a later one.
pub open spec fn sorted_seq(s: Seq<i64>) -> bool {
    forall|p: int, q: int| 0 <= p <= q < s.len() ==> s[p] <= s[q]
}

/// The position of a smallest element.
fn min_index(numbers: &Vec<i64>) -> (r: usize)
    requires
        numbers@.len() > 0,
    ensures
        r < numbers@.len(),
        forall|q: int| 0 <= q < numbers@.len() ==> numbers@[r as int] <= #[trigger] numbers@[q],
{
    let n = numbers.len();
    let mut best: usize = 0;
    let mut idx: usize = 1;
    while idx < n
        invariant
            n == numbers@.len(),
            best < idx <= n,
            forall|q: int| 0 <= q < idx ==> numbers@[best as int] <= #[trigger] numbers@[q],
        decreases n - idx,
    {
        if numbers[idx] < numbers[best] {
            best = idx;
        }
        idx += 1;
    }
    best
}

/// Sorts the list in ascending order: afterwards no element exceeds a later
/// one, and the list holds exactly the numbers it held before.
pub fn sort_numbers(numbers: &mut Vec<i64>)
    ensures
        sorted_seq(final(numbers)@),
        final(numbers)@.to_multiset() == old(numbers)@.to_multiset(),
        final(numbers)@.len() == old(numbers)@.len(),
{
    broadcast use vstd::seq_lib::group_to_multiset_ensures;
    broadcast use vstd::multiset::group_multiset_axioms;

    let mut result: Vec<i64> = Vec::new();
    proof {
        assert(result@.to_multiset().add(numbers@.to_multiset()) =~= old(
            numbers,
        )@.to_multiset());
    }
    while numbers.len() > 0
        invariant
            result@.to_multiset().add(numbers@.to_multiset()) == old(numbers)@.to_multiset(),
            result@.len() + numbers@.len() == old(numbers)@.len(),
            sorted_seq(result@),
            forall|p: int, q: int|
                0 <= p < result@.len() && 0 <= q < numbers@.len() ==> #[trigger] result@[p]
                    <= #[trigger] numbers@[q],
        decreases numbers@.len(),
    {
        let idx = min_index(numbers);
        let ghost before = numbers@;
        let ghost gathered = result@;
        let x = numbers.remove(idx);
        result.push(x);
        proof {
            before.to_multiset_ensures();
            gathered.to_multiset_ensures();
            assert(result@.to_multiset() =~= gathered.to_multiset().insert(x));
            assert(before.remove(idx as int).to_multiset() =~= before.to_multiset().remove(x));
            assert(before.to_multiset().count(x) > 0) by {
                assert(before.contains(x)) by {
                    assert(before[idx as int] == x);
                }
            }
            assert(result@.to_multiset().add(numbers@.to_multiset()) =~= old(
                numbers,
            )@.to_multiset());
            assert(sorted_seq(result@)) by {
                assert(forall|p: int| 0 <= p < result@.len() - 1 ==> #[trigger] result@[p] <= x);
            }
            assert forall|p: int, q: int|
                0 <= p < result@.len() && 0 <= q < numbers@.len() implies #[trigger] result@[p]
                <= #[trigger] numbers@[q] by {
                assert(numbers@[q] == if q < idx {
                    before[q]
                } else {
                    before[q + 1]
                });
            }
        }
    }
    proof {
        assert(numbers@.to_multiset().len() == 0);
        assert(result@.to_multiset().add(Multiset::<i64>::empty()) =~= result@.to_multiset());
        assert(numbers@.to_multiset() =~= Multiset::<i64>::empty());
    }
    *numbers = result;
}

/// Celsius to Fahrenheit: nine fifths of the temperature, plus thirty-two.
pub fn celsius_to_fahrenheit(celsius: i64) -> (r: i64)
    requires
        i64::MIN <= celsius * 9 <= i64::MAX,
    ensures
        r == div_trunc(celsius * 9, 5) + 32,
{
    proof {
        lemma_scaled_quotient_fits(celsius as int, 9, 5);
    }
    let scaled = celsius * 9;
    let q = trunc_div_i64(scaled, 5);
    q + 32
}

/// Fahrenheit to Celsius: five ninths of the temperature less thirty-two.
pub fn fahrenheit_to_celsius(fahrenheit: i64) -> (r: i64)
    requires
        i64::MIN <= (fahrenheit - 32) * 5 <= i64::MAX,
    ensures
        r == div_trunc((fahrenheit - 32) * 5, 9),
{
    proof {
        lemma_scaled_quotient_fits(fahrenheit as int - 32, 5, 9);
    }
    let shifted = fahrenheit - 32;
    trunc_div_i64(shifted * 5, 9)
}

/// A quotient by a positive constant stays well inside the 64-bit range,
/// with room for the +32 shift.
proof fn lemma_scaled_quotient_fits(x: int, f: int, d: int)
    requires
        2 <= f,
        2 <= d,
        i64::MIN <= x * f <= i64::MAX,
    ensures
        i64::MIN / 2 - 1 <= div_trunc(x * f, d) <= i64::MAX / 2 + 1,
{
    let s = x * f;
    if s == 0 {
    } else if s > 0 {
        lemma_div_pos_is_pos(s, d);
        lemma_div_is_ordered(s, i64::MAX as int, d);
        assert((i64::MAX as int) / d <= (i64::MAX as int) / 2) by {
            vstd::arithmetic::div_mod::lemma_div_is_ordered_by_denominator(
                i64::MAX as int,
                2,
                d,
            );
        }
    } else {
        lemma_div_pos_is_pos(s * -1, d);
        lemma_div_is_ordered(s * -1, -(i64::MIN as int), d);
        assert((-(i64::MIN as int)) / d <= (-(i64::MIN as int)) / 2) by {
            vstd::arithmetic::div_mod::lemma_div_is_ordered_by_denominator(
                -(i64::MIN as int),
                2,
                d,
            );
        }
    }
}

/// Truncating division of a 64-bit number by a small positive constant.
fn trunc_div_i64(a: i64, b: i64) -> (r: i64)
    requires
        b >= 2,
    ensures
        r == div_trunc(a as int, b as int),
{
    proof {
        if a > 0 {
            crate::lemma_div_bounds(a as int, b as int);
        } else if a < 0 {
            crate::lemma_div_bounds((a as int) * -1, b as int);
        }
    }
    let q = match a.checked_div(b) {
        Some(q) => q,
        None => {
            // Unreachable: the divisor is at least two, so the quotient
            // stays inside the 64-bit range.
            proof {
                assert(false);
            }
            0
        },
    };
    q
}

} // verus!
