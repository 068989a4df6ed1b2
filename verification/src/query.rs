//! Parsing of the query API's parameters.
//!
//! The traces endpoint takes either a list of trace ids or a predicate
//! query; its parameters arrive URL-encoded. Durations come in a
//! human-readable form: groups of a decimal number followed by a unit
//! (`ns`, `us`/`µs`, `ms`, `s`, `m`, `h`), concatenated, with an optional
//! leading `-`; the groups are summed exactly, in integer arithmetic.

use vstd::prelude::*;

verus! {

use vstd::arithmetic::power::pow;

use crate::models::SignedDuration;
use crate::models::DUR_MAX_NANOS;
use crate::models::DUR_MIN_NANOS;

/// Why a query parameter was rejected.
#[derive(Clone, Copy, Debug, PartialEq, Eq, Structural)]
pub enum QueryError {
    /// A number or duration is malformed or out of range.
    BadNumber,
    /// A duration carries an unknown unit or trailing text.
    BadUnit,
    /// A `tag` value misses its `:` separator, or a `tags` value is no JSON
    /// map of strings.
    BadTags,
    /// A trace-id query holds an unknown key, no ids, or a malformed id.
    BadTraceIds,
    /// The query as a whole is malformed: a required parameter is missing,
    /// a parameter repeats, or the window is empty.
    BadQuery,
}

/// A decimal digit.
pub open spec fn is_digit(c: char) -> bool {
    '0' <= c && c <= '9'
}

/// A char that may belong to a unit name.
pub open spec fn is_unit_char(c: char) -> bool {
    ('a' <= c && c <= 'z') || ('A' <= c && c <= 'Z') || c == 'µ'
}

/// The first position at or after `i` that holds no digit.
pub open spec fn scan_digits(s: Seq<char>, i: int) -> int
    decreases s.len() - i,
{
    if i < 0 || i >= s.len() || !is_digit(s[i]) {
        i
    } else {
        scan_digits(s, i + 1)
    }
}

/// The first position at or after `i` that holds no unit char.
pub open spec fn scan_unit(s: Seq<char>, i: int) -> int
    decreases s.len() - i,
{
    if i < 0 || i >= s.len() || !is_unit_char(s[i]) {
        i
    } else {
        scan_unit(s, i + 1)
    }
}

/// The value of the digits in `s[i..j)`.
pub open spec fn digits_val(s: Seq<char>, i: int, j: int) -> int
    decreases j - i,
{
    if j <= i {
        0
    } else {
        digits_val(s, i, j - 1) * 10 + (s[j - 1] as int - '0' as int)
    }
}

/// The length of one unit in nanoseconds, or `None` for an unknown unit.
pub open spec fn unit_nanos(u: Seq<char>) -> Option<int> {
    if u.len() == 1 {
        if u[0] == 's' {
            Some(1000000000)
        } else if u[0] == 'm' {
            Some(60000000000)
        } else if u[0] == 'h' {
            Some(3600000000000)
        } else {
            None
        }
    } else if u.len() == 2 && u[1] == 's' {
        if u[0] == 'n' {
            Some(1)
        } else if u[0] == 'u' || u[0] == 'µ' {
            Some(1000)
        } else if u[0] == 'm' {
            Some(1000000)
        } else {
            None
        }
    } else {
        None
    }
}

/// The summed nanoseconds of the groups from position `i` on: each group a
/// number (with at most 18 fractional digits), then a unit; the fractional
/// contribution is floored at the nanosecond. `None` where the text is
/// malformed or the total exceeds the representable range.
pub open spec fn parse_groups(s: Seq<char>, i: int) -> Option<int>
    decreases s.len() - i,
    via parse_groups_decreases
{
    if i < 0 || i >= s.len() {
        Some(0)
    } else if !is_digit(s[i]) {
        None
    } else {
        let d1 = scan_digits(s, i);
        let has_frac = d1 < s.len() && s[d1] == '.';
        let f0 = if has_frac {
            d1 + 1
        } else {
            d1
        };
        let f1 = scan_digits(s, f0);
        if f1 - f0 > 18 {
            None
        } else {
            let u1 = scan_unit(s, f1);
            match unit_nanos(s.subrange(f1, u1)) {
                Some(u) => {
                    let whole = digits_val(s, i, d1) * u + digits_val(s, f0, f1) * u / pow(
                        10,
                        (f1 - f0) as nat,
                    );
                    if u1 > f1 {
                        match parse_groups(s, u1) {
                            Some(rest) => if whole + rest <= DUR_MAX_NANOS {
                                Some(whole + rest)
                            } else {
                                None
                            },
                            None => None,
                        }
                    } else {
                        None
                    }
                }
                None => None,
            }
        }
    }
}

#[via_fn]
proof fn parse_groups_decreases(s: Seq<char>, i: int) {
    if 0 <= i && i < s.len() && is_digit(s[i]) {
        lemma_scan_digits_range(s, i + 1);
        lemma_scan_digits_range_from(s, i);
        let d1 = scan_digits(s, i);
        let has_frac = d1 < s.len() && s[d1] == '.';
        let f0 = if has_frac {
            d1 + 1
        } else {
            d1
        };
        if f0 <= s.len() {
            lemma_scan_digits_range(s, f0);
            let f1 = scan_digits(s, f0);
            lemma_scan_unit_range(s, f1);
        }
    }
}

/// From a digit, the digit scan moves at least one position.
proof fn lemma_scan_digits_range_from(s: Seq<char>, i: int)
    requires
        0 <= i < s.len(),
        is_digit(s[i]),
    ensures
        i + 1 <= scan_digits(s, i) <= s.len(),
{
    lemma_scan_digits_range(s, i + 1);
}

/// What a human-readable duration string stands for, in nanoseconds:
/// `None` where it is malformed.
pub open spec fn duration_human_val(s: Seq<char>) -> Option<int> {
    let neg = s.len() > 0 && s[0] == '-';
    let body = if neg {
        s.drop_first()
    } else {
        s
    };
    if body.len() == 0 {
        None
    } else {
        match parse_groups(body, 0) {
            Some(v) => if neg {
                Some(-v)
            } else {
                Some(v)
            },
            None => None,
        }
    }
}

/// `pow(10, n)` for small `n`.
fn pow10_u64(n: usize) -> (r: u64)
    requires
        n <= 18,
    ensures
        r as int == pow(10, n as nat),
{
    let mut r: u64 = 1;
    let mut i: usize = 0;
    proof {
        reveal_with_fuel(pow, 19);
        assert(pow(10, 18) == 1000000000000000000) by {
            reveal_with_fuel(pow, 19);
        }
    }
    while i < n
        invariant
            i <= n <= 18,
            r as int == pow(10, i as nat),
            pow(10, 18) == 1000000000000000000,
        decreases n - i,
    {
        proof {
            vstd::arithmetic::power::lemma_pow_adds(10, i as nat, 1);
            reveal_with_fuel(pow, 2);
            vstd::arithmetic::power::lemma_pow_increases(10, i as nat + 1, 18);
        }
        r = r * 10;
        i = i + 1;
    }
    r
}

/// The digit characters of `s[i..j)` as a value, guarding against overflow
/// past the representable duration.
fn digits_val_exec(s: &str, i: usize, j: usize) -> (r: Option<u128>)
    requires
        i <= j <= s@.len(),
        forall|k: int| i <= k < j ==> is_digit(s@[k]),
    ensures
        match r {
            Some(v) => v as int == digits_val(s@, i as int, j as int) && v
                <= 0xffffffffffffffffffffffffffffffff,
            None => digits_val(s@, i as int, j as int) > u128::MAX,
        },
{
    let mut v: u128 = 0;
    let mut k = i;
    while k < j
        invariant
            i <= k <= j <= s@.len(),
            forall|q: int| i <= q < j ==> is_digit(s@[q]),
            v as int == digits_val(s@, i as int, k as int),
        decreases j - k,
    {
        let c = s.get_char(k);
        let d = (c as u32 - '0' as u32) as u128;
        if v > (u128::MAX - d) / 10 {
            proof {
                vstd::arithmetic::div_mod::lemma_fundamental_div_mod(
                    u128::MAX - d as int, 10);
                assert((v as int) * 10 + d as int > u128::MAX) by (nonlinear_arith)
                    requires
                        v as int >= (u128::MAX - d as int) / 10 + 1,
                        u128::MAX - d as int == 10 * ((u128::MAX - d as int) / 10) + (u128::MAX
                            - d as int) % 10,
                        0 <= (u128::MAX - d as int) % 10 < 10,
                {}
                lemma_digits_val_monotonic(s@, i as int, k + 1, j as int);
            }
            return None;
        }
        v = v * 10 + d;
        k = k + 1;
    }
    Some(v)
}

/// A longer digit string is worth at least as much as its prefix.
proof fn lemma_digits_val_monotonic(s: Seq<char>, i: int, k: int, j: int)
    requires
        i <= k <= j <= s.len(),
        forall|q: int| i <= q < j ==> is_digit(s[q]),
    ensures
        digits_val(s, i, j) >= digits_val(s, i, k),
        digits_val(s, i, k) >= 0,
    decreases j - k,
{
    if k < j {
        lemma_digits_val_monotonic(s, i, k, j - 1);
        lemma_digits_val_nonneg(s, i, j - 1);
        assert(digits_val(s, i, j) >= digits_val(s, i, j - 1)) by (nonlinear_arith)
            requires
                digits_val(s, i, j) == digits_val(s, i, j - 1) * 10 + (s[j - 1] as int
                    - '0' as int),
                digits_val(s, i, j - 1) >= 0,
                is_digit(s[j - 1]),
        {}
    } else {
        lemma_digits_val_nonneg(s, i, k);
    }
}

proof fn lemma_digits_val_nonneg(s: Seq<char>, i: int, j: int)
    ensures
        (forall|q: int| i <= q < j ==> is_digit(s[q])) ==> digits_val(s, i, j) >= 0,
    decreases j - i,
{
    if j > i {
        lemma_digits_val_nonneg(s, i, j - 1);
    }
}

/// The first position at or after `i` without a digit.
fn scan_digits_exec(s: &str, i: usize, n: usize) -> (r: usize)
    requires
        i <= n == s@.len(),
    ensures
        r as int == scan_digits(s@, i as int),
        i <= r <= n,
        forall|k: int| i <= k < r ==> is_digit(s@[k]),
        r < n ==> !is_digit(s@[r as int]),
{
    let mut k = i;
    while k < n
        invariant
            i <= k <= n == s@.len(),
            scan_digits(s@, i as int) == scan_digits(s@, k as int),
            forall|q: int| i <= q < k ==> is_digit(s@[q]),
        decreases n - k,
    {
        let c = s.get_char(k);
        let u = c as u32;
        if !(u >= '0' as u32 && u <= '9' as u32) {
            return k;
        }
        k = k + 1;
    }
    k
}

/// The first position at or after `i` without a unit char.
fn scan_unit_exec(s: &str, i: usize, n: usize) -> (r: usize)
    requires
        i <= n == s@.len(),
    ensures
        r as int == scan_unit(s@, i as int),
        i <= r <= n,
{
    let mut k = i;
    while k < n
        invariant
            i <= k <= n == s@.len(),
            scan_unit(s@, i as int) == scan_unit(s@, k as int),
        decreases n - k,
    {
        let c = s.get_char(k);
        let u = c as u32;
        let lower = u >= 'a' as u32 && u <= 'z' as u32;
        let upper = u >= 'A' as u32 && u <= 'Z' as u32;
        let micro = c == 'µ';
        if !(lower || upper || micro) {
            return k;
        }
        k = k + 1;
    }
    k
}

/// The unit spelled at `s[f1..u1)`, in nanoseconds.
fn unit_nanos_exec(s: &str, f1: usize, u1: usize) -> (r: Option<u64>)
    requires
        f1 <= u1 <= s@.len(),
    ensures
        match r {
            Some(v) => unit_nanos(s@.subrange(f1 as int, u1 as int)) == Some(v as int),
            None => unit_nanos(s@.subrange(f1 as int, u1 as int)) is None,
        },
{
    let ghost u = s@.subrange(f1 as int, u1 as int);
    if u1 - f1 == 1 {
        let c = s.get_char(f1);
        proof {
            assert(u[0] == s@[f1 as int]);
        }
        if c == 's' {
            Some(1000000000)
        } else if c == 'm' {
            Some(60000000000)
        } else if c == 'h' {
            Some(3600000000000)
        } else {
            None
        }
    } else if u1 - f1 == 2 {
        let c0 = s.get_char(f1);
        let c1 = s.get_char(f1 + 1);
        proof {
            assert(u[0] == s@[f1 as int]);
            assert(u[1] == s@[f1 + 1]);
        }
        if c1 != 's' {
            None
        } else if c0 == 'n' {
            Some(1)
        } else if c0 == 'u' || c0 == 'µ' {
            Some(1000)
        } else if c0 == 'm' {
            Some(1000000)
        } else {
            None
        }
    } else {
        None
    }
}

/// Parse the group list of a duration body, from position `i` on.
fn parse_groups_exec(s: &str, start: usize) -> (r: Option<i128>)
    requires
        start <= s@.len(),
    ensures
        match r {
            Some(v) => parse_groups(s@, start as int) == Some(v as int) && 0 <= v
                <= DUR_MAX_NANOS,
            None => parse_groups(s@, start as int) is None,
        },
{
    let n = s.unicode_len();
    let mut acc: i128 = 0;
    let mut i = start;
    proof {
        lemma_parse_groups_nonneg(s@, start as int);
    }
    while i < n
        invariant
            start <= i <= n == s@.len(),
            0 <= acc <= DUR_MAX_NANOS,
            match parse_groups(s@, i as int) {
                Some(rest) => if acc + rest <= DUR_MAX_NANOS {
                    parse_groups(s@, start as int) == Some(acc + rest)
                } else {
                    parse_groups(s@, start as int) is None
                },
                None => parse_groups(s@, start as int) is None,
            },
        decreases n - i,
    {
        let c = s.get_char(i);
        let u32v = c as u32;
        if !(u32v >= '0' as u32 && u32v <= '9' as u32) {
            return None;
        }
        let d1 = scan_digits_exec(s, i, n);
        let has_frac = d1 < n && s.get_char(d1) == '.';
        let f0 = if has_frac {
            d1 + 1
        } else {
            d1
        };
        let f1 = scan_digits_exec(s, f0, n);
        if f1 - f0 > 18 {
            return None;
        }
        let u1 = scan_unit_exec(s, f1, n);
        let unit = match unit_nanos_exec(s, f1, u1) {
            Some(u) => u,
            None => {
                return None;
            }
        };
        if u1 <= f1 {
            return None;
        }
        let ip = match digits_val_exec(s, i, d1) {
            Some(v) => v,
            None => {
                proof {
                    lemma_group_overflow(s@, i as int, d1 as int, f0 as int, f1 as int, unit as int);
                    lemma_parse_groups_nonneg(s@, u1 as int);
                }
                return None;
            }
        };
        let fr = match digits_val_exec(s, f0, f1) {
            Some(v) => v,
            None => {
                proof {
                    assert(false) by {
                        lemma_digits_val_small(s@, f0 as int, f1 as int);
                    }
                }
                return None;
            }
        };
        proof {
            lemma_digits_val_small(s@, f0 as int, f1 as int);
        }
        let ipu = match ip.checked_mul(unit as u128) {
            Some(v) => v,
            None => {
                proof {
                    lemma_digits_val_nonneg(s@, i as int, d1 as int);
                    lemma_group_value_bound(
                        s@, i as int, d1 as int, f0 as int, f1 as int, unit as int);
                    lemma_parse_groups_nonneg(s@, u1 as int);
                }
                return None;
            }
        };
        let p10 = pow10_u64(f1 - f0);
        proof {
            assert(1 <= unit as int <= 3600000000000);
            assert((fr as int) * (unit as int) <= 0xffffffffffffffff * 3600000000000int)
                by (nonlinear_arith)
                requires
                    0 <= fr as int <= 0xffffffffffffffff,
                    1 <= unit as int <= 3600000000000,
            {}
            vstd::arithmetic::power::lemma_pow_positive(10, (f1 - f0) as nat);
        }
        let frpart = fr * (unit as u128) / (p10 as u128);
        let whole128: u128 = match ipu.checked_add(frpart) {
            Some(v) => v,
            None => {
                proof {
                    lemma_digits_val_nonneg(s@, i as int, d1 as int);
                    lemma_group_value_bound(
                        s@, i as int, d1 as int, f0 as int, f1 as int, unit as int);
                    lemma_parse_groups_nonneg(s@, u1 as int);
                }
                return None;
            }
        };
        proof {
            lemma_digits_val_nonneg(s@, i as int, d1 as int);
            lemma_group_value_bound(s@, i as int, d1 as int, f0 as int, f1 as int, unit as int);
            lemma_parse_groups_nonneg(s@, u1 as int);
        }
        if whole128 > DUR_MAX_NANOS as u128 {
            return None;
        }
        let whole = whole128 as i128;
        if acc > DUR_MAX_NANOS - whole {
            return None;
        }
        acc = acc + whole;
        i = u1;
    }
    Some(acc)
}

/// A group total is never negative.
proof fn lemma_parse_groups_nonneg(s: Seq<char>, i: int)
    ensures
        parse_groups(s, i) matches Some(v) ==> v >= 0,
    decreases s.len() - i,
{
    if 0 <= i && i < s.len() && is_digit(s[i]) {
        let d1 = scan_digits(s, i);
        lemma_scan_digits_range(s, i);
        let has_frac = d1 < s.len() && s[d1] == '.';
        let f0 = if has_frac {
            d1 + 1
        } else {
            d1
        };
        let f1 = scan_digits(s, f0);
        lemma_scan_digits_range(s, f0);
        let u1 = scan_unit(s, f1);
        lemma_scan_unit_range(s, f1);
        if u1 > f1 {
            lemma_parse_groups_nonneg(s, u1);
        }
        lemma_scan_digits_all(s, i);
        lemma_scan_digits_all(s, f0);
        lemma_digits_val_nonneg(s, i, d1);
        lemma_digits_val_nonneg(s, f0, f1);
        if parse_groups(s, i) is Some {
            match unit_nanos(s.subrange(f1, u1)) {
                Some(u) => {
                    assert(u >= 1);
                    assert(digits_val(s, i, d1) * u >= 0) by (nonlinear_arith)
                        requires
                            digits_val(s, i, d1) >= 0,
                            u >= 1,
                    {}
                    assert(digits_val(s, f0, f1) * u >= 0) by (nonlinear_arith)
                        requires
                            digits_val(s, f0, f1) >= 0,
                            u >= 1,
                    {}
                    vstd::arithmetic::power::lemma_pow_positive(10, (f1 - f0) as nat);
                    vstd::arithmetic::div_mod::lemma_div_is_ordered(
                        0,
                        digits_val(s, f0, f1) * u,
                        pow(10, (f1 - f0) as nat),
                    );
                }
                None => {}
            }
        }
    }
}

/// Digit scans stay inside the string and cover digits only.
proof fn lemma_scan_digits_range(s: Seq<char>, i: int)
    requires
        0 <= i <= s.len(),
    ensures
        i <= scan_digits(s, i) <= s.len(),
    decreases s.len() - i,
{
    if i < s.len() && is_digit(s[i]) {
        lemma_scan_digits_range(s, i + 1);
    }
}

proof fn lemma_scan_digits_all(s: Seq<char>, i: int)
    requires
        0 <= i <= s.len(),
    ensures
        forall|k: int| i <= k < scan_digits(s, i) ==> is_digit(s[k]),
    decreases s.len() - i,
{
    if i < s.len() && is_digit(s[i]) {
        lemma_scan_digits_all(s, i + 1);
    }
}

proof fn lemma_scan_unit_range(s: Seq<char>, i: int)
    requires
        0 <= i <= s.len(),
    ensures
        i <= scan_unit(s, i) <= s.len(),
    decreases s.len() - i,
{
    if i < s.len() && is_unit_char(s[i]) {
        lemma_scan_unit_range(s, i + 1);
    }
}

/// An 18-digit fraction fits comfortably.
proof fn lemma_digits_val_small(s: Seq<char>, i: int, j: int)
    requires
        0 <= i <= j <= s.len(),
        j - i <= 18,
        forall|k: int| i <= k < j ==> is_digit(s[k]),
    ensures
        0 <= digits_val(s, i, j) < pow(10, (j - i) as nat),
        digits_val(s, i, j) <= 0xffffffffffffffff,
    decreases j - i,
{
    reveal_with_fuel(pow, 19);
    if j > i {
        lemma_digits_val_small(s, i, j - 1);
        vstd::arithmetic::power::lemma_pow_adds(10, (j - 1 - i) as nat, 1);
        assert(digits_val(s, i, j) < pow(10, (j - i) as nat)) by (nonlinear_arith)
            requires
                digits_val(s, i, j) == digits_val(s, i, j - 1) * 10 + (s[j - 1] as int
                    - '0' as int),
                0 <= digits_val(s, i, j - 1) < pow(10, (j - 1 - i) as nat),
                is_digit(s[j - 1]),
                pow(10, (j - i) as nat) == pow(10, (j - 1 - i) as nat) * 10,
        {}
        vstd::arithmetic::power::lemma_pow_increases(10, (j - i) as nat, 18);
    }
}

/// If the whole-part digits overflow the machine range, the group total is
/// out of range too.
proof fn lemma_group_overflow(s: Seq<char>, i: int, d1: int, f0: int, f1: int, u: int)
    requires
        digits_val(s, i, d1) > u128::MAX,
        u >= 1,
        0 <= f0 <= f1 <= s.len(),
        f1 - f0 <= 18,
        forall|k: int| f0 <= k < f1 ==> is_digit(s[k]),
    ensures
        digits_val(s, i, d1) * u + digits_val(s, f0, f1) * u / pow(10, (f1 - f0) as nat)
            > DUR_MAX_NANOS,
{
    lemma_digits_val_small(s, f0, f1);
    vstd::arithmetic::power::lemma_pow_positive(10, (f1 - f0) as nat);
    assert(digits_val(s, i, d1) * u > u128::MAX) by (nonlinear_arith)
        requires
            digits_val(s, i, d1) > u128::MAX,
            u >= 1,
    {}
    vstd::arithmetic::div_mod::lemma_div_is_ordered(
        0,
        digits_val(s, f0, f1) * u,
        pow(10, (f1 - f0) as nat),
    );
    assert(digits_val(s, f0, f1) * u >= 0) by (nonlinear_arith)
        requires
            digits_val(s, f0, f1) >= 0,
            u >= 1,
    {}
}

/// The group value computed by the machine equals the mathematical one, and
/// overflow of either checked step means the mathematical value is out of
/// range.
proof fn lemma_group_value_bound(s: Seq<char>, i: int, d1: int, f0: int, f1: int, u: int)
    requires
        1 <= u <= 3600000000000,
        0 <= f0 <= f1 <= s.len(),
        f1 - f0 <= 18,
        forall|k: int| f0 <= k < f1 ==> is_digit(s[k]),
        digits_val(s, i, d1) >= 0,
    ensures
        digits_val(s, f0, f1) * u / pow(10, (f1 - f0) as nat) <= 0xffffffffffffffff
            * 3600000000000int,
        digits_val(s, f0, f1) * u >= 0,
        digits_val(s, i, d1) * u >= digits_val(s, i, d1),
        digits_val(s, i, d1) * u + digits_val(s, f0, f1) * u / pow(10, (f1 - f0) as nat)
            >= digits_val(s, i, d1) * u,
{
    lemma_digits_val_small(s, f0, f1);
    vstd::arithmetic::power::lemma_pow_positive(10, (f1 - f0) as nat);
    assert(digits_val(s, f0, f1) * u >= 0 && digits_val(s, f0, f1) * u <= 0xffffffffffffffff
        * 3600000000000int) by (nonlinear_arith)
        requires
            0 <= digits_val(s, f0, f1) <= 0xffffffffffffffff,
            1 <= u <= 3600000000000,
    {}
    vstd::arithmetic::div_mod::lemma_div_is_ordered(
        0,
        digits_val(s, f0, f1) * u,
        pow(10, (f1 - f0) as nat),
    );
    vstd::arithmetic::div_mod::lemma_div_is_ordered(
        digits_val(s, f0, f1) * u,
        0xffffffffffffffff * 3600000000000int,
        pow(10, (f1 - f0) as nat),
    );
    vstd::arithmetic::div_mod::lemma_div_is_ordered_by_denominator(
        0xffffffffffffffff * 3600000000000int,
        1,
        pow(10, (f1 - f0) as nat),
    );
    assert(digits_val(s, i, d1) * u >= digits_val(s, i, d1)) by (nonlinear_arith)
        requires
            digits_val(s, i, d1) >= 0,
            u >= 1,
    {}
}

/// Parse a human-readable duration: `None` for the empty string, a signed
/// exact duration for well-formed text, an error otherwise.
pub fn duration_human(s: &str) -> (r: Result<Option<SignedDuration>, QueryError>)
    ensures
        match r {
            Ok(None) => s@.len() == 0,
            Ok(Some(d)) => duration_human_val(s@) == Some(d.nanos as int) && d.wf(),
            Err(_) => s@.len() > 0 && duration_human_val(s@) is None,
        },
{
    let n = s.unicode_len();
    if n == 0 {
        return Ok(None);
    }
    let neg = s.get_char(0) == '-';
    let start: usize = if neg {
        1
    } else {
        0
    };
    proof {
        if neg {
            assert(s@.drop_first() =~= s@.subrange(1, s@.len() as int));
            lemma_parse_groups_shift(s@, s@.drop_first(), 1);
        }
    }
    if start >= n {
        return Err(QueryError::BadUnit);
    }
    match parse_groups_exec(s, start) {
        Some(v) => {
            if neg {
                Ok(Some(SignedDuration { nanos: -v }))
            } else {
                Ok(Some(SignedDuration { nanos: v }))
            }
        }
        None => Err(QueryError::BadUnit),
    }
}

/// Group parsing only looks at positions from its start on, so a dropped
/// prefix shifts it.
proof fn lemma_parse_groups_shift(s: Seq<char>, t: Seq<char>, off: int)
    requires
        0 <= off <= s.len(),
        t == s.subrange(off, s.len() as int),
    ensures
        forall|i: int| 0 <= i <= t.len() ==> parse_groups(t, i) == parse_groups(s, i + off),
    decreases s.len() - off, 0nat,
{
    assert forall|i: int| 0 <= i <= t.len() implies parse_groups(t, i) == parse_groups(
        s,
        i + off,
    ) by {
        lemma_parse_groups_shift_one(s, t, off, i);
    }
}

proof fn lemma_parse_groups_shift_one(s: Seq<char>, t: Seq<char>, off: int, i: int)
    requires
        0 <= off <= s.len(),
        t == s.subrange(off, s.len() as int),
        0 <= i <= t.len(),
    ensures
        parse_groups(t, i) == parse_groups(s, i + off),
    decreases t.len() - i,
{
    lemma_scan_shift(s, t, off, i);
    if i < t.len() && is_digit(t[i]) {
        let d1 = scan_digits(t, i);
        lemma_scan_digits_range(t, i);
        let has_frac = d1 < t.len() && t[d1] == '.';
        let f0 = if has_frac {
            d1 + 1
        } else {
            d1
        };
        lemma_scan_shift(s, t, off, f0);
        let f1 = scan_digits(t, f0);
        lemma_scan_digits_range(t, f0);
        lemma_scan_shift(s, t, off, f1);
        let u1 = scan_unit(t, f1);
        lemma_scan_unit_range(t, f1);
        assert(t.subrange(f1, u1) =~= s.subrange(f1 + off, u1 + off));
        lemma_digits_shift(s, t, off, i, d1);
        lemma_digits_shift(s, t, off, f0, f1);
        if u1 > f1 && f1 - f0 <= 18 && unit_nanos(t.subrange(f1, u1)) is Some {
            lemma_parse_groups_shift_one(s, t, off, u1);
        }
    }
}

proof fn lemma_scan_shift(s: Seq<char>, t: Seq<char>, off: int, i: int)
    requires
        0 <= off <= s.len(),
        t == s.subrange(off, s.len() as int),
        0 <= i <= t.len(),
    ensures
        scan_digits(t, i) + off == scan_digits(s, i + off),
        scan_unit(t, i) + off == scan_unit(s, i + off),
    decreases t.len() - i,
{
    if i < t.len() {
        assert(t[i] == s[i + off]);
        if is_digit(t[i]) || is_unit_char(t[i]) {
            lemma_scan_shift(s, t, off, i + 1);
        }
    }
}

proof fn lemma_digits_shift(s: Seq<char>, t: Seq<char>, off: int, i: int, j: int)
    requires
        0 <= off <= s.len(),
        t == s.subrange(off, s.len() as int),
        0 <= i,
        j <= t.len(),
    ensures
        digits_val(t, i, j) == digits_val(s, i + off, j + off),
    decreases j - i,
{
    if j > i {
        assert(t[j - 1] == s[j - 1 + off]);
        lemma_digits_shift(s, t, off, i, j - 1);
    }
}

// ---------------------------------------------------------------------------
// Plain decimal numbers.
// ---------------------------------------------------------------------------

/// The value of a decimal string of digits only; `None` when empty or when
/// any char is no digit.
pub open spec fn dec_uint_val(s: Seq<char>) -> Option<int> {
    if s.len() > 0 && scan_digits(s, 0) == s.len() {
        Some(digits_val(s, 0, s.len() as int))
    } else {
        None
    }
}

/// The value of a decimal string with an optional leading sign.
pub open spec fn dec_int_val(s: Seq<char>) -> Option<int> {
    if s.len() > 0 && (s[0] == '-' || s[0] == '+') {
        match dec_uint_val(s.drop_first()) {
            Some(v) => if s[0] == '-' {
                Some(-v)
            } else {
                Some(v)
            },
            None => None,
        }
    } else {
        dec_uint_val(s)
    }
}

/// Parse an unsigned decimal string, within a bound.
pub(crate) fn parse_dec_u128(s: &str, from: usize) -> (r: Option<u128>)
    requires
        from <= s@.len(),
    ensures
        ({
            let body = s@.subrange(from as int, s@.len() as int);
            match r {
                Some(v) => dec_uint_val(body) == Some(v as int),
                None => dec_uint_val(body) is None || (dec_uint_val(body) matches Some(w) && w
                    > u128::MAX),
            }
        }),
{
    let ghost body = s@.subrange(from as int, s@.len() as int);
    let n = s.unicode_len();
    proof {
        lemma_scan_shift(s@, body, from as int, 0);
        lemma_digits_shift(s@, body, from as int, 0, body.len() as int);
    }
    if from >= n {
        return None;
    }
    let d1 = scan_digits_exec(s, from, n);
    if d1 < n {
        return None;
    }
    digits_val_exec(s, from, n)
}

/// Parse a signed 64-bit decimal value.
pub fn parse_i64(s: &str) -> (r: Option<i64>)
    ensures
        match r {
            Some(v) => dec_int_val(s@) == Some(v as int),
            None => dec_int_val(s@) is None || (dec_int_val(s@) matches Some(w) && !(i64::MIN
                <= w <= i64::MAX)),
        },
{
    let n = s.unicode_len();
    if n == 0 {
        return None;
    }
    let c0 = s.get_char(0);
    let signed = c0 == '-' || c0 == '+';
    let from: usize = if signed {
        1
    } else {
        0
    };
    proof {
        if signed {
            assert(s@.subrange(1, s@.len() as int) =~= s@.drop_first());
        } else {
            assert(s@.subrange(0, s@.len() as int) =~= s@);
        }
    }
    match parse_dec_u128(s, from) {
        Some(v) => {
            if c0 == '-' {
                if v > 0x8000000000000000u128 {
                    return None;
                }
                if v == 0x8000000000000000u128 {
                    Some(i64::MIN)
                } else {
                    Some(-(v as i64))
                }
            } else {
                if v > 0x7fffffffffffffffu128 {
                    return None;
                }
                Some(v as i64)
            }
        }
        None => None,
    }
}

/// Parse an unsigned 32-bit decimal value, with an optional `+` sign.
pub fn parse_u32(s: &str) -> (r: Option<u32>)
    ensures
        match r {
            Some(v) => dec_int_val(s@) == Some(v as int),
            None => dec_int_val(s@) is None || (dec_int_val(s@) matches Some(w) && !(0 <= w
                <= u32::MAX)),
        },
{
    let n = s.unicode_len();
    if n == 0 {
        return None;
    }
    let c0 = s.get_char(0);
    let signed = c0 == '-' || c0 == '+';
    let from: usize = if signed {
        1
    } else {
        0
    };
    proof {
        if signed {
            assert(s@.subrange(1, s@.len() as int) =~= s@.drop_first());
        } else {
            assert(s@.subrange(0, s@.len() as int) =~= s@);
        }
    }
    match parse_dec_u128(s, from) {
        Some(v) => {
            if c0 == '-' {
                if v == 0 {
                    Some(0)
                } else {
                    None
                }
            } else if v > 0xffffffffu128 {
                None
            } else {
                Some(v as u32)
            }
        }
        None => None,
    }
}

/// Parse the `start`/`end` microsecond instants: decimal microseconds since
/// the unix epoch.
pub fn duration_micros(s: &str) -> (r: Result<i64, QueryError>)
    ensures
        match r {
            Ok(v) => dec_int_val(s@) == Some(v as int),
            Err(_) => dec_int_val(s@) is None || (dec_int_val(s@) matches Some(w) && !(i64::MIN
                <= w <= i64::MAX)),
        },
{
    match parse_i64(s) {
        Some(v) => Ok(v),
        None => Err(QueryError::BadNumber),
    }
}

/// Parse the `limit` parameter: empty means unset. The query fold rejects a
/// zero limit: the parameter is a positive count.
pub fn limit(s: &str) -> (r: Result<Option<u32>, QueryError>)
    ensures
        match r {
            Ok(None) => s@.len() == 0,
            Ok(Some(v)) => dec_int_val(s@) == Some(v as int),
            Err(_) => s@.len() > 0 && (dec_int_val(s@) is None || (dec_int_val(
                s@,
            ) matches Some(w) && !(0 <= w <= u32::MAX))),
        },
{
    if s.is_empty() {
        return Ok(None);
    }
    match parse_u32(s) {
        Some(v) => Ok(Some(v)),
        None => Err(QueryError::BadNumber),
    }
}

// ---------------------------------------------------------------------------
// The query string: pairs of key and value.
// ---------------------------------------------------------------------------

/// The first position at or after `i` holding `c`, or the length.
pub open spec fn find_char(s: Seq<char>, i: int, c: char) -> int
    decreases s.len() - i,
{
    if i < 0 || i >= s.len() || s[i] == c {
        i
    } else {
        find_char(s, i + 1, c)
    }
}

/// The key-value pairs of a query string from position `i` on: parts split
/// on `&`, each part split on its first `=` (a part without `=` is a key
/// with an empty value); empty parts vanish. No percent-decoding happens
/// here: that belongs to the transport edge.
pub open spec fn pairs_from(s: Seq<char>, i: int) -> Seq<(Seq<char>, Seq<char>)>
    decreases s.len() + 1 - i,
    via pairs_from_decreases
{
    if i < 0 || i >= s.len() {
        Seq::empty()
    } else {
        let amp = find_char(s, i, '&');
        let eq = find_char(s, i, '=');
        let pair: Seq<(Seq<char>, Seq<char>)> = if amp == i {
            Seq::empty()
        } else if eq < amp {
            seq![(s.subrange(i, eq), s.subrange(eq + 1, amp))]
        } else {
            seq![(s.subrange(i, amp), Seq::empty())]
        };
        pair + pairs_from(s, amp + 1)
    }
}

#[via_fn]
proof fn pairs_from_decreases(s: Seq<char>, i: int) {
    if 0 <= i && i < s.len() {
        lemma_find_char_range(s, i, '&');
    }
}

/// The bounds of a char search, for callers outside this module.
pub proof fn lemma_find_char_range_pub(s: Seq<char>, i: int, c: char)
    requires
        0 <= i <= s.len(),
    ensures
        i <= find_char(s, i, c) <= s.len(),
{
    lemma_find_char_range(s, i, c);
}

proof fn lemma_find_char_range(s: Seq<char>, i: int, c: char)
    requires
        0 <= i <= s.len(),
    ensures
        i <= find_char(s, i, c) <= s.len(),
        find_char(s, i, c) < s.len() ==> s[find_char(s, i, c)] == c,
        forall|k: int| i <= k < find_char(s, i, c) ==> s[k] != c,
    decreases s.len() - i,
{
    if i < s.len() && s[i] != c {
        lemma_find_char_range(s, i + 1, c);
    }
}

/// The first position at or after `i` holding `c`.
pub(crate) fn find_char_exec(s: &str, i: usize, n: usize, c: char) -> (r: usize)
    requires
        i <= n == s@.len(),
    ensures
        r as int == find_char(s@, i as int, c),
        i <= r <= n,
    decreases n - i,
{
    let mut k = i;
    while k < n
        invariant
            i <= k <= n == s@.len(),
            find_char(s@, i as int, c) == find_char(s@, k as int, c),
        decreases n - k,
    {
        if s.get_char(k) == c {
            return k;
        }
        k = k + 1;
    }
    k
}

/// The substring `s[i..j)` as an owned string.
fn substring(s: &str, i: usize, j: usize) -> (r: String)
    requires
        i <= j <= s@.len(),
    ensures
        r@ == s@.subrange(i as int, j as int),
{
    let sub = s.substring_char(i, j);
    sub.to_owned()
}

/// Split a query string into its key-value pairs.
pub fn parse_query_pairs(s: &str) -> (r: Vec<(String, String)>)
    ensures
        crate::storage::filter_view(r@) == pairs_from(s@, 0),
{
    let n = s.unicode_len();
    let mut out: Vec<(String, String)> = Vec::new();
    let mut i: usize = 0;
    proof {
        assert(crate::storage::filter_view(out@) =~= Seq::<(Seq<char>, Seq<char>)>::empty());
    }
    while i < n
        invariant
            i <= n == s@.len(),
            crate::storage::filter_view(out@) + pairs_from(s@, i as int) == pairs_from(s@, 0),
        decreases n - i,
    {
        let amp = find_char_exec(s, i, n, '&');
        let eq = find_char_exec(s, i, n, '=');
        proof {
            lemma_find_char_range(s@, i as int, '&');
            lemma_find_char_range(s@, i as int, '=');
        }
        let ghost prev = out@;
        let ghost pair_seq = pairs_from(s@, i as int);
        if amp == i {
        } else if eq < amp {
            let k = substring(s, i, eq);
            let v = substring(s, eq + 1, amp);
            out.push((k, v));
        } else {
            let k = substring(s, i, amp);
            out.push((k, String::new()));
        }
        proof {
            let fv = crate::storage::filter_view(out@);
            let pfv = crate::storage::filter_view(prev);
            if amp == i {
                assert(fv =~= pfv);
            } else if eq < amp as usize {
                assert(fv =~= pfv.push((
                    s@.subrange(i as int, eq as int),
                    s@.subrange(eq as int + 1, amp as int),
                )));
                assert(pfv.push((
                    s@.subrange(i as int, eq as int),
                    s@.subrange(eq as int + 1, amp as int),
                )) + pairs_from(s@, amp as int + 1) =~= pfv + (seq![
                    (s@.subrange(i as int, eq as int), s@.subrange(eq as int + 1, amp as int)),
                ] + pairs_from(s@, amp as int + 1)));
            } else {
                assert(fv =~= pfv.push((s@.subrange(i as int, amp as int), Seq::<char>::empty())));
                assert(pfv.push((s@.subrange(i as int, amp as int), Seq::<char>::empty()))
                    + pairs_from(s@, amp as int + 1) =~= pfv + (seq![
                    (s@.subrange(i as int, amp as int), Seq::<char>::empty()),
                ] + pairs_from(s@, amp as int + 1)));
            }
        }
        if amp >= n {
            proof {
                assert(pairs_from(s@, amp as int + 1) =~= Seq::<(Seq<char>, Seq<char>)>::empty());
                assert(pairs_from(s@, n as int) =~= Seq::<(Seq<char>, Seq<char>)>::empty());
            }
            i = n;
        } else {
            i = amp + 1;
        }
    }
    proof {
        assert(crate::storage::filter_view(out@) + Seq::<(Seq<char>, Seq<char>)>::empty()
            =~= crate::storage::filter_view(out@));
    }
    out
}

// ---------------------------------------------------------------------------
// The predicate query's fields.
// ---------------------------------------------------------------------------

/// The spelled-out keys the query accepts.
pub open spec fn key_service() -> Seq<char> {
    seq!['s', 'e', 'r', 'v', 'i', 'c', 'e']
}

pub open spec fn key_operation() -> Seq<char> {
    seq!['o', 'p', 'e', 'r', 'a', 't', 'i', 'o', 'n']
}

pub open spec fn key_start() -> Seq<char> {
    seq!['s', 't', 'a', 'r', 't']
}

pub open spec fn key_end() -> Seq<char> {
    seq!['e', 'n', 'd']
}

pub open spec fn key_min_duration() -> Seq<char> {
    seq!['m', 'i', 'n', 'D', 'u', 'r', 'a', 't', 'i', 'o', 'n']
}

pub open spec fn key_max_duration() -> Seq<char> {
    seq!['m', 'a', 'x', 'D', 'u', 'r', 'a', 't', 'i', 'o', 'n']
}

pub open spec fn key_limit() -> Seq<char> {
    seq!['l', 'i', 'm', 'i', 't']
}

pub open spec fn key_tag() -> Seq<char> {
    seq!['t', 'a', 'g']
}

pub open spec fn key_tags() -> Seq<char> {
    seq!['t', 'a', 'g', 's']
}

pub open spec fn key_trace_id() -> Seq<char> {
    seq!['t', 'r', 'a', 'c', 'e', 'I', 'D']
}

/// The accumulating mathematical value of a predicate query: the outer
/// option of each scalar marks whether its key was seen.
pub struct TracesQueryV {
    pub service: Option<Seq<char>>,
    pub operation: Option<Seq<char>>,
    pub start: Option<int>,
    pub end: Option<int>,
    pub min_duration: Option<Option<int>>,
    pub max_duration: Option<Option<int>>,
    pub limit: Option<Option<int>>,
    pub tags: Seq<(Seq<char>, Seq<char>)>,
}

/// Insert into an association list: an existing key's value is replaced in
/// place, a new key is appended.
pub open spec fn assoc_insert(
    ts: Seq<(Seq<char>, Seq<char>)>,
    k: Seq<char>,
    v: Seq<char>,
) -> Seq<(Seq<char>, Seq<char>)>
    decreases ts.len(),
{
    if ts.len() == 0 {
        seq![(k, v)]
    } else if ts[0].0 == k {
        seq![(k, v)] + ts.drop_first()
    } else {
        seq![ts[0]] + assoc_insert(ts.drop_first(), k, v)
    }
}

/// Insert a whole entry list, left to right.
pub open spec fn assoc_insert_all(
    ts: Seq<(Seq<char>, Seq<char>)>,
    es: Seq<(Seq<char>, Seq<char>)>,
) -> Seq<(Seq<char>, Seq<char>)>
    decreases es.len(),
{
    if es.len() == 0 {
        ts
    } else {
        assoc_insert_all(assoc_insert(ts, es[0].0, es[0].1), es.drop_first())
    }
}

/// What a valid JSON map of strings parses to: its entries in key order, or
/// `None` where the text is no JSON object of string values.
pub uninterp spec fn json_str_map_of(s: Seq<char>) -> Option<Seq<(Seq<char>, Seq<char>)>>;

/// Relies on `serde_json::from_str` into `serde_json::Map<String, Value>`
/// (an ordered map, so the outcome depends on the text alone): parses a JSON
/// object, handing its entries back in key order; entries whose value is no
/// JSON string make the whole value unusable, as do parse failures.
#[verifier::external_body]
pub(crate) fn parse_json_string_map(s: &str) -> (r: Option<Vec<(String, String)>>)
    ensures
        match r {
            Some(v) => json_str_map_of(s@) == Some(crate::storage::filter_view(v@)),
            None => json_str_map_of(s@) is None,
        },
{
    match serde_json::from_str::<serde_json::Map<String, serde_json::Value>>(s) {
        Ok(map) => {
            let mut out = Vec::new();
            for (k, v) in map {
                match v {
                    serde_json::Value::String(x) => out.push((k, x)),
                    _ => {
                        return None;
                    }
                }
            }
            Some(out)
        }
        Err(_) => None,
    }
}

/// Parse one JSON map of strings into its entries.
pub fn parse_json_map(v: &str) -> (r: Option<Vec<(String, String)>>)
    ensures
        match r {
            Some(out) => json_str_map_of(v@) == Some(crate::storage::filter_view(out@)),
            None => json_str_map_of(v@) is None,
        },
{
    parse_json_string_map(v)
}

/// A query value before any pair is folded in.
pub open spec fn empty_query() -> TracesQueryV {
    TracesQueryV {
        service: None,
        operation: None,
        start: None,
        end: None,
        min_duration: None,
        max_duration: None,
        limit: None,
        tags: Seq::empty(),
    }
}

/// Fold one key-value pair into the query: repeated scalar keys and
/// malformed values fail; unknown keys are ignored.
pub open spec fn apply_pair(q: TracesQueryV, k: Seq<char>, v: Seq<char>) -> Option<TracesQueryV> {
    if k == key_service() {
        if q.service is Some {
            None
        } else {
            Some(TracesQueryV { service: Some(v), ..q })
        }
    } else if k == key_operation() {
        if q.operation is Some {
            None
        } else {
            Some(TracesQueryV { operation: Some(v), ..q })
        }
    } else if k == key_start() {
        if q.start is Some {
            None
        } else {
            match dec_int_val(v) {
                Some(x) => if i64::MIN <= x <= i64::MAX {
                    Some(TracesQueryV { start: Some(x), ..q })
                } else {
                    None
                },
                None => None,
            }
        }
    } else if k == key_end() {
        if q.end is Some {
            None
        } else {
            match dec_int_val(v) {
                Some(x) => if i64::MIN <= x <= i64::MAX {
                    Some(TracesQueryV { end: Some(x), ..q })
                } else {
                    None
                },
                None => None,
            }
        }
    } else if k == key_min_duration() {
        if q.min_duration is Some {
            None
        } else if v.len() == 0 {
            Some(TracesQueryV { min_duration: Some(None), ..q })
        } else {
            match duration_human_val(v) {
                Some(x) => Some(TracesQueryV { min_duration: Some(Some(x)), ..q }),
                None => None,
            }
        }
    } else if k == key_max_duration() {
        if q.max_duration is Some {
            None
        } else if v.len() == 0 {
            Some(TracesQueryV { max_duration: Some(None), ..q })
        } else {
            match duration_human_val(v) {
                Some(x) => Some(TracesQueryV { max_duration: Some(Some(x)), ..q }),
                None => None,
            }
        }
    } else if k == key_limit() {
        if q.limit is Some {
            None
        } else if v.len() == 0 {
            Some(TracesQueryV { limit: Some(None), ..q })
        } else {
            match dec_int_val(v) {
                Some(x) => if 1 <= x <= u32::MAX {
                    Some(TracesQueryV { limit: Some(Some(x)), ..q })
                } else {
                    None
                },
                None => None,
            }
        }
    } else if k == key_tag() {
        let c = find_char(v, 0, ':');
        if c < v.len() {
            Some(
                TracesQueryV {
                    tags: assoc_insert(q.tags, v.subrange(0, c), v.subrange(c + 1, v.len() as int)),
                    ..q
                },
            )
        } else {
            None
        }
    } else if k == key_tags() {
        match json_str_map_of(v) {
            Some(es) => Some(TracesQueryV { tags: assoc_insert_all(q.tags, es), ..q }),
            None => None,
        }
    } else {
        Some(q)
    }
}

/// Fold a whole pair list into the query.
pub open spec fn apply_pairs(
    q: TracesQueryV,
    ps: Seq<(Seq<char>, Seq<char>)>,
) -> Option<TracesQueryV>
    decreases ps.len(),
{
    if ps.len() == 0 {
        Some(q)
    } else {
        match apply_pair(q, ps[0].0, ps[0].1) {
            Some(q2) => apply_pairs(q2, ps.drop_first()),
            None => None,
        }
    }
}

/// What a predicate query string stands for: its folded pairs, with the
/// required service present.
pub open spec fn traces_query_val(s: Seq<char>) -> Option<TracesQueryV> {
    match apply_pairs(empty_query(), pairs_from(s, 0)) {
        Some(q) => if q.service is Some {
            Some(q)
        } else {
            None
        },
        None => None,
    }
}

/// The parsed predicate query.
#[derive(Debug, PartialEq)]
pub struct TracesQuery {
    pub service: String,
    pub operation: String,
    pub start: Option<i64>,
    pub end: Option<i64>,
    pub min_duration: Option<SignedDuration>,
    pub max_duration: Option<SignedDuration>,
    pub limit: Option<u32>,
    pub tags: Vec<(String, String)>,
}

/// The correspondence between a parsed query and its mathematical value.
pub open spec fn query_corresponds(r: TracesQuery, qv: TracesQueryV) -> bool {
    &&& qv.service == Some(r.service@)
    &&& r.operation@ == (match qv.operation {
        Some(o) => o,
        None => Seq::<char>::empty(),
    })
    &&& (match qv.start {
        Some(x) => r.start matches Some(y) && y as int == x,
        None => r.start is None,
    })
    &&& (match qv.end {
        Some(x) => r.end matches Some(y) && y as int == x,
        None => r.end is None,
    })
    &&& (match qv.min_duration {
        Some(Some(x)) => r.min_duration matches Some(d) && d.nanos as int == x,
        _ => r.min_duration is None,
    })
    &&& (match qv.max_duration {
        Some(Some(x)) => r.max_duration matches Some(d) && d.nanos as int == x,
        _ => r.max_duration is None,
    })
    &&& (match qv.limit {
        Some(Some(x)) => r.limit matches Some(y) && y as int == x,
        _ => r.limit is None,
    })
    &&& crate::storage::filter_view(r.tags@) == qv.tags
}

/// Insert one tag into the executable association list.
fn tags_insert(tags: &mut Vec<(String, String)>, k: String, v: String)
    ensures
        crate::storage::filter_view(final(tags)@) == assoc_insert(
            crate::storage::filter_view(old(tags)@),
            k@,
            v@,
        ),
{
    let ghost fv0 = crate::storage::filter_view(tags@);
    let n = tags.len();
    let mut i: usize = 0;
    while i < n
        invariant
            i <= n == tags@.len(),
            *tags == *old(tags),
            fv0 == crate::storage::filter_view(tags@),
            fv0.len() == tags@.len(),
            forall|j: int| 0 <= j < i ==> (#[trigger] fv0[j]).0 != k@,
        decreases n - i,
    {
        if tags[i].0.eq(&k) {
            proof {
                assert(fv0[i as int].0 == tags@[i as int].0@);
            }
            tags[i] = (k, v);
            proof {
                lemma_assoc_insert_found(fv0, k@, v@, i as int);
                assert(crate::storage::filter_view(tags@) =~= fv0.update(i as int, (k@, v@)));
            }
            return;
        }
        proof {
            assert(fv0[i as int].0 == tags@[i as int].0@);
        }
        i = i + 1;
    }
    tags.push((k, v));
    proof {
        lemma_assoc_insert_absent(fv0, k@, v@);
        assert(crate::storage::filter_view(tags@) =~= fv0.push((k@, v@)));
    }
}

proof fn lemma_assoc_insert_found(ts: Seq<(Seq<char>, Seq<char>)>, k: Seq<char>, v: Seq<char>, i: int)
    requires
        0 <= i < ts.len(),
        ts[i].0 == k,
        forall|j: int| 0 <= j < i ==> (#[trigger] ts[j]).0 != k,
    ensures
        assoc_insert(ts, k, v) == ts.update(i, (k, v)),
    decreases i,
{
    if i == 0 {
        assert(seq![(k, v)] + ts.drop_first() =~= ts.update(0, (k, v)));
    } else {
        lemma_assoc_insert_found(ts.drop_first(), k, v, i - 1);
        assert(seq![ts[0]] + ts.drop_first().update(i - 1, (k, v)) =~= ts.update(i, (k, v)));
    }
}

proof fn lemma_assoc_insert_absent(ts: Seq<(Seq<char>, Seq<char>)>, k: Seq<char>, v: Seq<char>)
    requires
        forall|j: int| 0 <= j < ts.len() ==> (#[trigger] ts[j]).0 != k,
    ensures
        assoc_insert(ts, k, v) == ts.push((k, v)),
    decreases ts.len(),
{
    if ts.len() == 0 {
        assert(seq![(k, v)] =~= ts.push((k, v)));
    } else {
        lemma_assoc_insert_absent(ts.drop_first(), k, v);
        assert(seq![ts[0]] + ts.drop_first().push((k, v)) =~= ts.push((k, v)));
    }
}

/// Fold a parsed JSON entry list into the executable association list.
fn tags_insert_all(tags: &mut Vec<(String, String)>, mut es: Vec<(String, String)>)
    ensures
        crate::storage::filter_view(final(tags)@) == assoc_insert_all(
            crate::storage::filter_view(old(tags)@),
            crate::storage::filter_view(es@),
        ),
{
    let ghost evs = crate::storage::filter_view(es@);
    let mut i: usize = 0;
    let n = es.len();
    while i < n
        invariant
            i <= n,
            es@.len() == n - i,
            crate::storage::filter_view(es@) =~= evs.subrange(i as int, n as int),
            evs.len() == n,
            assoc_insert_all(crate::storage::filter_view(tags@), evs.subrange(i as int, n as int))
                == assoc_insert_all(crate::storage::filter_view(old(tags)@), evs),
        decreases n - i,
    {
        let ghost pre_es = es@;
        proof {
            assert(crate::storage::filter_view(pre_es) == evs.subrange(i as int, n as int));
            assert(crate::storage::filter_view(pre_es)[0] == (pre_es[0].0@, pre_es[0].1@));
        }
        let (k, v) = es.remove(0);
        proof {
            assert(evs.subrange(i as int, n as int)[0] == (k@, v@));
            assert(es@ =~= pre_es.drop_first());
            assert forall|j: int| 0 <= j < es@.len() implies crate::storage::filter_view(
                es@,
            )[j] == evs.subrange(i + 1, n as int)[j] by {
                assert(es@[j] == pre_es[j + 1]);
                assert(crate::storage::filter_view(pre_es)[j + 1] == evs.subrange(
                    i as int,
                    n as int,
                )[j + 1]);
            }
            assert(crate::storage::filter_view(es@) =~= evs.subrange(i + 1, n as int));
            assert(evs.subrange(i as int, n as int).drop_first() =~= evs.subrange(i + 1, n as int));
        }
        tags_insert(tags, k, v);
        i = i + 1;
    }
    proof {
        assert(evs.subrange(n as int, n as int) =~= Seq::<(Seq<char>, Seq<char>)>::empty());
    }
}

/// Parse a predicate query string into its fields.
pub fn parse_traces_query(s: &str) -> (r: Result<TracesQuery, QueryError>)
    ensures
        match traces_query_val(s@) {
            Some(qv) => r matches Ok(q) && query_corresponds(q, qv),
            None => r is Err,
        },
{
    let pairs = parse_query_pairs(s);
    let ghost fv = crate::storage::filter_view(pairs@);
    let k_service = String::from_str("service");
    let k_operation = String::from_str("operation");
    let k_start = String::from_str("start");
    let k_end = String::from_str("end");
    let k_min = String::from_str("minDuration");
    let k_max = String::from_str("maxDuration");
    let k_limit = String::from_str("limit");
    let k_tag = String::from_str("tag");
    let k_tags = String::from_str("tags");
    proof {
        reveal_strlit("service");
        reveal_strlit("operation");
        reveal_strlit("start");
        reveal_strlit("end");
        reveal_strlit("minDuration");
        reveal_strlit("maxDuration");
        reveal_strlit("limit");
        reveal_strlit("tag");
        reveal_strlit("tags");
        assert(k_service@ =~= key_service());
        assert(k_operation@ =~= key_operation());
        assert(k_start@ =~= key_start());
        assert(k_end@ =~= key_end());
        assert(k_min@ =~= key_min_duration());
        assert(k_max@ =~= key_max_duration());
        assert(k_limit@ =~= key_limit());
        assert(k_tag@ =~= key_tag());
        assert(k_tags@ =~= key_tags());
    }
    let mut service: Option<String> = None;
    let mut operation: Option<String> = None;
    let mut start: Option<i64> = None;
    let mut end: Option<i64> = None;
    let mut min_d: Option<Option<SignedDuration>> = None;
    let mut max_d: Option<Option<SignedDuration>> = None;
    let mut lim: Option<Option<u32>> = None;
    let mut tags: Vec<(String, String)> = Vec::new();
    let ghost mut qv = empty_query();
    let n = pairs.len();
    let mut i: usize = 0;
    proof {
        assert(crate::storage::filter_view(tags@) =~= Seq::<(Seq<char>, Seq<char>)>::empty());
        assert(fv.subrange(0, n as int) =~= fv);
    }
    while i < n
        invariant
            i <= n == pairs@.len(),
            fv == crate::storage::filter_view(pairs@),
            fv == pairs_from(s@, 0),
            fv.len() == n,
            k_service@ == key_service(),
            k_operation@ == key_operation(),
            k_start@ == key_start(),
            k_end@ == key_end(),
            k_min@ == key_min_duration(),
            k_max@ == key_max_duration(),
            k_limit@ == key_limit(),
            k_tag@ == key_tag(),
            k_tags@ == key_tags(),
            apply_pairs(qv, fv.subrange(i as int, n as int)) == apply_pairs(empty_query(), fv),
            (match qv.service {
                Some(x) => service matches Some(sv) && sv@ == x,
                None => service is None,
            }),
            (match qv.operation {
                Some(x) => operation matches Some(ov) && ov@ == x,
                None => operation is None,
            }),
            (match qv.start {
                Some(x) => start matches Some(y) && y as int == x,
                None => start is None,
            }),
            (match qv.end {
                Some(x) => end matches Some(y) && y as int == x,
                None => end is None,
            }),
            (match qv.min_duration {
                Some(Some(x)) => min_d matches Some(dd) && dd matches Some(d) && d.nanos as int
                    == x,
                Some(None) => min_d matches Some(dd) && dd is None,
                None => min_d is None,
            }),
            (match qv.max_duration {
                Some(Some(x)) => max_d matches Some(dd) && dd matches Some(d) && d.nanos as int
                    == x,
                Some(None) => max_d matches Some(dd) && dd is None,
                None => max_d is None,
            }),
            (match qv.limit {
                Some(Some(x)) => lim matches Some(ll) && ll matches Some(y) && y as int == x,
                Some(None) => lim matches Some(ll) && ll is None,
                None => lim is None,
            }),
            crate::storage::filter_view(tags@) == qv.tags,
        decreases n - i,
    {
        let ghost rest = fv.subrange(i as int, n as int);
        proof {
            assert(rest[0] == (pairs@[i as int].0@, pairs@[i as int].1@));
            assert(rest.drop_first() =~= fv.subrange(i + 1, n as int));
        }
        let key = &pairs[i].0;
        let val = &pairs[i].1;
        if key.eq(&k_service) {
            if service.is_some() {
                return Err(QueryError::BadQuery);
            }
            service = Some(val.clone());
            proof {
                qv = apply_pair(qv, rest[0].0, rest[0].1)->Some_0;
            }
        } else if key.eq(&k_operation) {
            if operation.is_some() {
                return Err(QueryError::BadQuery);
            }
            operation = Some(val.clone());
            proof {
                qv = apply_pair(qv, rest[0].0, rest[0].1)->Some_0;
            }
        } else if key.eq(&k_start) {
            if start.is_some() {
                return Err(QueryError::BadQuery);
            }
            match parse_i64(val.as_str()) {
                Some(x) => {
                    start = Some(x);
                }
                None => {
                    return Err(QueryError::BadNumber);
                }
            }
            proof {
                qv = apply_pair(qv, rest[0].0, rest[0].1)->Some_0;
            }
        } else if key.eq(&k_end) {
            if end.is_some() {
                return Err(QueryError::BadQuery);
            }
            match parse_i64(val.as_str()) {
                Some(x) => {
                    end = Some(x);
                }
                None => {
                    return Err(QueryError::BadNumber);
                }
            }
            proof {
                qv = apply_pair(qv, rest[0].0, rest[0].1)->Some_0;
            }
        } else if key.eq(&k_min) {
            if min_d.is_some() {
                return Err(QueryError::BadQuery);
            }
            match duration_human(val.as_str()) {
                Ok(d) => {
                    min_d = Some(d);
                }
                Err(e) => {
                    return Err(e);
                }
            }
            proof {
                qv = apply_pair(qv, rest[0].0, rest[0].1)->Some_0;
            }
        } else if key.eq(&k_max) {
            if max_d.is_some() {
                return Err(QueryError::BadQuery);
            }
            match duration_human(val.as_str()) {
                Ok(d) => {
                    max_d = Some(d);
                }
                Err(e) => {
                    return Err(e);
                }
            }
            proof {
                qv = apply_pair(qv, rest[0].0, rest[0].1)->Some_0;
            }
        } else if key.eq(&k_limit) {
            if lim.is_some() {
                return Err(QueryError::BadQuery);
            }
            match limit(val.as_str()) {
                Ok(x) => {
                    match x {
                        Some(v2) => {
                            if v2 == 0 {
                                return Err(QueryError::BadNumber);
                            }
                        }
                        None => {}
                    }
                    lim = Some(x);
                }
                Err(e) => {
                    return Err(e);
                }
            }
            proof {
                qv = apply_pair(qv, rest[0].0, rest[0].1)->Some_0;
            }
        } else if key.eq(&k_tag) {
            let m = val.unicode_len();
            let c = find_char_exec(val.as_str(), 0, m, ':');
            if c >= m {
                return Err(QueryError::BadTags);
            }
            proof {
                lemma_find_char_range(val@, 0, ':');
            }
            let tk = substring(val.as_str(), 0, c);
            let tv = substring(val.as_str(), c + 1, m);
            tags_insert(&mut tags, tk, tv);
            proof {
                qv = apply_pair(qv, rest[0].0, rest[0].1)->Some_0;
            }
        } else if key.eq(&k_tags) {
            match parse_json_string_map(val.as_str()) {
                Some(es) => {
                    tags_insert_all(&mut tags, es);
                }
                None => {
                    return Err(QueryError::BadTags);
                }
            }
            proof {
                qv = apply_pair(qv, rest[0].0, rest[0].1)->Some_0;
            }
        } else {
        }
        i = i + 1;
    }
    proof {
        assert(fv.subrange(n as int, n as int) =~= Seq::<(Seq<char>, Seq<char>)>::empty());
    }
    let service = match service {
        Some(sv) => sv,
        None => {
            return Err(QueryError::BadQuery);
        }
    };
    let operation = match operation {
        Some(ov) => ov,
        None => String::new(),
    };
    let min_duration = match min_d {
        Some(Some(d)) => Some(d),
        _ => None,
    };
    let max_duration = match max_d {
        Some(Some(d)) => Some(d),
        _ => None,
    };
    let lim2 = match lim {
        Some(Some(x)) => Some(x),
        _ => None,
    };
    Ok(TracesQuery {
        service,
        operation,
        start,
        end,
        min_duration,
        max_duration,
        limit: lim2,
        tags,
    })
}

/// What a trace-id query string stands for: every pair keyed `traceID`, each
/// value a non-zero hex id, at least one of them.
pub open spec fn trace_ids_fold(ps: Seq<(Seq<char>, Seq<char>)>, i: int) -> Option<Seq<u128>>
    decreases ps.len() - i,
{
    if i < 0 || i >= ps.len() {
        Some(Seq::empty())
    } else if ps[i].0 != key_trace_id() {
        None
    } else {
        match crate::ids::hex_seq_val(ps[i].1) {
            Some(x) => if 0 < x <= u128::MAX && ps[i].1.len() > 0 {
                match trace_ids_fold(ps, i + 1) {
                    Some(rest) => Some(seq![x as u128] + rest),
                    None => None,
                }
            } else {
                None
            },
            None => None,
        }
    }
}

/// The ids of a trace-id query, or `None` where it is malformed or empty.
pub open spec fn trace_ids_val(s: Seq<char>) -> Option<Seq<u128>> {
    match trace_ids_fold(pairs_from(s, 0), 0) {
        Some(ids) => if ids.len() > 0 {
            Some(ids)
        } else {
            None
        },
        None => None,
    }
}

/// Parse a trace-id query string: repeated `traceID=<hex>` pairs.
pub fn trace_ids(s: &str) -> (r: Result<Vec<crate::ids::TraceId>, QueryError>)
    ensures
        match trace_ids_val(s@) {
            Some(ids) => r matches Ok(v) && crate::storage::ids_view(v@) == ids,
            None => r is Err,
        },
{
    let pairs = parse_query_pairs(s);
    let ghost fv = crate::storage::filter_view(pairs@);
    let k_tid = String::from_str("traceID");
    proof {
        reveal_strlit("traceID");
        assert(k_tid@ =~= key_trace_id());
    }
    let mut out: Vec<crate::ids::TraceId> = Vec::new();
    let n = pairs.len();
    let mut i: usize = 0;
    proof {
        assert(crate::storage::ids_view(out@) =~= Seq::<u128>::empty());
    }
    while i < n
        invariant
            i <= n == pairs@.len(),
            fv == crate::storage::filter_view(pairs@),
            fv == pairs_from(s@, 0),
            fv.len() == n,
            k_tid@ == key_trace_id(),
            match trace_ids_fold(fv, i as int) {
                Some(rest) => trace_ids_fold(fv, 0) == Some(crate::storage::ids_view(out@) + rest),
                None => trace_ids_fold(fv, 0) is None,
            },
        decreases n - i,
    {
        proof {
            assert(fv[i as int] == (pairs@[i as int].0@, pairs@[i as int].1@));
        }
        if !pairs[i].0.eq(&k_tid) {
            return Err(QueryError::BadTraceIds);
        }
        match crate::ids::TraceId::parse(pairs[i].1.as_str()) {
            Ok(id) => {
                let ghost prev = out@;
                out.push(id);
                proof {
                    assert(crate::storage::ids_view(out@) =~= crate::storage::ids_view(
                        prev,
                    ).push(id.spec_get()));
                    let tail = trace_ids_fold(fv, i + 1);
                    if tail is Some {
                        assert(crate::storage::ids_view(prev) + (seq![id.spec_get()]
                            + tail->Some_0) =~= crate::storage::ids_view(out@) + tail->Some_0);
                    }
                }
            }
            Err(_) => {
                return Err(QueryError::BadTraceIds);
            }
        }
        i = i + 1;
    }
    proof {
        assert(crate::storage::ids_view(out@) + Seq::<u128>::empty() =~= crate::storage::ids_view(
            out@,
        ));
    }
    if out.len() == 0 {
        return Err(QueryError::BadTraceIds);
    }
    Ok(out)
}

/// The default query window reaches this far back from now: 48 hours, in
/// microseconds.
pub const DEFAULT_LOOKBACK_MICROS: i64 = 172800000000;

/// The default number of traces a query returns.
pub const DEFAULT_LIMIT: u32 = 20;

impl TracesQuery {
    /// Turn a parsed query into storage parameters: the window defaults to
    /// the last 48 hours before `now_us` (microseconds since the epoch) and
    /// must be non-empty, the service name must be non-empty, and a bounded
    /// duration range must be ordered.
    #[verifier::rlimit(100)]
    pub fn into_db(self, now_us: i64) -> (r: Result<crate::storage::ListSpansParams, QueryError>)
        requires
            -100000000000000000 <= now_us <= 100000000000000000,
            self.min_duration matches Some(d) ==> d.wf(),
            self.max_duration matches Some(d) ==> d.wf(),
        ensures
            match r {
                Ok(p) => {
                    &&& self.service@.len() > 0
                    &&& p.service == self.service
                    &&& (p.operation matches Some(o) ==> o == self.operation
                        && self.operation@.len() > 0)
                    &&& (p.operation is None ==> self.operation@.len() == 0)
                    &&& p.start as int == (match self.start {
                        Some(x) => x as int,
                        None => now_us - DEFAULT_LOOKBACK_MICROS,
                    })
                    &&& p.end as int == (match self.end {
                        Some(x) => x as int,
                        None => now_us as int,
                    })
                    &&& p.start < p.end
                    &&& (match self.min_duration {
                        Some(d) => p.duration_min matches Some(m) && m as int == crate::models::div_trunc(
                            d.nanos as int,
                            1000,
                        ),
                        None => p.duration_min is None,
                    })
                    &&& (match self.max_duration {
                        Some(d) => p.duration_max matches Some(m) && m as int == crate::models::div_trunc(
                            d.nanos as int,
                            1000,
                        ),
                        None => p.duration_max is None,
                    })
                    &&& p.limit as int == (match self.limit {
                        Some(x) => x as int,
                        None => DEFAULT_LIMIT as int,
                    })
                    &&& p.tags == self.tags
                    &&& (self.min_duration is Some && self.max_duration is Some
                        ==> self.min_duration->Some_0.nanos < self.max_duration->Some_0.nanos)
                }
                Err(_) => self.service@.len() == 0 || ({
                    let st = match self.start {
                        Some(x) => x as int,
                        None => now_us - DEFAULT_LOOKBACK_MICROS,
                    };
                    let en = match self.end {
                        Some(x) => x as int,
                        None => now_us as int,
                    };
                    !(st < en)
                }) || (self.min_duration is Some && self.max_duration is Some
                    && self.min_duration->Some_0.nanos >= self.max_duration->Some_0.nanos),
            },
    {
        if self.service.as_str().is_empty() {
            return Err(QueryError::BadQuery);
        }
        let start = match self.start {
            Some(x) => x,
            None => now_us - DEFAULT_LOOKBACK_MICROS,
        };
        let end = match self.end {
            Some(x) => x,
            None => now_us,
        };
        if !(start < end) {
            return Err(QueryError::BadQuery);
        }
        match &self.min_duration {
            Some(mn) => {
                match &self.max_duration {
                    Some(mx) => {
                        if !(mn.nanos < mx.nanos) {
                            return Err(QueryError::BadQuery);
                        }
                    }
                    None => {}
                }
            }
            None => {}
        }
        let operation = if self.operation.as_str().is_empty() {
            None
        } else {
            Some(self.operation)
        };
        let duration_min = match &self.min_duration {
            Some(d) => Some(d.whole_microseconds()),
            None => None,
        };
        let duration_max = match &self.max_duration {
            Some(d) => Some(d.whole_microseconds()),
            None => None,
        };
        let lim = match self.limit {
            Some(x) => x,
            None => DEFAULT_LIMIT,
        };
        Ok(crate::storage::ListSpansParams {
            service: self.service,
            operation,
            start,
            end,
            duration_min,
            duration_max,
            limit: lim as usize,
            tags: self.tags,
        })
    }
}

} // verus!
