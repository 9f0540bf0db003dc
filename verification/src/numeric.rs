//! Whole-number statistics.
//!
//! Every quantity of the library is a whole number of its unit, and every
//! quotient and root is rounded down to a whole number. The functions here
//! compute sums, means, spreads and order statistics of unsigned 64-bit
//! values without ever leaving the range of the machine's integers.

use crate::arrange::{arrange, comes_before, is_stable_order, key_values, lemma_stable_order, positions, stable_order};
use vstd::arithmetic::power2::{lemma_pow2_unfold, pow2};
use vstd::prelude::*;

verus! {

/// The greatest square of a 64-bit value.
pub open spec fn max_square() -> int {
    0xFFFF_FFFF_FFFF_FFFFint * 0xFFFF_FFFF_FFFF_FFFFint
}

/// The sum of `values`.
pub open spec fn total(values: Seq<u64>) -> int
    decreases values.len(),
{
    if values.len() == 0 {
        0
    } else {
        total(values.drop_last()) + values.last()
    }
}

/// The mean of `values`, rounded down; zero where there is no value.
pub open spec fn mean_of(values: Seq<u64>) -> int {
    if values.len() == 0 {
        0
    } else {
        total(values) / (values.len() as int)
    }
}

/// The sum of the squared distances of `values` from `center`.
pub open spec fn squared_spread(values: Seq<u64>, center: int) -> int
    decreases values.len(),
{
    if values.len() == 0 {
        0
    } else {
        squared_spread(values.drop_last(), center) + (values.last() - center) * (values.last()
            - center)
    }
}

/// The population variance of `values` about their mean, rounded down; zero
/// where there is no value.
pub open spec fn variance_of(values: Seq<u64>) -> int {
    if values.len() == 0 {
        0
    } else {
        squared_spread(values, mean_of(values)) / (values.len() as int)
    }
}

/// Whether `root` is the square root of `x`, rounded down.
pub open spec fn is_root(x: int, root: int) -> bool {
    0 <= root && root * root <= x < (root + 1) * (root + 1)
}

/// The sum of the products of `values` with their `weights`.
pub open spec fn weighted_total(values: Seq<u64>, weights: Seq<u64>) -> int
    decreases values.len(),
{
    if values.len() == 0 || weights.len() != values.len() {
        0
    } else {
        weighted_total(values.drop_last(), weights.drop_last()) + values.last() * weights.last()
    }
}

/// The mean of `values` weighted by `weights`, rounded down; zero where the
/// weights add up to nothing.
pub open spec fn weighted_mean_of(values: Seq<u64>, weights: Seq<u64>) -> int {
    if total(weights) == 0 {
        0
    } else {
        weighted_total(values, weights) / total(weights)
    }
}

/// The greatest of `values`; zero where there is no value.
pub open spec fn greatest(values: Seq<u64>) -> int
    decreases values.len(),
{
    if values.len() == 0 {
        0
    } else if greatest(values.drop_last()) >= values.last() {
        greatest(values.drop_last())
    } else {
        values.last() as int
    }
}

/// The least of `values`; zero where there is no value.
pub open spec fn least(values: Seq<u64>) -> int
    decreases values.len(),
{
    if values.len() == 0 {
        0
    } else if values.len() == 1 || least(values.drop_last()) <= values.last() {
        if values.len() == 1 {
            values.last() as int
        } else {
            least(values.drop_last())
        }
    } else {
        values.last() as int
    }
}

/// The values as keys of an arrangement.
pub open spec fn value_keys(values: Seq<u64>) -> Seq<int> {
    Seq::new(values.len(), |i: int| values[i] as int)
}

/// `values` in ascending order.
pub open spec fn ascending(values: Seq<u64>) -> Seq<u64> {
    Seq::new(values.len(), |p: int| values[stable_order(value_keys(values))[p]])
}

/// The logarithm of `n` to the base two, rounded down; zero for `n < 2`.
pub open spec fn floor_log2(n: nat) -> nat
    decreases n,
{
    if n < 2 {
        0
    } else {
        1 + floor_log2(n / 2)
    }
}

/// The ascending order never descends and holds the values it was made of.
pub proof fn lemma_ascending(values: Seq<u64>)
    ensures
        ascending(values).len() == values.len(),
        forall|p: int, q: int|
            0 <= p <= q < values.len() ==> #[trigger] ascending(values)[p] <= #[trigger] ascending(
                values,
            )[q],
        forall|i: int| 0 <= i < values.len() ==> ascending(values).contains(#[trigger] values[i]),
        forall|p: int| 0 <= p < values.len() ==> values.contains(#[trigger] ascending(values)[p]),
{
    let keys = value_keys(values);
    let order = stable_order(keys);
    let sorted = ascending(values);
    lemma_stable_order(keys);
    assert forall|p: int, q: int| 0 <= p <= q < values.len() implies #[trigger] sorted[p]
        <= #[trigger] sorted[q] by {
        if p < q {
            assert(comes_before(keys, order[p], order[q]));
        }
    }
    assert forall|i: int| 0 <= i < values.len() implies sorted.contains(#[trigger] values[i]) by {
        assert(order.contains(i));
        let p = choose|p: int| 0 <= p < order.len() && order[p] == i;
        assert(sorted[p] == values[i]);
    }
    assert forall|p: int| 0 <= p < values.len() implies values.contains(#[trigger] sorted[p]) by {
        assert(0 <= order[p] < values.len());
        assert(values[order[p]] == sorted[p]);
    }
}

/// A sum of `n` values is at most `n` times the greatest 64-bit value.
pub proof fn lemma_total_bound(values: Seq<u64>)
    ensures
        0 <= total(values) <= values.len() * 0xFFFF_FFFF_FFFF_FFFF,
    decreases values.len(),
{
    if values.len() > 0 {
        lemma_total_bound(values.drop_last());
    }
}

/// Adds up `values`.
pub fn sum(values: &Vec<u64>) -> (s: u128)
    ensures
        s == total(values@),
{
    let n = values.len();
    let mut s: u128 = 0;
    let mut i: usize = 0;
    while i < n
        invariant
            n == values.len(),
            i <= n,
            s == total(values@.take(i as int)),
            s <= i * 0xFFFF_FFFF_FFFF_FFFF,
        decreases n - i,
    {
        proof {
            assert(values@.take(i + 1).drop_last() == values@.take(i as int));
        }
        s = s + values[i] as u128;
        i += 1;
    }
    proof {
        assert(values@.take(n as int) == values@);
    }
    s
}

/// The mean of `values`, rounded down; zero where there is no value.
pub fn mean(values: &Vec<u64>) -> (m: u64)
    ensures
        m == mean_of(values@),
{
    let n = values.len();
    if n == 0 {
        return 0;
    }
    let s = sum(values);
    proof {
        lemma_total_bound(values@);
        assert((s as int) / (n as int) <= 0xFFFF_FFFF_FFFF_FFFF) by (nonlinear_arith)
            requires
                0 <= s <= n * 0xFFFF_FFFF_FFFF_FFFF,
                n > 0,
        ;
    }
    (s / (n as u128)) as u64
}

/// The distance between `a` and `b`.
fn distance(a: u64, b: u64) -> (d: u64)
    ensures
        d == if a >= b {
            a - b
        } else {
            b - a
        },
{
    if a >= b {
        a - b
    } else {
        b - a
    }
}

/// The mean of the squared distances of `values` from `center`, rounded
/// down.
pub fn mean_square_deviation(values: &Vec<u64>, center: u64) -> (v: u128)
    requires
        values.len() > 0,
    ensures
        v == squared_spread(values@, center as int) / (values.len() as int),
        v <= max_square(),
{
    let n = values.len();
    let divisor = n as u128;
    let mut q: u128 = 0;
    let mut r: u128 = 0;
    let mut i: usize = 0;
    while i < n
        invariant
            n == values.len(),
            n > 0,
            divisor == n,
            i <= n,
            q * divisor + r == squared_spread(values@.take(i as int), center as int),
            r < divisor,
            q * divisor + r <= i * max_square(),
        decreases n - i,
    {
        let d = distance(values[i], center) as u128;
        proof {
            assert(values@.take(i + 1).drop_last() == values@.take(i as int));
            assert(d * d <= max_square()) by (nonlinear_arith)
                requires
                    0 <= d <= 0xFFFF_FFFF_FFFF_FFFF,
            ;
            assert(d * d == (values@[i as int] - center) * (values@[i as int] - center))
                by (nonlinear_arith)
                requires
                    d == values@[i as int] - center || d == center - values@[i as int],
            ;
        }
        let t = d * d;
        let a = t / divisor;
        let b = t % divisor;
        proof {
            let ghost m = max_square();
            assert(t == a * divisor + b) by (nonlinear_arith)
                requires
                    a == t / divisor,
                    b == t % divisor,
                    divisor > 0,
            ;
            assert((q + a) * divisor + (r + b) == q * divisor + r + t) by (nonlinear_arith)
                requires
                    t == a * divisor + b,
            ;
            assert((i + 1) * m <= divisor * m) by (nonlinear_arith)
                requires
                    i + 1 <= divisor,
                    m >= 0,
            ;
            assert((i + 1) * m == i * m + m) by (nonlinear_arith);
            assert(q + a <= m) by (nonlinear_arith)
                requires
                    (q + a) * divisor + (r + b) <= divisor * m,
                    r + b >= 0,
                    divisor > 0,
            ;
            if r + b >= divisor {
                assert(q + a + 1 <= m) by (nonlinear_arith)
                    requires
                        (q + a) * divisor + (r + b) <= divisor * m,
                        r + b >= divisor,
                        divisor > 0,
                ;
                assert((q + a + 1) * divisor + (r + b - divisor) == (q + a) * divisor + (r + b))
                    by (nonlinear_arith);
            }
        }
        if r + b >= divisor {
            q = q + a + 1;
            r = r + b - divisor;
        } else {
            q = q + a;
            r = r + b;
        }
        i += 1;
    }
    proof {
        assert(values@.take(n as int) == values@);
        let ghost whole = squared_spread(values@, center as int);
        let ghost m = max_square();
        assert(q == whole / (divisor as int)) by (nonlinear_arith)
            requires
                q * divisor + r == whole,
                0 <= r < divisor,
        ;
        assert(q <= m) by (nonlinear_arith)
            requires
                q * divisor + r <= n * m,
                divisor == n,
                r >= 0,
                n > 0,
        ;
    }
    q
}

/// The population variance of `values` about their mean, rounded down; zero
/// where there is no value.
pub fn variance(values: &Vec<u64>) -> (v: u128)
    ensures
        v == variance_of(values@),
        v <= max_square(),
{
    if values.len() == 0 {
        return 0;
    }
    let center = mean(values);
    mean_square_deviation(values, center)
}

/// The square root of `x`, rounded down.
pub fn integer_root(x: u128) -> (root: u64)
    ensures
        is_root(x as int, root as int),
{
    let mut low: u128 = 0;
    let mut high: u128 = 0x1_0000_0000_0000_0000;
    while high - low > 1
        invariant
            low < high <= 0x1_0000_0000_0000_0000,
            low * low <= x,
            x < high * high,
        decreases high - low,
    {
        let middle = low + (high - low) / 2;
        proof {
            assert(middle * middle < 0x1_0000_0000_0000_0000 * 0x1_0000_0000_0000_0000)
                by (nonlinear_arith)
                requires
                    0 <= middle < 0x1_0000_0000_0000_0000,
            ;
        }
        if middle * middle <= x {
            low = middle;
        } else {
            high = middle;
        }
    }
    low as u64
}

/// The mean of `values` weighted by `weights`, rounded down; zero where the
/// weights add up to nothing.
pub fn weighted_mean(values: &Vec<u64>, weights: &Vec<u64>) -> (m: u64)
    requires
        values.len() == weights.len(),
    ensures
        m == weighted_mean_of(values@, weights@),
{
    let n = values.len();
    let divisor = sum(weights);
    if divisor == 0 {
        return 0;
    }
    let mut q: u128 = 0;
    let mut r: u128 = 0;
    let mut i: usize = 0;
    proof {
        lemma_total_bound(weights@);
    }
    while i < n
        invariant
            n == values.len(),
            n == weights.len(),
            divisor == total(weights@),
            divisor > 0,
            i <= n,
            q * divisor + r == weighted_total(values@.take(i as int), weights@.take(i as int)),
            r < divisor,
            q * divisor + r <= 0xFFFF_FFFF_FFFF_FFFF * total(weights@.take(i as int)),
        decreases n - i,
    {
        let value = values[i] as u128;
        let weight = weights[i] as u128;
        proof {
            assert(values@.take(i + 1).drop_last() == values@.take(i as int));
            assert(weights@.take(i + 1).drop_last() == weights@.take(i as int));
            assert(value * weight <= max_square()) by (nonlinear_arith)
                requires
                    0 <= value <= 0xFFFF_FFFF_FFFF_FFFF,
                    0 <= weight <= 0xFFFF_FFFF_FFFF_FFFF,
            ;
            lemma_total_prefix(weights@, i + 1);
        }
        let t = value * weight;
        let a = t / divisor;
        let b = t % divisor;
        proof {
            let ghost top = 0xFFFF_FFFF_FFFF_FFFF as int;
            let ghost part = total(weights@.take(i as int));
            assert(t == a * divisor + b) by (nonlinear_arith)
                requires
                    a == t / divisor,
                    b == t % divisor,
                    divisor > 0,
            ;
            assert((q + a) * divisor + (r + b) == q * divisor + r + t) by (nonlinear_arith)
                requires
                    t == a * divisor + b,
            ;
            assert(t <= top * weight) by (nonlinear_arith)
                requires
                    t == value * weight,
                    0 <= value <= top,
                    weight >= 0,
            ;
            assert(top * (part + weight) == top * part + top * weight) by (nonlinear_arith);
            assert(top * (part + weight) <= top * divisor) by (nonlinear_arith)
                requires
                    part + weight <= divisor,
                    top >= 0,
            ;
            assert(q + a <= top) by (nonlinear_arith)
                requires
                    (q + a) * divisor + (r + b) <= top * divisor,
                    r + b >= 0,
                    divisor > 0,
            ;
            if b >= divisor - r {
                assert((q + a + 1) * divisor + (b - (divisor - r)) == (q + a) * divisor + (r + b))
                    by (nonlinear_arith);
                assert(q + a + 1 <= top) by (nonlinear_arith)
                    requires
                        (q + a) * divisor + (r + b) <= top * divisor,
                        r + b >= divisor,
                        divisor > 0,
                ;
            }
        }
        if b >= divisor - r {
            q = q + a + 1;
            r = b - (divisor - r);
        } else {
            q = q + a;
            r = r + b;
        }
        i += 1;
    }
    proof {
        assert(values@.take(n as int) == values@);
        assert(weights@.take(n as int) == weights@);
        let ghost whole = weighted_total(values@, weights@);
        let ghost top = 0xFFFF_FFFF_FFFF_FFFF as int;
        assert(q == whole / (divisor as int)) by (nonlinear_arith)
            requires
                q * divisor + r == whole,
                0 <= r < divisor,
        ;
        assert(q <= top) by (nonlinear_arith)
            requires
                q * divisor + r <= top * divisor,
                r >= 0,
                divisor > 0,
        ;
    }
    q as u64
}

/// The sum of the first `k` values is at most the sum of all.
pub proof fn lemma_total_prefix(values: Seq<u64>, k: int)
    requires
        0 <= k <= values.len(),
    ensures
        0 <= total(values.take(k)) <= total(values),
    decreases values.len() - k,
{
    lemma_total_bound(values.take(k));
    if k < values.len() {
        lemma_total_prefix(values, k + 1);
        assert(values.take(k + 1).drop_last() == values.take(k));
    } else {
        assert(values.take(k) == values);
    }
}

/// The greatest of `values`; zero where there is no value.
pub fn maximum(values: &Vec<u64>) -> (m: u64)
    ensures
        m == greatest(values@),
{
    let n = values.len();
    let mut m: u64 = 0;
    let mut i: usize = 0;
    while i < n
        invariant
            n == values.len(),
            i <= n,
            m == greatest(values@.take(i as int)),
        decreases n - i,
    {
        proof {
            assert(values@.take(i + 1).drop_last() == values@.take(i as int));
        }
        if values[i] > m {
            m = values[i];
        }
        i += 1;
    }
    proof {
        assert(values@.take(n as int) == values@);
    }
    m
}

/// The least of `values`; zero where there is no value.
pub fn minimum(values: &Vec<u64>) -> (m: u64)
    ensures
        m == least(values@),
{
    let n = values.len();
    if n == 0 {
        return 0;
    }
    let mut m: u64 = values[0];
    let mut i: usize = 1;
    proof {
        assert(values@.take(1).drop_last() == values@.take(0));
    }
    while i < n
        invariant
            n == values.len(),
            1 <= i <= n,
            m == least(values@.take(i as int)),
        decreases n - i,
    {
        proof {
            assert(values@.take(i + 1).drop_last() == values@.take(i as int));
        }
        if values[i] < m {
            m = values[i];
        }
        i += 1;
    }
    proof {
        assert(values@.take(n as int) == values@);
    }
    m
}

/// `values` in ascending order.
pub fn sort_ascending(values: &Vec<u64>) -> (sorted: Vec<u64>)
    ensures
        sorted@ == ascending(values@),
{
    let n = values.len();
    let mut keys: Vec<i128> = Vec::new();
    let mut i: usize = 0;
    while i < n
        invariant
            n == values.len(),
            i <= n,
            keys.len() == i,
            forall|j: int| 0 <= j < i ==> #[trigger] keys@[j] == values@[j],
        decreases n - i,
    {
        keys.push(values[i] as i128);
        i += 1;
    }
    assert(key_values(keys@) =~= value_keys(values@));
    let order = arrange(&keys);
    let mut sorted: Vec<u64> = Vec::new();
    let mut p: usize = 0;
    while p < n
        invariant
            n == values.len(),
            order.len() == n,
            p <= n,
            sorted.len() == p,
            positions(order@) == stable_order(value_keys(values@)),
            is_stable_order(value_keys(values@), positions(order@)),
            forall|q: int| 0 <= q < p ==> #[trigger] sorted@[q] == ascending(values@)[q],
        decreases n - p,
    {
        proof {
            assert(positions(order@)[p as int] == order@[p as int]);
        }
        sorted.push(values[order[p]]);
        p += 1;
    }
    assert(sorted@ =~= ascending(values@));
    sorted
}

/// The logarithm of `n` to the base two, rounded down; zero for `n < 2`.
pub fn log2_floor(n: u64) -> (log: u64)
    ensures
        log == floor_log2(n as nat),
        log < 64,
{
    let mut rest = n;
    let mut log: u64 = 0;
    proof {
        vstd::arithmetic::power2::lemma2_to64();
        vstd::arithmetic::power2::lemma2_to64_rest();
    }
    while rest >= 2
        invariant
            floor_log2(n as nat) == log + floor_log2(rest as nat),
            log < 64,
            rest * pow2(log as nat) <= n,
            pow2(63) == 0x8000_0000_0000_0000,
        decreases rest,
    {
        proof {
            let ghost scale = pow2(log as nat) as int;
            lemma_pow2_unfold((log + 1) as nat);
            if log == 63 {
                assert(rest * scale >= 2 * scale) by (nonlinear_arith)
                    requires
                        rest >= 2,
                        scale >= 0,
                ;
            }
            assert((rest / 2) * (2 * scale) <= rest * scale) by (nonlinear_arith)
                requires
                    rest >= 0,
                    scale >= 0,
            ;
        }
        rest = rest / 2;
        log += 1;
    }
    log
}

/// The sum of the distances of `values` from `center`.
pub open spec fn distance_total(values: Seq<u64>, center: int) -> int
    decreases values.len(),
{
    if values.len() == 0 {
        0
    } else {
        distance_total(values.drop_last(), center) + if values.last() >= center {
            values.last() - center
        } else {
            center - values.last()
        }
    }
}

/// The mean distance of `values` from `center`, rounded down; zero where
/// there is no value.
pub open spec fn mean_distance_of(values: Seq<u64>, center: int) -> int {
    if values.len() == 0 {
        0
    } else {
        distance_total(values, center) / (values.len() as int)
    }
}

/// The mean distance of `values` from `center`, rounded down; zero where
/// there is no value.
pub fn mean_distance(values: &Vec<u64>, center: u64) -> (m: u64)
    ensures
        m == mean_distance_of(values@, center as int),
{
    let n = values.len();
    if n == 0 {
        return 0;
    }
    let mut s: u128 = 0;
    let mut i: usize = 0;
    while i < n
        invariant
            n == values.len(),
            i <= n,
            s == distance_total(values@.take(i as int), center as int),
            s <= i * 0xFFFF_FFFF_FFFF_FFFF,
        decreases n - i,
    {
        proof {
            assert(values@.take(i + 1).drop_last() == values@.take(i as int));
        }
        s = s + distance(values[i], center) as u128;
        i += 1;
    }
    proof {
        assert(values@.take(n as int) == values@);
        assert((s as int) / (n as int) <= 0xFFFF_FFFF_FFFF_FFFF) by (nonlinear_arith)
            requires
                0 <= s <= n * 0xFFFF_FFFF_FFFF_FFFF,
                n > 0,
        ;
    }
    (s / (n as u128)) as u64
}

/// The mean of values that do not exceed `bound` does not exceed it.
pub proof fn lemma_mean_bound(values: Seq<u64>, bound: int)
    requires
        bound >= 0,
        forall|i: int| 0 <= i < values.len() ==> #[trigger] values[i] <= bound,
    ensures
        0 <= mean_of(values) <= bound,
{
    lemma_total_below(values, bound);
    if values.len() > 0 {
        let n = values.len() as int;
        let t = total(values);
        assert(0 <= t / n <= bound) by (nonlinear_arith)
            requires
                0 <= t <= n * bound,
                n > 0,
        ;
    }
}

/// A sum of `n` values that do not exceed `bound` does not exceed `n`
/// times `bound`.
pub proof fn lemma_total_below(values: Seq<u64>, bound: int)
    requires
        bound >= 0,
        forall|i: int| 0 <= i < values.len() ==> #[trigger] values[i] <= bound,
    ensures
        0 <= total(values) <= values.len() * bound,
    decreases values.len(),
{
    if values.len() > 0 {
        let shorter = values.drop_last();
        assert forall|i: int| 0 <= i < shorter.len() implies #[trigger] shorter[i] <= bound by {
            assert(shorter[i] == values[i]);
        }
        lemma_total_below(shorter, bound);
        assert(values.len() * bound == shorter.len() * bound + bound) by (nonlinear_arith)
            requires
                values.len() == shorter.len() + 1,
        ;
    }
}

/// The quotient of `a` by `b`, rounded down.
pub fn floor_div(a: i128, b: i128) -> (q: i128)
    requires
        b > 0,
        a > i128::MIN,
    ensures
        q == a / b,
{
    if a >= 0 {
        a / b
    } else {
        let magnitude: u128 = (-a) as u128;
        let divisor: u128 = b as u128;
        let whole = magnitude / divisor;
        let rest = magnitude % divisor;
        proof {
            vstd::arithmetic::div_mod::lemma_fundamental_div_mod(magnitude as int, divisor as int);
            vstd::arithmetic::div_mod::lemma_mod_bound(magnitude as int, divisor as int);
            assert(whole <= magnitude) by (nonlinear_arith)
                requires
                    whole == magnitude / divisor,
                    divisor >= 1,
                    magnitude >= 0,
            ;
            if rest == 0 {
                assert(a == (-whole) * b + 0) by (nonlinear_arith)
                    requires
                        -a == divisor * whole + rest,
                        rest == 0,
                        b == divisor,
                ;
                vstd::arithmetic::div_mod::lemma_fundamental_div_mod_converse(
                    a as int,
                    b as int,
                    -(whole as int),
                    0,
                );
            } else {
                assert(a == (-whole - 1) * b + (b - rest)) by (nonlinear_arith)
                    requires
                        -a == divisor * whole + rest,
                        b == divisor,
                ;
                vstd::arithmetic::div_mod::lemma_fundamental_div_mod_converse(
                    a as int,
                    b as int,
                    -(whole as int) - 1,
                    b - rest,
                );
            }
        }
        if rest == 0 {
            -(whole as i128)
        } else {
            -(whole as i128) - 1
        }
    }
}

/// The sum of a run of values is at most the sum of all.
pub proof fn lemma_total_run(values: Seq<u64>, from: int, to: int)
    requires
        0 <= from <= to <= values.len(),
    ensures
        0 <= total(values.subrange(from, to)) <= total(values),
    decreases to - from,
{
    lemma_total_prefix(values, to);
    lemma_total_bound(values.subrange(from, to));
    lemma_total_split(values.take(to), from);
    assert(values.take(to).take(from) =~= values.take(from));
    assert(values.take(to).skip(from) =~= values.subrange(from, to));
    lemma_total_bound(values.take(from));
}

/// The sum of values is the sum of the first `k` and the sum of the rest.
pub proof fn lemma_total_split(values: Seq<u64>, k: int)
    requires
        0 <= k <= values.len(),
    ensures
        total(values) == total(values.take(k)) + total(values.skip(k)),
    decreases values.len(),
{
    if k == values.len() {
        assert(values.take(k) =~= values);
        assert(values.skip(k) =~= Seq::<u64>::empty());
    } else {
        let shorter = values.drop_last();
        lemma_total_split(shorter, k);
        assert(shorter.take(k) =~= values.take(k));
        assert(values.skip(k).drop_last() =~= shorter.skip(k));
    }
}

/// The greatest of values that do not exceed `bound` does not exceed it,
/// and neither does the least.
pub proof fn lemma_extremes_bound(values: Seq<u64>, bound: int)
    requires
        bound >= 0,
        forall|i: int| 0 <= i < values.len() ==> #[trigger] values[i] <= bound,
    ensures
        0 <= greatest(values) <= bound,
        0 <= least(values) <= bound,
    decreases values.len(),
{
    if values.len() > 0 {
        let shorter = values.drop_last();
        assert forall|i: int| 0 <= i < shorter.len() implies #[trigger] shorter[i] <= bound by {
            assert(shorter[i] == values[i]);
        }
        lemma_extremes_bound(shorter, bound);
        assert(values[values.len() - 1] <= bound);
    }
}

} // verus!
