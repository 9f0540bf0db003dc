//! Stable arrangement of positions by an integer key.
//!
//! Records are never compared directly. A caller derives one integer key per
//! record (a date, a rank) and asks in which order the positions `0..n` are
//! to be visited so that keys ascend and equal keys keep their input order.

use vstd::prelude::*;

verus! {

/// Position `i` is visited before position `j`: its key is smaller, or the
/// keys are equal and `i` stands first in the input.
pub open spec fn comes_before(keys: Seq<int>, i: int, j: int) -> bool {
    keys[i] < keys[j] || (keys[i] == keys[j] && i < j)
}

/// Where a new position with key `key` enters `order`: directly behind the
/// last position whose key does not exceed `key`.
pub open spec fn entry_point(keys: Seq<int>, order: Seq<int>, key: int) -> int
    decreases order.len(),
{
    if order.len() == 0 {
        0
    } else if keys[order.last()] <= key {
        order.len() as int
    } else {
        entry_point(keys, order.drop_last(), key)
    }
}

/// The positions `0..keys.len()` in ascending order of key, positions of
/// equal key in input order.
pub open spec fn stable_order(keys: Seq<int>) -> Seq<int>
    decreases keys.len(),
{
    if keys.len() == 0 {
        Seq::empty()
    } else {
        let rest = stable_order(keys.drop_last());
        rest.insert(entry_point(keys, rest, keys.last()), keys.len() - 1)
    }
}

/// `order` visits each of the positions `0..keys.len()` once, in ascending
/// order of key and, among equal keys, of position.
pub open spec fn is_stable_order(keys: Seq<int>, order: Seq<int>) -> bool {
    &&& order.len() == keys.len()
    &&& forall|p: int| 0 <= p < order.len() ==> 0 <= #[trigger] order[p] < keys.len()
    &&& forall|p: int, q: int|
        0 <= p < q < order.len() ==> comes_before(keys, #[trigger] order[p], #[trigger] order[q])
    &&& forall|i: int| 0 <= i < keys.len() ==> #[trigger] order.contains(i)
}

/// The keys of `keys` as integers without bound.
pub open spec fn key_values(keys: Seq<i128>) -> Seq<int> {
    Seq::new(keys.len(), |i: int| keys[i] as int)
}

/// The positions held in `order`.
pub open spec fn positions(order: Seq<usize>) -> Seq<int> {
    Seq::new(order.len(), |p: int| order[p] as int)
}

/// `order` ascends by key over the first `n` positions of `keys`.
spec fn ascends(keys: Seq<int>, order: Seq<int>, n: int) -> bool {
    &&& order.len() == n
    &&& forall|p: int| 0 <= p < order.len() ==> 0 <= #[trigger] order[p] < n
    &&& forall|p: int, q: int|
        0 <= p < q < order.len() ==> comes_before(keys, #[trigger] order[p], #[trigger] order[q])
    &&& forall|i: int| 0 <= i < n ==> #[trigger] order.contains(i)
}

proof fn lemma_entry_point(keys: Seq<int>, order: Seq<int>, key: int)
    requires
        forall|p: int| 0 <= p < order.len() ==> 0 <= #[trigger] order[p] < keys.len(),
        forall|p: int, q: int|
            0 <= p < q < order.len() ==> keys[#[trigger] order[p]] <= keys[#[trigger] order[q]],
    ensures
        0 <= entry_point(keys, order, key) <= order.len(),
        forall|p: int| 0 <= p < entry_point(keys, order, key) ==> keys[#[trigger] order[p]] <= key,
        forall|p: int|
            entry_point(keys, order, key) <= p < order.len() ==> keys[#[trigger] order[p]] > key,
    decreases order.len(),
{
    if order.len() == 0 {
    } else if keys[order.last()] <= key {
        assert forall|p: int| 0 <= p < order.len() implies keys[#[trigger] order[p]] <= key by {
            if p < order.len() - 1 {
                assert(keys[order[p]] <= keys[order[order.len() - 1]]);
            }
        }
    } else {
        let shorter = order.drop_last();
        assert forall|p: int, q: int| 0 <= p < q < shorter.len() implies keys[#[trigger] shorter[p]]
            <= keys[#[trigger] shorter[q]] by {
            assert(shorter[p] == order[p] && shorter[q] == order[q]);
        }
        assert forall|p: int| 0 <= p < shorter.len() implies 0 <= #[trigger] shorter[p]
            < keys.len() by {
            assert(shorter[p] == order[p]);
        }
        lemma_entry_point(keys, shorter, key);
        let e = entry_point(keys, shorter, key);
        assert forall|p: int| 0 <= p < e implies keys[#[trigger] order[p]] <= key by {
            assert(shorter[p] == order[p]);
        }
        assert forall|p: int| e <= p < order.len() implies keys[#[trigger] order[p]] > key by {
            if p < shorter.len() {
                assert(shorter[p] == order[p]);
            }
        }
    }
}

/// Entering position `n` at its entry point keeps an ascending order
/// ascending.
proof fn lemma_enter(keys: Seq<int>, order: Seq<int>, n: int)
    requires
        0 <= n < keys.len(),
        ascends(keys, order, n),
    ensures
        ascends(keys, order.insert(entry_point(keys, order, keys[n]), n), n + 1),
{
    let key = keys[n];
    assert forall|p: int, q: int| 0 <= p < q < order.len() implies keys[#[trigger] order[p]]
        <= keys[#[trigger] order[q]] by {
        assert(comes_before(keys, order[p], order[q]));
    }
    lemma_entry_point(keys, order, key);
    let e = entry_point(keys, order, key);
    let next = order.insert(e, n);
    assert forall|p: int, q: int| 0 <= p < q < next.len() implies comes_before(
        keys,
        #[trigger] next[p],
        #[trigger] next[q],
    ) by {
        if q < e {
            assert(next[p] == order[p] && next[q] == order[q]);
        } else if q == e {
            assert(next[p] == order[p]);
            assert(keys[order[p]] <= key);
        } else if p < e {
            assert(next[p] == order[p] && next[q] == order[q - 1]);
        } else if p == e {
            assert(next[q] == order[q - 1]);
            assert(keys[order[q - 1]] > key);
        } else {
            assert(next[p] == order[p - 1] && next[q] == order[q - 1]);
        }
    }
    assert forall|p: int| 0 <= p < next.len() implies 0 <= #[trigger] next[p] < n + 1 by {
        if p < e {
            assert(next[p] == order[p]);
        } else if p > e {
            assert(next[p] == order[p - 1]);
        }
    }
    assert forall|i: int| 0 <= i < n + 1 implies #[trigger] next.contains(i) by {
        if i == n {
            assert(next[e] == n);
        } else {
            assert(order.contains(i));
            let p = choose|p: int| 0 <= p < order.len() && order[p] == i;
            if p < e {
                assert(next[p] == i);
            } else {
                assert(next[p + 1] == i);
            }
        }
    }
}

proof fn lemma_ascends_prefix(keys: Seq<int>, order: Seq<int>, n: int)
    requires
        0 <= n <= keys.len(),
        ascends(keys.take(n), order, n),
    ensures
        ascends(keys, order, n),
{
    assert forall|p: int, q: int| 0 <= p < q < order.len() implies comes_before(
        keys,
        #[trigger] order[p],
        #[trigger] order[q],
    ) by {
        assert(comes_before(keys.take(n), order[p], order[q]));
    }
}

/// The stable order visits every position once, keys ascending, equal keys
/// in input order.
pub proof fn lemma_stable_order(keys: Seq<int>)
    ensures
        is_stable_order(keys, stable_order(keys)),
    decreases keys.len(),
{
    if keys.len() > 0 {
        let n = keys.len() - 1;
        let shorter = keys.drop_last();
        lemma_stable_order(shorter);
        let rest = stable_order(shorter);
        assert(shorter == keys.take(n));
        lemma_ascends_prefix(keys, rest, n);
        lemma_enter(keys, rest, n);
    }
}

/// Whether `order` visits each of the positions `from..to` once, in
/// ascending order of key and, among equal keys, of position.
pub open spec fn ascends_between(keys: Seq<int>, order: Seq<int>, from: int, to: int) -> bool {
    &&& order.len() == to - from
    &&& forall|p: int| 0 <= p < order.len() ==> from <= #[trigger] order[p] < to
    &&& forall|p: int, q: int|
        0 <= p < q < order.len() ==> comes_before(keys, #[trigger] order[p], #[trigger] order[q])
    &&& forall|i: int| from <= i < to ==> #[trigger] order.contains(i)
}

/// Two orders that both visit each position once, in ascending order of
/// key and, among equal keys, of position, agree on their first `p`
/// places.
proof fn lemma_agree_upto(keys: Seq<int>, a: Seq<int>, b: Seq<int>, p: int)
    requires
        ascends_between(keys, a, 0, keys.len() as int),
        ascends_between(keys, b, 0, keys.len() as int),
        0 <= p <= keys.len(),
    ensures
        forall|j: int| 0 <= j < p ==> a[j] == b[j],
    decreases p,
{
    if p > 0 {
        lemma_agree_upto(keys, a, b, p - 1);
        let x = a[p - 1];
        let y = b[p - 1];
        if x != y {
            assert(b.contains(x));
            let q = choose|q: int| 0 <= q < b.len() && b[q] == x;
            assert(a.contains(y));
            let r = choose|r: int| 0 <= r < a.len() && a[r] == y;
            if q < p - 1 {
                assert(a[q] == b[q]);
                assert(comes_before(keys, a[q], a[p - 1]));
            } else if r < p - 1 {
                assert(a[r] == b[r]);
                assert(comes_before(keys, b[r], b[p - 1]));
            } else {
                assert(comes_before(keys, b[p - 1], b[q]));
                assert(comes_before(keys, a[p - 1], a[r]));
            }
        }
    }
}

/// There is one stable order: an order that visits each position once, in
/// ascending order of key and, among equal keys, of position, is the
/// stable order.
pub proof fn lemma_one_stable_order(keys: Seq<int>, order: Seq<int>)
    requires
        is_stable_order(keys, order),
    ensures
        order == stable_order(keys),
{
    lemma_stable_order(keys);
    lemma_agree_upto(keys, order, stable_order(keys), keys.len() as int);
    assert(order =~= stable_order(keys));
}

/// Joins two runs of positions, each in stable order, the first of
/// positions before the second, into one run in stable order.
fn merge(keys: &Vec<i128>, left: &Vec<usize>, right: &Vec<usize>, Ghost(from): Ghost<int>, Ghost(mid): Ghost<int>, Ghost(to): Ghost<int>) -> (out: Vec<usize>)
    requires
        0 <= from <= mid <= to <= keys.len(),
        ascends_between(key_values(keys@), positions(left@), from, mid),
        ascends_between(key_values(keys@), positions(right@), mid, to),
    ensures
        ascends_between(key_values(keys@), positions(out@), from, to),
{
    let ghost ks = key_values(keys@);
    let ghost l = positions(left@);
    let ghost r = positions(right@);
    let mut out: Vec<usize> = Vec::new();
    let mut i: usize = 0;
    let mut j: usize = 0;
    while i < left.len() || j < right.len()
        invariant
            0 <= from <= mid <= to <= keys.len(),
            ks == key_values(keys@),
            l == positions(left@),
            r == positions(right@),
            ascends_between(ks, l, from, mid),
            ascends_between(ks, r, mid, to),
            i <= left.len(),
            j <= right.len(),
            out.len() == i + j,
            forall|p: int| 0 <= p < out.len() ==> from <= #[trigger] positions(out@)[p] < to,
            forall|p: int, q: int|
                0 <= p < q < out.len() ==> comes_before(
                    ks,
                    #[trigger] positions(out@)[p],
                    #[trigger] positions(out@)[q],
                ),
            forall|p: int, a: int|
                0 <= p < out.len() && i <= a < l.len() ==> comes_before(
                    ks,
                    #[trigger] positions(out@)[p],
                    #[trigger] l[a],
                ),
            forall|p: int, b: int|
                0 <= p < out.len() && j <= b < r.len() ==> comes_before(
                    ks,
                    #[trigger] positions(out@)[p],
                    #[trigger] r[b],
                ),
            forall|a: int| 0 <= a < i ==> positions(out@).contains(#[trigger] l[a]),
            forall|b: int| 0 <= b < j ==> positions(out@).contains(#[trigger] r[b]),
        decreases left.len() - i + (right.len() - j),
    {
        let ghost before = positions(out@);
        let take_left = if i == left.len() {
            false
        } else if j == right.len() {
            true
        } else {
            proof {
                assert(l[i as int] == left@[i as int]);
                assert(r[j as int] == right@[j as int]);
            }
            keys[left[i]] <= keys[right[j]]
        };
        if take_left {
            let x = left[i];
            proof {
                assert(l[i as int] == x);
            }
            out.push(x);
            proof {
                let ghost now = positions(out@);
                assert(now =~= before.push(x as int));
                assert forall|p: int, a: int| 0 <= p < now.len() && i + 1 <= a < l.len() implies comes_before(
                    ks,
                    #[trigger] now[p],
                    #[trigger] l[a],
                ) by {
                    if p == now.len() - 1 {
                        assert(comes_before(ks, l[i as int], l[a]));
                    } else {
                        assert(now[p] == before[p]);
                    }
                }
                assert forall|p: int, b: int| 0 <= p < now.len() && j <= b < r.len() implies comes_before(
                    ks,
                    #[trigger] now[p],
                    #[trigger] r[b],
                ) by {
                    if p == now.len() - 1 {
                        assert(mid <= r[b]);
                        assert(l[i as int] < mid);
                        if b > j {
                            assert(comes_before(ks, r[j as int], r[b]));
                        }
                    } else {
                        assert(now[p] == before[p]);
                    }
                }
                assert forall|p: int, q: int| 0 <= p < q < now.len() implies comes_before(
                    ks,
                    #[trigger] now[p],
                    #[trigger] now[q],
                ) by {
                    if q == now.len() - 1 {
                        assert(now[p] == before[p]);
                        assert(comes_before(ks, before[p], l[i as int]));
                    } else {
                        assert(now[p] == before[p] && now[q] == before[q]);
                    }
                }
                assert forall|a: int| 0 <= a < i + 1 implies now.contains(#[trigger] l[a]) by {
                    if a == i {
                        assert(now[now.len() - 1] == l[a]);
                    } else {
                        assert(before.contains(l[a]));
                        let w = choose|w: int| 0 <= w < before.len() && before[w] == l[a];
                        assert(now[w] == l[a]);
                    }
                }
                assert forall|b: int| 0 <= b < j implies now.contains(#[trigger] r[b]) by {
                    assert(before.contains(r[b]));
                    let w = choose|w: int| 0 <= w < before.len() && before[w] == r[b];
                    assert(now[w] == r[b]);
                }
            }
            i += 1;
        } else {
            let x = right[j];
            proof {
                assert(r[j as int] == x);
            }
            out.push(x);
            proof {
                let ghost now = positions(out@);
                assert(now =~= before.push(x as int));
                assert forall|p: int, a: int| 0 <= p < now.len() && i <= a < l.len() implies comes_before(
                    ks,
                    #[trigger] now[p],
                    #[trigger] l[a],
                ) by {
                    if p == now.len() - 1 {
                        assert(l[i as int] == left@[i as int]);
                        if a > i {
                            assert(comes_before(ks, l[i as int], l[a]));
                        }
                    } else {
                        assert(now[p] == before[p]);
                    }
                }
                assert forall|p: int, b: int| 0 <= p < now.len() && j + 1 <= b < r.len() implies comes_before(
                    ks,
                    #[trigger] now[p],
                    #[trigger] r[b],
                ) by {
                    if p == now.len() - 1 {
                        assert(comes_before(ks, r[j as int], r[b]));
                    } else {
                        assert(now[p] == before[p]);
                    }
                }
                assert forall|p: int, q: int| 0 <= p < q < now.len() implies comes_before(
                    ks,
                    #[trigger] now[p],
                    #[trigger] now[q],
                ) by {
                    if q == now.len() - 1 {
                        assert(now[p] == before[p]);
                        assert(comes_before(ks, before[p], r[j as int]));
                    } else {
                        assert(now[p] == before[p] && now[q] == before[q]);
                    }
                }
                assert forall|a: int| 0 <= a < i implies now.contains(#[trigger] l[a]) by {
                    assert(before.contains(l[a]));
                    let w = choose|w: int| 0 <= w < before.len() && before[w] == l[a];
                    assert(now[w] == l[a]);
                }
                assert forall|b: int| 0 <= b < j + 1 implies now.contains(#[trigger] r[b]) by {
                    if b == j {
                        assert(now[now.len() - 1] == r[b]);
                    } else {
                        assert(before.contains(r[b]));
                        let w = choose|w: int| 0 <= w < before.len() && before[w] == r[b];
                        assert(now[w] == r[b]);
                    }
                }
            }
            j += 1;
        }
    }
    proof {
        let ghost now = positions(out@);
        assert forall|k: int| from <= k < to implies #[trigger] now.contains(k) by {
            if k < mid {
                assert(l.contains(k));
                let a = choose|a: int| 0 <= a < l.len() && l[a] == k;
                assert(now.contains(l[a]));
            } else {
                assert(r.contains(k));
                let b = choose|b: int| 0 <= b < r.len() && r[b] == k;
                assert(now.contains(r[b]));
            }
        }
    }
    out
}

/// The positions `from..to` in stable order.
fn arrange_between(keys: &Vec<i128>, from: usize, to: usize) -> (order: Vec<usize>)
    requires
        from <= to <= keys.len(),
    ensures
        ascends_between(key_values(keys@), positions(order@), from as int, to as int),
    decreases to - from,
{
    let mut order: Vec<usize> = Vec::new();
    if to - from == 0 {
        return order;
    }
    if to - from == 1 {
        order.push(from);
        proof {
            assert(positions(order@)[0] == from);
        }
        return order;
    }
    let mid = from + (to - from) / 2;
    let left = arrange_between(keys, from, mid);
    let right = arrange_between(keys, mid, to);
    merge(keys, &left, &right, Ghost(from as int), Ghost(mid as int), Ghost(to as int))
}

/// Computes the stable order of the positions of `keys`.
pub fn arrange(keys: &Vec<i128>) -> (order: Vec<usize>)
    ensures
        positions(order@) == stable_order(key_values(keys@)),
        is_stable_order(key_values(keys@), positions(order@)),
{
    let order = arrange_between(keys, 0, keys.len());
    proof {
        lemma_one_stable_order(key_values(keys@), positions(order@));
    }
    order
}

/// The keys of `keys` at the positions `order`, in that order.
pub open spec fn carried(keys: Seq<int>, order: Seq<int>) -> Seq<int> {
    Seq::new(order.len(), |p: int| keys[order[p]])
}

/// The positions in ascending order of their key in `major`, positions of
/// equal key there in ascending order of their key in `minor`, and
/// positions equal in both in input order.
pub open spec fn stable_order_by_two(major: Seq<int>, minor: Seq<int>) -> Seq<int> {
    let first = stable_order(minor);
    let second = stable_order(carried(major, first));
    Seq::new(first.len(), |p: int| first[second[p]])
}

/// Position `i` is visited before position `j` under two keys: its major
/// key is smaller; or the major keys are equal and its minor key is
/// smaller; or both are equal and `i` stands first in the input.
pub open spec fn comes_before_by_two(major: Seq<int>, minor: Seq<int>, i: int, j: int) -> bool {
    major[i] < major[j] || (major[i] == major[j] && comes_before(minor, i, j))
}

/// The order by two keys visits each position once, in ascending order of
/// the major key, then of the minor key, then of position.
pub proof fn lemma_stable_order_by_two(major: Seq<int>, minor: Seq<int>)
    requires
        major.len() == minor.len(),
    ensures
        stable_order_by_two(major, minor).len() == major.len(),
        forall|p: int|
            0 <= p < major.len() ==> 0 <= #[trigger] stable_order_by_two(major, minor)[p]
                < major.len(),
        forall|p: int, q: int|
            0 <= p < q < major.len() ==> comes_before_by_two(
                major,
                minor,
                #[trigger] stable_order_by_two(major, minor)[p],
                #[trigger] stable_order_by_two(major, minor)[q],
            ),
        forall|i: int| 0 <= i < major.len() ==> #[trigger] stable_order_by_two(major, minor).contains(i),
{
    let first = stable_order(minor);
    lemma_stable_order(minor);
    let moved = carried(major, first);
    let second = stable_order(moved);
    lemma_stable_order(moved);
    let both = stable_order_by_two(major, minor);
    assert forall|p: int, q: int| 0 <= p < q < major.len() implies comes_before_by_two(
        major,
        minor,
        #[trigger] both[p],
        #[trigger] both[q],
    ) by {
        let i = second[p];
        let j = second[q];
        assert(comes_before(moved, i, j));
        if moved[i] == moved[j] {
            assert(comes_before(minor, first[i], first[j]));
        }
    }
    assert forall|i: int| 0 <= i < major.len() implies #[trigger] both.contains(i) by {
        assert(first.contains(i));
        let a = choose|a: int| 0 <= a < first.len() && first[a] == i;
        assert(second.contains(a));
        let b = choose|b: int| 0 <= b < second.len() && second[b] == a;
        assert(both[b] == i);
    }
    assert forall|p: int| 0 <= p < major.len() implies 0 <= #[trigger] both[p] < major.len() by {
        assert(0 <= second[p] < first.len());
        assert(0 <= first[second[p]] < major.len());
    }
}

/// Computes the order of the positions by two keys.
pub fn arrange_by_two(major: &Vec<i128>, minor: &Vec<i128>) -> (order: Vec<usize>)
    requires
        major.len() == minor.len(),
    ensures
        positions(order@) == stable_order_by_two(key_values(major@), key_values(minor@)),
        order.len() == major.len(),
        forall|p: int| 0 <= p < order.len() ==> (#[trigger] order@[p]) < major.len(),
{
    let n = major.len();
    let first = arrange(minor);
    let ghost f = positions(first@);
    let mut moved: Vec<i128> = Vec::new();
    let mut p: usize = 0;
    while p < n
        invariant
            n == major.len(),
            n == first.len(),
            f == positions(first@),
            is_stable_order(key_values(minor@), f),
            n == minor.len(),
            p <= n,
            moved.len() == p,
            forall|q: int| 0 <= q < p ==> #[trigger] moved@[q] == major@[first@[q] as int],
        decreases n - p,
    {
        proof {
            assert(f[p as int] == first@[p as int]);
        }
        moved.push(major[first[p]]);
        p += 1;
    }
    proof {
        assert forall|q: int| 0 <= q < n implies key_values(moved@)[q] == carried(
            key_values(major@),
            f,
        )[q] by {
            assert(f[q] == first@[q]);
        }
        assert(key_values(moved@) =~= carried(key_values(major@), f));
    }
    let second = arrange(&moved);
    let ghost s = positions(second@);
    let mut order: Vec<usize> = Vec::new();
    let mut q: usize = 0;
    while q < n
        invariant
            n == first.len(),
            n == second.len(),
            f == positions(first@),
            s == positions(second@),
            is_stable_order(key_values(minor@), f),
            is_stable_order(key_values(moved@), s),
            n == minor.len(),
            n == moved.len(),
            n == major.len(),
            q <= n,
            order.len() == q,
            forall|r: int|
                0 <= r < q ==> #[trigger] order@[r] == first@[second@[r] as int] && order@[r] < n,
        decreases n - q,
    {
        proof {
            assert(s[q as int] == second@[q as int]);
            assert(f[second@[q as int] as int] == first@[second@[q as int] as int]);
        }
        order.push(first[second[q]]);
        q += 1;
    }
    proof {
        assert forall|r: int| 0 <= r < n implies positions(order@)[r] == stable_order_by_two(
            key_values(major@),
            key_values(minor@),
        )[r] by {
            assert(s[r] == second@[r]);
            assert(f[s[r]] == first@[s[r]]);
        }
        assert(positions(order@) =~= stable_order_by_two(key_values(major@), key_values(minor@)));
    }
    order
}

} // verus!
