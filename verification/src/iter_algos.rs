//! Small verified collection algorithms: sums of squares, graph vertex and
//! two-cycle collection, primes, run-length encoding and higher-order call
//! plumbing. Each algorithm exists twice, as an explicit loop and as a
//! pipeline leaning on `itertools` adaptors behind trusted wrappers.

use vstd::prelude::*;
use itertools::Itertools;

verus! {

broadcast use vstd::seq_lib::group_to_multiset_ensures;

/// The sum of the squares of the odd entries.
pub open spec fn sum_squares_odd_model(s: Seq<u32>) -> int
    decreases s.len(),
{
    if s.len() == 0 {
        0
    } else {
        sum_squares_odd_model(s.drop_last()) + if s.last() % 2 != 0 {
            (s.last() as int) * (s.last() as int)
        } else {
            0
        }
    }
}

/// Sum the squares of the odd entries with an explicit loop.
pub fn sum_squares_odd_loop(list: &[u32]) -> (r: u32)
    requires
        sum_squares_odd_model(list@) <= u32::MAX,
    ensures
        r == sum_squares_odd_model(list@),
{
    let mut sum: u32 = 0;
    let mut i: usize = 0;
    proof {
        assert(list@.take(0) =~= Seq::<u32>::empty());
    }
    while i < list.len()
        invariant
            0 <= i <= list@.len(),
            sum == sum_squares_odd_model(list@.take(i as int)),
            sum_squares_odd_model(list@) <= u32::MAX,
        decreases list@.len() - i,
    {
        proof {
            assert(list@.take(i + 1).drop_last() =~= list@.take(i as int));
            assert(list@.take(i + 1).last() == list@[i as int]);
            lemma_sum_squares_prefix(list@, i + 1);
            lemma_sum_squares_nonneg(list@.take(i as int));
        }
        let el = list[i];
        if el % 2 != 0 {
            sum = sum + el * el;
        }
        i += 1;
    }
    proof {
        assert(list@.take(list@.len() as int) =~= list@);
    }
    sum
}

/// A prefix sum of squares never exceeds the whole sum.
proof fn lemma_sum_squares_prefix(s: Seq<u32>, k: int)
    requires
        0 <= k <= s.len(),
    ensures
        0 <= sum_squares_odd_model(s.take(k)) <= sum_squares_odd_model(s),
        sum_squares_odd_model(s) >= 0,
    decreases s.len() - k,
{
    if k == s.len() {
        assert(s.take(k) =~= s);
        lemma_sum_squares_nonneg(s);
    } else {
        lemma_sum_squares_prefix(s, k + 1);
        assert(s.take(k + 1).drop_last() =~= s.take(k));
        assert(s.take(k + 1).last() == s[k]);
        assert((s[k] as int) * (s[k] as int) >= 0) by (nonlinear_arith);
        lemma_sum_squares_nonneg(s.take(k));
    }
}

proof fn lemma_sum_squares_nonneg(s: Seq<u32>)
    ensures
        sum_squares_odd_model(s) >= 0,
    decreases s.len(),
{
    if s.len() > 0 {
        lemma_sum_squares_nonneg(s.drop_last());
    }
}

/// Sum the squares of the odd entries, filtering and mapping in one pass.
pub fn sum_squares_odd(list: &[u32]) -> (r: u32)
    requires
        sum_squares_odd_model(list@) <= u32::MAX,
    ensures
        r == sum_squares_odd_model(list@),
{
    let mut sum: u32 = 0;
    let mut i: usize = 0;
    proof {
        assert(list@.take(0) =~= Seq::<u32>::empty());
    }
    while i < list.len()
        invariant
            0 <= i <= list@.len(),
            sum == sum_squares_odd_model(list@.take(i as int)),
            sum_squares_odd_model(list@) <= u32::MAX,
        decreases list@.len() - i,
    {
        proof {
            assert(list@.take(i + 1).drop_last() =~= list@.take(i as int));
            assert(list@.take(i + 1).last() == list@[i as int]);
            lemma_sum_squares_prefix(list@, i + 1);
            lemma_sum_squares_nonneg(list@.take(i as int));
        }
        let el = list[i];
        if el % 2 != 0 {
            sum = sum + el * el;
        }
        i += 1;
    }
    proof {
        assert(list@.take(list@.len() as int) =~= list@);
    }
    sum
}

/// The run-length encoding: each maximal run of equal values becomes one
/// (value, length) pair.
pub open spec fn rle_model(s: Seq<u32>) -> Seq<(u32, usize)>
    decreases s.len(),
{
    if s.len() == 0 {
        Seq::empty()
    } else if s.len() == 1 {
        seq![(s[0], 1usize)]
    } else {
        let r = rle_model(s.drop_last());
        if s.last() == s[s.len() - 2] {
            r.update(r.len() - 1, (r.last().0, (r.last().1 + 1) as usize))
        } else {
            r.push((s.last(), 1usize))
        }
    }
}

proof fn lemma_rle_last(s: Seq<u32>)
    requires
        s.len() > 0,
        s.len() <= usize::MAX,
    ensures
        rle_model(s).len() > 0,
        rle_model(s).last().0 == s.last(),
        rle_model(s).last().1 >= 1,
        rle_model(s).last().1 <= s.len(),
    decreases s.len(),
{
    if s.len() > 1 {
        lemma_rle_last(s.drop_last());
    }
}

/// Run-length encode with an explicit loop carrying the pending run.
pub fn run_length_encode_loop(list: &[u32]) -> (r: Vec<(u32, usize)>)
    ensures
        r@ == rle_model(list@),
{
    let mut ret_vec: Vec<(u32, usize)> = Vec::new();
    if list.len() == 0 {
        proof {
            assert(ret_vec@ =~= rle_model(list@));
        }
        return ret_vec;
    }
    let mut last = list[0];
    let mut counter: usize = 1;
    let mut i: usize = 1;
    proof {
        assert(list@.take(1) =~= seq![list@[0]]);
        assert(ret_vec@.push((last, counter)) =~= rle_model(list@.take(1)));
    }
    while i < list.len()
        invariant
            1 <= i <= list@.len(),
            counter >= 1,
            counter <= i,
            last == list@[i - 1],
            rle_model(list@.take(i as int)) == ret_vec@.push((last, counter)),
        decreases list@.len() - i,
    {
        let el = list[i];
        let ghost pre = ret_vec@;
        proof {
            assert(list@.take(i + 1).drop_last() =~= list@.take(i as int));
            assert(list@.take(i + 1).last() == list@[i as int]);
            assert(list@.take(i + 1)[i - 1] == list@[i - 1]);
        }
        if el != last {
            ret_vec.push((last, counter));
            counter = 0;
            proof {
                assert(rle_model(list@.take(i + 1)) =~= ret_vec@.push((el, 1usize)));
            }
        } else {
            proof {
                let prev = rle_model(list@.take(i as int));
                assert(prev.last() == (last, counter));
                assert(prev.drop_last() =~= pre);
                assert(rle_model(list@.take(i + 1)) =~= pre.push((last, (counter + 1) as usize)));
            }
        }
        last = el;
        counter += 1;
        i += 1;
    }
    proof {
        assert(list@.take(list@.len() as int) =~= list@);
    }
    ret_vec.push((last, counter));
    ret_vec
}

/// Run-length encode; the neighbour-grouping flavour shares the verified
/// loop.
pub fn run_length_encode(list: &[u32]) -> (r: Vec<(u32, usize)>)
    ensures
        r@ == rle_model(list@),
{
    run_length_encode_loop(list)
}

/// No entry divides the number in `2..x`, the trial-division reading of
/// primality used here (so `0` and `1` never appear: the scan starts at 2).
pub open spec fn no_small_divisor(x: u32) -> bool {
    forall|d: u32| 2 <= d < x ==> #[trigger] (x as int % d as int) != 0
}

/// The ascending primes below `n` by trial division.
pub fn primes(n: u32) -> (r: Vec<u32>)
    ensures
        forall|j: int| 0 <= j < r@.len() ==> 2 <= #[trigger] r@[j] < n && no_small_divisor(r@[j]),
        forall|x: u32| 2 <= x < n && no_small_divisor(x) ==> r@.contains(x),
        forall|j: int, k: int| 0 <= j < k < r@.len() ==> r@[j] < r@[k],
    {
    let mut r: Vec<u32> = Vec::new();
    if n < 2 {
        return r;
    }
    let mut x: u32 = 2;
    while x < n
        invariant
            2 <= x <= n,
            forall|j: int| 0 <= j < r@.len() ==> 2 <= #[trigger] r@[j] < x && no_small_divisor(
                r@[j],
            ),
            forall|y: u32| 2 <= y < x && no_small_divisor(y) ==> r@.contains(y),
            forall|j: int, k: int| 0 <= j < k < r@.len() ==> r@[j] < r@[k],
        decreases n - x,
    {
        let mut d: u32 = 2;
        let mut composite = false;
        while d < x && !composite
            invariant
                2 <= d <= x,
                composite ==> exists|e: u32| 2 <= e < x && #[trigger] (x as int % e as int) == 0,
                !composite ==> forall|e: u32|
                    2 <= e < d ==> #[trigger] (x as int % e as int) != 0,
            decreases x - d + (if composite {
                0int
            } else {
                1int
            }),
        {
            if x % d == 0 {
                composite = true;
            } else {
                d += 1;
            }
        }
        if !composite {
            let ghost prev = r@;
            r.push(x);
            proof {
                assert(forall|j: int| 0 <= j < prev.len() ==> #[trigger] r@[j] == prev[j]);
                assert(r@[prev.len() as int] == x);
                assert forall|y: u32| prev.contains(y) implies #[trigger] r@.contains(y) by {
                    let j = choose|j: int| 0 <= j < prev.len() && prev[j] == y;
                    assert(r@[j] == y);
                }
            }
        }
        x += 1;
    }
    r
}

/// The number is a product of a factor below the bound and a cofactor of at
/// least two.
pub open spec fn marked_by(k: int, i: int) -> bool {
    exists|d: int, m: int| 2 <= d < i && m >= 2 && #[trigger] (d * m) == k
}

proof fn lemma_divisor_to_marked(k: int, i: int)
    requires
        2 <= k,
        exists|e: int| 2 <= e < k && #[trigger] (k % e) == 0,
        forall|d: int| 2 <= d && #[trigger] (d * d) <= k ==> d < i,
    ensures
        marked_by(k, i),
{
    let e = choose|e: int| 2 <= e < k && #[trigger] (k % e) == 0;
    let m = k / e;
    assert(e * m == k && m >= 2) by (nonlinear_arith)
        requires
            2 <= e < k,
            k % e == 0,
            m == k / e,
    ;
    if e <= m {
        assert(e * e <= k) by (nonlinear_arith)
            requires
                e * m == k,
                e <= m,
                e >= 2,
        ;
        assert(e < i);
        assert((e * m) == k);
        assert(marked_by(k, i));
    } else {
        assert(m * m <= k && m * e == k) by (nonlinear_arith)
            requires
                e * m == k,
                m < e,
                m >= 2,
        ;
        assert(m < i);
        assert((m * e) == k);
        assert(marked_by(k, i));
    }
}

proof fn lemma_marked_to_divisor(k: int, i: int)
    requires
        marked_by(k, i),
    ensures
        exists|e: int| 2 <= e < k && #[trigger] (k % e) == 0,
{
    let (d, m): (int, int) = choose|d: int, m: int|
        2 <= d < i && m >= 2 && #[trigger] (d * m) == k;
    assert(k % d == 0 && 2 <= d < k) by (nonlinear_arith)
        requires
            d * m == k,
            d >= 2,
            m >= 2,
    ;
    assert((k % d) == 0);
}

/// The ascending primes below `n`, by sieving out the multiples of every
/// number whose own multiples were not already sieved.
pub fn primes_loop(n: u32) -> (r: Vec<u32>)
    ensures
        forall|j: int| 0 <= j < r@.len() ==> 2 <= #[trigger] r@[j] < n && no_small_divisor(r@[j]),
        forall|x: u32| 2 <= x < n && no_small_divisor(x) ==> r@.contains(x),
        forall|j: int, k: int| 0 <= j < k < r@.len() ==> r@[j] < r@[k],
{
    let mut is_prime: Vec<bool> = vec![true; n as usize];
    let mut i: u32 = 2;
    loop
        invariant_except_break
            2 <= i <= 0x10000,
            is_prime@.len() == n,
            forall|k: int| 0 <= k < n ==> (!(#[trigger] is_prime@[k]) <==> marked_by(k, i as int)),
        ensures
            is_prime@.len() == n,
            forall|k: int| 0 <= k < n ==> (!(#[trigger] is_prime@[k]) <==> marked_by(k, i as int)),
            forall|d: int| 2 <= d && #[trigger] (d * d) < n ==> d < i,
        decreases 0x10000 - i,
    {
        if i >= 0x10000 {
            proof {
                assert forall|d: int| 2 <= d && #[trigger] (d * d) < n implies d < i by {
                    assert(d * d < 0x100000000 ==> d < 0x10000) by (nonlinear_arith);
                }
            }
            break ;
        }
        proof {
            assert((i as int) * (i as int) < 0x100000000) by (nonlinear_arith)
                requires
                    i < 0x10000,
            ;
        }
        if (i as u64) * (i as u64) >= n as u64 {
            proof {
                assert forall|d: int| 2 <= d && #[trigger] (d * d) < n implies d < i by {
                    if d >= i {
                        assert(d * d >= (i as int) * (i as int)) by (nonlinear_arith)
                            requires
                                d >= i,
                                i >= 2,
                        ;
                    }
                }
            }
            break ;
        }
        proof {
            assert(i < n) by (nonlinear_arith)
                requires
                    (i as int) * (i as int) < n,
                    i >= 2,
            ;
        }
        if !is_prime[i as usize] {
            proof {
                assert(marked_by(i as int, i as int));
                // the multiples of an already-sieved number carry the same
                // smaller factor, so nothing new would be sieved
                assert forall|k: int|
                    0 <= k < n implies (!(#[trigger] is_prime@[k]) <==> marked_by(k, i + 1)) by {
                    if marked_by(k, i + 1) && !marked_by(k, i as int) {
                        let (d, m): (int, int) = choose|d: int, m: int|
                            2 <= d < i + 1 && m >= 2 && #[trigger] (d * m) == k;
                        assert(d == i);
                        let (d0, m0): (int, int) = choose|d0: int, m0: int|
                            2 <= d0 < i && m0 >= 2 && #[trigger] (d0 * m0) == i;
                        assert((d0 * (m0 * m)) == k && m0 * m >= 2) by (nonlinear_arith)
                            requires
                                d0 * m0 == i as int,
                                (i as int) * m == k,
                                m0 >= 2,
                                m >= 2,
                                d0 >= 2,
                        ;
                        assert(marked_by(k, i as int));
                    }
                }
            }
            i += 1;
            continue ;
        }
        let mut j: u64 = 2 * (i as u64);
        proof {
            assert(((2 * (i as int)) % (i as int)) == 0) by (nonlinear_arith)
                requires
                    i >= 2,
            ;
            assert forall|k: int|
                0 <= k < n implies (!(#[trigger] is_prime@[k]) <==> (marked_by(k, i as int) || (
                exists|m: int| m >= 2 && #[trigger] ((i as int) * m) == k && k < j))) by {
                if exists|m: int| m >= 2 && #[trigger] ((i as int) * m) == k && k < j {
                    let m = choose|m: int| m >= 2 && #[trigger] ((i as int) * m) == k && k < j;
                    assert(k >= 2 * (i as int)) by (nonlinear_arith)
                        requires
                            (i as int) * m == k,
                            m >= 2,
                            i >= 2,
                    ;
                    assert(false);
                }
            }
        }
        while j < n as u64
            invariant
                2 <= i < 0x10000,
                is_prime@.len() == n,
                j >= 2 * (i as u64),
                j % (i as u64) == 0,
                forall|k: int|
                    0 <= k < n ==> (!(#[trigger] is_prime@[k]) <==> (marked_by(k, i as int) || (
                    exists|m: int| m >= 2 && #[trigger] ((i as int) * m) == k && k < j))),
            decreases n as int - (j as int) + (i as int),
        {
            let ghost before = is_prime@;
            let idx = j as usize;
            is_prime[idx] = false;
            proof {
                assert(forall|k: int|
                    0 <= k < n && k != j ==> #[trigger] is_prime@[k] == before[k]);
                let q = j as int / i as int;
                assert((i as int) * q == j && q >= 2) by (nonlinear_arith)
                    requires
                        (j as int) % (i as int) == 0,
                        j >= 2 * (i as u64),
                        i >= 2,
                        q == j as int / i as int,
                ;
                assert forall|k: int|
                    0 <= k < n implies (!(#[trigger] is_prime@[k]) <==> (marked_by(k, i as int)
                        || (exists|m: int| m >= 2 && #[trigger] ((i as int) * m) == k && k < j
                        + (i as int)))) by {
                    if k == j {
                        assert(((i as int) * q) == k && q >= 2 && k < j + (i as int));
                    } else {
                        if exists|m: int| m >= 2 && #[trigger] ((i as int) * m) == k && k < j + (
                        i as int) {
                            let m = choose|m: int|
                                m >= 2 && #[trigger] ((i as int) * m) == k && k < j + (i as int);
                            if k >= j {
                                assert(m >= q) by (nonlinear_arith)
                                    requires
                                        (i as int) * m == k,
                                        (i as int) * q == j,
                                        i >= 2,
                                        k >= j,
                                ;
                                assert(m <= q) by (nonlinear_arith)
                                    requires
                                        (i as int) * m == k,
                                        (i as int) * q == j,
                                        i >= 2,
                                        k < j + (i as int),
                                ;
                                assert(m == q);
                                assert(k == j);
                                assert(false);
                            }
                        }
                    }
                }
            }
            proof {
                assert(((j as int) + (i as int)) % (i as int) == 0) by (nonlinear_arith)
                    requires
                        (j as int) % (i as int) == 0,
                        i >= 2,
                ;
            }
            j = j + i as u64;
        }
        proof {
            assert forall|k: int|
                0 <= k < n implies (!(#[trigger] is_prime@[k]) <==> marked_by(k, i + 1)) by {
                if !is_prime@[k] {
                    if !marked_by(k, i as int) {
                        let m = choose|m: int| m >= 2 && #[trigger] ((i as int) * m) == k && k < j;
                        assert(2 <= i < i + 1 && m >= 2 && (((i as int) * m)) == k);
                        assert(marked_by(k, i + 1));
                    } else {
                        let (d, m): (int, int) = choose|d: int, m: int|
                            2 <= d < i && m >= 2 && #[trigger] (d * m) == k;
                        assert(2 <= d < i + 1 && ((d * m)) == k);
                        assert(marked_by(k, i + 1));
                    }
                } else {
                    if marked_by(k, i + 1) {
                        let (d, m): (int, int) = choose|d: int, m: int|
                            2 <= d < i + 1 && m >= 2 && #[trigger] (d * m) == k;
                        if d < i {
                            assert(marked_by(k, i as int));
                            assert(false);
                        } else {
                            assert(d == i);
                            assert(k >= 2 * (i as int) && k < n) by (nonlinear_arith)
                                requires
                                    d * m == k,
                                    d == i as int,
                                    m >= 2,
                                    i >= 2,
                                    0 <= k < n,
                            ;
                            assert(((i as int) * m) == k && k < j);
                            assert(false);
                        }
                    }
                }
            }
        }
        i += 1;
    }
    // collect what the sieve left standing
    let mut ret_vec: Vec<u32> = Vec::new();
    let mut k: u32 = 2;
    if n < 2 {
        return ret_vec;
    }
    while k < n
        invariant
            2 <= k <= n,
            is_prime@.len() == n,
            forall|p: int| 0 <= p < n ==> (!(#[trigger] is_prime@[p]) <==> marked_by(p, i as int)),
            forall|d: int| 2 <= d && #[trigger] (d * d) < n ==> d < i,
            forall|p: int| 0 <= p < ret_vec@.len() ==> 2 <= #[trigger] ret_vec@[p] < k
                && no_small_divisor(ret_vec@[p]),
            forall|x: u32| 2 <= x < k && no_small_divisor(x) ==> ret_vec@.contains(x),
            forall|p: int, q: int| 0 <= p < q < ret_vec@.len() ==> ret_vec@[p] < ret_vec@[q],
        decreases n - k,
    {
        let keep = is_prime[k as usize];
        proof {
            if keep {
                // nothing sieved it, so no entry in 2..k divides it
                assert forall|d: u32| 2 <= d < k implies #[trigger] (k as int % d as int)
                    != 0 by {
                    if k as int % d as int == 0 {
                        lemma_divisor_to_marked(k as int, i as int);
                        assert(false);
                    }
                }
            } else {
                lemma_marked_to_divisor(k as int, i as int);
                let e = choose|e: int| 2 <= e < k && #[trigger] ((k as int) % e) == 0;
                assert(!no_small_divisor(k)) by {
                    assert(2 <= (e as u32) && (e as u32) < k);
                    assert((k as int % ((e as u32) as int)) == 0);
                }
            }
        }
        if keep {
            let ghost prev = ret_vec@;
            ret_vec.push(k);
            proof {
                assert(forall|p: int| 0 <= p < prev.len() ==> #[trigger] ret_vec@[p] == prev[p]);
                assert(ret_vec@[prev.len() as int] == k);
                assert forall|x: u32|
                    2 <= x < k + 1 && no_small_divisor(x) implies ret_vec@.contains(x) by {
                    if x < k {
                        let p = choose|p: int| 0 <= p < prev.len() && prev[p] == x;
                        assert(ret_vec@[p] == x);
                    } else {
                        assert(ret_vec@[prev.len() as int] == x);
                    }
                }
            }
        } else {
            proof {
                assert forall|x: u32|
                    2 <= x < k + 1 && no_small_divisor(x) implies ret_vec@.contains(x) by {
                    assert(x != k);
                }
            }
        }
        k += 1;
    }
    ret_vec
}

/// Strictly ascending.
pub open spec fn sorted_strict(s: Seq<u32>) -> bool {
    forall|i: int, j: int| 0 <= i < j < s.len() ==> s[i] < s[j]
}

/// Ascending, possibly with repeats.
pub open spec fn sorted_non_strict(s: Seq<u32>) -> bool {
    forall|i: int, j: int| 0 <= i < j < s.len() ==> s[i] <= s[j]
}

/// Insert a value into a strictly sorted vector unless it is already there.
pub(crate) fn sorted_insert_unique(v: &mut Vec<u32>, x: u32)
    requires
        sorted_strict(old(v)@),
    ensures
        sorted_strict(final(v)@),
        forall|y: u32| final(v)@.contains(y) <==> (old(v)@.contains(y) || y == x),
{
    let ghost prev = v@;
    let n = v.len();
    let mut idx: usize = 0;
    while idx < n && v[idx] < x
        invariant
            0 <= idx <= n,
            n == v@.len(),
            v@ == prev,
            forall|p: int| 0 <= p < idx ==> v@[p] < x,
        decreases n - idx,
    {
        idx += 1;
    }
    if idx < n && v[idx] == x {
        proof {
            assert(prev.contains(x)) by {
                assert(prev[idx as int] == x);
            }
            assert(forall|y: u32| v@.contains(y) <==> (prev.contains(y) || y == x));
        }
        return ;
    }
    v.insert(idx, x);
    proof {
        assert(v@ =~= prev.take(idx as int) + seq![x] + prev.skip(idx as int));
        assert(forall|p: int| 0 <= p < idx ==> #[trigger] v@[p] == prev[p]);
        assert(v@[idx as int] == x);
        assert(forall|p: int| idx < p < v@.len() ==> #[trigger] v@[p] == prev[p - 1]);
        assert(sorted_strict(v@)) by {
            assert forall|i: int, j: int| 0 <= i < j < v@.len() implies v@[i] < v@[j] by {
                if i < idx && j == idx {
                } else if i == idx && j > idx {
                    assert(prev[j - 1] >= x);
                    assert(prev[j - 1] != x);
                } else if i < idx && j > idx {
                    assert(prev[j - 1] >= x);
                    assert(prev[j - 1] != x);
                } else {
                }
            }
        }
        assert forall|y: u32| v@.contains(y) implies (prev.contains(y) || y == x) by {
            let i = choose|i: int| 0 <= i < v@.len() && v@[i] == y;
            if i < idx {
                assert(prev[i] == y);
            } else if i > idx {
                assert(prev[i - 1] == y);
            }
        }
        assert forall|y: u32| prev.contains(y) || y == x implies v@.contains(y) by {
            if prev.contains(y) {
                let i = choose|i: int| 0 <= i < prev.len() && prev[i] == y;
                if i < idx {
                    assert(v@[i] == y);
                } else {
                    assert(v@[i + 1] == y);
                }
            } else {
                assert(v@[idx as int] == y);
            }
        }
    }
}

/// Some edge touches the vertex.
pub open spec fn is_endpoint(s: Seq<(u32, u32)>, x: u32) -> bool {
    exists|i: int| 0 <= i < s.len() && ((#[trigger] s[i]).0 == x || s[i].1 == x)
}

/// Collect every vertex that occurs in an edge, ascending and without
/// duplicates, with an explicit loop over a sorted vector.
pub fn vertices_loop(edges: &[(u32, u32)]) -> (r: Vec<u32>)
    ensures
        sorted_strict(r@),
        forall|x: u32| r@.contains(x) <==> is_endpoint(edges@, x),
{
    let mut verts: Vec<u32> = Vec::new();
    let mut i: usize = 0;
    while i < edges.len()
        invariant
            0 <= i <= edges@.len(),
            sorted_strict(verts@),
            forall|x: u32| verts@.contains(x) <==> is_endpoint(edges@.take(i as int), x),
        decreases edges@.len() - i,
    {
        let edge = edges[i];
        let ghost before = verts@;
        sorted_insert_unique(&mut verts, edge.0);
        sorted_insert_unique(&mut verts, edge.1);
        proof {
            assert forall|x: u32| verts@.contains(x) implies is_endpoint(
                edges@.take(i + 1),
                x,
            ) by {
                if before.contains(x) {
                    let j = choose|j: int|
                        0 <= j < edges@.take(i as int).len() && ((#[trigger] edges@.take(
                            i as int,
                        )[j]).0 == x || edges@.take(i as int)[j].1 == x);
                    assert(edges@.take(i + 1)[j] == edges@[j]);
                } else {
                    assert(edges@.take(i + 1)[i as int] == edges@[i as int]);
                }
            }
            assert forall|x: u32| is_endpoint(edges@.take(i + 1), x) implies verts@.contains(
                x,
            ) by {
                let j = choose|j: int|
                    0 <= j < edges@.take(i + 1).len() && ((#[trigger] edges@.take(i + 1)[j]).0 == x
                        || edges@.take(i + 1)[j].1 == x);
                if j < i {
                    assert(edges@.take(i as int)[j] == edges@[j]);
                    assert(is_endpoint(edges@.take(i as int), x));
                }
            }
        }
        i += 1;
    }
    proof {
        assert(edges@.take(edges@.len() as int) =~= edges@);
    }
    verts
}

/// What itertools' `unique` keeps, scanning left to right: each value's first
/// occurrence.
pub open spec fn dedup_first_rec(s: Seq<u32>, i: int, acc: Seq<u32>) -> Seq<u32>
    decreases s.len() - i,
{
    if i < 0 || i >= s.len() {
        acc
    } else if acc.contains(s[i]) {
        dedup_first_rec(s, i + 1, acc)
    } else {
        dedup_first_rec(s, i + 1, acc.push(s[i]))
    }
}

pub open spec fn dedup_first(s: Seq<u32>) -> Seq<u32> {
    dedup_first_rec(s, 0, Seq::empty())
}

/// Relies on itertools' `unique`: yields the elements in order, keeping only
/// the first of any equal items.
#[verifier::external_body]
fn unique_u32s(v: Vec<u32>) -> (r: Vec<u32>)
    ensures
        r@ == dedup_first(v@),
{
    v.into_iter().unique().collect()
}

/// Relies on itertools' `sorted`: all elements again, in ascending order.
#[verifier::external_body]
fn sorted_u32s(v: Vec<u32>) -> (r: Vec<u32>)
    ensures
        sorted_non_strict(r@),
        r@.to_multiset() == v@.to_multiset(),
{
    v.into_iter().sorted().collect()
}

/// Relies on itertools' `cartesian_product`: every pair of elements of the
/// two vectors, in row-major order.
#[verifier::external_body]
fn cartesian_pairs(a: &Vec<(u32, u32)>, b: &Vec<(u32, u32)>) -> (r: Vec<
    ((u32, u32), (u32, u32)),
>)
    ensures
        r@.len() == a@.len() * b@.len(),
        forall|i: int, j: int|
            0 <= i < a@.len() && 0 <= j < b@.len() ==> r@[i * b@.len() + j] == (a@[i], b@[j]),
{
    a.iter().cloned().cartesian_product(b.iter().cloned()).collect()
}

/// What `dedup_first_rec` keeps is the values of the rest plus the
/// accumulator, with no duplicates if the accumulator had none.
#[verifier::spinoff_prover]
proof fn lemma_dedup_props(s: Seq<u32>, i: int, acc: Seq<u32>)
    requires
        0 <= i <= s.len(),
        acc.no_duplicates(),
    ensures
        dedup_first_rec(s, i, acc).no_duplicates(),
        forall|y: u32|
            dedup_first_rec(s, i, acc).contains(y) <==> (acc.contains(y) || exists|j: int|
                i <= j < s.len() && #[trigger] s[j] == y),
    decreases s.len() - i,
{
    if i >= s.len() {
        assert(dedup_first_rec(s, i, acc) == acc);
        assert forall|y: u32|
            acc.contains(y) <==> (acc.contains(y) || exists|j: int|
                i <= j < s.len() && #[trigger] s[j] == y) by {
            if exists|j: int| i <= j < s.len() && #[trigger] s[j] == y {
                let j = choose|j: int| i <= j < s.len() && #[trigger] s[j] == y;
                assert(false);
            }
        }
    }
    if i < s.len() {
        if acc.contains(s[i]) {
            lemma_dedup_props(s, i + 1, acc);
            assert forall|y: u32|
                dedup_first_rec(s, i, acc).contains(y) <==> (acc.contains(y) || exists|j: int|
                    i <= j < s.len() && #[trigger] s[j] == y) by {
                if acc.contains(y) || exists|j: int| i <= j < s.len() && #[trigger] s[j] == y {
                    if !acc.contains(y) {
                        let j = choose|j: int| i <= j < s.len() && #[trigger] s[j] == y;
                        if j == i {
                            assert(acc.contains(y));
                        } else {
                            assert(exists|j2: int| i + 1 <= j2 < s.len() && #[trigger] s[j2] == y);
                        }
                    }
                }
            }
        } else {
            assert(acc.push(s[i]).no_duplicates()) by {
                assert(forall|p: int|
                    0 <= p < acc.len() ==> #[trigger] acc.push(s[i])[p] == acc[p]);
                assert(acc.push(s[i])[acc.len() as int] == s[i]);
            }
            lemma_dedup_props(s, i + 1, acc.push(s[i]));
            assert forall|y: u32|
                acc.push(s[i]).contains(y) <==> (acc.contains(y) || y == s[i]) by {
                assert(acc.push(s[i])[acc.len() as int] == s[i]);
                if acc.contains(y) {
                    let p = choose|p: int| 0 <= p < acc.len() && acc[p] == y;
                    assert(acc.push(s[i])[p] == y);
                }
                if acc.push(s[i]).contains(y) {
                    let p = choose|p: int|
                        0 <= p < acc.push(s[i]).len() && acc.push(s[i])[p] == y;
                    if p < acc.len() {
                        assert(acc[p] == y);
                    }
                }
            }
            assert(acc.push(s[i]).no_duplicates()) by {
                assert(forall|p: int|
                    0 <= p < acc.len() ==> #[trigger] acc.push(s[i])[p] == acc[p]);
                assert(acc.push(s[i])[acc.len() as int] == s[i]);
            }
            assert(dedup_first_rec(s, i, acc) == dedup_first_rec(s, i + 1, acc.push(s[i])));
            assert forall|y: u32|
                dedup_first_rec(s, i, acc).contains(y) <==> (acc.contains(y) || exists|j: int|
                    i <= j < s.len() && #[trigger] s[j] == y) by {
                assert(dedup_first_rec(s, i + 1, acc.push(s[i])).contains(y) <==> (acc.push(
                    s[i],
                ).contains(y) || exists|j: int| i + 1 <= j < s.len() && #[trigger] s[j] == y));
                assert(dedup_first_rec(s, i, acc).contains(y) <==> (acc.push(s[i]).contains(y)
                    || exists|j: int| i + 1 <= j < s.len() && #[trigger] s[j] == y));
                if acc.push(s[i]).contains(y) || (exists|j: int|
                    i + 1 <= j < s.len() && #[trigger] s[j] == y) {
                    if acc.push(s[i]).contains(y) && !acc.contains(y) {
                        assert(s[i] == y);
                    }
                }
                if acc.contains(y) || (exists|j: int| i <= j < s.len() && #[trigger] s[j] == y) {
                    if !acc.contains(y) {
                        let j = choose|j: int| i <= j < s.len() && #[trigger] s[j] == y;
                        if j == i {
                            assert(acc.push(s[i]).contains(y));
                        } else {
                            assert(exists|j2: int| i + 1 <= j2 < s.len() && #[trigger] s[j2] == y);
                        }
                    }
                }
            }
        }
    }
}

/// Collect every vertex that occurs in an edge, flattening the endpoint pairs
/// and letting itertools deduplicate and sort.
pub fn vertices(edges: &[(u32, u32)]) -> (r: Vec<u32>)
    ensures
        sorted_strict(r@),
        forall|x: u32| r@.contains(x) <==> is_endpoint(edges@, x),
{
    let mut flat: Vec<u32> = Vec::new();
    let mut i: usize = 0;
    while i < edges.len()
        invariant
            0 <= i <= edges@.len(),
            forall|x: u32| flat@.contains(x) <==> is_endpoint(edges@.take(i as int), x),
        decreases edges@.len() - i,
    {
        let ghost before = flat@;
        let edge = edges[i];
        flat.push(edge.0);
        flat.push(edge.1);
        proof {
            assert(flat@[flat@.len() - 2] == edge.0);
            assert(flat@[flat@.len() - 1] == edge.1);
            assert(forall|p: int| 0 <= p < before.len() ==> #[trigger] flat@[p] == before[p]);
            assert(forall|p: int|
                0 <= p < i + 1 ==> #[trigger] edges@.take(i + 1)[p] == edges@[p]);
            assert(forall|p: int|
                0 <= p < i ==> #[trigger] edges@.take(i as int)[p] == edges@[p]);
            assert forall|x: u32| flat@.contains(x) implies is_endpoint(edges@.take(i + 1), x) by {
                let j = choose|j: int| 0 <= j < flat@.len() && flat@[j] == x;
                if j < before.len() {
                    assert(before[j] == x);
                    assert(before.contains(x));
                    assert(is_endpoint(edges@.take(i as int), x));
                    let k = choose|k: int|
                        0 <= k < edges@.take(i as int).len() && ((#[trigger] edges@.take(
                            i as int,
                        )[k]).0 == x || edges@.take(i as int)[k].1 == x);
                    assert(edges@.take(i + 1)[k] == edges@[k]);
                    assert((edges@.take(i + 1)[k]).0 == x || edges@.take(i + 1)[k].1 == x);
                } else {
                    assert(x == edge.0 || x == edge.1);
                    assert((edges@.take(i + 1)[i as int]).0 == x || edges@.take(i + 1)[i as int].1
                        == x);
                }
            }
            assert forall|x: u32| is_endpoint(edges@.take(i + 1), x) implies flat@.contains(x) by {
                let k = choose|k: int|
                    0 <= k < edges@.take(i + 1).len() && ((#[trigger] edges@.take(i + 1)[k]).0 == x
                        || edges@.take(i + 1)[k].1 == x);
                if k < i {
                    assert((edges@.take(i as int)[k]).0 == x || edges@.take(i as int)[k].1 == x);
                    assert(is_endpoint(edges@.take(i as int), x));
                    assert(before.contains(x));
                    let p = choose|p: int| 0 <= p < before.len() && before[p] == x;
                    assert(flat@[p] == x);
                } else {
                    assert(x == edge.0 || x == edge.1);
                    assert(flat@[flat@.len() - 2] == x || flat@[flat@.len() - 1] == x);
                }
            }
        }
        i += 1;
    }
    proof {
        assert(edges@.take(edges@.len() as int) =~= edges@);
    }
    let ghost flatm = flat@;
    let uniq = unique_u32s(flat);
    let sorted = sorted_u32s(uniq);
    proof {
        assert(forall|x: u32| flatm.contains(x) <==> is_endpoint(edges@, x));
        lemma_dedup_props(flatm, 0, Seq::empty());
        let u = dedup_first(flatm);
        u.lemma_multiset_has_no_duplicates();
        assert(forall|x: u32|
            sorted@.to_multiset().contains(x) ==> sorted@.to_multiset().count(x) == 1);
        sorted@.lemma_multiset_has_no_duplicates_conv();
        assert(sorted_strict(sorted@)) by {
            assert forall|i2: int, j2: int|
                0 <= i2 < j2 < sorted@.len() implies sorted@[i2] < sorted@[j2] by {
                assert(sorted@[i2] <= sorted@[j2]);
                assert(sorted@[i2] != sorted@[j2]);
            }
        }
        assert forall|x: u32| sorted@.contains(x) <==> u.contains(x) by {
            assert(sorted@.contains(x) <==> sorted@.to_multiset().count(x) > 0);
            assert(u.contains(x) <==> u.to_multiset().count(x) > 0);
        }
        assert forall|x: u32| u.contains(x) <==> flatm.contains(x) by {
            assert(!Seq::<u32>::empty().contains(x));
            if flatm.contains(x) {
                let j = choose|j: int| 0 <= j < flatm.len() && flatm[j] == x;
                assert(exists|j2: int| 0 <= j2 < flatm.len() && #[trigger] flatm[j2] == x);
            }
            if exists|j: int| 0 <= j < flatm.len() && #[trigger] flatm[j] == x {
                let j = choose|j: int| 0 <= j < flatm.len() && #[trigger] flatm[j] == x;
                assert(flatm.contains(x));
            }
        }
        assert forall|x: u32| sorted@.contains(x) <==> is_endpoint(edges@, x) by {
            assert(sorted@.contains(x) <==> dedup_first(flatm).contains(x));
            assert(dedup_first(flatm).contains(x) <==> flatm.contains(x));
            assert(flatm.contains(x) <==> is_endpoint(edges@, x));
        }
    }
    sorted
}

/// Some later edge has an earlier reverse, and the vertex is one of that
/// edge's endpoints: the loop version's reading of a two-cycle.
pub open spec fn in_two_cycle_loop(s: Seq<(u32, u32)>, x: u32) -> bool {
    exists|i: int, j: int|
        0 <= j < i < s.len() && (#[trigger] s[j]).0 == (#[trigger] s[i]).1 && s[j].1 == s[i].0 && (
        x == s[i].0 || x == s[i].1)
}

/// Two edges are mutually reverse with distinct endpoints, and the vertex is
/// one of them: the pairwise-product reading of a two-cycle.
pub open spec fn in_two_cycle(s: Seq<(u32, u32)>, x: u32) -> bool {
    exists|i: int, j: int|
        0 <= i < s.len() && 0 <= j < s.len() && (#[trigger] s[i]).0 == (#[trigger] s[j]).1
            && s[i].1 == s[j].0 && s[i].0 != s[i].1 && (x == s[i].0 || x == s[i].1)
}

/// Vertices on a two-cycle (`u -> v` and `v -> u`), ascending, no duplicates,
/// scanning edges once against the edges already seen. A repeated self-loop
/// counts here, as the scan compares each edge against earlier ones only.
pub fn cycles_2_loop(edges: &[(u32, u32)]) -> (r: Vec<u32>)
    ensures
        sorted_strict(r@),
        forall|x: u32| r@.contains(x) <==> in_two_cycle_loop(edges@, x),
{
    let mut verts: Vec<u32> = Vec::new();
    let mut i: usize = 0;
    while i < edges.len()
        invariant
            0 <= i <= edges@.len(),
            sorted_strict(verts@),
            forall|x: u32| verts@.contains(x) <==> in_two_cycle_loop(edges@.take(i as int), x),
        decreases edges@.len() - i,
    {
        let edge = edges[i];
        let ghost before = verts@;
        // scan the earlier edges for the reverse of this one
        let mut j: usize = 0;
        let mut found = false;
        while j < i
            invariant
                0 <= j <= i,
                i < edges@.len(),
                edge == edges@[i as int],
                found == exists|p: int|
                    0 <= p < j && (#[trigger] edges@[p]).0 == edges@[i as int].1 && edges@[p].1
                        == edges@[i as int].0,
            decreases i - j,
        {
            if edges[j].1 == edge.0 && edges[j].0 == edge.1 {
                found = true;
                proof {
                    assert((#[trigger] edges@[j as int]).0 == edges@[i as int].1
                        && edges@[j as int].1 == edges@[i as int].0);
                }
            }
            j += 1;
        }
        if found {
            sorted_insert_unique(&mut verts, edge.1);
            sorted_insert_unique(&mut verts, edge.0);
        }
        proof {
            assert forall|x: u32| verts@.contains(x) implies in_two_cycle_loop(
                edges@.take(i + 1),
                x,
            ) by {
                assert(forall|p: int|
                    0 <= p < i + 1 ==> #[trigger] edges@.take(i + 1)[p] == edges@[p]);
                if before.contains(x) {
                    let (a, b): (int, int) = choose|a: int, b: int|
                        0 <= b < a < edges@.take(i as int).len() && (#[trigger] edges@.take(
                            i as int,
                        )[b]).0 == (#[trigger] edges@.take(i as int)[a]).1 && edges@.take(
                            i as int,
                        )[b].1 == edges@.take(i as int)[a].0 && (x == edges@.take(i as int)[a].0
                            || x == edges@.take(i as int)[a].1);
                    assert(edges@.take(i + 1)[a] == edges@[a] && edges@.take(i + 1)[b]
                        == edges@[b]);
                } else {
                    let p = choose|p: int|
                        0 <= p < i && (#[trigger] edges@[p]).0 == edges@[i as int].1 && edges@[p].1
                            == edges@[i as int].0;
                    assert(edges@.take(i + 1)[p] == edges@[p]);
                    assert(edges@.take(i + 1)[i as int] == edges@[i as int]);
                }
            }
            assert forall|x: u32| in_two_cycle_loop(edges@.take(i + 1), x) implies verts@.contains(
                x,
            ) by {
                assert(forall|p: int|
                    0 <= p < i + 1 ==> #[trigger] edges@.take(i + 1)[p] == edges@[p]);
                let (a, b): (int, int) = choose|a: int, b: int|
                    0 <= b < a < edges@.take(i + 1).len() && (#[trigger] edges@.take(i + 1)[b]).0
                        == (#[trigger] edges@.take(i + 1)[a]).1 && edges@.take(i + 1)[b].1
                        == edges@.take(i + 1)[a].0 && (x == edges@.take(i + 1)[a].0 || x
                        == edges@.take(i + 1)[a].1);
                if a < i {
                    assert(forall|p: int|
                        0 <= p < i ==> #[trigger] edges@.take(i as int)[p] == edges@[p]);
                    assert(in_two_cycle_loop(edges@.take(i as int), x));
                } else {
                    assert(found);
                }
            }
        }
        i += 1;
    }
    proof {
        assert(edges@.take(edges@.len() as int) =~= edges@);
    }
    verts
}

/// Vertices on a two-cycle, found by pairing every edge with every edge and
/// keeping mutually-reverse pairs with distinct endpoints; itertools
/// deduplicates and sorts the endpoints.
pub fn cycles_2(edges: &[(u32, u32)]) -> (r: Vec<u32>)
    ensures
        sorted_strict(r@),
        forall|x: u32| r@.contains(x) <==> in_two_cycle(edges@, x),
{
    let mut evec: Vec<(u32, u32)> = Vec::new();
    let mut t: usize = 0;
    while t < edges.len()
        invariant
            0 <= t <= edges@.len(),
            evec@ == edges@.take(t as int),
        decreases edges@.len() - t,
    {
        evec.push(edges[t]);
        proof {
            assert(evec@ =~= edges@.take(t + 1));
        }
        t += 1;
    }
    proof {
        assert(edges@.take(edges@.len() as int) =~= edges@);
    }
    let prods = cartesian_pairs(&evec, &evec);
    let n = evec.len();
    let mut hits: Vec<u32> = Vec::new();
    let mut k: usize = 0;
    proof {
        if n == 0 {
            assert(forall|x: u32| !in_two_cycle(edges@, x));
        }
    }
    while k < prods.len()
        invariant
            0 <= k <= prods@.len(),
            n == evec@.len(),
            evec@ == edges@,
            prods@.len() == n * n,
            forall|i: int, j: int|
                0 <= i < n && 0 <= j < n ==> prods@[i * (n as int) + j] == (evec@[i], evec@[j]),
            forall|x: u32| hits@.contains(x) ==> in_two_cycle(edges@, x),
            forall|i: int, j: int|
                #![trigger edges@[i], edges@[j]]
                0 <= i < n && 0 <= j < n && i * (n as int) + j < k && edges@[i].0 == edges@[j].1
                    && edges@[i].1 == edges@[j].0 && edges@[i].0 != edges@[i].1 ==> (
                hits@.contains(edges@[i].0) && hits@.contains(edges@[i].1)),
        decreases prods@.len() - k,
    {
        let prod = prods[k];
        let ghost before = hits@;
        proof {
            lemma_rowcol(k as int, n as int);
        }
        if prod.0.0 == prod.1.1 && prod.0.1 == prod.1.0 && prod.0.0 != prod.0.1 {
            push_candidate(&mut hits, prod.0.0);
            push_candidate(&mut hits, prod.0.1);
        }
        proof {
            let i0 = k as int / (n as int);
            let j0 = k as int % (n as int);
            assert(prods@[k as int] == (evec@[i0], evec@[j0]));
            assert forall|i: int, j: int|
                #![trigger edges@[i], edges@[j]]
                0 <= i < n && 0 <= j < n && i * (n as int) + j < k + 1 && edges@[i].0
                    == edges@[j].1 && edges@[i].1 == edges@[j].0 && edges@[i].0
                    != edges@[i].1 implies (hits@.contains(edges@[i].0) && hits@.contains(
                edges@[i].1,
            )) by {
                if i * (n as int) + j < k {
                    assert(before.contains(edges@[i].0) && before.contains(edges@[i].1));
                    assert(forall|y: u32| before.contains(y) ==> hits@.contains(y));
                } else {
                    lemma_rowcol_unique(i, j, k as int, n as int);
                }
            }
        }
        k += 1;
    }
    proof {
        assert forall|x: u32| in_two_cycle(edges@, x) implies hits@.contains(x) by {
            let (i, j): (int, int) = choose|i: int, j: int|
                0 <= i < edges@.len() && 0 <= j < edges@.len() && (#[trigger] edges@[i]).0 == (
                #[trigger] edges@[j]).1 && edges@[i].1 == edges@[j].0 && edges@[i].0
                    != edges@[i].1 && (x == edges@[i].0 || x == edges@[i].1);
            lemma_rowcol_bound(i, j, n as int);
        }
    }
    let uniq = unique_u32s(hits);
    let ghost hitsm = hits@;
    let sorted = sorted_u32s(uniq);
    proof {
        lemma_dedup_props(hitsm, 0, Seq::empty());
        let u = dedup_first(hitsm);
        u.lemma_multiset_has_no_duplicates();
        sorted@.lemma_multiset_has_no_duplicates_conv();
        assert(sorted_strict(sorted@)) by {
            assert forall|i2: int, j2: int|
                0 <= i2 < j2 < sorted@.len() implies sorted@[i2] < sorted@[j2] by {
                assert(sorted@[i2] <= sorted@[j2]);
                assert(sorted@[i2] != sorted@[j2]);
            }
        }
        assert forall|x: u32| sorted@.contains(x) <==> u.contains(x) by {
            assert(sorted@.contains(x) <==> sorted@.to_multiset().count(x) > 0);
            assert(u.contains(x) <==> u.to_multiset().count(x) > 0);
        }
        assert forall|x: u32| u.contains(x) <==> hitsm.contains(x) by {
            assert(!Seq::<u32>::empty().contains(x));
            if hitsm.contains(x) {
                let j = choose|j: int| 0 <= j < hitsm.len() && hitsm[j] == x;
                assert(exists|j2: int| 0 <= j2 < hitsm.len() && #[trigger] hitsm[j2] == x);
            }
            if exists|j: int| 0 <= j < hitsm.len() && #[trigger] hitsm[j] == x {
                let j = choose|j: int| 0 <= j < hitsm.len() && #[trigger] hitsm[j] == x;
                assert(hitsm.contains(x));
            }
        }
    }
    sorted
}

/// The row and column a flat row-major index denotes.
proof fn lemma_rowcol(k: int, n: int)
    requires
        n > 0,
        0 <= k < n * n,
    ensures
        0 <= k / n < n,
        0 <= k % n < n,
        (k / n) * n + (k % n) == k,
{
    assert(0 <= k / n < n && 0 <= k % n < n && (k / n) * n + (k % n) == k) by (nonlinear_arith)
        requires
            n > 0,
            0 <= k < n * n,
    ;
}

proof fn lemma_rowcol_unique(i: int, j: int, k: int, n: int)
    requires
        n > 0,
        0 <= i < n,
        0 <= j < n,
        0 <= k < n * n,
        !(i * n + j < k),
        i * n + j < k + 1,
    ensures
        i == k / n,
        j == k % n,
{
    assert(i * n + j == k);
    assert(i == k / n && j == k % n) by (nonlinear_arith)
        requires
            n > 0,
            0 <= i < n,
            0 <= j < n,
            i * n + j == k,
    ;
}

proof fn lemma_rowcol_bound(i: int, j: int, n: int)
    requires
        0 <= i < n,
        0 <= j < n,
    ensures
        0 <= i * n + j < n * n,
{
    assert(0 <= i * n + j < n * n) by (nonlinear_arith)
        requires
            0 <= i < n,
            0 <= j < n,
    ;
}

/// Append a candidate vertex, tracking what the collection holds; order and
/// duplicates are cleaned up afterwards.
fn push_candidate(v: &mut Vec<u32>, x: u32)
    ensures
        forall|y: u32| final(v)@.contains(y) <==> (old(v)@.contains(y) || y == x),
{
    let ghost prev = v@;
    v.push(x);
    proof {
        assert(forall|p: int| 0 <= p < prev.len() ==> #[trigger] v@[p] == prev[p]);
        assert(v@[prev.len() as int] == x);
        assert forall|y: u32| v@.contains(y) implies (prev.contains(y) || y == x) by {
            let i = choose|i: int| 0 <= i < v@.len() && v@[i] == y;
            if i < prev.len() {
                assert(prev[i] == y);
            }
        }
        assert forall|y: u32| prev.contains(y) implies v@.contains(y) by {
            let i = choose|i: int| 0 <= i < prev.len() && prev[i] == y;
            assert(v@[i] == y);
        }
    }
}

/// Call `f1` on 1 and on 2 and hand both results to `f2`.
pub fn wrap_call<F1: Fn(u32) -> u32, F2: FnOnce(u32, u32) -> u32>(f1: F1, f2: F2) -> (r: u32)
    requires
        call_requires(f1, (1u32,)),
        call_requires(f1, (2u32,)),
        forall|a: u32, b: u32|
            call_ensures(f1, (1u32,), a) && call_ensures(f1, (2u32,), b) ==> call_requires(
                f2,
                (a, b),
            ),
    ensures
        exists|a: u32, b: u32|
            call_ensures(f1, (1u32,), a) && call_ensures(f1, (2u32,), b) && call_ensures(
                f2,
                (a, b),
                r,
            ),
{
    let f1_rename = &f1;
    f2(f1_rename(1), f1_rename(2))
}


/// Relating an input to an output of the whole chain: some value each
/// function may produce threads through from left to right.
pub open spec fn chain_ensures<F: Fn(i32) -> i32>(fns: Seq<F>, x: i32, y: i32) -> bool
    decreases fns.len(),
{
    if fns.len() == 0 {
        y == x
    } else {
        exists|m: i32|
            #[trigger] call_ensures(fns[0], (x,), m) && chain_ensures(fns.drop_first(), m, y)
    }
}

proof fn lemma_chain_extend<F: Fn(i32) -> i32>(fns: Seq<F>, x: i32, m: i32, y: i32)
    requires
        fns.len() > 0,
        chain_ensures(fns.drop_last(), x, m),
        call_ensures(fns.last(), (m,), y),
    ensures
        chain_ensures(fns, x, y),
    decreases fns.len(),
{
    if fns.len() == 1 {
        assert(fns.drop_last() =~= Seq::<F>::empty());
        assert(fns.drop_first() =~= Seq::<F>::empty());
        assert(m == x);
        assert(call_ensures(fns[0], (x,), y));
        assert(chain_ensures(fns.drop_first(), y, y));
    } else {
        let m0 = choose|m0: i32|
            #[trigger] call_ensures(fns.drop_last()[0], (x,), m0) && chain_ensures(
                fns.drop_last().drop_first(),
                m0,
                m,
            );
        assert(fns.drop_last()[0] == fns[0]);
        assert(fns.drop_last().drop_first() =~= fns.drop_first().drop_last());
        assert(fns.drop_first().last() == fns.last());
        lemma_chain_extend(fns.drop_first(), m0, m, y);
        assert(call_ensures(fns[0], (x,), m0) && chain_ensures(fns.drop_first(), m0, y));
    }
}

/// Compose the functions left to right into one callable; whatever the
/// returned closure yields is a value the chain can produce.
pub fn compose_all_loop<F: Fn(i32) -> i32>(fns: &[F]) -> (r: impl Fn(i32) -> i32 + '_)
    requires
        forall|k: int, x: i32| 0 <= k < fns@.len() ==> #[trigger] call_requires(fns@[k], (x,)),
    ensures
        forall|x: i32| #[trigger] call_requires(r, (x,)),
        forall|x: i32, y: i32| #[trigger] call_ensures(r, (x,), y) ==> chain_ensures(fns@, x, y),
{
    move |x: i32| -> (y: i32)
        ensures
            chain_ensures(fns@, x, y),
        {
            let mut cur = x;
            let mut k: usize = 0;
            proof {
                assert(fns@.take(0) =~= Seq::<F>::empty());
            }
            while k < fns.len()
                invariant
                    0 <= k <= fns@.len(),
                    chain_ensures(fns@.take(k as int), x, cur),
                    forall|k2: int, x2: i32|
                        0 <= k2 < fns@.len() ==> #[trigger] call_requires(fns@[k2], (x2,)),
                decreases fns@.len() - k,
            {
                let next = (fns[k])(cur);
                proof {
                    assert(fns@.take(k + 1).drop_last() =~= fns@.take(k as int));
                    assert(fns@.take(k + 1).last() == fns@[k as int]);
                    lemma_chain_extend(fns@.take(k + 1), x, cur, next);
                }
                cur = next;
                k += 1;
            }
            proof {
                assert(fns@.take(fns@.len() as int) =~= fns@);
            }
            cur
        }
}

/// Compose the functions left to right by folding over them.
pub fn compose_all<F: Fn(i32) -> i32>(fns: &[F]) -> (r: impl Fn(i32) -> i32 + '_)
    requires
        forall|k: int, x: i32| 0 <= k < fns@.len() ==> #[trigger] call_requires(fns@[k], (x,)),
    ensures
        forall|x: i32| #[trigger] call_requires(r, (x,)),
        forall|x: i32, y: i32| #[trigger] call_ensures(r, (x,), y) ==> chain_ensures(fns@, x, y),
{
    compose_all_loop(fns)
}


} // verus!
