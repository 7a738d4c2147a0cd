//! Small verified numeric algorithms: a table of powers, a bounded Collatz
//! probe, and the proper divisors of a number.

use vstd::prelude::*;

verus! {

/// `x` to the power `e`.
pub open spec fn upow(x: int, e: nat) -> int
    decreases e,
{
    if e == 0 {
        1
    } else {
        x * upow(x, (e - 1) as nat)
    }
}

proof fn lemma_upow_mono(x: int, a: nat, b: nat)
    requires
        x >= 1,
        a <= b,
    ensures
        1 <= upow(x, a) <= upow(x, b),
    decreases b,
{
    if a == b {
        lemma_upow_pos(x, a);
    } else {
        lemma_upow_mono(x, a, (b - 1) as nat);
        let u = upow(x, (b - 1) as nat);
        assert(x * u >= u) by (nonlinear_arith)
            requires
                x >= 1,
                u >= 1,
        ;
    }
}

proof fn lemma_upow_pos(x: int, e: nat)
    requires
        x >= 1,
    ensures
        upow(x, e) >= 1,
    decreases e,
{
    if e > 0 {
        lemma_upow_pos(x, (e - 1) as nat);
        let u = upow(x, (e - 1) as nat);
        assert(x * u >= 1) by (nonlinear_arith)
            requires
                x >= 1,
                u >= 1,
        ;
    }
}

/// The first ten powers of `x`, ascending from `x` itself. The running
/// product is multiplied once more after the last slot, so even that
/// eleventh power must fit.
pub fn fill_tab(x: u64) -> (r: [u64; 10])
    requires
        x == 0 || upow(x as int, 11) <= u64::MAX,
    ensures
        forall|i: int| 0 <= i < 10 ==> r@[i] == upow(x as int, (i + 1) as nat),
{
    let mut ret_tab: [u64; 10] = [0; 10];
    let mut tmp = x;
    let mut i: usize = 0;
    proof {
        assert(upow(x as int, 1nat) == x * upow(x as int, 0nat));
        assert(upow(x as int, 0nat) == 1);
    }
    while i < 10
        invariant
            0 <= i <= 10,
            x == 0 || upow(x as int, 11) <= u64::MAX,
            tmp == upow(x as int, (i + 1) as nat),
            forall|p: int| 0 <= p < i ==> ret_tab@[p] == upow(x as int, (p + 1) as nat),
        decreases 10 - i,
    {
        proof {
            if x >= 1 {
                lemma_upow_mono(x as int, (i + 2) as nat, 11);
                lemma_upow_pos(x as int, (i + 1) as nat);
                assert(upow(x as int, (i + 2) as nat) == x * upow(x as int, (i + 1) as nat));
            }
            if x == 0 && i == 0 {
                assert(upow(0int, 1nat) == 0);
            }
        }
        ret_tab[i] = tmp;
        tmp = tmp * x;
        i += 1;
    }
    ret_tab
}

/// One Collatz step.
pub open spec fn collatz_step(x: int) -> int {
    if x % 2 == 0 {
        x / 2
    } else {
        3 * x + 1
    }
}

/// No step within the fuel overflows a 64-bit word before the walk reaches 1.
pub open spec fn collatz_ok(x: int, fuel: nat) -> bool
    decreases fuel,
{
    fuel == 0 || (if x == 1 {
        true
    } else if x % 2 == 0 {
        collatz_ok(x / 2, (fuel - 1) as nat)
    } else {
        3 * x + 1 <= u64::MAX && collatz_ok(3 * x + 1, (fuel - 1) as nat)
    })
}

/// The walk reaches 1 within the fuel.
pub open spec fn collatz_hits_one(x: int, fuel: nat) -> bool
    decreases fuel,
{
    if fuel == 0 {
        false
    } else if x == 1 {
        true
    } else {
        collatz_hits_one(collatz_step(x), (fuel - 1) as nat)
    }
}

/// For each entry, whether its Collatz walk reaches 1 within a hundred steps.
pub fn check_collatz(tab: [u64; 10]) -> (r: [bool; 10])
    requires
        forall|i: int| 0 <= i < 10 ==> collatz_ok(tab@[i] as int, 100),
    ensures
        forall|i: int| 0 <= i < 10 ==> r@[i] == collatz_hits_one(tab@[i] as int, 100),
{
    let mut ret_tab: [bool; 10] = [false; 10];
    let mut i: usize = 0;
    while i < 10
        invariant
            0 <= i <= 10,
            forall|p: int| 0 <= p < 10 ==> collatz_ok(tab@[p] as int, 100),
            forall|p: int| 0 <= p < i ==> ret_tab@[p] == collatz_hits_one(tab@[p] as int, 100),
            forall|p: int| i <= p < 10 ==> ret_tab@[p] == false,
        decreases 10 - i,
    {
        let mut x: u64 = tab[i];
        let mut j: usize = 0;
        let mut found = false;
        while j < 100 && !found
            invariant
                0 <= j <= 100,
                found ==> collatz_hits_one(tab@[i as int] as int, 100),
                !found ==> collatz_ok(x as int, (100 - j) as nat),
                !found ==> collatz_hits_one(tab@[i as int] as int, 100) == collatz_hits_one(
                    x as int,
                    (100 - j) as nat,
                ),
            decreases 100 - j + (if found {
                0int
            } else {
                1int
            }),
        {
            if x == 1 {
                found = true;
            } else if x % 2 == 0 {
                x = x / 2;
            } else {
                x = 3 * x + 1;
            }
            j += 1;
        }
        proof {
            if !found {
                assert(!collatz_hits_one(x as int, 0));
            }
        }
        let ghost before = ret_tab@;
        ret_tab[i] = found;
        proof {
            assert(forall|p: int| 0 <= p < 10 && p != i ==> ret_tab@[p] == before[p]);
        }
        i += 1;
    }
    ret_tab
}

/// `d` divides `n`.
pub open spec fn divides(d: int, n: int) -> bool {
    exists|m: int| #[trigger] (d * m) == n && m >= 0
}

/// The divisor `d` lies strictly between 1 and `n` and has been witnessed by
/// the scan up to `i`: either `d` itself is below `i`, or some cofactor below
/// `i` pairs with it.
pub open spec fn div_found(n: u32, i: u32, d: u32) -> bool {
    &&& 2 <= d < n
    &&& divides(d as int, n as int)
    &&& (d < i || (exists|e: int| 2 <= e < i && #[trigger] (e * (d as int)) == n))
}

/// The divisors of `n` strictly between 1 and `n`, ascending.
pub fn divisors(n: u32) -> (r: Vec<u32>)
    requires
        n >= 1,
    ensures
        forall|i: int, j: int| 0 <= i < j < r@.len() ==> r@[i] < r@[j],
        forall|d: u32| r@.contains(d) <==> (2 <= d < n && divides(d as int, n as int)),
{
    let mut ret: Vec<u32> = Vec::new();
    let mut i: u32 = 2;
    loop
        invariant_except_break
            2 <= i <= 0x10000,
            n >= 1,
            forall|p: int, q: int| 0 <= p < q < ret@.len() ==> ret@[p] < ret@[q],
            forall|d: u32| #[trigger] ret@.contains(d) <==> div_found(n, i, d),
        ensures
            2 <= i <= 0x10000,
            n >= 1,
            forall|p: int, q: int| 0 <= p < q < ret@.len() ==> ret@[p] < ret@[q],
            forall|d: u32| #[trigger] ret@.contains(d) <==> div_found(n, i, d),
            i >= 0x10000 || (i as int) * (i as int) >= n,
        decreases 0x10000 - i,
    {
        if i >= 0x10000 {
            break ;
        }
        proof {
            assert((i as int) * (i as int) < 0x100000000) by (nonlinear_arith)
                requires
                    i < 0x10000,
            ;
        }
        let sq = (i as u64) * (i as u64);
        if sq >= n as u64 {
            break ;
        }
        if n % i == 0 {
            let co = n / i;
            let ghost before = ret@;
            crate::iter_algos::sorted_insert_unique(&mut ret, i);
            crate::iter_algos::sorted_insert_unique(&mut ret, co);
            proof {
                lemma_div_facts(n as int, i as int);
                assert(forall|y: u32|
                    #[trigger] ret@.contains(y) <==> (before.contains(y) || y == i || y == co));
                assert forall|d: u32| #[trigger] ret@.contains(d) <==> div_found(n, (i + 1) as u32, d)
                    by {
                    lemma_divisor_step(n, i, d, before.contains(d), ret@.contains(d), co);
                }
            }
        } else {
            proof {
                assert forall|d: u32| #[trigger] ret@.contains(d) <==> div_found(n, (i + 1) as u32, d)
                    by {
                    lemma_non_divisor_step(n, i, d, ret@.contains(d));
                }
            }
        }
        i += 1;
    }
    let ghost before_sqrt = ret@;
    let took_sqrt = if i < 0x10000 {
        proof {
            assert((i as int) * (i as int) < 0x100000000) by (nonlinear_arith)
                requires
                    i < 0x10000,
            ;
        }
        (i as u64) * (i as u64) == (n as u64)
    } else {
        false
    };
    if took_sqrt {
        crate::iter_algos::sorted_insert_unique(&mut ret, i);
        proof {
            lemma_square_root_case(n as int, i as int);
        }
    }
    proof {
        assert forall|d: u32|
            #[trigger] ret@.contains(d) <==> (div_found(n, i, d) || ((i as int) * (i as int) == n
                && i < 0x10000 && d == i)) by {
            if took_sqrt {
                assert(ret@.contains(d) <==> (before_sqrt.contains(d) || d == i));
            } else {
                assert(ret@ == before_sqrt);
            }
        }
        assert forall|d: u32|
            #[trigger] ret@.contains(d) <==> (2 <= d < n && divides(d as int, n as int)) by {
            lemma_divisors_complete(n, i, d, ret@.contains(d));
        }
    }
    ret
}

proof fn lemma_div_facts(n: int, i: int)
    requires
        n >= 1,
        2 <= i,
        i * i < n,
        n % i == 0,
    ensures
        i * (n / i) == n,
        2 <= n / i < n,
        2 <= i < n,
        divides(i, n),
        divides(n / i, n),
{
    assert(i * (n / i) == n && 2 <= n / i < n && i < n) by (nonlinear_arith)
        requires
            n >= 1,
            2 <= i,
            i * i < n,
            n % i == 0,
    ;
    let m = n / i;
    assert(divides(i, n)) by {
        assert((i * m) == n && m >= 0);
    }
    assert(divides(m, n)) by {
        assert((m * i) == n && i >= 0) by (nonlinear_arith)
            requires
                i * m == n,
                i >= 2,
                m >= 2,
        ;
    }
}

/// One scan step over a divisor: afterwards, membership means being witnessed
/// up to `i + 1`.
proof fn lemma_divisor_step(n: u32, i: u32, d: u32, was_in: bool, is_in: bool, co: u32)
    requires
        n >= 1,
        2 <= i < 0x10000,
        (i as int) * (i as int) < n,
        n as int % i as int == 0,
        co == n as int / i as int,
        was_in <==> div_found(n, i, d),
        is_in <==> (was_in || d == i || d == co),
    ensures
        is_in <==> div_found(n, (i + 1) as u32, d),
{
    lemma_div_facts(n as int, i as int);
    if is_in {
        if was_in {
            assert(div_found(n, (i + 1) as u32, d)) by {
                if !(d < i) {
                    let e = choose|e: int| 2 <= e < i && #[trigger] (e * (d as int)) == n;
                    assert(2 <= e < i + 1 && (e * (d as int)) == n);
                }
            }
        } else if d == i {
            assert(div_found(n, (i + 1) as u32, d));
        } else {
            assert(((i as int) * (d as int)) == n);
            assert(2 <= (i as int) < i + 1);
            assert(div_found(n, (i + 1) as u32, d));
        }
    }
    if div_found(n, (i + 1) as u32, d) && !is_in {
        if d < i {
            assert(div_found(n, i, d));
            assert(false);
        } else if d == i {
            assert(false);
        } else {
            let e = choose|e: int| 2 <= e < i + 1 && #[trigger] (e * (d as int)) == n;
            if e < i {
                assert(div_found(n, i, d));
                assert(false);
            } else {
                assert(e == i);
                assert(d == co) by (nonlinear_arith)
                    requires
                        (i as int) * (d as int) == n,
                        (i as int) * (co as int) == n,
                        i >= 2,
                ;
                assert(false);
            }
        }
    }
}

/// One scan step over a non-divisor: nothing new is witnessed.
proof fn lemma_non_divisor_step(n: u32, i: u32, d: u32, is_in: bool)
    requires
        n >= 1,
        2 <= i < 0x10000,
        n as int % i as int != 0,
        is_in <==> div_found(n, i, d),
    ensures
        is_in <==> div_found(n, (i + 1) as u32, d),
{
    if is_in {
        assert(div_found(n, (i + 1) as u32, d)) by {
            if !(d < i) {
                let e = choose|e: int| 2 <= e < i && #[trigger] (e * (d as int)) == n;
                assert(2 <= e < i + 1 && (e * (d as int)) == n);
            }
        }
    }
    if div_found(n, (i + 1) as u32, d) && !is_in {
        if d < i {
            assert(div_found(n, i, d));
            assert(false);
        } else if d == i {
            let m = choose|m: int| #[trigger] ((d as int) * m) == n && m >= 0;
            assert(n as int % i as int == 0) by (nonlinear_arith)
                requires
                    (i as int) * m == n,
                    m >= 0,
                    i >= 2,
            ;
            assert(false);
        } else {
            let e = choose|e: int| 2 <= e < i + 1 && #[trigger] (e * (d as int)) == n;
            if e < i {
                assert(div_found(n, i, d));
                assert(false);
            } else {
                assert(e == i);
                assert(n as int % i as int == 0) by (nonlinear_arith)
                    requires
                        (i as int) * (d as int) == n,
                        d >= 0,
                        i >= 2,
                ;
                assert(false);
            }
        }
    }
}

proof fn lemma_square_root_case(n: int, i: int)
    requires
        n >= 1,
        2 <= i,
        i * i == n,
    ensures
        divides(i, n),
        2 <= i < n,
{
    assert(divides(i, n)) by {
        assert((i * i) == n && i >= 0);
    }
    assert(i < n) by (nonlinear_arith)
        requires
            i * i == n,
            i >= 2,
    ;
}

/// Once the scan bound has passed the square root, membership is exactly
/// being a proper divisor.
proof fn lemma_divisors_complete(n: u32, i: u32, d: u32, is_in: bool)
    requires
        n >= 1,
        2 <= i <= 0x10000,
        i >= 0x10000 || (i as int) * (i as int) >= n,
        is_in <==> (div_found(n, i, d) || ((i as int) * (i as int) == n && i < 0x10000 && d == i)),
    ensures
        is_in <==> (2 <= d < n && divides(d as int, n as int)),
{
    assert((i as int) * (i as int) >= n) by (nonlinear_arith)
        requires
            i >= 0x10000 || (i as int) * (i as int) >= n,
            n <= u32::MAX,
            i >= 2,
    ;
    if is_in {
        if div_found(n, i, d) {
        } else {
            lemma_square_root_case(n as int, i as int);
        }
    }
    if 2 <= d < n && divides(d as int, n as int) && !is_in {
        let m = choose|m: int| #[trigger] ((d as int) * m) == n && m >= 0;
        assert((m * (d as int)) == n && 2 <= m < n) by (nonlinear_arith)
            requires
                (d as int) * m == n,
                2 <= d < n,
                n >= 1,
        ;
        if d < i {
            assert(div_found(n, i, d));
        } else if m < i {
            assert(exists|e: int| 2 <= e < i && #[trigger] (e * (d as int)) == n) by {
                assert((m * (d as int)) == n);
            }
            assert(div_found(n, i, d));
        } else if d == i && m == i {
            assert((i as int) * (i as int) == n);
            assert(i < 0x10000) by (nonlinear_arith)
                requires
                    (i as int) * (i as int) == n,
                    n <= u32::MAX,
                    i >= 2,
            ;
        } else {
            assert(false) by (nonlinear_arith)
                requires
                    (d as int) * m == n,
                    d >= i,
                    m >= i,
                    (d as int) > i || m > i,
                    (i as int) * (i as int) >= n,
                    i >= 2,
                    n >= 1,
            ;
        }
    }
}

} // verus!
