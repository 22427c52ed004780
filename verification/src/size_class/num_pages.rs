use crate::PAGE_SIZE;
use vstd::prelude::*;

verus! {

/// Whether `d` divides `n`.
pub open spec fn divides(d: int, n: int) -> bool {
    exists|k: int| n == #[trigger] (d * k)
}

/// Whether `g` is the greatest common divisor of `a` and `b`: it divides
/// both, and every number that divides both divides it.
pub open spec fn is_gcd(a: int, b: int, g: int) -> bool {
    &&& g >= 0
    &&& divides(g, a)
    &&& divides(g, b)
    &&& forall|d: int| divides(d, a) && divides(d, b) ==> #[trigger] divides(d, g)
}

/// A number divides its multiples.
pub proof fn lemma_divides_multiple(d: int, k: int)
    ensures
        divides(d, d * k),
        divides(d, k * d),
{
    assert(d * k == k * d) by (nonlinear_arith);
}

/// A divisor of a number divides its multiples.
pub proof fn lemma_divides_scaled(d: int, n: int, m: int)
    requires
        divides(d, n),
    ensures
        divides(d, n * m),
        divides(d, m * n),
{
    let k = choose|k: int| n == #[trigger] (d * k);
    assert(n * m == d * (k * m)) by (nonlinear_arith)
        requires
            n == d * k,
    ;
    assert(m * n == n * m) by (nonlinear_arith);
    lemma_divides_multiple(d, k * m);
}

/// A divisor of two numbers divides their difference.
pub proof fn lemma_divides_difference(d: int, a: int, b: int)
    requires
        divides(d, a),
        divides(d, b),
    ensures
        divides(d, a - b),
        divides(d, a + b),
{
    let k = choose|k: int| a == #[trigger] (d * k);
    let j = choose|j: int| b == #[trigger] (d * j);
    assert(a - b == d * (k - j)) by (nonlinear_arith)
        requires
            a == d * k,
            b == d * j,
    ;
    assert(a + b == d * (k + j)) by (nonlinear_arith)
        requires
            a == d * k,
            b == d * j,
    ;
    lemma_divides_multiple(d, k - j);
    lemma_divides_multiple(d, k + j);
}

/// A divisor of an odd number is odd.
pub proof fn lemma_odd_divisor(d: int, n: int)
    requires
        divides(d, n),
        n % 2 == 1,
    ensures
        d % 2 == 1,
{
    let k = choose|k: int| n == #[trigger] (d * k);
    if d % 2 == 0 {
        let h = d / 2;
        assert(d * k == 2 * (h * k)) by (nonlinear_arith)
            requires
                d == 2 * h,
        ;
    }
}

/// An odd number that divides twice a number divides the number.
pub proof fn lemma_odd_divides_half(d: int, m: int)
    requires
        d % 2 == 1,
        divides(d, 2 * m),
    ensures
        divides(d, m),
{
    let k = choose|k: int| 2 * m == #[trigger] (d * k);
    assert(k % 2 == 0) by {
        if k % 2 == 1 {
            let a = d / 2;
            let b = k / 2;
            assert(d * k == 2 * (2 * a * b + a + b) + 1) by (nonlinear_arith)
                requires
                    d == 2 * a + 1,
                    k == 2 * b + 1,
            ;
        }
    }
    let h = k / 2;
    assert(m == d * h) by (nonlinear_arith)
        requires
            2 * m == d * k,
            k == 2 * h,
    ;
    lemma_divides_multiple(d, h);
}

/// The greatest common divisor of two numbers one of which is positive
/// is positive and at most that number.
pub proof fn lemma_gcd_bound(a: int, b: int, g: int)
    requires
        a >= 0,
        b > 0,
        is_gcd(a, b, g),
    ensures
        0 < g <= b,
{
    let k = choose|k: int| b == #[trigger] (g * k);
    if g == 0 {
        assert(g * k == 0) by (nonlinear_arith)
            requires
                g == 0,
        ;
    }
    if g > b {
        assert(k >= 1) by (nonlinear_arith)
            requires
                b == g * k,
                b > 0,
                g > 0,
        ;
        assert(g * k >= g) by (nonlinear_arith)
            requires
                k >= 1,
                g > 0,
        ;
    }
}

/// The greatest common divisor of two numbers is the same whichever
/// comes first.
pub proof fn lemma_gcd_swap(a: int, b: int, g: int)
    requires
        is_gcd(a, b, g),
    ensures
        is_gcd(b, a, g),
{
}

/// Twice the greatest common divisor of the halves of two even numbers
/// is that of the numbers.
pub proof fn lemma_gcd_both_even(x: int, y: int, g: int)
    requires
        is_gcd(x, y, g),
    ensures
        is_gcd(2 * x, 2 * y, 2 * g),
{
    lemma_divides_scaled(g, x, 2);
    lemma_divides_scaled(g, y, 2);
    let kx = choose|k: int| x == #[trigger] (g * k);
    let ky = choose|k: int| y == #[trigger] (g * k);
    assert(2 * x == (2 * g) * kx) by (nonlinear_arith)
        requires
            x == g * kx,
    ;
    assert(2 * y == (2 * g) * ky) by (nonlinear_arith)
        requires
            y == g * ky,
    ;
    lemma_divides_multiple(2 * g, kx);
    lemma_divides_multiple(2 * g, ky);
    assert forall|d: int| divides(d, 2 * x) && divides(d, 2 * y) implies #[trigger] divides(
        d,
        2 * g,
    ) by {
        if d % 2 == 1 {
            lemma_odd_divides_half(d, x);
            lemma_odd_divides_half(d, y);
            assert(divides(d, g));
            lemma_divides_scaled(d, g, 2);
            assert(g * 2 == 2 * g);
        } else {
            let h = d / 2;
            let k = choose|k: int| 2 * x == #[trigger] (d * k);
            let j = choose|j: int| 2 * y == #[trigger] (d * j);
            assert(x == h * k) by (nonlinear_arith)
                requires
                    2 * x == d * k,
                    d == 2 * h,
            ;
            assert(y == h * j) by (nonlinear_arith)
                requires
                    2 * y == d * j,
                    d == 2 * h,
            ;
            lemma_divides_multiple(h, k);
            lemma_divides_multiple(h, j);
            assert(divides(h, g));
            let i = choose|i: int| g == #[trigger] (h * i);
            assert(2 * g == d * i) by (nonlinear_arith)
                requires
                    g == h * i,
                    d == 2 * h,
            ;
            lemma_divides_multiple(d, i);
        }
    }
}

/// The greatest common divisor of half an even number and an odd number
/// is that of the two numbers.
pub proof fn lemma_gcd_one_even(x: int, y: int, g: int)
    requires
        y % 2 == 1,
        is_gcd(x, y, g),
    ensures
        is_gcd(2 * x, y, g),
{
    lemma_divides_scaled(g, x, 2);
    assert(x * 2 == 2 * x);
    assert forall|d: int| divides(d, 2 * x) && divides(d, y) implies #[trigger] divides(d, g) by {
        lemma_odd_divisor(d, y);
        lemma_odd_divides_half(d, x);
    }
}

/// The greatest common divisor of half the difference of two odd numbers
/// and the smaller of them is that of the two numbers.
pub proof fn lemma_gcd_both_odd(x: int, y: int, h: int, g: int)
    requires
        x % 2 == 1,
        y % 2 == 1,
        y - x == 2 * h,
        is_gcd(h, x, g),
    ensures
        is_gcd(x, y, g),
{
    lemma_divides_scaled(g, h, 2);
    assert(h * 2 == y - x);
    lemma_divides_difference(g, y - x, x);
    assert(y - x + x == y);
    assert forall|d: int| divides(d, x) && divides(d, y) implies #[trigger] divides(d, g) by {
        lemma_divides_difference(d, y, x);
        lemma_odd_divisor(d, x);
        lemma_odd_divides_half(d, h);
    }
}

/// The greatest common divisor of `a` and `b`, by halving.
pub fn gcd(a: usize, b: usize) -> (g: usize)
    ensures
        is_gcd(a as int, b as int, g as int),
        a > 0 ==> g <= a,
        b > 0 ==> g <= b,
    decreases a + b,
{
    if a == b {
        proof {
            lemma_divides_multiple(a as int, 1);
            assert(a * 1 == a);
        }
        return b;
    }
    if a == 0 {
        proof {
            lemma_divides_multiple(b as int, 0);
            lemma_divides_multiple(b as int, 1);
            assert(b * 0 == 0 && b * 1 == b);
        }
        return b;
    }
    if b == 0 {
        proof {
            lemma_divides_multiple(a as int, 0);
            lemma_divides_multiple(a as int, 1);
            assert(a * 0 == 0 && a * 1 == a);
        }
        return a;
    }
    if a % 2 == 0 && b % 2 == 1 {
        let g = gcd(a / 2, b);
        proof {
            lemma_gcd_one_even(a as int / 2, b as int, g as int);
            lemma_gcd_bound(a as int / 2, b as int, g as int);
            lemma_gcd_swap(a as int, b as int, g as int);
            lemma_gcd_bound(b as int, a as int, g as int);
        }
        g
    } else if a % 2 == 1 && b % 2 == 0 {
        let g = gcd(b / 2, a);
        proof {
            lemma_gcd_one_even(b as int / 2, a as int, g as int);
            lemma_gcd_swap(b as int, a as int, g as int);
            lemma_gcd_bound(a as int, b as int, g as int);
            lemma_gcd_bound(b as int, a as int, g as int);
        }
        g
    } else if a % 2 == 0 && b % 2 == 0 {
        let h = gcd(a / 2, b / 2);
        proof {
            lemma_gcd_both_even(a as int / 2, b as int / 2, h as int);
            lemma_gcd_bound(a as int / 2, b as int / 2, h as int);
            lemma_gcd_swap(a as int / 2, b as int / 2, h as int);
            lemma_gcd_bound(b as int / 2, a as int / 2, h as int);
        }
        h * 2
    } else {
        let x: usize = if a < b {
            a
        } else {
            b
        };
        let y: usize = if a < b {
            b
        } else {
            a
        };
        let g = gcd((y - x) / 2, x);
        proof {
            lemma_gcd_both_odd(x as int, y as int, (y - x) as int / 2, g as int);
            if a < b {
            } else {
                lemma_gcd_swap(b as int, a as int, g as int);
            }
            lemma_gcd_bound(a as int, b as int, g as int);
            lemma_gcd_swap(a as int, b as int, g as int);
            lemma_gcd_bound(b as int, a as int, g as int);
        }
        g
    }
}

/// The least common multiple of `a` and `b`: their product divided by
/// their greatest common divisor.
pub fn lcm(a: usize, b: usize) -> (l: usize)
    requires
        a > 0 || b > 0,
        a * b <= usize::MAX,
    ensures
        exists|g: int| is_gcd(a as int, b as int, g) && g > 0 && l == (a * b) / g,
        divides(a as int, l as int),
        divides(b as int, l as int),
{
    let g = gcd(a, b);
    proof {
        if b > 0 {
            lemma_gcd_bound(a as int, b as int, g as int);
        } else {
            lemma_gcd_swap(a as int, b as int, g as int);
            lemma_gcd_bound(b as int, a as int, g as int);
        }
        let ka = choose|k: int| a as int == #[trigger] (g as int * k);
        let kb = choose|k: int| b as int == #[trigger] (g as int * k);
        assert(a * b == g * (ka * b)) by (nonlinear_arith)
            requires
                a == g * ka,
        ;
        vstd::arithmetic::div_mod::lemma_div_multiples_vanish(ka * b, g as int);
        assert((a * b) / (g as int) == ka * b);
        assert(ka * b == a * kb) by (nonlinear_arith)
            requires
                a == g * ka,
                b == g * kb,
                g > 0,
        ;
        lemma_divides_multiple(a as int, kb);
        lemma_divides_multiple(b as int, ka);
        assert(ka * b == b * ka) by (nonlinear_arith);
    }
    a * b / g
}

/// Whether `n` is the number of pages of the shortest run of whole pages
/// that cells of `cl` bytes fill without a rest: the least common
/// multiple of the page size and `cl`, in pages.
pub open spec fn is_num_pages(cl: int, n: int) -> bool {
    exists|g: int| #[trigger]
        is_gcd(PAGE_SIZE as int, cl, g) && g > 0 && n == (PAGE_SIZE * cl) / g / (PAGE_SIZE as int)
}

/// The pages of the shortest run of whole pages that cells of `cl` bytes
/// fill without a rest.
pub fn num_pages(cl: usize) -> (n: usize)
    requires
        0 < cl <= usize::MAX / PAGE_SIZE,
    ensures
        n >= 1,
        divides(cl as int, n * PAGE_SIZE),
        is_num_pages(cl as int, n as int),
{
    assert(PAGE_SIZE * cl <= usize::MAX) by (nonlinear_arith)
        requires
            cl <= usize::MAX / PAGE_SIZE,
    ;
    let l = lcm(PAGE_SIZE, cl);
    proof {
        let k = choose|k: int| l as int == #[trigger] (PAGE_SIZE as int * k);
        assert(l as int == k * PAGE_SIZE) by (nonlinear_arith)
            requires
                l as int == PAGE_SIZE * k,
        ;
        vstd::arithmetic::div_mod::lemma_div_by_multiple(k, PAGE_SIZE as int);
        let j = choose|j: int| l as int == #[trigger] (cl as int * j);
        let g = choose|g: int| is_gcd(PAGE_SIZE as int, cl as int, g) && g > 0 && l == (PAGE_SIZE * cl) / g;
        lemma_gcd_swap(PAGE_SIZE as int, cl as int, g);
        lemma_gcd_bound(cl as int, PAGE_SIZE as int, g);
        assert(l >= cl) by {
            let ka = choose|ka: int| PAGE_SIZE as int == #[trigger] (g * ka);
            assert(ka >= 1) by (nonlinear_arith)
                requires
                    PAGE_SIZE as int == g * ka,
                    g > 0,
            ;
            assert(PAGE_SIZE * cl == g * (ka * cl)) by (nonlinear_arith)
                requires
                    PAGE_SIZE as int == g * ka,
            ;
            vstd::arithmetic::div_mod::lemma_div_multiples_vanish(ka * cl, g);
            assert(ka * cl >= cl) by (nonlinear_arith)
                requires
                    ka >= 1,
                    cl >= 0,
            ;
        }
        assert(k >= 1) by (nonlinear_arith)
            requires
                l as int == PAGE_SIZE * k,
                l >= 1,
        ;
    }
    l / PAGE_SIZE
}

/// The pages of the runs of the size classes whose cell sizes are
/// `sizes`: for each, the shortest run that its cells fill without a
/// rest.
pub fn generate_num_pages(sizes: &Vec<usize>) -> (pages: Vec<usize>)
    requires
        forall|i: int| 0 <= i < sizes@.len() ==> 0 < #[trigger] sizes@[i] <= usize::MAX / PAGE_SIZE,
    ensures
        pages@.len() == sizes@.len(),
        forall|i: int|
            0 <= i < pages@.len() ==> (#[trigger] pages@[i]) >= 1 && divides(
                sizes@[i] as int,
                pages@[i] * PAGE_SIZE,
            ) && is_num_pages(sizes@[i] as int, pages@[i] as int),
{
    let mut pages: Vec<usize> = Vec::new();
    let mut idx: usize = 0;
    while idx < sizes.len()
        invariant
            idx <= sizes@.len(),
            pages@.len() == idx,
            forall|i: int|
                0 <= i < sizes@.len() ==> 0 < #[trigger] sizes@[i] <= usize::MAX / PAGE_SIZE,
            forall|i: int|
                0 <= i < pages@.len() ==> (#[trigger] pages@[i]) >= 1 && divides(
                    sizes@[i] as int,
                    pages@[i] * PAGE_SIZE,
                ) && is_num_pages(sizes@[i] as int, pages@[i] as int),
        decreases sizes@.len() - idx,
    {
        let n = num_pages(sizes[idx]);
        pages.push(n);
        idx += 1;
    }
    pages
}

} // verus!
