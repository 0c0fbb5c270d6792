use vstd::prelude::*;

verus! {

use vstd::arithmetic::power::pow;
use crate::bignat::{BigNat, Cmp, big_pow};

/// The spare prime factors allowed beside the powers of two and three.
pub open spec fn small_prime_at(i: int) -> int {
    if i == 0 {
        1
    } else if i == 1 {
        5
    } else if i == 2 {
        7
    } else {
        11
    }
}

/// A ladder size: within the range, and of the form `2^a * 3^b * p1 * p2`
/// with `a >= 2` (so divisible by four) and `p1 <= p2` drawn from
/// `{1, 5, 7, 11}` — sizes whose transform factorises over small primes.
pub open spec fn is_ladder_size(x: int, start: int, end: int) -> bool {
    &&& start <= x <= end
    &&& exists|a: nat, b: nat, i: int, j: int|
        {
            &&& 2 <= a
            &&& 0 <= i <= j < 4
            &&& x == pow(2, a) * pow(3, b) * (small_prime_at(i) * small_prime_at(j))
        }
}

/// Law: every ladder size lies in the range and is divisible by four.
pub proof fn lemma_ladder_size_in_range(x: int, start: int, end: int)
    requires
        is_ladder_size(x, start, end),
    ensures
        start <= x <= end,
        x % 4 == 0,
{
    let (a, b, i, j) = choose|a: nat, b: nat, i: int, j: int|
        {
            &&& 2 <= a
            &&& 0 <= i <= j < 4
            &&& x == pow(2, a) * pow(3, b) * (small_prime_at(i) * small_prime_at(j))
        };
    vstd::arithmetic::power::lemma_pow_adds(2, 2, (a - 2) as nat);
    vstd::arithmetic::power::lemma_pow_adds(2, 1, 1);
    vstd::arithmetic::power::lemma_pow1(2);
    assert(pow(2, 2) == 4);
    let rest = pow(2, (a - 2) as nat) * pow(3, b) * (small_prime_at(i) * small_prime_at(j));
    assert(x == 4 * rest) by (nonlinear_arith)
        requires
            x == pow(2, a) * pow(3, b) * (small_prime_at(i) * small_prime_at(j)),
            pow(2, a) == 4 * pow(2, (a - 2) as nat),
            rest == pow(2, (a - 2) as nat) * pow(3, b) * (small_prime_at(i) * small_prime_at(j)),
    ;
    vstd::arithmetic::div_mod::lemma_mod_multiples_basic(rest, 4);
    assert(x % 4 == (rest * 4) % 4);
}

/// Two factorisations over the same prime with residues coprime to it agree.
proof fn lemma_factorization_unique(f: int, k1: nat, o1: int, k2: nat, o2: int)
    requires
        f >= 2,
        o1 >= 1,
        o2 >= 1,
        o1 % f != 0,
        o2 % f != 0,
        pow(f, k1) * o1 == pow(f, k2) * o2,
    ensures
        k1 == k2,
        o1 == o2,
    decreases k1,
{
    vstd::arithmetic::power::lemma_pow0(f);
    if k1 == 0 && k2 == 0 {
        assert(o1 == o2) by (nonlinear_arith)
            requires
                pow(f, k1) * o1 == pow(f, k2) * o2,
                pow(f, k1) == 1,
                pow(f, k2) == 1,
        ;
    }
    if k1 == 0 {
        if k2 > 0 {
            vstd::arithmetic::power::lemma_pow_adds(f, 1, (k2 - 1) as nat);
            vstd::arithmetic::power::lemma_pow1(f);
            let y = pow(f, (k2 - 1) as nat) * o2;
            assert(o1 == y * f) by (nonlinear_arith)
                requires
                    o1 == pow(f, k2) * o2,
                    pow(f, k2) == f * pow(f, (k2 - 1) as nat),
                    y == pow(f, (k2 - 1) as nat) * o2,
            ;
            vstd::arithmetic::div_mod::lemma_mod_multiples_basic(y, f);
            assert(false);
        }
    } else {
        if k2 == 0 {
            vstd::arithmetic::power::lemma_pow_adds(f, 1, (k1 - 1) as nat);
            vstd::arithmetic::power::lemma_pow1(f);
            let y = pow(f, (k1 - 1) as nat) * o1;
            assert(o2 == y * f) by (nonlinear_arith)
                requires
                    o2 == pow(f, k1) * o1,
                    pow(f, k1) == f * pow(f, (k1 - 1) as nat),
                    y == pow(f, (k1 - 1) as nat) * o1,
            ;
            vstd::arithmetic::div_mod::lemma_mod_multiples_basic(y, f);
            assert(false);
        } else {
            vstd::arithmetic::power::lemma_pow_adds(f, 1, (k1 - 1) as nat);
            vstd::arithmetic::power::lemma_pow_adds(f, 1, (k2 - 1) as nat);
            vstd::arithmetic::power::lemma_pow1(f);
            assert(pow(f, (k1 - 1) as nat) * o1 == pow(f, (k2 - 1) as nat) * o2) by (
            nonlinear_arith)
                requires
                    pow(f, k1) * o1 == pow(f, k2) * o2,
                    pow(f, k1) == f * pow(f, (k1 - 1) as nat),
                    pow(f, k2) == f * pow(f, (k2 - 1) as nat),
                    f >= 2,
            ;
            lemma_factorization_unique(f, (k1 - 1) as nat, o1, (k2 - 1) as nat, o2);
        }
    }
}

/// Powers of an odd base stay coprime to two; likewise any residue coprime
/// to the base stays coprime after multiplying by such powers.
proof fn lemma_pow_coprime(f: int, b: nat, p: int, q: int)
    requires
        q == 2 || q == 3,
        f >= 1,
        f % q != 0,
        p >= 1,
        p % q != 0,
    ensures
        (pow(f, b) * p) % q != 0,
        pow(f, b) * p >= 1,
    decreases b,
{
    vstd::arithmetic::power::lemma_pow_positive(f, b);
    if b == 0 {
        vstd::arithmetic::power::lemma_pow0(f);
    } else {
        lemma_pow_coprime(f, (b - 1) as nat, p, q);
        vstd::arithmetic::power::lemma_pow_adds(f, 1, (b - 1) as nat);
        vstd::arithmetic::power::lemma_pow1(f);
        let rest = pow(f, (b - 1) as nat) * p;
        assert(pow(f, b) * p == f * rest) by (nonlinear_arith)
            requires
                pow(f, b) == f * pow(f, (b - 1) as nat),
                rest == pow(f, (b - 1) as nat) * p,
        ;
        vstd::arithmetic::div_mod::lemma_mul_mod_noop_general(f, rest, q);
        assert((f * rest) % q == ((f % q) * (rest % q)) % q);
        assert(rest % q != 0);
        vstd::arithmetic::div_mod::lemma_mod_bound(f, q);
        vstd::arithmetic::div_mod::lemma_mod_bound(rest, q);
        if ((f % q) * (rest % q)) % q == 0 {
            // a product of two nonzero residues cannot vanish modulo a
            // prime; here q is 2 or 3, so check directly over the residues
            let fr = f % q;
            let rr = rest % q;
            assert(fr * rr % q != 0) by (nonlinear_arith)
                requires
                    (q == 2 || q == 3),
                    1 <= fr < q,
                    1 <= rr < q,
            ;
            assert(false);
        }
        assert(pow(f, b) * p >= 1) by (nonlinear_arith)
            requires
                pow(f, b) >= 1,
                p >= 1,
        ;
    }
}

/// Divide every factor `f` out of `x`: afterwards `x == f^k * r` with `f`
/// no longer dividing `r`.
fn strip_factor(x: u64, f: u64) -> (res: (u32, u64))
    requires
        x >= 1,
        2 <= f,
    ensures
        ({
            let (k, r) = res;
            &&& x as int == pow(f as int, k as nat) * r
            &&& r % f != 0
            &&& 1 <= r <= x
        }),
{
    let mut k: u32 = 0;
    let mut cur = x;
    proof {
        vstd::arithmetic::power::lemma_pow0(f as int);
        vstd::arithmetic::power::lemma_pow0(2);
    }
    while cur % f == 0
        invariant
            2 <= f,
            1 <= cur <= x,
            x as int == pow(f as int, k as nat) * cur,
            pow(2, k as nat) <= x,
        decreases cur,
    {
        proof {
            vstd::arithmetic::div_mod::lemma_fundamental_div_mod(cur as int, f as int);
            assert(cur / f >= 1 && cur / f < cur) by (nonlinear_arith)
                requires
                    cur as int == (f as int) * (cur as int / f as int),
                    2 <= f,
                    1 <= cur,
            ;
        }
        let next = cur / f;
        proof {
            vstd::arithmetic::power::lemma_pow_adds(f as int, 1, k as nat);
            vstd::arithmetic::power::lemma_pow1(f as int);
            assert(x as int == pow(f as int, (k + 1) as nat) * next) by (nonlinear_arith)
                requires
                    x as int == pow(f as int, k as nat) * cur,
                    cur as int == (f as int) * next,
                    pow(f as int, (k + 1) as nat) == (f as int) * pow(f as int, k as nat),
            ;
            vstd::arithmetic::power::lemma_pow_adds(2, 1, k as nat);
            vstd::arithmetic::power::lemma_pow1(2);
            vstd::arithmetic::power::lemma_pow_positive(2, k as nat);
            assert(pow(2, k as nat) <= pow(f as int, k as nat)) by {
                lemma_pow_base_le(2, f as int, k as nat);
            }
            assert(pow(2, (k + 1) as nat) <= pow(f as int, (k + 1) as nat) * next) by (
            nonlinear_arith)
                requires
                    pow(2, (k + 1) as nat) == 2 * pow(2, k as nat),
                    pow(f as int, (k + 1) as nat) == (f as int) * pow(f as int, k as nat),
                    pow(2, k as nat) <= pow(f as int, k as nat),
                    1 <= pow(2, k as nat),
                    2 <= f,
                    1 <= next,
            ;
            assert(k < 64) by {
                vstd::arithmetic::power2::lemma2_to64();
                vstd::arithmetic::power2::lemma_pow2(64);
                if k >= 64 {
                    vstd::arithmetic::power::lemma_pow_increases(2, 64, k as nat);
                    assert(pow(2, k as nat) >= pow(2, 64));
                }
            }
        }
        cur = next;
        k = k + 1;
    }
    (k, cur)
}

/// Bases compare as their powers do.
proof fn lemma_pow_base_le(a: int, b: int, e: nat)
    requires
        1 <= a <= b,
    ensures
        pow(a, e) <= pow(b, e),
    decreases e,
{
    if e == 0 {
        vstd::arithmetic::power::lemma_pow0(a);
        vstd::arithmetic::power::lemma_pow0(b);
    } else {
        lemma_pow_base_le(a, b, (e - 1) as nat);
        vstd::arithmetic::power::lemma_pow_adds(a, 1, (e - 1) as nat);
        vstd::arithmetic::power::lemma_pow_adds(b, 1, (e - 1) as nat);
        vstd::arithmetic::power::lemma_pow1(a);
        vstd::arithmetic::power::lemma_pow1(b);
        vstd::arithmetic::power::lemma_pow_positive(a, (e - 1) as nat);
        assert(a * pow(a, (e - 1) as nat) <= b * pow(b, (e - 1) as nat)) by (nonlinear_arith)
            requires
                1 <= a <= b,
                1 <= pow(a, (e - 1) as nat) <= pow(b, (e - 1) as nat),
        ;
    }
}

/// Is `m` a product of two of the spare primes, the smaller first?
fn is_spare_product(m: u64) -> (r: bool)
    ensures
        r == exists|i: int, j: int|
            0 <= i <= j < 4 && m == small_prime_at(i) * small_prime_at(j),
{
    let r = m == 1 || m == 5 || m == 7 || m == 11 || m == 25 || m == 35 || m == 49 || m == 55 || m
        == 77 || m == 121;
    proof {
        if r {
            if m == 1 {
                assert(m == small_prime_at(0) * small_prime_at(0));
            } else if m == 5 {
                assert(m == small_prime_at(0) * small_prime_at(1));
            } else if m == 7 {
                assert(m == small_prime_at(0) * small_prime_at(2));
            } else if m == 11 {
                assert(m == small_prime_at(0) * small_prime_at(3));
            } else if m == 25 {
                assert(m == small_prime_at(1) * small_prime_at(1));
            } else if m == 35 {
                assert(m == small_prime_at(1) * small_prime_at(2));
            } else if m == 55 {
                assert(m == small_prime_at(1) * small_prime_at(3));
            } else if m == 49 {
                assert(m == small_prime_at(2) * small_prime_at(2));
            } else if m == 77 {
                assert(m == small_prime_at(2) * small_prime_at(3));
            } else {
                assert(m == small_prime_at(3) * small_prime_at(3));
            }
        } else {
            assert forall|i: int, j: int| 0 <= i <= j < 4 implies m != small_prime_at(i)
                * small_prime_at(j) by {
                assert(small_prime_at(i) * small_prime_at(j) == 1 || small_prime_at(i)
                    * small_prime_at(j) == 5 || small_prime_at(i) * small_prime_at(j) == 7
                    || small_prime_at(i) * small_prime_at(j) == 11 || small_prime_at(i)
                    * small_prime_at(j) == 25 || small_prime_at(i) * small_prime_at(j) == 35
                    || small_prime_at(i) * small_prime_at(j) == 49 || small_prime_at(i)
                    * small_prime_at(j) == 55 || small_prime_at(i) * small_prime_at(j) == 77
                    || small_prime_at(i) * small_prime_at(j) == 121);
            }
        }
    }
    r
}

/// The spare products are coprime to both two and three.
proof fn lemma_spare_product_coprime(i: int, j: int)
    requires
        0 <= i <= j < 4,
    ensures
        small_prime_at(i) * small_prime_at(j) >= 1,
        (small_prime_at(i) * small_prime_at(j)) % 2 != 0,
        (small_prime_at(i) * small_prime_at(j)) % 3 != 0,
{
}

/// Does `x` lie in the range and factor as a ladder size? The test divides
/// out the twos and threes and checks the rest against the spare products.
fn is_ladder_size_exec(x: u64, start: u64, end: u64) -> (r: bool)
    requires
        1 <= start <= end,
    ensures
        r == is_ladder_size(x as int, start as int, end as int),
{
    if x < start || x > end {
        return false;
    }
    let (a, m2) = strip_factor(x, 2);
    let (b, m3) = strip_factor(m2, 3);
    let spare = is_spare_product(m3);
    let ok = a >= 2 && spare;
    proof {
        if ok {
            let (i, j) = choose|i: int, j: int|
                0 <= i <= j < 4 && m3 == small_prime_at(i) * small_prime_at(j);
            assert(x as int == pow(2, a as nat) * pow(3, b as nat) * (small_prime_at(i)
                * small_prime_at(j))) by (nonlinear_arith)
                requires
                    x as int == pow(2, a as nat) * m2,
                    m2 as int == pow(3, b as nat) * m3,
                    m3 == small_prime_at(i) * small_prime_at(j),
            ;
            assert(is_ladder_size(x as int, start as int, end as int));
        } else {
            if is_ladder_size(x as int, start as int, end as int) {
                let (a2, b2, i, j) = choose|a2: nat, b2: nat, i: int, j: int|
                    {
                        &&& 2 <= a2
                        &&& 0 <= i <= j < 4
                        &&& x as int == pow(2, a2) * pow(3, b2) * (small_prime_at(i)
                            * small_prime_at(j))
                    };
                let p = small_prime_at(i) * small_prime_at(j);
                lemma_spare_product_coprime(i, j);
                lemma_pow_coprime(3, b2, p, 2);
                let o = pow(3, b2) * p;
                assert(x as int == pow(2, a2) * o) by (nonlinear_arith)
                    requires
                        x as int == pow(2, a2) * pow(3, b2) * p,
                        o == pow(3, b2) * p,
                ;
                lemma_factorization_unique(2, a as nat, m2 as int, a2, o);
                // so a == a2 >= 2 and m2 == 3^b2 * p
                lemma_pow_coprime(1, 0, p, 3);
                vstd::arithmetic::power::lemma_pow0(1);
                lemma_factorization_unique(3, b as nat, m3 as int, b2, p);
                // so m3 == p, a spare product: the test must have accepted
                assert(m3 == small_prime_at(i) * small_prime_at(j));
                assert(spare);
                assert(false);
            }
        }
    }
    ok
}

/// All ladder sizes in the range, in strictly ascending order.
fn collect_candidates(start: u64, end: u64) -> (r: Vec<u64>)
    requires
        1 <= start <= end,
        end < 0xffff_ffff_ffff_ffffu64,
    ensures
        forall|k: int|
            0 <= k < r@.len() ==> is_ladder_size(#[trigger] r@[k] as int, start as int, end as int),
        forall|x: int|
            is_ladder_size(x, start as int, end as int) ==> exists|k: int|
                0 <= k < r@.len() && r@[k] == x,
        forall|k1: int, k2: int| 0 <= k1 < k2 < r@.len() ==> r@[k1] < r@[k2],
{
    let mut r: Vec<u64> = Vec::new();
    let mut x = start;
    while x <= end
        invariant
            1 <= start <= end,
            end < 0xffff_ffff_ffff_ffffu64,
            start <= x,
            x <= end + 1,
            forall|k: int|
                0 <= k < r@.len() ==> is_ladder_size(
                    #[trigger] r@[k] as int,
                    start as int,
                    end as int,
                ),
            forall|y: int|
                start <= y < x && is_ladder_size(y, start as int, end as int) ==> exists|k: int|
                    0 <= k < r@.len() && r@[k] == y,
            forall|k: int| 0 <= k < r@.len() ==> r@[k] < x,
            forall|k1: int, k2: int| 0 <= k1 < k2 < r@.len() ==> r@[k1] < r@[k2],
        decreases end + 1 - x,
    {
        let ghost pre = r@;
        let added = is_ladder_size_exec(x, start, end);
        if added {
            r.push(x);
        }
        x = x + 1;
        proof {
            assert forall|y: int|
                start <= y < x && is_ladder_size(y, start as int, end as int) implies exists|
                k: int,
            | 0 <= k < r@.len() && r@[k] == y by {
                if y < x - 1 {
                    let k = choose|k: int| 0 <= k < pre.len() && pre[k] == y;
                    assert(r@[k] == y);
                } else {
                    assert(added);
                    assert(r@[r@.len() - 1] == y);
                }
            }
        }
    }
    proof {
        assert forall|y: int| is_ladder_size(y, start as int, end as int) implies exists|k: int|
            0 <= k < r@.len() && r@[k] == y by {
            assert(start <= y <= end);
        }
    }
    r
}

/// `c^(2d)`, written over the square so that it stays a power with exponent
/// `d`; comparing `c^(2d)` against a step target `start^(2d) * 4^i` compares
/// `|log2 c - (log2 start + i/d)|` without ever forming a logarithm.
pub open spec fn sq_pow(c: int, d: nat) -> int {
    pow(c * c, d)
}

/// The target of step `i`: `start^(2d) * 4^i`. A candidate `c` hits the
/// ideal size `start * 2^(i/d)` exactly when `c^(2d)` equals this target.
pub open spec fn ladder_target(start: int, d: nat, i: nat) -> int {
    pow(start * start, d) * pow(4, i)
}

/// Numerator of the upward ratio between `c^(2d)` and the target.
pub open spec fn key_num(c: int, m: int, d: nat) -> int {
    if sq_pow(c, d) >= m {
        sq_pow(c, d)
    } else {
        m
    }
}

/// Denominator of the upward ratio between `c^(2d)` and the target.
pub open spec fn key_den(c: int, m: int, d: nat) -> int {
    if sq_pow(c, d) >= m {
        m
    } else {
        sq_pow(c, d)
    }
}

/// `x` is strictly closer to the target than `y` on the logarithmic scale:
/// its upward ratio to the target is the strictly smaller fraction.
pub open spec fn closer_than(x: int, y: int, m: int, d: nat) -> bool {
    key_num(x, m, d) * key_den(y, m, d) < key_num(y, m, d) * key_den(x, m, d)
}

/// `x` and `y` are equally far from the target on the logarithmic scale.
pub open spec fn even_dist(x: int, y: int, m: int, d: nat) -> bool {
    key_num(x, m, d) * key_den(y, m, d) == key_num(y, m, d) * key_den(x, m, d)
}

proof fn lemma_sq_pow_pos(c: int, d: nat)
    requires
        c >= 1,
    ensures
        sq_pow(c, d) >= 1,
{
    assert(c * c >= 1) by (nonlinear_arith)
        requires
            c >= 1,
    ;
    vstd::arithmetic::power::lemma_pow_positive(c * c, d);
}

/// The product of two squared powers is the squared power of the product.
proof fn lemma_sq_pow_cross(x: int, y: int, d: nat)
    requires
        x >= 1,
        y >= 1,
    ensures
        sq_pow(x, d) * sq_pow(y, d) == pow(x * y, d) * pow(x * y, d),
        pow(x * y, d) >= 1,
{
    vstd::arithmetic::power::lemma_pow_distributes(x * x, y * y, d);
    assert((x * x) * (y * y) == (x * y) * (x * y)) by (nonlinear_arith);
    vstd::arithmetic::power::lemma_pow_distributes(x * y, x * y, d);
    assert(x * y >= 1) by (nonlinear_arith)
        requires
            x >= 1,
            y >= 1,
    ;
    vstd::arithmetic::power::lemma_pow_positive(x * y, d);
}

/// Comparing non-negative numbers is the same as comparing their squares.
proof fn lemma_square_order(u: int, v: int)
    requires
        u >= 0,
        v >= 0,
    ensures
        (u < v <==> u * u < v * v),
        (u == v <==> u * u == v * v),
{
    assert((u < v <==> u * u < v * v) && (u == v <==> u * u == v * v)) by (nonlinear_arith)
        requires
            u >= 0,
            v >= 0,
    ;
}

/// Strictness carries across a fraction that is at most another:
/// from `an/ad < bn/bd` and `bn/bd <= cn/cd` follows `an/ad < cn/cd`.
proof fn lemma_frac_lt_le_trans(an: int, ad: int, bn: int, bd: int, cn: int, cd: int)
    requires
        ad >= 1,
        bd >= 1,
        cd >= 1,
        an * bd < bn * ad,
        bn * cd <= cn * bd,
    ensures
        an * cd < cn * ad,
{
    assert(an * cd < cn * ad) by (nonlinear_arith)
        requires
            ad >= 1,
            bd >= 1,
            cd >= 1,
            an * bd < bn * ad,
            bn * cd <= cn * bd,
    ;
}

/// Powers with a positive exponent compare strictly as their bases do.
proof fn lemma_pow_base_lt(a: int, b: int, e: nat)
    requires
        1 <= a < b,
        e >= 1,
    ensures
        pow(a, e) < pow(b, e),
    decreases e,
{
    vstd::arithmetic::power::lemma_pow_adds(a, 1, (e - 1) as nat);
    vstd::arithmetic::power::lemma_pow_adds(b, 1, (e - 1) as nat);
    vstd::arithmetic::power::lemma_pow1(a);
    vstd::arithmetic::power::lemma_pow1(b);
    vstd::arithmetic::power::lemma_pow_positive(a, (e - 1) as nat);
    lemma_pow_base_le(a, b, (e - 1) as nat);
    assert(a * pow(a, (e - 1) as nat) < b * pow(b, (e - 1) as nat)) by (nonlinear_arith)
        requires
            1 <= a < b,
            1 <= pow(a, (e - 1) as nat) <= pow(b, (e - 1) as nat),
    ;
}

/// The larger of two candidates, once strictly closer to a target, stays
/// strictly closer when the target moves one full step up the ladder.
proof fn lemma_closer_shift_up(x: int, y: int, m: int, d: nat)
    requires
        1 <= y < x,
        1 <= m,
        1 <= d,
        closer_than(x, y, m, d),
    ensures
        closer_than(x, y, 4 * m, d),
{
    let xx = sq_pow(x, d);
    let yy = sq_pow(y, d);
    lemma_sq_pow_pos(x, d);
    lemma_sq_pow_pos(y, d);
    assert(1 <= y * y < x * x) by (nonlinear_arith)
        requires
            1 <= y < x,
    ;
    lemma_pow_base_lt(y * y, x * x, d);
    assert(yy < xx);
    if yy >= m {
        // both at or above the old target: the smaller power would win there
        assert(xx * m < yy * m ==> xx < yy) by (nonlinear_arith)
            requires
                m >= 1,
        ;
        assert(false);
    } else if xx < m {
        // both below the old target, hence both below the new one
        assert(4 * m > m);
        assert((4 * m) * yy < (4 * m) * xx) by (nonlinear_arith)
            requires
                yy < xx,
                m >= 1,
        ;
    } else {
        // x at or above the old target, y below it: xx * yy < m * m
        if xx >= 4 * m {
            assert(xx * yy < (4 * m) * (4 * m)) by (nonlinear_arith)
                requires
                    xx * yy < m * m,
                    m >= 1,
            ;
        } else {
            // both sit below the new target
            assert((4 * m) * yy < (4 * m) * xx) by (nonlinear_arith)
                requires
                    yy < m,
                    m <= xx,
                    yy < xx,
                    m >= 1,
            ;
        }
    }
}

/// Which of two candidates sits closer to the target on the log scale,
/// decided exactly with unbounded integers.
fn closer_cmp(x: u64, y: u64, m_big: &BigNat, d: u64) -> (r: Cmp)
    requires
        1 <= x <= 0x8000_0000,
        1 <= y <= 0x8000_0000,
        m_big.well_formed(),
        m_big.value() >= 1,
    ensures
        (r == Cmp::Lt <==> closer_than(x as int, y as int, m_big.value(), d as nat)),
        (r == Cmp::Eq <==> even_dist(x as int, y as int, m_big.value(), d as nat)),
        (r == Cmp::Gt <==> closer_than(y as int, x as int, m_big.value(), d as nat)),
{
    let ghost m = m_big.value();
    let ghost dn = d as nat;
    proof {
        assert(1 <= x as int * x as int <= 0x4000_0000_0000_0000 && 1 <= y as int * y as int
            <= 0x4000_0000_0000_0000 && 1 <= x as int * y as int <= 0x4000_0000_0000_0000) by (
        nonlinear_arith)
            requires
                1 <= x <= 0x8000_0000,
                1 <= y <= 0x8000_0000,
        ;
        lemma_sq_pow_pos(x as int, dn);
        lemma_sq_pow_pos(y as int, dn);
    }
    let bx = big_pow(x * x, d);
    let by = big_pow(y * y, d);
    let cx = bx.cmp_with(m_big);
    let cy = by.cmp_with(m_big);
    let ghost xx = sq_pow(x as int, dn);
    let ghost yy = sq_pow(y as int, dn);
    if cx != Cmp::Lt && cy != Cmp::Lt {
        // both at or above the target: the smaller power is closer
        let r = bx.cmp_with(&by);
        proof {
            assert((xx * m < yy * m <==> xx < yy) && (xx * m == yy * m <==> xx == yy) && (yy * m
                < xx * m <==> yy < xx)) by (nonlinear_arith)
                requires
                    m >= 1,
            ;
        }
        r
    } else if cx == Cmp::Lt && cy == Cmp::Lt {
        // both below the target: the larger power is closer
        let r = by.cmp_with(&bx);
        proof {
            assert((m * yy < m * xx <==> yy < xx) && (m * yy == m * xx <==> yy == xx) && (m * xx
                < m * yy <==> xx < yy)) by (nonlinear_arith)
                requires
                    m >= 1,
            ;
        }
        r
    } else {
        // one above, one below: compare the geometric mean with the target
        let bxy = big_pow(x * y, d);
        let c = bxy.cmp_with(m_big);
        proof {
            lemma_sq_pow_cross(x as int, y as int, dn);
            lemma_square_order(pow(x as int * y as int, dn), m);
            lemma_square_order(m, pow(x as int * y as int, dn));
            assert(xx * yy == pow(x as int * y as int, dn) * pow(x as int * y as int, dn));
            assert(xx * yy == yy * xx && m * m == m * m) by (nonlinear_arith);
        }
        if cx != Cmp::Lt {
            // x above, y below: x closer iff x^(2d) * y^(2d) < m * m
            c
        } else {
            // x below, y above
            match c {
                Cmp::Lt => Cmp::Gt,
                Cmp::Eq => Cmp::Eq,
                Cmp::Gt => Cmp::Lt,
            }
        }
    }
}

/// How many doublings of `b` stay within `cap`: the floor of
/// `log2(cap / b)` for `1 <= b <= cap`.
pub open spec fn log_steps(b: int, cap: int) -> nat
    decreases cap - b,
{
    if b < 1 || cap < b {
        0
    } else if 2 * b <= cap {
        (1 + log_steps(2 * b, cap)) as nat
    } else {
        0
    }
}

/// How many sizes the ladder holds:
/// `floor((log2 end - log2 start) * divisions) + 1`, written over integers
/// as the number of doublings of `start^d` that stay within `end^d`.
pub open spec fn spec_num_sizes(start: int, end: int, d: nat) -> int {
    log_steps(pow(start, d), pow(end, d)) as int + 1
}

proof fn lemma_log_steps_unique(b: int, cap: int, k: nat)
    requires
        1 <= b <= cap,
        pow(2, k) * b <= cap,
        2 * (pow(2, k) * b) > cap,
    ensures
        log_steps(b, cap) == k,
    decreases k,
{
    vstd::arithmetic::power::lemma_pow0(2);
    if k == 0 {
    } else {
        vstd::arithmetic::power::lemma_pow_adds(2, 1, (k - 1) as nat);
        vstd::arithmetic::power::lemma_pow1(2);
        vstd::arithmetic::power::lemma_pow_positive(2, (k - 1) as nat);
        assert(2 * b <= cap && pow(2, (k - 1) as nat) * (2 * b) == pow(2, k) * b) by (
        nonlinear_arith)
            requires
                pow(2, k) == 2 * pow(2, (k - 1) as nat),
                pow(2, k) * b <= cap,
                pow(2, (k - 1) as nat) >= 1,
                b >= 1,
        ;
        lemma_log_steps_unique(2 * b, cap, (k - 1) as nat);
    }
}

/// The number of ladder steps between `start` and `end` at the requested
/// resolution.
fn num_sizes_exec(start: u64, end: u64, d: u64) -> (r: usize)
    requires
        1 <= start <= end,
        end <= 0x8000_0000,
        1 <= d <= 0x1_0000,
    ensures
        r as int == spec_num_sizes(start as int, end as int, d as nat),
        r >= 1,
{
    let be = big_pow(end, d);
    let mut cur = big_pow(start, d);
    let mut k: usize = 0;
    let ghost bsv = pow(start as int, d as nat);
    let ghost bev = pow(end as int, d as nat);
    proof {
        vstd::arithmetic::power::lemma_pow_positive(start as int, d as nat);
        vstd::arithmetic::power::lemma_pow0(2);
        lemma_pow_base_le(start as int, end as int, d as nat);
    }
    let mut done = false;
    while !done
        invariant
            1 <= start <= end <= 0x8000_0000,
            1 <= d <= 0x1_0000,
            bsv == pow(start as int, d as nat),
            bev == pow(end as int, d as nat),
            1 <= bsv <= bev,
            be.well_formed(),
            be.value() == bev,
            cur.well_formed(),
            cur.value() == pow(2, k as nat) * bsv,
            pow(2, k as nat) * bsv <= bev,
            k <= 31 * 0x1_0000,
            done ==> 2 * (pow(2, k as nat) * bsv) > bev,
        decreases bev - pow(2, k as nat) * bsv + (if done {
            0int
        } else {
            1int
        }),
    {
        let mut t = cur.duplicate();
        t.mul_u64(2);
        let v = t.cmp_with(&be);
        if v == Cmp::Gt {
            done = true;
        } else {
            proof {
                vstd::arithmetic::power::lemma_pow_adds(2, 1, k as nat);
                vstd::arithmetic::power::lemma_pow1(2);
                vstd::arithmetic::power::lemma_pow_positive(2, k as nat);
                assert(pow(2, (k + 1) as nat) * bsv == 2 * (pow(2, k as nat) * bsv) && pow(
                    2,
                    (k + 1) as nat,
                ) <= pow(2, (k + 1) as nat) * bsv) by (nonlinear_arith)
                    requires
                        pow(2, (k + 1) as nat) == 2 * pow(2, k as nat),
                        bsv >= 1,
                        pow(2, k as nat) >= 1,
                ;
                // the doubling count is bounded through the range bound
                lemma_pow_base_le(end as int, 0x8000_0000, d as nat);
                vstd::arithmetic::power2::lemma2_to64();
                vstd::arithmetic::power2::lemma_pow2(31);
                vstd::arithmetic::power::lemma_pow_multiplies(2, 31, d as nat);
                assert(pow(2, (k + 1) as nat) <= pow(2, (31 * d) as nat));
                vstd::arithmetic::power::lemma_pow_increases_converse(
                    2,
                    (k + 1) as nat,
                    (31 * d) as nat,
                );
            }
            cur = t;
            k = k + 1;
        }
    }
    proof {
        lemma_log_steps_unique(bsv, bev, k as nat);
    }
    k + 1
}

/// The ascending ladder of FFT-friendly sizes: for each of the
/// logarithmically even steps between `start` and `end` at `div_per_oct`
/// divisions per octave, the ladder size closest to the ideal size on the
/// log scale, the smallest such on a tie. The range keeps the products of
/// two sizes within a machine word, and the resolution keeps the ladder
/// length within one.
pub fn generate_sizes(start: u64, end: u64, div_per_oct: u64) -> (r: Vec<usize>)
    requires
        1 <= start <= end,
        end <= 0x8000_0000,
        1 <= div_per_oct <= 0x1_0000,
        exists|x: int| is_ladder_size(x, start as int, end as int),
    ensures
        r@.len() == spec_num_sizes(start as int, end as int, div_per_oct as nat),
        forall|n: int|
            0 <= n < r@.len() ==> is_ladder_size(
                #[trigger] r@[n] as int,
                start as int,
                end as int,
            ),
        forall|n: int| 1 <= n < r@.len() ==> #[trigger] r@[n - 1] <= r@[n],
        forall|n: int, c: int|
            #![trigger r@[n], is_ladder_size(c, start as int, end as int)]
            0 <= n < r@.len() && is_ladder_size(c, start as int, end as int) ==> !closer_than(
                c,
                r@[n] as int,
                ladder_target(start as int, div_per_oct as nat, n as nat),
                div_per_oct as nat,
            ),
        forall|n: int, c: int|
            #![trigger r@[n], is_ladder_size(c, start as int, end as int)]
            0 <= n < r@.len() && is_ladder_size(c, start as int, end as int) && even_dist(
                r@[n] as int,
                c,
                ladder_target(start as int, div_per_oct as nat, n as nat),
                div_per_oct as nat,
            ) ==> r@[n] <= c,
{
    let d = div_per_oct;
    let ghost dn = d as nat;
    let candidates = collect_candidates(start, end);
    proof {
        let w = choose|x: int| is_ladder_size(x, start as int, end as int);
        assert(exists|k: int| 0 <= k < candidates@.len() && candidates@[k] == w);
    }
    let num = num_sizes_exec(start, end, d);
    proof {
        assert(start as int * start as int <= 0x4000_0000_0000_0000 && start as int * start as int
            >= 1) by (nonlinear_arith)
            requires
                1 <= start <= 0x8000_0000,
        ;
    }
    let mut m_big = big_pow(start * start, d);
    let ghost s = start as int;
    let ghost e = end as int;
    proof {
        vstd::arithmetic::power::lemma_pow_positive(s * s, dn);
        vstd::arithmetic::power::lemma_pow0(4);
        assert(ladder_target(s, dn, 0) == pow(s * s, dn) * 1);
    }
    let mut r: Vec<usize> = Vec::new();
    let mut n: usize = 0;
    while n < num
        invariant
            1 <= start <= end <= 0x8000_0000,
            1 <= d <= 0x1_0000,
            dn == d as nat,
            s == start as int,
            e == end as int,
            n <= num,
            r@.len() == n,
            forall|k: int|
                0 <= k < candidates@.len() ==> is_ladder_size(
                    #[trigger] candidates@[k] as int,
                    s,
                    e,
                ),
            forall|x: int|
                is_ladder_size(x, s, e) ==> exists|k: int|
                    0 <= k < candidates@.len() && candidates@[k] == x,
            forall|k1: int, k2: int|
                0 <= k1 < k2 < candidates@.len() ==> candidates@[k1] < candidates@[k2],
            candidates@.len() >= 1,
            m_big.well_formed(),
            m_big.value() == ladder_target(s, dn, n as nat),
            m_big.value() >= 1,
            forall|t: int|
                0 <= t < n ==> is_ladder_size(#[trigger] r@[t] as int, s, e),
            forall|t: int| 1 <= t < n ==> #[trigger] r@[t - 1] <= r@[t],
            forall|t: int, c: int|
                #![trigger r@[t], is_ladder_size(c, s, e)]
                0 <= t < n && is_ladder_size(c, s, e) ==> !closer_than(
                    c,
                    r@[t] as int,
                    ladder_target(s, dn, t as nat),
                    dn,
                ),
            forall|t: int, c: int|
                #![trigger r@[t], is_ladder_size(c, s, e)]
                0 <= t < n && is_ladder_size(c, s, e) && even_dist(
                    r@[t] as int,
                    c,
                    ladder_target(s, dn, t as nat),
                    dn,
                ) ==> r@[t] <= c,
        decreases num - n,
    {
        let ghost m = m_big.value();
        let mut best = candidates[0];
        let ghost mut best_at: int = 0;
        let mut ci: usize = 1;
        proof {
            assert(is_ladder_size(candidates@[0] as int, s, e));
        }
        while ci < candidates.len()
            invariant
                1 <= start <= end <= 0x8000_0000,
                1 <= d <= 0x1_0000,
                dn == d as nat,
                s == start as int,
                e == end as int,
                1 <= ci <= candidates@.len(),
                forall|k: int|
                    0 <= k < candidates@.len() ==> is_ladder_size(
                        #[trigger] candidates@[k] as int,
                        s,
                        e,
                    ),
                forall|k1: int, k2: int|
                    0 <= k1 < k2 < candidates@.len() ==> candidates@[k1] < candidates@[k2],
                m_big.well_formed(),
                m_big.value() == m,
                m >= 1,
                0 <= best_at < ci,
                candidates@[best_at] == best,
                forall|k: int|
                    0 <= k < ci ==> !closer_than(
                        #[trigger] candidates@[k] as int,
                        best as int,
                        m,
                        dn,
                    ),
                forall|k: int|
                    0 <= k < ci && even_dist(best as int, #[trigger] candidates@[k] as int, m, dn)
                        ==> best <= candidates@[k],
            decreases candidates@.len() - ci,
        {
            let c = candidates[ci];
            proof {
                assert(is_ladder_size(c as int, s, e));
                assert(is_ladder_size(best as int, s, e));
            }
            let verdict = closer_cmp(c, best, &m_big, d);
            if verdict == Cmp::Lt {
                proof {
                    lemma_sq_pow_pos(c as int, dn);
                    lemma_sq_pow_pos(best as int, dn);
                    assert forall|k: int| 0 <= k < ci + 1 implies !closer_than(
                        #[trigger] candidates@[k] as int,
                        c as int,
                        m,
                        dn,
                    ) && (even_dist(c as int, candidates@[k] as int, m, dn) ==> c
                        <= candidates@[k]) by {
                        if k < ci {
                            let ck = candidates@[k] as int;
                            lemma_sq_pow_pos(ck, dn);
                            lemma_frac_lt_le_trans(
                                key_num(c as int, m, dn),
                                key_den(c as int, m, dn),
                                key_num(best as int, m, dn),
                                key_den(best as int, m, dn),
                                key_num(ck, m, dn),
                                key_den(ck, m, dn),
                            );
                        }
                    }
                }
                best = c;
                proof {
                    best_at = ci as int;
                }
            } else {
                proof {
                    assert(!closer_than(c as int, best as int, m, dn));
                    if even_dist(best as int, c as int, m, dn) {
                        assert(candidates@[best_at] < candidates@[ci as int]);
                    }
                }
            }
            ci = ci + 1;
        }
        proof {
            assert forall|c: int| is_ladder_size(c, s, e) implies !closer_than(
                c,
                best as int,
                m,
                dn,
            ) && (even_dist(best as int, c, m, dn) ==> best <= c) by {
                let k = choose|k: int| 0 <= k < candidates@.len() && candidates@[k] == c;
                assert(!closer_than(candidates@[k] as int, best as int, m, dn));
            }
        }
        let ghost pre = r@;
        r.push(best as usize);
        m_big.mul_u64(4);
        proof {
            vstd::arithmetic::power::lemma_pow_adds(4, 1, n as nat);
            vstd::arithmetic::power::lemma_pow1(4);
            assert(ladder_target(s, dn, (n + 1) as nat) == ladder_target(s, dn, n as nat) * 4) by (
            nonlinear_arith)
                requires
                    pow(4, (n + 1) as nat) == 4 * pow(4, n as nat),
                    ladder_target(s, dn, (n + 1) as nat) == pow(s * s, dn) * pow(
                        4,
                        (n + 1) as nat,
                    ),
                    ladder_target(s, dn, n as nat) == pow(s * s, dn) * pow(4, n as nat),
            ;
            assert(r@[n as int] == best as usize);
            assert(r@[n as int] as int == best as int);
            assert forall|t: int| 0 <= t < n + 1 implies is_ladder_size(
                #[trigger] r@[t] as int,
                s,
                e,
            ) by {
                if t < n {
                    assert(r@[t] == pre[t]);
                }
            }
            assert forall|t: int| 1 <= t < n + 1 implies #[trigger] r@[t - 1] <= r@[t] by {
                if t < n {
                    assert(r@[t] == pre[t] && r@[t - 1] == pre[t - 1]);
                } else {
                    // the freshly chosen entry cannot fall below its
                    // predecessor: the predecessor was no farther from the
                    // previous target, so by the shift property it would
                    // still beat a strictly smaller entry at this target
                    if r@[n as int] < r@[n - 1] {
                        let b1 = pre[n - 1] as int;
                        let b2 = best as int;
                        let m1 = ladder_target(s, dn, (n - 1) as nat);
                        assert(r@[n - 1] == pre[n - 1]);
                        assert(is_ladder_size(b1, s, e));
                        assert(is_ladder_size(b2, s, e));
                        vstd::arithmetic::power::lemma_pow_adds(4, 1, (n - 1) as nat);
                        assert(m == m1 * 4) by (nonlinear_arith)
                            requires
                                pow(4, n as nat) == 4 * pow(4, (n - 1) as nat),
                                m == pow(s * s, dn) * pow(4, n as nat),
                                m1 == pow(s * s, dn) * pow(4, (n - 1) as nat),
                        ;
                        assert(s * s >= 1) by (nonlinear_arith)
                            requires
                                s >= 1,
                        ;
                        vstd::arithmetic::power::lemma_pow_positive(s * s, dn);
                        vstd::arithmetic::power::lemma_pow_positive(4, (n - 1) as nat);
                        assert(m1 >= 1) by (nonlinear_arith)
                            requires
                                pow(s * s, dn) >= 1,
                                pow(4, (n - 1) as nat) >= 1,
                                m1 == pow(s * s, dn) * pow(4, (n - 1) as nat),
                        ;
                        assert(!closer_than(b2, b1, m1, dn));
                        if even_dist(b1, b2, m1, dn) {
                            assert(b1 <= b2);
                            assert(false);
                        }
                        assert(closer_than(b1, b2, m1, dn));
                        assert(1 <= b2 < b1);
                        lemma_closer_shift_up(b1, b2, m1, dn);
                        assert(closer_than(b1, b2, m, dn));
                        assert(!closer_than(b1, best as int, m, dn));
                        assert(false);
                    }
                }
            }
        }
        n = n + 1;
    }
    r
}

} // verus!
