//! Basis blades of the five-dimensional Clifford algebra used for conformal
//! geometry, indexed by bitmask: bit `t` of a blade's index is set when basis
//! vector `e_t` is a factor of the blade.

use vstd::prelude::*;

verus! {

/// The square of a basis vector under the metric of the algebra.
#[derive(Clone, Copy, PartialEq, Eq, Debug)]
pub enum Signature {
    /// The basis vector squares to `+1`.
    Positive,
    /// The basis vector squares to `-1`.
    Negative,
    /// The basis vector squares to `0`.
    Null,
}

/// The value that a basis vector with this signature squares to.
pub open spec fn signature_value(s: Signature) -> int {
    match s {
        Signature::Positive => 1,
        Signature::Negative => -1,
        Signature::Null => 0,
    }
}

/// The number of basis vectors of the algebra.
pub const BASIS_VECTORS: usize = 5;

/// Bit `t` of the blade index `x` is set: `e_t` is a factor of the blade.
pub open spec fn has_bit(x: usize, t: usize) -> bool {
    x & (1usize << t) != 0
}

/// The number of set bits `t` of `x` with `lo <= t < hi`.
pub open spec fn bits_between(x: usize, lo: usize, hi: usize) -> nat
    decreases hi,
{
    if hi <= lo {
        0
    } else {
        bits_between(x, lo, (hi - 1) as usize) + if has_bit(x, (hi - 1) as usize) {
            1nat
        } else {
            0nat
        }
    }
}

/// The product of the squares of the basis vectors `e_t`, `t < m`, shared by
/// both factors (the set bits of `shared`).
pub open spec fn metric_factor(shared: usize, metric: Seq<Signature>, m: usize) -> int
    decreases m,
{
    if m == 0 {
        1
    } else {
        metric_factor(shared, metric, (m - 1) as usize) * if has_bit(shared, (m - 1) as usize) {
            signature_value(metric[m - 1])
        } else {
            1
        }
    }
}

/// For each set bit `s < m` of `marks`, the number of set bits of `others`
/// above `s` (below the top basis vector), summed.
pub open spec fn crossings(marks: usize, others: usize, m: usize) -> nat
    decreases m,
{
    if m == 0 {
        0
    } else {
        crossings(marks, others, (m - 1) as usize) + if has_bit(marks, (m - 1) as usize) {
            bits_between(others, m, BASIS_VECTORS)
        } else {
            0
        }
    }
}

/// The number of transpositions that bring the factors of `e_a e_b` into
/// canonical order: the pairs of a factor `e_i` of `e_a` and a factor `e_j` of
/// `e_b` with `i > j`, each of which must cross once.
pub open spec fn reorder_swaps(a: usize, b: usize) -> nat {
    crossings(b, a, BASIS_VECTORS)
}

/// `(-1)^n`.
pub open spec fn parity_sign(n: nat) -> int {
    if n % 2 == 0 {
        1
    } else {
        -1
    }
}

/// The sign of the product of the basis blades `e_a` and `e_b`: the sign of
/// reordering the factors, times the square of each shared basis vector.
pub open spec fn basis_product_sign(a: usize, b: usize, metric: Seq<Signature>) -> int {
    metric_factor(a & b, metric, BASIS_VECTORS) * parity_sign(reorder_swaps(a, b))
}

/// The count, for each set bit `s` of `marks`, of the set bits of `others`
/// above `s`.
fn count_crossings(marks: usize, others: usize) -> (res: usize)
    ensures
        res == crossings(marks, others, BASIS_VECTORS),
        res <= 25,
{
    let mut count: usize = 0;
    let mut s: usize = 0;
    while s < BASIS_VECTORS
        invariant
            s <= BASIS_VECTORS,
            count == crossings(marks, others, s),
            count <= 5 * s,
        decreases BASIS_VECTORS - s,
    {
        if marks & (1usize << s) != 0 {
            let mut i: usize = s + 1;
            let ghost before = count;
            while i < BASIS_VECTORS
                invariant
                    s < BASIS_VECTORS,
                    s + 1 <= i <= BASIS_VECTORS,
                    before == crossings(marks, others, s),
                    count == before + bits_between(others, (s + 1) as usize, i),
                    count <= 5 * s + (i - s - 1),
                decreases BASIS_VECTORS - i,
            {
                if others & (1usize << i) != 0 {
                    count = count + 1;
                }
                i = i + 1;
            }
        }
        s = s + 1;
    }
    count
}

/// The geometric product of the basis blades `e_a` and `e_b` under the
/// given metric: the index `a ^ b` of the resulting blade and its sign, the
/// product of the squares of the shared basis vectors times the sign of
/// bringing the factors into canonical order.
pub fn basis_product(a: usize, b: usize, metric: &[Signature; 5]) -> (res: (usize, i8))
    ensures
        res.0 == a ^ b,
        res.1 == basis_product_sign(a, b, metric@),
{
    let intersection = a & b;
    let result_idx = a ^ b;
    let mut factor: i8 = 1;
    let mut bit: usize = 0;
    while bit < BASIS_VECTORS
        invariant
            bit <= BASIS_VECTORS,
            intersection == a & b,
            factor == metric_factor(intersection, metric@, bit),
            -1 <= factor <= 1,
        decreases BASIS_VECTORS - bit,
    {
        let ghost prev = factor;
        if intersection & (1usize << bit) != 0 {
            let ghost v = signature_value(metric@[bit as int]);
            match metric[bit] {
                Signature::Positive => {
                    assert(prev * v == prev) by (nonlinear_arith)
                        requires
                            v == 1,
                    ;
                },
                Signature::Negative => {
                    factor = -factor;
                    assert(prev * v == -prev) by (nonlinear_arith)
                        requires
                            v == -1,
                    ;
                },
                Signature::Null => {
                    factor = 0;
                    assert(prev * v == 0) by (nonlinear_arith)
                        requires
                            v == 0,
                    ;
                },
            }
        }
        bit = bit + 1;
    }
    let swaps = count_crossings(b, a);
    let sign = if swaps % 2 == 0 {
        factor
    } else {
        -factor
    };
    assert(factor * 1 == factor && factor * -1 == -factor) by (nonlinear_arith);
    (result_idx, sign)
}

/// The number of set bits of `x`.
pub open spec fn popcount(x: nat) -> nat
    decreases x,
{
    if x == 0 {
        0
    } else {
        x % 2 + popcount(x / 2)
    }
}

proof fn lemma_popcount_bound(x: nat)
    ensures
        popcount(x) <= x,
    decreases x,
{
    if x > 0 {
        lemma_popcount_bound(x / 2);
    }
}

/// The grade of the basis blade with index `i`: the number of basis vectors
/// that are its factors, the number of set bits of `i`.
pub fn grade_of_index(i: usize) -> (res: usize)
    ensures
        res == popcount(i as nat),
{
    let mut x = i;
    let mut count: usize = 0;
    proof {
        lemma_popcount_bound(i as nat);
    }
    while x > 0
        invariant
            count + popcount(x as nat) == popcount(i as nat),
            popcount(i as nat) <= i,
        decreases x,
    {
        count = count + x % 2;
        x = x / 2;
    }
    count
}

/// The sign `(-1)^(g (g - 1) / 2)` that reversal gives a blade of grade `g`.
pub open spec fn reversal_sign(g: nat) -> int {
    if g == 0 || (g * (g - 1) / 2) % 2 == 0 {
        1
    } else {
        -1
    }
}

/// The sign that reversing the order of its factors gives a blade of grade `g`.
pub fn reverse_sign(g: usize) -> (res: i8)
    requires
        g == 0 || g * (g - 1) <= usize::MAX,
    ensures
        res == reversal_sign(g as nat),
{
    if g == 0 {
        return 1;
    }
    let g1 = g - 1;
    if (g * g1 / 2) % 2 == 0 {
        1
    } else {
        -1
    }
}

proof fn lemma_bits_between_none(lo: usize, hi: usize)
    ensures
        bits_between(0, lo, hi) == 0,
    decreases hi,
{
    if hi > lo {
        let t = (hi - 1) as usize;
        assert(0usize & (1usize << t) == 0) by (bit_vector);
        lemma_bits_between_none(lo, t);
    }
}

/// A single basis vector `e_s` lies between `lo` and `hi` or not.
proof fn lemma_bits_between_single(s: usize, lo: usize, hi: usize)
    requires
        s < BASIS_VECTORS,
        hi <= BASIS_VECTORS,
    ensures
        bits_between(1usize << s, lo, hi) == if lo <= s < hi {
            1nat
        } else {
            0nat
        },
    decreases hi,
{
    if hi > lo {
        let t = (hi - 1) as usize;
        assert((1usize << s) & (1usize << t) != 0 <==> s == t) by (bit_vector)
            requires
                s < 5,
                t < 5,
        ;
        lemma_bits_between_single(s, lo, t);
    }
}

proof fn lemma_crossings_no_marks(others: usize, m: usize)
    ensures
        crossings(0, others, m) == 0,
    decreases m,
{
    if m > 0 {
        let t = (m - 1) as usize;
        assert(0usize & (1usize << t) == 0) by (bit_vector);
        lemma_crossings_no_marks(others, t);
    }
}

proof fn lemma_crossings_no_others(marks: usize, m: usize)
    ensures
        crossings(marks, 0, m) == 0,
    decreases m,
{
    if m > 0 {
        lemma_bits_between_none(m, BASIS_VECTORS);
        lemma_crossings_no_others(marks, (m - 1) as usize);
    }
}

/// With the single mark `e_t`, the crossings are the set bits of `others` above `t`.
proof fn lemma_crossings_single(t: usize, others: usize, m: usize)
    requires
        t < BASIS_VECTORS,
        m <= BASIS_VECTORS,
    ensures
        crossings(1usize << t, others, m) == if t < m {
            bits_between(others, (t + 1) as usize, BASIS_VECTORS)
        } else {
            0
        },
    decreases m,
{
    if m > 0 {
        let s = (m - 1) as usize;
        assert((1usize << t) & (1usize << s) != 0 <==> s == t) by (bit_vector)
            requires
                s < 5,
                t < 5,
        ;
        lemma_crossings_single(t, others, s);
    }
}

proof fn lemma_metric_factor_none(metric: Seq<Signature>, m: usize)
    ensures
        metric_factor(0, metric, m) == 1,
    decreases m,
{
    if m > 0 {
        let t = (m - 1) as usize;
        assert(0usize & (1usize << t) == 0) by (bit_vector);
        lemma_metric_factor_none(metric, t);
    }
}

proof fn lemma_metric_factor_single(t: usize, metric: Seq<Signature>, m: usize)
    requires
        t < BASIS_VECTORS,
        m <= BASIS_VECTORS,
    ensures
        metric_factor(1usize << t, metric, m) == if t < m {
            signature_value(metric[t as int])
        } else {
            1
        },
    decreases m,
{
    if m > 0 {
        let s = (m - 1) as usize;
        assert((1usize << t) & (1usize << s) != 0 <==> s == t) by (bit_vector)
            requires
                s < 5,
                t < 5,
        ;
        lemma_metric_factor_single(t, metric, s);
        let prev = metric_factor(1usize << t, metric, s);
        let v = signature_value(metric[t as int]);
        if s == t {
            assert(prev == 1);
            assert(1 * v == v) by (nonlinear_arith);
        } else {
            assert(prev * 1 == prev) by (nonlinear_arith);
        }
    }
}

/// The scalar blade `e_0 = 1` (index 0) is a two-sided identity of the
/// geometric product of basis blades.
pub proof fn lemma_scalar_blade_identity(x: usize, metric: Seq<Signature>)
    ensures
        0usize ^ x == x,
        x ^ 0usize == x,
        basis_product_sign(0, x, metric) == 1,
        basis_product_sign(x, 0, metric) == 1,
{
    assert(0usize ^ x == x && x ^ 0usize == x) by (bit_vector);
    assert(0usize & x == 0 && x & 0usize == 0) by (bit_vector);
    lemma_metric_factor_none(metric, BASIS_VECTORS);
    lemma_crossings_no_marks(0, BASIS_VECTORS);
    lemma_crossings_no_marks(x, BASIS_VECTORS);
    lemma_crossings_no_others(x, BASIS_VECTORS);
}

/// A basis vector `e_t` times itself is the scalar blade, with the value the
/// metric gives its square.
pub proof fn lemma_basis_vector_square(t: usize, metric: Seq<Signature>)
    requires
        t < BASIS_VECTORS,
    ensures
        (1usize << t) ^ (1usize << t) == 0,
        basis_product_sign(1usize << t, 1usize << t, metric) == signature_value(metric[t as int]),
{
    let e = 1usize << t;
    assert(e ^ e == 0 && e & e == e && e & !e == 0) by (bit_vector);
    lemma_metric_factor_single(t, metric, BASIS_VECTORS);
    lemma_crossings_single(t, e, BASIS_VECTORS);
    lemma_bits_between_single(t, (t + 1) as usize, BASIS_VECTORS);
    let v = signature_value(metric[t as int]);
    assert(v * 1 == v) by (nonlinear_arith);
}

/// Two distinct basis vectors anticommute: `e_s e_t = -e_t e_s`.
pub proof fn lemma_basis_vectors_anticommute(s: usize, t: usize, metric: Seq<Signature>)
    requires
        s < BASIS_VECTORS,
        t < BASIS_VECTORS,
        s != t,
    ensures
        (1usize << s) ^ (1usize << t) == (1usize << t) ^ (1usize << s),
        basis_product_sign(1usize << s, 1usize << t, metric) == -basis_product_sign(
            1usize << t,
            1usize << s,
            metric,
        ),
{
    let es = 1usize << s;
    let et = 1usize << t;
    assert(es ^ et == et ^ es) by (bit_vector);
    assert((1usize << s) & (1usize << t) == 0 && (1usize << t) & (1usize << s) == 0) by (bit_vector)
        requires
            s < 5,
            t < 5,
            s != t,
    ;
    lemma_metric_factor_none(metric, BASIS_VECTORS);
    lemma_crossings_single(t, es, BASIS_VECTORS);
    lemma_crossings_single(s, et, BASIS_VECTORS);
    lemma_bits_between_single(s, (t + 1) as usize, BASIS_VECTORS);
    lemma_bits_between_single(t, (s + 1) as usize, BASIS_VECTORS);
    assert(reorder_swaps(es, et) + reorder_swaps(et, es) == 1);
}

/// The set bits of `a ^ b` and `a & b` together account for those of `a` and `b`.
proof fn lemma_popcount_xor_and(a: usize, b: usize)
    ensures
        popcount((a ^ b) as nat) + 2 * popcount((a & b) as nat) == popcount(a as nat) + popcount(
            b as nat,
        ),
    decreases a + b,
{
    if a != 0 || b != 0 {
        assert((a ^ b) % 2 + 2 * ((a & b) % 2) == a % 2 + b % 2) by (bit_vector);
        assert((a ^ b) / 2 == (a / 2) ^ (b / 2)) by (bit_vector);
        assert((a & b) / 2 == (a / 2) & (b / 2)) by (bit_vector);
        lemma_popcount_xor_and(a / 2, b / 2);
        assert(popcount((a ^ b) as nat) == (a ^ b) % 2 + popcount(((a ^ b) / 2) as nat));
        assert(popcount((a & b) as nat) == (a & b) % 2 + popcount(((a & b) / 2) as nat));
        assert(popcount(a as nat) == a % 2 + popcount((a / 2) as nat));
        assert(popcount(b as nat) == b % 2 + popcount((b / 2) as nat));
    } else {
        assert(0usize ^ 0usize == 0 && 0usize & 0usize == 0) by (bit_vector);
    }
}

/// The product of basis blades of grades `ga` and `gb` sharing `c` basis
/// vectors has grade `ga + gb - 2c`; without shared vectors (the outer
/// product) the grades add.
pub proof fn lemma_product_grade(a: usize, b: usize)
    ensures
        popcount((a ^ b) as nat) == popcount(a as nat) + popcount(b as nat) - 2 * popcount(
            (a & b) as nat,
        ),
        a & b == 0 ==> popcount((a ^ b) as nat) == popcount(a as nat) + popcount(b as nat),
{
    lemma_popcount_xor_and(a, b);
}

/// Reversing twice restores a blade: the reversal sign squares to 1.
pub proof fn lemma_reversal_involution(g: nat)
    ensures
        reversal_sign(g) * reversal_sign(g) == 1,
{
}

proof fn lemma_bits_between_xor(x: usize, y: usize, lo: usize, hi: usize)
    requires
        hi <= BASIS_VECTORS,
    ensures
        bits_between(x ^ y, lo, hi) + 2 * bits_between(x & y, lo, hi) == bits_between(x, lo, hi)
            + bits_between(y, lo, hi),
    decreases hi,
{
    if hi > lo {
        let t = (hi - 1) as usize;
        assert(((x ^ y) & (1usize << t) != 0) == ((x & (1usize << t) != 0) != (y & (1usize << t)
            != 0)) && ((x & y) & (1usize << t) != 0) == ((x & (1usize << t) != 0) && (y & (1usize
            << t) != 0))) by (bit_vector)
            requires
                t < 5,
        ;
        lemma_bits_between_xor(x, y, lo, t);
    }
}

/// Crossings are additive, modulo pairs counted twice, in the crossed factors.
proof fn lemma_crossings_others_xor(marks: usize, x: usize, y: usize, m: usize)
    requires
        m <= BASIS_VECTORS,
    ensures
        crossings(marks, x ^ y, m) + 2 * crossings(marks, x & y, m) == crossings(marks, x, m)
            + crossings(marks, y, m),
    decreases m,
{
    if m > 0 {
        lemma_crossings_others_xor(marks, x, y, (m - 1) as usize);
        lemma_bits_between_xor(x, y, m, BASIS_VECTORS);
    }
}

/// Crossings are additive, modulo pairs counted twice, in the crossing factors.
proof fn lemma_crossings_marks_xor(y: usize, z: usize, others: usize, m: usize)
    requires
        m <= BASIS_VECTORS,
    ensures
        crossings(y ^ z, others, m) + 2 * crossings(y & z, others, m) == crossings(y, others, m)
            + crossings(z, others, m),
    decreases m,
{
    if m > 0 {
        let t = (m - 1) as usize;
        assert(((y ^ z) & (1usize << t) != 0) == ((y & (1usize << t) != 0) != (z & (1usize << t)
            != 0)) && ((y & z) & (1usize << t) != 0) == ((y & (1usize << t) != 0) && (z & (1usize
            << t) != 0))) by (bit_vector)
            requires
                t < 5,
        ;
        lemma_crossings_marks_xor(y, z, others, t);
    }
}

/// The squares of the basis vectors of two disjoint sets multiply to those
/// of their union.
proof fn lemma_metric_factor_disjoint(x: usize, y: usize, metric: Seq<Signature>, m: usize)
    requires
        x & y == 0,
        m <= BASIS_VECTORS,
    ensures
        metric_factor(x | y, metric, m) == metric_factor(x, metric, m) * metric_factor(y, metric, m),
    decreases m,
{
    if m > 0 {
        let t = (m - 1) as usize;
        assert(((x | y) & (1usize << t) != 0) == ((x & (1usize << t) != 0) || (y & (1usize << t)
            != 0)) && !((x & (1usize << t) != 0) && (y & (1usize << t) != 0))) by (bit_vector)
            requires
                t < 5,
                x & y == 0,
        ;
        lemma_metric_factor_disjoint(x, y, metric, t);
        let fu = metric_factor(x | y, metric, t);
        let fx = metric_factor(x, metric, t);
        let fy = metric_factor(y, metric, t);
        let v = signature_value(metric[t as int]);
        let vx = if has_bit(x, t) {
            v
        } else {
            1
        };
        let vy = if has_bit(y, t) {
            v
        } else {
            1
        };
        let vu = if has_bit(x | y, t) {
            v
        } else {
            1
        };
        if has_bit(x, t) {
            assert(v * 1 == v) by (nonlinear_arith);
        } else if has_bit(y, t) {
            assert(1 * v == v) by (nonlinear_arith);
        }
        assert(vx * vy == vu);
        assert(fu == fx * fy);
        assert(fu * vu == (fx * vx) * (fy * vy)) by (nonlinear_arith)
            requires
                fu == fx * fy,
                vu == vx * vy,
        ;
    }
}

proof fn lemma_parity_sign_add(n1: nat, n2: nat)
    ensures
        parity_sign(n1) * parity_sign(n2) == parity_sign(n1 + n2),
{
}

/// The geometric product of basis blades is associative:
/// `(e_a e_b) e_c = e_a (e_b e_c)`, index and sign alike.
pub proof fn lemma_basis_product_associative(a: usize, b: usize, c: usize, metric: Seq<Signature>)
    ensures
        (a ^ b) ^ c == a ^ (b ^ c),
        basis_product_sign(a, b, metric) * basis_product_sign(a ^ b, c, metric)
            == basis_product_sign(b, c, metric) * basis_product_sign(a, b ^ c, metric),
{
    assert((a ^ b) ^ c == a ^ (b ^ c) && (a & b) & ((a ^ b) & c) == 0 && (b & c) & (a & (b ^ c))
        == 0 && (a & b) | ((a ^ b) & c) == (b & c) | (a & (b ^ c))) by (bit_vector);
    let n = BASIS_VECTORS;
    // squares of the shared vectors: both sides square the vectors shared by two of the three
    lemma_metric_factor_disjoint(a & b, (a ^ b) & c, metric, n);
    lemma_metric_factor_disjoint(b & c, a & (b ^ c), metric, n);
    let m1 = metric_factor(a & b, metric, n);
    let m2 = metric_factor((a ^ b) & c, metric, n);
    let m3 = metric_factor(b & c, metric, n);
    let m4 = metric_factor(a & (b ^ c), metric, n);
    // reordering: both sides cross every pair once, up to pairs crossed twice
    lemma_crossings_others_xor(c, a, b, n);
    lemma_crossings_marks_xor(b, c, a, n);
    let n1 = reorder_swaps(a, b);
    let n2 = reorder_swaps(a ^ b, c);
    let n3 = reorder_swaps(b, c);
    let n4 = reorder_swaps(a, b ^ c);
    assert((n1 + n2) % 2 == (n3 + n4) % 2);
    lemma_parity_sign_add(n1, n2);
    lemma_parity_sign_add(n3, n4);
    let p1 = parity_sign(n1);
    let p2 = parity_sign(n2);
    let p3 = parity_sign(n3);
    let p4 = parity_sign(n4);
    assert((m1 * p1) * (m2 * p2) == (m3 * p3) * (m4 * p4)) by (nonlinear_arith)
        requires
            m1 * m2 == m3 * m4,
            p1 * p2 == p3 * p4,
    ;
}

/// For each factor `e_i`, `i < n`, of `e_a`, the number of factors `e_j` of `e_b`
/// with `lo <= j < i`, summed.
pub open spec fn pairs_below(a: usize, b: usize, lo: usize, n: usize) -> nat
    decreases n,
{
    if n == 0 {
        0
    } else {
        pairs_below(a, b, lo, (n - 1) as usize) + if has_bit(a, (n - 1) as usize) {
            bits_between(b, lo, (n - 1) as usize)
        } else {
            0
        }
    }
}

/// The number of pairs of a factor `e_i` of `e_a` and a factor `e_j` of `e_b`
/// with `i > j`: the factors that stand in the wrong order in `e_a e_b`.
pub open spec fn descending_pairs(a: usize, b: usize) -> nat {
    pairs_below(a, b, 0, BASIS_VECTORS)
}

/// Splits off the lowest position of a bit count.
proof fn lemma_bits_between_low(x: usize, lo: usize, hi: usize)
    requires
        lo < hi,
    ensures
        bits_between(x, lo, hi) == (if has_bit(x, lo) {
            1nat
        } else {
            0nat
        }) + bits_between(x, (lo + 1) as usize, hi),
    decreases hi,
{
    if lo + 1 < hi {
        lemma_bits_between_low(x, lo, (hi - 1) as usize);
    } else {
        assert(bits_between(x, lo, lo) == 0);
        assert(bits_between(x, (lo + 1) as usize, hi) == 0);
    }
}

proof fn lemma_pairs_below_step(a: usize, b: usize, m: usize, n: usize)
    requires
        m < BASIS_VECTORS,
        n <= BASIS_VECTORS,
    ensures
        pairs_below(a, b, m, n) == pairs_below(a, b, (m + 1) as usize, n) + if has_bit(b, m) {
            bits_between(a, (m + 1) as usize, n)
        } else {
            0
        },
    decreases n,
{
    if n > 0 {
        let i = (n - 1) as usize;
        lemma_pairs_below_step(a, b, m, i);
        if m < i {
            lemma_bits_between_low(b, m, i);
        }
    }
}

proof fn lemma_pairs_below_empty(a: usize, b: usize, n: usize)
    requires
        n <= BASIS_VECTORS,
    ensures
        pairs_below(a, b, BASIS_VECTORS, n) == 0,
    decreases n,
{
    if n > 0 {
        lemma_pairs_below_empty(a, b, (n - 1) as usize);
    }
}

proof fn lemma_crossings_are_descending_pairs(a: usize, b: usize, m: usize)
    requires
        m <= BASIS_VECTORS,
    ensures
        crossings(b, a, m) + pairs_below(a, b, m, BASIS_VECTORS) == descending_pairs(a, b),
    decreases m,
{
    if m > 0 {
        let j = (m - 1) as usize;
        lemma_crossings_are_descending_pairs(a, b, j);
        lemma_pairs_below_step(a, b, j, BASIS_VECTORS);
    }
}

/// The sign of the product `e_a e_b` of two basis blades is the product of the
/// squares of their shared basis vectors times `(-1)` to the number of pairs
/// of a factor of `e_a` that stands above a factor of `e_b`.
pub proof fn lemma_basis_product_sign_counts_descending_pairs(
    a: usize,
    b: usize,
    metric: Seq<Signature>,
)
    ensures
        basis_product_sign(a, b, metric) == metric_factor(a & b, metric, BASIS_VECTORS)
            * parity_sign(descending_pairs(a, b)),
{
    lemma_crossings_are_descending_pairs(a, b, BASIS_VECTORS);
    lemma_pairs_below_empty(a, b, BASIS_VECTORS);
}

proof fn lemma_bits_between_absent(x: usize, lo: usize, hi: usize)
    requires
        forall|t: usize| lo <= t < hi ==> !has_bit(x, t),
    ensures
        bits_between(x, lo, hi) == 0,
    decreases hi,
{
    if hi > lo {
        lemma_bits_between_absent(x, lo, (hi - 1) as usize);
    }
}

/// Two blades whose factors are already in canonical order, every factor of
/// `e_a` below `k` and every factor of `e_b` at or above `k`, multiply to
/// `e_{a ^ b}` with sign `+1`, whatever the metric.
pub proof fn lemma_canonical_order_product(a: usize, b: usize, k: usize, metric: Seq<Signature>)
    requires
        k <= BASIS_VECTORS,
        a < (1usize << k),
        (b >> k) << k == b,
    ensures
        a & b == 0,
        basis_product_sign(a, b, metric) == 1,
{
    assert(a & b == 0) by (bit_vector)
        requires
            k <= 5,
            a < (1usize << k),
            (b >> k) << k == b,
    ;
    assert forall|t: usize| t < BASIS_VECTORS implies (has_bit(a, t) ==> t < k) && (has_bit(b, t)
        ==> t >= k) by {
        assert((a & (1usize << t) != 0 ==> t < k) && (b & (1usize << t) != 0 ==> t >= k))
            by (bit_vector)
            requires
                k <= 5,
                t < 5,
                a < (1usize << k),
                (b >> k) << k == b,
        ;
    }
    lemma_basis_product_sign_counts_descending_pairs(a, b, metric);
    lemma_descending_pairs_none(a, b, k, BASIS_VECTORS);
    lemma_metric_factor_none(metric, BASIS_VECTORS);
}

proof fn lemma_descending_pairs_none(a: usize, b: usize, k: usize, n: usize)
    requires
        n <= BASIS_VECTORS,
        forall|t: usize| t < BASIS_VECTORS ==> (has_bit(a, t) ==> t < k) && (has_bit(b, t) ==> t >= k),
    ensures
        pairs_below(a, b, 0, n) == 0,
    decreases n,
{
    if n > 0 {
        let i = (n - 1) as usize;
        lemma_descending_pairs_none(a, b, k, i);
        if has_bit(a, i) {
            lemma_bits_between_absent(b, 0, i);
        }
    }
}

/// The number of pairs among `g` things.
pub open spec fn pairs_of(g: nat) -> nat {
    (g * (g - 1) / 2) as nat
}

proof fn lemma_self_pairs(a: usize, n: usize)
    requires
        n <= BASIS_VECTORS,
    ensures
        pairs_below(a, a, 0, n) == pairs_of(bits_between(a, 0, n)),
    decreases n,
{
    if n > 0 {
        let i = (n - 1) as usize;
        lemma_self_pairs(a, i);
        let g = bits_between(a, 0, i);
        assert(g * (g - 1) >= 0) by (nonlinear_arith);
        if has_bit(a, i) {
            assert((g + 1) * g / 2 == g * (g - 1) / 2 + g) by (nonlinear_arith);
            assert(bits_between(a, 0, n) == g + 1);
            assert(pairs_of(g + 1) == pairs_of(g) + g);
            assert(pairs_below(a, a, 0, n) == pairs_below(a, a, 0, i) + g);
        } else {
            assert(bits_between(a, 0, n) == g);
            assert(pairs_below(a, a, 0, n) == pairs_below(a, a, 0, i));
        }
    } else {
        assert(0 * (0 - 1) == 0) by (nonlinear_arith);
        assert(pairs_of(0) == 0);
    }
}

/// A basis blade `e_a` of grade `g` (its number of factors) squares to its
/// reversal sign `(-1)^(g (g - 1) / 2)` times the squares of its factors.
pub proof fn lemma_blade_square(a: usize, metric: Seq<Signature>)
    ensures
        a ^ a == 0,
        basis_product_sign(a, a, metric) == reversal_sign(bits_between(a, 0, BASIS_VECTORS))
            * metric_factor(a, metric, BASIS_VECTORS),
{
    assert(a ^ a == 0 && a & a == a) by (bit_vector);
    lemma_basis_product_sign_counts_descending_pairs(a, a, metric);
    lemma_self_pairs(a, BASIS_VECTORS);
    let g = bits_between(a, 0, BASIS_VECTORS);
    assert(g * (g - 1) >= 0) by (nonlinear_arith);
    assert(reversal_sign(g) == parity_sign(pairs_of(g)));
    let f = metric_factor(a, metric, BASIS_VECTORS);
    let r = reversal_sign(g);
    assert(f * r == r * f) by (nonlinear_arith);
}

/// Reversing one more factor moves it past all the others: the reversal sign
/// of grade `g + 1` is that of grade `g` times `(-1)^g`, and grade 0 keeps its sign.
pub proof fn lemma_reversal_sign_step(g: nat)
    ensures
        reversal_sign(0) == 1,
        reversal_sign(g + 1) == reversal_sign(g) * parity_sign(g),
{
    assert((g + 1) * g == g * (g - 1) + 2 * g) by (nonlinear_arith);
    assert(g * (g - 1) >= 0) by (nonlinear_arith);
    let h = g * (g - 1);
    assert((h + 2 * g) / 2 == h / 2 + g);
}

/// Some basis vector `e_t`, `t < m`, among the set bits of `shared` squares to 0.
pub open spec fn has_null_factor(shared: usize, metric: Seq<Signature>, m: usize) -> bool
    decreases m,
{
    m > 0 && (has_null_factor(shared, metric, (m - 1) as usize) || (has_bit(shared, (m - 1) as usize)
        && metric[m - 1] == Signature::Null))
}

/// The number of basis vectors `e_t`, `t < m`, among the set bits of `shared`
/// that square to -1.
pub open spec fn negative_factors(shared: usize, metric: Seq<Signature>, m: usize) -> nat
    decreases m,
{
    if m == 0 {
        0
    } else {
        negative_factors(shared, metric, (m - 1) as usize) + if has_bit(shared, (m - 1) as usize)
            && metric[m - 1] == Signature::Negative {
            1nat
        } else {
            0nat
        }
    }
}

proof fn lemma_metric_factor_counts(shared: usize, metric: Seq<Signature>, m: usize)
    ensures
        metric_factor(shared, metric, m) == if has_null_factor(shared, metric, m) {
            0
        } else {
            parity_sign(negative_factors(shared, metric, m))
        },
    decreases m,
{
    if m > 0 {
        let t = (m - 1) as usize;
        lemma_metric_factor_counts(shared, metric, t);
        let prev = metric_factor(shared, metric, t);
        let v = if has_bit(shared, t) {
            signature_value(metric[t as int])
        } else {
            1
        };
        let n = negative_factors(shared, metric, t);
        if has_null_factor(shared, metric, t) {
            assert(prev * v == 0) by (nonlinear_arith)
                requires
                    prev == 0,
            ;
        } else if has_bit(shared, t) && metric[t as int] == Signature::Null {
            assert(prev * v == 0) by (nonlinear_arith)
                requires
                    v == 0,
            ;
        } else if has_bit(shared, t) && metric[t as int] == Signature::Negative {
            assert(prev * v == -prev) by (nonlinear_arith)
                requires
                    v == -1,
            ;
        } else {
            assert(prev * v == prev) by (nonlinear_arith)
                requires
                    v == 1,
            ;
        }
    }
}

/// The sign of `e_a e_b` in closed form: 0 when the blades share a basis vector
/// that squares to 0, and otherwise `(-1)` to the number of pairs of a factor
/// of `e_a` above a factor of `e_b`, plus the number of shared basis vectors
/// that square to -1.
pub proof fn lemma_basis_product_sign_closed_form(a: usize, b: usize, metric: Seq<Signature>)
    ensures
        basis_product_sign(a, b, metric) == if has_null_factor(a & b, metric, BASIS_VECTORS) {
            0
        } else {
            parity_sign(descending_pairs(a, b) + negative_factors(a & b, metric, BASIS_VECTORS))
        },
{
    lemma_basis_product_sign_counts_descending_pairs(a, b, metric);
    lemma_metric_factor_counts(a & b, metric, BASIS_VECTORS);
    let d = descending_pairs(a, b);
    let n = negative_factors(a & b, metric, BASIS_VECTORS);
    lemma_parity_sign_add(n, d);
    let p = parity_sign(d);
    assert(0 * p == 0) by (nonlinear_arith);
    assert(parity_sign(n) * p == parity_sign(d + n));
}

/// A single basis vector has grade 1, the scalar blade grade 0; with
/// `lemma_product_grade` this fixes the grade of every blade index.
pub proof fn lemma_popcount_basis(t: usize)
    requires
        t < usize::BITS,
    ensures
        popcount(0) == 0,
        popcount((1usize << t) as nat) == 1,
    decreases t,
{
    if t == 0 {
        assert(1usize << 0usize == 1) by (bit_vector);
        assert(popcount(0) == 0);
    } else {
        let u = (t - 1) as usize;
        lemma_popcount_basis(u);
        assert((1usize << t) % 2 == 0 && (1usize << t) / 2 == 1usize << u) by (bit_vector)
            requires
                t < usize::BITS,
                t >= 1,
                u == t - 1,
        ;
    }
}

} // verus!
