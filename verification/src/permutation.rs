//! Signs of permutations of basis-vector indices.
//!
//! The sign of a sequence of indices is `(-1)^inversions`, where an inversion is
//! a pair of positions `p < q` whose entries stand in the wrong order.

use vstd::prelude::*;

verus! {

/// The sum of `f(i)` over `lo <= i < hi`.
pub open spec fn sum(lo: int, hi: int, f: spec_fn(int) -> int) -> int
    decreases hi - lo,
{
    if lo >= hi {
        0
    } else {
        f(lo) + sum(lo + 1, hi, f)
    }
}

/// 1 when `x > y`, else 0.
pub open spec fn gt_ind(x: usize, y: usize) -> int {
    if x > y {
        1
    } else {
        0
    }
}

/// For a fixed position `q`, the function `p |-> [s[p] > s[q]]`.
pub open spec fn row_term(s: Seq<usize>, q: int) -> spec_fn(int) -> int {
    |p: int| gt_ind(s[p], s[q])
}

/// The number of positions `p < q` with `s[p] > s[q]`.
pub open spec fn column(s: Seq<usize>, q: int) -> int {
    sum(0, q, row_term(s, q))
}

/// The function `q |-> column(s, q)`.
pub open spec fn column_fn(s: Seq<usize>) -> spec_fn(int) -> int {
    |q: int| column(s, q)
}

/// The number of inversions of `s`: pairs of positions `p < q` with `s[p] > s[q]`.
pub open spec fn inversions(s: Seq<usize>) -> int {
    sum(0, s.len() as int, column_fn(s))
}

/// The sign `(-1)^inversions(s)` of an arrangement of indices.
pub open spec fn arrangement_sign(s: Seq<usize>) -> int {
    if inversions(s) % 2 == 0 {
        1
    } else {
        -1
    }
}

/// `s` holds each of `0, ..., n - 1` exactly once.
pub open spec fn is_permutation_of_range(s: Seq<usize>, n: nat) -> bool {
    &&& s.len() == n
    &&& s.no_duplicates()
    &&& forall|i: int| 0 <= i < s.len() ==> #[trigger] s[i] < n
}

/// `s` with the entries at positions `a` and `b` exchanged.
pub open spec fn swapped(s: Seq<usize>, a: int, b: int) -> Seq<usize> {
    s.update(a, s[b]).update(b, s[a])
}

proof fn lemma_sum_split(lo: int, mid: int, hi: int, f: spec_fn(int) -> int)
    requires
        lo <= mid <= hi,
    ensures
        sum(lo, hi, f) == sum(lo, mid, f) + sum(mid, hi, f),
    decreases mid - lo,
{
    if lo < mid {
        lemma_sum_split(lo + 1, mid, hi, f);
    }
}

proof fn lemma_sum_ext(lo: int, hi: int, f: spec_fn(int) -> int, g: spec_fn(int) -> int)
    requires
        forall|i: int| lo <= i < hi ==> #[trigger] f(i) == g(i),
    ensures
        sum(lo, hi, f) == sum(lo, hi, g),
    decreases hi - lo,
{
    if lo < hi {
        lemma_sum_ext(lo + 1, hi, f, g);
    }
}

proof fn lemma_sum_add(
    lo: int,
    hi: int,
    f: spec_fn(int) -> int,
    g: spec_fn(int) -> int,
    h: spec_fn(int) -> int,
)
    requires
        forall|i: int| lo <= i < hi ==> #[trigger] h(i) == f(i) + g(i),
    ensures
        sum(lo, hi, f) + sum(lo, hi, g) == sum(lo, hi, h),
    decreases hi - lo,
{
    if lo < hi {
        lemma_sum_add(lo + 1, hi, f, g, h);
    }
}

proof fn lemma_sum_sub(
    lo: int,
    hi: int,
    f: spec_fn(int) -> int,
    g: spec_fn(int) -> int,
    h: spec_fn(int) -> int,
)
    requires
        forall|i: int| lo <= i < hi ==> #[trigger] h(i) == f(i) - g(i),
    ensures
        sum(lo, hi, f) - sum(lo, hi, g) == sum(lo, hi, h),
    decreases hi - lo,
{
    if lo < hi {
        lemma_sum_sub(lo + 1, hi, f, g, h);
    }
}

proof fn lemma_sum_even(lo: int, hi: int, f: spec_fn(int) -> int)
    requires
        forall|i: int| lo <= i < hi ==> #[trigger] f(i) % 2 == 0,
    ensures
        sum(lo, hi, f) % 2 == 0,
    decreases hi - lo,
{
    if lo < hi {
        lemma_sum_even(lo + 1, hi, f);
    }
}

proof fn lemma_sum_zero(lo: int, hi: int, f: spec_fn(int) -> int)
    requires
        forall|i: int| lo <= i < hi ==> #[trigger] f(i) == 0,
    ensures
        sum(lo, hi, f) == 0,
    decreases hi - lo,
{
    if lo < hi {
        lemma_sum_zero(lo + 1, hi, f);
    }
}

proof fn lemma_sum_one(i: int, f: spec_fn(int) -> int)
    ensures
        sum(i, i + 1, f) == f(i),
{
    assert(sum(i + 1, i + 1, f) == 0);
}

/// Splits `sum(lo, hi, f)` around the two positions `a < b`.
proof fn lemma_sum_split_around(lo: int, a: int, b: int, hi: int, f: spec_fn(int) -> int)
    requires
        lo <= a < b < hi,
    ensures
        sum(lo, hi, f) == sum(lo, a, f) + f(a) + sum(a + 1, b, f) + f(b) + sum(b + 1, hi, f),
{
    lemma_sum_split(lo, a, hi, f);
    lemma_sum_split(a, a + 1, hi, f);
    lemma_sum_split(a + 1, b, hi, f);
    lemma_sum_split(b, b + 1, hi, f);
    lemma_sum_one(a, f);
    lemma_sum_one(b, f);
}

/// A column to the right of both swapped positions keeps its count.
proof fn lemma_column_right(s: Seq<usize>, a: int, b: int, q: int)
    requires
        0 <= a < b < q < s.len(),
    ensures
        column(swapped(s, a, b), q) == column(s, q),
{
    let t = swapped(s, a, b);
    let fs = row_term(s, q);
    let ft = row_term(t, q);
    lemma_sum_split_around(0, a, b, q, fs);
    lemma_sum_split_around(0, a, b, q, ft);
    lemma_sum_ext(0, a, fs, ft);
    lemma_sum_ext(a + 1, b, fs, ft);
    lemma_sum_ext(b + 1, q, fs, ft);
}

/// A column to the left of both swapped positions keeps its count.
proof fn lemma_column_left(s: Seq<usize>, a: int, b: int, q: int)
    requires
        0 <= q < a < b < s.len(),
    ensures
        column(swapped(s, a, b), q) == column(s, q),
{
    let t = swapped(s, a, b);
    lemma_sum_ext(0, q, row_term(s, q), row_term(t, q));
}

/// A column strictly between the swapped positions changes by the comparison
/// of its entry with the two exchanged entries.
proof fn lemma_column_between(s: Seq<usize>, a: int, b: int, q: int)
    requires
        0 <= a < q < b < s.len(),
    ensures
        column(s, q) - column(swapped(s, a, b), q) == gt_ind(s[a], s[q]) - gt_ind(s[b], s[q]),
{
    let t = swapped(s, a, b);
    let fs = row_term(s, q);
    let ft = row_term(t, q);
    lemma_sum_split(0, a, q, fs);
    lemma_sum_split(a, a + 1, q, fs);
    lemma_sum_split(0, a, q, ft);
    lemma_sum_split(a, a + 1, q, ft);
    lemma_sum_one(a, fs);
    lemma_sum_one(a, ft);
    lemma_sum_ext(0, a, fs, ft);
    lemma_sum_ext(a + 1, q, fs, ft);
}

/// Exchanging two entries `s[a] > s[b]` (with `a < b`) of a sequence without
/// repeated entries changes the number of inversions by an odd amount.
pub proof fn lemma_swap_flips_parity(s: Seq<usize>, a: int, b: int)
    requires
        0 <= a < b < s.len(),
        s[a] > s[b],
        s.no_duplicates(),
    ensures
        (inversions(s) - inversions(swapped(s, a, b))) % 2 == 1,
{
    let n = s.len() as int;
    let t = swapped(s, a, b);
    assert(t.len() == n);
    let cs = column_fn(s);
    let ct = column_fn(t);
    // outer split
    lemma_sum_split_around(0, a, b, n, cs);
    lemma_sum_split_around(0, a, b, n, ct);
    assert forall|q: int| 0 <= q < a implies #[trigger] cs(q) == ct(q) by {
        lemma_column_left(s, a, b, q);
    }
    lemma_sum_ext(0, a, cs, ct);
    assert forall|q: int| b + 1 <= q < n implies #[trigger] cs(q) == ct(q) by {
        lemma_column_right(s, a, b, q);
    }
    lemma_sum_ext(b + 1, n, cs, ct);
    // middle columns
    let m_fn = |q: int| gt_ind(s[a], s[q]) - gt_ind(s[b], s[q]);
    assert forall|q: int| a + 1 <= q < b implies #[trigger] m_fn(q) == cs(q) - ct(q) by {
        lemma_column_between(s, a, b, q);
    }
    lemma_sum_sub(a + 1, b, cs, ct, m_fn);
    // column a
    let rsa = row_term(s, a);
    let rsb = row_term(s, b);
    let rta = row_term(t, a);
    let rtb = row_term(t, b);
    lemma_sum_ext(0, a, rta, rsb);
    // column b
    lemma_sum_split_around(0, a, b, b + 1, rsb);
    lemma_sum_split_around(0, a, b, b + 1, rtb);
    assert(sum(b + 1, b + 1, rsb) == 0);
    assert(sum(b + 1, b + 1, rtb) == 0);
    lemma_sum_split(0, b, b + 1, rsb);
    lemma_sum_split(0, b, b + 1, rtb);
    lemma_sum_one(b, rsb);
    lemma_sum_one(b, rtb);
    lemma_sum_split(0, a, b, rsb);
    lemma_sum_split(a, a + 1, b, rsb);
    lemma_sum_one(a, rsb);
    lemma_sum_split(0, a, b, rtb);
    lemma_sum_split(a, a + 1, b, rtb);
    lemma_sum_one(a, rtb);
    lemma_sum_ext(0, a, rtb, rsa);
    let n_fn = |p: int| gt_ind(s[p], s[b]) - gt_ind(s[p], s[a]);
    assert forall|p: int| a + 1 <= p < b implies #[trigger] n_fn(p) == rsb(p) - rtb(p) by {}
    lemma_sum_sub(a + 1, b, rsb, rtb, n_fn);
    assert(cs(a) - ct(a) + cs(b) - ct(b) == 1 + sum(a + 1, b, n_fn));
    // every middle position contributes an even amount
    let e_fn = |m: int| n_fn(m) + m_fn(m);
    lemma_sum_add(a + 1, b, n_fn, m_fn, e_fn);
    assert forall|m: int| a + 1 <= m < b implies #[trigger] e_fn(m) % 2 == 0 by {
        assert(s[m] != s[a]);
        assert(s[m] != s[b]);
    }
    lemma_sum_even(a + 1, b, e_fn);
    assert(inversions(s) - inversions(t) == 1 + sum(a + 1, b, e_fn));
}

/// For a fixed position `q` of `b`, the function `p |-> [a[p] > b[q]]`.
pub open spec fn cross_row(a: Seq<usize>, b: Seq<usize>, q: int) -> spec_fn(int) -> int {
    |p: int| gt_ind(a[p], b[q])
}

/// For each position `q` of `b`, the number of entries of `a` greater than `b[q]`.
pub open spec fn cross_column_fn(a: Seq<usize>, b: Seq<usize>) -> spec_fn(int) -> int {
    |q: int| sum(0, a.len() as int, cross_row(a, b, q))
}

/// The number of pairs of an entry of `a` and an entry of `b` where the entry
/// of `a` is the greater: the inversions that `a ++ b` has across the join.
pub open spec fn cross_inversions(a: Seq<usize>, b: Seq<usize>) -> int {
    sum(0, b.len() as int, cross_column_fn(a, b))
}

proof fn lemma_sum_shift(lo: int, hi: int, d: int, f: spec_fn(int) -> int, g: spec_fn(int) -> int)
    requires
        forall|i: int| lo <= i < hi ==> #[trigger] g(i) == f(i + d),
    ensures
        sum(lo + d, hi + d, f) == sum(lo, hi, g),
    decreases hi - lo,
{
    if lo < hi {
        lemma_sum_shift(lo + 1, hi, d, f, g);
    }
}

proof fn lemma_sum_const(lo: int, hi: int, f: spec_fn(int) -> int, c: int)
    requires
        lo <= hi,
        forall|i: int| lo <= i < hi ==> #[trigger] f(i) == c,
    ensures
        sum(lo, hi, f) == (hi - lo) * c,
    decreases hi - lo,
{
    if lo < hi {
        lemma_sum_const(lo + 1, hi, f, c);
        assert(c + (hi - (lo + 1)) * c == (hi - lo) * c) by (nonlinear_arith);
    } else {
        assert((hi - lo) * c == 0) by (nonlinear_arith)
            requires
                hi == lo,
        ;
    }
}

pub open spec fn entry_fn(f: spec_fn(int, int) -> int, i: int) -> spec_fn(int) -> int {
    |j: int| f(i, j)
}

pub open spec fn column_entry_fn(f: spec_fn(int, int) -> int, j: int) -> spec_fn(int) -> int {
    |i: int| f(i, j)
}

pub open spec fn row_sums(f: spec_fn(int, int) -> int, n: int) -> spec_fn(int) -> int {
    |i: int| sum(0, n, entry_fn(f, i))
}

pub open spec fn column_sums(f: spec_fn(int, int) -> int, m: int) -> spec_fn(int) -> int {
    |j: int| sum(0, m, column_entry_fn(f, j))
}

/// A finite double sum may be taken in either order.
proof fn lemma_sum_swap_order(f: spec_fn(int, int) -> int, m: int, n: int)
    requires
        0 <= m,
        0 <= n,
    ensures
        sum(0, m, row_sums(f, n)) == sum(0, n, column_sums(f, m)),
    decreases m,
{
    if m == 0 {
        let cz = column_sums(f, 0);
        assert forall|j: int| 0 <= j < n implies #[trigger] cz(j) == 0 by {}
        lemma_sum_zero(0, n, cz);
    } else {
        lemma_sum_swap_order(f, m - 1, n);
        lemma_sum_split(0, m - 1, m, row_sums(f, n));
        lemma_sum_one(m - 1, row_sums(f, n));
        let prev = column_sums(f, m - 1);
        let last = entry_fn(f, m - 1);
        let cur = column_sums(f, m);
        assert forall|j: int| 0 <= j < n implies #[trigger] cur(j) == prev(j) + last(j) by {
            lemma_sum_split(0, m - 1, m, column_entry_fn(f, j));
            lemma_sum_one(m - 1, column_entry_fn(f, j));
        }
        lemma_sum_add(0, n, prev, last, cur);
    }
}

/// The inversions of `a ++ b` are those within `a`, those within `b`, and those
/// across the join.
pub proof fn lemma_inversions_concat(a: Seq<usize>, b: Seq<usize>)
    ensures
        inversions(a + b) == inversions(a) + inversions(b) + cross_inversions(a, b),
{
    let s = a + b;
    let la = a.len() as int;
    let lb = b.len() as int;
    let cs = column_fn(s);
    lemma_sum_split(0, la, la + lb, cs);
    assert forall|q: int| 0 <= q < la implies #[trigger] cs(q) == column_fn(a)(q) by {
        lemma_sum_ext(0, q, row_term(s, q), row_term(a, q));
    }
    lemma_sum_ext(0, la, cs, column_fn(a));
    let h = |q: int| cross_column_fn(a, b)(q) + column_fn(b)(q);
    let shifted = |q: int| cs(q + la);
    assert forall|q: int| 0 <= q < lb implies #[trigger] shifted(q) == h(q) by {
        let r = row_term(s, q + la);
        lemma_sum_split(0, la, q + la, r);
        lemma_sum_ext(0, la, r, cross_row(a, b, q));
        lemma_sum_shift(0, q, la, r, row_term(b, q));
    }
    lemma_sum_shift(0, lb, la, cs, shifted);
    lemma_sum_ext(0, lb, shifted, h);
    lemma_sum_add(0, lb, cross_column_fn(a, b), column_fn(b), h);
}

/// Across the join, the inversions of `a ++ b` and of `b ++ a` together count
/// every pair of an entry of `a` and an entry of `b` once.
proof fn lemma_cross_inversions_complement(a: Seq<usize>, b: Seq<usize>)
    requires
        (a + b).no_duplicates(),
    ensures
        cross_inversions(a, b) + cross_inversions(b, a) == a.len() * b.len(),
{
    let la = a.len() as int;
    let lb = b.len() as int;
    assert forall|i: int, j: int| 0 <= i < la && 0 <= j < lb implies a[i] != b[j] by {
        assert((a + b)[i] == a[i]);
        assert((a + b)[la + j] == b[j]);
    }
    let f = |i: int, j: int| gt_ind(b[j], a[i]);
    // cross_inversions(b, a) sums over columns of `a`, rows of `b`.
    assert forall|i: int| 0 <= i < la implies #[trigger] cross_column_fn(b, a)(i) == row_sums(
        f,
        lb,
    )(i) by {
        lemma_sum_ext(0, lb, cross_row(b, a, i), entry_fn(f, i));
    }
    lemma_sum_ext(0, la, cross_column_fn(b, a), row_sums(f, lb));
    lemma_sum_swap_order(f, la, lb);
    let ones = |j: int| la;
    assert forall|j: int| 0 <= j < lb implies #[trigger] ones(j) == cross_column_fn(a, b)(j)
        + column_sums(f, la)(j) by {
        let g = |i: int| 1int;
        assert forall|i: int| 0 <= i < la implies #[trigger] g(i) == cross_row(a, b, j)(i)
            + column_entry_fn(f, j)(i) by {}
        lemma_sum_add(0, la, cross_row(a, b, j), column_entry_fn(f, j), g);
        lemma_sum_const(0, la, g, 1);
    }
    lemma_sum_add(0, lb, cross_column_fn(a, b), column_sums(f, la), ones);
    lemma_sum_const(0, lb, ones, la);
    assert(lb * la == a.len() * b.len()) by (nonlinear_arith)
        requires
            la == a.len(),
            lb == b.len(),
    ;
}

/// Exchanging two blocks of indices: the arrangements `a ++ b` and `b ++ a` of
/// distinct indices differ in sign by `(-1)^(|a| |b|)`. Hence the Hodge dual
/// applied twice to a grade-k blade in n dimensions gives back the blade up to
/// the sign `(-1)^(k (n - k))`.
pub proof fn lemma_block_exchange_sign(a: Seq<usize>, b: Seq<usize>, n: nat)
    requires
        (a + b).no_duplicates(),
    ensures
        arrangement_sign(a + b) * arrangement_sign(b + a) == if (a.len() * b.len()) % 2 == 0 {
            1
        } else {
            -1
        },
        is_permutation_of_range(a + b, n) ==> is_permutation_of_range(b + a, n),
{
    lemma_inversions_concat(a, b);
    lemma_inversions_concat(b, a);
    lemma_cross_inversions_complement(a, b);
    let la = a.len() as int;
    let lb = b.len() as int;
    let s = a + b;
    let t = b + a;
    assert forall|i: int| 0 <= i < t.len() implies #[trigger] t[i] == if i < lb {
        s[la + i]
    } else {
        s[i - lb]
    } by {}
    if is_permutation_of_range(s, n) {
        assert forall|i: int, j: int| 0 <= i < t.len() && 0 <= j < t.len() && i != j implies t[i]
            != t[j] by {
            let pi = if i < lb {
                la + i
            } else {
                i - lb
            };
            let pj = if j < lb {
                la + j
            } else {
                j - lb
            };
            assert(t[i] == s[pi]);
            assert(t[j] == s[pj]);
        }
        assert forall|i: int| 0 <= i < t.len() implies #[trigger] t[i] < n by {
            if i < lb {
                assert(t[i] == s[la + i]);
            } else {
                assert(t[i] == s[i - lb]);
            }
        }
    }
}

/// Exchanging two entries keeps the multiset of entries.
proof fn lemma_swapped_multiset(s: Seq<usize>, a: int, b: int)
    requires
        0 <= a < b < s.len(),
    ensures
        swapped(s, a, b).to_multiset() =~= s.to_multiset(),
        s.no_duplicates() ==> swapped(s, a, b).no_duplicates(),
{
    broadcast use vstd::seq_lib::group_to_multiset_ensures, vstd::multiset::group_multiset_axioms;

    let u = s.update(a, s[b]);
    vstd::seq_lib::to_multiset_update(s, a, s[b]);
    vstd::seq_lib::to_multiset_update(u, b, s[a]);
    assert(u[b] == s[b]);
    let t = swapped(s, a, b);
    if s.no_duplicates() {
        assert forall|i: int, j: int| 0 <= i < t.len() && 0 <= j < t.len() && i != j implies t[i]
            != t[j] by {
            let pi = if i == a {
                b
            } else if i == b {
                a
            } else {
                i
            };
            let pj = if j == a {
                b
            } else if j == b {
                a
            } else {
                j
            };
            assert(t[i] == s[pi]);
            assert(t[j] == s[pj]);
        }
    }
}

/// A sequence in non-decreasing order has no inversions.
proof fn lemma_sorted_no_inversions(s: Seq<usize>)
    requires
        forall|p: int, q: int| 0 <= p < q < s.len() ==> s[p] <= s[q],
    ensures
        inversions(s) == 0,
{
    let cs = column_fn(s);
    assert forall|q: int| 0 <= q < s.len() implies #[trigger] cs(q) == 0 by {
        let f = row_term(s, q);
        assert forall|p: int| 0 <= p < q implies #[trigger] f(p) == 0 by {}
        lemma_sum_zero(0, q, f);
    }
    lemma_sum_zero(0, s.len() as int, cs);
}

/// A strictly increasing sequence of `n` values below `n` is `0, 1, ..., n - 1`.
proof fn lemma_increasing_is_range(c: Seq<usize>, n: nat)
    requires
        c.len() == n,
        forall|p: int, q: int| 0 <= p < q < c.len() ==> c[p] < c[q],
        forall|i: int| 0 <= i < c.len() ==> #[trigger] c[i] < n,
    ensures
        forall|i: int| 0 <= i < c.len() ==> #[trigger] c[i] == i,
{
    assert forall|i: int| 0 <= i < c.len() implies #[trigger] c[i] == i by {
        lemma_increasing_lower(c, i);
        lemma_increasing_upper(c, n, i);
    }
}

proof fn lemma_increasing_lower(c: Seq<usize>, i: int)
    requires
        0 <= i < c.len(),
        forall|p: int, q: int| 0 <= p < q < c.len() ==> c[p] < c[q],
    ensures
        c[i] >= i,
    decreases i,
{
    if i > 0 {
        lemma_increasing_lower(c, i - 1);
    }
}

proof fn lemma_increasing_upper(c: Seq<usize>, n: nat, i: int)
    requires
        0 <= i < c.len(),
        c.len() == n,
        forall|p: int, q: int| 0 <= p < q < c.len() ==> c[p] < c[q],
        forall|i: int| 0 <= i < c.len() ==> #[trigger] c[i] < n,
    ensures
        c[i] <= i,
    decreases n - i,
{
    if i + 1 < n {
        lemma_increasing_upper(c, n, i + 1);
    }
}

/// A non-decreasing rearrangement `c` of `s` is `0, 1, ..., n - 1` exactly when
/// `s` holds each of `0, ..., n - 1` once.
proof fn lemma_sorted_rearrangement_is_range(c: Seq<usize>, s: Seq<usize>, n: nat)
    requires
        c.to_multiset() == s.to_multiset(),
        forall|p: int, q: int| 0 <= p < q < c.len() ==> c[p] <= c[q],
    ensures
        is_permutation_of_range(s, n) <==> (c.len() == n && forall|i: int|
            0 <= i < c.len() ==> #[trigger] c[i] == i),
{
    broadcast use vstd::seq_lib::group_to_multiset_ensures, vstd::multiset::group_multiset_axioms;

    assert(c.len() == s.len()) by {
        vstd::seq_lib::to_multiset_len(c);
        vstd::seq_lib::to_multiset_len(s);
    }
    if is_permutation_of_range(s, n) {
        s.lemma_multiset_has_no_duplicates();
        c.lemma_multiset_has_no_duplicates_conv();
        assert forall|i: int| 0 <= i < c.len() implies #[trigger] c[i] < n by {
            assert(c.contains(c[i]));
            assert(s.to_multiset().count(c[i]) > 0);
            assert(s.contains(c[i]));
        }
        assert forall|p: int, q: int| 0 <= p < q < c.len() implies c[p] < c[q] by {}
        lemma_increasing_is_range(c, n);
    }
    if c.len() == n && forall|i: int| 0 <= i < c.len() ==> #[trigger] c[i] == i {
        assert(c.no_duplicates());
        c.lemma_multiset_has_no_duplicates();
        s.lemma_multiset_has_no_duplicates_conv();
        assert forall|i: int| 0 <= i < s.len() implies #[trigger] s[i] < n by {
            assert(s.contains(s[i]));
            assert(c.to_multiset().count(s[i]) > 0);
            assert(c.contains(s[i]));
        }
    }
}

/// One pass of the exchange sort: from position `j` on, each entry smaller than
/// the entry at position `i` is exchanged with it. Gives the resulting sequence
/// and whether the pass made an odd number of exchanges.
pub open spec fn exchange_pass(s: Seq<usize>, i: int, j: int) -> (Seq<usize>, bool)
    decreases s.len() - j,
{
    if j < 0 || j >= s.len() || i < 0 || i >= s.len() {
        (s, false)
    } else {
        let t = if s[i] > s[j] {
            swapped(s, i, j)
        } else {
            s
        };
        let rest = exchange_pass(t, i, j + 1);
        (rest.0, (s[i] > s[j]) != rest.1)
    }
}

/// An exchange pass keeps the length of the sequence.
pub proof fn lemma_exchange_pass_len(s: Seq<usize>, i: int, j: int)
    ensures
        exchange_pass(s, i, j).0.len() == s.len(),
    decreases s.len() - j,
{
    if !(j < 0 || j >= s.len() || i < 0 || i >= s.len()) {
        let t = if s[i] > s[j] {
            swapped(s, i, j)
        } else {
            s
        };
        lemma_exchange_pass_len(t, i, j + 1);
    }
}

/// The exchange sort from position `i` on: a pass at each position in turn.
/// Gives the sorted sequence and whether an odd number of exchanges was made.
pub open spec fn exchange_sort_from(s: Seq<usize>, i: int) -> (Seq<usize>, bool)
    decreases s.len() - i,
{
    if i < 0 || i >= s.len() {
        (s, false)
    } else {
        let p = exchange_pass(s, i, i + 1);
        proof {
            lemma_exchange_pass_len(s, i, i + 1);
        }
        let r = exchange_sort_from(p.0, i + 1);
        (r.0, p.1 != r.1)
    }
}

/// Whether the exchange sort of `s` makes an odd number of exchanges.
pub open spec fn exchange_sort_odd(s: Seq<usize>) -> bool {
    exchange_sort_from(s, 0).1
}

/// Sorts `c` into non-decreasing order by exchanging out-of-order pairs, and
/// reports whether an odd number of exchanges was made.
fn sort_counting_exchanges(c: &mut Vec<usize>) -> (odd: bool)
    ensures
        final(c)@.to_multiset() == old(c)@.to_multiset(),
        forall|p: int, q: int| 0 <= p < q < final(c)@.len() ==> final(c)@[p] <= final(c)@[q],
        odd == exchange_sort_odd(old(c)@),
        old(c)@.no_duplicates() ==> odd == (inversions(old(c)@) % 2 == 1),
{
    let ghost orig = c@;
    let len = c.len();
    let mut odd = false;
    let mut i: usize = 0;
    while i < len
        invariant
            len == c@.len(),
            orig.len() == len,
            i <= len,
            c@.to_multiset() == orig.to_multiset(),
            forall|p: int, q: int| 0 <= p < i && p < q < len ==> c@[p] <= c@[q],
            orig.no_duplicates() ==> c@.no_duplicates(),
            orig.no_duplicates() ==> (inversions(c@) + if odd {
                1int
            } else {
                0int
            }) % 2 == inversions(orig) % 2,
            exchange_sort_odd(orig) == (odd != exchange_sort_from(c@, i as int).1),
        decreases len - i,
    {
        let mut j: usize = i + 1;
        proof {
            lemma_exchange_pass_len(c@, i as int, i + 1);
        }
        while j < len
            invariant
                len == c@.len(),
                orig.len() == len,
                i < len,
                i + 1 <= j <= len,
                c@.to_multiset() == orig.to_multiset(),
                forall|p: int, q: int| 0 <= p < i && p < q < len ==> c@[p] <= c@[q],
                forall|q: int| i < q < j ==> c@[i as int] <= #[trigger] c@[q],
                orig.no_duplicates() ==> c@.no_duplicates(),
                orig.no_duplicates() ==> (inversions(c@) + if odd {
                    1int
                } else {
                    0int
                }) % 2 == inversions(orig) % 2,
                exchange_sort_odd(orig) == (odd != (exchange_pass(c@, i as int, j as int).1
                    != exchange_sort_from(exchange_pass(c@, i as int, j as int).0, i + 1).1)),
            decreases len - j,
        {
            let ghost at_start = c@;
            if c[i] > c[j] {
                let ghost before = c@;
                proof {
                    lemma_swapped_multiset(before, i as int, j as int);
                    if orig.no_duplicates() {
                        lemma_swap_flips_parity(before, i as int, j as int);
                    }
                }
                let x = c[i];
                let y = c[j];
                c.set(i, y);
                c.set(j, x);
                assert(c@ == swapped(before, i as int, j as int));
                odd = !odd;
            }
            assert(exchange_pass(at_start, i as int, j as int).0 == exchange_pass(c@, i as int, j + 1).0);
            j = j + 1;
        }
        i = i + 1;
    }
    proof {
        lemma_sorted_no_inversions(c@);
    }
    odd
}

/// The sign of the arrangement `a_idx ++ b_idx` of the indices `0, ..., n - 1`:
/// `1` or `-1` by the parity of its inversions, and `0` when the two index lists
/// together are not an arrangement of `0, ..., n - 1`.
pub fn permutation_sign(a_idx: &[usize], b_idx: &[usize], n: usize) -> (res: i8)
    ensures
        is_permutation_of_range(a_idx@ + b_idx@, n as nat) ==> res == arrangement_sign(
            a_idx@ + b_idx@,
        ),
        !is_permutation_of_range(a_idx@ + b_idx@, n as nat) ==> res == 0,
{
    let mut combined: Vec<usize> = Vec::new();
    let mut i: usize = 0;
    while i < a_idx.len()
        invariant
            i <= a_idx@.len(),
            combined@ == a_idx@.subrange(0, i as int),
        decreases a_idx.len() - i,
    {
        combined.push(a_idx[i]);
        i = i + 1;
    }
    let mut j: usize = 0;
    while j < b_idx.len()
        invariant
            j <= b_idx@.len(),
            combined@ == a_idx@ + b_idx@.subrange(0, j as int),
        decreases b_idx.len() - j,
    {
        combined.push(b_idx[j]);
        j = j + 1;
    }
    assert(b_idx@.subrange(0, b_idx@.len() as int) == b_idx@);
    let ghost joined = combined@;
    let odd = sort_counting_exchanges(&mut combined);
    proof {
        lemma_sorted_rearrangement_is_range(combined@, joined, n as nat);
    }
    if combined.len() != n {
        return 0;
    }
    let mut k: usize = 0;
    while k < n
        invariant
            combined@.len() == n,
            k <= n,
            is_permutation_of_range(a_idx@ + b_idx@, n as nat) <==> (forall|m: int|
                0 <= m < combined@.len() ==> #[trigger] combined@[m] == m),
            forall|m: int| 0 <= m < k ==> #[trigger] combined@[m] == m,
        decreases n - k,
    {
        if combined[k] != k {
            assert(combined@[k as int] != k);
            return 0;
        }
        k = k + 1;
    }
    if odd {
        -1
    } else {
        1
    }
}

/// The sign of the arrangement `(i, j, k, l)` of four indices: `1` or `-1` by
/// the parity of the exchanges that sort it, which for four distinct indices is
/// the parity of its inversions.
pub fn permutation_sign_4(i: usize, j: usize, k: usize, l: usize) -> (res: i8)
    ensures
        res == if exchange_sort_odd(seq![i, j, k, l]) {
            -1
        } else {
            1
        },
        seq![i, j, k, l].no_duplicates() ==> res == arrangement_sign(seq![i, j, k, l]),
{
    let mut arr: Vec<usize> = Vec::new();
    arr.push(i);
    arr.push(j);
    arr.push(k);
    arr.push(l);
    assert(arr@ == seq![i, j, k, l]);
    if sort_counting_exchanges(&mut arr) {
        -1
    } else {
        1
    }
}

/// The sign that brings the concatenation of two bivector basis indices
/// `(i1, j1)` and `(i2, j2)` into increasing order: `1` or `-1` by the parity
/// of the exchanges that sort them, which for four distinct indices is the
/// parity of the inversions.
pub fn wedge_bivector_sign(i1: usize, j1: usize, i2: usize, j2: usize) -> (res: i8)
    ensures
        res == if exchange_sort_odd(seq![i1, j1, i2, j2]) {
            -1
        } else {
            1
        },
        seq![i1, j1, i2, j2].no_duplicates() ==> res == arrangement_sign(seq![i1, j1, i2, j2]),
{
    let mut arr: Vec<usize> = Vec::new();
    arr.push(i1);
    arr.push(j1);
    arr.push(i2);
    arr.push(j2);
    assert(arr@ == seq![i1, j1, i2, j2]);
    if sort_counting_exchanges(&mut arr) {
        -1
    } else {
        1
    }
}

} // verus!
