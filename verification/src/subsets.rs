//! The basis blades of grade k in n dimensions, as increasing index selections.

use vstd::prelude::*;
use crate::binomial::{binom, lemma_binom_above};

verus! {

/// `s` is a strictly increasing sequence of `k` indices drawn from `lo..n`.
pub open spec fn is_selection(s: Seq<usize>, lo: nat, n: nat, k: nat) -> bool {
    &&& s.len() == k
    &&& forall|i: int| 0 <= i < s.len() ==> lo <= #[trigger] s[i] < n
    &&& forall|i: int, j: int| 0 <= i < j < s.len() ==> s[i] < s[j]
}

/// Lexicographic order: `s` comes before `t`.
pub open spec fn lex_less(s: Seq<usize>, t: Seq<usize>) -> bool
    decreases s.len(),
{
    s.len() > 0 && t.len() > 0 && (s[0] < t[0] || (s[0] == t[0] && lex_less(
        s.drop_first(),
        t.drop_first(),
    )))
}

/// `rows` lists exactly the k-selections from `lo..n`, each once, in
/// lexicographic order.
pub open spec fn lists_selections(rows: Seq<Vec<usize>>, lo: nat, n: nat, k: nat) -> bool {
    &&& forall|i: int| 0 <= i < rows.len() ==> is_selection(#[trigger] rows[i]@, lo, n, k)
    &&& forall|i: int, j: int|
        0 <= i < j < rows.len() ==> lex_less(#[trigger] rows[i]@, #[trigger] rows[j]@)
    &&& forall|s: Seq<usize>|
        is_selection(s, lo, n, k) ==> exists|i: int| 0 <= i < rows.len() && #[trigger] rows[i]@ == s
}

proof fn lemma_lex_less_prepend(x: usize, s: Seq<usize>, t: Seq<usize>)
    requires
        lex_less(s, t),
    ensures
        lex_less(seq![x] + s, seq![x] + t),
{
    assert((seq![x] + s).drop_first() =~= s);
    assert((seq![x] + t).drop_first() =~= t);
}

/// `[first] ++ tail`.
fn prepend(first: usize, tail: &Vec<usize>) -> (res: Vec<usize>)
    ensures
        res@ == seq![first] + tail@,
{
    let mut res: Vec<usize> = Vec::new();
    res.push(first);
    let mut i: usize = 0;
    while i < tail.len()
        invariant
            i <= tail@.len(),
            res@ == seq![first] + tail@.subrange(0, i as int),
        decreases tail.len() - i,
    {
        res.push(tail[i]);
        i = i + 1;
    }
    assert(tail@.subrange(0, tail@.len() as int) =~= tail@);
    res
}

/// The number of k-selections from `lo..n` whose first index is below `f`:
/// where the block of selections starting with `f` begins in the listing.
pub open spec fn block_offset(lo: nat, f: nat, n: nat, k: nat) -> nat
    decreases f,
{
    if f <= lo {
        0
    } else {
        block_offset(lo, (f - 1) as nat, n, k) + binom((n - f) as nat, (k - 1) as nat)
    }
}

/// The position of the selection `s` in the lexicographic listing of the
/// selections of its length from `lo..n`.
pub open spec fn selection_rank(s: Seq<usize>, lo: nat, n: nat) -> nat
    decreases s.len(),
{
    if s.len() == 0 {
        0
    } else {
        block_offset(lo, s[0] as nat, n, s.len()) + selection_rank(s.drop_first(), (s[0] + 1) as nat, n)
    }
}

/// Every k-selection from `lo..n` stands in `rows` at its rank.
pub open spec fn ranks_selections(rows: Seq<Vec<usize>>, lo: nat, n: nat, k: nat) -> bool {
    forall|s: Seq<usize>| #[trigger]
        is_selection(s, lo, n, k) ==> selection_rank(s, lo, n) < rows.len() && rows[selection_rank(
            s,
            lo,
            n,
        ) as int]@ == s
}

/// The tail of a selection is a selection from above its first index.
proof fn lemma_selection_tail(s: Seq<usize>, lo: nat, n: nat, k: nat)
    requires
        is_selection(s, lo, n, k),
        k >= 1,
    ensures
        is_selection(s.drop_first(), (s[0] + 1) as nat, n, (k - 1) as nat),
{
    let tail = s.drop_first();
    assert forall|x: int| 0 <= x < tail.len() implies (s[0] + 1) as nat <= #[trigger] tail[x] by {
        assert(s[0] < s[x + 1]);
    }
    assert forall|x: int, y: int| 0 <= x < y < tail.len() implies tail[x] < tail[y] by {
        assert(s[x + 1] < s[y + 1]);
    }
}

/// All k-selections from `lo..n`, in lexicographic order.
fn selections_from(lo: usize, n: usize, k: usize) -> (res: Vec<Vec<usize>>)
    requires
        lo <= n,
    ensures
        lists_selections(res@, lo as nat, n as nat, k as nat),
        ranks_selections(res@, lo as nat, n as nat, k as nat),
        res@.len() == binom((n - lo) as nat, k as nat),
    decreases k,
{
    if k == 0 {
        let mut res: Vec<Vec<usize>> = Vec::new();
        res.push(Vec::new());
        proof {
            assert forall|s: Seq<usize>| is_selection(s, lo as nat, n as nat, 0) implies exists|
                i: int,
            | 0 <= i < res@.len() && #[trigger] res@[i]@ == s by {
                assert(res@[0]@ =~= s);
            }
            assert forall|s: Seq<usize>| #[trigger] is_selection(s, lo as nat, n as nat, 0) implies selection_rank(s, lo as nat, n as nat) < res@.len()
                && res@[selection_rank(s, lo as nat, n as nat) as int]@ == s by {
                assert(res@[0]@ =~= s);
            }
        }
        return res;
    }
    if n - lo < k {
        proof {
            lemma_binom_above((n - lo) as nat, k as nat);
            assert forall|s: Seq<usize>| is_selection(s, lo as nat, n as nat, k as nat) implies false by {
                lemma_selection_room(s, lo as nat, n as nat, k as nat);
            }
        }
        return Vec::new();
    }
    let mut result: Vec<Vec<usize>> = Vec::new();
    let mut first: usize = lo;
    while first < n
        invariant
            lo <= first <= n,
            k >= 1,
            result@.len() == block_offset(lo as nat, first as nat, n as nat, k as nat),
            result@.len() + binom((n - first) as nat, k as nat) == binom((n - lo) as nat, k as nat),
            forall|i: int| 0 <= i < result@.len() ==> is_selection(#[trigger] result@[i]@, lo as nat, n as nat, k as nat),
            forall|i: int| 0 <= i < result@.len() ==> #[trigger] result@[i]@[0] < first,
            forall|i: int, j: int|
                0 <= i < j < result@.len() ==> lex_less(#[trigger] result@[i]@, #[trigger] result@[j]@),
            forall|s: Seq<usize>| #[trigger]
                is_selection(s, lo as nat, n as nat, k as nat) && s[0] < first ==> selection_rank(s, lo as nat, n as nat) < result@.len()
                    && result@[selection_rank(s, lo as nat, n as nat) as int]@ == s,
        decreases n - first,
    {
        let rest = selections_from(first + 1, n, k - 1);
        let base = result.len();
        let mut j: usize = 0;
        while j < rest.len()
            invariant
                lo <= first < n,
                k >= 1,
                base <= result@.len(),
                result@.len() == base + j,
                j <= rest@.len(),
                lists_selections(rest@, (first + 1) as nat, n as nat, (k - 1) as nat),
                forall|i: int| 0 <= i < base ==> #[trigger] result@[i]@[0] < first,
                forall|i: int| 0 <= i < result@.len() ==> is_selection(#[trigger] result@[i]@, lo as nat, n as nat, k as nat),
                forall|jj: int| 0 <= jj < j ==> #[trigger] result@[base + jj]@ == seq![first] + rest@[jj]@,
                forall|i: int, jx: int|
                    0 <= i < jx < result@.len() ==> lex_less(#[trigger] result@[i]@, #[trigger] result@[jx]@),
                forall|s: Seq<usize>| #[trigger]
                    is_selection(s, lo as nat, n as nat, k as nat) && s[0] < first ==> selection_rank(s, lo as nat, n as nat) < base
                        && result@[selection_rank(s, lo as nat, n as nat) as int]@ == s,
            decreases rest@.len() - j,
        {
            let full = prepend(first, &rest[j]);
            let ghost before = result@;
            proof {
                let r = rest@[j as int]@;
                assert(is_selection(r, (first + 1) as nat, n as nat, (k - 1) as nat));
                assert forall|x: int, y: int| 0 <= x < y < full@.len() implies full@[x] < full@[y] by {
                    if x > 0 {
                        assert(full@[x] == r[x - 1]);
                    }
                    assert(full@[y] == r[y - 1]);
                }
                assert(is_selection(full@, lo as nat, n as nat, k as nat));
                assert forall|i: int| 0 <= i < before.len() implies lex_less(#[trigger] before[i]@, full@) by {
                    if i < base {
                        assert(before[i]@[0] < first);
                        assert(before[i]@.len() == k);
                    } else {
                        let ji = i - base;
                        assert(before[base + ji]@ == seq![first] + rest@[ji]@);
                        assert(lex_less(rest@[ji]@, rest@[j as int]@));
                        lemma_lex_less_prepend(first, rest@[ji]@, rest@[j as int]@);
                    }
                }
            }
            result.push(full);
            proof {
                assert(result@[base + j as int]@ == seq![first] + rest@[j as int]@);
                assert forall|i: int, jx: int|
                    0 <= i < jx < result@.len() implies lex_less(#[trigger] result@[i]@, #[trigger] result@[jx]@) by {
                    if jx < before.len() {
                        assert(result@[i] == before[i]);
                        assert(result@[jx] == before[jx]);
                    } else {
                        assert(result@[i] == before[i]);
                    }
                }
                assert forall|s: Seq<usize>| #[trigger]
                    is_selection(s, lo as nat, n as nat, k as nat) && s[0] < first implies selection_rank(s, lo as nat, n as nat) < base
                        && result@[selection_rank(s, lo as nat, n as nat) as int]@ == s by {
                    assert(result@[selection_rank(s, lo as nat, n as nat) as int] == before[selection_rank(s, lo as nat, n as nat) as int]);
                }
            }
            j = j + 1;
        }
        proof {
            assert forall|s: Seq<usize>| #[trigger]
                is_selection(s, lo as nat, n as nat, k as nat) && s[0] < first + 1 implies selection_rank(s, lo as nat, n as nat) < result@.len()
                    && result@[selection_rank(s, lo as nat, n as nat) as int]@ == s by {
                if s[0] == first {
                    let tail = s.drop_first();
                    lemma_selection_tail(s, lo as nat, n as nat, k as nat);
                    let jj = selection_rank(tail, (first + 1) as nat, n as nat);
                    assert(rest@[jj as int]@ == tail);
                    assert(result@[base + jj]@ == seq![first] + rest@[jj as int]@);
                    assert(seq![first] + tail =~= s);
                }
            }
            assert forall|i: int| 0 <= i < result@.len() implies #[trigger] result@[i]@[0] < first + 1 by {
                if i >= base {
                    let jj = i - base;
                    assert(result@[base + jj]@ == seq![first] + rest@[jj]@);
                }
            }
            // C(m, k) = C(m - 1, k - 1) + C(m - 1, k) with m = n - first
            assert(binom((n - first) as nat, k as nat) == binom((n - first - 1) as nat, (k - 1) as nat)
                + binom((n - first - 1) as nat, k as nat));
        }
        first = first + 1;
    }
    proof {
        lemma_binom_above(0, k as nat);
        assert forall|s: Seq<usize>| is_selection(s, lo as nat, n as nat, k as nat) implies exists|i: int|
            0 <= i < result@.len() && #[trigger] result@[i]@ == s by {
            assert(s[0] < n);
            assert(is_selection(s, lo as nat, n as nat, k as nat) && s[0] < first);
            let r = selection_rank(s, lo as nat, n as nat) as int;
            assert(result@[r]@ == s);
        }
        assert forall|s: Seq<usize>| #[trigger] is_selection(s, lo as nat, n as nat, k as nat) implies selection_rank(s, lo as nat, n as nat) < result@.len()
            && result@[selection_rank(s, lo as nat, n as nat) as int]@ == s by {
            assert(s[0] < n);
        }
    }
    result
}

/// A k-selection from `lo..n` needs `k <= n - lo`.
proof fn lemma_selection_room(s: Seq<usize>, lo: nat, n: nat, k: nat)
    requires
        is_selection(s, lo, n, k),
    ensures
        k > 0 ==> k + lo <= n,
    decreases k,
{
    if k > 0 {
        assert(lo <= s[0] < n);
        let tail = s.drop_first();
        assert(is_selection(tail, lo + 1, n, (k - 1) as nat)) by {
            assert forall|x: int| 0 <= x < tail.len() implies lo + 1 <= #[trigger] tail[x] by {
                assert(s[0] < s[x + 1]);
            }
            assert forall|x: int, y: int| 0 <= x < y < tail.len() implies tail[x] < tail[y] by {
                assert(s[x + 1] < s[y + 1]);
            }
        }
        lemma_selection_room(tail, lo + 1, n, (k - 1) as nat);
    }
}

/// All k-element subsets of `{0, ..., n - 1}`, each as an increasing list of
/// indices, in lexicographic order: the basis blades of grade k in n dimensions.
pub fn basis_indices(n: usize, k: usize) -> (res: Vec<Vec<usize>>)
    ensures
        lists_selections(res@, 0, n as nat, k as nat),
        ranks_selections(res@, 0, n as nat, k as nat),
        res@.len() == binom(n as nat, k as nat),
{
    selections_from(0, n, k)
}

/// The number of index pairs `(a, b)`, `a < b < n`, whose first index is below `i`.
pub open spec fn pairs_before(i: nat, n: nat) -> nat
    decreases i,
{
    if i == 0 {
        0
    } else {
        pairs_before((i - 1) as nat, n) + (n - i) as nat
    }
}

/// The position of the pair `(i, j)`, `i < j < n`, in the lexicographic listing
/// of all pairs: the position of the basis bivector `e_i e_j`.
pub open spec fn pair_rank(i: nat, j: nat, n: nat) -> nat {
    pairs_before(i, n) + (j - i - 1) as nat
}

/// The counter of `bivector_index` never passes this bound: the rank of the
/// pair sought, or the number of all pairs when there is no such pair.
pub open spec fn bivector_index_bound(i: nat, j: nat, n: nat) -> nat {
    if i < j < n {
        pair_rank(i, j, n)
    } else {
        pairs_before(n, n)
    }
}

proof fn lemma_pairs_before_monotone(a: nat, b: nat, n: nat)
    requires
        a <= b,
    ensures
        pairs_before(a, n) <= pairs_before(b, n),
    decreases b - a,
{
    if a < b {
        lemma_pairs_before_monotone(a, (b - 1) as nat, n);
    }
}

/// The position of the basis bivector `e_i e_j` among the bivectors of an
/// n-dimensional space listed in lexicographic order, or `None` when `(i, j)`
/// is not a pair `i < j < n`.
pub fn bivector_index(i: usize, j: usize, n: usize) -> (res: Option<usize>)
    requires
        bivector_index_bound(i as nat, j as nat, n as nat) <= usize::MAX,
    ensures
        i < j < n ==> res == Some(pair_rank(i as nat, j as nat, n as nat) as usize),
        !(i < j < n) ==> res is None,
{
    let mut idx: usize = 0;
    let mut a: usize = 0;
    while a < n
        invariant
            a <= n,
            idx == pairs_before(a as nat, n as nat),
            i < j < n ==> a <= i,
            bivector_index_bound(i as nat, j as nat, n as nat) <= usize::MAX,
        decreases n - a,
    {
        let mut b: usize = a + 1;
        while b < n
            invariant
                a < n,
                a + 1 <= b <= n,
                idx == pairs_before(a as nat, n as nat) + (b - a - 1),
                i < j < n ==> (a < i || (a == i && b <= j)),
                bivector_index_bound(i as nat, j as nat, n as nat) <= usize::MAX,
            decreases n - b,
        {
            if a == i && b == j {
                return Some(idx);
            }
            proof {
                assert(pairs_before((a + 1) as nat, n as nat) == pairs_before(a as nat, n as nat) + (n
                    - a - 1));
                if i < j < n {
                    if a < i {
                        lemma_pairs_before_monotone((a + 1) as nat, i as nat, n as nat);
                    }
                } else {
                    lemma_pairs_before_monotone((a + 1) as nat, n as nat, n as nat);
                }
            }
            idx = idx + 1;
            b = b + 1;
        }
        a = a + 1;
    }
    None
}


proof fn lemma_block_offset_singletons(lo: nat, f: nat, n: nat)
    requires
        lo <= f,
    ensures
        block_offset(lo, f, n, 1) == f - lo,
    decreases f,
{
    if f > lo {
        lemma_block_offset_singletons(lo, (f - 1) as nat, n);
    }
}

proof fn lemma_block_offset_pairs(f: nat, n: nat)
    ensures
        block_offset(0, f, n, 2) == pairs_before(f, n),
    decreases f,
{
    if f > 0 {
        lemma_block_offset_pairs((f - 1) as nat, n);
        crate::binomial::lemma_binom_one((n - f) as nat);
    }
}

/// The position that `bivector_index` reports for `e_i e_j` is the position at
/// which `basis_indices(n, 2)` lists the pair `[i, j]`: wedge products and
/// duals lay out bivector components alike.
pub proof fn lemma_bivector_index_agrees_with_basis(i: usize, j: usize, n: usize)
    requires
        i < j < n,
    ensures
        is_selection(seq![i, j], 0, n as nat, 2),
        selection_rank(seq![i, j], 0, n as nat) == pair_rank(i as nat, j as nat, n as nat),
{
    let s = seq![i, j];
    assert(s.drop_first() =~= seq![j]);
    assert(seq![j].drop_first() =~= Seq::<usize>::empty());
    lemma_block_offset_pairs(i as nat, n as nat);
    lemma_block_offset_singletons((i + 1) as nat, j as nat, n as nat);
    assert(selection_rank(seq![j], (i + 1) as nat, n as nat) == block_offset((i + 1) as nat, j as nat, n as nat, 1)
        + selection_rank(Seq::<usize>::empty(), (j + 1) as nat, n as nat));
}

} // verus!
