//! Sums over sequences of rational values, and their algebraic laws.

use vstd::prelude::*;
use crate::rat::{
    q_wf, q_eq, q_le, q_add, q_mul, q_nonneg, q_pos, lemma_q_add_wf, lemma_q_add_nonneg,
    lemma_q_add_pos, lemma_q_add_congruence, lemma_q_le_add, lemma_q_add_exchange,
    lemma_q_mul_congruence, lemma_q_mul_add_distrib, lemma_q_eq_trans,
};

verus! {

/// The sum of the first `k` entries of `s`.
pub open spec fn q_sum_upto(s: Seq<(int, int)>, k: int) -> (int, int)
    decreases k,
{
    if k <= 0 {
        (0, 1)
    } else {
        q_add(q_sum_upto(s, k - 1), s[k - 1])
    }
}

/// The sum of all entries of `s`.
pub open spec fn q_sum(s: Seq<(int, int)>) -> (int, int) {
    q_sum_upto(s, s.len() as int)
}

/// Every entry of `s` is well-formed and non-negative.
pub open spec fn all_nonneg(s: Seq<(int, int)>) -> bool {
    forall|i: int| 0 <= i < s.len() ==> q_wf(#[trigger] s[i]) && q_nonneg(s[i])
}

pub proof fn lemma_q_sum_upto_wf(s: Seq<(int, int)>, k: int)
    requires
        forall|i: int| 0 <= i < k ==> q_wf(#[trigger] s[i]),
    ensures
        q_wf(q_sum_upto(s, k)),
    decreases k,
{
    if k > 0 {
        lemma_q_sum_upto_wf(s, k - 1);
        lemma_q_add_wf(q_sum_upto(s, k - 1), s[k - 1]);
    }
}

pub proof fn lemma_q_sum_upto_nonneg(s: Seq<(int, int)>, k: int)
    requires
        forall|i: int| 0 <= i < k ==> q_wf(#[trigger] s[i]) && q_nonneg(s[i]),
    ensures
        q_wf(q_sum_upto(s, k)),
        q_nonneg(q_sum_upto(s, k)),
    decreases k,
{
    if k > 0 {
        lemma_q_sum_upto_nonneg(s, k - 1);
        lemma_q_add_wf(q_sum_upto(s, k - 1), s[k - 1]);
        lemma_q_add_nonneg(q_sum_upto(s, k - 1), s[k - 1]);
    }
}

/// The sum of a single entry is that entry.
pub proof fn lemma_q_sum_upto_one(s: Seq<(int, int)>)
    ensures
        q_sum_upto(s, 1) == q_add((0int, 1int), s[0]),
        q_add((0int, 1int), s[0]) == (s[0].0, s[0].1),
{
    assert(q_sum_upto(s, 0) == (0int, 1int));
}

/// A sum of non-negative entries with one positive entry is positive.
pub proof fn lemma_q_sum_upto_pos(s: Seq<(int, int)>, k: int, i0: int)
    requires
        forall|i: int| 0 <= i < k ==> q_wf(#[trigger] s[i]) && q_nonneg(s[i]),
        0 <= i0 < k,
        q_pos(s[i0]),
    ensures
        q_wf(q_sum_upto(s, k)),
        q_pos(q_sum_upto(s, k)),
    decreases k,
{
    lemma_q_sum_upto_nonneg(s, k - 1);
    if i0 == k - 1 {
        lemma_q_add_pos(q_sum_upto(s, k - 1), s[k - 1]);
    } else {
        lemma_q_sum_upto_pos(s, k - 1, i0);
        lemma_q_add_pos(q_sum_upto(s, k - 1), s[k - 1]);
    }
    lemma_q_add_wf(q_sum_upto(s, k - 1), s[k - 1]);
}

/// Sums respect pointwise rational equality.
pub proof fn lemma_q_sum_upto_congruence(s: Seq<(int, int)>, t: Seq<(int, int)>, k: int)
    requires
        forall|i: int| #![trigger s[i]] #![trigger t[i]] 0 <= i < k ==> q_wf(s[i]) && q_wf(t[i])
            && q_eq(s[i], t[i]),
    ensures
        q_eq(q_sum_upto(s, k), q_sum_upto(t, k)),
    decreases k,
{
    if k > 0 {
        lemma_q_sum_upto_congruence(s, t, k - 1);
        lemma_q_sum_upto_wf(s, k - 1);
        lemma_q_sum_upto_wf(t, k - 1);
        lemma_q_add_congruence(q_sum_upto(s, k - 1), q_sum_upto(t, k - 1), s[k - 1], t[k - 1]);
    }
}

/// Sums respect pointwise `<=`.
pub proof fn lemma_q_sum_upto_le(s: Seq<(int, int)>, t: Seq<(int, int)>, k: int)
    requires
        forall|i: int| #![trigger s[i]] #![trigger t[i]] 0 <= i < k ==> q_wf(s[i]) && q_wf(t[i])
            && q_le(s[i], t[i]),
    ensures
        q_le(q_sum_upto(s, k), q_sum_upto(t, k)),
    decreases k,
{
    if k > 0 {
        lemma_q_sum_upto_le(s, t, k - 1);
        lemma_q_sum_upto_wf(s, k - 1);
        lemma_q_sum_upto_wf(t, k - 1);
        lemma_q_le_add(q_sum_upto(s, k - 1), q_sum_upto(t, k - 1), s[k - 1], t[k - 1]);
    }
}

/// A sum of pointwise sums splits into two sums.
pub proof fn lemma_q_sum_upto_split(
    s: Seq<(int, int)>,
    a: Seq<(int, int)>,
    b: Seq<(int, int)>,
    k: int,
)
    requires
        forall|i: int| #![trigger s[i]] #![trigger a[i]] #![trigger b[i]] 0 <= i < k ==> q_wf(
            a[i],
        ) && q_wf(b[i]) && s[i] == q_add(a[i], b[i]),
    ensures
        q_eq(q_sum_upto(s, k), q_add(q_sum_upto(a, k), q_sum_upto(b, k))),
    decreases k,
{
    assert forall|i: int| 0 <= i < k implies q_wf(#[trigger] s[i]) by {
        lemma_q_add_wf(a[i], b[i]);
    }
    lemma_q_sum_upto_wf(a, k);
    lemma_q_sum_upto_wf(b, k);
    lemma_q_sum_upto_wf(s, k);
    if k <= 0 {
        assert(q_sum_upto(s, k) == (0int, 1int));
        assert(q_add(q_sum_upto(a, k), q_sum_upto(b, k)) == (0int, 1int));
    } else {
        lemma_q_sum_upto_split(s, a, b, k - 1);
        lemma_q_sum_upto_wf(a, k - 1);
        lemma_q_sum_upto_wf(b, k - 1);
        lemma_q_sum_upto_wf(s, k - 1);
        lemma_q_add_wf(a[k - 1], b[k - 1]);
        lemma_q_add_wf(q_sum_upto(a, k - 1), q_sum_upto(b, k - 1));
        // sum(s, k) == (sum(a, k-1) + sum(b, k-1)) + (a[k-1] + b[k-1])
        lemma_q_add_congruence(
            q_sum_upto(s, k - 1),
            q_add(q_sum_upto(a, k - 1), q_sum_upto(b, k - 1)),
            s[k - 1],
            s[k - 1],
        );
        // regroup into (sum(a, k-1) + a[k-1]) + (sum(b, k-1) + b[k-1])
        assert(s[k - 1] == q_add(a[k - 1], b[k - 1]));
        assert(q_sum_upto(s, k) == q_add(q_sum_upto(s, k - 1), s[k - 1]));
        assert(q_sum_upto(a, k) == q_add(q_sum_upto(a, k - 1), a[k - 1]));
        assert(q_sum_upto(b, k) == q_add(q_sum_upto(b, k - 1), b[k - 1]));
        lemma_q_add_exchange(q_sum_upto(a, k - 1), q_sum_upto(b, k - 1), a[k - 1], b[k - 1]);
        lemma_q_add_wf(
            q_add(q_sum_upto(a, k - 1), q_sum_upto(b, k - 1)),
            q_add(a[k - 1], b[k - 1]),
        );
        lemma_q_add_wf(q_sum_upto(a, k), q_sum_upto(b, k));
        lemma_q_eq_trans(
            q_sum_upto(s, k),
            q_add(q_add(q_sum_upto(a, k - 1), q_sum_upto(b, k - 1)), q_add(a[k - 1], b[k - 1])),
            q_add(q_sum_upto(a, k), q_sum_upto(b, k)),
        );
    }
}

/// A common factor comes out of a sum: if `t[i] == c * s[i]` pointwise then
/// `sum(t) == c * sum(s)`.
pub proof fn lemma_q_sum_upto_scale(c: (int, int), s: Seq<(int, int)>, t: Seq<(int, int)>, k: int)
    requires
        q_wf(c),
        forall|i: int| #![trigger s[i]] #![trigger t[i]] 0 <= i < k ==> q_wf(s[i]) && q_wf(t[i])
            && q_eq(t[i], q_mul(c, s[i])),
    ensures
        q_eq(q_sum_upto(t, k), q_mul(c, q_sum_upto(s, k))),
    decreases k,
{
    lemma_q_sum_upto_wf(s, k);
    lemma_q_sum_upto_wf(t, k);
    if k <= 0 {
        assert(q_eq(q_sum_upto(t, k), q_mul(c, q_sum_upto(s, k)))) by (nonlinear_arith)
            requires
                q_sum_upto(t, k) == (0int, 1int),
                q_sum_upto(s, k) == (0int, 1int),
                q_wf(c),
        ;
    } else {
        lemma_q_sum_upto_scale(c, s, t, k - 1);
        lemma_q_sum_upto_wf(s, k - 1);
        lemma_q_sum_upto_wf(t, k - 1);
        lemma_q_mul_congruence(c, c, q_sum_upto(s, k - 1), q_sum_upto(s, k - 1));
        lemma_q_add_wf(q_sum_upto(s, k - 1), s[k - 1]);
        lemma_q_mul_add_distrib(c, q_sum_upto(s, k - 1), s[k - 1]);
        // sum(t, k) = sum(t, k-1) + t[k-1]
        //           == c*sum(s, k-1) + c*s[k-1]   (congruence, inductive step)
        //           == c*(sum(s, k-1) + s[k-1])   (distributivity)
        lemma_q_mul_wf_help(c, q_sum_upto(s, k - 1), s[k - 1]);
        lemma_q_add_congruence(
            q_sum_upto(t, k - 1),
            q_mul(c, q_sum_upto(s, k - 1)),
            t[k - 1],
            q_mul(c, s[k - 1]),
        );
        lemma_q_eq_trans(
            q_sum_upto(t, k),
            q_add(q_mul(c, q_sum_upto(s, k - 1)), q_mul(c, s[k - 1])),
            q_mul(c, q_sum_upto(s, k)),
        );
    }
}

/// `q_sum_upto` reads only the first `k` entries.
pub proof fn lemma_q_sum_upto_ext(s: Seq<(int, int)>, t: Seq<(int, int)>, k: int)
    requires
        forall|i: int| #![trigger s[i]] #![trigger t[i]] 0 <= i < k ==> s[i] == t[i],
    ensures
        q_sum_upto(s, k) == q_sum_upto(t, k),
    decreases k,
{
    if k > 0 {
        lemma_q_sum_upto_ext(s, t, k - 1);
    }
}

/// A sum of zero-valued entries is zero.
pub proof fn lemma_q_sum_upto_zero(s: Seq<(int, int)>, k: int)
    requires
        forall|i: int| 0 <= i < k ==> #[trigger] s[i] == (0int, 1int),
    ensures
        q_sum_upto(s, k) == (0int, 1int),
    decreases k,
{
    if k > 0 {
        lemma_q_sum_upto_zero(s, k - 1);
    }
}

/// The row-wise total of a grid of rationals: rows first, then columns.
pub open spec fn q_rows_total(f: spec_fn(int, int) -> (int, int), rows: int, cols: int) -> (
    int,
    int,
) {
    q_sum_upto(
        Seq::new(rows as nat, |i: int| q_sum_upto(Seq::new(cols as nat, |j: int| f(i, j)), cols)),
        rows,
    )
}

/// The column-wise total of the same grid.
pub open spec fn q_cols_total(f: spec_fn(int, int) -> (int, int), rows: int, cols: int) -> (
    int,
    int,
) {
    q_sum_upto(
        Seq::new(cols as nat, |j: int| q_sum_upto(Seq::new(rows as nat, |i: int| f(i, j)), rows)),
        cols,
    )
}

/// Summing a finite grid row-by-row or column-by-column gives the same
/// value.
pub proof fn lemma_q_double_sum_swap(f: spec_fn(int, int) -> (int, int), rows: int, cols: int)
    requires
        rows >= 0,
        cols >= 0,
        forall|i: int, j: int| 0 <= i < rows && 0 <= j < cols ==> q_wf(#[trigger] f(i, j)),
    ensures
        q_eq(q_rows_total(f, rows, cols), q_cols_total(f, rows, cols)),
        q_wf(q_rows_total(f, rows, cols)),
        q_wf(q_cols_total(f, rows, cols)),
    decreases cols,
{
    let outer_r = Seq::new(
        rows as nat,
        |i: int| q_sum_upto(Seq::new(cols as nat, |j: int| f(i, j)), cols),
    );
    let outer_c = Seq::new(
        cols as nat,
        |j: int| q_sum_upto(Seq::new(rows as nat, |i: int| f(i, j)), rows),
    );
    assert forall|i: int| 0 <= i < rows implies q_wf(#[trigger] outer_r[i]) by {
        let row = Seq::new(cols as nat, |j: int| f(i, j));
        assert forall|j: int| 0 <= j < cols implies q_wf(#[trigger] row[j]) by {}
        lemma_q_sum_upto_wf(row, cols);
    }
    assert forall|j: int| 0 <= j < cols implies q_wf(#[trigger] outer_c[j]) by {
        let col = Seq::new(rows as nat, |i: int| f(i, j));
        assert forall|i: int| 0 <= i < rows implies q_wf(#[trigger] col[i]) by {}
        lemma_q_sum_upto_wf(col, rows);
    }
    lemma_q_sum_upto_wf(outer_r, rows);
    lemma_q_sum_upto_wf(outer_c, cols);
    if cols <= 0 {
        assert forall|i: int| 0 <= i < rows implies #[trigger] outer_r[i] == (0int, 1int) by {}
        lemma_q_sum_upto_zero(outer_r, rows);
    } else {
        lemma_q_double_sum_swap(f, rows, cols - 1);
        let prev_outer_r = Seq::new(
            rows as nat,
            |i: int| q_sum_upto(Seq::new((cols - 1) as nat, |j: int| f(i, j)), cols - 1),
        );
        let prev_outer_c = Seq::new(
            (cols - 1) as nat,
            |j: int| q_sum_upto(Seq::new(rows as nat, |i: int| f(i, j)), rows),
        );
        // prefix sums of each row, and the last column, split the total
        let heads = Seq::new(
            rows as nat,
            |i: int| q_sum_upto(Seq::new(cols as nat, |j: int| f(i, j)), cols - 1),
        );
        let last_col = Seq::new(rows as nat, |i: int| f(i, cols - 1));
        assert forall|i: int| #![trigger outer_r[i]] #![trigger heads[i]] #![trigger last_col[i]]
            0 <= i < rows implies q_wf(heads[i]) && q_wf(last_col[i]) && outer_r[i] == q_add(
            heads[i],
            last_col[i],
        ) by {
            let row = Seq::new(cols as nat, |j: int| f(i, j));
            assert forall|j: int| 0 <= j < cols implies q_wf(#[trigger] row[j]) by {}
            lemma_q_sum_upto_wf(row, cols - 1);
            assert(row[cols - 1] == f(i, cols - 1));
        }
        lemma_q_sum_upto_split(outer_r, heads, last_col, rows);
        // each row head is the same sum over the narrower grid
        assert forall|i: int| 0 <= i < rows implies #[trigger] heads[i]
            == prev_outer_r[i] by {
            lemma_q_sum_upto_ext(
                Seq::new(cols as nat, |j: int| f(i, j)),
                Seq::new((cols - 1) as nat, |j: int| f(i, j)),
                cols - 1,
            );
        }
        lemma_q_sum_upto_ext(heads, prev_outer_r, rows);
        // the column view: the first `cols - 1` outer entries agree
        assert forall|j: int| 0 <= j < cols - 1 implies #[trigger] outer_c[j]
            == prev_outer_c[j] by {}
        lemma_q_sum_upto_ext(outer_c, prev_outer_c, cols - 1);
        assert(outer_c[cols - 1] == q_sum_upto(last_col, rows));
        assert(q_sum_upto(outer_c, cols) == q_add(
            q_sum_upto(prev_outer_c, cols - 1),
            q_sum_upto(last_col, rows),
        ));
        // chain: rows-total == heads-total + last column
        //                   == (narrower cols-total) + last column
        //                   == cols-total
        assert forall|i: int| 0 <= i < rows implies q_wf(#[trigger] last_col[i]) by {}
        assert forall|i: int| 0 <= i < rows implies q_wf(#[trigger] prev_outer_r[i]) by {
            assert(prev_outer_r[i] == heads[i]);
            assert(q_wf(heads[i]));
        }
        lemma_q_sum_upto_wf(prev_outer_r, rows);
        lemma_q_sum_upto_wf(last_col, rows);
        assert forall|j: int| 0 <= j < cols - 1 implies q_wf(#[trigger] prev_outer_c[j]) by {
            assert(prev_outer_c[j] == outer_c[j]);
            assert(q_wf(outer_c[j]));
        }
        lemma_q_sum_upto_wf(prev_outer_c, cols - 1);
        lemma_q_add_wf(q_sum_upto(prev_outer_r, rows), q_sum_upto(last_col, rows));
        lemma_q_add_wf(q_sum_upto(prev_outer_c, cols - 1), q_sum_upto(last_col, rows));
        lemma_q_add_congruence(
            q_sum_upto(prev_outer_r, rows),
            q_sum_upto(prev_outer_c, cols - 1),
            q_sum_upto(last_col, rows),
            q_sum_upto(last_col, rows),
        );
        lemma_q_eq_trans(
            q_sum_upto(outer_r, rows),
            q_add(q_sum_upto(prev_outer_r, rows), q_sum_upto(last_col, rows)),
            q_add(q_sum_upto(prev_outer_c, cols - 1), q_sum_upto(last_col, rows)),
        );
    }
}

/// Well-formedness facts used by the scaling lemma.
proof fn lemma_q_mul_wf_help(c: (int, int), a: (int, int), b: (int, int))
    by (nonlinear_arith)
    requires
        q_wf(c),
        q_wf(a),
        q_wf(b),
    ensures
        q_wf(q_mul(c, a)),
        q_wf(q_mul(c, b)),
        q_wf(q_add(q_mul(c, a), q_mul(c, b))),
        q_wf(q_mul(c, q_add(a, b))),
        q_wf(q_add(a, b)),
{
}

} // verus!
