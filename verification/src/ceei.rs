//! Competitive-Equilibrium-style max-sum allocation.
//!
//! This policy adds no fairness constraint: it grants the rates that
//! maximize the total allocation under the capacity limits alone. A
//! single-flow program is solved in closed form; the general case goes to
//! a small exact-rational simplex whose candidate answer and price
//! certificate are then re-checked by verified code, so both the
//! feasibility and the optimality guarantee rest on the checks and on
//! weak duality, not on the search.

use vstd::prelude::*;
use crate::rat::{q_wf, q_eq, q_le, q_add, q_mul, q_div, q_one, q_nonneg, q_pos, q_in_i64,
    q_sign_norm, q_bounded, Rat, lemma_q_eq_trans, lemma_q_le_trans, lemma_q_le_congruence,
    lemma_q_add_wf, lemma_q_mul_nonneg, lemma_q_mul_le_nonneg, lemma_q_mul_comm,
    lemma_q_mul_assoc, lemma_q_ge_one_mul, lemma_q_div_props, lemma_q_le_div_iff_mul,
    lemma_q_sign_congruence,
    lemma_q_zero_le};
use crate::rat_seq::{q_sum, q_sum_upto, all_nonneg, lemma_q_sum_upto_wf, lemma_q_sum_upto_nonneg,
    lemma_q_sum_upto_le, lemma_q_sum_upto_congruence, lemma_q_sum_upto_scale, lemma_q_sum_upto_one,
    q_rows_total, q_cols_total, lemma_q_double_sum_swap};
use crate::algorithms::{AllocError, Algorithm, rats_view, mat_view, mat_nonneg, all_rows_pos,
    has_pos_entry, dims_ok, usage, usage_terms, feasible, check_dims, col_dot,
    lemma_usage_terms_wf, entries_modest, modest_problem};

verus! {

/// The cost of one unit of flow `i` under per-resource prices `u`.
pub open spec fn dual_price(dem: Seq<Seq<(int, int)>>, u: Seq<(int, int)>, i: int) -> (int, int) {
    q_sum_upto(Seq::new(u.len(), |j: int| q_mul(u[j], dem[i][j])), u.len() as int)
}

/// Prices witnessing that no feasible allocation can beat their total: all
/// non-negative, and every flow costs at least its own objective weight.
pub open spec fn dual_feasible(dem: Seq<Seq<(int, int)>>, u: Seq<(int, int)>) -> bool {
    all_nonneg(u) && (forall|i: int|
        0 <= i < dem.len() ==> q_le(q_one(), #[trigger] dual_price(dem, u, i)))
}

/// What those prices pay for the whole capacity pool.
pub open spec fn dual_value(res: Seq<(int, int)>, u: Seq<(int, int)>) -> (int, int) {
    q_sum_upto(Seq::new(u.len(), |j: int| q_mul(u[j], res[j])), u.len() as int)
}

/// Weak duality: under any certificate prices, every feasible allocation's
/// total is bounded by what the prices pay for the whole pool.
pub proof fn lemma_weak_duality(
    res: Seq<(int, int)>,
    dem: Seq<Seq<(int, int)>>,
    u: Seq<(int, int)>,
    y: Seq<(int, int)>,
)
    requires
        all_nonneg(res),
        mat_nonneg(dem),
        dims_ok(res, dem),
        u.len() == res.len(),
        dual_feasible(dem, u),
        feasible(res, dem, y),
    ensures
        q_le(q_sum(y), dual_value(res, u)),
{
    let n = dem.len() as int;
    let m = res.len() as int;
    assert(y.len() == n);
    let g = |i: int, j: int| q_mul(q_mul(u[j], dem[i][j]), y[i]);
    assert forall|i: int, j: int| 0 <= i < n && 0 <= j < m implies q_wf(#[trigger] g(i, j)) by {
        assert(all_nonneg(dem[i]));
        lemma_q_add_wf(u[j], dem[i][j]);
        lemma_q_add_wf(q_mul(u[j], dem[i][j]), y[i]);
    }

    // each flow is worth no more than it costs
    let dpy = Seq::new(n as nat, |i: int| q_mul(dual_price(dem, u, i), y[i]));
    assert forall|i: int| #![trigger y[i]] #![trigger dpy[i]]
        0 <= i < n implies q_wf(y[i]) && q_wf(dpy[i]) && q_le(y[i], dpy[i]) by {
        let inner = Seq::new(u.len(), |j: int| q_mul(u[j], dem[i][j]));
        assert(all_nonneg(dem[i]));
        assert forall|j: int| 0 <= j < m implies q_wf(#[trigger] inner[j]) by {
            lemma_q_add_wf(u[j], dem[i][j]);
        }
        lemma_q_sum_upto_wf(inner, m);
        assert(dual_price(dem, u, i) == q_sum_upto(inner, m));
        lemma_q_ge_one_mul(dual_price(dem, u, i), y[i]);
    }
    lemma_q_sum_upto_le(y, dpy, n);
    lemma_q_sum_upto_wf(y, n);
    lemma_q_sum_upto_wf(dpy, n);

    // the priced totals, row by row, are exactly those costs
    let outer_r = Seq::new(
        n as nat,
        |i: int| q_sum_upto(Seq::new(m as nat, |j: int| g(i, j)), m),
    );
    assert forall|i: int| #![trigger dpy[i]] #![trigger outer_r[i]]
        0 <= i < n implies q_wf(dpy[i]) && q_wf(outer_r[i]) && q_eq(dpy[i], outer_r[i]) by {
        let inner = Seq::new(u.len(), |j: int| q_mul(u[j], dem[i][j]));
        let grow = Seq::new(m as nat, |j: int| g(i, j));
        assert(all_nonneg(dem[i]));
        assert forall|j: int| #![trigger inner[j]] #![trigger grow[j]]
            0 <= j < m implies q_wf(inner[j]) && q_wf(grow[j]) && q_eq(
            grow[j],
            q_mul(y[i], inner[j]),
        ) by {
            lemma_q_add_wf(u[j], dem[i][j]);
            lemma_q_add_wf(q_mul(u[j], dem[i][j]), y[i]);
            lemma_q_mul_comm(q_mul(u[j], dem[i][j]), y[i]);
        }
        lemma_q_sum_upto_scale(y[i], inner, grow, m);
        lemma_q_sum_upto_wf(inner, m);
        lemma_q_sum_upto_wf(grow, m);
        assert(dual_price(dem, u, i) == q_sum_upto(inner, m));
        lemma_q_add_wf(y[i], q_sum_upto(inner, m));
        lemma_q_mul_comm(dual_price(dem, u, i), y[i]);
        lemma_q_eq_trans(
            dpy[i],
            q_mul(y[i], dual_price(dem, u, i)),
            q_sum_upto(grow, m),
        );
    }
    lemma_q_sum_upto_congruence(dpy, outer_r, n);
    assert(q_sum_upto(outer_r, n) == q_rows_total(g, n, m));

    // the same grid, column by column
    lemma_q_double_sum_swap(g, n, m);

    // each column is the priced draw on one resource, within its budget
    let outer_c = Seq::new(
        m as nat,
        |j: int| q_sum_upto(Seq::new(n as nat, |i: int| g(i, j)), n),
    );
    let dv_terms = Seq::new(u.len(), |j: int| q_mul(u[j], res[j]));
    assert forall|j: int| #![trigger outer_c[j]] #![trigger dv_terms[j]]
        0 <= j < m implies q_wf(outer_c[j]) && q_wf(dv_terms[j]) && q_le(
        outer_c[j],
        dv_terms[j],
    ) by {
        let gcol = Seq::new(n as nat, |i: int| g(i, j));
        let uterms = usage_terms(dem, y, j);
        lemma_usage_terms_wf(dem, y, j);
        assert forall|i: int| 0 <= i < n implies q_wf(#[trigger] dem[i][j]) && q_nonneg(
            dem[i][j],
        ) by {
            assert(all_nonneg(dem[i]));
        }
        assert(uterms.len() == n);
        assert forall|i: int| #![trigger uterms[i]] #![trigger gcol[i]]
            0 <= i < n implies q_wf(uterms[i]) && q_wf(gcol[i]) && q_eq(
            gcol[i],
            q_mul(u[j], uterms[i]),
        ) by {
            lemma_q_add_wf(dem[i][j], y[i]);
            lemma_q_add_wf(u[j], dem[i][j]);
            lemma_q_add_wf(q_mul(u[j], dem[i][j]), y[i]);
            lemma_q_mul_assoc(u[j], dem[i][j], y[i]);
        }
        lemma_q_sum_upto_scale(u[j], uterms, gcol, n);
        lemma_q_sum_upto_wf(uterms, n);
        lemma_q_sum_upto_wf(gcol, n);
        assert(usage(dem, y, j) == q_sum_upto(uterms, n));
        assert(q_le(usage(dem, y, j), res[j]));
        lemma_q_mul_le_nonneg(usage(dem, y, j), res[j], u[j]);
        lemma_q_add_wf(u[j], q_sum_upto(uterms, n));
        lemma_q_add_wf(u[j], res[j]);
        lemma_q_le_congruence(
            q_mul(u[j], usage(dem, y, j)),
            q_sum_upto(gcol, n),
            q_mul(u[j], res[j]),
            q_mul(u[j], res[j]),
        );
    }
    lemma_q_sum_upto_le(outer_c, dv_terms, m);
    lemma_q_sum_upto_wf(outer_c, m);
    lemma_q_sum_upto_wf(dv_terms, m);
    assert(q_sum_upto(outer_c, m) == q_cols_total(g, n, m));
    assert(dual_value(res, u) == q_sum_upto(dv_terms, m));

    // chain the bounds together
    lemma_q_le_congruence(
        q_sum_upto(y, n),
        q_sum_upto(y, n),
        q_sum_upto(dpy, n),
        q_rows_total(g, n, m),
    );
    lemma_q_le_congruence(
        q_sum_upto(y, n),
        q_sum_upto(y, n),
        q_rows_total(g, n, m),
        q_cols_total(g, n, m),
    );
    lemma_q_le_trans(q_sum_upto(y, n), q_cols_total(g, n, m), dual_value(res, u));
}

/// The exact cost of one unit of flow `i` under prices `u`; `None` when
/// the running value leaves representable range.
fn flow_price(demands: &Vec<Vec<Rat>>, u: &Vec<Rat>, i: usize) -> (r: Option<Rat>)
    requires
        i < demands@.len(),
        u@.len() <= (demands@[i as int])@.len(),
        mat_nonneg(mat_view(demands@)),
        forall|j: int| 0 <= j < u@.len() ==> q_wf(#[trigger] rats_view(u@)[j]),
    ensures
        r matches Some(v) ==> v.wf() && q_eq(
            v@,
            dual_price(mat_view(demands@), rats_view(u@), i as int),
        ),
{
    let ghost dmv = mat_view(demands@);
    let ghost uv = rats_view(u@);
    let ghost terms = Seq::new(uv.len(), |j: int| q_mul(uv[j], dmv[i as int][j]));
    proof {
        assert(dmv[i as int] == rats_view(demands@[i as int]@));
        assert(all_nonneg(dmv[i as int]));
        assert forall|j: int| 0 <= j < terms.len() implies q_wf(#[trigger] terms[j]) by {
            lemma_q_add_wf(uv[j], dmv[i as int][j]);
        }
    }
    let m: usize = u.len();
    let mut acc: Rat = Rat::zero();
    let mut j: usize = 0;
    while j < m
        invariant
            j <= m,
            m == u@.len(),
            i < demands@.len(),
            u@.len() <= (demands@[i as int])@.len(),
            dmv == mat_view(demands@),
            uv == rats_view(u@),
            terms == Seq::new(uv.len(), |j2: int| q_mul(uv[j2], dmv[i as int][j2])),
            mat_nonneg(dmv),
            forall|j2: int| 0 <= j2 < m ==> q_wf(#[trigger] uv[j2]),
            forall|j2: int| 0 <= j2 < terms.len() ==> q_wf(#[trigger] terms[j2]),
            acc.wf(),
            q_eq(acc@, q_sum_upto(terms, j as int)),
        decreases m - j,
    {
        proof {
            assert(uv[j as int] == u@[j as int]@);
            assert(dmv[i as int][j as int] == demands@[i as int]@[j as int]@);
            assert(all_nonneg(dmv[i as int]));
        }
        let t: Rat = match u[j].checked_mul(&demands[i][j]) {
            Some(t) => t,
            None => {
                return None;
            },
        };
        let acc2: Rat = match acc.checked_add(&t) {
            Some(s) => s,
            None => {
                return None;
            },
        };
        proof {
            let prev = q_sum_upto(terms, j as int);
            lemma_q_sum_upto_wf(terms, j as int);
            lemma_q_sum_upto_wf(terms, j as int + 1);
            assert(terms[j as int] == q_mul(uv[j as int], dmv[i as int][j as int]));
            lemma_q_add_wf(uv[j as int], dmv[i as int][j as int]);
            lemma_q_add_wf(acc@, t@);
            lemma_q_add_wf(prev, terms[j as int]);
            crate::rat::lemma_q_add_congruence(acc@, prev, t@, terms[j as int]);
            lemma_q_eq_trans(acc2@, q_add(acc@, t@), q_add(prev, terms[j as int]));
        }
        acc = acc2;
        j += 1;
    }
    Some(acc)
}

/// The exact total the prices pay for the whole pool; `None` when the
/// running value leaves representable range.
fn priced_pool_total(u: &Vec<Rat>, resources: &Vec<Rat>) -> (r: Option<Rat>)
    requires
        u@.len() == resources@.len(),
        forall|j: int| 0 <= j < u@.len() ==> q_wf(#[trigger] rats_view(u@)[j]),
        all_nonneg(rats_view(resources@)),
    ensures
        r matches Some(v) ==> v.wf() && q_eq(
            v@,
            dual_value(rats_view(resources@), rats_view(u@)),
        ),
{
    let ghost rv = rats_view(resources@);
    let ghost uv = rats_view(u@);
    let ghost terms = Seq::new(uv.len(), |j: int| q_mul(uv[j], rv[j]));
    proof {
        assert forall|j: int| 0 <= j < terms.len() implies q_wf(#[trigger] terms[j]) by {
            lemma_q_add_wf(uv[j], rv[j]);
        }
    }
    let m: usize = u.len();
    let mut acc: Rat = Rat::zero();
    let mut j: usize = 0;
    while j < m
        invariant
            j <= m,
            m == u@.len(),
            u@.len() == resources@.len(),
            rv == rats_view(resources@),
            uv == rats_view(u@),
            terms == Seq::new(uv.len(), |j2: int| q_mul(uv[j2], rv[j2])),
            all_nonneg(rv),
            forall|j2: int| 0 <= j2 < m ==> q_wf(#[trigger] uv[j2]),
            forall|j2: int| 0 <= j2 < terms.len() ==> q_wf(#[trigger] terms[j2]),
            acc.wf(),
            q_eq(acc@, q_sum_upto(terms, j as int)),
        decreases m - j,
    {
        proof {
            assert(uv[j as int] == u@[j as int]@);
            assert(rv[j as int] == resources@[j as int]@);
        }
        let t: Rat = match u[j].checked_mul(&resources[j]) {
            Some(t) => t,
            None => {
                return None;
            },
        };
        let acc2: Rat = match acc.checked_add(&t) {
            Some(s) => s,
            None => {
                return None;
            },
        };
        proof {
            let prev = q_sum_upto(terms, j as int);
            lemma_q_sum_upto_wf(terms, j as int);
            lemma_q_sum_upto_wf(terms, j as int + 1);
            assert(terms[j as int] == q_mul(uv[j as int], rv[j as int]));
            lemma_q_add_wf(uv[j as int], rv[j as int]);
            lemma_q_add_wf(acc@, t@);
            lemma_q_add_wf(prev, terms[j as int]);
            crate::rat::lemma_q_add_congruence(acc@, prev, t@, terms[j as int]);
            lemma_q_eq_trans(acc2@, q_add(acc@, t@), q_add(prev, terms[j as int]));
        }
        acc = acc2;
        j += 1;
    }
    Some(acc)
}

/// The exact total of a vector of rates; `None` when the running value
/// leaves representable range.
fn total_of(xs: &Vec<Rat>) -> (r: Option<Rat>)
    requires
        forall|i: int| 0 <= i < xs@.len() ==> q_wf(#[trigger] rats_view(xs@)[i]),
    ensures
        r matches Some(v) ==> v.wf() && q_eq(v@, q_sum(rats_view(xs@))),
{
    let ghost xv = rats_view(xs@);
    let n: usize = xs.len();
    let mut acc: Rat = Rat::zero();
    let mut i: usize = 0;
    while i < n
        invariant
            i <= n,
            n == xs@.len(),
            xv == rats_view(xs@),
            forall|i2: int| 0 <= i2 < n ==> q_wf(#[trigger] xv[i2]),
            acc.wf(),
            q_eq(acc@, q_sum_upto(xv, i as int)),
        decreases n - i,
    {
        proof {
            assert(xv[i as int] == xs@[i as int]@);
        }
        let acc2: Rat = match acc.checked_add(&xs[i]) {
            Some(s) => s,
            None => {
                return None;
            },
        };
        proof {
            let prev = q_sum_upto(xv, i as int);
            lemma_q_sum_upto_wf(xv, i as int);
            lemma_q_sum_upto_wf(xv, i as int + 1);
            lemma_q_add_wf(acc@, xv[i as int]);
            lemma_q_add_wf(prev, xv[i as int]);
            crate::rat::lemma_q_add_congruence(acc@, prev, xv[i as int], xv[i as int]);
            lemma_q_eq_trans(acc2@, q_add(acc@, xv[i as int]), q_add(prev, xv[i as int]));
        }
        acc = acc2;
        i += 1;
    }
    Some(acc)
}

/// A handle to an out-of-process solver environment. The rational simplex
/// below keeps its whole state in its own tableau, so this library never
/// opens such an environment.
pub enum GRBenv {
    /// The placeholder state: no context is open.
    Unopened,
}

/// A handle to an out-of-process solver's model; likewise never built here.
pub enum GRBmodel {
    /// The placeholder state: no model is built.
    Unbuilt,
}

/// How many pivots the simplex routine may take before giving up.
pub const PIVOT_LIMIT: usize = 10000;

/// The max-sum policy: no equalization, capacity limits only.
pub struct Ceei {}

impl Algorithm for Ceei {
    open spec fn policy_wf(&self) -> bool {
        true
    }

    open spec fn dims_match(&self, res: Seq<(int, int)>, dem: Seq<Seq<(int, int)>>) -> bool {
        dims_ok(res, dem)
    }

    open spec fn input_ok(&self, res: Seq<(int, int)>, dem: Seq<Seq<(int, int)>>) -> bool {
        all_nonneg(res)
    }

    fn allocate(&self, resources: &Vec<Rat>, demands: &Vec<Vec<Rat>>) -> (r: Result<
        Vec<Rat>,
        AllocError,
    >)
        ensures
            r matches Ok(a) ==> forall|y: Seq<(int, int)>|
                #![trigger feasible(rats_view(resources@), mat_view(demands@), y)]
                feasible(rats_view(resources@), mat_view(demands@), y) ==> q_le(
                    q_sum(y),
                    q_sum(rats_view(a@)),
                ),
            r matches Err(e) ==> e == AllocError::DimensionMismatch || e
                == AllocError::NumericOverflow || e == AllocError::SolverUnavailable,
            (modest_problem(rats_view(resources@), mat_view(demands@)) && demands@.len() == 1)
                ==> r is Ok,
    {
        ceei_allocate(resources, demands)
    }
}

/// Maximize the total granted rate under the capacity limits alone.
/// Unlike the equalizing policies, this one needs no positive capacities:
/// a zero-capacity resource simply pins its users to zero.
pub fn ceei_allocate(resources: &Vec<Rat>, demands: &Vec<Vec<Rat>>) -> (r: Result<
    Vec<Rat>,
    AllocError,
>)
    requires
        all_nonneg(rats_view(resources@)),
        mat_nonneg(mat_view(demands@)),
        all_rows_pos(mat_view(demands@)),
    ensures
        r matches Ok(a) ==> dims_ok(rats_view(resources@), mat_view(demands@)) && feasible(
            rats_view(resources@),
            mat_view(demands@),
            rats_view(a@),
        ),
        (r matches Err(e) && e == AllocError::DimensionMismatch) <==> !dims_ok(
            rats_view(resources@),
            mat_view(demands@),
        ),
        r matches Ok(a) ==> forall|y: Seq<(int, int)>|
            #![trigger feasible(rats_view(resources@), mat_view(demands@), y)]
            feasible(rats_view(resources@), mat_view(demands@), y) ==> q_le(
                q_sum(y),
                q_sum(rats_view(a@)),
            ),
        r matches Err(e) ==> e == AllocError::DimensionMismatch || e
            == AllocError::NumericOverflow || e == AllocError::SolverUnavailable,
        demands@.len() == 0 ==> (r matches Ok(a) && a@.len() == 0),
        (modest_problem(rats_view(resources@), mat_view(demands@)) && demands@.len() == 1) ==> r
            is Ok,
{
    let ghost rv = rats_view(resources@);
    let ghost dmv = mat_view(demands@);
    let n: usize = demands.len();
    if n == 0 {
        let empty: Vec<Rat> = Vec::new();
        proof {
            assert(rats_view(empty@).len() == 0);
            assert forall|j: int| 0 <= j < rv.len() implies q_le(
                #[trigger] usage(dmv, rats_view(empty@), j),
                rv[j],
            ) by {
                assert(usage_terms(dmv, rats_view(empty@), j).len() == 0);
                lemma_q_zero_le((0, 1), rv[j]);
            }
            assert forall|y: Seq<(int, int)>| #![trigger feasible(rv, dmv, y)]
                feasible(rv, dmv, y) implies q_le(q_sum(y), q_sum(rats_view(empty@))) by {
                assert(y.len() == 0);
                assert(q_sum(y) == (0int, 1int));
                assert(q_sum(rats_view(empty@)) == (0int, 1int));
            }
        }
        return Ok(empty);
    }
    if !check_dims(resources, demands) {
        return Err(AllocError::DimensionMismatch);
    }
    let m: usize = resources.len();

    if n == 1 {
        return ceei_single_flow(resources, demands);
    }

    let (sol, duals): (Vec<Rat>, Vec<Rat>) = match simplex_max_sum(resources, demands) {
        Ok(p) => p,
        Err(e) => {
            return Err(e);
        },
    };
    let ghost sv = rats_view(sol@);
    let ghost uv = rats_view(duals@);

    // Re-check the candidate: one non-negative rate per flow, no capacity
    // exceeded. The answer is accepted only on these grounds.
    let mut i: usize = 0;
    while i < n
        invariant
            i <= n,
            n == demands@.len(),
            n != 1,
            rv == rats_view(resources@),
            dmv == mat_view(demands@),
            dims_ok(rv, dmv),
            sol@.len() == n,
            sv == rats_view(sol@),
            forall|i2: int| 0 <= i2 < n ==> q_wf(#[trigger] sv[i2]),
            forall|i2: int| 0 <= i2 < i ==> q_nonneg(#[trigger] sv[i2]),
        decreases n - i,
    {
        proof {
            assert(sv[i as int] == sol@[i as int]@);
        }
        if !sol[i].is_nonneg() {
            return Err(AllocError::SolverUnavailable);
        }
        i += 1;
    }
    let mut j: usize = 0;
    while j < m
        invariant
            0 < n,
            j <= m,
            n == demands@.len(),
            n != 1,
            m == resources@.len(),
            rv == rats_view(resources@),
            dmv == mat_view(demands@),
            all_nonneg(rv),
            mat_nonneg(dmv),
            dims_ok(rv, dmv),
            sol@.len() == n,
            sv == rats_view(sol@),
            forall|i2: int| 0 <= i2 < n ==> q_wf(#[trigger] sv[i2]) && q_nonneg(sv[i2]),
            forall|j2: int| 0 <= j2 < j ==> q_le(#[trigger] usage(dmv, sv, j2), rv[j2]),
        decreases m - j,
    {
        proof {
            assert forall|i2: int| 0 <= i2 < demands@.len() implies j < (
            #[trigger] demands@[i2])@.len() by {
                assert(dmv[i2].len() == rats_view(demands@[i2]@).len());
            }
        }
        let u: Rat = match col_dot(demands, &sol, j) {
            Some(u) => u,
            None => {
                return Err(AllocError::NumericOverflow);
            },
        };
        proof {
            assert(rv[j as int] == resources@[j as int]@);
            assert forall|i2: int| 0 <= i2 < n implies q_wf(#[trigger] dmv[i2][j as int])
                && q_nonneg(dmv[i2][j as int]) by {
                assert(all_nonneg(dmv[i2]));
            }
            lemma_usage_terms_wf(dmv, sv, j as int);
            assert forall|i2: int| 0 <= i2 < usage_terms(dmv, sv, j as int).len() implies
                q_nonneg(#[trigger] usage_terms(dmv, sv, j as int)[i2]) by {
                lemma_q_mul_nonneg(dmv[i2][j as int], sv[i2]);
            }
            lemma_q_sum_upto_nonneg(usage_terms(dmv, sv, j as int), n as int);
            assert(usage_terms(dmv, sv, j as int).len() == n as int);
        }
        if !u.le(&resources[j]) {
            return Err(AllocError::SolverUnavailable);
        }
        proof {
            lemma_q_le_congruence(u@, usage(dmv, sv, j as int), rv[j as int], rv[j as int]);
        }
        j += 1;
    }

    // Optimality certificate: non-negative prices ...
    let mut j2: usize = 0;
    while j2 < m
        invariant
            0 < n,
            n == demands@.len(),
            n != 1,
            j2 <= m,
            m == resources@.len(),
            rv == rats_view(resources@),
            dmv == mat_view(demands@),
            dims_ok(rv, dmv),
            duals@.len() == m,
            uv == rats_view(duals@),
            forall|j3: int| 0 <= j3 < m ==> q_wf(#[trigger] uv[j3]),
            forall|j3: int| 0 <= j3 < j2 ==> q_nonneg(#[trigger] uv[j3]),
        decreases m - j2,
    {
        proof {
            assert(uv[j2 as int] == duals@[j2 as int]@);
        }
        if !duals[j2].is_nonneg() {
            return Err(AllocError::SolverUnavailable);
        }
        j2 += 1;
    }

    // ... under which every flow costs at least its objective weight ...
    let one: Rat = Rat::one();
    let mut i2: usize = 0;
    while i2 < n
        invariant
            0 < n,
            i2 <= n,
            n == demands@.len(),
            n != 1,
            m == resources@.len(),
            rv == rats_view(resources@),
            dmv == mat_view(demands@),
            dims_ok(rv, dmv),
            mat_nonneg(dmv),
            duals@.len() == m,
            uv == rats_view(duals@),
            one.wf(),
            one@ == q_one(),
            forall|j3: int| 0 <= j3 < m ==> q_wf(#[trigger] uv[j3]),
            forall|i3: int| 0 <= i3 < i2 ==> q_le(q_one(), #[trigger] dual_price(dmv, uv, i3)),
        decreases n - i2,
    {
        proof {
            assert(dmv[i2 as int].len() == rv.len());
            assert(dmv[i2 as int] == rats_view(demands@[i2 as int]@));
        }
        let p: Rat = match flow_price(demands, &duals, i2) {
            Some(p) => p,
            None => {
                return Err(AllocError::NumericOverflow);
            },
        };
        if !one.le(&p) {
            return Err(AllocError::SolverUnavailable);
        }
        proof {
            let dp = dual_price(dmv, uv, i2 as int);
            let terms = Seq::new(uv.len(), |j3: int| q_mul(uv[j3], dmv[i2 as int][j3]));
            assert(all_nonneg(dmv[i2 as int]));
            assert forall|j3: int| 0 <= j3 < terms.len() implies q_wf(#[trigger] terms[j3]) by {
                lemma_q_add_wf(uv[j3], dmv[i2 as int][j3]);
            }
            lemma_q_sum_upto_wf(terms, m as int);
            assert(dp == q_sum_upto(terms, m as int));
            lemma_q_le_congruence(q_one(), q_one(), p@, dp);
        }
        i2 += 1;
    }

    // ... and which pay for the pool exactly the total granted.
    let t1: Rat = match total_of(&sol) {
        Some(t) => t,
        None => {
            return Err(AllocError::NumericOverflow);
        },
    };
    let t2: Rat = match priced_pool_total(&duals, resources) {
        Some(t) => t,
        None => {
            return Err(AllocError::NumericOverflow);
        },
    };
    if !t1.eq_val(&t2) {
        return Err(AllocError::SolverUnavailable);
    }

    proof {
        assert(all_nonneg(uv));
        assert(dual_feasible(dmv, uv));
        let dvterms = Seq::new(uv.len(), |j3: int| q_mul(uv[j3], rv[j3]));
        assert forall|j3: int| 0 <= j3 < dvterms.len() implies q_wf(#[trigger] dvterms[j3]) by {
            lemma_q_add_wf(uv[j3], rv[j3]);
        }
        lemma_q_sum_upto_wf(dvterms, m as int);
        assert(dual_value(rv, uv) == q_sum_upto(dvterms, m as int));
        lemma_q_sum_upto_wf(sv, n as int);
        assert(q_sum(sv) == q_sum_upto(sv, n as int));
        // the pool total equals the granted total, exactly
        lemma_q_eq_trans(dual_value(rv, uv), t2@, t1@);
        lemma_q_eq_trans(dual_value(rv, uv), t1@, q_sum(sv));
        assert forall|y: Seq<(int, int)>| #![trigger feasible(rv, dmv, y)]
            feasible(rv, dmv, y) implies q_le(q_sum(y), q_sum(sv)) by {
            assert forall|k: int| 0 <= k < rv.len() implies q_wf(#[trigger] rv[k]) && q_nonneg(
                rv[k],
            ) by {}
            lemma_weak_duality(rv, dmv, uv, y);
            lemma_q_sum_upto_wf(y, y.len() as int);
            assert(q_sum(y) == q_sum_upto(y, y.len() as int));
            lemma_q_le_congruence(q_sum(y), q_sum(y), dual_value(rv, uv), q_sum(sv));
        }
    }
    Ok(sol)
}

/// A single flow needs no search: the largest feasible rate is the
/// tightest capacity-to-demand ratio, and the program's optimum. Success
/// is owed on modest integer inputs.
fn ceei_single_flow(resources: &Vec<Rat>, demands: &Vec<Vec<Rat>>) -> (r: Result<
    Vec<Rat>,
    AllocError,
>)
    requires
        all_nonneg(rats_view(resources@)),
        mat_nonneg(mat_view(demands@)),
        all_rows_pos(mat_view(demands@)),
        dims_ok(rats_view(resources@), mat_view(demands@)),
        demands@.len() == 1,
    ensures
        r matches Ok(a) ==> feasible(rats_view(resources@), mat_view(demands@), rats_view(a@)),
        r matches Ok(a) ==> forall|y: Seq<(int, int)>|
            #![trigger feasible(rats_view(resources@), mat_view(demands@), y)]
            feasible(rats_view(resources@), mat_view(demands@), y) ==> q_le(
                q_sum(y),
                q_sum(rats_view(a@)),
            ),
        r matches Err(e) ==> e == AllocError::NumericOverflow,
        modest_problem(rats_view(resources@), mat_view(demands@)) ==> r is Ok,
{
    let ghost rv = rats_view(resources@);
    let ghost dmv = mat_view(demands@);
    let ghost hm = modest_problem(rv, dmv);
    let m: usize = resources.len();
    let mut best: Option<Rat> = None;
    let mut j: usize = 0;
    while j < m
        invariant
            j <= m,
            m == resources@.len(),
            demands@.len() == 1,
            rv == rats_view(resources@),
            dmv == mat_view(demands@),
            all_nonneg(rv),
            mat_nonneg(dmv),
            dims_ok(rv, dmv),
            hm == modest_problem(rats_view(resources@), mat_view(demands@)),
            match best {
                Some(b) => b.wf() && q_nonneg(b@) && (forall|j2: int|
                    0 <= j2 < j && q_pos(#[trigger] dmv[0][j2]) ==> q_le(
                        b@,
                        q_div(rv[j2], dmv[0][j2]),
                    )) && (exists|j2: int|
                    0 <= j2 < j && q_pos(#[trigger] dmv[0][j2]) && q_eq(
                        b@,
                        q_div(rv[j2], dmv[0][j2]),
                    )),
                None => forall|j2: int| 0 <= j2 < j ==> !q_pos(#[trigger] dmv[0][j2]),
            },
        decreases m - j,
    {
        proof {
            assert(dmv[0] == rats_view(demands@[0]@));
            assert(dmv[0].len() == rv.len());
            assert(dmv[0][j as int] == demands@[0]@[j as int]@);
            assert(rv[j as int] == resources@[j as int]@);
            assert(all_nonneg(dmv[0]));
        }
        if demands[0][j].is_pos() {
            proof {
                lemma_q_div_props(rv[j as int], dmv[0][j as int]);
                if hm {
                    // an integer capacity over an integer demand is storable
                    assert(entries_modest(rv) && entries_modest(dmv[0]));
                    assert(q_in_i64(q_sign_norm(q_div(rv[j as int], dmv[0][j as int]))))
                        by (nonlinear_arith)
                        requires
                            0 <= rv[j as int].0 <= 64,
                            rv[j as int].1 == 1,
                            0 < dmv[0][j as int].0 <= 64,
                            dmv[0][j as int].1 == 1,
                            q_div(rv[j as int], dmv[0][j as int]) == (
                                rv[j as int].0 * dmv[0][j as int].1,
                                rv[j as int].1 * dmv[0][j as int].0,
                            ),
                    ;
                }
            }
            let cand: Rat = match resources[j].checked_div(&demands[0][j]) {
                Some(c) => c,
                None => {
                    proof {
                        if hm {
                            assert(false);
                        }
                    }
                    return Err(AllocError::NumericOverflow);
                },
            };
            proof {
                lemma_q_sign_congruence(cand@, q_div(rv[j as int], dmv[0][j as int]));
            }
            let next: Rat = match best {
                None => cand,
                Some(b) => {
                    if cand.le(&b) {
                        cand
                    } else {
                        b
                    }
                },
            };
            proof {
                assert(q_le(next@, cand@));
                assert(best matches Some(b) ==> q_le(next@, b@) && next.wf());
                assert forall|j2: int|
                    0 <= j2 < j + 1 && q_pos(#[trigger] dmv[0][j2]) implies q_le(
                    next@,
                    q_div(rv[j2], dmv[0][j2]),
                ) by {
                    lemma_q_div_props(rv[j2], dmv[0][j2]);
                    if j2 == j as int {
                        lemma_q_le_congruence(
                            next@,
                            next@,
                            cand@,
                            q_div(rv[j2], dmv[0][j2]),
                        );
                    } else {
                        match best {
                            Some(b) => {
                                lemma_q_le_trans(next@, b@, q_div(rv[j2], dmv[0][j2]));
                            },
                            None => {},
                        }
                    }
                }
                assert(next == cand || (best matches Some(b) && next == b));
                if next == cand {
                    assert(q_pos(dmv[0][j as int]) && q_eq(
                        next@,
                        q_div(rv[j as int], dmv[0][j as int]),
                    ));
                } else {
                    match best {
                        Some(b) => {
                            let jw = choose|j2: int|
                                0 <= j2 < j && q_pos(#[trigger] dmv[0][j2]) && q_eq(
                                    b@,
                                    q_div(rv[j2], dmv[0][j2]),
                                );
                            assert(q_pos(dmv[0][jw]) && q_eq(next@, q_div(rv[jw], dmv[0][jw])));
                        },
                        None => {},
                    }
                }
            }
            best = Some(next);
        }
        j += 1;
    }
    let x: Rat = match best {
        Some(x) => x,
        None => {
            proof {
                // the flow demands some resource, so a ratio exists
                assert(has_pos_entry(dmv[0]));
                let j0 = choose|j2: int| 0 <= j2 < dmv[0].len() && q_pos(#[trigger] dmv[0][j2]);
                assert(dmv[0].len() == rv.len());
                assert(false);
            }
            return Err(AllocError::NumericOverflow);
        },
    };
    let mut alloc: Vec<Rat> = Vec::new();
    alloc.push(x);
    let ghost av = rats_view(alloc@);
    proof {
        assert(av.len() == 1);
        assert(av[0] == x@);
        let jstar = choose|j2: int|
            0 <= j2 < m && q_pos(#[trigger] dmv[0][j2]) && q_eq(x@, q_div(rv[j2], dmv[0][j2]));
        lemma_q_div_props(rv[jstar], dmv[0][jstar]);
        assert(all_nonneg(dmv[0]));
        // feasibility: the single term is within every capacity
        assert forall|j2: int| 0 <= j2 < rv.len() implies q_le(
            #[trigger] usage(dmv, av, j2),
            rv[j2],
        ) by {
            let term = q_mul(dmv[0][j2], av[0]);
            assert(usage_terms(dmv, av, j2).len() == 1);
            assert(usage_terms(dmv, av, j2)[0] == term);
            lemma_q_sum_upto_one(usage_terms(dmv, av, j2));
            assert(usage(dmv, av, j2) == (term.0, term.1));
            lemma_q_add_wf(dmv[0][j2], av[0]);
            if q_pos(dmv[0][j2]) {
                lemma_q_div_props(rv[j2], dmv[0][j2]);
                lemma_q_le_div_iff_mul(x@, rv[j2], dmv[0][j2]);
                lemma_q_mul_comm(x@, dmv[0][j2]);
                lemma_q_le_congruence(q_mul(x@, dmv[0][j2]), term, rv[j2], rv[j2]);
            } else {
                assert(term.0 == 0) by (nonlinear_arith)
                    requires
                        dmv[0][j2].0 == 0,
                        term == (dmv[0][j2].0 * av[0].0, dmv[0][j2].1 * av[0].1),
                ;
                lemma_q_zero_le(term, rv[j2]);
            }
        }
        // optimality: any feasible rate is bounded by the binding ratio
        assert forall|y: Seq<(int, int)>| #![trigger feasible(rv, dmv, y)]
            feasible(rv, dmv, y) implies q_le(q_sum(y), q_sum(av)) by {
            assert(y.len() == 1);
            let d = dmv[0][jstar];
            let ty = q_mul(d, y[0]);
            assert(usage_terms(dmv, y, jstar).len() == 1);
            assert(usage_terms(dmv, y, jstar)[0] == ty);
            lemma_q_sum_upto_one(usage_terms(dmv, y, jstar));
            assert(usage(dmv, y, jstar) == (ty.0, ty.1));
            assert(q_le(usage(dmv, y, jstar), rv[jstar]));
            lemma_q_add_wf(d, y[0]);
            lemma_q_mul_comm(y[0], d);
            lemma_q_le_congruence(ty, q_mul(y[0], d), rv[jstar], rv[jstar]);
            lemma_q_le_div_iff_mul(y[0], rv[jstar], d);
            lemma_q_le_congruence(y[0], y[0], q_div(rv[jstar], d), x@);
            lemma_q_sum_upto_one(y);
            assert(q_sum(y) == (y[0].0, y[0].1));
            lemma_q_sum_upto_one(av);
            assert(q_sum(av) == (av[0].0, av[0].1));
        }
    }
    Ok(alloc)
}

/// Every tableau row has `width` entries, all well-formed rationals.
spec fn tableau_wf(tab: Seq<Vec<Rat>>, width: int) -> bool {
    (forall|r: int| 0 <= r < tab.len() ==> (#[trigger] tab[r])@.len() == width) && (forall|
        r: int,
        k: int,
    |
        0 <= r < tab.len() && 0 <= k < width ==> (#[trigger] tab[r]@[k]).wf())
}

/// Primal simplex on `maximize sum of rates, demands within capacities,
/// rates non-negative`, in exact rational arithmetic with Bland's pivot
/// rule; besides the rates it hands back the per-resource prices read off
/// the final objective row. Only shape and well-formedness are promised;
/// the caller re-checks both answers.
fn simplex_max_sum(resources: &Vec<Rat>, demands: &Vec<Vec<Rat>>) -> (r: Result<
    (Vec<Rat>, Vec<Rat>),
    AllocError,
>)
    requires
        mat_nonneg(mat_view(demands@)),
        all_nonneg(rats_view(resources@)),
        dims_ok(rats_view(resources@), mat_view(demands@)),
        0 < demands@.len(),
    ensures
        r matches Ok(p) ==> p.0@.len() == demands@.len() && (forall|i: int|
            0 <= i < p.0@.len() ==> q_wf(#[trigger] rats_view(p.0@)[i])) && p.1@.len()
            == resources@.len() && (forall|j: int|
            0 <= j < p.1@.len() ==> q_wf(#[trigger] rats_view(p.1@)[j])),
        r matches Err(e) ==> e == AllocError::NumericOverflow || e
            == AllocError::SolverUnavailable,
{
    let n: usize = demands.len();
    let m: usize = resources.len();
    let nm: usize = match n.checked_add(m) {
        Some(s) => s,
        None => {
            return Err(AllocError::NumericOverflow);
        },
    };
    let width: usize = match nm.checked_add(1) {
        Some(s) => s,
        None => {
            return Err(AllocError::NumericOverflow);
        },
    };

    // Tableau: one row per resource, columns for the rate variables, the
    // slack variables, and the right-hand side.
    let mut tab: Vec<Vec<Rat>> = Vec::new();
    let mut j: usize = 0;
    while j < m
        invariant
            j <= m,
            n == demands@.len(),
            m == resources@.len(),
            width == n + m + 1,
            mat_nonneg(mat_view(demands@)),
            all_nonneg(rats_view(resources@)),
            dims_ok(rats_view(resources@), mat_view(demands@)),
            tab@.len() == j,
            tableau_wf(tab@, width as int),
        decreases m - j,
    {
        let mut row: Vec<Rat> = Vec::new();
        let mut i: usize = 0;
        while i < n
            invariant
                i <= n,
                n == demands@.len(),
                m == resources@.len(),
                j < m,
                mat_nonneg(mat_view(demands@)),
                dims_ok(rats_view(resources@), mat_view(demands@)),
                row@.len() == i,
                forall|k: int| 0 <= k < i ==> (#[trigger] row@[k]).wf(),
            decreases n - i,
        {
            proof {
                assert(mat_view(demands@)[i as int].len() == rats_view(resources@).len());
                assert(mat_view(demands@)[i as int][j as int] == demands@[i as int]@[j as int]@);
                assert(all_nonneg(mat_view(demands@)[i as int]));
            }
            row.push(demands[i][j]);
            i += 1;
        }
        let mut j2: usize = 0;
        while j2 < m
            invariant
                j2 <= m,
                row@.len() == n + j2,
                forall|k: int| 0 <= k < row@.len() ==> (#[trigger] row@[k]).wf(),
            decreases m - j2,
        {
            if j2 == j {
                row.push(Rat::one());
            } else {
                row.push(Rat::zero());
            }
            j2 += 1;
        }
        proof {
            assert(rats_view(resources@)[j as int] == resources@[j as int]@);
        }
        row.push(resources[j]);
        let ghost old_tab = tab@;
        tab.push(row);
        proof {
            assert forall|r2: int| 0 <= r2 < tab@.len() implies (#[trigger] tab@[r2])@.len()
                == width by {
                if r2 < old_tab.len() {
                    assert(tab@[r2] == old_tab[r2]);
                }
            }
            assert forall|r2: int, k: int|
                0 <= r2 < tab@.len() && 0 <= k < width implies (#[trigger] tab@[r2]@[k]).wf() by {
                if r2 < old_tab.len() {
                    assert(tab@[r2] == old_tab[r2]);
                }
            }
        }
        j += 1;
    }

    // Objective row: each rate contributes one to the total being maximized.
    let mut cost: Vec<Rat> = Vec::new();
    let mut k: usize = 0;
    while k < width
        invariant
            k <= width,
            cost@.len() == k,
            forall|k2: int| 0 <= k2 < k ==> (#[trigger] cost@[k2]).wf(),
        decreases width - k,
    {
        if k < n {
            cost.push(Rat::one());
        } else {
            cost.push(Rat::zero());
        }
        k += 1;
    }

    // Initially every slack variable is basic.
    let mut basis: Vec<usize> = Vec::new();
    let mut j3: usize = 0;
    while j3 < m
        invariant
            j3 <= m,
            width == n + m + 1,
            basis@.len() == j3,
            forall|r2: int| 0 <= r2 < j3 ==> #[trigger] basis@[r2] < n + m,
        decreases m - j3,
    {
        basis.push(n + j3);
        j3 += 1;
    }

    let mut fuel: usize = PIVOT_LIMIT;
    let mut done: bool = false;
    while fuel > 0 && !done
        invariant
            n == demands@.len(),
            m == resources@.len(),
            nm == n + m,
            width == n + m + 1,
            tab@.len() == m,
            tableau_wf(tab@, width as int),
            cost@.len() == width,
            forall|k2: int| 0 <= k2 < width ==> (#[trigger] cost@[k2]).wf(),
            basis@.len() == m,
            forall|r2: int| 0 <= r2 < m ==> #[trigger] basis@[r2] < n + m,
        decreases fuel,
    {
        fuel -= 1;

        // Entering column: the lowest-numbered variable that improves the
        // objective.
        let mut e_opt: Option<usize> = None;
        let mut k2: usize = 0;
        while k2 < nm
            invariant
                k2 <= nm,
                nm < width,
                cost@.len() == width,
                forall|k3: int| 0 <= k3 < width ==> (#[trigger] cost@[k3]).wf(),
                e_opt matches Some(e) ==> e < nm,
            decreases nm - k2,
        {
            if e_opt.is_none() && cost[k2].is_pos() {
                e_opt = Some(k2);
            }
            k2 += 1;
        }
        match e_opt {
            None => {
                done = true;
            },
            Some(e) => {
                // Leaving row: least ratio, ties to the lowest-numbered
                // basic variable.
                let mut leave_opt: Option<usize> = None;
                let mut best: Rat = Rat::zero();
                let mut r2: usize = 0;
                while r2 < m
                    invariant
                        r2 <= m,
                        e < nm,
                        nm < width,
                        m == tab@.len(),
                        tableau_wf(tab@, width as int),
                        basis@.len() == m,
                        best.wf(),
                        leave_opt matches Some(lr) ==> lr < m,
                    decreases m - r2,
                {
                    if tab[r2][e].is_pos() {
                        let ratio: Rat = match tab[r2][width - 1].checked_div(&tab[r2][e]) {
                            Some(x) => x,
                            None => {
                                return Err(AllocError::NumericOverflow);
                            },
                        };
                        match leave_opt {
                            None => {
                                leave_opt = Some(r2);
                                best = ratio;
                            },
                            Some(lr) => {
                                if ratio.lt(&best) || (ratio.eq_val(&best) && basis[r2]
                                    < basis[lr]) {
                                    leave_opt = Some(r2);
                                    best = ratio;
                                }
                            },
                        }
                    }
                    r2 += 1;
                }
                let lr: usize = match leave_opt {
                    Some(lr) => lr,
                    None => {
                        // no capacity limits this column: the program is
                        // unbounded in exact arithmetic
                        return Err(AllocError::SolverUnavailable);
                    },
                };

                // Pivot: scale the leaving row, then eliminate the entering
                // column from every other row and from the objective.
                let p: Rat = tab[lr][e];
                if !p.is_pos() {
                    return Err(AllocError::SolverUnavailable);
                }
                let mut k3: usize = 0;
                while k3 < width
                    invariant
                        k3 <= width,
                        lr < m,
                        m == tab@.len(),
                        tableau_wf(tab@, width as int),
                        p.wf(),
                        p@.0 != 0,
                    decreases width - k3,
                {
                    let v: Rat = match tab[lr][k3].checked_div(&p) {
                        Some(v) => v,
                        None => {
                            return Err(AllocError::NumericOverflow);
                        },
                    };
                    let ghost old_tab = tab@;
                    tab[lr][k3] = v;
                    proof {
                        assert forall|r3: int| 0 <= r3 < tab@.len() implies (
                        #[trigger] tab@[r3])@.len() == width by {
                            if r3 != lr as int {
                                assert(tab@[r3] == old_tab[r3]);
                            }
                        }
                        assert forall|r3: int, k4: int|
                            0 <= r3 < tab@.len() && 0 <= k4 < width implies (
                        #[trigger] tab@[r3]@[k4]).wf() by {
                            if r3 != lr as int {
                                assert(tab@[r3] == old_tab[r3]);
                            } else {
                                if k4 != k3 as int {
                                    assert(tab@[r3]@[k4] == old_tab[r3]@[k4]);
                                }
                            }
                        }
                    }
                    k3 += 1;
                }
                let mut r3: usize = 0;
                while r3 < m
                    invariant
                        r3 <= m,
                        lr < m,
                        e < nm,
                        nm < width,
                        m == tab@.len(),
                        tableau_wf(tab@, width as int),
                    decreases m - r3,
                {
                    if r3 != lr {
                        let f: Rat = tab[r3][e];
                        let mut k4: usize = 0;
                        while k4 < width
                            invariant
                                k4 <= width,
                                r3 < m,
                                lr < m,
                                r3 != lr,
                                m == tab@.len(),
                                tableau_wf(tab@, width as int),
                                f.wf(),
                            decreases width - k4,
                        {
                            let prod: Rat = match f.checked_mul(&tab[lr][k4]) {
                                Some(v) => v,
                                None => {
                                    return Err(AllocError::NumericOverflow);
                                },
                            };
                            let v: Rat = match tab[r3][k4].checked_sub(&prod) {
                                Some(v) => v,
                                None => {
                                    return Err(AllocError::NumericOverflow);
                                },
                            };
                            let ghost old_tab = tab@;
                            tab[r3][k4] = v;
                            proof {
                                assert forall|r4: int| 0 <= r4 < tab@.len() implies (
                                #[trigger] tab@[r4])@.len() == width by {
                                    if r4 != r3 as int {
                                        assert(tab@[r4] == old_tab[r4]);
                                    }
                                }
                                assert forall|r4: int, k5: int|
                                    0 <= r4 < tab@.len() && 0 <= k5 < width implies (
                                #[trigger] tab@[r4]@[k5]).wf() by {
                                    if r4 != r3 as int {
                                        assert(tab@[r4] == old_tab[r4]);
                                    } else {
                                        if k5 != k4 as int {
                                            assert(tab@[r4]@[k5] == old_tab[r4]@[k5]);
                                        }
                                    }
                                }
                            }
                            k4 += 1;
                        }
                    }
                    r3 += 1;
                }
                let f: Rat = cost[e];
                let mut k4: usize = 0;
                while k4 < width
                    invariant
                        k4 <= width,
                        lr < m,
                        m == tab@.len(),
                        tableau_wf(tab@, width as int),
                        cost@.len() == width,
                        forall|k5: int| 0 <= k5 < width ==> (#[trigger] cost@[k5]).wf(),
                        f.wf(),
                    decreases width - k4,
                {
                    let prod: Rat = match f.checked_mul(&tab[lr][k4]) {
                        Some(v) => v,
                        None => {
                            return Err(AllocError::NumericOverflow);
                        },
                    };
                    let v: Rat = match cost[k4].checked_sub(&prod) {
                        Some(v) => v,
                        None => {
                            return Err(AllocError::NumericOverflow);
                        },
                    };
                    let ghost old_cost = cost@;
                    cost[k4] = v;
                    proof {
                        assert forall|k5: int| 0 <= k5 < width implies (
                        #[trigger] cost@[k5]).wf() by {
                            if k5 != k4 as int {
                                assert(cost@[k5] == old_cost[k5]);
                            }
                        }
                    }
                    k4 += 1;
                }
                basis[lr] = e;
            },
        }
    }
    if !done {
        return Err(AllocError::SolverUnavailable);
    }

    // Read the rates back: a basic rate variable takes its row's right-hand
    // side, every other rate is zero.
    let mut sol: Vec<Rat> = Vec::new();
    let mut i: usize = 0;
    while i < n
        invariant
            i <= n,
            n == demands@.len(),
            m == tab@.len(),
            width == n + m + 1,
            tableau_wf(tab@, width as int),
            basis@.len() == m,
            sol@.len() == i,
            forall|i2: int| 0 <= i2 < i ==> q_wf(#[trigger] rats_view(sol@)[i2]),
        decreases n - i,
    {
        let mut found: Option<Rat> = None;
        let mut r2: usize = 0;
        while r2 < m
            invariant
                r2 <= m,
                m == tab@.len(),
                width == n + m + 1,
                tableau_wf(tab@, width as int),
                basis@.len() == m,
                found matches Some(v) ==> v.wf(),
            decreases m - r2,
        {
            if basis[r2] == i {
                found = Some(tab[r2][width - 1]);
            }
            r2 += 1;
        }
        let v: Rat = match found {
            Some(v) => v,
            None => Rat::zero(),
        };
        let ghost old_sol = sol@;
        sol.push(v);
        proof {
            assert forall|i2: int| 0 <= i2 < i + 1 implies q_wf(
                #[trigger] rats_view(sol@)[i2],
            ) by {
                if i2 < i {
                    assert(sol@[i2] == old_sol[i2]);
                    assert(rats_view(sol@)[i2] == rats_view(old_sol)[i2]);
                } else {
                    assert(rats_view(sol@)[i2] == v@);
                }
            }
        }
        i += 1;
    }

    // Certificate prices: the negated reduced costs of the slack columns.
    let mut duals: Vec<Rat> = Vec::new();
    let mut j5: usize = 0;
    while j5 < m
        invariant
            j5 <= m,
            m == resources@.len(),
            nm == n + m,
            width == n + m + 1,
            cost@.len() == width,
            forall|k2: int| 0 <= k2 < width ==> (#[trigger] cost@[k2]).wf(),
            duals@.len() == j5,
            forall|j6: int| 0 <= j6 < j5 ==> q_wf(#[trigger] rats_view(duals@)[j6]),
        decreases m - j5,
    {
        let zero: Rat = Rat::zero();
        let d: Rat = match zero.checked_sub(&cost[n + j5]) {
            Some(d) => d,
            None => {
                return Err(AllocError::NumericOverflow);
            },
        };
        let ghost old_duals = duals@;
        duals.push(d);
        proof {
            assert forall|j6: int| 0 <= j6 < j5 + 1 implies q_wf(
                #[trigger] rats_view(duals@)[j6],
            ) by {
                if j6 < j5 {
                    assert(duals@[j6] == old_duals[j6]);
                    assert(rats_view(duals@)[j6] == rats_view(old_duals)[j6]);
                } else {
                    assert(rats_view(duals@)[j6] == d@);
                }
            }
        }
        j5 += 1;
    }
    Ok((sol, duals))
}

} // verus!
