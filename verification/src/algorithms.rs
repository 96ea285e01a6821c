//! The allocation-algorithm interface: shared feasibility specifications,
//! the error taxonomy, and executable helpers common to all policies.

use vstd::prelude::*;
use crate::rat::{q_wf, q_eq, q_le, q_add, q_mul, q_div, q_one, q_nonneg, q_pos, q_in_i64,
    q_sign_norm, q_abs, q_bounded, Rat,
    lemma_q_add_wf, lemma_q_add_congruence, lemma_q_eq_trans, lemma_q_le_trans,
    lemma_q_le_congruence, lemma_q_mul_congruence, lemma_q_mul_nonneg, lemma_q_mul_pos,
    lemma_q_sign_congruence, lemma_q_div_props, lemma_q_mul_div_cancel, lemma_q_div_congruence,
    lemma_q_mul_comm3, lemma_q_zero_le, lemma_q_le_div_iff_mul, lemma_q_solve_scaled,
    lemma_q_mul_le_nonneg};
use crate::rat_seq::{q_sum, q_sum_upto, all_nonneg, lemma_q_sum_upto_wf, lemma_q_sum_upto_nonneg,
    lemma_q_sum_upto_pos, lemma_q_sum_upto_scale};

verus! {

/// Why an allocation call failed.
#[derive(Clone, Copy, Debug, PartialEq, Eq, Structural)]
pub enum AllocError {
    /// A demand vector's length disagrees with the resource vector (or, for
    /// priced policies, with the price vector); rejected before any solving.
    DimensionMismatch,
    /// The solver reported that capacity and fairness constraints cannot be
    /// met together. With non-negative demands this does not arise, but it is
    /// surfaced rather than silently defaulted.
    InfeasibleProblem,
    /// The solver gave up without an answer.
    SolverUnavailable,
    /// Exact arithmetic left the range this library can represent.
    NumericOverflow,
}

/// The values of a vector of rationals.
pub open spec fn rats_view(v: Seq<Rat>) -> Seq<(int, int)> {
    v.map_values(|r: Rat| r@)
}

/// The values of a demand matrix (one row per flow).
pub open spec fn mat_view(d: Seq<Vec<Rat>>) -> Seq<Seq<(int, int)>> {
    d.map_values(|v: Vec<Rat>| rats_view(v@))
}

/// Every entry is well-formed and positive.
pub open spec fn all_pos(s: Seq<(int, int)>) -> bool {
    forall|i: int| 0 <= i < s.len() ==> q_wf(#[trigger] s[i]) && q_pos(s[i])
}

/// Every row holds well-formed, non-negative entries.
pub open spec fn mat_nonneg(dem: Seq<Seq<(int, int)>>) -> bool {
    forall|i: int| 0 <= i < dem.len() ==> all_nonneg(#[trigger] dem[i])
}

/// Some entry of `s` is positive.
pub open spec fn has_pos_entry(s: Seq<(int, int)>) -> bool {
    exists|j: int| 0 <= j < s.len() && q_pos(#[trigger] s[j])
}

/// Every row has a positive entry: every flow demands some resource.
pub open spec fn all_rows_pos(dem: Seq<Seq<(int, int)>>) -> bool {
    forall|i: int| 0 <= i < dem.len() ==> has_pos_entry(#[trigger] dem[i])
}

/// Every demand vector has one entry per resource.
pub open spec fn dims_ok(res: Seq<(int, int)>, dem: Seq<Seq<(int, int)>>) -> bool {
    forall|i: int| 0 <= i < dem.len() ==> (#[trigger] dem[i]).len() == res.len()
}

/// The per-flow contributions `dem[i][j] * x[i]` to resource `j`.
pub open spec fn usage_terms(dem: Seq<Seq<(int, int)>>, x: Seq<(int, int)>, j: int) -> Seq<
    (int, int),
> {
    Seq::new(x.len(), |i: int| q_mul(dem[i][j], x[i]))
}

/// Total consumption of resource `j` under allocation `x`.
pub open spec fn usage(dem: Seq<Seq<(int, int)>>, x: Seq<(int, int)>, j: int) -> (int, int) {
    q_sum(usage_terms(dem, x, j))
}

/// No resource is consumed beyond its capacity.
pub open spec fn within_capacity(
    res: Seq<(int, int)>,
    dem: Seq<Seq<(int, int)>>,
    x: Seq<(int, int)>,
) -> bool {
    forall|j: int| 0 <= j < res.len() ==> q_le(#[trigger] usage(dem, x, j), res[j])
}

/// A feasible allocation: one non-negative rate per flow, consuming no
/// resource beyond its capacity.
pub open spec fn feasible(
    res: Seq<(int, int)>,
    dem: Seq<Seq<(int, int)>>,
    x: Seq<(int, int)>,
) -> bool {
    x.len() == dem.len() && all_nonneg(x) && within_capacity(res, dem, x)
}

/// A fairness policy that turns demand vectors and a capacity vector into a
/// feasible allocation, one rate per flow, in input order.
pub trait Algorithm: Sized {
    /// The policy's own configuration is usable (e.g. prices are positive).
    spec fn policy_wf(&self) -> bool;

    /// The inputs' dimensions agree, including any policy-owned vector.
    spec fn dims_match(&self, res: Seq<(int, int)>, dem: Seq<Seq<(int, int)>>) -> bool;

    /// What the policy asks of the capacity vector: non-negative for all,
    /// and strictly positive only where its own formula divides by a
    /// capacity.
    spec fn input_ok(&self, res: Seq<(int, int)>, dem: Seq<Seq<(int, int)>>) -> bool;

    fn allocate(&self, resources: &Vec<Rat>, demands: &Vec<Vec<Rat>>) -> (r: Result<
        Vec<Rat>,
        AllocError,
    >)
        requires
            self.policy_wf(),
            self.input_ok(rats_view(resources@), mat_view(demands@)),
            mat_nonneg(mat_view(demands@)),
            all_rows_pos(mat_view(demands@)),
        ensures
            r matches Ok(a) ==> self.dims_match(rats_view(resources@), mat_view(demands@))
                && feasible(rats_view(resources@), mat_view(demands@), rats_view(a@)),
            (r matches Err(e) && e == AllocError::DimensionMismatch) <==> !self.dims_match(
                rats_view(resources@),
                mat_view(demands@),
            ),
            demands@.len() == 0 && self.dims_match(rats_view(resources@), mat_view(demands@))
                ==> (r matches Ok(a) && a@.len() == 0),
    ;
}

/// Sixty-four to the `k`-th power.
pub open spec fn pow64(k: nat) -> int
    decreases k,
{
    if k == 0 {
        1
    } else {
        64 * pow64((k - 1) as nat)
    }
}

pub proof fn lemma_pow64_pos(k: nat)
    ensures
        pow64(k) >= 1,
    decreases k,
{
    if k > 0 {
        lemma_pow64_pos((k - 1) as nat);
    }
}

pub proof fn lemma_pow64_mono(j: nat, k: nat)
    requires
        j <= k,
    ensures
        pow64(j) <= pow64(k),
    decreases k,
{
    if j < k {
        lemma_pow64_mono(j, (k - 1) as nat);
        lemma_pow64_pos((k - 1) as nat);
    }
}

proof fn lemma_pow64_values()
    ensures
        pow64(6) == 68719476736,
        pow64(7) == 4398046511104,
        pow64(8) == 281474976710656,
{
    assert(pow64(0) == 1);
    assert(pow64(1) == 64);
    assert(pow64(2) == 4096);
    assert(pow64(3) == 262144);
    assert(pow64(4) == 16777216);
    assert(pow64(5) == 1073741824);
    assert(pow64(6) == 68719476736);
    assert(pow64(7) == 4398046511104);
    assert(pow64(8) == 281474976710656);
}

/// Integer-valued entries no larger than sixty-four: together with the
/// flow-count cap below, a benchmark-sized class of inputs on which the
/// closed-form policies owe success.
pub open spec fn entries_modest(s: Seq<(int, int)>) -> bool {
    forall|j: int| 0 <= j < s.len() ==> (#[trigger] s[j]).1 == 1 && 0 <= s[j].0 <= 64
}

/// At most six flows, each with modest integer demands.
pub open spec fn demands_modest(dem: Seq<Seq<(int, int)>>) -> bool {
    dem.len() <= 6 && (forall|i: int| 0 <= i < dem.len() ==> entries_modest(#[trigger] dem[i]))
}

/// Tiny integer entries, at most seven of them: dot products of two such
/// vectors stay within the equalizing core's weight bound.
pub open spec fn entries_tiny(s: Seq<(int, int)>) -> bool {
    s.len() <= 7 && (forall|j: int| 0 <= j < s.len() ==> (#[trigger] s[j]).1 == 1 && 0 <= s[j].0
        <= 3)
}

/// The owed-success class of the dominant-share policy: modest integer
/// capacities and demands, of matching dimensions.
pub open spec fn modest_problem(res: Seq<(int, int)>, dem: Seq<Seq<(int, int)>>) -> bool {
    entries_modest(res) && demands_modest(dem) && dims_ok(res, dem)
}

/// The owed-success class of the equalizing core: modest capacities and
/// demands, and one bounded weight per flow.
pub open spec fn modest_inputs(
    res: Seq<(int, int)>,
    dem: Seq<Seq<(int, int)>>,
    w: Seq<(int, int)>,
) -> bool {
    entries_modest(res) && demands_modest(dem) && (forall|i: int|
        0 <= i < w.len() ==> q_bounded(#[trigger] w[i], 64, 64))
}

/// A modest integer demand entry times a bounded rate stays small.
proof fn lemma_modest_term(d: (int, int), x: (int, int))
    by (nonlinear_arith)
    requires
        d.1 == 1,
        0 <= d.0 <= 64,
        q_bounded(x, 64, 64),
    ensures
        q_bounded(q_mul(d, x), 4096, 64),
        q_in_i64(q_mul(d, x)),
{
}

/// Adding one small term to a bounded running total keeps it bounded one
/// power further out, still far inside storable range.
proof fn lemma_modest_add_step(a: (int, int), t: (int, int), i: int)
    requires
        0 <= i <= 5,
        q_bounded(a, i * pow64((i + 1) as nat), pow64(i as nat)),
        q_bounded(t, 4096, 64),
    ensures
        q_bounded(q_add(a, t), (i + 1) * pow64((i + 2) as nat), pow64((i + 1) as nat)),
        q_in_i64(q_add(a, t)),
{
    lemma_pow64_pos(i as nat);
    lemma_pow64_pos((i + 1) as nat);
    assert(pow64((i + 1) as nat) == 64 * pow64(i as nat));
    assert(pow64((i + 2) as nat) == 64 * pow64((i + 1) as nat));
    lemma_pow64_mono((i + 2) as nat, 7);
    lemma_pow64_values();
    assert(q_bounded(q_add(a, t), (i + 1) * pow64((i + 2) as nat), pow64((i + 1) as nat))
        && q_in_i64(q_add(a, t))) by (nonlinear_arith)
        requires
            0 <= i <= 5,
            q_bounded(a, i * pow64((i + 1) as nat), pow64(i as nat)),
            q_bounded(t, 4096, 64),
            pow64((i + 1) as nat) == 64 * pow64(i as nat),
            pow64((i + 2) as nat) == 64 * pow64((i + 1) as nat),
            pow64((i + 2) as nat) <= 4398046511104,
            pow64(i as nat) >= 1,
            pow64((i + 1) as nat) >= 1,
            q_add(a, t) == (a.0 * t.1 + t.0 * a.1, a.1 * t.1),
    ;
}

/// Whether every demand vector's length equals the resource vector's.
pub fn check_dims(resources: &Vec<Rat>, demands: &Vec<Vec<Rat>>) -> (r: bool)
    ensures
        r == dims_ok(rats_view(resources@), mat_view(demands@)),
{
    let m: usize = resources.len();
    let n: usize = demands.len();
    let mut i: usize = 0;
    while i < n
        invariant
            i <= n,
            n == demands@.len(),
            m == resources@.len(),
            forall|i2: int| 0 <= i2 < i ==> (#[trigger] demands@[i2])@.len() == m,
        decreases n - i,
    {
        if demands[i].len() != m {
            assert(mat_view(demands@)[i as int].len() != rats_view(resources@).len());
            return false;
        }
        i += 1;
    }
    true
}

/// The contributions to resource `j` are well-formed rationals.
pub proof fn lemma_usage_terms_wf(dem: Seq<Seq<(int, int)>>, x: Seq<(int, int)>, j: int)
    requires
        forall|i: int| 0 <= i < x.len() ==> q_wf(#[trigger] x[i]),
        forall|i: int| 0 <= i < x.len() ==> q_wf(#[trigger] dem[i][j]),
    ensures
        forall|i: int| 0 <= i < usage_terms(dem, x, j).len() ==> q_wf(
            #[trigger] usage_terms(dem, x, j)[i],
        ),
{
    assert forall|i: int| 0 <= i < usage_terms(dem, x, j).len() implies q_wf(
        #[trigger] usage_terms(dem, x, j)[i],
    ) by {
        lemma_q_add_wf(dem[i][j], x[i]);
    }
}

/// Exact total consumption of resource `j` by flows `xs`; `None` when the
/// running value leaves representable range, owed to succeed (with a small
/// result) on a modest problem with bounded rates.
pub(crate) fn col_dot(demands: &Vec<Vec<Rat>>, xs: &Vec<Rat>, j: usize) -> (r: Option<Rat>)
    requires
        xs@.len() == demands@.len(),
        forall|i: int| 0 <= i < demands@.len() ==> j < (#[trigger] demands@[i])@.len(),
        mat_nonneg(mat_view(demands@)),
        forall|i: int| 0 <= i < xs@.len() ==> q_wf(#[trigger] rats_view(xs@)[i]),
    ensures
        r matches Some(v) ==> v.wf() && q_eq(
            v@,
            usage(mat_view(demands@), rats_view(xs@), j as int),
        ),
        (demands_modest(mat_view(demands@)) && (forall|i: int|
            0 <= i < xs@.len() ==> q_bounded(#[trigger] rats_view(xs@)[i], 64, 64))) ==> (r
            is Some && (r matches Some(v) ==> q_bounded(v@, 6 * pow64(7), pow64(6)))),
{
    let ghost modest = demands_modest(mat_view(demands@)) && (forall|i: int|
        0 <= i < xs@.len() ==> q_bounded(#[trigger] rats_view(xs@)[i], 64, 64));
    let ghost dv = mat_view(demands@);
    let ghost xv = rats_view(xs@);
    let ghost terms = usage_terms(dv, xv, j as int);
    proof {
        assert forall|i: int| 0 <= i < xv.len() implies q_wf(#[trigger] dv[i][j as int]) by {
            assert(all_nonneg(dv[i]));
        }
        lemma_usage_terms_wf(dv, xv, j as int);
    }
    let n: usize = xs.len();
    let mut acc: Rat = Rat::zero();
    let mut i: usize = 0;
    while i < n
        invariant
            i <= n,
            n == xs@.len(),
            xs@.len() == demands@.len(),
            dv == mat_view(demands@),
            xv == rats_view(xs@),
            terms == usage_terms(dv, xv, j as int),
            forall|i2: int| 0 <= i2 < demands@.len() ==> j < (#[trigger] demands@[i2])@.len(),
            mat_nonneg(dv),
            forall|i2: int| 0 <= i2 < xv.len() ==> q_wf(#[trigger] xv[i2]),
            forall|i2: int| 0 <= i2 < terms.len() ==> q_wf(#[trigger] terms[i2]),
            acc.wf(),
            q_eq(acc@, q_sum_upto(terms, i as int)),
            modest == (demands_modest(dv) && (forall|i2: int|
                0 <= i2 < xv.len() ==> q_bounded(#[trigger] xv[i2], 64, 64))),
            modest ==> q_bounded(acc@, i as int * pow64((i + 1) as nat), pow64(i as nat)),
        decreases n - i,
    {
        proof {
            assert(all_nonneg(dv[i as int]));
            assert(dv[i as int][j as int] == demands@[i as int]@[j as int]@);
            assert(xv[i as int] == xs@[i as int]@);
            if modest {
                assert(entries_modest(dv[i as int]));
                lemma_modest_term(dv[i as int][j as int], xv[i as int]);
            }
        }
        let t: Rat = match demands[i][j].checked_mul(&xs[i]) {
            Some(t) => t,
            None => {
                proof {
                    if modest {
                        assert(false);
                    }
                }
                return None;
            },
        };
        proof {
            if modest {
                lemma_modest_add_step(acc@, t@, i as int);
            }
        }
        let acc2: Rat = match acc.checked_add(&t) {
            Some(a) => a,
            None => {
                proof {
                    if modest {
                        assert(false);
                    }
                }
                return None;
            },
        };
        proof {
            let prev = q_sum_upto(terms, i as int);
            lemma_q_sum_upto_wf(terms, i as int);
            lemma_q_sum_upto_wf(terms, i as int + 1);
            assert(xv[i as int] == xs@[i as int]@);
            assert(terms[i as int] == q_mul(dv[i as int][j as int], xv[i as int]));
            lemma_q_add_wf(dv[i as int][j as int], xv[i as int]);
            lemma_q_add_wf(acc@, t@);
            lemma_q_add_wf(prev, terms[i as int]);
            lemma_q_add_congruence(acc@, prev, t@, terms[i as int]);
            lemma_q_eq_trans(acc2@, q_add(acc@, t@), q_add(prev, terms[i as int]));
        }
        acc = acc2;
        i += 1;
    }
    proof {
        assert(terms.len() == xv.len());
        if modest {
            lemma_pow64_mono(n as nat, 6);
            lemma_pow64_mono((n + 1) as nat, 7);
            lemma_pow64_pos((n + 1) as nat);
            assert(q_bounded(acc@, 6 * pow64(7), pow64(6))) by (nonlinear_arith)
                requires
                    q_bounded(acc@, n as int * pow64((n + 1) as nat), pow64(n as nat)),
                    0 <= n <= 6,
                    pow64(n as nat) <= pow64(6),
                    pow64((n + 1) as nat) <= pow64(7),
                    pow64((n + 1) as nat) >= 1,
            ;
        }
    }
    Some(acc)
}

/// Every pair of flows carries the same weighted rate:
/// `w[i] * x[i] == w[k] * x[k]`, exactly.
pub open spec fn weight_equalized(w: Seq<(int, int)>, x: Seq<(int, int)>) -> bool {
    forall|i: int, k: int| #![trigger x[i], x[k]]
        0 <= i < x.len() && 0 <= k < x.len() ==> q_eq(q_mul(w[i], x[i]), q_mul(w[k], x[k]))
}

/// Grant each flow a rate proportional to the reciprocal of its weight, as
/// large as every capacity allows: the unique maximal feasible allocation in
/// which all weighted rates are equal.
pub fn equalize_allocate(resources: &Vec<Rat>, demands: &Vec<Vec<Rat>>, weights: &Vec<Rat>) -> (r:
    Result<Vec<Rat>, AllocError>)
    requires
        all_nonneg(rats_view(resources@)),
        mat_nonneg(mat_view(demands@)),
        all_rows_pos(mat_view(demands@)),
        dims_ok(rats_view(resources@), mat_view(demands@)),
        weights@.len() == demands@.len(),
        0 < demands@.len(),
        all_pos(rats_view(weights@)),
    ensures
        r matches Ok(a) ==> feasible(rats_view(resources@), mat_view(demands@), rats_view(a@))
            && weight_equalized(rats_view(weights@), rats_view(a@)),
        r matches Ok(a) ==> forall|y: Seq<(int, int)>|
            #![trigger feasible(rats_view(resources@), mat_view(demands@), y), weight_equalized(rats_view(weights@), y)]
            feasible(rats_view(resources@), mat_view(demands@), y) && weight_equalized(
                rats_view(weights@),
                y,
            ) ==> q_le(q_sum(y), q_sum(rats_view(a@))),
        r matches Err(e) ==> e == AllocError::NumericOverflow,
        modest_inputs(rats_view(resources@), mat_view(demands@), rats_view(weights@)) ==> r
            is Ok,
{
    let ghost rv = rats_view(resources@);
    let ghost dmv = mat_view(demands@);
    let ghost wv = rats_view(weights@);
    let ghost he = modest_inputs(rv, dmv, wv);
    let n: usize = demands.len();
    let m: usize = resources.len();

    // Reciprocal weights: flow `i` is granted `c / w[i]`.
    let mut inv: Vec<Rat> = Vec::new();
    let mut i: usize = 0;
    while i < n
        invariant
            0 < n,
            i <= n,
            n == demands@.len(),
            n == weights@.len(),
            wv == rats_view(weights@),
            all_pos(wv),
            inv@.len() == i,
            forall|i2: int| 0 <= i2 < i ==> q_wf(#[trigger] rats_view(inv@)[i2]) && q_pos(
                rats_view(inv@)[i2],
            ) && q_eq(rats_view(inv@)[i2], q_div(q_one(), wv[i2])),
            he == modest_inputs(rats_view(resources@), mat_view(demands@), rats_view(weights@)),
            he ==> (forall|i2: int| 0 <= i2 < i ==> q_bounded(
                #[trigger] rats_view(inv@)[i2],
                64,
                64,
            )),
        decreases n - i,
    {
        proof {
            assert(wv[i as int] == weights@[i as int]@);
            if he {
                assert(q_in_i64(q_sign_norm(q_div(q_one(), wv[i as int]))));
            }
        }
        let one: Rat = Rat::one();
        let iv: Rat = match one.checked_div(&weights[i]) {
            Some(v) => v,
            None => {
                proof {
                    if he {
                        assert(false);
                    }
                }
                return Err(AllocError::NumericOverflow);
            },
        };
        proof {
            lemma_q_div_props(q_one(), wv[i as int]);
            lemma_q_sign_congruence(iv@, q_div(q_one(), wv[i as int]));
        }
        let ghost old_inv = inv@;
        inv.push(iv);
        proof {
            assert forall|i2: int| 0 <= i2 < i + 1 implies q_wf(#[trigger] rats_view(inv@)[i2])
                && q_pos(rats_view(inv@)[i2]) && q_eq(
                rats_view(inv@)[i2],
                q_div(q_one(), wv[i2]),
            ) && (he ==> q_bounded(rats_view(inv@)[i2], 64, 64)) by {
                if i2 < i {
                    assert(inv@[i2] == old_inv[i2]);
                    assert(rats_view(inv@)[i2] == rats_view(old_inv)[i2]);
                } else {
                    assert(inv@[i2] == iv);
                    assert(rats_view(inv@)[i2] == iv@);
                }
            }
        }
        i += 1;
    }
    let ghost invv = rats_view(inv@);

    // The common equalized level `c`: the largest value every loaded
    // resource can carry.
    let mut c_opt: Option<Rat> = None;
    let mut j: usize = 0;
    while j < m
        invariant
            0 < n,
            j <= m,
            n == demands@.len(),
            m == resources@.len(),
            rv == rats_view(resources@),
            dmv == mat_view(demands@),
            all_nonneg(rv),
            mat_nonneg(dmv),
            all_rows_pos(dmv),
            dims_ok(rv, dmv),
            inv@.len() == n,
            invv == rats_view(inv@),
            forall|i2: int| 0 <= i2 < n ==> q_wf(#[trigger] invv[i2]) && q_pos(invv[i2]),
            he == modest_inputs(rats_view(resources@), mat_view(demands@), rats_view(weights@)),
            he ==> (forall|i2: int| 0 <= i2 < n ==> q_bounded(#[trigger] invv[i2], 64, 64)),
            he ==> (c_opt matches Some(c) ==> q_bounded(c@, pow64(7), 6 * pow64(7))),
            match c_opt {
                Some(c) => c.wf() && q_nonneg(c@) && (forall|j2: int|
                    0 <= j2 < j && q_pos(#[trigger] usage(dmv, invv, j2)) ==> q_le(
                        c@,
                        q_div(rv[j2], usage(dmv, invv, j2)),
                    )) && (exists|j2: int|
                    0 <= j2 < j && q_pos(#[trigger] usage(dmv, invv, j2)) && q_eq(
                        c@,
                        q_div(rv[j2], usage(dmv, invv, j2)),
                    )),
                None => forall|j2: int| 0 <= j2 < j ==> !q_pos(#[trigger] usage(dmv, invv, j2)),
            },
        decreases m - j,
    {
        proof {
            assert forall|i2: int| 0 <= i2 < demands@.len() implies j < (
            #[trigger] demands@[i2])@.len() by {
                assert(dmv[i2].len() == rats_view(demands@[i2]@).len());
            }
        }
        let w: Rat = match col_dot(demands, &inv, j) {
            Some(w) => w,
            None => {
                proof {
                    if he {
                        assert(false);
                    }
                }
                return Err(AllocError::NumericOverflow);
            },
        };
        let ghost wj = usage(dmv, invv, j as int);
        proof {
            if he {
                assert(q_bounded(w@, 6 * pow64(7), pow64(6)));
            }
        }
        proof {
            assert forall|i2: int| 0 <= i2 < n implies q_wf(#[trigger] dmv[i2][j as int])
                && q_nonneg(dmv[i2][j as int]) by {
                assert(all_nonneg(dmv[i2]));
            }
            lemma_usage_terms_wf(dmv, invv, j as int);
            assert forall|i2: int| 0 <= i2 < usage_terms(dmv, invv, j as int).len() implies
                q_nonneg(#[trigger] usage_terms(dmv, invv, j as int)[i2]) by {
                lemma_q_mul_nonneg(dmv[i2][j as int], invv[i2]);
            }
            lemma_q_sum_upto_nonneg(usage_terms(dmv, invv, j as int), n as int);
            lemma_q_sign_congruence(w@, wj);
        }
        if w.is_pos() {
            proof {
                assert(rv[j as int] == resources@[j as int]@);
            }
            proof {
                if he {
                    lemma_pow64_values();
                    lemma_pow64_pos(6);
                    assert(q_div(rv[j as int], w@) == (rv[j as int].0 * w@.1, rv[j as int].1
                        * w@.0));
                    assert(0 <= rv[j as int].0 * w@.1 <= pow64(7) && rv[j as int].1 * w@.0 <= 6
                        * pow64(7)) by (nonlinear_arith)
                        requires
                            0 <= rv[j as int].0 <= 64,
                            rv[j as int].1 == 1,
                            0 < w@.1 <= pow64(6),
                            0 < w@.0 <= 6 * pow64(7),
                            pow64(7) == 64 * pow64(6),
                    ;
                    assert(q_in_i64(q_sign_norm(q_div(rv[j as int], w@))));
                }
            }
            let cand: Rat = match resources[j].checked_div(&w) {
                Some(c) => c,
                None => {
                    proof {
                        if he {
                            assert(false);
                        }
                    }
                    return Err(AllocError::NumericOverflow);
                },
            };
            proof {
                if he {
                    assert(q_bounded(cand@, pow64(7), 6 * pow64(7)));
                }
                lemma_q_div_congruence(rv[j as int], w@, wj);
                lemma_q_div_props(rv[j as int], w@);
                lemma_q_div_props(rv[j as int], wj);
                lemma_q_eq_trans(cand@, q_div(rv[j as int], w@), q_div(rv[j as int], wj));
                lemma_q_sign_congruence(cand@, q_div(rv[j as int], w@));
            }
            let next: Rat = match c_opt {
                None => cand,
                Some(cprev) => {
                    if cand.le(&cprev) {
                        cand
                    } else {
                        cprev
                    }
                },
            };
            proof {
                assert(q_le(next@, cand@));
                assert(c_opt matches Some(cprev) ==> q_le(next@, cprev@) && next.wf());
                assert forall|j2: int|
                    0 <= j2 < j + 1 && q_pos(#[trigger] usage(dmv, invv, j2)) implies q_le(
                    next@,
                    q_div(rv[j2], usage(dmv, invv, j2)),
                ) by {
                    assert forall|i2: int| 0 <= i2 < n implies q_wf(#[trigger] dmv[i2][j2])
                        && q_nonneg(dmv[i2][j2]) by {
                        assert(all_nonneg(dmv[i2]));
                    }
                    lemma_usage_terms_wf(dmv, invv, j2);
                    assert forall|i2: int|
                        0 <= i2 < usage_terms(dmv, invv, j2).len() implies q_nonneg(
                        #[trigger] usage_terms(dmv, invv, j2)[i2],
                    ) by {
                        lemma_q_mul_nonneg(dmv[i2][j2], invv[i2]);
                    }
                    lemma_q_sum_upto_nonneg(usage_terms(dmv, invv, j2), n as int);
                    assert(usage_terms(dmv, invv, j2).len() == n as int);
                    lemma_q_div_props(rv[j2], usage(dmv, invv, j2));
                    if j2 == j as int {
                        lemma_q_le_congruence(next@, next@, cand@, q_div(rv[j2], wj));
                    } else {
                        match c_opt {
                            Some(cprev) => {
                                lemma_q_le_trans(
                                    next@,
                                    cprev@,
                                    q_div(rv[j2], usage(dmv, invv, j2)),
                                );
                            },
                            None => {},
                        }
                    }
                }
                // the new bound is itself pinned by a loaded resource
                assert(next == cand || (c_opt matches Some(cprev) && next == cprev));
                if next == cand {
                    assert(q_pos(usage(dmv, invv, j as int)) && q_eq(
                        next@,
                        q_div(rv[j as int], usage(dmv, invv, j as int)),
                    ));
                } else {
                    match c_opt {
                        Some(cprev) => {
                            let jw = choose|j2: int|
                                0 <= j2 < j && q_pos(#[trigger] usage(dmv, invv, j2)) && q_eq(
                                    cprev@,
                                    q_div(rv[j2], usage(dmv, invv, j2)),
                                );
                            assert(q_pos(usage(dmv, invv, jw)) && q_eq(
                                next@,
                                q_div(rv[jw], usage(dmv, invv, jw)),
                            ));
                        },
                        None => {},
                    }
                }
            }
            c_opt = Some(next);
        }
        j += 1;
    }

    let c: Rat = match c_opt {
        Some(c) => c,
        None => {
            proof {
                // flow 0 demands some resource, so that resource is loaded
                assert(has_pos_entry(dmv[0]));
                let j0 = choose|j2: int| 0 <= j2 < dmv[0].len() && q_pos(#[trigger] dmv[0][j2]);
                assert(dmv[0].len() == rv.len());
                assert(usage_terms(dmv, invv, j0).len() == n as int);
                assert(usage_terms(dmv, invv, j0)[0] == q_mul(dmv[0][j0], invv[0]));
                assert forall|i2: int| 0 <= i2 < n implies q_wf(#[trigger] dmv[i2][j0])
                    && q_nonneg(dmv[i2][j0]) by {
                    assert(all_nonneg(dmv[i2]));
                }
                lemma_usage_terms_wf(dmv, invv, j0);
                assert forall|i2: int| 0 <= i2 < usage_terms(dmv, invv, j0).len() implies q_wf(
                    #[trigger] usage_terms(dmv, invv, j0)[i2],
                ) && q_nonneg(usage_terms(dmv, invv, j0)[i2]) by {
                    lemma_q_mul_nonneg(dmv[i2][j0], invv[i2]);
                }
                lemma_q_mul_pos(dmv[0][j0], invv[0]);
                lemma_q_sum_upto_pos(usage_terms(dmv, invv, j0), n as int, 0);
                assert(usage(dmv, invv, j0) == q_sum_upto(usage_terms(dmv, invv, j0), n as int));
                assert(q_pos(usage(dmv, invv, j0)));
                assert(false);
            }
            return Err(AllocError::NumericOverflow);
        },
    };

    // The grant itself: `alloc[i] = c * inv[i]`.
    let mut alloc: Vec<Rat> = Vec::new();
    let mut i: usize = 0;
    while i < n
        invariant
            0 < n,
            i <= n,
            n == demands@.len(),
            inv@.len() == n,
            invv == rats_view(inv@),
            forall|i2: int| 0 <= i2 < n ==> q_wf(#[trigger] invv[i2]) && q_pos(invv[i2]),
            he == modest_inputs(rats_view(resources@), mat_view(demands@), rats_view(weights@)),
            he ==> (forall|i2: int| 0 <= i2 < n ==> q_bounded(#[trigger] invv[i2], 64, 64)),
            he ==> q_bounded(c@, pow64(7), 6 * pow64(7)),
            c.wf(),
            q_nonneg(c@),
            alloc@.len() == i,
            forall|i2: int| 0 <= i2 < i ==> q_wf(#[trigger] rats_view(alloc@)[i2]) && q_nonneg(
                rats_view(alloc@)[i2],
            ) && q_eq(rats_view(alloc@)[i2], q_mul(c@, invv[i2])),
        decreases n - i,
    {
        proof {
            assert(invv[i as int] == inv@[i as int]@);
        }
        proof {
            if he {
                lemma_pow64_values();
                lemma_pow64_pos(7);
                assert(q_mul(c@, invv[i as int]) == (c@.0 * invv[i as int].0, c@.1 * invv[
                    i as int].1));
                assert(-pow64(8) <= c@.0 * invv[i as int].0 <= pow64(8) && c@.1 * invv[
                    i as int].1 <= 6 * pow64(8)) by (nonlinear_arith)
                    requires
                        q_bounded(c@, pow64(7), 6 * pow64(7)),
                        q_bounded(invv[i as int], 64, 64),
                        pow64(8) == 64 * pow64(7),
                        pow64(7) >= 1,
                ;
                assert(q_in_i64(q_mul(c@, invv[i as int])));
            }
        }
        let x: Rat = match c.checked_mul(&inv[i]) {
            Some(x) => x,
            None => {
                proof {
                    if he {
                        assert(false);
                    }
                }
                return Err(AllocError::NumericOverflow);
            },
        };
        proof {
            lemma_q_add_wf(c@, invv[i as int]);
            lemma_q_mul_nonneg(c@, invv[i as int]);
            lemma_q_sign_congruence(x@, q_mul(c@, invv[i as int]));
        }
        let ghost old_alloc = alloc@;
        alloc.push(x);
        proof {
            assert forall|i2: int| 0 <= i2 < i + 1 implies q_wf(#[trigger] rats_view(alloc@)[i2])
                && q_nonneg(rats_view(alloc@)[i2]) && q_eq(
                rats_view(alloc@)[i2],
                q_mul(c@, invv[i2]),
            ) by {
                if i2 < i {
                    assert(alloc@[i2] == old_alloc[i2]);
                    assert(rats_view(alloc@)[i2] == rats_view(old_alloc)[i2]);
                } else {
                    assert(alloc@[i2] == x);
                    assert(rats_view(alloc@)[i2] == x@);
                }
            }
        }
        i += 1;
    }
    let ghost av = rats_view(alloc@);

    proof {
        // capacity: usage under `alloc` is `c` times the load `w_j`,
        // and `c <= res[j]/w_j` whenever `w_j` is positive
        assert forall|j2: int| 0 <= j2 < rv.len() implies q_le(
            #[trigger] usage(dmv, av, j2),
            rv[j2],
        ) by {
            let wj = usage(dmv, invv, j2);
            let terms_a = usage_terms(dmv, av, j2);
            let terms_w = usage_terms(dmv, invv, j2);
            assert forall|i2: int| 0 <= i2 < n implies q_wf(#[trigger] dmv[i2][j2]) && q_nonneg(
                dmv[i2][j2],
            ) by {
                assert(all_nonneg(dmv[i2]));
            }
            lemma_usage_terms_wf(dmv, invv, j2);
            lemma_usage_terms_wf(dmv, av, j2);
            assert forall|i2: int| 0 <= i2 < n implies q_wf(#[trigger] terms_a[i2]) && q_wf(
                terms_w[i2],
            ) && q_eq(terms_a[i2], q_mul(c@, terms_w[i2])) by {
                lemma_q_add_wf(dmv[i2][j2], av[i2]);
                lemma_q_add_wf(dmv[i2][j2], invv[i2]);
                lemma_q_add_wf(c@, invv[i2]);
                lemma_q_mul_congruence(dmv[i2][j2], dmv[i2][j2], av[i2], q_mul(c@, invv[i2]));
                lemma_q_mul_comm3(dmv[i2][j2], c@, invv[i2]);
                lemma_q_eq_trans(
                    terms_a[i2],
                    q_mul(dmv[i2][j2], q_mul(c@, invv[i2])),
                    q_mul(c@, q_mul(dmv[i2][j2], invv[i2])),
                );
            }
            lemma_q_sum_upto_scale(c@, terms_w, terms_a, n as int);
            assert forall|i2: int| 0 <= i2 < n implies q_nonneg(#[trigger] terms_w[i2]) by {
                lemma_q_mul_nonneg(dmv[i2][j2], invv[i2]);
            }
            lemma_q_sum_upto_nonneg(terms_w, n as int);
            lemma_q_sum_upto_wf(terms_a, n as int);
            lemma_q_add_wf(c@, wj);
            if q_pos(wj) {
                lemma_q_le_div_iff_mul(c@, rv[j2], wj);
                lemma_q_le_congruence(q_mul(c@, wj), usage(dmv, av, j2), rv[j2], rv[j2]);
            } else {
                // an unloaded resource: every contribution is zero
                assert(q_mul(c@, wj).0 == 0) by (nonlinear_arith)
                    requires
                        wj.0 == 0,
                        q_mul(c@, wj) == (c@.0 * wj.0, c@.1 * wj.1),
                ;
                lemma_q_zero_le(q_mul(c@, wj), rv[j2]);
                lemma_q_le_congruence(q_mul(c@, wj), usage(dmv, av, j2), rv[j2], rv[j2]);
            }
        }
        // equalization: every weighted rate `w[i] * alloc[i]` equals `c`
        assert forall|i2: int| 0 <= i2 < n implies q_eq(#[trigger] q_mul(wv[i2], av[i2]), c@)
            && q_wf(q_mul(wv[i2], av[i2])) by {
            assert(q_eq(invv[i2], q_div(q_one(), wv[i2])));
            lemma_q_div_props(q_one(), wv[i2]);
            lemma_q_mul_congruence(c@, c@, invv[i2], q_div(q_one(), wv[i2]));
            lemma_q_add_wf(c@, invv[i2]);
            lemma_q_add_wf(c@, q_div(q_one(), wv[i2]));
            lemma_q_eq_trans(av[i2], q_mul(c@, invv[i2]), q_mul(c@, q_div(q_one(), wv[i2])));
            lemma_q_mul_congruence(wv[i2], wv[i2], av[i2], q_mul(c@, q_div(q_one(), wv[i2])));
            lemma_q_mul_div_cancel(wv[i2], c@);
            lemma_q_add_wf(wv[i2], av[i2]);
            lemma_q_add_wf(wv[i2], q_mul(c@, q_div(q_one(), wv[i2])));
            lemma_q_eq_trans(
                q_mul(wv[i2], av[i2]),
                q_mul(wv[i2], q_mul(c@, q_div(q_one(), wv[i2]))),
                c@,
            );
        }
        assert forall|i2: int, k2: int| #![trigger av[i2], av[k2]]
            0 <= i2 < av.len() && 0 <= k2 < av.len() implies q_eq(
            q_mul(wv[i2], av[i2]),
            q_mul(wv[k2], av[k2]),
        ) by {
            lemma_q_eq_trans(q_mul(wv[i2], av[i2]), c@, q_mul(wv[k2], av[k2]));
        }
    }
    proof {
        // maximality: the level `c` is pinned by a binding resource, so any
        // other equalized feasible allocation sits at a level no higher
        let jstar = choose|j2: int|
            0 <= j2 < m && q_pos(#[trigger] usage(dmv, invv, j2)) && q_eq(
                c@,
                q_div(rv[j2], usage(dmv, invv, j2)),
            );
        let wjs = usage(dmv, invv, jstar);
        let sinv = q_sum_upto(invv, n as int);
        assert forall|i2: int| 0 <= i2 < n implies q_wf(#[trigger] dmv[i2][jstar]) && q_nonneg(
            dmv[i2][jstar],
        ) by {
            assert(all_nonneg(dmv[i2]));
        }
        lemma_usage_terms_wf(dmv, invv, jstar);
        lemma_q_sum_upto_wf(usage_terms(dmv, invv, jstar), n as int);
        assert(usage_terms(dmv, invv, jstar).len() == n as int);
        lemma_q_sum_upto_wf(invv, n as int);
        lemma_q_sum_upto_nonneg(invv, n as int);
        lemma_q_div_props(rv[jstar], wjs);
        // total granted: `c` times the summed reciprocals
        lemma_q_sum_upto_scale(c@, invv, av, n as int);
        lemma_q_add_wf(c@, sinv);
        assert forall|y: Seq<(int, int)>|
            #![trigger feasible(rv, dmv, y), weight_equalized(wv, y)]
            feasible(rv, dmv, y) && weight_equalized(wv, y) implies q_le(
            q_sum(y),
            q_sum(av),
        ) by {
            assert(y.len() == n);
            let cy = q_mul(wv[0], y[0]);
            lemma_q_add_wf(wv[0], y[0]);
            lemma_q_mul_nonneg(wv[0], y[0]);
            // every `y[i]` is `cy / w[i]`
            assert forall|i2: int| 0 <= i2 < n implies q_wf(#[trigger] y[i2]) && q_eq(
                y[i2],
                q_mul(cy, invv[i2]),
            ) by {
                assert(q_eq(q_mul(wv[i2], y[i2]), q_mul(wv[0], y[0])));
                lemma_q_solve_scaled(wv[i2], y[i2], cy);
                lemma_q_div_props(q_one(), wv[i2]);
                lemma_q_mul_congruence(cy, cy, q_div(q_one(), wv[i2]), invv[i2]);
                lemma_q_add_wf(cy, q_div(q_one(), wv[i2]));
                lemma_q_add_wf(cy, invv[i2]);
                lemma_q_eq_trans(
                    y[i2],
                    q_mul(cy, q_div(q_one(), wv[i2])),
                    q_mul(cy, invv[i2]),
                );
            }
            // the total of `y`: `cy` times the summed reciprocals
            lemma_q_sum_upto_scale(cy, invv, y, n as int);
            lemma_q_sum_upto_wf(y, n as int);
            lemma_q_add_wf(cy, sinv);
            // `y`'s draw on the binding resource is `cy` times its load
            let terms_y = usage_terms(dmv, y, jstar);
            let terms_w = usage_terms(dmv, invv, jstar);
            lemma_usage_terms_wf(dmv, y, jstar);
            assert(terms_y.len() == n as int);
            assert forall|i2: int| 0 <= i2 < n implies q_wf(#[trigger] terms_y[i2]) && q_wf(
                terms_w[i2],
            ) && q_eq(terms_y[i2], q_mul(cy, terms_w[i2])) by {
                lemma_q_add_wf(dmv[i2][jstar], y[i2]);
                lemma_q_add_wf(dmv[i2][jstar], invv[i2]);
                lemma_q_add_wf(cy, invv[i2]);
                lemma_q_mul_congruence(dmv[i2][jstar], dmv[i2][jstar], y[i2], q_mul(cy, invv[i2]));
                lemma_q_mul_comm3(dmv[i2][jstar], cy, invv[i2]);
                lemma_q_eq_trans(
                    terms_y[i2],
                    q_mul(dmv[i2][jstar], q_mul(cy, invv[i2])),
                    q_mul(cy, q_mul(dmv[i2][jstar], invv[i2])),
                );
            }
            lemma_q_sum_upto_scale(cy, terms_w, terms_y, n as int);
            lemma_q_sum_upto_wf(terms_y, n as int);
            lemma_q_sum_upto_wf(av, n as int);
            lemma_q_add_wf(cy, wjs);
            // feasibility of `y` there bounds `cy` by `c`
            assert(q_le(usage(dmv, y, jstar), rv[jstar]));
            lemma_q_le_congruence(usage(dmv, y, jstar), q_mul(cy, wjs), rv[jstar], rv[jstar]);
            lemma_q_le_div_iff_mul(cy, rv[jstar], wjs);
            lemma_q_le_congruence(cy, cy, q_div(rv[jstar], wjs), c@);
            // so `y`'s total is bounded by the granted total
            lemma_q_mul_le_nonneg(cy, c@, sinv);
            lemma_q_le_congruence(
                q_mul(cy, sinv),
                q_sum_upto(y, n as int),
                q_mul(c@, sinv),
                q_sum_upto(av, n as int),
            );
            assert(q_sum(y) == q_sum_upto(y, n as int));
            assert(q_sum(av) == q_sum_upto(av, n as int));
        }
    }
    Ok(alloc)
}

} // verus!
