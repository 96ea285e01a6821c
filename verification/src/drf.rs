//! Dominant Resource Fairness.
//!
//! Each flow's dominant share is the largest fraction of any one resource's
//! capacity that one unit of its demand consumes. The policy grants rates
//! that equalize `share * rate` across flows, as large as the capacities
//! allow; with all shares positive, that family of allocations is a single
//! ray, so the grant is computed exactly rather than searched for.

use vstd::prelude::*;
use crate::rat::{q_wf, q_eq, q_le, q_mul, q_div, q_one, q_max, q_nonneg, q_pos, q_bounded,
    q_in_i64, q_sign_norm, Rat,
    lemma_q_eq_trans, lemma_q_le_trans, lemma_q_le_congruence, lemma_q_add_wf,
    lemma_q_mul_congruence, lemma_q_mul_nonneg, lemma_q_mul_pos, lemma_q_pos_mono,
    lemma_q_sign_congruence, lemma_q_div_props, lemma_q_mul_div_cancel, lemma_q_inv_congruence,
    lemma_q_div_congruence, lemma_q_mul_comm3, lemma_q_zero_le, lemma_q_le_div_iff_mul};
use crate::rat_seq::{q_sum, q_sum_upto, all_nonneg, lemma_q_sum_upto_wf,
    lemma_q_sum_upto_nonneg, lemma_q_sum_upto_pos, lemma_q_sum_upto_scale};
use crate::algorithms::{AllocError, Algorithm, rats_view, mat_view, all_pos, mat_nonneg,
    has_pos_entry, all_rows_pos, dims_ok, usage, usage_terms, within_capacity, feasible,
    check_dims, col_dot, lemma_usage_terms_wf, equalize_allocate, weight_equalized,
    entries_modest, demands_modest, modest_problem, modest_inputs};

verus! {

/// The largest of the first `k` per-resource shares `di[j] / res[j]`.
pub open spec fn dom_share_upto(di: Seq<(int, int)>, res: Seq<(int, int)>, k: int) -> (int, int)
    decreases k,
{
    if k <= 0 {
        (0, 1)
    } else {
        q_max(dom_share_upto(di, res, k - 1), q_div(di[k - 1], res[k - 1]))
    }
}

/// A flow's dominant share: the largest fraction of any resource's capacity
/// that one unit of its demand consumes.
pub open spec fn dominant_share(di: Seq<(int, int)>, res: Seq<(int, int)>) -> (int, int) {
    dom_share_upto(di, res, res.len() as int)
}

/// Every pair of flows perceives the same dominant-resource fraction:
/// `share[i] * x[i] == share[k] * x[k]`, exactly.
pub open spec fn drf_equalized(
    res: Seq<(int, int)>,
    dem: Seq<Seq<(int, int)>>,
    x: Seq<(int, int)>,
) -> bool {
    forall|i: int, k: int| #![trigger x[i], x[k]]
        0 <= i < dem.len() && 0 <= k < dem.len() ==> q_eq(
            q_mul(dominant_share(dem[i], res), x[i]),
            q_mul(dominant_share(dem[k], res), x[k]),
        )
}

/// The dominant share is well-formed, non-negative, and dominates every
/// per-resource share.
pub proof fn lemma_dom_share_props(di: Seq<(int, int)>, res: Seq<(int, int)>, k: int)
    requires
        forall|j: int| 0 <= j < k ==> q_wf(#[trigger] di[j]) && q_nonneg(di[j]),
        forall|j: int| 0 <= j < k ==> q_wf(#[trigger] res[j]) && q_pos(res[j]),
    ensures
        q_wf(dom_share_upto(di, res, k)),
        q_nonneg(dom_share_upto(di, res, k)),
        forall|j: int| 0 <= j < k ==> q_le(
            #[trigger] q_div(di[j], res[j]),
            dom_share_upto(di, res, k),
        ),
    decreases k,
{
    if k > 0 {
        lemma_dom_share_props(di, res, k - 1);
        let prev = dom_share_upto(di, res, k - 1);
        let share = q_div(di[k - 1], res[k - 1]);
        lemma_q_div_props(di[k - 1], res[k - 1]);
        assert forall|j: int| 0 <= j < k implies q_le(
            #[trigger] q_div(di[j], res[j]),
            dom_share_upto(di, res, k),
        ) by {
            if j < k - 1 {
                lemma_q_div_props(di[j], res[j]);
                if q_le(prev, share) {
                    lemma_q_le_trans(q_div(di[j], res[j]), prev, share);
                }
            }
        }
    }
}

/// A flow with a positive demand entry has a positive dominant share.
pub proof fn lemma_dom_share_pos(di: Seq<(int, int)>, res: Seq<(int, int)>, k: int, j0: int)
    requires
        forall|j: int| 0 <= j < k ==> q_wf(#[trigger] di[j]) && q_nonneg(di[j]),
        forall|j: int| 0 <= j < k ==> q_wf(#[trigger] res[j]) && q_pos(res[j]),
        0 <= j0 < k,
        q_pos(di[j0]),
    ensures
        q_pos(dom_share_upto(di, res, k)),
{
    lemma_dom_share_props(di, res, k);
    lemma_q_div_props(di[j0], res[j0]);
    lemma_q_pos_mono(q_div(di[j0], res[j0]), dom_share_upto(di, res, k));
}

/// The exact dominant share of one flow; `None` when it cannot be
/// represented, owed to succeed (with a small result) on modest integer
/// inputs.
fn dominant_share_exec(di: &Vec<Rat>, resources: &Vec<Rat>) -> (r: Option<Rat>)
    requires
        di@.len() == resources@.len(),
        all_nonneg(rats_view(di@)),
        all_pos(rats_view(resources@)),
    ensures
        r matches Some(v) ==> v.wf() && q_eq(
            v@,
            dominant_share(rats_view(di@), rats_view(resources@)),
        ),
        (entries_modest(rats_view(di@)) && entries_modest(rats_view(resources@))) ==> (r is Some
            && (r matches Some(v) ==> q_bounded(v@, 64, 64))),
{
    let ghost dv = rats_view(di@);
    let ghost rv = rats_view(resources@);
    let ghost modest = entries_modest(dv) && entries_modest(rv);
    let m: usize = resources.len();
    let mut acc: Rat = Rat::zero();
    let mut j: usize = 0;
    while j < m
        invariant
            j <= m,
            m == resources@.len(),
            di@.len() == resources@.len(),
            dv == rats_view(di@),
            rv == rats_view(resources@),
            all_nonneg(dv),
            all_pos(rv),
            acc.wf(),
            q_eq(acc@, dom_share_upto(dv, rv, j as int)),
            modest == (entries_modest(dv) && entries_modest(rv)),
            modest ==> q_bounded(acc@, 64, 64),
        decreases m - j,
    {
        proof {
            assert(dv[j as int] == di@[j as int]@);
            assert(rv[j as int] == resources@[j as int]@);
            if modest {
                assert(q_in_i64(q_sign_norm(q_div(dv[j as int], rv[j as int]))));
            }
        }
        let s: Rat = match di[j].checked_div(&resources[j]) {
            Some(s) => s,
            None => {
                proof {
                    if modest {
                        assert(false);
                    }
                }
                return None;
            },
        };
        let ghost prev = dom_share_upto(dv, rv, j as int);
        let ghost share = q_div(dv[j as int], rv[j as int]);
        proof {
            lemma_dom_share_props(dv, rv, j as int);
            lemma_q_div_props(dv[j as int], rv[j as int]);
        }
        if acc.le(&s) {
            proof {
                lemma_q_le_congruence(acc@, prev, s@, share);
                lemma_q_eq_trans(s@, share, q_max(prev, share));
            }
            acc = s;
        } else {
            proof {
                if q_le(prev, share) {
                    lemma_q_le_congruence(prev, acc@, share, s@);
                    assert(false);
                }
            }
        }
        j += 1;
    }
    Some(acc)
}

/// The Dominant Resource Fairness policy.
pub struct Drf {}

impl Algorithm for Drf {
    open spec fn policy_wf(&self) -> bool {
        true
    }

    open spec fn dims_match(&self, res: Seq<(int, int)>, dem: Seq<Seq<(int, int)>>) -> bool {
        dims_ok(res, dem)
    }

    open spec fn input_ok(&self, res: Seq<(int, int)>, dem: Seq<Seq<(int, int)>>) -> bool {
        all_nonneg(res) && (dem.len() > 0 ==> all_pos(res))
    }

    fn allocate(&self, resources: &Vec<Rat>, demands: &Vec<Vec<Rat>>) -> (r: Result<
        Vec<Rat>,
        AllocError,
    >)
        ensures
            r matches Ok(a) ==> drf_equalized(
                rats_view(resources@),
                mat_view(demands@),
                rats_view(a@),
            ),
            r matches Ok(a) ==> forall|y: Seq<(int, int)>|
                #![trigger feasible(rats_view(resources@), mat_view(demands@), y), drf_equalized(rats_view(resources@), mat_view(demands@), y)]
                feasible(rats_view(resources@), mat_view(demands@), y) && drf_equalized(
                    rats_view(resources@),
                    mat_view(demands@),
                    y,
                ) ==> q_le(q_sum(y), q_sum(rats_view(a@))),
            r matches Err(e) ==> e == AllocError::DimensionMismatch || e
                == AllocError::NumericOverflow,
            modest_problem(rats_view(resources@), mat_view(demands@)) ==> r is Ok,
    {
        drf_allocate(resources, demands)
    }
}

/// Grant every flow the largest rate at which all dominant shares stay equal
/// and every capacity is respected.
pub fn drf_allocate(resources: &Vec<Rat>, demands: &Vec<Vec<Rat>>) -> (r: Result<
    Vec<Rat>,
    AllocError,
>)
    requires
        all_nonneg(rats_view(resources@)),
        demands@.len() > 0 ==> all_pos(rats_view(resources@)),
        mat_nonneg(mat_view(demands@)),
        all_rows_pos(mat_view(demands@)),
    ensures
        r matches Ok(a) ==> dims_ok(rats_view(resources@), mat_view(demands@)) && feasible(
            rats_view(resources@),
            mat_view(demands@),
            rats_view(a@),
        ) && drf_equalized(rats_view(resources@), mat_view(demands@), rats_view(a@)),
        r matches Ok(a) ==> forall|y: Seq<(int, int)>|
            #![trigger feasible(rats_view(resources@), mat_view(demands@), y), drf_equalized(rats_view(resources@), mat_view(demands@), y)]
            feasible(rats_view(resources@), mat_view(demands@), y) && drf_equalized(
                rats_view(resources@),
                mat_view(demands@),
                y,
            ) ==> q_le(q_sum(y), q_sum(rats_view(a@))),
        (r matches Err(e) && e == AllocError::DimensionMismatch) <==> !dims_ok(
            rats_view(resources@),
            mat_view(demands@),
        ),
        r matches Err(e) ==> e == AllocError::DimensionMismatch || e
            == AllocError::NumericOverflow,
        demands@.len() == 0 ==> (r matches Ok(a) && a@.len() == 0),
        modest_problem(rats_view(resources@), mat_view(demands@)) ==> r is Ok,
{
    let ghost rv = rats_view(resources@);
    let ghost dmv = mat_view(demands@);
    let ghost hm = modest_problem(rv, dmv);
    let n: usize = demands.len();
    if n == 0 {
        let empty: Vec<Rat> = Vec::new();
        proof {
            assert(rats_view(empty@).len() == 0);
            assert forall|j: int| 0 <= j < rv.len() implies q_le(
                #[trigger] usage(dmv, rats_view(empty@), j),
                rv[j],
            ) by {
                assert(usage_terms(dmv, rats_view(empty@), j).len() == 0);
                lemma_q_zero_le((0, 1), rv[j]);
            }
            assert forall|y: Seq<(int, int)>|
                #![trigger feasible(rv, dmv, y), drf_equalized(rv, dmv, y)]
                feasible(rv, dmv, y) && drf_equalized(rv, dmv, y) implies q_le(
                q_sum(y),
                q_sum(rats_view(empty@)),
            ) by {
                assert(y.len() == 0);
                assert(q_sum(y) == (0int, 1int));
                assert(q_sum(rats_view(empty@)) == (0int, 1int));
            }
        }
        return Ok(empty);
    }
    if !check_dims(resources, demands) {
        return Err(AllocError::DimensionMismatch);
    }

    // Each flow's dominant share becomes its equalization weight.
    let mut shares: Vec<Rat> = Vec::new();
    let mut i: usize = 0;
    while i < n
        invariant
            0 < n,
            i <= n,
            n == demands@.len(),
            rv == rats_view(resources@),
            dmv == mat_view(demands@),
            all_pos(rv),
            mat_nonneg(dmv),
            all_rows_pos(dmv),
            dims_ok(rv, dmv),
            shares@.len() == i,
            forall|i2: int| 0 <= i2 < i ==> q_wf(#[trigger] rats_view(shares@)[i2]) && q_pos(
                rats_view(shares@)[i2],
            ) && q_eq(rats_view(shares@)[i2], dominant_share(dmv[i2], rv)),
            hm == modest_problem(rats_view(resources@), mat_view(demands@)),
            hm ==> (forall|i2: int| 0 <= i2 < i ==> q_bounded(
                #[trigger] rats_view(shares@)[i2],
                64,
                64,
            )),
        decreases n - i,
    {
        proof {
            assert(dmv[i as int] == rats_view(demands@[i as int]@));
            assert(all_nonneg(dmv[i as int]));
            assert(has_pos_entry(dmv[i as int]));
            if hm {
                assert(entries_modest(rats_view(demands@[i as int]@)));
            }
        }
        let s: Rat = match dominant_share_exec(&demands[i], resources) {
            Some(s) => s,
            None => {
                proof {
                    if hm {
                        assert(false);
                    }
                }
                return Err(AllocError::NumericOverflow);
            },
        };
        let ghost dom = dominant_share(dmv[i as int], rv);
        proof {
            let j0 = choose|j: int| 0 <= j < dmv[i as int].len() && q_pos(
                #[trigger] dmv[i as int][j],
            );
            assert(dmv[i as int].len() == rv.len());
            lemma_dom_share_pos(dmv[i as int], rv, rv.len() as int, j0);
            lemma_dom_share_props(dmv[i as int], rv, rv.len() as int);
            lemma_q_sign_congruence(s@, dom);
        }
        let ghost old_shares = shares@;
        shares.push(s);
        proof {
            assert forall|i2: int| 0 <= i2 < i + 1 implies q_wf(
                #[trigger] rats_view(shares@)[i2],
            ) && q_pos(rats_view(shares@)[i2]) && q_eq(
                rats_view(shares@)[i2],
                dominant_share(dmv[i2], rv),
            ) && (hm ==> q_bounded(rats_view(shares@)[i2], 64, 64)) by {
                if i2 < i {
                    assert(shares@[i2] == old_shares[i2]);
                    assert(rats_view(shares@)[i2] == rats_view(old_shares)[i2]);
                } else {
                    assert(shares@[i2] == s);
                    assert(rats_view(shares@)[i2] == s@);
                }
            }
        }
        i += 1;
    }

    let result = equalize_allocate(resources, demands, &shares);
    match result {
        Ok(a) => {
            let ghost av = rats_view(a@);
            let ghost sv = rats_view(shares@);
            proof {
                assert forall|i2: int, k2: int| #![trigger av[i2], av[k2]]
                    0 <= i2 < dmv.len() && 0 <= k2 < dmv.len() implies q_eq(
                    q_mul(dominant_share(dmv[i2], rv), av[i2]),
                    q_mul(dominant_share(dmv[k2], rv), av[k2]),
                ) by {
                    let dom_i = dominant_share(dmv[i2], rv);
                    let dom_k = dominant_share(dmv[k2], rv);
                    assert(all_nonneg(dmv[i2]));
                    assert(all_nonneg(dmv[k2]));
                    lemma_dom_share_props(dmv[i2], rv, rv.len() as int);
                    lemma_dom_share_props(dmv[k2], rv, rv.len() as int);
                    assert(q_eq(q_mul(sv[i2], av[i2]), q_mul(sv[k2], av[k2])));
                    lemma_q_mul_congruence(sv[i2], dom_i, av[i2], av[i2]);
                    lemma_q_mul_congruence(sv[k2], dom_k, av[k2], av[k2]);
                    lemma_q_add_wf(sv[i2], av[i2]);
                    lemma_q_add_wf(sv[k2], av[k2]);
                    lemma_q_add_wf(dom_i, av[i2]);
                    lemma_q_add_wf(dom_k, av[k2]);
                    lemma_q_eq_trans(
                        q_mul(dom_i, av[i2]),
                        q_mul(sv[i2], av[i2]),
                        q_mul(sv[k2], av[k2]),
                    );
                    lemma_q_eq_trans(
                        q_mul(dom_i, av[i2]),
                        q_mul(sv[k2], av[k2]),
                        q_mul(dom_k, av[k2]),
                    );
                }
                // any feasible allocation with equal dominant shares is
                // equalized under the same weights, so its total is bounded
                assert forall|y: Seq<(int, int)>|
                    #![trigger feasible(rv, dmv, y), drf_equalized(rv, dmv, y)]
                    feasible(rv, dmv, y) && drf_equalized(rv, dmv, y) implies q_le(
                    q_sum(y),
                    q_sum(av),
                ) by {
                    assert(y.len() == dmv.len());
                    assert forall|i2: int, k2: int| #![trigger y[i2], y[k2]]
                        0 <= i2 < y.len() && 0 <= k2 < y.len() implies q_eq(
                        q_mul(sv[i2], y[i2]),
                        q_mul(sv[k2], y[k2]),
                    ) by {
                        let dom_i = dominant_share(dmv[i2], rv);
                        let dom_k = dominant_share(dmv[k2], rv);
                        assert(all_nonneg(dmv[i2]));
                        assert(all_nonneg(dmv[k2]));
                        lemma_dom_share_props(dmv[i2], rv, rv.len() as int);
                        lemma_dom_share_props(dmv[k2], rv, rv.len() as int);
                        assert(q_eq(q_mul(dom_i, y[i2]), q_mul(dom_k, y[k2])));
                        lemma_q_mul_congruence(dom_i, sv[i2], y[i2], y[i2]);
                        lemma_q_mul_congruence(dom_k, sv[k2], y[k2], y[k2]);
                        lemma_q_add_wf(dom_i, y[i2]);
                        lemma_q_add_wf(dom_k, y[k2]);
                        lemma_q_add_wf(sv[i2], y[i2]);
                        lemma_q_add_wf(sv[k2], y[k2]);
                        lemma_q_eq_trans(
                            q_mul(sv[i2], y[i2]),
                            q_mul(dom_i, y[i2]),
                            q_mul(dom_k, y[k2]),
                        );
                        lemma_q_eq_trans(
                            q_mul(sv[i2], y[i2]),
                            q_mul(dom_k, y[k2]),
                            q_mul(sv[k2], y[k2]),
                        );
                    }
                    assert(weight_equalized(sv, y));
                    assert(feasible(rats_view(resources@), mat_view(demands@), y)
                        && weight_equalized(rats_view(shares@), y));
                }
            }
            Ok(a)
        },
        Err(e) => {
            proof {
                if hm {
                    // on the modest class the core owes success
                    assert(modest_inputs(rv, dmv, rats_view(shares@)));
                    assert(false);
                }
            }
            Err(e)
        },
    }
}

} // verus!
