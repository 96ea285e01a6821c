//! Asset Fairness.
//!
//! Each flow's weight is the money value of one unit of its demand: the dot
//! product of its demand vector with a fixed, externally supplied price
//! vector. The policy grants rates that equalize `value * rate` across
//! flows, as large as the capacities allow.

use vstd::prelude::*;
use crate::rat::{q_wf, q_eq, q_le, q_add, q_mul, q_nonneg, q_pos, q_in_i64, q_bounded, Rat,
    lemma_q_eq_trans, lemma_q_add_wf, lemma_q_add_congruence, lemma_q_mul_congruence,
    lemma_q_mul_nonneg, lemma_q_mul_pos, lemma_q_sign_congruence, lemma_q_zero_le};
use crate::rat_seq::{q_sum, q_sum_upto, all_nonneg, lemma_q_sum_upto_wf, lemma_q_sum_upto_nonneg,
    lemma_q_sum_upto_pos};
use crate::algorithms::{AllocError, Algorithm, rats_view, mat_view, all_pos, mat_nonneg,
    has_pos_entry, all_rows_pos, dims_ok, usage, usage_terms, feasible, check_dims,
    equalize_allocate, weight_equalized, entries_modest, entries_tiny, modest_inputs};

verus! {

/// The entry-wise products of two equally long vectors.
pub open spec fn dot_terms(a: Seq<(int, int)>, b: Seq<(int, int)>) -> Seq<(int, int)> {
    Seq::new(a.len(), |j: int| q_mul(a[j], b[j]))
}

/// The dot product of two equally long vectors.
pub open spec fn q_dot(a: Seq<(int, int)>, b: Seq<(int, int)>) -> (int, int) {
    q_sum(dot_terms(a, b))
}

/// Every pair of flows carries the same price-weighted rate:
/// `(dem[i] . price) * x[i] == (dem[k] . price) * x[k]`, exactly.
pub open spec fn asset_equalized(
    dem: Seq<Seq<(int, int)>>,
    price: Seq<(int, int)>,
    x: Seq<(int, int)>,
) -> bool {
    forall|i: int, k: int| #![trigger x[i], x[k]]
        0 <= i < x.len() && 0 <= k < x.len() ==> q_eq(
            q_mul(q_dot(dem[i], price), x[i]),
            q_mul(q_dot(dem[k], price), x[k]),
        )
}

/// The pair's numerator magnitude is at most `b` and its denominator is
/// exactly one.
pub open spec fn q_abs_le(p: (int, int), b: int) -> bool {
    -b <= p.0 <= b && p.1 == 1
}

/// The owed-success class of this policy: modest integer capacities, tiny
/// integer demands and prices, and matching dimensions.
pub open spec fn asset_tiny_problem(
    res: Seq<(int, int)>,
    dem: Seq<Seq<(int, int)>>,
    price: Seq<(int, int)>,
) -> bool {
    entries_modest(res) && dem.len() <= 6 && (forall|i: int|
        0 <= i < dem.len() ==> entries_tiny(#[trigger] dem[i])) && entries_tiny(price)
        && dims_ok(res, dem) && price.len() == res.len()
}

/// The dot product of well-formed vectors is well-formed.
pub proof fn lemma_dot_wf(a: Seq<(int, int)>, b: Seq<(int, int)>)
    requires
        forall|j: int| #![trigger a[j]] #![trigger b[j]] 0 <= j < a.len() ==> q_wf(a[j]) && q_wf(
            b[j],
        ),
    ensures
        q_wf(q_dot(a, b)),
{
    assert forall|j: int| 0 <= j < dot_terms(a, b).len() implies q_wf(
        #[trigger] dot_terms(a, b)[j],
    ) by {
        lemma_q_add_wf(a[j], b[j]);
    }
    lemma_q_sum_upto_wf(dot_terms(a, b), dot_terms(a, b).len() as int);
}

/// The exact dot product of two vectors of rationals; `None` when the
/// running value leaves representable range.
fn dot_product(a: &Vec<Rat>, b: &Vec<Rat>) -> (r: Option<Rat>)
    requires
        a@.len() == b@.len(),
        forall|j: int| #![trigger rats_view(a@)[j]] #![trigger rats_view(b@)[j]]
            0 <= j < a@.len() ==> q_wf(rats_view(a@)[j]) && q_wf(rats_view(b@)[j]),
    ensures
        r matches Some(v) ==> v.wf() && q_eq(v@, q_dot(rats_view(a@), rats_view(b@))),
        (entries_tiny(rats_view(a@)) && entries_tiny(rats_view(b@))) ==> (r is Some && (r
            matches Some(v) ==> q_bounded(v@, 63, 1))),
{
    let ghost av = rats_view(a@);
    let ghost bv = rats_view(b@);
    let ghost terms = dot_terms(av, bv);
    let ghost ht = entries_tiny(av) && entries_tiny(bv);
    proof {
        assert forall|j: int| 0 <= j < terms.len() implies q_wf(#[trigger] terms[j]) by {
            lemma_q_add_wf(av[j], bv[j]);
        }
    }
    let n: usize = a.len();
    let mut acc: Rat = Rat::zero();
    let mut j: usize = 0;
    while j < n
        invariant
            j <= n,
            n == a@.len(),
            a@.len() == b@.len(),
            av == rats_view(a@),
            bv == rats_view(b@),
            terms == dot_terms(av, bv),
            forall|j2: int| #![trigger av[j2]] #![trigger bv[j2]] 0 <= j2 < n ==> q_wf(av[j2])
                && q_wf(bv[j2]),
            forall|j2: int| 0 <= j2 < terms.len() ==> q_wf(#[trigger] terms[j2]),
            acc.wf(),
            q_eq(acc@, q_sum_upto(terms, j as int)),
            ht == (entries_tiny(rats_view(a@)) && entries_tiny(rats_view(b@))),
            ht ==> q_bounded(acc@, 9 * (j as int), 1),
        decreases n - j,
    {
        proof {
            assert(av[j as int] == a@[j as int]@);
            assert(bv[j as int] == b@[j as int]@);
            if ht {
                assert(q_mul(av[j as int], bv[j as int]) == (av[j as int].0 * bv[j as int].0, av[
                    j as int].1 * bv[j as int].1));
                assert(0 <= av[j as int].0 * bv[j as int].0 <= 9 && av[j as int].1 * bv[
                    j as int].1 == 1) by (nonlinear_arith)
                    requires
                        0 <= av[j as int].0 <= 3,
                        0 <= bv[j as int].0 <= 3,
                        av[j as int].1 == 1,
                        bv[j as int].1 == 1,
                ;
            }
        }
        let t: Rat = match a[j].checked_mul(&b[j]) {
            Some(t) => t,
            None => {
                proof {
                    if ht {
                        assert(false);
                    }
                }
                return None;
            },
        };
        proof {
            if ht {
                assert(q_bounded(t@, 9, 1));
                assert(j <= 6);
                assert(q_in_i64(q_add(acc@, t@)) && q_abs_le(q_add(acc@, t@), 9 * (j as int) + 9))
                    by (nonlinear_arith)
                    requires
                        q_bounded(acc@, 9 * (j as int), 1),
                        q_bounded(t@, 9, 1),
                        0 <= j <= 6,
                        q_add(acc@, t@) == (acc@.0 * t@.1 + t@.0 * acc@.1, acc@.1 * t@.1),
                ;
            }
        }
        let acc2: Rat = match acc.checked_add(&t) {
            Some(s) => s,
            None => {
                proof {
                    if ht {
                        assert(false);
                    }
                }
                return None;
            },
        };
        proof {
            if ht {
                assert(q_bounded(acc2@, 9 * (j as int) + 9, 1)) by (nonlinear_arith)
                    requires
                        q_bounded(
                            acc2@,
                            crate::rat::q_abs(q_add(acc@, t@).0),
                            q_add(acc@, t@).1,
                        ),
                        q_abs_le(q_add(acc@, t@), 9 * (j as int) + 9),
                        q_add(acc@, t@).1 == 1,
                ;
            }
        }
        proof {
            let prev = q_sum_upto(terms, j as int);
            lemma_q_sum_upto_wf(terms, j as int);
            lemma_q_sum_upto_wf(terms, j as int + 1);
            assert(terms[j as int] == q_mul(av[j as int], bv[j as int]));
            lemma_q_add_wf(av[j as int], bv[j as int]);
            lemma_q_add_wf(acc@, t@);
            lemma_q_add_wf(prev, terms[j as int]);
            lemma_q_add_congruence(acc@, prev, t@, terms[j as int]);
            lemma_q_eq_trans(acc2@, q_add(acc@, t@), q_add(prev, terms[j as int]));
        }
        acc = acc2;
        j += 1;
    }
    proof {
        assert(terms.len() == av.len());
    }
    Some(acc)
}

/// The Asset Fairness policy, owning its price vector.
pub struct AssetFairness {
    pub prices: Vec<Rat>,
}

impl Algorithm for AssetFairness {
    open spec fn policy_wf(&self) -> bool {
        all_pos(rats_view(self.prices@))
    }

    open spec fn dims_match(&self, res: Seq<(int, int)>, dem: Seq<Seq<(int, int)>>) -> bool {
        dims_ok(res, dem) && self.prices@.len() == res.len()
    }

    open spec fn input_ok(&self, res: Seq<(int, int)>, dem: Seq<Seq<(int, int)>>) -> bool {
        all_nonneg(res)
    }

    fn allocate(&self, resources: &Vec<Rat>, demands: &Vec<Vec<Rat>>) -> (r: Result<
        Vec<Rat>,
        AllocError,
    >)
        ensures
            r matches Ok(a) ==> asset_equalized(
                mat_view(demands@),
                rats_view(self.prices@),
                rats_view(a@),
            ),
            r matches Ok(a) ==> forall|y: Seq<(int, int)>|
                #![trigger feasible(rats_view(resources@), mat_view(demands@), y), asset_equalized(mat_view(demands@), rats_view(self.prices@), y)]
                feasible(rats_view(resources@), mat_view(demands@), y) && asset_equalized(
                    mat_view(demands@),
                    rats_view(self.prices@),
                    y,
                ) ==> q_le(q_sum(y), q_sum(rats_view(a@))),
            r matches Err(e) ==> e == AllocError::DimensionMismatch || e
                == AllocError::NumericOverflow,
            asset_tiny_problem(rats_view(resources@), mat_view(demands@), rats_view(self.prices@))
                ==> r is Ok,
    {
        asset_allocate(&self.prices, resources, demands)
    }
}

/// Grant every flow the largest rate at which all price-weighted rates stay
/// equal and every capacity is respected.
pub fn asset_allocate(prices: &Vec<Rat>, resources: &Vec<Rat>, demands: &Vec<Vec<Rat>>) -> (r:
    Result<Vec<Rat>, AllocError>)
    requires
        all_pos(rats_view(prices@)),
        all_nonneg(rats_view(resources@)),
        mat_nonneg(mat_view(demands@)),
        all_rows_pos(mat_view(demands@)),
    ensures
        r matches Ok(a) ==> dims_ok(rats_view(resources@), mat_view(demands@))
            && prices@.len() == resources@.len() && feasible(
            rats_view(resources@),
            mat_view(demands@),
            rats_view(a@),
        ) && asset_equalized(mat_view(demands@), rats_view(prices@), rats_view(a@)),
        r matches Ok(a) ==> forall|y: Seq<(int, int)>|
            #![trigger feasible(rats_view(resources@), mat_view(demands@), y), asset_equalized(mat_view(demands@), rats_view(prices@), y)]
            feasible(rats_view(resources@), mat_view(demands@), y) && asset_equalized(
                mat_view(demands@),
                rats_view(prices@),
                y,
            ) ==> q_le(q_sum(y), q_sum(rats_view(a@))),
        (r matches Err(e) && e == AllocError::DimensionMismatch) <==> !(dims_ok(
            rats_view(resources@),
            mat_view(demands@),
        ) && prices@.len() == resources@.len()),
        r matches Err(e) ==> e == AllocError::DimensionMismatch || e
            == AllocError::NumericOverflow,
        demands@.len() == 0 && prices@.len() == resources@.len() ==> (r matches Ok(a)
            && a@.len() == 0),
        asset_tiny_problem(rats_view(resources@), mat_view(demands@), rats_view(prices@)) ==> r
            is Ok,
{
    {
        let ghost rv = rats_view(resources@);
        let ghost dmv = mat_view(demands@);
        let ghost pv = rats_view(prices@);
        let ghost ht = asset_tiny_problem(rv, dmv, pv);
        if prices.len() != resources.len() {
            return Err(AllocError::DimensionMismatch);
        }
        let n: usize = demands.len();
        if n == 0 {
            let empty: Vec<Rat> = Vec::new();
            proof {
                assert(rats_view(empty@).len() == 0);
                assert forall|j: int| 0 <= j < rv.len() implies q_le(
                    #[trigger] usage(dmv, rats_view(empty@), j),
                    rv[j],
                ) by {
                    assert(usage_terms(dmv, rats_view(empty@), j).len() == 0);
                    lemma_q_zero_le((0, 1), rv[j]);
                }
                assert forall|y: Seq<(int, int)>|
                    #![trigger feasible(rv, dmv, y), asset_equalized(dmv, pv, y)]
                    feasible(rv, dmv, y) && asset_equalized(dmv, pv, y) implies q_le(
                    q_sum(y),
                    q_sum(rats_view(empty@)),
                ) by {
                    assert(y.len() == 0);
                    assert(q_sum(y) == (0int, 1int));
                    assert(q_sum(rats_view(empty@)) == (0int, 1int));
                }
            }
            return Ok(empty);
        }
        if !check_dims(resources, demands) {
            return Err(AllocError::DimensionMismatch);
        }

        // Each flow's price-weighted demand becomes its equalization weight.
        let mut weights: Vec<Rat> = Vec::new();
        let mut i: usize = 0;
        while i < n
            invariant
                0 < n,
                i <= n,
                n == demands@.len(),
                rv == rats_view(resources@),
                dmv == mat_view(demands@),
                pv == rats_view(prices@),
                prices@.len() == resources@.len(),
                all_nonneg(rv),
                all_pos(pv),
                mat_nonneg(dmv),
                all_rows_pos(dmv),
                dims_ok(rv, dmv),
                weights@.len() == i,
                forall|i2: int| 0 <= i2 < i ==> q_wf(#[trigger] rats_view(weights@)[i2]) && q_pos(
                    rats_view(weights@)[i2],
                ) && q_eq(rats_view(weights@)[i2], q_dot(dmv[i2], pv)),
                ht == asset_tiny_problem(
                    rats_view(resources@),
                    mat_view(demands@),
                    rats_view(prices@),
                ),
                ht ==> (forall|i2: int| 0 <= i2 < i ==> q_bounded(
                    #[trigger] rats_view(weights@)[i2],
                    64,
                    64,
                )),
            decreases n - i,
        {
            proof {
                assert(dmv[i as int] == rats_view(demands@[i as int]@));
                assert(all_nonneg(dmv[i as int]));
                assert(dmv[i as int].len() == rv.len());
                if ht {
                    assert(entries_tiny(rats_view(demands@[i as int]@)));
                }
            }
            let w: Rat = match dot_product(&demands[i], &prices) {
                Some(w) => w,
                None => {
                    proof {
                        if ht {
                            assert(false);
                        }
                    }
                    return Err(AllocError::NumericOverflow);
                },
            };
            let ghost dot = q_dot(dmv[i as int], pv);
            proof {
                assert(has_pos_entry(dmv[i as int]));
                let j0 = choose|j: int| 0 <= j < dmv[i as int].len() && q_pos(
                    #[trigger] dmv[i as int][j],
                );
                let terms = dot_terms(dmv[i as int], pv);
                assert forall|j2: int| 0 <= j2 < terms.len() implies q_wf(#[trigger] terms[j2])
                    && q_nonneg(terms[j2]) by {
                    lemma_q_add_wf(dmv[i as int][j2], pv[j2]);
                    lemma_q_mul_nonneg(dmv[i as int][j2], pv[j2]);
                }
                assert(terms[j0] == q_mul(dmv[i as int][j0], pv[j0]));
                lemma_q_mul_pos(dmv[i as int][j0], pv[j0]);
                lemma_q_sum_upto_pos(terms, terms.len() as int, j0);
                assert(dot == q_sum_upto(terms, terms.len() as int));
                lemma_q_sign_congruence(w@, dot);
            }
            let ghost old_weights = weights@;
            weights.push(w);
            proof {
                assert forall|i2: int| 0 <= i2 < i + 1 implies q_wf(
                    #[trigger] rats_view(weights@)[i2],
                ) && q_pos(rats_view(weights@)[i2]) && q_eq(
                    rats_view(weights@)[i2],
                    q_dot(dmv[i2], pv),
                ) && (ht ==> q_bounded(rats_view(weights@)[i2], 64, 64)) by {
                    if i2 < i {
                        assert(weights@[i2] == old_weights[i2]);
                        assert(rats_view(weights@)[i2] == rats_view(old_weights)[i2]);
                    } else {
                        assert(weights@[i2] == w);
                        assert(rats_view(weights@)[i2] == w@);
                    }
                }
            }
            i += 1;
        }

        let result = equalize_allocate(resources, demands, &weights);
        match result {
            Ok(a) => {
                let ghost av = rats_view(a@);
                let ghost wv = rats_view(weights@);
                proof {
                    assert forall|i2: int, k2: int| #![trigger av[i2], av[k2]]
                        0 <= i2 < av.len() && 0 <= k2 < av.len() implies q_eq(
                        q_mul(q_dot(dmv[i2], pv), av[i2]),
                        q_mul(q_dot(dmv[k2], pv), av[k2]),
                    ) by {
                        let dot_i = q_dot(dmv[i2], pv);
                        let dot_k = q_dot(dmv[k2], pv);
                        assert(all_nonneg(dmv[i2]));
                        assert(all_nonneg(dmv[k2]));
                        assert(dmv[i2].len() == rv.len());
                        assert(dmv[k2].len() == rv.len());
                        lemma_dot_wf(dmv[i2], pv);
                        lemma_dot_wf(dmv[k2], pv);
                        assert(q_eq(q_mul(wv[i2], av[i2]), q_mul(wv[k2], av[k2])));
                        lemma_q_mul_congruence(wv[i2], dot_i, av[i2], av[i2]);
                        lemma_q_mul_congruence(wv[k2], dot_k, av[k2], av[k2]);
                        lemma_q_add_wf(wv[i2], av[i2]);
                        lemma_q_add_wf(wv[k2], av[k2]);
                        lemma_q_add_wf(dot_i, av[i2]);
                        lemma_q_add_wf(dot_k, av[k2]);
                        lemma_q_eq_trans(
                            q_mul(dot_i, av[i2]),
                            q_mul(wv[i2], av[i2]),
                            q_mul(wv[k2], av[k2]),
                        );
                        lemma_q_eq_trans(
                            q_mul(dot_i, av[i2]),
                            q_mul(wv[k2], av[k2]),
                            q_mul(dot_k, av[k2]),
                        );
                    }
                    // any feasible allocation with equal price-weighted
                    // rates is equalized under the same weights, so its
                    // total is bounded
                    assert forall|y: Seq<(int, int)>|
                        #![trigger feasible(rv, dmv, y), asset_equalized(dmv, pv, y)]
                        feasible(rv, dmv, y) && asset_equalized(dmv, pv, y) implies q_le(
                        q_sum(y),
                        q_sum(av),
                    ) by {
                        assert(y.len() == dmv.len());
                        assert forall|i2: int, k2: int| #![trigger y[i2], y[k2]]
                            0 <= i2 < y.len() && 0 <= k2 < y.len() implies q_eq(
                            q_mul(wv[i2], y[i2]),
                            q_mul(wv[k2], y[k2]),
                        ) by {
                            let dot_i = q_dot(dmv[i2], pv);
                            let dot_k = q_dot(dmv[k2], pv);
                            assert(all_nonneg(dmv[i2]));
                            assert(all_nonneg(dmv[k2]));
                            assert(dmv[i2].len() == rv.len());
                            assert(dmv[k2].len() == rv.len());
                            lemma_dot_wf(dmv[i2], pv);
                            lemma_dot_wf(dmv[k2], pv);
                            assert(q_eq(q_mul(dot_i, y[i2]), q_mul(dot_k, y[k2])));
                            lemma_q_mul_congruence(dot_i, wv[i2], y[i2], y[i2]);
                            lemma_q_mul_congruence(dot_k, wv[k2], y[k2], y[k2]);
                            lemma_q_add_wf(dot_i, y[i2]);
                            lemma_q_add_wf(dot_k, y[k2]);
                            lemma_q_add_wf(wv[i2], y[i2]);
                            lemma_q_add_wf(wv[k2], y[k2]);
                            lemma_q_eq_trans(
                                q_mul(wv[i2], y[i2]),
                                q_mul(dot_i, y[i2]),
                                q_mul(dot_k, y[k2]),
                            );
                            lemma_q_eq_trans(
                                q_mul(wv[i2], y[i2]),
                                q_mul(dot_k, y[k2]),
                                q_mul(wv[k2], y[k2]),
                            );
                        }
                        assert(weight_equalized(wv, y));
                        assert(feasible(rats_view(resources@), mat_view(demands@), y)
                            && weight_equalized(rats_view(weights@), y));
                    }
                }
                Ok(a)
            },
            Err(e) => {
                proof {
                    if ht {
                        // on the tiny class the core owes success
                        assert forall|i2: int| 0 <= i2 < dmv.len() implies entries_modest(
                            #[trigger] dmv[i2],
                        ) by {
                            assert(entries_tiny(dmv[i2]));
                        }
                        assert(modest_inputs(rv, dmv, rats_view(weights@)));
                        assert(false);
                    }
                }
                Err(e)
            },
        }
    }
}

} // verus!
