use vstd::arithmetic::div_mod::{lemma_fundamental_div_mod, lemma_div_pos_is_pos};
use vstd::prelude::*;

use crate::error::ParamError;
use crate::rng::shuffle_values;

verus! {

/// Number of values in the domain built from `(lower, upper, step)`:
/// one value every `step` starting at `lower`, plus `upper` itself.
pub open spec fn domain_len(lower: u32, upper: u32, step: u32) -> int
    recommends
        step > 0,
        lower <= upper,
{
    (upper - lower) / (step as int) + 1
}

/// The domain in ascending order: `lower, lower + step, lower + 2*step, ...`,
/// with `upper` itself closing the sequence even when `upper - lower` is not
/// an exact multiple of `step`. The built domain holds exactly these values;
/// only their order is randomized.
pub open spec fn canonical_domain(lower: u32, upper: u32, step: u32) -> Seq<u32>
    recommends
        step > 0,
        lower <= upper,
{
    Seq::new(
        domain_len(lower, upper, step) as nat,
        |k: int|
            if k == domain_len(lower, upper, step) - 1 {
                upper
            } else {
                (lower + k * step) as u32
            },
    )
}

/// The ascending domain is strictly increasing, hence free of duplicates,
/// and every value lies between `lower` and `upper`.
pub proof fn lemma_canonical_domain(lower: u32, upper: u32, step: u32)
    requires
        step > 0,
        lower <= upper,
    ensures
        canonical_domain(lower, upper, step).len() == domain_len(lower, upper, step),
        1 <= domain_len(lower, upper, step),
        canonical_domain(lower, upper, step).no_duplicates(),
        canonical_domain(lower, upper, step).last() == upper,
        forall|k1: int, k2: int|
            0 <= k1 < k2 < domain_len(lower, upper, step) ==> canonical_domain(
                lower,
                upper,
                step,
            )[k1] < canonical_domain(lower, upper, step)[k2],
        forall|k: int|
            0 <= k < domain_len(lower, upper, step) ==> lower <= #[trigger] canonical_domain(
                lower,
                upper,
                step,
            )[k] <= upper,
{
    let s = step as int;
    let span = upper - lower;
    let q = span / s;
    lemma_div_pos_is_pos(span, s);
    lemma_fundamental_div_mod(span, s);
    assert(0 <= span % s < s) by {
        vstd::arithmetic::div_mod::lemma_mod_bound(span, s);
    }
    assert(q * s <= span) by (nonlinear_arith)
        requires
            span == q * s + span % s,
            0 <= span % s,
    ;
    assert(forall|k: int| 0 <= k < q ==> #[trigger] (k * s) <= (q - 1) * s) by {
        assert forall|k: int| 0 <= k < q implies #[trigger] (k * s) <= (q - 1) * s by {
            assert(k * s <= (q - 1) * s) by (nonlinear_arith)
                requires
                    k <= q - 1,
                    s > 0,
            ;
        }
    }
    assert((q - 1) * s == q * s - s) by (nonlinear_arith);
    let d = canonical_domain(lower, upper, step);
    assert forall|k1: int, k2: int| 0 <= k1 < k2 < d.len() implies d[k1] < d[k2] by {
        assert(k1 * s < k2 * s) by (nonlinear_arith)
            requires
                k1 < k2,
                s > 0,
        ;
        if k2 == d.len() - 1 {
            assert(k1 * s <= (q - 1) * s);
        } else {
            assert(k2 * s <= (q - 1) * s);
        }
    }
    assert forall|k: int| 0 <= k < d.len() implies lower <= #[trigger] d[k] <= upper by {
        if k < d.len() - 1 {
            assert(0 <= k * s) by (nonlinear_arith)
                requires
                    0 <= k,
                    s > 0,
            ;
            assert(k * s <= (q - 1) * s);
        }
    }
    assert(d.no_duplicates()) by {
        assert forall|i: int, j: int|
            0 <= i < d.len() && 0 <= j < d.len() && i != j implies d[i] != d[j] by {
            if i < j {
                assert(d[i] < d[j]);
            } else {
                assert(d[j] < d[i]);
            }
        }
    }
}

/// What `build_domain` promises of a built domain: the values of the
/// canonical ascending domain, each exactly once, in some order.
pub open spec fn domain_matches(d: Seq<u32>, lower: u32, upper: u32, step: u32) -> bool {
    &&& d.len() == domain_len(lower, upper, step)
    &&& d.no_duplicates()
    &&& d.to_multiset() == canonical_domain(lower, upper, step).to_multiset()
    &&& forall|v: u32| d.contains(v) <==> canonical_domain(lower, upper, step).contains(v)
}

/// Builds the finite domain of one parameter from `(lower, upper, step)`.
///
/// On success the result holds exactly the values of
/// [`canonical_domain`]`(lower, upper, step)` — `lower`, `lower + step`, ...,
/// and `upper` as well — each exactly once, in an order randomized at
/// construction. The order carries no meaning; positions in the returned
/// vector are the canonical positions used for fingerprinting from then on.
///
/// `step == 0` and `upper < lower` are rejected, each with its own error.
pub fn build_domain(lower: u32, upper: u32, step: u32) -> (r: Result<Vec<u32>, ParamError>)
    ensures
        r is Ok <==> (step > 0 && lower <= upper),
        r == Err::<Vec<u32>, ParamError>(ParamError::ZeroStep) <==> step == 0,
        r == Err::<Vec<u32>, ParamError>(ParamError::BoundsReversed) <==> (step > 0 && upper
            < lower),
        r matches Ok(d) ==> domain_matches(d@, lower, upper, step),
{
    if step == 0 {
        return Err(ParamError::ZeroStep);
    }
    if upper < lower {
        return Err(ParamError::BoundsReversed);
    }
    proof {
        lemma_canonical_domain(lower, upper, step);
    }
    let ghost c = canonical_domain(lower, upper, step);
    let q: u32 = (upper - lower) / step;
    proof {
        lemma_fundamental_div_mod(upper - lower, step as int);
        vstd::arithmetic::div_mod::lemma_mod_bound(upper - lower, step as int);
        assert((q as int) * (step as int) <= upper - lower) by (nonlinear_arith)
            requires
                upper - lower == (step as int) * (q as int) + (upper - lower) % (step as int),
                0 <= (upper - lower) % (step as int),
        ;
    }
    let mut d: Vec<u32> = Vec::new();
    let mut k: u32 = 0;
    while k < q
        invariant
            step > 0,
            lower <= upper,
            q == (upper - lower) as int / step as int,
            (q as int) * (step as int) <= upper - lower,
            k <= q,
            c == canonical_domain(lower, upper, step),
            c.len() == q + 1,
            forall|k1: int, k2: int| 0 <= k1 < k2 < c.len() ==> c[k1] < c[k2],
            forall|j: int| 0 <= j < c.len() ==> lower <= #[trigger] c[j] <= upper,
            d@ =~= c.take(k as int),
        decreases q - k,
    {
        proof {
            assert(0 <= (k as int) * (step as int) && (k as int) * (step as int) + (step as int)
                <= (q as int) * (step as int)) by (nonlinear_arith)
                requires
                    0 <= k < q,
                    step > 0,
            ;
            assert(lower + (k as int) * (step as int) <= upper);
            assert(c[k as int] == (lower + (k as int) * (step as int)) as u32);
        }
        let val = lower + k * step;
        d.push(val);
        proof {
            assert(c.take(k + 1) =~= c.take(k as int).push(c[k as int]));
        }
        k = k + 1;
    }
    assert(d@ =~= c.take(q as int));
    d.push(upper);
    proof {
        assert(c[q as int] == upper);
        assert(d@ =~= c);
    }
    shuffle_values(&mut d);
    proof {
        broadcast use vstd::seq_lib::group_to_multiset_ensures;

        assert(d@.to_multiset() == c.to_multiset());
        c.lemma_multiset_has_no_duplicates();
        assert(forall|x: u32| d@.to_multiset().contains(x) ==> d@.to_multiset().count(x) == 1);
        d@.lemma_multiset_has_no_duplicates_conv();
        assert(d@.len() == c.len()) by {
            assert(d@.len() == d@.to_multiset().len());
            assert(c.len() == c.to_multiset().len());
        }
        assert forall|v: u32| d@.contains(v) <==> c.contains(v) by {
            assert(d@.contains(v) <==> d@.to_multiset().count(v) > 0);
            assert(c.contains(v) <==> c.to_multiset().count(v) > 0);
        }
    }
    Ok(d)
}

} // verus!
