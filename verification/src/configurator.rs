use vstd::arithmetic::div_mod::{lemma_div_is_ordered, lemma_div_pos_is_pos};
use vstd::arithmetic::mul::{lemma_mul_inequality, lemma_mul_nonnegative};
use vstd::prelude::*;

use crate::domain::{build_domain, domain_matches};
use crate::error::ParamError;
use crate::fingerprint::{
    config_of_fp, config_valid, diff_count, domains_view, fingerprint_exec, fingerprint_of,
    fp_rank, lemma_diff_count_bound, lemma_ranks_pigeonhole, lemma_visited_len_le_space, rank_hit,
    space_size, space_size_checked, unrank_fp, valid_fp,
};
use crate::registry::ParameterRegistry;
use crate::rng::{rand_below, shuffle_values};
use crate::visited::VisitedStateIndex;
use vstd::pervasive::unreached;

verus! {

/// How many random proposals one sampling call tries before it falls back
/// to a systematic scan for an unvisited configuration.
const RETRY_LIMIT: usize = 32;

/// Starting mutation breadth of the annealing schedule, in tenths: 6 tenths,
/// so 60% of the parameters vary at the start of a run.
pub const DEFAULT_INITIAL_FRACTION_TENTHS: u64 = 6;

/// Ties the parameter registry, the visited-state index and the adaptive
/// neighborhood sampler of one annealing run together.
pub struct ParamsConfigurator {
    /// The registered parameters: names, domains, canonical indices.
    pub registry: ParameterRegistry,
    /// Fingerprints of every configuration this run has already produced.
    pub visited: VisitedStateIndex,
    /// Starting mutation breadth in tenths; the breadth falls by one tenth
    /// per decay period. Explicit so alternative schedules can be exercised.
    pub initial_fraction_tenths: u64,
}

/// The mutation breadth at one step of the run: out of `n` parameters, how
/// many the sampler varies. The fraction starts at `tenths/10` and drops by
/// a tenth every `max_steps/tenths` steps, clamped at zero.
pub open spec fn num_to_vary_spec(n: int, tenths: int, max_steps: int, step: int) -> int
    recommends
        1 <= max_steps,
        0 <= tenths <= 10,
{
    let periods = (tenths * step) / max_steps;
    if periods >= tenths {
        0
    } else {
        n * (tenths - periods) / 10
    }
}

/// Law: for a fixed schedule, the mutation breadth never grows as the run
/// progresses — at any later step, `num_to_vary` is at most its value at any
/// earlier step.
pub proof fn lemma_decay_monotone(n: int, tenths: int, max_steps: int, s1: int, s2: int)
    requires
        0 <= n,
        0 <= tenths <= 10,
        1 <= max_steps,
        0 <= s1 <= s2,
    ensures
        num_to_vary_spec(n, tenths, max_steps, s2) <= num_to_vary_spec(n, tenths, max_steps, s1),
        0 <= num_to_vary_spec(n, tenths, max_steps, s2),
{
    let k1 = (tenths * s1) / max_steps;
    let k2 = (tenths * s2) / max_steps;
    lemma_mul_nonnegative(tenths, s1);
    lemma_mul_nonnegative(tenths, s2);
    lemma_mul_inequality(s1, s2, tenths);
    assert(s1 * tenths == tenths * s1 && s2 * tenths == tenths * s2) by (nonlinear_arith);
    lemma_div_is_ordered(tenths * s1, tenths * s2, max_steps);
    lemma_div_pos_is_pos(tenths * s1, max_steps);
    lemma_div_pos_is_pos(tenths * s2, max_steps);
    assert(0 <= k1 <= k2);
    if k1 < tenths {
        lemma_mul_nonnegative(n, tenths - k1);
        lemma_div_pos_is_pos(n * (tenths - k1), 10);
        if k2 < tenths {
            lemma_mul_inequality(tenths - k2, tenths - k1, n);
            assert((tenths - k2) * n == n * (tenths - k2) && (tenths - k1) * n == n * (tenths - k1))
                by (nonlinear_arith);
            lemma_div_is_ordered(n * (tenths - k2), n * (tenths - k1), 10);
        }
    }
}

/// Everything the configuration-loading collaborator supplies for one
/// parameter: its name, its discretization bounds and step, and the value it
/// starts the run at.
pub struct ParamDecl {
    pub name: String,
    pub lower: u32,
    pub upper: u32,
    pub step: u32,
    pub default_value: u32,
}

/// Why one declaration is rejected, given the names seen before it: a zero
/// step, reversed bounds, or a name already taken.
pub open spec fn decl_error(names: Seq<Seq<char>>, d: ParamDecl) -> Option<ParamError> {
    if d.step == 0 {
        Some(ParamError::ZeroStep)
    } else if d.upper < d.lower {
        Some(ParamError::BoundsReversed)
    } else if names.contains(d.name@) {
        Some(ParamError::DuplicateParameter)
    } else {
        None
    }
}

/// The first error in a run of declarations processed in order, starting
/// from the registered names `names`; `None` when every declaration is
/// accepted.
pub open spec fn first_decl_error(names: Seq<Seq<char>>, decls: Seq<ParamDecl>) -> Option<
    ParamError,
>
    decreases decls.len(),
{
    if decls.len() == 0 {
        None
    } else {
        match decl_error(names, decls[0]) {
            Some(e) => Some(e),
            None => first_decl_error(names.push(decls[0].name@), decls.drop_first()),
        }
    }
}

impl ParamsConfigurator {
    /// Well-formed: registry and visited store are well-formed, the schedule
    /// fraction is at most 1 (10 tenths), and everything in the visited
    /// store is a fingerprint over the registered domains.
    pub open spec fn wf(self) -> bool {
        &&& self.registry.wf()
        &&& self.visited.wf()
        &&& self.initial_fraction_tenths <= 10
        &&& forall|k: int|
            0 <= k < self.visited.spec_states().len() ==> valid_fp(
                self.registry.spec_domains(),
                #[trigger] self.visited.spec_states()[k],
            )
    }

    /// An empty configurator with the default annealing schedule.
    pub fn new() -> (r: ParamsConfigurator)
        ensures
            r.wf(),
            r.registry.spec_names() == Seq::<Seq<char>>::empty(),
            r.visited.spec_states() == Seq::<Seq<usize>>::empty(),
            r.initial_fraction_tenths == DEFAULT_INITIAL_FRACTION_TENTHS,
    {
        Default::default()
    }

    /// Registers every declared parameter — building its randomized domain
    /// and assigning it the next canonical index, in declaration order — and
    /// returns the initial configuration: each name paired with its declared
    /// default value. Stops at the first bad declaration and returns its
    /// error.
    pub fn get_initial_param_conf(&mut self, decls: &Vec<ParamDecl>) -> (r: Result<
        Vec<(String, u32)>,
        ParamError,
    >)
        requires
            old(self).wf(),
            old(self).visited.spec_states().len() == 0,
        ensures
            final(self).wf(),
            final(self).initial_fraction_tenths == old(self).initial_fraction_tenths,
            final(self).visited.spec_states() == old(self).visited.spec_states(),
            r is Ok <==> first_decl_error(old(self).registry.spec_names(), decls@) is None,
            r matches Err(e) ==> Some(e) == first_decl_error(
                old(self).registry.spec_names(),
                decls@,
            ),
            r matches Ok(init) ==> {
                &&& final(self).registry.spec_names() == old(self).registry.spec_names()
                    + decls@.map_values(|d: ParamDecl| d.name@)
                &&& final(self).registry.spec_domains().len() == old(
                    self,
                ).registry.spec_domains().len() + decls@.len()
                &&& forall|j: int|
                    0 <= j < decls@.len() ==> domain_matches(
                        #[trigger] final(self).registry.spec_domains()[old(
                            self,
                        ).registry.spec_domains().len() + j],
                        decls@[j].lower,
                        decls@[j].upper,
                        decls@[j].step,
                    )
                &&& init@.len() == decls@.len()
                &&& forall|j: int|
                    0 <= j < decls@.len() ==> (#[trigger] init@[j]).0@ == decls@[j].name@
                        && init@[j].1 == decls@[j].default_value
            },
    {
        let ghost base = self.registry.spec_names();
        let ghost base_domains = self.registry.spec_domains();
        let mut init: Vec<(String, u32)> = Vec::new();
        let n = decls.len();
        let mut i: usize = 0;
        proof {
            assert(decls@.skip(0) =~= decls@);
            assert(decls@.take(0).map_values(|d: ParamDecl| d.name@) =~= Seq::<Seq<char>>::empty());
            assert(self.registry.spec_names() =~= base + decls@.take(0).map_values(
                |d: ParamDecl| d.name@,
            ));
        }
        while i < n
            invariant
                old(self).wf(),
                self.wf(),
                n == decls@.len(),
                i <= n,
                base == old(self).registry.spec_names(),
                base_domains == old(self).registry.spec_domains(),
                self.initial_fraction_tenths == old(self).initial_fraction_tenths,
                self.visited == old(self).visited,
                self.visited.spec_states().len() == 0,
                self.registry.spec_names() == base + decls@.take(i as int).map_values(
                    |d: ParamDecl| d.name@,
                ),
                self.registry.spec_domains().len() == base_domains.len() + i,
                forall|j: int|
                    0 <= j < base_domains.len() ==> #[trigger] self.registry.spec_domains()[j]
                        == base_domains[j],
                forall|j: int|
                    0 <= j < i ==> domain_matches(
                        #[trigger] self.registry.spec_domains()[base_domains.len() + j],
                        decls@[j].lower,
                        decls@[j].upper,
                        decls@[j].step,
                    ),
                first_decl_error(base, decls@) == first_decl_error(
                    self.registry.spec_names(),
                    decls@.skip(i as int),
                ),
                init@.len() == i,
                forall|j: int|
                    0 <= j < i ==> (#[trigger] init@[j]).0@ == decls@[j].name@ && init@[j].1
                        == decls@[j].default_value,
            decreases n - i,
        {
            let ghost names_now = self.registry.spec_names();
            let ghost rest = decls@.skip(i as int);
            proof {
                assert(rest[0] == decls@[i as int]);
                assert(rest.drop_first() =~= decls@.skip(i as int + 1));
            }
            let d = &decls[i];
            let dom = match build_domain(d.lower, d.upper, d.step) {
                Ok(v) => v,
                Err(e) => {
                    proof {
                        assert(decl_error(names_now, rest[0]) == Some(e));
                    }
                    return Err(e);
                },
            };
            let ghost old_names = self.registry.spec_names();
            let ghost old_domains = self.registry.spec_domains();
            match self.registry.register(d.name.clone(), dom) {
                Ok(()) => {},
                Err(e) => {
                    proof {
                        assert(decl_error(names_now, rest[0]) == Some(e));
                    }
                    return Err(e);
                },
            }
            init.push((d.name.clone(), d.default_value));
            i = i + 1;
            proof {
                assert(self.registry.spec_names() == old_names.push(decls@[i - 1].name@));
                assert(self.registry.spec_names() =~= base + decls@.take(i as int).map_values(
                    |dd: ParamDecl| dd.name@,
                ));
                assert(decl_error(names_now, rest[0]) is None);
                assert(first_decl_error(names_now, rest) == first_decl_error(
                    self.registry.spec_names(),
                    decls@.skip(i as int),
                ));
                assert(forall|j: int|
                    0 <= j < old_domains.len() ==> #[trigger] self.registry.spec_domains()[j]
                        == old_domains[j]);
            }
        }
        proof {
            assert(decls@.take(n as int) =~= decls@);
            assert(decls@.skip(n as int) =~= Seq::<ParamDecl>::empty());
        }
        Ok(init)
    }
}

/// Whether `i` is one of the first `k` entries of `order`.
fn index_chosen(order: &Vec<usize>, k: usize, i: usize) -> (r: bool)
    requires
        k <= order@.len(),
    ensures
        r == order@.take(k as int).contains(i),
{
    let mut p: usize = 0;
    while p < k
        invariant
            k <= order@.len(),
            p <= k,
            forall|q: int| 0 <= q < p ==> order@[q] != i,
        decreases k - p,
    {
        if order[p] == i {
            proof {
                assert(order@.take(k as int)[p as int] == i);
            }
            return true;
        }
        p = p + 1;
    }
    proof {
        if order@.take(k as int).contains(i) {
            let q = choose|q: int|
                0 <= q < order@.take(k as int).len() && order@.take(k as int)[q] == i;
            assert(order@[q] != i);
        }
    }
    false
}

impl ParamsConfigurator {
    /// The mutation breadth at one step: of the registered parameters, how
    /// many a proposal varies, per the decay schedule.
    pub fn num_to_vary(&self, max_anneal_steps: u64, current_anneal_step: u64) -> (r: usize)
        requires
            self.wf(),
            1 <= max_anneal_steps,
        ensures
            r as int == num_to_vary_spec(
                self.registry.spec_names().len() as int,
                self.initial_fraction_tenths as int,
                max_anneal_steps as int,
                current_anneal_step as int,
            ),
            r <= self.registry.spec_names().len(),
    {
        let n = self.registry.count();
        let t = self.initial_fraction_tenths;
        proof {
            assert((t as int) * (current_anneal_step as int) <= 10 * (u64::MAX as int))
                by (nonlinear_arith)
                requires
                    0 <= t <= 10,
                    0 <= current_anneal_step <= u64::MAX as int,
            ;
        }
        let periods: u128 = ((t as u128) * (current_anneal_step as u128)) / (
        max_anneal_steps as u128);
        if periods >= t as u128 {
            0
        } else {
            let d: u64 = t - (periods as u64);
            proof {
                assert((n as int) * (d as int) <= 10 * (usize::MAX as int)) by (nonlinear_arith)
                    requires
                        0 <= n <= usize::MAX as int,
                        0 <= d <= 10,
                ;
            }
            let prod: u128 = (n as u128) * (d as u128);
            let res: u128 = prod / 10;
            proof {
                let ni = n as int;
                let di = d as int;
                assert(ni * di <= ni * 10) by (nonlinear_arith)
                    requires
                        0 <= ni,
                        di <= 10,
                ;
                lemma_div_is_ordered(ni * di, ni * 10, 10);
                assert(ni * 10 / 10 == ni) by (nonlinear_arith);
                lemma_mul_nonnegative(ni, di);
                lemma_div_pos_is_pos(ni * di, 10);
            }
            res as usize
        }
    }

    /// One candidate neighborhood: at most `num_vary` randomly chosen
    /// parameters are redrawn uniformly from their domains (a redraw may
    /// reselect the current value); every other parameter keeps its current
    /// value.
    pub fn propose_candidate(&self, params_state: &Vec<u32>, num_vary: usize) -> (c: Vec<u32>)
        requires
            self.wf(),
            config_valid(self.registry.spec_domains(), params_state@),
        ensures
            config_valid(self.registry.spec_domains(), c@),
            diff_count(c@, params_state@) <= num_vary,
    {
        let ghost dv = self.registry.spec_domains();
        let n = params_state.len();
        let mut order: Vec<usize> = Vec::new();
        let mut i: usize = 0;
        while i < n
            invariant
                i <= n,
                order@.len() == i,
                forall|j: int| 0 <= j < i ==> order@[j] == j,
            decreases n - i,
        {
            order.push(i);
            i = i + 1;
        }
        let ghost orig = order@;
        shuffle_values(&mut order);
        proof {
            broadcast use vstd::seq_lib::group_to_multiset_ensures;

            assert(order@.len() == n);
            assert forall|p: int| 0 <= p < order@.len() implies (#[trigger] order@[p]) < n by {
                assert(order@.contains(order@[p]));
                assert(order@.to_multiset().count(order@[p]) > 0);
                assert(orig.to_multiset().count(order@[p]) > 0);
                assert(orig.contains(order@[p]));
                let q = choose|q: int| 0 <= q < orig.len() && orig[q] == order@[p];
                assert(orig[q] == q);
            }
        }
        let k = if num_vary < n {
            num_vary
        } else {
            n
        };
        let doms = self.registry.domains_vec();
        let mut c: Vec<u32> = Vec::new();
        let mut i: usize = 0;
        while i < n
            invariant
                dv == domains_view(*doms),
                forall|j: int| 0 <= j < dv.len() ==> 1 <= (#[trigger] dv[j]).len(),
                config_valid(dv, params_state@),
                n == params_state@.len(),
                n == dv.len(),
                k <= n,
                k <= order@.len(),
                i <= n,
                c@.len() == i,
                forall|j: int| 0 <= j < i ==> (#[trigger] dv[j]).contains(c@[j]),
                forall|j: int|
                    0 <= j < i ==> (c@[j] != params_state@[j] ==> order@.take(k as int).contains(
                        j as usize,
                    )),
            decreases n - i,
        {
            if index_chosen(&order, k, i) {
                proof {
                    assert(dv[i as int] == doms@[i as int]@);
                }
                let d = &doms[i];
                let p = rand_below(d.len());
                let v = d[p];
                c.push(v);
                proof {
                    assert(dv[i as int].contains(c@[i as int]));
                    assert(order@.take(k as int).contains(i));
                }
            } else {
                c.push(params_state[i]);
            }
            i = i + 1;
        }
        proof {
            let chosen = order@.take(k as int).map_values(|x: usize| x as int);
            assert forall|j: int|
                0 <= j < c@.len() && c@[j] != params_state@[j] implies chosen.contains(j) by {
                assert(order@.take(k as int).contains(j as usize));
                let p = choose|p: int|
                    0 <= p < order@.take(k as int).len() && order@.take(k as int)[p] == (j as usize);
                assert(chosen[p] == j);
            }
            lemma_diff_count_bound(c@, params_state@, chosen);
            assert(chosen.len() == k);
        }
        c
    }

    /// A fresh neighborhood of `params_state`, or `None` when the whole
    /// configuration space has been visited.
    ///
    /// On success the returned configuration is valid, was never returned
    /// before, and is recorded as visited — so no two successful calls of a
    /// run ever return configurations with the same fingerprint. Proposals
    /// vary at most `num_to_vary` parameters; when repeated proposals all
    /// collide with visited states, the call falls back to a systematic scan
    /// of the space, which guarantees progress (that fallback may vary more
    /// parameters). `None` comes exactly when every configuration of the
    /// space has been returned: the caller should stop annealing.
    pub fn get_rand_neighborhood(
        &mut self,
        params_state: &Vec<u32>,
        max_anneal_steps: u64,
        current_anneal_step: u64,
    ) -> (r: Option<Vec<u32>>)
        requires
            old(self).wf(),
            config_valid(old(self).registry.spec_domains(), params_state@),
            1 <= max_anneal_steps,
        ensures
            final(self).wf(),
            final(self).registry == old(self).registry,
            final(self).initial_fraction_tenths == old(self).initial_fraction_tenths,
            r is None <==> old(self).visited.spec_states().len() == space_size(
                old(self).registry.spec_domains(),
            ),
            match r {
                Some(c) => {
                    &&& config_valid(old(self).registry.spec_domains(), c@)
                    &&& !old(self).visited.spec_set().contains(
                        fingerprint_of(old(self).registry.spec_domains(), c@),
                    )
                    &&& final(self).visited.spec_states() == old(self).visited.spec_states().push(
                        fingerprint_of(old(self).registry.spec_domains(), c@),
                    )
                },
                None => final(self).visited.spec_states() == old(self).visited.spec_states(),
            },
    {
        let ghost doms = self.registry.spec_domains();
        let vsize = self.visited.size();
        match space_size_checked(self.registry.domains_vec()) {
            Some(total) => {
                if vsize == total {
                    return None;
                }
                proof {
                    lemma_visited_len_le_space(doms, self.visited.spec_states());
                }
            },
            None => {},
        }
        proof {
            assert(self.visited.spec_states().len() < space_size(doms));
        }
        let k = self.num_to_vary(max_anneal_steps, current_anneal_step);
        let mut t: usize = 0;
        while t < RETRY_LIMIT
            invariant
                self.wf(),
                self.registry == old(self).registry,
                self.initial_fraction_tenths == old(self).initial_fraction_tenths,
                self.visited.spec_states() == old(self).visited.spec_states(),
                doms == self.registry.spec_domains(),
                config_valid(doms, params_state@),
                self.visited.spec_states().len() < space_size(doms),
                t <= RETRY_LIMIT,
            decreases RETRY_LIMIT - t,
        {
            let cand = self.propose_candidate(params_state, k);
            let fp = fingerprint_exec(self.registry.domains_vec(), &cand);
            let ghost fpv = fp@;
            if self.visited.contains_and_insert(fp) {
                proof {
                    assert(fpv == fingerprint_of(doms, cand@));
                    assert forall|j: int|
                        0 <= j < self.visited.spec_states().len() implies valid_fp(
                        doms,
                        #[trigger] self.visited.spec_states()[j],
                    ) by {
                        if j < self.visited.spec_states().len() - 1 {
                            assert(self.visited.spec_states()[j] == old(
                                self,
                            ).visited.spec_states()[j]);
                        }
                    }
                }
                return Some(cand);
            }
            t = t + 1;
        }
        // Every random proposal collided: scan ranks for an unvisited
        // fingerprint, which must exist while the space is not exhausted.
        let len = self.visited.size();
        let mut rnk: usize = 0;
        while rnk <= len
            invariant
                self.wf(),
                self.registry == old(self).registry,
                self.initial_fraction_tenths == old(self).initial_fraction_tenths,
                self.visited.spec_states() == old(self).visited.spec_states(),
                doms == self.registry.spec_domains(),
                len == self.visited.spec_states().len(),
                len < space_size(doms),
                rnk <= len,
                forall|rr: int|
                    0 <= rr < rnk ==> #[trigger] rank_hit(doms, self.visited.spec_states(), rr),
            decreases len - rnk,
        {
            proof {
                assert(doms.skip(0) =~= doms);
            }
            let fp = unrank_fp(self.registry.domains_vec(), 0, rnk);
            if !self.visited.contains(&fp) {
                let c = config_of_fp(self.registry.domains_vec(), &fp);
                let ghost fpv = fp@;
                let newly = self.visited.contains_and_insert(fp);
                proof {
                    assert(newly);
                    assert(fpv == fingerprint_of(doms, c@));
                    assert forall|j: int|
                        0 <= j < self.visited.spec_states().len() implies valid_fp(
                        doms,
                        #[trigger] self.visited.spec_states()[j],
                    ) by {
                        if j < self.visited.spec_states().len() - 1 {
                            assert(self.visited.spec_states()[j] == old(
                                self,
                            ).visited.spec_states()[j]);
                        }
                    }
                }
                return Some(c);
            }
            proof {
                let states = self.visited.spec_states();
                assert(states.contains(fp@));
                let idx = choose|idx: int| 0 <= idx < states.len() && states[idx] == fp@;
                assert(fp_rank(doms, states[idx]) == rnk as int);
                assert(rank_hit(doms, states, rnk as int));
            }
            if rnk == len {
                proof {
                    assert forall|rr: int|
                        0 <= rr < len + 1 implies #[trigger] rank_hit(
                        doms,
                        self.visited.spec_states(),
                        rr,
                    ) by {
                        if rr == len {
                            let states = self.visited.spec_states();
                            let idx = choose|idx: int|
                                0 <= idx < states.len() && states[idx] == fp@;
                            assert(fp_rank(doms, states[idx]) == rnk as int);
                        }
                    }
                    lemma_ranks_pigeonhole(doms, self.visited.spec_states(), len as int + 1);
                    assert(false);
                }
                return unreached();
            }
            rnk = rnk + 1;
        }
        proof {
            assert(false);
        }
        unreached()
    }
}

/// Law: across any run of successful sampling calls, no two returned
/// configurations share a fingerprint. A successful call starts from some
/// visited store `early` that does not hold its fingerprint `f1` and pushes
/// `f1`; the store only ever grows, so any later store `late` still holds
/// `f1`; a later successful call's fingerprint `f2` is absent from `late` —
/// hence the two fingerprints differ.
pub proof fn lemma_no_repeat(
    early: Seq<Seq<usize>>,
    late: Seq<Seq<usize>>,
    f1: Seq<usize>,
    f2: Seq<usize>,
)
    requires
        !early.to_set().contains(f1),
        early.push(f1).to_set().subset_of(late.to_set()),
        !late.to_set().contains(f2),
    ensures
        f1 != f2,
{
    let grown = early.push(f1);
    assert(grown[early.len() as int] == f1);
    assert(grown.contains(f1));
    assert(grown.to_set().contains(f1));
    assert(late.to_set().contains(f1));
}

impl Default for ParamsConfigurator {
    /// An empty configurator with the default annealing schedule.
    fn default() -> (r: ParamsConfigurator)
        ensures
            r.wf(),
            r.registry.spec_names() == Seq::<Seq<char>>::empty(),
            r.visited.spec_states() == Seq::<Seq<usize>>::empty(),
            r.initial_fraction_tenths == DEFAULT_INITIAL_FRACTION_TENTHS,
    {
        ParamsConfigurator {
            registry: ParameterRegistry::new(),
            visited: VisitedStateIndex::new(),
            initial_fraction_tenths: DEFAULT_INITIAL_FRACTION_TENTHS,
        }
    }
}

} // verus!
