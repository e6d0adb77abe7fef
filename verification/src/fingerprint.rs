use vstd::arithmetic::div_mod::{
    lemma_fundamental_div_mod, lemma_fundamental_div_mod_converse, lemma_mod_bound,
};
use vstd::pervasive::unreached;
use vstd::prelude::*;
use vstd::seq_lib::seq_to_set_is_finite;
use vstd::set_lib::{lemma_int_range, lemma_len_subset, set_int_range};

verus! {

/// Position of `v` within domain `d`: the index of its first occurrence.
/// Meaningful only when `d` holds `v`; the domains built here hold each
/// value once, so the position is unambiguous.
pub open spec fn position_in(d: Seq<u32>, v: u32) -> usize
    recommends
        d.contains(v),
{
    match d.index_of_first(v) {
        Some(i) => i as usize,
        None => 0,
    }
}

/// A configuration holds one value per parameter, at its canonical index,
/// each value a member of that parameter's domain.
pub open spec fn config_valid(domains: Seq<Seq<u32>>, c: Seq<u32>) -> bool {
    &&& c.len() == domains.len()
    &&& forall|i: int| 0 <= i < c.len() ==> (#[trigger] domains[i]).contains(c[i])
}

/// Fingerprint of a configuration: entry `i` is the position of the value
/// for parameter `i` within that parameter's domain — positions rather than
/// values, so the stored form is compact and of fixed width.
pub open spec fn fingerprint_of(domains: Seq<Seq<u32>>, c: Seq<u32>) -> Seq<usize> {
    Seq::new(c.len(), |i: int| position_in(domains[i], c[i]))
}

/// A well-formed fingerprint: one position per parameter, each position
/// within its domain's cardinality.
pub open spec fn valid_fp(domains: Seq<Seq<u32>>, fp: Seq<usize>) -> bool {
    &&& fp.len() == domains.len()
    &&& forall|i: int| 0 <= i < fp.len() ==> (fp[i] as int) < (#[trigger] domains[i]).len()
}

/// Size of the whole configuration space: the product of all domain
/// cardinalities.
pub open spec fn space_size(domains: Seq<Seq<u32>>) -> int
    decreases domains.len(),
{
    if domains.len() == 0 {
        1
    } else {
        domains[0].len() * space_size(domains.drop_first())
    }
}

/// Mixed-radix rank of a fingerprint: position 0 is the least significant
/// digit, each digit weighted by the cardinalities of the earlier domains.
/// Ranks enumerate the space without collisions, which gives the visited
/// store its exhaustiveness argument.
pub open spec fn fp_rank(domains: Seq<Seq<u32>>, fp: Seq<usize>) -> int
    recommends
        valid_fp(domains, fp),
    decreases domains.len(),
{
    if domains.len() == 0 {
        0
    } else {
        fp[0] + domains[0].len() * fp_rank(domains.drop_first(), fp.drop_first())
    }
}

/// The indices at which two configurations differ.
pub open spec fn diff_indices(a: Seq<u32>, b: Seq<u32>) -> Set<int> {
    Set::new(|i: int| 0 <= i < a.len() && a[i] != b[i])
}

/// In how many parameters two configurations differ.
pub open spec fn diff_count(a: Seq<u32>, b: Seq<u32>) -> int {
    diff_indices(a, b).len() as int
}

/// A configuration's fingerprint is well formed.
pub proof fn lemma_fingerprint_valid(domains: Seq<Seq<u32>>, c: Seq<u32>)
    requires
        config_valid(domains, c),
    ensures
        valid_fp(domains, fingerprint_of(domains, c)),
{
    let fp = fingerprint_of(domains, c);
    assert forall|i: int| 0 <= i < fp.len() implies (fp[i] as int) < (#[trigger] domains[i]).len() by {
        domains[i].index_of_first_ensures(c[i]);
    }
}

/// Law: fingerprinting is injective on valid configurations — two
/// configurations produce the same fingerprint only if they select the same
/// value for every parameter.
pub proof fn lemma_fingerprint_injective(domains: Seq<Seq<u32>>, c1: Seq<u32>, c2: Seq<u32>)
    requires
        forall|i: int| 0 <= i < domains.len() ==> (#[trigger] domains[i]).len() <= usize::MAX,
        config_valid(domains, c1),
        config_valid(domains, c2),
        fingerprint_of(domains, c1) == fingerprint_of(domains, c2),
    ensures
        c1 == c2,
{
    assert forall|i: int| 0 <= i < c1.len() implies c1[i] == c2[i] by {
        let d = domains[i];
        d.index_of_first_ensures(c1[i]);
        d.index_of_first_ensures(c2[i]);
        assert(d.contains(c1[i]) && d.contains(c2[i]));
        let p1 = d.index_of_first(c1[i]);
        let p2 = d.index_of_first(c2[i]);
        assert(p1 is Some && p2 is Some);
        assert(d[p1->Some_0] == c1[i] && d[p2->Some_0] == c2[i]);
        assert(d.len() <= usize::MAX);
        assert(0 <= p1->Some_0 < d.len() && 0 <= p2->Some_0 < d.len());
        assert(fingerprint_of(domains, c1)[i] == fingerprint_of(domains, c2)[i]);
        assert(fingerprint_of(domains, c1)[i] == position_in(d, c1[i]));
        assert(fingerprint_of(domains, c2)[i] == position_in(d, c2[i]));
        assert(position_in(d, c1[i]) == p1->Some_0 as usize);
        assert(position_in(d, c2[i]) == p2->Some_0 as usize);
        assert((p1->Some_0 as usize) as int == p1->Some_0);
        assert((p2->Some_0 as usize) as int == p2->Some_0);
        assert(p1->Some_0 == p2->Some_0);
    }
    assert(c1 =~= c2);
}

/// The space of every family of non-empty domains has at least one point.
pub proof fn lemma_space_size_pos(domains: Seq<Seq<u32>>)
    requires
        forall|i: int| 0 <= i < domains.len() ==> 1 <= (#[trigger] domains[i]).len(),
    ensures
        1 <= space_size(domains),
    decreases domains.len(),
{
    if domains.len() > 0 {
        let rest = domains.drop_first();
        assert forall|i: int| 0 <= i < rest.len() implies 1 <= (#[trigger] rest[i]).len() by {
            assert(rest[i] == domains[i + 1]);
        }
        lemma_space_size_pos(rest);
        assert(1 <= domains[0].len() * space_size(rest)) by (nonlinear_arith)
            requires
                1 <= domains[0].len(),
                1 <= space_size(rest),
        ;
    }
}

/// A well-formed fingerprint's rank lies within the space.
pub proof fn lemma_fp_rank_bounds(domains: Seq<Seq<u32>>, fp: Seq<usize>)
    requires
        valid_fp(domains, fp),
    ensures
        0 <= fp_rank(domains, fp) < space_size(domains),
    decreases domains.len(),
{
    if domains.len() == 0 {
    } else {
        let rest = domains.drop_first();
        let fprest = fp.drop_first();
        assert forall|i: int| 0 <= i < fprest.len() implies (fprest[i] as int) < (
        #[trigger] rest[i]).len() by {
            assert(rest[i] == domains[i + 1]);
            assert(fprest[i] == fp[i + 1]);
        }
        lemma_fp_rank_bounds(rest, fprest);
        let m = domains[0].len() as int;
        let f0 = fp[0] as int;
        let rr = fp_rank(rest, fprest);
        let sr = space_size(rest);
        assert(0 <= f0 + m * rr < m * sr) by (nonlinear_arith)
            requires
                0 <= f0 < m,
                0 <= rr < sr,
        ;
    }
}

/// Ranking is injective on well-formed fingerprints.
pub proof fn lemma_fp_rank_injective(domains: Seq<Seq<u32>>, f1: Seq<usize>, f2: Seq<usize>)
    requires
        valid_fp(domains, f1),
        valid_fp(domains, f2),
        fp_rank(domains, f1) == fp_rank(domains, f2),
    ensures
        f1 == f2,
    decreases domains.len(),
{
    if domains.len() == 0 {
        assert(f1 =~= f2);
    } else {
        let rest = domains.drop_first();
        let r1 = f1.drop_first();
        let r2 = f2.drop_first();
        assert forall|i: int| 0 <= i < r1.len() implies (r1[i] as int) < (#[trigger] rest[i]).len()
            && (r2[i] as int) < rest[i].len() by {
            assert(rest[i] == domains[i + 1]);
            assert(r1[i] == f1[i + 1]);
            assert(r2[i] == f2[i + 1]);
        }
        lemma_fp_rank_bounds(rest, r1);
        lemma_fp_rank_bounds(rest, r2);
        let m = domains[0].len() as int;
        assert((f1[0] as int) < m && (f2[0] as int) < m);
        let rank = fp_rank(domains, f1);
        assert(rank == fp_rank(rest, r1) * m + f1[0]) by (nonlinear_arith)
            requires
                rank == f1[0] + m * fp_rank(rest, r1),
        ;
        assert(rank == fp_rank(rest, r2) * m + f2[0]) by (nonlinear_arith)
            requires
                rank == f2[0] + m * fp_rank(rest, r2),
        ;
        lemma_fundamental_div_mod_converse(rank, m, fp_rank(rest, r1), f1[0] as int);
        lemma_fundamental_div_mod_converse(rank, m, fp_rank(rest, r2), f2[0] as int);
        assert(f1[0] == f2[0]);
        lemma_fp_rank_injective(rest, r1, r2);
        assert forall|j: int| 0 <= j < f1.len() implies f1[j] == f2[j] by {
            if j > 0 {
                assert(r1[j - 1] == f1[j]);
                assert(r2[j - 1] == f2[j]);
            }
        }
        assert(f1 =~= f2);
    }
}

/// Some stored fingerprint has rank `rr`.
pub open spec fn rank_hit(domains: Seq<Seq<u32>>, states: Seq<Seq<usize>>, rr: int) -> bool {
    exists|k: int| 0 <= k < states.len() && fp_rank(domains, #[trigger] states[k]) == rr
}

/// Pigeonhole: if every rank below `m` is hit by some stored fingerprint,
/// at least `m` fingerprints are stored.
pub proof fn lemma_ranks_pigeonhole(domains: Seq<Seq<u32>>, states: Seq<Seq<usize>>, m: int)
    requires
        forall|rr: int| 0 <= rr < m ==> #[trigger] rank_hit(domains, states, rr),
    ensures
        m <= states.len(),
{
    if m > 0 {
        broadcast use seq_to_set_is_finite;

        let ranks = states.map_values(|s: Seq<usize>| fp_rank(domains, s));
        assert forall|rr: int| set_int_range(0, m).contains(rr) implies ranks.to_set().contains(
            rr,
        ) by {
            assert(rank_hit(domains, states, rr));
            let k = choose|k: int|
                0 <= k < states.len() && fp_rank(domains, #[trigger] states[k]) == rr;
            assert(ranks[k] == rr);
            assert(ranks.contains(rr));
        }
        lemma_int_range(0, m);
        lemma_len_subset(set_int_range(0, m), ranks.to_set());
        ranks.lemma_cardinality_of_set();
    }
}

/// A duplicate-free store of well-formed fingerprints can never outgrow the
/// configuration space.
pub proof fn lemma_visited_len_le_space(domains: Seq<Seq<u32>>, states: Seq<Seq<usize>>)
    requires
        states.no_duplicates(),
        forall|i: int| 0 <= i < domains.len() ==> 1 <= (#[trigger] domains[i]).len(),
        forall|k: int| 0 <= k < states.len() ==> valid_fp(domains, #[trigger] states[k]),
    ensures
        states.len() <= space_size(domains),
{
    broadcast use seq_to_set_is_finite;

    lemma_space_size_pos(domains);

    let ranks = states.map_values(|s: Seq<usize>| fp_rank(domains, s));
    assert(ranks.no_duplicates()) by {
        assert forall|i: int, j: int|
            0 <= i < ranks.len() && 0 <= j < ranks.len() && i != j implies ranks[i] != ranks[j] by {
            if fp_rank(domains, states[i]) == fp_rank(domains, states[j]) {
                lemma_fp_rank_injective(domains, states[i], states[j]);
            }
        }
    }
    let space = space_size(domains);
    assert forall|r: int| ranks.to_set().contains(r) implies set_int_range(0, space).contains(
        r,
    ) by {
        let k = choose|k: int| 0 <= k < ranks.len() && ranks[k] == r;
        lemma_fp_rank_bounds(domains, states[k]);
    }
    lemma_int_range(0, space);
    lemma_len_subset(ranks.to_set(), set_int_range(0, space));
    ranks.unique_seq_to_set();
}

/// View of a vector of domains as a sequence of sequences.
pub open spec fn domains_view(domains: Vec<Vec<u32>>) -> Seq<Seq<u32>> {
    domains@.map_values(|d: Vec<u32>| d@)
}

/// Position of `v` within the domain `d` that holds it: the index of its
/// first occurrence.
pub(crate) fn position_of(d: &Vec<u32>, v: u32) -> (r: usize)
    requires
        d@.contains(v),
    ensures
        r == position_in(d@, v),
        (r as int) < d@.len(),
{
    let n = d.len();
    let mut i: usize = 0;
    while i < n
        invariant
            d@.contains(v),
            n == d@.len(),
            i <= n,
            forall|j: int| 0 <= j < i ==> d@[j] != v,
        decreases n - i,
    {
        if d[i] == v {
            proof {
                d@.index_of_first_ensures(v);
                let p = d@.index_of_first(v);
                assert(p is Some);
                let idx = p->Some_0;
                assert(d@[idx] == v);
                if idx > i {
                    assert(d@[i as int] != v);
                }
                assert(idx == i);
            }
            return i;
        }
        i = i + 1;
    }
    proof {
        let w = choose|j: int| 0 <= j < d@.len() && d@[j] == v;
        assert(d@[w] != v);
        assert(false);
    }
    unreached()
}

/// Fingerprint of a configuration, computed position by position in
/// canonical index order.
pub(crate) fn fingerprint_exec(domains: &Vec<Vec<u32>>, c: &Vec<u32>) -> (fp: Vec<usize>)
    requires
        config_valid(domains_view(*domains), c@),
    ensures
        fp@ == fingerprint_of(domains_view(*domains), c@),
        valid_fp(domains_view(*domains), fp@),
{
    let ghost dv = domains_view(*domains);
    let n = c.len();
    let mut fp: Vec<usize> = Vec::new();
    let mut i: usize = 0;
    while i < n
        invariant
            dv == domains_view(*domains),
            config_valid(dv, c@),
            n == c@.len(),
            n == domains@.len(),
            i <= n,
            fp@.len() == i,
            forall|j: int| 0 <= j < i ==> fp@[j] == position_in(dv[j], c@[j]),
        decreases n - i,
    {
        proof {
            assert(dv[i as int] == domains@[i as int]@);
            assert(dv[i as int].contains(c@[i as int]));
        }
        let p = position_of(&domains[i], c[i]);
        fp.push(p);
        i = i + 1;
    }
    proof {
        assert(fp@ =~= fingerprint_of(dv, c@));
        lemma_fingerprint_valid(dv, c@);
    }
    fp
}

/// The configuration that a well-formed fingerprint denotes: the value at
/// each stored position. With duplicate-free domains, fingerprinting this
/// configuration gives the fingerprint back.
pub(crate) fn config_of_fp(domains: &Vec<Vec<u32>>, fp: &Vec<usize>) -> (c: Vec<u32>)
    requires
        valid_fp(domains_view(*domains), fp@),
        forall|i: int|
            0 <= i < domains_view(*domains).len() ==> (#[trigger] domains_view(*domains)[i]).no_duplicates(),
    ensures
        config_valid(domains_view(*domains), c@),
        fingerprint_of(domains_view(*domains), c@) == fp@,
{
    let ghost dv = domains_view(*domains);
    let n = fp.len();
    let mut c: Vec<u32> = Vec::new();
    let mut i: usize = 0;
    while i < n
        invariant
            dv == domains_view(*domains),
            valid_fp(dv, fp@),
            n == fp@.len(),
            n == domains@.len(),
            i <= n,
            c@.len() == i,
            forall|j: int| 0 <= j < i ==> #[trigger] c@[j] == dv[j][fp@[j] as int],
        decreases n - i,
    {
        proof {
            assert(dv[i as int] == domains@[i as int]@);
            assert((fp@[i as int] as int) < dv[i as int].len());
        }
        let d = &domains[i];
        let v = d[fp[i]];
        c.push(v);
        i = i + 1;
    }
    proof {
        assert forall|j: int| 0 <= j < n implies (#[trigger] dv[j]).contains(c@[j]) by {
            assert(c@[j] == dv[j][fp@[j] as int]);
        }
        assert(config_valid(dv, c@));
        assert forall|j: int| 0 <= j < n implies #[trigger] fingerprint_of(dv, c@)[j] == fp@[j] by {
            let d = dv[j];
            let p = fp@[j] as int;
            d.index_of_first_ensures(c@[j]);
            assert(d[p] == c@[j]);
            assert(d.contains(c@[j]));
            let q = d.index_of_first(c@[j]);
            assert(q is Some);
            let idx = q->Some_0;
            assert(d[idx] == c@[j]);
            if idx != p {
                assert(d[idx] == d[p]);
                assert(!d.no_duplicates());
            }
            assert(position_in(d, c@[j]) == idx as usize);
        }
        assert(fingerprint_of(dv, c@) =~= fp@);
    }
    c
}

/// `space_size` splits at any cut: the whole product is the product of the
/// two parts.
pub proof fn lemma_space_split(domains: Seq<Seq<u32>>, i: int)
    requires
        0 <= i <= domains.len(),
    ensures
        space_size(domains) == space_size(domains.take(i)) * space_size(domains.skip(i)),
    decreases i,
{
    if i == 0 {
        assert(domains.take(0) =~= Seq::<Seq<u32>>::empty());
        assert(domains.skip(0) =~= domains);
    } else {
        let rest = domains.drop_first();
        lemma_space_split(rest, i - 1);
        assert(domains.take(i).drop_first() =~= rest.take(i - 1));
        assert(domains.skip(i) =~= rest.skip(i - 1));
        assert(domains.take(i)[0] == domains[0]);
        assert(domains.take(i).len() == i);
        let m = domains[0].len() as int;
        let a = space_size(rest.take(i - 1));
        let b = space_size(rest.skip(i - 1));
        assert(m * (a * b) == (m * a) * b) by (nonlinear_arith);
    }
}

/// The size of the configuration space, or `None` when the product
/// overflows `usize` — in which case the space is larger than any store
/// could ever grow.
pub(crate) fn space_size_checked(domains: &Vec<Vec<u32>>) -> (r: Option<usize>)
    requires
        forall|i: int|
            0 <= i < domains_view(*domains).len() ==> 1 <= (#[trigger] domains_view(
                *domains,
            )[i]).len(),
    ensures
        match r {
            Some(s) => s as int == space_size(domains_view(*domains)),
            None => space_size(domains_view(*domains)) > usize::MAX,
        },
{
    let ghost dv = domains_view(*domains);
    let n = domains.len();
    let mut acc: usize = 1;
    let mut i: usize = n;
    proof {
        assert(dv.skip(n as int) =~= Seq::<Seq<u32>>::empty());
    }
    while i > 0
        invariant
            dv == domains_view(*domains),
            forall|j: int| 0 <= j < dv.len() ==> 1 <= (#[trigger] dv[j]).len(),
            n == dv.len(),
            i <= n,
            acc as int == space_size(dv.skip(i as int)),
        decreases i,
    {
        i = i - 1;
        let ghost suffix = dv.skip(i as int);
        proof {
            assert(suffix.drop_first() =~= dv.skip(i as int + 1));
            assert(suffix[0] == dv[i as int]);
            assert(dv[i as int] == domains@[i as int]@);
        }
        let m = domains[i].len();
        let cap = usize::MAX / m;
        proof {
            lemma_fundamental_div_mod(usize::MAX as int, m as int);
            lemma_mod_bound(usize::MAX as int, m as int);
        }
        if acc > cap {
            proof {
                let dq = usize::MAX as int / m as int;
                let rmd = usize::MAX as int % m as int;
                assert((m as int) * (acc as int) > usize::MAX) by (nonlinear_arith)
                    requires
                        acc as int >= dq + 1,
                        usize::MAX as int == (m as int) * dq + rmd,
                        0 <= rmd < m as int,
                ;
                assert(space_size(suffix) > usize::MAX);
                lemma_space_split(dv, i as int);
                assert forall|j: int| 0 <= j < dv.take(i as int).len() implies 1 <= (
                #[trigger] dv.take(i as int)[j]).len() by {
                    assert(dv.take(i as int)[j] == dv[j]);
                }
                lemma_space_size_pos(dv.take(i as int));
                assert(space_size(dv) > usize::MAX) by (nonlinear_arith)
                    requires
                        space_size(dv) == space_size(dv.take(i as int)) * space_size(suffix),
                        1 <= space_size(dv.take(i as int)),
                        space_size(suffix) > usize::MAX,
                ;
            }
            return None;
        }
        proof {
            let dq = usize::MAX as int / m as int;
            let rmd = usize::MAX as int % m as int;
            assert((acc as int) * (m as int) <= usize::MAX) by (nonlinear_arith)
                requires
                    acc as int <= dq,
                    usize::MAX as int == (m as int) * dq + rmd,
                    0 <= rmd,
                    1 <= m as int,
            ;
        }
        acc = acc * m;
    }
    proof {
        assert(dv.skip(0) =~= dv);
    }
    Some(acc)
}

/// The fingerprint with a given mixed-radix rank over the domain suffix
/// starting at `i`: digit by digit, least significant first.
pub(crate) fn unrank_fp(domains: &Vec<Vec<u32>>, i: usize, r: usize) -> (fp: Vec<usize>)
    requires
        i <= domains@.len(),
        forall|j: int|
            0 <= j < domains_view(*domains).len() ==> 1 <= (#[trigger] domains_view(
                *domains,
            )[j]).len(),
        (r as int) < space_size(domains_view(*domains).skip(i as int)),
    ensures
        fp@.len() == domains_view(*domains).len() - i,
        valid_fp(domains_view(*domains).skip(i as int), fp@),
        fp_rank(domains_view(*domains).skip(i as int), fp@) == r as int,
    decreases domains@.len() - i,
{
    let ghost dv = domains_view(*domains);
    let n = domains.len();
    if i == n {
        proof {
            assert(dv.skip(n as int) =~= Seq::<Seq<u32>>::empty());
        }
        let fp: Vec<usize> = Vec::new();
        proof {
            assert(valid_fp(dv.skip(i as int), fp@));
        }
        fp
    } else {
        let ghost suffix = dv.skip(i as int);
        proof {
            assert(suffix[0] == dv[i as int]);
            assert(dv[i as int] == domains@[i as int]@);
            assert(suffix.drop_first() =~= dv.skip(i as int + 1));
        }
        let m = domains[i].len();
        let x = r % m;
        let next = r / m;
        proof {
            lemma_fundamental_div_mod(r as int, m as int);
            lemma_mod_bound(r as int, m as int);
            let s = space_size(dv.skip(i as int + 1));
            assert(space_size(suffix) == (m as int) * s);
            if next as int >= s {
                assert((m as int) * (next as int) >= (m as int) * s) by (nonlinear_arith)
                    requires
                        next as int >= s,
                        1 <= m as int,
                ;
                assert(r as int >= (m as int) * (next as int));
                assert(false);
            }
        }
        let rest = unrank_fp(domains, i + 1, next);
        let ghost restv = rest@;
        let mut fp: Vec<usize> = Vec::new();
        fp.push(x);
        let mut tail = rest;
        fp.append(&mut tail);
        proof {
            assert(fp@[0] == x);
            assert(fp@.drop_first() =~= restv);
            assert(fp@.len() == dv.len() - i);
            assert forall|j: int| 0 <= j < fp@.len() implies (fp@[j] as int) < (
            #[trigger] suffix[j]).len() by {
                if j > 0 {
                    assert(fp@[j] == restv[j - 1]);
                    assert(suffix[j] == suffix.drop_first()[j - 1]);
                }
            }
            assert(valid_fp(suffix, fp@));
            assert(fp_rank(suffix, fp@) == x + (m as int) * fp_rank(
                suffix.drop_first(),
                fp@.drop_first(),
            ));
            assert(fp_rank(suffix.drop_first(), fp@.drop_first()) == next as int);
            assert(fp_rank(suffix, fp@) == r as int);
        }
        fp
    }
}

/// Law: a duplicate-free visited store of well-formed fingerprints that has
/// grown to the full size of the configuration space holds every
/// well-formed fingerprint — exhaustion really means the whole space was
/// returned.
pub proof fn lemma_exhaustion_complete(domains: Seq<Seq<u32>>, states: Seq<Seq<usize>>)
    requires
        states.no_duplicates(),
        forall|i: int| 0 <= i < domains.len() ==> 1 <= (#[trigger] domains[i]).len(),
        forall|k: int| 0 <= k < states.len() ==> valid_fp(domains, #[trigger] states[k]),
        states.len() == space_size(domains),
    ensures
        forall|fp: Seq<usize>| #[trigger] valid_fp(domains, fp) ==> states.contains(fp),
{
    assert forall|fp: Seq<usize>| #[trigger] valid_fp(domains, fp) implies states.contains(fp) by {
        if !states.contains(fp) {
            let ext = states.push(fp);
            assert(ext.no_duplicates());
            assert forall|k: int| 0 <= k < ext.len() implies valid_fp(
                domains,
                #[trigger] ext[k],
            ) by {
                if k < states.len() {
                    assert(ext[k] == states[k]);
                }
            }
            lemma_visited_len_le_space(domains, ext);
            assert(false);
        }
    }
}

/// If every index where two configurations differ lies in `chosen`, they
/// differ in at most `chosen.len()` parameters.
pub proof fn lemma_diff_count_bound(a: Seq<u32>, b: Seq<u32>, chosen: Seq<int>)
    requires
        forall|i: int| 0 <= i < a.len() && a[i] != b[i] ==> chosen.contains(i),
    ensures
        0 <= diff_count(a, b) <= chosen.len(),
{
    broadcast use seq_to_set_is_finite;

    assert(diff_indices(a, b).subset_of(chosen.to_set()));
    lemma_len_subset(diff_indices(a, b), chosen.to_set());
    chosen.lemma_cardinality_of_set();
}

} // verus!
