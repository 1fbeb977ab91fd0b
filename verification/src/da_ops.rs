//! Coefficient-level operations on arrays of DA vectors: DASGN, DANORO, DANORS, DAFSET, DAFILT,
//! DACLIW, and the monomial bookkeeping of DADER, DAINT, DAGMD and the DA flows.

use vstd::prelude::*;
use crate::monomial::{Monomial, exps_order};
use crate::monomial::MAX_VARS;
use crate::da::{
    DA, DaConfig, DaError, GenericDA, Term, INFINITY_BITS, MAGNITUDE_BITS, SIGN_BIT, abs_gt,
    abs_gt_bits, distinct_monomials, is_nan_bits, order_key, real_coeff,
};

verus! {

/// The terms of `terms` that satisfy `keep`, in order.
pub open spec fn filter_terms<C>(terms: Seq<Term<C>>, keep: spec_fn(Term<C>) -> bool) -> Seq<
    Term<C>,
>
    decreases terms.len(),
{
    if terms.len() == 0 {
        Seq::empty()
    } else if keep(terms.last()) {
        filter_terms(terms.drop_last(), keep).push(terms.last())
    } else {
        filter_terms(terms.drop_last(), keep)
    }
}

proof fn lemma_filter_members<C>(terms: Seq<Term<C>>, keep: spec_fn(Term<C>) -> bool)
    ensures
        forall|k: int|
            0 <= k < filter_terms(terms, keep).len() ==> terms.contains(
                #[trigger] filter_terms(terms, keep)[k],
            ) && keep(filter_terms(terms, keep)[k]),
    decreases terms.len(),
{
    if terms.len() > 0 {
        let d = terms.drop_last();
        lemma_filter_members(d, keep);
        let fd = filter_terms(d, keep);
        let f = filter_terms(terms, keep);
        assert forall|k: int| 0 <= k < f.len() implies terms.contains(#[trigger] f[k]) && keep(f[k]) by {
            if keep(terms.last()) {
                assert(f == fd.push(terms.last()));
            } else {
                assert(f == fd);
            }
            if k < fd.len() {
                assert(f[k] == fd[k]);
                assert(d.contains(fd[k]));
                let i = choose|i: int| 0 <= i < d.len() && d[i] == fd[k];
                assert(terms[i] == d[i]);
            } else {
                assert(f[k] == terms[terms.len() - 1]);
            }
        }
    }
}

proof fn lemma_filter_distinct<C>(terms: Seq<Term<C>>, keep: spec_fn(Term<C>) -> bool)
    requires
        distinct_monomials(terms),
    ensures
        distinct_monomials(filter_terms(terms, keep)),
    decreases terms.len(),
{
    if terms.len() > 0 {
        let d = terms.drop_last();
        assert(distinct_monomials(d)) by {
            assert forall|a: int, b: int|
                0 <= a < d.len() && 0 <= b < d.len() && a != b implies #[trigger] d[a].monomial.exponents@
                != #[trigger] d[b].monomial.exponents@ by {
                assert(d[a] == terms[a] && d[b] == terms[b]);
            }
        }
        lemma_filter_distinct(d, keep);
        lemma_filter_members(d, keep);
        let fd = filter_terms(d, keep);
        let f = filter_terms(terms, keep);
        if keep(terms.last()) {
            assert(f == fd.push(terms.last()));
            assert forall|a: int, b: int|
                0 <= a < f.len() && 0 <= b < f.len() && a != b implies #[trigger] f[a].monomial.exponents@
                != #[trigger] f[b].monomial.exponents@ by {
                assert(a < fd.len() ==> f[a] == fd[a]);
                assert(b < fd.len() ==> f[b] == fd[b]);
                if a < fd.len() && b < fd.len() {
                    assert(f[a] == fd[a] && f[b] == fd[b]);
                } else {
                    let k = if a < fd.len() { a } else { b };
                    assert(f[k] == fd[k]);
                    assert(d.contains(fd[k]));
                    let i = choose|i: int| 0 <= i < d.len() && d[i] == fd[k];
                    assert(d[i] == terms[i]);
                    let l = terms.len() - 1;
                    assert(terms.last() == terms[l]);
                    assert(i != l);
                    assert(terms[i].monomial.exponents@ != terms[l].monomial.exponents@);
                    let o = if a < fd.len() { b } else { a };
                    assert(o == fd.len());
                    assert(f[o] == terms[l]);
                }
            }
        }
    }
}

/// A copy of `terms`.
pub(crate) fn copy_terms<C: Copy>(terms: &Vec<Term<C>>) -> (r: Vec<Term<C>>)
    ensures
        r@ == terms@,
{
    let mut r: Vec<Term<C>> = Vec::new();
    let mut i: usize = 0;
    while i < terms.len()
        invariant
            i <= terms@.len(),
            r@ == terms@.take(i as int),
        decreases terms@.len() - i,
    {
        r.push(terms[i]);
        proof {
            assert(terms@.take(i + 1) =~= terms@.take(i as int).push(terms@[i as int]));
        }
        i = i + 1;
    }
    proof {
        assert(terms@.take(i as int) =~= terms@);
    }
    r
}

/// Whether an even-order test keeps a term.
pub open spec fn even_order<C>() -> spec_fn(Term<C>) -> bool {
    |t: Term<C>| exps_order(t.monomial.exponents@) % 2 == 0
}

/// Keeps the even-order terms of one DA vector.
fn keep_even_terms<C: Copy>(terms: &Vec<Term<C>>) -> (r: Vec<Term<C>>)
    ensures
        r@ == filter_terms(terms@, even_order::<C>()),
{
    let mut r: Vec<Term<C>> = Vec::new();
    let mut i: usize = 0;
    while i < terms.len()
        invariant
            i <= terms@.len(),
            r@ == filter_terms(terms@.take(i as int), even_order::<C>()),
        decreases terms@.len() - i,
    {
        proof {
            assert(terms@.take(i + 1).drop_last() =~= terms@.take(i as int));
            assert(terms@.take(i + 1).last() == terms@[i as int]);
        }
        if terms[i].monomial.total_order() % 2 == 0 {
            r.push(terms[i]);
        }
        i = i + 1;
    }
    proof {
        assert(terms@.take(i as int) =~= terms@);
    }
    r
}

/// DASGN: negates every coefficient of every DA vector in the array (a binary64 negation flips
/// the sign bit).
pub fn rosy_dasgn(da: &mut Vec<DA>)
    ensures
        final(da)@.len() == old(da)@.len(),
        forall|k: int|
            0 <= k < old(da)@.len() ==> {
                &&& (#[trigger] final(da)@[k]).terms@.len() == old(da)@[k].terms@.len()
                &&& forall|i: int|
                    0 <= i < old(da)@[k].terms@.len() ==> final(da)@[k].terms@[i] == (Term {
                        monomial: old(da)@[k].terms@[i].monomial,
                        coeff: old(da)@[k].terms@[i].coeff ^ SIGN_BIT,
                    })
            },
        forall|k: int| 0 <= k < old(da)@.len() ==> (#[trigger] final(da)@[k]).terms@ == negated(old(da)@[k].terms@),
{
    let mut k: usize = 0;
    while k < da.len()
        invariant
            k <= da@.len(),
            da@.len() == old(da)@.len(),
            forall|j: int| k <= j < da@.len() ==> #[trigger] da@[j] == old(da)@[j],
            forall|j: int|
                0 <= j < k ==> {
                    &&& (#[trigger] da@[j]).terms@.len() == old(da)@[j].terms@.len()
                    &&& forall|i: int|
                        0 <= i < old(da)@[j].terms@.len() ==> da@[j].terms@[i] == (Term {
                            monomial: old(da)@[j].terms@[i].monomial,
                            coeff: old(da)@[j].terms@[i].coeff ^ SIGN_BIT,
                        })
                },
        decreases da@.len() - k,
    {
        let mut terms: Vec<Term<u64>> = Vec::new();
        let mut i: usize = 0;
        while i < da[k].terms.len()
            invariant
                k < da@.len(),
                i <= da@[k as int].terms@.len(),
                terms@.len() == i,
                forall|t: int|
                    0 <= t < i ==> terms@[t] == (Term {
                        monomial: da@[k as int].terms@[t].monomial,
                        coeff: da@[k as int].terms@[t].coeff ^ SIGN_BIT,
                    }),
            decreases da@[k as int].terms@.len() - i,
        {
            let t = da[k].terms[i];
            terms.push(Term { monomial: t.monomial, coeff: t.coeff ^ SIGN_BIT });
            i = i + 1;
        }
        da.set(k, GenericDA { terms });
        k = k + 1;
    }
    proof {
        lemma_dasgn_negates(old(da)@, da@);
    }
}

/// DANORO: removes every odd-order term from every DA vector in the array.
pub fn rosy_danoro<C: Copy>(da: &mut Vec<GenericDA<C>>)
    ensures
        final(da)@.len() == old(da)@.len(),
        forall|k: int|
            0 <= k < old(da)@.len() ==> (#[trigger] final(da)@[k]).terms@ == filter_terms(
                old(da)@[k].terms@,
                even_order::<C>(),
            ),
        forall|k: int|
            0 <= k < old(da)@.len() && old(da)@[k].wf() ==> (#[trigger] final(da)@[k]).wf(),
{
    let mut k: usize = 0;
    while k < da.len()
        invariant
            k <= da@.len(),
            da@.len() == old(da)@.len(),
            forall|j: int| k <= j < da@.len() ==> #[trigger] da@[j] == old(da)@[j],
            forall|j: int|
                0 <= j < k ==> (#[trigger] da@[j]).terms@ == filter_terms(
                    old(da)@[j].terms@,
                    even_order::<C>(),
                ),
        decreases da@.len() - k,
    {
        let terms = keep_even_terms(&da[k].terms);
        da.set(k, GenericDA { terms });
        k = k + 1;
    }
    proof {
        assert forall|k: int| 0 <= k < old(da)@.len() && old(da)@[k].wf() implies (
        #[trigger] da@[k]).wf() by {
            lemma_filter_distinct(old(da)@[k].terms@, even_order::<C>());
        }
    }
}

/// `|c| < t` for the reals the two patterns encode (false when either is NaN).
pub open spec fn abs_lt_bits(c: u64, t: u64) -> bool {
    !is_nan_bits(c) && !is_nan_bits(t) && ((c & MAGNITUDE_BITS) as int) < order_key(t)
}

/// Whether DANORS keeps a term: its coefficient is not below the threshold in magnitude.
pub open spec fn not_below(threshold: u64) -> spec_fn(Term<u64>) -> bool {
    |t: Term<u64>| !abs_lt_bits(t.coeff, threshold)
}

/// Executable `abs_lt_bits`.
fn abs_lt(c: u64, t: u64) -> (r: bool)
    ensures
        r == abs_lt_bits(c, t),
{
    let cm = c & MAGNITUDE_BITS;
    let tm = t & MAGNITUDE_BITS;
    if cm > INFINITY_BITS || tm > INFINITY_BITS {
        false
    } else if t & SIGN_BIT != 0 {
        false
    } else {
        cm < tm
    }
}

/// The terms of one DA vector that DANORS keeps.
fn keep_not_below(terms: &Vec<Term<u64>>, threshold: u64) -> (r: Vec<Term<u64>>)
    ensures
        r@ == filter_terms(terms@, not_below(threshold)),
{
    let mut r: Vec<Term<u64>> = Vec::new();
    let mut i: usize = 0;
    while i < terms.len()
        invariant
            i <= terms@.len(),
            r@ == filter_terms(terms@.take(i as int), not_below(threshold)),
        decreases terms@.len() - i,
    {
        proof {
            assert(terms@.take(i + 1).drop_last() =~= terms@.take(i as int));
            assert(terms@.take(i + 1).last() == terms@[i as int]);
        }
        if !abs_lt(terms[i].coeff, threshold) {
            r.push(terms[i]);
        }
        i = i + 1;
    }
    proof {
        assert(terms@.take(i as int) =~= terms@);
    }
    r
}

/// DANORS: drops from every DA vector the terms whose coefficient is smaller in magnitude than
/// `threshold` (a binary64 pattern); NaN coefficients and a NaN threshold drop nothing.
pub fn rosy_danors(da: &mut Vec<DA>, threshold: u64)
    ensures
        final(da)@.len() == old(da)@.len(),
        forall|k: int|
            0 <= k < old(da)@.len() ==> (#[trigger] final(da)@[k]).terms@ == filter_terms(
                old(da)@[k].terms@,
                not_below(threshold),
            ),
        forall|k: int|
            0 <= k < old(da)@.len() && old(da)@[k].wf() ==> (#[trigger] final(da)@[k]).wf(),
{
    let mut k: usize = 0;
    while k < da.len()
        invariant
            k <= da@.len(),
            da@.len() == old(da)@.len(),
            forall|j: int| k <= j < da@.len() ==> #[trigger] da@[j] == old(da)@[j],
            forall|j: int|
                0 <= j < k ==> (#[trigger] da@[j]).terms@ == filter_terms(
                    old(da)@[j].terms@,
                    not_below(threshold),
                ),
        decreases da@.len() - k,
    {
        let terms = keep_not_below(&da[k].terms, threshold);
        da.set(k, GenericDA { terms });
        k = k + 1;
    }
    proof {
        assert forall|k: int| 0 <= k < old(da)@.len() && old(da)@[k].wf() implies (
        #[trigger] da@[k]).wf() by {
            lemma_filter_distinct(old(da)@[k].terms@, not_below(threshold));
        }
    }
}

/// The DA filtering template set by DAFSET: `None` disables filtering.
pub struct DaFilter {
    pub template: Option<Vec<DA>>,
}

impl DaFilter {
    /// A template, when present, has at least one component, each with distinct monomials.
    pub open spec fn wf(&self) -> bool {
        match self.template {
            Some(t) => t@.len() >= 1 && forall|i: int| 0 <= i < t@.len() ==> (#[trigger] t@[i]).wf(),
            None => true,
        }
    }

    /// No template: filtering disabled.
    pub fn new() -> (r: DaFilter)
        ensures
            r.template is None,
    {
        DaFilter { template: None }
    }
}

/// DAFSET: sets the template used by DAFILT. An empty array, or a single zero DA vector,
/// disables filtering.
pub fn rosy_dafset(filter: &mut DaFilter, template_da: Vec<DA>)
    requires
        forall|i: int| 0 <= i < template_da@.len() ==> (#[trigger] template_da@[i]).wf(),
    ensures
        final(filter).wf(),
        (template_da@.len() == 0 || (template_da@.len() == 1 && template_da@[0].terms@.len() == 0))
            ==> final(filter).template is None,
        !(template_da@.len() == 0 || (template_da@.len() == 1 && template_da@[0].terms@.len() == 0))
            ==> final(filter).template == Some(template_da),
{
    if template_da.len() == 0 || (template_da.len() == 1 && template_da[0].is_zero()) {
        filter.template = None;
    } else {
        filter.template = Some(template_da);
    }
}

/// Whether a term survives the mask: its monomial's coefficient in the mask exceeds epsilon
/// in magnitude.
pub open spec fn mask_keeps(mask: Seq<Term<u64>>, epsilon: u64) -> spec_fn(Term<u64>) -> bool {
    |t: Term<u64>| abs_gt_bits(real_coeff(mask, t.monomial.exponents@), epsilon)
}

/// The terms of `src` that the mask keeps.
fn mask_terms(src: &DA, mask: &DA, epsilon: u64) -> (r: Vec<Term<u64>>)
    requires
        mask.wf(),
    ensures
        r@ == filter_terms(src.terms@, mask_keeps(mask.terms@, epsilon)),
{
    let mut r: Vec<Term<u64>> = Vec::new();
    let mut i: usize = 0;
    while i < src.terms.len()
        invariant
            i <= src.terms@.len(),
            mask.wf(),
            r@ == filter_terms(src.terms@.take(i as int), mask_keeps(mask.terms@, epsilon)),
        decreases src.terms@.len() - i,
    {
        proof {
            assert(src.terms@.take(i + 1).drop_last() =~= src.terms@.take(i as int));
            assert(src.terms@.take(i + 1).last() == src.terms@[i as int]);
        }
        let c = mask.get_coeff(&src.terms[i].monomial);
        if abs_gt(c, epsilon) {
            r.push(src.terms[i]);
        }
        i = i + 1;
    }
    proof {
        assert(src.terms@.take(i as int) =~= src.terms@);
    }
    r
}

/// What DAFILT keeps of one input vector.
pub open spec fn filtered_terms(terms: Seq<Term<u64>>, filter: &DaFilter, epsilon: u64) -> Seq<Term<u64>> {
    match filter.template {
        None => terms,
        Some(t) => filter_terms(terms, mask_keeps(t@[0].terms@, epsilon)),
    }
}

/// DAFILT: writes each input DA vector, filtered through the template's first component, into
/// the result (as far as both arrays reach). Without a template the input is copied unchanged.
pub fn rosy_dafilt(input: &Vec<DA>, result: &mut Vec<DA>, filter: &DaFilter, config: &DaConfig)
    requires
        filter.wf(),
    ensures
        final(result)@.len() == old(result)@.len(),
        forall|k: int|
            0 <= k < old(result)@.len() && k < input@.len() ==> (#[trigger] final(result)@[k]).terms@
                == filtered_terms(input@[k].terms@, filter, config.epsilon),
        forall|k: int|
            0 <= k < old(result)@.len() && k >= input@.len() ==> #[trigger] final(result)@[k]
                == old(result)@[k],
{
    let mut k: usize = 0;
    while k < result.len() && k < input.len()
        invariant
            k <= result@.len(),
            k <= input@.len(),
            filter.wf(),
            result@.len() == old(result)@.len(),
            forall|j: int| k <= j < result@.len() ==> #[trigger] result@[j] == old(result)@[j],
            forall|j: int|
                0 <= j < k ==> (#[trigger] result@[j]).terms@ == filtered_terms(
                    input@[j].terms@,
                    filter,
                    config.epsilon,
                ),
        decreases result@.len() - k,
    {
        let terms = match &filter.template {
            None => copy_terms(&input[k].terms),
            Some(t) => mask_terms(&input[k], &t[0], config.epsilon),
        };
        result.set(k, GenericDA { terms });
        k = k + 1;
    }
}

/// DACLIW: the coefficients of `x_1 .. x_n` in the first DA vector (zero for variables beyond
/// the DA system, and for all of them when the array is empty), as binary64 patterns.
pub fn rosy_dacliw(da: &Vec<DA>, n: usize, linear: &mut Vec<u64>, config: &DaConfig)
    requires
        config.wf(),
        da@.len() > 0 ==> da@[0].wf(),
    ensures
        final(linear)@.len() == n,
        forall|i: int|
            0 <= i < n ==> #[trigger] final(linear)@[i] == if i < config.num_vars && da@.len() > 0 {
                real_coeff(da@[0].terms@, Monomial::variable_exps(i))
            } else {
                0u64
            },
{
    let mut out: Vec<u64> = Vec::new();
    let mut i: usize = 0;
    while i < n
        invariant
            i <= n,
            config.wf(),
            da@.len() > 0 ==> da@[0].wf(),
            out@.len() == i,
            forall|j: int|
                0 <= j < i ==> #[trigger] out@[j] == if j < config.num_vars && da@.len() > 0 {
                    real_coeff(da@[0].terms@, Monomial::variable_exps(j))
                } else {
                    0u64
                },
        decreases n - i,
    {
        if i < config.num_vars && da.len() > 0 {
            let m = Monomial::variable(i);
            assert(m.exponents@ =~= Monomial::variable_exps(i as int));
            out.push(da[0].get_coeff(&m));
        } else {
            out.push(0);
        }
        i = i + 1;
    }
    *linear = out;
}

/// A term whose coefficient still has to be scaled: the result coefficient is `coeff * factor`
/// for a derivative and `coeff / factor` for an integral, dropped when it does not exceed
/// epsilon in magnitude.
#[derive(Clone, Copy)]
pub struct ScaledTerm {
    pub monomial: Monomial,
    pub coeff: u64,
    pub factor: u32,
}

/// The derivative of a term with respect to variable slot `v` (0-based), if it does not vanish.
pub open spec fn deriv_term(t: Term<u64>, v: int) -> Option<ScaledTerm> {
    let e = t.monomial.exponents@;
    if e[v] > 0 {
        Some(
            ScaledTerm {
                monomial: Monomial { exponents: vstd::array::spec_array_update(t.monomial.exponents, v, (e[v] - 1) as u8) },
                coeff: t.coeff,
                factor: e[v] as u32,
            },
        )
    } else {
        None
    }
}

/// The integral of a term with respect to variable slot `v`, if it stays within the
/// truncation order.
pub open spec fn integ_term(t: Term<u64>, v: int, max_order: int) -> Option<ScaledTerm> {
    let e = t.monomial.exponents@;
    if exps_order(e) + 1 <= max_order && e[v] < 255 {
        Some(
            ScaledTerm {
                monomial: Monomial { exponents: vstd::array::spec_array_update(t.monomial.exponents, v, (e[v] + 1) as u8) },
                coeff: t.coeff,
                factor: (e[v] + 1) as u32,
            },
        )
    } else {
        None
    }
}

/// The surviving images of the terms, in order.
pub open spec fn scaled_terms(
    terms: Seq<Term<u64>>,
    image: spec_fn(Term<u64>) -> Option<ScaledTerm>,
) -> Seq<ScaledTerm>
    decreases terms.len(),
{
    if terms.len() == 0 {
        Seq::empty()
    } else {
        match image(terms.last()) {
            Some(s) => scaled_terms(terms.drop_last(), image).push(s),
            None => scaled_terms(terms.drop_last(), image),
        }
    }
}

/// DADER undoes DAINT in the same slot: integrating a term whose order stays within the
/// truncation order and then differentiating it gives back the term's monomial and
/// coefficient, with the integral's divisor equal to the derivative's multiplier (so the
/// coefficient comes back as `(c / f) * f`).
pub proof fn law_dader_undoes_daint(t: Term<u64>, v: int, max_order: int)
    requires
        0 <= v < 6,
        exps_order(t.monomial.exponents@) + 1 <= max_order,
        t.monomial.exponents@[v] < 255,
    ensures
        integ_term(t, v, max_order) is Some,
        deriv_term(
            Term { monomial: integ_term(t, v, max_order)->0.monomial, coeff: integ_term(t, v, max_order)->0.coeff },
            v,
        ) == Some(ScaledTerm { monomial: t.monomial, coeff: t.coeff, factor: integ_term(t, v, max_order)->0.factor }),
{
    let e = t.monomial.exponents;
    let up = vstd::array::spec_array_update(e, v, (e@[v] + 1) as u8);
    assert(up@ == e@.update(v, (e@[v] + 1) as u8));
    let down = vstd::array::spec_array_update(up, v, (up@[v] - 1) as u8);
    assert(down@ == up@.update(v, (up@[v] - 1) as u8));
    assert(down@ =~= e@);
    assert(down =~= e) by {
        assert forall|i: int| 0 <= i < 6 implies down[i] == e[i] by {
            assert(down@[i] == e@[i]);
        }
    }
}

pub open spec fn deriv_image(v: int) -> spec_fn(Term<u64>) -> Option<ScaledTerm> {
    |t: Term<u64>| deriv_term(t, v)
}

pub open spec fn integ_image(v: int, max_order: int) -> spec_fn(Term<u64>) -> Option<ScaledTerm> {
    |t: Term<u64>| integ_term(t, v, max_order)
}

/// The images of one DA vector's terms under differentiation (or integration) in slot `v`.
fn scale_terms(terms: &Vec<Term<u64>>, v: usize, integrate: bool, max_order: u32) -> (r: Vec<
    ScaledTerm,
>)
    requires
        v < MAX_VARS,
    ensures
        r@ == if integrate {
            scaled_terms(terms@, integ_image(v as int, max_order as int))
        } else {
            scaled_terms(terms@, deriv_image(v as int))
        },
{
    let ghost image = if integrate {
        integ_image(v as int, max_order as int)
    } else {
        deriv_image(v as int)
    };
    let mut r: Vec<ScaledTerm> = Vec::new();
    let mut i: usize = 0;
    while i < terms.len()
        invariant
            i <= terms@.len(),
            v < MAX_VARS,
            image == (if integrate {
                integ_image(v as int, max_order as int)
            } else {
                deriv_image(v as int)
            }),
            r@ == scaled_terms(terms@.take(i as int), image),
        decreases terms@.len() - i,
    {
        proof {
            assert(terms@.take(i + 1).drop_last() =~= terms@.take(i as int));
            assert(terms@.take(i + 1).last() == terms@[i as int]);
        }
        let t = terms[i];
        let e = t.monomial.exponents[v];
        if integrate {
            if t.monomial.total_order() < max_order && e < 255 {
                let mut x = t.monomial.exponents;
                x[v] = e + 1;
                r.push(ScaledTerm { monomial: Monomial { exponents: x }, coeff: t.coeff, factor: (e + 1) as u32 });
            }
        } else if e > 0 {
            let mut x = t.monomial.exponents;
            x[v] = e - 1;
            r.push(ScaledTerm { monomial: Monomial { exponents: x }, coeff: t.coeff, factor: e as u32 });
        }
        i = i + 1;
    }
    proof {
        assert(terms@.take(i as int) =~= terms@);
    }
    r
}

/// The per-vector images of a DA array under differentiation or integration in slot `v`.
fn scale_array(da: &Vec<DA>, v: usize, integrate: bool, max_order: u32) -> (r: Vec<Vec<ScaledTerm>>)
    requires
        v < MAX_VARS,
    ensures
        r@.len() == da@.len(),
        forall|k: int|
            0 <= k < da@.len() ==> (#[trigger] r@[k])@ == if integrate {
                scaled_terms(da@[k].terms@, integ_image(v as int, max_order as int))
            } else {
                scaled_terms(da@[k].terms@, deriv_image(v as int))
            },
{
    let mut r: Vec<Vec<ScaledTerm>> = Vec::new();
    let mut k: usize = 0;
    while k < da.len()
        invariant
            k <= da@.len(),
            v < MAX_VARS,
            r@.len() == k,
            forall|j: int|
                0 <= j < k ==> (#[trigger] r@[j])@ == if integrate {
                    scaled_terms(da@[j].terms@, integ_image(v as int, max_order as int))
                } else {
                    scaled_terms(da@[j].terms@, deriv_image(v as int))
                },
        decreases da@.len() - k,
    {
        r.push(scale_terms(&da[k].terms, v, integrate, max_order));
        k = k + 1;
    }
    r
}

/// DADER: checks the 1-based variable index and gives, for every DA vector, the terms of its
/// derivative with respect to that variable before their coefficients are multiplied by the
/// exponent (`factor`).
pub fn rosy_dader(da: &Vec<DA>, var_index: usize, config: &DaConfig) -> (r: Result<
    Vec<Vec<ScaledTerm>>,
    DaError,
>)
    requires
        config.wf(),
    ensures
        match r {
            Ok(plans) => {
                &&& 1 <= var_index <= config.num_vars
                &&& plans@.len() == da@.len()
                &&& forall|k: int|
                    0 <= k < da@.len() ==> (#[trigger] plans@[k])@ == scaled_terms(
                        da@[k].terms@,
                        deriv_image(var_index - 1),
                    )
            },
            Err(e) => !(1 <= var_index <= config.num_vars) && e == DaError::VariableIndexOutOfRange {
                index: var_index,
                num_vars: config.num_vars,
            },
        },
{
    if var_index == 0 || var_index > config.num_vars {
        return Err(DaError::VariableIndexOutOfRange { index: var_index, num_vars: config.num_vars });
    }
    Ok(scale_array(da, var_index - 1, false, config.max_order))
}

/// DAINT: checks the 1-based variable index and gives, for every DA vector, the terms of its
/// integral with respect to that variable (those within the truncation order) before their
/// coefficients are divided by the new exponent (`factor`).
pub fn rosy_daint(da: &Vec<DA>, var_index: usize, config: &DaConfig) -> (r: Result<
    Vec<Vec<ScaledTerm>>,
    DaError,
>)
    requires
        config.wf(),
    ensures
        match r {
            Ok(plans) => {
                &&& 1 <= var_index <= config.num_vars
                &&& plans@.len() == da@.len()
                &&& forall|k: int|
                    0 <= k < da@.len() ==> (#[trigger] plans@[k])@ == scaled_terms(
                        da@[k].terms@,
                        integ_image(var_index - 1, config.max_order as int),
                    )
            },
            Err(e) => !(1 <= var_index <= config.num_vars) && e == DaError::VariableIndexOutOfRange {
                index: var_index,
                num_vars: config.num_vars,
            },
        },
{
    if var_index == 0 || var_index > config.num_vars {
        return Err(DaError::VariableIndexOutOfRange { index: var_index, num_vars: config.num_vars });
    }
    Ok(scale_array(da, var_index - 1, true, config.max_order))
}

/// DAGMD: checks the arguments of the Lie derivative `sum_i (dg/dx_i) * f[i]` and gives the
/// terms of each partial derivative `dg/dx_i`, `i < dim`, of the first component of `g`.
pub fn rosy_dagmd(g: &Vec<DA>, f: &Vec<DA>, dim: usize, config: &DaConfig) -> (r: Result<
    Vec<Vec<ScaledTerm>>,
    DaError,
>)
    requires
        config.wf(),
    ensures
        match r {
            Ok(partials) => {
                &&& dim <= config.num_vars && f@.len() >= dim && g@.len() > 0
                &&& partials@.len() == dim
                &&& forall|i: int|
                    0 <= i < dim ==> (#[trigger] partials@[i])@ == scaled_terms(
                        g@[0].terms@,
                        deriv_image(i),
                    )
            },
            Err(e) => if dim > config.num_vars {
                e == DaError::DimensionExceedsVariables { dim, num_vars: config.num_vars }
            } else if f@.len() < dim {
                e == DaError::ArrayTooShort { len: f.len(), dim }
            } else {
                g@.len() == 0 && e == DaError::EmptyScalarField
            },
        },
{
    if dim > config.num_vars {
        return Err(DaError::DimensionExceedsVariables { dim, num_vars: config.num_vars });
    }
    if f.len() < dim {
        return Err(DaError::ArrayTooShort { len: f.len(), dim });
    }
    if g.len() == 0 {
        return Err(DaError::EmptyScalarField);
    }
    let mut partials: Vec<Vec<ScaledTerm>> = Vec::new();
    let mut i: usize = 0;
    while i < dim
        invariant
            i <= dim,
            dim <= config.num_vars,
            config.wf(),
            g@.len() > 0,
            partials@.len() == i,
            forall|j: int|
                0 <= j < i ==> (#[trigger] partials@[j])@ == scaled_terms(
                    g@[0].terms@,
                    deriv_image(j),
                ),
        decreases dim - i,
    {
        partials.push(scale_terms(&g[0].terms, i, false, config.max_order));
        i = i + 1;
    }
    Ok(partials)
}

/// The argument checks of the DA flows DAFLO and CDFLO, in the order they are made.
pub fn check_flow_args<C>(rhs: &Vec<GenericDA<C>>, ic: &Vec<GenericDA<C>>, dim: usize, config: &DaConfig) -> (r:
    Result<(), DaError>)
    ensures
        r == if dim > config.num_vars {
            Err(DaError::DimensionExceedsVariables { dim, num_vars: config.num_vars })
        } else if rhs@.len() < dim {
            Err(DaError::RhsTooShort { len: rhs.len(), dim })
        } else if ic@.len() < dim {
            Err(DaError::InitialConditionTooShort { len: ic.len(), dim })
        } else {
            Ok(())
        },
{
    if dim > config.num_vars {
        Err(DaError::DimensionExceedsVariables { dim, num_vars: config.num_vars })
    } else if rhs.len() < dim {
        Err(DaError::RhsTooShort { len: rhs.len(), dim })
    } else if ic.len() < dim {
        Err(DaError::InitialConditionTooShort { len: ic.len(), dim })
    } else {
        Ok(())
    }
}

/// The terms with every coefficient negated (sign bit flipped), as DASGN leaves them.
pub open spec fn negated(terms: Seq<Term<u64>>) -> Seq<Term<u64>> {
    terms.map_values(|t: Term<u64>| Term { monomial: t.monomial, coeff: t.coeff ^ SIGN_BIT })
}

/// DASGN's result, stated with `negated`.
pub proof fn lemma_dasgn_negates(before: Seq<DA>, after: Seq<DA>)
    requires
        after.len() == before.len(),
        forall|k: int|
            0 <= k < before.len() ==> {
                &&& (#[trigger] after[k]).terms@.len() == before[k].terms@.len()
                &&& forall|i: int|
                    0 <= i < before[k].terms@.len() ==> after[k].terms@[i] == (Term {
                        monomial: before[k].terms@[i].monomial,
                        coeff: before[k].terms@[i].coeff ^ SIGN_BIT,
                    })
            },
    ensures
        forall|k: int| 0 <= k < before.len() ==> (#[trigger] after[k]).terms@ == negated(before[k].terms@),
{
    assert forall|k: int| 0 <= k < before.len() implies (#[trigger] after[k]).terms@ == negated(before[k].terms@) by {
        assert(after[k].terms@ =~= negated(before[k].terms@));
    }
}

/// DASGN twice gives the DA vectors back: negating twice restores every coefficient.
pub proof fn law_dasgn_involution(terms: Seq<Term<u64>>)
    ensures
        negated(negated(terms)) == terms,
{
    assert forall|i: int| 0 <= i < terms.len() implies #[trigger] negated(negated(terms))[i] == terms[i] by {
        let c = terms[i].coeff;
        assert((c ^ SIGN_BIT) ^ SIGN_BIT == c) by (bit_vector);
    }
    assert(negated(negated(terms)) =~= terms);
}

/// Filtering twice by the same test filters once: DANORO (and DAFILT with a fixed template)
/// applied again changes nothing.
pub proof fn law_filter_idempotent<C>(terms: Seq<Term<C>>, keep: spec_fn(Term<C>) -> bool)
    ensures
        filter_terms(filter_terms(terms, keep), keep) == filter_terms(terms, keep),
    decreases terms.len(),
{
    if terms.len() > 0 {
        let d = terms.drop_last();
        law_filter_idempotent(d, keep);
        let fd = filter_terms(d, keep);
        if keep(terms.last()) {
            let f = fd.push(terms.last());
            assert(f.drop_last() =~= fd);
            assert(f.last() == terms.last());
        }
    }
}

} // verus!
