//! DADIU and DADMU: dividing the DA vectors of an array by an independent variable, and
//! multiplying them by another one, term by term.

use vstd::prelude::*;
use crate::monomial::Monomial;
use crate::da::{
    DA, DaConfig, DaError, GenericDA, Term, INFINITY_BITS, MAGNITUDE_BITS, abs_gt, abs_gt_bits,
    distinct_monomials, is_nan_bits,
};

verus! {

/// A coefficient these operations carry over: it is not at most epsilon in magnitude (so a
/// NaN pattern is carried).
pub open spec fn carried(c: u64, eps: u64) -> bool {
    is_nan_bits(c) || is_nan_bits(eps) || abs_gt_bits(c, eps)
}

fn is_carried(c: u64, eps: u64) -> (r: bool)
    ensures
        r == carried(c, eps),
{
    let c_nan = (c & MAGNITUDE_BITS) > INFINITY_BITS;
    let e_nan = (eps & MAGNITUDE_BITS) > INFINITY_BITS;
    c_nan || e_nan || abs_gt(c, eps)
}

/// The exponents divided by `x_{i+1}`.
pub open spec fn divide_exps(e: [u8; 6], i: int) -> [u8; 6] {
    vstd::array::spec_array_update(e, i, (e@[i] - 1) as u8)
}

/// The exponents divided by `x_{i+1}`, then multiplied by `x_{j+1}`; that exponent stays at
/// 255 when it is already there.
pub open spec fn shift_exps(e: [u8; 6], i: int, j: int) -> [u8; 6] {
    let d = divide_exps(e, i);
    vstd::array::spec_array_update(d, j, if d@[j] == 255 { 255u8 } else { (d@[j] + 1) as u8 })
}

/// The image of a term under DADIU in slot `i`: a carried term divisible by the variable.
pub open spec fn dadiu_image(i: int, eps: u64) -> spec_fn(Term<u64>) -> Option<Term<u64>> {
    |t: Term<u64>|
        if carried(t.coeff, eps) && t.monomial.exponents@[i] >= 1 {
            Some(Term { monomial: Monomial { exponents: divide_exps(t.monomial.exponents, i) }, coeff: t.coeff })
        } else {
            None
        }
}

/// The image of a term under DADMU from slot `i` to slot `j`.
pub open spec fn dadmu_image(i: int, j: int, eps: u64) -> spec_fn(Term<u64>) -> Option<Term<u64>> {
    |t: Term<u64>|
        if carried(t.coeff, eps) && t.monomial.exponents@[i] >= 1 {
            Some(Term { monomial: Monomial { exponents: shift_exps(t.monomial.exponents, i, j) }, coeff: t.coeff })
        } else {
            None
        }
}

/// The images of the terms that have one, in order.
pub open spec fn mapped_terms(
    terms: Seq<Term<u64>>,
    image: spec_fn(Term<u64>) -> Option<Term<u64>>,
) -> Seq<Term<u64>>
    decreases terms.len(),
{
    if terms.len() == 0 {
        Seq::empty()
    } else {
        match image(terms.last()) {
            Some(t) => mapped_terms(terms.drop_last(), image).push(t),
            None => mapped_terms(terms.drop_last(), image),
        }
    }
}

/// Every mapped term is the image of some term.
proof fn lemma_mapped_members(terms: Seq<Term<u64>>, image: spec_fn(Term<u64>) -> Option<Term<u64>>)
    ensures
        forall|k: int| 0 <= k < mapped_terms(terms, image).len() ==>
            exists|j: int| 0 <= j < terms.len() && image(terms[j]) == Some(#[trigger] mapped_terms(terms, image)[k]),
    decreases terms.len(),
{
    if terms.len() > 0 {
        let d = terms.drop_last();
        lemma_mapped_members(d, image);
        let md = mapped_terms(d, image);
        let m = mapped_terms(terms, image);
        assert forall|k: int| 0 <= k < m.len() implies
            exists|j: int| 0 <= j < terms.len() && image(terms[j]) == Some(#[trigger] m[k]) by {
            if k < md.len() {
                assert(m[k] == md[k]);
                let j = choose|j: int| 0 <= j < d.len() && image(d[j]) == Some(md[k]);
                assert(terms[j] == d[j]);
            } else {
                assert(image(terms[terms.len() - 1]) == Some(m[k]));
            }
        }
    }
}

/// Images of distinct terms that differ keep the monomials distinct.
proof fn lemma_mapped_distinct(terms: Seq<Term<u64>>, image: spec_fn(Term<u64>) -> Option<Term<u64>>)
    requires
        forall|a: int, b: int|
            0 <= a < terms.len() && 0 <= b < terms.len() && a != b && image(terms[a]) is Some && image(terms[b]) is Some
                ==> (#[trigger] image(terms[a]))->0.monomial.exponents@ != (#[trigger] image(terms[b]))->0.monomial.exponents@,
    ensures
        distinct_monomials(mapped_terms(terms, image)),
    decreases terms.len(),
{
    if terms.len() > 0 {
        let d = terms.drop_last();
        assert forall|a: int, b: int|
            0 <= a < d.len() && 0 <= b < d.len() && a != b && image(d[a]) is Some && image(d[b]) is Some
                implies (#[trigger] image(d[a]))->0.monomial.exponents@ != (#[trigger] image(d[b]))->0.monomial.exponents@ by {
            assert(d[a] == terms[a] && d[b] == terms[b]);
        }
        lemma_mapped_distinct(d, image);
        lemma_mapped_members(d, image);
        let md = mapped_terms(d, image);
        let l = terms.len() - 1;
        assert(terms.last() == terms[l]);
        match image(terms.last()) {
            Some(t) => {
                let m = md.push(t);
                assert forall|a: int, b: int|
                    0 <= a < m.len() && 0 <= b < m.len() && a != b implies #[trigger] m[a].monomial.exponents@
                    != #[trigger] m[b].monomial.exponents@ by {
                    if a < md.len() && b < md.len() {
                        assert(m[a] == md[a] && m[b] == md[b]);
                    } else {
                        let k = if a < md.len() { a } else { b };
                        assert(m[k] == md[k]);
                        let j = choose|j: int| 0 <= j < d.len() && image(d[j]) == Some(md[k]);
                        assert(d[j] == terms[j]);
                        assert(image(terms[j]) is Some && image(terms[l]) is Some);
                        assert(image(terms[j])->0.monomial.exponents@ != image(terms[l])->0.monomial.exponents@);
                    }
                }
            },
            None => {},
        }
    }
}

/// The images of one vector's terms (DADMU when `multiply`, else DADIU).
fn map_terms(terms: &Vec<Term<u64>>, i: usize, j: usize, multiply: bool, eps: u64) -> (r: Vec<Term<u64>>)
    requires
        i < 6,
        j < 6,
    ensures
        r@ == mapped_terms(terms@, if multiply { dadmu_image(i as int, j as int, eps) } else { dadiu_image(i as int, eps) }),
{
    let ghost image = if multiply { dadmu_image(i as int, j as int, eps) } else { dadiu_image(i as int, eps) };
    let mut r: Vec<Term<u64>> = Vec::new();
    let mut k: usize = 0;
    while k < terms.len()
        invariant
            k <= terms@.len(),
            i < 6,
            j < 6,
            image == (if multiply { dadmu_image(i as int, j as int, eps) } else { dadiu_image(i as int, eps) }),
            r@ == mapped_terms(terms@.take(k as int), image),
        decreases terms@.len() - k,
    {
        proof {
            assert(terms@.take(k + 1).drop_last() =~= terms@.take(k as int));
            assert(terms@.take(k + 1).last() == terms@[k as int]);
        }
        let t = terms[k];
        let e = t.monomial.exponents[i];
        if is_carried(t.coeff, eps) && e >= 1 {
            let mut x = t.monomial.exponents;
            x[i] = e - 1;
            if multiply {
                let f = x[j];
                x[j] = if f == 255 { 255 } else { f + 1 };
            }
            proof {
                let d = divide_exps(t.monomial.exponents, i as int);
                if multiply {
                    assert(x@ =~= shift_exps(t.monomial.exponents, i as int, j as int)@);
                } else {
                    assert(x@ =~= d@);
                }
            }
            r.push(Term { monomial: Monomial { exponents: x }, coeff: t.coeff });
        }
        k = k + 1;
    }
    proof {
        assert(terms@.take(k as int) =~= terms@);
    }
    r
}

/// Divisions of distinct monomials by one variable stay distinct.
proof fn lemma_dadiu_distinct(terms: Seq<Term<u64>>, i: int, eps: u64)
    requires
        0 <= i < 6,
        distinct_monomials(terms),
    ensures
        distinct_monomials(mapped_terms(terms, dadiu_image(i, eps))),
{
    let image = dadiu_image(i, eps);
    assert forall|a: int, b: int|
        0 <= a < terms.len() && 0 <= b < terms.len() && a != b && image(terms[a]) is Some && image(terms[b]) is Some
            implies (#[trigger] image(terms[a]))->0.monomial.exponents@ != (#[trigger] image(terms[b]))->0.monomial.exponents@ by {
        let ea = terms[a].monomial.exponents@;
        let eb = terms[b].monomial.exponents@;
        if image(terms[a])->0.monomial.exponents@ == image(terms[b])->0.monomial.exponents@ {
            assert forall|x: int| 0 <= x < 6 implies ea[x] == eb[x] by {
                assert(image(terms[a])->0.monomial.exponents@[x] == image(terms[b])->0.monomial.exponents@[x]);
            }
            assert(ea =~= eb);
        }
    }
    lemma_mapped_distinct(terms, image);
}

/// No term that DADMU carries has the exponent 255 in slot `j`.
pub open spec fn no_saturation(terms: Seq<Term<u64>>, i: int, j: int, eps: u64) -> bool {
    forall|k: int| 0 <= k < terms.len() && (#[trigger] dadmu_image(i, j, eps)(terms[k])) is Some
        ==> terms[k].monomial.exponents@[j] < 255
}

/// Shifts of distinct monomials stay distinct, unless an exponent saturates.
proof fn lemma_dadmu_distinct(terms: Seq<Term<u64>>, i: int, j: int, eps: u64)
    requires
        0 <= i < 6,
        0 <= j < 6,
        distinct_monomials(terms),
        i == j || no_saturation(terms, i, j, eps),
    ensures
        distinct_monomials(mapped_terms(terms, dadmu_image(i, j, eps))),
{
    let image = dadmu_image(i, j, eps);
    assert forall|a: int, b: int|
        0 <= a < terms.len() && 0 <= b < terms.len() && a != b && image(terms[a]) is Some && image(terms[b]) is Some
            implies (#[trigger] image(terms[a]))->0.monomial.exponents@ != (#[trigger] image(terms[b]))->0.monomial.exponents@ by {
        let ea = terms[a].monomial.exponents@;
        let eb = terms[b].monomial.exponents@;
        if image(terms[a])->0.monomial.exponents@ == image(terms[b])->0.monomial.exponents@ {
            assert forall|x: int| 0 <= x < 6 implies ea[x] == eb[x] by {
                assert(image(terms[a])->0.monomial.exponents@[x] == image(terms[b])->0.monomial.exponents@[x]);
                if i != j {
                    assert(i != j ==> ea[j] < 255 && eb[j] < 255);
                }
            }
            assert(ea =~= eb);
        }
    }
    lemma_mapped_distinct(terms, image);
}

/// The checks of a 1-based variable index.
fn check_var(v: usize, config: &DaConfig) -> (r: Result<(), DaError>)
    ensures
        r is Ok <==> 1 <= v <= config.num_vars,
        r is Err ==> r == Err::<(), DaError>(DaError::VariableIndexOutOfRange { index: v, num_vars: config.num_vars }),
{
    if v == 0 || v > config.num_vars {
        Err(DaError::VariableIndexOutOfRange { index: v, num_vars: config.num_vars })
    } else {
        Ok(())
    }
}

/// DADIU: divides every DA vector of `da_in` by `x_{var_idx}` (1-based). Terms with a
/// coefficient at most epsilon in magnitude, and terms without the variable, are dropped;
/// the others keep their coefficients. The result has one vector per input vector.
pub fn rosy_dadiu(var_idx: usize, da_in: &Vec<DA>, config: &DaConfig) -> (r: Result<Vec<DA>, DaError>)
    requires
        config.wf(),
    ensures
        match r {
            Ok(out) => {
                &&& 1 <= var_idx <= config.num_vars
                &&& out@.len() == da_in@.len()
                &&& forall|k: int| 0 <= k < da_in@.len() ==> (#[trigger] out@[k]).terms@
                    == mapped_terms(da_in@[k].terms@, dadiu_image(var_idx - 1, config.epsilon))
                &&& forall|k: int| 0 <= k < da_in@.len() && da_in@[k].wf() ==> (#[trigger] out@[k]).wf()
            },
            Err(e) => !(1 <= var_idx <= config.num_vars)
                && e == DaError::VariableIndexOutOfRange { index: var_idx, num_vars: config.num_vars },
        },
{
    check_var(var_idx, config)?;
    let i = var_idx - 1;
    let mut out: Vec<DA> = Vec::new();
    let mut k: usize = 0;
    while k < da_in.len()
        invariant
            k <= da_in@.len(),
            1 <= var_idx <= config.num_vars,
            config.wf(),
            i == var_idx - 1,
            out@.len() == k,
            forall|m: int| 0 <= m < k ==> (#[trigger] out@[m]).terms@
                == mapped_terms(da_in@[m].terms@, dadiu_image(i as int, config.epsilon)),
            forall|m: int| 0 <= m < k && da_in@[m].wf() ==> (#[trigger] out@[m]).wf(),
        decreases da_in@.len() - k,
    {
        let terms = map_terms(&da_in[k].terms, i, i, false, config.epsilon);
        proof {
            if da_in@[k as int].wf() {
                lemma_dadiu_distinct(da_in@[k as int].terms@, i as int, config.epsilon);
            }
        }
        out.push(GenericDA { terms });
        k = k + 1;
    }
    Ok(out)
}

/// DADMU: divides every DA vector of `da_in` by `x_{var_i}` and multiplies it by `x_{var_j}`
/// (1-based; an exponent of 255 stays 255). Terms with a coefficient at most epsilon in
/// magnitude, and terms without `x_{var_i}`, are dropped; the others keep their coefficients.
/// Only where an exponent saturates can two images share a monomial (the vectors are then
/// not well formed, and the runtime adds their coefficients).
pub fn rosy_dadmu(var_i: usize, var_j: usize, da_in: &Vec<DA>, config: &DaConfig) -> (r: Result<Vec<DA>, DaError>)
    requires
        config.wf(),
    ensures
        match r {
            Ok(out) => {
                &&& 1 <= var_i <= config.num_vars
                &&& 1 <= var_j <= config.num_vars
                &&& out@.len() == da_in@.len()
                &&& forall|k: int| 0 <= k < da_in@.len() ==> (#[trigger] out@[k]).terms@
                    == mapped_terms(da_in@[k].terms@, dadmu_image(var_i - 1, var_j - 1, config.epsilon))
                &&& forall|k: int| 0 <= k < da_in@.len() && da_in@[k].wf() && (var_i == var_j
                    || no_saturation(da_in@[k].terms@, var_i - 1, var_j - 1, config.epsilon))
                    ==> (#[trigger] out@[k]).wf()
            },
            Err(e) => if var_i == 0 {
                e == DaError::VariableIndexOutOfRange { index: var_i, num_vars: config.num_vars }
            } else if var_j == 0 {
                e == DaError::VariableIndexOutOfRange { index: var_j, num_vars: config.num_vars }
            } else if var_i > config.num_vars {
                e == DaError::VariableIndexOutOfRange { index: var_i, num_vars: config.num_vars }
            } else {
                var_j > config.num_vars && e == DaError::VariableIndexOutOfRange { index: var_j, num_vars: config.num_vars }
            },
        },
{
    if var_i == 0 {
        return Err(DaError::VariableIndexOutOfRange { index: var_i, num_vars: config.num_vars });
    }
    if var_j == 0 {
        return Err(DaError::VariableIndexOutOfRange { index: var_j, num_vars: config.num_vars });
    }
    check_var(var_i, config)?;
    check_var(var_j, config)?;
    let i = var_i - 1;
    let j = var_j - 1;
    let mut out: Vec<DA> = Vec::new();
    let mut k: usize = 0;
    while k < da_in.len()
        invariant
            k <= da_in@.len(),
            1 <= var_i <= config.num_vars,
            1 <= var_j <= config.num_vars,
            config.wf(),
            i == var_i - 1,
            j == var_j - 1,
            out@.len() == k,
            forall|m: int| 0 <= m < k ==> (#[trigger] out@[m]).terms@
                == mapped_terms(da_in@[m].terms@, dadmu_image(i as int, j as int, config.epsilon)),
            forall|m: int| 0 <= m < k && da_in@[m].wf() && (var_i == var_j
                || no_saturation(da_in@[m].terms@, i as int, j as int, config.epsilon)) ==> (#[trigger] out@[m]).wf(),
        decreases da_in@.len() - k,
    {
        let terms = map_terms(&da_in[k].terms, i, j, true, config.epsilon);
        proof {
            if da_in@[k as int].wf() && (var_i == var_j
                || no_saturation(da_in@[k as int].terms@, i as int, j as int, config.epsilon)) {
                lemma_dadmu_distinct(da_in@[k as int].terms@, i as int, j as int, config.epsilon);
            }
        }
        out.push(GenericDA { terms });
        k = k + 1;
    }
    Ok(out)
}

} // verus!
