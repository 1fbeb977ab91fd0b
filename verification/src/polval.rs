//! POLVAL: the Horner factorization that polynomial evaluation and composition share.
//!
//! Every monomial needed by a set of polynomials is reached from the constant monomial by
//! multiplying one variable at a time (its Horner parent times `x_v`), so evaluation at
//! particles and DA/CD composition compute each intermediate product once.

use vstd::prelude::*;
use crate::da::{CD, ComplexBits, DA, GenericDA};
use crate::value::{RosyValue, any_complex, cells_complex};
use crate::polval_any::PolvalAnySrc;
use crate::monomial::{
    Monomial, exps_first_nonzero, exps_horner_parent, exps_on_chain, exps_order, find_monomial,
    is_zero_exps,
};

verus! {

/// Reasons POLVAL refuses its arguments.
#[derive(Debug, Clone, PartialEq, Eq)]
pub enum PolvalError {
    /// `NP < NR`.
    NpLessThanNr { np: usize, nr: usize },
    /// More results requested than polynomials given.
    PolynomialArrayTooShort { len: usize },
    /// Fewer arguments given than `NA`.
    ArgumentArrayTooShort { len: usize, na: usize },
    /// A polynomial uses variable `var` (1-based) but only `na` arguments are given.
    VariableOutOfRange { var: usize, na: usize },
}

/// Compact Horner tree for the union of the monomials of several polynomials.
///
/// Node 0 is the constant monomial; node `c > 0` is node `parent[c]` times `x_{var[c]+1}`.
pub struct HornerPlan {
    pub nodes: Vec<Monomial>,
    pub parent: Vec<usize>,
    pub var: Vec<u8>,
}

/// Smallest variable slot `v >= na` with a positive exponent (six when there is none).
pub open spec fn offending_var(e: Seq<u8>, na: int) -> int
    decreases 6 - na,
{
    if na >= 6 {
        6
    } else if e[na] > 0 {
        na
    } else {
        offending_var(e, na + 1)
    }
}

pub open spec fn offends(e: Seq<u8>, na: int) -> bool {
    offending_var(e, na) < 6
}

/// Exponents of the terms of the first `nr` DA vectors: `[i][t]` is term `t` of vector `i`.
pub open spec fn da_exps<C>(p: Seq<GenericDA<C>>, nr: int) -> Seq<Seq<Seq<u8>>> {
    Seq::new(nr as nat, |i: int| Seq::new(p[i].terms@.len(), |t: int| p[i].terms@[t].monomial.exponents@))
}

/// `(p1, t1)` comes strictly before `(p2, t2)` in reading order.
pub open spec fn before(p1: int, t1: int, p2: int, t2: int) -> bool {
    p1 < p2 || (p1 == p2 && t1 < t2)
}

pub open spec fn valid_pos(polys: Seq<Seq<Seq<u8>>>, p: int, t: int) -> bool {
    0 <= p < polys.len() && 0 <= t < polys[p].len()
}

/// `e` lies on the Horner chain of some monomial of the polynomials.
pub open spec fn on_some_chain(e: Seq<u8>, polys: Seq<Seq<Seq<u8>>>) -> bool {
    exists|p2: int, t2: int|
        #[trigger] valid_pos(polys, p2, t2) && exps_on_chain(e, polys[p2][t2])
}

/// `e` lies on the Horner chain of some monomial read before position `(bp, bt)`.
pub open spec fn covered_by(e: Seq<u8>, polys: Seq<Seq<Seq<u8>>>, bp: int, bt: int) -> bool {
    exists|p2: int, t2: int|
        #[trigger] valid_pos(polys, p2, t2) && before(p2, t2, bp, bt) && exps_on_chain(
            e,
            polys[p2][t2],
        )
}

proof fn lemma_covered_later(e: Seq<u8>, polys: Seq<Seq<Seq<u8>>>, p1: int, t1: int, p2: int, t2: int)
    requires
        covered_by(e, polys, p1, t1),
        p1 < p2 || (p1 == p2 && t1 <= t2),
    ensures
        covered_by(e, polys, p2, t2),
{
    let (a, b) = choose|a: int, b: int|
        #[trigger] valid_pos(polys, a, b) && before(a, b, p1, t1) && exps_on_chain(
            e,
            polys[a][b],
        );
    assert(valid_pos(polys, a, b) && before(a, b, p2, t2));
}

impl HornerPlan {
    /// The tree shape: root first, parents before children, each node its parent times one
    /// variable below `na`, no monomial twice.
    pub open spec fn wf(&self, na: int) -> bool {
        &&& self.nodes@.len() == self.parent@.len()
        &&& self.nodes@.len() == self.var@.len()
        &&& self.nodes@.len() >= 1
        &&& is_zero_exps(self.nodes@[0].exponents@)
        &&& self.parent@[0] == 0
        &&& self.var@[0] == 0
        &&& forall|c: int|
            1 <= c < self.nodes@.len() ==> {
                &&& #[trigger] self.parent@[c] < c
                &&& self.var@[c] == exps_first_nonzero(self.nodes@[c].exponents@)
                &&& self.var@[c] < na
                &&& self.nodes@[self.parent@[c] as int].exponents@ == exps_horner_parent(
                    self.nodes@[c].exponents@,
                )
            }
        &&& forall|c1: int, c2: int|
            0 <= c1 < self.nodes@.len() && 0 <= c2 < self.nodes@.len() && c1 != c2
                ==> #[trigger] self.nodes@[c1].exponents@ != #[trigger] self.nodes@[c2].exponents@
    }

    /// The node holding monomial `e`, if any.
    pub open spec fn holds(&self, e: Seq<u8>) -> bool {
        exists|c: int| 0 <= c < self.nodes@.len() && #[trigger] self.nodes@[c].exponents@ == e
    }
}

/// Smallest variable slot at or after `na` with a positive exponent, or six.
fn first_offending_var(m: &Monomial, na: usize) -> (r: usize)
    ensures
        r == offending_var(m.exponents@, na as int),
    decreases 6 - na,
{
    if na >= 6 {
        6
    } else if m.exponents[na] > 0 {
        na
    } else {
        first_offending_var(m, na + 1)
    }
}

proof fn lemma_offending_var_bounds(e: Seq<u8>, na: int)
    requires
        e.len() == 6,
        na >= 0,
    ensures
        offending_var(e, na) >= na || offending_var(e, na) == 6,
        offending_var(e, na) <= 6,
        offending_var(e, na) < 6 ==> e[offending_var(e, na)] > 0,
        !offends(e, na) ==> forall|v: int| na <= v < 6 ==> e[v] == 0,
    decreases 6 - na,
{
    if na < 6 && e[na] == 0 {
        lemma_offending_var_bounds(e, na + 1);
    }
}

proof fn lemma_chain_step(a: Seq<u8>, m: Seq<u8>)
    requires
        m.len() == 6,
        exps_first_nonzero(m) < 6,
        exps_on_chain(a, exps_horner_parent(m)),
    ensures
        exps_on_chain(a, m),
{
}

/// Adds `m` and its missing Horner ancestors to the plan; returns the node of `m`.
fn insert_chain(plan: &mut HornerPlan, m: Monomial, Ghost(na): Ghost<int>) -> (r: usize)
    requires
        old(plan).wf(na),
        m.exponents@.len() == 6,
        forall|v: int| na <= v < 6 ==> m.exponents@[v] == 0,
    ensures
        final(plan).wf(na),
        r < final(plan).nodes@.len(),
        final(plan).nodes@[r as int].exponents@ == m.exponents@,
        final(plan).nodes@.len() >= old(plan).nodes@.len(),
        forall|c: int|
            0 <= c < old(plan).nodes@.len() ==> #[trigger] final(plan).nodes@[c] == old(plan).nodes@[c],
        forall|c: int|
            old(plan).nodes@.len() <= c < final(plan).nodes@.len() ==> exps_on_chain(
                #[trigger] final(plan).nodes@[c].exponents@,
                m.exponents@,
            ),
    decreases m.order(),
{
    match find_monomial(&plan.nodes, &m) {
        Some(i) => i,
        None => {
            let v = m.first_nonzero();
            if v >= 6 {
                // `m` is the constant monomial, which node 0 holds.
                assert(m.exponents@ =~= plan.nodes@[0].exponents@);
                assert(false);
                return 0;
            }
            let p = m.horner_parent();
            proof {
                assert forall|u: int| na <= u < 6 implies p.exponents@[u] == 0 by {
                    assert(p.exponents@[u] == (if u == v { (m.exponents@[u] - 1) as u8 } else {
                        m.exponents@[u]
                    }));
                }
            }
            let ghost before_len = plan.nodes@.len();
            let pi = insert_chain(plan, p, Ghost(na));
            let ghost mid = plan.nodes@;
            proof {
                // `m` is still absent: the new nodes lie on the chain of `p`, strictly below `m`.
                assert forall|c: int| 0 <= c < mid.len() implies mid[c].exponents@ != m.exponents@ by {
                    if c >= before_len {
                        lemma_chain_order(mid[c].exponents@, p.exponents@);
                    }
                }
            }
            plan.nodes.push(m);
            plan.parent.push(pi);
            plan.var.push(v as u8);
            let r = plan.nodes.len() - 1;
            proof {
                let n = plan.nodes@;
                assert(n[r as int] == m);
                assert forall|c: int| before_len <= c < n.len() implies exps_on_chain(
                    #[trigger] n[c].exponents@,
                    m.exponents@,
                ) by {
                    if c < r {
                        lemma_chain_step(n[c].exponents@, m.exponents@);
                    }
                }
                assert forall|c: int| 1 <= c < n.len() implies {
                    &&& #[trigger] plan.parent@[c] < c
                    &&& plan.var@[c] == exps_first_nonzero(n[c].exponents@)
                    &&& plan.var@[c] < na
                    &&& n[plan.parent@[c] as int].exponents@ == exps_horner_parent(n[c].exponents@)
                } by {
                    if c == r {
                        assert(m.exponents@[v as int] > 0);
                    } else {
                        assert(mid[c] == n[c]);
                    }
                }
                assert forall|c1: int, c2: int|
                    0 <= c1 < n.len() && 0 <= c2 < n.len() && c1 != c2 implies #[trigger] n[c1].exponents@
                    != #[trigger] n[c2].exponents@ by {
                    if c1 < r && c2 < r {
                        assert(mid[c1] == n[c1] && mid[c2] == n[c2]);
                    } else if c1 == r {
                        assert(mid[c2] == n[c2]);
                    } else {
                        assert(mid[c1] == n[c1]);
                    }
                }
            }
            r
        },
    }
}

/// Every monomial on the Horner chain of `m` has order at most that of `m`, with equality only
/// for `m` itself.
proof fn lemma_chain_order(a: Seq<u8>, m: Seq<u8>)
    requires
        m.len() == 6,
        exps_on_chain(a, m),
    ensures
        a.len() == 6,
        exps_order(a) <= exps_order(m),
        exps_order(a) == exps_order(m) ==> a == m,
    decreases exps_order(m),
{
    if a != m {
        let p = exps_horner_parent(m);
        lemma_chain_order(a, p);
    }
}

/// The plan is a Horner tree that holds every monomial of `e`, none of which uses a variable
/// at or beyond `na`, and whose nodes all lie on the chain of one of them.
pub open spec fn plan_covers(plan: HornerPlan, e: Seq<Seq<Seq<u8>>>, na: int) -> bool {
    &&& plan.wf(na)
    &&& forall|p: int, t: int| #[trigger] valid_pos(e, p, t) ==> !offends(e[p][t], na)
    &&& forall|p: int, t: int| valid_pos(e, p, t) ==> plan.holds(#[trigger] e[p][t])
    &&& forall|c: int| 1 <= c < plan.nodes@.len() ==> on_some_chain(#[trigger] plan.nodes@[c].exponents@, e)
}

/// `err` reports the first monomial of `e` (in reading order) that uses a variable at or
/// beyond `na`, and the smallest such variable, 1-based.
pub open spec fn plan_refusal(e: Seq<Seq<Seq<u8>>>, na: usize, err: PolvalError) -> bool {
    exists|p: int, t: int|
        {
            &&& #[trigger] valid_pos(e, p, t)
            &&& offends(e[p][t], na as int)
            &&& err == PolvalError::VariableOutOfRange {
                var: (offending_var(e[p][t], na as int) + 1) as usize,
                na,
            }
            &&& forall|p2: int, t2: int|
                #[trigger] valid_pos(e, p2, t2) && before(p2, t2, p, t) ==> !offends(e[p2][t2], na as int)
        }
}

/// Builds the Horner tree of every monomial the polynomials use.
///
/// Refuses the first monomial (in reading order) that uses a variable at or beyond `na`,
/// reporting the smallest such variable, 1-based.
pub fn horner_plan_from_nonzero<C: Copy>(polys: &Vec<GenericDA<C>>, nr: usize, na: usize) -> (res: Result<
    HornerPlan,
    PolvalError,
>)
    requires
        nr <= polys@.len(),
    ensures
        match res {
            Ok(plan) => plan_covers(plan, da_exps(polys@, nr as int), na as int),
            Err(err) => plan_refusal(da_exps(polys@, nr as int), na, err),
        },
{
    let ghost e = da_exps(polys@, nr as int);
    let mut plan = HornerPlan {
        nodes: Vec::new(),
        parent: Vec::new(),
        var: Vec::new(),
    };
    plan.nodes.push(Monomial::constant());
    plan.parent.push(0);
    plan.var.push(0);
    let mut p: usize = 0;
    while p < nr
        invariant
            p <= nr,
            nr <= polys@.len(),
            e == da_exps(polys@, nr as int),
            plan.wf(na as int),
            forall|p2: int, t2: int| #[trigger]
                valid_pos(e, p2, t2) && p2 < p ==> !offends(e[p2][t2], na as int),
            forall|p2: int, t2: int|
                valid_pos(e, p2, t2) && p2 < p ==> plan.holds(#[trigger] e[p2][t2]),
            forall|c: int|
                1 <= c < plan.nodes@.len() ==> covered_by(
                    #[trigger] plan.nodes@[c].exponents@,
                    e,
                    p as int,
                    0,
                ),
        decreases nr - p,
    {
        let terms = &polys[p].terms;
        let mut t: usize = 0;
        while t < terms.len()
            invariant
                p < nr,
                terms@ == polys@[p as int].terms@,
                nr <= polys@.len(),
                e == da_exps(polys@, nr as int),
                t <= terms@.len(),
                plan.wf(na as int),
                forall|p2: int, t2: int| #[trigger]
                    valid_pos(e, p2, t2) && before(p2, t2, p as int, t as int) ==> !offends(
                        e[p2][t2],
                        na as int,
                    ),
                forall|p2: int, t2: int|
                    valid_pos(e, p2, t2) && before(p2, t2, p as int, t as int) ==> plan.holds(
                        #[trigger] e[p2][t2],
                    ),
                forall|c: int|
                    1 <= c < plan.nodes@.len() ==> covered_by(
                        #[trigger] plan.nodes@[c].exponents@,
                        e,
                        p as int,
                        t as int,
                    ),
            decreases terms@.len() - t,
        {
            let m = terms[t].monomial;
            proof {
                assert(valid_pos(e, p as int, t as int));
            }
            let bad = first_offending_var(&m, na);
            if bad < 6 {
                proof {
                    assert(valid_pos(e, p as int, t as int));
                }
                return Err(PolvalError::VariableOutOfRange { var: bad + 1, na });
            }
            proof {
                lemma_offending_var_bounds(m.exponents@, na as int);
            }
            let ghost old_plan = plan;
            let ghost pt = (p as int, t as int);
            let _ = insert_chain(&mut plan, m, Ghost(na as int));
            proof {
                assert forall|c: int| 1 <= c < plan.nodes@.len() implies covered_by(
                    #[trigger] plan.nodes@[c].exponents@,
                    e,
                    p as int,
                    t + 1,
                ) by {
                    if c < old_plan.nodes@.len() {
                        assert(plan.nodes@[c] == old_plan.nodes@[c]);
                        lemma_covered_later(plan.nodes@[c].exponents@, e, p as int, t as int, p as int, t + 1);
                    } else {
                        assert(valid_pos(e, p as int, t as int));
                        assert(before(p as int, t as int, p as int, t + 1));
                    }
                }
                assert forall|p2: int, t2: int|
                    valid_pos(e, p2, t2) && before(p2, t2, p as int, t + 1) implies plan.holds(
                        #[trigger] e[p2][t2],
                    ) by {
                    if before(p2, t2, p as int, t as int) {
                        let c = choose|c: int|
                            0 <= c < old_plan.nodes@.len() && #[trigger] old_plan.nodes@[c].exponents@
                                == e[p2][t2];
                        assert(plan.nodes@[c] == old_plan.nodes@[c]);
                    }
                }
            }
            t = t + 1;
        }
        proof {
            assert forall|c: int| 1 <= c < plan.nodes@.len() implies covered_by(
                #[trigger] plan.nodes@[c].exponents@,
                e,
                p + 1,
                0,
            ) by {
                lemma_covered_later(plan.nodes@[c].exponents@, e, p as int, t as int, p + 1, 0);
            }
        }
        p = p + 1;
    }
    proof {
        assert forall|c: int| 1 <= c < plan.nodes@.len() implies on_some_chain(
            #[trigger] plan.nodes@[c].exponents@,
            e,
            ) by {
            assert(covered_by(plan.nodes@[c].exponents@, e, p as int, 0));
            let (a, b) = choose|a: int, b: int|
                #[trigger] valid_pos(e, a, b) && before(a, b, p as int, 0) && exps_on_chain(
                    plan.nodes@[c].exponents@,
                    e[a][b],
                );
            assert(valid_pos(e, a, b));
        }
    }
    Ok(plan)
}

/// One term of a polynomial as evaluation uses it: its coefficient and the Horner node
/// holding its monomial.
#[derive(Clone, Copy)]
pub struct DotTerm<C> {
    pub coeff: C,
    pub node: usize,
}

/// What POLVAL evaluates: the shared Horner tree, and for each polynomial its terms
/// against the tree's nodes. Result `i` is the sum over `dots[i]` of `coeff` times the value
/// of node `node`; node 0 has value one and node `c > 0` is the value of node `parent[c]`
/// times argument `var[c]`.
pub struct PolvalPlan<C> {
    pub horner: HornerPlan,
    pub dots: Vec<Vec<DotTerm<C>>>,
}

/// `dots` lists, for each of the first `nr` polynomials, its terms in order with the node of
/// the tree holding each term's monomial.
pub open spec fn dots_match<C>(dots: Seq<Vec<DotTerm<C>>>, polys: Seq<GenericDA<C>>, nr: int, plan: HornerPlan) -> bool {
    &&& dots.len() == nr
    &&& forall|i: int|
        0 <= i < nr ==> (#[trigger] dots[i])@.len() == polys[i].terms@.len()
    &&& forall|i: int, t: int|
        0 <= i < nr && 0 <= t < polys[i].terms@.len() ==> {
            &&& (#[trigger] dots[i]@[t]).coeff == polys[i].terms@[t].coeff
            &&& dots[i]@[t].node < plan.nodes@.len()
            &&& plan.nodes@[dots[i]@[t].node as int].exponents@ == polys[i].terms@[t].monomial.exponents@
        }
}

/// The plan of the first `nr` polynomials: refused when one of their monomials uses a
/// variable at or beyond `na`.
pub fn polval_plan<C: Copy>(polys: &Vec<GenericDA<C>>, nr: usize, na: usize) -> (r: Result<PolvalPlan<C>, PolvalError>)
    requires
        nr <= polys@.len(),
    ensures
        match r {
            Ok(plan) => plan_covers(plan.horner, da_exps(polys@, nr as int), na as int)
                && dots_match(plan.dots@, polys@, nr as int, plan.horner),
            Err(err) => plan_refusal(da_exps(polys@, nr as int), na, err),
        },
{
    let horner = match horner_plan_from_nonzero(polys, nr, na) {
        Ok(h) => h,
        Err(e) => {
            return Err(e);
        },
    };
    let ghost e = da_exps(polys@, nr as int);
    let mut dots: Vec<Vec<DotTerm<C>>> = Vec::new();
    let mut i: usize = 0;
    while i < nr
        invariant
            i <= nr,
            nr <= polys@.len(),
            e == da_exps(polys@, nr as int),
            plan_covers(horner, e, na as int),
            dots@.len() == i,
            forall|k: int| 0 <= k < i ==> (#[trigger] dots@[k])@.len() == polys@[k].terms@.len(),
            forall|k: int, t: int|
                0 <= k < i && 0 <= t < polys@[k].terms@.len() ==> {
                    &&& (#[trigger] dots@[k]@[t]).coeff == polys@[k].terms@[t].coeff
                    &&& dots@[k]@[t].node < horner.nodes@.len()
                    &&& horner.nodes@[dots@[k]@[t].node as int].exponents@
                        == polys@[k].terms@[t].monomial.exponents@
                },
        decreases nr - i,
    {
        let terms = &polys[i].terms;
        let mut row: Vec<DotTerm<C>> = Vec::new();
        let mut t: usize = 0;
        while t < terms.len()
            invariant
                i < nr,
                nr <= polys@.len(),
                terms@ == polys@[i as int].terms@,
                e == da_exps(polys@, nr as int),
                plan_covers(horner, e, na as int),
                t <= terms@.len(),
                row@.len() == t,
                forall|q: int|
                    0 <= q < t ==> {
                        &&& (#[trigger] row@[q]).coeff == terms@[q].coeff
                        &&& row@[q].node < horner.nodes@.len()
                        &&& horner.nodes@[row@[q].node as int].exponents@ == terms@[q].monomial.exponents@
                    },
            decreases terms@.len() - t,
        {
            let m = terms[t].monomial;
            proof {
                assert(valid_pos(e, i as int, t as int));
                assert(horner.holds(e[i as int][t as int]));
            }
            let found = find_monomial(&horner.nodes, &m);
            proof {
                if found is None {
                    let c = choose|c: int|
                        0 <= c < horner.nodes@.len() && #[trigger] horner.nodes@[c].exponents@
                            == e[i as int][t as int];
                    assert(horner.nodes@[c].exponents@ == m.exponents@);
                }
            }
            let c = found.unwrap();
            row.push(DotTerm { coeff: terms[t].coeff, node: c });
            t = t + 1;
        }
        dots.push(row);
        i = i + 1;
    }
    Ok(PolvalPlan { horner, dots })
}

/// POLVAL on real arguments: refused when `NP < NR`, when fewer than `NR` polynomials are
/// given, or when a monomial of the first `NR` uses a variable beyond `NA`; arguments past
/// the end of the argument array count as zero, so its length is not checked.
pub fn rosy_polval_re(p: &Vec<DA>, np: usize, na: usize, nr: usize) -> (r: Result<PolvalPlan<u64>, PolvalError>)
    ensures
        match r {
            Ok(plan) => np >= nr && nr <= p@.len() && plan_covers(plan.horner, da_exps(p@, nr as int), na as int)
                && dots_match(plan.dots@, p@, nr as int, plan.horner),
            Err(err) => if np < nr {
                err == PolvalError::NpLessThanNr { np, nr }
            } else if nr > p@.len() {
                err == PolvalError::PolynomialArrayTooShort { len: p@.len() as usize }
            } else {
                plan_refusal(da_exps(p@, nr as int), na, err)
            },
        },
{
    if np < nr {
        return Err(PolvalError::NpLessThanNr { np, nr });
    }
    if nr > p.len() {
        return Err(PolvalError::PolynomialArrayTooShort { len: p.len() });
    }
    polval_plan(p, nr, na)
}

/// The checks POLVAL makes on DA, CD and particle arguments, in order: `NP >= NR`, at least
/// `NA` arguments, at least `NR` polynomials; then the plan.
pub fn polval_checked<C: Copy>(p: &Vec<GenericDA<C>>, np: usize, a_len: usize, na: usize, nr: usize) -> (r: Result<PolvalPlan<C>, PolvalError>)
    ensures
        match r {
            Ok(plan) => np >= nr && a_len >= na && nr <= p@.len() && plan_covers(plan.horner, da_exps(p@, nr as int), na as int)
                && dots_match(plan.dots@, p@, nr as int, plan.horner),
            Err(err) => if np < nr {
                err == PolvalError::NpLessThanNr { np, nr }
            } else if a_len < na {
                err == PolvalError::ArgumentArrayTooShort { len: a_len, na }
            } else if nr > p@.len() {
                err == PolvalError::PolynomialArrayTooShort { len: p@.len() as usize }
            } else {
                plan_refusal(da_exps(p@, nr as int), na, err)
            },
        },
{
    if np < nr {
        return Err(PolvalError::NpLessThanNr { np, nr });
    }
    if a_len < na {
        return Err(PolvalError::ArgumentArrayTooShort { len: a_len, na });
    }
    if nr > p.len() {
        return Err(PolvalError::PolynomialArrayTooShort { len: p.len() });
    }
    polval_plan(p, nr, na)
}

/// POLVAL with particle arguments (`a_len` argument columns): see `polval_checked`.
pub fn rosy_polval_ve(p: &Vec<DA>, np: usize, a_len: usize, na: usize, nr: usize) -> (r: Result<PolvalPlan<u64>, PolvalError>)
    ensures
        match r {
            Ok(plan) => np >= nr && a_len >= na && nr <= p@.len() && plan_covers(plan.horner, da_exps(p@, nr as int), na as int)
                && dots_match(plan.dots@, p@, nr as int, plan.horner),
            Err(err) => if np < nr {
                err == PolvalError::NpLessThanNr { np, nr }
            } else if a_len < na {
                err == PolvalError::ArgumentArrayTooShort { len: a_len, na }
            } else if nr > p@.len() {
                err == PolvalError::PolynomialArrayTooShort { len: p@.len() as usize }
            } else {
                plan_refusal(da_exps(p@, nr as int), na, err)
            },
        },
{
    polval_checked(p, np, a_len, na, nr)
}

/// POLVAL composing DA vectors (`a_len` DA arguments): see `polval_checked`.
pub fn rosy_polval_da(p: &Vec<DA>, np: usize, a_len: usize, na: usize, nr: usize) -> (r: Result<PolvalPlan<u64>, PolvalError>)
    ensures
        match r {
            Ok(plan) => np >= nr && a_len >= na && nr <= p@.len() && plan_covers(plan.horner, da_exps(p@, nr as int), na as int)
                && dots_match(plan.dots@, p@, nr as int, plan.horner),
            Err(err) => if np < nr {
                err == PolvalError::NpLessThanNr { np, nr }
            } else if a_len < na {
                err == PolvalError::ArgumentArrayTooShort { len: a_len, na }
            } else if nr > p@.len() {
                err == PolvalError::PolynomialArrayTooShort { len: p@.len() as usize }
            } else {
                plan_refusal(da_exps(p@, nr as int), na, err)
            },
        },
{
    polval_checked(p, np, a_len, na, nr)
}

/// CPOLVAL, composing complex DA vectors (`a_len` CD arguments): see `polval_checked`.
pub fn rosy_polval_cd(p: &Vec<CD>, np: usize, a_len: usize, na: usize, nr: usize) -> (r: Result<PolvalPlan<ComplexBits>, PolvalError>)
    ensures
        match r {
            Ok(plan) => np >= nr && a_len >= na && nr <= p@.len() && plan_covers(plan.horner, da_exps(p@, nr as int), na as int)
                && dots_match(plan.dots@, p@, nr as int, plan.horner),
            Err(err) => if np < nr {
                err == PolvalError::NpLessThanNr { np, nr }
            } else if a_len < na {
                err == PolvalError::ArgumentArrayTooShort { len: a_len, na }
            } else if nr > p@.len() {
                err == PolvalError::PolynomialArrayTooShort { len: p@.len() as usize }
            } else {
                plan_refusal(da_exps(p@, nr as int), na, err)
            },
        },
{
    polval_checked(p, np, a_len, na, nr)
}

/// Which evaluation POLVAL on untyped cells performs.
#[derive(Debug, Clone, Copy, PartialEq, Eq)]
pub enum PolvalRoute {
    /// Complex composition (CPOLVAL): some polynomial or argument cell is complex.
    Complex,
    /// DA composition: the first argument is a DA vector.
    Da,
    /// Evaluation at particles: the first argument is an array or a vector.
    Particles,
    /// Evaluation at one real point: every other case.
    Real,
}

pub open spec fn polval_route_spec(p: Seq<RosyValue>, a: Seq<RosyValue>) -> PolvalRoute {
    if any_complex(p, p.len() as int) || any_complex(a, a.len() as int) {
        PolvalRoute::Complex
    } else if a.len() > 0 && a[0] is DA {
        PolvalRoute::Da
    } else if a.len() > 0 && (a[0] is Arr || a[0] is VE) {
        PolvalRoute::Particles
    } else {
        PolvalRoute::Real
    }
}

/// POLVAL on untyped arrays: refused when `NP < NR` (whichever evaluation would run, its
/// first check); otherwise reads both arrays as cells and decides between complex
/// composition, DA composition, evaluation at particles and evaluation at a real point.
/// Returns the decision with the polynomial and argument cells it was made on.
pub fn rosy_polval_any<P: PolvalAnySrc, A: PolvalAnySrc>(p_array: &P, np: usize, a_array: &A, nr: usize) -> (r: Result<
    (PolvalRoute, Vec<RosyValue>, Vec<RosyValue>),
    PolvalError,
>)
    ensures
        np < nr ==> r == Err::<(PolvalRoute, Vec<RosyValue>, Vec<RosyValue>), PolvalError>(
            PolvalError::NpLessThanNr { np, nr },
        ),
        np >= nr ==> (r matches Ok((route, p_cells, a_cells)) && p_array.stands_for(p_cells@)
            && a_array.stands_for(a_cells@) && route == polval_route_spec(p_cells@, a_cells@)),
{
    let a_cells = a_array.polval_any_cells();
    let p_cells = p_array.polval_any_cells();
    let route = polval_route(&p_cells, &a_cells);
    if np < nr {
        return Err(PolvalError::NpLessThanNr { np, nr });
    }
    Ok((route, p_cells, a_cells))
}

/// The decision of `rosy_polval_any` on given cells.
pub fn polval_route(p_cells: &Vec<RosyValue>, a_cells: &Vec<RosyValue>) -> (r: PolvalRoute)
    ensures
        r == polval_route_spec(p_cells@, a_cells@),
{
    if cells_complex(p_cells) || cells_complex(a_cells) {
        PolvalRoute::Complex
    } else if a_cells.len() > 0 {
        match &a_cells[0] {
            RosyValue::DA(_) => PolvalRoute::Da,
            RosyValue::Arr(_) | RosyValue::VE(_) => PolvalRoute::Particles,
            _ => PolvalRoute::Real,
        }
    } else {
        PolvalRoute::Real
    }
}

} // verus!
