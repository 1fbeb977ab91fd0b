//! DA vectors: truncated power series stored as (monomial, coefficient) terms.
//!
//! Real coefficients are carried as IEEE-754 binary64 bit patterns and complex ones as a pair
//! of such patterns; the library moves, selects, negates and compares them, and leaves the
//! arithmetic on them to its caller.

use vstd::prelude::*;
use crate::monomial::{Monomial, find_monomial};

verus! {

/// Sign bit of a binary64 pattern.
pub const SIGN_BIT: u64 = 0x8000_0000_0000_0000;

/// Every bit of a binary64 pattern but the sign.
pub const MAGNITUDE_BITS: u64 = 0x7fff_ffff_ffff_ffff;

/// Bit pattern of positive infinity.
pub const INFINITY_BITS: u64 = 0x7ff0_0000_0000_0000;

/// Bit pattern of `1.0`.
pub const ONE_BITS: u64 = 0x3ff0_0000_0000_0000;

/// The pattern encodes a NaN.
pub open spec fn is_nan_bits(b: u64) -> bool {
    b & MAGNITUDE_BITS > INFINITY_BITS
}

/// For patterns that are not NaN, this key orders them as the reals they encode
/// (both zeros get key 0).
pub open spec fn order_key(b: u64) -> int {
    if b & SIGN_BIT != 0 {
        -((b & MAGNITUDE_BITS) as int)
    } else {
        (b & MAGNITUDE_BITS) as int
    }
}

/// `|c| > e` for the reals the two patterns encode (false when either is NaN).
pub open spec fn abs_gt_bits(c: u64, e: u64) -> bool {
    !is_nan_bits(c) && !is_nan_bits(e) && (c & MAGNITUDE_BITS) as int > order_key(e)
}

/// Executable `|c| > e` on binary64 patterns.
pub fn abs_gt(c: u64, e: u64) -> (r: bool)
    ensures
        r == abs_gt_bits(c, e),
{
    let cm = c & MAGNITUDE_BITS;
    let em = e & MAGNITUDE_BITS;
    if cm > INFINITY_BITS || em > INFINITY_BITS {
        false
    } else if e & SIGN_BIT != 0 {
        cm != 0 || em != 0
    } else {
        cm > em
    }
}

/// A complex coefficient: real and imaginary binary64 patterns.
#[derive(Clone, Copy)]
pub struct ComplexBits {
    pub re: u64,
    pub im: u64,
}

/// One term of a DA vector.
#[derive(Clone, Copy)]
pub struct Term<C> {
    pub monomial: Monomial,
    pub coeff: C,
}

/// A truncated power series: its nonzero terms, each monomial at most once.
#[derive(Clone)]
pub struct GenericDA<C> {
    pub terms: Vec<Term<C>>,
}

/// Real DA vector.
pub type DA = GenericDA<u64>;

/// Complex DA vector.
pub type CD = GenericDA<ComplexBits>;

/// Settings of the DA system the operations run under.
pub struct DaConfig {
    /// Number of DA variables (at most six).
    pub num_vars: usize,
    /// Truncation order.
    pub max_order: u32,
    /// Coefficients with `|c| <= epsilon` count as zero (binary64 pattern).
    pub epsilon: u64,
}

impl DaConfig {
    pub open spec fn wf(&self) -> bool {
        self.num_vars <= 6
    }
}

/// Monomials of a term sequence are pairwise distinct.
pub open spec fn distinct_monomials<C>(terms: Seq<Term<C>>) -> bool {
    forall|i: int, j: int|
        0 <= i < terms.len() && 0 <= j < terms.len() && i != j ==> #[trigger] terms[i].monomial.exponents@
            != #[trigger] terms[j].monomial.exponents@
}

/// Coefficient of monomial `e` among the terms, if present.
pub open spec fn coeff_in<C>(terms: Seq<Term<C>>, e: Seq<u8>) -> Option<C>
    decreases terms.len(),
{
    if terms.len() == 0 {
        None
    } else if terms.last().monomial.exponents@ == e {
        Some(terms.last().coeff)
    } else {
        coeff_in(terms.drop_last(), e)
    }
}

/// Real coefficient of `e`, zero when absent.
pub open spec fn real_coeff(terms: Seq<Term<u64>>, e: Seq<u8>) -> u64 {
    match coeff_in(terms, e) {
        Some(c) => c,
        None => 0,
    }
}

proof fn lemma_coeff_in_index<C>(terms: Seq<Term<C>>, e: Seq<u8>)
    ensures
        match coeff_in(terms, e) {
            Some(c) => exists|i: int|
                0 <= i < terms.len() && #[trigger] terms[i].monomial.exponents@ == e && terms[i].coeff
                    == c,
            None => forall|i: int| 0 <= i < terms.len() ==> #[trigger] terms[i].monomial.exponents@ != e,
        },
    decreases terms.len(),
{
    if terms.len() > 0 {
        lemma_coeff_in_index(terms.drop_last(), e);
        if terms.last().monomial.exponents@ != e {
            match coeff_in(terms.drop_last(), e) {
                Some(c) => {
                    let i = choose|i: int|
                        0 <= i < terms.drop_last().len() && #[trigger] terms.drop_last()[i].monomial.exponents@
                            == e && terms.drop_last()[i].coeff == c;
                    assert(terms[i] == terms.drop_last()[i]);
                },
                None => {
                    assert forall|i: int| 0 <= i < terms.len() implies #[trigger] terms[i].monomial.exponents@
                        != e by {
                        if i < terms.len() - 1 {
                            assert(terms[i] == terms.drop_last()[i]);
                        }
                    }
                },
            }
        }
    }
}

/// With distinct monomials, the coefficient found is the one at the monomial's position.
pub proof fn lemma_coeff_at<C>(terms: Seq<Term<C>>, i: int)
    requires
        distinct_monomials(terms),
        0 <= i < terms.len(),
    ensures
        coeff_in(terms, terms[i].monomial.exponents@) == Some(terms[i].coeff),
    decreases terms.len(),
{
    if i < terms.len() - 1 {
        let d = terms.drop_last();
        assert(d[i] == terms[i]);
        assert(distinct_monomials(d)) by {
            assert forall|a: int, b: int|
                0 <= a < d.len() && 0 <= b < d.len() && a != b implies #[trigger] d[a].monomial.exponents@
                != #[trigger] d[b].monomial.exponents@ by {
                assert(d[a] == terms[a] && d[b] == terms[b]);
            }
        }
        assert(terms.last() == terms[terms.len() - 1]);
        lemma_coeff_at(d, i);
    }
}

impl<C> GenericDA<C> {
    pub open spec fn wf(&self) -> bool {
        distinct_monomials(self.terms@)
    }

    /// The DA vector with no terms.
    pub fn zero() -> (r: Self)
        ensures
            r.terms@.len() == 0,
    {
        GenericDA { terms: Vec::new() }
    }

    /// No term at all.
    pub fn is_zero(&self) -> (r: bool)
        ensures
            r == (self.terms@.len() == 0),
    {
        self.terms.len() == 0
    }
}

impl GenericDA<u64> {
    /// Coefficient of `m` (the pattern of `0.0` when absent).
    pub fn get_coeff(&self, m: &Monomial) -> (r: u64)
        requires
            self.wf(),
        ensures
            r == real_coeff(self.terms@, m.exponents@),
    {
        let mut i: usize = 0;
        while i < self.terms.len()
            invariant
                i <= self.terms@.len(),
                self.wf(),
                forall|j: int| 0 <= j < i ==> self.terms@[j].monomial.exponents@ != m.exponents@,
            decreases self.terms@.len() - i,
        {
            if self.terms[i].monomial.same(m) {
                proof {
                    lemma_coeff_at(self.terms@, i as int);
                }
                return self.terms[i].coeff;
            }
            i = i + 1;
        }
        proof {
            lemma_coeff_in_index(self.terms@, m.exponents@);
            if coeff_in(self.terms@, m.exponents@) is Some {
                let k = choose|k: int|
                    0 <= k < self.terms@.len() && #[trigger] self.terms@[k].monomial.exponents@
                        == m.exponents@ && self.terms@[k].coeff == coeff_in(
                        self.terms@,
                        m.exponents@,
                    ).unwrap();
            }
        }
        0
    }

    /// The DA variable `x_v` (1-based), coefficient `1.0`.
    pub fn variable(v: usize, config: &DaConfig) -> (r: Result<DA, DaError>)
        requires
            config.wf(),
        ensures
            match r {
                Ok(d) => 1 <= v <= config.num_vars && d.wf() && d.terms@.len() == 1
                    && d.terms@[0].coeff == ONE_BITS && forall|i: int|
                    0 <= i < 6 ==> d.terms@[0].monomial.exponents@[i] == (if i == v - 1 {
                        1u8
                    } else {
                        0u8
                    }),
                Err(e) => !(1 <= v <= config.num_vars) && e == DaError::VariableIndexOutOfRange {
                    index: v,
                    num_vars: config.num_vars,
                },
            },
    {
        if v == 0 || v > config.num_vars {
            return Err(DaError::VariableIndexOutOfRange { index: v, num_vars: config.num_vars });
        }
        let mut terms: Vec<Term<u64>> = Vec::new();
        terms.push(Term { monomial: Monomial::variable(v - 1), coeff: ONE_BITS });
        Ok(GenericDA { terms })
    }
}

/// Reasons the DA operations refuse their arguments.
#[derive(Debug, Clone, PartialEq, Eq)]
pub enum DaError {
    /// A 1-based variable index outside `1..=num_vars`.
    VariableIndexOutOfRange { index: usize, num_vars: usize },
    /// A dimension larger than the number of DA variables.
    DimensionExceedsVariables { dim: usize, num_vars: usize },
    /// An array with fewer elements than the dimension asks for.
    ArrayTooShort { len: usize, dim: usize },
    /// The scalar field of DAGMD is an empty array.
    EmptyScalarField,
    /// The right-hand side of a flow has fewer components than its dimension.
    RhsTooShort { len: usize, dim: usize },
    /// The initial condition of a flow has fewer components than its dimension.
    InitialConditionTooShort { len: usize, dim: usize },
}

} // verus!
