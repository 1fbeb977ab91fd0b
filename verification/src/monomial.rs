//! Exponent vectors of DA monomials.

use vstd::prelude::*;

verus! {

/// Number of exponent slots a monomial carries.
pub const MAX_VARS: usize = 6;

/// A monomial `x1^e1 * ... * x6^e6`, given by its exponents.
#[derive(Clone, Copy)]
pub struct Monomial {
    pub exponents: [u8; 6],
}

/// Total order of an exponent sequence of length six.
pub open spec fn exps_order(e: Seq<u8>) -> int {
    e[0] + e[1] + e[2] + e[3] + e[4] + e[5]
}

/// Index of the first variable with a positive exponent, or six when the monomial is constant.
pub open spec fn exps_first_nonzero(e: Seq<u8>) -> int {
    if e[0] > 0 {
        0
    } else if e[1] > 0 {
        1
    } else if e[2] > 0 {
        2
    } else if e[3] > 0 {
        3
    } else if e[4] > 0 {
        4
    } else if e[5] > 0 {
        5
    } else {
        6
    }
}

/// Exponents with slot `v` lowered by one.
pub open spec fn exps_lower(e: Seq<u8>, v: int) -> Seq<u8> {
    e.update(v, (e[v] - 1) as u8)
}

/// The monomial's Horner parent: the first variable with a positive exponent is divided out.
pub open spec fn exps_horner_parent(e: Seq<u8>) -> Seq<u8> {
    exps_lower(e, exps_first_nonzero(e))
}

/// `a` lies on the Horner chain from `m` down to the constant monomial (`m` itself included).
pub open spec fn exps_on_chain(a: Seq<u8>, m: Seq<u8>) -> bool
    decreases exps_order(m),
{
    if a == m {
        true
    } else if m.len() == 6 && exps_first_nonzero(m) < 6 {
        exps_on_chain(a, exps_horner_parent(m))
    } else {
        false
    }
}

pub open spec fn is_zero_exps(e: Seq<u8>) -> bool {
    forall|i: int| 0 <= i < e.len() ==> e[i] == 0
}

impl Monomial {
    /// Exponents of the monomial `x_{v+1}`.
    pub open spec fn variable_exps(v: int) -> Seq<u8> {
        Seq::new(6, |i: int| if i == v { 1u8 } else { 0u8 })
    }

    pub open spec fn order(self) -> int {
        exps_order(self.exponents@)
    }

    /// The constant monomial.
    pub fn constant() -> (m: Monomial)
        ensures
            is_zero_exps(m.exponents@),
            m.exponents@.len() == 6,
    {
        Monomial { exponents: [0u8; 6] }
    }

    /// The monomial `x_{v+1}` (0-based `v`).
    pub fn variable(v: usize) -> (m: Monomial)
        requires
            v < 6,
        ensures
            m.exponents@.len() == 6,
            forall|i: int| 0 <= i < 6 ==> m.exponents@[i] == (if i == v { 1u8 } else { 0u8 }),
    {
        let mut e = [0u8; 6];
        e[v] = 1;
        Monomial { exponents: e }
    }

    /// Sum of the exponents.
    pub fn total_order(&self) -> (r: u32)
        ensures
            r == self.order(),
    {
        self.exponents[0] as u32 + self.exponents[1] as u32 + self.exponents[2] as u32
            + self.exponents[3] as u32 + self.exponents[4] as u32 + self.exponents[5] as u32
    }

    /// Exponent-wise equality.
    pub fn same(&self, other: &Monomial) -> (r: bool)
        ensures
            r == (self.exponents@ == other.exponents@),
    {
        let mut i: usize = 0;
        while i < 6
            invariant
                i <= 6,
                self.exponents@.len() == 6,
                other.exponents@.len() == 6,
                forall|j: int| 0 <= j < i ==> self.exponents@[j] == other.exponents@[j],
            decreases 6 - i,
        {
            if self.exponents[i] != other.exponents[i] {
                return false;
            }
            i = i + 1;
        }
        assert(self.exponents@ =~= other.exponents@);
        true
    }

    /// First variable (0-based) with a positive exponent; six for the constant monomial.
    pub fn first_nonzero(&self) -> (r: usize)
        ensures
            r == exps_first_nonzero(self.exponents@),
    {
        if self.exponents[0] > 0 {
            0
        } else if self.exponents[1] > 0 {
            1
        } else if self.exponents[2] > 0 {
            2
        } else if self.exponents[3] > 0 {
            3
        } else if self.exponents[4] > 0 {
            4
        } else if self.exponents[5] > 0 {
            5
        } else {
            6
        }
    }

    /// The Horner parent of a non-constant monomial.
    pub fn horner_parent(&self) -> (p: Monomial)
        requires
            exps_first_nonzero(self.exponents@) < 6,
        ensures
            p.exponents@ == exps_horner_parent(self.exponents@),
            p.order() == self.order() - 1,
    {
        let v = self.first_nonzero();
        let mut e = self.exponents;
        e[v] = self.exponents[v] - 1;
        assert(e@ =~= exps_horner_parent(self.exponents@));
        Monomial { exponents: e }
    }
}

/// Position of a monomial in a list, by exponents.
pub fn find_monomial(list: &Vec<Monomial>, m: &Monomial) -> (r: Option<usize>)
    ensures
        match r {
            Some(i) => i < list@.len() && list@[i as int].exponents@ == m.exponents@,
            None => forall|i: int| 0 <= i < list@.len() ==> list@[i].exponents@ != m.exponents@,
        },
{
    let mut i: usize = 0;
    while i < list.len()
        invariant
            i <= list@.len(),
            forall|j: int| 0 <= j < i ==> list@[j].exponents@ != m.exponents@,
        decreases list.len() - i,
    {
        if list[i].same(m) {
            return Some(i);
        }
        i = i + 1;
    }
    None
}

} // verus!
