//! Values of Rosy's untyped (COSY-style) cells.

use vstd::prelude::*;
use crate::da::{CD, ComplexBits, DA};

verus! {

/// A value of any Rosy type; reals are binary64 bit patterns.
pub enum RosyValue {
    RE(u64),
    ST(String),
    LO(bool),
    CM(ComplexBits),
    VE(Vec<u64>),
    DA(DA),
    CD(CD),
    Arr(Vec<RosyValue>),
}

/// The value is complex: a CD or CM, or an array holding one at any depth.
pub open spec fn is_complex_value(v: RosyValue) -> bool
    decreases v, 0nat,
{
    match v {
        RosyValue::CD(_) | RosyValue::CM(_) => true,
        RosyValue::Arr(xs) => any_complex(xs@, xs@.len() as int),
        _ => false,
    }
}

/// One of the first `n` cells is complex.
pub open spec fn any_complex(s: Seq<RosyValue>, n: int) -> bool
    decreases s, n,
{
    if n <= 0 || n > s.len() {
        false
    } else {
        any_complex(s, n - 1) || is_complex_value(s[n - 1])
    }
}

/// Whether a value is complex (see `is_complex_value`).
pub fn rosy_value_is_cd(v: &RosyValue) -> (r: bool)
    ensures
        r == is_complex_value(*v),
    decreases v, 0nat,
{
    match v {
        RosyValue::CD(_) | RosyValue::CM(_) => true,
        RosyValue::Arr(xs) => cells_complex(xs),
        _ => false,
    }
}

/// Whether some cell is complex.
pub fn cells_complex(xs: &Vec<RosyValue>) -> (r: bool)
    ensures
        r == any_complex(xs@, xs@.len() as int),
    decreases xs, 1nat,
{
    let mut i: usize = 0;
    let mut found = false;
    while i < xs.len()
        invariant
            i <= xs@.len(),
            found == any_complex(xs@, i as int),
        decreases xs@.len() - i,
    {
        let c = rosy_value_is_cd(&xs[i]);
        found = found || c;
        i = i + 1;
    }
    found
}

} // verus!
