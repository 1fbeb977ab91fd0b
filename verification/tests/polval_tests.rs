use rosy::da::{ComplexBits, GenericDA, Term, CD, DA};
use rosy::monomial::Monomial;
use rosy::polval::{
    polval_plan, rosy_polval_any, rosy_polval_cd, rosy_polval_da, rosy_polval_re, PolvalError,
    PolvalPlan, PolvalRoute,
};
use rosy::polval_any::{PolvalAnyDst, PolvalAnySrc};
use rosy::value::{rosy_value_is_cd, RosyValue};

fn term(e: [u8; 6], c: f64) -> Term<u64> {
    Term { monomial: Monomial { exponents: e }, coeff: c.to_bits() }
}

/// Evaluates a plan at one real point, as the runtime does.
fn eval(plan: &PolvalPlan<u64>, args: &[f64]) -> Vec<f64> {
    let h = &plan.horner;
    let mut val = vec![1.0; h.nodes.len()];
    for k in 1..h.nodes.len() {
        let x = if (h.var[k] as usize) < args.len() { args[h.var[k] as usize] } else { 0.0 };
        val[k] = val[h.parent[k]] * x;
    }
    plan.dots
        .iter()
        .map(|terms| terms.iter().map(|t| f64::from_bits(t.coeff) * val[t.node]).sum())
        .collect()
}

#[test]
fn polval_re_quadratic() {
    // 2 + 3x + x^2 at x = 2
    let p: DA = GenericDA {
        terms: vec![term([0; 6], 2.0), term([1, 0, 0, 0, 0, 0], 3.0), term([2, 0, 0, 0, 0, 0], 1.0)],
    };
    let plan = rosy_polval_re(&vec![p], 1, 1, 1).unwrap();
    let r = eval(&plan, &[2.0]);
    assert!((r[0] - 12.0).abs() < 1e-12, "got {}", r[0]);
}

#[test]
fn polval_two_polys_share_horner_nodes() {
    let p1: DA = GenericDA { terms: vec![term([1, 1, 0, 0, 0, 0], 1.0)] };
    let p2: DA = GenericDA { terms: vec![term([2, 0, 0, 0, 0, 0], 1.0)] };
    let plan = rosy_polval_re(&vec![p1, p2], 2, 2, 2).unwrap();
    // 1, y, xy, x, x^2: each monomial once
    assert_eq!(plan.horner.nodes.len(), 5);
    let r = eval(&plan, &[3.0, 4.0]);
    assert!((r[0] - 12.0).abs() < 1e-12);
    assert!((r[1] - 9.0).abs() < 1e-12);
}

#[test]
fn polval_any_composes_da_map_on_cd_args() {
    let x1 = Monomial { exponents: [1, 0, 0, 0, 0, 0] };
    let x2 = Monomial { exponents: [0, 1, 0, 0, 0, 0] };
    let one = ComplexBits { re: 1.0f64.to_bits(), im: 0 };
    let p = vec![RosyValue::DA(GenericDA { terms: vec![Term { monomial: x1, coeff: 1.0f64.to_bits() }] })];
    let a = vec![
        RosyValue::CD(GenericDA { terms: vec![Term { monomial: x2, coeff: one }] }),
        RosyValue::CD(GenericDA { terms: vec![Term { monomial: x1, coeff: one }] }),
    ];
    assert_eq!(rosy_polval_any(&p, 1, &a, 1).unwrap().0, PolvalRoute::Complex);
    // P = x1 as a CD polynomial, A = (x2, x1): the result is the first argument, x2.
    let pc: Vec<CD> = vec![GenericDA { terms: vec![Term { monomial: x1, coeff: one }] }];
    let plan = rosy_polval_cd(&pc, 1, 2, 2, 1).unwrap();
    assert_eq!(plan.horner.nodes.len(), 2);
    assert_eq!(plan.horner.parent[1], 0);
    let arg = plan.horner.var[1] as usize;
    assert_eq!(plan.dots[0].len(), 1);
    assert_eq!(plan.dots[0][0].node, 1);
    let RosyValue::CD(result) = &a[arg] else { panic!("expected CD") };
    let mut x2_coeff = 0.0;
    for t in &result.terms {
        if t.monomial.exponents[1] == 1 && t.monomial.total_order() == 1 {
            x2_coeff = f64::from_bits(t.coeff.re) * f64::from_bits(plan.dots[0][0].coeff.re);
        }
    }
    assert!((x2_coeff - 1.0).abs() < 1e-12, "x2 coeff {x2_coeff}");
}

#[test]
fn polval_routes_by_the_first_argument() {
    let da = RosyValue::DA(GenericDA { terms: vec![] });
    let re = RosyValue::RE(2.0f64.to_bits());
    let ve = RosyValue::VE(vec![1.0f64.to_bits()]);
    let nested_cm = RosyValue::Arr(vec![RosyValue::Arr(vec![RosyValue::CM(ComplexBits { re: 0, im: 0 })])]);
    let none: Vec<RosyValue> = vec![];
    assert_eq!(rosy_polval_any(&none, 0, &vec![da], 0).unwrap().0, PolvalRoute::Da);
    assert_eq!(rosy_polval_any(&none, 0, &vec![ve], 0).unwrap().0, PolvalRoute::Particles);
    assert_eq!(rosy_polval_any(&none, 0, &vec![re], 0).unwrap().0, PolvalRoute::Real);
    assert_eq!(rosy_polval_any(&none, 0, &none, 0).unwrap().0, PolvalRoute::Real);
    assert!(rosy_value_is_cd(&nested_cm));
    assert_eq!(rosy_polval_any(&vec![nested_cm], 0, &none, 0).unwrap().0, PolvalRoute::Complex);
    // Particle columns of reals read as arrays of real cells.
    let columns: Vec<Vec<u64>> = vec![vec![1.0f64.to_bits(), 2.0f64.to_bits()]];
    let (route, _, a_cells) = rosy_polval_any(&none, 1, &columns, 1).unwrap();
    assert_eq!(
        rosy_polval_any(&none, 0, &columns, 1).err(),
        Some(PolvalError::NpLessThanNr { np: 0, nr: 1 })
    );
    assert_eq!(route, PolvalRoute::Particles);
    assert!(matches!(&a_cells[0], RosyValue::Arr(c) if c.len() == 2));
}

#[test]
fn polval_any_reads_arrays_as_cells() {
    let arr = RosyValue::Arr(vec![RosyValue::RE(5), RosyValue::LO(true)]);
    let cells = arr.polval_any_cells();
    assert_eq!(cells.len(), 2);
    assert!(matches!(cells[0], RosyValue::RE(5)));
    assert!(matches!(cells[1], RosyValue::LO(true)));
    let single = RosyValue::ST("x".to_string());
    let cells = single.polval_any_cells();
    assert_eq!(cells.len(), 1);
    assert!(matches!(&cells[0], RosyValue::ST(s) if s == "x"));
    let reals: Vec<u64> = vec![7, 8];
    let cells = reals.polval_any_cells();
    assert!(matches!(cells[..], [RosyValue::RE(7), RosyValue::RE(8)]));
    let das: Vec<DA> = vec![GenericDA { terms: vec![term([0; 6], 1.0)] }];
    let cells = das.polval_any_cells();
    assert!(matches!(&cells[0], RosyValue::DA(d) if d.terms.len() == 1));
}

#[test]
fn polval_any_stores_results() {
    let mut dst = vec![RosyValue::RE(1), RosyValue::RE(2), RosyValue::RE(3)];
    dst.store_polval_any(vec![RosyValue::LO(false)]);
    assert!(matches!(dst[..], [RosyValue::LO(false), RosyValue::RE(2), RosyValue::RE(3)]));
    let mut short = vec![RosyValue::RE(1)];
    short.store_polval_any(vec![RosyValue::RE(4), RosyValue::RE(5)]);
    assert!(matches!(short[..], [RosyValue::RE(4), RosyValue::RE(5)]));
    let mut one = RosyValue::RE(0);
    one.store_polval_any(vec![RosyValue::RE(9)]);
    assert!(matches!(one, RosyValue::RE(9)));
    let mut many = RosyValue::RE(0);
    many.store_polval_any(vec![RosyValue::RE(1), RosyValue::RE(2)]);
    assert!(matches!(&many, RosyValue::Arr(v) if v.len() == 2));
    // What was stored reads back as the stored cells.
    assert!(matches!(many.polval_any_cells()[..], [RosyValue::RE(1), RosyValue::RE(2)]));
    assert!(matches!(one.polval_any_cells()[..], [RosyValue::RE(9)]));
    let mut empty = RosyValue::RE(0);
    empty.store_polval_any(vec![]);
    assert!(matches!(&empty, RosyValue::Arr(v) if v.is_empty()));
}

#[test]
fn polval_refusals_come_in_order() {
    let p: DA = GenericDA { terms: vec![term([0, 0, 1, 0, 0, 0], 1.0)] };
    assert_eq!(rosy_polval_re(&vec![], 0, 1, 1).err(), Some(PolvalError::NpLessThanNr { np: 0, nr: 1 }));
    assert_eq!(rosy_polval_re(&vec![], 1, 1, 1).err(), Some(PolvalError::PolynomialArrayTooShort { len: 0 }));
    assert_eq!(
        rosy_polval_da(&vec![p.clone()], 1, 1, 2, 1).err(),
        Some(PolvalError::ArgumentArrayTooShort { len: 1, na: 2 })
    );
    // x3 with only two arguments
    assert_eq!(rosy_polval_re(&vec![p.clone()], 1, 2, 1).err(), Some(PolvalError::VariableOutOfRange { var: 3, na: 2 }));
    assert!(polval_plan(&vec![p], 1, 3).is_ok());
}
