use rosy::da::{DaConfig, DaError, GenericDA, Term, DA};
use rosy::da_ops::{
    check_flow_args, rosy_dacliw, rosy_dader, rosy_dafilt, rosy_dafset, rosy_dagmd, rosy_daint,
    rosy_danoro, rosy_danors, rosy_dasgn, DaFilter,
};
use rosy::da_shift::{rosy_dadiu, rosy_dadmu};
use rosy::daprv::{daprv_coefficient_ok, exponent_token_is_digits};
use rosy::monomial::Monomial;

fn term(e: [u8; 6], c: f64) -> Term<u64> {
    Term { monomial: Monomial { exponents: e }, coeff: c.to_bits() }
}

fn coeffs(d: &DA) -> Vec<(Vec<u8>, f64)> {
    d.terms.iter().map(|t| (t.monomial.exponents.to_vec(), f64::from_bits(t.coeff))).collect()
}

fn config() -> DaConfig {
    DaConfig { num_vars: 2, max_order: 3, epsilon: 0.0f64.to_bits() }
}

fn sample() -> DA {
    GenericDA {
        terms: vec![
            term([0; 6], 1.5),
            term([1, 0, 0, 0, 0, 0], -2.0),
            term([1, 1, 0, 0, 0, 0], 3.0),
            term([3, 0, 0, 0, 0, 0], 0.25),
        ],
    }
}

#[test]
fn dasgn_negates_and_twice_restores() {
    let mut a = vec![sample()];
    rosy_dasgn(&mut a);
    assert_eq!(
        coeffs(&a[0]),
        vec![
            (vec![0; 6], -1.5),
            (vec![1, 0, 0, 0, 0, 0], 2.0),
            (vec![1, 1, 0, 0, 0, 0], -3.0),
            (vec![3, 0, 0, 0, 0, 0], -0.25),
        ]
    );
    rosy_dasgn(&mut a);
    assert_eq!(coeffs(&a[0]), coeffs(&sample()));
}

#[test]
fn danoro_keeps_even_orders() {
    let mut a = vec![sample(), GenericDA { terms: vec![] }];
    rosy_danoro(&mut a);
    assert_eq!(coeffs(&a[0]), vec![(vec![0; 6], 1.5), (vec![1, 1, 0, 0, 0, 0], 3.0)]);
    assert!(a[1].terms.is_empty());
    let once = coeffs(&a[0]);
    rosy_danoro(&mut a);
    assert_eq!(coeffs(&a[0]), once);
}

#[test]
fn dafilt_masks_by_template() {
    let mut filter = DaFilter::new();
    let mut out = vec![GenericDA { terms: vec![] }, GenericDA { terms: vec![term([0; 6], 9.0)] }];
    // Without a template the input is copied.
    rosy_dafilt(&vec![sample()], &mut out, &filter, &config());
    assert_eq!(coeffs(&out[0]), coeffs(&sample()));
    assert_eq!(coeffs(&out[1]), vec![(vec![0; 6], 9.0)]);
    // A template keeps the monomials it holds with a nonzero coefficient.
    let template = GenericDA { terms: vec![term([1, 1, 0, 0, 0, 0], 1.0), term([0; 6], 0.0)] };
    rosy_dafset(&mut filter, vec![template]);
    assert!(filter.template.is_some());
    rosy_dafilt(&vec![sample()], &mut out, &filter, &config());
    assert_eq!(coeffs(&out[0]), vec![(vec![1, 1, 0, 0, 0, 0], 3.0)]);
    // A single zero vector switches filtering off again.
    rosy_dafset(&mut filter, vec![GenericDA { terms: vec![] }]);
    assert!(filter.template.is_none());
}

#[test]
fn dacliw_reads_linear_coefficients() {
    let mut linear = vec![7u64];
    rosy_dacliw(&vec![sample()], 3, &mut linear, &config());
    assert_eq!(linear, vec![(-2.0f64).to_bits(), 0, 0]);
    rosy_dacliw(&vec![], 2, &mut linear, &config());
    assert_eq!(linear, vec![0, 0]);
}

#[test]
fn dader_and_daint_scale_exponents() {
    let d = rosy_dader(&vec![sample()], 1, &config()).unwrap();
    let got: Vec<([u8; 6], f64, u32)> =
        d[0].iter().map(|s| (s.monomial.exponents, f64::from_bits(s.coeff), s.factor)).collect();
    assert_eq!(
        got,
        vec![([0; 6], -2.0, 1), ([0, 1, 0, 0, 0, 0], 3.0, 1), ([2, 0, 0, 0, 0, 0], 0.25, 3)]
    );
    assert_eq!(
        rosy_dader(&vec![sample()], 3, &config()).err(),
        Some(DaError::VariableIndexOutOfRange { index: 3, num_vars: 2 })
    );
    let i = rosy_daint(&vec![sample()], 2, &config()).unwrap();
    let got: Vec<([u8; 6], u32)> = i[0].iter().map(|s| (s.monomial.exponents, s.factor)).collect();
    // x^3 would reach order four, beyond the truncation order three.
    assert_eq!(got, vec![([0, 1, 0, 0, 0, 0], 1), ([1, 1, 0, 0, 0, 0], 1), ([1, 2, 0, 0, 0, 0], 2)]);
    assert_eq!(
        rosy_daint(&vec![sample()], 0, &config()).err(),
        Some(DaError::VariableIndexOutOfRange { index: 0, num_vars: 2 })
    );
}

#[test]
fn dagmd_and_flow_argument_checks() {
    let g = vec![sample()];
    let f = vec![sample(), sample()];
    let partials = rosy_dagmd(&g, &f, 2, &config()).unwrap();
    assert_eq!(partials.len(), 2);
    assert_eq!(partials[1].len(), 1);
    assert_eq!(partials[1][0].monomial.exponents, [1, 0, 0, 0, 0, 0]);
    assert_eq!(
        rosy_dagmd(&g, &f, 3, &config()).err(),
        Some(DaError::DimensionExceedsVariables { dim: 3, num_vars: 2 })
    );
    assert_eq!(rosy_dagmd(&g, &vec![], 1, &config()).err(), Some(DaError::ArrayTooShort { len: 0, dim: 1 }));
    assert_eq!(rosy_dagmd(&vec![], &f, 1, &config()).err(), Some(DaError::EmptyScalarField));
    assert_eq!(check_flow_args(&f, &f, 2, &config()), Ok(()));
    assert_eq!(check_flow_args(&f, &f, 3, &config()), Err(DaError::DimensionExceedsVariables { dim: 3, num_vars: 2 }));
    assert_eq!(check_flow_args(&g, &f, 2, &config()), Err(DaError::RhsTooShort { len: 1, dim: 2 }));
    assert_eq!(check_flow_args(&f, &g, 2, &config()), Err(DaError::InitialConditionTooShort { len: 1, dim: 2 }));
}

#[test]
fn daprv_field_checks() {
    assert!(exponent_token_is_digits("10", 2));
    assert!(exponent_token_is_digits("3", 0));
    assert!(!exponent_token_is_digits("103", 2));
    assert!(!exponent_token_is_digits("1a", 2));
    assert!(!exponent_token_is_digits("", 2));
    assert!(daprv_coefficient_ok(" 0.1000000D+01"));
    assert!(daprv_coefficient_ok("-2.5E-003"));
    assert!(!daprv_coefficient_ok(" abc"));
}

#[test]
fn dadiu_divides_by_a_variable() {
    let mut d = sample();
    d.terms.push(term([0, 2, 0, 0, 0, 0], 0.0));
    let out = rosy_dadiu(1, &vec![d], &config()).unwrap();
    assert_eq!(out.len(), 1);
    assert_eq!(
        coeffs(&out[0]),
        vec![(vec![0; 6], -2.0), (vec![0, 1, 0, 0, 0, 0], 3.0), (vec![2, 0, 0, 0, 0, 0], 0.25)]
    );
    // Zero coefficients are dropped before dividing.
    let out = rosy_dadiu(2, &vec![sample(), GenericDA { terms: vec![term([0, 2, 0, 0, 0, 0], 0.0)] }], &config()).unwrap();
    assert_eq!(coeffs(&out[0]), vec![(vec![1, 0, 0, 0, 0, 0], 3.0)]);
    assert!(out[1].terms.is_empty());
    assert_eq!(rosy_dadiu(0, &vec![], &config()).err(), Some(DaError::VariableIndexOutOfRange { index: 0, num_vars: 2 }));
    assert_eq!(rosy_dadiu(3, &vec![], &config()).err(), Some(DaError::VariableIndexOutOfRange { index: 3, num_vars: 2 }));
}

#[test]
fn dadmu_moves_one_power_between_variables() {
    let out = rosy_dadmu(1, 2, &vec![sample()], &config()).unwrap();
    assert_eq!(
        coeffs(&out[0]),
        vec![(vec![0, 1, 0, 0, 0, 0], -2.0), (vec![0, 2, 0, 0, 0, 0], 3.0), (vec![2, 1, 0, 0, 0, 0], 0.25)]
    );
    // Dividing and multiplying by the same variable keeps the divisible terms.
    let same = rosy_dadmu(2, 2, &vec![sample()], &config()).unwrap();
    assert_eq!(coeffs(&same[0]), vec![(vec![1, 1, 0, 0, 0, 0], 3.0)]);
    assert_eq!(rosy_dadmu(0, 3, &vec![], &config()).err(), Some(DaError::VariableIndexOutOfRange { index: 0, num_vars: 2 }));
    assert_eq!(rosy_dadmu(3, 0, &vec![], &config()).err(), Some(DaError::VariableIndexOutOfRange { index: 0, num_vars: 2 }));
    assert_eq!(rosy_dadmu(3, 1, &vec![], &config()).err(), Some(DaError::VariableIndexOutOfRange { index: 3, num_vars: 2 }));
    assert_eq!(rosy_dadmu(1, 4, &vec![], &config()).err(), Some(DaError::VariableIndexOutOfRange { index: 4, num_vars: 2 }));
}

#[test]
fn danors_drops_small_coefficients() {
    let mut a = vec![sample()];
    a[0].terms.push(term([0, 3, 0, 0, 0, 0], f64::NAN));
    rosy_danors(&mut a, 0.5f64.to_bits());
    let kept: Vec<Vec<u8>> = a[0].terms.iter().map(|t| t.monomial.exponents.to_vec()).collect();
    assert_eq!(
        kept,
        vec![vec![0; 6], vec![1, 0, 0, 0, 0, 0], vec![1, 1, 0, 0, 0, 0], vec![0, 3, 0, 0, 0, 0]]
    );
    let mut b = vec![sample()];
    rosy_danors(&mut b, 2.0f64.to_bits());
    assert_eq!(coeffs(&b[0]), vec![(vec![1, 0, 0, 0, 0, 0], -2.0), (vec![1, 1, 0, 0, 0, 0], 3.0)]);
    let mut c = vec![sample()];
    rosy_danors(&mut c, f64::NAN.to_bits());
    assert_eq!(c[0].terms.len(), 4);
    rosy_danors(&mut c, (-1.0f64).to_bits());
    assert_eq!(c[0].terms.len(), 4);
}

#[test]
fn dader_undoes_daint_on_the_plans() {
    let d = GenericDA { terms: vec![term([1, 1, 0, 0, 0, 0], 3.0), term([0; 6], 1.5)] };
    let up = rosy_daint(&vec![d], 1, &config()).unwrap();
    let integrated: DA = GenericDA {
        terms: up[0].iter().map(|s| Term { monomial: s.monomial, coeff: s.coeff }).collect(),
    };
    let down = rosy_dader(&vec![integrated], 1, &config()).unwrap();
    let got: Vec<([u8; 6], f64, u32)> =
        down[0].iter().map(|s| (s.monomial.exponents, f64::from_bits(s.coeff), s.factor)).collect();
    let factors: Vec<u32> = up[0].iter().map(|s| s.factor).collect();
    assert_eq!(got, vec![([1, 1, 0, 0, 0, 0], 3.0, factors[0]), ([0; 6], 1.5, factors[1])]);
}
