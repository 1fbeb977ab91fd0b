use rosy::da::{ComplexBits, GenericDA, Term, CD, DA};
use rosy::display::{build_exp_str, display_cd, display_da, RosyDisplay};
use rosy::monomial::Monomial;

#[test]
fn zero_da_display_matches_cosy() {
    let value: DA = GenericDA::zero();
    assert_eq!(display_da(&value, &vec![], 2), "     ALL COMPONENTS ZERO\n     -------------------");
}

#[test]
fn da_display_lists_terms_by_order() {
    let da: DA = GenericDA {
        terms: vec![
            Term { monomial: Monomial { exponents: [1, 1, 0, 0, 0, 0] }, coeff: 3.0f64.to_bits() },
            Term { monomial: Monomial { exponents: [0, 0, 0, 0, 0, 0] }, coeff: 1.0f64.to_bits() },
        ],
    };
    let texts = vec![" 3.000000000000000    ".to_string(), " 1.000000000000000    ".to_string()];
    let out = display_da(&da, &texts, 2);
    let expected = [
        "     I  COEFFICIENT            ORDER EXPONENTS",
        "     1   1.000000000000000       0   0 0",
        "     2   3.000000000000000       2   1 1",
        "     -----------------------------------",
    ]
    .join("\n");
    assert_eq!(out, expected);
}

#[test]
fn exponent_column_groups_pairs() {
    assert_eq!(build_exp_str(&[1, 0, 2, 3, 0, 0], 4), " 1 0  2 3 ");
    assert_eq!(build_exp_str(&[12, 0, 0, 0, 0, 0], 1), "12");
    assert_eq!(build_exp_str(&[1, 2], 6), " 1 2 ");
}

#[test]
fn logical_and_text_display() {
    assert_eq!((&true).rosy_display(), "TRUE");
    assert_eq!((&false).rosy_display(), "FALSE");
    assert_eq!("abc".rosy_display(), "abc");
    assert_eq!((&"x y".to_string()).rosy_display(), "x y");
    assert_eq!((&1234usize).rosy_display(), "1234");
}

#[test]
fn cd_display_lists_both_parts() {
    let c = |re: f64, im: f64| ComplexBits { re: re.to_bits(), im: im.to_bits() };
    let cd: CD = GenericDA {
        terms: vec![
            Term { monomial: Monomial { exponents: [1, 0, 0, 0, 0, 0] }, coeff: c(1.0, 2.0) },
            Term { monomial: Monomial { exponents: [0, 0, 0, 0, 0, 0] }, coeff: c(0.5, 0.0) },
        ],
    };
    let re = vec!["R1".to_string(), "R0".to_string()];
    let im = vec!["I1".to_string(), "I0".to_string()];
    let out = display_cd(&cd, &re, &im, 2);
    let expected = format!(
        "     I  COEFFICIENTS                           ORDER EXPONENTS\n     1 R0 I0   0   0 0\n     2 R1 I1   1   1 0\n{}",
        " ".repeat(38)
    );
    assert_eq!(out, expected);
    let zero: CD = GenericDA { terms: vec![] };
    assert_eq!(display_cd(&zero, &vec![], &vec![], 2), "     ALL COMPONENTS ZERO\n     -------------------");
}
