use rosy::da::{DaConfig, GenericDA, Term, DA};
use rosy::daprv::{
    daprv_exponent_digits, daprv_exponents, format_daprv, is_cosy_daprv_row, is_legacy_daprv_row,
    render_daprv,
};
use rosy::darev::{darev_cuts_ok, darev_store, parse_cosy_daprv_row, parse_legacy_daprv_row, rosy_darev, DarevError};
use rosy::monomial::Monomial;

fn config(num_vars: usize, max_order: u32) -> DaConfig {
    DaConfig { num_vars, max_order, epsilon: 1e-16f64.to_bits() }
}

fn x1(coeff: f64) -> DA {
    GenericDA { terms: vec![Term { monomial: Monomial { exponents: [1, 0, 0, 0, 0, 0] }, coeff: coeff.to_bits() }] }
}

#[test]
fn exponent_digits_use_max_vars_capped_at_six() {
    assert_eq!(daprv_exponent_digits(2), 2);
    assert_eq!(daprv_exponent_digits(6), 6);
    assert_eq!(daprv_exponent_digits(8), 6);
}

#[test]
fn format_daprv_puts_components_in_cosy_columns() {
    let cfg = config(2, 2);
    let coefficients = [0.9999439, -0.0001785528, -0.01059182, 0.000001891319, 0.0];
    let map: Vec<DA> = coefficients
        .iter()
        .map(|c| if *c == 0.0 { GenericDA { terms: vec![] } } else { x1(*c) })
        .collect();
    let rows = format_daprv(&map, 5, &cfg);
    assert_eq!(rows.len(), 1);
    assert_eq!(rows[0].monomial.exponents, [1, 0, 0, 0, 0, 0]);
    let printed: Vec<f64> = rows[0].coeffs.iter().map(|b| f64::from_bits(*b)).collect();
    assert_eq!(printed, coefficients.to_vec());
    // The G14.7 fields of the five coefficients.
    let fields = vec![vec![
        " 0.9999439    ".to_string(),
        "-0.1785528E-03".to_string(),
        "-0.1059182E-01".to_string(),
        " 0.1891319E-05".to_string(),
        " 0.0000000E+00".to_string(),
    ]];
    let out = render_daprv(&rows, &fields, daprv_exponent_digits(6));
    assert_eq!(
        out,
        "  0.9999439    -0.1785528E-03-0.1059182E-01 0.1891319E-05 0.0000000E+00 100000\n \
         ------------------------------------------------------------------------------\n"
    );
}

#[test]
fn format_daprv_pads_exponent_slots_when_max_vars_exceeds_current() {
    let cfg = config(2, 2);
    let da = DA::variable(1, &cfg).unwrap();
    let rows = format_daprv(&vec![da], 1, &cfg);
    let fields = vec![vec![" 1.000000     ".to_string()]];
    let out = render_daprv(&rows, &fields, daprv_exponent_digits(6));
    let exp_col: Vec<&str> = out
        .lines()
        .filter(|l| !l.trim().chars().all(|c| c == '-'))
        .filter_map(|l| l.split_whitespace().nth(1))
        .collect();
    assert_eq!(exp_col, vec!["100000"]);
}

#[test]
fn darev_reads_the_same_padded_exponent_width() {
    let nv = daprv_exponent_digits(6);
    let token = "100000";
    let exponents = daprv_exponents(token, nv).exponents;
    assert_eq!(nv, 6);
    assert_eq!(exponents[0], 1);
    assert!(exponents[1..].iter().all(|&e| e == 0));
}

#[test]
fn layout_detection_prefers_cosy_columns_over_line_length() {
    let cosy = "  0.9999439    -0.1785528E-03-0.1059182E-01 0.1891319E-05 0.0000000E+00 100000";
    assert!(is_cosy_daprv_row(cosy, 5, 6));
    assert!(!is_legacy_daprv_row(cosy, 6));

    let legacy = "  0.9999439 100000";
    assert!(!is_cosy_daprv_row(legacy, 5, 6));
    assert!(is_legacy_daprv_row(legacy, 6));

    let garbage = "hello world";
    assert!(!is_cosy_daprv_row(garbage, 5, 6));
    assert!(!is_legacy_daprv_row(garbage, 6));
}

#[test]
fn darev_reads_back_what_daprv_rendered() {
    let cfg = config(2, 2);
    let map = vec![x1(0.5), GenericDA { terms: vec![] }];
    let rows = format_daprv(&map, 2, &cfg);
    let fields = vec![vec![" 0.5000000    ".to_string(), " 0.0000000E+00".to_string()]];
    let text = render_daprv(&rows, &fields, 2);
    let lines: Vec<String> = text.lines().map(|l| l.to_string()).collect();
    let (entries, consumed) = rosy_darev(&lines, 2, 2).unwrap();
    assert_eq!(consumed, 2);
    assert_eq!(entries.len(), 2);
    assert_eq!(entries[0].component, 0);
    assert_eq!(entries[0].monomial.exponents, [1, 0, 0, 0, 0, 0]);
    assert_eq!(entries[0].field.trim(), "0.5000000");
}

#[test]
fn darev_refuses_an_empty_stream() {
    let lines: Vec<String> = vec![];
    assert!(rosy_darev(&lines, 1, 2).is_err());
}

#[test]
fn darev_without_components_reads_the_separator() {
    let lines: Vec<String> = vec!["".to_string(), "     --------".to_string(), "rest".to_string()];
    let (entries, consumed) = rosy_darev(&lines, 0, 2).unwrap();
    assert!(entries.is_empty());
    assert_eq!(consumed, 2);
}

#[test]
fn darev_store_empties_grows_and_sets() {
    let m = |e: [u8; 6]| Monomial { exponents: e };
    let keep = GenericDA { terms: vec![Term { monomial: m([0; 6]), coeff: 7.0f64.to_bits() }] };
    let old = GenericDA { terms: vec![Term { monomial: m([1, 0, 0, 0, 0, 0]), coeff: 9.0f64.to_bits() }] };
    let mut dst = vec![old, keep];
    let entries = vec![
        (0usize, m([0, 1, 0, 0, 0, 0]), 2.0f64.to_bits()),
        (2usize, m([0; 6]), 1e-16f64.to_bits()),
        (2usize, m([1, 0, 0, 0, 0, 0]), 3.0f64.to_bits()),
        (0usize, m([0, 1, 0, 0, 0, 0]), (-4.0f64).to_bits()),
    ];
    darev_store(&mut dst, 3, &entries);
    assert_eq!(dst.len(), 3);
    assert_eq!(dst[0].terms.len(), 1);
    assert_eq!(dst[0].terms[0].monomial.exponents, [0, 1, 0, 0, 0, 0]);
    assert_eq!(f64::from_bits(dst[0].terms[0].coeff), -4.0);
    assert!(dst[1].terms.is_empty());
    assert_eq!(dst[2].terms.len(), 1);
    assert_eq!(f64::from_bits(dst[2].terms[0].coeff), 3.0);
    // Vectors from k on keep what they held.
    let mut longer = vec![GenericDA { terms: vec![] }, GenericDA { terms: vec![Term { monomial: m([0; 6]), coeff: 5.0f64.to_bits() }] }];
    darev_store(&mut longer, 1, &vec![]);
    assert_eq!(longer.len(), 2);
    assert_eq!(longer[1].terms.len(), 1);
}

#[test]
fn darev_errors_name_what_was_refused() {
    assert!(matches!(parse_legacy_daprv_row("only", 0, 2), Err(DarevError::LegacyRowTooShort { line }) if line == "only"));
    assert!(matches!(parse_legacy_daprv_row("1.0 1x", 0, 2), Err(DarevError::MalformedExponent { token }) if token == "1x"));
    assert!(matches!(parse_legacy_daprv_row("one 10", 0, 2), Err(DarevError::InvalidCoefficient { field }) if field == "one"));
    let row = format!(" {}{} 10", "    1.0000000 ", "    abc       ");
    assert!(matches!(
        parse_cosy_daprv_row(&row, 2, 2),
        Err(DarevError::InvalidCoefficient { field }) if field == "    abc       "
    ));
    assert!(matches!(
        parse_cosy_daprv_row(" short   \t", 2, 2),
        Err(DarevError::RowTooShort { line }) if line == " short"
    ));
    let lines = vec!["".to_string(), "  x  ".to_string()];
    assert!(matches!(rosy_darev(&lines, 1, 2), Err(DarevError::UnrecognizedLayout { line }) if line == "  x"));
}

#[test]
fn cosy_rows_are_read_by_bytes() {
    // "é" takes two bytes: the first field holds twelve characters in its fourteen bytes.
    let row = format!(" {}{} 10", "  1.00000000é", "    2.0000000 ");
    assert!(darev_cuts_ok(&vec![row.clone(), " ---".to_string()], 2, 2));
    assert!(matches!(parse_cosy_daprv_row(&row, 2, 2), Err(DarevError::InvalidCoefficient { field }) if field == "  1.00000000é"));
    // A field boundary inside "é" would make DAREV panic: the check says so.
    let cut = format!(" {}{} 10", "  1.000000000é", "    2.0000000 ");
    assert!(!darev_cuts_ok(&vec![cut, " ---".to_string()], 2, 2));
    // Legacy rows need no boundaries.
    assert!(darev_cuts_ok(&vec!["1.0 10 é".to_string(), " ---".to_string()], 1, 2));
}
