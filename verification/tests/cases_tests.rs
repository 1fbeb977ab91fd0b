use rosy::cases::{blessed_text, case_verdict, norm_out, parse_case, CaseVerdict};

#[test]
fn case_files_split_into_sections() {
    let text = "BEGIN;\n\nWRITE 6 1;\nEND;\n======= expect\n 1.000  \n======= notes\nignored\n======= fox\nBEGIN; END;\n";
    let case = parse_case(text);
    assert_eq!(case.source, "BEGIN;\n\nWRITE 6 1;\nEND;");
    assert_eq!(case.expect.as_deref(), Some(" 1.000  "));
    assert_eq!(case.fox.as_deref(), Some("BEGIN; END;"));
    let bare = parse_case("\n\nX\r\nY");
    assert_eq!(bare.source, "X\nY");
    assert!(bare.expect.is_none());
    assert!(bare.fox.is_none());
    let empty_expect = parse_case("A\n======= expect\n");
    assert_eq!(empty_expect.expect.as_deref(), Some(""));
}

#[test]
fn output_is_compared_without_trailing_blanks() {
    assert_eq!(norm_out("  a  \nb \t\n\n"), "a\nb");
    assert_eq!(norm_out(""), "");
    assert_eq!(norm_out("x\r\n  y"), "x\n  y");
}

#[test]
fn blessing_rewrites_the_expected_output() {
    let case = parse_case("SRC  \n======= expect\nold\n======= fox\nF  \n");
    assert_eq!(blessed_text(&case, "new \n"), "SRC\n\n======= expect\nnew\n\n======= fox\nF\n");
    let plain = parse_case("S");
    assert_eq!(blessed_text(&plain, "o"), "S\n\n======= expect\no\n");
}

#[test]
fn verdicts_compare_normalized_output() {
    let case = parse_case("BEGIN; END;\n======= expect\n 1.0\n 2.0  \n");
    assert!(matches!(case_verdict(&case, "1.0\n 2.0\n\n", false), CaseVerdict::Pass));
    assert!(matches!(case_verdict(&case, " 1.0\n 3.0", false), CaseVerdict::Mismatch));
    let bare = parse_case("BEGIN; END;");
    assert!(matches!(case_verdict(&bare, "x", false), CaseVerdict::MissingExpect));
    match case_verdict(&bare, "out  \n", true) {
        CaseVerdict::Bless(t) => assert_eq!(t, "BEGIN; END;\n\n======= expect\nout\n"),
        _ => panic!("bless mode rewrites the case"),
    }
}
