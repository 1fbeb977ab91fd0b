use rosy::highlight::{intrinsic_functions, tokenize_source, SemanticTokenType};

fn kinds(src: &str, keywords: &[&str]) -> Vec<(u32, u32, u32, SemanticTokenType)> {
    let kw: Vec<String> = keywords.iter().map(|k| k.to_string()).collect();
    tokenize_source(src, &intrinsic_functions(), &kw)
        .into_iter()
        .map(|t| (t.line, t.start_col, t.length, t.token_type))
        .collect()
}

#[test]
fn declarations_comments_numbers_and_strings() {
    let src = "VARIABLE (RE) X;\r\n{ comment } X := 3.5E-2; 'it''s'";
    assert_eq!(
        kinds(src, &["VARIABLE"]),
        vec![
            (0, 0, 8, SemanticTokenType::Keyword),
            (0, 10, 2, SemanticTokenType::Type),
            (0, 14, 1, SemanticTokenType::Variable),
            (1, 0, 11, SemanticTokenType::Comment),
            (1, 12, 1, SemanticTokenType::Variable),
            (1, 17, 6, SemanticTokenType::Number),
            (1, 25, 7, SemanticTokenType::String),
        ]
    );
}

#[test]
fn calls_are_functions_and_truth_values_keywords() {
    assert_eq!(
        kinds("y := re (x) + sin(-2) & true;", &[]),
        vec![
            (0, 0, 1, SemanticTokenType::Variable),
            (0, 5, 2, SemanticTokenType::Function),
            (0, 9, 1, SemanticTokenType::Variable),
            (0, 14, 3, SemanticTokenType::Function),
            (0, 18, 2, SemanticTokenType::Number),
            (0, 24, 4, SemanticTokenType::Keyword),
        ]
    );
}

#[test]
fn nested_comment_runs_to_the_line_end() {
    assert_eq!(kinds("{ a { b } c", &[]), vec![(0, 0, 11, SemanticTokenType::Comment)]);
    assert_eq!(kinds("", &[]), vec![]);
    assert_eq!(kinds("\n\nX", &[]), vec![(2, 0, 1, SemanticTokenType::Variable)]);
    assert_eq!(SemanticTokenType::Comment.index(), 6);
    assert_eq!(intrinsic_functions().len(), 48);
}
