use rosy::syntax_config::{is_fox_extension, is_fox_path, SyntaxConfig};

#[test]
fn with_path_sets_and_restores() {
    let mut cfg = SyntaxConfig::new();
    assert!(cfg.current_source_path().is_none());
    cfg.with_path(Some("/tmp/foo.rosy"), |mut outer| {
        assert_eq!(outer.current_source_path().as_deref(), Some("/tmp/foo.rosy"));
        outer.with_path(Some("/tmp/bar.fox"), |inner| {
            assert!(inner.is_cosy_syntax());
            assert_eq!(inner.current_source_path().as_deref(), Some("/tmp/bar.fox"));
        });
        assert!(!outer.is_cosy_syntax());
        assert_eq!(outer.current_source_path().as_deref(), Some("/tmp/foo.rosy"));
    });
    assert!(cfg.current_source_path().is_none());
}

#[test]
fn fox_extension_in_any_case_selects_cosy() {
    assert!(is_fox_path("/tmp/a.fox"));
    assert!(is_fox_path("/tmp/a.FOX"));
    assert!(is_fox_path("b.Fox"));
    assert!(!is_fox_path("/tmp/a.rosy"));
    assert!(!is_fox_path("/tmp/fox"));
    assert!(!is_fox_path("/tmp/.fox"));
    assert!(is_fox_extension(&Some("fOx".to_string())));
    assert!(!is_fox_extension(&None));
}

#[test]
fn apply_from_path_keeps_the_current_path() {
    let mut cfg = SyntaxConfig::new();
    cfg.apply_from_path(Some("x.fox"));
    assert!(cfg.is_cosy_syntax());
    assert!(cfg.current_source_path().is_none());
    cfg.apply_from_path(None);
    assert!(!cfg.is_cosy_syntax());
    cfg.set_cosy_syntax(true);
    assert!(cfg.is_cosy_syntax());
}
