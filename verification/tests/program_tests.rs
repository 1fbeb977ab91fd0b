use rosy::assign::{
    declared_decision, reassign_decision, re_da_assignment_type, re_ve_assignment_type, AssignStatement,
    AssignValue, InferenceDecision,
};
use rosy::embedded::{build_plan, generate_cargo_toml, inject_code, rosy_lib_dependency, InjectError};
use rosy::program::{
    check_module_version, github_cache_name, is_include_source, module_source_type, unquote,
    IncludeStep, IncludeTracker, ModuleError, ModuleSourceType, Program, Statement,
};
use rosy::statements::{PolvalStatement, ReranStatement, ScrlenStatement};
use rosy::transpile::{
    ExprOutput, RosyBaseType, RosyType, TranspileContext, TranspileError, VariableInfo, VariableScope,
};

fn ty(b: RosyBaseType, d: usize) -> RosyType {
    RosyType { base_type: b, dimensions: d }
}

fn expr(code: &str) -> ExprOutput {
    ExprOutput {
        serialization: code.to_string(),
        value: code.to_string(),
        by_ref: format!("&{code}"),
        by_mut_ref: format!("&mut {code}"),
        requested: vec![],
    }
}

fn ctx() -> TranspileContext {
    TranspileContext {
        variables: vec![
            VariableInfo { name: "X".to_string(), scope: VariableScope::Local, ty: ty(RosyBaseType::RE, 0) },
            VariableInfo { name: "A".to_string(), scope: VariableScope::Arg, ty: ty(RosyBaseType::VE, 0) },
            VariableInfo { name: "H".to_string(), scope: VariableScope::Higher, ty: ty(RosyBaseType::DA, 1) },
        ],
    }
}

#[test]
fn include_of_a_completed_file_is_skipped_and_a_cycle_is_refused() {
    let mut t = IncludeTracker::new();
    assert_eq!(t.begin_include("/lib/a.rosy"), IncludeStep::Proceed);
    assert_eq!(t.begin_include("/lib/b.rosy"), IncludeStep::Proceed);
    match t.begin_include("/lib/a.rosy") {
        IncludeStep::Circular { chain } => assert_eq!(chain, vec!["/lib/a.rosy".to_string(), "/lib/b.rosy".to_string()]),
        other => panic!("expected a cycle, got {other:?}"),
    }
    t.finish_include("/lib/b.rosy");
    t.finish_include("/lib/a.rosy");
    assert_eq!(t.begin_include("/lib/a.rosy"), IncludeStep::AlreadyIncluded);
    assert_eq!(t.begin_include("/lib/b.rosy"), IncludeStep::AlreadyIncluded);
}

#[test]
fn quoted_strings_and_sources() {
    assert_eq!(unquote("'it''s'", true), "it's");
    assert_eq!(unquote("\"it''s\"", false), "it''s");
    assert_eq!(unquote("''", true), "");
    assert!(is_include_source("lib/x.FOX"));
    assert!(is_include_source("x.rosy"));
    assert!(!is_include_source("x.rs"));
    assert!(!is_include_source("cosy"));
    assert_eq!(module_source_type("github"), Some(ModuleSourceType::Github));
    assert_eq!(module_source_type("Path"), Some(ModuleSourceType::Path));
    assert_eq!(module_source_type("svn"), None);
    assert_eq!(ModuleSourceType::Github.label(), "GITHUB");
}

#[test]
fn module_statements() {
    assert_eq!(github_cache_name("owner/repo", Some("1.2.0")).unwrap(), "repo-1.2.0");
    assert_eq!(github_cache_name("repo", Some("v1")).unwrap(), "repo-v1");
    assert_eq!(github_cache_name("owner/repo", None), Err(ModuleError::MissingVersion));
    assert_eq!(github_cache_name("owner/", Some("1")), Err(ModuleError::InvalidRepository));
    assert_eq!(check_module_version(ModuleSourceType::Path, Some("1.0"), "1.1"), Err(ModuleError::VersionMismatch));
    assert_eq!(check_module_version(ModuleSourceType::Path, Some("1.1"), "1.1"), Ok(()));
    assert_eq!(check_module_version(ModuleSourceType::Github, Some("1.0"), "1.1"), Ok(()));
    assert_eq!(check_module_version(ModuleSourceType::Path, None, "1.1"), Ok(()));
}

#[test]
fn assignment_type_inference() {
    let re = ty(RosyBaseType::RE, 0);
    let ve = ty(RosyBaseType::VE, 0);
    let st = ty(RosyBaseType::ST, 0);
    let lo = ty(RosyBaseType::LO, 0);
    let da = ty(RosyBaseType::DA, 0);
    assert_eq!(re_ve_assignment_type(re, ve), Some(ve));
    assert_eq!(re_da_assignment_type(da, re), Some(da));
    assert_eq!(re_ve_assignment_type(re, ty(RosyBaseType::VE, 1)), None);
    // X := 0 then X := X & I: RE promoted to VE
    assert_eq!(reassign_decision(re, ve, true), InferenceDecision::Retype(ve));
    // ST then LO: untyped
    assert_eq!(reassign_decision(st, lo, true), InferenceDecision::MarkAny);
    assert_eq!(reassign_decision(st, lo, false), InferenceDecision::MarkAny);
    assert_eq!(reassign_decision(ty(RosyBaseType::ST, 1), ty(RosyBaseType::LO, 1), false),
        InferenceDecision::Conflict { old: ty(RosyBaseType::ST, 1), new: ty(RosyBaseType::LO, 1) });
    assert_eq!(reassign_decision(da, ty(RosyBaseType::DA, 1), false), InferenceDecision::Retype(ty(RosyBaseType::DA, 1)));
    // a declared RE stays RE when a DA is stored; a VE indexed once takes reals
    assert_eq!(declared_decision(da, 0, Some(re), false), InferenceDecision::Keep);
    assert_eq!(declared_decision(ve, 1, Some(re), false), InferenceDecision::Keep);
    assert_eq!(declared_decision(re, 0, Some(st), false), InferenceDecision::Conflict { old: re, new: st });
    assert_eq!(declared_decision(re, 0, Some(st), true), InferenceDecision::MarkAny);
    assert_eq!(declared_decision(ty(RosyBaseType::DA, 1), 1, Some(ty(RosyBaseType::DA, 1)), false),
        InferenceDecision::Retype(ty(RosyBaseType::DA, 2)));
}

fn assign(name: &str, target_type: RosyType, indices: Vec<ExprOutput>, value: Option<AssignValue>) -> AssignStatement {
    AssignStatement {
        name: name.to_string(),
        rust_name: name.to_string(),
        target: expr(name),
        target_type,
        container_holds_values: false,
        indices,
        value,
    }
}

fn value(t: RosyType, code: &str) -> AssignValue {
    AssignValue {
        ty: t,
        requested: vec![],
        owned: code.to_string(),
        owned_as_target: code.to_string(),
        by_ref: format!("&{code}"),
        append: None,
    }
}

#[test]
fn assignment_code() {
    let c = ctx();
    let re = ty(RosyBaseType::RE, 0);
    let out = assign("X", re, vec![], Some(value(re, "2f64"))).transpile(&c).unwrap();
    assert_eq!(out.serialization, "X = 2f64;");
    let out = assign("A", ty(RosyBaseType::VE, 0), vec![], Some(value(re, "1f64"))).transpile(&c).unwrap();
    assert_eq!(out.serialization, "{ let __rosy_self_ref_tmp = vec![1f64]; *A = __rosy_self_ref_tmp; }");
    let out = assign("H", ty(RosyBaseType::DA, 0), vec![expr("i")], Some(value(ty(RosyBaseType::DA, 0), "d"))).transpile(&c).unwrap();
    assert_eq!(out.serialization, "{ let __rosy_self_ref_tmp = d; *rosy_get_mut(H, i, \"H\") = (__rosy_self_ref_tmp).into(); }");
    assert_eq!(out.requested, vec!["H".to_string()]);
    let out = assign("H", ty(RosyBaseType::DA, 1), vec![], None).transpile(&c).unwrap();
    assert_eq!(out.serialization, "*H = vec![];");
    assert!(matches!(assign("X", re, vec![], None).transpile(&c), Err(TranspileError::ClearNotAllowed { .. })));
    assert!(matches!(
        assign("X", re, vec![], Some(value(ty(RosyBaseType::ST, 0), "s"))).transpile(&c),
        Err(TranspileError::IncompatibleAssignment { .. })
    ));
    assert!(matches!(
        assign("Q", re, vec![], Some(value(re, "1f64"))).transpile(&c),
        Err(TranspileError::UndefinedVariable { .. })
    ));
}

#[test]
fn statement_code_and_program() {
    let c = ctx();
    let scr = ScrlenStatement { size: expr("n"), size_name: Some("A".to_string()) };
    assert_eq!(
        scr.transpile(&c).unwrap().serialization,
        "{ let mut __scrlen = rosy_as_f64(&(n)); rosy_scrlen(&mut __scrlen)?; (*A).set_f64(__scrlen); }"
    );
    let pv = PolvalStatement {
        l: expr("1f64"),
        p: expr("P"),
        np: expr("1f64"),
        a: expr("R"),
        na: expr("1f64"),
        r: expr("R"),
        nr: expr("1f64"),
        p_type: ty(RosyBaseType::DA, 1),
        a_type: ty(RosyBaseType::VE, 1),
        r_type: ty(RosyBaseType::VE, 1),
    };
    assert_eq!(
        pv.transpile().serialization,
        "rosy_lib::core::polval::rosy_polval_ve(1f64, &P, rosy_as_usize(&(1f64)), &R.clone(), rosy_as_usize(&(1f64)), &mut R, rosy_as_usize(&(1f64)))?;"
    );
    let prog = Program {
        statements: vec![
            Statement::Reran(ReranStatement { name: "X".to_string(), target: expr("X") }),
            Statement::Scrlen(ScrlenStatement { size: expr("3f64"), size_name: None }),
        ],
    };
    let out = prog.transpile(&c).unwrap();
    assert_eq!(
        out.serialization,
        "X = rosy_lib::core::rng::rosy_reran();\n{ let mut __scrlen = rosy_as_f64(&(3f64)); rosy_scrlen(&mut __scrlen)?; }"
    );
    let bad = Program {
        statements: vec![
            Statement::Reran(ReranStatement { name: "Z".to_string(), target: expr("Z") }),
            Statement::Reran(ReranStatement { name: "W".to_string(), target: expr("W") }),
        ],
    };
    match bad.transpile(&c) {
        Err(errors) => {
            assert_eq!(errors.len(), 2);
            assert!(matches!(&errors[0], TranspileError::UndefinedVariable { name } if name == "Z"));
            assert!(matches!(&errors[1], TranspileError::UndefinedVariable { name } if name == "W"));
        }
        Ok(_) => panic!("undefined variables must be refused"),
    }
}

#[test]
fn generated_project_files() {
    let template = "head\n// <MPI_START>\nmpi\n// <MPI_END>\nbody\n    // <INJECT_START>\nold\n\t// <INJECT_END>\ntail";
    let out = inject_code(template, "a;\r\nb;\n", false).unwrap();
    assert_eq!(out, "head\n\nbody\n    // <INJECT_START>\n\ta;\n\tb;\n\t// <INJECT_END>\ntail");
    let with_mpi = inject_code(template, "a;", true).unwrap();
    assert!(with_mpi.contains("mpi"));
    assert_eq!(inject_code("no markers", "x", true), Err(InjectError::InjectStart));
    assert_eq!(inject_code("// <MPI_START> // <MPI_START>", "x", false), Err(InjectError::MpiStart));
    assert_eq!(inject_code("// <MPI_START>", "x", false), Err(InjectError::MpiEnd));
    assert_eq!(inject_code("// <INJECT_START>", "x", true), Err(InjectError::InjectEnd));
    let dep = rosy_lib_dependency(Some("C:\\src\\rosy-lib"), "0.3.0", true, false);
    assert_eq!(dep, "rosy-lib = { path = \"C:/src/rosy-lib\", features = [\"mpi\"] }");
    let dep = rosy_lib_dependency(None, "0.3.0", false, false);
    assert_eq!(dep, "rosy-lib = { version = \"0.3.0\" }");
    let toml = generate_cargo_toml(false, &dep);
    assert!(toml.starts_with("[workspace]\n\n[package]\nname = \"rosy_output\""));
    assert!(toml.ends_with("num-complex = \"0.4\"\n\n[profile.release]\ncodegen-units = 1\n"));
}

#[test]
fn build_plans_follow_the_mode() {
    let p = build_plan("let ctx = rosy_mpi_context();", true, true, false);
    assert!(p.uses_mpi);
    assert_eq!(p.cargo_args, vec!["build", "--bin", "rosy_output", "--color", "always", "--release"]);
    assert_eq!(p.profile_dir, "release");
    assert_eq!(p.profile_label, "optimized");
    let q = build_plan("fn main() {}", false, false, true);
    assert!(!q.uses_mpi);
    assert_eq!(q.cargo_args, vec!["build", "--bin", "rosy_output"]);
    assert_eq!(q.profile_dir, "debug");
    assert_eq!(q.profile_label, "debug");
}
