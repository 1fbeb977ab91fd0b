use rosy::statements::{
    ArggetStatement, DafloStatement, DanotwStatement, DapewStatement, DarevStatement, ImunitStatement,
    ScrlenStatement, StcreStatement, VezeroStatement,
};
use rosy::transpile::{
    ExprOutput, RosyBaseType, RosyType, TranspileContext, TranspileError, VariableInfo, VariableScope,
};

fn ty(b: RosyBaseType, d: usize) -> RosyType {
    RosyType { base_type: b, dimensions: d }
}

fn expr(code: &str) -> ExprOutput {
    ExprOutput {
        serialization: code.to_string(),
        value: code.to_string(),
        by_ref: format!("&{code}"),
        by_mut_ref: format!("&mut {code}"),
        requested: vec![],
    }
}

fn expr_requesting(code: &str, var: &str) -> ExprOutput {
    ExprOutput { requested: vec![var.to_string()], ..expr(code) }
}

fn ctx() -> TranspileContext {
    TranspileContext {
        variables: vec![
            VariableInfo { name: "X".to_string(), scope: VariableScope::Local, ty: ty(RosyBaseType::RE, 0) },
            VariableInfo { name: "A".to_string(), scope: VariableScope::Arg, ty: ty(RosyBaseType::ANY, 0) },
            VariableInfo { name: "H".to_string(), scope: VariableScope::Higher, ty: ty(RosyBaseType::CM, 0) },
        ],
    }
}

#[test]
fn imunit_stores_the_imaginary_unit() {
    let c = ctx();
    let out = ImunitStatement { name: "H".to_string(), target: expr("H") }.transpile(&c).unwrap();
    assert_eq!(out.serialization, "*H = num_complex::Complex64::new(0.0, 1.0);");
    assert_eq!(out.requested, vec!["H".to_string()]);
    let out = ImunitStatement { name: "A".to_string(), target: expr("A") }.transpile(&c).unwrap();
    assert_eq!(out.serialization, "*A = RosyValue::from(num_complex::Complex64::new(0.0, 1.0));");
    assert!(out.requested.is_empty());
    assert!(matches!(
        ImunitStatement { name: "Q".to_string(), target: expr("Q") }.transpile(&c),
        Err(TranspileError::UndefinedVariable { name }) if name == "Q"
    ));
}

#[test]
fn argget_and_stcre_store_converted_values() {
    let c = ctx();
    let out = ArggetStatement { index: expr_requesting("I", "I"), name: "X".to_string(), target: expr("X") }
        .transpile(&c)
        .unwrap();
    assert_eq!(out.serialization, "X = std::env::args().nth(rosy_as_usize(&(I))).unwrap_or_default();");
    assert_eq!(out.requested, vec!["I".to_string()]);
    let out = StcreStatement { string: expr("S"), name: "X".to_string(), target: expr("X") }.transpile(&c).unwrap();
    assert_eq!(out.serialization, "X = rosy_as_f64(&(S));");
    let out = StcreStatement { string: expr("S"), name: "A".to_string(), target: expr("A") }.transpile(&c).unwrap();
    assert_eq!(out.serialization, "*A = RosyValue::from(rosy_as_f64(&(S)));");
}

#[test]
fn scrlen_writes_back_through_references() {
    let c = ctx();
    let out = ScrlenStatement { size: expr("X"), size_name: Some("X".to_string()) }.transpile(&c).unwrap();
    assert_eq!(out.serialization, "{ let mut __scrlen = rosy_as_f64(&(X)); rosy_scrlen(&mut __scrlen)?; X.set_f64(__scrlen); }");
    assert!(matches!(
        ScrlenStatement { size: expr("Q"), size_name: Some("Q".to_string()) }.transpile(&c),
        Err(TranspileError::UndefinedVariable { .. })
    ));
}

#[test]
fn da_statement_calls() {
    let v = VezeroStatement { array: expr("V"), num_elements: expr("2f64"), threshold: expr("T") }.transpile();
    assert_eq!(v.serialization, "rosy_vezero(&mut V, 2f64, T);");
    let d = DanotwStatement { weights: expr("W"), size: expr("N") }.transpile();
    assert_eq!(
        d.serialization,
        "{\n\t\t\tlet __danotw_weights = W;\n\t\t\tlet __danotw_size = rosy_as_usize(&(N));\n\t\t\tlet __danotw_vec: Vec<u32> = __danotw_weights.iter().take(__danotw_size).map(|&v| v as u32).collect();\n\t\t\ttaylor::set_weight_vector(__danotw_vec)?;\n\t\t}"
    );
    let f = DafloStatement { rhs: expr("F"), ic: expr("I"), result: expr_requesting("R", "R"), dim: expr("2f64") }
        .transpile();
    assert_eq!(f.serialization, "rosy_lib::core::da_ops::rosy_daflo(&F, &I, &mut R, rosy_as_usize(&(2f64)))?;");
    assert_eq!(f.requested, vec!["R".to_string()]);
    let p = DapewStatement { unit: expr("6f64"), da: expr("D"), var_i: expr("1f64"), order_n: expr("3f64") }.transpile();
    assert_eq!(
        p.serialization,
        "rosy_lib::core::dapew::rosy_dapew(rosy_as_u64(&(6f64)), &D, rosy_as_usize(&(1f64)), rosy_as_u32(&(3f64)))?;"
    );
    let r = DarevStatement {
        array: expr("M"),
        num_components: expr("2f64"),
        max_vars: expr("6f64"),
        current_vars: expr("2f64"),
        unit: expr("10f64"),
    }
    .transpile();
    assert_eq!(
        r.serialization,
        "rosy_lib::core::daprv::rosy_darev(&mut M, rosy_as_usize(&(2f64)), rosy_as_usize(&(6f64)), rosy_as_usize(&(2f64)), rosy_as_u64(&(10f64)))?;"
    );
}
