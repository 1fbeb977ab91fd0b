//! The Rust code of the statements SCRLEN, IMUNIT, ARGGET, STCRE, RERAN, VEZERO, DANOTW,
//! DAFLO, DAPEW, DAREV and POLVAL, from the code their expressions produced.

use vstd::prelude::*;
use crate::assign::base_lower;
use crate::transpile::{
    ExprOutput, RosyBaseType, RosyType, TranspileContext, TranspileError, TranspileOutput,
    VariableScope, deref_for, deref_text, req, request_all, scope_of, type_of, with_scope_request,
};

verus! {

fn empty_requests() -> (r: Vec<String>)
    ensures
        req(r@) == Set::<Seq<char>>::empty(),
{
    let r: Vec<String> = Vec::new();
    proof {
        assert(req(r@) =~= Set::<Seq<char>>::empty());
    }
    r
}

/// The requests of several expression outputs, together.
pub open spec fn reqs(outs: Seq<ExprOutput>) -> Set<Seq<char>>
    decreases outs.len(),
{
    if outs.len() == 0 {
        Set::empty()
    } else {
        reqs(outs.drop_last()) + req(outs.last().requested@)
    }
}

proof fn lemma_reqs_push(outs: Seq<ExprOutput>, e: ExprOutput)
    ensures
        reqs(outs.push(e)) == reqs(outs) + req(e.requested@),
{
    assert(outs.push(e).drop_last() =~= outs);
}

/// `SCRLEN c;`: sets the screen length from `size`; when the argument is a bare variable it
/// receives the length the runtime settles on.
pub struct ScrlenStatement {
    pub size: ExprOutput,
    /// The argument's name when it is a bare variable.
    pub size_name: Option<String>,
}

/// `IMUNIT x;`: stores the imaginary unit in `x`.
pub struct ImunitStatement {
    pub name: String,
    pub target: ExprOutput,
}

/// `ARGGET i x;`: stores command-line argument `i` in `x`.
pub struct ArggetStatement {
    pub index: ExprOutput,
    pub name: String,
    pub target: ExprOutput,
}

/// `STCRE s x;`: converts the string `s` to a real stored in `x`.
pub struct StcreStatement {
    pub string: ExprOutput,
    pub name: String,
    pub target: ExprOutput,
}

/// `RERAN x;`: stores a random real in `[-1, 1]` in `x`.
pub struct ReranStatement {
    pub name: String,
    pub target: ExprOutput,
}

/// `VEZERO a n t;`: zeroes the small entries of the first `n` vectors of `a`.
pub struct VezeroStatement {
    pub array: ExprOutput,
    pub num_elements: ExprOutput,
    pub threshold: ExprOutput,
}

/// `DANOTW w n;`: sets the DA weight vector from the first `n` weights.
pub struct DanotwStatement {
    pub weights: ExprOutput,
    pub size: ExprOutput,
}

/// `DAFLO rhs ic result dim;`: the DA flow of `x' = rhs(x)`.
pub struct DafloStatement {
    pub rhs: ExprOutput,
    pub ic: ExprOutput,
    pub result: ExprOutput,
    pub dim: ExprOutput,
}

/// `DAPEW unit da i n;`: prints the part of a DA vector that depends on variable `i`.
pub struct DapewStatement {
    pub unit: ExprOutput,
    pub da: ExprOutput,
    pub var_i: ExprOutput,
    pub order_n: ExprOutput,
}

/// `DAREV a nc mv cv unit;`: reads DA vectors written by DAPRV.
pub struct DarevStatement {
    pub array: ExprOutput,
    pub num_components: ExprOutput,
    pub max_vars: ExprOutput,
    pub current_vars: ExprOutput,
    pub unit: ExprOutput,
}

/// `POLVAL l p np a na r nr;`, with the types of `p`, `a` and `r`.
pub struct PolvalStatement {
    pub l: ExprOutput,
    pub p: ExprOutput,
    pub np: ExprOutput,
    pub a: ExprOutput,
    pub na: ExprOutput,
    pub r: ExprOutput,
    pub nr: ExprOutput,
    pub p_type: RosyType,
    pub a_type: RosyType,
    pub r_type: RosyType,
}

pub open spec fn scrlen_code(val: Seq<char>, dest: Option<Seq<char>>) -> Seq<char> {
    match dest {
        Some(d) => "{ let mut __scrlen = rosy_as_f64(&("@ + val + ")); rosy_scrlen(&mut __scrlen)?; "@ + d
            + ".set_f64(__scrlen); }"@,
        None => "{ let mut __scrlen = rosy_as_f64(&("@ + val + ")); rosy_scrlen(&mut __scrlen)?; }"@,
    }
}

/// How SCRLEN writes back to a variable in `scope`.
pub open spec fn scrlen_dest(name: Seq<char>, scope: VariableScope) -> Seq<char> {
    if scope is Local {
        name
    } else {
        "(*"@ + name + ")"@
    }
}

impl ScrlenStatement {
    pub fn transpile(&self, ctx: &TranspileContext) -> (r: Result<TranspileOutput, TranspileError>)
        ensures
            match self.size_name {
                None => r matches Ok(out) && out.serialization@ == scrlen_code(self.size.value@, None)
                    && req(out.requested@) == req(self.size.requested@),
                Some(n) => match scope_of(ctx.variables@, n@) {
                    None => r matches Err(TranspileError::UndefinedVariable { name: m }) && m@ == n@,
                    Some(s) => r matches Ok(out) && out.serialization@ == scrlen_code(self.size.value@, Some(scrlen_dest(n@, s)))
                        && req(out.requested@) == with_scope_request(req(self.size.requested@), s, n@),
                },
            },
    {
        let mut requested = empty_requests();
        request_all(&mut requested, &self.size.requested);
        proof {
            assert(Set::<Seq<char>>::empty() + req(self.size.requested@) =~= req(self.size.requested@));
        }
        let mut ser = String::new();
        ser.append("{ let mut __scrlen = rosy_as_f64(&(");
        ser.append(self.size.value.as_str());
        match &self.size_name {
            Some(n) => {
                let scope = ctx.scope(n.as_str())?;
                let _ = deref_for(ctx, n.as_str(), &mut requested)?;
                ser.append(")); rosy_scrlen(&mut __scrlen)?; ");
                match scope {
                    VariableScope::Local => {
                        ser.append(n.as_str());
                    },
                    _ => {
                        ser.append("(*");
                        ser.append(n.as_str());
                        ser.append(")");
                    },
                }
                ser.append(".set_f64(__scrlen); }");
            },
            None => {
                ser.append(")); rosy_scrlen(&mut __scrlen)?; }");
            },
        }
        proof {
            assert(Seq::<char>::empty() + "{ let mut __scrlen = rosy_as_f64(&("@ =~= "{ let mut __scrlen = rosy_as_f64(&("@);
        }
        Ok(TranspileOutput { serialization: ser, requested })
    }
}

/// The code that stores `rhs` in a variable (`deref` then the target's code).
pub open spec fn store_code(scope: VariableScope, target: Seq<char>, rhs: Seq<char>) -> Seq<char> {
    deref_text(scope) + target + " = "@ + rhs + ";"@
}

/// Writes `deref target = rhs;` for a variable, adding its request.
fn store(ctx: &TranspileContext, name: &str, target: &ExprOutput, rhs: &str, requested: &mut Vec<String>) -> (r: Result<String, TranspileError>)
    ensures
        match scope_of(ctx.variables@, name@) {
            None => r matches Err(TranspileError::UndefinedVariable { name: m }) && m@ == name@,
            Some(s) => r matches Ok(code) && code@ == store_code(s, target.serialization@, rhs@)
                && req(final(requested)@) == with_scope_request(req(old(requested)@), s, name@),
        },
{
    let deref = deref_for(ctx, name, requested)?;
    let mut ser = String::new();
    ser.append(deref);
    ser.append(target.serialization.as_str());
    ser.append(" = ");
    ser.append(rhs);
    ser.append(";");
    proof {
        assert(Seq::<char>::empty() + deref@ =~= deref@);
    }
    Ok(ser)
}

/// The imaginary unit as IMUNIT stores it, wrapped for an untyped cell.
pub open spec fn imunit_rhs(any: bool) -> Seq<char> {
    if any {
        "RosyValue::from(num_complex::Complex64::new(0.0, 1.0))"@
    } else {
        "num_complex::Complex64::new(0.0, 1.0)"@
    }
}

impl ImunitStatement {
    pub fn transpile(&self, ctx: &TranspileContext) -> (r: Result<TranspileOutput, TranspileError>)
        ensures
            match scope_of(ctx.variables@, self.name@) {
                None => r matches Err(TranspileError::UndefinedVariable { name: m }) && m@ == self.name@,
                Some(s) => r matches Ok(out) && out.serialization@ == store_code(s, self.target.serialization@,
                    imunit_rhs(type_of(ctx.variables@, self.name@)->0.any_spec()))
                    && req(out.requested@) == with_scope_request(req(self.target.requested@), s, self.name@),
            },
    {
        let mut requested = empty_requests();
        request_all(&mut requested, &self.target.requested);
        proof {
            assert(Set::<Seq<char>>::empty() + req(self.target.requested@) =~= req(self.target.requested@));
            assert(ctx.variables@.skip(0) =~= ctx.variables@);
        }
        let ty = ctx.type_or(self.name.as_str(), RosyType { base_type: RosyBaseType::CM, dimensions: 0 });
        let rhs = if ty.is_any() {
            "RosyValue::from(num_complex::Complex64::new(0.0, 1.0))"
        } else {
            "num_complex::Complex64::new(0.0, 1.0)"
        };
        let ser = store(ctx, self.name.as_str(), &self.target, rhs, &mut requested)?;
        Ok(TranspileOutput { serialization: ser, requested })
    }
}

pub open spec fn argget_rhs(index: Seq<char>) -> Seq<char> {
    "std::env::args().nth(rosy_as_usize(&("@ + index + "))).unwrap_or_default()"@
}

impl ArggetStatement {
    pub fn transpile(&self, ctx: &TranspileContext) -> (r: Result<TranspileOutput, TranspileError>)
        ensures
            match scope_of(ctx.variables@, self.name@) {
                None => r matches Err(TranspileError::UndefinedVariable { name: m }) && m@ == self.name@,
                Some(s) => r matches Ok(out) && out.serialization@ == store_code(s, self.target.serialization@, argget_rhs(self.index.value@))
                    && req(out.requested@) == with_scope_request(req(self.index.requested@) + req(self.target.requested@), s, self.name@),
            },
    {
        let mut requested = empty_requests();
        request_all(&mut requested, &self.index.requested);
        request_all(&mut requested, &self.target.requested);
        proof {
            assert(Set::<Seq<char>>::empty() + req(self.index.requested@) =~= req(self.index.requested@));
        }
        let mut rhs = String::new();
        rhs.append("std::env::args().nth(rosy_as_usize(&(");
        rhs.append(self.index.value.as_str());
        rhs.append("))).unwrap_or_default()");
        proof {
            assert(Seq::<char>::empty() + "std::env::args().nth(rosy_as_usize(&("@ =~= "std::env::args().nth(rosy_as_usize(&("@);
        }
        let ser = store(ctx, self.name.as_str(), &self.target, rhs.as_str(), &mut requested)?;
        Ok(TranspileOutput { serialization: ser, requested })
    }
}

pub open spec fn stcre_rhs(string: Seq<char>, any: bool) -> Seq<char> {
    let rhs = "rosy_as_f64(&("@ + string + "))"@;
    if any {
        "RosyValue::from("@ + rhs + ")"@
    } else {
        rhs
    }
}

impl StcreStatement {
    pub fn transpile(&self, ctx: &TranspileContext) -> (r: Result<TranspileOutput, TranspileError>)
        ensures
            match scope_of(ctx.variables@, self.name@) {
                None => r matches Err(TranspileError::UndefinedVariable { name: m }) && m@ == self.name@,
                Some(s) => r matches Ok(out) && out.serialization@ == store_code(s, self.target.serialization@,
                    stcre_rhs(self.string.value@, type_of(ctx.variables@, self.name@)->0.any_spec()))
                    && req(out.requested@) == with_scope_request(req(self.string.requested@) + req(self.target.requested@), s, self.name@),
            },
    {
        let mut requested = empty_requests();
        request_all(&mut requested, &self.string.requested);
        request_all(&mut requested, &self.target.requested);
        proof {
            assert(Set::<Seq<char>>::empty() + req(self.string.requested@) =~= req(self.string.requested@));
            assert(ctx.variables@.skip(0) =~= ctx.variables@);
        }
        let ty = ctx.type_or(self.name.as_str(), RosyType { base_type: RosyBaseType::RE, dimensions: 0 });
        let mut rhs = String::new();
        if ty.is_any() {
            rhs.append("RosyValue::from(");
        }
        rhs.append("rosy_as_f64(&(");
        rhs.append(self.string.value.as_str());
        rhs.append("))");
        if ty.is_any() {
            rhs.append(")");
        }
        proof {
            assert(Seq::<char>::empty() + "rosy_as_f64(&("@ =~= "rosy_as_f64(&("@);
            assert(Seq::<char>::empty() + "RosyValue::from("@ =~= "RosyValue::from("@);
        }
        let ser = store(ctx, self.name.as_str(), &self.target, rhs.as_str(), &mut requested)?;
        Ok(TranspileOutput { serialization: ser, requested })
    }
}

impl ReranStatement {
    pub fn transpile(&self, ctx: &TranspileContext) -> (r: Result<TranspileOutput, TranspileError>)
        ensures
            match scope_of(ctx.variables@, self.name@) {
                None => r matches Err(TranspileError::UndefinedVariable { name: m }) && m@ == self.name@,
                Some(s) => r matches Ok(out) && out.serialization@ == store_code(s, self.target.serialization@,
                    "rosy_lib::core::rng::rosy_reran()"@)
                    && req(out.requested@) == with_scope_request(req(self.target.requested@), s, self.name@),
            },
    {
        let mut requested = empty_requests();
        request_all(&mut requested, &self.target.requested);
        proof {
            assert(Set::<Seq<char>>::empty() + req(self.target.requested@) =~= req(self.target.requested@));
        }
        let ser = store(ctx, self.name.as_str(), &self.target, "rosy_lib::core::rng::rosy_reran()", &mut requested)?;
        Ok(TranspileOutput { serialization: ser, requested })
    }
}

/// Adds the requests of `e` to `requested`, keeping track of the outputs seen.
fn gather(requested: &mut Vec<String>, e: &ExprOutput, Ghost(seen): Ghost<Seq<ExprOutput>>)
    requires
        req(old(requested)@) == reqs(seen),
    ensures
        req(final(requested)@) == reqs(seen.push(*e)),
{
    request_all(requested, &e.requested);
    proof {
        lemma_reqs_push(seen, *e);
    }
}

pub open spec fn vezero_code(st: VezeroStatement) -> Seq<char> {
    "rosy_vezero("@ + st.array.by_mut_ref@ + ", "@ + st.num_elements.value@ + ", "@ + st.threshold.value@ + ");"@
}

impl VezeroStatement {
    pub fn transpile(&self) -> (r: TranspileOutput)
        ensures
            r.serialization@ == vezero_code(*self),
            req(r.requested@) == reqs(seq![self.array, self.num_elements, self.threshold]),
    {
        let mut requested = empty_requests();
        gather(&mut requested, &self.array, Ghost(Seq::empty()));
        gather(&mut requested, &self.num_elements, Ghost(Seq::empty().push(self.array)));
        gather(&mut requested, &self.threshold, Ghost(Seq::empty().push(self.array).push(self.num_elements)));
        let mut ser = String::new();
        ser.append("rosy_vezero(");
        ser.append(self.array.by_mut_ref.as_str());
        ser.append(", ");
        ser.append(self.num_elements.value.as_str());
        ser.append(", ");
        ser.append(self.threshold.value.as_str());
        ser.append(");");
        proof {
            assert(seq![self.array].push(self.num_elements) =~= seq![self.array, self.num_elements]);
            assert(seq![self.array, self.num_elements].push(self.threshold) =~= seq![self.array, self.num_elements, self.threshold]);
            assert(Seq::<ExprOutput>::empty().push(self.array) =~= seq![self.array]);
            assert(Seq::<char>::empty() + "rosy_vezero("@ =~= "rosy_vezero("@);
        }
        TranspileOutput { serialization: ser, requested }
    }
}

pub open spec fn danotw_code(st: DanotwStatement) -> Seq<char> {
    "{\n\t\t\tlet __danotw_weights = "@ + st.weights.value@ + ";\n\t\t\tlet __danotw_size = rosy_as_usize(&("@ + st.size.value@
        + "));\n\t\t\tlet __danotw_vec: Vec<u32> = __danotw_weights.iter().take(__danotw_size).map(|&v| v as u32).collect();\n\t\t\ttaylor::set_weight_vector(__danotw_vec)?;\n\t\t}"@
}

impl DanotwStatement {
    pub fn transpile(&self) -> (r: TranspileOutput)
        ensures
            r.serialization@ == danotw_code(*self),
            req(r.requested@) == reqs(seq![self.weights, self.size]),
    {
        let mut requested = empty_requests();
        gather(&mut requested, &self.weights, Ghost(Seq::empty()));
        gather(&mut requested, &self.size, Ghost(Seq::empty().push(self.weights)));
        let mut ser = String::new();
        ser.append("{\n\t\t\tlet __danotw_weights = ");
        ser.append(self.weights.value.as_str());
        ser.append(";\n\t\t\tlet __danotw_size = rosy_as_usize(&(");
        ser.append(self.size.value.as_str());
        ser.append("));\n\t\t\tlet __danotw_vec: Vec<u32> = __danotw_weights.iter().take(__danotw_size).map(|&v| v as u32).collect();\n\t\t\ttaylor::set_weight_vector(__danotw_vec)?;\n\t\t}");
        proof {
            assert(Seq::<ExprOutput>::empty().push(self.weights) =~= seq![self.weights]);
            assert(seq![self.weights].push(self.size) =~= seq![self.weights, self.size]);
            assert(Seq::<char>::empty() + "{\n\t\t\tlet __danotw_weights = "@ =~= "{\n\t\t\tlet __danotw_weights = "@);
        }
        TranspileOutput { serialization: ser, requested }
    }
}

pub open spec fn daflo_code(st: DafloStatement) -> Seq<char> {
    "rosy_lib::core::da_ops::rosy_daflo("@ + st.rhs.by_ref@ + ", "@ + st.ic.by_ref@ + ", "@ + st.result.by_mut_ref@
        + ", rosy_as_usize(&("@ + st.dim.value@ + ")))?;"@
}

impl DafloStatement {
    pub fn transpile(&self) -> (r: TranspileOutput)
        ensures
            r.serialization@ == daflo_code(*self),
            req(r.requested@) == reqs(seq![self.rhs, self.ic, self.result, self.dim]),
    {
        let mut requested = empty_requests();
        gather(&mut requested, &self.rhs, Ghost(Seq::empty()));
        gather(&mut requested, &self.ic, Ghost(Seq::empty().push(self.rhs)));
        gather(&mut requested, &self.result, Ghost(Seq::empty().push(self.rhs).push(self.ic)));
        gather(&mut requested, &self.dim, Ghost(Seq::empty().push(self.rhs).push(self.ic).push(self.result)));
        let mut ser = String::new();
        ser.append("rosy_lib::core::da_ops::rosy_daflo(");
        ser.append(self.rhs.by_ref.as_str());
        ser.append(", ");
        ser.append(self.ic.by_ref.as_str());
        ser.append(", ");
        ser.append(self.result.by_mut_ref.as_str());
        ser.append(", rosy_as_usize(&(");
        ser.append(self.dim.value.as_str());
        ser.append(")))?;");
        proof {
            assert(Seq::<ExprOutput>::empty().push(self.rhs) =~= seq![self.rhs]);
            assert(seq![self.rhs].push(self.ic) =~= seq![self.rhs, self.ic]);
            assert(seq![self.rhs, self.ic].push(self.result) =~= seq![self.rhs, self.ic, self.result]);
            assert(seq![self.rhs, self.ic, self.result].push(self.dim) =~= seq![self.rhs, self.ic, self.result, self.dim]);
            assert(Seq::<char>::empty() + "rosy_lib::core::da_ops::rosy_daflo("@ =~= "rosy_lib::core::da_ops::rosy_daflo("@);
        }
        TranspileOutput { serialization: ser, requested }
    }
}

pub open spec fn dapew_code(st: DapewStatement) -> Seq<char> {
    "rosy_lib::core::dapew::rosy_dapew(rosy_as_u64(&("@ + st.unit.value@ + ")), "@ + st.da.by_ref@
        + ", rosy_as_usize(&("@ + st.var_i.value@ + ")), rosy_as_u32(&("@ + st.order_n.value@ + ")))?;"@
}

impl DapewStatement {
    pub fn transpile(&self) -> (r: TranspileOutput)
        ensures
            r.serialization@ == dapew_code(*self),
            req(r.requested@) == reqs(seq![self.unit, self.da, self.var_i, self.order_n]),
    {
        let mut requested = empty_requests();
        gather(&mut requested, &self.unit, Ghost(Seq::empty()));
        gather(&mut requested, &self.da, Ghost(Seq::empty().push(self.unit)));
        gather(&mut requested, &self.var_i, Ghost(Seq::empty().push(self.unit).push(self.da)));
        gather(&mut requested, &self.order_n, Ghost(Seq::empty().push(self.unit).push(self.da).push(self.var_i)));
        let mut ser = String::new();
        ser.append("rosy_lib::core::dapew::rosy_dapew(rosy_as_u64(&(");
        ser.append(self.unit.value.as_str());
        ser.append(")), ");
        ser.append(self.da.by_ref.as_str());
        ser.append(", rosy_as_usize(&(");
        ser.append(self.var_i.value.as_str());
        ser.append(")), rosy_as_u32(&(");
        ser.append(self.order_n.value.as_str());
        ser.append(")))?;");
        proof {
            assert(Seq::<ExprOutput>::empty().push(self.unit) =~= seq![self.unit]);
            assert(seq![self.unit].push(self.da) =~= seq![self.unit, self.da]);
            assert(seq![self.unit, self.da].push(self.var_i) =~= seq![self.unit, self.da, self.var_i]);
            assert(seq![self.unit, self.da, self.var_i].push(self.order_n) =~= seq![self.unit, self.da, self.var_i, self.order_n]);
            assert(Seq::<char>::empty() + "rosy_lib::core::dapew::rosy_dapew(rosy_as_u64(&("@ =~= "rosy_lib::core::dapew::rosy_dapew(rosy_as_u64(&("@);
        }
        TranspileOutput { serialization: ser, requested }
    }
}

pub open spec fn darev_code(st: DarevStatement) -> Seq<char> {
    "rosy_lib::core::daprv::rosy_darev("@ + st.array.by_mut_ref@ + ", rosy_as_usize(&("@ + st.num_components.value@
        + ")), rosy_as_usize(&("@ + st.max_vars.value@ + ")), rosy_as_usize(&("@ + st.current_vars.value@
        + ")), rosy_as_u64(&("@ + st.unit.value@ + ")))?;"@
}

impl DarevStatement {
    pub fn transpile(&self) -> (r: TranspileOutput)
        ensures
            r.serialization@ == darev_code(*self),
            req(r.requested@) == reqs(seq![self.array, self.num_components, self.max_vars, self.current_vars, self.unit]),
    {
        let mut requested = empty_requests();
        gather(&mut requested, &self.array, Ghost(Seq::empty()));
        gather(&mut requested, &self.num_components, Ghost(Seq::empty().push(self.array)));
        gather(&mut requested, &self.max_vars, Ghost(Seq::empty().push(self.array).push(self.num_components)));
        gather(&mut requested, &self.current_vars, Ghost(Seq::empty().push(self.array).push(self.num_components).push(self.max_vars)));
        gather(&mut requested, &self.unit, Ghost(Seq::empty().push(self.array).push(self.num_components).push(self.max_vars).push(self.current_vars)));
        let mut ser = String::new();
        ser.append("rosy_lib::core::daprv::rosy_darev(");
        ser.append(self.array.by_mut_ref.as_str());
        ser.append(", rosy_as_usize(&(");
        ser.append(self.num_components.value.as_str());
        ser.append(")), rosy_as_usize(&(");
        ser.append(self.max_vars.value.as_str());
        ser.append(")), rosy_as_usize(&(");
        ser.append(self.current_vars.value.as_str());
        ser.append(")), rosy_as_u64(&(");
        ser.append(self.unit.value.as_str());
        ser.append(")))?;");
        proof {
            assert(Seq::<ExprOutput>::empty().push(self.array) =~= seq![self.array]);
            assert(seq![self.array].push(self.num_components) =~= seq![self.array, self.num_components]);
            assert(seq![self.array, self.num_components].push(self.max_vars) =~= seq![self.array, self.num_components, self.max_vars]);
            assert(seq![self.array, self.num_components, self.max_vars].push(self.current_vars) =~= seq![self.array, self.num_components, self.max_vars, self.current_vars]);
            assert(seq![self.array, self.num_components, self.max_vars, self.current_vars].push(self.unit) =~= seq![self.array, self.num_components, self.max_vars, self.current_vars, self.unit]);
            assert(Seq::<char>::empty() + "rosy_lib::core::daprv::rosy_darev("@ =~= "rosy_lib::core::daprv::rosy_darev("@);
        }
        TranspileOutput { serialization: ser, requested }
    }
}

/// `s` with its first `c` replaced by `rep` (`str::replacen(c, rep, 1)`).
pub open spec fn replace_first(s: Seq<char>, c: char, rep: Seq<char>) -> Seq<char>
    decreases s.len(),
{
    if s.len() == 0 {
        s
    } else if s[0] == c {
        rep + s.drop_first()
    } else {
        seq![s[0]] + replace_first(s.drop_first(), c, rep)
    }
}

/// `s` with every leading copy of `pre` removed (`str::trim_start_matches`, `pre` not empty).
pub open spec fn strip_prefixes(s: Seq<char>, pre: Seq<char>) -> Seq<char>
    decreases s.len(),
{
    if pre.len() > 0 && s.len() >= pre.len() && s.take(pre.len() as int) == pre {
        strip_prefixes(s.skip(pre.len() as int), pre)
    } else {
        s
    }
}

/// A clone of the referenced value, for an argument that aliases POLVAL's result.
pub open spec fn clone_ref(r: Seq<char>) -> Seq<char> {
    let inner = strip_prefixes(r, "&"@);
    if inner.len() > 0 && inner[0] == '*' {
        "&("@ + inner + ").clone()"@
    } else {
        "&"@ + inner + ".clone()"@
    }
}

/// The runtime function POLVAL calls for these argument types.
pub open spec fn polval_fn(p: RosyType, a: RosyType, r: RosyType) -> Seq<char> {
    if a.any_spec() || r.any_spec() || p.any_spec() {
        "rosy_polval_any"@
    } else if a.base_type == RosyBaseType::DA && a.dimensions > 0 {
        "rosy_polval_da"@
    } else if a.base_type == RosyBaseType::VE && a.dimensions > 0 {
        "rosy_polval_ve"@
    } else {
        "rosy_polval_re"@
    }
}

/// POLVAL calls the runtime function named after the kind of A's elements: the untyped one
/// (`rosy_polval_any`) as soon as one of P, A, R is untyped; otherwise the DA one
/// (composing maps) when A is an array of DA, the VE one (a batch of particles) when A is an
/// array of VE, and the real one for anything else. With typed arguments the choice depends
/// on A alone, not on P or R.
pub proof fn law_polval_runtime_follows_a(p: RosyType, a: RosyType, r: RosyType, p2: RosyType, r2: RosyType)
    ensures
        (p.any_spec() || a.any_spec() || r.any_spec())
            ==> polval_fn(p, a, r) == "rosy_polval_"@ + base_lower(RosyBaseType::ANY),
        !(p.any_spec() || a.any_spec() || r.any_spec()) && a.dimensions > 0
            && (a.base_type == RosyBaseType::DA || a.base_type == RosyBaseType::VE)
            ==> polval_fn(p, a, r) == "rosy_polval_"@ + base_lower(a.base_type),
        !(p.any_spec() || a.any_spec() || r.any_spec())
            && !(a.dimensions > 0 && (a.base_type == RosyBaseType::DA || a.base_type == RosyBaseType::VE))
            ==> polval_fn(p, a, r) == "rosy_polval_"@ + base_lower(RosyBaseType::RE),
        !(p.any_spec() || a.any_spec() || r.any_spec()) && !(p2.any_spec() || r2.any_spec())
            ==> polval_fn(p, a, r) == polval_fn(p2, a, r2),
{
    reveal_strlit("rosy_polval_");
    reveal_strlit("rosy_polval_any");
    reveal_strlit("rosy_polval_da");
    reveal_strlit("rosy_polval_ve");
    reveal_strlit("rosy_polval_re");
    reveal_strlit("any");
    reveal_strlit("da");
    reveal_strlit("ve");
    reveal_strlit("re");
    assert("rosy_polval_any"@ =~= "rosy_polval_"@ + "any"@);
    assert("rosy_polval_da"@ =~= "rosy_polval_"@ + "da"@);
    assert("rosy_polval_ve"@ =~= "rosy_polval_"@ + "ve"@);
    assert("rosy_polval_re"@ =~= "rosy_polval_"@ + "re"@);
}

/// An input argument: cloned when it is the result variable itself.
pub open spec fn polval_arg(x: Seq<char>, r_mut: Seq<char>) -> Seq<char> {
    if strip_prefixes(x, "&"@) == strip_prefixes(r_mut, "&mut "@) {
        clone_ref(x)
    } else {
        x
    }
}

pub open spec fn polval_code(st: PolvalStatement) -> Seq<char> {
    let r_mut = replace_first(st.r.by_ref@, '&', "&mut "@);
    "rosy_lib::core::polval::"@ + polval_fn(st.p_type, st.a_type, st.r_type) + "("@ + st.l.value@ + ", "@
        + polval_arg(st.p.by_ref@, r_mut) + ", rosy_as_usize(&("@ + st.np.value@ + ")), "@ + polval_arg(st.a.by_ref@, r_mut)
        + ", rosy_as_usize(&("@ + st.na.value@ + ")), "@ + r_mut + ", rosy_as_usize(&("@ + st.nr.value@ + ")))?;"@
}

fn replace_first_exec(s: &Vec<char>, c: char, rep: &str) -> (r: Vec<char>)
    ensures
        r@ == replace_first(s@, c, rep@),
{
    let mut out: Vec<char> = Vec::new();
    let mut i: usize = 0;
    proof {
        assert(s@.skip(0) =~= s@);
        assert(out@ + replace_first(s@, c, rep@) =~= replace_first(s@, c, rep@));
        assert(out@ =~= s@.take(0));
    }
    while i < s.len()
        invariant
            i <= s@.len(),
            forall|j: int| 0 <= j < i ==> s@[j] != c,
            out@ == s@.take(i as int),
            replace_first(s@, c, rep@) == out@ + replace_first(s@.skip(i as int), c, rep@),
        decreases s@.len() - i,
    {
        if s[i] == c {
            let ghost pre = out@;
            crate::text::extend_str(&mut out, rep);
            let mut j: usize = i + 1;
            let ghost mid = out@;
            while j < s.len()
                invariant
                    i < j <= s@.len(),
                    out@ == mid + s@.subrange(i + 1, j as int),
                decreases s@.len() - j,
            {
                out.push(s[j]);
                proof {
                    assert(out@ =~= mid + s@.subrange(i + 1, j + 1));
                }
                j = j + 1;
            }
            proof {
                assert(s@.skip(i as int).drop_first() =~= s@.subrange(i + 1, s@.len() as int));
            }
            return out;
        }
        out.push(s[i]);
        proof {
            assert(s@.skip(i as int).drop_first() =~= s@.skip(i + 1));
            assert(out@ =~= s@.take(i + 1));
            assert(seq![s@[i as int]] + replace_first(s@.skip(i + 1), c, rep@) == replace_first(s@.skip(i as int), c, rep@));
            assert(out@ + replace_first(s@.skip(i + 1), c, rep@) =~= s@.take(i as int) + (seq![s@[i as int]] + replace_first(s@.skip(i + 1), c, rep@)));
        }
        i = i + 1;
    }
    proof {
        assert(s@.skip(i as int) =~= Seq::<char>::empty());
        assert(out@ + Seq::<char>::empty() =~= out@);
    }
    out
}

/// Start of `strip_prefixes(s, pre)` within `s`.
fn strip_prefixes_exec(s: &Vec<char>, pre: &str) -> (r: Vec<char>)
    requires
        pre@.len() > 0,
    ensures
        r@ == strip_prefixes(s@, pre@),
{
    let p = crate::text::chars_of(pre);
    let n = s.len();
    let mut i: usize = 0;
    proof {
        assert(s@.skip(0) =~= s@);
    }
    while p.len() <= n - i
        invariant
            n == s@.len(),
            p@ == pre@,
            p@.len() > 0,
            i <= s@.len(),
            strip_prefixes(s@, pre@) == strip_prefixes(s@.skip(i as int), pre@),
        decreases s@.len() - i,
    {
        let mut k: usize = 0;
        let mut same = true;
        while k < p.len()
            invariant
                n == s@.len(),
                i + p@.len() <= s@.len(),
                k <= p@.len(),
                same == (forall|q: int| 0 <= q < k ==> s@[i + q] == p@[q]),
            decreases p@.len() - k,
        {
            if s[i + k] != p[k] {
                same = false;
            }
            k = k + 1;
        }
        if !same {
            proof {
                let q = choose|q: int| 0 <= q < p@.len() && s@[i + q] != p@[q];
                assert(s@.skip(i as int).take(p@.len() as int)[q] != p@[q]);
            }
            let t = crate::text::sub_chars(s, i, s.len());
            proof {
                assert(t@ =~= s@.skip(i as int));
            }
            return t;
        }
        proof {
            assert(s@.skip(i as int).take(p@.len() as int) =~= p@);
            assert(s@.skip(i as int).skip(p@.len() as int) =~= s@.skip(i + p@.len()));
        }
        i = i + p.len();
    }
    proof {
        assert(!(s@.skip(i as int).len() >= p@.len()));
    }
    let t = crate::text::sub_chars(s, i, s.len());
    proof {
        assert(t@ =~= s@.skip(i as int));
    }
    t
}

fn clone_ref_exec(r: &Vec<char>) -> (out: Vec<char>)
    ensures
        out@ == clone_ref(r@),
{
    proof {
        reveal_strlit("&");
    }
    let inner = strip_prefixes_exec(r, "&");
    let mut out: Vec<char> = Vec::new();
    if inner.len() > 0 && inner[0] == '*' {
        crate::text::extend_str(&mut out, "&(");
        crate::text::extend_chars(&mut out, &inner);
        crate::text::extend_str(&mut out, ").clone()");
    } else {
        crate::text::extend_str(&mut out, "&");
        crate::text::extend_chars(&mut out, &inner);
        crate::text::extend_str(&mut out, ".clone()");
    }
    proof {
        assert(Seq::<char>::empty() + "&("@ =~= "&("@);
        assert(Seq::<char>::empty() + "&"@ =~= "&"@);
    }
    out
}

fn polval_arg_exec(x: &Vec<char>, r_strip: &Vec<char>, Ghost(r_mut): Ghost<Seq<char>>) -> (out: Vec<char>)
    requires
        r_strip@ == strip_prefixes(r_mut, "&mut "@),
    ensures
        out@ == polval_arg(x@, r_mut),
{
    proof {
        reveal_strlit("&");
    }
    let xs = strip_prefixes_exec(x, "&");
    if crate::text::chars_eq(&xs, r_strip) {
        clone_ref_exec(x)
    } else {
        let mut out: Vec<char> = Vec::new();
        crate::text::extend_chars(&mut out, x);
        proof {
            assert(Seq::<char>::empty() + x@ =~= x@);
        }
        out
    }
}

fn polval_fn_exec(p: RosyType, a: RosyType, r: RosyType) -> (f: &'static str)
    ensures
        f@ == polval_fn(p, a, r),
{
    if a.is_any() || r.is_any() || p.is_any() {
        "rosy_polval_any"
    } else if a.base_type == RosyBaseType::DA && a.dimensions > 0 {
        "rosy_polval_da"
    } else if a.base_type == RosyBaseType::VE && a.dimensions > 0 {
        "rosy_polval_ve"
    } else {
        "rosy_polval_re"
    }
}

impl PolvalStatement {
    /// The call of the POLVAL runtime that fits the argument types, with the result passed
    /// mutably and any argument that is the result variable itself passed as a clone.
    pub fn transpile(&self) -> (r: TranspileOutput)
        ensures
            r.serialization@ == polval_code(*self),
            req(r.requested@) == reqs(seq![self.l, self.p, self.np, self.a, self.na, self.r, self.nr]),
    {
        let mut requested = empty_requests();
        gather(&mut requested, &self.l, Ghost(Seq::empty()));
        gather(&mut requested, &self.p, Ghost(Seq::empty().push(self.l)));
        gather(&mut requested, &self.np, Ghost(Seq::empty().push(self.l).push(self.p)));
        gather(&mut requested, &self.a, Ghost(Seq::empty().push(self.l).push(self.p).push(self.np)));
        gather(&mut requested, &self.na, Ghost(Seq::empty().push(self.l).push(self.p).push(self.np).push(self.a)));
        gather(&mut requested, &self.r, Ghost(Seq::empty().push(self.l).push(self.p).push(self.np).push(self.a).push(self.na)));
        gather(&mut requested, &self.nr, Ghost(Seq::empty().push(self.l).push(self.p).push(self.np).push(self.a).push(self.na).push(self.r)));
        let r_ref = crate::text::chars_of(self.r.by_ref.as_str());
        let r_mut = replace_first_exec(&r_ref, '&', "&mut ");
        proof {
            reveal_strlit("&mut ");
        }
        let r_strip = strip_prefixes_exec(&r_mut, "&mut ");
        let p_ref = crate::text::chars_of(self.p.by_ref.as_str());
        let a_ref = crate::text::chars_of(self.a.by_ref.as_str());
        let p_arg = polval_arg_exec(&p_ref, &r_strip, Ghost(r_mut@));
        let a_arg = polval_arg_exec(&a_ref, &r_strip, Ghost(r_mut@));
        let mut out: Vec<char> = Vec::new();
        crate::text::extend_str(&mut out, "rosy_lib::core::polval::");
        crate::text::extend_str(&mut out, polval_fn_exec(self.p_type, self.a_type, self.r_type));
        crate::text::extend_str(&mut out, "(");
        crate::text::extend_str(&mut out, self.l.value.as_str());
        crate::text::extend_str(&mut out, ", ");
        crate::text::extend_chars(&mut out, &p_arg);
        crate::text::extend_str(&mut out, ", rosy_as_usize(&(");
        crate::text::extend_str(&mut out, self.np.value.as_str());
        crate::text::extend_str(&mut out, ")), ");
        crate::text::extend_chars(&mut out, &a_arg);
        crate::text::extend_str(&mut out, ", rosy_as_usize(&(");
        crate::text::extend_str(&mut out, self.na.value.as_str());
        crate::text::extend_str(&mut out, ")), ");
        crate::text::extend_chars(&mut out, &r_mut);
        crate::text::extend_str(&mut out, ", rosy_as_usize(&(");
        crate::text::extend_str(&mut out, self.nr.value.as_str());
        crate::text::extend_str(&mut out, ")))?;");
        proof {
            assert(Seq::<ExprOutput>::empty().push(self.l).push(self.p).push(self.np).push(self.a).push(self.na).push(self.r).push(self.nr)
                =~= seq![self.l, self.p, self.np, self.a, self.na, self.r, self.nr]);
            assert(Seq::<char>::empty() + "rosy_lib::core::polval::"@ =~= "rosy_lib::core::polval::"@);
            assert(out@ =~= polval_code(*self));
        }
        TranspileOutput { serialization: crate::text::string_of(&out), requested }
    }
}

} // verus!
