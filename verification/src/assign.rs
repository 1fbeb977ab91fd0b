//! The assignment statement `name := expr;` (also `name(i) := expr;` and `name := .;`):
//! which types an assignment accepts, how type inference reacts to a re-assignment, and the
//! Rust code an assignment becomes.

use vstd::prelude::*;
use crate::transpile::{
    ExprOutput, RosyBaseType, RosyType, TranspileContext, TranspileError, TranspileOutput,
    VariableScope, deref_for, deref_text, req, request, request_all, scope_of, with_scope_request,
};

verus! {

/// `COORD(1) := COORD(1) & DA(...)` nests one more DA/CD dimension: same DA or CD base, and
/// the new type one dimension deeper than the old.
pub open spec fn nest_promote_spec(old: RosyType, new: RosyType) -> bool {
    (old.base_type == RosyBaseType::DA || old.base_type == RosyBaseType::CD) && old.base_type
        == new.base_type && new.dimensions == old.dimensions + 1
}

pub fn da_concat_nest_promote(elem_or_old: RosyType, rhs_or_new: RosyType) -> (r: bool)
    ensures
        r == nest_promote_spec(elem_or_old, rhs_or_new),
{
    let da_or_cd = match elem_or_old.base_type {
        RosyBaseType::DA | RosyBaseType::CD => true,
        _ => false,
    };
    da_or_cd && elem_or_old.base_type == rhs_or_new.base_type && elem_or_old.dimensions < usize::MAX
        && rhs_or_new.dimensions == elem_or_old.dimensions + 1
}

/// A real seeds a vector (`X := 0` then `X := X & I`): RE and VE of the same rank give VE.
pub open spec fn re_ve_spec(old: RosyType, new: RosyType) -> Option<RosyType> {
    if old.dimensions != new.dimensions {
        None
    } else if old.base_type == RosyBaseType::RE && new.base_type == RosyBaseType::VE {
        Some(new)
    } else if old.base_type == RosyBaseType::VE && new.base_type == RosyBaseType::RE {
        Some(old)
    } else {
        None
    }
}

pub fn re_ve_assignment_type(old: RosyType, new: RosyType) -> (r: Option<RosyType>)
    ensures
        r == re_ve_spec(old, new),
{
    if old.dimensions != new.dimensions {
        return None;
    }
    match (old.base_type, new.base_type) {
        (RosyBaseType::RE, RosyBaseType::VE) => Some(new),
        (RosyBaseType::VE, RosyBaseType::RE) => Some(old),
        _ => None,
    }
}

/// A real is a constant DA: RE and DA of the same rank give DA.
pub open spec fn re_da_spec(old: RosyType, new: RosyType) -> Option<RosyType> {
    if old.dimensions != new.dimensions {
        None
    } else if old.base_type == RosyBaseType::RE && new.base_type == RosyBaseType::DA {
        Some(new)
    } else if old.base_type == RosyBaseType::DA && new.base_type == RosyBaseType::RE {
        Some(old)
    } else {
        None
    }
}

pub fn re_da_assignment_type(old: RosyType, new: RosyType) -> (r: Option<RosyType>)
    ensures
        r == re_da_spec(old, new),
{
    if old.dimensions != new.dimensions {
        return None;
    }
    match (old.base_type, new.base_type) {
        (RosyBaseType::RE, RosyBaseType::DA) => Some(new),
        (RosyBaseType::DA, RosyBaseType::RE) => Some(old),
        _ => None,
    }
}

/// What type inference does with an assignment.
#[derive(Debug, Clone, Copy, PartialEq, Eq, Structural)]
pub enum InferenceDecision {
    /// The variable's type stands.
    Keep,
    /// The variable becomes this type (one more DA/CD nesting, or RE promoted to DA or VE).
    Retype(RosyType),
    /// The variable becomes an untyped cell.
    MarkAny,
    /// The assignment conflicts with the variable's type.
    Conflict { old: RosyType, new: RosyType },
}

/// The declared type an indexed assignment writes to: a VE indexed once holds reals; an
/// array loses one dimension per index.
pub open spec fn element_type_spec(declared: RosyType, num_indices: nat) -> RosyType {
    if num_indices > 0 && declared.base_type == RosyBaseType::VE && declared.dimensions == 0 {
        RosyType { base_type: RosyBaseType::RE, dimensions: 0 }
    } else {
        RosyType {
            base_type: declared.base_type,
            dimensions: if declared.dimensions >= num_indices { (declared.dimensions - num_indices) as usize } else { 0 },
        }
    }
}

/// Inference on an assignment to a variable with a declared (or already resolved) type:
/// `new` is the value's type when it can be evaluated yet.
pub open spec fn declared_decision_spec(declared: RosyType, num_indices: nat, new: Option<RosyType>, cosy: bool) -> InferenceDecision {
    let t = element_type_spec(declared, num_indices);
    if t.any_spec() {
        InferenceDecision::Keep
    } else {
        match new {
            Some(n) => if n != t && !n.any_spec() {
                if nest_promote_spec(t, n) {
                    InferenceDecision::Retype(RosyType { base_type: declared.base_type, dimensions: (declared.dimensions + 1) as usize })
                } else if re_da_spec(t, n) == Some(t) || re_ve_spec(t, n) == Some(t) {
                    InferenceDecision::Keep
                } else if cosy {
                    InferenceDecision::MarkAny
                } else {
                    InferenceDecision::Conflict { old: t, new: n }
                }
            } else {
                InferenceDecision::Keep
            },
            None => InferenceDecision::Keep,
        }
    }
}

fn element_type(declared: RosyType, num_indices: usize) -> (r: RosyType)
    ensures
        r == element_type_spec(declared, num_indices as nat),
{
    if num_indices > 0 && declared.base_type == RosyBaseType::VE && declared.dimensions == 0 {
        RosyType { base_type: RosyBaseType::RE, dimensions: 0 }
    } else {
        let d = if declared.dimensions >= num_indices { declared.dimensions - num_indices } else { 0 };
        RosyType { base_type: declared.base_type, dimensions: d }
    }
}

/// Inference on an assignment to a typed variable (see `declared_decision_spec`). In COSY
/// syntax a conflicting assignment makes the variable untyped; in Rosy it is refused.
pub fn declared_decision(declared: RosyType, num_indices: usize, new: Option<RosyType>, cosy: bool) -> (r: InferenceDecision)
    requires
        declared.dimensions < usize::MAX,
    ensures
        r == declared_decision_spec(declared, num_indices as nat, new, cosy),
{
    let t = element_type(declared, num_indices);
    if t.is_any() {
        return InferenceDecision::Keep;
    }
    match new {
        Some(n) => {
            if !n.same(&t) && !n.is_any() {
                if da_concat_nest_promote(t, n) {
                    InferenceDecision::Retype(RosyType { base_type: declared.base_type, dimensions: declared.dimensions + 1 })
                } else if re_da_assignment_type(t, n) == Some(t) || re_ve_assignment_type(t, n) == Some(t) {
                    InferenceDecision::Keep
                } else if cosy {
                    InferenceDecision::MarkAny
                } else {
                    InferenceDecision::Conflict { old: t, new: n }
                }
            } else {
                InferenceDecision::Keep
            }
        },
        None => InferenceDecision::Keep,
    }
}

/// Inference on a re-assignment of a variable whose type an earlier assignment inferred:
/// `old` and `new` are the two assignments' types.
pub open spec fn reassign_decision_spec(old: RosyType, new: RosyType, cosy: bool) -> InferenceDecision {
    if old == new {
        InferenceDecision::Keep
    } else if nest_promote_spec(old, new) {
        InferenceDecision::Retype(new)
    } else if re_da_spec(old, new) is Some {
        let p = re_da_spec(old, new)->0;
        if p != old {
            InferenceDecision::Retype(p)
        } else {
            InferenceDecision::Keep
        }
    } else if re_ve_spec(old, new) is Some {
        let p = re_ve_spec(old, new)->0;
        if p != old {
            InferenceDecision::Retype(p)
        } else {
            InferenceDecision::Keep
        }
    } else if (cosy || (old.dimensions == 0 && new.dimensions == 0)) && (cosy || old.any_spec()
        || new.any_spec() || old.base_type != new.base_type) {
        InferenceDecision::MarkAny
    } else {
        InferenceDecision::Conflict { old, new }
    }
}

/// Inference on a re-assignment (see `reassign_decision_spec`): the first assignment fixes
/// the type, except that DA/CD nesting, RE to DA and RE to VE promote it, and that in COSY
/// syntax (or between scalars of different base types) the variable becomes untyped.
pub fn reassign_decision(old: RosyType, new: RosyType, cosy: bool) -> (r: InferenceDecision)
    ensures
        r == reassign_decision_spec(old, new, cosy),
{
    if old.same(&new) {
        return InferenceDecision::Keep;
    }
    if da_concat_nest_promote(old, new) {
        return InferenceDecision::Retype(new);
    }
    match re_da_assignment_type(old, new) {
        Some(p) => {
            return if !p.same(&old) {
                InferenceDecision::Retype(p)
            } else {
                InferenceDecision::Keep
            };
        },
        None => {},
    }
    match re_ve_assignment_type(old, new) {
        Some(p) => {
            return if !p.same(&old) {
                InferenceDecision::Retype(p)
            } else {
                InferenceDecision::Keep
            };
        },
        None => {},
    }
    let any_ok = cosy || (old.dimensions == 0 && new.dimensions == 0);
    if any_ok && (cosy || old.is_any() || new.is_any() || old.base_type != new.base_type) {
        InferenceDecision::MarkAny
    } else {
        InferenceDecision::Conflict { old, new }
    }
}

/// `t` occurs in `s`.
pub open spec fn contains_text(s: Seq<char>, t: Seq<char>) -> bool {
    exists|i: int| 0 <= i && i + t.len() <= s.len() && #[trigger] s.subrange(i, i + t.len()) == t
}

/// Whether `t` occurs in `s`.
pub fn text_contains(s: &str, t: &str) -> (r: bool)
    ensures
        r == contains_text(s@, t@),
{
    let a = crate::text::chars_of(s);
    let b = crate::text::chars_of(t);
    if b.len() > a.len() {
        return false;
    }
    if b.len() == 0 {
        proof {
            assert(s@.subrange(0, 0 + t@.len() as int) =~= t@);
        }
        return true;
    }
    let n = a.len();
    let last = n - b.len();
    let mut i: usize = 0;
    while i < last + 1
        invariant
            n == a@.len(),
            1 <= b@.len() <= a@.len(),
            last == a@.len() - b@.len(),
            a@ == s@,
            b@ == t@,
            forall|j: int| 0 <= j < i ==> #[trigger] a@.subrange(j, j + b@.len()) != b@,
        decreases last + 1 - i,
    {
        let mut k: usize = 0;
        let mut same = true;
        while k < b.len()
            invariant
                n == a@.len(),
                i <= last,
                1 <= b@.len() <= a@.len(),
                last == a@.len() - b@.len(),
                k <= b@.len(),
                same == (forall|q: int| 0 <= q < k ==> a@[i + q] == b@[q]),
            decreases b@.len() - k,
        {
            if a[i + k] != b[k] {
                same = false;
            }
            k = k + 1;
        }
        if same {
            proof {
                assert(a@.subrange(i as int, i + b@.len()) =~= b@);
                assert(s@.subrange(i as int, i + t@.len()) == t@);
            }
            return true;
        }
        proof {
            let q = choose|q: int| 0 <= q < b@.len() && a@[i + q] != b@[q];
            assert(a@.subrange(i as int, i + b@.len())[q] != b@[q]);
        }
        i = i + 1;
    }
    proof {
        assert forall|j: int| 0 <= j && j + t@.len() <= s@.len() implies #[trigger] s@.subrange(j, j + t@.len()) != t@ by {
            assert(j <= last);
            assert(a@.subrange(j, j + b@.len()) != b@);
        }
    }
    false
}

/// The lower-case name of a base type, as the `expect_..` accessors of untyped cells use it.
pub open spec fn base_lower(b: RosyBaseType) -> Seq<char> {
    match b {
        RosyBaseType::RE => "re"@,
        RosyBaseType::ST => "st"@,
        RosyBaseType::LO => "lo"@,
        RosyBaseType::CM => "cm"@,
        RosyBaseType::VE => "ve"@,
        RosyBaseType::DA => "da"@,
        RosyBaseType::CD => "cd"@,
        RosyBaseType::ANY => "any"@,
    }
}

fn base_lower_str(b: RosyBaseType) -> (r: &'static str)
    ensures
        r@ == base_lower(b),
{
    match b {
        RosyBaseType::RE => "re",
        RosyBaseType::ST => "st",
        RosyBaseType::LO => "lo",
        RosyBaseType::CM => "cm",
        RosyBaseType::VE => "ve",
        RosyBaseType::DA => "da",
        RosyBaseType::CD => "cd",
        RosyBaseType::ANY => "any",
    }
}

pub open spec fn scalar(b: RosyBaseType) -> RosyType {
    RosyType { base_type: b, dimensions: 0 }
}

/// A DA/CD value stored in an array one dimension deeper is wrapped in a one-element vector.
pub open spec fn singleton_wrap_spec(var: RosyType, val: RosyType) -> bool {
    (var.base_type == RosyBaseType::DA || var.base_type == RosyBaseType::CD) && var.base_type == val.base_type
        && var.dimensions == val.dimensions + 1
}

/// The assignment is accepted: same type, an untyped side, a DA/CD singleton wrap, or a real
/// seeding a DA or VE variable.
pub open spec fn assignable_spec(var: RosyType, val: RosyType) -> bool {
    var == val || var.any_spec() || val.any_spec() || singleton_wrap_spec(var, val) || re_da_spec(var, val)
        == Some(var) || re_ve_spec(var, val) == Some(var)
}

/// The right-hand side of an assignment, as its expression produced it.
pub struct AssignValue {
    /// The value's type.
    pub ty: RosyType,
    /// Variables the value takes from enclosing scopes.
    pub requested: Vec<String>,
    /// The value's code as an owned value of its own type.
    pub owned: String,
    /// The value's code as an owned value of the variable's type.
    pub owned_as_target: String,
    /// The value's code as a reference.
    pub by_ref: String,
    /// When the assignment is `X := X & e` (or indexed), the in-place append its expression
    /// offers for the destination.
    pub append: Option<TranspileOutput>,
}

/// `name := expr;`, `name(i)... := expr;` or `name := .;`.
pub struct AssignStatement {
    /// The Rosy name of the variable.
    pub name: String,
    /// The variable's Rust identifier.
    pub rust_name: String,
    /// The code of the target as an identifier (with its indices).
    pub target: ExprOutput,
    /// The type of the target (the element type when indexed).
    pub target_type: RosyType,
    /// The variable holds untyped cells (its Rust type is built from `RosyValue`).
    pub container_holds_values: bool,
    /// The target's indices, outermost first.
    pub indices: Vec<ExprOutput>,
    /// The value; `None` for `:= .`.
    pub value: Option<AssignValue>,
}

/// The value code an assignment stores.
pub open spec fn stored_value_spec(var: RosyType, val: RosyType, num_idx: nat, container_rv: bool, owned: Seq<char>, owned_t: Seq<char>, by_ref: Seq<char>) -> Seq<char> {
    let into_cell = var.any_spec() || (num_idx > 0 && container_rv);
    if into_cell && !val.any_spec() {
        "RosyValue::from("@ + owned + ")"@
    } else if into_cell && val.any_spec() {
        if contains_text(owned, "RosyValue"@) {
            owned
        } else {
            "RosyValue::from("@ + owned + ")"@
        }
    } else if !var.any_spec() && val.any_spec() {
        "("@ + owned + ").expect_"@ + base_lower(var.base_type) + "()?"@
    } else if var == scalar(RosyBaseType::VE) && val == scalar(RosyBaseType::RE) {
        "vec!["@ + owned + "]"@
    } else if var == scalar(RosyBaseType::DA) && val == scalar(RosyBaseType::RE) {
        "DA::from_coeff("@ + owned + ")"@
    } else if var == scalar(RosyBaseType::RE) && val != scalar(RosyBaseType::RE) {
        "rosy_as_f64(&("@ + owned + "))"@
    } else if var == scalar(RosyBaseType::ST) && val != scalar(RosyBaseType::ST) {
        "RosyST::rosy_to_string(&"@ + by_ref + ")"@
    } else if singleton_wrap_spec(var, val) {
        "vec!["@ + owned + "]"@
    } else {
        owned_t
    }
}

/// `base` reached through `rosy_get_mut(.., index, "name")` for each of the first `k` indices.
pub open spec fn get_mut_chain(base: Seq<char>, idx: Seq<Seq<char>>, name: Seq<char>, k: int) -> Seq<char>
    decreases k,
{
    if k <= 0 {
        base
    } else {
        "rosy_get_mut("@ + get_mut_chain(base, idx, name, k - 1) + ", "@ + idx[k - 1] + ", \""@ + name + "\")"@
    }
}

/// Values of index outputs.
pub open spec fn index_values(ix: Seq<ExprOutput>) -> Seq<Seq<char>> {
    ix.map_values(|e: ExprOutput| e.value@)
}

/// Requested variables of index outputs, together.
pub open spec fn index_requests(ix: Seq<ExprOutput>) -> Set<Seq<char>>
    decreases ix.len(),
{
    if ix.len() == 0 {
        Set::empty()
    } else {
        index_requests(ix.drop_last()) + req(ix.last().requested@)
    }
}

/// The code of an assignment of `val` (already converted) for a variable in `scope`.
pub open spec fn assign_code_spec(st: AssignStatement, scope: VariableScope, val: Seq<char>) -> Seq<char> {
    let deref = deref_text(scope);
    let tmp = !(scope is Local);
    let n = st.indices@.len() as int;
    if n > 0 {
        let base = if scope is Local { "&mut "@ + st.rust_name@ } else { st.rust_name@ };
        let lhs = get_mut_chain(base, index_values(st.indices@), st.name@, n);
        if tmp {
            "{ let __rosy_self_ref_tmp = "@ + val + "; *"@ + lhs + " = (__rosy_self_ref_tmp).into(); }"@
        } else {
            "*"@ + lhs + " = ("@ + val + ").into();"@
        }
    } else if tmp {
        "{ let __rosy_self_ref_tmp = "@ + val + "; "@ + deref + st.target.serialization@ + " = __rosy_self_ref_tmp; }"@
    } else {
        deref + st.target.serialization@ + " = "@ + val + ";"@
    }
}

/// `vec![]` nested to `k` levels (at least one).
pub open spec fn nested_vec(k: int) -> Seq<char>
    decreases k,
{
    if k <= 1 {
        "vec![]"@
    } else {
        "vec!["@ + nested_vec(k - 1) + "]"@
    }
}

/// The destination an in-place append writes through, its index codes and its requests.
pub open spec fn append_dest_spec(st: AssignStatement, scope: Option<VariableScope>) -> Seq<char> {
    let reference = scope == Some(VariableScope::Arg) || scope == Some(VariableScope::Higher);
    let n = st.indices@.len() as int;
    if n == 0 {
        if reference {
            "(*"@ + st.rust_name@ + ")"@
        } else {
            "("@ + st.rust_name@ + ")"@
        }
    } else {
        let base = if reference { st.rust_name@ } else { "&mut "@ + st.rust_name@ };
        get_mut_chain(base, index_values(st.indices@), st.name@, n)
    }
}

/// Wraps `base` in `rosy_get_mut(.., index, "name")` for each index.
fn get_mut_chain_exec(base: String, idx: &Vec<ExprOutput>, name: &str) -> (r: String)
    ensures
        r@ == get_mut_chain(base@, index_values(idx@), name@, idx@.len() as int),
{
    let mut cur = base;
    let mut k: usize = 0;
    while k < idx.len()
        invariant
            k <= idx@.len(),
            cur@ == get_mut_chain(base@, index_values(idx@), name@, k as int),
        decreases idx@.len() - k,
    {
        let mut next = String::new();
        next.append("rosy_get_mut(");
        next.append(cur.as_str());
        next.append(", ");
        next.append(idx[k].value.as_str());
        next.append(", \"");
        next.append(name);
        next.append("\")");
        proof {
            assert(index_values(idx@)[k as int] == idx@[k as int].value@);
            assert(next@ =~= get_mut_chain(base@, index_values(idx@), name@, k + 1));
        }
        cur = next;
        k = k + 1;
    }
    cur
}

/// Requests of all index outputs, added to `out`.
fn request_indices(out: &mut Vec<String>, idx: &Vec<ExprOutput>)
    ensures
        req(final(out)@) == req(old(out)@) + index_requests(idx@),
{
    let mut k: usize = 0;
    while k < idx.len()
        invariant
            k <= idx@.len(),
            req(out@) == req(old(out)@) + index_requests(idx@.take(k as int)),
        decreases idx@.len() - k,
    {
        request_all(out, &idx[k].requested);
        proof {
            assert(idx@.take(k + 1).drop_last() =~= idx@.take(k as int));
            assert(req(out@) =~= req(old(out)@) + index_requests(idx@.take(k + 1)));
        }
        k = k + 1;
    }
    proof {
        assert(idx@.take(k as int) =~= idx@);
    }
}

fn nested_vec_exec(k: usize) -> (r: String)
    ensures
        r@ == nested_vec(k as int),
{
    let mut cur = String::new();
    cur.append("vec![]");
    proof {
        assert(Seq::<char>::empty() + "vec![]"@ =~= "vec![]"@);
    }
    let mut j: usize = 1;
    while j < k
        invariant
            1 <= j,
            j <= k || k == 0,
            k == 0 ==> j == 1,
            cur@ == nested_vec(j as int),
        decreases k - j,
    {
        let mut next = String::new();
        next.append("vec![");
        next.append(cur.as_str());
        next.append("]");
        proof {
            assert(next@ =~= nested_vec(j + 1));
        }
        cur = next;
        j = j + 1;
    }
    proof {
        if k == 0 {
            assert(nested_vec(0) == nested_vec(1));
        }
    }
    cur
}

fn is_scalar(t: RosyType, b: RosyBaseType) -> (r: bool)
    ensures
        r == (t == scalar(b)),
{
    t.dimensions == 0 && t.base_type == b
}

/// The value code an assignment stores (see `stored_value_spec`).
fn stored_value(var: RosyType, val: &AssignValue, num_idx: usize, container_rv: bool) -> (r: String)
    ensures
        r@ == stored_value_spec(var, val.ty, num_idx as nat, container_rv, val.owned@, val.owned_as_target@, val.by_ref@),
{
    let into_cell = var.is_any() || (num_idx > 0 && container_rv);
    let owned = val.owned.as_str();
    let mut out = String::new();
    if into_cell && !val.ty.is_any() {
        out.append("RosyValue::from(");
        out.append(owned);
        out.append(")");
    } else if into_cell && val.ty.is_any() {
        if text_contains(owned, "RosyValue") {
            out.append(owned);
        } else {
            out.append("RosyValue::from(");
            out.append(owned);
            out.append(")");
        }
    } else if !var.is_any() && val.ty.is_any() {
        out.append("(");
        out.append(owned);
        out.append(").expect_");
        out.append(base_lower_str(var.base_type));
        out.append("()?");
    } else if is_scalar(var, RosyBaseType::VE) && is_scalar(val.ty, RosyBaseType::RE) {
        out.append("vec![");
        out.append(owned);
        out.append("]");
    } else if is_scalar(var, RosyBaseType::DA) && is_scalar(val.ty, RosyBaseType::RE) {
        out.append("DA::from_coeff(");
        out.append(owned);
        out.append(")");
    } else if is_scalar(var, RosyBaseType::RE) && !is_scalar(val.ty, RosyBaseType::RE) {
        out.append("rosy_as_f64(&(");
        out.append(owned);
        out.append("))");
    } else if is_scalar(var, RosyBaseType::ST) && !is_scalar(val.ty, RosyBaseType::ST) {
        out.append("RosyST::rosy_to_string(&");
        out.append(val.by_ref.as_str());
        out.append(")");
    } else if (var.base_type == RosyBaseType::DA || var.base_type == RosyBaseType::CD) && var.base_type == val.ty.base_type
        && val.ty.dimensions < usize::MAX && var.dimensions == val.ty.dimensions + 1 {
        out.append("vec![");
        out.append(owned);
        out.append("]");
    } else {
        out.append(val.owned_as_target.as_str());
    }
    proof {
        let e: Seq<char> = Seq::empty();
        assert(e + owned@ =~= owned@);
        assert(e + val.owned_as_target@ =~= val.owned_as_target@);
    }
    out
}

impl AssignStatement {
    /// The destination an in-place append (`X := X & e`) writes through, with the requests of
    /// its indices and, for a variable of an enclosing scope, the variable itself.
    pub fn assignment_append_dest(&self, ctx: &TranspileContext) -> (r: (String, Vec<String>))
        ensures
            r.0@ == append_dest_spec(*self, scope_of(ctx.variables@, self.name@)),
            req(r.1@) == (if scope_of(ctx.variables@, self.name@) == Some(VariableScope::Higher) {
                index_requests(self.indices@).insert(self.name@)
            } else {
                index_requests(self.indices@)
            }),
    {
        let mut requested: Vec<String> = Vec::new();
        proof {
            assert(req(requested@) =~= Set::empty());
        }
        request_indices(&mut requested, &self.indices);
        let scope = match ctx.find(self.name.as_str()) {
            Some(i) => Some(ctx.variables[i].scope),
            None => None,
        };
        proof {
            assert(ctx.variables@.skip(0) =~= ctx.variables@);
        }
        let reference = match scope {
            Some(VariableScope::Arg) | Some(VariableScope::Higher) => true,
            _ => false,
        };
        match scope {
            Some(VariableScope::Higher) => {
                request(&mut requested, self.name.as_str());
            },
            _ => {},
        }
        let dest = if self.indices.len() == 0 {
            let mut d = String::new();
            if reference {
                d.append("(*");
            } else {
                d.append("(");
            }
            d.append(self.rust_name.as_str());
            d.append(")");
            d
        } else {
            let mut base = String::new();
            if !reference {
                base.append("&mut ");
            }
            base.append(self.rust_name.as_str());
            proof {
                let e: Seq<char> = Seq::empty();
                assert(e + self.rust_name@ =~= self.rust_name@);
            }
            get_mut_chain_exec(base, &self.indices, self.name.as_str())
        };
        (dest, requested)
    }

    /// The Rust code of the assignment.
    ///
    /// `:= .` empties a VE or an array (anything else is refused). A value must be
    /// assignable to the target's type (see `assignable_spec`); `X := X & e` uses the
    /// in-place append its expression offers; otherwise the value, converted for the
    /// target, is stored, through `rosy_get_mut` for indexed targets and through a temporary
    /// when the variable is a reference.
    pub fn transpile(&self, ctx: &TranspileContext) -> (r: Result<TranspileOutput, TranspileError>)
        ensures
            match self.value {
                None => if !(self.target_type == scalar(RosyBaseType::VE) || self.target_type.dimensions > 0) {
                    r matches Err(TranspileError::ClearNotAllowed { name: n, ty }) && n@ == self.name@ && ty == self.target_type
                } else {
                    match scope_of(ctx.variables@, self.name@) {
                        None => r matches Err(TranspileError::UndefinedVariable { name: n }) && n@ == self.name@,
                        Some(s) => r matches Ok(out) && out.serialization@ == deref_text(s) + self.target.serialization@
                            + " = "@ + nested_vec(self.target_type.dimensions as int) + ";"@
                            && req(out.requested@) == with_scope_request(req(self.target.requested@), s, self.name@),
                    }
                },
                Some(v) => if !assignable_spec(self.target_type, v.ty) {
                    r matches Err(TranspileError::IncompatibleAssignment { name: n, value_ty, var_ty }) && n@ == self.name@
                        && value_ty == v.ty && var_ty == self.target_type
                } else if v.append is Some {
                    r matches Ok(out) && out.serialization@ == v.append->0.serialization@
                        && req(out.requested@) == req(v.append->0.requested@) + (if scope_of(ctx.variables@, self.name@) == Some(VariableScope::Higher) {
                            index_requests(self.indices@).insert(self.name@)
                        } else {
                            index_requests(self.indices@)
                        })
                } else {
                    match scope_of(ctx.variables@, self.name@) {
                        None => r matches Err(TranspileError::UndefinedVariable { name: n }) && n@ == self.name@,
                        Some(s) => r matches Ok(out) && out.serialization@ == assign_code_spec(*self, s,
                            stored_value_spec(self.target_type, v.ty, self.indices@.len(), self.container_holds_values,
                                v.owned@, v.owned_as_target@, v.by_ref@))
                            && req(out.requested@) == with_scope_request(
                                req(self.target.requested@) + req(v.requested@) + (if self.indices@.len() > 0 {
                                    index_requests(self.indices@)
                                } else {
                                    Set::empty()
                                }), s, self.name@),
                    }
                },
            },
    {
        let var = self.target_type;
        match &self.value {
            None => {
                let is_ve = is_scalar(var, RosyBaseType::VE);
                if !is_ve && var.dimensions == 0 {
                    return Err(TranspileError::ClearNotAllowed { name: self.name.clone(), ty: var });
                }
                let mut requested: Vec<String> = Vec::new();
                request_all(&mut requested, &self.target.requested);
                let empty = nested_vec_exec(var.dimensions);
                let deref = deref_for(ctx, self.name.as_str(), &mut requested)?;
                let mut ser = String::new();
                ser.append(deref);
                ser.append(self.target.serialization.as_str());
                ser.append(" = ");
                ser.append(empty.as_str());
                ser.append(";");
                proof {
                    let e: Seq<char> = Seq::empty();
                    assert(e + deref@ =~= deref@);
                    assert(req(Seq::<String>::empty()) =~= Set::empty());
                    assert(Set::<Seq<char>>::empty() + req(self.target.requested@) =~= req(self.target.requested@));
                }
                Ok(TranspileOutput { serialization: ser, requested })
            },
            Some(v) => {
                let wrap = (var.base_type == RosyBaseType::DA || var.base_type == RosyBaseType::CD) && var.base_type == v.ty.base_type
                    && v.ty.dimensions < usize::MAX && var.dimensions == v.ty.dimensions + 1;
                if !var.same(&v.ty) && !var.is_any() && !v.ty.is_any() && !wrap
                    && re_da_assignment_type(var, v.ty) != Some(var) && re_ve_assignment_type(var, v.ty) != Some(var) {
                    return Err(TranspileError::IncompatibleAssignment { name: self.name.clone(), value_ty: v.ty, var_ty: var });
                }
                match &v.append {
                    Some(app) => {
                        let (_dest, dest_vars) = self.assignment_append_dest(ctx);
                        let mut requested: Vec<String> = Vec::new();
                        request_all(&mut requested, &app.requested);
                        request_all(&mut requested, &dest_vars);
                        proof {
                            assert(req(Seq::<String>::empty()) =~= Set::empty());
                            assert(Set::<Seq<char>>::empty() + req(app.requested@) =~= req(app.requested@));
                        }
                        return Ok(TranspileOutput { serialization: app.serialization.clone(), requested });
                    },
                    None => {},
                }
                let mut requested: Vec<String> = Vec::new();
                request_all(&mut requested, &self.target.requested);
                request_all(&mut requested, &v.requested);
                let value = stored_value(var, v, self.indices.len(), self.container_holds_values);
                let scope = ctx.scope(self.name.as_str())?;
                let deref = deref_for(ctx, self.name.as_str(), &mut requested)?;
                let tmp = match scope {
                    VariableScope::Local => false,
                    _ => true,
                };
                let mut ser = String::new();
                if self.indices.len() > 0 {
                    request_indices(&mut requested, &self.indices);
                    let mut base = String::new();
                    if !tmp {
                        base.append("&mut ");
                    }
                    base.append(self.rust_name.as_str());
                    proof {
                        let e: Seq<char> = Seq::empty();
                        assert(e + self.rust_name@ =~= self.rust_name@);
                    }
                    let lhs = get_mut_chain_exec(base, &self.indices, self.name.as_str());
                    if tmp {
                        ser.append("{ let __rosy_self_ref_tmp = ");
                        ser.append(value.as_str());
                        ser.append("; *");
                        ser.append(lhs.as_str());
                        ser.append(" = (__rosy_self_ref_tmp).into(); }");
                    } else {
                        ser.append("*");
                        ser.append(lhs.as_str());
                        ser.append(" = (");
                        ser.append(value.as_str());
                        ser.append(").into();");
                    }
                } else if tmp {
                    ser.append("{ let __rosy_self_ref_tmp = ");
                    ser.append(value.as_str());
                    ser.append("; ");
                    ser.append(deref);
                    ser.append(self.target.serialization.as_str());
                    ser.append(" = __rosy_self_ref_tmp; }");
                } else {
                    ser.append(deref);
                    ser.append(self.target.serialization.as_str());
                    ser.append(" = ");
                    ser.append(value.as_str());
                    ser.append(";");
                }
                proof {
                    let e: Seq<char> = Seq::empty();
                    assert(e + deref@ =~= deref@);
                    assert(req(Seq::<String>::empty()) =~= Set::empty());
                    assert(Set::<Seq<char>>::empty() + req(self.target.requested@) =~= req(self.target.requested@));
                    if self.indices@.len() == 0 {
                        assert(req(self.target.requested@) + req(v.requested@) + Set::<Seq<char>>::empty()
                            =~= req(self.target.requested@) + req(v.requested@));
                    } else {
                        assert(with_scope_request(req(self.target.requested@) + req(v.requested@), scope, self.name@) + index_requests(self.indices@)
                            =~= with_scope_request(req(self.target.requested@) + req(v.requested@) + index_requests(self.indices@), scope, self.name@));
                    }
                }
                Ok(TranspileOutput { serialization: ser, requested })
            },
        }
    }
}

} // verus!
