//! What statements need to produce their Rust code: the variables in scope, the pieces their
//! expressions already produced, and the output with the variables taken from outer scopes.

use vstd::prelude::*;
use crate::text::{chars_of, has, set_of, str_eq, views};

verus! {

/// Base types of Rosy values.
#[derive(Debug, Clone, Copy, PartialEq, Eq, Structural)]
pub enum RosyBaseType {
    RE,
    ST,
    LO,
    CM,
    VE,
    DA,
    CD,
    /// Untyped (COSY-style) cell.
    ANY,
}

/// A Rosy type: a base type and a number of array dimensions.
#[derive(Debug, Clone, Copy, PartialEq, Eq, Structural)]
pub struct RosyType {
    pub base_type: RosyBaseType,
    pub dimensions: usize,
}

impl RosyType {
    pub open spec fn any_spec(self) -> bool {
        self.base_type == RosyBaseType::ANY
    }

    /// An untyped cell.
    pub fn is_any(&self) -> (r: bool)
        ensures
            r == self.any_spec(),
    {
        match self.base_type {
            RosyBaseType::ANY => true,
            _ => false,
        }
    }

    /// The scalar type of a base type.
    pub fn scalar(base_type: RosyBaseType) -> (r: RosyType)
        ensures
            r.base_type == base_type,
            r.dimensions == 0,
    {
        RosyType { base_type, dimensions: 0 }
    }

    /// Equality of base type and dimensions.
    pub fn same(&self, other: &RosyType) -> (r: bool)
        ensures
            r == (*self == *other),
    {
        self.base_type == other.base_type && self.dimensions == other.dimensions
    }
}

/// Where a variable lives relative to the code being produced.
#[derive(Debug, Clone, Copy, PartialEq, Eq, Structural)]
pub enum VariableScope {
    /// Declared in the current body: an owned value.
    Local,
    /// A parameter: a mutable reference.
    Arg,
    /// Declared in an enclosing body: captured as a mutable reference.
    Higher,
}

/// A variable visible to a statement.
pub struct VariableInfo {
    pub name: String,
    pub scope: VariableScope,
    pub ty: RosyType,
}

/// The variables visible to a statement.
pub struct TranspileContext {
    pub variables: Vec<VariableInfo>,
}

/// The code an expression (or a variable reference) produced.
pub struct ExprOutput {
    /// The code as written.
    pub serialization: String,
    /// The code of its value, as a statement that reads it uses it.
    pub value: String,
    /// The code of a shared reference to it.
    pub by_ref: String,
    /// The code of a mutable reference to it.
    pub by_mut_ref: String,
    /// Variables it takes from enclosing scopes.
    pub requested: Vec<String>,
}

/// The code a statement produced, and the variables it takes from enclosing scopes.
pub struct TranspileOutput {
    pub serialization: String,
    pub requested: Vec<String>,
}

/// Why a statement could not be turned into code.
#[derive(Debug, Clone)]
pub enum TranspileError {
    /// The statement names a variable that is not in scope.
    UndefinedVariable { name: String },
    /// `:= .` on a variable that is neither a VE nor an array.
    ClearNotAllowed { name: String, ty: RosyType },
    /// The value's type cannot be stored in the variable.
    IncompatibleAssignment { name: String, value_ty: RosyType, var_ty: RosyType },
}

/// The first variable called `name`.
pub open spec fn lookup(vars: Seq<VariableInfo>, name: Seq<char>) -> Option<VariableInfo>
    decreases vars.len(),
{
    if vars.len() == 0 {
        None
    } else if vars[0].name@ == name {
        Some(vars[0])
    } else {
        lookup(vars.drop_first(), name)
    }
}

/// The scope of the variable called `name`, if it is in scope.
pub open spec fn scope_of(vars: Seq<VariableInfo>, name: Seq<char>) -> Option<VariableScope> {
    match lookup(vars, name) {
        Some(v) => Some(v.scope),
        None => None,
    }
}

/// The type of the variable called `name`, if it is in scope.
pub open spec fn type_of(vars: Seq<VariableInfo>, name: Seq<char>) -> Option<RosyType> {
    match lookup(vars, name) {
        Some(v) => Some(v.ty),
        None => None,
    }
}

/// The prefix that reaches a variable's value: nothing for a local, `*` for a reference.
pub open spec fn deref_text(scope: VariableScope) -> Seq<char> {
    match scope {
        VariableScope::Local => Seq::empty(),
        _ => seq!['*'],
    }
}

/// The variables requested by a statement that assigns to `name` in `scope`, on top of `r`.
pub open spec fn with_scope_request(r: Set<Seq<char>>, scope: VariableScope, name: Seq<char>) -> Set<Seq<char>> {
    if scope is Higher {
        r.insert(name)
    } else {
        r
    }
}

/// The set of requested variables of a list.
pub open spec fn req(v: Seq<String>) -> Set<Seq<char>> {
    set_of(views(v))
}

impl TranspileContext {
    /// Finds the variable called `name`.
    pub fn find(&self, name: &str) -> (r: Option<usize>)
        ensures
            match r {
                Some(i) => i < self.variables@.len() && lookup(self.variables@, name@) == Some(self.variables@[i as int]),
                None => lookup(self.variables@, name@) is None,
            },
    {
        let mut i: usize = 0;
        proof {
            assert(self.variables@.skip(0) =~= self.variables@);
        }
        while i < self.variables.len()
            invariant
                i <= self.variables@.len(),
                lookup(self.variables@, name@) == lookup(self.variables@.skip(i as int), name@),
            decreases self.variables@.len() - i,
        {
            proof {
                assert(self.variables@.skip(i as int).drop_first() =~= self.variables@.skip(i + 1));
            }
            if str_eq(self.variables[i].name.as_str(), name) {
                return Some(i);
            }
            i = i + 1;
        }
        None
    }

    /// The scope of the variable called `name`; refused when it is not in scope.
    pub fn scope(&self, name: &str) -> (r: Result<VariableScope, TranspileError>)
        ensures
            match scope_of(self.variables@, name@) {
                Some(s) => r == Ok::<VariableScope, TranspileError>(s),
                None => r matches Err(TranspileError::UndefinedVariable { name: n }) && n@ == name@,
            },
    {
        proof {
            assert(self.variables@.skip(0) =~= self.variables@);
        }
        match self.find(name) {
            Some(i) => Ok(self.variables[i].scope),
            None => Err(TranspileError::UndefinedVariable { name: name.to_string() }),
        }
    }

    /// The type of the variable called `name`, or `default` when it is not in scope.
    pub fn type_or(&self, name: &str, default: RosyType) -> (r: RosyType)
        ensures
            r == (match type_of(self.variables@, name@) {
                Some(t) => t,
                None => default,
            }),
    {
        proof {
            assert(self.variables@.skip(0) =~= self.variables@);
        }
        match self.find(name) {
            Some(i) => self.variables[i].ty,
            None => default,
        }
    }
}

/// Adds a requested variable (once).
pub fn request(out: &mut Vec<String>, name: &str)
    ensures
        req(final(out)@) == req(old(out)@).insert(name@),
{
    let mut i: usize = 0;
    while i < out.len()
        invariant
            i <= out@.len(),
            forall|j: int| 0 <= j < i ==> out@[j]@ != name@,
        decreases out@.len() - i,
    {
        if str_eq(out[i].as_str(), name) {
            proof {
                assert(views(out@)[i as int] == name@);
                assert(req(out@) =~= req(out@).insert(name@));
            }
            return;
        }
        i = i + 1;
    }
    let ghost before = views(out@);
    out.push(name.to_string());
    proof {
        assert(views(out@) =~= before.push(name@));
        assert(views(out@)[before.len() as int] == name@);
        assert(req(out@) =~= set_of(before).insert(name@)) by {
            assert forall|x: Seq<char>| has(views(out@), x) implies has(before, x) || x == name@ by {
                let k = choose|k: int| 0 <= k < views(out@).len() && #[trigger] views(out@)[k] == x;
                if k < before.len() {
                    assert(before[k] == x);
                }
            }
            assert forall|x: Seq<char>| has(before, x) implies has(views(out@), x) by {
                let k = choose|k: int| 0 <= k < before.len() && #[trigger] before[k] == x;
                assert(views(out@)[k] == x);
            }
        }
    }
}

/// Adds every variable of `more`.
pub fn request_all(out: &mut Vec<String>, more: &Vec<String>)
    ensures
        req(final(out)@) == req(old(out)@) + req(more@),
{
    let mut i: usize = 0;
    while i < more.len()
        invariant
            i <= more@.len(),
            req(out@) == req(old(out)@) + req(more@.take(i as int)),
        decreases more@.len() - i,
    {
        let ghost before = req(out@);
        request(out, more[i].as_str());
        proof {
            assert(views(more@.take(i + 1)) =~= views(more@.take(i as int)).push(more@[i as int]@));
            assert(req(more@.take(i + 1)) =~= req(more@.take(i as int)).insert(more@[i as int]@)) by {
                let a = views(more@.take(i + 1));
                let b = views(more@.take(i as int));
                assert forall|x: Seq<char>| has(a, x) implies has(b, x) || x == more@[i as int]@ by {
                    let k = choose|k: int| 0 <= k < a.len() && #[trigger] a[k] == x;
                    if k < b.len() {
                        assert(b[k] == x);
                    }
                }
                assert forall|x: Seq<char>| has(b, x) implies has(a, x) by {
                    let k = choose|k: int| 0 <= k < b.len() && #[trigger] b[k] == x;
                    assert(a[k] == x);
                }
                assert(a[b.len() as int] == more@[i as int]@);
            }
            assert(req(out@) =~= req(old(out)@) + req(more@.take(i + 1)));
        }
        i = i + 1;
    }
    proof {
        assert(more@.take(i as int) =~= more@);
    }
}

/// The prefix of a variable's scope, and the request it adds to `out`.
pub fn deref_for(ctx: &TranspileContext, name: &str, out: &mut Vec<String>) -> (r: Result<&'static str, TranspileError>)
    ensures
        match scope_of(ctx.variables@, name@) {
            Some(s) => r matches Ok(d) && d@ == deref_text(s) && req(final(out)@) == with_scope_request(req(old(out)@), s, name@),
            None => r matches Err(TranspileError::UndefinedVariable { name: n }) && n@ == name@ && final(out)@ == old(out)@,
        },
{
    match ctx.scope(name) {
        Err(e) => Err(e),
        Ok(VariableScope::Local) => {
            proof {
                reveal_strlit("");
            }
            Ok("")
        },
        Ok(VariableScope::Arg) => {
            proof {
                reveal_strlit("*");
            }
            Ok("*")
        },
        Ok(VariableScope::Higher) => {
            request(out, name);
            proof {
                reveal_strlit("*");
            }
            Ok("*")
        },
    }
}

} // verus!
