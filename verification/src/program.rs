//! Programs: INCLUDE bookkeeping, MODULE statements, quoted strings and the joined output.

use vstd::prelude::*;
use crate::assign::{AssignStatement, assign_code_spec, assignable_spec, nested_vec, scalar, stored_value_spec};
use crate::statements::{
    ArggetStatement, DafloStatement, DanotwStatement, DapewStatement, DarevStatement, ImunitStatement,
    PolvalStatement, ReranStatement, ScrlenStatement, StcreStatement, VezeroStatement, argget_rhs,
    daflo_code, danotw_code, dapew_code, darev_code, imunit_rhs, polval_code, scrlen_code, scrlen_dest,
    stcre_rhs, store_code, vezero_code,
};
use crate::syntax_config::{extension_of, path_extension};
use crate::text::{ascii_uppercase, is_ascii_text, chars_eq_ignore_ascii_case, chars_of, eq_ignore_ascii_case, has, set_of, str_eq, string_of, sub_chars, views};
use crate::transpile::{
    RosyBaseType, RosyType, TranspileContext, TranspileError, TranspileOutput, VariableInfo, deref_text, scope_of, type_of,
};

verus! {

/// What `str::to_uppercase` gives for a string.
pub uninterp spec fn uppercase(s: Seq<char>) -> Seq<char>;

/// Calls `str::to_uppercase`. Trusted: the result is the one the name `uppercase` stands for, a
/// function of the text alone, and on ASCII text it is the ASCII upper-casing (Unicode maps
/// `a`..`z` to `A`..`Z` and leaves other ASCII characters alone); nothing more is claimed.
#[verifier::external_body]
fn to_upper(s: &str) -> (r: String)
    ensures
        r@ == uppercase(s@),
        is_ascii_text(s@) ==> r@ == ascii_uppercase(s@),
{
    s.to_uppercase()
}

/// Where a `MODULE` statement takes its package from.
#[derive(Debug, Clone, Copy, PartialEq, Eq)]
pub enum ModuleSourceType {
    /// `MODULE PATH "<dir>" [<version>];`: a local directory.
    Path,
    /// `MODULE GITHUB "<owner>/<repo>" <version>;`: a tagged GitHub release.
    Github,
}

impl ModuleSourceType {
    pub open spec fn label_spec(self) -> Seq<char> {
        match self {
            ModuleSourceType::Path => "PATH"@,
            ModuleSourceType::Github => "GITHUB"@,
        }
    }

    /// The keyword of the source type.
    pub fn label(self) -> (r: &'static str)
        ensures
            r@ == self.label_spec(),
    {
        match self {
            ModuleSourceType::Path => "PATH",
            ModuleSourceType::Github => "GITHUB",
        }
    }
}

/// The source type a keyword names, in any case (`None` for an unknown keyword).
pub open spec fn source_type_spec(upper: Seq<char>) -> Option<ModuleSourceType> {
    if upper == "PATH"@ {
        Some(ModuleSourceType::Path)
    } else if upper == "GITHUB"@ {
        Some(ModuleSourceType::Github)
    } else {
        None
    }
}

/// The source type of a `MODULE` keyword, compared in upper case.
pub fn module_source_type(word: &str) -> (r: Option<ModuleSourceType>)
    ensures
        r == source_type_spec(uppercase(word@)),
        is_ascii_text(word@) ==> uppercase(word@) == ascii_uppercase(word@),
{
    let up = to_upper(word);
    if str_eq(up.as_str(), "PATH") {
        Some(ModuleSourceType::Path)
    } else if str_eq(up.as_str(), "GITHUB") {
        Some(ModuleSourceType::Github)
    } else {
        None
    }
}

/// An extension names a Rosy or COSY source: `fox` or `rosy`, in any ASCII case.
pub open spec fn include_ext(ext: Option<Seq<char>>) -> bool {
    match ext {
        Some(e) => eq_ignore_ascii_case(e, "fox"@) || eq_ignore_ascii_case(e, "rosy"@),
        None => false,
    }
}

/// Whether a path names a source an INCLUDE takes: its extension is `fox` or `rosy`, in
/// any ASCII case.
pub fn is_include_source(path: &str) -> (r: bool)
    ensures
        r == include_ext(path_extension(path@)),
{
    let ext = extension_of(path);
    match ext {
        Some(e) => {
            let c = chars_of(e.as_str());
            let fox = chars_of("fox");
            let rosy = chars_of("rosy");
            chars_eq_ignore_ascii_case(&c, &fox) || chars_eq_ignore_ascii_case(&c, &rosy)
        },
        None => false,
    }
}

/// Why a `MODULE` statement is refused.
#[derive(Debug, Clone, Copy, PartialEq, Eq)]
pub enum ModuleError {
    /// `MODULE GITHUB` without the version (the release tag) to fetch.
    MissingVersion,
    /// The GitHub path does not end in a repository name.
    InvalidRepository,
    /// `MODULE PATH` asked for a version the package does not have.
    VersionMismatch,
}

/// The last `/`-separated segment of `p` (`str::rsplit('/').next()`).
pub open spec fn last_segment(p: Seq<char>) -> Seq<char>
    decreases p.len(),
{
    if p.len() == 0 {
        p
    } else if p.last() == '/' {
        Seq::empty()
    } else {
        last_segment(p.drop_last()).push(p.last())
    }
}

/// The directory name a GitHub package is cached under: `<repository>-<version>`.
pub open spec fn github_cache_spec(path: Seq<char>, version: Option<Seq<char>>) -> Result<Seq<char>, ModuleError> {
    match version {
        None => Err(ModuleError::MissingVersion),
        Some(v) => if last_segment(path).len() == 0 {
            Err(ModuleError::InvalidRepository)
        } else {
            Ok(last_segment(path) + "-"@ + v)
        },
    }
}

/// The cache directory name of a `MODULE GITHUB "<owner>/<repo>" <version>;` package;
/// refused without a version or when the path ends in `/`.
pub fn github_cache_name(path: &str, version: Option<&str>) -> (r: Result<String, ModuleError>)
    ensures
        match github_cache_spec(path@, match version {
            Some(v) => Some(v@),
            None => None,
        }) {
            Ok(n) => r matches Ok(s) && s@ == n,
            Err(e) => r == Err::<String, ModuleError>(e),
        },
{
    let v = match version {
        Some(v) => v,
        None => {
            return Err(ModuleError::MissingVersion);
        },
    };
    let c = chars_of(path);
    let mut k = c.len();
    proof {
        assert(c@.take(k as int) =~= c@);
    }
    while k > 0 && c[k - 1] != '/'
        invariant
            k <= c@.len(),
            last_segment(c@) == last_segment(c@.take(k as int)) + c@.skip(k as int),
        decreases k,
    {
        proof {
            assert(c@.take(k as int).drop_last() =~= c@.take(k - 1));
            assert(c@.take(k as int).last() == c@[k - 1]);
            assert(c@.skip(k - 1) =~= seq![c@[k - 1]] + c@.skip(k as int));
            assert(last_segment(c@.take(k as int)) == last_segment(c@.take(k - 1)).push(c@[k - 1]));
            assert(last_segment(c@.take(k - 1)).push(c@[k - 1]) + c@.skip(k as int) =~= last_segment(c@.take(k - 1)) + c@.skip(k - 1));
        }
        k = k - 1;
    }
    proof {
        if k > 0 {
            assert(c@.take(k as int).last() == '/');
        }
        assert(last_segment(c@.take(k as int)) =~= Seq::<char>::empty());
        assert(Seq::<char>::empty() + c@.skip(k as int) =~= c@.skip(k as int));
    }
    let repo = sub_chars(&c, k, c.len());
    proof {
        assert(repo@ =~= c@.skip(k as int));
    }
    if repo.len() == 0 {
        return Err(ModuleError::InvalidRepository);
    }
    let mut out = repo;
    out.push('-');
    crate::text::extend_str(&mut out, v);
    proof {
        reveal_strlit("-");
        assert(out@ =~= last_segment(path@) + "-"@ + v@);
    }
    Ok(string_of(&out))
}

/// A `MODULE PATH` that names a version must name the package's own version.
pub fn check_module_version(source: ModuleSourceType, requested: Option<&str>, package_version: &str) -> (r: Result<(), ModuleError>)
    ensures
        r is Err <==> (source == ModuleSourceType::Path && requested is Some && requested->0@ != package_version@),
        r is Err ==> r == Err::<(), ModuleError>(ModuleError::VersionMismatch),
{
    match (source, requested) {
        (ModuleSourceType::Path, Some(v)) => if str_eq(v, package_version) {
            Ok(())
        } else {
            Err(ModuleError::VersionMismatch)
        },
        _ => Ok(()),
    }
}

/// The body of a quoted literal: first and last character dropped, and in a single-quoted
/// literal each `''` read as `'`.
pub open spec fn unquote_spec(raw: Seq<char>, single: bool) -> Seq<char> {
    let body = raw.subrange(1, raw.len() - 1);
    if single {
        undouble_quotes(body)
    } else {
        body
    }
}

/// `s` with every `''` (read left to right) replaced by `'`.
pub open spec fn undouble_quotes(s: Seq<char>) -> Seq<char>
    decreases s.len(),
{
    if s.len() >= 2 && s[0] == '\'' && s[1] == '\'' {
        seq!['\''] + undouble_quotes(s.skip(2))
    } else if s.len() >= 1 {
        seq![s[0]] + undouble_quotes(s.skip(1))
    } else {
        Seq::empty()
    }
}

/// The text of a string literal (`raw` includes its quotes).
pub fn unquote(raw: &str, single: bool) -> (r: String)
    requires
        raw@.len() >= 2,
    ensures
        r@ == unquote_spec(raw@, single),
{
    let c = chars_of(raw);
    let body = sub_chars(&c, 1, c.len() - 1);
    if !single {
        return string_of(&body);
    }
    let mut out: Vec<char> = Vec::new();
    let mut i: usize = 0;
    proof {
        assert(body@.skip(0) =~= body@);
        assert(out@ + undouble_quotes(body@) =~= undouble_quotes(body@));
    }
    while i < body.len()
        invariant
            i <= body@.len(),
            out@ + undouble_quotes(body@.skip(i as int)) == undouble_quotes(body@),
        decreases body@.len() - i,
    {
        if i + 1 < body.len() && body[i] == '\'' && body[i + 1] == '\'' {
            proof {
                assert(body@.skip(i as int).skip(2) =~= body@.skip(i + 2));
                assert(out@.push('\'') + undouble_quotes(body@.skip(i + 2)) =~= out@ + undouble_quotes(body@.skip(i as int)));
            }
            out.push('\'');
            i = i + 2;
        } else {
            proof {
                assert(body@.skip(i as int).skip(1) =~= body@.skip(i + 1));
                assert(out@.push(body@[i as int]) + undouble_quotes(body@.skip(i + 1)) =~= out@ + undouble_quotes(body@.skip(i as int)));
            }
            out.push(body[i]);
            i = i + 1;
        }
    }
    proof {
        assert(body@.skip(i as int) =~= Seq::<char>::empty());
        assert(out@ + Seq::<char>::empty() =~= out@);
    }
    string_of(&out)
}

/// Where `INCLUDE` resolution stands: the files being read (innermost last) and the files
/// read completely.
pub struct IncludeTracker {
    pub in_progress: Vec<String>,
    pub completed: Vec<String>,
}

/// The outcome of asking to splice a file.
#[derive(Debug, Clone, PartialEq, Eq)]
pub enum IncludeStep {
    /// The file was read completely before: nothing is spliced again.
    AlreadyIncluded,
    /// The file is being read further up: a cycle. The files being read are listed.
    Circular { chain: Vec<String> },
    /// Read the file now; it is recorded as being read.
    Proceed,
}

/// Abstract state of a tracker: the two sets of paths.
pub struct TrackerState {
    pub in_progress: Set<Seq<char>>,
    pub completed: Set<Seq<char>>,
}

/// The kind of step `begin_include` takes on a state.
#[derive(PartialEq, Eq)]
pub enum StepKind {
    AlreadyIncluded,
    Circular,
    Proceed,
}

pub open spec fn step_kind(s: TrackerState, p: Seq<char>) -> StepKind {
    if s.completed.contains(p) {
        StepKind::AlreadyIncluded
    } else if s.in_progress.contains(p) {
        StepKind::Circular
    } else {
        StepKind::Proceed
    }
}

/// The state after `begin_include`.
pub open spec fn after_begin(s: TrackerState, p: Seq<char>) -> TrackerState {
    if step_kind(s, p) == StepKind::Proceed {
        TrackerState { in_progress: s.in_progress.insert(p), completed: s.completed }
    } else {
        s
    }
}

/// The state after `finish_include`.
pub open spec fn after_finish(s: TrackerState, p: Seq<char>) -> TrackerState {
    TrackerState { in_progress: s.in_progress.remove(p), completed: s.completed.insert(p) }
}

fn contains_str(v: &Vec<String>, p: &str) -> (r: bool)
    ensures
        r == has(views(v@), p@),
{
    let mut i: usize = 0;
    while i < v.len()
        invariant
            i <= v@.len(),
            forall|j: int| 0 <= j < i ==> v@[j]@ != p@,
        decreases v@.len() - i,
    {
        if str_eq(v[i].as_str(), p) {
            proof {
                assert(views(v@)[i as int] == p@);
            }
            return true;
        }
        i = i + 1;
    }
    proof {
        if has(views(v@), p@) {
            let k = choose|k: int| 0 <= k < views(v@).len() && #[trigger] views(v@)[k] == p@;
            assert(v@[k]@ == p@);
        }
    }
    false
}

proof fn lemma_has_push(v: Seq<Seq<char>>, y: Seq<char>, x: Seq<char>)
    ensures
        has(v.push(y), x) <==> (has(v, x) || x == y),
{
    if has(v.push(y), x) {
        let k = choose|k: int| 0 <= k < v.push(y).len() && #[trigger] v.push(y)[k] == x;
        if k < v.len() {
            assert(v[k] == x);
        }
    }
    if has(v, x) {
        let k = choose|k: int| 0 <= k < v.len() && #[trigger] v[k] == x;
        assert(v.push(y)[k] == x);
    }
    if x == y {
        assert(v.push(y)[v.len() as int] == x);
    }
}

impl IncludeTracker {
    pub open spec fn state(&self) -> TrackerState {
        TrackerState { in_progress: set_of(views(self.in_progress@)), completed: set_of(views(self.completed@)) }
    }

    /// Nothing read yet.
    pub fn new() -> (r: IncludeTracker)
        ensures
            r.state().in_progress.is_empty(),
            r.state().completed.is_empty(),
    {
        let r = IncludeTracker { in_progress: Vec::new(), completed: Vec::new() };
        proof {
            assert(set_of(views(r.in_progress@)) =~= Set::empty());
            assert(set_of(views(r.completed@)) =~= Set::empty());
        }
        r
    }

    /// Decides what an INCLUDE (or MODULE) of the canonical path `p` does: nothing for a
    /// file read completely before, a cycle for a file being read further up, and otherwise
    /// reading it, which records it as being read.
    pub fn begin_include(&mut self, p: &str) -> (r: IncludeStep)
        ensures
            final(self).state() == after_begin(old(self).state(), p@),
            match step_kind(old(self).state(), p@) {
                StepKind::AlreadyIncluded => r == IncludeStep::AlreadyIncluded,
                StepKind::Circular => r matches IncludeStep::Circular { chain } && views(chain@) == views(old(self).in_progress@),
                StepKind::Proceed => r == IncludeStep::Proceed,
            },
    {
        if contains_str(&self.completed, p) {
            return IncludeStep::AlreadyIncluded;
        }
        if contains_str(&self.in_progress, p) {
            let mut chain: Vec<String> = Vec::new();
            let mut i: usize = 0;
            while i < self.in_progress.len()
                invariant
                    i <= self.in_progress@.len(),
                    views(chain@) == views(self.in_progress@).take(i as int),
                decreases self.in_progress@.len() - i,
            {
                let ghost old_chain = views(chain@);
                chain.push(self.in_progress[i].clone());
                proof {
                    assert(views(chain@) =~= old_chain.push(self.in_progress@[i as int]@));
                    assert(views(chain@) =~= views(self.in_progress@).take(i + 1));
                }
                i = i + 1;
            }
            proof {
                assert(views(self.in_progress@).take(i as int) =~= views(self.in_progress@));
            }
            return IncludeStep::Circular { chain };
        }
        let ghost before = views(self.in_progress@);
        self.in_progress.push(p.to_string());
        proof {
            assert(views(self.in_progress@) =~= before.push(p@));
            assert(views(self.in_progress@)[before.len() as int] == p@);
            assert(set_of(views(self.in_progress@)) =~= set_of(before).insert(p@)) by {
                assert forall|x: Seq<char>| has(views(self.in_progress@), x) implies has(before, x) || x == p@ by {
                    let k = choose|k: int| 0 <= k < views(self.in_progress@).len() && #[trigger] views(self.in_progress@)[k] == x;
                    if k < before.len() {
                        assert(before[k] == x);
                    }
                }
                assert forall|x: Seq<char>| has(before, x) implies has(views(self.in_progress@), x) by {
                    let k = choose|k: int| 0 <= k < before.len() && #[trigger] before[k] == x;
                    assert(views(self.in_progress@)[k] == x);
                }
            }
        }
        IncludeStep::Proceed
    }

    /// Records that the file `p` has been read completely.
    pub fn finish_include(&mut self, p: &str)
        ensures
            final(self).state() == after_finish(old(self).state(), p@),
    {
        let ghost ip = views(self.in_progress@);
        let mut kept: Vec<String> = Vec::new();
        let mut i: usize = 0;
        while i < self.in_progress.len()
            invariant
                i <= self.in_progress@.len(),
                ip == views(self.in_progress@),
                forall|x: Seq<char>| has(views(kept@), x) ==> has(ip, x) && x != p@,
                forall|k: int| 0 <= k < i && #[trigger] ip[k] != p@ ==> has(views(kept@), ip[k]),
            decreases self.in_progress@.len() - i,
        {
            let ghost old_kept = views(kept@);
            if !str_eq(self.in_progress[i].as_str(), p) {
                kept.push(self.in_progress[i].clone());
                proof {
                    assert(views(kept@) =~= old_kept.push(ip[i as int]));
                    assert(ip[i as int] != p@);
                    assert forall|x: Seq<char>| has(views(kept@), x) implies has(ip, x) && x != p@ by {
                        lemma_has_push(old_kept, ip[i as int], x);
                        if x == ip[i as int] {
                            assert(ip[i as int] == x);
                        } else {
                            assert(has(old_kept, x));
                        }
                    }
                    assert forall|k: int| 0 <= k < i + 1 && #[trigger] ip[k] != p@ implies has(views(kept@), ip[k]) by {
                        lemma_has_push(old_kept, ip[i as int], ip[k]);
                    }
                }
            } else {
                proof {
                    assert(views(kept@) == old_kept);
                    assert forall|k: int| 0 <= k < i + 1 && #[trigger] ip[k] != p@ implies has(views(kept@), ip[k]) by {
                        if k == i {
                            assert(ip[k] == p@);
                        }
                    }
                }
            }
            i = i + 1;
        }
        proof {
            assert(set_of(views(kept@)) =~= set_of(ip).remove(p@)) by {
                assert forall|x: Seq<char>| has(ip, x) && x != p@ implies has(views(kept@), x) by {
                    let k = choose|k: int| 0 <= k < ip.len() && #[trigger] ip[k] == x;
                }
            }
        }
        self.in_progress = kept;
        if !contains_str(&self.completed, p) {
            let ghost before = views(self.completed@);
            self.completed.push(p.to_string());
            proof {
                assert(views(self.completed@) =~= before.push(p@));
                assert(views(self.completed@)[before.len() as int] == p@);
                assert(set_of(views(self.completed@)) =~= set_of(before).insert(p@)) by {
                    assert forall|x: Seq<char>| has(views(self.completed@), x) implies has(before, x) || x == p@ by {
                        let k = choose|k: int| 0 <= k < views(self.completed@).len() && #[trigger] views(self.completed@)[k] == x;
                        if k < before.len() {
                            assert(before[k] == x);
                        }
                    }
                    assert forall|x: Seq<char>| has(before, x) implies has(views(self.completed@), x) by {
                        let k = choose|k: int| 0 <= k < before.len() && #[trigger] before[k] == x;
                        assert(views(self.completed@)[k] == x);
                    }
                }
            }
        } else {
            proof {
                assert(set_of(views(self.completed@)) =~= set_of(views(self.completed@)).insert(p@));
            }
        }
    }
}

/// A file that was read completely is not spliced again: INCLUDE is idempotent.
pub proof fn law_include_idempotent(s: TrackerState, p: Seq<char>)
    requires
        step_kind(s, p) == StepKind::Proceed,
    ensures
        step_kind(after_finish(after_begin(s, p), p), p) == StepKind::AlreadyIncluded,
{
}

/// A file included again while it is still being read is a cycle.
pub proof fn law_include_cycle(s: TrackerState, p: Seq<char>)
    requires
        step_kind(s, p) == StepKind::Proceed,
    ensures
        step_kind(after_begin(s, p), p) == StepKind::Circular,
{
}

/// A statement of a program.
pub enum Statement {
    Assign(AssignStatement),
    Scrlen(ScrlenStatement),
    Imunit(ImunitStatement),
    Argget(ArggetStatement),
    Stcre(StcreStatement),
    Reran(ReranStatement),
    Vezero(VezeroStatement),
    Danotw(DanotwStatement),
    Daflo(DafloStatement),
    Dapew(DapewStatement),
    Darev(DarevStatement),
    Polval(PolvalStatement),
}

/// The code of an assignment, or `None` when it is refused.
pub open spec fn assign_code_of(st: AssignStatement, vars: Seq<VariableInfo>) -> Option<Seq<char>> {
    match st.value {
        None => if !(st.target_type == scalar(RosyBaseType::VE) || st.target_type.dimensions > 0) {
            None
        } else {
            match scope_of(vars, st.name@) {
                None => None,
                Some(s) => Some(deref_text(s) + st.target.serialization@ + " = "@ + nested_vec(st.target_type.dimensions as int) + ";"@),
            }
        },
        Some(v) => if !assignable_spec(st.target_type, v.ty) {
            None
        } else if v.append is Some {
            Some(v.append->0.serialization@)
        } else {
            match scope_of(vars, st.name@) {
                None => None,
                Some(s) => Some(assign_code_spec(st, s, stored_value_spec(st.target_type, v.ty, st.indices@.len(),
                    st.container_holds_values, v.owned@, v.owned_as_target@, v.by_ref@))),
            }
        },
    }
}

/// The code of a store into variable `name`, or `None` when it is not in scope.
pub open spec fn store_code_of(vars: Seq<VariableInfo>, name: Seq<char>, target: Seq<char>, rhs: Seq<char>) -> Option<Seq<char>> {
    match scope_of(vars, name) {
        None => None,
        Some(s) => Some(store_code(s, target, rhs)),
    }
}

/// The code of a statement, or `None` when it is refused.
pub open spec fn code_of(st: Statement, vars: Seq<VariableInfo>) -> Option<Seq<char>> {
    match st {
        Statement::Assign(a) => assign_code_of(a, vars),
        Statement::Scrlen(x) => match x.size_name {
            None => Some(scrlen_code(x.size.value@, None)),
            Some(n) => match scope_of(vars, n@) {
                None => None,
                Some(s) => Some(scrlen_code(x.size.value@, Some(scrlen_dest(n@, s)))),
            },
        },
        Statement::Imunit(x) => store_code_of(vars, x.name@, x.target.serialization@,
            imunit_rhs(type_of(vars, x.name@)->0.any_spec())),
        Statement::Argget(x) => store_code_of(vars, x.name@, x.target.serialization@, argget_rhs(x.index.value@)),
        Statement::Stcre(x) => store_code_of(vars, x.name@, x.target.serialization@,
            stcre_rhs(x.string.value@, type_of(vars, x.name@)->0.any_spec())),
        Statement::Reran(x) => store_code_of(vars, x.name@, x.target.serialization@, "rosy_lib::core::rng::rosy_reran()"@),
        Statement::Vezero(x) => Some(vezero_code(x)),
        Statement::Danotw(x) => Some(danotw_code(x)),
        Statement::Daflo(x) => Some(daflo_code(x)),
        Statement::Dapew(x) => Some(dapew_code(x)),
        Statement::Darev(x) => Some(darev_code(x)),
        Statement::Polval(x) => Some(polval_code(x)),
    }
}

/// A refused statement, by what its error reports.
pub enum Refusal {
    /// A variable that is not in scope.
    Undefined(Seq<char>),
    /// `:= .` on a variable of the given type.
    ClearNotAllowed(Seq<char>, RosyType),
    /// A value of the first type assigned to a variable of the second.
    Incompatible(Seq<char>, RosyType, RosyType),
}

/// What an error reports.
pub open spec fn refusal_view(e: TranspileError) -> Refusal {
    match e {
        TranspileError::UndefinedVariable { name } => Refusal::Undefined(name@),
        TranspileError::ClearNotAllowed { name, ty } => Refusal::ClearNotAllowed(name@, ty),
        TranspileError::IncompatibleAssignment { name, value_ty, var_ty } => Refusal::Incompatible(name@, value_ty, var_ty),
    }
}

/// Why an assignment without code is refused.
pub open spec fn assign_refusal(st: AssignStatement) -> Refusal {
    match st.value {
        None => if !(st.target_type == scalar(RosyBaseType::VE) || st.target_type.dimensions > 0) {
            Refusal::ClearNotAllowed(st.name@, st.target_type)
        } else {
            Refusal::Undefined(st.name@)
        },
        Some(v) => if !assignable_spec(st.target_type, v.ty) {
            Refusal::Incompatible(st.name@, v.ty, st.target_type)
        } else {
            Refusal::Undefined(st.name@)
        },
    }
}

/// Why a statement without code is refused.
pub open spec fn refusal_of(st: Statement) -> Refusal {
    match st {
        Statement::Assign(a) => assign_refusal(a),
        Statement::Scrlen(x) => Refusal::Undefined(x.size_name->0@),
        Statement::Imunit(x) => Refusal::Undefined(x.name@),
        Statement::Argget(x) => Refusal::Undefined(x.name@),
        Statement::Stcre(x) => Refusal::Undefined(x.name@),
        Statement::Reran(x) => Refusal::Undefined(x.name@),
        _ => Refusal::Undefined(Seq::empty()),
    }
}

impl Statement {
    /// The statement's code.
    pub fn transpile(&self, ctx: &TranspileContext) -> (r: Result<TranspileOutput, TranspileError>)
        ensures
            match code_of(*self, ctx.variables@) {
                Some(c) => r matches Ok(out) && out.serialization@ == c,
                None => r matches Err(e) && refusal_view(e) == refusal_of(*self),
            },
    {
        match self {
            Statement::Assign(a) => a.transpile(ctx),
            Statement::Scrlen(x) => x.transpile(ctx),
            Statement::Imunit(x) => x.transpile(ctx),
            Statement::Argget(x) => x.transpile(ctx),
            Statement::Stcre(x) => x.transpile(ctx),
            Statement::Reran(x) => x.transpile(ctx),
            Statement::Vezero(x) => Ok(x.transpile()),
            Statement::Danotw(x) => Ok(x.transpile()),
            Statement::Daflo(x) => Ok(x.transpile()),
            Statement::Dapew(x) => Ok(x.transpile()),
            Statement::Darev(x) => Ok(x.transpile()),
            Statement::Polval(x) => Ok(x.transpile()),
        }
    }
}

/// A program: its statements in order.
pub struct Program {
    pub statements: Vec<Statement>,
}

/// Lines joined by line feeds.
pub open spec fn join_lines(lines: Seq<Seq<char>>) -> Seq<char>
    decreases lines.len(),
{
    if lines.len() == 0 {
        Seq::empty()
    } else if lines.len() == 1 {
        lines[0]
    } else {
        join_lines(lines.drop_last()) + "\n"@ + lines.last()
    }
}

/// Every statement of `s` has code.
pub open spec fn all_have_code(s: Seq<Statement>, vars: Seq<VariableInfo>) -> bool {
    forall|i: int| 0 <= i < s.len() ==> (#[trigger] code_of(s[i], vars)) is Some
}

/// The statements' codes.
pub open spec fn codes(s: Seq<Statement>, vars: Seq<VariableInfo>) -> Seq<Seq<char>> {
    Seq::new(s.len(), |i: int| code_of(s[i], vars)->0)
}

/// The refusals of the statements without code, in order.
pub open spec fn refusals(s: Seq<Statement>, vars: Seq<VariableInfo>) -> Seq<Refusal>
    decreases s.len(),
{
    if s.len() == 0 {
        Seq::empty()
    } else if code_of(s.last(), vars) is None {
        refusals(s.drop_last(), vars).push(refusal_of(s.last()))
    } else {
        refusals(s.drop_last(), vars)
    }
}

impl Program {
    /// The program's code: the statements' codes, one per line, when every statement has
    /// code; otherwise the errors of every statement that has none, in order.
    pub fn transpile(&self, ctx: &TranspileContext) -> (r: Result<TranspileOutput, Vec<TranspileError>>)
        ensures
            all_have_code(self.statements@, ctx.variables@) ==> (r matches Ok(out)
                && out.serialization@ == join_lines(codes(self.statements@, ctx.variables@))
                && out.requested@.len() == 0),
            !all_have_code(self.statements@, ctx.variables@) ==> (r matches Err(errs)
                && errs@.map_values(|e: TranspileError| refusal_view(e)) == refusals(self.statements@, ctx.variables@)),
    {
        let mut text: Vec<char> = Vec::new();
        let mut errors: Vec<TranspileError> = Vec::new();
        let ghost vars = ctx.variables@;
        let ghost st = self.statements@;
        let mut i: usize = 0;
        while i < self.statements.len()
            invariant
                i <= st.len(),
                st == self.statements@,
                vars == ctx.variables@,
                errors@.map_values(|e: TranspileError| refusal_view(e)) == refusals(st.take(i as int), vars),
                all_have_code(st.take(i as int), vars) ==> text@ == join_lines(codes(st.take(i as int), vars)),
            decreases st.len() - i,
        {
            let res = self.statements[i].transpile(ctx);
            proof {
                assert(st.take(i + 1).drop_last() =~= st.take(i as int));
                assert(st.take(i + 1).last() == st[i as int]);
                assert(codes(st.take(i + 1), vars).drop_last() =~= codes(st.take(i as int), vars));
                if all_have_code(st.take(i + 1), vars) {
                    assert forall|j: int| 0 <= j < i implies (#[trigger] code_of(st.take(i as int)[j], vars)) is Some by {
                        assert(st.take(i as int)[j] == st.take(i + 1)[j]);
                    }
                    assert(code_of(st.take(i + 1)[i as int], vars) is Some);
                }
            }
            match res {
                Ok(out) => {
                    if i > 0 {
                        text.push('\n');
                    }
                    let c = crate::text::chars_of(out.serialization.as_str());
                    crate::text::extend_chars(&mut text, &c);
                    proof {
                        if all_have_code(st.take(i + 1), vars) {
                            if i == 0 {
                                assert(codes(st.take(1), vars) =~= seq![out.serialization@]);
                                assert(text@ =~= out.serialization@);
                            } else {
                                reveal_strlit("\n");
                                assert(codes(st.take(i + 1), vars).last() == out.serialization@);
                            }
                        }
                    }
                },
                Err(e) => {
                    let ghost before = errors@;
                    errors.push(e);
                    proof {
                        assert(errors@.map_values(|e: TranspileError| refusal_view(e))
                            =~= before.map_values(|e: TranspileError| refusal_view(e)).push(refusal_view(e)));
                        assert(!all_have_code(st.take(i + 1), vars)) by {
                            assert(st.take(i + 1)[i as int] == st[i as int]);
                        }
                    }
                },
            }
            i = i + 1;
        }
        proof {
            assert(st.take(i as int) =~= st);
        }
        if errors.len() == 0 {
            proof {
                if !all_have_code(st, vars) {
                    lemma_refused_positive(st, vars);
                }
            }
            Ok(TranspileOutput { serialization: crate::text::string_of(&text), requested: Vec::new() })
        } else {
            proof {
                if all_have_code(st, vars) {
                    lemma_refused_zero(st, vars);
                }
            }
            Err(errors)
        }
    }
}

proof fn lemma_refused_positive(s: Seq<Statement>, vars: Seq<VariableInfo>)
    requires
        !all_have_code(s, vars),
    ensures
        refusals(s, vars).len() > 0,
    decreases s.len(),
{
    if code_of(s.last(), vars) is Some {
        assert(!all_have_code(s.drop_last(), vars)) by {
            let j = choose|j: int| 0 <= j < s.len() && !((#[trigger] code_of(s[j], vars)) is Some);
            assert(s.drop_last()[j] == s[j]);
        }
        lemma_refused_positive(s.drop_last(), vars);
    }
}

proof fn lemma_refused_zero(s: Seq<Statement>, vars: Seq<VariableInfo>)
    requires
        all_have_code(s, vars),
    ensures
        refusals(s, vars).len() == 0,
    decreases s.len(),
{
    if s.len() > 0 {
        assert(all_have_code(s.drop_last(), vars)) by {
            assert forall|j: int| 0 <= j < s.drop_last().len() implies (#[trigger] code_of(s.drop_last()[j], vars)) is Some by {
                assert(s.drop_last()[j] == s[j]);
            }
        }
        assert(code_of(s[s.len() - 1], vars) is Some);
        lemma_refused_zero(s.drop_last(), vars);
    }
}

} // verus!
