//! The generated project: its `Cargo.toml`, and the transpiled code placed in the `main.rs`
//! template between its injection markers.

use vstd::prelude::*;
use crate::text::{chars_of, extend_chars, extend_str, string_of, sub_chars};

verus! {

/// `m` occurs in `s` at position `i`.
pub open spec fn occurs_at(s: Seq<char>, m: Seq<char>, i: int) -> bool {
    0 <= i && i + m.len() <= s.len() && s.subrange(i, i + m.len()) == m
}

/// The first position at or after `from` where `m` occurs.
pub open spec fn first_from(s: Seq<char>, m: Seq<char>, from: int) -> Option<int>
    decreases s.len() + 1 - from,
{
    if from < 0 || from + m.len() > s.len() {
        None
    } else if occurs_at(s, m, from) {
        Some(from)
    } else {
        first_from(s, m, from + 1)
    }
}

/// The two parts of `s` around `m` when splitting `s` at `m` gives exactly two parts
/// (`str::split`): the text before the first occurrence and the text after it, with no
/// further occurrence after it.
pub open spec fn split_once_exact(s: Seq<char>, m: Seq<char>) -> Option<(Seq<char>, Seq<char>)> {
    match first_from(s, m, 0) {
        None => None,
        Some(i) => if first_from(s, m, i + m.len()) is Some {
            None
        } else {
            Some((s.take(i), s.skip(i + m.len())))
        },
    }
}

fn occurs_at_exec(s: &Vec<char>, m: &Vec<char>, i: usize) -> (r: bool)
    requires
        i + m.len() <= s.len(),
    ensures
        r == occurs_at(s@, m@, i as int),
{
    let n = s.len();
    let mut k: usize = 0;
    while k < m.len()
        invariant
            n == s@.len(),
            i + m@.len() <= s@.len(),
            k <= m@.len(),
            forall|q: int| 0 <= q < k ==> s@[i + q] == m@[q],
        decreases m@.len() - k,
    {
        if s[i + k] != m[k] {
            proof {
                assert(s@.subrange(i as int, i + m@.len())[k as int] != m@[k as int]);
            }
            return false;
        }
        k = k + 1;
    }
    proof {
        assert(s@.subrange(i as int, i + m@.len()) =~= m@);
    }
    true
}

/// The first position at or after `from` where `m` occurs.
fn find_from(s: &Vec<char>, m: &Vec<char>, from: usize) -> (r: Option<usize>)
    ensures
        match r {
            Some(i) => first_from(s@, m@, from as int) == Some(i as int),
            None => first_from(s@, m@, from as int) is None,
        },
{
    let n = s.len();
    if m.len() > n {
        proof {
            assert(first_from(s@, m@, from as int) is None);
        }
        return None;
    }
    let last = n - m.len();
    let mut i = from;
    while i <= last
        invariant
            n == s@.len(),
            last == s@.len() - m@.len(),
            from <= i,
            first_from(s@, m@, from as int) == first_from(s@, m@, i as int),
        decreases last + 1 - i,
    {
        if occurs_at_exec(s, m, i) {
            return Some(i);
        }
        if i == last {
            proof {
                assert(first_from(s@, m@, i + 1) is None);
            }
            return None;
        }
        i = i + 1;
    }
    None
}

/// The parts of `s` around its only occurrence of `m` (see `split_once_exact`).
fn split_exact(s: &Vec<char>, m: &Vec<char>) -> (r: Option<(Vec<char>, Vec<char>)>)
    ensures
        match r {
            Some((a, b)) => split_once_exact(s@, m@) == Some((a@, b@)),
            None => split_once_exact(s@, m@) is None,
        },
{
    match find_from(s, m, 0) {
        None => None,
        Some(i) => {
            proof {
                assert(occurs_at(s@, m@, i as int)) by {
                    lemma_first_from_occurs(s@, m@, 0, i as int);
                }
            }
            let n = s.len();
            let j = i + m.len();
            if find_from(s, m, j).is_some() {
                None
            } else {
                let a = sub_chars(s, 0, i);
                let b = sub_chars(s, j, s.len());
                proof {
                    assert(a@ =~= s@.take(i as int));
                    assert(b@ =~= s@.skip(j as int));
                }
                Some((a, b))
            }
        },
    }
}

proof fn lemma_first_from_occurs(s: Seq<char>, m: Seq<char>, from: int, i: int)
    requires
        first_from(s, m, from) == Some(i),
    ensures
        occurs_at(s, m, i),
    decreases s.len() + 1 - from,
{
    if !occurs_at(s, m, from) && from >= 0 && from + m.len() <= s.len() {
        lemma_first_from_occurs(s, m, from + 1, i);
    }
}

/// `line` without one trailing carriage return.
pub open spec fn strip_cr(line: Seq<char>) -> Seq<char> {
    if line.len() > 0 && line.last() == '\r' {
        line.drop_last()
    } else {
        line
    }
}

/// Index of the first line feed in `s`.
pub open spec fn first_lf(s: Seq<char>, from: int) -> Option<int>
    decreases s.len() - from,
{
    if from < 0 || from >= s.len() {
        None
    } else if s[from] == '\n' {
        Some(from)
    } else {
        first_lf(s, from + 1)
    }
}

/// The lines of `s` (`str::lines`): split after each line feed, a carriage return before
/// the line feed removed, no empty line after a final line feed.
pub open spec fn str_lines(s: Seq<char>) -> Seq<Seq<char>>
    decreases s.len(),
{
    if s.len() == 0 {
        Seq::empty()
    } else {
        match first_lf(s, 0) {
            None => seq![s],
            Some(i) => {
                if 0 <= i < s.len() {
                    seq![strip_cr(s.take(i))] + str_lines(s.skip(i + 1))
                } else {
                    Seq::empty()
                }
            },
        }
    }
}

/// Each line with a tab in front, joined by line feeds.
pub open spec fn tab_join(lines: Seq<Seq<char>>) -> Seq<char>
    decreases lines.len(),
{
    if lines.len() == 0 {
        Seq::empty()
    } else if lines.len() == 1 {
        seq!['\t'] + lines[0]
    } else {
        tab_join(lines.drop_last()) + seq!['\n', '\t'] + lines.last()
    }
}

pub proof fn lemma_first_lf_bounds(s: Seq<char>, from: int)
    requires
        from >= 0,
    ensures
        match first_lf(s, from) {
            Some(i) => from <= i < s.len() && s[i] == '\n' && forall|j: int| from <= j < i ==> s[j] != '\n',
            None => forall|j: int| from <= j < s.len() ==> s[j] != '\n',
        },
    decreases s.len() - from,
{
    if from >= 0 && from < s.len() && s[from] != '\n' {
        lemma_first_lf_bounds(s, from + 1);
    }
}

proof fn lemma_tab_join_push(lines: Seq<Seq<char>>, x: Seq<char>)
    requires
        lines.len() >= 1,
    ensures
        tab_join(lines.push(x)) == tab_join(lines) + seq!['\n', '\t'] + x,
{
    assert(lines.push(x).drop_last() =~= lines);
}

/// The transpiled code indented by one tab per line.
fn indent_code(code: &str) -> (r: Vec<char>)
    ensures
        r@ == tab_join(str_lines(code@)),
{
    let c = chars_of(code);
    let mut out: Vec<char> = Vec::new();
    let mut start: usize = 0;
    let mut count: usize = 0;
    let ghost mut done: Seq<Seq<char>> = Seq::empty();
    proof {
        assert(c@.skip(0) =~= c@);
        assert(done + str_lines(c@.skip(0)) =~= str_lines(c@));
    }
    while start < c.len()
        invariant
            start <= c@.len(),
            c@ == code@,
            done + str_lines(c@.skip(start as int)) == str_lines(c@),
            out@ == tab_join(done),
            count == done.len(),
            count <= start,
        decreases c@.len() - start,
    {
        let ghost rest = c@.skip(start as int);
        let mut j = start;
        while j < c.len() && c[j] != '\n'
            invariant
                start <= j <= c@.len(),
                forall|q: int| start <= q < j ==> c@[q] != '\n',
            decreases c@.len() - j,
        {
            j = j + 1;
        }
        proof {
            lemma_first_lf_bounds(rest, 0);
            if j < c@.len() {
                assert(rest[j - start] == '\n');
                if first_lf(rest, 0) is Some {
                    let i = first_lf(rest, 0)->0;
                    assert(i == j - start) by {
                        if i < j - start {
                            assert(rest[i] == c@[start + i]);
                        }
                        if i > j - start {
                            assert(rest[j - start] == c@[j as int]);
                        }
                    }
                }
            } else {
                assert forall|q: int| 0 <= q < rest.len() implies rest[q] != '\n' by {
                    assert(rest[q] == c@[start + q]);
                }
                if first_lf(rest, 0) is Some {
                    let i = first_lf(rest, 0)->0;
                    assert(rest[i] == c@[start + i]);
                }
            }
        }
        let mut end = j;
        if end > start && c[end - 1] == '\r' && j < c.len() {
            end = end - 1;
        }
        let line = sub_chars(&c, start, end);
        let ghost lv = if j < c@.len() { strip_cr(rest.take(j - start)) } else { rest };
        proof {
            if j < c@.len() {
                assert(line@ =~= strip_cr(rest.take(j - start)));
            } else {
                assert(line@ =~= rest);
            }
        }
        if count > 0 {
            out.push('\n');
        }
        out.push('\t');
        extend_chars(&mut out, &line);
        proof {
            if done.len() == 0 {
                assert(out@ =~= tab_join(seq![lv]));
                assert(done.push(lv) =~= seq![lv]);
            } else {
                lemma_tab_join_push(done, lv);
                assert(out@ =~= tab_join(done) + seq!['\n', '\t'] + lv);
            }
            if j < c@.len() {
                assert(rest.skip(j - start + 1) =~= c@.skip(j + 1));
                assert(str_lines(rest) == seq![lv] + str_lines(c@.skip(j + 1)));
                assert(done.push(lv) + str_lines(c@.skip(j + 1)) =~= done + (seq![lv] + str_lines(c@.skip(j + 1))));
            } else {
                assert(str_lines(rest) == seq![lv]);
                assert(c@.skip(c@.len() as int) =~= Seq::<char>::empty());
                assert(done.push(lv) + str_lines(c@.skip(c@.len() as int)) =~= done + seq![lv]);
            }
            done = done.push(lv);
        }
        count = count + 1;
        start = if j < c.len() { j + 1 } else { c.len() };
    }
    proof {
        assert(c@.skip(start as int) =~= Seq::<char>::empty());
        assert(done + Seq::<Seq<char>>::empty() =~= done);
    }
    out
}

/// Characters of each of a list of character vectors.
pub open spec fn char_views(v: Seq<Vec<char>>) -> Seq<Seq<char>> {
    v.map_values(|x: Vec<char>| x@)
}

/// The lines of a text (`str::lines`).
pub fn split_lines(text: &str) -> (r: Vec<Vec<char>>)
    ensures
        char_views(r@) == str_lines(text@),
{
    let c = chars_of(text);
    let mut out: Vec<Vec<char>> = Vec::new();
    let mut start: usize = 0;
    let ghost mut done: Seq<Seq<char>> = Seq::empty();
    proof {
        assert(c@.skip(0) =~= c@);
        assert(done + str_lines(c@.skip(0)) =~= str_lines(c@));
    }
    while start < c.len()
        invariant
            start <= c@.len(),
            c@ == text@,
            done + str_lines(c@.skip(start as int)) == str_lines(c@),
            char_views(out@) == done,
        decreases c@.len() - start,
    {
        let ghost rest = c@.skip(start as int);
        let mut j = start;
        while j < c.len() && c[j] != '\n'
            invariant
                start <= j <= c@.len(),
                forall|q: int| start <= q < j ==> c@[q] != '\n',
            decreases c@.len() - j,
        {
            j = j + 1;
        }
        proof {
            lemma_first_lf_bounds(rest, 0);
            if j < c@.len() {
                assert(rest[j - start] == '\n');
                if first_lf(rest, 0) is Some {
                    let i = first_lf(rest, 0)->0;
                    assert(i == j - start) by {
                        if i < j - start {
                            assert(rest[i] == c@[start + i]);
                        }
                        if i > j - start {
                            assert(rest[j - start] == c@[j as int]);
                        }
                    }
                }
            } else {
                assert forall|q: int| 0 <= q < rest.len() implies rest[q] != '\n' by {
                    assert(rest[q] == c@[start + q]);
                }
                if first_lf(rest, 0) is Some {
                    let i = first_lf(rest, 0)->0;
                    assert(rest[i] == c@[start + i]);
                }
            }
        }
        let mut end = j;
        if end > start && c[end - 1] == '\r' && j < c.len() {
            end = end - 1;
        }
        let line = sub_chars(&c, start, end);
        let ghost lv = if j < c@.len() { strip_cr(rest.take(j - start)) } else { rest };
        proof {
            if j < c@.len() {
                assert(line@ =~= strip_cr(rest.take(j - start)));
            } else {
                assert(line@ =~= rest);
            }
        }
        out.push(line);
        proof {
            assert(char_views(out@) =~= done.push(lv));
            if j < c@.len() {
                assert(rest.skip(j - start + 1) =~= c@.skip(j + 1));
                assert(str_lines(rest) == seq![lv] + str_lines(c@.skip(j + 1)));
                assert(done.push(lv) + str_lines(c@.skip(j + 1)) =~= done + (seq![lv] + str_lines(c@.skip(j + 1))));
            } else {
                assert(str_lines(rest) == seq![lv]);
                assert(c@.skip(c@.len() as int) =~= Seq::<char>::empty());
                assert(done.push(lv) + str_lines(c@.skip(c@.len() as int)) =~= done + seq![lv]);
            }
            done = done.push(lv);
        }
        start = if j < c.len() { j + 1 } else { c.len() };
    }
    proof {
        assert(c@.skip(start as int) =~= Seq::<char>::empty());
        assert(done + Seq::<Seq<char>>::empty() =~= done);
    }
    out
}

/// Why the template could not take the code.
#[derive(Debug, Clone, Copy, PartialEq, Eq)]
pub enum InjectError {
    /// The template does not hold exactly one `// <MPI_START>`.
    MpiStart,
    /// The template does not hold exactly one `// <MPI_END>` after it.
    MpiEnd,
    /// The template does not hold exactly one `// <INJECT_START>`.
    InjectStart,
    /// The template does not hold exactly one `// <INJECT_END>` after it.
    InjectEnd,
}

/// The template without its MPI block (when MPI is not used).
pub open spec fn without_mpi(t: Seq<char>, uses_mpi: bool) -> Result<Seq<char>, InjectError> {
    if uses_mpi {
        Ok(t)
    } else {
        match split_once_exact(t, "// <MPI_START>"@) {
            None => Err(InjectError::MpiStart),
            Some((before, rest)) => match split_once_exact(rest, "// <MPI_END>"@) {
                None => Err(InjectError::MpiEnd),
                Some((_, after)) => Ok(before + after),
            },
        }
    }
}

/// The template with `code`, indented by a tab per line, between its injection markers.
pub open spec fn inject_spec(template: Seq<char>, code: Seq<char>, uses_mpi: bool) -> Result<Seq<char>, InjectError> {
    match without_mpi(template, uses_mpi) {
        Err(e) => Err(e),
        Ok(t) => match split_once_exact(t, "// <INJECT_START>"@) {
            None => Err(InjectError::InjectStart),
            Some((before, rest)) => match split_once_exact(rest, "// <INJECT_END>"@) {
                None => Err(InjectError::InjectEnd),
                Some((_, after)) => Ok(before + "// <INJECT_START>\n"@ + tab_join(str_lines(code)) + "\n\t// <INJECT_END>"@ + after),
            },
        },
    }
}

/// Places the transpiled code in the `main.rs` template: the MPI block is dropped when MPI
/// is not used, and the text between the injection markers is replaced by the code,
/// indented by a tab per line.
pub fn inject_code(template: &str, transpiled_code: &str, uses_mpi: bool) -> (r: Result<String, InjectError>)
    ensures
        match inject_spec(template@, transpiled_code@, uses_mpi) {
            Ok(t) => r matches Ok(s) && s@ == t,
            Err(e) => r == Err::<String, InjectError>(e),
        },
{
    let mut t = chars_of(template);
    if !uses_mpi {
        let ms = chars_of("// <MPI_START>");
        let me = chars_of("// <MPI_END>");
        let (before, rest) = match split_exact(&t, &ms) {
            Some(p) => p,
            None => {
                return Err(InjectError::MpiStart);
            },
        };
        let after = match split_exact(&rest, &me) {
            Some((_, a)) => a,
            None => {
                return Err(InjectError::MpiEnd);
            },
        };
        let mut joined = before;
        extend_chars(&mut joined, &after);
        t = joined;
    }
    let is = chars_of("// <INJECT_START>");
    let ie = chars_of("// <INJECT_END>");
    let (before, rest) = match split_exact(&t, &is) {
        Some(p) => p,
        None => {
            return Err(InjectError::InjectStart);
        },
    };
    let after = match split_exact(&rest, &ie) {
        Some((_, a)) => a,
        None => {
            return Err(InjectError::InjectEnd);
        },
    };
    let code = indent_code(transpiled_code);
    let mut out = before;
    extend_str(&mut out, "// <INJECT_START>\n");
    extend_chars(&mut out, &code);
    extend_str(&mut out, "\n\t// <INJECT_END>");
    extend_chars(&mut out, &after);
    Ok(string_of(&out))
}

/// The `[profile.release]` section of the generated `Cargo.toml`.
pub open spec fn profile_section(optimized: bool) -> Seq<char> {
    if optimized {
        "\n[profile.release]\nopt-level = 3\nlto = \"fat\"\ncodegen-units = 1\npanic = \"abort\"\n"@
    } else {
        "\n[profile.release]\ncodegen-units = 1\n"@
    }
}

pub open spec fn cargo_toml_spec(optimized: bool, dep: Seq<char>) -> Seq<char> {
    "[workspace]\n\n[package]\nname = \"rosy_output\"\nversion = \"0.1.0\"\nedition = \"2024\"\n\n[dependencies]\nanyhow = \"1.0\"\n"@
        + dep + "\nnum-complex = \"0.4\"\n"@ + profile_section(optimized)
}

/// The `Cargo.toml` of the generated project, with `rosy_lib_dep` as its `rosy-lib` line.
pub fn generate_cargo_toml(optimized: bool, rosy_lib_dep: &str) -> (r: String)
    ensures
        r@ == cargo_toml_spec(optimized, rosy_lib_dep@),
{
    let mut out = String::new();
    out.append("[workspace]\n\n[package]\nname = \"rosy_output\"\nversion = \"0.1.0\"\nedition = \"2024\"\n\n[dependencies]\nanyhow = \"1.0\"\n");
    out.append(rosy_lib_dep);
    out.append("\nnum-complex = \"0.4\"\n");
    if optimized {
        out.append("\n[profile.release]\nopt-level = 3\nlto = \"fat\"\ncodegen-units = 1\npanic = \"abort\"\n");
    } else {
        out.append("\n[profile.release]\ncodegen-units = 1\n");
    }
    proof {
        let h = "[workspace]\n\n[package]\nname = \"rosy_output\"\nversion = \"0.1.0\"\nedition = \"2024\"\n\n[dependencies]\nanyhow = \"1.0\"\n"@;
        assert(Seq::<char>::empty() + h =~= h);
    }
    out
}

/// The features the generated project asks of `rosy-lib`.
pub open spec fn features_toml(uses_mpi: bool, optimized: bool) -> Seq<char> {
    if uses_mpi && optimized {
        ", features = [\"mpi\", \"nightly-simd\"]"@
    } else if uses_mpi {
        ", features = [\"mpi\"]"@
    } else if optimized {
        ", features = [\"nightly-simd\"]"@
    } else {
        Seq::empty()
    }
}

/// `t` does not occur in `s` when its first two characters never stand side by side in `s`.
proof fn lemma_absent_by_first_pair(s: Seq<char>, t: Seq<char>)
    requires
        t.len() >= 2,
        forall|j: int| 0 <= j && j + 1 < s.len() ==> !(#[trigger] s[j] == t[0] && s[j + 1] == t[1]),
    ensures
        !crate::assign::contains_text(s, t),
{
    if crate::assign::contains_text(s, t) {
        let j = choose|j: int| 0 <= j && j + t.len() <= s.len() && #[trigger] s.subrange(j, j + t.len()) == t;
        assert(s.subrange(j, j + t.len())[0] == t[0]);
        assert(s.subrange(j, j + t.len())[1] == t[1]);
        assert(s[j] == t[0] && s[j + 1] == t[1]);
    }
}

/// The features of the `rosy-lib` line: `"nightly-simd"` is asked for exactly when the build
/// is optimized, and `"mpi"` exactly when the program uses MPI, each whatever the other is.
pub proof fn law_features_follow_the_build(uses_mpi: bool, optimized: bool)
    ensures
        crate::assign::contains_text(features_toml(uses_mpi, optimized), "\"nightly-simd\""@) <==> optimized,
        crate::assign::contains_text(features_toml(uses_mpi, optimized), "\"mpi\""@) <==> uses_mpi,
{
    let f = features_toml(uses_mpi, optimized);
    let simd = "\"nightly-simd\""@;
    let mpi = "\"mpi\""@;
    reveal_strlit("\"nightly-simd\"");
    reveal_strlit("\"mpi\"");
    reveal_strlit(", features = [\"mpi\", \"nightly-simd\"]");
    reveal_strlit(", features = [\"mpi\"]");
    reveal_strlit(", features = [\"nightly-simd\"]");
    if uses_mpi && optimized {
        assert(f.subrange(14, 14 + mpi.len() as int) =~= mpi);
        assert(f.subrange(21, 21 + simd.len() as int) =~= simd);
    } else if uses_mpi {
        assert(f.subrange(14, 14 + mpi.len() as int) =~= mpi);
        assert forall|j: int| 0 <= j && j + 1 < f.len() implies !(#[trigger] f[j] == simd[0] && f[j + 1] == simd[1]) by {
            if f[j] == '"' {
                assert(j == 14 || j == 18);
            }
        }
        lemma_absent_by_first_pair(f, simd);
    } else if optimized {
        assert(f.subrange(14, 14 + simd.len() as int) =~= simd);
        assert forall|j: int| 0 <= j && j + 1 < f.len() implies !(#[trigger] f[j] == mpi[0] && f[j + 1] == mpi[1]) by {
            if f[j] == '"' {
                assert(j == 14 || j == 27);
            }
        }
        lemma_absent_by_first_pair(f, mpi);
    } else {
        lemma_absent_by_first_pair(f, simd);
        lemma_absent_by_first_pair(f, mpi);
    }
}

/// `s` with each backslash replaced by a slash.
pub open spec fn slashes(s: Seq<char>) -> Seq<char> {
    Seq::new(s.len(), |i: int| if s[i] == '\\' { '/' } else { s[i] })
}

pub open spec fn dependency_spec(local: Option<Seq<char>>, version: Seq<char>, uses_mpi: bool, optimized: bool) -> Seq<char> {
    match local {
        Some(p) => "rosy-lib = { path = \""@ + slashes(p) + "\""@ + features_toml(uses_mpi, optimized) + " }"@,
        None => "rosy-lib = { version = \""@ + version + "\""@ + features_toml(uses_mpi, optimized) + " }"@,
    }
}

/// The `rosy-lib` line of the generated `Cargo.toml`: the local checkout at `local` when
/// there is one (its path with forward slashes), otherwise the release `version`, with the
/// features MPI and optimization ask for.
pub fn rosy_lib_dependency(local: Option<&str>, version: &str, uses_mpi: bool, optimized: bool) -> (r: String)
    ensures
        r@ == dependency_spec(match local {
            Some(p) => Some(p@),
            None => None,
        }, version@, uses_mpi, optimized),
{
    let mut out: Vec<char> = Vec::new();
    match local {
        Some(p) => {
            extend_str(&mut out, "rosy-lib = { path = \"");
            let c = chars_of(p);
            let ghost pre = out@;
            let mut i: usize = 0;
            while i < c.len()
                invariant
                    i <= c@.len(),
                    out@ == pre + slashes(c@).take(i as int),
                decreases c@.len() - i,
            {
                out.push(if c[i] == '\\' { '/' } else { c[i] });
                proof {
                    assert(slashes(c@).take(i + 1) =~= slashes(c@).take(i as int).push(slashes(c@)[i as int]));
                    assert(out@ =~= pre + slashes(c@).take(i + 1));
                }
                i = i + 1;
            }
            proof {
                assert(slashes(c@).take(i as int) =~= slashes(c@));
            }
        },
        None => {
            extend_str(&mut out, "rosy-lib = { version = \"");
            extend_str(&mut out, version);
        },
    }
    extend_str(&mut out, "\"");
    if uses_mpi && optimized {
        extend_str(&mut out, ", features = [\"mpi\", \"nightly-simd\"]");
    } else if uses_mpi {
        extend_str(&mut out, ", features = [\"mpi\"]");
    } else if optimized {
        extend_str(&mut out, ", features = [\"nightly-simd\"]");
    }
    extend_str(&mut out, " }");
    proof {
        assert(Seq::<char>::empty() + "rosy-lib = { path = \""@ =~= "rosy-lib = { path = \""@);
        assert(Seq::<char>::empty() + "rosy-lib = { version = \""@ =~= "rosy-lib = { version = \""@);
        let x = out@;
        assert(x + Seq::<char>::empty() =~= x);
    }
    string_of(&out)
}

/// How the generated project is built.
pub struct BuildPlan {
    /// The transpiled code talks to MPI (it names `rosy_mpi_context`).
    pub uses_mpi: bool,
    /// The arguments of `cargo`.
    pub cargo_args: Vec<&'static str>,
    /// The directory under `target` that holds the binary.
    pub profile_dir: &'static str,
    /// The build mode as announced to the user.
    pub profile_label: &'static str,
}

/// The `cargo` arguments for a build: colored output unless quiet, and the release profile
/// when asked for.
pub open spec fn cargo_args_spec(quiet: bool, release: bool) -> Seq<Seq<char>> {
    let base = seq!["build"@, "--bin"@, "rosy_output"@];
    let colored = if quiet { base } else { base + seq!["--color"@, "always"@] };
    if release { colored.push("--release"@) } else { colored }
}

/// The label of a build mode: `optimized` over `release` over `debug`.
pub open spec fn profile_label_spec(release: bool, optimized: bool) -> Seq<char> {
    if optimized {
        "optimized"@
    } else if release {
        "release"@
    } else {
        "debug"@
    }
}

/// The decisions made before the generated project is built from `serialization`.
pub fn build_plan(serialization: &str, release: bool, optimized: bool, quiet: bool) -> (r: BuildPlan)
    ensures
        r.uses_mpi == crate::assign::contains_text(serialization@, "rosy_mpi_context"@),
        r.cargo_args@.map_values(|a: &'static str| a@) == cargo_args_spec(quiet, release),
        r.profile_dir@ == (if release { "release"@ } else { "debug"@ }),
        r.profile_label@ == profile_label_spec(release, optimized),
{
    let uses_mpi = crate::assign::text_contains(serialization, "rosy_mpi_context");
    let mut cargo_args: Vec<&'static str> = Vec::new();
    cargo_args.push("build");
    cargo_args.push("--bin");
    cargo_args.push("rosy_output");
    if !quiet {
        cargo_args.push("--color");
        cargo_args.push("always");
    }
    if release {
        cargo_args.push("--release");
    }
    proof {
        let base = seq!["build"@, "--bin"@, "rosy_output"@];
        let colored = if quiet { base } else { base + seq!["--color"@, "always"@] };
        let want = if release { colored.push("--release"@) } else { colored };
        assert(cargo_args@.map_values(|a: &'static str| a@) =~= want);
    }
    let profile_dir = if release { "release" } else { "debug" };
    let profile_label = if optimized {
        "optimized"
    } else if release {
        "release"
    } else {
        "debug"
    };
    BuildPlan { uses_mpi, cargo_args, profile_dir, profile_label }
}


} // verus!
