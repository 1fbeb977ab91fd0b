//! Construct test case files: a Rosy source, then an optional `======= expect` section with
//! the expected output and an optional `======= fox` section with a COSY version.

use vstd::prelude::*;
use crate::embedded::{char_views, split_lines, str_lines};
use crate::text::{extend_chars, extend_str, string_of, trim, trim_end, trim_end_index, trimmed, sub_chars};

verus! {

/// Where the lines of a case file go.
#[derive(PartialEq, Eq)]
pub enum Section {
    Source,
    Expect,
    Fox,
    Other,
}

/// A buffer with a line appended (a line feed before it unless the buffer is empty).
pub open spec fn append_line(buf: Seq<char>, line: Seq<char>) -> Seq<char> {
    if buf.len() == 0 {
        line
    } else {
        buf + seq!['\n'] + line
    }
}

/// The section a marker line opens: `======= ` followed by its name (trimmed).
pub open spec fn marker(line: Seq<char>) -> Option<Section> {
    if line.len() >= 8 && line.take(8) == "======= "@ {
        let name = trim(line.skip(8));
        if name == "expect"@ {
            Some(Section::Expect)
        } else if name == "fox"@ {
            Some(Section::Fox)
        } else {
            Some(Section::Other)
        }
    } else {
        None
    }
}

/// A case file read so far: source, expected output, COSY version, current section.
pub struct CaseState {
    pub source: Seq<char>,
    pub expect: Option<Seq<char>>,
    pub fox: Option<Seq<char>>,
    pub section: Section,
}

/// The case file after its first `n` lines.
pub open spec fn case_state(lines: Seq<Seq<char>>, n: int) -> CaseState
    decreases n,
{
    if n <= 0 {
        CaseState { source: Seq::empty(), expect: None, fox: None, section: Section::Source }
    } else {
        let s = case_state(lines, n - 1);
        let line = lines[n - 1];
        match marker(line) {
            Some(Section::Expect) => CaseState { expect: Some(Seq::empty()), section: Section::Expect, ..s },
            Some(Section::Fox) => CaseState { fox: Some(Seq::empty()), section: Section::Fox, ..s },
            Some(_) => CaseState { section: Section::Other, ..s },
            None => match s.section {
                Section::Expect => CaseState { expect: Some(append_line(s.expect.unwrap_or(Seq::empty()), line)), ..s },
                Section::Fox => CaseState { fox: Some(append_line(s.fox.unwrap_or(Seq::empty()), line)), ..s },
                Section::Other => s,
                Section::Source => CaseState { source: append_line(s.source, line), ..s },
            },
        }
    }
}

/// A case file: its source, and its expected output and COSY version when present.
pub struct CaseFile {
    pub source: String,
    pub expect: Option<String>,
    pub fox: Option<String>,
}

fn opt_chars(o: &Option<Vec<char>>) -> (r: Option<String>)
    ensures
        match o {
            Some(v) => r matches Some(s) && s@ == v@,
            None => r is None,
        },
{
    match o {
        Some(v) => Some(string_of(v)),
        None => None,
    }
}

fn append_line_exec(buf: &mut Vec<char>, line: &Vec<char>)
    ensures
        final(buf)@ == append_line(old(buf)@, line@),
{
    if buf.len() > 0 {
        buf.push('\n');
    }
    extend_chars(buf, line);
    proof {
        if old(buf)@.len() == 0 {
            assert(Seq::<char>::empty() + line@ =~= line@);
        }
    }
}

fn marker_exec(line: &Vec<char>) -> (r: Option<Section>)
    ensures
        r == marker(line@),
{
    if line.len() < 8 {
        return None;
    }
    let head = sub_chars(line, 0, 8);
    let pre = crate::text::chars_of("======= ");
    proof {
        assert(head@ =~= line@.take(8));
    }
    if !crate::text::chars_eq(&head, &pre) {
        return None;
    }
    let tail = sub_chars(line, 8, line.len());
    proof {
        assert(tail@ =~= line@.skip(8));
    }
    let name = trimmed(&tail);
    let expect = crate::text::chars_of("expect");
    let fox = crate::text::chars_of("fox");
    if crate::text::chars_eq(&name, &expect) {
        Some(Section::Expect)
    } else if crate::text::chars_eq(&name, &fox) {
        Some(Section::Fox)
    } else {
        Some(Section::Other)
    }
}

/// Reads a case file: lines before any marker are the source; `======= expect` and
/// `======= fox` open those sections (each starting empty), any other marker a section
/// that is skipped; each line joins its section after a line feed (none before the first
/// text of the section).
pub fn parse_case(text: &str) -> (r: CaseFile)
    ensures
        ({
            let lines = str_lines(text@);
            let s = case_state(lines, lines.len() as int);
            &&& r.source@ == s.source
            &&& match s.expect {
                Some(e) => r.expect matches Some(x) && x@ == e,
                None => r.expect is None,
            }
            &&& match s.fox {
                Some(f) => r.fox matches Some(x) && x@ == f,
                None => r.fox is None,
            }
        }),
{
    let lines = split_lines(text);
    let ghost ls = str_lines(text@);
    let mut source: Vec<char> = Vec::new();
    let mut expect: Option<Vec<char>> = None;
    let mut fox: Option<Vec<char>> = None;
    let mut section = Section::Source;
    let mut i: usize = 0;
    while i < lines.len()
        invariant
            i <= lines@.len(),
            char_views(lines@) == ls,
            ({
                let s = case_state(ls, i as int);
                &&& source@ == s.source
                &&& match expect {
                    Some(v) => s.expect == Some(v@),
                    None => s.expect is None,
                }
                &&& match fox {
                    Some(v) => s.fox == Some(v@),
                    None => s.fox is None,
                }
                &&& section == s.section
            }),
        decreases lines@.len() - i,
    {
        let line = &lines[i];
        proof {
            assert(ls[i as int] == line@);
        }
        match marker_exec(line) {
            Some(Section::Expect) => {
                expect = Some(Vec::new());
                section = Section::Expect;
            },
            Some(Section::Fox) => {
                fox = Some(Vec::new());
                section = Section::Fox;
            },
            Some(_) => {
                section = Section::Other;
            },
            None => {
                match section {
                    Section::Expect => {
                        let mut b = match expect {
                            Some(v) => v,
                            None => Vec::new(),
                        };
                        append_line_exec(&mut b, line);
                        expect = Some(b);
                    },
                    Section::Fox => {
                        let mut b = match fox {
                            Some(v) => v,
                            None => Vec::new(),
                        };
                        append_line_exec(&mut b, line);
                        fox = Some(b);
                    },
                    Section::Other => {},
                    Section::Source => {
                        append_line_exec(&mut source, line);
                    },
                }
            },
        }
        i = i + 1;
    }
    CaseFile { source: string_of(&source), expect: opt_chars(&expect), fox: opt_chars(&fox) }
}

/// Lines joined by line feeds.
pub open spec fn join_lf(ls: Seq<Seq<char>>) -> Seq<char>
    decreases ls.len(),
{
    if ls.len() == 0 {
        Seq::empty()
    } else if ls.len() == 1 {
        ls[0]
    } else {
        join_lf(ls.drop_last()) + seq!['\n'] + ls.last()
    }
}

/// Output compared by the construct tests: each line without trailing whitespace, the
/// whole trimmed.
pub open spec fn norm_spec(s: Seq<char>) -> Seq<char> {
    trim(join_lf(str_lines(s).map_values(|l: Seq<char>| trim_end(l))))
}

/// Normalizes test output (see `norm_spec`).
pub fn norm_out(s: &str) -> (r: String)
    ensures
        r@ == norm_spec(s@),
{
    let lines = split_lines(s);
    let ghost tl = str_lines(s@).map_values(|l: Seq<char>| trim_end(l));
    let mut out: Vec<char> = Vec::new();
    let mut i: usize = 0;
    while i < lines.len()
        invariant
            i <= lines@.len(),
            char_views(lines@) == str_lines(s@),
            tl == str_lines(s@).map_values(|l: Seq<char>| trim_end(l)),
            out@ == join_lf(tl.take(i as int)),
        decreases lines@.len() - i,
    {
        let l = &lines[i];
        let hi = trim_end_index(l, l.len());
        let t = sub_chars(l, 0, hi);
        proof {
            assert(l@.take(l@.len() as int) =~= l@);
            assert(t@ =~= l@.take(hi as int));
            assert(str_lines(s@)[i as int] == l@);
            assert(tl[i as int] == t@);
            assert(tl.take(i + 1).drop_last() =~= tl.take(i as int));
        }
        if i > 0 {
            out.push('\n');
        }
        extend_chars(&mut out, &t);
        proof {
            if i == 0 {
                assert(tl.take(1) =~= seq![t@]);
                assert(out@ =~= t@);
            } else {
                assert(out@ =~= join_lf(tl.take(i as int)) + seq!['\n'] + t@);
            }
        }
        i = i + 1;
    }
    proof {
        assert(tl.take(i as int) =~= tl);
    }
    let r = trimmed(&out);
    string_of(&r)
}

/// The text of a case file with its expected output replaced by `stdout`: the source
/// without trailing whitespace, an `======= expect` section, then the COSY version if any.
pub open spec fn blessed_spec(source: Seq<char>, fox: Option<Seq<char>>, stdout: Seq<char>) -> Seq<char> {
    let head = trim_end(source) + "\n\n======= expect\n"@ + trim_end(stdout) + seq!['\n'];
    match fox {
        Some(f) => head + "\n======= fox\n"@ + trim_end(f) + seq!['\n'],
        None => head,
    }
}

fn trim_end_chars(s: &str) -> (r: Vec<char>)
    ensures
        r@ == trim_end(s@),
{
    let c = crate::text::chars_of(s);
    let hi = trim_end_index(&c, c.len());
    proof {
        assert(c@.take(c@.len() as int) =~= c@);
    }
    let r = sub_chars(&c, 0, hi);
    proof {
        assert(r@ =~= c@.take(hi as int));
    }
    r
}

/// The blessed text of a case (see `blessed_spec`).
pub fn blessed_text(case: &CaseFile, stdout: &str) -> (r: String)
    ensures
        r@ == blessed_spec(case.source@, match case.fox {
            Some(f) => Some(f@),
            None => None,
        }, stdout@),
{
    let mut out = trim_end_chars(case.source.as_str());
    extend_str(&mut out, "\n\n======= expect\n");
    let so = trim_end_chars(stdout);
    extend_chars(&mut out, &so);
    out.push('\n');
    match &case.fox {
        Some(f) => {
            extend_str(&mut out, "\n======= fox\n");
            let ft = trim_end_chars(f.as_str());
            extend_chars(&mut out, &ft);
            out.push('\n');
        },
        None => {},
    }
    string_of(&out)
}

/// What a construct test concludes from the output of its program.
pub enum CaseVerdict {
    /// Bless mode: the case file is rewritten with this text.
    Bless(String),
    /// The output is the expected output (see `norm_spec`).
    Pass,
    /// The case has no `======= expect` section to compare with.
    MissingExpect,
    /// The output differs from the expected output.
    Mismatch,
}

/// The verdict on a case whose program printed `stdout`: in bless mode the blessed text;
/// otherwise the normalized output compared with the normalized expected output.
pub fn case_verdict(case: &CaseFile, stdout: &str, bless: bool) -> (r: CaseVerdict)
    ensures
        bless ==> (r matches CaseVerdict::Bless(t) && t@ == blessed_spec(case.source@, match case.fox {
            Some(f) => Some(f@),
            None => None,
        }, stdout@)),
        !bless ==> match case.expect {
            None => r is MissingExpect,
            Some(e) => if norm_spec(stdout@) == norm_spec(e@) {
                r is Pass
            } else {
                r is Mismatch
            },
        },
{
    if bless {
        return CaseVerdict::Bless(blessed_text(case, stdout));
    }
    match &case.expect {
        None => CaseVerdict::MissingExpect,
        Some(e) => {
            let got = norm_out(stdout);
            let want = norm_out(e.as_str());
            if crate::text::str_eq(got.as_str(), want.as_str()) {
                CaseVerdict::Pass
            } else {
                CaseVerdict::Mismatch
            }
        },
    }
}


} // verus!
