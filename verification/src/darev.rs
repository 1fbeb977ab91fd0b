//! DAREV: reading DA vector arrays back from DAPRV text, in either layout.

use vstd::prelude::*;
use crate::daprv::{
    daprv_exponent_digits, is_cosy_daprv_row, is_daprv_separator, is_legacy_daprv_row,
    ascii_chars, at_boundary, byte_len, byte_len_exec, char_at_byte, char_index_at, coefficient_chars_ok,
    coefficient_field_ok, cosy_check_cut_ok, cosy_check_slices_ok, cosy_field, cosy_rest, daprv_exponents,
    fields_cut_ok, fields_slice_ok,
    lemma_char_at_mono, lemma_char_at_prefix, lemma_char_at_valid,
    exponent_chars_ok, exponent_token_ok, exponents_from_token, first_two_words, is_cosy_row_spec,
    is_legacy_row_spec, is_separator_spec, row_body, row_body_exec,
};
use crate::monomial::Monomial;
use crate::da::{DA, GenericDA, Term, abs_gt, abs_gt_bits};
use crate::da_ops::copy_terms;
use crate::text::{chars_of, next_word, string_of, sub_chars, trim, trim_end, trim_end_index, trimmed, words};

verus! {

/// Reasons DAREV refuses its input.
#[derive(Debug, Clone, PartialEq, Eq)]
pub enum DarevError {
    /// The unit ran out of lines before the table's separator.
    EndOfInput,
    /// The first data line is in neither layout.
    UnrecognizedLayout { line: String },
    /// A COSY row shorter than its coefficient fields.
    RowTooShort { line: String },
    /// A COSY row without an exponent column.
    MissingExponent { line: String },
    /// An exponent token that is not a digit string of the expected width.
    MalformedExponent { token: String },
    /// A legacy row without both a coefficient and an exponent token.
    LegacyRowTooShort { line: String },
    /// A coefficient field that does not read as a number.
    InvalidCoefficient { field: String },
}

/// One coefficient read by DAREV: its component, monomial and field text.
pub struct DarevEntry {
    pub component: usize,
    pub monomial: Monomial,
    pub field: String,
}

/// What an entry stands for: component, exponents, field text.
pub open spec fn entry_view(e: DarevEntry) -> (int, Seq<u8>, Seq<char>) {
    (e.component as int, e.monomial.exponents@, e.field@)
}

/// What a refused input reports: the kind of error, and the line, token or field it names
/// (empty at the end of the input).
pub open spec fn error_view(e: DarevError) -> (int, Seq<char>) {
    match e {
        DarevError::EndOfInput => (0, Seq::empty()),
        DarevError::UnrecognizedLayout { line } => (1, line@),
        DarevError::RowTooShort { line } => (2, line@),
        DarevError::MissingExponent { line } => (3, line@),
        DarevError::MalformedExponent { token } => (4, token@),
        DarevError::LegacyRowTooShort { line } => (5, line@),
        DarevError::InvalidCoefficient { field } => (6, field@),
    }
}

/// The first of the first `n` coefficient fields of a COSY row body that does not read as a
/// number (`n` when all do).
pub open spec fn first_bad_field(body: Seq<char>, n: int) -> int
    decreases n,
{
    if n <= 0 {
        0
    } else if first_bad_field(body, n - 1) < n - 1 {
        first_bad_field(body, n - 1)
    } else if !coefficient_field_ok(cosy_field(body, n - 1)) {
        n - 1
    } else {
        n
    }
}

pub open spec fn is_blank(line: Seq<char>) -> bool {
    trim(line).len() == 0
}

/// A COSY row read into its entries (one per component), or its error.
pub open spec fn cosy_row_entries(line: Seq<char>, comps: int, nv: int) -> Result<
    Seq<(int, Seq<u8>, Seq<char>)>,
    (int, Seq<char>),
> {
    let body = row_body(line);
    if byte_len(body) < 14 * comps {
        Err((2, trim_end(line)))
    } else if words(cosy_rest(body, comps)).len() == 0 {
        Err((3, trim_end(line)))
    } else {
        let tok = words(cosy_rest(body, comps))[0];
        if !exponent_token_ok(tok, nv) && byte_len(tok) != nv {
            Err((4, tok))
        } else if exists|i: int| 0 <= i < comps && !coefficient_field_ok(#[trigger] cosy_field(body, i)) {
            Err((6, cosy_field(body, first_bad_field(body, comps))))
        } else {
            Ok(Seq::new(comps as nat, |i: int| (i, exponents_from_token(tok, nv), cosy_field(body, i))))
        }
    }
}

/// Reading a COSY row slices it only between characters (the reading panics otherwise): at
/// the end of the fields, and at the end of each field read until one is refused.
pub open spec fn parse_slices_ok(line: Seq<char>, comps: int, nv: int) -> bool {
    let body = row_body(line);
    let rest = cosy_rest(body, comps);
    byte_len(body) < 14 * comps || (at_boundary(body, 14 * comps) && ((words(rest).len() > 0 && (exponent_token_ok(
        words(rest)[0],
        nv,
    ) || byte_len(words(rest)[0]) == nv)) ==> fields_slice_ok(body, 0, comps, true)))
}

/// A legacy row read into its entry for component `comp`, or its error.
pub open spec fn legacy_row_entry(line: Seq<char>, comp: int, nv: int) -> Result<
    (int, Seq<u8>, Seq<char>),
    (int, Seq<char>),
> {
    let w = words(line);
    if w.len() < 2 {
        Err((5, line))
    } else if !exponent_token_ok(w[1], nv) {
        Err((4, w[1]))
    } else if !coefficient_field_ok(w[0]) {
        Err((6, w[0]))
    } else {
        Ok((comp, exponents_from_token(w[1], nv), w[0]))
    }
}

/// Prepends entries to a successful result.
pub open spec fn prepend_entries(
    es: Seq<(int, Seq<u8>, Seq<char>)>,
    r: Result<(Seq<(int, Seq<u8>, Seq<char>)>, int), (int, Seq<char>)>,
) -> Result<(Seq<(int, Seq<u8>, Seq<char>)>, int), (int, Seq<char>)> {
    match r {
        Ok((rest, n)) => Ok((es + rest, n)),
        Err(k) => Err(k),
    }
}

/// Reading COSY rows from line `i` on: the entries up to the separator, and the number of
/// lines consumed then.
pub open spec fn cosy_table(lines: Seq<Seq<char>>, i: int, comps: int, nv: int) -> Result<
    (Seq<(int, Seq<u8>, Seq<char>)>, int),
    (int, Seq<char>),
>
    decreases lines.len() - i,
{
    if i < 0 || i >= lines.len() {
        Err((0, Seq::empty()))
    } else if is_separator_spec(lines[i]) {
        Ok((Seq::empty(), i + 1))
    } else if is_blank(lines[i]) {
        cosy_table(lines, i + 1, comps, nv)
    } else {
        match cosy_row_entries(lines[i], comps, nv) {
            Err(k) => Err(k),
            Ok(es) => prepend_entries(es, cosy_table(lines, i + 1, comps, nv)),
        }
    }
}

/// Reading COSY rows from line `i` on slices every row read only between characters.
pub open spec fn cosy_table_slices_ok(lines: Seq<Seq<char>>, i: int, comps: int, nv: int) -> bool
    decreases lines.len() - i,
{
    if i < 0 || i >= lines.len() {
        true
    } else if is_separator_spec(lines[i]) {
        true
    } else if is_blank(lines[i]) {
        cosy_table_slices_ok(lines, i + 1, comps, nv)
    } else {
        parse_slices_ok(lines[i], comps, nv) && (cosy_row_entries(lines[i], comps, nv) is Ok
            ==> cosy_table_slices_ok(lines, i + 1, comps, nv))
    }
}

/// Reading legacy rows from line `i` on, filling component `comp`; a separator moves to
/// the next component, and the last component's separator ends the input.
pub open spec fn legacy_table(lines: Seq<Seq<char>>, i: int, comp: int, comps: int, nv: int) -> Result<
    (Seq<(int, Seq<u8>, Seq<char>)>, int),
    (int, Seq<char>),
>
    decreases lines.len() - i,
{
    if i < 0 || i >= lines.len() {
        Err((0, Seq::empty()))
    } else if is_separator_spec(lines[i]) {
        if comp + 1 >= comps {
            Ok((Seq::empty(), i + 1))
        } else {
            legacy_table(lines, i + 1, comp + 1, comps, nv)
        }
    } else if is_blank(lines[i]) {
        legacy_table(lines, i + 1, comp, comps, nv)
    } else {
        match legacy_row_entry(lines[i], comp, nv) {
            Err(k) => Err(k),
            Ok(e) => prepend_entries(seq![e], legacy_table(lines, i + 1, comp, comps, nv)),
        }
    }
}

/// Index of the first line from `i` on that is a separator or not blank (the length when
/// there is none).
pub open spec fn first_content(lines: Seq<Seq<char>>, i: int) -> int
    decreases lines.len() - i,
{
    if i < 0 || i >= lines.len() {
        lines.len() as int
    } else if is_separator_spec(lines[i]) || !is_blank(lines[i]) {
        i
    } else {
        first_content(lines, i + 1)
    }
}

/// DAREV read as a whole: the entries and the number of lines consumed, or the error kind.
pub open spec fn darev_spec(lines: Seq<Seq<char>>, comps: int, nv: int) -> Result<
    (Seq<(int, Seq<u8>, Seq<char>)>, int),
    (int, Seq<char>),
> {
    let f = first_content(lines, 0);
    if f >= lines.len() {
        Err((0, Seq::empty()))
    } else if is_separator_spec(lines[f]) {
        Ok((Seq::empty(), f + 1))
    } else {
        let cosy = is_cosy_row_spec(lines[f], comps, nv);
        let legacy = is_legacy_row_spec(lines[f], nv);
        if !cosy && !legacy {
            Err((1, trim_end(lines[f])))
        } else if legacy && !cosy {
            legacy_table(lines, f, 0, comps, nv)
        } else {
            cosy_table(lines, f, comps, nv)
        }
    }
}

/// DAREV slices every line it reads only between characters: the layout check of the first
/// data line, and the COSY rows read after it when that layout is chosen.
pub open spec fn darev_slices_ok(lines: Seq<Seq<char>>, comps: int, nv: int) -> bool {
    let f = first_content(lines, 0);
    if f >= lines.len() || is_separator_spec(lines[f]) {
        true
    } else {
        cosy_check_slices_ok(lines[f], comps) && (is_cosy_row_spec(lines[f], comps, nv)
            ==> cosy_table_slices_ok(lines, f, comps, nv))
    }
}

} // verus!

verus! {

pub open spec fn entries_view(v: Seq<DarevEntry>) -> Seq<(int, Seq<u8>, Seq<char>)> {
    v.map_values(|e: DarevEntry| entry_view(e))
}

fn blank_line(c: &Vec<char>) -> (r: bool)
    ensures
        r == is_blank(c@),
{
    let t = trimmed(c);
    t.len() == 0
}

/// `s` without trailing whitespace (`str::trim_end`).
fn trim_end_string(s: &str) -> (r: String)
    ensures
        r@ == trim_end(s@),
{
    let c = chars_of(s);
    let hi = trim_end_index(&c, c.len());
    proof {
        assert(c@.take(c@.len() as int) =~= c@);
    }
    let t = sub_chars(&c, 0, hi);
    proof {
        assert(t@ =~= c@.take(hi as int));
    }
    string_of(&t)
}

/// With the fields before `i` readable and field `i` not, `i` is the first bad field.
proof fn lemma_first_bad(body: Seq<char>, i: int, n: int)
    requires
        0 <= i < n,
        forall|j: int| 0 <= j < i ==> coefficient_field_ok(#[trigger] cosy_field(body, j)),
        !coefficient_field_ok(cosy_field(body, i)),
    ensures
        first_bad_field(body, n) == i,
    decreases n,
{
    if n - 1 > i {
        lemma_first_bad(body, i, n - 1);
    } else {
        lemma_first_all_ok(body, i);
    }
}

/// With the first `n` fields readable, none is bad.
proof fn lemma_first_all_ok(body: Seq<char>, n: int)
    requires
        n >= 0,
        forall|j: int| 0 <= j < n ==> coefficient_field_ok(#[trigger] cosy_field(body, j)),
    ensures
        first_bad_field(body, n) == n,
    decreases n,
{
    if n > 0 {
        lemma_first_all_ok(body, n - 1);
    }
}

/// A COSY row read into one entry per component, the coefficient fields checked.
pub fn parse_cosy_daprv_row(line: &str, components: usize, nv: usize) -> (r: Result<
    Vec<DarevEntry>,
    DarevError,
>)
    requires
        14 * components <= usize::MAX,
        nv <= 6,
        parse_slices_ok(line@, components as int, nv as int),
    ensures
        match r {
            Ok(v) => cosy_row_entries(line@, components as int, nv as int) == Ok::<
                Seq<(int, Seq<u8>, Seq<char>)>,
                (int, Seq<char>),
            >(entries_view(v@)),
            Err(e) => cosy_row_entries(line@, components as int, nv as int) == Err::<
                Seq<(int, Seq<u8>, Seq<char>)>,
                (int, Seq<char>),
            >(error_view(e)),
        },
{
    let body = row_body_exec(line);
    let coeff_end = 14 * components;
    let blen = byte_len_exec(&body);
    if blen < coeff_end as u128 {
        return Err(DarevError::RowTooShort { line: trim_end_string(line) });
    }
    let cstart = char_index_at(&body, coeff_end as u128).unwrap();
    proof {
        lemma_char_at_valid(body@, 14 * components);
    }
    let rest = sub_chars(&body, cstart, body.len());
    assert(rest@ =~= cosy_rest(body@, components as int));
    assert(rest@.skip(0) =~= rest@);
    let (a, b) = match next_word(&rest, 0) {
        None => {
            return Err(DarevError::MissingExponent { line: trim_end_string(line) });
        },
        Some(w) => w,
    };
    let tok = sub_chars(&rest, a, b);
    assert(tok@ == words(rest@)[0]);
    if !exponent_chars_ok(&tok, nv) && byte_len_exec(&tok) != nv as u128 {
        return Err(DarevError::MalformedExponent { token: string_of(&tok) });
    }
    let tok_s = string_of(&tok);
    let m = daprv_exponents(tok_s.as_str(), nv);
    let mut v: Vec<DarevEntry> = Vec::new();
    let mut start: usize = 0;
    proof {
        lemma_char_at_prefix(body@, 0);
        assert(body@.take(0) =~= Seq::<char>::empty());
    }
    let mut i: usize = 0;
    while i < components
        invariant
            i <= components,
            coeff_end == 14 * components,
            14 * components <= usize::MAX,
            byte_len(body@) >= coeff_end,
            body@ == row_body(line@),
            start as int == char_at_byte(body@, 14 * i),
            fields_slice_ok(body@, i as int, components as int, true),
            m.exponents@ == exponents_from_token(tok@, nv as int),
            words(cosy_rest(body@, components as int)).len() > 0,
            words(cosy_rest(body@, components as int))[0] == tok@,
            exponent_token_ok(tok@, nv as int) || byte_len(tok@) == nv,
            v@.len() == i,
            forall|j: int| 0 <= j < i ==> coefficient_field_ok(#[trigger] cosy_field(body@, j)),
            forall|j: int|
                0 <= j < i ==> entry_view(#[trigger] v@[j]) == (j, exponents_from_token(tok@, nv as int), cosy_field(body@, j)),
        decreases components - i,
    {
        let b_end: usize = 14 * (i + 1);
        let end = char_index_at(&body, b_end as u128).unwrap();
        proof {
            lemma_char_at_valid(body@, 14 * (i + 1));
            lemma_char_at_mono(body@, 14 * i, 14 * (i + 1));
        }
        let field = sub_chars(&body, start, end);
        assert(field@ =~= cosy_field(body@, i as int));
        if !coefficient_chars_ok(&field) {
            proof {
                assert(!coefficient_field_ok(cosy_field(body@, i as int)));
                lemma_first_bad(body@, i as int, components as int);
            }
            return Err(DarevError::InvalidCoefficient { field: string_of(&field) });
        }
        v.push(DarevEntry { component: i, monomial: m, field: string_of(&field) });
        start = end;
        i = i + 1;
    }
    proof {
        assert(entries_view(v@) =~= Seq::new(
            components as nat,
            |i: int| (i, exponents_from_token(tok@, nv as int), cosy_field(body@, i)),
        ));
    }
    Ok(v)
}

/// A legacy row read into its entry for component `comp`.
pub fn parse_legacy_daprv_row(line: &str, comp: usize, nv: usize) -> (r: Result<DarevEntry, DarevError>)
    requires
        nv <= 6,
    ensures
        match r {
            Ok(e) => legacy_row_entry(line@, comp as int, nv as int) == Ok::<(int, Seq<u8>, Seq<char>), (int, Seq<char>)>(
                entry_view(e),
            ),
            Err(e) => legacy_row_entry(line@, comp as int, nv as int) == Err::<
                (int, Seq<u8>, Seq<char>),
                (int, Seq<char>),
            >(error_view(e)),
        },
{
    let c = chars_of(line);
    match first_two_words(&c) {
        None => Err(DarevError::LegacyRowTooShort { line: line.to_string() }),
        Some((w0, w1)) => {
            if !exponent_chars_ok(&w1, nv) {
                return Err(DarevError::MalformedExponent { token: string_of(&w1) });
            }
            if !coefficient_chars_ok(&w0) {
                return Err(DarevError::InvalidCoefficient { field: string_of(&w0) });
            }
            let t = string_of(&w1);
            let m = daprv_exponents(t.as_str(), nv);
            Ok(DarevEntry { component: comp, monomial: m, field: string_of(&w0) })
        },
    }
}

} // verus!

verus! {

pub open spec fn lines_view(lines: Seq<String>) -> Seq<Seq<char>> {
    lines.map_values(|s: String| s@)
}

proof fn lemma_prepend_assoc(
    a: Seq<(int, Seq<u8>, Seq<char>)>,
    b: Seq<(int, Seq<u8>, Seq<char>)>,
    r: Result<(Seq<(int, Seq<u8>, Seq<char>)>, int), (int, Seq<char>)>,
)
    ensures
        prepend_entries(a, prepend_entries(b, r)) == prepend_entries(a + b, r),
{
    match r {
        Ok((rest, n)) => {
            assert(a + (b + rest) =~= (a + b) + rest);
        },
        Err(_) => {},
    }
}

proof fn lemma_prepend_empty(r: Result<(Seq<(int, Seq<u8>, Seq<char>)>, int), (int, Seq<char>)>)
    ensures
        prepend_entries(Seq::empty(), r) == r,
{
    match r {
        Ok((rest, n)) => {
            assert(Seq::<(int, Seq<u8>, Seq<char>)>::empty() + rest =~= rest);
        },
        Err(_) => {},
    }
}

/// Appends entries to a vector.
fn append_entries(acc: &mut Vec<DarevEntry>, more: Vec<DarevEntry>)
    ensures
        entries_view(final(acc)@) == entries_view(old(acc)@) + entries_view(more@),
{
    let mut more = more;
    let ghost m0 = more@;
    let mut i: usize = 0;
    let n = more.len();
    let mut rev: Vec<DarevEntry> = Vec::new();
    while more.len() > 0
        invariant
            rev@.len() + more@.len() == m0.len(),
            forall|j: int| 0 <= j < more@.len() ==> #[trigger] more@[j] == m0[j],
            forall|j: int| 0 <= j < rev@.len() ==> #[trigger] rev@[j] == m0[m0.len() - 1 - j],
        decreases more@.len(),
    {
        let e = more.pop().unwrap();
        rev.push(e);
    }
    let ghost a0 = acc@;
    while rev.len() > 0
        invariant
            rev@.len() <= m0.len(),
            forall|j: int| 0 <= j < rev@.len() ==> #[trigger] rev@[j] == m0[m0.len() - 1 - j],
            acc@ == a0 + m0.take(m0.len() - rev@.len()),
        decreases rev@.len(),
    {
        let e = rev.pop().unwrap();
        proof {
            assert(e == m0[m0.len() - 1 - rev@.len()]);
        }
        acc.push(e);
        proof {
            assert(m0.take(m0.len() - rev@.len()) =~= m0.take(m0.len() - rev@.len() - 1).push(e));
        }
    }
    assert(m0.take(m0.len() as int) =~= m0);
    assert(entries_view(acc@) =~= entries_view(a0) + entries_view(m0));
}

/// DAREV: reads one table of DA vectors from the lines a unit yields, in the COSY layout or
/// the legacy one (recognized from the first data line). Gives every coefficient read (its
/// component, monomial and field text, in file order) and the number of lines consumed.
pub fn rosy_darev(lines: &Vec<String>, num_components: usize, max_vars: usize) -> (r: Result<
    (Vec<DarevEntry>, usize),
    DarevError,
>)
    requires
        darev_slices_ok(lines_view(lines@), num_components as int, if max_vars < 6 { max_vars as int } else { 6 }),
        14 * num_components <= usize::MAX,
    ensures
        ({
            let nv = if max_vars < 6 { max_vars as int } else { 6 };
            match r {
                Ok((v, n)) => darev_spec(lines_view(lines@), num_components as int, nv) == Ok::<
                    (Seq<(int, Seq<u8>, Seq<char>)>, int),
                    (int, Seq<char>),
                >((entries_view(v@), n as int)),
                Err(e) => darev_spec(lines_view(lines@), num_components as int, nv) == Err::<
                    (Seq<(int, Seq<u8>, Seq<char>)>, int),
                    (int, Seq<char>),
                >(error_view(e)),
            }
        }),
{
    let ghost lv = lines_view(lines@);
    let nv = daprv_exponent_digits(max_vars);
    let comps = num_components;
    let mut f: usize = 0;
    while f < lines.len()
        invariant_except_break
            f <= lines@.len(),
            lv == lines_view(lines@),
            first_content(lv, 0) == first_content(lv, f as int),
        ensures
            f <= lines@.len(),
            lv == lines_view(lines@),
            first_content(lv, 0) == first_content(lv, f as int),
            f < lines@.len() ==> first_content(lv, f as int) == f,
        decreases lines@.len() - f,
    {
        let c = chars_of(lines[f].as_str());
        assert(lv[f as int] == lines@[f as int]@);
        if is_daprv_separator(lines[f].as_str()) || !blank_line(&c) {
            break;
        }
        f = f + 1;
    }
    if f == lines.len() {
        return Err(DarevError::EndOfInput);
    }
    proof {
        assert(lv[f as int] == lines@[f as int]@);
        assert(first_content(lv, f as int) == f);
    }
    if is_daprv_separator(lines[f].as_str()) {
        let v: Vec<DarevEntry> = Vec::new();
        assert(entries_view(v@) =~= Seq::empty());
        return Ok((v, f + 1));
    }
    let cosy = is_cosy_daprv_row(lines[f].as_str(), comps, nv);
    let legacy = is_legacy_daprv_row(lines[f].as_str(), nv);
    if !cosy && !legacy {
        return Err(DarevError::UnrecognizedLayout { line: trim_end_string(lines[f].as_str()) });
    }
    let mut acc: Vec<DarevEntry> = Vec::new();
    let mut i: usize = f;
    proof {
        lemma_prepend_empty(darev_spec(lv, comps as int, nv as int));
    }
    if legacy && !cosy {
        let mut comp: usize = 0;
        loop
            invariant
                f <= i <= lines@.len(),
                comp == 0 || comp < comps,
                nv <= 6,
                comps == num_components,
                nv == (if max_vars < 6 { max_vars as int } else { 6 }),
                lv == lines_view(lines@),
                darev_spec(lv, comps as int, nv as int) == prepend_entries(
                    entries_view(acc@),
                    legacy_table(lv, i as int, comp as int, comps as int, nv as int),
                ),
            decreases lines@.len() - i,
        {
            if i >= lines.len() {
                return Err(DarevError::EndOfInput);
            }
            let line = lines[i].as_str();
            let c = chars_of(line);
            assert(lv[i as int] == line@);
            if is_daprv_separator(line) {
                if comp + 1 >= comps {
                    proof {
                        lemma_prepend_empty(Ok::<(Seq<(int, Seq<u8>, Seq<char>)>, int), (int, Seq<char>)>((Seq::empty(), i + 1)));
                        assert(entries_view(acc@) + Seq::<(int, Seq<u8>, Seq<char>)>::empty() =~= entries_view(acc@));
                    }
                    return Ok((acc, i + 1));
                }
                comp = comp + 1;
            } else if !blank_line(&c) {
                match parse_legacy_daprv_row(line, comp, nv) {
                    Err(e) => {
                        return Err(e);
                    },
                    Ok(entry) => {
                        let ghost before = entries_view(acc@);
                        proof {
                            lemma_prepend_assoc(
                                before,
                                seq![entry_view(entry)],
                                legacy_table(lv, i + 1, comp as int, comps as int, nv as int),
                            );
                        }
                        acc.push(entry);
                        proof {
                            assert(entries_view(acc@) =~= before + seq![entry_view(entry)]);
                        }
                    },
                }
            }
            i = i + 1;
        }
    } else {
        loop
            invariant
                f <= i <= lines@.len(),
                nv <= 6,
                comps == num_components,
                nv == (if max_vars < 6 { max_vars as int } else { 6 }),
                14 * comps <= usize::MAX,
                lv == lines_view(lines@),
                cosy_table_slices_ok(lv, i as int, comps as int, nv as int),
                darev_spec(lv, comps as int, nv as int) == prepend_entries(
                    entries_view(acc@),
                    cosy_table(lv, i as int, comps as int, nv as int),
                ),
            decreases lines@.len() - i,
        {
            if i >= lines.len() {
                return Err(DarevError::EndOfInput);
            }
            let line = lines[i].as_str();
            let c = chars_of(line);
            assert(lv[i as int] == line@);
            if is_daprv_separator(line) {
                proof {
                    assert(entries_view(acc@) + Seq::<(int, Seq<u8>, Seq<char>)>::empty() =~= entries_view(acc@));
                }
                return Ok((acc, i + 1));
            } else if !blank_line(&c) {
                match parse_cosy_daprv_row(line, comps, nv) {
                    Err(e) => {
                        return Err(e);
                    },
                    Ok(row) => {
                        let ghost before = entries_view(acc@);
                        proof {
                            lemma_prepend_assoc(
                                before,
                                entries_view(row@),
                                cosy_table(lv, i + 1, comps as int, nv as int),
                            );
                        }
                        append_entries(&mut acc, row);
                    },
                }
            }
            i = i + 1;
        }
    }
}

/// Executable `parse_slices_ok`.
fn parse_cut_ok(line: &str, comps: usize, nv: usize) -> (r: bool)
    requires
        14 * comps <= usize::MAX,
    ensures
        r == parse_slices_ok(line@, comps as int, nv as int),
{
    let body = row_body_exec(line);
    let blen = byte_len_exec(&body);
    if blen < (14 * comps) as u128 {
        return true;
    }
    let cstart = match char_index_at(&body, (14 * comps) as u128) {
        None => {
            return false;
        },
        Some(c) => c,
    };
    proof {
        lemma_char_at_valid(body@, 14 * comps);
    }
    let rest = sub_chars(&body, cstart, body.len());
    assert(rest@ =~= cosy_rest(body@, comps as int));
    assert(rest@.skip(0) =~= rest@);
    match next_word(&rest, 0) {
        None => true,
        Some((a, b)) => {
            let tok = sub_chars(&rest, a, b);
            assert(tok@ == words(rest@)[0]);
            if exponent_chars_ok(&tok, nv) || byte_len_exec(&tok) == nv as u128 {
                fields_cut_ok(&body, comps, true)
            } else {
                true
            }
        },
    }
}

/// Whether DAREV, given these lines, slices every line it reads only between characters
/// (`darev_slices_ok`): the check to make before `rosy_darev`.
pub fn darev_cuts_ok(lines: &Vec<String>, num_components: usize, max_vars: usize) -> (r: bool)
    requires
        14 * num_components <= usize::MAX,
    ensures
        r == darev_slices_ok(lines_view(lines@), num_components as int, if max_vars < 6 { max_vars as int } else { 6 }),
{
    let ghost lv = lines_view(lines@);
    let nv = daprv_exponent_digits(max_vars);
    let comps = num_components;
    let mut f: usize = 0;
    while f < lines.len()
        invariant_except_break
            f <= lines@.len(),
            lv == lines_view(lines@),
            first_content(lv, 0) == first_content(lv, f as int),
        ensures
            f <= lines@.len(),
            lv == lines_view(lines@),
            first_content(lv, 0) == first_content(lv, f as int),
            f < lines@.len() ==> first_content(lv, f as int) == f,
        decreases lines@.len() - f,
    {
        let c = chars_of(lines[f].as_str());
        assert(lv[f as int] == lines@[f as int]@);
        if is_daprv_separator(lines[f].as_str()) || !blank_line(&c) {
            break;
        }
        f = f + 1;
    }
    if f == lines.len() {
        return true;
    }
    proof {
        assert(lv[f as int] == lines@[f as int]@);
        assert(first_content(lv, f as int) == f);
    }
    if is_daprv_separator(lines[f].as_str()) {
        return true;
    }
    if !cosy_check_cut_ok(lines[f].as_str(), comps) {
        return false;
    }
    if !is_cosy_daprv_row(lines[f].as_str(), comps, nv) {
        return true;
    }
    let mut i: usize = f;
    while i < lines.len()
        invariant
            f <= i <= lines@.len(),
            nv <= 6,
            comps == num_components,
            14 * comps <= usize::MAX,
            nv == (if max_vars < 6 { max_vars as int } else { 6 }),
            lv == lines_view(lines@),
            darev_slices_ok(lv, comps as int, nv as int) == cosy_table_slices_ok(lv, i as int, comps as int, nv as int),
        decreases lines@.len() - i,
    {
        let line = lines[i].as_str();
        let c = chars_of(line);
        assert(lv[i as int] == line@);
        if is_daprv_separator(line) {
            return true;
        }
        if !blank_line(&c) {
            if !parse_cut_ok(line, comps, nv) {
                return false;
            }
            match parse_cosy_daprv_row(line, comps, nv) {
                Err(_) => {
                    return true;
                },
                Ok(_) => {},
            }
        }
        i = i + 1;
    }
    true
}

} // verus!

verus! {

/// Bit pattern of `1e-15`: DAREV stores only coefficients larger than this in magnitude.
pub const DAREV_CUTOFF: u64 = 0x3cd2_03af_9ee7_5616;

/// Index of the first term with exponents `e`, from position `i` on (-1 when there is none).
pub open spec fn index_from(terms: Seq<Term<u64>>, e: Seq<u8>, i: int) -> int
    decreases terms.len() - i,
{
    if i < 0 || i >= terms.len() {
        -1
    } else if terms[i].monomial.exponents@ == e {
        i
    } else {
        index_from(terms, e, i + 1)
    }
}

/// The terms with the coefficient of `m` set to `c` (`DA::set_coeff`): the term of `m` takes
/// `c` where there is one, otherwise a term is added.
pub open spec fn set_coeff_spec(terms: Seq<Term<u64>>, m: Monomial, c: u64) -> Seq<Term<u64>> {
    let k = index_from(terms, m.exponents@, 0);
    if k >= 0 {
        terms.update(k, Term { monomial: terms[k].monomial, coeff: c })
    } else {
        terms.push(Term { monomial: m, coeff: c })
    }
}

/// The terms of vector `comp` after the first `n` entries were stored into `base`: each entry
/// of that component whose coefficient exceeds the cutoff in magnitude sets its monomial.
pub open spec fn stored_terms(base: Seq<Term<u64>>, entries: Seq<(usize, Monomial, u64)>, comp: int, n: int) -> Seq<Term<u64>>
    decreases n,
{
    if n <= 0 {
        base
    } else {
        let prev = stored_terms(base, entries, comp, n - 1);
        let e = entries[n - 1];
        if e.0 == comp && abs_gt_bits(e.2, DAREV_CUTOFF) {
            set_coeff_spec(prev, e.1, e.2)
        } else {
            prev
        }
    }
}

/// `set_coeff_spec` on a vector of terms.
fn set_coeff_terms(terms: &Vec<Term<u64>>, m: Monomial, c: u64) -> (r: Vec<Term<u64>>)
    ensures
        r@ == set_coeff_spec(terms@, m, c),
{
    let mut i: usize = 0;
    let mut found = false;
    while i < terms.len() && !found
        invariant
            i <= terms@.len(),
            index_from(terms@, m.exponents@, 0) == index_from(terms@, m.exponents@, i as int),
            found ==> i < terms@.len() && terms@[i as int].monomial.exponents@ == m.exponents@,
        decreases terms@.len() - i, (if found { 0int } else { 1int }),
    {
        if terms[i].monomial.same(&m) {
            found = true;
        } else {
            i = i + 1;
        }
    }
    let mut r = copy_terms(terms);
    if found {
        let old_m = terms[i].monomial;
        r.set(i, Term { monomial: old_m, coeff: c });
        proof {
            assert(r@ =~= set_coeff_spec(terms@, m, c));
        }
    } else {
        r.push(Term { monomial: m, coeff: c });
        proof {
            assert(r@ =~= set_coeff_spec(terms@, m, c));
        }
    }
    r
}

/// The vectors DAREV leaves: the destination grown to `k` vectors, its first `k` vectors
/// emptied, then the coefficients of `entries` (component, monomial, binary64 pattern)
/// stored in order, each one larger than `1e-15` in magnitude setting its monomial's
/// coefficient in its component. Vectors from `k` on keep what they held, apart from
/// entries that name them.
pub fn darev_store(dst: &mut Vec<DA>, k: usize, entries: &Vec<(usize, Monomial, u64)>)
    requires
        forall|j: int| 0 <= j < entries@.len() ==> (#[trigger] entries@[j]).0 < old(dst)@.len() || entries@[j].0 < k,
    ensures
        final(dst)@.len() == (if old(dst)@.len() < k { k as int } else { old(dst)@.len() as int }),
        forall|i: int| 0 <= i < final(dst)@.len() ==> (#[trigger] final(dst)@[i]).terms@ == stored_terms(
            if i < k { Seq::empty() } else { old(dst)@[i].terms@ },
            entries@,
            i,
            entries@.len() as int,
        ),
{
    let ghost old_dst = dst@;
    let mut i: usize = 0;
    while i < dst.len() && i < k
        invariant
            i <= k,
            i <= dst@.len(),
            dst@.len() == old_dst.len(),
            forall|q: int| 0 <= q < i ==> (#[trigger] dst@[q]).terms@.len() == 0,
            forall|q: int| i <= q < dst@.len() ==> #[trigger] dst@[q] == old_dst[q],
        decreases k - i,
    {
        dst.set(i, GenericDA { terms: Vec::new() });
        i = i + 1;
    }
    while dst.len() < k
        invariant
            dst@.len() >= old_dst.len(),
            dst@.len() <= (if old_dst.len() < k { k as int } else { old_dst.len() as int }),
            forall|q: int| 0 <= q < dst@.len() && q < k ==> (#[trigger] dst@[q]).terms@.len() == 0,
            forall|q: int| k <= q < dst@.len() ==> #[trigger] dst@[q] == old_dst[q],
        decreases k - dst@.len(),
    {
        dst.push(GenericDA { terms: Vec::new() });
    }
    let mut j: usize = 0;
    while j < entries.len()
        invariant
            j <= entries@.len(),
            dst@.len() == (if old_dst.len() < k { k as int } else { old_dst.len() as int }),
            forall|q: int| 0 <= q < entries@.len() ==> (#[trigger] entries@[q]).0 < old_dst.len() || entries@[q].0 < k,
            forall|q: int| 0 <= q < dst@.len() ==> (#[trigger] dst@[q]).terms@ == stored_terms(
                if q < k { Seq::empty() } else { old_dst[q].terms@ },
                entries@,
                q,
                j as int,
            ),
        decreases entries@.len() - j,
    {
        let (comp, m, c) = entries[j];
        if abs_gt(c, DAREV_CUTOFF) {
            let t = set_coeff_terms(&dst[comp].terms, m, c);
            dst.set(comp, GenericDA { terms: t });
        }
        proof {
            assert forall|q: int| 0 <= q < dst@.len() implies (#[trigger] dst@[q]).terms@ == stored_terms(
                if q < k { Seq::empty() } else { old_dst[q].terms@ },
                entries@,
                q,
                j + 1,
            ) by {
                assert(entries@[j as int] == (comp, m, c));
            }
        }
        j = j + 1;
    }
}

} // verus!
