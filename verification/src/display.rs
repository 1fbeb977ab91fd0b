//! COSY-style text of DA vectors and exponent columns.

use vstd::prelude::*;
use crate::da::{CD, DA, Term};
use crate::monomial::Monomial;
use crate::daprv::{ascii_chars, concat_all};
use crate::monomial::exps_order;
use crate::text::{
    chars_of, dec, dec_chars, extend_chars, extend_str, pad_left, pad_left_chars, string_of,
    trim_end, trim_end_index, sub_chars,
};

verus! {

/// The exponent column of the DA display: two columns per exponent, a space after every
/// second one.
pub open spec fn exp_str_spec(exps: Seq<u8>, n: int) -> Seq<char>
    decreases n,
{
    if n <= 0 {
        Seq::empty()
    } else {
        exp_str_spec(exps, n - 1) + pad_left(dec(exps[n - 1] as nat), 2) + (if (n - 1) % 2 == 0 {
            Seq::empty()
        } else {
            seq![' ']
        })
    }
}

fn exp_str_chars(exps: &[u8], num_vars: usize) -> (r: Vec<char>)
    ensures
        r@ == exp_str_spec(exps@, if num_vars < exps@.len() { num_vars as int } else { exps@.len() as int }),
{
    let n = if num_vars < exps.len() { num_vars } else { exps.len() };
    let mut out: Vec<char> = Vec::new();
    let mut i: usize = 0;
    while i < n
        invariant
            i <= n,
            n <= exps@.len(),
            out@ == exp_str_spec(exps@, i as int),
        decreases n - i,
    {
        let d = dec_chars(exps[i] as u64);
        let p = pad_left_chars(&d, 2);
        extend_chars(&mut out, &p);
        if i % 2 == 1 {
            out.push(' ');
        }
        proof {
            assert(out@ =~= exp_str_spec(exps@, i + 1));
        }
        i = i + 1;
    }
    out
}

/// `build_exp_str`: the exponent column for the first `num_vars` exponents.
pub fn build_exp_str(exps: &[u8], num_vars: usize) -> (r: String)
    ensures
        r@ == exp_str_spec(exps@, if num_vars < exps@.len() { num_vars as int } else { exps@.len() as int }),
{
    let v = exp_str_chars(exps, num_vars);
    string_of(&v)
}

/// Indices of the terms (among the first `n`) of total order `k`, in term order.
pub open spec fn order_indices<C>(terms: Seq<Term<C>>, k: int, n: int) -> Seq<int>
    decreases n,
{
    if n <= 0 {
        Seq::empty()
    } else {
        order_indices(terms, k, n - 1) + (if exps_order(terms[n - 1].monomial.exponents@) == k {
            seq![n - 1]
        } else {
            Seq::empty()
        })
    }
}

/// Term indices sorted by total order (orders below `k`), term order within an order.
pub open spec fn sorted_indices<C>(terms: Seq<Term<C>>, k: int) -> Seq<int>
    decreases k,
{
    if k <= 0 {
        Seq::empty()
    } else {
        sorted_indices(terms, k - 1) + order_indices(terms, k - 1, terms.len() as int)
    }
}

/// Largest total order of a monomial, plus one.
pub open spec fn order_bound() -> int {
    1531int
}

/// One coefficient line of the DA display, before its indentation.
pub open spec fn da_row_line(idx: int, text: Seq<char>, e: Seq<u8>, num_vars: int) -> Seq<char> {
    dec((idx + 1) as nat) + seq![' ', ' '] + text + seq![' '] + pad_left(dec(exps_order(e) as nat), 3)
        + seq![' ', ' '] + trim_end(exp_str_spec(e, if num_vars < 6 { num_vars } else { 6 }))
}

pub open spec fn da_header() -> Seq<char> {
    "I  COEFFICIENT            ORDER EXPONENTS"@
}

/// Every line indented by five spaces and joined by newlines.
pub open spec fn indented(lines: Seq<Seq<char>>) -> Seq<char>
    decreases lines.len(),
{
    if lines.len() == 0 {
        Seq::empty()
    } else if lines.len() == 1 {
        "     "@ + lines[0]
    } else {
        indented(lines.drop_last()) + "\n     "@ + lines.last()
    }
}

/// The display rows of the terms at positions `idx`, numbered from one.
pub open spec fn row_lines(da: DA, texts: Seq<Seq<char>>, num_vars: int, idx: Seq<int>) -> Seq<Seq<char>> {
    Seq::new(
        idx.len(),
        |r: int| da_row_line(r, texts[idx[r]], da.terms@[idx[r]].monomial.exponents@, num_vars),
    )
}

/// The rows of the DA display: term `sorted_indices[r]`, numbered `r + 1`.
pub open spec fn da_rows(da: DA, texts: Seq<Seq<char>>, num_vars: int) -> Seq<Seq<char>> {
    row_lines(da, texts, num_vars, sorted_indices(da.terms@, order_bound()))
}

/// Text of a coefficient column entry: ASCII without line breaks.
pub open spec fn plain_text(s: Seq<char>) -> bool {
    ascii_chars(s) && !s.contains('\n') && !s.contains('\r')
}

/// The coefficient texts, as character sequences.
pub open spec fn texts_view(texts: Seq<String>) -> Seq<Seq<char>> {
    texts.map_values(|s: String| s@)
}

/// The whole DA display.
pub open spec fn da_display_spec(da: DA, texts: Seq<Seq<char>>, num_vars: int) -> Seq<char> {
    if da.terms@.len() == 0 {
        "     ALL COMPONENTS ZERO\n     -------------------"@
    } else {
        let rows = da_rows(da, texts, num_vars);
        indented(seq![da_header()] + rows + seq![Seq::new(rows.last().len(), |i: int| '-')])
    }
}

/// Number of the first `n` terms whose total order is below `k`.
pub open spec fn count_below<C>(terms: Seq<Term<C>>, k: int, n: int) -> int
    decreases n,
{
    if n <= 0 {
        0
    } else {
        count_below(terms, k, n - 1) + (if exps_order(terms[n - 1].monomial.exponents@) < k {
            1int
        } else {
            0int
        })
    }
}

proof fn lemma_count_below_step<C>(terms: Seq<Term<C>>, k: int, n: int)
    requires
        0 <= n,
    ensures
        count_below(terms, k + 1, n) == count_below(terms, k, n) + order_indices(terms, k, n).len(),
        count_below(terms, k, n) <= n,
        0 <= count_below(terms, k, n),
    decreases n,
{
    if n > 0 {
        lemma_count_below_step(terms, k, n - 1);
    }
}

proof fn lemma_order_indices_mono<C>(terms: Seq<Term<C>>, k: int, i: int, n: int)
    requires
        0 <= i <= n,
    ensures
        order_indices(terms, k, i).len() <= order_indices(terms, k, n).len(),
    decreases n,
{
    if i < n {
        lemma_order_indices_mono(terms, k, i, n - 1);
    }
}

proof fn lemma_sorted_len<C>(terms: Seq<Term<C>>, k: int)
    requires
        0 <= k,
    ensures
        sorted_indices(terms, k).len() == count_below(terms, k, terms.len() as int),
    decreases k,
{
    if k > 0 {
        lemma_sorted_len(terms, k - 1);
        lemma_count_below_step(terms, k - 1, terms.len() as int);
    } else {
        lemma_count_zero(terms, terms.len() as int);
    }
}

proof fn lemma_count_zero<C>(terms: Seq<Term<C>>, n: int)
    ensures
        count_below(terms, 0, n) == 0,
    decreases n,
{
    if n > 0 {
        lemma_count_zero(terms, n - 1);
    }
}

proof fn lemma_indented_push(lines: Seq<Seq<char>>, x: Seq<char>)
    requires
        lines.len() >= 1,
    ensures
        indented(lines.push(x)) == indented(lines) + "\n     "@ + x,
{
    assert(lines.push(x).drop_last() =~= lines);
}

/// One coefficient line of the DA display.
fn row_line(r: usize, text: &String, m: &Monomial, num_vars: usize) -> (v: Vec<char>)
    requires
        r < usize::MAX,
    ensures
        v@ == da_row_line(r as int, text@, m.exponents@, num_vars as int),
{
    let mut v = dec_chars((r + 1) as u64);
    v.push(' ');
    v.push(' ');
    extend_str(&mut v, text.as_str());
    v.push(' ');
    let o = m.total_order();
    let od = dec_chars(o as u64);
    let op = pad_left_chars(&od, 3);
    extend_chars(&mut v, &op);
    v.push(' ');
    v.push(' ');
    let e = exp_str_chars(m.exponents.as_slice(), num_vars);
    let hi = trim_end_index(&e, e.len());
    let t = sub_chars(&e, 0, hi);
    proof {
        assert(e@.take(e@.len() as int) =~= e@);
        assert(t@ =~= e@.take(hi as int));
    }
    extend_chars(&mut v, &t);
    proof {
        let nv: int = if num_vars < 6 { num_vars as int } else { 6 };
        assert(v@ =~= da_row_line(r as int, text@, m.exponents@, num_vars as int));
    }
    v
}

/// The COSY listing of a real DA vector: a header, one line per term in order of total
/// order (terms of equal order in the order they are stored), and a dashed rule as long as
/// the last line, every line indented by five spaces. `texts[i]` is the printed coefficient
/// of term `i`; `num_vars` exponents are shown.
/// Departs from COSY on ties: COSY orders monomials of equal total order by its own display
/// rank, then by exponents; that rank is not part of this library, so ties keep storage order
/// and the listing depends on how the terms are stored.
pub fn display_da(da: &DA, texts: &Vec<String>, num_vars: usize) -> (r: String)
    requires
        texts@.len() == da.terms@.len(),
        forall|i: int| 0 <= i < texts@.len() ==> plain_text(#[trigger] texts@[i]@),
    ensures
        r@ == da_display_spec(*da, texts_view(texts@), num_vars as int),
{
    let n = da.terms.len();
    if n == 0 {
        let z = "     ALL COMPONENTS ZERO\n     -------------------";
        return z.to_string();
    }
    let ghost tv = texts_view(texts@);
    let ghost terms = da.terms@;
    let mut out: Vec<char> = Vec::new();
    extend_str(&mut out, "     ");
    extend_str(&mut out, "I  COEFFICIENT            ORDER EXPONENTS");
    let ghost mut idx: Seq<int> = Seq::empty();
    let mut rows: usize = 0;
    let mut last_len: usize = 0;
    proof {
        reveal_strlit("     ");
        reveal_strlit("I  COEFFICIENT            ORDER EXPONENTS");
        assert(out@ =~= indented(seq![da_header()]));
        assert(seq![da_header()] + row_lines(*da, tv, num_vars as int, idx) =~= seq![da_header()]);
    }
    let mut k: u32 = 0;
    while k < 1531
        invariant
            n == terms.len(),
            terms == da.terms@,
            tv == texts_view(texts@),
            texts@.len() == n,
            0 <= k <= 1531,
            idx == sorted_indices(terms, k as int),
            rows == idx.len(),
            rows <= n,
            out@ == indented(seq![da_header()] + row_lines(*da, tv, num_vars as int, idx)),
            rows > 0 ==> last_len == row_lines(*da, tv, num_vars as int, idx).last().len(),
        decreases 1531 - k,
    {
        let mut i: usize = 0;
        let ghost base = idx;
        while i < n
            invariant
                n == terms.len(),
                terms == da.terms@,
                tv == texts_view(texts@),
                texts@.len() == n,
                0 <= k < 1531,
                i <= n,
                base == sorted_indices(terms, k as int),
                idx == base + order_indices(terms, k as int, i as int),
                rows == idx.len(),
                rows <= n,
                out@ == indented(seq![da_header()] + row_lines(*da, tv, num_vars as int, idx)),
                rows > 0 ==> last_len == row_lines(*da, tv, num_vars as int, idx).last().len(),
            decreases n - i,
        {
            let ghost old_idx = idx;
            let m = da.terms[i].monomial;
            if m.total_order() == k {
                proof {
                    lemma_sorted_len(terms, k as int);
                    lemma_count_below_step(terms, k as int, n as int);
                    lemma_count_below_step(terms, k + 1, n as int);
                    lemma_order_indices_mono(terms, k as int, i + 1, n as int);
                    assert(order_indices(terms, k as int, i + 1) =~= order_indices(terms, k as int, i as int).push(i as int));
                }
                let line = row_line(rows, &texts[i], &m, num_vars);
                out.push('\n');
                extend_str(&mut out, "     ");
                extend_chars(&mut out, &line);
                last_len = line.len();
                proof {
                    reveal_strlit("     ");
                    reveal_strlit("\n     ");
                    idx = old_idx.push(i as int);
                    let ls = seq![da_header()] + row_lines(*da, tv, num_vars as int, old_idx);
                    assert(tv[i as int] == texts@[i as int]@);
                    assert(row_lines(*da, tv, num_vars as int, idx) =~= row_lines(*da, tv, num_vars as int, old_idx).push(line@));
                    assert(seq![da_header()] + row_lines(*da, tv, num_vars as int, idx) =~= ls.push(line@));
                    lemma_indented_push(ls, line@);
                    assert(out@ =~= indented(ls) + "\n     "@ + line@);
                    assert(idx =~= base + order_indices(terms, k as int, i + 1));
                }
                rows = rows + 1;
            } else {
                proof {
                    assert(order_indices(terms, k as int, i + 1) =~= order_indices(terms, k as int, i as int));
                }
            }
            i = i + 1;
        }
        proof {
            assert(idx =~= sorted_indices(terms, k + 1));
        }
        k = k + 1;
    }
    proof {
        assert forall|j: int| 0 <= j < n implies exps_order(#[trigger] terms[j].monomial.exponents@) < 1531 by {
            assert(terms[j].monomial.exponents@.len() == 6);
        }
        lemma_all_sorted(terms);
    }
    let mut dashes: Vec<char> = Vec::new();
    let mut j: usize = 0;
    while j < last_len
        invariant
            j <= last_len,
            dashes@ == Seq::new(j as nat, |q: int| '-'),
        decreases last_len - j,
    {
        dashes.push('-');
        proof {
            assert(dashes@ =~= Seq::new((j + 1) as nat, |q: int| '-'));
        }
        j = j + 1;
    }
    out.push('\n');
    extend_str(&mut out, "     ");
    extend_chars(&mut out, &dashes);
    proof {
        reveal_strlit("     ");
        reveal_strlit("\n     ");
        let rl = row_lines(*da, tv, num_vars as int, idx);
        let ls = seq![da_header()] + rl;
        lemma_indented_push(ls, dashes@);
        assert(ls.push(dashes@) =~= seq![da_header()] + rl + seq![Seq::new(rl.last().len(), |q: int| '-')]);
    }
    string_of(&out)
}

/// One row of the complex DA display (`idx` counts from zero), with its line break.
pub open spec fn cd_row_line(idx: int, re: Seq<char>, im: Seq<char>, e: Seq<u8>, num_vars: int) -> Seq<char> {
    "     "@ + dec((idx + 1) as nat) + seq![' '] + re + seq![' '] + im + seq![' '] + pad_left(dec(exps_order(e) as nat), 3)
        + seq![' ', ' '] + trim_end(exp_str_spec(e, if num_vars < 6 { num_vars } else { 6 })) + seq!['\n']
}

pub open spec fn cd_header() -> Seq<char> {
    "     I  COEFFICIENTS                           ORDER EXPONENTS\n"@
}

/// The display rows of the complex terms at positions `idx`, numbered from one.
pub open spec fn cd_row_lines(cd: CD, re: Seq<Seq<char>>, im: Seq<Seq<char>>, num_vars: int, idx: Seq<int>) -> Seq<Seq<char>> {
    Seq::new(
        idx.len(),
        |r: int| cd_row_line(r, re[idx[r]], im[idx[r]], cd.terms@[idx[r]].monomial.exponents@, num_vars),
    )
}

/// The whole complex DA display.
pub open spec fn cd_display_spec(cd: CD, re: Seq<Seq<char>>, im: Seq<Seq<char>>, num_vars: int) -> Seq<char> {
    if cd.terms@.len() == 0 {
        "     ALL COMPONENTS ZERO\n     -------------------"@
    } else {
        cd_header() + concat_all(cd_row_lines(cd, re, im, num_vars, sorted_indices(cd.terms@, order_bound())))
            + Seq::new(38, |i: int| ' ')
    }
}

/// One row of the complex DA display.
fn cd_row(r: usize, re: &String, im: &String, m: &Monomial, num_vars: usize) -> (v: Vec<char>)
    requires
        r < usize::MAX,
    ensures
        v@ == cd_row_line(r as int, re@, im@, m.exponents@, num_vars as int),
{
    let mut v: Vec<char> = Vec::new();
    extend_str(&mut v, "     ");
    let d = dec_chars((r + 1) as u64);
    extend_chars(&mut v, &d);
    v.push(' ');
    extend_str(&mut v, re.as_str());
    v.push(' ');
    extend_str(&mut v, im.as_str());
    v.push(' ');
    let o = m.total_order();
    let od = dec_chars(o as u64);
    let op = pad_left_chars(&od, 3);
    extend_chars(&mut v, &op);
    v.push(' ');
    v.push(' ');
    let e = exp_str_chars(m.exponents.as_slice(), num_vars);
    let hi = trim_end_index(&e, e.len());
    let t = sub_chars(&e, 0, hi);
    proof {
        assert(e@.take(e@.len() as int) =~= e@);
        assert(t@ =~= e@.take(hi as int));
    }
    extend_chars(&mut v, &t);
    v.push('\n');
    proof {
        reveal_strlit("     ");
        assert(v@ =~= cd_row_line(r as int, re@, im@, m.exponents@, num_vars as int));
    }
    v
}

/// The COSY listing of a complex DA vector: a header, one line per term in order of total
/// order (terms of equal order in the order they are stored) with its real and imaginary
/// parts, then a line of 38 blanks. `re_texts[i]` and `im_texts[i]` are the printed parts of
/// term `i`; `num_vars` exponents are shown.
/// Departs from COSY on ties: COSY orders monomials of equal total order by its own display
/// rank, then by exponents; that rank is not part of this library, so ties keep storage order
/// and the listing depends on how the terms are stored.
pub fn display_cd(cd: &CD, re_texts: &Vec<String>, im_texts: &Vec<String>, num_vars: usize) -> (r: String)
    requires
        re_texts@.len() == cd.terms@.len(),
        im_texts@.len() == cd.terms@.len(),
    ensures
        r@ == cd_display_spec(*cd, texts_view(re_texts@), texts_view(im_texts@), num_vars as int),
{
    let n = cd.terms.len();
    if n == 0 {
        let z = "     ALL COMPONENTS ZERO\n     -------------------";
        return z.to_string();
    }
    let ghost rv = texts_view(re_texts@);
    let ghost iv = texts_view(im_texts@);
    let ghost terms = cd.terms@;
    let mut out: Vec<char> = Vec::new();
    extend_str(&mut out, "     I  COEFFICIENTS                           ORDER EXPONENTS\n");
    let ghost mut idx: Seq<int> = Seq::empty();
    let mut rows: usize = 0;
    proof {
        assert(concat_all(cd_row_lines(*cd, rv, iv, num_vars as int, idx)) =~= Seq::<char>::empty());
        assert(out@ =~= cd_header() + concat_all(cd_row_lines(*cd, rv, iv, num_vars as int, idx)));
    }
    let mut k: u32 = 0;
    while k < 1531
        invariant
            n == terms.len(),
            terms == cd.terms@,
            rv == texts_view(re_texts@),
            iv == texts_view(im_texts@),
            re_texts@.len() == n,
            im_texts@.len() == n,
            0 <= k <= 1531,
            idx == sorted_indices(terms, k as int),
            rows == idx.len(),
            rows <= n,
            out@ == cd_header() + concat_all(cd_row_lines(*cd, rv, iv, num_vars as int, idx)),
        decreases 1531 - k,
    {
        let mut i: usize = 0;
        let ghost base = idx;
        while i < n
            invariant
                n == terms.len(),
                terms == cd.terms@,
                rv == texts_view(re_texts@),
                iv == texts_view(im_texts@),
                re_texts@.len() == n,
                im_texts@.len() == n,
                0 <= k < 1531,
                i <= n,
                base == sorted_indices(terms, k as int),
                idx == base + order_indices(terms, k as int, i as int),
                rows == idx.len(),
                rows <= n,
                out@ == cd_header() + concat_all(cd_row_lines(*cd, rv, iv, num_vars as int, idx)),
            decreases n - i,
        {
            let ghost old_idx = idx;
            let m = cd.terms[i].monomial;
            if m.total_order() == k {
                proof {
                    lemma_sorted_len(terms, k as int);
                    lemma_count_below_step(terms, k as int, n as int);
                    lemma_count_below_step(terms, k + 1, n as int);
                    lemma_order_indices_mono(terms, k as int, i + 1, n as int);
                    assert(order_indices(terms, k as int, i + 1) =~= order_indices(terms, k as int, i as int).push(i as int));
                }
                let line = cd_row(rows, &re_texts[i], &im_texts[i], &m, num_vars);
                extend_chars(&mut out, &line);
                proof {
                    idx = old_idx.push(i as int);
                    assert(rv[i as int] == re_texts@[i as int]@);
                    assert(iv[i as int] == im_texts@[i as int]@);
                    let before = cd_row_lines(*cd, rv, iv, num_vars as int, old_idx);
                    assert(cd_row_lines(*cd, rv, iv, num_vars as int, idx) =~= before.push(line@));
                    assert(before.push(line@).drop_last() =~= before);
                    assert(idx =~= base + order_indices(terms, k as int, i + 1));
                }
                rows = rows + 1;
            } else {
                proof {
                    assert(order_indices(terms, k as int, i + 1) =~= order_indices(terms, k as int, i as int));
                }
            }
            i = i + 1;
        }
        proof {
            assert(idx =~= sorted_indices(terms, k + 1));
        }
        k = k + 1;
    }
    let mut j: usize = 0;
    let ghost body = out@;
    while j < 38
        invariant
            j <= 38,
            out@ == body + Seq::new(j as nat, |q: int| ' '),
        decreases 38 - j,
    {
        out.push(' ');
        proof {
            assert(out@ =~= body + Seq::new((j + 1) as nat, |q: int| ' '));
        }
        j = j + 1;
    }
    string_of(&out)
}

/// Every term of total order below 1531 is listed: there is at least one row when there
/// is a term.
proof fn lemma_all_sorted<C>(terms: Seq<Term<C>>)
    requires
        terms.len() > 0,
        forall|j: int| 0 <= j < terms.len() ==> exps_order(#[trigger] terms[j].monomial.exponents@) < 1531,
    ensures
        sorted_indices(terms, 1531).len() == terms.len(),
{
    lemma_sorted_len(terms, 1531);
    lemma_count_all(terms, terms.len() as int);
}

proof fn lemma_count_all<C>(terms: Seq<Term<C>>, n: int)
    requires
        0 <= n <= terms.len(),
        forall|j: int| 0 <= j < terms.len() ==> exps_order(#[trigger] terms[j].monomial.exponents@) < 1531,
    ensures
        count_below(terms, 1531, n) == n,
    decreases n,
{
    if n > 0 {
        lemma_count_all(terms, n - 1);
    }
}

/// Rosy's text of a value, as WRITE prints it.
pub trait RosyDisplay {
    fn rosy_display(self) -> String;
}

impl<'a> RosyDisplay for &'a String {
    /// A string prints as itself.
    fn rosy_display(self) -> (r: String)
        ensures
            r@ == self@,
    {
        self.clone()
    }
}

impl<'a> RosyDisplay for &'a str {
    /// A string prints as itself.
    fn rosy_display(self) -> (r: String)
        ensures
            r@ == self@,
    {
        self.to_string()
    }
}

impl<'a> RosyDisplay for &'a bool {
    /// A logical value prints as `TRUE` or `FALSE`.
    fn rosy_display(self) -> (r: String)
        ensures
            r@ == (if *self { "TRUE"@ } else { "FALSE"@ }),
    {
        if *self {
            "TRUE".to_string()
        } else {
            "FALSE".to_string()
        }
    }
}

impl<'a> RosyDisplay for &'a usize {
    /// A loop counter prints in decimal.
    fn rosy_display(self) -> (r: String)
        ensures
            r@ == dec(*self as nat),
    {
        let d = dec_chars(*self as u64);
        string_of(&d)
    }
}

} // verus!
