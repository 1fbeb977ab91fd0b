//! DAREV reads back what DAPRV writes.

use vstd::prelude::*;
use crate::daprv::{
    DaprvRow, all_stars, ascii_chars, char_at_byte, coefficient_field_ok, concat_all, cosy_field, cosy_rest,
    daprv_body, lemma_ascii_bytes,
    daprv_row_text, daprv_separator_line, exponent_char, exponent_text_spec, exponent_token_ok,
    exponents_from_token, digit_or_zero, is_cosy_row_spec, is_legacy_row_spec, is_separator_spec,
    row_body,
};
use crate::darev::{cosy_row_entries, cosy_table, darev_spec, first_content, is_blank, prepend_entries};
use crate::text::{all_ascii_digits, is_ascii_digit, is_ws, trim, trim_end, trim_start, word_len, words, lemma_word_len};

verus! {

/// `trim_start(s)` drops the leading whitespace of `s` and nothing more.
proof fn lemma_trim_start_skip(s: Seq<char>) -> (k: int)
    ensures
        0 <= k <= s.len(),
        trim_start(s) == s.skip(k),
        forall|i: int| 0 <= i < k ==> is_ws(#[trigger] s[i]),
        k < s.len() ==> !is_ws(s[k]),
    decreases s.len(),
{
    if s.len() > 0 && is_ws(s[0]) {
        let k1 = lemma_trim_start_skip(s.drop_first());
        assert(s.drop_first().skip(k1) =~= s.skip(k1 + 1));
        assert forall|i: int| 0 <= i < k1 + 1 implies is_ws(#[trigger] s[i]) by {
            if i > 0 {
                assert(s[i] == s.drop_first()[i - 1]);
            }
        }
        if k1 + 1 < s.len() {
            assert(s[k1 + 1] == s.drop_first()[k1]);
        }
        k1 + 1
    } else {
        assert(s.skip(0) =~= s);
        0
    }
}

/// A sequence whose last character is not whitespace: trimming keeps its end, and keeps it
/// nonempty.
proof fn lemma_trim_keeps_last(s: Seq<char>)
    requires
        s.len() > 0,
        !is_ws(s.last()),
    ensures
        trim_end(s) == s,
        trim(s).len() > 0,
        trim(s).last() == s.last(),
{
    let k = lemma_trim_start_skip(s);
    assert(k < s.len()) by {
        if k == s.len() {
            assert(is_ws(s[s.len() - 1]));
        }
    }
    let t = s.skip(k);
    assert(t.last() == s.last());
}

/// A nonempty run of ASCII digits has itself as its one word and its trim.
proof fn lemma_digits_word(t: Seq<char>)
    requires
        t.len() > 0,
        all_ascii_digits(t),
    ensures
        words(t) == seq![t],
        words(seq![' '] + t) == seq![t],
        trim(seq![' '] + t) == t,
    decreases t.len(),
{
    assert(forall|i: int| 0 <= i < t.len() ==> !is_ws(#[trigger] t[i])) by {
        assert forall|i: int| 0 <= i < t.len() implies !is_ws(#[trigger] t[i]) by {
            assert(is_ascii_digit(t[i]));
        }
    }
    lemma_word_len_all(t);
    assert(t.skip(t.len() as int) =~= Seq::<char>::empty());
    assert(t.take(t.len() as int) =~= t);
    assert(words(Seq::<char>::empty()) =~= Seq::<Seq<char>>::empty());
    assert(!is_ws(t[0]));
    assert(words(t) == seq![t.take(word_len(t) as int)].add(words(t.skip(word_len(t) as int))));
    assert(seq![t].add(Seq::<Seq<char>>::empty()) =~= seq![t]);
    let st = seq![' '] + t;
    assert(st.len() > 0);
    assert(words(st) == words(st.drop_first()));
    assert(st.drop_first() =~= t);
    assert(is_ws(st[0]));
    assert(trim_start(st) == trim_start(t));
    assert(!is_ws(t[0]));
    assert(trim_start(t) == t);
    assert(!is_ws(t.last()));
    assert(trim_end(t) == t);
}

proof fn lemma_word_len_all(t: Seq<char>)
    requires
        forall|i: int| 0 <= i < t.len() ==> !is_ws(#[trigger] t[i]),
    ensures
        word_len(t) == t.len(),
    decreases t.len(),
{
    if t.len() > 0 {
        assert forall|i: int| 0 <= i < t.drop_first().len() implies !is_ws(#[trigger] t.drop_first()[i]) by {
            assert(t.drop_first()[i] == t[i + 1]);
        }
        lemma_word_len_all(t.drop_first());
    }
}

/// Fields of fourteen columns, concatenated: field `i` is columns `14 i .. 14 i + 14`.
proof fn lemma_concat_fields(f: Seq<Seq<char>>)
    requires
        forall|i: int| 0 <= i < f.len() ==> (#[trigger] f[i]).len() == 14,
    ensures
        concat_all(f).len() == 14 * f.len(),
        forall|i: int| 0 <= i < f.len() ==> #[trigger] concat_all(f).subrange(14 * i, 14 * i + 14) == f[i],
    decreases f.len(),
{
    if f.len() > 0 {
        let g = f.drop_last();
        assert forall|i: int| 0 <= i < g.len() implies (#[trigger] g[i]).len() == 14 by {
            assert(g[i] == f[i]);
        }
        lemma_concat_fields(g);
        let c = concat_all(f);
        assert(c == concat_all(g) + f.last());
        assert forall|i: int| 0 <= i < f.len() implies #[trigger] concat_all(f).subrange(14 * i, 14 * i + 14) == f[i] by {
            if i < g.len() {
                assert(c.subrange(14 * i, 14 * i + 14) =~= concat_all(g).subrange(14 * i, 14 * i + 14));
                assert(g[i] == f[i]);
            } else {
                assert(c.subrange(14 * i, 14 * i + 14) =~= f.last());
            }
        }
    }
}

/// A printed exponent column of single digits reads back as the exponents.
pub proof fn lemma_exponent_text_roundtrip(e: Seq<u8>, nv: int)
    requires
        e.len() == 6,
        0 <= nv <= 6,
        forall|k: int| 0 <= k < nv ==> #[trigger] e[k] < 10,
        forall|k: int| nv <= k < 6 ==> #[trigger] e[k] == 0,
    ensures
        exponents_from_token(exponent_text_spec(e, nv), nv) == e,
        all_ascii_digits(exponent_text_spec(e, nv)),
        exponent_text_spec(e, nv).len() == nv,
{
    let t = exponent_text_spec(e, nv);
    assert forall|k: int| 0 <= k < nv implies is_ascii_digit(#[trigger] t[k]) && digit_or_zero(t[k]) == e[k] by {
        let c = ((e[k] as u32) + 48) as char;
        assert(t[k] == c);
        assert((c as u32) == (e[k] as u32) + 48);
    }
    assert(exponents_from_token(t, nv) =~= e);
}

/// A row line as DAPRV prints it, without its line feed.
pub open spec fn daprv_line(fields: Seq<Seq<char>>, tok: Seq<char>) -> Seq<char> {
    seq![' '].add(concat_all(fields)).push(' ').add(tok)
}

/// The separator line, without its line feed.
pub open spec fn separator_text() -> Seq<char> {
    seq![' '].add(Seq::new(78, |i: int| '-'))
}

/// The lines DAPRV prints for `rows` with coefficient fields `fields`: one per row, then
/// the separator.
pub open spec fn daprv_lines(rows: Seq<DaprvRow>, fields: Seq<Seq<Seq<char>>>, nv: int) -> Seq<Seq<char>> {
    Seq::new(
        rows.len(),
        |r: int| daprv_line(fields[r], exponent_text_spec(rows[r].monomial.exponents@, nv)),
    ).push(separator_text())
}

/// The entries DAREV gives for rows `i..` of a table: per row, one per component.
pub open spec fn daprv_entries(rows: Seq<DaprvRow>, fields: Seq<Seq<Seq<char>>>, comps: int, nv: int, i: int) -> Seq<(int, Seq<u8>, Seq<char>)>
    decreases rows.len() - i,
{
    if i < 0 || i >= rows.len() {
        Seq::empty()
    } else {
        Seq::new(
            comps as nat,
            |c: int| (c, exponents_from_token(exponent_text_spec(rows[i].monomial.exponents@, nv), nv), fields[i][c]),
        ) + daprv_entries(rows, fields, comps, nv, i + 1)
    }
}

/// The fields of a row fit DAREV: `comps` fields of fourteen ASCII columns, each a coefficient.
pub open spec fn readable_fields(f: Seq<Seq<char>>, comps: int) -> bool {
    &&& f.len() == comps
    &&& forall|i: int| 0 <= i < comps ==> (#[trigger] f[i]).len() == 14 && coefficient_field_ok(f[i]) && ascii_chars(f[i])
}

proof fn lemma_concat_ascii(f: Seq<Seq<char>>)
    requires
        forall|i: int| 0 <= i < f.len() ==> ascii_chars(#[trigger] f[i]),
    ensures
        ascii_chars(concat_all(f)),
    decreases f.len(),
{
    if f.len() > 0 {
        let g = f.drop_last();
        assert forall|i: int| 0 <= i < g.len() implies ascii_chars(#[trigger] g[i]) by {
            assert(g[i] == f[i]);
        }
        lemma_concat_ascii(g);
        let c = concat_all(f);
        let cg = concat_all(g);
        let l = f.last();
        assert(ascii_chars(l)) by {
            assert(l == f[f.len() - 1]);
        }
        assert(c == cg + l);
        assert forall|k: int| 0 <= k < c.len() implies (#[trigger] c[k] as u32) < 128 by {
            if k < cg.len() {
                assert(c[k] == cg[k]);
            } else {
                assert(c[k] == l[k - cg.len()]);
            }
        }
    }
}

proof fn lemma_row_line(f: Seq<Seq<char>>, tok: Seq<char>, comps: int, nv: int)
    requires
        comps >= 0,
        readable_fields(f, comps),
        tok.len() == nv,
        nv >= 1,
        all_ascii_digits(tok),
    ensures
        !is_separator_spec(daprv_line(f, tok)),
        !is_blank(daprv_line(f, tok)),
        is_cosy_row_spec(daprv_line(f, tok), comps, nv),
        cosy_row_entries(daprv_line(f, tok), comps, nv) == Ok::<Seq<(int, Seq<u8>, Seq<char>)>, (int, Seq<char>)>(
            Seq::new(comps as nat, |c: int| (c, exponents_from_token(tok, nv), f[c])),
        ),
{
    let line = daprv_line(f, tok);
    let cf = concat_all(f);
    assert forall|i: int| 0 <= i < f.len() implies (#[trigger] f[i]).len() == 14 by {}
    lemma_concat_fields(f);
    assert(line.last() == tok.last());
    assert(is_ascii_digit(tok[tok.len() - 1]));
    assert(!is_ws(line.last()));
    lemma_trim_keeps_last(line);
    // neither a separator nor blank: its trim ends in a digit
    assert(!is_separator_spec(line)) by {
        let t = trim(line);
        assert(t[t.len() - 1] != '-');
    }
    assert(!is_blank(line));
    // the body: the fields, a space, the exponent digits
    let body = cf.push(' ').add(tok);
    assert(trim_end(line) == line);
    assert(line[0] == ' ');
    assert(row_body(line) == line.drop_first());
    assert(line.drop_first() =~= body);
    assert(body.len() == 14 * comps + 1 + nv);
    assert forall|i: int| 0 <= i < f.len() implies ascii_chars(#[trigger] f[i]) by {}
    lemma_concat_ascii(f);
    assert(ascii_chars(body)) by {
        assert forall|k: int| 0 <= k < body.len() implies (#[trigger] body[k] as u32) < 128 by {
            if k < cf.len() {
                assert(body[k] == cf[k]);
            } else if k > cf.len() {
                assert(body[k] == tok[k - cf.len() - 1]);
                assert(is_ascii_digit(tok[k - cf.len() - 1]));
            }
        }
    }
    lemma_ascii_bytes(body);
    assert forall|i: int| 0 <= i < comps implies #[trigger] cosy_field(body, i) == f[i] by {
        assert(char_at_byte(body, 14 * i) == 14 * i);
        assert(char_at_byte(body, 14 * (i + 1)) == 14 * (i + 1));
        assert(body.subrange(14 * i, 14 * (i + 1)) =~= cf.subrange(14 * i, 14 * i + 14));
    }
    let rest = body.skip(14 * comps);
    assert(char_at_byte(body, 14 * comps) == 14 * comps);
    assert(cosy_rest(body, comps) == rest);
    assert(rest =~= seq![' '] + tok);
    lemma_digits_word(tok);
    assert(exponent_token_ok(tok, nv));
    assert(is_cosy_row_spec(line, comps, nv)) by {
        assert forall|i: int| 0 <= i < comps implies all_stars(#[trigger] cosy_field(row_body(line), i))
            || coefficient_field_ok(cosy_field(row_body(line), i)) by {
            assert(cosy_field(row_body(line), i) == f[i]);
        }
    }
    assert(!exists|i: int| 0 <= i < comps && !coefficient_field_ok(#[trigger] cosy_field(body, i))) by {
        assert forall|i: int| 0 <= i < comps implies coefficient_field_ok(#[trigger] cosy_field(body, i)) by {
            assert(cosy_field(body, i) == f[i]);
        }
    }
    assert(Seq::new(comps as nat, |c: int| (c, exponents_from_token(tok, nv), cosy_field(body, c)))
        =~= Seq::new(comps as nat, |c: int| (c, exponents_from_token(tok, nv), f[c])));
}

proof fn lemma_separator()
    ensures
        is_separator_spec(separator_text()),
{
    let s = separator_text();
    assert(is_ws(s[0]));
    assert(!is_ws(s.last()));
    let k = lemma_trim_start_skip(s);
    assert(k == 1) by {
        if k == 0 {
            assert(is_ws(s[0]));
        }
        if k > 1 {
            assert(is_ws(s[1]));
        }
    }
    lemma_trim_keeps_last(s);
    assert(trim_end(trim_start(s)) == trim_start(s)) by {
        assert(trim_start(s).last() == s.last());
        assert(!is_ws(trim_start(s).last()));
    }
    let t = trim(s);
    assert(t =~= Seq::new(78, |i: int| '-'));
}

/// The table of row lines `i..` followed by the separator reads as the rows' entries.
proof fn lemma_cosy_table(rows: Seq<DaprvRow>, fields: Seq<Seq<Seq<char>>>, comps: int, nv: int, i: int)
    requires
        comps >= 0,
        1 <= nv <= 6,
        fields.len() == rows.len(),
        forall|r: int| 0 <= r < rows.len() ==> readable_fields(#[trigger] fields[r], comps),
        forall|r: int, k: int| 0 <= r < rows.len() && 0 <= k < 6 ==> (#[trigger] rows[r].monomial.exponents@[k]) < 10,
        0 <= i <= rows.len(),
    ensures
        cosy_table(daprv_lines(rows, fields, nv), i, comps, nv) == Ok::<(Seq<(int, Seq<u8>, Seq<char>)>, int), (int, Seq<char>)>(
            (daprv_entries(rows, fields, comps, nv, i), rows.len() + 1int),
        ),
    decreases rows.len() - i,
{
    let lines = daprv_lines(rows, fields, nv);
    if i == rows.len() {
        assert(lines[i] == separator_text());
        lemma_separator();
    } else {
        let e = rows[i].monomial.exponents@;
        let tok = exponent_text_spec(e, nv);
        assert(e.len() == 6);
        assert forall|k: int| 0 <= k < nv implies is_ascii_digit(#[trigger] tok[k]) by {
            assert(e[k] < 10);
            let c = ((e[k] as u32) + 48) as char;
            assert(tok[k] == c);
        }
        assert(lines[i] == daprv_line(fields[i], tok));
        lemma_row_line(fields[i], tok, comps, nv);
        lemma_cosy_table(rows, fields, comps, nv, i + 1);
    }
}

/// DAREV reads back what DAPRV printed: for rows whose exponents are single digits, with
/// coefficient fields of fourteen ASCII columns that read as numbers, the lines of the table give
/// one entry per row and component, with the row's field, and the whole table (rows and
/// separator) is consumed.
pub proof fn law_darev_reads_daprv(rows: Seq<DaprvRow>, fields: Seq<Seq<Seq<char>>>, comps: int, nv: int)
    requires
        comps >= 0,
        1 <= nv <= 6,
        fields.len() == rows.len(),
        forall|r: int| 0 <= r < rows.len() ==> readable_fields(#[trigger] fields[r], comps),
        forall|r: int, k: int| 0 <= r < rows.len() && 0 <= k < 6 ==> (#[trigger] rows[r].monomial.exponents@[k]) < 10,
    ensures
        darev_spec(daprv_lines(rows, fields, nv), comps, nv) == Ok::<(Seq<(int, Seq<u8>, Seq<char>)>, int), (int, Seq<char>)>(
            (daprv_entries(rows, fields, comps, nv, 0), rows.len() + 1int),
        ),
{
    let lines = daprv_lines(rows, fields, nv);
    lemma_cosy_table(rows, fields, comps, nv, 0);
    if rows.len() == 0 {
        assert(lines[0] == separator_text());
        lemma_separator();
        assert(first_content(lines, 0) == 0);
    } else {
        let e = rows[0].monomial.exponents@;
        let tok = exponent_text_spec(e, nv);
        assert(e.len() == 6);
        assert forall|k: int| 0 <= k < nv implies is_ascii_digit(#[trigger] tok[k]) by {
            assert(e[k] < 10);
            let c = ((e[k] as u32) + 48) as char;
            assert(tok[k] == c);
        }
        assert(lines[0] == daprv_line(fields[0], tok));
        lemma_row_line(fields[0], tok, comps, nv);
        assert(first_content(lines, 0) == 0);
    }
}

/// Lines, each followed by a line feed.
pub open spec fn lines_text(ls: Seq<Seq<char>>) -> Seq<char>
    decreases ls.len(),
{
    if ls.len() == 0 {
        Seq::empty()
    } else {
        ls[0].push('\n') + lines_text(ls.drop_first())
    }
}

proof fn lemma_lines_text_push(ls: Seq<Seq<char>>, x: Seq<char>)
    ensures
        lines_text(ls.push(x)) == lines_text(ls) + x.push('\n'),
    decreases ls.len(),
{
    if ls.len() == 0 {
        assert(ls.push(x).drop_first() =~= Seq::<Seq<char>>::empty());
        assert(lines_text(Seq::<Seq<char>>::empty()) == Seq::<char>::empty());
        assert(ls.push(x)[0] == x);
        assert(lines_text(ls) == Seq::<char>::empty());
        assert(lines_text(ls.push(x)) =~= x.push('\n') + Seq::<char>::empty());
        assert(lines_text(ls.push(x)) =~= lines_text(ls) + x.push('\n'));
    } else {
        assert(ls.push(x).drop_first() =~= ls.drop_first().push(x));
        lemma_lines_text_push(ls.drop_first(), x);
        assert(lines_text(ls.push(x)) =~= lines_text(ls) + x.push('\n'));
    }
}

/// The row lines of a table, without the separator.
pub open spec fn row_lines(rows: Seq<DaprvRow>, fields: Seq<Seq<Seq<char>>>, nv: int) -> Seq<Seq<char>> {
    Seq::new(rows.len(), |r: int| daprv_line(fields[r], exponent_text_spec(rows[r].monomial.exponents@, nv)))
}

proof fn lemma_body_text(rows: Seq<DaprvRow>, fields: Seq<Seq<Seq<char>>>, nv: int)
    requires
        fields.len() == rows.len(),
    ensures
        daprv_body(rows, fields, nv) == lines_text(row_lines(rows, fields, nv)),
    decreases rows.len(),
{
    if rows.len() > 0 {
        let r0 = rows.drop_last();
        let f0 = fields.drop_last();
        lemma_body_text(r0, f0, nv);
        assert(row_lines(rows, fields, nv) =~= row_lines(r0, f0, nv).push(
            daprv_line(fields.last(), exponent_text_spec(rows.last().monomial.exponents@, nv)),
        ));
        lemma_lines_text_push(
            row_lines(r0, f0, nv),
            daprv_line(fields.last(), exponent_text_spec(rows.last().monomial.exponents@, nv)),
        );
        assert(daprv_row_text(fields.last(), exponent_text_spec(rows.last().monomial.exponents@, nv))
            =~= daprv_line(fields.last(), exponent_text_spec(rows.last().monomial.exponents@, nv)).push('\n'));
    }
}

/// Text without line feeds.
pub open spec fn no_lf(s: Seq<char>) -> bool {
    forall|k: int| 0 <= k < s.len() ==> s[k] != '\n'
}

/// Reading the lines of joined lines gives them back, when none holds a line feed or ends
/// in a carriage return.
proof fn lemma_str_lines_text(ls: Seq<Seq<char>>)
    requires
        forall|j: int| 0 <= j < ls.len() ==> no_lf(#[trigger] ls[j]),
        forall|j: int| 0 <= j < ls.len() && (#[trigger] ls[j]).len() > 0 ==> ls[j].last() != '\r',
    ensures
        crate::embedded::str_lines(lines_text(ls)) == ls,
    decreases ls.len(),
{
    if ls.len() == 0 {
        assert(lines_text(ls) =~= Seq::<char>::empty());
        assert(crate::embedded::str_lines(Seq::<char>::empty()) =~= ls);
    } else {
        let l = ls[0];
        let rest = lines_text(ls.drop_first());
        let s = lines_text(ls);
        assert(s == l.push('\n') + rest);
        assert(no_lf(l));
        crate::embedded::lemma_first_lf_bounds(s, 0);
        assert(s[l.len() as int] == '\n');
        assert(crate::embedded::first_lf(s, 0) == Some(l.len() as int)) by {
            let i = crate::embedded::first_lf(s, 0);
            match i {
                Some(j) => {
                    if j < l.len() {
                        assert(s[j] == l[j]);
                    }
                    if j > l.len() {
                        assert(s[l.len() as int] != '\n');
                    }
                },
                None => {
                    assert(s[l.len() as int] != '\n');
                },
            }
        }
        assert(s.take(l.len() as int) =~= l);
        assert(crate::embedded::strip_cr(l) == l);
        assert(s.skip(l.len() + 1int) =~= rest);
        assert forall|j: int| 0 <= j < ls.drop_first().len() implies no_lf(#[trigger] ls.drop_first()[j]) by {
            assert(ls.drop_first()[j] == ls[j + 1]);
        }
        assert forall|j: int| 0 <= j < ls.drop_first().len() && (#[trigger] ls.drop_first()[j]).len() > 0 implies ls.drop_first()[j].last() != '\r' by {
            assert(ls.drop_first()[j] == ls[j + 1]);
        }
        lemma_str_lines_text(ls.drop_first());
        assert(crate::embedded::str_lines(s) =~= seq![l] + ls.drop_first());
        assert(seq![l] + ls.drop_first() =~= ls);
    }
}

/// DAREV reads back the text DAPRV prints (see `law_darev_reads_daprv`): the lines of the
/// printed table, as `str::lines` splits them, give the rows' entries and the table's line
/// count, when no coefficient field holds a line feed.
pub proof fn law_darev_reads_daprv_text(rows: Seq<DaprvRow>, fields: Seq<Seq<Seq<char>>>, comps: int, nv: int)
    requires
        comps >= 0,
        1 <= nv <= 6,
        fields.len() == rows.len(),
        forall|r: int| 0 <= r < rows.len() ==> readable_fields(#[trigger] fields[r], comps),
        forall|r: int, c: int| 0 <= r < rows.len() && 0 <= c < comps ==> no_lf(#[trigger] fields[r][c]),
        forall|r: int, k: int| 0 <= r < rows.len() && 0 <= k < 6 ==> (#[trigger] rows[r].monomial.exponents@[k]) < 10,
    ensures
        darev_spec(
            crate::embedded::str_lines(daprv_body(rows, fields, nv) + daprv_separator_line()),
            comps,
            nv,
        ) == Ok::<(Seq<(int, Seq<u8>, Seq<char>)>, int), (int, Seq<char>)>(
            (daprv_entries(rows, fields, comps, nv, 0), rows.len() + 1int),
        ),
{
    let ls = daprv_lines(rows, fields, nv);
    lemma_body_text(rows, fields, nv);
    lemma_lines_text_push(row_lines(rows, fields, nv), separator_text());
    assert(ls =~= row_lines(rows, fields, nv).push(separator_text()));
    assert(daprv_separator_line() =~= separator_text().push('\n'));
    assert forall|j: int| 0 <= j < ls.len() implies no_lf(#[trigger] ls[j]) by {
        if j < rows.len() {
            let f = fields[j];
            let tok = exponent_text_spec(rows[j].monomial.exponents@, nv);
            lemma_concat_no_lf(f);
            assert forall|k: int| 0 <= k < tok.len() implies tok[k] != '\n' by {
                let e = rows[j].monomial.exponents@;
                assert(e.len() == 6);
                assert(e[k] < 10);
                let c = ((e[k] as u32) + 48) as char;
                assert(tok[k] == c);
            }
            let l = ls[j];
            assert(l == daprv_line(f, tok));
            assert forall|k: int| 0 <= k < l.len() implies l[k] != '\n' by {
                let cf = concat_all(f);
                if k == 0 {
                } else if k <= cf.len() {
                    assert(l[k] == cf[k - 1]);
                } else if k == cf.len() + 1 {
                } else {
                    assert(l[k] == tok[k - cf.len() - 2]);
                }
            }
        }
    }
    assert forall|j: int| 0 <= j < ls.len() && (#[trigger] ls[j]).len() > 0 implies ls[j].last() != '\r' by {
        if j < rows.len() {
            let e = rows[j].monomial.exponents@;
            let tok = exponent_text_spec(e, nv);
            assert(e.len() == 6);
            assert(e[nv - 1] < 10);
            assert(ls[j].last() == tok[nv - 1]);
        }
    }
    lemma_str_lines_text(ls);
    law_darev_reads_daprv(rows, fields, comps, nv);
}

proof fn lemma_concat_no_lf(f: Seq<Seq<char>>)
    requires
        forall|c: int| 0 <= c < f.len() ==> no_lf(#[trigger] f[c]),
    ensures
        no_lf(concat_all(f)),
    decreases f.len(),
{
    if f.len() > 0 {
        let g = f.drop_last();
        assert forall|c: int| 0 <= c < g.len() implies no_lf(#[trigger] g[c]) by {
            assert(g[c] == f[c]);
        }
        lemma_concat_no_lf(g);
        assert(no_lf(f.last()));
        let x = concat_all(f);
        assert(x == concat_all(g) + f.last());
        assert forall|k: int| 0 <= k < x.len() implies x[k] != '\n' by {
            if k < concat_all(g).len() {
                assert(x[k] == concat_all(g)[k]);
            } else {
                assert(x[k] == f.last()[k - concat_all(g).len()]);
            }
        }
    }
}

} // verus!
