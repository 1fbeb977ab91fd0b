//! DAPRV / DAREV: the COSY tabular text layout of DA vector arrays.
//!
//! A row holds one 14-column `G14.7` coefficient field per component, then the exponents of
//! the monomial as single digits; a line of dashes ends the table. The older Rosy layout has
//! one whitespace-separated coefficient and exponent token per row, and one table per
//! component.

use vstd::prelude::*;
use crate::monomial::{Monomial, find_monomial};
use crate::da::{DA, DaConfig, abs_gt, abs_gt_bits, real_coeff};
use crate::text::{
    all_ascii_digits, chars_all_digits, chars_eq_ignore_ascii_case, chars_of, is_ascii_digit,
    is_ws, next_word, push_char, string_of, sub_chars, trim, trim_end, trim_end_index, trimmed, words,
    eq_ignore_ascii_case,
};

verus! {

/// Number of exponent digits per row: `max_vars`, at most six.
pub fn daprv_exponent_digits(max_vars: usize) -> (r: usize)
    ensures
        r == if max_vars < 6 { max_vars } else { 6 },
{
    if max_vars < 6 {
        max_vars
    } else {
        6
    }
}

/// A separator line: nonblank, and nothing but dashes once trimmed.
pub open spec fn is_separator_spec(line: Seq<char>) -> bool {
    let t = trim(line);
    t.len() > 0 && forall|i: int| 0 <= i < t.len() ==> #[trigger] t[i] == '-'
}

pub fn is_daprv_separator(line: &str) -> (r: bool)
    ensures
        r == is_separator_spec(line@),
{
    let c = chars_of(line);
    let t = trimmed(&c);
    if t.len() == 0 {
        return false;
    }
    let mut i: usize = 0;
    while i < t.len()
        invariant
            i <= t@.len(),
            t@ == trim(line@),
            forall|j: int| 0 <= j < i ==> #[trigger] t@[j] == '-',
        decreases t@.len() - i,
    {
        if t[i] != '-' {
            assert(trim(line@)[i as int] != '-');
            return false;
        }
        i = i + 1;
    }
    true
}

/// Value of an ASCII digit, zero for any other character (`to_digit(10).unwrap_or(0)`).
pub open spec fn digit_or_zero(c: char) -> u8 {
    if is_ascii_digit(c) {
        ((c as u32) - 48) as u8
    } else {
        0
    }
}

/// Monomial read from an exponent token: its first `nv` characters as digits, zero elsewhere.
pub open spec fn exponents_from_token(token: Seq<char>, nv: int) -> Seq<u8> {
    Seq::new(6, |i: int| if i < nv && i < token.len() { digit_or_zero(token[i]) } else { 0u8 })
}

pub fn daprv_exponents(token: &str, nv: usize) -> (m: Monomial)
    requires
        nv <= 6,
    ensures
        m.exponents@ == exponents_from_token(token@, nv as int),
{
    let t = chars_of(token);
    let mut e = [0u8; 6];
    let mut i: usize = 0;
    while i < nv && i < t.len()
        invariant
            i <= nv <= 6,
            i <= t@.len(),
            t@ == token@,
            forall|j: int| 0 <= j < 6 ==> #[trigger] e@[j] == if j < i {
                digit_or_zero(t@[j])
            } else {
                0u8
            },
        decreases nv - i,
    {
        let c = t[i];
        let d: u8 = if '0' <= c && c <= '9' { (c as u32 - 48) as u8 } else { 0 };
        e[i] = d;
        i = i + 1;
    }
    assert(e@ =~= exponents_from_token(token@, nv as int));
    Monomial { exponents: e }
}

/// A legacy exponent token: nonempty, at most `max(nv, 1)` long, all ASCII digits.
pub open spec fn exponent_token_ok(token: Seq<char>, nv: int) -> bool {
    token.len() > 0 && token.len() <= (if nv > 1 { nv } else { 1 }) && all_ascii_digits(token)
}

pub fn exponent_chars_ok(t: &Vec<char>, nv: usize) -> (r: bool)
    ensures
        r == exponent_token_ok(t@, nv as int),
{
    let cap = if nv > 1 { nv } else { 1 };
    t.len() > 0 && t.len() <= cap && chars_all_digits(t)
}

pub fn exponent_token_is_digits(token: &str, nv: usize) -> (r: bool)
    ensures
        r == exponent_token_ok(token@, nv as int),
{
    let t = chars_of(token);
    exponent_chars_ok(&t, nv)
}

// ---------------------------------------------------------------------------------------
// Syntax of a binary64 literal, as `f64::from_str` accepts it:
//   Float  ::= Sign? ( 'inf' | 'infinity' | 'nan' | Number )     (letters in any case)
//   Number ::= ( Digit+ | Digit+ '.' Digit* | Digit* '.' Digit+ ) Exp?
//   Exp    ::= ('e' | 'E') Sign? Digit+
// ---------------------------------------------------------------------------------------

pub open spec fn strip_sign(s: Seq<char>) -> Seq<char> {
    if s.len() > 0 && (s[0] == '+' || s[0] == '-') {
        s.drop_first()
    } else {
        s
    }
}

/// Index of the first character equal to `a` or `b` (the length when there is none).
pub open spec fn find_either(s: Seq<char>, a: char, b: char) -> int
    decreases s.len(),
{
    if s.len() == 0 {
        0
    } else if s[0] == a || s[0] == b {
        0
    } else {
        1 + find_either(s.drop_first(), a, b)
    }
}

/// Digits with at most one point, and at least one digit.
pub open spec fn mantissa_ok(u: Seq<char>) -> bool {
    let d = find_either(u, '.', '.');
    if d < u.len() {
        all_ascii_digits(u.take(d)) && all_ascii_digits(u.skip(d + 1)) && u.len() >= 2
    } else {
        u.len() >= 1 && all_ascii_digits(u)
    }
}

pub open spec fn signed_digits_ok(x: Seq<char>) -> bool {
    strip_sign(x).len() >= 1 && all_ascii_digits(strip_sign(x))
}

pub open spec fn decimal_ok(t: Seq<char>) -> bool {
    let e = find_either(t, 'e', 'E');
    mantissa_ok(t.take(e)) && (e == t.len() || signed_digits_ok(t.skip(e + 1)))
}

pub open spec fn float_literal_ok(s: Seq<char>) -> bool {
    let t = strip_sign(s);
    eq_ignore_ascii_case(t, seq!['i', 'n', 'f']) || eq_ignore_ascii_case(
        t,
        seq!['i', 'n', 'f', 'i', 'n', 'i', 't', 'y'],
    ) || eq_ignore_ascii_case(t, seq!['n', 'a', 'n']) || decimal_ok(t)
}

proof fn lemma_find_either(s: Seq<char>, a: char, b: char)
    ensures
        0 <= find_either(s, a, b) <= s.len(),
        forall|i: int| 0 <= i < find_either(s, a, b) ==> #[trigger] s[i] != a && s[i] != b,
        find_either(s, a, b) < s.len() ==> (s[find_either(s, a, b)] == a || s[find_either(s, a, b)] == b),
    decreases s.len(),
{
    if s.len() > 0 && !(s[0] == a || s[0] == b) {
        lemma_find_either(s.drop_first(), a, b);
        assert forall|i: int| 0 <= i < find_either(s, a, b) implies #[trigger] s[i] != a && s[i] != b by {
            if i > 0 {
                assert(s[i] == s.drop_first()[i - 1]);
            }
        }
        if find_either(s, a, b) < s.len() {
            assert(s[find_either(s, a, b)] == s.drop_first()[find_either(s, a, b) - 1]);
        }
    }
}

fn find_either_exec(s: &Vec<char>, a: char, b: char) -> (r: usize)
    ensures
        r == find_either(s@, a, b),
{
    let mut i: usize = 0;
    while i < s.len() && s[i] != a && s[i] != b
        invariant
            i <= s@.len(),
            forall|j: int| 0 <= j < i ==> #[trigger] s@[j] != a && s@[j] != b,
        decreases s@.len() - i,
    {
        i = i + 1;
    }
    proof {
        lemma_find_either(s@, a, b);
        let f = find_either(s@, a, b);
        if f < i {
            assert(s@[f] != a && s@[f] != b);
        }
        if i < f {
            assert(s@[i as int] != a && s@[i as int] != b);
        }
    }
    i
}

fn strip_sign_exec(s: &Vec<char>) -> (r: Vec<char>)
    ensures
        r@ == strip_sign(s@),
{
    if s.len() > 0 && (s[0] == '+' || s[0] == '-') {
        let r = sub_chars(s, 1, s.len());
        assert(r@ =~= s@.drop_first());
        r
    } else {
        sub_chars(s, 0, s.len())
    }
}

fn mantissa_ok_exec(u: &Vec<char>) -> (r: bool)
    ensures
        r == mantissa_ok(u@),
{
    let d = find_either_exec(u, '.', '.');
    if d < u.len() {
        let a = sub_chars(u, 0, d);
        let b = sub_chars(u, d + 1, u.len());
        proof {
            assert(a@ =~= u@.take(d as int));
            assert(b@ =~= u@.skip(d + 1));
        }
        chars_all_digits(&a) && chars_all_digits(&b) && u.len() >= 2
    } else {
        proof {
            assert(u@.subrange(0, u@.len() as int) =~= u@);
        }
        u.len() >= 1 && chars_all_digits(u)
    }
}

fn float_literal_exec(s: &Vec<char>) -> (r: bool)
    ensures
        r == float_literal_ok(s@),
{
    let t = strip_sign_exec(s);
    let inf: Vec<char> = vec!['i', 'n', 'f'];
    let infinity: Vec<char> = vec!['i', 'n', 'f', 'i', 'n', 'i', 't', 'y'];
    let nan: Vec<char> = vec!['n', 'a', 'n'];
    proof {
        assert(inf@ =~= seq!['i', 'n', 'f']);
        assert(infinity@ =~= seq!['i', 'n', 'f', 'i', 'n', 'i', 't', 'y']);
        assert(nan@ =~= seq!['n', 'a', 'n']);
    }
    if chars_eq_ignore_ascii_case(&t, &inf) || chars_eq_ignore_ascii_case(&t, &infinity)
        || chars_eq_ignore_ascii_case(&t, &nan) {
        return true;
    }
    let e = find_either_exec(&t, 'e', 'E');
    proof {
        lemma_find_either(t@, 'e', 'E');
    }
    let m = sub_chars(&t, 0, e);
    assert(m@ =~= t@.take(e as int));
    if !mantissa_ok_exec(&m) {
        return false;
    }
    if e == t.len() {
        return true;
    }
    let x = sub_chars(&t, e + 1, t.len());
    assert(x@ =~= t@.skip(e + 1));
    let y = strip_sign_exec(&x);
    y.len() >= 1 && chars_all_digits(&y)
}

/// DAPRV coefficient fields write Fortran `D` exponents; they read as `E`.
pub open spec fn d_to_e(c: char) -> char {
    if c == 'D' || c == 'd' {
        'E'
    } else {
        c
    }
}

/// A coefficient field reads as a binary64 literal once trimmed and with `D` taken for `E`.
pub open spec fn coefficient_field_ok(field: Seq<char>) -> bool {
    float_literal_ok(trim(field).map_values(|c: char| d_to_e(c)))
}

pub fn coefficient_chars_ok(field: &Vec<char>) -> (r: bool)
    ensures
        r == coefficient_field_ok(field@),
{
    let t = trimmed(field);
    let mut u: Vec<char> = Vec::new();
    let mut i: usize = 0;
    while i < t.len()
        invariant
            i <= t@.len(),
            u@ == t@.take(i as int).map_values(|c: char| d_to_e(c)),
        decreases t@.len() - i,
    {
        let c = t[i];
        u.push(if c == 'D' || c == 'd' { 'E' } else { c });
        proof {
            assert(t@.take(i + 1).map_values(|c: char| d_to_e(c)) =~= t@.take(i as int).map_values(
                |c: char| d_to_e(c),
            ).push(d_to_e(t@[i as int])));
        }
        i = i + 1;
    }
    assert(t@.take(i as int) =~= t@);
    float_literal_exec(&u)
}

/// Whether a coefficient field of a DAPRV row reads as a number.
pub fn daprv_coefficient_ok(field: &str) -> (r: bool)
    ensures
        r == coefficient_field_ok(field@),
{
    let c = chars_of(field);
    coefficient_chars_ok(&c)
}

// ---------------------------------------------------------------------------------------
// Row layouts
// ---------------------------------------------------------------------------------------

/// Bytes of a character in UTF-8.
pub open spec fn char_width(c: char) -> int {
    if (c as u32) < 0x80 {
        1
    } else if (c as u32) < 0x800 {
        2
    } else if (c as u32) < 0x10000 {
        3
    } else {
        4
    }
}

/// Bytes of a text in UTF-8 (`str::len`).
pub open spec fn byte_len(s: Seq<char>) -> int
    decreases s.len(),
{
    if s.len() == 0 {
        0
    } else {
        byte_len(s.drop_last()) + char_width(s.last())
    }
}

/// The number of characters whose UTF-8 bytes are the first `b` bytes of `s`, or -1 when byte
/// `b` falls inside a character or past the end (where slicing `s` at `b` panics).
pub open spec fn char_at_byte(s: Seq<char>, b: int) -> int
    decreases s.len(),
{
    if b == byte_len(s) {
        s.len() as int
    } else if s.len() == 0 {
        -1
    } else {
        char_at_byte(s.drop_last(), b)
    }
}

/// Slicing `s` at byte `b` does not cut a character.
pub open spec fn at_boundary(s: Seq<char>, b: int) -> bool {
    char_at_byte(s, b) >= 0
}

proof fn lemma_byte_len_step(s: Seq<char>, k: int)
    requires
        0 <= k < s.len(),
    ensures
        byte_len(s.take(k + 1)) == byte_len(s.take(k)) + char_width(s[k]),
{
    assert(s.take(k + 1).drop_last() =~= s.take(k));
}

/// Longer prefixes have more bytes.
pub proof fn lemma_byte_len_strict(s: Seq<char>, k1: int, k2: int)
    requires
        0 <= k1 < k2 <= s.len(),
    ensures
        byte_len(s.take(k1)) < byte_len(s.take(k2)),
    decreases k2 - k1,
{
    lemma_byte_len_step(s, k2 - 1);
    if k1 < k2 - 1 {
        lemma_byte_len_strict(s, k1, k2 - 1);
    }
}

/// The byte offset of a prefix finds that prefix.
pub proof fn lemma_char_at_prefix(s: Seq<char>, k: int)
    requires
        0 <= k <= s.len(),
    ensures
        char_at_byte(s, byte_len(s.take(k))) == k,
    decreases s.len(),
{
    if k == s.len() {
        assert(s.take(k) =~= s);
    } else {
        lemma_byte_len_strict(s, k, s.len() as int);
        assert(s.take(s.len() as int) =~= s);
        assert(s.drop_last().take(k) =~= s.take(k));
        lemma_char_at_prefix(s.drop_last(), k);
    }
}

/// What `char_at_byte` finds is a prefix with that many bytes.
pub proof fn lemma_char_at_valid(s: Seq<char>, b: int)
    ensures
        char_at_byte(s, b) >= -1,
        char_at_byte(s, b) >= 0 ==> char_at_byte(s, b) <= s.len() && byte_len(s.take(char_at_byte(s, b))) == b,
    decreases s.len(),
{
    if b == byte_len(s) {
        assert(s.take(s.len() as int) =~= s);
    } else if s.len() > 0 {
        lemma_char_at_valid(s.drop_last(), b);
        let k = char_at_byte(s.drop_last(), b);
        if k >= 0 {
            assert(s.drop_last().take(k) =~= s.take(k));
        }
    }
}

/// Boundaries further on in the bytes are further on in the characters.
pub proof fn lemma_char_at_mono(s: Seq<char>, b1: int, b2: int)
    requires
        b1 <= b2,
        at_boundary(s, b1),
        at_boundary(s, b2),
    ensures
        char_at_byte(s, b1) <= char_at_byte(s, b2),
{
    lemma_char_at_valid(s, b1);
    lemma_char_at_valid(s, b2);
    if char_at_byte(s, b1) > char_at_byte(s, b2) {
        lemma_byte_len_strict(s, char_at_byte(s, b2), char_at_byte(s, b1));
    }
}

/// On ASCII text bytes and characters coincide.
pub proof fn lemma_ascii_bytes(s: Seq<char>)
    requires
        ascii_chars(s),
    ensures
        byte_len(s) == s.len(),
        forall|b: int| 0 <= b <= s.len() ==> #[trigger] char_at_byte(s, b) == b,
    decreases s.len(),
{
    if s.len() > 0 {
        let d = s.drop_last();
        assert(ascii_chars(d)) by {
            assert forall|i: int| 0 <= i < d.len() implies (#[trigger] d[i] as u32) < 128 by {
                assert(d[i] == s[i]);
            }
        }
        lemma_ascii_bytes(d);
        assert((s.last() as u32) < 128) by {
            assert(s.last() == s[s.len() - 1]);
        }
        assert forall|b: int| 0 <= b <= s.len() implies #[trigger] char_at_byte(s, b) == b by {
            if b < s.len() {
                assert(char_at_byte(d, b) == b);
            }
        }
    }
}

/// Executable `char_width`.
fn char_width_exec(c: char) -> (r: u8)
    ensures
        r as int == char_width(c),
        1 <= r <= 4,
{
    let u = c as u32;
    if u < 0x80 {
        1
    } else if u < 0x800 {
        2
    } else if u < 0x10000 {
        3
    } else {
        4
    }
}

/// Executable `byte_len`.
pub fn byte_len_exec(s: &Vec<char>) -> (r: u128)
    ensures
        r as int == byte_len(s@),
{
    let mut acc: u128 = 0;
    let mut k: usize = 0;
    while k < s.len()
        invariant
            k <= s@.len(),
            acc as int == byte_len(s@.take(k as int)),
            acc <= 4 * k,
        decreases s@.len() - k,
    {
        proof {
            lemma_byte_len_step(s@, k as int);
        }
        let w = char_width_exec(s[k]);
        acc = acc + w as u128;
        k = k + 1;
    }
    proof {
        assert(s@.take(k as int) =~= s@);
    }
    acc
}

/// Executable `char_at_byte`: `None` for -1.
pub fn char_index_at(s: &Vec<char>, b: u128) -> (r: Option<usize>)
    ensures
        match r {
            Some(k) => k as int == char_at_byte(s@, b as int),
            None => char_at_byte(s@, b as int) == -1,
        },
{
    let mut acc: u128 = 0;
    let mut k: usize = 0;
    while k < s.len() && acc < b
        invariant
            k <= s@.len(),
            acc as int == byte_len(s@.take(k as int)),
            acc <= 4 * k,
            forall|j: int| 0 <= j < k ==> #[trigger] byte_len(s@.take(j)) < b,
        decreases s@.len() - k,
    {
        proof {
            lemma_byte_len_step(s@, k as int);
        }
        let w = char_width_exec(s[k]);
        acc = acc + w as u128;
        k = k + 1;
    }
    if acc == b {
        proof {
            lemma_char_at_prefix(s@, k as int);
        }
        Some(k)
    } else {
        proof {
            lemma_char_at_valid(s@, b as int);
            let idx = char_at_byte(s@, b as int);
            if idx >= 0 {
                if idx < k {
                    assert(byte_len(s@.take(idx)) < b);
                } else if idx > k {
                    lemma_byte_len_strict(s@, k as int, idx);
                    assert(acc >= b);
                    if k == s@.len() {
                        assert(false);
                    }
                }
            }
        }
        None
    }
}

/// The row without trailing whitespace and without one leading pad space.
pub open spec fn row_body(line: Seq<char>) -> Seq<char> {
    let l = trim_end(line);
    if l.len() > 0 && l[0] == ' ' {
        l.drop_first()
    } else {
        l
    }
}

/// Field `i` of a COSY row body: the characters in its bytes `14 i .. 14 (i + 1)`.
pub open spec fn cosy_field(body: Seq<char>, i: int) -> Seq<char> {
    body.subrange(char_at_byte(body, 14 * i), char_at_byte(body, 14 * (i + 1)))
}

/// The body after its first `comps` fields (from byte `14 comps` on).
pub open spec fn cosy_rest(body: Seq<char>, comps: int) -> Seq<char> {
    body.skip(char_at_byte(body, 14 * comps))
}

pub open spec fn all_stars(f: Seq<char>) -> bool {
    forall|k: int| 0 <= k < f.len() ==> #[trigger] f[k] == '*'
}

/// A field the layout check takes: overflow stars, or a number.
pub open spec fn field_readable(f: Seq<char>) -> bool {
    all_stars(f) || coefficient_field_ok(f)
}

/// Reading fields `i..comps` in order, each field's end byte falls between characters, up to
/// the first field that is refused (a number is asked for when `strict`, else stars pass too).
pub open spec fn fields_slice_ok(body: Seq<char>, i: int, comps: int, strict: bool) -> bool
    decreases comps - i,
{
    if i >= comps {
        true
    } else {
        at_boundary(body, 14 * (i + 1)) && ((if strict {
            coefficient_field_ok(cosy_field(body, i))
        } else {
            field_readable(cosy_field(body, i))
        }) ==> fields_slice_ok(body, i + 1, comps, strict))
    }
}

/// Checking a line for the COSY layout slices it only between characters (the check panics
/// otherwise).
pub open spec fn cosy_check_slices_ok(line: Seq<char>, comps: int) -> bool {
    let body = row_body(line);
    byte_len(body) < 14 * comps || fields_slice_ok(body, 0, comps, false)
}

/// A COSY row: `components` coefficient fields (or overflow stars) of fourteen bytes, then
/// exactly `nv` exponent digits.
pub open spec fn is_cosy_row_spec(line: Seq<char>, components: int, nv: int) -> bool {
    let body = row_body(line);
    &&& byte_len(body) >= 14 * components
    &&& forall|i: int|
        0 <= i < components ==> all_stars(#[trigger] cosy_field(body, i)) || coefficient_field_ok(
            cosy_field(body, i),
        )
    &&& trim(cosy_rest(body, components)).len() == nv
    &&& all_ascii_digits(trim(cosy_rest(body, components)))
}

/// Whether every character is ASCII.
pub open spec fn ascii_chars(s: Seq<char>) -> bool {
    forall|i: int| 0 <= i < s.len() ==> (#[trigger] s[i] as u32) < 128
}

pub fn row_body_exec(line: &str) -> (r: Vec<char>)
    ensures
        r@ == row_body(line@),
{
    let c = chars_of(line);
    let hi = trim_end_index(&c, c.len());
    assert(c@.take(c@.len() as int) =~= c@);
    if hi > 0 && c[0] == ' ' {
        let b = sub_chars(&c, 1, hi);
        assert(b@ =~= c@.take(hi as int).drop_first());
        b
    } else {
        let b = sub_chars(&c, 0, hi);
        assert(b@ =~= c@.take(hi as int));
        b
    }
}

/// Executable `all_stars`.
fn all_stars_exec(f: &Vec<char>) -> (r: bool)
    ensures
        r == all_stars(f@),
{
    let mut stars = true;
    let mut k: usize = 0;
    while k < f.len()
        invariant
            k <= f@.len(),
            stars == forall|q: int| 0 <= q < k ==> #[trigger] f@[q] == '*',
        decreases f@.len() - k,
    {
        if f[k] != '*' {
            stars = false;
        }
        k = k + 1;
    }
    stars
}

/// Executable `fields_slice_ok` from the first field.
pub fn fields_cut_ok(body: &Vec<char>, comps: usize, strict: bool) -> (r: bool)
    requires
        14 * comps <= usize::MAX,
    ensures
        r == fields_slice_ok(body@, 0, comps as int, strict),
{
    let mut start: usize = 0;
    proof {
        lemma_char_at_prefix(body@, 0);
        assert(body@.take(0) =~= Seq::<char>::empty());
    }
    let mut i: usize = 0;
    while i < comps
        invariant
            i <= comps,
            14 * comps <= usize::MAX,
            start as int == char_at_byte(body@, 14 * i),
            fields_slice_ok(body@, 0, comps as int, strict) == fields_slice_ok(body@, i as int, comps as int, strict),
        decreases comps - i,
    {
        let b_end: usize = 14 * (i + 1);
        let end = match char_index_at(body, b_end as u128) {
            None => {
                return false;
            },
            Some(e) => e,
        };
        proof {
            lemma_char_at_valid(body@, 14 * (i + 1));
            lemma_char_at_mono(body@, 14 * i, 14 * (i + 1));
        }
        let field = sub_chars(body, start, end);
        assert(field@ =~= cosy_field(body@, i as int));
        let ok = if strict {
            coefficient_chars_ok(&field)
        } else {
            all_stars_exec(&field) || coefficient_chars_ok(&field)
        };
        if !ok {
            return true;
        }
        start = end;
        i = i + 1;
    }
    true
}

/// Executable `cosy_check_slices_ok`.
pub fn cosy_check_cut_ok(line: &str, comps: usize) -> (r: bool)
    requires
        14 * comps <= usize::MAX,
    ensures
        r == cosy_check_slices_ok(line@, comps as int),
{
    let body = row_body_exec(line);
    let blen = byte_len_exec(&body);
    if blen < (14 * comps) as u128 {
        true
    } else {
        fields_cut_ok(&body, comps, false)
    }
}

/// COSY layout detection for one line.
pub fn is_cosy_daprv_row(line: &str, components: usize, nv: usize) -> (r: bool)
    requires
        14 * components <= usize::MAX,
        cosy_check_slices_ok(line@, components as int),
    ensures
        r == is_cosy_row_spec(line@, components as int, nv as int),
{
    let body = row_body_exec(line);
    let coeff_end = 14 * components;
    let blen = byte_len_exec(&body);
    if blen < coeff_end as u128 {
        return false;
    }
    let mut start: usize = 0;
    proof {
        lemma_char_at_prefix(body@, 0);
        assert(body@.take(0) =~= Seq::<char>::empty());
    }
    let mut i: usize = 0;
    while i < components
        invariant
            i <= components,
            coeff_end == 14 * components,
            14 * components <= usize::MAX,
            byte_len(body@) >= coeff_end,
            body@ == row_body(line@),
            start as int == char_at_byte(body@, 14 * i),
            fields_slice_ok(body@, i as int, components as int, false),
            forall|j: int|
                0 <= j < i ==> all_stars(#[trigger] cosy_field(body@, j)) || coefficient_field_ok(
                    cosy_field(body@, j),
                ),
        decreases components - i,
    {
        let b_end: usize = 14 * (i + 1);
        let end = char_index_at(&body, b_end as u128).unwrap();
        proof {
            lemma_char_at_valid(body@, 14 * (i + 1));
            lemma_char_at_mono(body@, 14 * i, 14 * (i + 1));
        }
        let field = sub_chars(&body, start, end);
        assert(field@ =~= cosy_field(body@, i as int));
        let mut stars = true;
        let mut k: usize = 0;
        while k < field.len()
            invariant
                k <= field@.len(),
                stars == forall|q: int| 0 <= q < k ==> #[trigger] field@[q] == '*',
            decreases field@.len() - k,
        {
            if field[k] != '*' {
                stars = false;
            }
            k = k + 1;
        }
        if !stars && !coefficient_chars_ok(&field) {
            return false;
        }
        start = end;
        i = i + 1;
    }
    proof {
        lemma_char_at_valid(body@, 14 * components);
    }
    let rest = sub_chars(&body, start, body.len());
    assert(rest@ =~= cosy_rest(body@, components as int));
    let t = trimmed(&rest);
    t.len() == nv && chars_all_digits(&t)
}

/// The legacy layout: at least two words, a coefficient and an exponent token.
pub open spec fn is_legacy_row_spec(line: Seq<char>, nv: int) -> bool {
    let w = words(line);
    w.len() >= 2 && coefficient_field_ok(w[0]) && exponent_token_ok(w[1], nv)
}

/// The first two words of a line, when it has two.
pub fn first_two_words(c: &Vec<char>) -> (r: Option<(Vec<char>, Vec<char>)>)
    ensures
        match r {
            Some((a, b)) => words(c@).len() >= 2 && a@ == words(c@)[0] && b@ == words(c@)[1],
            None => words(c@).len() < 2,
        },
{
    assert(c@.skip(0) =~= c@);
    match next_word(c, 0) {
        None => None,
        Some((a0, a1)) => match next_word(c, a1) {
            None => None,
            Some((b0, b1)) => {
                let a = sub_chars(c, a0, a1);
                let b = sub_chars(c, b0, b1);
                Some((a, b))
            },
        },
    }
}

/// Legacy layout detection for one line.
pub fn is_legacy_daprv_row(line: &str, nv: usize) -> (r: bool)
    ensures
        r == is_legacy_row_spec(line@, nv as int),
{
    let c = chars_of(line);
    match first_two_words(&c) {
        None => false,
        Some((a, b)) => coefficient_chars_ok(&a) && exponent_chars_ok(&b, nv),
    }
}

} // verus!

verus! {

/// One DAPRV row: a monomial and its coefficient in each printed component (patterns of
/// `0.0` where the coefficient does not exceed epsilon in magnitude).
pub struct DaprvRow {
    pub monomial: Monomial,
    pub coeffs: Vec<u64>,
}

/// Some printed component has a coefficient above epsilon in magnitude at `m`.
pub open spec fn nonzero_somewhere(array: Seq<DA>, comps: int, m: Seq<u8>, epsilon: u64) -> bool {
    exists|c: int| 0 <= c < comps && #[trigger] abs_gt_bits(real_coeff(array[c].terms@, m), epsilon)
}

/// `m` is the monomial of some term of a printed component.
pub open spec fn appears_in(array: Seq<DA>, comps: int, m: Seq<u8>) -> bool {
    exists|c: int, i: int|
        0 <= c < comps && 0 <= i < array[c].terms@.len() && #[trigger] array[c].terms@[i].monomial.exponents@
            == m
}

/// The coefficient printed for component `c` at `m`.
pub open spec fn printed_coeff(array: Seq<DA>, c: int, m: Seq<u8>, epsilon: u64) -> u64 {
    if abs_gt_bits(real_coeff(array[c].terms@, m), epsilon) {
        real_coeff(array[c].terms@, m)
    } else {
        0
    }
}

/// `e` is the exponent vector of some monomial of the list.
pub open spec fn in_list(r: Seq<Monomial>, e: Seq<u8>) -> bool {
    exists|j: int| 0 <= j < r.len() && #[trigger] r[j].exponents@ == e
}

proof fn lemma_in_list_push(r: Seq<Monomial>, x: Monomial, e: Seq<u8>)
    requires
        in_list(r, e) || x.exponents@ == e,
    ensures
        in_list(r.push(x), e),
{
    if x.exponents@ == e {
        assert(r.push(x)[r.len() as int] == x);
    } else {
        let j = choose|j: int| 0 <= j < r.len() && #[trigger] r[j].exponents@ == e;
        assert(r.push(x)[j] == r[j]);
    }
}

/// The monomials of the printed components, each once, in order of first appearance.
fn collect_monomials(array: &Vec<DA>, comps: usize) -> (r: Vec<Monomial>)
    requires
        comps <= array@.len(),
    ensures
        forall|a: int, b: int|
            0 <= a < r@.len() && 0 <= b < r@.len() && a != b ==> #[trigger] r@[a].exponents@
                != #[trigger] r@[b].exponents@,
        forall|j: int| 0 <= j < r@.len() ==> appears_in(array@, comps as int, #[trigger] r@[j].exponents@),
        forall|c: int, i: int|
            0 <= c < comps && 0 <= i < array@[c].terms@.len() ==> in_list(
                r@,
                #[trigger] array@[c].terms@[i].monomial.exponents@,
            ),
{
    let mut r: Vec<Monomial> = Vec::new();
    let mut c: usize = 0;
    while c < comps
        invariant
            c <= comps <= array@.len(),
            forall|a: int, b: int|
                0 <= a < r@.len() && 0 <= b < r@.len() && a != b ==> #[trigger] r@[a].exponents@
                    != #[trigger] r@[b].exponents@,
            forall|j: int| 0 <= j < r@.len() ==> appears_in(array@, comps as int, #[trigger] r@[j].exponents@),
            forall|c2: int, i: int|
                0 <= c2 < c && 0 <= i < array@[c2].terms@.len() ==> in_list(
                    r@,
                    #[trigger] array@[c2].terms@[i].monomial.exponents@,
                ),
        decreases comps - c,
    {
        let terms = &array[c].terms;
        let mut i: usize = 0;
        while i < terms.len()
            invariant
                c < comps <= array@.len(),
                terms == array@[c as int].terms,
                i <= terms@.len(),
                forall|a: int, b: int|
                    0 <= a < r@.len() && 0 <= b < r@.len() && a != b ==> #[trigger] r@[a].exponents@
                        != #[trigger] r@[b].exponents@,
                forall|j: int| 0 <= j < r@.len() ==> appears_in(array@, comps as int, #[trigger] r@[j].exponents@),
                forall|c2: int, i2: int|
                    0 <= c2 < c && 0 <= i2 < array@[c2].terms@.len() ==> in_list(
                        r@,
                        #[trigger] array@[c2].terms@[i2].monomial.exponents@,
                    ),
                forall|i2: int| 0 <= i2 < i ==> in_list(r@, #[trigger] terms@[i2].monomial.exponents@),
            decreases terms@.len() - i,
        {
            let m = terms[i];
            let m = m.monomial;
            let ghost old_r = r@;
            match find_monomial(&r, &m) {
                Some(idx) => {
                    assert(r@[idx as int].exponents@ == m.exponents@);
                },
                None => {
                    r.push(m);
                    proof {
                        assert(r@ == old_r.push(m));
                        assert(appears_in(array@, comps as int, m.exponents@)) by {
                            assert(array@[c as int].terms@[i as int].monomial.exponents@ == m.exponents@);
                        }
                        assert forall|j: int| 0 <= j < r@.len() implies appears_in(
                            array@,
                            comps as int,
                            #[trigger] r@[j].exponents@,
                        ) by {
                            if j < old_r.len() {
                                assert(r@[j] == old_r[j]);
                            }
                        }
                        assert forall|c2: int, i2: int|
                            0 <= c2 < c && 0 <= i2 < array@[c2].terms@.len() implies in_list(
                                r@,
                                #[trigger] array@[c2].terms@[i2].monomial.exponents@,
                            ) by {
                            lemma_in_list_push(old_r, m, array@[c2].terms@[i2].monomial.exponents@);
                        }
                        assert forall|i2: int| 0 <= i2 < i implies in_list(
                            r@,
                            #[trigger] terms@[i2].monomial.exponents@,
                        ) by {
                            lemma_in_list_push(old_r, m, terms@[i2].monomial.exponents@);
                        }
                        lemma_in_list_push(old_r, m, m.exponents@);
                    }
                },
            }
            assert(in_list(r@, terms@[i as int].monomial.exponents@));
            i = i + 1;
        }
        proof {
            assert forall|c2: int, i2: int|
                0 <= c2 < c + 1 && 0 <= i2 < array@[c2].terms@.len() implies in_list(
                    r@,
                    #[trigger] array@[c2].terms@[i2].monomial.exponents@,
                ) by {
                if c2 == c {
                    assert(terms@[i2] == array@[c2].terms@[i2]);
                }
            }
        }
        c = c + 1;
    }
    r
}

/// The printed coefficients of a monomial, and whether any exceeds epsilon.
fn row_coeffs(array: &Vec<DA>, comps: usize, m: &Monomial, epsilon: u64) -> (r: (Vec<u64>, bool))
    requires
        comps <= array@.len(),
        forall|c: int| 0 <= c < comps ==> (#[trigger] array@[c]).wf(),
    ensures
        r.0@.len() == comps,
        forall|c: int| 0 <= c < comps ==> #[trigger] r.0@[c] == printed_coeff(array@, c, m.exponents@, epsilon),
        r.1 == nonzero_somewhere(array@, comps as int, m.exponents@, epsilon),
{
    let mut v: Vec<u64> = Vec::new();
    let mut any = false;
    let mut c: usize = 0;
    while c < comps
        invariant
            c <= comps <= array@.len(),
            forall|c2: int| 0 <= c2 < comps ==> (#[trigger] array@[c2]).wf(),
            v@.len() == c,
            forall|c2: int| 0 <= c2 < c ==> #[trigger] v@[c2] == printed_coeff(array@, c2, m.exponents@, epsilon),
            any == exists|c2: int| 0 <= c2 < c && #[trigger] abs_gt_bits(real_coeff(array@[c2].terms@, m.exponents@), epsilon),
        decreases comps - c,
    {
        let g = array[c].get_coeff(m);
        if abs_gt(g, epsilon) {
            v.push(g);
            any = true;
        } else {
            v.push(0);
        }
        c = c + 1;
    }
    (v, any)
}

/// The rows DAPRV prints for the first `num_components` vectors of the array: every monomial
/// that has a coefficient above epsilon in some printed component, once, in nondecreasing
/// total order (monomials of equal order in order of first appearance).
/// Departs from COSY on ties: COSY orders monomials of equal total order by its own display
/// rank, then by exponents; that rank is not part of this library, so ties keep order of first
/// appearance and the rows depend on how the terms are stored.
pub fn format_daprv(array: &Vec<DA>, num_components: usize, config: &DaConfig) -> (rows: Vec<DaprvRow>)
    requires
        forall|c: int| 0 <= c < array@.len() ==> (#[trigger] array@[c]).wf(),
    ensures
        ({
            let comps = if num_components < array@.len() { num_components as int } else { array@.len() as int };
            &&& forall|r: int|
                0 <= r < rows@.len() ==> {
                    &&& appears_in(array@, comps, (#[trigger] rows@[r]).monomial.exponents@)
                    &&& nonzero_somewhere(array@, comps, rows@[r].monomial.exponents@, config.epsilon)
                    &&& rows@[r].coeffs@.len() == comps
                    &&& forall|c: int|
                        0 <= c < comps ==> #[trigger] rows@[r].coeffs@[c] == printed_coeff(
                            array@,
                            c,
                            rows@[r].monomial.exponents@,
                            config.epsilon,
                        )
                }
            &&& forall|c: int, i: int|
                0 <= c < comps && 0 <= i < array@[c].terms@.len() && nonzero_somewhere(
                    array@,
                    comps,
                    array@[c].terms@[i].monomial.exponents@,
                    config.epsilon,
                ) ==> exists|r: int|
                    0 <= r < rows@.len() && #[trigger] rows@[r].monomial.exponents@
                        == #[trigger] array@[c].terms@[i].monomial.exponents@
            &&& forall|a: int, b: int|
                0 <= a < rows@.len() && 0 <= b < rows@.len() && a != b ==> (#[trigger] rows@[a]).monomial.exponents@
                    != (#[trigger] rows@[b]).monomial.exponents@
            &&& forall|a: int, b: int|
                0 <= a < b < rows@.len() ==> (#[trigger] rows@[a]).monomial.order() <= (#[trigger] rows@[b]).monomial.order()
        }),
{
    let comps = if num_components < array.len() { num_components } else { array.len() };
    let monos = collect_monomials(array, comps);
    let mut max_order: u32 = 0;
    let mut j: usize = 0;
    while j < monos.len()
        invariant
            j <= monos@.len(),
            forall|k: int| 0 <= k < j ==> (#[trigger] monos@[k]).order() <= max_order,
            max_order <= 6 * 255,
        decreases monos@.len() - j,
    {
        let o = monos[j].total_order();
        if o > max_order {
            max_order = o;
        }
        j = j + 1;
    }
    let mut rows: Vec<DaprvRow> = Vec::new();
    let ghost mut src: Seq<int> = Seq::empty();
    let mut ord: u32 = 0;
    while ord <= max_order
        invariant
            comps <= array@.len(),
            comps == (if num_components < array@.len() { num_components as int } else { array@.len() as int }),
            forall|c: int| 0 <= c < array@.len() ==> (#[trigger] array@[c]).wf(),
            forall|k: int| 0 <= k < monos@.len() ==> (#[trigger] monos@[k]).order() <= max_order,
            max_order <= 6 * 255,
            ord <= max_order + 1,
            forall|a: int, b: int|
                0 <= a < monos@.len() && 0 <= b < monos@.len() && a != b ==> #[trigger] monos@[a].exponents@
                    != #[trigger] monos@[b].exponents@,
            forall|k: int| 0 <= k < monos@.len() ==> appears_in(array@, comps as int, #[trigger] monos@[k].exponents@),
            forall|c: int, i: int|
                0 <= c < comps && 0 <= i < array@[c].terms@.len() ==> in_list(
                    monos@,
                    #[trigger] array@[c].terms@[i].monomial.exponents@,
                ),
            src.len() == rows@.len(),
            forall|r: int| 0 <= r < rows@.len() ==> 0 <= #[trigger] src[r] < monos@.len(),
            forall|r: int| 0 <= r < rows@.len() ==> (#[trigger] rows@[r]).monomial == monos@[src[r]],
            forall|r: int|
                0 <= r < rows@.len() ==> {
                    &&& (#[trigger] rows@[r]).monomial.order() < ord
                    &&& nonzero_somewhere(array@, comps as int, rows@[r].monomial.exponents@, config.epsilon)
                    &&& rows@[r].coeffs@.len() == comps
                    &&& forall|c: int|
                        0 <= c < comps ==> #[trigger] rows@[r].coeffs@[c] == printed_coeff(
                            array@,
                            c,
                            rows@[r].monomial.exponents@,
                            config.epsilon,
                        )
                },
            forall|k: int|
                0 <= k < monos@.len() && (#[trigger] monos@[k]).order() < ord && nonzero_somewhere(
                    array@,
                    comps as int,
                    monos@[k].exponents@,
                    config.epsilon,
                ) ==> exists|r: int| 0 <= r < rows@.len() && src[r] == k,
            forall|a: int, b: int|
                0 <= a < b < rows@.len() ==> (#[trigger] rows@[a]).monomial.order() < (#[trigger] rows@[b]).monomial.order()
                    || (rows@[a].monomial.order() == rows@[b].monomial.order() && src[a] < src[b]),
        decreases max_order + 1 - ord,
    {
        let mut k: usize = 0;
        while k < monos.len()
            invariant
                comps <= array@.len(),
                forall|c: int| 0 <= c < array@.len() ==> (#[trigger] array@[c]).wf(),
                k <= monos@.len(),
                ord <= max_order,
                src.len() == rows@.len(),
                forall|r: int| 0 <= r < rows@.len() ==> 0 <= #[trigger] src[r] < monos@.len(),
                forall|r: int| 0 <= r < rows@.len() ==> (#[trigger] rows@[r]).monomial == monos@[src[r]],
                forall|r: int|
                    0 <= r < rows@.len() ==> {
                        &&& (#[trigger] rows@[r]).monomial.order() <= ord
                        &&& (rows@[r].monomial.order() == ord ==> src[r] < k)
                        &&& nonzero_somewhere(array@, comps as int, rows@[r].monomial.exponents@, config.epsilon)
                        &&& rows@[r].coeffs@.len() == comps
                        &&& forall|c: int|
                            0 <= c < comps ==> #[trigger] rows@[r].coeffs@[c] == printed_coeff(
                                array@,
                                c,
                                rows@[r].monomial.exponents@,
                                config.epsilon,
                            )
                    },
                forall|k2: int|
                    0 <= k2 < monos@.len() && ((#[trigger] monos@[k2]).order() < ord || (
                    monos@[k2].order() == ord && k2 < k)) && nonzero_somewhere(
                        array@,
                        comps as int,
                        monos@[k2].exponents@,
                        config.epsilon,
                    ) ==> exists|r: int| 0 <= r < rows@.len() && src[r] == k2,
                forall|a: int, b: int|
                    0 <= a < b < rows@.len() ==> (#[trigger] rows@[a]).monomial.order() < (#[trigger] rows@[b]).monomial.order()
                        || (rows@[a].monomial.order() == rows@[b].monomial.order() && src[a] < src[b]),
            decreases monos@.len() - k,
        {
            let m = monos[k];
            if m.total_order() == ord {
                let (coeffs, any) = row_coeffs(array, comps, &m, config.epsilon);
                if any {
                    let ghost old_rows = rows@;
                    let ghost old_src = src;
                    rows.push(DaprvRow { monomial: m, coeffs });
                    proof {
                        src = src.push(k as int);
                        assert forall|k2: int|
                            0 <= k2 < monos@.len() && ((#[trigger] monos@[k2]).order() < ord || (
                            monos@[k2].order() == ord && k2 < k + 1)) && nonzero_somewhere(
                                array@,
                                comps as int,
                                monos@[k2].exponents@,
                                config.epsilon,
                            ) implies exists|r: int| 0 <= r < rows@.len() && src[r] == k2 by {
                            if k2 == k {
                                assert(src[rows@.len() - 1] == k2);
                            } else {
                                let r = choose|r: int| 0 <= r < old_rows.len() && old_src[r] == k2;
                                assert(src[r] == k2);
                            }
                        }
                        assert forall|r: int| 0 <= r < rows@.len() implies (#[trigger] rows@[r]).monomial
                            == monos@[src[r]] by {
                            if r < old_rows.len() {
                                assert(rows@[r] == old_rows[r]);
                            }
                        }
                    }
                }
            }
            k = k + 1;
        }
        proof {
            assert forall|k2: int|
                0 <= k2 < monos@.len() && (#[trigger] monos@[k2]).order() < ord + 1 && nonzero_somewhere(
                    array@,
                    comps as int,
                    monos@[k2].exponents@,
                    config.epsilon,
                ) implies exists|r: int| 0 <= r < rows@.len() && src[r] == k2 by {
                assert(monos@[k2].order() < ord || (monos@[k2].order() == ord && k2 < k));
            }
        }
        ord = ord + 1;
    }
    proof {
        let comps_i = comps as int;
        assert forall|c: int, i: int|
            0 <= c < comps_i && 0 <= i < array@[c].terms@.len() && nonzero_somewhere(
                array@,
                comps_i,
                array@[c].terms@[i].monomial.exponents@,
                config.epsilon,
            ) implies exists|r: int|
                0 <= r < rows@.len() && #[trigger] rows@[r].monomial.exponents@
                    == #[trigger] array@[c].terms@[i].monomial.exponents@ by {
            let k = choose|k: int|
                0 <= k < monos@.len() && #[trigger] monos@[k].exponents@ == array@[c].terms@[i].monomial.exponents@;
            assert(monos@[k].order() < ord);
            let r = choose|r: int| 0 <= r < rows@.len() && src[r] == k;
            assert(rows@[r].monomial == monos@[k]);
        }
        assert forall|a: int, b: int|
            0 <= a < rows@.len() && 0 <= b < rows@.len() && a != b implies (#[trigger] rows@[a]).monomial.exponents@
                != (#[trigger] rows@[b]).monomial.exponents@ by {
            if a < b {
                assert(src[a] != src[b] || rows@[a].monomial.order() != rows@[b].monomial.order());
            } else {
                assert(src[a] != src[b] || rows@[a].monomial.order() != rows@[b].monomial.order());
            }
        }
    }
    rows
}

} // verus!

verus! {

/// The character printed for one exponent: its decimal digit, `?` from ten on.
pub open spec fn exponent_char(e: u8) -> char {
    if e < 10 {
        ((e as u32) + 48) as char
    } else {
        '?'
    }
}

/// The exponent column of a row: `nv` characters, slots past the sixth printing as `0`.
pub open spec fn exponent_text_spec(e: Seq<u8>, nv: int) -> Seq<char> {
    Seq::new(nv as nat, |i: int| if i < 6 { exponent_char(e[i]) } else { '0' })
}

pub fn daprv_exponent_text(m: &Monomial, nv: usize) -> (r: String)
    ensures
        r@ == exponent_text_spec(m.exponents@, nv as int),
{
    let mut s = String::new();
    let mut i: usize = 0;
    while i < nv
        invariant
            i <= nv,
            s@ == exponent_text_spec(m.exponents@, nv as int).take(i as int),
        decreases nv - i,
    {
        let ch: char = if i < 6 {
            let e = m.exponents[i];
            if e < 10 {
                ((e + 48) as u8) as char
            } else {
                '?'
            }
        } else {
            '0'
        };
        push_char(&mut s, ch);
        proof {
            assert(s@ =~= exponent_text_spec(m.exponents@, nv as int).take(i + 1));
        }
        i = i + 1;
    }
    assert(exponent_text_spec(m.exponents@, nv as int).take(nv as int) =~= exponent_text_spec(
        m.exponents@,
        nv as int,
    ));
    s
}

/// Concatenation of a list of character sequences.
pub open spec fn concat_all(parts: Seq<Seq<char>>) -> Seq<char>
    decreases parts.len(),
{
    if parts.len() == 0 {
        Seq::empty()
    } else {
        concat_all(parts.drop_last()) + parts.last()
    }
}

/// The separator line that ends a DAPRV table: a space and 78 dashes.
pub open spec fn daprv_separator_line() -> Seq<char> {
    seq![' '].add(Seq::new(78, |i: int| '-')).push('\n')
}

/// One printed row: a pad space, the coefficient fields, a space, the exponent column.
pub open spec fn daprv_row_text(fields: Seq<Seq<char>>, exps: Seq<char>) -> Seq<char> {
    seq![' '].add(concat_all(fields)).push(' ').add(exps).push('\n')
}

/// The rows' text, without the separator line.
pub open spec fn daprv_body(rows: Seq<DaprvRow>, fields: Seq<Seq<Seq<char>>>, nv: int) -> Seq<char>
    decreases rows.len(),
{
    if rows.len() == 0 {
        Seq::empty()
    } else {
        daprv_body(rows.drop_last(), fields.drop_last(), nv).add(
            daprv_row_text(fields.last(), exponent_text_spec(rows.last().monomial.exponents@, nv)),
        )
    }
}

/// Assembles the DAPRV text: for each row `r`, a pad space, the formatted coefficient fields
/// `fields[r]`, a space and the exponent column; then the separator line.
pub fn render_daprv(rows: &Vec<DaprvRow>, fields: &Vec<Vec<String>>, nv: usize) -> (r: String)
    requires
        fields@.len() == rows@.len(),
    ensures
        r@ == daprv_body(
            rows@,
            fields@.map_values(|f: Vec<String>| f@.map_values(|s: String| s@)),
            nv as int,
        ) + daprv_separator_line(),
{
    let ghost fs = fields@.map_values(|f: Vec<String>| f@.map_values(|s: String| s@));
    let mut out = String::new();
    let mut k: usize = 0;
    while k < rows.len()
        invariant
            k <= rows@.len(),
            fields@.len() == rows@.len(),
            fs == fields@.map_values(|f: Vec<String>| f@.map_values(|s: String| s@)),
            out@ == daprv_body(rows@.take(k as int), fs.take(k as int), nv as int),
        decreases rows@.len() - k,
    {
        let ghost before = out@;
        push_char(&mut out, ' ');
        let row_fields = &fields[k];
        let mut f: usize = 0;
        while f < row_fields.len()
            invariant
                f <= row_fields@.len(),
                k < fields@.len(),
                row_fields == fields@[k as int],
                out@ == before.push(' ') + concat_all(row_fields@.take(f as int).map_values(|s: String| s@)),
            decreases row_fields@.len() - f,
        {
            out.append(row_fields[f].as_str());
            proof {
                let p = row_fields@.take(f + 1).map_values(|s: String| s@);
                assert(p.drop_last() =~= row_fields@.take(f as int).map_values(|s: String| s@));
                assert(p.last() == row_fields@[f as int]@);
            }
            f = f + 1;
        }
        push_char(&mut out, ' ');
        let ex = daprv_exponent_text(&rows[k].monomial, nv);
        out.append(ex.as_str());
        push_char(&mut out, '\n');
        proof {
            assert(row_fields@.take(f as int) =~= row_fields@);
            let rt = rows@.take(k + 1);
            let ft = fs.take(k + 1);
            assert(rt.drop_last() =~= rows@.take(k as int));
            assert(ft.drop_last() =~= fs.take(k as int));
            assert(ft.last() == row_fields@.map_values(|s: String| s@));
            assert(rt.last() == rows@[k as int]);
            assert(out@ =~= daprv_body(rt, ft, nv as int));
        }
        k = k + 1;
    }
    proof {
        assert(rows@.take(k as int) =~= rows@);
        assert(fs.take(k as int) =~= fs);
    }
    let ghost body = out@;
    push_char(&mut out, ' ');
    let mut d: usize = 0;
    while d < 78
        invariant
            d <= 78,
            out@ == body.push(' ') + Seq::new(d as nat, |i: int| '-'),
        decreases 78 - d,
    {
        push_char(&mut out, '-');
        proof {
            assert(out@ =~= body.push(' ') + Seq::new((d + 1) as nat, |i: int| '-'));
        }
        d = d + 1;
    }
    push_char(&mut out, '\n');
    assert(out@ =~= body + daprv_separator_line());
    out
}

} // verus!

