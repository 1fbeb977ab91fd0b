//! Semantic highlighting of Rosy source: a scan of each line's bytes into comments,
//! strings, numbers and words, the words classed as keywords, functions, types or
//! variables. It works on any text, broken programs included.

use vstd::prelude::*;
use crate::text::{ascii_uppercase, has, views};
use crate::assign::base_lower;
use crate::transpile::RosyBaseType;

verus! {

/// The kinds of highlighted tokens, in the order of the editor legend.
#[derive(Debug, Clone, Copy, PartialEq, Eq, Structural)]
pub enum SemanticTokenType {
    Keyword,
    Function,
    Type,
    Variable,
    Number,
    String,
    Comment,
}

impl SemanticTokenType {
    pub open spec fn index_spec(self) -> u32 {
        match self {
            SemanticTokenType::Keyword => 0,
            SemanticTokenType::Function => 1,
            SemanticTokenType::Type => 2,
            SemanticTokenType::Variable => 3,
            SemanticTokenType::Number => 4,
            SemanticTokenType::String => 5,
            SemanticTokenType::Comment => 6,
        }
    }

    /// Position of the kind in the legend.
    pub fn index(self) -> (r: u32)
        ensures
            r == self.index_spec(),
    {
        match self {
            SemanticTokenType::Keyword => 0,
            SemanticTokenType::Function => 1,
            SemanticTokenType::Type => 2,
            SemanticTokenType::Variable => 3,
            SemanticTokenType::Number => 4,
            SemanticTokenType::String => 5,
            SemanticTokenType::Comment => 6,
        }
    }
}

/// A highlighted token: line, first byte column, length in bytes, kind.
#[derive(Debug, Clone, Copy)]
pub struct SemanticTokenData {
    pub line: u32,
    pub start_col: u32,
    pub length: u32,
    pub token_type: SemanticTokenType,
}

/// `u8::is_ascii_whitespace`.
pub open spec fn ascii_ws(b: u8) -> bool {
    b == 32 || b == 9 || b == 10 || b == 12 || b == 13
}

pub open spec fn digit(b: u8) -> bool {
    48 <= b <= 57
}

pub open spec fn alpha(b: u8) -> bool {
    (65 <= b <= 90) || (97 <= b <= 122)
}

pub open spec fn ident_byte(b: u8) -> bool {
    alpha(b) || digit(b) || b == 95
}

/// End of a `{ ... }` comment whose body starts at `j` with `depth` braces open (nested
/// braces count; the line's end closes it).
pub open spec fn comment_end(b: Seq<u8>, j: int, depth: int) -> int
    decreases b.len() - j,
{
    if j < 0 || j >= b.len() || depth <= 0 {
        j
    } else if b[j] == 123 {
        comment_end(b, j + 1, depth + 1)
    } else if b[j] == 125 {
        comment_end(b, j + 1, depth - 1)
    } else {
        comment_end(b, j + 1, depth)
    }
}

/// End of a string whose body starts at `j`, quoted by `q` (`''` inside single quotes).
pub open spec fn string_end(b: Seq<u8>, j: int, q: u8) -> int
    decreases b.len() - j,
{
    if j < 0 || j >= b.len() {
        j
    } else if b[j] == q {
        if q == 39 && j + 1 < b.len() && b[j + 1] == 39 {
            string_end(b, j + 2, q)
        } else {
            j + 1
        }
    } else {
        string_end(b, j + 1, q)
    }
}

/// End of the run of digits from `j`.
pub open spec fn digits_end(b: Seq<u8>, j: int) -> int
    decreases b.len() - j,
{
    if 0 <= j < b.len() && digit(b[j]) {
        digits_end(b, j + 1)
    } else {
        j
    }
}

/// A number starts at `i`: a digit, or a minus sign before a digit.
pub open spec fn number_start(b: Seq<u8>, i: int) -> bool {
    digit(b[i]) || (b[i] == 45 && i + 1 < b.len() && digit(b[i + 1]))
}

/// End of a number at `i`: sign, digits, a fraction after a point, an exponent.
pub open spec fn number_end(b: Seq<u8>, i: int) -> int {
    let i1 = if b[i] == 45 { i + 1 } else { i };
    let i2 = digits_end(b, i1);
    let i3 = if i2 < b.len() && b[i2] == 46 && i2 + 1 < b.len() && digit(b[i2 + 1]) {
        digits_end(b, i2 + 1)
    } else {
        i2
    };
    if i3 < b.len() && (b[i3] == 101 || b[i3] == 69) {
        let k = i3 + 1;
        let k2 = if k < b.len() && (b[k] == 43 || b[k] == 45) { k + 1 } else { k };
        digits_end(b, k2)
    } else {
        i3
    }
}

/// End of the identifier run from `j`.
pub open spec fn ident_end(b: Seq<u8>, j: int) -> int
    decreases b.len() - j,
{
    if 0 <= j < b.len() && ident_byte(b[j]) {
        ident_end(b, j + 1)
    } else {
        j
    }
}

/// Length of the UTF-8 encoding of a whitespace character (Unicode `White_Space`) at `j`,
/// zero when none starts there.
pub open spec fn uws_len(b: Seq<u8>, j: int) -> int {
    if j < 0 || j >= b.len() {
        0
    } else if (9 <= b[j] <= 13) || b[j] == 32 {
        1
    } else if b[j] == 0xC2 && j + 1 < b.len() && (b[j + 1] == 0x85 || b[j + 1] == 0xA0) {
        2
    } else if j + 2 < b.len() && ((b[j] == 0xE1 && b[j + 1] == 0x9A && b[j + 2] == 0x80) || (b[j] == 0xE2
        && b[j + 1] == 0x80 && ((0x80 <= b[j + 2] <= 0x8A) || b[j + 2] == 0xA8 || b[j + 2] == 0xA9 || b[j + 2]
        == 0xAF)) || (b[j] == 0xE2 && b[j + 1] == 0x81 && b[j + 2] == 0x9F) || (b[j] == 0xE3 && b[j + 1] == 0x80
        && b[j + 2] == 0x80)) {
        3
    } else {
        0
    }
}

/// Position after the whitespace characters from `j`.
pub open spec fn skip_uws(b: Seq<u8>, j: int) -> int
    decreases b.len() - j,
{
    if uws_len(b, j) > 0 {
        skip_uws(b, j + uws_len(b, j))
    } else {
        j
    }
}

/// The rest of the line from `j`, its leading whitespace trimmed, starts with `(`.
pub open spec fn paren_follows(b: Seq<u8>, j: int) -> bool {
    let k = skip_uws(b, j);
    0 <= k < b.len() && b[k] == 40
}

/// ASCII upper case of a byte.
pub open spec fn upper(c: u8) -> u8 {
    if 97 <= c <= 122 {
        (c - 32) as u8
    } else {
        c
    }
}

/// A word's text in upper case.
pub open spec fn upper_text(w: Seq<u8>) -> Seq<char> {
    Seq::new(w.len(), |i: int| upper(w[i]) as char)
}

/// Names of the type keywords.
pub open spec fn type_names() -> Seq<Seq<char>> {
    seq!["RE"@, "ST"@, "LO"@, "CM"@, "VE"@, "DA"@, "CD"@]
}

/// The kind of a word, from its upper-case text and what follows it.
pub open spec fn word_kind(u: Seq<char>, paren: bool, intrinsics: Seq<Seq<char>>, keywords: Seq<Seq<char>>) -> SemanticTokenType {
    if has(type_names(), u) {
        if paren {
            SemanticTokenType::Function
        } else {
            SemanticTokenType::Type
        }
    } else if u == "TRUE"@ || u == "FALSE"@ {
        SemanticTokenType::Keyword
    } else if has(intrinsics, u) {
        SemanticTokenType::Function
    } else if has(keywords, u) {
        SemanticTokenType::Keyword
    } else {
        SemanticTokenType::Variable
    }
}

/// The type keywords are the names of the typed base types. Each typed base type's
/// lower-case name (the one the `expect_..` accessors of untyped cells are named with) is a
/// type keyword in lower case; no two base types share that name; the untyped one has no
/// keyword; and every type keyword names a typed base type. Standing alone, not followed by
/// `(`, each of these keywords is highlighted as a type, whatever the other word lists hold.
/// The keywords, lower-cased, are those names in the order the base types are declared.
pub proof fn law_type_keywords_name_the_base_types(intrinsics: Seq<Seq<char>>, keywords: Seq<Seq<char>>)
    ensures
        type_names().map_values(|k: Seq<char>| crate::text::ascii_lowercase(k)) == seq![
            base_lower(RosyBaseType::RE), base_lower(RosyBaseType::ST), base_lower(RosyBaseType::LO),
            base_lower(RosyBaseType::CM), base_lower(RosyBaseType::VE), base_lower(RosyBaseType::DA),
            base_lower(RosyBaseType::CD)],
        forall|b1: RosyBaseType, b2: RosyBaseType|
            #![trigger base_lower(b1), base_lower(b2)]
            base_lower(b1) == base_lower(b2) ==> b1 == b2,
        forall|b: RosyBaseType|
            b != RosyBaseType::ANY ==> has(type_names(), #[trigger] ascii_uppercase(base_lower(b))),
        !(has(type_names(), ascii_uppercase(base_lower(RosyBaseType::ANY)))),
        forall|u: Seq<char>|
            #[trigger] has(type_names(), u) ==> exists|b: RosyBaseType|
                b != RosyBaseType::ANY && #[trigger] ascii_uppercase(base_lower(b)) == u,
        forall|b: RosyBaseType|
            b != RosyBaseType::ANY ==> word_kind(#[trigger] ascii_uppercase(base_lower(b)), false, intrinsics, keywords)
                == SemanticTokenType::Type,
{
    reveal_strlit("re");
    reveal_strlit("st");
    reveal_strlit("lo");
    reveal_strlit("cm");
    reveal_strlit("ve");
    reveal_strlit("da");
    reveal_strlit("cd");
    reveal_strlit("any");
    reveal_strlit("RE");
    reveal_strlit("ST");
    reveal_strlit("LO");
    reveal_strlit("CM");
    reveal_strlit("VE");
    reveal_strlit("DA");
    reveal_strlit("CD");
    let t = type_names();
    assert(ascii_uppercase("re"@) =~= "RE"@);
    assert(ascii_uppercase("st"@) =~= "ST"@);
    assert(ascii_uppercase("lo"@) =~= "LO"@);
    assert(ascii_uppercase("cm"@) =~= "CM"@);
    assert(ascii_uppercase("ve"@) =~= "VE"@);
    assert(ascii_uppercase("da"@) =~= "DA"@);
    assert(ascii_uppercase("cd"@) =~= "CD"@);
    assert(ascii_uppercase("any"@).len() == 3);
    assert(t[0] == "RE"@ && t[1] == "ST"@ && t[2] == "LO"@ && t[3] == "CM"@);
    assert(t[4] == "VE"@ && t[5] == "DA"@ && t[6] == "CD"@);
    assert(crate::text::ascii_lowercase("RE"@) =~= "re"@);
    assert(crate::text::ascii_lowercase("ST"@) =~= "st"@);
    assert(crate::text::ascii_lowercase("LO"@) =~= "lo"@);
    assert(crate::text::ascii_lowercase("CM"@) =~= "cm"@);
    assert(crate::text::ascii_lowercase("VE"@) =~= "ve"@);
    assert(crate::text::ascii_lowercase("DA"@) =~= "da"@);
    assert(crate::text::ascii_lowercase("CD"@) =~= "cd"@);
    assert(t.map_values(|k: Seq<char>| crate::text::ascii_lowercase(k)) =~= seq![
        base_lower(RosyBaseType::RE), base_lower(RosyBaseType::ST), base_lower(RosyBaseType::LO),
        base_lower(RosyBaseType::CM), base_lower(RosyBaseType::VE), base_lower(RosyBaseType::DA),
        base_lower(RosyBaseType::CD)]);
    assert forall|b1: RosyBaseType, b2: RosyBaseType|
        #![trigger base_lower(b1), base_lower(b2)]
        base_lower(b1) == base_lower(b2) implies b1 == b2 by {
        if b1 != b2 {
            let (x, y) = (base_lower(b1), base_lower(b2));
            if x.len() == y.len() {
                assert(x[0] != y[0] || x[1] != y[1]);
            }
        }
    }
    assert forall|b: RosyBaseType| b != RosyBaseType::ANY implies has(t, #[trigger] ascii_uppercase(base_lower(b))) by {
        match b {
            RosyBaseType::RE => assert(t[0] == ascii_uppercase(base_lower(b))),
            RosyBaseType::ST => assert(t[1] == ascii_uppercase(base_lower(b))),
            RosyBaseType::LO => assert(t[2] == ascii_uppercase(base_lower(b))),
            RosyBaseType::CM => assert(t[3] == ascii_uppercase(base_lower(b))),
            RosyBaseType::VE => assert(t[4] == ascii_uppercase(base_lower(b))),
            RosyBaseType::DA => assert(t[5] == ascii_uppercase(base_lower(b))),
            RosyBaseType::CD => assert(t[6] == ascii_uppercase(base_lower(b))),
            RosyBaseType::ANY => {},
        }
    }
    if has(t, ascii_uppercase(base_lower(RosyBaseType::ANY))) {
        let k = choose|k: int| 0 <= k < t.len() && #[trigger] t[k] == ascii_uppercase(base_lower(RosyBaseType::ANY));
        assert(t[k].len() == 2);
    }
    assert forall|u: Seq<char>| #[trigger] has(t, u) implies exists|b: RosyBaseType|
        b != RosyBaseType::ANY && #[trigger] ascii_uppercase(base_lower(b)) == u by {
        let k = choose|k: int| 0 <= k < t.len() && #[trigger] t[k] == u;
        if k == 0 {
            assert(ascii_uppercase(base_lower(RosyBaseType::RE)) == u);
        } else if k == 1 {
            assert(ascii_uppercase(base_lower(RosyBaseType::ST)) == u);
        } else if k == 2 {
            assert(ascii_uppercase(base_lower(RosyBaseType::LO)) == u);
        } else if k == 3 {
            assert(ascii_uppercase(base_lower(RosyBaseType::CM)) == u);
        } else if k == 4 {
            assert(ascii_uppercase(base_lower(RosyBaseType::VE)) == u);
        } else if k == 5 {
            assert(ascii_uppercase(base_lower(RosyBaseType::DA)) == u);
        } else {
            assert(ascii_uppercase(base_lower(RosyBaseType::CD)) == u);
        }
    }
}

pub proof fn lemma_ends(b: Seq<u8>, i: int)
    requires
        0 <= i < b.len(),
    ensures
        comment_end(b, i + 1, 1) > i,
        string_end(b, i + 1, b[i]) > i,
        number_start(b, i) ==> number_end(b, i) > i,
        ident_byte(b[i]) ==> ident_end(b, i) > i,
        comment_end(b, i + 1, 1) <= b.len(),
        string_end(b, i + 1, b[i]) <= b.len(),
        number_end(b, i) <= b.len(),
        ident_end(b, i) <= b.len(),
{
    lemma_comment_end_bounds(b, i + 1, 1);
    lemma_string_end_bounds(b, i + 1, b[i]);
    lemma_digits_end_bounds(b, i);
    lemma_digits_end_bounds(b, i + 1);
    lemma_ident_end_bounds(b, i);
    let i1 = if b[i] == 45 { i + 1 } else { i };
    let i2 = digits_end(b, i1);
    lemma_digits_end_bounds(b, i1);
    lemma_digits_end_bounds(b, i2 + 1);
    let i3 = if i2 < b.len() && b[i2] == 46 && i2 + 1 < b.len() && digit(b[i2 + 1]) {
        digits_end(b, i2 + 1)
    } else {
        i2
    };
    let k = i3 + 1;
    lemma_digits_end_bounds(b, k);
    lemma_digits_end_bounds(b, k + 1);
    if number_start(b, i) {
        if b[i] == 45 {
            assert(digit(b[i + 1]));
            assert(digits_end(b, i + 1) == digits_end(b, i + 2));
            lemma_digits_end_bounds(b, i + 2);
        } else {
            assert(digits_end(b, i) == digits_end(b, i + 1));
        }
    }
    if ident_byte(b[i]) {
        assert(ident_end(b, i) == ident_end(b, i + 1));
        lemma_ident_end_bounds(b, i + 1);
    }
}

pub proof fn lemma_comment_end_bounds(b: Seq<u8>, j: int, depth: int)
    requires
        0 <= j <= b.len(),
    ensures
        j <= comment_end(b, j, depth) <= b.len(),
    decreases b.len() - j,
{
    if j < b.len() && depth > 0 {
        if b[j] == 123 {
            lemma_comment_end_bounds(b, j + 1, depth + 1);
        } else if b[j] == 125 {
            lemma_comment_end_bounds(b, j + 1, depth - 1);
        } else {
            lemma_comment_end_bounds(b, j + 1, depth);
        }
    }
}

pub proof fn lemma_string_end_bounds(b: Seq<u8>, j: int, q: u8)
    requires
        0 <= j <= b.len(),
    ensures
        j <= string_end(b, j, q) <= b.len(),
    decreases b.len() - j,
{
    if j < b.len() {
        if b[j] == q {
            if q == 39 && j + 1 < b.len() && b[j + 1] == 39 {
                lemma_string_end_bounds(b, j + 2, q);
            }
        } else {
            lemma_string_end_bounds(b, j + 1, q);
        }
    }
}

pub proof fn lemma_digits_end_bounds(b: Seq<u8>, j: int)
    ensures
        0 <= j <= b.len() ==> j <= digits_end(b, j) <= b.len(),
        j > b.len() ==> digits_end(b, j) == j,
    decreases b.len() - j,
{
    if 0 <= j < b.len() && digit(b[j]) {
        lemma_digits_end_bounds(b, j + 1);
    }
}

pub proof fn lemma_ident_end_bounds(b: Seq<u8>, j: int)
    ensures
        0 <= j <= b.len() ==> j <= ident_end(b, j) <= b.len(),
    decreases b.len() - j,
{
    if 0 <= j < b.len() && ident_byte(b[j]) {
        lemma_ident_end_bounds(b, j + 1);
    }
}

/// The tokens of a line from byte `i`: `(start, length, kind)`.
pub open spec fn scan(b: Seq<u8>, i: int, intrinsics: Seq<Seq<char>>, keywords: Seq<Seq<char>>) -> Seq<(int, int, SemanticTokenType)>
    decreases b.len() - i,
{
    if i < 0 || i >= b.len() {
        Seq::empty()
    } else {
        proof {
            lemma_ends(b, i);
        }
        if ascii_ws(b[i]) {
            scan(b, i + 1, intrinsics, keywords)
        } else if b[i] == 123 {
            let e = comment_end(b, i + 1, 1);
            seq![(i, e - i, SemanticTokenType::Comment)] + scan(b, e, intrinsics, keywords)
        } else if b[i] == 39 || b[i] == 34 {
            let e = string_end(b, i + 1, b[i]);
            seq![(i, e - i, SemanticTokenType::String)] + scan(b, e, intrinsics, keywords)
        } else if number_start(b, i) {
            let e = number_end(b, i);
            seq![(i, e - i, SemanticTokenType::Number)] + scan(b, e, intrinsics, keywords)
        } else if alpha(b[i]) || b[i] == 95 {
            let e = ident_end(b, i);
            let k = word_kind(upper_text(b.subrange(i, e)), paren_follows(b, e), intrinsics, keywords);
            seq![(i, e - i, k)] + scan(b, e, intrinsics, keywords)
        } else {
            scan(b, i + 1, intrinsics, keywords)
        }
    }
}

/// The tokens of one line, numbered `line`.
pub open spec fn line_tokens(t: Seq<(int, int, SemanticTokenType)>, line: u32) -> Seq<SemanticTokenData> {
    t.map_values(
        |x: (int, int, SemanticTokenType)| SemanticTokenData { line, start_col: x.0 as u32, length: x.1 as u32, token_type: x.2 },
    )
}

fn comment_end_exec(b: &[u8], j0: usize) -> (r: usize)
    requires
        0 < j0 <= b@.len(),
    ensures
        r == comment_end(b@, j0 as int, 1),
{
    let n = b.len();
    let mut j = j0;
    let mut depth: usize = 1;
    while j < n && depth > 0
        invariant
            n == b@.len(),
            0 < j0 <= j <= n,
            depth <= j - j0 + 1,
            comment_end(b@, j0 as int, 1) == comment_end(b@, j as int, depth as int),
        decreases n - j,
    {
        if b[j] == 123 {
            depth = depth + 1;
        } else if b[j] == 125 {
            depth = depth - 1;
        }
        j = j + 1;
    }
    j
}

fn string_end_exec(b: &[u8], j0: usize, q: u8) -> (r: usize)
    requires
        j0 <= b@.len(),
    ensures
        r == string_end(b@, j0 as int, q),
{
    let n = b.len();
    let mut j = j0;
    while j < n
        invariant
            n == b@.len(),
            j0 <= j <= n,
            string_end(b@, j0 as int, q) == string_end(b@, j as int, q),
        decreases n - j,
    {
        if b[j] == q {
            if q == 39 && j + 1 < n && b[j + 1] == 39 {
                j = j + 2;
            } else {
                return j + 1;
            }
        } else {
            j = j + 1;
        }
    }
    j
}

fn digits_end_exec(b: &[u8], j0: usize) -> (r: usize)
    requires
        j0 <= b@.len(),
    ensures
        r == digits_end(b@, j0 as int),
{
    let n = b.len();
    let mut j = j0;
    while j < n && 48 <= b[j] && b[j] <= 57
        invariant
            n == b@.len(),
            j0 <= j <= n,
            digits_end(b@, j0 as int) == digits_end(b@, j as int),
        decreases n - j,
    {
        j = j + 1;
    }
    j
}

fn ident_end_exec(b: &[u8], j0: usize) -> (r: usize)
    requires
        j0 <= b@.len(),
    ensures
        r == ident_end(b@, j0 as int),
{
    let n = b.len();
    let mut j = j0;
    while j < n && ((65 <= b[j] && b[j] <= 90) || (97 <= b[j] && b[j] <= 122) || (48 <= b[j] && b[j] <= 57) || b[j] == 95)
        invariant
            n == b@.len(),
            j0 <= j <= n,
            ident_end(b@, j0 as int) == ident_end(b@, j as int),
        decreases n - j,
    {
        j = j + 1;
    }
    j
}

fn number_end_exec(b: &[u8], i: usize) -> (r: usize)
    requires
        i < b@.len(),
    ensures
        r == number_end(b@, i as int),
{
    let n = b.len();
    proof {
        lemma_digits_end_bounds(b@, i as int);
        lemma_digits_end_bounds(b@, i + 1);
    }
    let i1 = if b[i] == 45 { i + 1 } else { i };
    let i2 = digits_end_exec(b, i1);
    proof {
        lemma_digits_end_bounds(b@, i1 as int);
        lemma_digits_end_bounds(b@, i2 + 1);
    }
    let i3 = if i2 < n && b[i2] == 46 && i2 + 1 < n && 48 <= b[i2 + 1] && b[i2 + 1] <= 57 {
        digits_end_exec(b, i2 + 1)
    } else {
        i2
    };
    if i3 < n && (b[i3] == 101 || b[i3] == 69) {
        let k = i3 + 1;
        let k2 = if k < n && (b[k] == 43 || b[k] == 45) { k + 1 } else { k };
        digits_end_exec(b, k2)
    } else {
        i3
    }
}

fn uws_len_exec(b: &[u8], j: usize) -> (r: usize)
    ensures
        r == uws_len(b@, j as int),
{
    let n = b.len();
    if j >= n {
        0
    } else if (9 <= b[j] && b[j] <= 13) || b[j] == 32 {
        1
    } else if b[j] == 0xC2 && j + 1 < n && (b[j + 1] == 0x85 || b[j + 1] == 0xA0) {
        2
    } else if n - j > 2 && ((b[j] == 0xE1 && b[j + 1] == 0x9A && b[j + 2] == 0x80) || (b[j] == 0xE2 && b[j + 1] == 0x80
        && ((0x80 <= b[j + 2] && b[j + 2] <= 0x8A) || b[j + 2] == 0xA8 || b[j + 2] == 0xA9 || b[j + 2] == 0xAF)) || (b[j]
        == 0xE2 && b[j + 1] == 0x81 && b[j + 2] == 0x9F) || (b[j] == 0xE3 && b[j + 1] == 0x80 && b[j + 2] == 0x80)) {
        3
    } else {
        0
    }
}

fn paren_follows_exec(b: &[u8], j0: usize) -> (r: bool)
    requires
        j0 <= b@.len(),
    ensures
        r == paren_follows(b@, j0 as int),
{
    let n = b.len();
    let mut j = j0;
    let mut w = uws_len_exec(b, j);
    while w > 0
        invariant
            n == b@.len(),
            j0 <= j <= n,
            w == uws_len(b@, j as int),
            w > 0 ==> j + w <= n,
            skip_uws(b@, j0 as int) == skip_uws(b@, j as int),
        decreases n - j,
    {
        j = j + w;
        w = uws_len_exec(b, j);
    }
    j < n && b[j] == 40
}

/// The upper-case text of a word of ASCII letters, digits and underscores.
fn upper_word(b: &[u8], lo: usize, hi: usize) -> (r: String)
    requires
        lo <= hi <= b@.len(),
    ensures
        r@ == upper_text(b@.subrange(lo as int, hi as int)),
{
    let mut v: Vec<char> = Vec::new();
    let mut k = lo;
    while k < hi
        invariant
            lo <= k <= hi <= b@.len(),
            v@ == upper_text(b@.subrange(lo as int, k as int)),
        decreases hi - k,
    {
        let c = b[k];
        let u: u8 = if 97 <= c && c <= 122 { c - 32 } else { c };
        v.push(u as char);
        proof {
            assert(v@ =~= upper_text(b@.subrange(lo as int, k + 1)));
        }
        k = k + 1;
    }
    crate::text::string_of(&v)
}

fn member(v: &Vec<String>, u: &str) -> (r: bool)
    ensures
        r == has(views(v@), u@),
{
    let mut i: usize = 0;
    while i < v.len()
        invariant
            i <= v@.len(),
            forall|j: int| 0 <= j < i ==> v@[j]@ != u@,
        decreases v@.len() - i,
    {
        if crate::text::str_eq(v[i].as_str(), u) {
            proof {
                assert(views(v@)[i as int] == u@);
            }
            return true;
        }
        i = i + 1;
    }
    proof {
        if has(views(v@), u@) {
            let k = choose|k: int| 0 <= k < views(v@).len() && #[trigger] views(v@)[k] == u@;
            assert(v@[k]@ == u@);
        }
    }
    false
}

fn is_type_name(u: &str) -> (r: bool)
    ensures
        r == has(type_names(), u@),
{
    let names = ["RE", "ST", "LO", "CM", "VE", "DA", "CD"];
    let r = crate::text::str_eq(u, "RE") || crate::text::str_eq(u, "ST") || crate::text::str_eq(u, "LO")
        || crate::text::str_eq(u, "CM") || crate::text::str_eq(u, "VE") || crate::text::str_eq(u, "DA")
        || crate::text::str_eq(u, "CD");
    proof {
        let t = type_names();
        if r {
            if u@ == "RE"@ { assert(t[0] == u@); }
            else if u@ == "ST"@ { assert(t[1] == u@); }
            else if u@ == "LO"@ { assert(t[2] == u@); }
            else if u@ == "CM"@ { assert(t[3] == u@); }
            else if u@ == "VE"@ { assert(t[4] == u@); }
            else if u@ == "DA"@ { assert(t[5] == u@); }
            else { assert(t[6] == u@); }
        } else {
            if has(t, u@) {
                let k = choose|k: int| 0 <= k < t.len() && #[trigger] t[k] == u@;
                assert(k == 0 || k == 1 || k == 2 || k == 3 || k == 4 || k == 5 || k == 6);
            }
        }
    }
    r
}

fn word_kind_exec(u: &str, paren: bool, intrinsics: &Vec<String>, keywords: &Vec<String>) -> (r: SemanticTokenType)
    ensures
        r == word_kind(u@, paren, views(intrinsics@), views(keywords@)),
{
    if is_type_name(u) {
        if paren {
            SemanticTokenType::Function
        } else {
            SemanticTokenType::Type
        }
    } else if crate::text::str_eq(u, "TRUE") || crate::text::str_eq(u, "FALSE") {
        SemanticTokenType::Keyword
    } else if member(intrinsics, u) {
        SemanticTokenType::Function
    } else if member(keywords, u) {
        SemanticTokenType::Keyword
    } else {
        SemanticTokenType::Variable
    }
}

/// Appends the tokens of one line (its bytes, without the line break), numbered `line`.
pub fn tokenize_line(b: &[u8], line: u32, intrinsics: &Vec<String>, keywords: &Vec<String>, out: &mut Vec<SemanticTokenData>)
    ensures
        final(out)@ == old(out)@ + line_tokens(scan(b@, 0, views(intrinsics@), views(keywords@)), line),
{
    let ghost intr = views(intrinsics@);
    let ghost kw = views(keywords@);
    let ghost base = out@;
    let n = b.len();
    let mut i: usize = 0;
    proof {
        assert(base + line_tokens(scan(b@, 0, intr, kw), line) =~= out@ + line_tokens(scan(b@, i as int, intr, kw), line));
    }
    while i < n
        invariant
            n == b@.len(),
            i <= n,
            intr == views(intrinsics@),
            kw == views(keywords@),
            base + line_tokens(scan(b@, 0, intr, kw), line) == out@ + line_tokens(scan(b@, i as int, intr, kw), line),
        decreases n - i,
    {
        proof {
            lemma_ends(b@, i as int);
        }
        let c = b[i];
        let ghost before = out@;
        if c == 32 || c == 9 || c == 10 || c == 12 || c == 13 {
            i = i + 1;
        } else {
            let (e, kind) = if c == 123 {
                (comment_end_exec(b, i + 1), SemanticTokenType::Comment)
            } else if c == 39 || c == 34 {
                (string_end_exec(b, i + 1, c), SemanticTokenType::String)
            } else if (48 <= c && c <= 57) || (c == 45 && i + 1 < n && 48 <= b[i + 1] && b[i + 1] <= 57) {
                (number_end_exec(b, i), SemanticTokenType::Number)
            } else if (65 <= c && c <= 90) || (97 <= c && c <= 122) || c == 95 {
                let e = ident_end_exec(b, i);
                let u = upper_word(b, i, e);
                let p = paren_follows_exec(b, e);
                (e, word_kind_exec(u.as_str(), p, intrinsics, keywords))
            } else {
                (i + 1, SemanticTokenType::Variable)
            };
            let is_token = c == 123 || c == 39 || c == 34 || (48 <= c && c <= 57) || (c == 45 && i + 1 < n && 48 <= b[i
                + 1] && b[i + 1] <= 57) || (65 <= c && c <= 90) || (97 <= c && c <= 122) || c == 95;
            if is_token {
                out.push(SemanticTokenData { line, start_col: i as u32, length: (e - i) as u32, token_type: kind });
                proof {
                    let t = (i as int, e - i, kind);
                    assert(scan(b@, i as int, intr, kw) == seq![t] + scan(b@, e as int, intr, kw));
                    assert(line_tokens(seq![t] + scan(b@, e as int, intr, kw), line) =~= seq![SemanticTokenData {
                        line,
                        start_col: i as u32,
                        length: (e - i) as u32,
                        token_type: kind,
                    }] + line_tokens(scan(b@, e as int, intr, kw), line));
                    assert(before.push(SemanticTokenData { line, start_col: i as u32, length: (e - i) as u32, token_type: kind })
                        + line_tokens(scan(b@, e as int, intr, kw), line) =~= before + line_tokens(scan(b@, i as int, intr, kw), line));
                }
            }
            i = e;
        }
    }
    proof {
        assert(scan(b@, i as int, intr, kw) =~= Seq::<(int, int, SemanticTokenType)>::empty());
        assert(out@ + line_tokens(Seq::<(int, int, SemanticTokenType)>::empty(), line) =~= out@);
    }
}

/// Index of the first line feed byte at or after `from`.
pub open spec fn lf_index(b: Seq<u8>, from: int) -> Option<int>
    decreases b.len() - from,
{
    if from < 0 || from >= b.len() {
        None
    } else if b[from] == 10 {
        Some(from)
    } else {
        lf_index(b, from + 1)
    }
}

proof fn lemma_lf_index(b: Seq<u8>, from: int)
    requires
        from >= 0,
    ensures
        match lf_index(b, from) {
            Some(i) => from <= i < b.len() && b[i] == 10 && forall|j: int| from <= j < i ==> b[j] != 10,
            None => forall|j: int| from <= j < b.len() ==> b[j] != 10,
        },
    decreases b.len() - from,
{
    if from < b.len() && b[from] != 10 {
        lemma_lf_index(b, from + 1);
    }
}

/// A line's bytes without one carriage return before its line feed.
pub open spec fn strip_cr_bytes(l: Seq<u8>) -> Seq<u8> {
    if l.len() > 0 && l.last() == 13 {
        l.drop_last()
    } else {
        l
    }
}

/// The lines of a text's bytes, as `str::lines` splits them.
pub open spec fn byte_lines(b: Seq<u8>) -> Seq<Seq<u8>>
    decreases b.len(),
{
    if b.len() == 0 {
        Seq::empty()
    } else {
        match lf_index(b, 0) {
            None => seq![b],
            Some(i) => if 0 <= i < b.len() {
                seq![strip_cr_bytes(b.take(i))] + byte_lines(b.skip(i + 1))
            } else {
                Seq::empty()
            },
        }
    }
}

/// The tokens of the first `n` lines, line `k` numbered `k`.
pub open spec fn source_tokens(ls: Seq<Seq<u8>>, n: int, intrinsics: Seq<Seq<char>>, keywords: Seq<Seq<char>>) -> Seq<SemanticTokenData>
    decreases n,
{
    if n <= 0 {
        Seq::empty()
    } else {
        source_tokens(ls, n - 1, intrinsics, keywords) + line_tokens(scan(ls[n - 1], 0, intrinsics, keywords), (n - 1) as u32)
    }
}

fn sub_bytes(b: &[u8], lo: usize, hi: usize) -> (r: Vec<u8>)
    requires
        lo <= hi <= b@.len(),
    ensures
        r@ == b@.subrange(lo as int, hi as int),
{
    let mut r: Vec<u8> = Vec::new();
    let mut k = lo;
    while k < hi
        invariant
            lo <= k <= hi <= b@.len(),
            r@ == b@.subrange(lo as int, k as int),
        decreases hi - k,
    {
        r.push(b[k]);
        proof {
            assert(r@ =~= b@.subrange(lo as int, k + 1));
        }
        k = k + 1;
    }
    r
}

/// The highlighted tokens of a source text, line by line (lines split as `str::lines`
/// splits them, columns counted in bytes). `intrinsics` names the intrinsic functions and
/// `keywords` the language's keywords, both in upper case.
pub fn tokenize_source(source: &str, intrinsics: &Vec<String>, keywords: &Vec<String>) -> (r: Vec<SemanticTokenData>)
    ensures
        r@ == ({
            let ls = byte_lines(vstd::utf8::encode_utf8(source@));
            source_tokens(ls, ls.len() as int, views(intrinsics@), views(keywords@))
        }),
{
    let b = source.as_bytes();
    let ghost intr = views(intrinsics@);
    let ghost kw = views(keywords@);
    let ghost all = b@;
    let n = b.len();
    let mut out: Vec<SemanticTokenData> = Vec::new();
    let mut start: usize = 0;
    let mut count: usize = 0;
    let ghost mut done: Seq<Seq<u8>> = Seq::empty();
    proof {
        assert(all.skip(0) =~= all);
        assert(done + byte_lines(all.skip(0)) =~= byte_lines(all));
    }
    while start < n
        invariant
            n == b@.len(),
            all == b@,
            intr == views(intrinsics@),
            kw == views(keywords@),
            start <= n,
            count == done.len(),
            count <= start,
            done + byte_lines(all.skip(start as int)) == byte_lines(all),
            out@ == source_tokens(done, done.len() as int, intr, kw),
        decreases n - start,
    {
        let ghost rest = all.skip(start as int);
        let mut j = start;
        while j < n && b[j] != 10
            invariant
                n == b@.len(),
                start <= j <= n,
                forall|q: int| start <= q < j ==> b@[q] != 10,
            decreases n - j,
        {
            j = j + 1;
        }
        proof {
            lemma_lf_index(rest, 0);
            if j < n {
                assert(rest[j - start] == 10);
                if lf_index(rest, 0) is Some {
                    let i = lf_index(rest, 0)->0;
                    assert(i == j - start) by {
                        if i < j - start {
                            assert(rest[i] == all[start + i]);
                        }
                        if i > j - start {
                            assert(rest[j - start] == all[j as int]);
                        }
                    }
                }
            } else {
                assert forall|q: int| 0 <= q < rest.len() implies rest[q] != 10 by {
                    assert(rest[q] == all[start + q]);
                }
                if lf_index(rest, 0) is Some {
                    let i = lf_index(rest, 0)->0;
                    assert(rest[i] == all[start + i]);
                }
            }
        }
        let mut end = j;
        if j < n && end > start && b[end - 1] == 13 {
            end = end - 1;
        }
        let line = sub_bytes(b, start, end);
        let ghost lv = if j < n { strip_cr_bytes(rest.take(j - start)) } else { rest };
        proof {
            if j < n {
                assert(line@ =~= strip_cr_bytes(rest.take(j - start)));
            } else {
                assert(line@ =~= rest);
            }
        }
        tokenize_line(line.as_slice(), count as u32, intrinsics, keywords, &mut out);
        proof {
            let d2 = done.push(lv);
            assert(d2.drop_last() =~= done);
            assert(source_tokens(d2, d2.len() as int, intr, kw) == source_tokens(done, done.len() as int, intr, kw)
                + line_tokens(scan(lv, 0, intr, kw), count as u32)) by {
                assert(d2[d2.len() - 1] == lv);
                lemma_source_tokens_prefix(d2, done, done.len() as int, intr, kw);
            }
            if j < n {
                assert(rest.skip(j - start + 1) =~= all.skip(j + 1));
                assert(byte_lines(rest) == seq![lv] + byte_lines(all.skip(j + 1)));
                assert(d2 + byte_lines(all.skip(j + 1)) =~= done + (seq![lv] + byte_lines(all.skip(j + 1))));
            } else {
                assert(byte_lines(rest) == seq![lv]);
                assert(all.skip(n as int) =~= Seq::<u8>::empty());
                assert(d2 + byte_lines(all.skip(n as int)) =~= done + seq![lv]);
            }
            done = d2;
        }
        count = count + 1;
        start = if j < n { j + 1 } else { n };
    }
    proof {
        assert(all.skip(start as int) =~= Seq::<u8>::empty());
        assert(done + Seq::<Seq<u8>>::empty() =~= done);
    }
    out
}

proof fn lemma_source_tokens_prefix(a: Seq<Seq<u8>>, b: Seq<Seq<u8>>, n: int, intr: Seq<Seq<char>>, kw: Seq<Seq<char>>)
    requires
        0 <= n <= b.len(),
        n <= a.len(),
        forall|k: int| 0 <= k < n ==> a[k] == b[k],
    ensures
        source_tokens(a, n, intr, kw) == source_tokens(b, n, intr, kw),
    decreases n,
{
    if n > 0 {
        lemma_source_tokens_prefix(a, b, n - 1, intr, kw);
    }
}

/// Upper-case names of the intrinsic functions.
pub open spec fn intrinsic_names() -> Seq<Seq<char>> {
    seq!["ABS"@, "ACOS"@, "ASIN"@, "ATAN"@, "CD"@, "CM"@, "CMPLX"@, "CONJ"@, "CONS"@, "COS"@, "COSH"@, "DA"@, "ERF"@, "EXP"@, "IMAG"@, "INT"@, "ISRT"@, "ISRT3"@, "LCD"@, "LCM"@, "LDA"@, "LENGTH"@, "LLO"@, "LO"@, "LOG"@, "LRE"@, "LST"@, "LTRIM"@, "LVE"@, "NINT"@, "NORM"@, "RE"@, "REAL"@, "SIN"@, "SINH"@, "SQR"@, "SQRT"@, "ST"@, "TAN"@, "TANH"@, "TRIM"@, "TYPE"@, "VARMEM"@, "VARPOI"@, "VE"@, "VMAX"@, "VMIN"@, "WERF"@]
}

/// Upper-case names of the intrinsic functions.
pub fn intrinsic_functions() -> (r: Vec<String>)
    ensures
        views(r@) == intrinsic_names(),
{
    let names = [
        "ABS", "ACOS", "ASIN", "ATAN", "CD", "CM", "CMPLX", "CONJ", "CONS", "COS", "COSH", "DA", "ERF",
        "EXP", "IMAG", "INT", "ISRT", "ISRT3", "LCD", "LCM", "LDA", "LENGTH", "LLO", "LO", "LOG",
        "LRE", "LST", "LTRIM", "LVE", "NINT", "NORM", "RE", "REAL", "SIN", "SINH", "SQR", "SQRT", "ST",
        "TAN", "TANH", "TRIM", "TYPE", "VARMEM", "VARPOI", "VE", "VMAX", "VMIN", "WERF",
    ];
    let mut r: Vec<String> = Vec::new();
    let mut i: usize = 0;
    proof {
        assert(names@ =~= seq!["ABS", "ACOS", "ASIN", "ATAN", "CD", "CM", "CMPLX", "CONJ", "CONS", "COS", "COSH", "DA", "ERF", "EXP", "IMAG", "INT", "ISRT", "ISRT3", "LCD", "LCM", "LDA", "LENGTH", "LLO", "LO", "LOG", "LRE", "LST", "LTRIM", "LVE", "NINT", "NORM", "RE", "REAL", "SIN", "SINH", "SQR", "SQRT", "ST", "TAN", "TANH", "TRIM", "TYPE", "VARMEM", "VARPOI", "VE", "VMAX", "VMIN", "WERF"]);
    }
    while i < 48
        invariant
            i <= 48,
            names@ == seq!["ABS", "ACOS", "ASIN", "ATAN", "CD", "CM", "CMPLX", "CONJ", "CONS", "COS", "COSH", "DA", "ERF", "EXP", "IMAG", "INT", "ISRT", "ISRT3", "LCD", "LCM", "LDA", "LENGTH", "LLO", "LO", "LOG", "LRE", "LST", "LTRIM", "LVE", "NINT", "NORM", "RE", "REAL", "SIN", "SINH", "SQR", "SQRT", "ST", "TAN", "TANH", "TRIM", "TYPE", "VARMEM", "VARPOI", "VE", "VMAX", "VMIN", "WERF"],
            views(r@) == names@.map_values(|x: &str| x@).take(i as int),
        decreases 48 - i,
    {
        let nm: &str = names[i];
        let st = nm.to_string();
        let ghost before = views(r@);
        r.push(st);
        proof {
            assert(nm == names@[i as int]);
            assert(views(r@) =~= before.push(st@));
            assert(names@.map_values(|x: &str| x@).take(i + 1) =~= names@.map_values(|x: &str| x@).take(i as int).push(names@[i as int]@));
        }
        i = i + 1;
    }
    proof {
        assert(names@.map_values(|x: &str| x@).take(48) =~= intrinsic_names());
    }
    r
}

} // verus!
