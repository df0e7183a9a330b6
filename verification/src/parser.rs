use vstd::prelude::*;

use crate::ast::{
    formula_view, object_name, prop_name, term_view, terms_view_of, Formula, FormulaV, Sort,
    Statement, StatementV, Term, TermV,
};
use crate::engine::Universe;
use crate::text::{spells, strings_view};

verus! {

// ---------------------------------------------------------------------------
// Tokens
// ---------------------------------------------------------------------------

/// A lexical token.
#[derive(Debug)]
pub enum Token {
    Ident(String),
    Symbol(String),
    Keyword(String),
}

/// A token as a mathematical value.
pub enum TokenV {
    Ident(Seq<char>),
    Symbol(Seq<char>),
    Keyword(Seq<char>),
}

impl View for Token {
    type V = TokenV;

    open spec fn view(&self) -> TokenV {
        match self {
            Token::Ident(s) => TokenV::Ident(s@),
            Token::Symbol(s) => TokenV::Symbol(s@),
            Token::Keyword(s) => TokenV::Keyword(s@),
        }
    }
}

/// The models of a list of tokens.
pub open spec fn tokens_view(ts: Seq<Token>) -> Seq<TokenV> {
    Seq::new(ts.len(), |i: int| ts[i]@)
}

impl Token {
    /// A copy of this token.
    pub fn duplicate(&self) -> (r: Token)
        ensures
            r@ == self@,
    {
        match self {
            Token::Ident(s) => Token::Ident(s.clone()),
            Token::Symbol(s) => Token::Symbol(s.clone()),
            Token::Keyword(s) => Token::Keyword(s.clone()),
        }
    }

    /// Whether two tokens are equal.
    pub fn same(&self, other: &Token) -> (b: bool)
        ensures
            b == (self@ == other@),
    {
        match (self, other) {
            (Token::Ident(a), Token::Ident(b)) => *a == *b,
            (Token::Symbol(a), Token::Symbol(b)) => *a == *b,
            (Token::Keyword(a), Token::Keyword(b)) => *a == *b,
            _ => false,
        }
    }
}

impl Clone for Token {
    fn clone(&self) -> (r: Token)
        ensures
            r@ == self@,
    {
        self.duplicate()
    }
}

impl PartialEq for Token {
    fn eq(&self, other: &Token) -> (b: bool) {
        self.same(other)
    }
}

impl vstd::std_specs::cmp::PartialEqSpecImpl for Token {
    open spec fn obeys_eq_spec() -> bool {
        true
    }

    open spec fn eq_spec(&self, other: &Token) -> bool {
        self@ == other@
    }
}

// ---------------------------------------------------------------------------
// Characters
// ---------------------------------------------------------------------------

/// Whether `c` is alphanumeric in the sense of `char::is_alphanumeric`
/// (Unicode `Alphabetic` or `Numeric`).
pub uninterp spec fn alphanumeric(c: char) -> bool;

/// Whether `c` is an ASCII letter or digit.
pub open spec fn ascii_letter_or_digit(c: char) -> bool {
    ('a' <= c && c <= 'z') || ('A' <= c && c <= 'Z') || ('0' <= c && c <= '9')
}

/// `char::is_alphanumeric`: true for Unicode alphabetic or numeric
/// characters.  Stated here: the result is the named property of `c`, and on
/// ASCII characters it holds exactly of the letters and digits, as the
/// documentation of `is_alphabetic` and `is_numeric` gives.  What it is on
/// other characters is left to the Unicode tables.
#[verifier::external_body]
fn is_alphanumeric(c: char) -> (b: bool)
    ensures
        b == alphanumeric(c),
        (c as u32) < 128 ==> (b == ascii_letter_or_digit(c)),
{
    c.is_alphanumeric()
}

/// Characters that separate tokens.
pub open spec fn is_space(c: char) -> bool {
    c == ' ' || c == '\t' || c == '\n' || c == '\r'
}

/// Characters that are tokens on their own.
pub open spec fn is_single_symbol(c: char) -> bool {
    c == '(' || c == ')' || c == ':' || c == ',' || c == '∀' || c == '∃' || c == '∧' || c == '→'
        || c == '=' || c == '∨' || c == '¬' || c == '!' || c == '|'
}

/// Whether `c` is alphanumeric: on ASCII, a letter or digit; otherwise as
/// the Unicode tables say.
pub open spec fn is_alnum(c: char) -> bool {
    if (c as u32) < 128 {
        ascii_letter_or_digit(c)
    } else {
        alphanumeric(c)
    }
}

/// Characters that may appear in an identifier.
pub open spec fn is_word_char(c: char) -> bool {
    is_alnum(c) || c == '_'
}

// ---------------------------------------------------------------------------
// Lexing (mathematical definition)
// ---------------------------------------------------------------------------

/// The end of the identifier that starts at `i`.
pub open spec fn word_end(s: Seq<char>, i: int) -> int
    decreases s.len() - i,
{
    if i < 0 || i >= s.len() || !is_word_char(s[i]) {
        i
    } else {
        word_end(s, i + 1)
    }
}

/// The index of the first line break at or after `i` (or the end).
pub open spec fn line_end(s: Seq<char>, i: int) -> int
    decreases s.len() - i,
{
    if i < 0 || i >= s.len() || s[i] == '\n' {
        i
    } else {
        line_end(s, i + 1)
    }
}

pub open spec fn kw_class() -> Seq<char> {
    seq!['c', 'l', 'a', 's', 's']
}

pub open spec fn kw_where() -> Seq<char> {
    seq!['w', 'h', 'e', 'r', 'e']
}

pub open spec fn kw_type() -> Seq<char> {
    seq!['T', 'y', 'p', 'e']
}

pub open spec fn kw_forall() -> Seq<char> {
    seq!['f', 'o', 'r', 'a', 'l', 'l']
}

pub open spec fn kw_exists() -> Seq<char> {
    seq!['e', 'x', 'i', 's', 't', 's']
}

pub open spec fn kw_import() -> Seq<char> {
    seq!['i', 'm', 'p', 'o', 'r', 't']
}

pub open spec fn kw_not() -> Seq<char> {
    seq!['n', 'o', 't']
}

/// The token a word stands for: a keyword, a connective written as a word
/// (`and`, `or`, `not`), or an identifier.
pub open spec fn word_token(w: Seq<char>) -> TokenV {
    if w == kw_class() || w == kw_where() || w == kw_type() || w == prop_name() || w
        == kw_forall() || w == kw_exists() || w == kw_import() {
        TokenV::Keyword(w)
    } else if w == seq!['a', 'n', 'd'] {
        TokenV::Symbol(seq!['∧'])
    } else if w == seq!['o', 'r'] {
        TokenV::Symbol(seq!['∨'])
    } else if w == kw_not() {
        TokenV::Symbol(seq!['¬'])
    } else {
        TokenV::Ident(w)
    }
}

/// The tokens of `s` from index `i` on.  Spaces separate tokens; `->`
/// is `→`; `--` starts a comment that runs to the end of the line; a lone
/// `-` and any other character that starts no token are skipped.
pub open spec fn lex_from(s: Seq<char>, i: int) -> Seq<TokenV>
    decreases s.len() - i,
{
    if i < 0 || i >= s.len() {
        Seq::empty()
    } else {
        let c = s[i];
        if is_space(c) {
            lex_from(s, i + 1)
        } else if is_single_symbol(c) {
            seq![TokenV::Symbol(seq![c])] + lex_from(s, i + 1)
        } else if c == '-' {
            if i + 1 < s.len() && s[i + 1] == '>' {
                seq![TokenV::Symbol(seq!['→'])] + lex_from(s, i + 2)
            } else if i + 1 < s.len() && s[i + 1] == '-' {
                proof {
                    lemma_line_end_bounds(s, i + 1);
                }
                lex_from(s, line_end(s, i + 1))
            } else {
                lex_from(s, i + 1)
            }
        } else if is_word_char(c) {
            proof {
                lemma_word_end_bounds(s, i);
            }
            let j = word_end(s, i);
            if j > i {
                seq![word_token(s.subrange(i, j))] + lex_from(s, j)
            } else {
                Seq::empty()
            }
        } else {
            lex_from(s, i + 1)
        }
    }
}

/// The tokens of `s`.
pub open spec fn lex_spec(s: Seq<char>) -> Seq<TokenV> {
    lex_from(s, 0)
}

pub proof fn lemma_word_end_bounds(s: Seq<char>, i: int)
    requires
        0 <= i <= s.len(),
    ensures
        i <= word_end(s, i) <= s.len(),
        forall|k: int| i <= k < word_end(s, i) ==> is_word_char(#[trigger] s[k]),
        word_end(s, i) < s.len() ==> !is_word_char(s[word_end(s, i)]),
    decreases s.len() - i,
{
    if i < s.len() && is_word_char(s[i]) {
        lemma_word_end_bounds(s, i + 1);
    }
}

pub proof fn lemma_line_end_bounds(s: Seq<char>, i: int)
    requires
        0 <= i <= s.len(),
    ensures
        i <= line_end(s, i) <= s.len(),
        forall|k: int| i <= k < line_end(s, i) ==> #[trigger] s[k] != '\n',
        line_end(s, i) < s.len() ==> s[line_end(s, i)] == '\n',
    decreases s.len() - i,
{
    if i < s.len() && s[i] != '\n' {
        lemma_line_end_bounds(s, i + 1);
    }
}

proof fn lemma_word_end_shift(p: Seq<char>, b: Seq<char>, j: int)
    requires
        0 <= j <= b.len(),
    ensures
        word_end(p + b, p.len() + j) == p.len() + word_end(b, j),
    decreases b.len() - j,
{
    let s = p + b;
    if j < b.len() {
        assert(s[p.len() + j] == b[j]);
        if is_word_char(b[j]) {
            lemma_word_end_shift(p, b, j + 1);
        }
    }
}

proof fn lemma_line_end_shift(p: Seq<char>, b: Seq<char>, j: int)
    requires
        0 <= j <= b.len(),
    ensures
        line_end(p + b, p.len() + j) == p.len() + line_end(b, j),
    decreases b.len() - j,
{
    let s = p + b;
    if j < b.len() {
        assert(s[p.len() + j] == b[j]);
        if b[j] != '\n' {
            lemma_line_end_shift(p, b, j + 1);
        }
    }
}

/// Lexing from a position reads only what follows it.
proof fn lemma_lex_shift(p: Seq<char>, b: Seq<char>, j: int)
    requires
        0 <= j,
    ensures
        lex_from(p + b, p.len() + j) == lex_from(b, j),
    decreases b.len() - j,
{
    let s = p + b;
    let i = p.len() + j;
    if j < b.len() {
        assert(s[i] == b[j]);
        let c = b[j];
        if is_space(c) {
            lemma_lex_shift(p, b, j + 1);
        } else if is_single_symbol(c) {
            lemma_lex_shift(p, b, j + 1);
        } else if c == '-' {
            if j + 1 < b.len() {
                assert(s[i + 1] == b[j + 1]);
            }
            if j + 1 < b.len() && b[j + 1] == '>' {
                lemma_lex_shift(p, b, j + 2);
            } else if j + 1 < b.len() && b[j + 1] == '-' {
                lemma_line_end_shift(p, b, j + 1);
                lemma_line_end_bounds(b, j + 1);
                lemma_lex_shift(p, b, line_end(b, j + 1));
            } else {
                lemma_lex_shift(p, b, j + 1);
            }
        } else if is_word_char(c) {
            lemma_word_end_shift(p, b, j);
            lemma_word_end_bounds(b, j);
            let k = word_end(b, j);
            assert(s.subrange(i, p.len() + k) =~= b.subrange(j, k));
            lemma_lex_shift(p, b, k);
        } else {
            lemma_lex_shift(p, b, j + 1);
        }
    }
}

proof fn lemma_word_end_prefix(a: Seq<char>, s: Seq<char>, i: int)
    requires
        0 <= i <= a.len(),
        a.len() < s.len(),
        s.take(a.len() as int) == a,
        !is_word_char(s[a.len() as int]),
    ensures
        word_end(s, i) == word_end(a, i),
    decreases a.len() - i,
{
    if i < a.len() {
        assert(s[i] == a[i]);
        if is_word_char(a[i]) {
            lemma_word_end_prefix(a, s, i + 1);
        }
    }
}

proof fn lemma_line_end_prefix(a: Seq<char>, s: Seq<char>, i: int)
    requires
        0 <= i <= a.len(),
        a.len() < s.len(),
        s.take(a.len() as int) == a,
        s[a.len() as int] == '\n',
    ensures
        line_end(s, i) == line_end(a, i),
    decreases a.len() - i,
{
    if i < a.len() {
        assert(s[i] == a[i]);
        if a[i] != '\n' {
            lemma_line_end_prefix(a, s, i + 1);
        }
    }
}

proof fn lemma_lex_lines_from(a: Seq<char>, b: Seq<char>, i: int)
    requires
        0 <= i <= a.len(),
    ensures
        lex_from(a + seq!['\n'] + b, i) == lex_from(a, i) + lex_spec(b),
    decreases a.len() - i,
{
    let p = a + seq!['\n'];
    let s = p + b;
    assert(s.take(a.len() as int) =~= a);
    assert(s[a.len() as int] == '\n');
    if i == a.len() {
        lemma_lex_shift(p, b, 0);
        assert(lex_from(a, i) + lex_spec(b) =~= lex_spec(b));
    } else {
        let c = a[i];
        assert(s[i] == c);
        if i + 1 < a.len() {
            assert(s[i + 1] == a[i + 1]);
        }
        if is_space(c) {
            lemma_lex_lines_from(a, b, i + 1);
        } else if is_single_symbol(c) {
            lemma_lex_lines_from(a, b, i + 1);
            assert(seq![TokenV::Symbol(seq![c])] + (lex_from(a, i + 1) + lex_spec(b)) =~= (seq![
                TokenV::Symbol(seq![c]),
            ] + lex_from(a, i + 1)) + lex_spec(b));
        } else if c == '-' {
            if i + 1 < a.len() && a[i + 1] == '>' {
                lemma_lex_lines_from(a, b, i + 2);
                assert(seq![TokenV::Symbol(seq!['→'])] + (lex_from(a, i + 2) + lex_spec(b)) =~= (seq![
                    TokenV::Symbol(seq!['→']),
                ] + lex_from(a, i + 2)) + lex_spec(b));
            } else if i + 1 < a.len() && a[i + 1] == '-' {
                lemma_line_end_prefix(a, s, i + 1);
                lemma_line_end_bounds(a, i + 1);
                lemma_lex_lines_from(a, b, line_end(a, i + 1));
            } else {
                lemma_lex_lines_from(a, b, i + 1);
            }
        } else if is_word_char(c) {
            lemma_word_end_prefix(a, s, i);
            lemma_word_end_bounds(a, i);
            let k = word_end(a, i);
            assert(s.subrange(i, k) =~= a.subrange(i, k));
            lemma_lex_lines_from(a, b, k);
            let t = seq![word_token(a.subrange(i, k))];
            assert(t + (lex_from(a, k) + lex_spec(b)) =~= (t + lex_from(a, k)) + lex_spec(b));
        } else {
            lemma_lex_lines_from(a, b, i + 1);
        }
    }
}

proof fn lemma_word_end_concat(x: Seq<char>, y: Seq<char>, i: int)
    requires
        0 <= i <= x.len(),
        i == x.len() ==> x.len() > 0 && is_word_char(x.last()),
        x.len() > 0 && y.len() > 0 && is_word_char(x.last()) ==> !is_word_char(y[0]),
    ensures
        word_end(x + y, i) == word_end(x, i),
    decreases x.len() - i,
{
    let s = x + y;
    if i < x.len() {
        assert(s[i] == x[i]);
        if is_word_char(x[i]) {
            if i + 1 == x.len() {
                assert(x.last() == x[i]);
            }
            lemma_word_end_concat(x, y, i + 1);
        }
    } else if y.len() > 0 {
        assert(s[i] == y[0]);
    }
}

proof fn lemma_lex_concat_from(x: Seq<char>, y: Seq<char>, i: int)
    requires
        0 <= i <= x.len(),
        forall|k: int| 0 <= k < x.len() ==> #[trigger] x[k] != '-',
        x.len() > 0 && y.len() > 0 && is_word_char(x.last()) ==> !is_word_char(y[0]),
    ensures
        lex_from(x + y, i) == lex_from(x, i) + lex_spec(y),
    decreases x.len() - i,
{
    let s = x + y;
    if i == x.len() {
        lemma_lex_shift(x, y, 0);
        assert(lex_from(x, i) + lex_spec(y) =~= lex_spec(y));
    } else {
        let c = x[i];
        assert(s[i] == c);
        if i + 1 < x.len() {
            assert(s[i + 1] == x[i + 1]);
        }
        if is_space(c) {
            lemma_lex_concat_from(x, y, i + 1);
        } else if is_single_symbol(c) {
            lemma_lex_concat_from(x, y, i + 1);
            assert(seq![TokenV::Symbol(seq![c])] + (lex_from(x, i + 1) + lex_spec(y)) =~= (seq![
                TokenV::Symbol(seq![c]),
            ] + lex_from(x, i + 1)) + lex_spec(y));
        } else if is_word_char(c) {
            lemma_word_end_concat(x, y, i);
            lemma_word_end_bounds(x, i);
            let k = word_end(x, i);
            if k == x.len() {
                lemma_word_end_bounds(x, i);
                assert(is_word_char(x[k - 1]));
                assert(x.last() == x[k - 1]);
            }
            assert(s.subrange(i, k) =~= x.subrange(i, k));
            lemma_lex_concat_from(x, y, k);
            let t = seq![word_token(x.subrange(i, k))];
            assert(t + (lex_from(x, k) + lex_spec(y)) =~= (t + lex_from(x, k)) + lex_spec(y));
        } else {
            lemma_lex_concat_from(x, y, i + 1);
        }
    }
}

/// Lexing a concatenation gives the tokens of each part, when the first
/// part has no `-` (which could start a comment or an arrow) and the two do
/// not join into one identifier.
pub proof fn lemma_lex_concat(x: Seq<char>, y: Seq<char>)
    requires
        forall|k: int| 0 <= k < x.len() ==> #[trigger] x[k] != '-',
        x.len() > 0 && y.len() > 0 && is_word_char(x.last()) ==> !is_word_char(y[0]),
    ensures
        lex_spec(x + y) == lex_spec(x) + lex_spec(y),
{
    lemma_lex_concat_from(x, y, 0);
}

/// No token or comment runs across a line break: lexing two lines joined
/// by a line break gives the tokens of the first line, then those of the
/// second.
pub proof fn lemma_lex_lines(a: Seq<char>, b: Seq<char>)
    ensures
        lex_spec(a + seq!['\n'] + b) == lex_spec(a) + lex_spec(b),
{
    lemma_lex_lines_from(a, b, 0);
}

// ---------------------------------------------------------------------------
// Lexing (code)
// ---------------------------------------------------------------------------

fn is_one_of(c: char) -> (b: bool)
    ensures
        b == is_single_symbol(c),
{
    c == '(' || c == ')' || c == ':' || c == ',' || c == '∀' || c == '∃' || c == '∧' || c == '→'
        || c == '=' || c == '∨' || c == '¬' || c == '!' || c == '|'
}

fn symbol_text(c: char) -> (s: &'static str)
    requires
        is_single_symbol(c),
    ensures
        s@ == seq![c],
{
    if c == '(' {
        proof {
            reveal_strlit("(");
            assert("("@ =~= seq!['(']);
        }
        "("
    } else if c == ')' {
        proof {
            reveal_strlit(")");
            assert(")"@ =~= seq![')']);
        }
        ")"
    } else if c == ':' {
        proof {
            reveal_strlit(":");
            assert(":"@ =~= seq![':']);
        }
        ":"
    } else if c == ',' {
        proof {
            reveal_strlit(",");
            assert(","@ =~= seq![',']);
        }
        ","
    } else if c == '∀' {
        proof {
            reveal_strlit("∀");
            assert("∀"@ =~= seq!['∀']);
        }
        "∀"
    } else if c == '∃' {
        proof {
            reveal_strlit("∃");
            assert("∃"@ =~= seq!['∃']);
        }
        "∃"
    } else if c == '∧' {
        proof {
            reveal_strlit("∧");
            assert("∧"@ =~= seq!['∧']);
        }
        "∧"
    } else if c == '→' {
        proof {
            reveal_strlit("→");
            assert("→"@ =~= seq!['→']);
        }
        "→"
    } else if c == '=' {
        proof {
            reveal_strlit("=");
            assert("="@ =~= seq!['=']);
        }
        "="
    } else if c == '∨' {
        proof {
            reveal_strlit("∨");
            assert("∨"@ =~= seq!['∨']);
        }
        "∨"
    } else if c == '¬' {
        proof {
            reveal_strlit("¬");
            assert("¬"@ =~= seq!['¬']);
        }
        "¬"
    } else if c == '!' {
        proof {
            reveal_strlit("!");
            assert("!"@ =~= seq!['!']);
        }
        "!"
    } else {
        proof {
            reveal_strlit("|");
            assert("|"@ =~= seq!['|']);
        }
        "|"
    }
}

fn symbol_token(c: char) -> (t: Token)
    requires
        is_single_symbol(c),
    ensures
        t@ == TokenV::Symbol(seq![c]),
{
    Token::Symbol(String::from_str(symbol_text(c)))
}


fn word_to_token(w: String) -> (t: Token)
    ensures
        t@ == word_token(w@),
{
    proof {
        reveal_strlit("class");
        reveal_strlit("where");
        reveal_strlit("Type");
        reveal_strlit("Prop");
        reveal_strlit("forall");
        reveal_strlit("exists");
        reveal_strlit("import");
        reveal_strlit("and");
        reveal_strlit("or");
        reveal_strlit("not");
        reveal_strlit("∧");
        reveal_strlit("∨");
        reveal_strlit("¬");
        assert("class"@ =~= kw_class());
        assert("where"@ =~= kw_where());
        assert("Type"@ =~= kw_type());
        assert("Prop"@ =~= prop_name());
        assert("forall"@ =~= kw_forall());
        assert("exists"@ =~= kw_exists());
        assert("import"@ =~= kw_import());
        assert("and"@ =~= seq!['a', 'n', 'd']);
        assert("or"@ =~= seq!['o', 'r']);
        assert("not"@ =~= kw_not());
        assert("∧"@ =~= seq!['∧']);
        assert("∨"@ =~= seq!['∨']);
        assert("¬"@ =~= seq!['¬']);
    }
    if spells(&w, "class") || spells(&w, "where") || spells(&w, "Type") || spells(&w, "Prop")
        || spells(&w, "forall") || spells(&w, "exists") || spells(&w, "import") {
        Token::Keyword(w)
    } else if spells(&w, "and") {
        Token::Symbol(String::from_str("∧"))
    } else if spells(&w, "or") {
        Token::Symbol(String::from_str("∨"))
    } else if spells(&w, "not") {
        Token::Symbol(String::from_str("¬"))
    } else {
        Token::Ident(w)
    }
}

/// Split `input` into tokens.
pub fn lex(input: &str) -> (tokens: Vec<Token>)
    ensures
        tokens_view(tokens@) == lex_spec(input@),
{
    let ghost s = input@;
    let n = input.unicode_len();
    let mut tokens: Vec<Token> = Vec::new();
    let mut i: usize = 0;
    while i < n
        invariant
            s == input@,
            n == s.len(),
            i <= n,
            tokens_view(tokens@) + lex_from(s, i as int) == lex_spec(s),
        decreases n - i,
    {
        let c = input.get_char(i);
        let ghost before = tokens_view(tokens@);
        if c == ' ' || c == '\t' || c == '\n' || c == '\r' {
            i = i + 1;
        } else if is_one_of(c) {
            tokens.push(symbol_token(c));
            proof {
                assert(tokens_view(tokens@) =~= before.push(TokenV::Symbol(seq![c])));
                assert(before + lex_from(s, i as int) =~= tokens_view(tokens@) + lex_from(s, i + 1));
            }
            i = i + 1;
        } else if c == '-' {
            if i + 1 < n && input.get_char(i + 1) == '>' {
                proof {
                    reveal_strlit("→");
                    assert("→"@ =~= seq!['→']);
                }
                tokens.push(Token::Symbol(String::from_str("→")));
                proof {
                    assert(tokens_view(tokens@) =~= before.push(TokenV::Symbol(seq!['→'])));
                    assert(before + lex_from(s, i as int) =~= tokens_view(tokens@) + lex_from(s, i + 2));
                }
                i = i + 2;
            } else if i + 1 < n && input.get_char(i + 1) == '-' {
                let mut j = i + 1;
                proof {
                    lemma_line_end_bounds(s, i + 1);
                }
                while j < n && input.get_char(j) != '\n'
                    invariant
                        s == input@,
                        n == s.len(),
                        i + 1 <= j <= n,
                        line_end(s, i + 1) == line_end(s, j as int),
                    decreases n - j,
                {
                    j = j + 1;
                }
                i = j;
            } else {
                i = i + 1;
            }
        } else if is_alphanumeric(c) || c == '_' {
            proof {
                lemma_word_end_bounds(s, i as int);
            }
            let mut j = i;
            while j < n && (is_alphanumeric(input.get_char(j)) || input.get_char(j) == '_')
                invariant
                    s == input@,
                    n == s.len(),
                    i <= j <= n,
                    word_end(s, i as int) == word_end(s, j as int),
                decreases n - j,
            {
                j = j + 1;
            }
            let w = String::from_str(input.substring_char(i, j));
            tokens.push(word_to_token(w));
            proof {
                assert(j > i);
                assert(tokens_view(tokens@) =~= before.push(word_token(s.subrange(i as int, j as int))));
                assert(before + lex_from(s, i as int) =~= tokens_view(tokens@) + lex_from(s, j as int));
            }
            i = j;
        } else {
            i = i + 1;
        }
    }
    proof {
        assert(tokens_view(tokens@) =~= tokens_view(tokens@) + lex_from(s, i as int));
    }
    tokens
}


// ---------------------------------------------------------------------------
// Parsing (mathematical definition)
// ---------------------------------------------------------------------------
//
// Each function takes the tokens, a position and the names of the declared
// constants, and gives what was parsed (if anything) and the position after.
//
// Precedence (low → high):
//   →  (right-associative)
//   ∨
//   ∧
//   ¬ / atoms / quantifiers

/// The token at `p`, if any.
pub open spec fn tok_at(toks: Seq<TokenV>, p: int) -> Option<TokenV> {
    if 0 <= p < toks.len() {
        Some(toks[p])
    } else {
        None
    }
}

/// The token at `p` is the symbol `s`.
pub open spec fn is_sym(toks: Seq<TokenV>, p: int, s: Seq<char>) -> bool {
    tok_at(toks, p) == Some(TokenV::Symbol(s))
}

/// The token at `p` is the keyword `k`.
pub open spec fn is_kw(toks: Seq<TokenV>, p: int, k: Seq<char>) -> bool {
    tok_at(toks, p) == Some(TokenV::Keyword(k))
}

/// The position after taking one token, if there is one.
pub open spec fn after_next(toks: Seq<TokenV>, p: int) -> int {
    if 0 <= p < toks.len() {
        p + 1
    } else {
        p
    }
}

/// The position after taking the symbol `s` if it is next.
pub open spec fn skip_sym(toks: Seq<TokenV>, p: int, s: Seq<char>) -> int {
    if is_sym(toks, p, s) {
        p + 1
    } else {
        p
    }
}

/// A bare identifier: a declared constant, or else a variable of sort `Object`.
pub open spec fn ident_term(name: Seq<char>, cs: Set<Seq<char>>) -> TermV {
    if cs.contains(name) {
        TermV::Const(name)
    } else {
        TermV::Var(name, object_name())
    }
}

/// A sort name: `Type`, `Prop` or an identifier; `Object` (taking nothing)
/// otherwise.
pub open spec fn sort_at(toks: Seq<TokenV>, p: int) -> (Seq<char>, int) {
    match tok_at(toks, p) {
        Some(TokenV::Keyword(k)) => if k == kw_type() || k == prop_name() {
            (k, p + 1)
        } else {
            (object_name(), p)
        },
        Some(TokenV::Ident(n)) => (n, p + 1),
        _ => (object_name(), p),
    }
}

pub open spec fn s_lparen() -> Seq<char> {
    seq!['(']
}

pub open spec fn s_rparen() -> Seq<char> {
    seq![')']
}

pub open spec fn s_comma() -> Seq<char> {
    seq![',']
}

pub open spec fn s_colon() -> Seq<char> {
    seq![':']
}

pub open spec fn s_eq() -> Seq<char> {
    seq!['=']
}

pub open spec fn s_arrow() -> Seq<char> {
    seq!['→']
}

/// A term: `name`, or `name(t1, t2, ...)` (the closing parenthesis may be
/// missing).
pub open spec fn parse_term_spec(toks: Seq<TokenV>, p: int, cs: Set<Seq<char>>) -> (Option<TermV>, int)
    decreases toks.len() - p, 0nat,
{
    if p < 0 || p >= toks.len() {
        (None, p)
    } else {
        match toks[p] {
            TokenV::Ident(name) => if is_sym(toks, p + 1, s_lparen()) {
                let (args, p2) = parse_args_spec(toks, p + 2, cs);
                (Some(TermV::Apply(name, args)), skip_sym(toks, p2, s_rparen()))
            } else {
                (Some(ident_term(name, cs)), p + 1)
            },
            _ => (None, p + 1),
        }
    }
}

/// Comma-separated terms, as many as parse.
pub open spec fn parse_args_spec(toks: Seq<TokenV>, p: int, cs: Set<Seq<char>>) -> (Seq<TermV>, int)
    decreases toks.len() - p, 1nat,
{
    if p < 0 || p > toks.len() {
        (Seq::empty(), p)
    } else {
        let (t, p1) = parse_term_spec(toks, p, cs);
        match t {
            None => (Seq::empty(), p1),
            Some(t) => if is_sym(toks, p1, s_comma()) && p1 >= p {
                let (rest, p2) = parse_args_spec(toks, p1 + 1, cs);
                (seq![t] + rest, p2)
            } else {
                (seq![t], p1)
            },
        }
    }
}

/// Terms for as long as an identifier comes next (`Pred x y`).
pub open spec fn parse_juxt_spec(toks: Seq<TokenV>, p: int, cs: Set<Seq<char>>) -> (Seq<TermV>, int)
    decreases toks.len() - p,
{
    if 0 <= p < toks.len() && toks[p] is Ident {
        let (t, p1) = parse_term_spec(toks, p, cs);
        match t {
            Some(t) => if p < p1 <= toks.len() {
                let (rest, p2) = parse_juxt_spec(toks, p1, cs);
                (seq![t] + rest, p2)
            } else {
                (seq![t], p1)
            },
            None => parse_juxt_spec(toks, p + 1, cs),
        }
    } else {
        (Seq::empty(), p)
    }
}

/// A formula: `A → B` (right-associative) or a disjunction.
pub open spec fn parse_formula_spec(toks: Seq<TokenV>, p: int, cs: Set<Seq<char>>) -> (Option<FormulaV>, int)
    decreases toks.len() - p, 9nat,
{
    if p < 0 || p > toks.len() {
        (None, p)
    } else {
        let (l, p1) = parse_or_spec(toks, p, cs);
        match l {
            None => (None, p1),
            Some(left) => if is_sym(toks, p1, s_arrow()) && p1 >= p {
                let (r, p2) = parse_formula_spec(toks, p1 + 1, cs);
                match r {
                    None => (None, p2),
                    Some(right) => (Some(FormulaV::Implies(Box::new(left), Box::new(right))), p2),
                }
            } else {
                (Some(left), p1)
            },
        }
    }
}

/// `A ∨ B ∨ ...` (also `|`), grouped to the left.
pub open spec fn parse_or_spec(toks: Seq<TokenV>, p: int, cs: Set<Seq<char>>) -> (Option<FormulaV>, int)
    decreases toks.len() - p, 8nat,
{
    if p < 0 || p > toks.len() {
        (None, p)
    } else {
        let (l, p1) = parse_and_spec(toks, p, cs);
        match l {
            None => (None, p1),
            Some(left) => if p <= p1 <= toks.len() {
                parse_or_rest_spec(left, toks, p1, cs)
            } else {
                (Some(left), p1)
            },
        }
    }
}

/// The rest of a disjunction whose left part `acc` ends at `p`.
pub open spec fn parse_or_rest_spec(acc: FormulaV, toks: Seq<TokenV>, p: int, cs: Set<Seq<char>>) -> (Option<FormulaV>, int)
    decreases toks.len() - p, 7nat,
{
    if p < 0 || p > toks.len() {
        (Some(acc), p)
    } else if is_sym(toks, p, seq!['∨']) || is_sym(toks, p, seq!['|']) {
        let (r, p1) = parse_and_spec(toks, p + 1, cs);
        match r {
            None => (None, p1),
            Some(right) => {
                let next = FormulaV::Or(Box::new(acc), Box::new(right));
                if p + 1 <= p1 <= toks.len() {
                    parse_or_rest_spec(next, toks, p1, cs)
                } else {
                    (Some(next), p1)
                }
            },
        }
    } else {
        (Some(acc), p)
    }
}

/// `A ∧ B ∧ ...` (also `&`), grouped to the left.
pub open spec fn parse_and_spec(toks: Seq<TokenV>, p: int, cs: Set<Seq<char>>) -> (Option<FormulaV>, int)
    decreases toks.len() - p, 6nat,
{
    if p < 0 || p > toks.len() {
        (None, p)
    } else {
        let (l, p1) = parse_unary_spec(toks, p, cs);
        match l {
            None => (None, p1),
            Some(left) => if p <= p1 <= toks.len() {
                parse_and_rest_spec(left, toks, p1, cs)
            } else {
                (Some(left), p1)
            },
        }
    }
}

/// The rest of a conjunction whose left part `acc` ends at `p`.
pub open spec fn parse_and_rest_spec(acc: FormulaV, toks: Seq<TokenV>, p: int, cs: Set<Seq<char>>) -> (Option<FormulaV>, int)
    decreases toks.len() - p, 5nat,
{
    if p < 0 || p > toks.len() {
        (Some(acc), p)
    } else if is_sym(toks, p, seq!['∧']) || is_sym(toks, p, seq!['&']) {
        let (r, p1) = parse_unary_spec(toks, p + 1, cs);
        match r {
            None => (None, p1),
            Some(right) => {
                let next = FormulaV::And(Box::new(acc), Box::new(right));
                if p + 1 <= p1 <= toks.len() {
                    parse_and_rest_spec(next, toks, p1, cs)
                } else {
                    (Some(next), p1)
                }
            },
        }
    } else {
        (Some(acc), p)
    }
}

/// A negation (`¬`, `!`, `not`), an existential, or an atom.
pub open spec fn parse_unary_spec(toks: Seq<TokenV>, p: int, cs: Set<Seq<char>>) -> (Option<FormulaV>, int)
    decreases toks.len() - p, 4nat,
{
    if p < 0 || p > toks.len() {
        (None, p)
    } else if is_sym(toks, p, seq!['¬']) || is_sym(toks, p, seq!['!']) || is_kw(toks, p, kw_not()) {
        let (i, p1) = parse_unary_spec(toks, p + 1, cs);
        match i {
            None => (None, p1),
            Some(inner) => (Some(FormulaV::Not(Box::new(inner))), p1),
        }
    } else if is_sym(toks, p, seq!['∃']) || is_kw(toks, p, kw_exists()) {
        parse_exists_spec(toks, p, cs)
    } else {
        parse_atom_spec(toks, p, cs)
    }
}

/// `∃ var : Sort, body` or `∃ var, body` (the quantifier token is at `p`).
pub open spec fn parse_exists_spec(toks: Seq<TokenV>, p: int, cs: Set<Seq<char>>) -> (Option<FormulaV>, int)
    decreases toks.len() - p, 3nat,
{
    if p < 0 || p >= toks.len() {
        (None, p)
    } else {
        let p1 = p + 1;
        match tok_at(toks, p1) {
            Some(TokenV::Ident(v)) => {
                let p2 = p1 + 1;
                let (sort, p3) = if is_sym(toks, p2, s_colon()) {
                    sort_at(toks, p2 + 1)
                } else {
                    (object_name(), p2)
                };
                if is_sym(toks, p3, s_comma()) {
                    let (body, p4) = parse_formula_spec(toks, p3 + 1, cs);
                    match body {
                        None => (None, p4),
                        Some(b) => (Some(FormulaV::Exists(v, sort, Box::new(b))), p4),
                    }
                } else {
                    (None, p3)
                }
            },
            _ => (None, after_next(toks, p1)),
        }
    }
}

/// A parenthesised formula, an equality `lhs = rhs`, a predicate
/// `P(t1, ...)`, or a predicate applied by juxtaposition `P x y`.
pub open spec fn parse_atom_spec(toks: Seq<TokenV>, p: int, cs: Set<Seq<char>>) -> (Option<FormulaV>, int)
    decreases toks.len() - p, 2nat,
{
    if p < 0 || p >= toks.len() {
        (None, p)
    } else if is_sym(toks, p, s_lparen()) {
        let (f, p1) = parse_formula_spec(toks, p + 1, cs);
        match f {
            None => (None, p1),
            Some(f) => (Some(f), skip_sym(toks, p1, s_rparen())),
        }
    } else {
        match toks[p] {
            TokenV::Ident(name) => {
                let q = p + 1;
                if is_sym(toks, q, s_lparen()) {
                    let (args, q2) = parse_args_spec(toks, q + 1, cs);
                    let q3 = skip_sym(toks, q2, s_rparen());
                    if is_sym(toks, q3, s_eq()) {
                        let (rhs, r) = parse_term_spec(toks, q3 + 1, cs);
                        match rhs {
                            None => (None, r),
                            Some(rhs) => (Some(FormulaV::Eq(TermV::Apply(name, args), rhs)), r),
                        }
                    } else {
                        (Some(FormulaV::Pred(name, args)), q3)
                    }
                } else if is_sym(toks, q, s_eq()) {
                    let (rhs, r) = parse_term_spec(toks, q + 1, cs);
                    match rhs {
                        None => (None, r),
                        Some(rhs) => (Some(FormulaV::Eq(ident_term(name, cs), rhs)), r),
                    }
                } else {
                    let (args, q2) = parse_juxt_spec(toks, q, cs);
                    (Some(FormulaV::Pred(name, args)), q2)
                }
            },
            _ => (None, p + 1),
        }
    }
}

// ---------------------------------------------------------------------------
// Declared constants are constants wherever they stand
// ---------------------------------------------------------------------------

/// A name stands for a constant exactly when it is declared: no variable of
/// `t` has a declared name, and every constant of `t` is declared.
pub open spec fn respects_constants(t: TermV, cs: Set<Seq<char>>) -> bool
    decreases t,
{
    match t {
        TermV::Var(n, _) => !cs.contains(n),
        TermV::Const(n) => cs.contains(n),
        TermV::Apply(_, args) => forall|i: int|
            0 <= i < args.len() ==> respects_constants(#[trigger] args[i], cs),
    }
}

/// Every term of a list respects the declared constants.
pub open spec fn all_respect_constants(ts: Seq<TermV>, cs: Set<Seq<char>>) -> bool {
    forall|i: int| 0 <= i < ts.len() ==> respects_constants(#[trigger] ts[i], cs)
}

/// Every term of `f` respects the declared constants.
pub open spec fn formula_respects_constants(f: FormulaV, cs: Set<Seq<char>>) -> bool
    decreases f,
{
    match f {
        FormulaV::Eq(l, r) => respects_constants(l, cs) && respects_constants(r, cs),
        FormulaV::Pred(_, args) => all_respect_constants(args, cs),
        FormulaV::And(l, r) => formula_respects_constants(*l, cs) && formula_respects_constants(*r, cs),
        FormulaV::Or(l, r) => formula_respects_constants(*l, cs) && formula_respects_constants(*r, cs),
        FormulaV::Not(i) => formula_respects_constants(*i, cs),
        FormulaV::Implies(l, r) => formula_respects_constants(*l, cs) && formula_respects_constants(*r, cs),
        FormulaV::Exists(_, _, b) => formula_respects_constants(*b, cs),
    }
}

proof fn lemma_term_respects(toks: Seq<TokenV>, p: int, cs: Set<Seq<char>>)
    ensures
        parse_term_spec(toks, p, cs).0 matches Some(t) ==> respects_constants(t, cs),
    decreases toks.len() - p, 0nat,
{
    if 0 <= p < toks.len() {
        if toks[p] is Ident && is_sym(toks, p + 1, s_lparen()) {
            lemma_args_respect(toks, p + 2, cs);
        }
    }
}

proof fn lemma_args_respect(toks: Seq<TokenV>, p: int, cs: Set<Seq<char>>)
    ensures
        all_respect_constants(parse_args_spec(toks, p, cs).0, cs),
    decreases toks.len() - p, 1nat,
{
    if 0 <= p <= toks.len() {
        lemma_term_respects(toks, p, cs);
        let (t, p1) = parse_term_spec(toks, p, cs);
        if t is Some && is_sym(toks, p1, s_comma()) && p1 >= p {
            lemma_args_respect(toks, p1 + 1, cs);
            let rest = parse_args_spec(toks, p1 + 1, cs).0;
            assert forall|i: int| 0 <= i < (seq![t->Some_0] + rest).len() implies respects_constants(
                #[trigger] (seq![t->Some_0] + rest)[i],
                cs,
            ) by {
                if i > 0 {
                    assert((seq![t->Some_0] + rest)[i] == rest[i - 1]);
                }
            }
        }
    }
}

proof fn lemma_juxt_respect(toks: Seq<TokenV>, p: int, cs: Set<Seq<char>>)
    ensures
        all_respect_constants(parse_juxt_spec(toks, p, cs).0, cs),
    decreases toks.len() - p,
{
    if 0 <= p < toks.len() && toks[p] is Ident {
        lemma_term_respects(toks, p, cs);
        let (t, p1) = parse_term_spec(toks, p, cs);
        match t {
            Some(t0) => {
                if p < p1 <= toks.len() {
                    lemma_juxt_respect(toks, p1, cs);
                    let rest = parse_juxt_spec(toks, p1, cs).0;
                    assert forall|i: int| 0 <= i < (seq![t0] + rest).len() implies respects_constants(
                        #[trigger] (seq![t0] + rest)[i],
                        cs,
                    ) by {
                        if i > 0 {
                            assert((seq![t0] + rest)[i] == rest[i - 1]);
                        }
                    }
                }
            },
            None => {
                lemma_juxt_respect(toks, p + 1, cs);
            },
        }
    }
}

proof fn lemma_formula_respects(toks: Seq<TokenV>, p: int, cs: Set<Seq<char>>)
    ensures
        parse_formula_spec(toks, p, cs).0 matches Some(f) ==> formula_respects_constants(f, cs),
    decreases toks.len() - p, 9nat,
{
    if 0 <= p <= toks.len() {
        lemma_or_respects(toks, p, cs);
        let (l, p1) = parse_or_spec(toks, p, cs);
        if l is Some && is_sym(toks, p1, s_arrow()) && p1 >= p {
            lemma_formula_respects(toks, p1 + 1, cs);
        }
    }
}

proof fn lemma_or_respects(toks: Seq<TokenV>, p: int, cs: Set<Seq<char>>)
    ensures
        parse_or_spec(toks, p, cs).0 matches Some(f) ==> formula_respects_constants(f, cs),
    decreases toks.len() - p, 8nat,
{
    if 0 <= p <= toks.len() {
        lemma_and_respects(toks, p, cs);
        let (l, p1) = parse_and_spec(toks, p, cs);
        if l is Some && p <= p1 <= toks.len() {
            lemma_or_rest_respects(l->Some_0, toks, p1, cs);
        }
    }
}

proof fn lemma_or_rest_respects(acc: FormulaV, toks: Seq<TokenV>, p: int, cs: Set<Seq<char>>)
    requires
        formula_respects_constants(acc, cs),
    ensures
        parse_or_rest_spec(acc, toks, p, cs).0 matches Some(f) ==> formula_respects_constants(f, cs),
    decreases toks.len() - p, 7nat,
{
    if 0 <= p <= toks.len() && (is_sym(toks, p, seq!['∨']) || is_sym(toks, p, seq!['|'])) {
        lemma_and_respects(toks, p + 1, cs);
        let (r, p1) = parse_and_spec(toks, p + 1, cs);
        if r is Some {
            let next = FormulaV::Or(Box::new(acc), Box::new(r->Some_0));
            if p + 1 <= p1 <= toks.len() {
                lemma_or_rest_respects(next, toks, p1, cs);
            }
        }
    }
}

proof fn lemma_and_respects(toks: Seq<TokenV>, p: int, cs: Set<Seq<char>>)
    ensures
        parse_and_spec(toks, p, cs).0 matches Some(f) ==> formula_respects_constants(f, cs),
    decreases toks.len() - p, 6nat,
{
    if 0 <= p <= toks.len() {
        lemma_unary_respects(toks, p, cs);
        let (l, p1) = parse_unary_spec(toks, p, cs);
        if l is Some && p <= p1 <= toks.len() {
            lemma_and_rest_respects(l->Some_0, toks, p1, cs);
        }
    }
}

proof fn lemma_and_rest_respects(acc: FormulaV, toks: Seq<TokenV>, p: int, cs: Set<Seq<char>>)
    requires
        formula_respects_constants(acc, cs),
    ensures
        parse_and_rest_spec(acc, toks, p, cs).0 matches Some(f) ==> formula_respects_constants(f, cs),
    decreases toks.len() - p, 5nat,
{
    if 0 <= p <= toks.len() && (is_sym(toks, p, seq!['∧']) || is_sym(toks, p, seq!['&'])) {
        lemma_unary_respects(toks, p + 1, cs);
        let (r, p1) = parse_unary_spec(toks, p + 1, cs);
        if r is Some {
            let next = FormulaV::And(Box::new(acc), Box::new(r->Some_0));
            if p + 1 <= p1 <= toks.len() {
                lemma_and_rest_respects(next, toks, p1, cs);
            }
        }
    }
}

proof fn lemma_unary_respects(toks: Seq<TokenV>, p: int, cs: Set<Seq<char>>)
    ensures
        parse_unary_spec(toks, p, cs).0 matches Some(f) ==> formula_respects_constants(f, cs),
    decreases toks.len() - p, 4nat,
{
    if 0 <= p <= toks.len() {
        if is_sym(toks, p, seq!['¬']) || is_sym(toks, p, seq!['!']) || is_kw(toks, p, kw_not()) {
            lemma_unary_respects(toks, p + 1, cs);
        } else if is_sym(toks, p, seq!['∃']) || is_kw(toks, p, kw_exists()) {
            lemma_exists_respects(toks, p, cs);
        } else {
            lemma_atom_respects(toks, p, cs);
        }
    }
}

proof fn lemma_exists_respects(toks: Seq<TokenV>, p: int, cs: Set<Seq<char>>)
    ensures
        parse_exists_spec(toks, p, cs).0 matches Some(f) ==> formula_respects_constants(f, cs),
    decreases toks.len() - p, 3nat,
{
    if 0 <= p < toks.len() {
        let p1 = p + 1;
        match tok_at(toks, p1) {
            Some(TokenV::Ident(v)) => {
                let p2 = p1 + 1;
                let (sort, p3) = if is_sym(toks, p2, s_colon()) {
                    sort_at(toks, p2 + 1)
                } else {
                    (object_name(), p2)
                };
                if is_sym(toks, p3, s_comma()) {
                    lemma_formula_respects(toks, p3 + 1, cs);
                }
            },
            _ => {},
        }
    }
}

proof fn lemma_atom_respects(toks: Seq<TokenV>, p: int, cs: Set<Seq<char>>)
    ensures
        parse_atom_spec(toks, p, cs).0 matches Some(f) ==> formula_respects_constants(f, cs),
    decreases toks.len() - p, 2nat,
{
    if 0 <= p < toks.len() {
        if is_sym(toks, p, s_lparen()) {
            lemma_formula_respects(toks, p + 1, cs);
        } else {
            match toks[p] {
                TokenV::Ident(name) => {
                    let q = p + 1;
                    if is_sym(toks, q, s_lparen()) {
                        lemma_args_respect(toks, q + 1, cs);
                        let (args, q2) = parse_args_spec(toks, q + 1, cs);
                        let q3 = skip_sym(toks, q2, s_rparen());
                        lemma_term_respects(toks, q3 + 1, cs);
                    } else if is_sym(toks, q, s_eq()) {
                        lemma_term_respects(toks, q + 1, cs);
                    } else {
                        lemma_juxt_respect(toks, q, cs);
                    }
                },
                _ => {},
            }
        }
    }
}

/// The parser reads declared constants as constants wherever they stand:
/// in a parsed formula a name is a constant exactly when it is one of the
/// declared constants `cs`, and never a variable.
pub proof fn lemma_parse_respects_constants(toks: Seq<TokenV>, cs: Set<Seq<char>>)
    ensures
        parse_formula_spec(toks, 0, cs).0 matches Some(f) ==> formula_respects_constants(f, cs),
        parse_term_spec(toks, 0, cs).0 matches Some(t) ==> respects_constants(t, cs),
{
    lemma_formula_respects(toks, 0, cs);
    lemma_term_respects(toks, 0, cs);
}

/// Sorts separated by `→`.
pub open spec fn sort_chain_spec(toks: Seq<TokenV>, p: int) -> (Seq<Seq<char>>, int)
    decreases toks.len() - p,
{
    let (s, p1) = sort_at(toks, p);
    if is_sym(toks, p1, s_arrow()) && p1 >= p {
        let (rest, p2) = sort_chain_spec(toks, p1 + 1);
        (seq![s] + rest, p2)
    } else {
        (seq![s], p1)
    }
}

/// Consecutive identifiers.
pub open spec fn ident_run(toks: Seq<TokenV>, p: int) -> (Seq<Seq<char>>, int)
    decreases toks.len() - p,
{
    if 0 <= p < toks.len() && toks[p] is Ident {
        let (rest, q) = ident_run(toks, p + 1);
        (seq![toks[p]->Ident_0] + rest, q)
    } else {
        (Seq::empty(), p)
    }
}

/// `forall v1 v2 ... : Sort, <formula>` (the quantifier token is at `p`);
/// the colon and the comma may be missing.
pub open spec fn parse_forall_spec(name: Seq<char>, toks: Seq<TokenV>, p: int, cs: Set<Seq<char>>) -> (Option<StatementV>, int) {
    let p1 = after_next(toks, p);
    let (vars, p2) = ident_run(toks, p1);
    let p3 = skip_sym(toks, p2, s_colon());
    let (sort, p4) = sort_at(toks, p3);
    let p5 = skip_sym(toks, p4, s_comma());
    let (body, p6) = parse_formula_spec(toks, p5, cs);
    match body {
        None => (None, p6),
        Some(b) => (
            Some(StatementV::AxiomDecl(name, vars.map_values(|v: Seq<char>| (v, sort)), b)),
            p6,
        ),
    }
}

/// A top-level declaration:
/// `import U`, `Name : Type`, `Name : forall ...`, `Name : Prop`,
/// `Name : S1 → ... → R` (a signature), `Name : S` (a constant).
pub open spec fn parse_statement_spec(toks: Seq<TokenV>, p: int, cs: Set<Seq<char>>) -> (Option<StatementV>, int) {
    if is_kw(toks, p, kw_import()) {
        match tok_at(toks, p + 1) {
            Some(TokenV::Ident(n)) => (Some(StatementV::Import(n)), p + 2),
            _ => (None, after_next(toks, p + 1)),
        }
    } else {
        match tok_at(toks, p) {
            Some(TokenV::Ident(name)) => {
                let q = p + 1;
                if !is_sym(toks, q, s_colon()) {
                    (None, q)
                } else {
                    let q1 = q + 1;
                    if is_kw(toks, q1, kw_type()) {
                        (Some(StatementV::TypeDecl(name)), q1 + 1)
                    } else if is_kw(toks, q1, kw_forall()) || is_sym(toks, q1, seq!['∀']) {
                        parse_forall_spec(name, toks, q1, cs)
                    } else if is_kw(toks, q1, prop_name()) {
                        (Some(StatementV::PredDecl(name, Seq::empty(), prop_name())), q1 + 1)
                    } else if 0 <= q1 < toks.len() && toks[q1] is Ident {
                        let (sorts, q2) = sort_chain_spec(toks, q1);
                        if sorts.len() > 1 {
                            (Some(StatementV::PredDecl(name, sorts.drop_last(), sorts.last())), q2)
                        } else if sorts[0] == kw_type() {
                            (Some(StatementV::TypeDecl(name)), q2)
                        } else {
                            (Some(StatementV::ConstDecl(name, sorts[0])), q2)
                        }
                    } else {
                        (Some(StatementV::PredDecl(name, Seq::empty(), object_name())), toks.len() as int)
                    }
                }
            },
            _ => (None, p),
        }
    }
}


// ---------------------------------------------------------------------------
// Parser
// ---------------------------------------------------------------------------

/// The model of an optional term.
pub open spec fn opt_term_view(o: Option<Term>) -> Option<TermV> {
    match o {
        Some(t) => Some(t@),
        None => None,
    }
}

/// The model of an optional formula.
pub open spec fn opt_formula_view(o: Option<Formula>) -> Option<FormulaV> {
    match o {
        Some(f) => Some(f@),
        None => None,
    }
}

/// The model of an optional statement.
pub open spec fn opt_statement_view(o: Option<Statement>) -> Option<StatementV> {
    match o {
        Some(s) => Some(s@),
        None => None,
    }
}

/// The models of a list of sorts.
pub open spec fn sorts_view(ss: Seq<Sort>) -> Seq<Seq<char>> {
    Seq::new(ss.len(), |i: int| ss[i]@)
}

/// A recursive-descent parser over a list of tokens.
pub struct Parser<'a> {
    tokens: Vec<Token>,
    pos: usize,
    /// Optional reference to the active Universe.  When present the parser
    /// uses it to resolve identifiers: names found in `universe.constants`
    /// become `Term::Const`, everything else remains `Term::Var`.
    universe: Option<&'a Universe>,
}

/// The parser moved forward over the same tokens.
pub open spec fn advanced(before: Parser, after: Parser) -> bool {
    &&& after.toks() == before.toks()
    &&& after.constant_names() == before.constant_names()
    &&& before.position() <= after.position() <= after.toks().len()
}

impl<'a> Parser<'a> {
    #[verifier::type_invariant]
    closed spec fn inv(&self) -> bool {
        self.pos <= self.tokens@.len()
    }

    /// The tokens being parsed.
    pub closed spec fn toks(&self) -> Seq<TokenV> {
        tokens_view(self.tokens@)
    }

    /// The index of the next token.
    pub closed spec fn position(&self) -> int {
        self.pos as int
    }

    /// The names that parse as constants.
    pub closed spec fn constant_names(&self) -> Set<Seq<char>> {
        match self.universe {
            Some(u) => u.constants@.dom(),
            None => Set::empty(),
        }
    }

    /// The number of tokens not yet taken.
    pub closed spec fn remaining(&self) -> nat {
        (self.tokens@.len() - self.pos) as nat
    }

    /// Create a parser with access to the active universe for constant lookup.
    pub fn with_universe(tokens: Vec<Token>, universe: Option<&'a Universe>) -> (p: Self)
        ensures
            p.toks() == tokens_view(tokens@),
            p.position() == 0,
            p.constant_names() == (match universe {
                Some(u) => u.constants@.dom(),
                None => Set::<Seq<char>>::empty(),
            }),
    {
        Parser { tokens, pos: 0, universe }
    }

    /// Resolve a bare identifier to either `Term::Const` (if it is
    /// registered in the universe's constant table) or `Term::Var`.
    fn ident_to_term(&self, name: String) -> (t: Term)
        ensures
            t@ == ident_term(name@, self.constant_names()),
    {
        if let Some(u) = self.universe {
            if u.constants.contains_key(&name) {
                return Term::Const(name);
            }
        }
        Term::Var(name, Sort::object())
    }

    fn peek_sym(&self, expected: &str) -> (b: bool)
        ensures
            b == is_sym(self.toks(), self.position(), expected@),
    {
        proof {
            use_type_invariant(self);
        }
        if self.pos < self.tokens.len() {
            match &self.tokens[self.pos] {
                Token::Symbol(s) => spells(s, expected),
                _ => false,
            }
        } else {
            false
        }
    }

    fn peek_kw(&self, expected: &str) -> (b: bool)
        ensures
            b == is_kw(self.toks(), self.position(), expected@),
    {
        proof {
            use_type_invariant(self);
        }
        if self.pos < self.tokens.len() {
            match &self.tokens[self.pos] {
                Token::Keyword(s) => spells(s, expected),
                _ => false,
            }
        } else {
            false
        }
    }

    fn peek_ident(&self) -> (b: bool)
        ensures
            b == (0 <= self.position() < self.toks().len() && self.toks()[self.position()] is Ident),
    {
        proof {
            use_type_invariant(self);
        }
        if self.pos < self.tokens.len() {
            match &self.tokens[self.pos] {
                Token::Ident(_) => true,
                _ => false,
            }
        } else {
            false
        }
    }

    /// Take the next token, if any.
    fn advance(&mut self)
        ensures
            advanced(*old(self), *final(self)),
            final(self).position() == after_next(old(self).toks(), old(self).position()),
    {
        proof {
            use_type_invariant(&*self);
        }
        if self.pos < self.tokens.len() {
            self.pos = self.pos + 1;
        }
    }

    /// Take the next token; its name if it is an identifier.
    fn next_ident(&mut self) -> (r: Option<String>)
        ensures
            advanced(*old(self), *final(self)),
            final(self).position() == after_next(old(self).toks(), old(self).position()),
            match tok_at(old(self).toks(), old(self).position()) {
                Some(TokenV::Ident(n)) => r is Some && r->0@ == n,
                _ => r is None,
            },
    {
        proof {
            use_type_invariant(&*self);
        }
        if self.pos < self.tokens.len() {
            let r = match &self.tokens[self.pos] {
                Token::Ident(n) => Some(n.clone()),
                _ => None,
            };
            self.pos = self.pos + 1;
            r
        } else {
            None
        }
    }

    fn consume_sym(&mut self, expected: &str) -> (b: bool)
        ensures
            advanced(*old(self), *final(self)),
            b == is_sym(old(self).toks(), old(self).position(), expected@),
            final(self).position() == skip_sym(old(self).toks(), old(self).position(), expected@),
    {
        proof {
            use_type_invariant(&*self);
        }
        if self.peek_sym(expected) {
            self.advance();
            true
        } else {
            false
        }
    }

    /// Whether the next token begins an existential quantifier (`∃` or `exists`).
    fn peek_exists(&self) -> (b: bool)
        ensures
            b == (is_sym(self.toks(), self.position(), seq!['∃']) || is_kw(
                self.toks(),
                self.position(),
                kw_exists(),
            )),
    {
        proof {
            reveal_strlit("∃");
            reveal_strlit("exists");
            assert("∃"@ =~= seq!['∃']);
            assert("exists"@ =~= kw_exists());
        }
        self.peek_sym("∃") || self.peek_kw("exists")
    }

    /// Consume a sort name; `Object` (consuming nothing) if none is next.
    fn parse_sort(&mut self) -> (s: Sort)
        ensures
            advanced(*old(self), *final(self)),
            (s@, final(self).position()) == sort_at(old(self).toks(), old(self).position()),
    {
        proof {
            use_type_invariant(&*self);
            reveal_strlit("Type");
            reveal_strlit("Prop");
            assert("Type"@ =~= kw_type());
            assert("Prop"@ =~= prop_name());
        }
        if self.pos < self.tokens.len() {
            let r = match &self.tokens[self.pos] {
                Token::Keyword(k) => {
                    if spells(k, "Type") || spells(k, "Prop") {
                        Some(Sort(k.clone()))
                    } else {
                        None
                    }
                },
                Token::Ident(n) => Some(Sort(n.clone())),
                _ => None,
            };
            match r {
                Some(s) => {
                    self.pos = self.pos + 1;
                    s
                },
                None => Sort::object(),
            }
        } else {
            Sort::object()
        }
    }

    /// Parse a term: `name` or `name(t1, t2, ...)`.
    pub fn parse_term(&mut self) -> (r: Option<Term>)
        ensures
            advanced(*old(self), *final(self)),
            (opt_term_view(r), final(self).position()) == parse_term_spec(
                old(self).toks(),
                old(self).position(),
                old(self).constant_names(),
            ),
            r is Some ==> old(self).position() < final(self).position(),
        decreases old(self).remaining(), 0nat,
    {
        proof {
            use_type_invariant(&*self);
            reveal_strlit("(");
            reveal_strlit(")");
            reveal_strlit(",");
            assert("("@ =~= s_lparen());
            assert(")"@ =~= s_rparen());
            assert(","@ =~= s_comma());
        }
        let ghost toks = self.toks();
        let ghost cs = self.constant_names();
        let ghost p0 = self.position();
        let name = match self.next_ident() {
            Some(n) => n,
            None => return None,
        };
        if self.peek_sym("(") {
            self.advance();
            proof {
                use_type_invariant(&*self);
                assert(self.tokens@.len() == self.toks().len());
                assert(old(self).tokens@.len() == old(self).toks().len());
            }
            let args = self.parse_args();
            self.consume_sym(")");
            return Some(Term::Apply(name, args));
        }
        Some(self.ident_to_term(name))
    }

    /// Parse a formula.
    ///
    /// Precedence (low → high): `→` (right-associative), `∨`, `∧`, then
    /// negation, existentials and atoms.
    pub fn parse_formula(&mut self) -> (r: Option<Formula>)
        ensures
            advanced(*old(self), *final(self)),
            (opt_formula_view(r), final(self).position()) == parse_formula_spec(
                old(self).toks(),
                old(self).position(),
                old(self).constant_names(),
            ),
        decreases old(self).remaining(), 9nat,
    {
        proof {
            use_type_invariant(&*self);
            reveal_strlit("→");
            assert("→"@ =~= s_arrow());
        }
        let left = match self.parse_or() {
            Some(l) => l,
            None => return None,
        };
        if self.peek_sym("→") {
            self.advance();
            proof {
                use_type_invariant(&*self);
            }
            let right = match self.parse_formula() {
                Some(r) => r,
                None => return None,
            };
            return Some(Formula::Implies(Box::new(left), Box::new(right)));
        }
        Some(left)
    }

    /// `A ∨ B ∨ ...`, grouped to the left.
    fn parse_or(&mut self) -> (r: Option<Formula>)
        ensures
            advanced(*old(self), *final(self)),
            (opt_formula_view(r), final(self).position()) == parse_or_spec(
                old(self).toks(),
                old(self).position(),
                old(self).constant_names(),
            ),
        decreases old(self).remaining(), 8nat,
    {
        proof {
            use_type_invariant(&*self);
            reveal_strlit("∨");
            reveal_strlit("|");
            assert("∨"@ =~= seq!['∨']);
            assert("|"@ =~= seq!['|']);
        }
        let ghost toks = self.toks();
        let ghost cs = self.constant_names();
        let ghost p0 = self.position();
        let mut left = match self.parse_and() {
            Some(l) => l,
            None => return None,
        };
        while self.peek_sym("∨") || self.peek_sym("|")
            invariant
                self.toks() == toks,
                self.constant_names() == cs,
                toks == old(self).toks(),
                cs == old(self).constant_names(),
                p0 == old(self).position(),
                "∨"@ == seq!['∨'],
                "|"@ == seq!['|'],
                p0 <= self.position() <= toks.len(),
                parse_or_spec(toks, p0, cs) == parse_or_rest_spec(left@, toks, self.position(), cs),
            decreases toks.len() - self.position(),
        {
            let ghost q = self.position();
            self.advance();
            proof {
                use_type_invariant(&*self);
                assert(self.tokens@.len() == self.toks().len());
                assert(old(self).tokens@.len() == old(self).toks().len());
            }
            let right = match self.parse_and() {
                Some(r) => r,
                None => return None,
            };
            left = Formula::Or(Box::new(left), Box::new(right));
        }
        Some(left)
    }

    /// `A ∧ B ∧ ...`, grouped to the left.
    fn parse_and(&mut self) -> (r: Option<Formula>)
        ensures
            advanced(*old(self), *final(self)),
            (opt_formula_view(r), final(self).position()) == parse_and_spec(
                old(self).toks(),
                old(self).position(),
                old(self).constant_names(),
            ),
        decreases old(self).remaining(), 6nat,
    {
        proof {
            use_type_invariant(&*self);
            reveal_strlit("∧");
            reveal_strlit("&");
            assert("∧"@ =~= seq!['∧']);
            assert("&"@ =~= seq!['&']);
        }
        let ghost toks = self.toks();
        let ghost cs = self.constant_names();
        let ghost p0 = self.position();
        let mut left = match self.parse_unary() {
            Some(l) => l,
            None => return None,
        };
        while self.peek_sym("∧") || self.peek_sym("&")
            invariant
                self.toks() == toks,
                self.constant_names() == cs,
                toks == old(self).toks(),
                cs == old(self).constant_names(),
                p0 == old(self).position(),
                "∧"@ == seq!['∧'],
                "&"@ == seq!['&'],
                p0 <= self.position() <= toks.len(),
                parse_and_spec(toks, p0, cs) == parse_and_rest_spec(left@, toks, self.position(), cs),
            decreases toks.len() - self.position(),
        {
            self.advance();
            proof {
                use_type_invariant(&*self);
                assert(self.tokens@.len() == self.toks().len());
                assert(old(self).tokens@.len() == old(self).toks().len());
            }
            let right = match self.parse_unary() {
                Some(r) => r,
                None => return None,
            };
            left = Formula::And(Box::new(left), Box::new(right));
        }
        Some(left)
    }

    /// A negation, an existential or an atom.
    fn parse_unary(&mut self) -> (r: Option<Formula>)
        ensures
            advanced(*old(self), *final(self)),
            (opt_formula_view(r), final(self).position()) == parse_unary_spec(
                old(self).toks(),
                old(self).position(),
                old(self).constant_names(),
            ),
        decreases old(self).remaining(), 4nat,
    {
        proof {
            use_type_invariant(&*self);
            reveal_strlit("¬");
            reveal_strlit("!");
            reveal_strlit("not");
            assert("¬"@ =~= seq!['¬']);
            assert("!"@ =~= seq!['!']);
            assert("not"@ =~= kw_not());
        }
        if self.peek_sym("¬") || self.peek_sym("!") || self.peek_kw("not") {
            self.advance();
            proof {
                use_type_invariant(&*self);
            }
            let inner = match self.parse_unary() {
                Some(i) => i,
                None => return None,
            };
            return Some(Formula::Not(Box::new(inner)));
        }
        if self.peek_exists() {
            return self.parse_exists_formula();
        }
        self.parse_atom()
    }

    /// `∃ var : Sort, body` or `∃ var, body`; the sort defaults to `Object`.
    fn parse_exists_formula(&mut self) -> (r: Option<Formula>)
        requires
            old(self).position() < old(self).toks().len(),
        ensures
            advanced(*old(self), *final(self)),
            (opt_formula_view(r), final(self).position()) == parse_exists_spec(
                old(self).toks(),
                old(self).position(),
                old(self).constant_names(),
            ),
        decreases old(self).remaining(), 3nat,
    {
        proof {
            use_type_invariant(&*self);
            reveal_strlit(":");
            reveal_strlit(",");
            assert(":"@ =~= s_colon());
            assert(","@ =~= s_comma());
        }
        self.advance();
        let var = match self.next_ident() {
            Some(v) => v,
            None => return None,
        };
        let sort = if self.peek_sym(":") {
            self.advance();
            self.parse_sort()
        } else {
            Sort::object()
        };
        if !self.consume_sym(",") {
            return None;
        }
        proof {
            use_type_invariant(&*self);
        }
        let body = match self.parse_formula() {
            Some(b) => b,
            None => return None,
        };
        Some(Formula::Exists { var, sort, body: Box::new(body) })
    }

    /// A parenthesised formula, an equality, or a predicate.
    fn parse_atom(&mut self) -> (r: Option<Formula>)
        ensures
            advanced(*old(self), *final(self)),
            (opt_formula_view(r), final(self).position()) == parse_atom_spec(
                old(self).toks(),
                old(self).position(),
                old(self).constant_names(),
            ),
        decreases old(self).remaining(), 2nat,
    {
        proof {
            use_type_invariant(&*self);
            reveal_strlit("(");
            reveal_strlit(")");
            reveal_strlit("=");
            assert("("@ =~= s_lparen());
            assert(")"@ =~= s_rparen());
            assert("="@ =~= s_eq());
        }
        let ghost toks = self.toks();
        let ghost cs = self.constant_names();
        if self.peek_sym("(") {
            self.advance();
            proof {
                use_type_invariant(&*self);
            }
            let f = match self.parse_formula() {
                Some(f) => f,
                None => return None,
            };
            self.consume_sym(")");
            return Some(f);
        }
        let name = match self.next_ident() {
            Some(n) => n,
            None => return None,
        };
        let mut args: Vec<Term> = Vec::new();
        let mut is_call = false;
        if self.peek_sym("(") {
            is_call = true;
            self.advance();
            proof {
                use_type_invariant(&*self);
            }
            args = self.parse_args();
            self.consume_sym(")");
        }
        if self.peek_sym("=") {
            self.advance();
            let lhs = if is_call {
                Term::Apply(name, args)
            } else {
                self.ident_to_term(name)
            };
            proof {
                use_type_invariant(&*self);
            }
            let rhs = match self.parse_term() {
                Some(t) => t,
                None => return None,
            };
            return Some(Formula::Eq(lhs, rhs));
        }
        if is_call {
            return Some(Formula::Pred(name, args));
        }
        let ghost q = self.position();
        proof {
            assert(terms_view_of(args) =~= Seq::<TermV>::empty());
            assert(terms_view_of(args) + parse_juxt_spec(toks, q, cs).0 =~= parse_juxt_spec(toks, q, cs).0);
        }
        while self.peek_ident()
            invariant
                self.toks() == toks,
                self.constant_names() == cs,
                toks == old(self).toks(),
                q <= self.position() <= toks.len(),
                parse_juxt_spec(toks, q, cs) == (
                    terms_view_of(args) + parse_juxt_spec(toks, self.position(), cs).0,
                    parse_juxt_spec(toks, self.position(), cs).1,
                ),
            decreases toks.len() - self.position(),
        {
            let ghost p = self.position();
            proof {
                use_type_invariant(&*self);
                assert(self.tokens@.len() == self.toks().len());
                assert(old(self).tokens@.len() == old(self).toks().len());
            }
            let t = self.parse_term();
            match t {
                Some(t) => {
                    let ghost tv = t@;
                    let ghost before = terms_view_of(args);
                    args.push(t);
                    proof {
                        assert(terms_view_of(args) =~= before.push(tv));
                        assert(before + (seq![tv] + parse_juxt_spec(toks, self.position(), cs).0)
                            =~= terms_view_of(args) + parse_juxt_spec(toks, self.position(), cs).0);
                    }
                },
                None => {},
            }
        }
        Some(Formula::Pred(name, args))
    }

    /// Parse a top-level declaration.
    pub fn parse_statement(&mut self) -> (r: Option<Statement>)
        ensures
            advanced(*old(self), *final(self)),
            (opt_statement_view(r), final(self).position()) == parse_statement_spec(
                old(self).toks(),
                old(self).position(),
                old(self).constant_names(),
            ),
    {
        proof {
            use_type_invariant(&*self);
            reveal_strlit("import");
            reveal_strlit(":");
            reveal_strlit("Type");
            reveal_strlit("forall");
            reveal_strlit("∀");
            reveal_strlit("Prop");
            reveal_strlit("→");
            assert("import"@ =~= kw_import());
            assert(":"@ =~= s_colon());
            assert("Type"@ =~= kw_type());
            assert("forall"@ =~= kw_forall());
            assert("∀"@ =~= seq!['∀']);
            assert("Prop"@ =~= prop_name());
            assert("→"@ =~= s_arrow());
        }
        let ghost toks = self.toks();
        let ghost p0 = self.position();
        if self.peek_kw("import") {
            self.advance();
            let universe_name = match self.next_ident() {
                Some(n) => n,
                None => return None,
            };
            return Some(Statement::Import(universe_name));
        }
        if !self.peek_ident() {
            return None;
        }
        let name = match self.next_ident() {
            Some(n) => n,
            None => return None,
        };
        if !self.consume_sym(":") {
            return None;
        }
        if self.peek_kw("Type") {
            self.advance();
            return Some(Statement::TypeDecl(name));
        }
        if self.peek_kw("forall") || self.peek_sym("∀") {
            return self.parse_forall_axiom(name);
        }
        if self.peek_kw("Prop") {
            self.advance();
            let none: Vec<Sort> = Vec::new();
            proof {
                assert(sorts_view(none@) =~= Seq::<Seq<char>>::empty());
            }
            return Some(Statement::PredDecl(name, none, Sort::prop()));
        }
        if self.peek_ident() {
            let ghost q1 = self.position();
            let mut sorts: Vec<Sort> = Vec::new();
            proof {
                assert(sorts_view(sorts@) + sort_chain_spec(toks, q1).0 =~= sort_chain_spec(toks, q1).0);
            }
            loop
                invariant_except_break
                    self.toks() == toks,
                    toks == old(self).toks(),
                    self.constant_names() == old(self).constant_names(),
                    "→"@ == s_arrow(),
                    q1 <= self.position() <= toks.len(),
                    sort_chain_spec(toks, q1) == (
                        sorts_view(sorts@) + sort_chain_spec(toks, self.position()).0,
                        sort_chain_spec(toks, self.position()).1,
                    ),
                ensures
                    self.toks() == toks,
                    self.constant_names() == old(self).constant_names(),
                    q1 <= self.position() <= toks.len(),
                    sort_chain_spec(toks, q1) == (sorts_view(sorts@), self.position()),
                decreases toks.len() - self.position(),
            {
                let ghost p = self.position();
                let ghost before = sorts_view(sorts@);
                let s = self.parse_sort();
                let ghost sv = s@;
                sorts.push(s);
                proof {
                    assert(sorts_view(sorts@) =~= before.push(sv));
                }
                if self.peek_sym("→") {
                    self.advance();
                    proof {
                        assert(before + (seq![sv] + sort_chain_spec(toks, self.position()).0)
                            =~= sorts_view(sorts@) + sort_chain_spec(toks, self.position()).0);
                    }
                } else {
                    proof {
                        assert(before + seq![sv] =~= sorts_view(sorts@));
                    }
                    break;
                }
            }
            if sorts.len() > 1 {
                let ghost all = sorts_view(sorts@);
                let ret = sorts.pop().unwrap();
                proof {
                    assert(sorts_view(sorts@) =~= all.drop_last());
                }
                return Some(Statement::PredDecl(name, sorts, ret));
            }
            let sole = sorts.remove(0);
            if spells(&sole.0, "Type") {
                return Some(Statement::TypeDecl(name));
            }
            return Some(Statement::ConstDecl(name, sole));
        }
        self.pos = self.tokens.len();
        let none: Vec<Sort> = Vec::new();
        proof {
            assert(sorts_view(none@) =~= Seq::<Seq<char>>::empty());
        }
        Some(Statement::PredDecl(name, none, Sort::object()))
    }

    /// Parse `forall v1 v2 ... : Sort, <formula>` (the quantifier is next).
    fn parse_forall_axiom(&mut self, name: String) -> (r: Option<Statement>)
        ensures
            advanced(*old(self), *final(self)),
            (opt_statement_view(r), final(self).position()) == parse_forall_spec(
                name@,
                old(self).toks(),
                old(self).position(),
                old(self).constant_names(),
            ),
    {
        proof {
            use_type_invariant(&*self);
            reveal_strlit(":");
            reveal_strlit(",");
            assert(":"@ =~= s_colon());
            assert(","@ =~= s_comma());
        }
        let ghost toks = self.toks();
        self.advance();
        let ghost p1 = self.position();
        let mut var_names: Vec<String> = Vec::new();
        proof {
            assert(strings_view(var_names@) + ident_run(toks, p1).0 =~= ident_run(toks, p1).0);
        }
        while self.peek_ident()
            invariant
                self.toks() == toks,
                toks == old(self).toks(),
                self.constant_names() == old(self).constant_names(),
                p1 <= self.position() <= toks.len(),
                ident_run(toks, p1) == (
                    strings_view(var_names@) + ident_run(toks, self.position()).0,
                    ident_run(toks, self.position()).1,
                ),
            decreases toks.len() - self.position(),
        {
            let ghost before = strings_view(var_names@);
            match self.next_ident() {
                Some(v) => {
                    let ghost vv = v@;
                    var_names.push(v);
                    proof {
                        assert(strings_view(var_names@) =~= before.push(vv));
                        assert(before + (seq![vv] + ident_run(toks, self.position()).0)
                            =~= strings_view(var_names@) + ident_run(toks, self.position()).0);
                    }
                },
                None => {},
            }
        }
        proof {
            assert(strings_view(var_names@) =~= strings_view(var_names@) + Seq::<Seq<char>>::empty());
        }
        self.consume_sym(":");
        let sort = self.parse_sort();
        self.consume_sym(",");
        let body = match self.parse_formula() {
            Some(b) => b,
            None => return None,
        };
        let ghost names = strings_view(var_names@);
        let mut vars: Vec<(String, Sort)> = Vec::new();
        let mut i: usize = 0;
        while i < var_names.len()
            invariant
                i <= var_names@.len(),
                names == strings_view(var_names@),
                vars@.len() == i,
                forall|k: int| 0 <= k < i ==> (#[trigger] vars@[k]).0@ == names[k] && vars@[k].1@ == sort@,
            decreases var_names@.len() - i,
        {
            vars.push((var_names[i].clone(), sort.clone()));
            i = i + 1;
        }
        proof {
            let vv = Seq::new(vars@.len(), |k: int| (vars@[k].0@, vars@[k].1@));
            assert(vv =~= names.map_values(|v: Seq<char>| (v, sort@)));
        }
        Some(Statement::AxiomDecl { name, vars, body: body })
    }

    /// Comma-separated terms, as many as parse.
    fn parse_args(&mut self) -> (args: Vec<Term>)
        ensures
            advanced(*old(self), *final(self)),
            (terms_view_of(args), final(self).position()) == parse_args_spec(
                old(self).toks(),
                old(self).position(),
                old(self).constant_names(),
            ),
        decreases old(self).remaining(), 1nat,
    {
        proof {
            use_type_invariant(&*self);
            reveal_strlit(",");
            assert(","@ =~= s_comma());
        }
        let ghost toks = self.toks();
        let ghost cs = self.constant_names();
        let ghost a0 = self.position();
        let mut args: Vec<Term> = Vec::new();
        proof {
            assert(terms_view_of(args) + parse_args_spec(toks, a0, cs).0 =~= parse_args_spec(toks, a0, cs).0);
        }
        loop
            invariant_except_break
                self.toks() == toks,
                self.constant_names() == cs,
                toks == old(self).toks(),
                a0 == old(self).position(),
                ","@ == s_comma(),
                a0 <= self.position() <= toks.len(),
                args@.len() > 0 ==> a0 < self.position(),
                parse_args_spec(toks, a0, cs) == (
                    terms_view_of(args) + parse_args_spec(toks, self.position(), cs).0,
                    parse_args_spec(toks, self.position(), cs).1,
                ),
            ensures
                self.toks() == toks,
                self.constant_names() == cs,
                a0 <= self.position() <= toks.len(),
                parse_args_spec(toks, a0, cs) == (terms_view_of(args), self.position()),
            decreases toks.len() - self.position(),
        {
            let ghost q = self.position();
            proof {
                use_type_invariant(&*self);
                assert(self.tokens@.len() == self.toks().len());
                assert(old(self).tokens@.len() == old(self).toks().len());
            }
            let r = self.parse_term();
            proof {
                assert(parse_term_spec(toks, q, cs) == (opt_term_view(r), self.position()));
            }
            match r {
                Some(t) => {
                    let ghost tv = t@;
                    let ghost before = terms_view_of(args);
                    args.push(t);
                    proof {
                        assert(terms_view_of(args) =~= before.push(tv));
                    }
                    if self.peek_sym(",") {
                        self.advance();
                        proof {
                            assert(before + (seq![tv] + parse_args_spec(toks, self.position(), cs).0)
                                =~= terms_view_of(args) + parse_args_spec(toks, self.position(), cs).0);
                        }
                    } else {
                        proof {
                            assert(!is_sym(toks, self.position(), s_comma()));
                            assert(parse_args_spec(toks, q, cs) == (seq![tv], self.position()));
                            assert(before + seq![tv] =~= terms_view_of(args));
                        }
                        break;
                    }
                },
                None => {
                    proof {
                        assert(parse_args_spec(toks, q, cs).0 =~= Seq::<TermV>::empty());
                        assert(terms_view_of(args) + Seq::<TermV>::empty() =~= terms_view_of(args));
                    }
                    break;
                },
            }
        }
        args
    }
}

} // verus!
