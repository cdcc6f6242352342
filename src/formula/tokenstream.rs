//! Lexical analysis of formula text into tokens that remember where they stand.
use vstd::prelude::*;

use crate::text::{int_text, int_to_text};

verus! {

/// A character with the Unicode `White_Space` property, as
/// `char::is_whitespace` documents it.
pub open spec fn space_char(c: char) -> bool {
    ||| '\u{9}' <= c && c <= '\u{d}'
    ||| c == ' '
    ||| c == '\u{85}'
    ||| c == '\u{a0}'
    ||| c == '\u{1680}'
    ||| '\u{2000}' <= c && c <= '\u{200a}'
    ||| c == '\u{2028}'
    ||| c == '\u{2029}'
    ||| c == '\u{202f}'
    ||| c == '\u{205f}'
    ||| c == '\u{3000}'
}

/// What `char::is_uppercase` answers for a character.
pub uninterp spec fn upper_char(c: char) -> bool;

/// What `char::is_lowercase` answers for a character.
pub uninterp spec fn lower_char(c: char) -> bool;

/// Whether `c` is whitespace.
pub(crate) fn is_space(c: char) -> (r: bool)
    ensures
        r == space_char(c),
{
    ('\u{9}' <= c && c <= '\u{d}') || c == ' ' || c == '\u{85}' || c == '\u{a0}' || c == '\u{1680}'
        || ('\u{2000}' <= c && c <= '\u{200a}') || c == '\u{2028}' || c == '\u{2029}' || c
        == '\u{202f}' || c == '\u{205f}' || c == '\u{3000}'
}

/// Relies on `char::is_uppercase`: the Unicode `Uppercase` property of `c`.
#[verifier::external_body]
fn is_upper(c: char) -> (r: bool)
    ensures
        r == upper_char(c),
{
    c.is_uppercase()
}

/// Relies on `char::is_lowercase`: the Unicode `Lowercase` property of `c`.
#[verifier::external_body]
fn is_lower(c: char) -> (r: bool)
    ensures
        r == lower_char(c),
{
    c.is_lowercase()
}

pub open spec fn is_digit(c: char) -> bool {
    '0' <= c && c <= '9'
}

pub open spec fn is_bracket(c: char) -> bool {
    c == '(' || c == ')' || c == '[' || c == ']'
}

/// The kinds of character runs that the lexer consumes greedily.
pub enum CharClass {
    /// Whitespace, skipped between tokens.
    Space,
    /// Decimal digits, forming a number.
    Digit,
    /// Lowercase letters, continuing an atom name.
    Lower,
    /// Anything that starts no other token: the text of an `Other` token.
    Loose,
}

fn is_loose(d: char) -> (r: bool)
    ensures
        r == in_class(d, CharClass::Loose),
{
    !(d == '(' || d == ')' || d == '[' || d == ']') && !('0' <= d && d <= '9') && !is_upper(d)
        && !is_space(d)
}

pub open spec fn in_class(c: char, k: CharClass) -> bool {
    match k {
        CharClass::Space => space_char(c),
        CharClass::Digit => is_digit(c),
        CharClass::Lower => lower_char(c),
        CharClass::Loose => !is_bracket(c) && !is_digit(c) && !upper_char(c) && !space_char(c),
    }
}

/// The end of the maximal run of class `k` that starts at `i`.
pub open spec fn run_end(s: Seq<char>, i: int, k: CharClass) -> int
    decreases s.len() - i,
{
    if 0 <= i < s.len() && in_class(s[i], k) {
        run_end(s, i + 1, k)
    } else {
        i
    }
}

pub open spec fn digit_value(c: char) -> nat {
    ((c as u32) - ('0' as u32)) as nat
}

/// The value of a run of decimal digits.
pub open spec fn digits_value(d: Seq<char>) -> nat
    decreases d.len(),
{
    if d.len() == 0 {
        0
    } else {
        digits_value(d.drop_last()) * 10 + digit_value(d.last())
    }
}

/// The location of one token in a formula: the offset of its first character
/// and the number of characters it spans.
#[derive(Debug, PartialEq, Eq, Structural, Clone, Copy)]
pub struct TokenLoc {
    pub start: usize,
    pub len: usize,
}

impl Default for TokenLoc {
    fn default() -> (r: Self)
        ensures
            r == (TokenLoc { start: 0, len: 0 }),
    {
        TokenLoc { start: 0, len: 0 }
    }
}

impl TokenLoc {
    /// Constructs a location from a start offset and a length.
    pub fn new(start: usize, len: usize) -> (r: Self)
        ensures
            r == (TokenLoc { start, len }),
    {
        TokenLoc { start, len }
    }
}

/// The mathematical content of a [`Token`].
pub enum Lexeme {
    OpenBracket(TokenLoc),
    CloseBracket(TokenLoc),
    OpenParen(TokenLoc),
    CloseParen(TokenLoc),
    Number(i64, TokenLoc),
    Atom(Seq<char>, TokenLoc),
    Other(Seq<char>, TokenLoc),
}

impl Lexeme {
    pub open spec fn loc(self) -> TokenLoc {
        match self {
            Lexeme::OpenBracket(l) => l,
            Lexeme::CloseBracket(l) => l,
            Lexeme::OpenParen(l) => l,
            Lexeme::CloseParen(l) => l,
            Lexeme::Number(_, l) => l,
            Lexeme::Atom(_, l) => l,
            Lexeme::Other(_, l) => l,
        }
    }

    /// Equal kind and payload, whatever the locations.
    pub open spec fn same_payload(self, o: Lexeme) -> bool {
        match (self, o) {
            (Lexeme::OpenBracket(_), Lexeme::OpenBracket(_)) => true,
            (Lexeme::CloseBracket(_), Lexeme::CloseBracket(_)) => true,
            (Lexeme::OpenParen(_), Lexeme::OpenParen(_)) => true,
            (Lexeme::CloseParen(_), Lexeme::CloseParen(_)) => true,
            (Lexeme::Number(a, _), Lexeme::Number(b, _)) => a == b,
            (Lexeme::Atom(a, _), Lexeme::Atom(b, _)) => a == b,
            (Lexeme::Other(a, _), Lexeme::Other(b, _)) => a == b,
            _ => false,
        }
    }
}

/// One lexical token of a formula, carrying its location.
#[derive(Debug)]
pub enum Token {
    /// An opening square bracket - `[`
    OpenBracket(TokenLoc),
    /// A closing square bracket - `]`
    CloseBracket(TokenLoc),
    /// An opening parenthesis - `(`
    OpenParen(TokenLoc),
    /// A closing parenthesis - `)`
    CloseParen(TokenLoc),
    /// A run of digits and its value
    Number(i64, TokenLoc),
    /// A capital followed by zero or more lowercase letters
    Atom(String, TokenLoc),
    /// Anything else, normally erroneous
    Other(String, TokenLoc),
}

impl View for Token {
    type V = Lexeme;

    open spec fn view(&self) -> Lexeme {
        match self {
            Token::OpenBracket(l) => Lexeme::OpenBracket(*l),
            Token::CloseBracket(l) => Lexeme::CloseBracket(*l),
            Token::OpenParen(l) => Lexeme::OpenParen(*l),
            Token::CloseParen(l) => Lexeme::CloseParen(*l),
            Token::Number(n, l) => Lexeme::Number(*n, *l),
            Token::Atom(s, l) => Lexeme::Atom(s@, *l),
            Token::Other(s, l) => Lexeme::Other(s@, *l),
        }
    }
}

impl Token {
    /// Gets the location of a token.
    pub fn get_loc(&self) -> (r: &TokenLoc)
        ensures
            *r == self@.loc(),
    {
        match self {
            Token::OpenBracket(loc) => loc,
            Token::CloseBracket(loc) => loc,
            Token::OpenParen(loc) => loc,
            Token::CloseParen(loc) => loc,
            Token::Number(_, loc) => loc,
            Token::Atom(_, loc) => loc,
            Token::Other(_, loc) => loc,
        }
    }
}

/// The text of a token: brackets as they are, a number after `#`, an atom
/// after `a` and anything else after `o`.
pub open spec fn token_text(t: Lexeme) -> Seq<char> {
    match t {
        Lexeme::OpenBracket(_) => seq!['['],
        Lexeme::CloseBracket(_) => seq![']'],
        Lexeme::OpenParen(_) => seq!['('],
        Lexeme::CloseParen(_) => seq![')'],
        Lexeme::Number(n, _) => seq!['#'] + int_text(n as int),
        Lexeme::Atom(s, _) => seq!['a'] + s,
        Lexeme::Other(s, _) => seq!['o'] + s,
    }
}

impl Token {
    /// The token as text, e.g. `#2` for the number 2 and `aRh` for rhodium.
    pub fn to_string(&self) -> (r: String)
        ensures
            r@ == token_text(self@),
    {
        proof {
            reveal_strlit("[");
            reveal_strlit("]");
            reveal_strlit("(");
            reveal_strlit(")");
            reveal_strlit("#");
            reveal_strlit("a");
            reveal_strlit("o");
        }
        match self {
            Token::OpenBracket(_) => String::from_str("["),
            Token::CloseBracket(_) => String::from_str("]"),
            Token::OpenParen(_) => String::from_str("("),
            Token::CloseParen(_) => String::from_str(")"),
            Token::Number(n, _) => String::from_str("#").concat(int_to_text(*n).as_str()),
            Token::Atom(s, _) => String::from_str("a").concat(s.as_str()),
            Token::Other(s, _) => String::from_str("o").concat(s.as_str()),
        }
    }
}

impl PartialEq for Token {
    fn eq(&self, other: &Self) -> (r: bool) {
        match (self, other) {
            (Token::OpenBracket(_), Token::OpenBracket(_)) => true,
            (Token::CloseBracket(_), Token::CloseBracket(_)) => true,
            (Token::OpenParen(_), Token::OpenParen(_)) => true,
            (Token::CloseParen(_), Token::CloseParen(_)) => true,
            (Token::Number(a, _), Token::Number(b, _)) => *a == *b,
            (Token::Atom(a, _), Token::Atom(b, _)) => *a == *b,
            (Token::Other(a, _), Token::Other(b, _)) => *a == *b,
            _ => false,
        }
    }
}

impl vstd::std_specs::cmp::PartialEqSpecImpl for Token {
    open spec fn obeys_eq_spec() -> bool {
        true
    }

    open spec fn eq_spec(&self, o: &Token) -> bool {
        self@.same_payload(o@)
    }
}

impl Eq for Token {

}

pub open spec fn loc_of(start: int, end: int) -> TokenLoc {
    TokenLoc { start: start as usize, len: (end - start) as usize }
}

/// The token that starts at or after offset `p` (after whitespace), and the
/// offset just past it; `None` when only whitespace remains.
pub open spec fn next_lexeme(s: Seq<char>, p: int) -> Option<(Lexeme, int)> {
    let q = run_end(s, p, CharClass::Space);
    if q < 0 || q >= s.len() {
        None
    } else {
        let c = s[q];
        if c == '(' {
            Some((Lexeme::OpenParen(loc_of(q, q + 1)), q + 1))
        } else if c == '[' {
            Some((Lexeme::OpenBracket(loc_of(q, q + 1)), q + 1))
        } else if c == ')' {
            Some((Lexeme::CloseParen(loc_of(q, q + 1)), q + 1))
        } else if c == ']' {
            Some((Lexeme::CloseBracket(loc_of(q, q + 1)), q + 1))
        } else if is_digit(c) {
            let e = run_end(s, q, CharClass::Digit);
            let v = digits_value(s.subrange(q, e));
            if v <= i64::MAX {
                Some((Lexeme::Number(v as i64, loc_of(q, e)), e))
            } else {
                Some((Lexeme::Other(s.subrange(q, e), loc_of(q, e)), e))
            }
        } else if upper_char(c) {
            let e = run_end(s, q + 1, CharClass::Lower);
            Some((Lexeme::Atom(s.subrange(q, e), loc_of(q, e)), e))
        } else {
            let e = run_end(s, q + 1, CharClass::Loose);
            Some((Lexeme::Other(s.subrange(q, e), loc_of(q, e)), e))
        }
    }
}

/// The tokens of `s` from offset `p` on.
pub open spec fn lex_from(s: Seq<char>, p: int) -> Seq<Lexeme>
    decreases s.len() - p,
{
    match next_lexeme(s, p) {
        Some((t, q)) => if p < q <= s.len() {
            seq![t] + lex_from(s, q)
        } else {
            Seq::empty()
        },
        None => Seq::empty(),
    }
}

/// The tokens of a whole formula.
pub open spec fn lex(s: Seq<char>) -> Seq<Lexeme> {
    lex_from(s, 0)
}

pub open spec fn lexemes(ts: Seq<Token>) -> Seq<Lexeme> {
    ts.map_values(|t: Token| t@)
}

pub proof fn lemma_run_end_bounds(s: Seq<char>, i: int, k: CharClass)
    requires
        0 <= i <= s.len(),
    ensures
        i <= run_end(s, i, k) <= s.len(),
        run_end(s, i, k) < s.len() ==> !in_class(s[run_end(s, i, k)], k),
    decreases s.len() - i,
{
    if i < s.len() && in_class(s[i], k) {
        lemma_run_end_bounds(s, i + 1, k);
    }
}

pub proof fn lemma_next_lexeme_advances(s: Seq<char>, p: int)
    requires
        0 <= p <= s.len(),
    ensures
        next_lexeme(s, p) matches Some((_, q)) ==> p < q <= s.len(),
{
    lemma_run_end_bounds(s, p, CharClass::Space);
    let q = run_end(s, p, CharClass::Space);
    if 0 <= q < s.len() {
        lemma_run_end_bounds(s, q, CharClass::Digit);
        lemma_run_end_bounds(s, q + 1, CharClass::Lower);
        lemma_run_end_bounds(s, q + 1, CharClass::Loose);
    }
}

/// The characters of a string, in order.
pub fn chars_of(text: &str) -> (r: Vec<char>)
    ensures
        r@ == text@,
{
    let mut chars: Vec<char> = Vec::new();
    for c in it: text.chars()
        invariant
            chars@ == it.seq().subrange(0, it.index() as int),
            it.seq() == text@,
    {
        chars.push(c);
    }
    assert(chars@ =~= text@);
    chars
}

pub open spec fn spaces(n: nat) -> Seq<char> {
    Seq::new(n, |_i: int| ' ')
}

pub open spec fn carets(n: nat) -> Seq<char> {
    Seq::new(n, |_i: int| '^')
}

/// The offset of the first newline of `s` at or after `i`, or the length of
/// `s` where there is none.
pub open spec fn line_end(s: Seq<char>, i: int) -> int
    decreases s.len() - i,
{
    if i < 0 || i >= s.len() {
        s.len() as int
    } else if s[i] == '\n' {
        i
    } else {
        line_end(s, i + 1)
    }
}

/// The line from `p` to the newline at `k`, without a carriage return before
/// that newline.
pub open spec fn line_text(s: Seq<char>, p: int, k: int) -> Seq<char> {
    if p < k < s.len() && s[k - 1] == '\r' {
        s.subrange(p, k - 1)
    } else {
        s.subrange(p, k)
    }
}

/// Each line of `s` from offset `p` on, as `str::lines` splits them, each on a
/// new line after `pad`.
pub open spec fn indented_lines(s: Seq<char>, p: int, pad: Seq<char>) -> Seq<char>
    decreases s.len() - p,
{
    if p < 0 || p >= s.len() {
        Seq::empty()
    } else {
        let k = line_end(s, p);
        let first = seq!['\n'] + pad + line_text(s, p, k);
        if p <= k < s.len() {
            first + indented_lines(s, k + 1, pad)
        } else {
            first
        }
    }
}

/// The formula after the message, a line with carets under the span of `loc`,
/// and the lines of `diag` aligned with the carets.
pub open spec fn diagnostic(loc: TokenLoc, formula: Seq<char>, msg: Seq<char>, diag: Seq<char>) -> Seq<
    char,
> {
    let pad = spaces((msg.len() + 2 + loc.start) as nat);
    msg + seq![':', ' '] + formula + seq!['\n'] + pad + carets(loc.len as nat) + indented_lines(
        diag,
        0,
        pad,
    )
}

/// Appends `n` copies of a one-character string.
pub(crate) fn append_copies(out: &mut String, unit: &str, n: usize)
    requires
        unit@.len() == 1,
    ensures
        final(out)@ == old(out)@ + Seq::new(n as nat, |_i: int| unit@[0]),
{
    let ghost start = out@;
    let mut i: usize = 0;
    while i < n
        invariant
            unit@.len() == 1,
            i <= n,
            out@ == start + Seq::new(i as nat, |_i: int| unit@[0]),
        decreases n - i,
    {
        out.append(unit);
        assert(Seq::new((i + 1) as nat, |_i: int| unit@[0]) =~= Seq::new(i as nat, |_i: int| unit@[0])
            + unit@);
        i = i + 1;
    }
}

impl TokenLoc {
    /// The formula after `msg`, with carets under this location and the lines
    /// of `diag` under the carets.
    pub fn format_msg(&self, formula: &str, msg: &str, diag: &str) -> (r: String)
        ensures
            r@ == diagnostic(*self, formula@, msg@, diag@),
    {
        proof {
            reveal_strlit(" ");
            reveal_strlit("^");
            reveal_strlit(": ");
            reveal_strlit("\n");
        }
        let mut pad = String::new();
        append_copies(&mut pad, " ", msg.unicode_len());
        append_copies(&mut pad, " ", 2);
        append_copies(&mut pad, " ", self.start);
        assert(pad@ =~= spaces((msg@.len() + 2 + self.start) as nat));
        let mut out = String::from_str(msg);
        out.append(": ");
        out.append(formula);
        out.append("\n");
        out.append(pad.as_str());
        append_copies(&mut out, "^", self.len);
        assert(Seq::new(self.len as nat, |_i: int| "^"@[0]) =~= carets(self.len as nat));
        let ghost head = out@;
        let ghost s = diag@;
        let chars = chars_of(diag);
        let n = chars.len();
        let mut p: usize = 0;
        assert(head + indented_lines(s, 0, pad@) =~= diagnostic(*self, formula@, msg@, diag@));
        while p < n
            invariant
                n == s.len(),
                chars@ == s,
                s == diag@,
                p <= n,
                out@ + indented_lines(s, p as int, pad@) == diagnostic(*self, formula@, msg@, diag@),
                "\n"@ == seq!['\n'],
            decreases n - p,
        {
            let mut k = p;
            while k < n && chars[k] != '\n'
                invariant
                    n == s.len(),
                    chars@ == s,
                    p <= k <= n,
                    line_end(s, p as int) == line_end(s, k as int),
                decreases n - k,
            {
                k = k + 1;
            }
            let e = if k < n && k > p && chars[k - 1] == '\r' {
                k - 1
            } else {
                k
            };
            let ghost before = out@;
            out.append("\n");
            out.append(pad.as_str());
            out.append(diag.substring_char(p, e));
            proof {
                assert(line_text(s, p as int, k as int) == s.subrange(p as int, e as int));
                if k < n {
                    assert(out@ + indented_lines(s, k + 1, pad@) =~= before + indented_lines(
                        s,
                        p as int,
                        pad@,
                    ));
                } else {
                    assert(out@ =~= before + indented_lines(s, p as int, pad@));
                    assert(indented_lines(s, n as int, pad@) =~= Seq::<char>::empty());
                }
            }
            p = if k < n {
                k + 1
            } else {
                n
            };
        }
        assert(out@ + indented_lines(s, p as int, pad@) =~= out@);
        out
    }
}

/// A single-pass stream of the tokens of a formula.
pub struct TokenStream<'a> {
    text: &'a str,
    chars: Vec<char>,
    pos: usize,
}

impl<'a> TokenStream<'a> {
    pub closed spec fn wf(&self) -> bool {
        &&& self.chars@ == self.text@
        &&& self.pos <= self.chars.len()
    }

    /// The tokens that the stream has still to hand out.
    pub closed spec fn remaining(&self) -> Seq<Lexeme> {
        lex_from(self.chars@, self.pos as int)
    }

    /// Creates a stream over the tokens of a formula.
    pub fn new(formula: &'a str) -> (r: Self)
        ensures
            r.wf(),
            r.remaining() == lex(formula@),
    {
        TokenStream { text: formula, chars: chars_of(formula), pos: 0 }
    }

    /// Hands out the next token, or `None` when only whitespace remains.
    pub fn next(&mut self) -> (r: Option<Token>)
        requires
            old(self).wf(),
        ensures
            final(self).wf(),
            match r {
                Some(t) => old(self).remaining() == seq![t@] + final(self).remaining(),
                None => old(self).remaining().len() == 0 && final(self).remaining().len() == 0,
            },
    {
        let ghost s = self.chars@;
        let n = self.chars.len();
        let mut q = self.pos;
        while q < n && is_space(self.chars[q])
            invariant
                s == self.chars@,
                n == s.len(),
                self.wf(),
                self.pos <= q <= n,
                run_end(s, self.pos as int, CharClass::Space) == run_end(s, q as int, CharClass::Space),
            decreases n - q,
        {
            q = q + 1;
        }
        proof {
            lemma_next_lexeme_advances(s, self.pos as int);
        }
        if q >= n {
            return None;
        }
        let c = self.chars[q];
        let tok;
        let mut e: usize = q + 1;
        if c == '(' {
            tok = Token::OpenParen(TokenLoc::new(q, 1));
        } else if c == '[' {
            tok = Token::OpenBracket(TokenLoc::new(q, 1));
        } else if c == ')' {
            tok = Token::CloseParen(TokenLoc::new(q, 1));
        } else if c == ']' {
            tok = Token::CloseBracket(TokenLoc::new(q, 1));
        } else if '0' <= c && c <= '9' {
            let mut fits = true;
            let mut val: i64 = 0;
            e = q;
            while e < n && '0' <= self.chars[e] && self.chars[e] <= '9'
                invariant
                    s == self.chars@,
                    n == s.len(),
                    q <= e <= n,
                    run_end(s, q as int, CharClass::Digit) == run_end(s, e as int, CharClass::Digit),
                    fits ==> val == digits_value(s.subrange(q as int, e as int)),
                    !fits ==> digits_value(s.subrange(q as int, e as int)) > i64::MAX,
                    0 <= val,
                decreases n - e,
            {
                let ghost before = s.subrange(q as int, e as int);
                assert(s.subrange(q as int, e + 1).drop_last() =~= before);
                let d = (self.chars[e] as u32 - '0' as u32) as i64;
                assert(d == digit_value(s[e as int]));
                assert(0 <= d <= 9);
                if fits {
                    if val <= (i64::MAX - d) / 10 {
                        assert(val * 10 + d <= i64::MAX) by (nonlinear_arith)
                            requires
                                val <= (i64::MAX - d) / 10,
                                0 <= d <= 9,
                        ;
                        val = val * 10 + d;
                    } else {
                        assert(val * 10 + d > i64::MAX) by (nonlinear_arith)
                            requires
                                val > (i64::MAX - d) / 10,
                                0 <= d <= 9,
                        ;
                        fits = false;
                    }
                }
                e = e + 1;
            }
            if fits {
                tok = Token::Number(val, TokenLoc::new(q, e - q));
            } else {
                let text = String::from_str(self.text.substring_char(q, e));
                tok = Token::Other(text, TokenLoc::new(q, e - q));
            }
        } else if is_upper(c) {
            while e < n && is_lower(self.chars[e])
                invariant
                    s == self.chars@,
                    n == s.len(),
                    q + 1 <= e <= n,
                    run_end(s, q + 1, CharClass::Lower) == run_end(s, e as int, CharClass::Lower),
                decreases n - e,
            {
                e = e + 1;
            }
            let text = String::from_str(self.text.substring_char(q, e));
            tok = Token::Atom(text, TokenLoc::new(q, e - q));
        } else {
            while e < n && is_loose(self.chars[e])
                invariant
                    s == self.chars@,
                    n == s.len(),
                    q + 1 <= e <= n,
                    run_end(s, q + 1, CharClass::Loose) == run_end(s, e as int, CharClass::Loose),
                decreases n - e,
            {
                e = e + 1;
            }
            let text = String::from_str(self.text.substring_char(q, e));
            tok = Token::Other(text, TokenLoc::new(q, e - q));
        }
        self.pos = e;
        Some(tok)
    }
}

/// All the tokens of a formula, in order.
pub fn tokenize(formula: &str) -> (r: Vec<Token>)
    ensures
        lexemes(r@) == lex(formula@),
{
    let mut ts = TokenStream::new(formula);
    let mut out: Vec<Token> = Vec::new();
    loop
        invariant
            ts.wf(),
            lexemes(out@) + ts.remaining() == lex(formula@),
        ensures
            lexemes(out@) == lex(formula@),
        decreases ts.remaining().len(),
    {
        match ts.next() {
            Some(t) => {
                proof {
                    assert(lexemes(out@.push(t)) =~= lexemes(out@).push(t@));
                }
                out.push(t);
            },
            None => {
                assert(lexemes(out@) =~= lex(formula@));
                break ;
            },
        }
    }
    out
}

} // verus!
