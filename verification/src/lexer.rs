use vstd::prelude::*;

use vstd::std_specs::iter::IteratorSpec;
use crate::text::{debug_escaped, debug_text, decimal, push_char, push_decimal, push_str};

verus! {

broadcast use vstd::string::group_string_axioms;

/// A position in the source: the character range `start..end`, and the
/// line and column (both counted from 1) at which it begins.
#[derive(Clone, Copy, PartialEq, Eq, Structural)]
pub struct Span {
    pub start: usize,
    pub end: usize,
    pub line: usize,
    pub col: usize,
}

/// The text `l<line>c<col>` that the span is shown as.
pub open spec fn span_text(s: Span) -> Seq<char> {
    seq!['l'] + decimal(s.line as nat) + seq!['c'] + decimal(s.col as nat)
}

impl Span {
    /// The span shown as `l<line>c<col>`.
    pub fn describe(&self) -> (r: String)
        ensures
            r@ == span_text(*self),
    {
        let mut r = String::new();
        push_char(&mut r, 'l');
        push_decimal(&mut r, self.line);
        push_char(&mut r, 'c');
        push_decimal(&mut r, self.col);
        r
    }
}

/// Builds a span.
pub fn span(s: usize, e: usize, l: usize, c: usize) -> (r: Span)
    ensures
        r == (Span { start: s, end: e, line: l, col: c }),
{
    Span { start: s, end: e, line: l, col: c }
}

#[derive(Clone, Copy, PartialEq, Eq, Structural)]
pub enum Keyword {
    Fn,
    If,
    Else,
    Return,
    Struct,
}

/// The name of a keyword, as `Debug` writes it.
pub open spec fn keyword_name(k: Keyword) -> Seq<char> {
    match k {
        Keyword::Fn => seq!['F', 'n'],
        Keyword::If => seq!['I', 'f'],
        Keyword::Else => seq!['E', 'l', 's', 'e'],
        Keyword::Return => seq!['R', 'e', 't', 'u', 'r', 'n'],
        Keyword::Struct => seq!['S', 't', 'r', 'u', 'c', 't'],
    }
}

impl Keyword {
    /// The keyword's name (`Fn`, `If`, `Else`, `Return`, `Struct`).
    pub fn name(&self) -> (r: String)
        ensures
            r@ == keyword_name(*self),
    {
        let mut r = String::new();
        match self {
            Keyword::Fn => {
                push_char(&mut r, 'F');
                push_char(&mut r, 'n');
            },
            Keyword::If => {
                push_char(&mut r, 'I');
                push_char(&mut r, 'f');
            },
            Keyword::Else => {
                push_char(&mut r, 'E');
                push_char(&mut r, 'l');
                push_char(&mut r, 's');
                push_char(&mut r, 'e');
            },
            Keyword::Return => {
                push_char(&mut r, 'R');
                push_char(&mut r, 'e');
                push_char(&mut r, 't');
                push_char(&mut r, 'u');
                push_char(&mut r, 'r');
                push_char(&mut r, 'n');
            },
            Keyword::Struct => {
                push_char(&mut r, 'S');
                push_char(&mut r, 't');
                push_char(&mut r, 'r');
                push_char(&mut r, 'u');
                push_char(&mut r, 'c');
                push_char(&mut r, 't');
            },
        }
        assert(r@ =~= keyword_name(*self));
        r
    }
}

pub enum Token {
    Ident(String, Span),
    Num(String, Span),
    Keyword(Keyword, Span),
    /// One or two characters, such as `+` or `+=`.
    Symbol(String, Span),
    EOF,
}

/// A token with its text as a sequence of characters.
pub enum TokenView {
    Ident(Seq<char>, Span),
    Num(Seq<char>, Span),
    Keyword(Keyword, Span),
    Symbol(Seq<char>, Span),
    EOF,
}

impl View for Token {
    type V = TokenView;

    open spec fn view(&self) -> TokenView {
        match self {
            Token::Ident(s, sp) => TokenView::Ident(s@, *sp),
            Token::Num(s, sp) => TokenView::Num(s@, *sp),
            Token::Keyword(k, sp) => TokenView::Keyword(*k, *sp),
            Token::Symbol(s, sp) => TokenView::Symbol(s@, *sp),
            Token::EOF => TokenView::EOF,
        }
    }
}

impl Clone for Token {
    fn clone(&self) -> (r: Self)
        ensures
            r@ == self@,
    {
        match self {
            Token::Ident(s, sp) => Token::Ident(s.clone(), *sp),
            Token::Num(s, sp) => Token::Num(s.clone(), *sp),
            Token::Keyword(k, sp) => Token::Keyword(*k, *sp),
            Token::Symbol(s, sp) => Token::Symbol(s.clone(), *sp),
            Token::EOF => Token::EOF,
        }
    }
}

/// How a token is shown, e.g. `ident "x" at l1c5`, `kw Fn at l1c1`, `eof`.
pub open spec fn token_text(t: TokenView) -> Seq<char> {
    match t {
        TokenView::Ident(s, sp) => seq!['i', 'd', 'e', 'n', 't', ' '] + debug_escaped(s) + seq![
            ' ',
            'a',
            't',
            ' ',
        ] + span_text(sp),
        TokenView::Num(s, sp) => seq!['n', 'u', 'm', 'b', 'e', 'r', ' '] + debug_escaped(s) + seq![
            ' ',
            'a',
            't',
            ' ',
        ] + span_text(sp),
        TokenView::Keyword(k, sp) => seq!['k', 'w', ' '] + keyword_name(k) + seq![' ', 'a', 't', ' ']
            + span_text(sp),
        TokenView::Symbol(s, sp) => seq!['s', 'y', 'm', 'b', 'o', 'l', ' '] + debug_escaped(s)
            + seq![' ', 'a', 't', ' '] + span_text(sp),
        TokenView::EOF => seq!['e', 'o', 'f'],
    }
}

/// The token's symbol text, if it is a symbol.
pub open spec fn symbol_of(t: TokenView) -> Option<Seq<char>> {
    match t {
        TokenView::Symbol(s, _) => Some(s),
        _ => None,
    }
}

pub open spec fn is_assignment_text(s: Seq<char>) -> bool {
    ||| s == seq!['=']
    ||| s == seq!['+', '=']
    ||| s == seq!['-', '=']
    ||| s == seq!['*', '=']
    ||| s == seq!['/', '=']
}

pub open spec fn is_vardec_text(s: Seq<char>) -> bool {
    ||| s == seq![':', '=']
    ||| s == seq![':']
    ||| s == seq![':', ':']
}

/// A `String` holding the characters of a string literal.
fn string_of(lit: &str) -> (r: String)
    ensures
        r@ == lit@,
{
    String::from_str(lit)
}

impl Token {
    /// The token as its `Display` and `Debug` implementations write it.
    pub fn describe(&self) -> (r: String)
        ensures
            r@ == token_text(self@),
    {
        let mut r = String::new();
        match self {
            Token::Ident(s, sp) => {
                push_str(&mut r, "ident ");
                push_str(&mut r, debug_text(s).as_str());
                push_str(&mut r, " at ");
                push_str(&mut r, sp.describe().as_str());
            },
            Token::Num(s, sp) => {
                push_str(&mut r, "number ");
                push_str(&mut r, debug_text(s).as_str());
                push_str(&mut r, " at ");
                push_str(&mut r, sp.describe().as_str());
            },
            Token::Keyword(k, sp) => {
                push_str(&mut r, "kw ");
                push_str(&mut r, k.name().as_str());
                push_str(&mut r, " at ");
                push_str(&mut r, sp.describe().as_str());
            },
            Token::Symbol(s, sp) => {
                push_str(&mut r, "symbol ");
                push_str(&mut r, debug_text(s).as_str());
                push_str(&mut r, " at ");
                push_str(&mut r, sp.describe().as_str());
            },
            Token::EOF => {
                push_str(&mut r, "eof");
            },
        }
        proof {
            reveal_strlit("ident ");
            reveal_strlit("number ");
            reveal_strlit("kw ");
            reveal_strlit("symbol ");
            reveal_strlit(" at ");
            reveal_strlit("eof");
        }
        assert(r@ =~= token_text(self@));
        r
    }

    pub fn is_kw(&self, kw: Keyword) -> (r: bool)
        ensures
            r == (self@ matches TokenView::Keyword(k, _) && k == kw),
    {
        if let Token::Keyword(k, _) = self {
            *k == kw
        } else {
            false
        }
    }

    pub fn is_symbol(&self, symbol: &'static str) -> (r: bool)
        ensures
            r == (symbol_of(self@) == Some(symbol@)),
    {
        if let Token::Symbol(s, _) = self {
            *s == string_of(symbol)
        } else {
            false
        }
    }

    pub fn is_ident(&self) -> (r: bool)
        ensures
            r == (self@ is Ident),
    {
        if let Token::Ident(_, _) = self {
            true
        } else {
            false
        }
    }

    /// Whether the token is one of `=`, `+=`, `-=`, `*=`, `/=`.
    pub fn is_assingment_symbol(&self) -> (r: bool)
        ensures
            r == (self@ matches TokenView::Symbol(s, _) && is_assignment_text(s)),
    {
        proof {
            reveal_strlit("=");
            reveal_strlit("+=");
            reveal_strlit("-=");
            reveal_strlit("*=");
            reveal_strlit("/=");
        }
        if let Token::Symbol(s, _) = self {
            proof {
                assert("="@ =~= seq!['=']);
                assert("+="@ =~= seq!['+', '=']);
                assert("-="@ =~= seq!['-', '=']);
                assert("*="@ =~= seq!['*', '=']);
                assert("/="@ =~= seq!['/', '=']);
            }
            *s == string_of("=") || *s == string_of("+=") || *s == string_of("-=") || *s
                == string_of("*=") || *s == string_of("/=")
        } else {
            false
        }
    }

    /// Whether the token is one of `:=`, `:`, `::`.
    pub fn is_vardec_symbol(&self) -> (r: bool)
        ensures
            r == (self@ matches TokenView::Symbol(s, _) && is_vardec_text(s)),
    {
        proof {
            reveal_strlit(":=");
            reveal_strlit(":");
            reveal_strlit("::");
        }
        if let Token::Symbol(s, _) = self {
            proof {
                assert(":="@ =~= seq![':', '=']);
                assert(":"@ =~= seq![':']);
                assert("::"@ =~= seq![':', ':']);
            }
            *s == string_of(":=") || *s == string_of(":") || *s == string_of("::")
        } else {
            false
        }
    }
}

// ---------------------------------------------------------------------------
// Characters
// ---------------------------------------------------------------------------

pub open spec fn is_ident_start(c: char) -> bool {
    ('a' <= c && c <= 'z') || ('A' <= c && c <= 'Z') || c == '_'
}

pub open spec fn is_digit(c: char) -> bool {
    '0' <= c && c <= '9'
}

pub open spec fn is_ident_char(c: char) -> bool {
    is_ident_start(c) || is_digit(c)
}

/// The characters that start a symbol token.
pub open spec fn is_symbol_start(c: char) -> bool {
    ||| c == '('
    ||| c == ')'
    ||| c == '{'
    ||| c == '}'
    ||| c == '['
    ||| c == ']'
    ||| c == ':'
    ||| c == ','
    ||| c == '+'
    ||| c == '-'
    ||| c == '*'
    ||| c == '/'
    ||| c == '='
    ||| c == '!'
    ||| c == '<'
    ||| c == '>'
    ||| c == ';'
}

/// The characters that, followed by `=`, make a two-character symbol.
pub open spec fn takes_equals(c: char) -> bool {
    ||| c == '='
    ||| c == '+'
    ||| c == '-'
    ||| c == '*'
    ||| c == '/'
    ||| c == '!'
    ||| c == '<'
    ||| c == '>'
    ||| c == ':'
}

/// The characters with the Unicode `White_Space` property.
pub open spec fn is_white_space(c: char) -> bool {
    let n = c as u32;
    ||| 0x09 <= n <= 0x0d
    ||| n == 0x20
    ||| n == 0x85
    ||| n == 0xa0
    ||| n == 0x1680
    ||| 0x2000 <= n <= 0x200a
    ||| n == 0x2028
    ||| n == 0x2029
    ||| n == 0x202f
    ||| n == 0x205f
    ||| n == 0x3000
}

/// Whether `c` has the Unicode `White_Space` property (what
/// `char::is_whitespace` tells).
fn char_is_whitespace(c: char) -> (r: bool)
    ensures
        r == is_white_space(c),
{
    let n: u32 = c as u32;
    (0x09 <= n && n <= 0x0d) || n == 0x20 || n == 0x85 || n == 0xa0 || n == 0x1680 || (0x2000 <= n
        && n <= 0x200a) || n == 0x2028 || n == 0x2029 || n == 0x202f || n == 0x205f || n == 0x3000
}

fn char_is_ident_start(c: char) -> (r: bool)
    ensures
        r == is_ident_start(c),
{
    ('a' <= c && c <= 'z') || ('A' <= c && c <= 'Z') || c == '_'
}

fn char_is_digit(c: char) -> (r: bool)
    ensures
        r == is_digit(c),
{
    '0' <= c && c <= '9'
}

fn char_is_symbol_start(c: char) -> (r: bool)
    ensures
        r == is_symbol_start(c),
{
    c == '(' || c == ')' || c == '{' || c == '}' || c == '[' || c == ']' || c == ':' || c == ','
        || c == '+' || c == '-' || c == '*' || c == '/' || c == '=' || c == '!' || c == '<' || c
        == '>' || c == ';'
}

fn char_takes_equals(c: char) -> (r: bool)
    ensures
        r == takes_equals(c),
{
    c == '=' || c == '+' || c == '-' || c == '*' || c == '/' || c == '!' || c == '<' || c == '>'
        || c == ':'
}

// ---------------------------------------------------------------------------
// The token stream of a text
// ---------------------------------------------------------------------------

/// The end of the run of identifier characters that starts at `i`.
pub open spec fn ident_end(chars: Seq<char>, i: int) -> int
    decreases chars.len() - i,
{
    if 0 <= i < chars.len() && is_ident_char(chars[i]) {
        ident_end(chars, i + 1)
    } else {
        i
    }
}

/// The end of the run of digits that starts at `i`.
pub open spec fn digits_end(chars: Seq<char>, i: int) -> int
    decreases chars.len() - i,
{
    if 0 <= i < chars.len() && is_digit(chars[i]) {
        digits_end(chars, i + 1)
    } else {
        i
    }
}

/// The length of the symbol that starts at `i`: two characters for
/// `==`, `+=`, `-=`, `*=`, `/=`, `!=`, `<=`, `>=`, `:=`, else one.
pub open spec fn symbol_len(chars: Seq<char>, i: int) -> int {
    if i + 1 < chars.len() && takes_equals(chars[i]) && chars[i + 1] == '=' {
        2
    } else {
        1
    }
}

/// The keyword spelled by `s`, if any (`otherwise` is another spelling of `else`).
pub open spec fn keyword_of(s: Seq<char>) -> Option<Keyword> {
    if s == seq!['f', 'n'] {
        Some(Keyword::Fn)
    } else if s == seq!['i', 'f'] {
        Some(Keyword::If)
    } else if s == seq!['e', 'l', 's', 'e'] {
        Some(Keyword::Else)
    } else if s == seq!['o', 't', 'h', 'e', 'r', 'w', 'i', 's', 'e'] {
        Some(Keyword::Else)
    } else if s == seq!['r', 'e', 't', 'u', 'r', 'n'] {
        Some(Keyword::Return)
    } else if s == seq!['s', 't', 'r', 'u', 'c', 't'] {
        Some(Keyword::Struct)
    } else {
        None
    }
}

pub open spec fn mk_span(start: int, end: int, line: int, col: int) -> Span {
    Span { start: start as usize, end: end as usize, line: line as usize, col: col as usize }
}

/// The word token for the characters `i..j`: a keyword or an identifier.
pub open spec fn word_token(chars: Seq<char>, i: int, j: int, line: int, col: int) -> TokenView {
    let text = chars.subrange(i, j);
    match keyword_of(text) {
        Some(k) => TokenView::Keyword(k, mk_span(i, j, line, col)),
        None => TokenView::Ident(text, mk_span(i, j, line, col)),
    }
}

pub proof fn lemma_ident_end(chars: Seq<char>, i: int)
    requires
        0 <= i <= chars.len(),
    ensures
        i <= ident_end(chars, i) <= chars.len(),
        forall|k: int| i <= k < ident_end(chars, i) ==> is_ident_char(#[trigger] chars[k]),
        ident_end(chars, i) < chars.len() ==> !is_ident_char(chars[ident_end(chars, i)]),
    decreases chars.len() - i,
{
    if i < chars.len() && is_ident_char(chars[i]) {
        lemma_ident_end(chars, i + 1);
    }
}

pub proof fn lemma_digits_end(chars: Seq<char>, i: int)
    requires
        0 <= i <= chars.len(),
    ensures
        i <= digits_end(chars, i) <= chars.len(),
        forall|k: int| i <= k < digits_end(chars, i) ==> is_digit(#[trigger] chars[k]),
        digits_end(chars, i) < chars.len() ==> !is_digit(chars[digits_end(chars, i)]),
    decreases chars.len() - i,
{
    if i < chars.len() && is_digit(chars[i]) {
        lemma_digits_end(chars, i + 1);
    }
}

/// The tokens of `chars` from position `i` on, where position `i` lies at
/// `line` and `col`; or the first character that no token can start with.
/// Whitespace separates tokens; a newline moves to column 1 of the next line.
pub open spec fn lex_from(chars: Seq<char>, i: int, line: int, col: int) -> Result<
    Seq<TokenView>,
    char,
>
    decreases chars.len() - i,
{
    if i < 0 || i >= chars.len() {
        Ok(seq![TokenView::EOF])
    } else {
        let c = chars[i];
        if is_ident_start(c) {
            let j = ident_end(chars, i);
            proof {
                lemma_ident_end(chars, i);
            }
            prepend(seq![word_token(chars, i, j, line, col)], lex_from(chars, j, line, col + (j - i)))
        } else if is_digit(c) {
            let j = digits_end(chars, i);
            proof {
                lemma_digits_end(chars, i);
            }
            prepend(
                seq![TokenView::Num(chars.subrange(i, j), mk_span(i, j, line, col))],
                lex_from(chars, j, line, col + (j - i)),
            )
        } else if is_symbol_start(c) {
            let j = i + symbol_len(chars, i);
            prepend(
                seq![TokenView::Symbol(chars.subrange(i, j), mk_span(i, j, line, col))],
                lex_from(chars, j, line, col + (j - i)),
            )
        } else if is_white_space(c) {
            if c == '\n' {
                lex_from(chars, i + 1, line + 1, 1)
            } else {
                lex_from(chars, i + 1, line, col + 1)
            }
        } else {
            Err(c)
        }
    }
}

/// The tokens of a whole text.
pub open spec fn lex(chars: Seq<char>) -> Result<Seq<TokenView>, char> {
    lex_from(chars, 0, 1, 1)
}

/// `ts` put in front of the tokens of `r`, if it has any.
pub open spec fn prepend(ts: Seq<TokenView>, r: Result<Seq<TokenView>, char>) -> Result<
    Seq<TokenView>,
    char,
> {
    match r {
        Ok(rest) => Ok(ts + rest),
        Err(e) => Err(e),
    }
}

pub proof fn lemma_prepend_assoc(a: Seq<TokenView>, b: Seq<TokenView>, r: Result<Seq<TokenView>, char>)
    ensures
        prepend(a, prepend(b, r)) == prepend(a + b, r),
        prepend(Seq::empty(), r) == r,
{
    match r {
        Ok(rest) => {
            assert(a + (b + rest) =~= (a + b) + rest);
            assert(Seq::<TokenView>::empty() + rest =~= rest);
        },
        Err(_) => {},
    }
}

/// The message of a lexing error at character `c`.
pub open spec fn invalid_char_message(c: char) -> Seq<char> {
    seq!['I', 'n', 'v', 'a', 'l', 'i', 'd', ' ', 'c', 'h', 'a', 'r', ' ', c]
}


// ---------------------------------------------------------------------------
// What the token stream says of the text
// ---------------------------------------------------------------------------

/// The line of position `i`: one more than the newlines before it.
pub open spec fn line_of(chars: Seq<char>, i: int) -> int
    decreases i,
{
    if i <= 0 || i > chars.len() {
        1
    } else {
        line_of(chars, i - 1) + if chars[i - 1] == '\n' {
            1int
        } else {
            0int
        }
    }
}

/// The column of position `i`: one more than the characters between it and
/// the newline before it (or the start of the text).
pub open spec fn col_of(chars: Seq<char>, i: int) -> int
    decreases i,
{
    if i <= 0 || i > chars.len() {
        1
    } else if chars[i - 1] == '\n' {
        1
    } else {
        col_of(chars, i - 1) + 1
    }
}

pub open spec fn span_start(t: TokenView) -> int {
    match t {
        TokenView::Ident(_, sp) => sp.start as int,
        TokenView::Num(_, sp) => sp.start as int,
        TokenView::Keyword(_, sp) => sp.start as int,
        TokenView::Symbol(_, sp) => sp.start as int,
        TokenView::EOF => 0,
    }
}

pub open spec fn span_end(t: TokenView) -> int {
    match t {
        TokenView::Ident(_, sp) => sp.end as int,
        TokenView::Num(_, sp) => sp.end as int,
        TokenView::Keyword(_, sp) => sp.end as int,
        TokenView::Symbol(_, sp) => sp.end as int,
        TokenView::EOF => 0,
    }
}

/// The span `sp` covers a non-empty part of `chars` and gives the line and
/// column where it starts.
pub open spec fn span_ok(chars: Seq<char>, sp: Span) -> bool {
    &&& 0 <= sp.start < sp.end <= chars.len()
    &&& sp.line == line_of(chars, sp.start as int)
    &&& sp.col == col_of(chars, sp.start as int)
}

/// A token that is not the end holds the text its span covers (a keyword:
/// the keyword that text spells).
pub open spec fn token_ok(chars: Seq<char>, t: TokenView) -> bool {
    match t {
        TokenView::Ident(s, sp) => span_ok(chars, sp) && s == chars.subrange(
            sp.start as int,
            sp.end as int,
        ) && keyword_of(s) is None,
        TokenView::Num(s, sp) => span_ok(chars, sp) && s == chars.subrange(
            sp.start as int,
            sp.end as int,
        ),
        TokenView::Keyword(k, sp) => span_ok(chars, sp) && keyword_of(
            chars.subrange(sp.start as int, sp.end as int),
        ) == Some(k),
        TokenView::Symbol(s, sp) => span_ok(chars, sp) && s == chars.subrange(
            sp.start as int,
            sp.end as int,
        ),
        TokenView::EOF => false,
    }
}

/// Position `c` lies in the span of one of the tokens `ts` (the last, the
/// end of the input, aside).
pub open spec fn covered(ts: Seq<TokenView>, c: int) -> bool {
    exists|k: int| 0 <= k < ts.len() - 1 && span_start(#[trigger] ts[k]) <= c < span_end(ts[k])
}

/// The tokens end with the end of the input, and only there; the others
/// hold their texts, in order, from position `i` on; and every character
/// from `i` on that no token covers is whitespace.
pub open spec fn tokens_shape(chars: Seq<char>, ts: Seq<TokenView>, i: int) -> bool {
    &&& ts.len() > 0
    &&& ts.last() is EOF
    &&& forall|k: int| 0 <= k < ts.len() - 1 ==> #[trigger] token_ok(chars, ts[k])
    &&& forall|k: int| 0 <= k < ts.len() - 1 ==> i <= #[trigger] span_start(ts[k])
    &&& forall|k1: int, k2: int|
        0 <= k1 < k2 < ts.len() - 1 ==> span_end(#[trigger] ts[k1]) <= span_start(#[trigger] ts[k2])
    &&& forall|c: int| i <= c < chars.len() && !covered(ts, c) ==> is_white_space(#[trigger] chars[c])
}

proof fn lemma_line_col_bounds(chars: Seq<char>, i: int)
    requires
        0 <= i <= chars.len(),
    ensures
        1 <= line_of(chars, i) <= i + 1,
        1 <= col_of(chars, i) <= i + 1,
    decreases i,
{
    if i > 0 {
        lemma_line_col_bounds(chars, i - 1);
    }
}

proof fn lemma_no_newline_advance(chars: Seq<char>, i: int, j: int)
    requires
        0 <= i <= j <= chars.len(),
        forall|k: int| i <= k < j ==> chars[k] != '\n',
    ensures
        line_of(chars, j) == line_of(chars, i),
        col_of(chars, j) == col_of(chars, i) + (j - i),
    decreases j - i,
{
    if i < j {
        lemma_no_newline_advance(chars, i, j - 1);
    }
}

proof fn lemma_shape_cons(chars: Seq<char>, t: TokenView, rest: Seq<TokenView>, i: int, j: int)
    requires
        token_ok(chars, t),
        span_start(t) == i,
        span_end(t) == j,
        tokens_shape(chars, rest, j),
    ensures
        tokens_shape(chars, seq![t] + rest, i),
{
    let ts = seq![t] + rest;
    assert(ts.last() == rest.last());
    assert forall|k: int| 0 <= k < ts.len() - 1 implies #[trigger] token_ok(chars, ts[k]) && i
        <= span_start(ts[k]) by {
        if k > 0 {
            assert(ts[k] == rest[k - 1]);
        }
    }
    assert forall|k1: int, k2: int| 0 <= k1 < k2 < ts.len() - 1 implies span_end(#[trigger] ts[k1])
        <= span_start(#[trigger] ts[k2]) by {
        assert(ts[k2] == rest[k2 - 1]);
        if k1 > 0 {
            assert(ts[k1] == rest[k1 - 1]);
        } else {
            assert(j <= span_start(rest[k2 - 1]));
        }
    }
    assert forall|c: int| i <= c < chars.len() && !covered(ts, c) implies is_white_space(#[trigger] chars[c]) by {
        if c < j {
            assert(span_start(ts[0]) <= c < span_end(ts[0]));
        } else if covered(rest, c) {
            let k = choose|k: int| 0 <= k < rest.len() - 1 && span_start(#[trigger] rest[k]) <= c < span_end(rest[k]);
            assert(ts[k + 1] == rest[k]);
            assert(span_start(ts[k + 1]) <= c < span_end(ts[k + 1]));
        }
    }
}

proof fn lemma_lex_from_shape(chars: Seq<char>, i: int)
    requires
        0 <= i <= chars.len(),
        chars.len() + 2 < usize::MAX,
    ensures
        lex_from(chars, i, line_of(chars, i), col_of(chars, i)) matches Ok(ts) ==> tokens_shape(
            chars,
            ts,
            i,
        ),
    decreases chars.len() - i,
{
    let line = line_of(chars, i);
    let col = col_of(chars, i);
    lemma_line_col_bounds(chars, i);
    if i < chars.len() {
        let c = chars[i];
        if is_ident_start(c) || is_digit(c) || is_symbol_start(c) {
            let j = if is_ident_start(c) {
                ident_end(chars, i)
            } else if is_digit(c) {
                digits_end(chars, i)
            } else {
                i + symbol_len(chars, i)
            };
            if is_ident_start(c) {
                lemma_ident_end(chars, i);
            } else if is_digit(c) {
                lemma_digits_end(chars, i);
            }
            assert(forall|k: int| i <= k < j ==> chars[k] != '\n') by {
                assert forall|k: int| i <= k < j implies chars[k] != '\n' by {
                    if !is_ident_start(c) && !is_digit(c) && k > i {
                        assert(chars[k] == '=');
                    }
                }
            }
            lemma_no_newline_advance(chars, i, j);
            lemma_lex_from_shape(chars, j);
            let sp = mk_span(i, j, line, col);
            assert(sp.start == i && sp.end == j && sp.line == line && sp.col == col);
            if let Ok(rest) = lex_from(chars, j, line, col + (j - i)) {
                let t = if is_ident_start(c) {
                    word_token(chars, i, j, line, col)
                } else if is_digit(c) {
                    TokenView::Num(chars.subrange(i, j), sp)
                } else {
                    TokenView::Symbol(chars.subrange(i, j), sp)
                };
                lemma_shape_cons(chars, t, rest, i, j);
            }
        } else if is_white_space(c) {
            lemma_lex_from_shape(chars, i + 1);
            if let Ok(ts) = lex_from(chars, i, line, col) {
                assert(tokens_shape(chars, ts, i + 1));
            }
        }
    }
}

/// What the lexer reads of a text: a token sequence that ends with `EOF`
/// and has no other `EOF`; each other token holds exactly the text that its
/// span covers (and a word is an identifier just when it spells no keyword),
/// its span gives the line and column where it starts, the spans follow
/// one another in order without overlapping, and every character that no
/// span covers is whitespace.
pub proof fn law_tokens_cover_their_text(chars: Seq<char>)
    requires
        chars.len() + 2 < usize::MAX,
    ensures
        lex(chars) matches Ok(ts) ==> tokens_shape(chars, ts, 0),
{
    lemma_lex_from_shape(chars, 0);
}

/// An ASCII letter, `a` to `z` or `A` to `Z`.
pub open spec fn ascii_letter(c: char) -> bool {
    ('a' <= c && c <= 'z') || ('A' <= c && c <= 'Z')
}

proof fn lemma_word_ident_end(chars: Seq<char>, i: int)
    requires
        0 <= i <= chars.len(),
        forall|k: int| 0 <= k < chars.len() ==> ascii_letter(#[trigger] chars[k]) || ('0' <= chars[k] && chars[k] <= '9') || chars[k] == '_',
    ensures
        ident_end(chars, i) == chars.len(),
    decreases chars.len() - i,
{
    if i < chars.len() {
        assert(is_ident_char(chars[i]));
        lemma_word_ident_end(chars, i + 1);
    }
}

/// A word (a letter or `_`, then letters, digits and `_`) is read as one
/// token, a name or a keyword, that spans the whole word, then the end.
pub proof fn law_word_is_one_token(chars: Seq<char>)
    requires
        0 < chars.len() < usize::MAX,
        ascii_letter(chars[0]) || chars[0] == '_',
        forall|k: int| 0 <= k < chars.len() ==> ascii_letter(#[trigger] chars[k]) || ('0' <= chars[k] && chars[k] <= '9') || chars[k] == '_',
    ensures
        lex(chars) matches Ok(ts) && ts.len() == 2 && ts[1] is EOF && span_start(ts[0]) == 0
            && span_end(ts[0]) == chars.len() && (ts[0] is Keyword || (ts[0] matches TokenView::Ident(
            s,
            _,
        ) && s == chars)),
{
    lemma_word_ident_end(chars, 0);
    assert(is_ident_start(chars[0]));
    let len = chars.len() as int;
    assert(lex_from(chars, len, 1, 1 + len) == Ok::<Seq<TokenView>, char>(seq![TokenView::EOF]));
    let t = word_token(chars, 0, len, 1, 1);
    assert(lex(chars) == Ok::<Seq<TokenView>, char>(seq![t] + seq![TokenView::EOF]));
    assert(chars.subrange(0, len) =~= chars);
}

// ---------------------------------------------------------------------------
// The lexer
// ---------------------------------------------------------------------------

pub struct Lexer {
    tokens: Vec<Token>,
    index: usize,
    chars: Vec<char>,
    c_index: usize,
    line: usize,
    column: usize,
}

pub enum LexerErr {
    Invalid(String),
}

impl Lexer {
    /// The tokens, as views.
    pub closed spec fn tokens(&self) -> Seq<TokenView> {
        self.tokens@.map_values(|t: Token| t@)
    }

    /// The position of the current token.
    pub closed spec fn index(&self) -> nat {
        self.index as nat
    }

    pub closed spec fn chars(&self) -> Seq<char> {
        self.chars@
    }

    pub closed spec fn c_index(&self) -> int {
        self.c_index as int
    }

    pub closed spec fn line(&self) -> int {
        self.line as int
    }

    pub closed spec fn column(&self) -> int {
        self.column as int
    }

    /// There is a token, and the position is at most just past the last one.
    pub open spec fn wf(&self) -> bool {
        self.tokens().len() > 0 && self.index() <= self.tokens().len()
    }

    /// Everything but the token position is as in `other`.
    pub open spec fn same_tokens(&self, other: &Lexer) -> bool {
        &&& self.tokens() == other.tokens()
        &&& self.chars() == other.chars()
        &&& self.c_index() == other.c_index()
        &&& self.line() == other.line()
        &&& self.column() == other.column()
    }

    proof fn lemma_tokens_len(&self)
        ensures
            self.tokens().len() == self.tokens@.len(),
            forall|i: int| 0 <= i < self.tokens@.len() ==> #[trigger] self.tokens()[i] == self.tokens@[i]@,
    {
    }

    /// The token at position `i`; `None` past the last one.
    pub(crate) fn token_at(&self, i: usize) -> (r: Option<&Token>)
        ensures
            match r {
                Some(t) => i < self.tokens().len() && t@ == self.tokens()[i as int],
                None => i >= self.tokens().len(),
            },
            self.tokens().len() <= usize::MAX,
    {
        proof {
            self.lemma_tokens_len();
        }
        if i < self.tokens.len() {
            Some(&self.tokens[i])
        } else {
            None
        }
    }

    /// The position of the current token.
    pub(crate) fn position(&self) -> (r: usize)
        ensures
            r == self.index(),
            self.tokens().len() <= usize::MAX,
    {
        proof {
            self.lemma_tokens_len();
        }
        let _n: usize = self.tokens.len();
        self.index
    }

    /// The token after the current one; `None` at the last token.
    pub fn peek(&mut self) -> (r: Option<&Token>)
        requires
            old(self).tokens().len() > 0,
        ensures
            *final(self) == *old(self),
            match r {
                Some(t) => old(self).index() + 1 < old(self).tokens().len() && t@ == old(self).tokens()[old(self).index() + 1int],
                None => old(self).index() + 1 >= old(self).tokens().len(),
            },
    {
        proof {
            self.lemma_tokens_len();
        }
        if self.index < self.tokens.len() - 1 {
            return Some(&self.tokens[self.index + 1]);
        } else {
            return None;
        }
    }

    /// The current token; `None` once the position is past the last token.
    pub fn current(&mut self) -> (r: Option<&Token>)
        requires
            old(self).tokens().len() > 0,
        ensures
            *final(self) == *old(self),
            match r {
                Some(t) => old(self).index() < old(self).tokens().len() && t@ == old(self).tokens()[old(self).index() as int],
                None => old(self).index() >= old(self).tokens().len(),
            },
    {
        proof {
            self.lemma_tokens_len();
        }
        if self.index > self.tokens.len() - 1 {
            return None;
        }
        let t = &self.tokens[self.index];
        return Some(t);
    }

    /// The current token, moving the position past it.
    pub fn next(&mut self) -> (r: Option<&Token>)
        requires
            old(self).tokens().len() > 0,
        ensures
            final(self).same_tokens(old(self)),
            match r {
                Some(t) => old(self).index() < old(self).tokens().len() && t@ == old(self).tokens()[old(self).index() as int] && final(self).index() == old(self).index() + 1,
                None => old(self).index() >= old(self).tokens().len() && final(self).index()
                    == old(self).index(),
            },
    {
        proof {
            self.lemma_tokens_len();
        }
        if self.index > self.tokens.len() - 1 {
            return None;
        }
        let t = &self.tokens[self.index];
        self.index += 1;
        return Some(t);
    }

    /// The token before the current one; `None` at the first position.
    pub fn prev(&mut self) -> (r: Option<&Token>)
        requires
            old(self).tokens().len() > 0,
        ensures
            *final(self) == *old(self),
            match r {
                Some(t) => 1 <= old(self).index() <= old(self).tokens().len() && t@ == old(self).tokens()[old(self).index() - 1],
                None => old(self).index() == 0 || old(self).index() > old(self).tokens().len(),
            },
    {
        proof {
            self.lemma_tokens_len();
        }
        if self.index == 0 || self.index > self.tokens.len() {
            return None;
        }
        return Some(&self.tokens[self.index - 1]);
    }

    fn c_advance(&mut self) -> (c: char)
        requires
            old(self).c_index < old(self).chars@.len(),
            old(self).column < usize::MAX,
        ensures
            c == old(self).chars@[old(self).c_index as int],
            final(self).c_index == old(self).c_index + 1,
            final(self).column == old(self).column + 1,
            final(self).chars == old(self).chars,
            final(self).tokens == old(self).tokens,
            final(self).line == old(self).line,
            final(self).index == old(self).index,
    {
        let n = self.chars.len();
        let c = self.chars[self.c_index];
        self.column += 1;
        self.c_index += 1;
        c
    }

    fn c_current(&mut self) -> (r: Option<char>)
        ensures
            *final(self) == *old(self),
            r == (if old(self).c_index < old(self).chars@.len() {
                Some(old(self).chars@[old(self).c_index as int])
            } else {
                None
            }),
    {
        if self.c_index < self.chars.len() {
            Some(self.chars[self.c_index])
        } else {
            None
        }
    }

    fn push_token(&mut self, t: Token)
        ensures
            final(self).tokens() == old(self).tokens().push(t@),
            final(self).chars == old(self).chars,
            final(self).c_index == old(self).c_index,
            final(self).line == old(self).line,
            final(self).column == old(self).column,
            final(self).index == old(self).index,
    {
        let ghost old_tokens = self.tokens@;
        self.tokens.push(t);
        assert(self.tokens@.map_values(|t: Token| t@) =~= old_tokens.map_values(|t: Token| t@).push(
            t@,
        ));
    }

    /// Reads the word (identifier or keyword) that starts at the current character.
    fn lexe_ident(&mut self) -> (r: Result<(), LexerErr>)
        requires
            old(self).c_index < old(self).chars@.len(),
            is_ident_start(old(self).chars@[old(self).c_index as int]),
            old(self).column + old(self).chars@.len() - old(self).c_index < usize::MAX,
        ensures
            r is Ok,
            ({
                let j = ident_end(old(self).chars@, old(self).c_index as int);
                &&& final(self).tokens() == old(self).tokens().push(
                    word_token(
                        old(self).chars@,
                        old(self).c_index as int,
                        j,
                        old(self).line as int,
                        old(self).column as int,
                    ),
                )
                &&& final(self).c_index == j
                &&& final(self).column == old(self).column + (j - old(self).c_index)
            }),
            final(self).chars == old(self).chars,
            final(self).line == old(self).line,
            final(self).index == old(self).index,
    {
        let start = self.c_index;
        let line = self.line;
        let column = self.column;
        let mut name = String::new();
        proof {
            lemma_ident_end(self.chars@, start as int);
        }
        let ghost j = ident_end(self.chars@, start as int);
        loop
            invariant
                start <= self.c_index <= j,
                self.chars == old(self).chars,
                self.tokens == old(self).tokens,
                self.line == old(self).line,
                self.index == old(self).index,
                start == old(self).c_index,
                column == old(self).column,
                line == old(self).line,
                self.column == column + (self.c_index - start),
                name@ == self.chars@.subrange(start as int, self.c_index as int),
                j == ident_end(self.chars@, start as int),
                start <= j <= self.chars@.len(),
                forall|k: int| start <= k < j ==> is_ident_char(#[trigger] self.chars@[k]),
                j < self.chars@.len() ==> !is_ident_char(self.chars@[j]),
                old(self).column + old(self).chars@.len() - old(self).c_index < usize::MAX,
            ensures
                self.c_index == j,
            decreases j - self.c_index,
        {
            match self.c_current() {
                Some(c) => {
                    if char_is_ident_start(c) || char_is_digit(c) {
                        push_char(&mut name, c);
                        self.c_advance();
                        assert(name@ =~= self.chars@.subrange(start as int, self.c_index as int));
                    } else {
                        break ;
                    }
                },
                None => break ,
            }
        }
        let sp = span(start, self.c_index, line, column);
        proof {
            reveal_strlit("fn");
            reveal_strlit("if");
            reveal_strlit("else");
            reveal_strlit("otherwise");
            reveal_strlit("return");
            reveal_strlit("struct");
            assert("fn"@ =~= seq!['f', 'n']);
            assert("if"@ =~= seq!['i', 'f']);
            assert("else"@ =~= seq!['e', 'l', 's', 'e']);
            assert("otherwise"@ =~= seq!['o', 't', 'h', 'e', 'r', 'w', 'i', 's', 'e']);
            assert("return"@ =~= seq!['r', 'e', 't', 'u', 'r', 'n']);
            assert("struct"@ =~= seq!['s', 't', 'r', 'u', 'c', 't']);
        }
        let tok = if name == string_of("fn") {
            Token::Keyword(Keyword::Fn, sp)
        } else if name == string_of("if") {
            Token::Keyword(Keyword::If, sp)
        } else if name == string_of("else") {
            Token::Keyword(Keyword::Else, sp)
        } else if name == string_of("otherwise") {
            Token::Keyword(Keyword::Else, sp)
        } else if name == string_of("return") {
            Token::Keyword(Keyword::Return, sp)
        } else if name == string_of("struct") {
            Token::Keyword(Keyword::Struct, sp)
        } else {
            Token::Ident(name, sp)
        };
        self.push_token(tok);
        Ok(())
    }

    /// Reads the number that starts at the current character.
    fn lexe_number(&mut self) -> (r: Result<(), LexerErr>)
        requires
            old(self).c_index < old(self).chars@.len(),
            is_digit(old(self).chars@[old(self).c_index as int]),
            old(self).column + old(self).chars@.len() - old(self).c_index < usize::MAX,
        ensures
            r is Ok,
            ({
                let i = old(self).c_index as int;
                let j = digits_end(old(self).chars@, i);
                &&& final(self).tokens() == old(self).tokens().push(
                    TokenView::Num(
                        old(self).chars@.subrange(i, j),
                        mk_span(i, j, old(self).line as int, old(self).column as int),
                    ),
                )
                &&& final(self).c_index == j
                &&& final(self).column == old(self).column + (j - i)
            }),
            final(self).chars == old(self).chars,
            final(self).line == old(self).line,
            final(self).index == old(self).index,
    {
        let start = self.c_index;
        let line = self.line;
        let column = self.column;
        let mut num = String::new();
        proof {
            lemma_digits_end(self.chars@, start as int);
        }
        let ghost j = digits_end(self.chars@, start as int);
        loop
            invariant
                start <= self.c_index <= j,
                self.chars == old(self).chars,
                self.tokens == old(self).tokens,
                self.line == old(self).line,
                self.index == old(self).index,
                start == old(self).c_index,
                column == old(self).column,
                line == old(self).line,
                self.column == column + (self.c_index - start),
                num@ == self.chars@.subrange(start as int, self.c_index as int),
                j == digits_end(self.chars@, start as int),
                start <= j <= self.chars@.len(),
                forall|k: int| start <= k < j ==> is_digit(#[trigger] self.chars@[k]),
                j < self.chars@.len() ==> !is_digit(self.chars@[j]),
                old(self).column + old(self).chars@.len() - old(self).c_index < usize::MAX,
            ensures
                self.c_index == j,
            decreases j - self.c_index,
        {
            match self.c_current() {
                Some(c) => {
                    if char_is_digit(c) {
                        push_char(&mut num, c);
                    } else {
                        break ;
                    }
                },
                None => break ,
            }
            self.c_advance();
            assert(num@ =~= self.chars@.subrange(start as int, self.c_index as int));
        }
        self.push_token(Token::Num(num, span(start, self.c_index, line, column)));
        Ok(())
    }

    /// Reads the symbol that starts at the current character.
    fn lexe_symbol(&mut self) -> (r: Result<(), LexerErr>)
        requires
            old(self).c_index < old(self).chars@.len(),
            old(self).column + old(self).chars@.len() - old(self).c_index < usize::MAX,
        ensures
            r is Ok,
            ({
                let i = old(self).c_index as int;
                let j = i + symbol_len(old(self).chars@, i);
                &&& final(self).tokens() == old(self).tokens().push(
                    TokenView::Symbol(
                        old(self).chars@.subrange(i, j),
                        mk_span(i, j, old(self).line as int, old(self).column as int),
                    ),
                )
                &&& final(self).c_index == j
                &&& final(self).column == old(self).column + (j - i)
            }),
            final(self).chars == old(self).chars,
            final(self).line == old(self).line,
            final(self).index == old(self).index,
    {
        let start = self.c_index;
        let line = self.line;
        let column = self.column;
        let first = self.c_advance();
        let mut text = String::new();
        push_char(&mut text, first);
        match self.c_current() {
            Some(second) => {
                if second == '=' && char_takes_equals(first) {
                    self.c_advance();
                    push_char(&mut text, '=');
                }
            },
            None => {},
        }
        assert(text@ =~= self.chars@.subrange(start as int, self.c_index as int));
        self.push_token(Token::Symbol(text, span(start, self.c_index, line, column)));
        Ok(())
    }

    /// Splits `code` into tokens, ending with `EOF`; fails at the first
    /// character that no token starts with and that is not whitespace.
    pub fn from_code(code: &String) -> (r: Result<Self, LexerErr>)
        requires
            code@.len() + 2 < usize::MAX,
        ensures
            match lex(code@) {
                Ok(toks) => r matches Ok(l) && l.tokens() == toks && l.index() == 0 && l.wf(),
                Err(c) => r matches Err(LexerErr::Invalid(m)) && m@ == invalid_char_message(c),
            },
    {
        let mut chars: Vec<char> = Vec::new();
        let mut it = code.chars();
        loop
            invariant
                chars@ + it.remaining() == code@,
            ensures
                chars@ == code@,
            decreases code@.len() - chars@.len(),
        {
            match it.next() {
                Some(c) => chars.push(c),
                None => {
                    assert(chars@ =~= code@);
                    break ;
                },
            }
        }
        let mut lexer = Lexer {
            tokens: Vec::new(),
            index: 0,
            chars: chars,
            c_index: 0,
            line: 1,
            column: 1,
        };
        let ghost all = lex(code@);
        assert(lexer.tokens() =~= Seq::<TokenView>::empty());
        proof {
            lemma_prepend_assoc(seq![], seq![], lex_from(lexer.chars@, 0, 1, 1));
        }
        loop
            invariant
                lexer.chars@ == code@,
                code@.len() + 2 < usize::MAX,
                lexer.c_index <= lexer.chars@.len(),
                1 <= lexer.line <= lexer.c_index + 1,
                1 <= lexer.column <= lexer.c_index + 1,
                lexer.index == 0,
                all == lex(code@),
                prepend(
                    lexer.tokens(),
                    lex_from(
                        lexer.chars@,
                        lexer.c_index as int,
                        lexer.line as int,
                        lexer.column as int,
                    ),
                ) == all,
            ensures
                lexer.c_index == lexer.chars@.len(),
            decreases lexer.chars@.len() - lexer.c_index,
        {
            let ghost before = lexer.tokens();
            let ghost i = lexer.c_index as int;
            let ghost ln = lexer.line as int;
            let ghost col = lexer.column as int;
            match lexer.c_current() {
                None => break ,
                Some(c) => {
                    if char_is_ident_start(c) {
                        proof {
                            lemma_ident_end(lexer.chars@, i);
                        }
                        lexer.lexe_ident()?;
                        assert(lexer.tokens() =~= before + seq![
                            word_token(lexer.chars@, i, lexer.c_index as int, ln, col),
                        ]);
                        proof {
                            lemma_prepend_assoc(
                                before,
                                seq![word_token(lexer.chars@, i, lexer.c_index as int, ln, col)],
                                lex_from(lexer.chars@, lexer.c_index as int, ln, lexer.column as int),
                            );
                        }
                    } else if char_is_digit(c) {
                        proof {
                            lemma_digits_end(lexer.chars@, i);
                        }
                        lexer.lexe_number()?;
                        assert(lexer.tokens() =~= before + seq![
                            TokenView::Num(
                                lexer.chars@.subrange(i, lexer.c_index as int),
                                mk_span(i, lexer.c_index as int, ln, col),
                            ),
                        ]);
                        proof {
                            lemma_prepend_assoc(
                                before,
                                seq![
                                    TokenView::Num(
                                        lexer.chars@.subrange(i, lexer.c_index as int),
                                        mk_span(i, lexer.c_index as int, ln, col),
                                    ),
                                ],
                                lex_from(lexer.chars@, lexer.c_index as int, ln, lexer.column as int),
                            );
                        }
                    } else if char_is_symbol_start(c) {
                        lexer.lexe_symbol()?;
                        assert(lexer.tokens() =~= before + seq![
                            TokenView::Symbol(
                                lexer.chars@.subrange(i, lexer.c_index as int),
                                mk_span(i, lexer.c_index as int, ln, col),
                            ),
                        ]);
                        proof {
                            lemma_prepend_assoc(
                                before,
                                seq![
                                    TokenView::Symbol(
                                        lexer.chars@.subrange(i, lexer.c_index as int),
                                        mk_span(i, lexer.c_index as int, ln, col),
                                    ),
                                ],
                                lex_from(lexer.chars@, lexer.c_index as int, ln, lexer.column as int),
                            );
                        }
                    } else {
                        if char_is_whitespace(c) {
                            let c = lexer.c_advance();
                            if c == '\n' {
                                lexer.line += 1;
                                lexer.column = 1;
                            }
                        } else {
                            let mut m = string_of("Invalid char ");
                            push_char(&mut m, c);
                            proof {
                                reveal_strlit("Invalid char ");
                                assert(m@ =~= invalid_char_message(c));
                            }
                            return Err(LexerErr::Invalid(m));
                        }
                    }
                },
            }
        }
        let ghost before = lexer.tokens();
        lexer.push_token(Token::EOF);
        assert(lexer.tokens() =~= before + seq![TokenView::EOF]);
        assert(before + seq![TokenView::EOF] == lexer.tokens());
        Ok(lexer)
    }
}

} // verus!
