//! The tokens of the policy language.

use vstd::prelude::*;

use crate::num;
use crate::num::Rat;
use crate::text;
use crate::text::{chars_of, lower_text, same, text_of};

verus! {

/// Why a text could not be read, and where: the position counts bytes.
#[derive(Debug, PartialEq, Eq)]
pub struct ParseError {
    pub message: String,
    pub position: usize,
}

/// An error by its contents.
#[verifier::ext_equal]
pub struct ErrV {
    pub message: Seq<char>,
    pub position: nat,
}

impl View for ParseError {
    type V = ErrV;

    open spec fn view(&self) -> ErrV {
        ErrV { message: self.message@, position: self.position as nat }
    }
}

impl Clone for ParseError {
    fn clone(&self) -> (r: ParseError)
        ensures
            r@ == self@,
    {
        ParseError { message: self.message.clone(), position: self.position }
    }
}

/// An error as it is shown.
pub open spec fn shown(e: ErrV) -> Seq<char> {
    e.message + " (at character "@ + text::digits(e.position) + ")"@
}

impl ParseError {
    /// The error as it is shown.
    pub fn to_display(&self) -> (r: String)
        ensures
            r@ == shown(self@),
    {
        let p = text::count(self.position);
        text::cat4(self.message.as_str(), " (at character ", p.as_str(), ")")
    }
}

/// A token.
#[derive(Debug, PartialEq, Eq)]
pub enum Tok {
    Ident(String),
    Number(Rat),
    Str(String),
    // punctuation / operators
    LParen,
    RParen,
    Plus,
    Minus,
    Star,
    Slash,
    Le,
    Lt,
    Ge,
    Gt,
    Eq,
    Ne,
    Arrow,
    And,
    Or,
    Not,
    Iff,
}

/// A token by its contents.
#[verifier::ext_equal]
pub enum TokV {
    Ident(Seq<char>),
    Number(Rat),
    Str(Seq<char>),
    LParen,
    RParen,
    Plus,
    Minus,
    Star,
    Slash,
    Le,
    Lt,
    Ge,
    Gt,
    Eq,
    Ne,
    Arrow,
    And,
    Or,
    Not,
    Iff,
}

impl View for Tok {
    type V = TokV;

    open spec fn view(&self) -> TokV {
        match self {
            Tok::Ident(s) => TokV::Ident(s@),
            Tok::Number(r) => TokV::Number(*r),
            Tok::Str(s) => TokV::Str(s@),
            Tok::LParen => TokV::LParen,
            Tok::RParen => TokV::RParen,
            Tok::Plus => TokV::Plus,
            Tok::Minus => TokV::Minus,
            Tok::Star => TokV::Star,
            Tok::Slash => TokV::Slash,
            Tok::Le => TokV::Le,
            Tok::Lt => TokV::Lt,
            Tok::Ge => TokV::Ge,
            Tok::Gt => TokV::Gt,
            Tok::Eq => TokV::Eq,
            Tok::Ne => TokV::Ne,
            Tok::Arrow => TokV::Arrow,
            Tok::And => TokV::And,
            Tok::Or => TokV::Or,
            Tok::Not => TokV::Not,
            Tok::Iff => TokV::Iff,
        }
    }
}

// ── Characters and bytes ────────────────────────────────────────────────────────

/// The bytes of a character in UTF-8.
pub open spec fn width(c: char) -> nat {
    if c as u32 <= 0x7f {
        1
    } else if c as u32 <= 0x7ff {
        2
    } else if c as u32 <= 0xffff {
        3
    } else {
        4
    }
}

/// The bytes before the character at `i`.
pub open spec fn offset(s: Seq<char>, i: int) -> nat
    decreases i,
{
    if i <= 0 {
        0
    } else {
        offset(s, i - 1) + width(s[i - 1])
    }
}

/// The first byte of a character, as a character.
pub open spec fn lead(c: char) -> char {
    let n = c as u32 as int;
    if n <= 0x7f {
        c
    } else if n <= 0x7ff {
        (0xc0 + n / 64) as char
    } else if n <= 0xffff {
        (0xe0 + n / 4096) as char
    } else {
        (0xf0 + n / 262144) as char
    }
}

fn char_width(c: char) -> (r: usize)
    ensures
        r == width(c),
        1 <= r <= 4,
{
    let n = c as u32;
    if n <= 0x7f {
        1
    } else if n <= 0x7ff {
        2
    } else if n <= 0xffff {
        3
    } else {
        4
    }
}

fn lead_char(c: char) -> (r: char)
    ensures
        r == lead(c),
{
    let n = c as u32;
    if n <= 0x7f {
        c
    } else if n <= 0x7ff {
        (0xc0 + n / 64) as u8 as char
    } else if n <= 0xffff {
        (0xe0 + n / 4096) as u8 as char
    } else {
        (0xf0 + n / 262144) as u8 as char
    }
}

pub open spec fn is_digit(c: char) -> bool {
    '0' <= c <= '9'
}

pub open spec fn is_letter(c: char) -> bool {
    'a' <= c <= 'z' || 'A' <= c <= 'Z'
}

/// Whitespace between tokens.
pub open spec fn is_space(c: char) -> bool {
    '\t' <= c <= '\r' || c == ' '
}

/// A character of a word: a letter, a digit, an underscore or a dot.
pub open spec fn is_word(c: char) -> bool {
    is_letter(c) || is_digit(c) || c == '_' || c == '.'
}

fn digit(c: char) -> (b: bool)
    ensures
        b == is_digit(c),
{
    '0' <= c && c <= '9'
}

fn letter(c: char) -> (b: bool)
    ensures
        b == is_letter(c),
{
    ('a' <= c && c <= 'z') || ('A' <= c && c <= 'Z')
}

fn space(c: char) -> (b: bool)
    ensures
        b == is_space(c),
{
    ('\t' <= c && c <= '\r') || c == ' '
}

fn word(c: char) -> (b: bool)
    ensures
        b == is_word(c),
{
    letter(c) || digit(c) || c == '_' || c == '.'
}

// ── Scanning ────────────────────────────────────────────────────────────────────

/// Is `c` the character at `i`?
pub open spec fn at(s: Seq<char>, i: int, c: char) -> bool {
    0 <= i < s.len() && s[i] == c
}

/// The first position from `i` on that is not whitespace.
pub open spec fn after_space(s: Seq<char>, i: int) -> int
    decreases s.len() - i,
{
    if 0 <= i < s.len() && is_space(s[i]) {
        after_space(s, i + 1)
    } else {
        i
    }
}

/// The first position from `i` on that is not a character of a word.
pub open spec fn after_word(s: Seq<char>, i: int) -> int
    decreases s.len() - i,
{
    if 0 <= i < s.len() && is_word(s[i]) {
        after_word(s, i + 1)
    } else {
        i
    }
}

/// The first position from `i` on that is not a digit, nor an underscore where those
/// are allowed between digits.
pub open spec fn after_digits(s: Seq<char>, i: int, grouped: bool) -> int
    decreases s.len() - i,
{
    if 0 <= i < s.len() && (is_digit(s[i]) || (grouped && s[i] == '_')) {
        after_digits(s, i + 1, grouped)
    } else {
        i
    }
}

/// The first position from `i` on where the quote closes.
pub open spec fn after_quoted(s: Seq<char>, i: int, quote: char) -> int
    decreases s.len() - i,
{
    if 0 <= i < s.len() && s[i] != quote {
        after_quoted(s, i + 1, quote)
    } else {
        i
    }
}

/// The number that the digits from `i` up to `j` denote, other characters left out.
pub open spec fn digits_value(s: Seq<char>, i: int, j: int) -> nat
    decreases j - i,
{
    if j <= i {
        0
    } else if is_digit(s[j - 1]) {
        digits_value(s, i, j - 1) * 10 + (s[j - 1] as nat - '0' as nat) as nat
    } else {
        digits_value(s, i, j - 1)
    }
}

/// The end of the number that starts at `i`, and how many of its digits are decimals.
pub open spec fn number_end(s: Seq<char>, i: int) -> (int, nat) {
    let a = after_digits(s, i, true);
    if at(s, a, '.') && a + 1 < s.len() && is_digit(s[a + 1]) {
        let b = after_digits(s, a + 1, false);
        (b, (b - (a + 1)) as nat)
    } else {
        (a, 0)
    }
}

/// The number that starts at `i`, and where it ends.
pub open spec fn number_at(s: Seq<char>, i: int) -> Result<(TokV, int), ErrV> {
    let (j, scale) = number_end(s, i);
    let n = digits_value(s, i, j) as int;
    if n > i128::MAX {
        Err(ErrV { message: "number is too large to represent exactly"@, position: offset(s, j) })
    } else if num::pow10(scale) > i128::MAX {
        Err(ErrV { message: "number has too many decimal places"@, position: offset(s, j) })
    } else {
        Ok((TokV::Number(Rat::of(n, num::pow10(scale) as int)), j))
    }
}

/// A word as a token.
pub open spec fn word_token(w: Seq<char>) -> TokV {
    let l = text::lower(w);
    if l == "and"@ {
        TokV::And
    } else if l == "or"@ {
        TokV::Or
    } else if l == "not"@ {
        TokV::Not
    } else if l == "implies"@ {
        TokV::Arrow
    } else if l == "iff"@ {
        TokV::Iff
    } else {
        TokV::Ident(w)
    }
}

/// The token that starts at `i`, and where it ends.
pub open spec fn token_at(s: Seq<char>, i: int) -> Result<(TokV, int), ErrV> {
    let c = s[i];
    if c == '(' {
        Ok((TokV::LParen, i + 1))
    } else if c == ')' {
        Ok((TokV::RParen, i + 1))
    } else if c == '+' {
        Ok((TokV::Plus, i + 1))
    } else if c == '*' {
        Ok((TokV::Star, i + 1))
    } else if c == '/' {
        Ok((TokV::Slash, i + 1))
    } else if c == '-' {
        if at(s, i + 1, '>') {
            Ok((TokV::Arrow, i + 2))
        } else {
            Ok((TokV::Minus, i + 1))
        }
    } else if c == '<' {
        if at(s, i + 1, '=') {
            Ok((TokV::Le, i + 2))
        } else if at(s, i + 1, '-') && at(s, i + 2, '>') {
            Ok((TokV::Iff, i + 3))
        } else {
            Ok((TokV::Lt, i + 1))
        }
    } else if c == '>' {
        if at(s, i + 1, '=') {
            Ok((TokV::Ge, i + 2))
        } else {
            Ok((TokV::Gt, i + 1))
        }
    } else if c == '=' {
        if at(s, i + 1, '=') {
            Ok((TokV::Eq, i + 2))
        } else if at(s, i + 1, '>') {
            Ok((TokV::Arrow, i + 2))
        } else {
            Ok((TokV::Eq, i + 1))
        }
    } else if c == '!' {
        if at(s, i + 1, '=') {
            Ok((TokV::Ne, i + 2))
        } else {
            Ok((TokV::Not, i + 1))
        }
    } else if c == '&' {
        Ok((TokV::And, if at(s, i + 1, '&') { i + 2 } else { i + 1 }))
    } else if c == '|' {
        Ok((TokV::Or, if at(s, i + 1, '|') { i + 2 } else { i + 1 }))
    } else if c == '"' || c == '\'' {
        let j = after_quoted(s, i + 1, c);
        if j < s.len() {
            Ok((TokV::Str(s.subrange(i + 1, j)), j + 1))
        } else {
            Err(
                ErrV {
                    message: "unterminated string literal"@,
                    position: offset(s, s.len() as int),
                },
            )
        }
    } else if is_digit(c) {
        number_at(s, i)
    } else if is_letter(c) || c == '_' {
        let j = after_word(s, i);
        Ok((word_token(s.subrange(i, j)), j))
    } else {
        Err(
            ErrV {
                message: "unexpected character '"@ + seq![lead(c)] + "'"@,
                position: offset(s, i),
            },
        )
    }
}

/// The tokens from `i` on, each with the position where it starts.
pub open spec fn tokens_from(s: Seq<char>, i: int) -> Result<Seq<(TokV, nat)>, ErrV>
    decreases s.len() - i,
{
    let j = after_space(s, i);
    if j >= s.len() {
        Ok(Seq::empty())
    } else {
        match token_at(s, j) {
            Err(e) => Err(e),
            Ok((tok, k)) => if i <= j < k <= s.len() {
                with_first((tok, offset(s, j)), tokens_from(s, k))
            } else {
                Ok(Seq::empty())
            },
        }
    }
}

/// A token in front of others.
pub open spec fn with_first(
    first: (TokV, nat),
    rest: Result<Seq<(TokV, nat)>, ErrV>,
) -> Result<Seq<(TokV, nat)>, ErrV> {
    match rest {
        Ok(toks) => Ok(seq![first] + toks),
        Err(e) => Err(e),
    }
}

/// Tokens by their contents.
pub open spec fn token_views(v: Seq<(Tok, usize)>) -> Seq<(TokV, nat)> {
    Seq::new(v.len(), |i: int| (v[i].0@, v[i].1 as nat))
}

/// The characters of a text, with the byte position of each and of the end.
struct Lexer {
    chars: Vec<char>,
    offsets: Vec<usize>,
}

impl Lexer {
    closed spec fn wf(&self) -> bool {
        &&& self.offsets@.len() == self.chars@.len() + 1
        &&& forall|i: int|
            0 <= i <= self.chars@.len() ==> #[trigger] self.offsets@[i] == offset(self.chars@, i)
    }

    fn new(src: &str) -> (r: Lexer)
        ensures
            r.wf(),
            r.chars@ == src@,
    {
        let chars = chars_of(src);
        let total: usize = src.as_bytes().len();
        let mut offsets: Vec<usize> = Vec::new();
        let mut pos: usize = 0;
        let mut i: usize = 0;
        offsets.push(0);
        while i < chars.len()
            invariant
                i <= chars@.len(),
                chars@ == src@,
                total == vstd::utf8::encode_utf8(src@).len(),
                offsets@.len() == i + 1,
                pos == offset(chars@, i as int),
                forall|k: int| 0 <= k <= i ==> #[trigger] offsets@[k] == offset(chars@, k),
            decreases chars@.len() - i,
        {
            proof {
                lemma_offset(chars@, i + 1);
            }
            pos = pos + char_width(chars[i]);
            i += 1;
            offsets.push(pos);
        }
        Lexer { chars, offsets }
    }

    /// Is `c` the character at `i`?
    fn at(&self, i: usize, c: char) -> (b: bool)
        ensures
            b == at(self.chars@, i as int, c),
    {
        i < self.chars.len() && self.chars[i] == c
    }

    fn err(&self, message: &str, i: usize) -> (r: ParseError)
        requires
            self.wf(),
            i <= self.chars@.len(),
        ensures
            r@ == (ErrV { message: message@, position: offset(self.chars@, i as int) }),
    {
        ParseError { message: message.to_owned(), position: self.offsets[i] }
    }

    fn lex_string(&self, i: usize, quote: char) -> (r: Result<(Tok, usize), ParseError>)
        requires
            self.wf(),
            i < self.chars@.len(),
            self.chars@[i as int] == quote,
            quote == '"' || quote == '\'',
        ensures
            result_view(r) == token_at(self.chars@, i as int),
            r matches Ok((_, j)) ==> i < j <= self.chars@.len(),
    {
        let ghost s = self.chars@;
        let n = self.chars.len();
        let mut j: usize = i + 1;
        while j < n && self.chars[j] != quote
            invariant
                i < j <= n,
                n == self.chars@.len(),
                s == self.chars@,
                after_quoted(s, i + 1, quote) == after_quoted(s, j as int, quote),
            decreases self.chars@.len() - j,
        {
            j += 1;
        }
        if j < n {
            Ok((Tok::Str(text_of(&self.chars, i + 1, j)), j + 1))
        } else {
            Err(self.err("unterminated string literal", j))
        }
    }

    fn skip_digits(&self, i: usize, grouped: bool) -> (j: usize)
        requires
            i <= self.chars@.len(),
        ensures
            j == after_digits(self.chars@, i as int, grouped),
            i <= j <= self.chars@.len(),
    {
        let ghost s = self.chars@;
        let mut j: usize = i;
        while j < self.chars.len() && (digit(self.chars[j]) || (grouped && self.chars[j] == '_'))
            invariant
                i <= j <= self.chars@.len(),
                s == self.chars@,
                after_digits(s, i as int, grouped) == after_digits(s, j as int, grouped),
            decreases self.chars@.len() - j,
        {
            j += 1;
        }
        j
    }

    /// The number that the digits from `i` up to `j` denote, if it can be represented.
    fn read_digits(&self, i: usize, j: usize) -> (r: Option<i128>)
        requires
            i <= j <= self.chars@.len(),
        ensures
            r is Some <==> digits_value(self.chars@, i as int, j as int) <= i128::MAX,
            r matches Some(n) ==> n == digits_value(self.chars@, i as int, j as int),
    {
        let ghost s = self.chars@;
        let mut n: i128 = 0;
        let mut k: usize = i;
        while k < j
            invariant
                i <= k <= j,
                j <= self.chars@.len(),
                s == self.chars@,
                n == digits_value(s, i as int, k as int),
                n >= 0,
            decreases j - k,
        {
            let c = self.chars[k];
            if digit(c) {
                let d: i128 = (c as u32 - '0' as u32) as i128;
                proof {
                    lemma_digits_grow(s, i as int, k + 1, j as int);
                }
                n = match n.checked_mul(10) {
                    Some(m) => match m.checked_add(d) {
                        Some(x) => x,
                        None => {
                            return None;
                        },
                    },
                    None => {
                        return None;
                    },
                };
            }
            k += 1;
        }
        Some(n)
    }

    fn lex_number(&self, i: usize) -> (r: Result<(Tok, usize), ParseError>)
        requires
            self.wf(),
            i < self.chars@.len(),
            is_digit(self.chars@[i as int]),
        ensures
            result_view(r) == token_at(self.chars@, i as int),
            r matches Ok((_, j)) ==> i < j <= self.chars@.len(),
    {
        let ghost s = self.chars@;
        let n = self.chars.len();
        let a = self.skip_digits(i, true);
        proof {
            assert(after_digits(s, i as int, true) == after_digits(s, i + 1, true));
            lemma_after_digits(s, i + 1, true);
        }
        let mut j = a;
        let mut scale: usize = 0;
        if self.at(a, '.') && a + 1 < n && digit(self.chars[a + 1]) {
            j = self.skip_digits(a + 1, false);
            scale = j - (a + 1);
        }
        assert(number_end(s, i as int) == (j as int, scale as nat));
        let digits = match self.read_digits(i, j) {
            Some(n) => n,
            None => {
                return Err(self.err("number is too large to represent exactly", j));
            },
        };
        // Exact: `0.15` becomes 15/100, never a binary float.
        let den = match power_of_ten(scale) {
            Some(p) => p,
            None => {
                return Err(self.err("number has too many decimal places", j));
            },
        };
        proof {
            Rat::lemma_of(digits as int, den as int);
        }
        match Rat::new(digits, den) {
            Some(value) => Ok((Tok::Number(value), j)),
            None => Err(self.err("number is not representable", j)),
        }
    }

    fn lex_word(&self, i: usize) -> (r: (Tok, usize))
        requires
            i < self.chars@.len(),
            is_letter(self.chars@[i as int]) || self.chars@[i as int] == '_',
        ensures
            Ok::<(TokV, int), ErrV>((r.0@, r.1 as int)) == token_at(self.chars@, i as int),
            i < r.1 <= self.chars@.len(),
    {
        let ghost s = self.chars@;
        let n = self.chars.len();
        let mut j: usize = i + 1;
        assert(after_word(s, i as int) == after_word(s, i + 1));
        while j < n && word(self.chars[j])
            invariant
                i < j <= n,
                n == self.chars@.len(),
                s == self.chars@,
                after_word(s, i as int) == after_word(s, j as int),
            decreases self.chars@.len() - j,
        {
            j += 1;
        }
        let w = text_of(&self.chars, i, j);
        let l = lower_text(w.as_str());
        let tok = if same(l.as_str(), "and") {
            Tok::And
        } else if same(l.as_str(), "or") {
            Tok::Or
        } else if same(l.as_str(), "not") {
            Tok::Not
        } else if same(l.as_str(), "implies") {
            Tok::Arrow
        } else if same(l.as_str(), "iff") {
            Tok::Iff
        } else {
            Tok::Ident(w)
        };
        (tok, j)
    }

    /// The token that starts at `i`, and where it ends.
    fn token(&self, i: usize) -> (r: Result<(Tok, usize), ParseError>)
        requires
            self.wf(),
            i < self.chars@.len(),
        ensures
            result_view(r) == token_at(self.chars@, i as int),
            r matches Ok((_, j)) ==> i < j <= self.chars@.len(),
    {
        // That there is a length bounds the position of the next character.
        let _n: usize = self.chars.len();
        let c = self.chars[i];
        if c == '(' {
            Ok((Tok::LParen, i + 1))
        } else if c == ')' {
            Ok((Tok::RParen, i + 1))
        } else if c == '+' {
            Ok((Tok::Plus, i + 1))
        } else if c == '*' {
            Ok((Tok::Star, i + 1))
        } else if c == '/' {
            Ok((Tok::Slash, i + 1))
        } else if c == '-' {
            if self.at(i + 1, '>') {
                Ok((Tok::Arrow, i + 2))
            } else {
                Ok((Tok::Minus, i + 1))
            }
        } else if c == '<' {
            if self.at(i + 1, '=') {
                Ok((Tok::Le, i + 2))
            } else if self.at(i + 1, '-') && self.at(i + 2, '>') {
                Ok((Tok::Iff, i + 3))
            } else {
                Ok((Tok::Lt, i + 1))
            }
        } else if c == '>' {
            if self.at(i + 1, '=') {
                Ok((Tok::Ge, i + 2))
            } else {
                Ok((Tok::Gt, i + 1))
            }
        } else if c == '=' {
            if self.at(i + 1, '=') {
                Ok((Tok::Eq, i + 2))
            } else if self.at(i + 1, '>') {
                Ok((Tok::Arrow, i + 2))
            } else {
                Ok((Tok::Eq, i + 1))
            }
        } else if c == '!' {
            if self.at(i + 1, '=') {
                Ok((Tok::Ne, i + 2))
            } else {
                Ok((Tok::Not, i + 1))
            }
        } else if c == '&' {
            Ok((Tok::And, if self.at(i + 1, '&') { i + 2 } else { i + 1 }))
        } else if c == '|' {
            Ok((Tok::Or, if self.at(i + 1, '|') { i + 2 } else { i + 1 }))
        } else if c == '"' || c == '\'' {
            self.lex_string(i, c)
        } else if digit(c) {
            self.lex_number(i)
        } else if letter(c) || c == '_' {
            Ok(self.lex_word(i))
        } else {
            let mut found: String = "unexpected character '".to_owned();
            found.push(lead_char(c));
            found.append("'");
            proof {
                assert(found@ =~= "unexpected character '"@ + seq![lead(c)] + "'"@);
            }
            Err(self.err(found.as_str(), i))
        }
    }
}

/// The outcome of reading a token by its contents.
pub open spec fn result_view(r: Result<(Tok, usize), ParseError>) -> Result<(TokV, int), ErrV> {
    match r {
        Ok((t, j)) => Ok((t@, j as int)),
        Err(e) => Err(e@),
    }
}

proof fn lemma_offset(s: Seq<char>, i: int)
    requires
        0 <= i <= s.len(),
    ensures
        offset(s, i) + vstd::utf8::encode_utf8(s.skip(i)).len() == vstd::utf8::encode_utf8(s).len(),
    decreases i,
{
    if i == 0 {
        assert(s.skip(0) =~= s);
    } else {
        lemma_offset(s, i - 1);
        let t = s.skip(i - 1);
        assert(t[0] == s[i - 1]);
        assert(t.drop_first() =~= s.skip(i));
        let c = s[i - 1];
        vstd::utf8::char_is_scalar(c);
        assert(vstd::utf8::encode_scalar(c as u32).len() == width(c));
    }
}

proof fn lemma_after_digits(s: Seq<char>, i: int, grouped: bool)
    requires
        0 <= i <= s.len(),
    ensures
        i <= after_digits(s, i, grouped) <= s.len(),
    decreases s.len() - i,
{
    if i < s.len() && (is_digit(s[i]) || (grouped && s[i] == '_')) {
        lemma_after_digits(s, i + 1, grouped);
    }
}

/// More digits do not make a number smaller.
proof fn lemma_digits_grow(s: Seq<char>, i: int, j: int, k: int)
    requires
        i <= j <= k,
    ensures
        digits_value(s, i, j) <= digits_value(s, i, k),
    decreases k - j,
{
    if j < k {
        lemma_digits_grow(s, i, j, k - 1);
    }
}

/// Ten to the power `k`, if it can be represented.
fn power_of_ten(k: usize) -> (r: Option<i128>)
    ensures
        r is Some <==> num::pow10(k as nat) <= i128::MAX,
        r matches Some(p) ==> p == num::pow10(k as nat) && p > 0,
{
    let mut p: i128 = 1;
    let mut i: usize = 0;
    while i < k
        invariant
            i <= k,
            p == num::pow10(i as nat),
            p > 0,
        decreases k - i,
    {
        proof {
            lemma_pow10_grows((i + 1) as nat, k as nat);
        }
        p = match p.checked_mul(10) {
            Some(q) => q,
            None => {
                return None;
            },
        };
        i += 1;
    }
    Some(p)
}

proof fn lemma_pow10_grows(i: nat, k: nat)
    requires
        i <= k,
    ensures
        0 < num::pow10(i) <= num::pow10(k),
    decreases k,
{
    if i < k {
        lemma_pow10_grows(i, (k - 1) as nat);
    } else if i > 0 {
        lemma_pow10_grows((i - 1) as nat, (i - 1) as nat);
    }
}

/// Tokens in front of others.
spec fn with_front(
    front: Seq<(TokV, nat)>,
    rest: Result<Seq<(TokV, nat)>, ErrV>,
) -> Result<Seq<(TokV, nat)>, ErrV> {
    match rest {
        Ok(toks) => Ok(front + toks),
        Err(e) => Err(e),
    }
}

/// The tokens of a text, each with the position where it starts.
pub fn tokens(src: &str) -> (r: Result<Vec<(Tok, usize)>, ParseError>)
    ensures
        match r {
            Ok(toks) => tokens_from(src@, 0) == Ok::<Seq<(TokV, nat)>, ErrV>(token_views(toks@)),
            Err(e) => tokens_from(src@, 0) == Err::<Seq<(TokV, nat)>, ErrV>(e@),
        },
{
    let lexer = Lexer::new(src);
    let ghost s = src@;
    let mut out: Vec<(Tok, usize)> = Vec::new();
    let mut i: usize = 0;
    let n = lexer.chars.len();
    assert(token_views(out@) =~= Seq::empty());
    proof {
        if let Ok(t) = tokens_from(s, 0) {
            assert(token_views(out@) + t =~= t);
        }
    }
    while i < n
        invariant
            i <= n,
            n == s.len(),
            lexer.wf(),
            lexer.chars@ == s,
            s == src@,
            tokens_from(s, 0) == with_front(token_views(out@), tokens_from(s, i as int)),
        decreases n - i,
    {
        let mut j: usize = i;
        while j < n && space(lexer.chars[j])
            invariant
                i <= j <= n,
                n == s.len(),
                lexer.chars@ == s,
                after_space(s, i as int) == after_space(s, j as int),
            decreases n - j,
        {
            j += 1;
        }
        if j >= n {
            proof {
                assert(token_views(out@) + Seq::empty() =~= token_views(out@));
            }
            return Ok(out);
        }
        let ghost before = token_views(out@);
        let (tok, k) = match lexer.token(j) {
            Ok(t) => t,
            Err(e) => {
                return Err(e);
            },
        };
        let ghost first = (tok@, offset(s, j as int));
        out.push((tok, lexer.offsets[j]));
        proof {
            assert(token_views(out@) =~= before.push(first));
            if let Ok(t) = tokens_from(s, k as int) {
                assert(before + (seq![first] + t) =~= before.push(first) + t);
            }
        }
        i = k;
    }
    proof {
        assert(tokens_from(s, i as int) == Ok::<Seq<(TokV, nat)>, ErrV>(Seq::empty()));
        assert(token_views(out@) + Seq::empty() =~= token_views(out@));
    }
    Ok(out)
}

} // verus!
