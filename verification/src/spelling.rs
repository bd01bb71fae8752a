//! What a text spells: the tokens that the lexer finds are what the characters say.

use vstd::prelude::*;
use vstd::utf8::*;

use crate::arith;
use crate::lexer;
use crate::lexer::{ErrV, TokV};
use crate::num;
use crate::num::Rat;
use crate::reading;
use crate::text;

verus! {

/// What the lexer finds at a position: a token and where it ends.
pub type Found = Result<(TokV, int), ErrV>;

/// Does the text read so from the position on?
pub open spec fn reads(s: Seq<char>, i: int, w: Seq<char>) -> bool {
    0 <= i && i + w.len() <= s.len() && s.subrange(i, i + w.len()) == w
}

/// Each sign of one character is its own token, unless it starts a longer one.
pub proof fn lemma_short_signs(s: Seq<char>, i: int)
    requires
        0 <= i < s.len(),
    ensures
        s[i] == '(' ==> lexer::token_at(s, i) == Found::Ok((TokV::LParen, i + 1)),
        s[i] == ')' ==> lexer::token_at(s, i) == Found::Ok((TokV::RParen, i + 1)),
        s[i] == '+' ==> lexer::token_at(s, i) == Found::Ok((TokV::Plus, i + 1)),
        s[i] == '*' ==> lexer::token_at(s, i) == Found::Ok((TokV::Star, i + 1)),
        s[i] == '/' ==> lexer::token_at(s, i) == Found::Ok((TokV::Slash, i + 1)),
        s[i] == '-' && !reads(s, i, "->"@) ==> lexer::token_at(s, i) == Found::Ok(
            (TokV::Minus, i + 1),
        ),
        s[i] == '<' && !reads(s, i, "<="@) && !reads(s, i, "<->"@) ==> lexer::token_at(s, i)
            == Found::Ok((TokV::Lt, i + 1)),
        s[i] == '>' && !reads(s, i, ">="@)
            ==> lexer::token_at(s, i) == Found::Ok((TokV::Gt, i + 1)),
        s[i] == '=' && !reads(s, i, "=="@) && !reads(s, i, "=>"@) ==> lexer::token_at(s, i)
            == Found::Ok((TokV::Eq, i + 1)),
        s[i] == '!' && !reads(s, i, "!="@)
            ==> lexer::token_at(s, i) == Found::Ok((TokV::Not, i + 1)),
        s[i] == '&' && !reads(s, i, "&&"@)
            ==> lexer::token_at(s, i) == Found::Ok((TokV::And, i + 1)),
        s[i] == '|' && !reads(s, i, "||"@)
            ==> lexer::token_at(s, i) == Found::Ok((TokV::Or, i + 1)),
{
    reveal_strlit("->");
    reveal_strlit("<=");
    reveal_strlit("<->");
    reveal_strlit(">=");
    reveal_strlit("==");
    reveal_strlit("=>");
    reveal_strlit("!=");
    reveal_strlit("&&");
    reveal_strlit("||");
    if i + 1 < s.len() {
        let t = s.subrange(i, i + 2);
        assert(t[0] == s[i] && t[1] == s[i + 1]);
        if s[i] == '-' && s[i + 1] == '>' {
            assert(t =~= "->"@);
        }
        if s[i] == '<' && s[i + 1] == '=' {
            assert(t =~= "<="@);
        }
        if s[i] == '>' && s[i + 1] == '=' {
            assert(t =~= ">="@);
        }
        if s[i] == '=' && s[i + 1] == '=' {
            assert(t =~= "=="@);
        }
        if s[i] == '=' && s[i + 1] == '>' {
            assert(t =~= "=>"@);
        }
        if s[i] == '!' && s[i + 1] == '=' {
            assert(t =~= "!="@);
        }
        if s[i] == '&' && s[i + 1] == '&' {
            assert(t =~= "&&"@);
        }
        if s[i] == '|' && s[i + 1] == '|' {
            assert(t =~= "||"@);
        }
    }
    if i + 2 < s.len() && s[i] == '<' && s[i + 1] == '-' && s[i + 2] == '>' {
        assert(s.subrange(i, i + 3) =~= "<->"@);
    }
}

/// The signs of two and three characters, and which of them mean the same: an arrow is
/// written `->` or `=>`, equality `==` as well as `=`.
pub proof fn lemma_long_signs(s: Seq<char>, i: int)
    ensures
        reads(s, i, "->"@) ==> lexer::token_at(s, i) == Found::Ok((TokV::Arrow, i + 2)),
        reads(s, i, "=>"@) ==> lexer::token_at(s, i) == Found::Ok((TokV::Arrow, i + 2)),
        reads(s, i, "<->"@) ==> lexer::token_at(s, i) == Found::Ok((TokV::Iff, i + 3)),
        reads(s, i, "<="@) ==> lexer::token_at(s, i) == Found::Ok((TokV::Le, i + 2)),
        reads(s, i, ">="@) ==> lexer::token_at(s, i) == Found::Ok((TokV::Ge, i + 2)),
        reads(s, i, "=="@) ==> lexer::token_at(s, i) == Found::Ok((TokV::Eq, i + 2)),
        reads(s, i, "!="@) ==> lexer::token_at(s, i) == Found::Ok((TokV::Ne, i + 2)),
        reads(s, i, "&&"@) ==> lexer::token_at(s, i) == Found::Ok((TokV::And, i + 2)),
        reads(s, i, "||"@) ==> lexer::token_at(s, i) == Found::Ok((TokV::Or, i + 2)),
{
    reveal_strlit("->");
    reveal_strlit("<=");
    reveal_strlit("<->");
    reveal_strlit(">=");
    reveal_strlit("==");
    reveal_strlit("=>");
    reveal_strlit("!=");
    reveal_strlit("&&");
    reveal_strlit("||");
    if 0 <= i && i + 1 < s.len() {
        let t = s.subrange(i, i + 2);
        assert(t[0] == s[i] && t[1] == s[i + 1]);
        if i + 2 < s.len() {
            let u = s.subrange(i, i + 3);
            assert(u[0] == s[i] && u[1] == s[i + 1] && u[2] == s[i + 2]);
        }
    }
}

proof fn lemma_after_word(s: Seq<char>, i: int)
    requires
        0 <= i <= s.len(),
    ensures
        i <= lexer::after_word(s, i) <= s.len(),
        forall|k: int| i <= k < lexer::after_word(s, i) ==> lexer::is_word(#[trigger] s[k]),
        lexer::after_word(s, i) < s.len() ==> !lexer::is_word(s[lexer::after_word(s, i)]),
    decreases s.len() - i,
{
    if i < s.len() && lexer::is_word(s[i]) {
        lemma_after_word(s, i + 1);
    }
}

/// Is that a character of a word: an ASCII letter or digit, an underscore or a dot?
pub open spec fn word_char(c: char) -> bool {
    'a' <= c <= 'z' || 'A' <= c <= 'Z' || '0' <= c <= '9' || c == '_' || c == '.'
}

/// A stretch of word characters that starts with a letter or an underscore, and that none
/// follows, is one token: the name that it spells, or the connective that it is in lower
/// case.
pub proof fn lemma_words(s: Seq<char>, i: int, j: int)
    requires
        0 <= i < j <= s.len(),
        forall|k: int| i <= k < j ==> word_char(#[trigger] s[k]),
        j < s.len() ==> !word_char(s[j]),
        !('0' <= s[i] <= '9') && s[i] != '.',
    ensures
        ({
            let w = s.subrange(i, j);
            let l = text::lower(w);
            let found = lexer::token_at(s, i);
            &&& l == "and"@ ==> found == Found::Ok((TokV::And, j))
            &&& l == "or"@ ==> found == Found::Ok((TokV::Or, j))
            &&& l == "not"@ ==> found == Found::Ok((TokV::Not, j))
            &&& l == "implies"@ ==> found == Found::Ok((TokV::Arrow, j))
            &&& l == "iff"@ ==> found == Found::Ok((TokV::Iff, j))
            &&& l != "and"@ && l != "or"@ && l != "not"@ && l != "implies"@ && l != "iff"@
                ==> found == Found::Ok((TokV::Ident(w), j))
        }),
{
    lemma_after_word(s, i);
    let e = lexer::after_word(s, i);
    assert(word_char(s[i]));
    if e < j {
        assert(word_char(s[e]));
    }
    if e > j {
        assert(lexer::is_word(s[j]));
    }
    reveal_strlit("and");
    reveal_strlit("or");
    reveal_strlit("not");
    reveal_strlit("implies");
    reveal_strlit("iff");
    let l = text::lower(s.subrange(i, j));
    if l == "and"@ {
        assert(l[0] == 'a');
    }
    if l == "or"@ {
        assert(l[0] == 'o');
    }
    if l == "not"@ {
        assert(l[0] == 'n');
    }
    if l == "implies"@ {
        assert(l[1] == 'm');
    }
    if l == "iff"@ {
        assert(l[1] == 'f');
    }
}

proof fn lemma_after_quoted(s: Seq<char>, i: int, quote: char)
    requires
        0 <= i <= s.len(),
    ensures
        i <= lexer::after_quoted(s, i, quote) <= s.len(),
        forall|k: int| i <= k < lexer::after_quoted(s, i, quote) ==> #[trigger] s[k] != quote,
        lexer::after_quoted(s, i, quote) < s.len() ==> s[lexer::after_quoted(s, i, quote)] == quote,
    decreases s.len() - i,
{
    if i < s.len() && s[i] != quote {
        lemma_after_quoted(s, i + 1, quote);
    }
}

/// A quote of either kind opens a text, which is what stands before the next quote of that
/// kind; where none follows it is an error.
pub proof fn lemma_quotes(s: Seq<char>, i: int, j: int)
    requires
        0 <= i < j <= s.len(),
        s[i] == '"' || s[i] == '\'',
        forall|k: int| i < k < j ==> #[trigger] s[k] != s[i],
        j < s.len() ==> s[j] == s[i],
    ensures
        j < s.len() ==> lexer::token_at(s, i) == Found::Ok(
            (TokV::Str(s.subrange(i + 1, j)), j + 1),
        ),
        j == s.len() ==> lexer::token_at(s, i) is Err,
{
    lemma_after_quoted(s, i + 1, s[i]);
    let e = lexer::after_quoted(s, i + 1, s[i]);
    if e < j {
        assert(s[e] != s[i]);
    }
    if e > j {
        assert(s[j] != s[i]);
    }
}

// ── Numbers ─────────────────────────────────────────────────────────────────────

proof fn lemma_after_digits(s: Seq<char>, i: int, grouped: bool)
    requires
        0 <= i <= s.len(),
    ensures
        ({
            let e = lexer::after_digits(s, i, grouped);
            &&& i <= e <= s.len()
            &&& forall|k: int|
                i <= k < e ==> lexer::is_digit(#[trigger] s[k]) || (grouped && s[k] == '_')
            &&& e < s.len() ==> !lexer::is_digit(s[e]) && !(grouped && s[e] == '_')
        }),
    decreases s.len() - i,
{
    if i < s.len() && (lexer::is_digit(s[i]) || (grouped && s[i] == '_')) {
        lemma_after_digits(s, i + 1, grouped);
    }
}

/// Are the characters from `i` up to `j` decimal digits?
pub open spec fn digits_only(s: Seq<char>, i: int, j: int) -> bool {
    0 <= i <= j <= s.len() && forall|k: int| i <= k < j ==> '0' <= #[trigger] s[k] <= '9'
}

proof fn lemma_digits_value(s: Seq<char>, i: int, j: int)
    requires
        digits_only(s, i, j),
    ensures
        lexer::digits_value(s, i, j) == reading::natural_of(s.subrange(i, j)),
    decreases j - i,
{
    if i < j {
        lemma_digits_value(s, i, j - 1);
        assert(s.subrange(i, j).drop_last() =~= s.subrange(i, j - 1));
        assert(s.subrange(i, j).last() == s[j - 1]);
    }
}

/// Digits that no digit, underscore or decimals follow spell the whole number that they
/// denote, as far as it can be represented.
pub proof fn lemma_whole_numbers(s: Seq<char>, i: int, j: int)
    requires
        digits_only(s, i, j),
        i < j,
        j < s.len() ==> !('0' <= s[j] <= '9') && s[j] != '_',
        j + 1 < s.len() && s[j] == '.' ==> !('0' <= s[j + 1] <= '9'),
    ensures
        ({
            let n = reading::natural_of(s.subrange(i, j));
            if n <= i128::MAX {
                lexer::token_at(s, i) == Found::Ok((TokV::Number(Rat::of(n, 1)), j))
            } else {
                lexer::token_at(s, i) is Err
            }
        }),
{
    lemma_after_digits(s, i, true);
    let e = lexer::after_digits(s, i, true);
    if e < j {
        assert('0' <= s[e] <= '9');
    }
    if e > j {
        assert(lexer::is_digit(s[j]) || s[j] == '_');
    }
    lemma_digits_value(s, i, j);
    assert('0' <= s[i] <= '9');
    assert(num::pow10(0) == 1);
}

proof fn lemma_natural_of_append(a: Seq<char>, b: Seq<char>)
    requires
        b.len() > 0,
    ensures
        reading::natural_of(a + b) == reading::natural_of(a + b.drop_last()) * 10 + (b.last() as int
            - 48),
{
    assert((a + b).drop_last() =~= a + b.drop_last());
}

proof fn lemma_split_value(s: Seq<char>, i: int, d: int, j: int)
    requires
        digits_only(s, i, d),
        digits_only(s, d + 1, j),
        s[d] == '.',
    ensures
        lexer::digits_value(s, i, j) == reading::natural_of(
            s.subrange(i, d) + s.subrange(d + 1, j),
        ),
    decreases j - d,
{
    let a = s.subrange(i, d);
    let b = s.subrange(d + 1, j);
    if j == d + 1 {
        lemma_digits_value(s, i, d);
        assert(a + b =~= a);
    } else {
        lemma_split_value(s, i, d, j - 1);
        lemma_natural_of_append(a, b);
        assert(b.drop_last() =~= s.subrange(d + 1, j - 1));
        assert('0' <= s[j - 1] <= '9');
    }
}

/// Digits, a dot and digits that no digit follows spell the number that they denote: the
/// digits without the dot, over ten to the number of decimals.
pub proof fn lemma_decimal_numbers(s: Seq<char>, i: int, d: int, j: int)
    requires
        digits_only(s, i, d),
        digits_only(s, d + 1, j),
        i < d < d + 1 < j,
        s[d] == '.',
        j < s.len() ==> !('0' <= s[j] <= '9'),
    ensures
        ({
            let n = reading::natural_of(s.subrange(i, d) + s.subrange(d + 1, j));
            let ten = num::pow10((j - d - 1) as nat) as int;
            if n <= i128::MAX && ten <= i128::MAX {
                lexer::token_at(s, i) matches Ok((TokV::Number(r), end)) && end == j && r.val()
                    == arith::ratio(n, ten)
            } else {
                lexer::token_at(s, i) is Err
            }
        }),
{
    lemma_after_digits(s, i, true);
    lemma_after_digits(s, d + 1, false);
    let e = lexer::after_digits(s, i, true);
    if e < d {
        assert('0' <= s[e] <= '9');
    }
    if e > d {
        assert(lexer::is_digit(s[d]) || s[d] == '_');
    }
    let f = lexer::after_digits(s, d + 1, false);
    if f < j {
        assert('0' <= s[f] <= '9');
    }
    if f > j {
        assert(lexer::is_digit(s[j]));
    }
    lemma_split_value(s, i, d, j);
    assert('0' <= s[i] <= '9');
    assert('0' <= s[d + 1] <= '9');
    let n = lexer::digits_value(s, i, j) as int;
    let ten = num::pow10((j - d - 1) as nat) as int;
    reading::lemma_pow10_positive((j - d - 1) as nat);
    if n <= i128::MAX && ten <= i128::MAX {
        Rat::lemma_of(n, ten);
    }
}

proof fn lemma_value_skips(s: Seq<char>, t: Seq<char>, i: int, p: int, j: int)
    requires
        0 <= i <= p < j <= s.len(),
        s[p] == '_',
        t == s.remove(p),
    ensures
        lexer::digits_value(s, i, j) == lexer::digits_value(t, i, j - 1),
    decreases j,
{
    if j == p + 1 {
        lemma_value_same(s, t, i, p);
    } else {
        lemma_value_skips(s, t, i, p, j - 1);
        assert(t[j - 2] == s[j - 1]);
    }
}

proof fn lemma_value_same(s: Seq<char>, t: Seq<char>, i: int, j: int)
    requires
        0 <= i,
        j <= s.len(),
        j <= t.len(),
        forall|k: int| i <= k < j ==> s[k] == t[k],
    ensures
        lexer::digits_value(s, i, j) == lexer::digits_value(t, i, j),
    decreases j,
{
    if i < j {
        lemma_value_same(s, t, i, j - 1);
    }
}

/// An underscore among digits, behind the first one, changes nothing of the number.
pub proof fn lemma_grouped_numbers(s: Seq<char>, i: int, p: int, j: int)
    requires
        0 <= i < p < j <= s.len(),
        forall|k: int| i <= k < j ==> '0' <= #[trigger] s[k] <= '9' || s[k] == '_',
        '0' <= s[i] <= '9',
        s[p] == '_',
        j < s.len() ==> !('0' <= s[j] <= '9') && s[j] != '_' && s[j] != '.',
    ensures
        ({
            let t = s.remove(p);
            &&& lexer::token_at(s, i) is Ok <==> lexer::token_at(t, i) is Ok
            &&& lexer::token_at(s, i) matches Ok((tok, end)) ==> tok is Number && end == j
                && lexer::token_at(t, i) == Found::Ok((tok, j - 1))
        }),
{
    let t = s.remove(p);
    lemma_after_digits(s, i, true);
    let e = lexer::after_digits(s, i, true);
    if e < j {
        assert('0' <= s[e] <= '9' || s[e] == '_');
    }
    if e > j {
        assert(lexer::is_digit(s[j]) || s[j] == '_');
    }
    assert forall|k: int| i <= k < j - 1 implies '0' <= #[trigger] t[k] <= '9' || t[k]
        == '_' by {
        assert(t[k] == if k < p {
            s[k]
        } else {
            s[k + 1]
        });
    }
    lemma_after_digits(t, i, true);
    let f = lexer::after_digits(t, i, true);
    if j < s.len() {
        assert(t[j - 1] == s[j]);
    }
    if f < j - 1 {
        assert('0' <= t[f] <= '9' || t[f] == '_');
    }
    if f > j - 1 {
        assert(lexer::is_digit(t[j - 1]) || t[j - 1] == '_');
    }
    assert(t[i] == s[i]);
    lemma_value_skips(s, t, i, p, j);
}

// ── The whole text ──────────────────────────────────────────────────────────────

/// White space between tokens means nothing: a blank, a tab or a line break.
pub proof fn lemma_space_between(s: Seq<char>, i: int)
    requires
        0 <= i < s.len(),
        s[i] == ' ' || '\t' <= s[i] <= '\r',
    ensures
        lexer::tokens_from(s, i) == lexer::tokens_from(s, i + 1),
{
    assert(lexer::after_space(s, i) == lexer::after_space(s, i + 1));
    lemma_after_space(s, i + 1);
    let j = lexer::after_space(s, i + 1);
    reveal_with_fuel(lexer::tokens_from, 2);
}

proof fn lemma_after_space(s: Seq<char>, i: int)
    requires
        0 <= i <= s.len(),
    ensures
        i <= lexer::after_space(s, i) <= s.len(),
    decreases s.len() - i,
{
    if i < s.len() && lexer::is_space(s[i]) {
        lemma_after_space(s, i + 1);
    }
}

/// The text is read from one end to the other: the token at a position that is not white
/// space comes first, at that position, and those behind it follow. An error anywhere is an
/// error of the whole, and the end of the text is the end of the tokens.
pub proof fn lemma_token_by_token(s: Seq<char>, i: int)
    requires
        0 <= i <= s.len(),
    ensures
        i == s.len() ==> lexer::tokens_from(s, i) == Ok::<Seq<(TokV, nat)>, ErrV>(seq![]),
        i < s.len() && s[i] != ' ' && !('\t' <= s[i] <= '\r') ==> match lexer::token_at(s, i) {
            Err(e) => lexer::tokens_from(s, i) == Err::<Seq<(TokV, nat)>, ErrV>(e),
            Ok((tok, k)) => i < k <= s.len() && match lexer::tokens_from(s, k) {
                Err(e) => lexer::tokens_from(s, i) == Err::<Seq<(TokV, nat)>, ErrV>(e),
                Ok(rest) => lexer::tokens_from(s, i) == Ok::<Seq<(TokV, nat)>, ErrV>(
                    seq![(tok, lexer::offset(s, i))] + rest,
                ),
            },
        },
{
    if i < s.len() && !lexer::is_space(s[i]) {
        assert(lexer::after_space(s, i) == i);
        lemma_after_word(s, i);
        lemma_after_digits(s, i, true);
        lemma_after_quoted(s, i + 1, s[i]);
        let a = lexer::after_digits(s, i, true);
        if a + 1 < s.len() {
            lemma_after_digits(s, a + 1, false);
        }
        reveal_with_fuel(lexer::after_word, 2);
        reveal_with_fuel(lexer::after_digits, 2);
    } else if i == s.len() {
        assert(lexer::after_space(s, i) == i);
    }
}

/// A position is counted in bytes of UTF-8.
pub proof fn lemma_offset(s: Seq<char>, i: int)
    requires
        0 <= i <= s.len(),
    ensures
        lexer::offset(s, i) == encode_utf8(s.take(i)).len(),
    decreases i,
{
    if i > 0 {
        lemma_offset(s, i - 1);
        assert(s.take(i) =~= s.take(i - 1).push(s[i - 1]));
        lemma_encoded_push(s.take(i - 1), s[i - 1]);
    } else {
        assert(s.take(0) =~= Seq::empty());
        reveal_with_fuel(encode_utf8, 2);
    }
}

proof fn lemma_encoded_push(t: Seq<char>, c: char)
    ensures
        encode_utf8(t.push(c)).len() == encode_utf8(t).len() + lexer::width(c),
    decreases t.len(),
{
    reveal_with_fuel(encode_utf8, 2);
    if t.len() == 0 {
        assert(t.push(c).drop_first() =~= Seq::empty());
    } else {
        assert(t.push(c).drop_first() =~= t.drop_first().push(c));
        lemma_encoded_push(t.drop_first(), c);
    }
}

/// A character that starts nothing is an error, at its position.
pub proof fn lemma_unexpected(s: Seq<char>, i: int)
    requires
        0 <= i < s.len(),
        s[i] == '.' || s[i] == '%' || s[i] == '#' || s[i] == '@' || s[i] == '{' || s[i] == '}'
            || s[i] == '[' || s[i] == ']' || s[i] == ',' || s[i] == ';' || s[i] == ':' || s[i]
                == '$'
            || s[i] == '^' || s[i] == '~' || s[i] == '?' || s[i] > '\u{7f}',
    ensures
        lexer::token_at(s, i) matches Err(e) && e.position == encode_utf8(s.take(i)).len() && (s[i]
            <= '\u{7f}' ==> e.message == "unexpected character '"@ + seq![s[i]] + "'"@),
{
    lemma_offset(s, i);
}

/// Every token is the one that stands at its position, and positions grow.
pub proof fn lemma_token_positions(s: Seq<char>, i: int) -> (at: Seq<int>)
    requires
        0 <= i <= s.len(),
    ensures
        lexer::tokens_from(s, i) matches Ok(toks) ==> {
            &&& at.len() == toks.len()
            &&& forall|k: int|
                #![trigger at[k]]
                0 <= k < at.len() ==> {
                    &&& i <= at[k] < s.len()
                    &&& toks[k].1 == encode_utf8(s.take(at[k])).len()
                    &&& lexer::token_at(s, at[k]) matches Ok((tok, end)) && tok == toks[k].0
                    &&& k > 0 ==> at[k - 1] < at[k]
                }
        },
    decreases s.len() - i,
{
    if i == s.len() {
        lemma_token_by_token(s, i);
        Seq::empty()
    } else if lexer::is_space(s[i]) {
        assert(lexer::after_space(s, i) == lexer::after_space(s, i + 1));
        lemma_after_space(s, i + 1);
        reveal_with_fuel(lexer::tokens_from, 2);
        assert(lexer::tokens_from(s, i) == lexer::tokens_from(s, i + 1));
        lemma_token_positions(s, i + 1)
    } else {
        lemma_token_by_token(s, i);
        lemma_offset(s, i);
        match lexer::token_at(s, i) {
            Err(_) => Seq::empty(),
            Ok((tok, k)) => {
                let rest = lemma_token_positions(s, k);
                let at = seq![i] + rest;
                if let Ok(toks) = lexer::tokens_from(s, i) {
                    let more = lexer::tokens_from(s, k)->Ok_0;
                    assert forall|n: int| #![trigger at[n]] 0 <= n < at.len() implies {
                        &&& i <= at[n] < s.len()
                        &&& toks[n].1 == encode_utf8(s.take(at[n])).len()
                        &&& lexer::token_at(s, at[n]) matches Ok((tok, end)) && tok == toks[n].0
                        &&& n > 0 ==> at[n - 1] < at[n]
                    } by {
                        if n > 0 {
                            assert(at[n] == rest[n - 1]);
                            assert(toks[n] == more[n - 1]);
                            if n > 1 {
                                assert(at[n - 1] == rest[n - 2]);
                            }
                        }
                    }
                }
                at
            },
        }
    }
}

/// The digits among the characters from `i` up to `j`.
pub open spec fn digits_among(s: Seq<char>, i: int, j: int) -> Seq<char>
    decreases j - i,
{
    if j <= i {
        Seq::empty()
    } else if '0' <= s[j - 1] <= '9' {
        digits_among(s, i, j - 1).push(s[j - 1])
    } else {
        digits_among(s, i, j - 1)
    }
}

proof fn lemma_digits_among(s: Seq<char>, i: int, j: int)
    ensures
        lexer::digits_value(s, i, j) == reading::natural_of(digits_among(s, i, j)),
    decreases j - i,
{
    if i < j {
        lemma_digits_among(s, i, j - 1);
        if '0' <= s[j - 1] <= '9' {
            assert(digits_among(s, i, j).drop_last() =~= digits_among(s, i, j - 1));
        }
    }
}

/// A number may have underscores in its whole part and decimals behind it, both at once: it
/// is what its digits denote, over ten to the number of decimals.
pub proof fn lemma_numbers(s: Seq<char>, i: int, d: int, j: int)
    requires
        0 <= i < d <= j <= s.len(),
        '0' <= s[i] <= '9',
        forall|k: int| i <= k < d ==> '0' <= #[trigger] s[k] <= '9' || s[k] == '_',
        d < s.len() ==> !('0' <= s[d] <= '9') && s[d] != '_',
        d < j ==> s[d] == '.' && d + 1 < j && digits_only(s, d + 1, j),
        d == j && d + 1 < s.len() && s[d] == '.' ==> !('0' <= s[d + 1] <= '9'),
        d < j && j < s.len() ==> !('0' <= s[j] <= '9'),
    ensures
        ({
            let n = reading::natural_of(digits_among(s, i, j));
            let ten = num::pow10(
                (if d < j {
                    j - d - 1
                } else {
                    0
                }) as nat,
            ) as int;
            if n <= i128::MAX && ten <= i128::MAX {
                lexer::token_at(s, i) matches Ok((TokV::Number(r), end)) && end == j && r.val()
                    == arith::ratio(n, ten)
            } else {
                lexer::token_at(s, i) is Err
            }
        }),
{
    lemma_after_digits(s, i, true);
    let e = lexer::after_digits(s, i, true);
    if e < d {
        assert('0' <= s[e] <= '9' || s[e] == '_');
    }
    if e > d {
        assert(lexer::is_digit(s[d]) || s[d] == '_');
    }
    if d < j {
        lemma_after_digits(s, d + 1, false);
        let f = lexer::after_digits(s, d + 1, false);
        assert('0' <= s[d + 1] <= '9');
        if f < j {
            assert('0' <= s[f] <= '9');
        }
        if f > j {
            assert(lexer::is_digit(s[j]));
        }
    }
    lemma_digits_among(s, i, j);
    let n = lexer::digits_value(s, i, j) as int;
    let scale = (if d < j {
        j - d - 1
    } else {
        0
    }) as nat;
    let ten = num::pow10(scale) as int;
    assert(lexer::number_end(s, i) == (j, scale));
    reading::lemma_pow10_positive(scale);
    if n <= i128::MAX && ten <= i128::MAX {
        Rat::lemma_of(n, ten);
    }
}

} // verus!
