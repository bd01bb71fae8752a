//! Text: decimal rendering, trimming, joining, and the order of strings.
//!
//! A string is modelled by its sequence of characters. Everything a message is made
//! of is built here by concatenation, so a contract can state a message exactly.

use vstd::prelude::*;
use vstd::utf8::*;

verus! {

/// `String::push` of std: appends the given character to the end of the string.
pub assume_specification[ String::push ](s: &mut String, c: char)
    ensures
        final(s)@ == old(s)@.push(c),
;

/// The result of comparing two values.
#[derive(Clone, Copy, Debug, PartialEq, Eq, Structural)]
pub enum Rank {
    Less,
    Same,
    More,
}

// ── Decimal digits ──────────────────────────────────────────────────────────────

/// The character of one decimal digit.
pub open spec fn digit_char(k: nat) -> char {
    (48 + k) as char
}

/// The decimal digits of `n`, most significant first, without leading zeros.
pub open spec fn digits(n: nat) -> Seq<char>
    decreases n,
{
    if n < 10 {
        seq![digit_char(n)]
    } else {
        digits(n / 10).push(digit_char(n % 10))
    }
}

/// The decimal rendering of an integer.
pub open spec fn decimal(n: int) -> Seq<char> {
    if n < 0 {
        seq!['-'] + digits((-n) as nat)
    } else {
        digits(n as nat)
    }
}

/// Exactly `width` decimal digits: the last `width` digits of `n`, zero-padded.
pub open spec fn padded(n: nat, width: nat) -> Seq<char>
    decreases width,
{
    if width == 0 {
        Seq::empty()
    } else {
        padded(n / 10, (width - 1) as nat).push(digit_char(n % 10))
    }
}

/// Exec form of [`digit_char`].
fn digit(k: u8) -> (c: char)
    requires
        k < 10,
    ensures
        c == digit_char(k as nat),
{
    (48 + k) as char
}

/// The decimal rendering of a natural number.
pub fn natural(n: u128) -> (r: String)
    ensures
        r@ == digits(n as nat),
    decreases n,
{
    if n < 10 {
        let mut out = String::new();
        out.push(digit(n as u8));
        assert(out@ =~= digits(n as nat));
        out
    } else {
        let mut out = natural(n / 10);
        out.push(digit((n % 10) as u8));
        out
    }
}

/// The decimal rendering of an index or a count.
pub fn count(n: usize) -> (r: String)
    ensures
        r@ == digits(n as nat),
{
    natural(n as u128)
}

/// The magnitude of a signed number.
pub fn unsigned(n: i128) -> (r: u128)
    ensures
        r as int == if n < 0 {
            -(n as int)
        } else {
            n as int
        },
{
    if n < 0 {
        (-(n + 1)) as u128 + 1
    } else {
        n as u128
    }
}

/// The decimal rendering of a signed number.
pub fn integer(n: i128) -> (r: String)
    ensures
        r@ == decimal(n as int),
{
    if n < 0 {
        let mut out = String::new();
        out.push('-');
        let tail = natural(unsigned(n));
        out.append(tail.as_str());
        assert(out@ =~= decimal(n as int));
        out
    } else {
        natural(n as u128)
    }
}

/// Exec form of [`padded`].
pub fn padded_digits(n: u128, width: u32) -> (r: String)
    ensures
        r@ == padded(n as nat, width as nat),
    decreases width,
{
    if width == 0 {
        String::new()
    } else {
        let mut out = padded_digits(n / 10, width - 1);
        out.push(digit((n % 10) as u8));
        out
    }
}

// ── Characters ──────────────────────────────────────────────────────────────────

/// The characters of a string.
pub fn chars_of(s: &str) -> (r: Vec<char>)
    ensures
        r@ == s@,
{
    let mut out: Vec<char> = Vec::new();
    for c in it: s.chars()
        invariant
            it.seq() == s@,
            out@ == it.seq().take(it.index() as int),
    {
        out.push(c);
    }
    assert(s@.take(s@.len() as int) =~= s@);
    out
}

/// The string of the characters from `lo` up to `hi`.
pub fn text_of(v: &Vec<char>, lo: usize, hi: usize) -> (r: String)
    requires
        lo <= hi <= v@.len(),
    ensures
        r@ == v@.subrange(lo as int, hi as int),
{
    let mut out = String::new();
    let mut i: usize = lo;
    while i < hi
        invariant
            lo <= i <= hi <= v@.len(),
            out@ == v@.subrange(lo as int, i as int),
        decreases hi - i,
    {
        out.push(v[i]);
        assert(v@.subrange(lo as int, i as int).push(v@[i as int]) =~= v@.subrange(
            lo as int,
            i + 1,
        ));
        i += 1;
    }
    out
}

/// Unicode white space: the characters of the `White_Space` property.
pub open spec fn is_white(c: char) -> bool {
    ||| '\u{9}' <= c <= '\u{d}'
    ||| c == '\u{20}'
    ||| c == '\u{85}'
    ||| c == '\u{a0}'
    ||| c == '\u{1680}'
    ||| '\u{2000}' <= c <= '\u{200a}'
    ||| c == '\u{2028}'
    ||| c == '\u{2029}'
    ||| c == '\u{202f}'
    ||| c == '\u{205f}'
    ||| c == '\u{3000}'
}

/// Exec form of [`is_white`].
pub fn white(c: char) -> (b: bool)
    ensures
        b == is_white(c),
{
    ('\u{9}' <= c && c <= '\u{d}') || c == '\u{20}' || c == '\u{85}' || c == '\u{a0}' || c
        == '\u{1680}' || ('\u{2000}' <= c && c <= '\u{200a}') || c == '\u{2028}' || c == '\u{2029}'
        || c == '\u{202f}' || c == '\u{205f}' || c == '\u{3000}'
}

/// A text without its leading white space.
pub open spec fn trim_start(s: Seq<char>) -> Seq<char>
    decreases s.len(),
{
    if s.len() > 0 && is_white(s[0]) {
        trim_start(s.drop_first())
    } else {
        s
    }
}

/// A text without its trailing white space.
pub open spec fn trim_end(s: Seq<char>) -> Seq<char>
    decreases s.len(),
{
    if s.len() > 0 && is_white(s.last()) {
        trim_end(s.drop_last())
    } else {
        s
    }
}

/// A text without white space at either end.
pub open spec fn trimmed(s: Seq<char>) -> Seq<char> {
    trim_end(trim_start(s))
}

/// Exec form of [`trimmed`].
pub fn trim(s: &str) -> (r: String)
    ensures
        r@ == trimmed(s@),
{
    let v = chars_of(s);
    let mut lo: usize = 0;
    assert(v@.subrange(0, v@.len() as int) =~= v@);
    while lo < v.len() && white(v[lo])
        invariant
            lo <= v@.len(),
            trim_start(v@) == trim_start(v@.subrange(lo as int, v@.len() as int)),
        decreases v@.len() - lo,
    {
        assert(v@.subrange(lo as int, v@.len() as int).drop_first() =~= v@.subrange(
            lo + 1,
            v@.len() as int,
        ));
        lo += 1;
    }
    let mut hi: usize = v.len();
    while hi > lo && white(v[hi - 1])
        invariant
            lo <= hi <= v@.len(),
            trim_end(v@.subrange(lo as int, v@.len() as int)) == trim_end(
                v@.subrange(lo as int, hi as int),
            ),
        decreases hi,
    {
        assert(v@.subrange(lo as int, hi as int).drop_last() =~= v@.subrange(lo as int, hi - 1));
        hi -= 1;
    }
    text_of(&v, lo, hi)
}

/// Is the text blank, that is, nothing but white space?
pub fn blank(s: &str) -> (b: bool)
    ensures
        b == (trimmed(s@).len() == 0),
{
    let t = trim(s);
    t.as_str().is_empty()
}

/// The lower-case form of an ASCII letter; every other character is left alone.
pub open spec fn lower_char(c: char) -> char {
    if 'A' <= c <= 'Z' {
        (c as u32 + 32) as char
    } else {
        c
    }
}

/// A text with its ASCII letters in lower case.
pub open spec fn lower(s: Seq<char>) -> Seq<char> {
    Seq::new(s.len(), |i: int| lower_char(s[i]))
}

/// Exec form of [`lower_char`].
pub fn lower_letter(c: char) -> (r: char)
    ensures
        r == lower_char(c),
{
    if 'A' <= c && c <= 'Z' {
        ((c as u8) + 32) as char
    } else {
        c
    }
}

/// Exec form of [`lower`].
pub fn lower_text(s: &str) -> (r: String)
    ensures
        r@ == lower(s@),
{
    let v = chars_of(s);
    let mut out = String::new();
    let mut i: usize = 0;
    while i < v.len()
        invariant
            i <= v@.len(),
            v@ == s@,
            out@ == lower(s@).take(i as int),
        decreases v@.len() - i,
    {
        out.push(lower_letter(v[i]));
        assert(lower(s@).take(i as int).push(lower_char(s@[i as int])) =~= lower(s@).take(i + 1));
        i += 1;
    }
    assert(lower(s@).take(s@.len() as int) =~= lower(s@));
    out
}

// ── Equality and order ──────────────────────────────────────────────────────────

/// Lexicographic order on byte strings.
pub open spec fn bytes_less(a: Seq<u8>, b: Seq<u8>) -> bool
    decreases a.len(),
{
    if b.len() == 0 {
        false
    } else if a.len() == 0 {
        true
    } else if a[0] != b[0] {
        a[0] < b[0]
    } else {
        bytes_less(a.drop_first(), b.drop_first())
    }
}

/// The order of strings: lexicographic by their UTF-8 bytes.
pub open spec fn text_less(a: Seq<char>, b: Seq<char>) -> bool {
    bytes_less(encode_utf8(a), encode_utf8(b))
}

proof fn lemma_bytes_total(a: Seq<u8>, b: Seq<u8>)
    ensures
        a == b || bytes_less(a, b) || bytes_less(b, a),
    decreases a.len(),
{
    if a.len() == 0 || b.len() == 0 {
        if a.len() == 0 && b.len() == 0 {
            assert(a =~= b);
        }
    } else if a[0] == b[0] {
        lemma_bytes_total(a.drop_first(), b.drop_first());
        if a.drop_first() == b.drop_first() {
            assert(a =~= seq![a[0]] + a.drop_first());
            assert(b =~= seq![b[0]] + b.drop_first());
        }
    }
}

proof fn lemma_bytes_irreflexive(a: Seq<u8>)
    ensures
        !bytes_less(a, a),
    decreases a.len(),
{
    if a.len() > 0 {
        lemma_bytes_irreflexive(a.drop_first());
    }
}

proof fn lemma_bytes_transitive(a: Seq<u8>, b: Seq<u8>, c: Seq<u8>)
    requires
        bytes_less(a, b),
        bytes_less(b, c),
    ensures
        bytes_less(a, c),
    decreases a.len(),
{
    if a.len() > 0 && a[0] == b[0] && b[0] == c[0] {
        lemma_bytes_transitive(a.drop_first(), b.drop_first(), c.drop_first());
    }
}

/// Encoding loses nothing.
pub proof fn lemma_encode_injective(a: Seq<char>, b: Seq<char>)
    requires
        encode_utf8(a) == encode_utf8(b),
    ensures
        a == b,
{
    encode_utf8_decode_utf8(a);
    encode_utf8_decode_utf8(b);
}

/// Any two texts are equal or ordered one way or the other.
pub proof fn lemma_text_total(a: Seq<char>, b: Seq<char>)
    ensures
        a == b || text_less(a, b) || text_less(b, a),
{
    lemma_bytes_total(encode_utf8(a), encode_utf8(b));
    if encode_utf8(a) == encode_utf8(b) {
        lemma_encode_injective(a, b);
    }
}

/// The order of texts is strict.
pub proof fn lemma_text_irreflexive(a: Seq<char>)
    ensures
        !text_less(a, a),
{
    lemma_bytes_irreflexive(encode_utf8(a));
}

/// The order of texts is transitive.
pub proof fn lemma_text_transitive(a: Seq<char>, b: Seq<char>, c: Seq<char>)
    requires
        text_less(a, b),
        text_less(b, c),
    ensures
        text_less(a, c),
{
    lemma_bytes_transitive(encode_utf8(a), encode_utf8(b), encode_utf8(c));
}

/// Compare two strings.
pub fn text_rank(a: &str, b: &str) -> (r: Rank)
    ensures
        r is Same <==> a@ == b@,
        r is Less <==> text_less(a@, b@),
        r is More <==> text_less(b@, a@),
{
    let x = a.as_bytes();
    let y = b.as_bytes();
    proof {
        lemma_text_total(a@, b@);
        lemma_text_irreflexive(a@);
        if text_less(a@, b@) && text_less(b@, a@) {
            lemma_text_transitive(a@, b@, a@);
        }
        assert(x@.skip(0) =~= x@);
        assert(y@.skip(0) =~= y@);
    }
    let mut i: usize = 0;
    while i < x.len() && i < y.len()
        invariant
            i <= x@.len(),
            i <= y@.len(),
            x@ == encode_utf8(a@),
            y@ == encode_utf8(b@),
            x@.take(i as int) == y@.take(i as int),
            text_less(a@, b@) == bytes_less(x@.skip(i as int), y@.skip(i as int)),
            text_less(b@, a@) == bytes_less(y@.skip(i as int), x@.skip(i as int)),
            a@ == b@ || text_less(a@, b@) || text_less(b@, a@),
            a@ == b@ ==> !text_less(a@, b@) && !text_less(b@, a@),
            !(text_less(a@, b@) && text_less(b@, a@)),
        decreases x@.len() - i,
    {
        if x[i] < y[i] {
            return Rank::Less;
        }
        if x[i] > y[i] {
            return Rank::More;
        }
        proof {
            assert(x@.skip(i as int).drop_first() =~= x@.skip(i + 1));
            assert(y@.skip(i as int).drop_first() =~= y@.skip(i + 1));
            assert(x@.take(i + 1) =~= x@.take(i as int).push(x@[i as int]));
            assert(y@.take(i + 1) =~= y@.take(i as int).push(y@[i as int]));
        }
        i += 1;
    }
    if x.len() == y.len() {
        proof {
            assert(x@.take(i as int) =~= x@);
            assert(y@.take(i as int) =~= y@);
            lemma_encode_injective(a@, b@);
        }
        Rank::Same
    } else if x.len() < y.len() {
        Rank::Less
    } else {
        Rank::More
    }
}

/// Are the two strings equal?
pub fn same(a: &str, b: &str) -> (r: bool)
    ensures
        r == (a@ == b@),
{
    match text_rank(a, b) {
        Rank::Same => true,
        _ => false,
    }
}

// ── Building ────────────────────────────────────────────────────────────────────

/// The concatenation of two texts.
pub fn cat2(a: &str, b: &str) -> (r: String)
    ensures
        r@ == a@ + b@,
{
    let mut out = a.to_owned();
    out.append(b);
    out
}

/// The concatenation of three texts.
pub fn cat3(a: &str, b: &str, c: &str) -> (r: String)
    ensures
        r@ == a@ + b@ + c@,
{
    let mut out = a.to_owned();
    out.append(b);
    out.append(c);
    out
}

/// The concatenation of four texts.
pub fn cat4(a: &str, b: &str, c: &str, d: &str) -> (r: String)
    ensures
        r@ == a@ + b@ + c@ + d@,
{
    let mut out = cat3(a, b, c);
    out.append(d);
    out
}

/// The concatenation of five texts.
pub fn cat5(a: &str, b: &str, c: &str, d: &str, e: &str) -> (r: String)
    ensures
        r@ == a@ + b@ + c@ + d@ + e@,
{
    let mut out = cat4(a, b, c, d);
    out.append(e);
    out
}

/// The texts of a list, with `sep` between neighbours.
pub open spec fn joined(parts: Seq<Seq<char>>, sep: Seq<char>) -> Seq<char>
    decreases parts.len(),
{
    if parts.len() == 0 {
        Seq::empty()
    } else if parts.len() == 1 {
        parts[0]
    } else {
        joined(parts.drop_last(), sep) + sep + parts.last()
    }
}

/// The views of a list of strings.
pub open spec fn texts(v: Seq<String>) -> Seq<Seq<char>> {
    Seq::new(v.len(), |i: int| v[i]@)
}

/// The text of an option.
pub open spec fn option_text(o: Option<String>) -> Option<Seq<char>> {
    match o {
        Some(s) => Some(s@),
        None => None,
    }
}

/// Exec form of [`joined`].
pub fn join(parts: &Vec<String>, sep: &str) -> (r: String)
    ensures
        r@ == joined(texts(parts@), sep@),
{
    let mut out = String::new();
    let mut i: usize = 0;
    let ghost all = texts(parts@);
    while i < parts.len()
        invariant
            i <= parts@.len(),
            all == texts(parts@),
            out@ == joined(all.take(i as int), sep@),
        decreases parts@.len() - i,
    {
        proof {
            assert(all.take(i + 1).drop_last() =~= all.take(i as int));
        }
        if i > 0 {
            out.append(sep);
        }
        out.append(parts[i].as_str());
        assert(out@ =~= joined(all.take(i + 1), sep@));
        i += 1;
    }
    assert(all.take(all.len() as int) =~= all);
    out
}

/// A list of strings copied one by one.
pub fn copy_texts(v: &Vec<String>) -> (r: Vec<String>)
    ensures
        texts(r@) == texts(v@),
        r@.len() == v@.len(),
{
    let mut out: Vec<String> = Vec::new();
    let mut i: usize = 0;
    while i < v.len()
        invariant
            i <= v@.len(),
            out@.len() == i,
            forall|k: int| 0 <= k < i ==> (#[trigger] out@[k])@ == v@[k]@,
        decreases v@.len() - i,
    {
        out.push(v[i].clone());
        i += 1;
    }
    assert(texts(out@) =~= texts(v@));
    out
}

/// Does the list hold the text?
pub fn holds_text(v: &Vec<String>, t: &str) -> (r: bool)
    ensures
        r == texts(v@).contains(t@),
{
    let mut i: usize = 0;
    while i < v.len()
        invariant
            i <= v@.len(),
            forall|k: int| 0 <= k < i ==> texts(v@)[k] != t@,
        decreases v@.len() - i,
    {
        if same(v[i].as_str(), t) {
            assert(texts(v@)[i as int] == t@);
            return true;
        }
        i += 1;
    }
    false
}

/// The list with a text put before the first one that is not smaller, unless it is
/// that one.
pub open spec fn sorted_with(s: Seq<Seq<char>>, t: Seq<char>) -> Seq<Seq<char>>
    decreases s.len(),
{
    if s.len() == 0 {
        seq![t]
    } else if s[0] == t {
        s
    } else if text_less(t, s[0]) {
        seq![t] + s
    } else {
        seq![s[0]] + sorted_with(s.drop_first(), t)
    }
}

/// Do the texts strictly increase?
pub open spec fn increasing(s: Seq<Seq<char>>) -> bool {
    forall|i: int, j: int| 0 <= i < j < s.len() ==> text_less(s[i], s[j])
}

/// Inserting keeps the order and adds one text.
pub proof fn lemma_sorted_with(s: Seq<Seq<char>>, t: Seq<char>)
    requires
        increasing(s),
    ensures
        increasing(sorted_with(s, t)),
        forall|x: Seq<char>| #[trigger] sorted_with(s, t).contains(x) <==> x == t || s.contains(x),
    decreases s.len(),
{
    let r = sorted_with(s, t);
    if s.len() == 0 {
        assert(r[0] == t);
    } else if s[0] == t {
    } else if text_less(t, s[0]) {
        assert forall|i: int, j: int| 0 <= i < j < r.len() implies text_less(r[i], r[j]) by {
            assert(r[j] == s[j - 1]);
            if i > 0 {
                assert(r[i] == s[i - 1]);
            } else if j > 1 {
                assert(text_less(s[0], s[j - 1]));
                lemma_text_transitive(t, s[0], s[j - 1]);
            }
        }
        assert forall|x: Seq<char>| #[trigger] r.contains(x) <==> x == t || s.contains(x) by {
            if s.contains(x) {
                assert(r[s.index_of(x) + 1] == x);
            }
            if x == t {
                assert(r[0] == x);
            }
            if r.contains(x) {
                let i = r.index_of(x);
                if i > 0 {
                    assert(s[i - 1] == x);
                }
            }
        }
    } else {
        lemma_text_total(t, s[0]);
        let tail = s.drop_first();
        let q = sorted_with(tail, t);
        assert forall|i: int, j: int| 0 <= i < j < tail.len() implies text_less(
            tail[i],
            tail[j],
        ) by {
            assert(text_less(s[i + 1], s[j + 1]));
        }
        lemma_sorted_with(tail, t);
        assert forall|i: int, j: int| 0 <= i < j < r.len() implies text_less(r[i], r[j]) by {
            assert(r[j] == q[j - 1]);
            if i > 0 {
                assert(r[i] == q[i - 1]);
            } else {
                assert(q.contains(r[j]));
                if r[j] != t {
                    let k = tail.index_of(r[j]);
                    assert(text_less(s[0], s[k + 1]));
                }
            }
        }
        assert forall|x: Seq<char>| #[trigger] r.contains(x) <==> x == t || s.contains(x) by {
            if s.contains(x) {
                let i = s.index_of(x);
                if i > 0 {
                    assert(tail[i - 1] == x);
                    assert(q.contains(x));
                } else {
                    assert(r[0] == x);
                }
            }
            if q.contains(x) {
                assert(r[q.index_of(x) + 1] == x);
            }
            if r.contains(x) {
                let i = r.index_of(x);
                if i > 0 {
                    assert(q[i - 1] == x);
                    assert(q.contains(x));
                    if tail.contains(x) {
                        assert(s[tail.index_of(x) + 1] == x);
                    }
                } else {
                    assert(s[0] == x);
                }
            }
            if x == t {
                assert(q.contains(x));
            }
        }
    }
}

/// Put a text into a sorted list that does not hold it yet.
pub fn insert_sorted(v: &mut Vec<String>, t: &str)
    ensures
        texts(final(v)@) == sorted_with(texts(old(v)@), t@),
{
    let ghost s = texts(v@);
    let mut i: usize = 0;
    assert(s.skip(0) =~= s);
    assert(s.take(0) + sorted_with(s, t@) =~= sorted_with(s, t@));
    while i < v.len()
        invariant
            i <= v@.len(),
            s == texts(v@),
            s == texts(old(v)@),
            *v == *old(v),
            sorted_with(s, t@) == s.take(i as int) + sorted_with(s.skip(i as int), t@),
        decreases v@.len() - i,
    {
        let ghost rest = s.skip(i as int);
        assert(rest[0] == s[i as int]);
        match text_rank(v[i].as_str(), t) {
            Rank::Same => {
                assert(s.take(i as int) + rest =~= s);
                return ;
            },
            Rank::More => {
                proof {
                    lemma_text_total(s[i as int], t@);
                }
                v.insert(i, t.to_owned());
                assert(texts(v@) =~= s.take(i as int) + (seq![t@] + rest));
                return ;
            },
            Rank::Less => {
                proof {
                    lemma_text_total(s[i as int], t@);
                    lemma_text_irreflexive(t@);
                    if text_less(t@, s[i as int]) {
                        lemma_text_transitive(t@, s[i as int], t@);
                    }
                    assert(rest.drop_first() =~= s.skip(i + 1));
                    assert(s.take(i as int) + (seq![rest[0]] + sorted_with(rest.drop_first(), t@))
                        =~= s.take(i + 1) + sorted_with(s.skip(i + 1), t@));
                }
            },
        }
        i += 1;
    }
    assert(s.skip(i as int) =~= Seq::empty());
    assert(s.take(i as int) =~= s);
    v.push(t.to_owned());
    assert(texts(v@) =~= s + seq![t@]);
}

// ── What the text functions do ──────────────────────────────────────────────────

/// Trimming takes white space from both ends and nothing else: what is left is a stretch of
/// the text, all before and behind it is white space, and it neither starts nor ends with
/// white space.
pub proof fn lemma_trimmed(s: Seq<char>) -> (r: (int, int))
    ensures
        0 <= r.0 <= r.1 <= s.len(),
        trimmed(s) == s.subrange(r.0, r.1),
        forall|k: int| 0 <= k < r.0 || r.1 <= k < s.len() ==> is_white(#[trigger] s[k]),
        r.0 < r.1 ==> !is_white(s[r.0]) && !is_white(s[r.1 - 1]),
{
    let i = lemma_trim_start(s);
    let t = s.subrange(i, s.len() as int);
    let j = lemma_trim_end(t);
    assert(t.take(j) =~= s.subrange(i, i + j));
    assert forall|k: int| 0 <= k < i || i + j <= k < s.len() implies is_white(
        #[trigger] s[k],
    ) by {
        if k >= i + j {
            assert(t[k - i] == s[k]);
        }
    }
    (i, i + j)
}

proof fn lemma_trim_start(s: Seq<char>) -> (i: int)
    ensures
        0 <= i <= s.len(),
        trim_start(s) == s.subrange(i, s.len() as int),
        forall|k: int| 0 <= k < i ==> is_white(#[trigger] s[k]),
        i < s.len() ==> !is_white(s[i]),
    decreases s.len(),
{
    if s.len() > 0 && is_white(s[0]) {
        let t = s.drop_first();
        let i = lemma_trim_start(t);
        assert(t.subrange(i, t.len() as int) =~= s.subrange(i + 1, s.len() as int));
        assert forall|k: int| 0 <= k < i + 1 implies is_white(#[trigger] s[k]) by {
            if k > 0 {
                assert(t[k - 1] == s[k]);
            }
        }
        i + 1
    } else {
        assert(s.subrange(0, s.len() as int) =~= s);
        0
    }
}

proof fn lemma_trim_end(s: Seq<char>) -> (j: int)
    ensures
        0 <= j <= s.len(),
        trim_end(s) == s.take(j),
        forall|k: int| j <= k < s.len() ==> is_white(#[trigger] s[k]),
        j > 0 ==> !is_white(s[j - 1]),
    decreases s.len(),
{
    if s.len() > 0 && is_white(s.last()) {
        let t = s.drop_last();
        let j = lemma_trim_end(t);
        assert(t.take(j) =~= s.take(j));
        assert forall|k: int| j <= k < s.len() implies is_white(#[trigger] s[k]) by {
            if k < s.len() - 1 {
                assert(t[k] == s[k]);
            }
        }
        j
    } else {
        assert(s.take(s.len() as int) =~= s);
        s.len() as int
    }
}

/// A text is blank exactly if all of it is white space.
pub proof fn lemma_blank(s: Seq<char>)
    ensures
        trimmed(s).len() == 0 <==> forall|k: int| 0 <= k < s.len() ==> is_white(#[trigger] s[k]),
{
    let r = lemma_trimmed(s);
    if trimmed(s).len() > 0 {
        assert(!is_white(s[r.0]));
    }
}

/// Trimming twice is trimming once, and a text that has no white space at its ends stays.
pub proof fn lemma_trimmed_once(s: Seq<char>)
    ensures
        trimmed(trimmed(s)) == trimmed(s),
        s.len() > 0 && !is_white(s[0]) && !is_white(s.last()) ==> trimmed(s) == s,
{
    let r = lemma_trimmed(s);
    let t = trimmed(s);
    let q = lemma_trimmed(t);
    if r.0 < r.1 {
        assert(t[0] == s[r.0] && t.last() == s[r.1 - 1]);
        if q.0 > 0 {
            assert(is_white(t[0]));
        }
        if q.1 < t.len() {
            assert(is_white(t[t.len() - 1]));
        }
    }
    assert(t.subrange(q.0, q.1) =~= t);
    if s.len() > 0 && !is_white(s[0]) && !is_white(s.last()) {
        if r.0 > 0 {
            assert(is_white(s[0]));
        }
        if r.1 < s.len() {
            assert(is_white(s[s.len() - 1]));
        }
        assert(s.subrange(r.0, r.1) =~= s);
    }
}

/// Lower case keeps the length and every character but the ASCII capitals, each of which
/// becomes the small letter at its place in the alphabet.
pub proof fn lemma_lower(s: Seq<char>)
    ensures
        lower(s).len() == s.len(),
        forall|i: int|
            #![trigger lower(s)[i]]
            0 <= i < s.len() ==> {
                &&& !('A' <= lower(s)[i] <= 'Z')
                &&& 'A' <= s[i] <= 'Z' ==> lower(s)[i] as int - 'a' as int == s[i] as int
                    - 'A' as int
                &&& !('A' <= s[i] <= 'Z') ==> lower(s)[i] == s[i]
            },
        lower(lower(s)) == lower(s),
{
    assert(lower(lower(s)) =~= lower(s));
}

/// One text joins to itself and none to nothing, and joining two lists one behind the other
/// is joining each and putting the separator between.
pub proof fn lemma_joined(a: Seq<Seq<char>>, b: Seq<Seq<char>>, t: Seq<char>, sep: Seq<char>)
    ensures
        joined(Seq::empty(), sep) == Seq::<char>::empty(),
        joined(seq![t], sep) == t,
        a.len() > 0 && b.len() > 0 ==> joined(a + b, sep) == joined(a, sep) + sep + joined(b, sep),
    decreases b.len(),
{
    if a.len() > 0 && b.len() > 0 {
        let init = b.drop_last();
        assert((a + b).drop_last() =~= a + init);
        assert((a + b).last() == b.last());
        if init.len() == 0 {
            assert(a + init =~= a);
            assert(b.last() == b[0]);
        } else {
            lemma_joined(a, init, t, sep);
            assert(joined(a, sep) + sep + joined(init, sep) + sep + b.last() =~= joined(a, sep)
                + sep + (joined(init, sep) + sep + b.last()));
        }
    }
}

proof fn lemma_bytes_differ(a: Seq<u8>, b: Seq<u8>, i: int)
    requires
        0 <= i < b.len(),
        i <= a.len(),
        forall|k: int| 0 <= k < i ==> a[k] == b[k],
        i < a.len() ==> a[i] < b[i],
    ensures
        bytes_less(a, b),
    decreases i,
{
    if i > 0 {
        let (p, q) = (a.drop_first(), b.drop_first());
        assert forall|k: int| 0 <= k < i - 1 implies p[k] == q[k] by {
            assert(a[k + 1] == b[k + 1]);
        }
        lemma_bytes_differ(p, q, i - 1);
    }
}

/// Texts are ordered by the first byte in which they differ, and a text comes before those
/// that continue it.
pub proof fn lemma_text_first_difference(a: Seq<char>, b: Seq<char>, i: int)
    requires
        0 <= i < encode_utf8(b).len(),
        i <= encode_utf8(a).len(),
        forall|k: int| 0 <= k < i ==> encode_utf8(a)[k] == encode_utf8(b)[k],
        i < encode_utf8(a).len() ==> encode_utf8(a)[i] < encode_utf8(b)[i],
    ensures
        text_less(a, b),
{
    lemma_bytes_differ(encode_utf8(a), encode_utf8(b), i);
}

/// Joined texts hold each of them.
pub proof fn lemma_joined_holds(parts: Seq<Seq<char>>, sep: Seq<char>, k: int) -> (i: int)
    requires
        0 <= k < parts.len(),
    ensures
        0 <= i,
        i + parts[k].len() <= joined(parts, sep).len(),
        joined(parts, sep).subrange(i, i + parts[k].len()) == parts[k],
    decreases parts.len(),
{
    let all = joined(parts, sep);
    let n = parts.len() - 1;
    if n == 0 {
        let i: int = 0;
        assert(all.subrange(i, i + parts[k].len()) =~= parts[k]);
        i
    } else {
        let init = parts.drop_last();
        let front = joined(init, sep);
        if k < n {
            let i = lemma_joined_holds(init, sep, k);
            assert(init[k] == parts[k]);
            assert(all.subrange(i, i + parts[k].len()) =~= front.subrange(i, i + parts[k].len()));
            i
        } else {
            let i = (front + sep).len() as int;
            assert(all.subrange(i, i + parts[k].len()) =~= parts[k]);
            i
        }
    }
}

/// The numbers of the white space characters of Unicode.
pub open spec fn white_points() -> Seq<int> {
    seq![
        0x9, 0xa, 0xb, 0xc, 0xd, 0x20, 0x85, 0xa0, 0x1680, 0x2000, 0x2001, 0x2002, 0x2003, 0x2004,
        0x2005, 0x2006, 0x2007, 0x2008, 0x2009, 0x200a, 0x2028, 0x2029, 0x202f, 0x205f, 0x3000,
    ]
}

/// White space is made of these characters and no others.
pub proof fn lemma_white_points(c: char)
    ensures
        is_white(c) <==> white_points().contains(c as int),
{
    let p = white_points();
    let n = c as int;
    if is_white(c) {
        let i = if n <= 0xd {
            n - 9
        } else if n == 0x20 {
            5
        } else if n == 0x85 {
            6
        } else if n == 0xa0 {
            7
        } else if n == 0x1680 {
            8
        } else if n <= 0x200a {
            n - 0x2000 + 9
        } else if n == 0x2028 {
            20
        } else if n == 0x2029 {
            21
        } else if n == 0x202f {
            22
        } else if n == 0x205f {
            23
        } else {
            24
        };
        assert(p[i] == n);
    }
    if p.contains(n) {
        let i = p.index_of(n);
        assert(p[i] == n);
        assert(0 <= i < 25);
    }
}

} // verus!
