//! Reading numbers back: what the text of a number denotes.

use vstd::prelude::*;

use crate::arith;
use crate::num;
use crate::num::Rat;
use crate::text;

verus! {

/// The natural number that decimal digits denote.
pub open spec fn natural_of(s: Seq<char>) -> int
    decreases s.len(),
{
    if s.len() == 0 {
        0
    } else {
        natural_of(s.drop_last()) * 10 + (s.last() as int - 48)
    }
}

/// Does the text start with a minus sign?
pub open spec fn has_sign(s: Seq<char>) -> bool {
    s.len() > 0 && s[0] == '-'
}

/// The text without its minus sign.
pub open spec fn unsigned_part(s: Seq<char>) -> Seq<char> {
    if has_sign(s) {
        s.skip(1)
    } else {
        s
    }
}

/// The number with the sign that the text has.
pub open spec fn with_sign(s: Seq<char>, n: int) -> int {
    if has_sign(s) {
        -n
    } else {
        n
    }
}

/// The integer that a decimal text denotes.
pub open spec fn integer_of(s: Seq<char>) -> int {
    with_sign(s, natural_of(unsigned_part(s)))
}

/// The number that a text denotes: `a/b`, `a.b` or an integer.
pub open spec fn reading(s: Seq<char>) -> real {
    if s.contains('/') {
        let i = s.index_of('/');
        arith::ratio(integer_of(s.take(i)), integer_of(s.skip(i + 1)))
    } else if s.contains('.') {
        let i = s.index_of('.');
        let (whole, frac) = (s.take(i), s.skip(i + 1));
        arith::ratio(
            with_sign(s, natural_of(unsigned_part(whole) + frac)),
            num::pow10(frac.len()) as int,
        )
    } else {
        arith::ratio(integer_of(s), 1)
    }
}

/// Is the text made of decimal digits?
spec fn all_digits(s: Seq<char>) -> bool {
    forall|i: int| 0 <= i < s.len() ==> 48 <= #[trigger] s[i] as int <= 57
}

proof fn lemma_digit_char(k: nat)
    requires
        k < 10,
    ensures
        text::digit_char(k) as int == 48 + k,
{
}

/// The digits of a number denote it, and do not start with a zero unless it is zero.
pub proof fn lemma_digits(n: nat)
    ensures
        forall|i: int|
            0 <= i < text::digits(n).len() ==> 48 <= #[trigger] text::digits(n)[i] as int <= 57,
        n > 0 ==> text::digits(n)[0] != '0',
        natural_of(text::digits(n)) == n,
        text::digits(n).len() > 0,
    decreases n,
{
    if n < 10 {
        lemma_digit_char(n);
        let s = text::digits(n);
        assert(s.drop_last() =~= Seq::empty());
        assert(natural_of(s.drop_last()) == 0);
    } else {
        lemma_digits(n / 10);
        lemma_digit_char(n % 10);
        assert(text::digits(n).drop_last() =~= text::digits(n / 10));
    }
}

proof fn lemma_padded(n: nat, width: nat)
    ensures
        all_digits(text::padded(n, width)),
        text::padded(n, width).len() == width,
    decreases width,
{
    if width > 0 {
        lemma_padded(n / 10, (width - 1) as nat);
        lemma_digit_char(n % 10);
    }
}

/// Digits followed by `width` digits of a number below `10^width`.
proof fn lemma_appended(a: Seq<char>, n: nat, width: nat)
    requires
        n < num::pow10(width),
    ensures
        natural_of(a + text::padded(n, width)) == natural_of(a) * num::pow10(width) + n,
    decreases width,
{
    let p = text::padded(n, width);
    if width == 0 {
        assert(a + p =~= a);
        let x = natural_of(a);
        assert(x * 1 == x) by (nonlinear_arith);
    } else {
        let w = (width - 1) as nat;
        let q = text::padded(n / 10, w);
        assert((a + p).drop_last() =~= a + q);
        lemma_digit_char(n % 10);
        assert(n / 10 < num::pow10(w));
        lemma_appended(a, n / 10, w);
        let (x, t) = (natural_of(a), num::pow10(w) as int);
        assert((x * t + n / 10) * 10 + n % 10 == x * (10 * t) + n) by (nonlinear_arith)
            requires
                n == 10 * (n / 10) + n % 10,
        ;
    }
}

/// The decimal text of an integer denotes it.
pub proof fn lemma_decimal(n: int)
    ensures
        integer_of(text::decimal(n)) == n,
        !text::decimal(n).contains('/'),
        !text::decimal(n).contains('.'),
        has_sign(text::decimal(n)) == (n < 0),
{
    let s = text::decimal(n);
    if n < 0 {
        lemma_digits((-n) as nat);
        let t = text::digits((-n) as nat);
        assert(s.skip(1) =~= t);
        assert forall|i: int| 0 <= i < s.len() implies s[i] != '/' && s[i] != '.' by {
            if i > 0 {
                assert(s[i] == t[i - 1]);
            }
        }
    } else {
        lemma_digits(n as nat);
        let t = text::digits(n as nat);
        assert(48 <= t[0] as int <= 57);
        assert forall|i: int| 0 <= i < s.len() implies s[i] != '/' && s[i] != '.' by {
            assert(48 <= t[i] as int <= 57);
        }
    }
}

/// What is written is what it is: reading a written fraction gives its value back.
pub proof fn lemma_reading(r: Rat)
    requires
        r.wf(),
    ensures
        reading(num::display(r.n(), r.d())) == r.val(),
{
    r.lemma_wf();
    let (n, d) = (r.n(), r.d());
    let s = num::display(n, d);
    lemma_decimal(n);
    if d == 1 {
    } else {
        match num::places(d) {
            Some(k) if num::fits(n * num::pow10(k)) => {
                lemma_reading_decimal(n, d, k);
            },
            _ => {
                reveal_strlit("/");
                lemma_decimal(d);
                let (a, b) = (text::decimal(n), text::decimal(d));
                let p = a.len() as int;
                assert(s == a + "/"@ + b);
                assert(s[p] == '/');
                assert(s.contains('/'));
                let i = s.index_of('/');
                assert(i == p) by {
                    if i < p {
                        assert(a[i] == '/');
                        assert(a.contains('/'));
                    }
                    if i > p {
                        assert(b[i - p - 1] == '/');
                        assert(b.contains('/'));
                    }
                }
                assert(s.take(i) =~= a);
                assert(s.skip(i + 1) =~= b);
            },
        }
    }
}

proof fn lemma_places(d: int, from: nat)
    requires
        d > 0,
    ensures
        num::places_from(d, from) matches Some(k) ==> (num::pow10(k) as int) % d == 0,
    decreases 10 - from,
{
    if from <= 9 && (num::pow10(from) as int) % d != 0 {
        lemma_places(d, from + 1);
    }
}

/// Powers of ten are positive.
pub proof fn lemma_pow10_positive(k: nat)
    ensures
        num::pow10(k) > 0,
    decreases k,
{
    if k > 0 {
        lemma_pow10_positive((k - 1) as nat);
    }
}

proof fn lemma_reading_decimal(n: int, d: int, k: nat)
    requires
        d > 1,
        num::places(d) == Some(k),
        num::fits(n * num::pow10(k)),
    ensures
        reading(num::display(n, d)) == arith::ratio(n, d),
{
    reveal_strlit("-");
    reveal_strlit("");
    reveal_strlit(".");
    lemma_places(d, 0);
    lemma_pow10_positive(k);
    let s = num::display(n, d);
    let unit = num::pow10(k);
    let m = arith::magnitude(n);
    let v = m * unit / (d as nat);
    let sign = if n < 0 {
        "-"@
    } else {
        ""@
    };
    let whole = text::digits(v / unit);
    let frac = text::padded(v % unit, k);
    assert(s == sign + whole + "."@ + frac);
    lemma_digits(v / unit);
    lemma_padded(v % unit, k);
    let p = (sign + whole).len() as int;
    assert(s[p] == '.');
    assert forall|i: int| 0 <= i < s.len() && i != p implies s[i] != '.' && s[i] != '/' by {
        if i < sign.len() {
            assert(s[i] == '-');
        } else if i < p {
            assert(s[i] == whole[i - sign.len()]);
        } else {
            assert(s[i] == frac[i - p - 1]);
        }
    }
    assert(!s.contains('/'));
    assert(s.contains('.'));
    let i = s.index_of('.');
    assert(i == p);
    assert(s.take(i) =~= sign + whole);
    assert(s.skip(i + 1) =~= frac);
    assert(has_sign(s) == (n < 0)) by {
        if n >= 0 {
            assert(s[0] == whole[0]);
        }
    }
    assert(unsigned_part(sign + whole) =~= whole) by {
        if n >= 0 {
            assert((sign + whole)[0] == whole[0]);
        }
    }
    vstd::arithmetic::div_mod::lemma_fundamental_div_mod(v as int, unit as int);
    vstd::arithmetic::div_mod::lemma_mod_bound(v as int, unit as int);
    lemma_appended(whole, v % unit, k);
    let w = (v / unit) as int;
    assert(w * unit == unit * w) by (nonlinear_arith);
    assert(natural_of(whole + frac) == v);
    // v * d == m * unit, because d divides unit.
    assert(((m * unit) as int) % d == 0) by {
        let u = unit as int;
        vstd::arithmetic::div_mod::lemma_fundamental_div_mod(u, d);
        let q = u / d;
        assert(m * u == (m * q) * d) by (nonlinear_arith)
            requires
                u == d * q,
        ;
        vstd::arithmetic::div_mod::lemma_mod_multiples_basic(m * q, d);
    }
    vstd::arithmetic::div_mod::lemma_fundamental_div_mod((m * unit) as int, d);
    let x = with_sign(s, v as int);
    assert(x * d == n * unit) by (nonlinear_arith)
        requires
            (m * unit) as int == d * v,
            x == if n < 0 { -(v as int) } else { v as int },
            m as int == if n < 0 { -n } else { n },
    ;
    arith::lemma_ratio_equal(x, unit as int, n, d);
}

// ── The shape of a written number ───────────────────────────────────────────────

/// A power of ten divides the larger ones.
proof fn lemma_pow10_divides(d: int, k: nat, j: nat)
    requires
        d > 0,
        k <= j,
        (num::pow10(k) as int) % d == 0,
    ensures
        (num::pow10(j) as int) % d == 0,
    decreases j,
{
    if k < j {
        let i = (j - 1) as nat;
        lemma_pow10_divides(d, k, i);
        let p = num::pow10(i) as int;
        vstd::arithmetic::div_mod::lemma_fundamental_div_mod(p, d);
        let q = p / d;
        assert(10 * p == (10 * q) * d) by (nonlinear_arith)
            requires
                p == d * q,
        ;
        vstd::arithmetic::div_mod::lemma_mod_multiples_basic(10 * q, d);
    }
}

/// The places are the fewest that do, and there are some exactly where nine do.
proof fn lemma_fewest_places(d: int, from: nat)
    requires
        d > 0,
        from <= 10,
    ensures
        num::places_from(d, from) matches Some(k) ==> {
            &&& from <= k <= 9
            &&& (num::pow10(k) as int) % d == 0
            &&& forall|j: nat| from <= j < k ==> (#[trigger] num::pow10(j) as int) % d != 0
        },
        num::places_from(d, from) is None ==> forall|j: nat|
            from <= j <= 9 ==> (#[trigger] num::pow10(j) as int) % d != 0,
    decreases 10 - from,
{
    if from <= 9 && (num::pow10(from) as int) % d != 0 {
        lemma_fewest_places(d, from + 1);
    }
}

/// Can a fraction in lowest terms be written as a decimal? Nine places suffice, and
/// scaling it to the places that it takes does not overflow.
pub open spec fn short_decimal(n: int, d: int) -> bool {
    (num::pow10(9) as int) % d == 0 && num::fits(n * num::pow10(num::places(d)->0))
}

/// Is the character one that numbers are written with?
pub open spec fn number_char(c: char) -> bool {
    48 <= c as int <= 57 || c == '-' || c == '.' || c == '/'
}

proof fn lemma_decimal_chars(n: int)
    ensures
        text::decimal(n).len() > 0,
        forall|i: int|
            0 <= i < text::decimal(n).len() ==> number_char(#[trigger] text::decimal(n)[i]),
{
    let s = text::decimal(n);
    if n < 0 {
        let t = text::digits((-n) as nat);
        lemma_digits((-n) as nat);
        assert forall|i: int| 0 <= i < s.len() implies number_char(#[trigger] s[i]) by {
            if i > 0 {
                assert(s[i] == t[i - 1]);
            }
        }
    } else {
        lemma_digits(n as nat);
    }
}

/// The last decimal place of a fraction in lowest terms is not zero.
proof fn lemma_last_place(n: int, d: int, k: nat)
    requires
        d > 1,
        arith::gcd(arith::magnitude(n), d as nat) == 1,
        num::places(d) == Some(k),
    ensures
        k > 0,
        (arith::magnitude(n) * num::pow10(k) / (d as nat)) % 10 != 0,
{
    lemma_fewest_places(d, 0);
    vstd::arithmetic::div_mod::lemma_small_mod(1, d as nat);
    let m = arith::magnitude(n);
    let unit = num::pow10(k);
    assert(k > 0) by {
        assert(num::pow10(0) == 1);
    }
    let tenth = num::pow10((k - 1) as nat);
    let v = m * unit / (d as nat);
    assert((m * unit) as int == v * d) by {
        let u = unit as int;
        vstd::arithmetic::div_mod::lemma_fundamental_div_mod(u, d);
        let q = u / d;
        assert(m * u == (m * q) * d) by (nonlinear_arith)
            requires
                u == d * q,
        ;
        vstd::arithmetic::div_mod::lemma_mod_multiples_basic(m * q, d);
        vstd::arithmetic::div_mod::lemma_fundamental_div_mod((m * unit) as int, d);
        assert(v * d == d * v) by (nonlinear_arith);
    }
    if v % 10 == 0 {
        let w = (v / 10) as int;
        assert(m * tenth == w * d) by (nonlinear_arith)
            requires
                (m * unit) as int == v * d,
                unit == 10 * tenth,
                v == 10 * w,
        ;
        vstd::arithmetic::div_mod::lemma_mod_multiples_basic(w, d);
        arith::lemma_euclid(m, d as nat, tenth as int);
        assert((num::pow10((k - 1) as nat) as int) % d != 0);
    }
}

/// The shape of a written number: a fraction bar stands in it exactly where nine places
/// do not suffice or scaling overflows, a decimal does not end in a zero, and it is made
/// of digits, a sign, a point and a bar.
pub proof fn lemma_display_shape(r: Rat)
    requires
        r.wf(),
    ensures
        ({
            let s = num::display(r.n(), r.d());
            &&& s.len() > 0
            &&& s.contains('/') <==> !short_decimal(r.n(), r.d())
            &&& s.contains('.') ==> s.last() != '0'
            &&& forall|i: int| 0 <= i < s.len() ==> number_char(#[trigger] s[i])
        }),
{
    r.lemma_wf();
    let (n, d) = (r.n(), r.d());
    let s = num::display(n, d);
    lemma_fewest_places(d, 0);
    lemma_decimal(n);
    lemma_decimal_chars(n);
    assert(num::places(d) is Some <==> (num::pow10(9) as int) % d == 0) by {
        if let Some(k) = num::places(d) {
            lemma_pow10_divides(d, k, 9);
        }
    }
    if d == 1 {
        assert(num::pow10(0) == 1);
        assert((num::pow10(0) as int) % d == 0);
        assert(num::places(d) == Some(0nat));
        assert(n * 1 == n) by (nonlinear_arith);
    } else {
        match num::places(d) {
            Some(k) if num::fits(n * num::pow10(k)) => {
                lemma_shape_decimal(n, d, k);
            },
            _ => {
                reveal_strlit("/");
                let (a, b) = (text::decimal(n), text::decimal(d));
                lemma_decimal(d);
                lemma_decimal_chars(d);
                assert(s[a.len() as int] == '/');
                assert forall|i: int| 0 <= i < s.len() implies number_char(#[trigger] s[i])
                    && s[i] != '.' by {
                    if i < a.len() {
                        assert(s[i] == a[i]);
                        assert(a.contains(a[i]));
                    } else if i > a.len() {
                        assert(s[i] == b[i - a.len() - 1]);
                        assert(b.contains(b[i - a.len() - 1]));
                    }
                }
            },
        }
    }
}

proof fn lemma_shape_decimal(n: int, d: int, k: nat)
    requires
        d > 1,
        arith::gcd(arith::magnitude(n), d as nat) == 1,
        num::places(d) == Some(k),
        num::fits(n * num::pow10(k)),
    ensures
        ({
            let s = num::display(n, d);
            &&& s.len() > 0
            &&& !s.contains('/')
            &&& s.last() != '0'
            &&& forall|i: int| 0 <= i < s.len() ==> number_char(#[trigger] s[i])
        }),
{
    reveal_strlit("-");
    reveal_strlit("");
    reveal_strlit(".");
    lemma_pow10_positive(k);
    lemma_last_place(n, d, k);
    let s = num::display(n, d);
    let unit = num::pow10(k);
    let v = arith::magnitude(n) * unit / (d as nat);
    let sign = if n < 0 {
        "-"@
    } else {
        ""@
    };
    let whole = text::digits(v / unit);
    let frac = text::padded(v % unit, k);
    assert(s == sign + whole + "."@ + frac);
    lemma_digits(v / unit);
    lemma_padded(v % unit, k);
    let p = (sign + whole).len() as int;
    assert forall|i: int| 0 <= i < s.len() implies number_char(#[trigger] s[i]) && s[i] != '/' by {
        if i < sign.len() {
            assert(s[i] == '-');
        } else if i < p {
            assert(s[i] == whole[i - sign.len()]);
        } else if i > p {
            assert(s[i] == frac[i - p - 1]);
        }
    }
    // The last digit of the fraction is that of `v`.
    let tenth = num::pow10((k - 1) as nat);
    lemma_pow10_positive((k - 1) as nat);
    assert((v % unit) % 10 == v % 10) by {
        vstd::arithmetic::div_mod::lemma_mod_mod(v as int, 10, tenth as int);
    }
    lemma_digit_char(v % 10);
    assert(s.last() == frac.last());
    assert(frac.last() == text::digit_char((v % unit) % 10));
}

/// Numbers that are written the same are the same.
pub proof fn lemma_display_identifies(a: Rat, b: Rat)
    requires
        a.wf(),
        b.wf(),
    ensures
        num::display(a.n(), a.d()) == num::display(b.n(), b.d()) <==> a == b,
{
    lemma_reading(a);
    lemma_reading(b);
    if num::display(a.n(), a.d()) == num::display(b.n(), b.d()) {
        a.lemma_canonical(b);
    }
}

} // verus!
