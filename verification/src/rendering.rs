//! What a rendered form says: its text spells its terms and its constant.

use vstd::prelude::*;

use crate::decision::ValueV;
use crate::linear;
use crate::linear::LinV;
use crate::logic;
use crate::num;
use crate::num::Rat;
use crate::reading;
use crate::solver;
use crate::text;

verus! {

/// Does the text spell that many times the variable? Once is the name alone, and once taken
/// away is a minus sign before it; else the number stands before it, with a star between.
pub open spec fn spells_term(t: Seq<char>, name: Seq<char>, c: real) -> bool {
    ||| t == name && c == 1 as real
    ||| t == seq!['-'] + name && c == -(1 as real)
    ||| exists|d: Seq<char>| #[trigger]
        reading::reading(d) == c && t == d + seq!['*'] + name
}

/// A term is rendered as a text that spells it.
pub proof fn lemma_term_rendered(name: Seq<char>, c: Rat)
    requires
        c.wf(),
    ensures
        spells_term(logic::rendered_term(name, c), name, c.val()),
{
    reveal_strlit("-");
    reveal_strlit("*");
    assert("-"@ =~= seq!['-']);
    assert("*"@ =~= seq!['*']);
    reading::lemma_reading(c);
    c.lemma_wf();
    if c.n() == 1 && c.d() == 1 {
        Rat::lemma_whole(1);
        c.lemma_ext(Rat::of(1, 1));
    } else if c.n() == -1 && c.d() == 1 {
        Rat::lemma_whole(-1);
        c.lemma_ext(Rat::of(-1, 1));
    } else {
        let d = num::display(c.n(), c.d());
        assert(reading::reading(d) == c.val());
    }
}

/// A form is rendered term by term, in order, and its constant comes last; a constant of
/// zero is left out unless there is nothing else.
pub proof fn lemma_parts_rendered(l: LinV, i: int)
    requires
        linear::lin_wf(l),
    ensures
        ({
            let parts = logic::rendered_parts(l);
            let n = l.terms.len() as int;
            &&& 0 <= i < n ==> spells_term(parts[i], l.terms[i].0, l.terms[i].1.val())
            &&& l.constant.val() != 0 as real || n == 0 ==> parts.len() == n + 1
                && reading::reading(parts[n]) == l.constant.val()
            &&& l.constant.val() == 0 as real && n > 0 ==> parts.len() == n
        }),
{
    let n = l.terms.len() as int;
    l.constant.lemma_wf();
    reading::lemma_reading(l.constant);
    if 0 <= i < n {
        lemma_term_rendered(l.terms[i].0, l.terms[i].1);
    }
}

/// Does the text hold no plus sign?
pub open spec fn without_plus(s: Seq<char>) -> bool {
    !s.contains('+')
}

/// Tidying writes a plus sign before a minus sign, with a blank between, as the minus sign,
/// and leaves everything else as it is.
pub proof fn lemma_tidied(a: Seq<char>, b: Seq<char>)
    requires
        without_plus(a),
    ensures
        logic::tidied(a) == a,
        logic::tidied(a + seq!['+', ' ', '-'] + b) == a + seq!['-', ' '] + logic::tidied(b),
        !(b.len() >= 2 && b[0] == ' ' && b[1] == '-') ==> logic::tidied(a + seq!['+'] + b) == a
            + seq!['+'] + logic::tidied(b),
    decreases a.len(),
{
    let s = a + seq!['+', ' ', '-'] + b;
    let t = a + seq!['+'] + b;
    if a.len() == 0 {
        assert(logic::tidied(a) =~= a);
        assert(s.skip(3) =~= b);
        assert(s[0] == '+' && s[1] == ' ' && s[2] == '-');
        assert(logic::tidied(s) =~= a + seq!['-', ' '] + logic::tidied(b));
        assert(t.skip(1) =~= b);
        assert(t[0] == '+');
        if t.len() >= 3 {
            assert(t[1] == b[0] && t[2] == b[1]);
        }
        if !(b.len() >= 2 && b[0] == ' ' && b[1] == '-') {
            assert(logic::tidied(t) =~= a + seq!['+'] + logic::tidied(b));
        }
    } else {
        let rest = a.skip(1);
        assert(a[0] != '+') by {
            assert(a.contains(a[0]));
        }
        assert(without_plus(rest)) by {
            if rest.contains('+') {
                let k = rest.index_of('+');
                assert(a[k + 1] == '+');
            }
        }
        lemma_tidied(rest, b);
        assert(seq![a[0]] + rest =~= a);
        assert(s.skip(1) =~= rest + seq!['+', ' ', '-'] + b);
        assert(t.skip(1) =~= rest + seq!['+'] + b);
        assert(s[0] == a[0] && t[0] == a[0]);
        assert(seq![a[0]] + (rest + seq!['-', ' '] + logic::tidied(b)) =~= a + seq!['-', ' ']
            + logic::tidied(b));
        assert(seq![a[0]] + (rest + seq!['+'] + logic::tidied(b)) =~= a + seq!['+']
            + logic::tidied(b));
    }
}

/// A form is rendered as its parts with plus signs between, tidied.
pub proof fn lemma_form_rendered(l: LinV)
    ensures
        logic::rendered_parts(l).len() == 1 && without_plus(logic::rendered_parts(l)[0])
            ==> logic::rendered_form(l) == logic::rendered_parts(l)[0],
        logic::rendered_form(l) == logic::tidied(text::joined(logic::rendered_parts(l), " + "@)),
{
    if logic::rendered_parts(l).len() == 1 && without_plus(logic::rendered_parts(l)[0]) {
        lemma_tidied(logic::rendered_parts(l)[0], Seq::empty());
    }
}

/// A truth value is shown by its word, and a text and a number as they are.
pub proof fn lemma_value_shown(b: bool, s: Seq<char>)
    ensures
        solver::rendered(ValueV::Bool(b)) == if b {
            "true"@
        } else {
            "false"@
        },
        solver::rendered(ValueV::Text(s)) == s,
        solver::rendered(ValueV::Number(s)) == s,
        solver::rendered(ValueV::Bool(b)) != solver::rendered(ValueV::Bool(!b)),
{
    reveal_strlit("true");
    reveal_strlit("false");
    assert("true"@.len() != "false"@.len());
}

} // verus!
