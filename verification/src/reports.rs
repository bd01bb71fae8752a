//! What a report says: headlines, readings, tallies and the values that findings mention.

use vstd::prelude::*;

use crate::api;
use crate::api::{Assigned, CheckReport, Reading, TestResult};
use crate::decision;
use crate::decision::Limits;
use crate::findings;
use crate::grammar;
use crate::json;
use crate::json::JsonV;
use crate::lexer;
use crate::lexer::ErrV;
use crate::logic::ExprV;
use crate::policy;
use crate::policy::RuleV;
use crate::semantics::Sorts;
use crate::solver;
use crate::store;
use crate::text;
use crate::theory::Limit;
use crate::translate::{ExtractedV, ExtractionV};
use crate::verdict;
use crate::verdict::{ConstraintV, Entries, FindingV, SuggestionV, Verdict};

verus! {

// ── Headlines ───────────────────────────────────────────────────────────────────

/// How much a verdict weighs in a headline.
pub open spec fn weight(v: Verdict) -> int {
    match v {
        Verdict::NoTranslations => 0,
        Verdict::Valid => 1,
        Verdict::Satisfiable => 2,
        Verdict::TranslationAmbiguous => 3,
        Verdict::TooComplex => 4,
        Verdict::Impossible => 5,
        Verdict::Invalid => 6,
    }
}

/// The headline is the weightiest of the verdicts: no verdict outweighs it, and it is one of
/// them unless there is none.
pub proof fn lemma_headline_weightiest(v: Seq<Verdict>)
    ensures
        forall|i: int|
            0 <= i < v.len() ==> weight(#[trigger] v[i]) <= weight(api::aggregated(v)),
        v.len() > 0 ==> v.contains(api::aggregated(v)),
        v.len() == 0 ==> api::aggregated(v) == Verdict::NoTranslations,
{
    assert forall|i: int| 0 <= i < v.len() implies weight(#[trigger] v[i]) <= weight(
        api::aggregated(v),
    ) by {
        assert(v.contains(v[i]));
    }
    if v.len() > 0 {
        assert(v.contains(v[0]));
    }
}

/// The headline over two reports together is the weightier of theirs.
pub proof fn lemma_headline_together(a: Seq<Verdict>, b: Seq<Verdict>)
    ensures
        api::aggregated(a + b) == if weight(api::aggregated(a)) >= weight(api::aggregated(b)) {
            api::aggregated(a)
        } else {
            api::aggregated(b)
        },
{
    lemma_headline_weightiest(a);
    lemma_headline_weightiest(b);
    lemma_headline_weightiest(a + b);
    let c = a + b;
    let (x, y, z) = (api::aggregated(a), api::aggregated(b), api::aggregated(c));
    if a.len() > 0 {
        let i = a.index_of(x);
        assert(c[i] == x);
    }
    if b.len() > 0 {
        let i = b.index_of(y);
        assert(c[a.len() + i] == y);
    }
    if c.len() > 0 {
        let i = c.index_of(z);
        if i < a.len() {
            assert(a[i] == z);
        } else {
            assert(b[i - a.len()] == z);
        }
    }
}

// ── Readings ────────────────────────────────────────────────────────────────────

/// A sentence is ambiguous exactly where one of its other readings is given another verdict
/// than the first; else the finding is that on the first reading.
pub proof fn lemma_ambiguity(
    env: Sorts,
    lim: Limits,
    cs: Seq<ConstraintV>,
    statement: Seq<char>,
    reading: Reading,
    readings: Seq<Reading>,
    f: FindingV,
    first: FindingV,
    each: Seq<FindingV>,
)
    requires
        api::sentence_found(true, env, lim, cs, statement, reading, readings, f),
        api::reading_found(true, env, lim, cs, statement, reading, first),
        api::readings_found(true, env, lim, cs, statement, readings, each),
        each.len() == readings.len(),
    ensures
        (exists|k: int| 0 <= k < each.len() && (#[trigger] each[k]).verdict != first.verdict)
            ==> f.verdict == Verdict::TranslationAmbiguous && f.responsible == first.responsible
            && f.counterexample is None && f.supporting_example is None,
        (forall|k: int| 0 <= k < each.len() ==> (#[trigger] each[k]).verdict == first.verdict)
            ==> f == first,
{
    let (primary, others) = choose|primary: FindingV, others: Seq<FindingV>| #[trigger]
        api::resolved(primary, readings, others, f) && api::reading_found(
            true,
            env,
            lim,
            cs,
            statement,
            reading,
            primary,
        ) && api::readings_found(true, env, lim, cs, statement, readings, others);
    verdict::lemma_one_finding(env, lim, cs, reading.1, primary, first);
    assert forall|k: int| 0 <= k < others.len() implies #[trigger] others[k] == each[k] by {
        assert(api::reading_found(true, env, lim, cs, statement, readings[k], others[k]));
        assert(api::reading_found(true, env, lim, cs, statement, readings[k], each[k]));
        verdict::lemma_one_finding(env, lim, cs, readings[k].1, others[k], each[k]);
    }
    if others.len() > 0 {
        assert(others[others.len() - 1] == each[others.len() - 1]);
    }
    if exists|k: int| 0 <= k < each.len() && (#[trigger] each[k]).verdict != first.verdict {
        let k = choose|k: int| 0 <= k < each.len() && (#[trigger] each[k]).verdict != first.verdict;
        if others.len() == readings.len() {
            assert(others[k] == each[k]);
        }
    }
}

// ── Ids ─────────────────────────────────────────────────────────────────────────

/// Are the characters letters and digits?
pub open spec fn one_word(s: Seq<char>) -> bool {
    forall|i: int| 0 <= i < s.len() ==> store::alphanumeric(#[trigger] s[i])
}

/// Are the characters none of these?
pub open spec fn gap(s: Seq<char>) -> bool {
    forall|i: int| 0 <= i < s.len() ==> !store::alphanumeric(#[trigger] s[i])
}

proof fn lemma_dashed_short(s: Seq<char>)
    ensures
        api::dashed(s).len() <= s.len(),
        s.len() > 0 && store::alphanumeric(s[0]) ==> api::dashed(s).len() > 0,
    decreases s.len(),
{
    if s.len() > 0 {
        lemma_dashed_short(s.drop_last());
    }
}

proof fn lemma_dashed_word(s: Seq<char>)
    requires
        one_word(s),
    ensures
        api::dashed(s) == text::lower(s),
    decreases s.len(),
{
    if s.len() > 0 {
        let init = s.drop_last();
        assert forall|i: int| 0 <= i < init.len() implies store::alphanumeric(
            #[trigger] init[i],
        ) by {
            assert(init[i] == s[i]);
        }
        lemma_dashed_word(init);
        assert(store::alphanumeric(s[s.len() - 1]));
        assert(text::lower(init).push(text::lower_char(s.last())) =~= text::lower(s));
    } else {
        assert(api::dashed(s) =~= text::lower(s));
    }
}

proof fn lemma_dashed_gap(s: Seq<char>, g: Seq<char>)
    requires
        gap(g),
        s.len() + g.len() <= 48,
        g.len() > 0,
        api::dashed(s).len() > 0,
        api::dashed(s).last() != '-',
    ensures
        api::dashed(s + g) == api::dashed(s).push('-'),
    decreases g.len(),
{
    let init = g.drop_last();
    assert((s + g).drop_last() =~= s + init);
    assert((s + g).last() == g[g.len() - 1]);
    assert(!store::alphanumeric(g[g.len() - 1]));
    lemma_dashed_short(s);
    if init.len() == 0 {
        assert(s + init =~= s);
    } else {
        assert forall|i: int| 0 <= i < init.len() implies !store::alphanumeric(
            #[trigger] init[i],
        ) by {
            assert(init[i] == g[i]);
        }
        lemma_dashed_gap(s, init);
    }
}

proof fn lemma_dashed_next(s: Seq<char>, t: Seq<char>)
    requires
        s.len() + t.len() <= 48,
        t.len() > 0,
        store::alphanumeric(t[0]),
        api::dashed(s).len() > 0,
    ensures
        api::dashed(s + t) == api::dashed(s) + api::dashed(t),
    decreases t.len(),
{
    let init = t.drop_last();
    assert((s + t).drop_last() =~= s + init);
    assert((s + t).last() == t.last());
    lemma_dashed_short(s);
    lemma_dashed_short(init);
    if init.len() == 0 {
        assert(s + init =~= s);
        assert(t.last() == t[0]);
        assert(api::dashed(init) =~= Seq::<char>::empty());
        assert(api::dashed(t) =~= seq![text::lower_char(t[0])]);
        assert(api::dashed(s + t) =~= api::dashed(s) + api::dashed(t));
    } else {
        assert(init[0] == t[0]);
        lemma_dashed_next(s, init);
        let (p, q) = (api::dashed(s), api::dashed(init));
        assert((p + q).last() == q.last());
        assert(api::dashed(s + t) =~= api::dashed(s) + api::dashed(t));
    }
}

/// The id of a name is made of its words in lower case: one word gives itself, and what
/// stands between two parts of a name of usual length, if it is neither a letter nor a
/// digit, gives one dash.
pub proof fn lemma_slug_words(word: Seq<char>, a: Seq<char>, g: Seq<char>, b: Seq<char>)
    requires
        one_word(word),
        a.len() > 0 && store::alphanumeric(a.last()),
        g.len() > 0 && gap(g),
        b.len() > 0 && store::alphanumeric(b[0]),
        a.len() + g.len() + b.len() <= 48,
    ensures
        api::slug_of(word) == text::lower(word),
        api::slug_of(a + g + b) == api::slug_of(a) + seq!['-'] + api::slug_of(b),
{
    lemma_dashed_word(word);
    let l = text::lower(word);
    if l.len() > 0 {
        assert(store::alphanumeric(word[word.len() - 1]));
        assert(l.last() == text::lower_char(word.last()));
    }
    let d = api::dashed(a);
    assert(d.last() == text::lower_char(a.last()));
    lemma_dashed_gap(a, g);
    lemma_dashed_next(a + g, b);
    let e = api::dashed(b);
    lemma_dashed_short(b);
    let whole = api::dashed(a + g + b);
    assert(whole =~= d.push('-') + e);
    assert(whole.last() == e.last());
    assert(d.push('-') + api::slug_of(b) =~= api::slug_of(a) + seq!['-'] + api::slug_of(b));
    if e.last() == '-' {
        assert(whole.drop_last() =~= d.push('-') + e.drop_last());
    }
}

/// White space and signs at the ends of a name do not count.
pub proof fn lemma_slug_ends(g: Seq<char>, a: Seq<char>, h: Seq<char>)
    requires
        gap(g),
        gap(h),
        a.len() > 0 && store::alphanumeric(a[0]) && store::alphanumeric(a.last()),
        g.len() + a.len() + h.len() <= 48,
    ensures
        api::slug_of(g + a + h) == api::slug_of(a),
        api::slug_of(g).len() == 0,
{
    lemma_dashed_nothing(g);
    lemma_dashed_behind(g, a);
    let d = api::dashed(g + a);
    assert((g + a).last() == a.last());
    assert(d.last() == text::lower_char(a.last()));
    if h.len() > 0 {
        lemma_dashed_short(a);
        lemma_dashed_gap(g + a, h);
        assert(d.push('-').drop_last() =~= d);
    } else {
        assert(g + a + h =~= g + a);
    }
}

proof fn lemma_dashed_nothing(g: Seq<char>)
    requires
        gap(g),
    ensures
        api::dashed(g).len() == 0,
    decreases g.len(),
{
    if g.len() > 0 {
        let init = g.drop_last();
        assert forall|i: int| 0 <= i < init.len() implies !store::alphanumeric(
            #[trigger] init[i],
        ) by {
            assert(init[i] == g[i]);
        }
        lemma_dashed_nothing(init);
        assert(!store::alphanumeric(g[g.len() - 1]));
    }
}

proof fn lemma_dashed_behind(g: Seq<char>, a: Seq<char>)
    requires
        gap(g),
        a.len() > 0,
        store::alphanumeric(a[0]),
    ensures
        api::dashed(g + a) == api::dashed(a),
    decreases a.len(),
{
    let init = a.drop_last();
    assert((g + a).drop_last() =~= g + init);
    assert((g + a).last() == a.last());
    if init.len() == 0 {
        assert(g + init =~= g);
        lemma_dashed_nothing(g);
        assert(a.last() == a[0]);
        assert(api::dashed(g) =~= api::dashed(init));
    } else {
        assert(init[0] == a[0]);
        lemma_dashed_behind(g, init);
    }
}

// ── Tallies ─────────────────────────────────────────────────────────────────────

/// Results are counted one by one: of two runs together as many passed as of each.
pub proof fn lemma_passes(a: Seq<TestResult>, b: Seq<TestResult>, one: TestResult)
    ensures
        api::passes(a + b) == api::passes(a) + api::passes(b),
        api::passes(seq![one]) == if one.passed {
            1nat
        } else {
            0nat
        },
        api::passes(a) <= a.len(),
    decreases b.len(), a.len(),
{
    assert(seq![one].drop_last() =~= Seq::empty());
    reveal_with_fuel(api::passes, 2);
    if b.len() == 0 {
        assert(a + b =~= a);
        if a.len() > 0 {
            lemma_passes(a.drop_last(), b, one);
        }
    } else {
        lemma_passes(a, b.drop_last(), one);
        assert((a + b).drop_last() =~= a + b.drop_last());
    }
}

// ── Values that findings mention ────────────────────────────────────────────────

/// Does no entry have the name?
pub open spec fn unmentioned(entries: Entries, x: Seq<char>) -> bool {
    forall|i: int| 0 <= i < entries.len() ==> (#[trigger] entries[i]).0 != x
}

proof fn lemma_with_entries(m: Assigned, entries: Entries, x: Seq<char>, i: int)
    ensures
        unmentioned(entries, x) ==> (api::with_entries(m, entries).dom().contains(x)
            <==> m.dom().contains(x)) && (m.dom().contains(x) ==> api::with_entries(m, entries)[x]
            == m[x]),
        0 <= i < entries.len() && entries[i].0 == x && (forall|k: int|
            i < k < entries.len() ==> (#[trigger] entries[k]).0 != x) ==> api::with_entries(
            m,
            entries,
        ).dom().contains(x) && api::with_entries(m, entries)[x] == solver::rendered(entries[i].1),
    decreases entries.len(),
{
    if entries.len() > 0 {
        let init = entries.drop_last();
        let n = init.len() as int;
        lemma_with_entries(m, init, x, i);
        if unmentioned(entries, x) {
            assert forall|k: int| 0 <= k < init.len() implies (#[trigger] init[k]).0 != x by {
                assert(init[k] == entries[k]);
            }
            assert(entries[n].0 != x);
        }
        if 0 <= i < entries.len() && entries[i].0 == x && (forall|k: int|
            i < k < entries.len() ==> (#[trigger] entries[k]).0 != x) {
            if i < n {
                assert(entries[n].0 != x);
                assert forall|k: int| i < k < init.len() implies (#[trigger] init[k]).0 != x by {
                    assert(init[k] == entries[k]);
                }
            }
        }
    }
}

/// Does no suggestion mention the name?
pub open spec fn unsuggested(suggestions: Seq<SuggestionV>, x: Seq<char>) -> bool {
    forall|i: int|
        0 <= i < suggestions.len() ==> unmentioned((#[trigger] suggestions[i]).assignments, x)
}

/// Is that the last mention of the name among suggestions?
pub open spec fn last_suggested(suggestions: Seq<SuggestionV>, x: Seq<char>, j: int, i: int) -> bool {
    &&& 0 <= j < suggestions.len()
    &&& 0 <= i < suggestions[j].assignments.len()
    &&& suggestions[j].assignments[i].0 == x
    &&& forall|k: int|
        i < k < suggestions[j].assignments.len() ==> (#[trigger] suggestions[j].assignments[k]).0
            != x
    &&& forall|k: int|
        j < k < suggestions.len() ==> unmentioned((#[trigger] suggestions[k]).assignments, x)
}

proof fn lemma_with_suggestions(
    m: Assigned,
    suggestions: Seq<SuggestionV>,
    x: Seq<char>,
    j: int,
    i: int,
)
    ensures
        unsuggested(suggestions, x) ==> (api::with_suggestions(m, suggestions).dom().contains(x)
            <==> m.dom().contains(x)) && (m.dom().contains(x) ==> api::with_suggestions(
            m,
            suggestions,
        )[x] == m[x]),
        last_suggested(suggestions, x, j, i) ==> api::with_suggestions(
            m,
            suggestions,
        ).dom().contains(x) && api::with_suggestions(m, suggestions)[x] == solver::rendered(
            suggestions[j].assignments[i].1,
        ),
    decreases suggestions.len(),
{
    if suggestions.len() > 0 {
        let init = suggestions.drop_last();
        let n = init.len() as int;
        let front = api::with_suggestions(m, init);
        lemma_with_suggestions(m, init, x, j, i);
        lemma_with_entries(front, suggestions[n].assignments, x, i);
        if unsuggested(suggestions, x) {
            assert forall|k: int| 0 <= k < init.len() implies unmentioned(
                (#[trigger] init[k]).assignments,
                x,
            ) by {
                assert(init[k] == suggestions[k]);
            }
            assert(unmentioned(suggestions[n].assignments, x));
        }
        if last_suggested(suggestions, x, j, i) {
            if j < n {
                assert(unmentioned(suggestions[n].assignments, x));
                assert(init[j] == suggestions[j]);
                assert forall|k: int| j < k < init.len() implies unmentioned(
                    (#[trigger] init[k]).assignments,
                    x,
                ) by {
                    assert(init[k] == suggestions[k]);
                }
                assert(last_suggested(init, x, j, i));
            }
        }
    }
}

/// The values that findings mention are those of their suggestions: a name has a value
/// exactly where a suggestion mentions it, and where several do, the value in the last.
pub proof fn lemma_assigned(findings: Seq<FindingV>, x: Seq<char>, n: int, j: int, i: int)
    ensures
        (forall|k: int|
            0 <= k < findings.len() ==> unsuggested((#[trigger] findings[k]).suggestions, x))
            ==> !api::assigned(findings).dom().contains(x),
        0 <= n < findings.len() && last_suggested(findings[n].suggestions, x, j, i) && (forall|
            k: int,
        |
            n < k < findings.len() ==> unsuggested((#[trigger] findings[k]).suggestions, x))
            ==> api::assigned(findings).dom().contains(x) && api::assigned(findings)[x]
            == solver::rendered(findings[n].suggestions[j].assignments[i].1),
    decreases findings.len(),
{
    if findings.len() > 0 {
        let init = findings.drop_last();
        let e = init.len() as int;
        lemma_assigned(init, x, n, j, i);
        lemma_with_suggestions(api::assigned(init), findings[e].suggestions, x, j, i);
        if forall|k: int|
            0 <= k < findings.len() ==> unsuggested((#[trigger] findings[k]).suggestions, x) {
            assert forall|k: int| 0 <= k < init.len() implies unsuggested(
                (#[trigger] init[k]).suggestions,
                x,
            ) by {
                assert(init[k] == findings[k]);
            }
            assert(unsuggested(findings[e].suggestions, x));
        }
        if 0 <= n < findings.len() && last_suggested(findings[n].suggestions, x, j, i) && (forall|
            k: int,
        |
            n < k < findings.len() ==> unsuggested((#[trigger] findings[k]).suggestions, x)) {
            if n < e {
                assert(unsuggested(findings[e].suggestions, x));
                assert(init[n] == findings[n]);
                assert forall|k: int| n < k < init.len() implies unsuggested(
                    (#[trigger] init[k]).suggestions,
                    x,
                ) by {
                    assert(init[k] == findings[k]);
                }
            }
        }
    }
}

// ── A whole answer ──────────────────────────────────────────────────────────────

/// An answer is checked against all of the policy and all of the facts: the constraints are
/// the compiled rules and behind them the facts that can be expressed, and no others.
pub proof fn lemma_background(
    rules: Seq<RuleV>,
    premises: Seq<ExtractedV>,
    env: Sorts,
    c: ConstraintV,
)
    ensures
        api::background(rules, premises, env).contains(c) <==> policy::compiled(
            rules,
            env,
        ).contains(c) || api::fact_constraints(premises, env).contains(c),
        api::background(rules, premises, env).len() == policy::compiled(rules, env).len()
            + api::fact_constraints(premises, env).len(),
{
    let (a, b) = (policy::compiled(rules, env), api::fact_constraints(premises, env));
    if a.contains(c) {
        assert((a + b)[a.index_of(c)] == c);
    }
    if b.contains(c) {
        assert((a + b)[a.len() + b.index_of(c)] == c);
    }
}

/// Every enabled rule that can be expressed bears on an answer: a claim that follows from it
/// alone follows from what the answer is checked against. The same goes for every fact.
pub proof fn lemma_nothing_left_out(
    rules: Seq<RuleV>,
    premises: Seq<ExtractedV>,
    env: Sorts,
    i: int,
    e: ExprV,
)
    ensures
        0 <= i < rules.len() && rules[i].enabled && grammar::parsed(rules[i].expression, env)
            == Ok::<ExprV, ErrV>(e) ==> verdict::formulas(
            api::background(rules, premises, env),
        ).contains(e),
        0 <= i < premises.len() && grammar::parsed(premises[i].expression, env) == Ok::<
            ExprV,
            ErrV,
        >(e) ==> verdict::formulas(api::background(rules, premises, env)).contains(e),
{
    let all = api::background(rules, premises, env);
    if 0 <= i < rules.len() && rules[i].enabled && grammar::parsed(rules[i].expression, env)
        == Ok::<ExprV, ErrV>(e) {
        let at = policy::lemma_compiled_rules(rules, env);
        assert(at.contains(i));
        let k = at.index_of(i);
        assert(at[k] == i);
        assert(all[k] == policy::compiled(rules, env)[k]);
        assert(verdict::formulas(all)[k] == e);
    }
    if 0 <= i < premises.len() && grammar::parsed(premises[i].expression, env) == Ok::<
        ExprV,
        ErrV,
    >(e) {
        let at = api::lemma_fact_constraints(premises, env);
        assert(at.contains(i));
        let k = at.index_of(i);
        assert(at[k] == i);
        let n = policy::compiled(rules, env).len() + k;
        assert(all[n] == api::fact_constraints(premises, env)[k]);
        assert(verdict::formulas(all)[n] == e);
    }
}

/// There is a finding for each claim, in their order: it repeats the formula and the
/// statement of its claim, and says that there is no translation exactly where the formula
/// cannot be expressed.
pub proof fn lemma_findings_in_order(
    exact: bool,
    env: Sorts,
    lim: Limits,
    rules: Seq<RuleV>,
    extraction: ExtractionV,
    r: CheckReport,
    i: int,
)
    requires
        api::evaluated(exact, env, lim, rules, extraction, r),
    ensures
        r.findings@.len() == extraction.claims.len(),
        0 <= i < extraction.claims.len() ==> {
            let f = api::finding_views(r.findings@)[i];
            &&& f.claim == extraction.claims[i].expression
            &&& f.claim_statement == extraction.claims[i].statement
            &&& f.verdict == Verdict::NoTranslations <==> grammar::parsed(
                extraction.claims[i].expression,
                env,
            ) is Err
        },
{
    if 0 <= i < extraction.claims.len() {
        let f = api::finding_views(r.findings@)[i];
        let claim = extraction.claims[i];
        let cs = api::background(rules, extraction.premises, env);
        assert(api::claim_found(exact, env, lim, cs, claim, f));
        if let Ok(e) = grammar::parsed(claim.expression, env) {
            let readings = api::other_readings(claim.alternatives, claim.expression, env);
            let (p, o) = choose|primary: FindingV, others: Seq<FindingV>| #[trigger]
                api::resolved(primary, readings, others, f) && api::reading_found(
                    exact,
                    env,
                    lim,
                    cs,
                    claim.statement,
                    (claim.expression, e),
                    primary,
                ) && api::readings_found(exact, env, lim, cs, claim.statement, readings, others);
            verdict::lemma_verdict_means(exact, env, lim, cs, e, p);
        }
    }
}

/// Nothing is passed over in silence: the notes of a report are those of the extraction, then
/// one for each rule that does not compile, with its id and the reason, and one for each fact
/// that cannot be expressed.
pub proof fn lemma_notes_complete(
    exact: bool,
    env: Sorts,
    lim: Limits,
    rules: Seq<RuleV>,
    extraction: ExtractionV,
    r: CheckReport,
    i: int,
)
    requires
        api::evaluated(exact, env, lim, rules, extraction, r),
    ensures
        r.notes@.len() == extraction.notes.len() + policy::rejected(rules, env).len()
            + api::fact_notes(extraction.premises, env).len(),
        extraction.premises.len() == r.premises@.len() + api::fact_notes(
            extraction.premises,
            env,
        ).len(),
        0 <= i < extraction.notes.len() ==> r.notes@[i]@ == extraction.notes[i],
        0 <= i < policy::rejected(rules, env).len() ==> {
            let note = r.notes@[extraction.notes.len() + i]@;
            let rule = policy::rejected(rules, env)[i];
            &&& findings::says(note, rule.rule_id)
            &&& findings::says(note, rule.error.message)
        },
{
    let all = text::texts(r.notes@);
    let (a, b) = (extraction.notes, api::rule_notes(policy::rejected(rules, env)));
    let c = api::fact_notes(extraction.premises, env);
    assert(all == a + b + c);
    assert(all.len() == r.notes@.len());
    if 0 <= i < a.len() {
        assert(all[i] == a[i]);
    }
    if 0 <= i < b.len() {
        assert(all[a.len() + i] == b[i]);
        let rule = policy::rejected(rules, env)[i];
        let tail = "' was skipped because it does not compile: "@;
        findings::lemma_says_itself("Rule '"@, rule.rule_id, tail);
        let head = "Rule '"@ + rule.rule_id + tail;
        findings::lemma_says(Seq::empty(), head, rule.error.message, rule.rule_id);
        findings::lemma_says_itself(head, rule.error.message, Seq::empty());
        assert(Seq::<char>::empty() + head + rule.error.message =~= b[i]);
        assert(head + rule.error.message + Seq::<char>::empty() =~= b[i]);
    }
    let listed = api::premise_views(r.premises@);
    assert(listed.len() == r.premises@.len());
    lemma_facts_or_notes(extraction.premises, env);
}

proof fn lemma_facts_or_notes(premises: Seq<ExtractedV>, env: Sorts)
    ensures
        api::facts(premises, env).len() + api::fact_notes(premises, env).len() == premises.len(),
    decreases premises.len(),
{
    if premises.len() > 0 {
        lemma_facts_or_notes(premises.drop_last(), env);
    }
}

// ── What is said ────────────────────────────────────────────────────────────────

/// Where something ran out it is said how much of it there was, and different things are
/// said of different limits.
pub proof fn lemma_limits_said(lim: Limits)
    ensures
        findings::says(decision::reason(Limit::Time, lim), text::digits(lim.millis)),
        findings::says(decision::reason(Limit::Nodes, lim), text::digits(lim.nodes)),
        findings::says(decision::reason(Limit::Constraints, lim), text::digits(lim.cons)),
        findings::says(decision::reason(Limit::Branches, lim), text::digits(lim.branches)),
        findings::says(decision::reason(Limit::Time, lim), "time limit"@),
        findings::says(decision::reason(Limit::Nodes, lim), "nodes"@),
        findings::says(decision::reason(Limit::Constraints, lim), "constraints"@),
        findings::says(decision::reason(Limit::Branches, lim), "branches"@),
        findings::says(decision::reason(Limit::Overflow, lim), "arithmetic overflowed"@),
        findings::says(decision::reason(Limit::Bound, lim), "bound overflowed"@),
{
    reveal_strlit(" ms time limit");
    reveal_strlit("time limit");
    reveal_strlit(" nodes");
    reveal_strlit("nodes");
    reveal_strlit(" constraints");
    reveal_strlit("constraints");
    reveal_strlit(" branches");
    reveal_strlit("branches");
    reveal_strlit("exact arithmetic overflowed");
    reveal_strlit("arithmetic overflowed");
    reveal_strlit("integer bound overflowed");
    reveal_strlit("bound overflowed");
    lemma_said_between(
        "search exceeded its "@,
        text::digits(lim.millis),
        " ms time limit"@,
        "time limit"@,
        4,
    );
    lemma_said_between("boolean search exceeded "@, text::digits(lim.nodes), " nodes"@, "nodes"@, 1);
    lemma_said_between(
        "Fourier–Motzkin elimination exceeded "@,
        text::digits(lim.cons),
        " constraints"@,
        "constraints"@,
        1,
    );
    lemma_said_between(
        "integer branch-and-bound exceeded "@,
        text::digits(lim.branches),
        " branches"@,
        "branches"@,
        1,
    );
    let e = Seq::<char>::empty();
    lemma_said_between(e, e, "exact arithmetic overflowed"@, "arithmetic overflowed"@, 6);
    lemma_said_between(e, e, "integer bound overflowed"@, "bound overflowed"@, 8);
    assert(e + e + "exact arithmetic overflowed"@ =~= "exact arithmetic overflowed"@);
    assert(e + e + "integer bound overflowed"@ =~= "integer bound overflowed"@);
}

proof fn lemma_said_between(
    a: Seq<char>,
    b: Seq<char>,
    c: Seq<char>,
    word: Seq<char>,
    at: int,
)
    requires
        0 <= at,
        at + word.len() == c.len(),
        c.subrange(at, at + word.len()) =~= word,
    ensures
        findings::says(a + b + c, b),
        findings::says(a + b + c, word),
{
    findings::lemma_says_itself(a, b, c);
    assert(c.subrange(at, at + word.len()) == word);
    assert(findings::says(c, word));
    findings::lemma_says(a + b, c, Seq::empty(), word);
    assert(a + b + c + Seq::<char>::empty() =~= a + b + c);
}

/// Of too many atoms it is said how many there are and how many may be.
pub proof fn lemma_atoms_said(n: nat, max: nat)
    ensures
        findings::says(decision::too_many_atoms(n, max), text::digits(n)),
        findings::says(decision::too_many_atoms(n, max), text::digits(max)),
{
    let whole = decision::too_many_atoms(n, max);
    let (a, b) = ("formula has "@, " distinct atoms, over the limit of "@);
    findings::lemma_says_itself(a, text::digits(n), b + text::digits(max));
    assert(whole =~= a + text::digits(n) + (b + text::digits(max)));
    findings::lemma_says_itself(a + text::digits(n) + b, text::digits(max), Seq::empty());
    assert(whole =~= a + text::digits(n) + b + text::digits(max) + Seq::<char>::empty());
}

/// The reason is given why a claim was not decided, and why one was not expressed.
pub proof fn lemma_reason_said(why: Seq<char>)
    ensures
        findings::says(verdict::undecided(why), why),
        findings::says(api::inexpressible(why), why),
{
    findings::lemma_says_itself("The solver could not decide this in budget: "@, why, "."@);
    let a = "This sentence could not be expressed in the policy's vocabulary: "@;
    findings::lemma_says_itself(a, why, Seq::empty());
    assert(a + why + Seq::<char>::empty() =~= a + why);
}

/// Of readings that disagree both formulas are given, and the verdict on each.
pub proof fn lemma_disagreement_said(claim: Seq<char>, v: Verdict, other: Seq<char>, w: Verdict)
    ensures
        findings::says(api::disagreement(claim, v, other, w), claim),
        findings::says(api::disagreement(claim, v, other, w), other),
        findings::says(api::disagreement(claim, v, other, w), verdict::verdict_name(v)),
        findings::says(api::disagreement(claim, v, other, w), verdict::verdict_name(w)),
{
    let whole = api::disagreement(claim, v, other, w);
    let a = "This sentence has more than one reasonable reading and they disagree: as `"@;
    let b = "` it is "@;
    let c = ", but as `"@;
    let z = ". Sharpen the answer, or add synonyms to the variable descriptions so the reading is unambiguous."@;
    let (p, q) = (verdict::verdict_name(v), verdict::verdict_name(w));
    findings::lemma_says_itself(a, claim, b + p + c + other + b + q + z);
    assert(whole =~= a + claim + (b + p + c + other + b + q + z));
    findings::lemma_says_itself(a + claim + b, p, c + other + b + q + z);
    assert(whole =~= a + claim + b + p + (c + other + b + q + z));
    findings::lemma_says_itself(a + claim + b + p + c, other, b + q + z);
    assert(whole =~= a + claim + b + p + c + other + (b + q + z));
    findings::lemma_says_itself(a + claim + b + p + c + other + b, q, z);
}

/// An error of a formula is shown with its message and its position.
pub proof fn lemma_error_shown(e: ErrV)
    ensures
        findings::says(lexer::shown(e), e.message),
        findings::says(lexer::shown(e), text::digits(e.position)),
{
    let (a, b) = (" (at character "@, ")"@);
    let d = text::digits(e.position);
    findings::lemma_says_itself(Seq::empty(), e.message, a + d + b);
    assert(Seq::<char>::empty() + e.message + (a + d + b) =~= lexer::shown(e));
    findings::lemma_says_itself(e.message + a, d, b);
}

/// The letters and digits of a name, in lower case.
pub open spec fn letters_of(name: Seq<char>) -> Seq<char>
    decreases name.len(),
{
    if name.len() == 0 {
        Seq::empty()
    } else if store::alphanumeric(name.last()) {
        letters_of(name.drop_last()).push(text::lower_char(name.last()))
    } else {
        letters_of(name.drop_last())
    }
}

/// A text without its dashes.
pub open spec fn undashed(s: Seq<char>) -> Seq<char>
    decreases s.len(),
{
    if s.len() == 0 {
        Seq::empty()
    } else if s.last() == '-' {
        undashed(s.drop_last())
    } else {
        undashed(s.drop_last()).push(s.last())
    }
}

proof fn lemma_undashed(name: Seq<char>)
    ensures
        undashed(api::dashed(name)) == letters_of(name),
        forall|i: int|
            0 <= i < api::dashed(name).len() - 1 ==> !(#[trigger] api::dashed(name)[i] == '-'
                && api::dashed(name)[i + 1] == '-'),
    decreases name.len(),
{
    if name.len() > 0 {
        let out = api::dashed(name.drop_last());
        lemma_undashed(name.drop_last());
        let d = api::dashed(name);
        if d.len() > out.len() {
            assert(d.drop_last() =~= out);
            assert forall|i: int| 0 <= i < d.len() - 1 implies !(#[trigger] d[i] == '-' && d[i + 1]
                == '-') by {
                if i < out.len() - 1 {
                    assert(out[i] == d[i] && out[i + 1] == d[i + 1]);
                } else {
                    assert(d[i] == out.last());
                }
            }
        }
    }
}

/// An id holds all the letters and digits of its name, in order and in lower case, whatever
/// the length of the name; between them are single dashes, and none at the end.
pub proof fn lemma_slug_letters(name: Seq<char>)
    ensures
        undashed(api::slug_of(name)) == letters_of(name),
        api::slug_of(name).len() > 0 ==> api::slug_of(name).last() != '-',
        forall|i: int|
            0 <= i < api::slug_of(name).len() - 1 ==> !(#[trigger] api::slug_of(name)[i] == '-'
                && api::slug_of(name)[i + 1] == '-'),
{
    lemma_undashed(name);
    let d = api::dashed(name);
    let s = api::slug_of(name);
    if d.len() > 0 && d.last() == '-' {
        if s.len() > 0 {
            assert(d[d.len() - 2] == s.last());
            assert(d[d.len() - 2 + 1] == '-');
        }
    }
    assert forall|i: int| 0 <= i < s.len() - 1 implies !(#[trigger] s[i] == '-' && s[i + 1]
        == '-') by {
        assert(s[i] == d[i] && s[i + 1] == d[i + 1]);
    }
}

/// The check surface lists every verdict by its name.
pub proof fn lemma_verdicts_listed(v: Verdict)
    ensures
        json::list_member(api::surface(), "verdicts"@) == api::verdict_list(),
        api::verdict_list().contains(JsonV::Text(verdict::verdict_name(v))),
{
    reveal_strlit("capability");
    reveal_strlit("routes");
    reveal_strlit("verdicts");
    assert("capability"@.len() == 10 && "routes"@.len() == 6 && "verdicts"@.len() == 8);
    reveal_with_fuel(json::place_from, 5);
    let l = api::verdict_list();
    let i = match v {
        Verdict::Valid => 0int,
        Verdict::Invalid => 1,
        Verdict::Satisfiable => 2,
        Verdict::Impossible => 3,
        Verdict::NoTranslations => 4,
        Verdict::TranslationAmbiguous => 5,
        Verdict::TooComplex => 6,
    };
    assert(l[i] == JsonV::Text(verdict::verdict_name(v)));
}

/// The check surface says where answers and formulas are posted.
pub proof fn lemma_routes_listed(body: JsonV, path: Seq<char>)
    ensures
        json::text_member(api::posted(body, path), "path"@) == Some(path),
        json::text_member(api::posted(body, path), "method"@) == Some("POST"@),
        json::member(api::posted(body, path), "body"@) == Some(body),
        json::member(api::surface(), "routes"@) matches Some(routes) && (json::member(
            routes,
            "check"@,
        ) matches Some(check) && json::text_member(check, "path"@) == Some("/check"@)) && (
        json::member(routes, "solve"@) matches Some(solve) && json::text_member(solve, "path"@)
            == Some("/solve"@)),
{
    reveal_strlit("body");
    reveal_strlit("method");
    reveal_strlit("path");
    reveal_strlit("capability");
    reveal_strlit("routes");
    reveal_strlit("check");
    reveal_strlit("solve");
    assert("body"@[0] == 'b' && "path"@[0] == 'p' && "method"@[0] == 'm');
    assert("capability"@.len() == 10 && "routes"@.len() == 6);
    assert("check"@[0] == 'c' && "solve"@[0] == 's');
    reveal_with_fuel(json::place_from, 5);
}

/// An error in a formula names what it is about: the variable that is not declared, the enum
/// that is misused, or the text that is.
pub proof fn lemma_error_names(env: Sorts, toks: grammar::Toks, i: int, name: Seq<char>)
    ensures
        grammar::name_node(env, toks, i, name) matches Err(e) ==> findings::says(e.message, name),
        findings::says(grammar::enum_misused(toks, i, name).message, name),
        findings::says(grammar::text_misused(toks, i, name).message, name),
{
    reveal(grammar::name_node);
    findings::lemma_says_itself("'"@, name, "' is not a declared variable of this policy"@);
    findings::lemma_says_itself(
        "'"@,
        name,
        "' is an enum and must be compared with one of its declared values, written in quotes"@,
    );
    findings::lemma_says_itself(
        "the text \""@,
        name,
        "\" can only be compared with an enum variable"@,
    );
}

} // verus!
