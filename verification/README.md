# Automated reasoning checks

Decide whether an answer **follows** from a written policy. A policy is a set of declared
variables and rules; a question supplies premises, an answer supplies claims, and each claim
is decided by a solver: exact rational arithmetic, finite-domain enumeration,
Fourier–Motzkin elimination and branch-and-bound. A verdict carries the minimal set of rules
that decided it and a concrete counterexample.

The library is written in Verus: its functions carry contracts, and Verus proves them.

| Verdict | Meaning |
|---|---|
| `valid` | The policy proves the claim. |
| `invalid` | The policy contradicts the claim, and here is a counterexample. |
| `satisfiable` | Consistent with the policy, but not implied by it. |
| `impossible` | The policy and the situation contradict each other. |
| `no_translations` | The answer said nothing this policy can express. |
| `translation_ambiguous` | The sentence has more than one reading and the readings disagree. |
| `too_complex` | A solver budget ran out. Explicitly not a verdict. |

## What is proved

- `src/decision.rs`: a smaller budget can only turn an answer into "unknown", never into another.
- `src/soundness.rs`: an answer "unsatisfiable" means that no world satisfies the formulas,
  and a model that is given satisfies them. Without numbers the solver is complete within a
  budget that allows a full case split.
- `src/reading.rs`, `src/logic.rs`: a displayed number reads back as itself, no decimal ends in a
  zero, and keys tell forms and atoms apart.
- `src/verdict.rs`: what each verdict means, that the blamed constraints suffice and that none
  of them can be removed, that examples are witnesses, that a trivially true claim blames
  nothing, that the same question gets the same finding.
- `src/theory.rs`, `src/solver.rs`: elimination gives a solution or there is none, and a value
  that is picked is whole where the bounds allow it.
- `src/policy.rs`: no rule is dropped, rules named as conflicting conflict and none of them can
  be left out, rules called redundant are.
- `src/api.rs`: an approved answer is proved, a contradictory policy passes nothing, reports
  are reproducible.
- `src/parser.rs`, `src/grammar.rs`: a formula that parses is over the declared variables, and
  comparisons mean what they say.
- `src/store.rs`: ids stay in their directory, versions grow, listings are sorted.

What is not proved is listed where it is used: each function marked
`#[verifier::external_body]` says what it takes on trust from `serde_json`, `uuid` or the
standard library.

## Layout

- `src/` the verified library
- `tests/` its tests
- `app/` the sidecar around it: files, HTTP, MCP over stdio and the model callback
