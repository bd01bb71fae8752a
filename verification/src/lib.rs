//! Automated reasoning checks: decide whether a model's answer is *provably* consistent
//! with a written policy, instead of asking a second model to have an opinion about it.
//!
//! ```text
//!   policy document ──(model)──▶ variables + rules ──(author edits)──▶ policy
//!                                                                        │
//!   question + answer ──(model)──▶ premises + claims ─────────┐           │
//!                                                            ▼           ▼
//!                                                        solver: is the claim
//!                                                        entailed / contradicted
//!                                                        / merely consistent?
//! ```
//!
//! A model is used at both edges, because turning prose into logic is a language
//! problem. It is used **nowhere in the middle**: the verdict itself comes from a
//! decision procedure ([`solver`]), and so do the counterexamples, the rules a
//! finding blames, and the corrections it suggests ([`verdict`]).
//!
//! # Layout
//!
//! | module | role |
//! |--------|------|
//! | [`arith`], [`text`], [`names`] | divisors and fractions, texts, maps by name |
//! | [`num`], [`linear`] | exact rational arithmetic and linear forms (no floats anywhere) |
//! | [`logic`], [`semantics`] | the formula language, its normal form and what it means |
//! | [`lexer`], [`grammar`], [`parser`] | the authoring DSL, type-checked against the declared variables |
//! | [`theory`], [`decision`], [`soundness`], [`reading`] | the decision procedure as mathematics, and why its answers are right |
//! | [`solver`], [`clock`] | the decision procedure, with budgets |
//! | [`verdict`] | entailment ordering, unsat cores, solver-derived suggestions |
//! | [`policy`] | the policy document model and its analysis |
//! | [`translate`], [`json`], [`host`] | what models are asked and how their replies are read |
//! | [`api`] | checking answers, test suites, ids |
//! | [`store`] | which file a policy lives in, and what a save stamps on it |
//! | [`mcp`] | the same engine as an MCP server, for agents and workflows |
//! | [`spelling`], [`meaning`], [`formulas`], [`rendering`], [`writing`] | laws of reading and writing: tokens, formulas, forms, JSON |
//! | [`completeness`], [`findings`], [`reports`], [`lists`] | laws of deciding and reporting: when an answer is owed, and what it says |

pub mod api;
pub mod arith;
pub mod clock;
pub mod completeness;
pub mod decision;
pub mod findings;
pub mod formulas;
pub mod grammar;
pub mod host;
pub mod json;
pub mod lexer;
pub mod linear;
pub mod lists;
pub mod logic;
pub mod mcp;
pub mod meaning;
pub mod names;
pub mod num;
pub mod parser;
pub mod policy;
pub mod reading;
pub mod rendering;
pub mod reports;
pub mod semantics;
pub mod solver;
pub mod soundness;
pub mod spelling;
pub mod store;
pub mod text;
pub mod theory;
pub mod translate;
pub mod verdict;
pub mod writing;
