//! A small regular-expression engine.
//!
//! A pattern string is compiled into a nondeterministic finite automaton
//! (NFA), the NFA is determinized into a deterministic finite automaton
//! (DFA) by subset construction, and the DFA drives a per-line scanner that
//! reports the first accepted substring of each line.
//!
//! The grammar supports literal characters, `\`-escaping, grouping with
//! parentheses, alternation with `|`, and the quantifiers `*` and `+`.

pub mod dfa;
pub mod ndfa;
pub mod nfda;
pub mod search;
