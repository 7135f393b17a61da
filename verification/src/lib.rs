//! Resolve code-ownership queries against a repository's CODEOWNERS rules.
//!
//! A CODEOWNERS file pairs glob-like path patterns with owners (user
//! handles, team handles, or email addresses). This crate parses that
//! format, compiles all patterns of a rule set into one shared
//! nondeterministic finite automaton, and answers `owners(path)` queries by
//! stepping the path's segments through the automaton and picking the last
//! matching rule in file order.

pub mod builder;
pub mod laws;
pub mod matcher;
pub mod nfa;
pub mod owner;
pub mod parser;
pub mod path_tree;
pub mod ruleset;
pub mod segment;
pub mod util;
pub mod wildcard;

pub use owner::InvalidOwnerError;
pub use owner::Owner;
pub use owner::OwnerKind;
pub use parser::parse;
pub use ruleset::Rule;
pub use ruleset::RuleSet;
