//! A parser, formatter, gloss translator and surface re-formatter for a small
//! agglutinative constructed language.  A sentence is split on whitespace into
//! tokens; each token carries a one-character case suffix that decides its
//! syntactic role, and the remaining root is segmented into dictionary
//! morphemes.  The parse tree can be rendered back to canonical surface text
//! or to a gloss translation.

pub mod text;
pub mod vocab;
pub mod noun;
pub mod node;
pub mod render;
pub mod laws;

pub use node::Node;
pub use noun::Noun;
pub use vocab::Vocabulary;
pub use vocab::dict;
