//! Derives a tree of statistical hypotheses from the static structure of an
//! R script: a parser, a dependency graph over the script's expressions, and a
//! tree of those expressions keyed by the hypotheses they work under.

pub mod ast;
pub mod collect;
pub mod display;
pub mod equality;
pub mod graph;
pub mod hypotheses;
pub mod parser;
pub mod text;
pub mod tree;

pub use ast::{Lines, RExp, RFormula, RStmt};
pub use graph::{build_graph, DependencyGraph};
pub use hypotheses::{Hypotheses, HypothesesId, HypothesesMap};
pub use parser::{parse, ParseError};
pub use tree::{analyze, parse_hypothesis_tree, Branches, HypothesisTree, LineTree, Node};
