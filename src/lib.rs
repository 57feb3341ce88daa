//! Cross-repository dependency analysis: a model of the packages that a set of
//! repositories publish, a global name index, an exhaustive search for
//! dependency walks that leave a repository and come back to it, and a
//! renderer of the dependency graph as a directed-graph document.
pub mod model;
pub mod resolve;
pub mod cycles;
pub mod render;
pub mod lint;
