//! Scaffolds a project directory from a parameterised template: a typed
//! variable schema, condition-gated resolution of a render context, a
//! depth-ordered model of the template tree, rendering into a staged tree
//! and merging that tree into a destination.

pub mod context;
pub mod definition;
pub mod error;
pub mod git;
pub mod metadata;
pub mod output;
pub mod path;
pub mod template;
pub mod trusted;
pub mod variable;
