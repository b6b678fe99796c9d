//! Core analysis layer for a polynomial-identity constraint language.
//!
//! The crate provides the expression model of a constraint system, an
//! order-controlled traversal over it, the analysis that collects the column
//! names an expression refers to, and the extraction of a self-contained
//! machine from a flat list of identities.
pub mod expression;
pub mod name_set;
pub mod visitor;
pub mod visit_expression;
pub mod visit_composite;
pub mod traversal_laws;
pub mod references;
pub mod machine;
pub mod machine_extractor;
pub mod column_names;
