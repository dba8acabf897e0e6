//! Reference resolution for OpenAPI v2 schema documents.
//!
//! A document holds an arena of schema nodes together with an ordered list of
//! named definitions. Child slots hold handles (arena indices) that may alias
//! one another, so the resolved document is a true graph: several parents can
//! share one definition, and reference cycles are supported. The resolver
//! replaces every reference marker (`#/definitions/Name`) with a handle to the
//! named definition, back-fills missing definition names, and marks every
//! definition that lies on a reference cycle.

pub mod models;
pub mod graph;
pub mod resolver;
pub mod laws;
