//! Emit of one declaration file for the modules of a graph.

pub mod analyzer;
pub mod binder;
pub mod binder_laws;
pub mod bundle;
pub mod bundle_laws;
pub mod bundle_proofs;
pub mod bundler;
pub mod checks;
pub mod class_laws;
pub mod definition_laws;
pub mod emission_laws;
pub mod idents;
pub mod idents_laws;
pub mod keep_laws;
pub mod listing_laws;
pub mod names;
pub mod namespace_laws;
pub mod namespaces;
pub mod output;
pub mod public_laws;
pub mod reference_laws;
pub mod return_laws;
pub mod root_symbol;
pub mod search_depth;
pub mod trace_checks;
pub mod tracer;
pub mod tracer_laws;
pub mod transform;
pub mod transform_laws;
pub mod transformer;
pub mod visit_laws;
