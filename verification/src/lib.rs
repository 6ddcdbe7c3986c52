//! Concatenates the modules of a library into one JavaScript file and one
//! declaration file.

use vstd::prelude::*;

pub mod collections;
pub mod comments;
pub mod dts;
pub mod helpers;
pub mod pack_js;
pub mod paths;
pub mod position_laws;
pub mod resolver;
pub mod specifier;
pub mod syntax;
pub mod text;

verus! {

/// What is packed.
#[derive(Debug)]
pub struct PackOptions {
    /// The URLs of the entry points.
    pub entry_points: Vec<String>,
    /// The URL of the import map, if there is one.
    pub import_map: Option<String>,
}

/// What packing gives.
#[derive(Debug)]
pub struct PackOutput {
    pub js: String,
    pub dts: String,
    /// The import map as JSON text, if there was one.
    pub import_map: Option<String>,
}

}
