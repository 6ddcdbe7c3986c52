//! The symbols of a graph of modules.

use vstd::prelude::*;

use super::analyzer::{DefinitionPath, UniqueSymbolId};
use crate::comments::Comments;
use crate::specifier::ModuleSpecifier;
use crate::syntax::{Id, Kind, Node};

verus! {

/// The node that declares a symbol. Where it declares several variables, the number
/// of the declarator says which of them is meant.
#[derive(Debug)]
pub struct DeclNode {
    pub tree: Node,
    pub declarator: Option<usize>,
}

/// A declaration of a symbol.
#[derive(Debug)]
pub struct SymbolDecl {
    /// Whether the declaration is a definition, and no reference to one.
    pub is_definition: bool,
    pub name: Option<String>,
    pub is_function: bool,
    /// Whether this is the implementation of a function that has signatures.
    pub has_overloads: bool,
    pub node: Option<DeclNode>,
}

/// An identifier in the declarations of a symbol, and the ways from it to what it
/// stands for.
#[derive(Debug)]
pub struct IdentPaths {
    pub id: Id,
    pub paths: Vec<DefinitionPath>,
}

/// A symbol.
#[derive(Debug)]
pub struct Symbol {
    pub decls: Vec<SymbolDecl>,
    pub idents: Vec<IdentPaths>,
}

/// An export of a module, with the symbol that defines it, if it is found.
#[derive(Debug)]
pub struct ModuleExport {
    pub name: String,
    pub definition: Option<UniqueSymbolId>,
}

/// A module with its symbols.
#[derive(Debug)]
pub struct ModuleInfo {
    pub specifier: ModuleSpecifier,
    pub is_esm: bool,
    pub symbols: Vec<Symbol>,
    /// The symbol that stands for the module itself.
    pub module_symbol: usize,
    pub exports: Vec<ModuleExport>,
    pub comments: Comments,
    /// The length of the source file in bytes.
    pub source_len: u32,
}

/// The modules of a graph with their symbols. The number of a module is its place.
#[derive(Debug)]
pub struct RootSymbol {
    pub modules: Vec<ModuleInfo>,
}

/// Whether there is such a symbol.
pub open spec fn is_symbol(modules: Seq<ModuleInfo>, id: UniqueSymbolId) -> bool {
    id.module_id < modules.len() && id.symbol_id < modules[id.module_id as int].symbols@.len()
}

/// A symbol of the graph.
pub open spec fn symbol_at(modules: Seq<ModuleInfo>, id: UniqueSymbolId) -> Symbol {
    modules[id.module_id as int].symbols@[id.symbol_id as int]
}

/// The symbol that stands for a module.
pub open spec fn module_symbol(modules: Seq<ModuleInfo>, module_id: usize) -> UniqueSymbolId {
    UniqueSymbolId { module_id, symbol_id: modules[module_id as int].module_symbol }
}

/// Whether the first declaration of a symbol is a definition, so that the symbol has
/// a name.
pub open spec fn has_definition(symbol: Symbol) -> bool {
    symbol.decls@.len() > 0 && symbol.decls@[0].is_definition
}

/// Whether a declaration is that of a module.
pub open spec fn is_module_decl(decl: SymbolDecl) -> bool {
    decl.node is Some && decl.node.unwrap().tree.kind == Kind::Module
}

}
