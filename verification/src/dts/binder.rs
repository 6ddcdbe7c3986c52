//! Finds the symbols that a module declares, imports and exports, and which
//! identifiers each of them depends on.

use vstd::prelude::*;

use crate::collections::{
    distinct_keys, has_key, key_place, lemma_key_place, lemma_key_place_is, with_entry, TextMap,
};
use crate::specifier::ModuleSpecifier;
use crate::syntax::{
    child, has_part, id_of, range_of, Id, IdSet, Kind, Node, Role, SourceRange, Tree,
};
use crate::text::{decimal, decimal_text};

verus! {

/// The number of a symbol in its module.
#[derive(Debug, Clone, Copy, PartialEq, Eq, Structural)]
pub struct SymbolId(pub usize);

/// The number of a module, in the order in which modules are analyzed.
#[derive(Debug, Clone, Copy, PartialEq, Eq, Structural)]
pub struct ModuleId(pub usize);

impl ModuleId {
    /// The name of the namespace that stands for the module.
    pub fn to_code_string(&self) -> (r: String)
        ensures
            r@ == "pack"@ + decimal(self.0 as nat),
    {
        "pack".to_owned().concat(decimal_text(self.0).as_str())
    }

    /// The name of the namespace that holds the module's default export.
    pub fn to_default_code_string(&self) -> (r: String)
        ensures
            r@ == "pack"@ + decimal(self.0 as nat) + "Default"@,
    {
        self.to_code_string().concat("Default")
    }
}

/// What is imported from another file.
#[derive(Debug)]
pub enum FileDepName {
    All,
    Name(String),
}

/// What a [`FileDepName`] stands for: a name, or everything.
pub open spec fn dep_name(name: FileDepName) -> Option<Seq<char>> {
    match name {
        FileDepName::All => None,
        FileDepName::Name(name) => Some(name@),
    }
}

/// A dependency on another file.
#[derive(Debug)]
pub struct FileDep {
    pub name: FileDepName,
    pub specifier: String,
}

/// What a [`FileDep`] stands for.
pub struct Dep {
    pub name: Option<Seq<char>>,
    pub specifier: Seq<char>,
}

impl FileDep {
    pub open spec fn view(&self) -> Dep {
        Dep { name: dep_name(self.name), specifier: self.specifier@ }
    }
}

/// A symbol of a module.
#[derive(Debug)]
pub struct Symbol {
    pub is_public: bool,
    pub decls: Vec<SourceRange>,
    pub deps: IdSet,
    pub file_dep: Option<FileDep>,
}

/// What a [`Symbol`] stands for.
#[verifier::ext_equal]
pub struct SymbolData {
    pub is_public: bool,
    pub decls: Seq<SourceRange>,
    pub deps: Set<(Seq<char>, u32)>,
    pub file_dep: Option<Dep>,
}

impl Symbol {
    pub open spec fn view(&self) -> SymbolData {
        SymbolData {
            is_public: self.is_public,
            decls: self.decls@,
            deps: self.deps@,
            file_dep: match self.file_dep {
                Some(dep) => Some(dep@),
                None => None,
            },
        }
    }

    pub open spec fn wf(&self) -> bool {
        self.deps.wf()
    }

    /// Whether the symbol is part of the public API.
    pub fn is_public(&self) -> (r: bool)
        ensures
            r == self@.is_public,
    {
        self.is_public
    }

    /// Makes the symbol a part of the public API. This tells whether it was none.
    pub fn mark_public(&mut self) -> (r: bool)
        ensures
            r == !old(self)@.is_public,
            final(self)@ == (SymbolData { is_public: true, ..old(self)@ }),
            final(self).wf() == old(self).wf(),
            final(self).deps == old(self).deps,
            final(self).file_dep == old(self).file_dep,
    {
        if self.is_public {
            false
        } else {
            self.is_public = true;
            true
        }
    }

    /// The identifiers on which the symbol depends.
    pub fn swc_dep_ids(&self) -> (r: &Vec<Id>)
        ensures
            self@.deps == Set::new(
                |id: (Seq<char>, u32)|
                    exists|i: int| 0 <= i < r@.len() && (#[trigger] r@[i])@ == id,
            ),
    {
        assert(self@.deps =~= Set::new(
            |id: (Seq<char>, u32)|
                exists|i: int|
                    0 <= i < self.deps.ids@.len() && (#[trigger] self.deps.ids@[i])@ == id,
        ));
        &self.deps.ids
    }

    /// The file from which the symbol is imported, if it is.
    pub fn file_dep(&self) -> (r: Option<&FileDep>)
        ensures
            match r {
                Some(dep) => self@.file_dep == Some(dep@),
                None => self@.file_dep is None,
            },
    {
        self.file_dep.as_ref()
    }
}

/// An identifier and the symbol that it stands for.
#[derive(Debug)]
pub struct SwcId {
    pub id: Id,
    pub symbol: SymbolId,
}

/// The symbols of a module.
pub struct ModuleSymbol {
    pub module_id: ModuleId,
    pub exports: TextMap<SymbolId>,
    /// Not every symbol has an identifier: a default export may have none.
    pub swc_ids: Vec<SwcId>,
    pub symbols: Vec<Symbol>,
    /// The symbol of the default export, if it has no name.
    pub default_export_symbol_id: Option<SymbolId>,
    /// The modules all of whose exports the module exports.
    pub re_exports: Vec<String>,
    /// What the module exports of other modules, as far as it was traced.
    pub traced_re_exports: TextMap<UniqueSymbol>,
}

/// A symbol of some module.
#[derive(Debug)]
pub struct UniqueSymbol {
    pub specifier: ModuleSpecifier,
    pub module_id: ModuleId,
    pub symbol_id: SymbolId,
}

/// What a [`ModuleSymbol`] stands for.
#[verifier::ext_equal]
pub struct Symbols {
    pub exports: Seq<(Seq<char>, SymbolId)>,
    pub ids: Seq<((Seq<char>, u32), SymbolId)>,
    pub symbols: Seq<SymbolData>,
}

/// What a sequence of identifiers with their symbols stands for.
pub open spec fn swc_ids_of(s: Seq<SwcId>) -> Seq<((Seq<char>, u32), SymbolId)> {
    Seq::new(s.len(), |i: int| (s[i].id@, s[i].symbol))
}

/// What a sequence of symbols stands for.
pub open spec fn symbols_of(s: Seq<Symbol>) -> Seq<SymbolData> {
    Seq::new(s.len(), |i: int| s[i]@)
}

/// The symbol that an identifier stands for.
pub open spec fn symbol_for(m: Symbols, id: (Seq<char>, u32)) -> SymbolId {
    m.ids[key_place(m.ids, id)].1
}

/// What is known of a symbol with one declaration.
pub open spec fn declared_once(range: SourceRange) -> SymbolData {
    SymbolData { is_public: false, decls: seq![range], deps: Set::empty(), file_dep: None }
}

/// The symbols of a module after a declaration of an identifier.
pub open spec fn ensured(m: Symbols, id: (Seq<char>, u32), range: SourceRange) -> Symbols {
    if has_key(m.ids, id) {
        let k = symbol_for(m, id).0 as int;
        Symbols {
            symbols: m.symbols.update(
                k,
                SymbolData { decls: m.symbols[k].decls.push(range), ..m.symbols[k] },
            ),
            ..m
        }
    } else {
        Symbols {
            ids: m.ids.push((id, SymbolId(m.symbols.len() as usize))),
            symbols: m.symbols.push(declared_once(range)),
            ..m
        }
    }
}

/// The symbols of a module after the identifier was exported under its name.
pub open spec fn exported(m: Symbols, id: (Seq<char>, u32)) -> Symbols {
    Symbols { exports: with_entry(m.exports, id.0, symbol_for(m, id)), ..m }
}

/// The symbols of a module after one of them got more dependencies.
pub open spec fn with_deps(
    m: Symbols,
    id: (Seq<char>, u32),
    deps: Set<(Seq<char>, u32)>,
) -> Symbols {
    let k = symbol_for(m, id).0 as int;
    Symbols {
        symbols: m.symbols.update(
            k,
            SymbolData { deps: m.symbols[k].deps.union(deps), ..m.symbols[k] },
        ),
        ..m
    }
}

/// The symbols of a module after one of them turned out to be imported.
pub open spec fn with_file_dep(m: Symbols, id: (Seq<char>, u32), dep: Dep) -> Symbols {
    let k = symbol_for(m, id).0 as int;
    Symbols {
        symbols: m.symbols.update(k, SymbolData { file_dep: Some(dep), ..m.symbols[k] }),
        ..m
    }
}

/// Whether a node is an identifier.
pub open spec fn is_name(t: Tree) -> bool {
    t.kind == Kind::Ident || t.kind == Kind::IdentExpr || t.kind == Kind::EntityName
}

/// Whether an identifier stands somewhere in an expression.
pub open spec fn expr_mentions(t: Tree, id: (Seq<char>, u32)) -> bool
    decreases t,
{
    ||| is_name(t) && id_of(t) == id
    ||| exists|i: int| 0 <= i < t.children.len() && expr_mentions(#[trigger] t.children[i], id)
}

/// Whether an expression can be dealt with: no type in it comes from another
/// module or has a qualified name.
pub open spec fn expr_supported(t: Tree) -> bool
    decreases t,
{
    &&& t.kind != Kind::TsImportType && t.kind != Kind::TsQualifiedName
    &&& forall|i: int| 0 <= i < t.children.len() ==> expr_supported(#[trigger] t.children[i])
}

/// Whether a type depends on an identifier.
pub open spec fn type_mentions(t: Tree, id: (Seq<char>, u32)) -> bool
    decreases t,
{
    if t.kind == Kind::TsTypeRef {
        ||| has_part(t, Role::TypeName) && id_of(child(t, Role::TypeName)) == id
        ||| has_part(t, Role::TypeArgs) && types_mention(child(t, Role::TypeArgs), id)
    } else if t.kind == Kind::TsConditionalType {
        exists|i: int| 0 <= i < t.children.len() && type_mentions(#[trigger] t.children[i], id)
    } else {
        false
    }
}

/// Whether one of a list of types depends on an identifier.
pub open spec fn types_mention(t: Tree, id: (Seq<char>, u32)) -> bool
    decreases t,
{
    exists|i: int| 0 <= i < t.children.len() && type_mentions(#[trigger] t.children[i], id)
}

/// Whether a type can be dealt with.
pub open spec fn type_supported(t: Tree) -> bool
    decreases t,
{
    if t.kind == Kind::TsTypeRef {
        &&& has_part(t, Role::TypeName) && child(t, Role::TypeName).kind == Kind::EntityName
        &&& has_part(t, Role::TypeArgs) ==> types_supported(child(t, Role::TypeArgs))
    } else if t.kind == Kind::TsConditionalType {
        forall|i: int| 0 <= i < t.children.len() ==> type_supported(#[trigger] t.children[i])
    } else {
        t.kind == Kind::TsKeywordType || t.kind == Kind::TsThisType || t.kind == Kind::TsLitType
    }
}

/// Whether each of a list of types can be dealt with.
pub open spec fn types_supported(t: Tree) -> bool
    decreases t,
{
    forall|i: int| 0 <= i < t.children.len() ==> type_supported(#[trigger] t.children[i])
}

/// Whether a type annotation depends on an identifier.
pub open spec fn ann_mentions(t: Tree, id: (Seq<char>, u32)) -> bool {
    type_mentions(child(t, Role::Type), id)
}

/// Whether a type annotation can be dealt with.
pub open spec fn ann_supported(t: Tree) -> bool {
    has_part(t, Role::Type) && type_supported(child(t, Role::Type))
}

/// Whether the type annotation, if there is one, depends on an identifier.
pub open spec fn own_ann_mentions(t: Tree, role: Role, id: (Seq<char>, u32)) -> bool {
    has_part(t, role) && ann_mentions(child(t, role), id)
}

/// Whether the type annotation, if there is one, can be dealt with.
pub open spec fn own_ann_supported(t: Tree, role: Role) -> bool {
    has_part(t, role) ==> ann_supported(child(t, role))
}

/// Whether the type with the role, if there is one, depends on an identifier.
pub open spec fn own_type_mentions(t: Tree, role: Role, id: (Seq<char>, u32)) -> bool {
    has_part(t, role) && type_mentions(child(t, role), id)
}

/// Whether the type with the role, if there is one, can be dealt with.
pub open spec fn own_type_supported(t: Tree, role: Role) -> bool {
    has_part(t, role) ==> type_supported(child(t, role))
}

/// Whether a type parameter depends on an identifier.
pub open spec fn type_param_mentions(t: Tree, id: (Seq<char>, u32)) -> bool {
    own_type_mentions(t, Role::Constraint, id) || own_type_mentions(t, Role::Default, id)
}

/// Whether a type parameter can be dealt with.
pub open spec fn type_param_supported(t: Tree) -> bool {
    own_type_supported(t, Role::Constraint) && own_type_supported(t, Role::Default)
}

/// Whether the type parameters, if there are any, depend on an identifier.
pub open spec fn type_params_mention(t: Tree, id: (Seq<char>, u32)) -> bool {
    has_part(t, Role::TypeParams) && exists|i: int|
        0 <= i < child(t, Role::TypeParams).children.len() && type_param_mentions(
            #[trigger] child(t, Role::TypeParams).children[i],
            id,
        )
}

/// Whether the type parameters, if there are any, can be dealt with.
pub open spec fn type_params_supported(t: Tree) -> bool {
    has_part(t, Role::TypeParams) ==> forall|i: int|
        0 <= i < child(t, Role::TypeParams).children.len() ==> type_param_supported(
            #[trigger] child(t, Role::TypeParams).children[i],
        )
}

/// Whether a pattern has a place for a type annotation.
pub open spec fn can_be_typed(kind: Kind) -> bool {
    kind == Kind::BindingIdent || kind == Kind::ArrayPat || kind == Kind::RestPat || kind
        == Kind::ObjectPat || kind == Kind::AssignPat
}

/// Whether the type annotation of a pattern, if there is one, holds an identifier.
pub open spec fn ann_names(t: Tree, id: (Seq<char>, u32)) -> bool {
    has_part(t, Role::TypeAnn) && expr_mentions(child(t, Role::TypeAnn), id)
}

/// Whether a pattern depends on an identifier. One with a default value depends on the
/// type of what has the value.
pub open spec fn pattern_mentions(t: Tree, id: (Seq<char>, u32)) -> bool {
    if can_be_typed(t.kind) {
        own_ann_mentions(t, Role::TypeAnn, id) || t.kind == Kind::AssignPat && has_part(
            t,
            Role::Left,
        ) && ann_names(child(t, Role::Left), id)
    } else if t.kind == Kind::InvalidPat {
        false
    } else {
        expr_mentions(t, id)
    }
}

/// Whether a pattern can be dealt with.
pub open spec fn pattern_supported(t: Tree) -> bool {
    if can_be_typed(t.kind) {
        own_ann_supported(t, Role::TypeAnn)
    } else {
        t.kind == Kind::InvalidPat || expr_supported(t)
    }
}

/// Whether a parameter depends on an identifier.
pub open spec fn param_mentions(t: Tree, id: (Seq<char>, u32)) -> bool {
    t.role == Role::Param && has_part(t, Role::Pattern) && pattern_mentions(
        child(t, Role::Pattern),
        id,
    )
}

/// Whether a part of a function can be dealt with, if it is a parameter.
pub open spec fn param_supported(t: Tree) -> bool {
    t.role == Role::Param && has_part(t, Role::Pattern) ==> pattern_supported(
        child(t, Role::Pattern),
    )
}

/// Whether a parameter of a function depends on an identifier.
pub open spec fn params_mention(t: Tree, id: (Seq<char>, u32)) -> bool {
    exists|i: int| 0 <= i < t.children.len() && param_mentions(#[trigger] t.children[i], id)
}

/// Whether every parameter of a function can be dealt with.
pub open spec fn params_supported(t: Tree) -> bool {
    forall|i: int| 0 <= i < t.children.len() ==> param_supported(#[trigger] t.children[i])
}

/// Whether the types of a function depend on an identifier.
pub open spec fn function_mentions(t: Tree, id: (Seq<char>, u32)) -> bool {
    ||| type_params_mention(t, id)
    ||| params_mention(t, id)
    ||| own_ann_mentions(t, Role::ReturnType, id)
}

/// Whether the types of a function can be dealt with.
pub open spec fn function_supported(t: Tree) -> bool {
    &&& type_params_supported(t)
    &&& params_supported(t)
    &&& own_ann_supported(t, Role::ReturnType)
}

/// Whether a member of a class depends on an identifier. Private members do not.
pub open spec fn member_mentions(t: Tree, id: (Seq<char>, u32)) -> bool {
    if t.kind == Kind::Constructor {
        params_mention(t, id)
    } else if t.kind == Kind::ClassMethod {
        has_part(t, Role::Function) && function_mentions(child(t, Role::Function), id)
    } else if t.kind == Kind::ClassProp {
        own_ann_mentions(t, Role::TypeAnn, id)
    } else {
        false
    }
}

/// Whether a member of a class can be dealt with.
pub open spec fn member_supported(t: Tree) -> bool {
    if t.kind == Kind::Constructor {
        params_supported(t)
    } else if t.kind == Kind::ClassMethod {
        has_part(t, Role::Function) ==> function_supported(child(t, Role::Function))
    } else if t.kind == Kind::ClassProp {
        own_ann_supported(t, Role::TypeAnn)
    } else {
        t.kind != Kind::TsIndexSignature && t.kind != Kind::AutoAccessor
    }
}

/// Whether an interface that a class implements depends on an identifier.
pub open spec fn heritage_mentions(t: Tree, id: (Seq<char>, u32)) -> bool {
    ||| has_part(t, Role::TypeArgs) && types_mention(child(t, Role::TypeArgs), id)
    ||| has_part(t, Role::Expr) && expr_mentions(child(t, Role::Expr), id)
}

/// Whether an interface that a class implements can be dealt with.
pub open spec fn heritage_supported(t: Tree) -> bool {
    &&& has_part(t, Role::TypeArgs) ==> types_supported(child(t, Role::TypeArgs))
    &&& has_part(t, Role::Expr) ==> expr_supported(child(t, Role::Expr))
}

/// Whether a part of a class, as an interface that it implements or as a member,
/// depends on an identifier.
pub open spec fn class_part_mentions(t: Tree, id: (Seq<char>, u32)) -> bool {
    ||| t.role == Role::Implements && heritage_mentions(t, id)
    ||| t.role == Role::Member && member_mentions(t, id)
}

/// Whether a part of a class can be dealt with.
pub open spec fn class_part_supported(t: Tree) -> bool {
    &&& t.role == Role::Implements ==> heritage_supported(t)
    &&& t.role == Role::Member ==> member_supported(t)
}

/// Whether a class depends on an identifier.
pub open spec fn class_mentions(t: Tree, id: (Seq<char>, u32)) -> bool {
    ||| type_params_mention(t, id)
    ||| has_part(t, Role::SuperClass) && expr_mentions(child(t, Role::SuperClass), id)
    ||| has_part(t, Role::SuperTypeArgs) && types_mention(child(t, Role::SuperTypeArgs), id)
    ||| exists|i: int|
        0 <= i < t.children.len() && class_part_mentions(#[trigger] t.children[i], id)
}

/// Whether a class can be dealt with.
pub open spec fn class_supported(t: Tree) -> bool {
    &&& type_params_supported(t)
    &&& has_part(t, Role::SuperClass) ==> expr_supported(child(t, Role::SuperClass))
    &&& has_part(t, Role::SuperTypeArgs) ==> types_supported(child(t, Role::SuperTypeArgs))
    &&& forall|i: int|
        0 <= i < t.children.len() ==> class_part_supported(#[trigger] t.children[i])
}

/// The expression with the role, if there is one, holds the identifier.
pub open spec fn own_expr_mentions(t: Tree, role: Role, id: (Seq<char>, u32)) -> bool {
    has_part(t, role) && expr_mentions(child(t, role), id)
}

/// Whether the expression with the role, if there is one, can be dealt with.
pub open spec fn own_expr_supported(t: Tree, role: Role) -> bool {
    has_part(t, role) ==> expr_supported(child(t, role))
}

/// The identifiers that a pattern binds, in order.
pub open spec fn pat_ids(t: Tree) -> Seq<(Seq<char>, u32)>
    decreases t, 0nat,
{
    if t.kind == Kind::BindingIdent && has_part(t, Role::Name) {
        seq![id_of(child(t, Role::Name))]
    } else if t.kind == Kind::AssignPatProp && has_part(t, Role::Key) {
        seq![id_of(child(t, Role::Key))]
    } else if t.kind == Kind::KeyValuePatProp && has_part(t, Role::Value) {
        pat_ids(child(t, Role::Value))
    } else if t.kind == Kind::RestPat && has_part(t, Role::Arg) {
        pat_ids(child(t, Role::Arg))
    } else if t.kind == Kind::AssignPat && has_part(t, Role::Left) {
        pat_ids(child(t, Role::Left))
    } else if t.kind == Kind::ArrayPat || t.kind == Kind::ObjectPat {
        pat_ids_upto(t.children, t.children.len())
    } else {
        Seq::empty()
    }
}

/// The identifiers that the first `n` parts of a pattern bind, in order.
pub open spec fn pat_ids_upto(s: Seq<Tree>, n: nat) -> Seq<(Seq<char>, u32)>
    decreases s, n,
{
    if n == 0 || n > s.len() {
        Seq::empty()
    } else {
        pat_ids_upto(s, (n - 1) as nat) + pat_ids(s[n - 1])
    }
}

/// The identifiers that a declaration of variables binds, up to the declarator
/// `n`.
pub open spec fn var_ids_upto(s: Seq<Tree>, n: nat) -> Seq<(Seq<char>, u32)>
    decreases n,
{
    if n == 0 {
        Seq::empty()
    } else if has_part(s[n - 1], Role::Name) {
        var_ids_upto(s, (n - 1) as nat) + pat_ids(child(s[n - 1], Role::Name))
    } else {
        var_ids_upto(s, (n - 1) as nat)
    }
}

/// Whether a declaration declares the one name that it has.
pub open spec fn has_one_name(kind: Kind) -> bool {
    kind == Kind::ClassDecl || kind == Kind::FnDecl || kind == Kind::TsInterfaceDecl || kind
        == Kind::TsTypeAliasDecl || kind == Kind::TsEnumDecl || kind == Kind::TsModuleDecl
}

/// The identifiers that a declaration declares, in order.
pub open spec fn decl_ids(t: Tree) -> Seq<(Seq<char>, u32)> {
    if has_one_name(t.kind) && has_part(t, Role::Name) {
        seq![id_of(child(t, Role::Name))]
    } else if t.kind == Kind::VarDecl {
        var_ids_upto(t.children, t.children.len())
    } else {
        Seq::empty()
    }
}

/// Whether the identifiers of a declaration can be told: it has an identifier
/// for a name.
pub open spec fn decl_named(t: Tree) -> bool {
    has_one_name(t.kind) ==> has_part(t, Role::Name) && child(t, Role::Name).kind == Kind::Ident
}

/// The block of a namespace with a name of one or more parts.
pub open spec fn innermost(t: Tree) -> Tree
    decreases t,
{
    if t.kind == Kind::TsNamespaceDecl && has_part(t, Role::Body) {
        innermost(child(t, Role::Body))
    } else {
        t
    }
}

/// Whether an item of a namespace exports the identifier by a declaration.
pub open spec fn namespace_item_mentions(t: Tree, id: (Seq<char>, u32)) -> bool {
    t.kind == Kind::ExportDecl && has_part(t, Role::Decl) && decl_ids(
        child(t, Role::Decl),
    ).contains(id)
}

/// Whether an item of a namespace can be dealt with.
pub open spec fn namespace_item_supported(t: Tree) -> bool {
    t.kind == Kind::ExportDecl && has_part(t, Role::Decl) ==> decl_named(child(t, Role::Decl))
}

/// Whether a namespace exports the identifier.
pub open spec fn namespace_mentions(t: Tree, id: (Seq<char>, u32)) -> bool {
    has_part(t, Role::Body) && exists|i: int|
        0 <= i < innermost(child(t, Role::Body)).children.len() && namespace_item_mentions(
            #[trigger] innermost(child(t, Role::Body)).children[i],
            id,
        )
}

/// Whether a namespace can be dealt with.
pub open spec fn namespace_supported(t: Tree) -> bool {
    has_part(t, Role::Body) ==> forall|i: int|
        0 <= i < innermost(child(t, Role::Body)).children.len() ==> namespace_item_supported(
            #[trigger] innermost(child(t, Role::Body)).children[i],
        )
}

/// Whether a declaration that has one name depends on an identifier.
pub open spec fn decl_mentions(t: Tree, id: (Seq<char>, u32)) -> bool {
    if t.kind == Kind::ClassDecl {
        has_part(t, Role::Class) && class_mentions(child(t, Role::Class), id)
    } else if t.kind == Kind::FnDecl {
        has_part(t, Role::Function) && function_mentions(child(t, Role::Function), id)
    } else if t.kind == Kind::TsTypeAliasDecl {
        type_params_mention(t, id) || own_type_mentions(t, Role::Type, id)
    } else if t.kind == Kind::TsEnumDecl {
        exists|i: int|
            0 <= i < t.children.len() && own_expr_mentions(
                #[trigger] t.children[i],
                Role::Init,
                id,
            )
    } else {
        namespace_mentions(t, id)
    }
}

/// The identifiers on which a declaration that has one name depends.
pub open spec fn decl_deps(t: Tree) -> Set<(Seq<char>, u32)> {
    Set::new(|id: (Seq<char>, u32)| decl_mentions(t, id))
}

/// The identifiers on which the variables of a declarator depend: those in the type that
/// is written for them, and those in their value.
pub open spec fn declarator_deps(t: Tree) -> Set<(Seq<char>, u32)> {
    Set::new(
        |id: (Seq<char>, u32)|
            has_part(t, Role::Name) && ann_names(child(t, Role::Name), id) || own_expr_mentions(
                t,
                Role::Init,
                id,
            ),
    )
}

/// Whether a declaration can be dealt with.
pub open spec fn decl_supported(t: Tree) -> bool {
    if t.kind == Kind::ClassDecl {
        decl_named(t) && (has_part(t, Role::Class) ==> class_supported(child(t, Role::Class)))
    } else if t.kind == Kind::FnDecl {
        decl_named(t) && (has_part(t, Role::Function) ==> function_supported(
            child(t, Role::Function),
        ))
    } else if t.kind == Kind::TsTypeAliasDecl {
        decl_named(t) && type_params_supported(t) && own_type_supported(t, Role::Type)
    } else if t.kind == Kind::TsEnumDecl {
        decl_named(t) && forall|i: int|
            0 <= i < t.children.len() ==> own_expr_supported(#[trigger] t.children[i], Role::Init)
    } else if t.kind == Kind::TsModuleDecl {
        decl_named(t) && namespace_supported(t)
    } else if t.kind == Kind::VarDecl {
        forall|i: int|
            0 <= i < t.children.len() ==> own_expr_supported(#[trigger] t.children[i], Role::Init)
    } else {
        t.kind != Kind::TsInterfaceDecl
    }
}

/// The symbols of a module after a declaration of an identifier that depends on
/// others.
pub open spec fn declared(
    m: Symbols,
    id: (Seq<char>, u32),
    range: SourceRange,
    is_export: bool,
    deps: Set<(Seq<char>, u32)>,
) -> Symbols {
    let after = ensured(m, id, range);
    if is_export {
        with_deps(exported(after, id), id, deps)
    } else {
        with_deps(after, id, deps)
    }
}

/// The symbols of a module after the first `n` identifiers of a declarator.
pub open spec fn ids_declared(
    m: Symbols,
    ids: Seq<(Seq<char>, u32)>,
    n: nat,
    range: SourceRange,
    is_export: bool,
    deps: Set<(Seq<char>, u32)>,
) -> Symbols
    decreases n,
{
    if n == 0 {
        m
    } else {
        declared(
            ids_declared(m, ids, (n - 1) as nat, range, is_export, deps),
            ids[n - 1],
            range,
            is_export,
            deps,
        )
    }
}

/// The symbols of a module after a declarator.
pub open spec fn declarator_declared(m: Symbols, t: Tree, is_export: bool) -> Symbols {
    if has_part(t, Role::Name) {
        let ids = pat_ids(child(t, Role::Name));
        ids_declared(m, ids, ids.len(), range_of(t), is_export, declarator_deps(t))
    } else {
        m
    }
}

/// The symbols of a module after the first `n` declarators of a declaration.
pub open spec fn declarators_declared(
    m: Symbols,
    s: Seq<Tree>,
    n: nat,
    is_export: bool,
) -> Symbols
    decreases n,
{
    if n == 0 {
        m
    } else {
        declarator_declared(
            declarators_declared(m, s, (n - 1) as nat, is_export),
            s[n - 1],
            is_export,
        )
    }
}

/// The symbols of a module after a declaration.
pub open spec fn decl_declared(
    m: Symbols,
    decl: Tree,
    range: SourceRange,
    is_export: bool,
) -> Symbols {
    if has_one_name(decl.kind) && has_part(decl, Role::Name) {
        declared(m, id_of(child(decl, Role::Name)), range, is_export, decl_deps(decl))
    } else if decl.kind == Kind::VarDecl {
        declarators_declared(m, decl.children, decl.children.len(), is_export)
    } else {
        m
    }
}

/// The symbols of a module after one of them is imported.
pub open spec fn imported(
    m: Symbols,
    id: (Seq<char>, u32),
    range: SourceRange,
    name: Option<Seq<char>>,
    specifier: Seq<char>,
) -> Symbols {
    with_file_dep(ensured(m, id, range), id, Dep { name, specifier })
}

/// The symbols of a module after a part of an import. What is imported under
/// another name depends on the name that it has in its module.
pub open spec fn import_part_declared(m: Symbols, t: Tree, specifier: Seq<char>) -> Symbols {
    let local = child(t, Role::Local);
    if !has_part(t, Role::Local) {
        m
    } else if t.kind == Kind::ImportNamed {
        if has_part(t, Role::Imported) {
            let name = child(t, Role::Imported);
            imported(
                with_deps(
                    ensured(m, id_of(local), range_of(t)),
                    id_of(local),
                    Set::empty().insert(id_of(name)),
                ),
                id_of(name),
                range_of(name),
                Some(name.text),
                specifier,
            )
        } else {
            imported(m, id_of(local), range_of(t), Some(local.text), specifier)
        }
    } else if t.kind == Kind::ImportDefault {
        imported(m, id_of(local), range_of(t), Some("default"@), specifier)
    } else if t.kind == Kind::ImportNamespace {
        imported(m, id_of(local), range_of(t), None, specifier)
    } else {
        m
    }
}

/// The symbols of a module after the first `n` parts of an import.
pub open spec fn import_declared(m: Symbols, s: Seq<Tree>, n: nat, specifier: Seq<char>) -> Symbols
    decreases n,
{
    if n == 0 {
        m
    } else {
        import_part_declared(
            import_declared(m, s, (n - 1) as nat, specifier),
            s[n - 1],
            specifier,
        )
    }
}

/// The symbols of a module after an item.
pub open spec fn item_declared(m: Symbols, t: Tree) -> Symbols {
    if t.kind == Kind::ImportDecl {
        if has_part(t, Role::Source) {
            import_declared(m, t.children, t.children.len(), child(t, Role::Source).text)
        } else {
            m
        }
    } else if t.kind == Kind::ExportDecl {
        if has_part(t, Role::Decl) {
            decl_declared(m, child(t, Role::Decl), range_of(t), true)
        } else {
            m
        }
    } else {
        decl_declared(m, t, range_of(t), false)
    }
}

/// The symbols of a module after its first `n` items.
pub open spec fn items_declared(m: Symbols, items: Seq<Tree>, n: nat) -> Symbols
    decreases n,
{
    if n == 0 {
        m
    } else {
        item_declared(items_declared(m, items, (n - 1) as nat), items[n - 1])
    }
}

/// Whether a part of an import can be dealt with.
pub open spec fn import_part_supported(t: Tree) -> bool {
    t.kind == Kind::ImportNamed && has_part(t, Role::Imported) ==> child(t, Role::Imported).kind
        == Kind::Ident
}

/// Whether an item of a module can be dealt with. Of the exports, only those of
/// declarations can.
pub open spec fn item_supported(t: Tree) -> bool {
    if t.kind == Kind::ImportDecl {
        forall|i: int|
            0 <= i < t.children.len() ==> import_part_supported(#[trigger] t.children[i])
    } else if t.kind == Kind::ExportDecl {
        has_part(t, Role::Decl) ==> decl_supported(child(t, Role::Decl))
    } else {
        &&& decl_supported(t)
        &&& t.kind != Kind::ExportNamed && t.kind != Kind::ExportDefaultDecl && t.kind
            != Kind::ExportDefaultExpr && t.kind != Kind::ExportAll && t.kind
            != Kind::TsImportEquals && t.kind != Kind::TsExportAssignment && t.kind
            != Kind::TsNamespaceExport
    }
}

/// Whether every item of a module can be dealt with.
pub open spec fn module_supported(module: Tree) -> bool {
    forall|i: int| 0 <= i < module.children.len() ==> item_supported(#[trigger] module.children[i])
}

/// No symbols.
pub open spec fn no_symbols() -> Symbols {
    Symbols { exports: Seq::empty(), ids: Seq::empty(), symbols: Seq::empty() }
}

/// The symbols of a module.
pub open spec fn module_symbols(module: Tree) -> Symbols {
    items_declared(no_symbols(), module.children, module.children.len())
}

/// Adds the identifiers of an expression.
fn fill_expr(deps: &mut IdSet, n: &Node)
    requires
        old(deps).wf(),
    ensures
        final(deps).wf(),
        forall|id: (Seq<char>, u32)| #[trigger]
            final(deps)@.contains(id) <==> old(deps)@.contains(id) || expr_mentions(n@, id),
    decreases n,
{
    let ghost before = deps@;
    if n.kind == Kind::Ident || n.kind == Kind::IdentExpr || n.kind == Kind::EntityName {
        deps.insert(n.to_id());
    }
    let ghost own = deps@;
    let mut i: usize = 0;
    while i < n.children.len()
        invariant
            i <= n.children@.len(),
            deps.wf(),
            forall|id: (Seq<char>, u32)| #[trigger]
                deps@.contains(id) <==> own.contains(id) || exists|j: int|
                    0 <= j < i && expr_mentions(#[trigger] n@.children[j], id),
        decreases n.children@.len() - i,
    {
        assert(n@.children[i as int] == n.children@[i as int]@);
        let ghost earlier = deps@;
        fill_expr(deps, &n.children[i]);
        assert forall|id: (Seq<char>, u32)| #[trigger]
            deps@.contains(id) <==> own.contains(id) || exists|j: int|
                0 <= j < i + 1 && expr_mentions(#[trigger] n@.children[j], id) by {
            assert(deps@.contains(id) <==> earlier.contains(id) || expr_mentions(
                n@.children[i as int],
                id,
            ));
            if earlier.contains(id) && !own.contains(id) {
                let j = choose|j: int|
                    0 <= j < i && expr_mentions(#[trigger] n@.children[j], id);
                assert(expr_mentions(n@.children[j], id));
            }
        }
        i = i + 1;
    }
}

/// Adds the identifiers on which a type depends.
fn fill_ts_type(deps: &mut IdSet, n: &Node)
    requires
        old(deps).wf(),
    ensures
        final(deps).wf(),
        forall|id: (Seq<char>, u32)| #[trigger]
            final(deps)@.contains(id) <==> old(deps)@.contains(id) || type_mentions(n@, id),
    decreases n,
{
    if n.kind == Kind::TsTypeRef {
        match n.get(Role::TypeName) {
            Some(name) => {
                deps.insert(name.to_id());
            },
            None => {},
        }
        match n.get(Role::TypeArgs) {
            Some(args) => {
                fill_ts_type_param_instantiation(deps, args);
            },
            None => {},
        }
    } else if n.kind == Kind::TsConditionalType {
        let ghost own = deps@;
        let mut i: usize = 0;
        while i < n.children.len()
            invariant
                i <= n.children@.len(),
                deps.wf(),
                forall|id: (Seq<char>, u32)| #[trigger]
                    deps@.contains(id) <==> own.contains(id) || exists|j: int|
                        0 <= j < i && type_mentions(#[trigger] n@.children[j], id),
            decreases n.children@.len() - i,
        {
            assert(n@.children[i as int] == n.children@[i as int]@);
            let ghost earlier = deps@;
            fill_ts_type(deps, &n.children[i]);
            assert forall|id: (Seq<char>, u32)| #[trigger]
                deps@.contains(id) <==> own.contains(id) || exists|j: int|
                    0 <= j < i + 1 && type_mentions(#[trigger] n@.children[j], id) by {
                assert(deps@.contains(id) <==> earlier.contains(id) || type_mentions(
                    n@.children[i as int],
                    id,
                ));
                if earlier.contains(id) && !own.contains(id) {
                    let j = choose|j: int|
                        0 <= j < i && type_mentions(#[trigger] n@.children[j], id);
                    assert(type_mentions(n@.children[j], id));
                }
            }
            i = i + 1;
        }
    }
}

/// Adds the identifiers on which one of a list of types depends.
fn fill_ts_type_param_instantiation(deps: &mut IdSet, n: &Node)
    requires
        old(deps).wf(),
    ensures
        final(deps).wf(),
        forall|id: (Seq<char>, u32)| #[trigger]
            final(deps)@.contains(id) <==> old(deps)@.contains(id) || types_mention(n@, id),
    decreases n,
{
    let ghost own = deps@;
    let mut i: usize = 0;
    while i < n.children.len()
        invariant
            i <= n.children@.len(),
            deps.wf(),
            forall|id: (Seq<char>, u32)| #[trigger]
                deps@.contains(id) <==> own.contains(id) || exists|j: int|
                    0 <= j < i && type_mentions(#[trigger] n@.children[j], id),
        decreases n.children@.len() - i,
    {
        assert(n@.children[i as int] == n.children@[i as int]@);
        let ghost earlier = deps@;
        fill_ts_type(deps, &n.children[i]);
        assert forall|id: (Seq<char>, u32)| #[trigger]
            deps@.contains(id) <==> own.contains(id) || exists|j: int|
                0 <= j < i + 1 && type_mentions(#[trigger] n@.children[j], id) by {
            assert(deps@.contains(id) <==> earlier.contains(id) || type_mentions(
                n@.children[i as int],
                id,
            ));
            if earlier.contains(id) && !own.contains(id) {
                let j = choose|j: int|
                    0 <= j < i && type_mentions(#[trigger] n@.children[j], id);
                assert(type_mentions(n@.children[j], id));
            }
        }
        i = i + 1;
    }
}

/// Adds the identifiers on which the type with the role depends, if there is one.
fn fill_own_type(deps: &mut IdSet, n: &Node, role: Role)
    requires
        old(deps).wf(),
    ensures
        final(deps).wf(),
        forall|id: (Seq<char>, u32)| #[trigger]
            final(deps)@.contains(id) <==> old(deps)@.contains(id) || own_type_mentions(
                n@,
                role,
                id,
            ),
{
    match n.get(role) {
        Some(t) => fill_ts_type(deps, t),
        None => {},
    }
}

/// Adds the identifiers on which the type annotation with the role depends, if
/// there is one.
fn fill_own_type_ann(deps: &mut IdSet, n: &Node, role: Role)
    requires
        old(deps).wf(),
        own_ann_supported(n@, role),
    ensures
        final(deps).wf(),
        forall|id: (Seq<char>, u32)| #[trigger]
            final(deps)@.contains(id) <==> old(deps)@.contains(id) || own_ann_mentions(
                n@,
                role,
                id,
            ),
{
    match n.get(role) {
        Some(ann) => fill_ts_type(deps, ann.get(Role::Type).unwrap()),
        None => {},
    }
}

/// Adds the identifiers on which the type parameters depend, if there are any.
fn fill_ts_type_param_decl(deps: &mut IdSet, n: &Node)
    requires
        old(deps).wf(),
    ensures
        final(deps).wf(),
        forall|id: (Seq<char>, u32)| #[trigger]
            final(deps)@.contains(id) <==> old(deps)@.contains(id) || type_params_mention(n@, id),
{
    match n.get(Role::TypeParams) {
        Some(params) => {
            let ghost own = deps@;
            let ghost all = child(n@, Role::TypeParams).children;
            let mut i: usize = 0;
            while i < params.children.len()
                invariant
                    i <= params.children@.len(),
                    params@.children == all,
                    deps.wf(),
                    forall|id: (Seq<char>, u32)| #[trigger]
                        deps@.contains(id) <==> own.contains(id) || exists|j: int|
                            0 <= j < i && type_param_mentions(#[trigger] all[j], id),
                decreases params.children@.len() - i,
            {
                assert(all[i as int] == params.children@[i as int]@);
                let ghost earlier = deps@;
                fill_own_type(deps, &params.children[i], Role::Constraint);
                fill_own_type(deps, &params.children[i], Role::Default);
                assert forall|id: (Seq<char>, u32)| #[trigger]
                    deps@.contains(id) <==> own.contains(id) || exists|j: int|
                        0 <= j < i + 1 && type_param_mentions(#[trigger] all[j], id) by {
                    assert(deps@.contains(id) <==> earlier.contains(id) || type_param_mentions(
                        all[i as int],
                        id,
                    ));
                    if earlier.contains(id) && !own.contains(id) {
                        let j = choose|j: int|
                            0 <= j < i && type_param_mentions(#[trigger] all[j], id);
                        assert(type_param_mentions(all[j], id));
                    }
                }
                i = i + 1;
            }
        },
        None => {},
    }
}

/// Adds the identifiers in the type annotation of a pattern, if there is one.
fn fill_ann_names(deps: &mut IdSet, n: &Node)
    requires
        old(deps).wf(),
    ensures
        final(deps).wf(),
        forall|id: (Seq<char>, u32)| #[trigger]
            final(deps)@.contains(id) <==> old(deps)@.contains(id) || ann_names(n@, id),
{
    match n.get(Role::TypeAnn) {
        Some(ann) => fill_expr(deps, ann),
        None => {},
    }
}

/// Adds the identifiers on which a pattern depends.
fn fill_pat(deps: &mut IdSet, n: &Node)
    requires
        old(deps).wf(),
        pattern_supported(n@),
    ensures
        final(deps).wf(),
        forall|id: (Seq<char>, u32)| #[trigger]
            final(deps)@.contains(id) <==> old(deps)@.contains(id) || pattern_mentions(n@, id),
{
    match n.kind {
        Kind::BindingIdent
        | Kind::ArrayPat
        | Kind::RestPat
        | Kind::ObjectPat => fill_own_type_ann(deps, n, Role::TypeAnn),
        Kind::AssignPat => {
            fill_own_type_ann(deps, n, Role::TypeAnn);
            match n.get(Role::Left) {
                Some(left) => fill_ann_names(deps, left),
                None => {},
            }
        },
        Kind::InvalidPat => {},
        _ => fill_expr(deps, n),
    }
}

/// Adds the identifiers on which the parameters of a function or of a constructor
/// depend.
fn fill_params(deps: &mut IdSet, n: &Node)
    requires
        old(deps).wf(),
        params_supported(n@),
    ensures
        final(deps).wf(),
        forall|id: (Seq<char>, u32)| #[trigger]
            final(deps)@.contains(id) <==> old(deps)@.contains(id) || params_mention(n@, id),
{
    let ghost own = deps@;
    let mut i: usize = 0;
    while i < n.children.len()
        invariant
            i <= n.children@.len(),
            params_supported(n@),
            deps.wf(),
            forall|id: (Seq<char>, u32)| #[trigger]
                deps@.contains(id) <==> own.contains(id) || exists|j: int|
                    0 <= j < i && param_mentions(#[trigger] n@.children[j], id),
        decreases n.children@.len() - i,
    {
        assert(n@.children[i as int] == n.children@[i as int]@);
        assert(param_supported(n@.children[i as int]));
        let ghost earlier = deps@;
        if n.children[i].role == Role::Param {
            match n.children[i].get(Role::Pattern) {
                Some(pattern) => fill_pat(deps, pattern),
                None => {},
            }
        }
        assert forall|id: (Seq<char>, u32)| #[trigger]
            deps@.contains(id) <==> own.contains(id) || exists|j: int|
                0 <= j < i + 1 && param_mentions(#[trigger] n@.children[j], id) by {
            assert(deps@.contains(id) <==> earlier.contains(id) || param_mentions(
                n@.children[i as int],
                id,
            ));
            if earlier.contains(id) && !own.contains(id) {
                let j = choose|j: int|
                    0 <= j < i && param_mentions(#[trigger] n@.children[j], id);
                assert(param_mentions(n@.children[j], id));
            }
        }
        i = i + 1;
    }
}

/// Adds the identifiers on which the types of a function depend.
fn fill_function_decl(deps: &mut IdSet, n: &Node)
    requires
        old(deps).wf(),
        function_supported(n@),
    ensures
        final(deps).wf(),
        forall|id: (Seq<char>, u32)| #[trigger]
            final(deps)@.contains(id) <==> old(deps)@.contains(id) || function_mentions(n@, id),
{
    fill_ts_type_param_decl(deps, n);
    fill_params(deps, n);
    fill_own_type_ann(deps, n, Role::ReturnType);
}

/// Adds the identifiers on which a member of a class depends.
fn fill_ts_class_member(deps: &mut IdSet, n: &Node)
    requires
        old(deps).wf(),
        member_supported(n@),
    ensures
        final(deps).wf(),
        forall|id: (Seq<char>, u32)| #[trigger]
            final(deps)@.contains(id) <==> old(deps)@.contains(id) || member_mentions(n@, id),
{
    match n.kind {
        Kind::Constructor => fill_params(deps, n),
        Kind::ClassMethod => match n.get(Role::Function) {
            Some(function) => fill_function_decl(deps, function),
            None => {},
        },
        Kind::ClassProp => fill_own_type_ann(deps, n, Role::TypeAnn),
        _ => {},
    }
}

/// Adds the identifiers on which an interface that a class implements depends.
fn fill_ts_expr_with_type_args(deps: &mut IdSet, n: &Node)
    requires
        old(deps).wf(),
    ensures
        final(deps).wf(),
        forall|id: (Seq<char>, u32)| #[trigger]
            final(deps)@.contains(id) <==> old(deps)@.contains(id) || heritage_mentions(n@, id),
{
    match n.get(Role::TypeArgs) {
        Some(args) => fill_ts_type_param_instantiation(deps, args),
        None => {},
    }
    match n.get(Role::Expr) {
        Some(expr) => fill_expr(deps, expr),
        None => {},
    }
}

/// Adds the identifiers on which a class depends.
fn fill_class(deps: &mut IdSet, n: &Node)
    requires
        old(deps).wf(),
        class_supported(n@),
    ensures
        final(deps).wf(),
        forall|id: (Seq<char>, u32)| #[trigger]
            final(deps)@.contains(id) <==> old(deps)@.contains(id) || class_mentions(n@, id),
{
    fill_ts_type_param_decl(deps, n);
    match n.get(Role::SuperClass) {
        Some(expr) => fill_expr(deps, expr),
        None => {},
    }
    match n.get(Role::SuperTypeArgs) {
        Some(args) => fill_ts_type_param_instantiation(deps, args),
        None => {},
    }
    let ghost own = deps@;
    let mut i: usize = 0;
    while i < n.children.len()
        invariant
            i <= n.children@.len(),
            class_supported(n@),
            deps.wf(),
            forall|id: (Seq<char>, u32)| #[trigger]
                deps@.contains(id) <==> own.contains(id) || exists|j: int|
                    0 <= j < i && class_part_mentions(#[trigger] n@.children[j], id),
        decreases n.children@.len() - i,
    {
        assert(n@.children[i as int] == n.children@[i as int]@);
        assert(class_part_supported(n@.children[i as int]));
        let ghost earlier = deps@;
        if n.children[i].role == Role::Implements {
            fill_ts_expr_with_type_args(deps, &n.children[i]);
        } else if n.children[i].role == Role::Member {
            fill_ts_class_member(deps, &n.children[i]);
        }
        assert forall|id: (Seq<char>, u32)| #[trigger]
            deps@.contains(id) <==> own.contains(id) || exists|j: int|
                0 <= j < i + 1 && class_part_mentions(#[trigger] n@.children[j], id) by {
            assert(deps@.contains(id) <==> earlier.contains(id) || class_part_mentions(
                n@.children[i as int],
                id,
            ));
            if earlier.contains(id) && !own.contains(id) {
                let j = choose|j: int|
                    0 <= j < i && class_part_mentions(#[trigger] n@.children[j], id);
                assert(class_part_mentions(n@.children[j], id));
            }
        }
        i = i + 1;
    }
}

/// What a sequence of identifiers stands for.
pub open spec fn ids_of(s: Seq<Id>) -> Seq<(Seq<char>, u32)> {
    Seq::new(s.len(), |i: int| s[i]@)
}

/// Adds the identifiers that a pattern binds, in order.
pub fn find_pat_ids(n: &Node, ids: &mut Vec<Id>)
    ensures
        ids_of(final(ids)@) == ids_of(old(ids)@) + pat_ids(n@),
    decreases n,
{
    let ghost before = ids_of(ids@);
    if n.kind == Kind::BindingIdent && n.has(Role::Name) {
        ids.push(n.get(Role::Name).unwrap().to_id());
        assert(ids_of(ids@) =~= before + pat_ids(n@));
    } else if n.kind == Kind::AssignPatProp && n.has(Role::Key) {
        ids.push(n.get(Role::Key).unwrap().to_id());
        assert(ids_of(ids@) =~= before + pat_ids(n@));
    } else if n.kind == Kind::KeyValuePatProp && n.has(Role::Value) {
        find_pat_ids(n.get(Role::Value).unwrap(), ids);
    } else if n.kind == Kind::RestPat && n.has(Role::Arg) {
        find_pat_ids(n.get(Role::Arg).unwrap(), ids);
    } else if n.kind == Kind::AssignPat && n.has(Role::Left) {
        find_pat_ids(n.get(Role::Left).unwrap(), ids);
    } else if n.kind == Kind::ArrayPat || n.kind == Kind::ObjectPat {
        let ghost parts = n@.children;
        let mut i: usize = 0;
        assert(ids_of(ids@) =~= before + pat_ids_upto(parts, 0));
        while i < n.children.len()
            invariant
                i <= n.children@.len(),
                parts == n@.children,
                ids_of(ids@) == before + pat_ids_upto(parts, i as nat),
            decreases n.children@.len() - i,
        {
            assert(parts[i as int] == n.children@[i as int]@);
            find_pat_ids(&n.children[i], ids);
            i = i + 1;
            assert(ids_of(ids@) =~= before + pat_ids_upto(parts, i as nat));
        }
    } else {
        assert(ids_of(ids@) =~= before + pat_ids(n@));
    }
}

/// Adds the identifiers that a declaration declares, in order.
pub fn find_decl_ids(n: &Node, ids: &mut Vec<Id>)
    ensures
        ids_of(final(ids)@) == ids_of(old(ids)@) + decl_ids(n@),
{
    let ghost before = ids_of(ids@);
    match n.kind {
        Kind::ClassDecl
        | Kind::FnDecl
        | Kind::TsInterfaceDecl
        | Kind::TsTypeAliasDecl
        | Kind::TsEnumDecl
        | Kind::TsModuleDecl => {
            match n.get(Role::Name) {
                Some(name) => {
                    ids.push(name.to_id());
                },
                None => {},
            }
            assert(ids_of(ids@) =~= before + decl_ids(n@));
        },
        Kind::VarDecl => {
            let ghost parts = n@.children;
            let mut i: usize = 0;
            assert(ids_of(ids@) =~= before + var_ids_upto(parts, 0));
            while i < n.children.len()
                invariant
                    i <= n.children@.len(),
                    parts == n@.children,
                    ids_of(ids@) == before + var_ids_upto(parts, i as nat),
                decreases n.children@.len() - i,
            {
                assert(parts[i as int] == n.children@[i as int]@);
                match n.children[i].get(Role::Name) {
                    Some(pattern) => find_pat_ids(pattern, ids),
                    None => {},
                }
                i = i + 1;
                assert(ids_of(ids@) =~= before + var_ids_upto(parts, i as nat));
            }
        },
        _ => {
            assert(ids_of(ids@) =~= before + decl_ids(n@));
        },
    }
}

/// The block of a namespace with a name of one or more parts.
fn find_innermost(n: &Node) -> (r: &Node)
    ensures
        r@ == innermost(n@),
    decreases n,
{
    if n.kind == Kind::TsNamespaceDecl && n.has(Role::Body) {
        find_innermost(n.get(Role::Body).unwrap())
    } else {
        n
    }
}

/// Adds the identifiers that a namespace exports.
fn fill_ts_module(deps: &mut IdSet, n: &Node)
    requires
        old(deps).wf(),
    ensures
        final(deps).wf(),
        forall|id: (Seq<char>, u32)| #[trigger]
            final(deps)@.contains(id) <==> old(deps)@.contains(id) || namespace_mentions(n@, id),
{
    match n.get(Role::Body) {
        Some(body) => {
            let block: &Node = find_innermost(body);
            let ghost own = deps@;
            let ghost all = innermost(child(n@, Role::Body)).children;
            let mut i: usize = 0;
            while i < block.children.len()
                invariant
                    i <= block.children@.len(),
                    block@.children == all,
                    deps.wf(),
                    forall|id: (Seq<char>, u32)| #[trigger]
                        deps@.contains(id) <==> own.contains(id) || exists|j: int|
                            0 <= j < i && namespace_item_mentions(#[trigger] all[j], id),
                decreases block.children@.len() - i,
            {
                let item: &Node = &block.children[i];
                assert(all[i as int] == item@);
                let ghost earlier = deps@;
                if item.kind == Kind::ExportDecl {
                    match item.get(Role::Decl) {
                        Some(decl) => {
                            let mut ids: Vec<Id> = Vec::new();
                            find_decl_ids(decl, &mut ids);
                            assert(ids_of(ids@) =~= decl_ids(decl@));
                            insert_all(deps, &ids);
                        },
                        None => {},
                    }
                }
                assert forall|id: (Seq<char>, u32)| #[trigger]
                    deps@.contains(id) <==> own.contains(id) || exists|j: int|
                        0 <= j < i + 1 && namespace_item_mentions(#[trigger] all[j], id) by {
                    assert(deps@.contains(id) <==> earlier.contains(id) || namespace_item_mentions(
                        all[i as int],
                        id,
                    ));
                    if earlier.contains(id) && !own.contains(id) {
                        let j = choose|j: int|
                            0 <= j < i && namespace_item_mentions(#[trigger] all[j], id);
                        assert(namespace_item_mentions(all[j], id));
                    }
                }
                i = i + 1;
            }
        },
        None => {},
    }
}

fn insert_all(deps: &mut IdSet, ids: &Vec<Id>)
    requires
        old(deps).wf(),
    ensures
        final(deps).wf(),
        forall|id: (Seq<char>, u32)| #[trigger]
            final(deps)@.contains(id) <==> old(deps)@.contains(id) || ids_of(ids@).contains(id),
{
    let ghost own = deps@;
    let ghost all = ids_of(ids@);
    let mut i: usize = 0;
    while i < ids.len()
        invariant
            i <= ids@.len(),
            all == ids_of(ids@),
            deps.wf(),
            forall|id: (Seq<char>, u32)| #[trigger]
                deps@.contains(id) <==> own.contains(id) || exists|j: int|
                    0 <= j < i && #[trigger] all[j] == id,
        decreases ids@.len() - i,
    {
        let ghost earlier = deps@;
        assert(all[i as int] == ids@[i as int]@);
        deps.insert(ids[i].dup());
        assert forall|id: (Seq<char>, u32)| #[trigger]
            deps@.contains(id) <==> own.contains(id) || exists|j: int|
                0 <= j < i + 1 && #[trigger] all[j] == id by {
            assert(deps@.contains(id) <==> earlier.contains(id) || id == all[i as int]);
            if earlier.contains(id) && !own.contains(id) {
                let j = choose|j: int| 0 <= j < i && #[trigger] all[j] == id;
                assert(all[j] == id);
            }
        }
        i = i + 1;
    }
}

/// Adds the identifiers on which a declaration that has one name depends.
fn fill_decl(deps: &mut IdSet, n: &Node)
    requires
        old(deps).wf(),
        decl_supported(n@),
        has_one_name(n.kind),
    ensures
        final(deps).wf(),
        final(deps)@ == old(deps)@.union(decl_deps(n@)),
{
    let ghost own = deps@;
    match n.kind {
        Kind::ClassDecl => match n.get(Role::Class) {
            Some(class) => fill_class(deps, class),
            None => {},
        },
        Kind::FnDecl => match n.get(Role::Function) {
            Some(function) => fill_function_decl(deps, function),
            None => {},
        },
        Kind::TsTypeAliasDecl => {
            fill_ts_type_param_decl(deps, n);
            fill_own_type(deps, n, Role::Type);
        },
        Kind::TsEnumDecl => {
            let mut i: usize = 0;
            while i < n.children.len()
                invariant
                    i <= n.children@.len(),
                    deps.wf(),
                    forall|id: (Seq<char>, u32)| #[trigger]
                        deps@.contains(id) <==> own.contains(id) || exists|j: int|
                            0 <= j < i && own_expr_mentions(
                                #[trigger] n@.children[j],
                                Role::Init,
                                id,
                            ),
                decreases n.children@.len() - i,
            {
                assert(n@.children[i as int] == n.children@[i as int]@);
                let ghost earlier = deps@;
                match n.children[i].get(Role::Init) {
                    Some(init) => fill_expr(deps, init),
                    None => {},
                }
                assert forall|id: (Seq<char>, u32)| #[trigger]
                    deps@.contains(id) <==> own.contains(id) || exists|j: int|
                        0 <= j < i + 1 && own_expr_mentions(
                            #[trigger] n@.children[j],
                            Role::Init,
                            id,
                        ) by {
                    assert(deps@.contains(id) <==> earlier.contains(id) || own_expr_mentions(
                        n@.children[i as int],
                        Role::Init,
                        id,
                    ));
                    if earlier.contains(id) && !own.contains(id) {
                        let j = choose|j: int|
                            0 <= j < i && own_expr_mentions(
                                #[trigger] n@.children[j],
                                Role::Init,
                                id,
                            );
                        assert(own_expr_mentions(n@.children[j], Role::Init, id));
                    }
                }
                i = i + 1;
            }
        },
        _ => {
            fill_ts_module(deps, n);
        },
    }
    assert(deps@ =~= own.union(decl_deps(n@)));
}

/// Whether every identifier and every export leads to a symbol.
pub open spec fn symbols_wf(m: Symbols) -> bool {
    &&& distinct_keys(m.ids)
    &&& forall|i: int| 0 <= i < m.ids.len() ==> (#[trigger] m.ids[i]).1.0 < m.symbols.len()
    &&& forall|i: int| 0 <= i < m.exports.len() ==> (#[trigger] m.exports[i]).1.0 < m.symbols.len()
}

/// Whether two modules have the same number, the same default export, and the same
/// exports of other modules.
pub open spec fn same_rest(a: ModuleSymbol, b: ModuleSymbol) -> bool {
    &&& a.module_id == b.module_id
    &&& a.default_export_symbol_id == b.default_export_symbol_id
    &&& a.re_exports == b.re_exports
    &&& a.traced_re_exports == b.traced_re_exports
}

/// Whether a module has no default export and no exports of other modules.
pub open spec fn no_rest(m: ModuleSymbol) -> bool {
    &&& m.default_export_symbol_id is None
    &&& m.re_exports@.len() == 0
    &&& m.traced_re_exports@.len() == 0
}

impl ModuleSymbol {
    pub open spec fn view(&self) -> Symbols {
        Symbols {
            exports: self.exports@,
            ids: swc_ids_of(self.swc_ids@),
            symbols: symbols_of(self.symbols@),
        }
    }

    /// Every identifier and every export leads to a symbol.
    pub open spec fn wf(&self) -> bool {
        &&& self.exports.wf()
        &&& self.traced_re_exports.wf()
        &&& self.default_export_symbol_id matches Some(id) ==> id.0 < self.symbols@.len()
        &&& symbols_wf(self@)
        &&& forall|i: int| 0 <= i < self.symbols@.len() ==> (#[trigger] self.symbols@[i]).wf()
    }

    /// A module without symbols.
    pub fn new(module_id: ModuleId) -> (r: ModuleSymbol)
        ensures
            r.wf(),
            r.module_id == module_id,
            no_rest(r),
            r@ == no_symbols(),
    {
        let r = ModuleSymbol {
            module_id,
            exports: TextMap::new(),
            swc_ids: Vec::new(),
            symbols: Vec::new(),
            default_export_symbol_id: None,
            re_exports: Vec::new(),
            traced_re_exports: TextMap::new(),
        };
        assert(r@ =~= no_symbols());
        r
    }

    /// The number of the module.
    pub fn module_id(&self) -> (r: ModuleId)
        ensures
            r == self.module_id,
    {
        self.module_id
    }

    /// Where the symbols of the public API are declared.
    pub fn public_source_ranges(&self) -> (r: Vec<SourceRange>)
        ensures
            r@.no_duplicates(),
            forall|range: SourceRange| #[trigger]
                r@.contains(range) <==> is_public_range(self@, range),
    {
        let ghost m = self@;
        let mut r: Vec<SourceRange> = Vec::new();
        let mut i: usize = 0;
        while i < self.symbols.len()
            invariant
                i <= self.symbols@.len(),
                m == self@,
                r@.no_duplicates(),
                forall|range: SourceRange| #[trigger]
                    r@.contains(range) <==> exists|k: int|
                        0 <= k < i && declares_publicly(#[trigger] m.symbols[k], range),
            decreases self.symbols@.len() - i,
        {
            let symbol: &Symbol = &self.symbols[i];
            assert(m.symbols[i as int] == symbol@);
            let ghost earlier = r@;
            if symbol.is_public {
                let mut j: usize = 0;
                while j < symbol.decls.len()
                    invariant
                        j <= symbol.decls@.len(),
                        r@.no_duplicates(),
                        forall|range: SourceRange| #[trigger]
                            r@.contains(range) <==> earlier.contains(range)
                                || symbol.decls@.take(j as int).contains(range),
                    decreases symbol.decls@.len() - j,
                {
                    let range: SourceRange = symbol.decls[j];
                    let ghost before = r@;
                    insert_range(&mut r, range);
                    assert forall|other: SourceRange| #[trigger]
                        r@.contains(other) <==> earlier.contains(other) || symbol.decls@.take(
                            j + 1,
                        ).contains(other) by {
                        lemma_take_contains(symbol.decls@, j as int, other);
                        assert(before.contains(other) <==> earlier.contains(other)
                            || symbol.decls@.take(j as int).contains(other));
                    }
                    j = j + 1;
                }
                assert(symbol.decls@.take(j as int) =~= symbol.decls@);
            }
            assert forall|range: SourceRange| #[trigger]
                r@.contains(range) <==> exists|k: int|
                    0 <= k < i + 1 && declares_publicly(#[trigger] m.symbols[k], range) by {
                assert(r@.contains(range) <==> earlier.contains(range) || declares_publicly(
                    m.symbols[i as int],
                    range,
                ));
                if earlier.contains(range) {
                    let k = choose|k: int|
                        0 <= k < i && declares_publicly(#[trigger] m.symbols[k], range);
                    assert(declares_publicly(m.symbols[k], range));
                }
            }
            i = i + 1;
        }
        r
    }

    /// The symbols that are exported, in the order of their exports.
    pub fn export_symbols(&self) -> (r: Vec<SymbolId>)
        requires
            self.wf(),
        ensures
            r@ == Seq::new(self@.exports.len(), |i: int| self@.exports[i].1),
    {
        let mut r: Vec<SymbolId> = Vec::new();
        let mut i: usize = 0;
        while i < self.exports.len()
            invariant
                self.wf(),
                i <= self@.exports.len(),
                r@ == Seq::new(i as nat, |k: int| self@.exports[k].1),
            decreases self@.exports.len() - i,
        {
            r.push(*self.exports.value_at(i));
            i = i + 1;
            assert(r@ =~= Seq::new(i as nat, |k: int| self@.exports[k].1));
        }
        assert(r@ =~= Seq::new(self@.exports.len(), |i: int| self@.exports[i].1));
        r
    }

    /// The symbol that is exported under a name.
    pub fn export_symbol_id(&self, name: &str) -> (r: Option<SymbolId>)
        requires
            self.wf(),
        ensures
            r == (if has_key(self@.exports, name@) {
                Some(self@.exports[key_place(self@.exports, name@)].1)
            } else {
                None::<SymbolId>
            }),
    {
        match self.exports.get(name) {
            Some(id) => Some(*id),
            None => None,
        }
    }

    /// The symbol that an identifier stands for.
    pub fn symbol_id_from_swc(&self, id: &Id) -> (r: Option<SymbolId>)
        ensures
            r == (if has_key(self@.ids, id@) {
                Some(symbol_for(self@, id@))
            } else {
                None::<SymbolId>
            }),
    {
        let ghost ids = self@.ids;
        let mut i: usize = 0;
        while i < self.swc_ids.len()
            invariant
                i <= self.swc_ids@.len(),
                ids == self@.ids,
                key_place(ids, id@) == crate::collections::key_place_from(ids, id@, i as int),
            decreases self.swc_ids@.len() - i,
        {
            assert(ids[i as int] == (self.swc_ids@[i as int].id@, self.swc_ids@[i as int].symbol));
            if self.swc_ids[i].id.same(id) {
                return Some(self.swc_ids[i].symbol);
            }
            i = i + 1;
        }
        None
    }

    /// The symbol that has a number.
    pub fn symbol(&self, id: SymbolId) -> (r: Option<&Symbol>)
        ensures
            r is Some <==> id.0 < self@.symbols.len(),
            r matches Some(symbol) ==> *symbol == self.symbols@[id.0 as int] && symbol@
                == self@.symbols[id.0 as int],
    {
        if id.0 < self.symbols.len() {
            Some(&self.symbols[id.0])
        } else {
            None
        }
    }

    /// The symbol that has a number, to be changed.
    pub fn symbol_mut(&mut self, id: SymbolId) -> (r: Option<&mut Symbol>)
        requires
            old(self).wf(),
        ensures
            r is Some <==> id.0 < old(self)@.symbols.len(),
            match r {
                Some(symbol) => {
                    &&& *symbol == old(self).symbols@[id.0 as int]
                    &&& *final(self) == (ModuleSymbol {
                        symbols: final(self).symbols,
                        ..*old(self)
                    })
                    &&& final(symbol).wf() ==> final(self).wf()
                    &&& final(self)@ =~= (Symbols {
                        symbols: old(self)@.symbols.update(id.0 as int, final(symbol)@),
                        ..old(self)@
                    })
                },
                None => *final(self) == *old(self),
            },
    {
        let i: usize = id.0;
        if i < self.symbols.len() {
            Some(&mut self.symbols[i])
        } else {
            None
        }
    }

    /// The symbol for a declaration of an identifier.
    fn ensure_symbol_for_swc_id(&mut self, id: Id, symbol_range: SourceRange) -> (r: SymbolId)
        requires
            old(self).wf(),
        ensures
            final(self).wf(),
            same_rest(*final(self), *old(self)),
            final(self)@ == ensured(old(self)@, id@, symbol_range),
            has_key(final(self)@.ids, id@),
            r == symbol_for(final(self)@, id@),
            r.0 < final(self)@.symbols.len(),
    {
        let ghost before = self@;
        let ghost key = id@;
        proof {
            lemma_key_place(before.ids, key);
        }
        match self.symbol_id_from_swc(&id) {
            Some(symbol_id) => {
                assert(before.ids[key_place(before.ids, key)].1.0 < before.symbols.len());
                let i: usize = symbol_id.0;
                let ghost symbol = self.symbols@[i as int];
                self.symbols[i].decls.push(symbol_range);
                assert(self.symbols@[i as int].wf());
                assert(self@.symbols =~= ensured(before, key, symbol_range).symbols);
                assert(self@ =~= ensured(before, key, symbol_range));
                assert forall|k: int| 0 <= k < self.symbols@.len() implies (
                #[trigger] self.symbols@[k]).wf() by {
                    assert(k != i ==> self.symbols@[k] == old(self).symbols@[k]);
                }
                assert(symbols_wf(self@));
                symbol_id
            },
            None => {
                let symbol_id = SymbolId(self.symbols.len());
                self.swc_ids.push(SwcId { id, symbol: symbol_id });
                let mut decls: Vec<SourceRange> = Vec::new();
                decls.push(symbol_range);
                let symbol = Symbol {
                    is_public: false,
                    decls,
                    deps: IdSet::new(),
                    file_dep: None,
                };
                assert(symbol@ =~= declared_once(symbol_range));
                self.symbols.push(symbol);
                assert(self@.ids =~= before.ids.push((key, symbol_id)));
                assert(self@.symbols =~= before.symbols.push(declared_once(symbol_range)));
                proof {
                    let ids = self@.ids;
                    assert forall|i: int, j: int| 0 <= i < j < ids.len() implies (
                    #[trigger] ids[i]).0 != (#[trigger] ids[j]).0 by {
                        assert(ids[i] == before.ids[i]);
                        if j < before.ids.len() {
                            assert(ids[j] == before.ids[j]);
                        }
                    }
                    lemma_key_place_is(ids, before.ids.len() as int);
                    assert forall|i: int| 0 <= i < ids.len() implies (#[trigger] ids[i]).1.0
                        < self@.symbols.len() by {
                        if i < before.ids.len() {
                            assert(ids[i] == before.ids[i]);
                        }
                    }
                    assert forall|i: int| 0 <= i < self.symbols@.len() implies (
                    #[trigger] self.symbols@[i]).wf() by {
                        if i < before.symbols.len() {
                            assert(self.symbols@[i] == old(self).symbols@[i]);
                        }
                    }
                    assert(distinct_keys(self@.ids));
                    assert forall|i: int| 0 <= i < self@.exports.len() implies (
                    #[trigger] self@.exports[i]).1.0 < self@.symbols.len() by {
                        assert(before.exports[i].1.0 < before.symbols.len());
                    }
                    assert(symbols_wf(self@));
                }
                symbol_id
            },
        }
    }

    /// Declares an identifier that depends on others.
    fn declare(&mut self, id: Id, range: SourceRange, is_export: bool, deps: &IdSet)
        requires
            old(self).wf(),
        ensures
            final(self).wf(),
            same_rest(*final(self), *old(self)),
            final(self)@ == declared(old(self)@, id@, range, is_export, deps@),
    {
        let name: String = id.name.clone();
        let ghost key = id@;
        let symbol_id: SymbolId = self.ensure_symbol_for_swc_id(id, range);
        if is_export {
            let ghost before = self@;
            self.exports.insert(name, symbol_id);
            assert(self@ =~= exported(before, key));
            proof {
                lemma_with_entry_symbols(before.exports, key.0, symbol_id, before.symbols.len());
            }
        }
        let ghost before = self@;
        let i: usize = symbol_id.0;
        add_deps(&mut self.symbols[i], deps);
        assert(self@ =~= with_deps(before, key, deps@));
    }

    /// Notes from where an identifier is imported.
    fn import(&mut self, id: Id, range: SourceRange, name: FileDepName, specifier: String)
        requires
            old(self).wf(),
        ensures
            final(self).wf(),
            same_rest(*final(self), *old(self)),
            final(self)@ == imported(old(self)@, id@, range, dep_name(name), specifier@),
    {
        let ghost key = id@;
        let symbol_id: SymbolId = self.ensure_symbol_for_swc_id(id, range);
        let ghost before = self@;
        let i: usize = symbol_id.0;
        self.symbols[i].file_dep = Some(FileDep { name, specifier });
        assert(self@.symbols =~= with_file_dep(
            before,
            key,
            Dep { name: dep_name(name), specifier: specifier@ },
        ).symbols);
    }
}

proof fn lemma_take_contains<T>(s: Seq<T>, n: int, x: T)
    requires
        0 <= n < s.len(),
    ensures
        s.take(n + 1).contains(x) <==> s.take(n).contains(x) || s[n] == x,
{
    if s.take(n).contains(x) {
        let k = s.take(n).index_of(x);
        assert(s.take(n + 1)[k] == x);
    }
    if s.take(n + 1).contains(x) {
        let k = s.take(n + 1).index_of(x);
        if k < n {
            assert(s.take(n)[k] == x);
        }
    }
    assert(s.take(n + 1)[n] == s[n]);
}

proof fn lemma_with_entry_symbols(
    s: Seq<(Seq<char>, SymbolId)>,
    key: Seq<char>,
    value: SymbolId,
    n: nat,
)
    requires
        value.0 < n,
        forall|i: int| 0 <= i < s.len() ==> (#[trigger] s[i]).1.0 < n,
    ensures
        forall|i: int|
            0 <= i < with_entry(s, key, value).len() ==> (#[trigger] with_entry(
                s,
                key,
                value,
            )[i]).1.0 < n,
{
    lemma_key_place(s, key);
    assert forall|i: int| 0 <= i < with_entry(s, key, value).len() implies (#[trigger] with_entry(
        s,
        key,
        value,
    )[i]).1.0 < n by {
        if i < s.len() {
            assert(s[i].1.0 < n);
        }
    }
}

/// Adds identifiers on which a symbol depends.
fn add_deps(symbol: &mut Symbol, deps: &IdSet)
    requires
        old(symbol).wf(),
    ensures
        final(symbol).wf(),
        final(symbol)@ == (SymbolData { deps: old(symbol)@.deps.union(deps@), ..old(symbol)@ }),
{
    let ghost own = symbol.deps@;
    insert_all(&mut symbol.deps, &deps.ids);
    proof {
        let all = ids_of(deps.ids@);
        assert forall|id: (Seq<char>, u32)| #[trigger] symbol.deps@.contains(id) <==> own.union(
            deps@,
        ).contains(id) by {
            if all.contains(id) {
                let k = all.index_of(id);
                assert(deps.ids@[k]@ == id);
            }
            if deps@.contains(id) {
                let k = choose|k: int|
                    0 <= k < deps.ids@.len() && (#[trigger] deps.ids@[k])@ == id;
                assert(all[k] == id);
            }
        }
        assert(symbol.deps@ =~= own.union(deps@));
    }
}

/// Whether a symbol of the public API is declared at a place.
pub open spec fn declares_publicly(symbol: SymbolData, range: SourceRange) -> bool {
    symbol.is_public && symbol.decls.contains(range)
}

/// Whether a symbol of the public API of a module is declared at a place.
pub open spec fn is_public_range(m: Symbols, range: SourceRange) -> bool {
    exists|k: int| 0 <= k < m.symbols.len() && declares_publicly(#[trigger] m.symbols[k], range)
}

/// Adds a range, unless it is there already.
fn insert_range(r: &mut Vec<SourceRange>, range: SourceRange)
    requires
        old(r)@.no_duplicates(),
    ensures
        final(r)@.no_duplicates(),
        forall|other: SourceRange| #[trigger]
            final(r)@.contains(other) <==> old(r)@.contains(other) || other == range,
{
    let ghost before = r@;
    let mut i: usize = 0;
    while i < r.len()
        invariant
            i <= r@.len(),
            r@ == before,
            before.no_duplicates(),
            forall|j: int| 0 <= j < i ==> r@[j] != range,
        decreases r@.len() - i,
    {
        if r[i] == range {
            assert(before[i as int] == range);
            return ;
        }
        i = i + 1;
    }
    r.push(range);
    assert forall|other: SourceRange| #[trigger]
        r@.contains(other) <==> before.contains(other) || other == range by {
        if before.contains(other) {
            assert(r@[before.index_of(other)] == other);
        }
        assert(r@[before.len() as int] == range);
        if r@.contains(other) && other != range {
            assert(before[r@.index_of(other)] == other);
        }
    }
}

/// Declares what a declaration declares.
fn fill_decl_symbols(module: &mut ModuleSymbol, decl: &Node, range: SourceRange, is_export: bool)
    requires
        old(module).wf(),
        decl_supported(decl@),
    ensures
        final(module).wf(),
        same_rest(*final(module), *old(module)),
        final(module)@ == decl_declared(old(module)@, decl@, range, is_export),
{
    match decl.kind {
        Kind::ClassDecl
        | Kind::FnDecl
        | Kind::TsInterfaceDecl
        | Kind::TsTypeAliasDecl
        | Kind::TsEnumDecl
        | Kind::TsModuleDecl => {
            match decl.get(Role::Name) {
                Some(name) => {
                    let mut deps: IdSet = IdSet::new();
                    fill_decl(&mut deps, decl);
                    assert(deps@ =~= decl_deps(decl@));
                    module.declare(name.to_id(), range, is_export, &deps);
                },
                None => {},
            }
        },
        Kind::VarDecl => {
            let ghost before = module@;
            let ghost parts = decl@.children;
            let mut i: usize = 0;
            while i < decl.children.len()
                invariant
                    i <= decl.children@.len(),
                    parts == decl@.children,
                    module.wf(),
                    same_rest(*module, *old(module)),
                    module@ == declarators_declared(before, parts, i as nat, is_export),
                decreases decl.children@.len() - i,
            {
                let declarator: &Node = &decl.children[i];
                assert(parts[i as int] == declarator@);
                match declarator.get(Role::Name) {
                    Some(pattern) => {
                        let mut ids: Vec<Id> = Vec::new();
                        find_pat_ids(pattern, &mut ids);
                        assert(ids_of(ids@) =~= pat_ids(pattern@));
                        let mut deps: IdSet = IdSet::new();
                        fill_ann_names(&mut deps, pattern);
                        match declarator.get(Role::Init) {
                            Some(init) => fill_expr(&mut deps, init),
                            None => {},
                        }
                        assert(deps@ =~= declarator_deps(declarator@));
                        let ghost earlier = module@;
                        let ghost all = ids_of(ids@);
                        let mut j: usize = 0;
                        while j < ids.len()
                            invariant
                                j <= ids@.len(),
                                all == ids_of(ids@),
                                module.wf(),
                                same_rest(*module, *old(module)),
                                module@ == ids_declared(
                                    earlier,
                                    all,
                                    j as nat,
                                    range_of(declarator@),
                                    is_export,
                                    deps@,
                                ),
                            decreases ids@.len() - j,
                        {
                            assert(all[j as int] == ids@[j as int]@);
                            module.declare(ids[j].dup(), declarator.range(), is_export, &deps);
                            j = j + 1;
                        }
                    },
                    None => {},
                }
                i = i + 1;
            }
        },
        _ => {},
    }
}

/// Declares what a part of an import declares.
fn fill_import_part(module: &mut ModuleSymbol, n: &Node, specifier: &str)
    requires
        old(module).wf(),
    ensures
        final(module).wf(),
        same_rest(*final(module), *old(module)),
        final(module)@ == import_part_declared(old(module)@, n@, specifier@),
{
    match n.get(Role::Local) {
        Some(local) => {
            match n.kind {
                Kind::ImportNamed => match n.get(Role::Imported) {
                    Some(name) => {
                        let mut deps: IdSet = IdSet::new();
                        deps.insert(name.to_id());
                        module.declare(local.to_id(), n.range(), false, &deps);
                        module.import(
                            name.to_id(),
                            name.range(),
                            FileDepName::Name(name.text.clone()),
                            specifier.to_owned(),
                        );
                    },
                    None => {
                        module.import(
                            local.to_id(),
                            n.range(),
                            FileDepName::Name(local.text.clone()),
                            specifier.to_owned(),
                        );
                    },
                },
                Kind::ImportDefault => {
                    module.import(
                        local.to_id(),
                        n.range(),
                        FileDepName::Name("default".to_owned()),
                        specifier.to_owned(),
                    );
                },
                Kind::ImportNamespace => {
                    module.import(
                        local.to_id(),
                        n.range(),
                        FileDepName::All,
                        specifier.to_owned(),
                    );
                },
                _ => {},
            }
        },
        None => {},
    }
}

/// Declares what the items of a module declare and import.
pub fn fill_module(file_module: &mut ModuleSymbol, module: &Node)
    requires
        old(file_module).wf(),
        module_supported(module@),
    ensures
        final(file_module).wf(),
        same_rest(*final(file_module), *old(file_module)),
        final(file_module)@ == items_declared(
            old(file_module)@,
            module@.children,
            module@.children.len(),
        ),
{
    let ghost before = file_module@;
    let ghost items = module@.children;
    let mut i: usize = 0;
    while i < module.children.len()
        invariant
            i <= module.children@.len(),
            items == module@.children,
            module_supported(module@),
            file_module.wf(),
            same_rest(*file_module, *old(file_module)),
            file_module@ == items_declared(before, items, i as nat),
        decreases module.children@.len() - i,
    {
        let item: &Node = &module.children[i];
        assert(items[i as int] == item@);
        assert(item_supported(items[i as int]));
        let ghost earlier = file_module@;
        match item.kind {
            Kind::ImportDecl => match item.get(Role::Source) {
                Some(source) => {
                    let mut j: usize = 0;
                    let ghost parts = item@.children;
                    while j < item.children.len()
                        invariant
                            j <= item.children@.len(),
                            parts == item@.children,
                            file_module.wf(),
                            same_rest(*file_module, *old(file_module)),
                            file_module@ == import_declared(
                                earlier,
                                parts,
                                j as nat,
                                source@.text,
                            ),
                        decreases item.children@.len() - j,
                    {
                        assert(parts[j as int] == item.children@[j as int]@);
                        fill_import_part(file_module, &item.children[j], source.text.as_str());
                        j = j + 1;
                    }
                },
                None => {},
            },
            Kind::ExportDecl => match item.get(Role::Decl) {
                Some(decl) => fill_decl_symbols(file_module, decl, item.range(), true),
                None => {},
            },
            _ => fill_decl_symbols(file_module, item, item.range(), false),
        }
        i = i + 1;
    }
}

/// A module that was parsed.
#[derive(Debug)]
pub struct ParsedSource {
    pub specifier: ModuleSpecifier,
    pub module: Node,
}

/// The modules that were analyzed, in their order.
pub struct ModuleAnalyzer {
    pub modules: TextMap<ModuleSymbol>,
}

/// Whether each module has its place for a number.
pub open spec fn numbered(s: Seq<(Seq<char>, ModuleSymbol)>) -> bool {
    forall|i: int| 0 <= i < s.len() ==> (#[trigger] s[i]).1.module_id.0 == i
}

impl ModuleAnalyzer {
    /// Each module has its place for a number.
    pub open spec fn wf(&self) -> bool {
        &&& self.modules.wf()
        &&& numbered(self.modules@)
        &&& forall|i: int| 0 <= i < self.modules@.len() ==> (#[trigger] self.modules@[i]).1.wf()
    }

    pub fn new() -> (r: ModuleAnalyzer)
        ensures
            r.wf(),
            r.modules@ == Seq::<(Seq<char>, ModuleSymbol)>::empty(),
    {
        ModuleAnalyzer { modules: TextMap::new() }
    }

    /// The symbols of a module, if it was analyzed.
    pub fn get(&self, specifier: &ModuleSpecifier) -> (r: Option<&ModuleSymbol>)
        requires
            self.wf(),
        ensures
            r is Some <==> has_key(self.modules@, specifier@),
            r matches Some(module) ==> *module == self.modules@[key_place(
                self.modules@,
                specifier@,
            )].1 && module.wf(),
    {
        proof {
            lemma_key_place(self.modules@, specifier@);
            if has_key(self.modules@, specifier@) {
                assert(self.modules@[key_place(self.modules@, specifier@)].1.wf());
            }
        }
        self.modules.get(specifier.text.as_str())
    }

    /// The symbols of a module, to be changed. A module that was not analyzed is
    /// analyzed now and gets the next number.
    pub fn get_or_analyze(&mut self, source: &ParsedSource) -> (r: &mut ModuleSymbol)
        requires
            old(self).wf(),
            !has_key(old(self).modules@, source.specifier@) ==> module_supported(source.module@),
        ensures
            r.wf(),
            r.module_id.0 == key_place(old(self).modules@, source.specifier@),
            has_key(old(self).modules@, source.specifier@) ==> *r == old(self).modules@[key_place(
                old(self).modules@,
                source.specifier@,
            )].1,
            !has_key(old(self).modules@, source.specifier@) ==> no_rest(*r) && r@
                == module_symbols(source.module@),
            final(self).modules@ == with_entry(
                old(self).modules@,
                source.specifier@,
                *final(r),
            ),
            final(r).wf() && final(r).module_id == r.module_id ==> final(self).wf(),
    {
        let ghost before = self.modules@;
        proof {
            lemma_key_place(before, source.specifier@);
        }
        let i: usize = match self.modules.place(source.specifier.text.as_str()) {
            Some(i) => i,
            None => {
                let i: usize = self.modules.len();
                let mut module_symbol = ModuleSymbol::new(ModuleId(i));
                fill_module(&mut module_symbol, &source.module);
                self.modules.insert(source.specifier.text.clone(), module_symbol);
                assert(self.modules@ == before.push((source.specifier@, module_symbol)));
                i
            },
        };
        assert(self.modules@[i as int].1.wf());
        let ghost now = self.modules@;
        proof {
            assert forall|m: ModuleSymbol| !has_key(before, source.specifier@) implies now.update(
                i as int,
                (source.specifier@, m),
            ) =~= before.push((source.specifier@, m)) by {}
            assert(now[i as int].0 == source.specifier@);
        }
        self.modules.value_at_mut(i)
    }
}

/// Modules are numbered in the order in which they are analyzed: one that is analyzed
/// now gets the next number, and whatever is done to its symbols afterwards, every module
/// keeps its number.
pub proof fn law_modules_are_numbered_in_order(
    before: Seq<(Seq<char>, ModuleSymbol)>,
    specifier: Seq<char>,
    module: ModuleSymbol,
    other: Seq<char>,
)
    requires
        numbered(before),
        module.module_id.0 == key_place(before, specifier),
    ensures
        numbered(with_entry(before, specifier, module)),
        has_key(before, other) ==> {
            let after = with_entry(before, specifier, module);
            &&& has_key(after, other)
            &&& after[key_place(after, other)].1.module_id == before[key_place(
                before,
                other,
            )].1.module_id
        },
        !has_key(before, specifier) && has_key(before, other) ==> before[key_place(
            before,
            other,
        )].1.module_id.0 < module.module_id.0,
{
    let after = with_entry(before, specifier, module);
    lemma_key_place(before, specifier);
    lemma_key_place(before, other);
    lemma_key_place(after, other);
    if has_key(before, other) {
        let p = key_place(before, other);
        let q = key_place(after, other);
        assert(after[p].0 == other);
        assert(q <= p);
        assert(before[q].0 == after[q].0);
        assert(q == p);
        assert(before[p].1.module_id.0 == p);
    }
}

}
