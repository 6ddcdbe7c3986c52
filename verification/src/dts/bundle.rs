//! What a bundle of declarations is: every declaration of the public API, and
//! whatever it refers to, at the top level of one file.

use vstd::prelude::*;

use super::analyzer::{Followed, Target, UniqueSymbolId};
use super::idents::{
    all_renamed, assigned_name, ident_target, idents, idents_mapped, namespace_of, Mapped,
    Renaming,
};
use super::names::{key_of, own_name, top_level_name, with_top_level_name, Names};
use super::namespaces::namespace_tree;
use super::output::{
    created, decl_item, emitted_of, item_added, with_emitted, without_items, Emitted, Namespace,
    Out,
};
use super::root_symbol::{
    has_definition, is_symbol, module_symbol, symbol_at, ModuleInfo, Symbol, SymbolDecl,
};
use super::transform::{import_equals_tree, literal_type, qualified_tree, visited, Env, Mode};
use super::transformer::fresh;
use crate::collections::with_entry;
use crate::helpers::{
    binding_tree, const_tree, export_named_tree, export_specifier_tree, keyword_tree, made,
    name_tree, type_ann_tree,
};
use crate::syntax::{at, child, has_part, plain, Flags, Kind, Role, Span, Tree};

verus! {

/// What is to be said of a declaration.
#[derive(Debug, Clone, Copy, PartialEq, Eq, Structural)]
pub enum DiagnosticKind {
    MissingReturnType,
    UnsupportedTsNamespace,
}

/// Something to be said of a declaration: the module, and where it starts there.
#[derive(Debug, Clone, Copy, PartialEq, Eq, Structural)]
pub struct Note {
    pub kind: DiagnosticKind,
    pub module_id: usize,
    pub pos: u32,
}

/// The state of a bundle.
#[verifier::ext_equal]
pub struct Bundle {
    pub out: Out,
    pub names: Names,
    /// The symbols that are still to be emitted, with the names under which they
    /// are exported.
    pub pending: Seq<(Option<Seq<char>>, UniqueSymbolId)>,
    /// The symbols that were ever to be emitted.
    pub analyzed: Set<(usize, usize)>,
    pub emitted: Set<(usize, usize)>,
    /// The exports that are listed behind the declarations.
    pub queued: Seq<(Seq<char>, Seq<char>)>,
    /// The modules that others refer to as a whole.
    pub to_namespace: Seq<(usize, ())>,
    pub notes: Seq<Note>,
    pub unsupported: bool,
}

/// What the transformation of a declaration goes by.
pub open spec fn bundle_env(module: ModuleInfo) -> Env {
    Env {
        ranges: None,
        comments: module.comments.leading@,
        in_namespace: false,
        sources: Seq::empty(),
    }
}

/// Whether a declaration holds syntax that only stands in modules.
pub open spec fn has_module_syntax(t: Tree) -> bool
    decreases t,
{
    ||| t.kind == Kind::Module || t.kind == Kind::TsModuleBlock || t.kind == Kind::ExportNamed
        || t.kind == Kind::ExportDefaultExpr
    ||| exists|i: int| 0 <= i < t.children.len() && has_module_syntax(#[trigger] t.children[i])
}

/// Whether a declaration declares one variable by its name.
pub open spec fn is_single_var(t: Tree) -> bool {
    &&& t.children.len() == 1
    &&& has_part(t.children[0], Role::Name)
    &&& child(t.children[0], Role::Name).kind == Kind::BindingIdent
}

/// Places where functions lack a return type, as notes.
pub open spec fn missing_notes(module_id: usize, s: Seq<u32>) -> Seq<Note> {
    Seq::new(
        s.len(),
        |i: int| Note { kind: DiagnosticKind::MissingReturnType, module_id, pos: s[i] },
    )
}

/// What is known while the declarations of one symbol are emitted.
pub struct Emission {
    pub id: UniqueSymbolId,
    /// The name at the top level.
    pub name: Seq<char>,
    /// The name under which the symbol is exported.
    pub export_name: Option<Seq<char>>,
}

/// A state, with the symbols of the identifiers that were met.
#[verifier::ext_equal]
pub struct Emitting {
    pub b: Bundle,
    pub m: Mapped,
}

/// The state after something that cannot be dealt with.
pub open spec fn given_up(s: Emitting) -> Emitting {
    Emitting { b: Bundle { unsupported: true, ..s.b }, ..s }
}

/// The state after a declaration was added to the output.
pub open spec fn decl_added(
    modules: Seq<ModuleInfo>,
    e: Emission,
    s: Emitting,
    decl: Tree,
    span: Span,
) -> Emitting {
    let module = modules[e.id.module_id as int];
    let v = visited(decl, Mode::Plain, bundle_env(module), fresh());
    let tree = v.trees[0];
    if decl.kind == Kind::VarDecl && !is_single_var(decl) {
        given_up(s)
    } else {
        Emitting {
            b: Bundle {
                out: item_added(
                    s.b.out,
                    e.id.module_id,
                    module,
                    decl_item(tree, e.name, span, e.export_name == Some(e.name)),
                ),
                notes: s.b.notes + missing_notes(e.id.module_id, v.st.missing_types),
                unsupported: s.b.unsupported || v.st.unsupported || has_module_syntax(tree),
                ..s.b
            },
            m: idents_mapped(
                s.m,
                symbol_at(modules, e.id),
                idents(tree),
                idents(tree).len(),
            ),
        }
    }
}

/// The state after a symbol was met: it is to be emitted, unless it ever was.
pub open spec fn met(b: Bundle, id: UniqueSymbolId) -> Bundle {
    if b.analyzed.contains(key_of(id)) {
        b
    } else {
        Bundle {
            analyzed: b.analyzed.insert(key_of(id)),
            pending: b.pending.push((None, id)),
            ..b
        }
    }
}

/// The state after the first `n` exports of a module were put into its namespace.
pub open spec fn exports_met(
    modules: Seq<ModuleInfo>,
    module_id: usize,
    n: nat,
    b: Bundle,
) -> Bundle
    decreases n,
{
    if n == 0 {
        b
    } else {
        let before = exports_met(modules, module_id, (n - 1) as nat, b);
        let export = modules[module_id as int].exports@[n - 1];
        match export.definition {
            Some(id) => {
                let after = met(before, id);
                let e = emitted_of(after.out.infos, module_id);
                let namespace = e.namespace.unwrap();
                Bundle {
                    out: Out {
                        infos: with_emitted(
                            after.out.infos,
                            module_id,
                            Emitted {
                                namespace: Some(
                                    Namespace {
                                        exports: namespace.exports.push((export.name@, id)),
                                        ..namespace
                                    },
                                ),
                                ..e
                            },
                        ),
                        ..after.out
                    },
                    to_namespace: if id.module_id != module_id {
                        with_entry(after.to_namespace, id.module_id, ())
                    } else {
                        after.to_namespace
                    },
                    ..after
                }
            },
            None => before,
        }
    }
}

/// The modules with a namespace for one of them, unless it has one.
pub open spec fn with_namespace(
    infos: Seq<(usize, Emitted)>,
    module_id: usize,
    name: Seq<char>,
) -> Seq<(usize, Emitted)> {
    let after = created(infos, module_id);
    let e = emitted_of(after, module_id);
    if e.namespace is Some {
        after
    } else {
        with_emitted(
            after,
            module_id,
            Emitted { namespace: Some(Namespace { name, exports: Seq::empty() }), ..e },
        )
    }
}

/// The state after a module was emitted as a namespace.
pub open spec fn module_emitted(modules: Seq<ModuleInfo>, e: Emission, b: Bundle) -> Bundle {
    let id = e.id.module_id;
    let infos = with_namespace(b.out.infos, id, e.name);
    let after = Bundle { out: Out { infos, ..b.out }, ..b };
    if emitted_of(infos, id).namespace.unwrap().exports.len() == 0 {
        exports_met(modules, id, modules[id as int].exports@.len(), after)
    } else {
        after
    }
}

/// A class or function declaration for what is exported by default.
pub open spec fn default_decl(kind: Kind, name: Seq<char>, role: Role, part: Tree) -> Tree {
    Tree {
        flags: Flags { declare: true, ..plain() },
        ..made(kind, seq![at(Role::Name, name_tree(name)), at(role, part)])
    }
}

/// The declaration of a constant for a literal that is exported by default.
pub open spec fn default_const(name: Seq<char>, literal: Kind) -> Tree {
    let decl = const_tree(
        binding_tree(
            name_tree(name),
            match literal_type(literal) {
                Some(keyword) => Some(type_ann_tree(keyword_tree(keyword))),
                None => None,
            },
        ),
        None,
    );
    Tree { flags: Flags { declare: true, ..decl.flags }, ..decl }
}

/// Whether a node is a literal.
pub open spec fn is_literal(kind: Kind) -> bool {
    kind == Kind::Str || kind == Kind::Bool || kind == Kind::Null || kind == Kind::Num || kind
        == Kind::BigInt || kind == Kind::Regex || kind == Kind::JsxText
}

/// Whether a declaration is emitted as it is.
pub open spec fn is_plain_decl(kind: Kind) -> bool {
    kind == Kind::ClassDecl || kind == Kind::FnDecl || kind == Kind::TsEnumDecl || kind
        == Kind::TsInterfaceDecl || kind == Kind::TsTypeAliasDecl
}

/// The state after an exported declaration.
pub open spec fn export_emitted(
    modules: Seq<ModuleInfo>,
    e: Emission,
    s: Emitting,
    t: Tree,
) -> Emitting {
    let decl = child(t, Role::Decl);
    if !has_part(t, Role::Decl) {
        given_up(s)
    } else if is_plain_decl(decl.kind) || decl.kind == Kind::VarDecl {
        decl_added(modules, e, s, decl, t.span)
    } else if decl.kind == Kind::TsModuleDecl {
        Emitting {
            b: Bundle {
                notes: s.b.notes.push(
                    Note {
                        kind: DiagnosticKind::UnsupportedTsNamespace,
                        module_id: e.id.module_id,
                        pos: decl.span.lo,
                    },
                ),
                ..s.b
            },
            ..s
        }
    } else {
        given_up(s)
    }
}

/// The state after a declaration that is exported by default.
pub open spec fn default_emitted(
    modules: Seq<ModuleInfo>,
    e: Emission,
    s: Emitting,
    t: Tree,
) -> Emitting {
    let decl = child(t, Role::Decl);
    if !has_part(t, Role::Decl) {
        given_up(s)
    } else if decl.kind == Kind::ClassExpr && has_part(decl, Role::Class) {
        decl_added(
            modules,
            e,
            s,
            default_decl(Kind::ClassDecl, e.name, Role::Class, child(decl, Role::Class)),
            t.span,
        )
    } else if decl.kind == Kind::FnExpr && has_part(decl, Role::Function) {
        decl_added(
            modules,
            e,
            s,
            default_decl(Kind::FnDecl, e.name, Role::Function, child(decl, Role::Function)),
            t.span,
        )
    } else if decl.kind == Kind::TsInterfaceDecl {
        decl_added(modules, e, s, decl, t.span)
    } else {
        given_up(s)
    }
}

/// A declaration of variables with only one of them.
pub open spec fn with_declarator(t: Tree, i: int) -> Tree {
    Tree { children: seq![t.children[i]], ..t }
}

/// The state after a declaration of a symbol.
pub open spec fn decl_emitted(
    modules: Seq<ModuleInfo>,
    e: Emission,
    s: Emitting,
    decl: SymbolDecl,
) -> Emitting {
    if decl.has_overloads {
        s
    } else if !decl.is_definition || decl.node is None {
        given_up(s)
    } else {
        let node = decl.node.unwrap();
        let t = node.tree@;
        if t.kind == Kind::Module {
            Emitting { b: module_emitted(modules, e, s.b), ..s }
        } else if t.kind == Kind::ExportDecl {
            export_emitted(modules, e, s, t)
        } else if t.kind == Kind::ExportDefaultDecl {
            default_emitted(modules, e, s, t)
        } else if t.kind == Kind::ExportDefaultExpr {
            if has_part(t, Role::Expr) && is_literal(child(t, Role::Expr).kind) {
                decl_added(
                    modules,
                    e,
                    s,
                    default_const(e.name, child(t, Role::Expr).kind),
                    t.span,
                )
            } else {
                given_up(s)
            }
        } else if is_plain_decl(t.kind) {
            decl_added(modules, e, s, t, t.span)
        } else if t.kind == Kind::VarDecl && node.declarator is Some
            && node.declarator.unwrap() < t.children.len() {
            decl_added(
                modules,
                e,
                s,
                with_declarator(t, node.declarator.unwrap() as int),
                t.span,
            )
        } else {
            given_up(s)
        }
    }
}

/// The state after the first `n` declarations of a symbol.
pub open spec fn decls_emitted(
    modules: Seq<ModuleInfo>,
    e: Emission,
    s: Emitting,
    n: nat,
) -> Emitting
    decreases n,
{
    if n == 0 {
        s
    } else {
        decl_emitted(
            modules,
            e,
            decls_emitted(modules, e, s, (n - 1) as nat),
            symbol_at(modules, e.id).decls@[n - 1],
        )
    }
}

/// The state after the symbols of the first `n` identifiers were met, and noted for
/// the module.
pub open spec fn mapping_met(
    b: Bundle,
    module_id: usize,
    mapping: Seq<((Seq<char>, u32), UniqueSymbolId)>,
    n: nat,
) -> Bundle
    decreases n,
{
    if n == 0 {
        b
    } else {
        let before = mapping_met(b, module_id, mapping, (n - 1) as nat);
        let after = met(before, mapping[n - 1].1);
        let infos = created(after.out.infos, module_id);
        let e = emitted_of(infos, module_id);
        Bundle {
            out: Out {
                infos: with_emitted(
                    infos,
                    module_id,
                    Emitted {
                        mapping: with_entry(e.mapping, mapping[n - 1].0, mapping[n - 1].1),
                        ..e
                    },
                ),
                ..after.out
            },
            ..after
        }
    }
}

/// The state after a symbol was emitted, unless it was before.
pub open spec fn symbol_emitted(modules: Seq<ModuleInfo>, e: Emission, b: Bundle) -> Bundle {
    if b.emitted.contains(key_of(e.id)) {
        b
    } else {
        let s = Emitting {
            b: Bundle {
                emitted: b.emitted.insert(key_of(e.id)),
                unsupported: b.unsupported || !modules[e.id.module_id as int].is_esm,
                ..b
            },
            m: Mapped { mapping: Seq::empty(), unsupported: false },
        };
        let after = decls_emitted(modules, e, s, symbol_at(modules, e.id).decls@.len());
        mapping_met(
            Bundle { unsupported: after.b.unsupported || after.m.unsupported, ..after.b },
            e.id.module_id,
            after.m.mapping,
            after.m.mapping.len(),
        )
    }
}

/// The state after an export under a name other than the one at the top level, or of
/// a symbol that was declared before, when this export was not known.
pub open spec fn export_queued(b: Bundle, e: Emission, again: bool) -> Bundle {
    match e.export_name {
        Some(export_name) => if export_name != e.name || again {
            Bundle { queued: b.queued.push((e.name, export_name)), ..b }
        } else {
            b
        },
        None => b,
    }
}

/// The state after the next symbol.
pub open spec fn stepped(modules: Seq<ModuleInfo>, b: Bundle) -> Bundle {
    if b.pending.len() == 0 {
        b
    } else {
        let (export_name, id) = b.pending[0];
        let symbol = symbol_at(modules, id);
        let rest = Bundle { pending: b.pending.skip(1), ..b };
        if !has_definition(symbol) {
            Bundle { unsupported: true, ..rest }
        } else {
            let own = own_name(symbol, id.module_id);
            let e = Emission { id, name: top_level_name(b.names, id, own), export_name };
            let named = Bundle { names: with_top_level_name(b.names, id, own), ..rest };
            export_queued(
                symbol_emitted(modules, e, named),
                e,
                b.emitted.contains(key_of(id)),
            )
        }
    }
}

/// The state after `n` symbols.
pub open spec fn after(modules: Seq<ModuleInfo>, b: Bundle, n: nat) -> Bundle
    decreases n,
{
    if n == 0 {
        b
    } else {
        stepped(modules, after(modules, b, (n - 1) as nat))
    }
}

/// The state after the first `n` modules that others refer to as a whole became
/// namespaces.
pub open spec fn namespaces_made(modules: Seq<ModuleInfo>, b: Bundle, n: nat) -> Bundle
    decreases n,
{
    if n == 0 {
        b
    } else {
        let before = namespaces_made(modules, b, (n - 1) as nat);
        let module_id = b.to_namespace[n - 1].0;
        let id = module_symbol(modules, module_id);
        let own = own_name(symbol_at(modules, id), module_id);
        Bundle {
            names: with_top_level_name(before.names, id, own),
            out: Out {
                infos: with_namespace(
                    before.out.infos,
                    module_id,
                    top_level_name(before.names, id, own),
                ),
                ..before.out
            },
            ..before
        }
    }
}

/// The specifiers by which a namespace exports those of the first `n` symbols that
/// are declared in it.
pub open spec fn own_specifiers(
    names: Names,
    module_id: usize,
    exports: Seq<(Seq<char>, UniqueSymbolId)>,
    n: nat,
) -> Seq<Tree>
    decreases n,
{
    if n == 0 {
        Seq::empty()
    } else {
        let before = own_specifiers(names, module_id, exports, (n - 1) as nat);
        let (export_name, id) = exports[n - 1];
        if id.module_id == module_id {
            let name = assigned_name(names.assigned, id);
            before.push(
                at(
                    Role::Specifier,
                    export_specifier_tree(
                        name,
                        if name == export_name {
                            None
                        } else {
                            Some(export_name)
                        },
                    ),
                ),
            )
        } else {
            before
        }
    }
}

/// The imports by which a namespace exports those of the first `n` symbols that are
/// declared in others.
pub open spec fn other_exports(
    names: Names,
    infos: Seq<(usize, Emitted)>,
    module_id: usize,
    exports: Seq<(Seq<char>, UniqueSymbolId)>,
    n: nat,
) -> Seq<Tree>
    decreases n,
{
    if n == 0 {
        Seq::empty()
    } else {
        let before = other_exports(names, infos, module_id, exports, (n - 1) as nat);
        let (export_name, id) = exports[n - 1];
        if id.module_id == module_id {
            before
        } else {
            before.push(
                at(
                    Role::Item,
                    import_equals_tree(
                        name_tree(export_name),
                        qualified_tree(
                            namespace_of(infos, id.module_id).unwrap(),
                            assigned_name(names.assigned, id),
                        ),
                        true,
                    ),
                ),
            )
        }
    }
}

/// What the declarations of a module are renamed by.
pub open spec fn renaming_of(names: Names, infos: Seq<(usize, Emitted)>, e: Emitted) -> Renaming {
    Renaming {
        mapping: e.mapping,
        in_namespace: e.namespace is Some,
        assigned: names.assigned,
        infos,
    }
}

/// The items of a module in the bundle.
pub open spec fn module_items(
    names: Names,
    infos: Seq<(usize, Emitted)>,
    module_id: usize,
    e: Emitted,
) -> Seq<Tree> {
    let items = all_renamed(e.items, renaming_of(names, infos, e));
    match e.namespace {
        Some(namespace) => {
            let exports = namespace.exports;
            let others = items + other_exports(names, infos, module_id, exports, exports.len());
            let own = own_specifiers(names, module_id, exports, exports.len());
            seq![
                at(
                    Role::Item,
                    namespace_tree(
                        namespace.name,
                        if own.len() > 0 {
                            others.push(at(Role::Item, export_named_tree(own)))
                        } else {
                            others
                        },
                    ),
                ),
            ]
        },
        None => items,
    }
}

/// The items of the first `n` modules in the bundle.
pub open spec fn items_upto(names: Names, infos: Seq<(usize, Emitted)>, n: nat) -> Seq<Tree>
    decreases n,
{
    if n == 0 {
        Seq::empty()
    } else {
        items_upto(names, infos, (n - 1) as nat) + module_items(
            names,
            infos,
            infos[n - 1].0,
            infos[n - 1].1,
        )
    }
}

/// The specifier of an export that is listed.
pub open spec fn queued_specifier(queued: (Seq<char>, Seq<char>)) -> Tree {
    at(
        Role::Specifier,
        export_specifier_tree(
            queued.0,
            if queued.0 == queued.1 {
                None
            } else {
                Some(queued.1)
            },
        ),
    )
}

/// The specifiers of exports that are listed.
pub open spec fn queued_specifiers(queued: Seq<(Seq<char>, Seq<char>)>) -> Seq<Tree> {
    Seq::new(queued.len(), |i: int| queued_specifier(queued[i]))
}

/// The items of the bundle.
pub open spec fn bundle_items(b: Bundle) -> Seq<Tree> {
    let items = items_upto(b.names, b.out.infos, b.out.infos.len());
    if b.queued.len() > 0 {
        items.push(at(Role::Item, export_named_tree(queued_specifiers(b.queued))))
    } else {
        items
    }
}

/// The bundle, once no symbol is still to be emitted.
pub open spec fn finished(modules: Seq<ModuleInfo>, b: Bundle) -> Bundle {
    namespaces_made(modules, b, b.to_namespace.len())
}

/// The bundle after its items were taken out, and its listed exports with them.
pub open spec fn emptied(b: Bundle) -> Bundle {
    Bundle {
        out: Out { infos: without_items(b.out.infos), ..b.out },
        queued: Seq::empty(),
        ..b
    }
}

/// Whether every symbol that a module refers to is there, and each module can be
/// named.
pub open spec fn modules_wf(modules: Seq<ModuleInfo>) -> bool {
    &&& forall|m: int|
        0 <= m < modules.len() ==> (#[trigger] modules[m]).module_symbol
            < modules[m].symbols@.len() && has_definition(
            modules[m].symbols@[modules[m].module_symbol as int],
        )
    &&& forall|m: int, i: int|
        #![trigger modules[m].exports@[i]]
        0 <= m < modules.len() && 0 <= i < modules[m].exports@.len() ==> match modules[m].exports@[i].definition {
            Some(id) => is_symbol(modules, id),
            None => true,
        }
    &&& forall|m: int, k: int, id: (Seq<char>, u32)|
        #![trigger ident_target(modules[m].symbols@[k], id)]
        0 <= m < modules.len() && 0 <= k < modules[m].symbols@.len() ==> match ident_target(
            modules[m].symbols@[k],
            id,
        ) {
            Followed::Found(target) => match target {
                Target::Symbol(to) => is_symbol(modules, to),
                Target::Remote { .. } => true,
            },
            _ => true,
        }
}

}
