//! Finds out what a module imports and exports.

use vstd::prelude::*;

use super::data::{
    code_name, data_of, lemma_mentioned, lemma_with_data, mentioned, with_data, Data, Export, ExportName,
    ModuleData, ModuleDataCollection, ModuleId, Passed, PassedOn, ReExport, ReExportName,
};
use super::transform::{
    emitted, has_await, has_await_keyword, parts_of, ReplaceIds, Replaced, Transformer,
};
use crate::collections::{has_key, key_place};
use crate::dts::binder::{find_decl_ids, ids_of, var_ids_upto};
use crate::specifier::ModuleSpecifier;
use crate::syntax::{child, has_part, id_of, Id, Kind, Node, Role, Tree};
use crate::text::{lemma_texts_push, same_text, texts};

verus! {

/// A module that a module names, and what the name resolves to.
#[derive(Debug)]
pub struct Dependency {
    pub text: String,
    pub specifier: ModuleSpecifier,
}

/// An ECMAScript module.
#[derive(Debug)]
pub struct EsmModule {
    pub specifier: ModuleSpecifier,
    pub dependencies: Vec<Dependency>,
    pub module: Node,
}

/// What each name of a module resolves to, in order.
pub open spec fn dependencies_of(s: Seq<Dependency>) -> Seq<(Seq<char>, Seq<char>)> {
    Seq::new(s.len(), |i: int| (s[i].text@, s[i].specifier@))
}

/// Whether a name resolves to a module.
pub open spec fn resolves(deps: Seq<(Seq<char>, Seq<char>)>, text: Seq<char>) -> bool {
    has_key(deps, text)
}

/// The module that a name resolves to.
pub open spec fn resolved(deps: Seq<(Seq<char>, Seq<char>)>, text: Seq<char>) -> Seq<char> {
    deps[key_place(deps, text)].1
}

/// The module that a name resolves to, if there is one.
pub fn find_dependency<'a>(dependencies: &'a Vec<Dependency>, text: &str) -> (r: Option<
    &'a ModuleSpecifier,
>)
    ensures
        r is Some <==> resolves(dependencies_of(dependencies@), text@),
        r matches Some(specifier) ==> specifier@ == resolved(
            dependencies_of(dependencies@),
            text@,
        ) && exists|i: int| 0 <= i < dependencies@.len() && dependencies@[i].specifier == specifier,
{
    let ghost deps = dependencies_of(dependencies@);
    let mut i: usize = 0;
    while i < dependencies.len()
        invariant
            i <= dependencies@.len(),
            deps == dependencies_of(dependencies@),
            key_place(deps, text@) == crate::collections::key_place_from(deps, text@, i as int),
        decreases dependencies@.len() - i,
    {
        assert(deps[i as int].0 == dependencies@[i as int].text@);
        if same_text(dependencies[i].text.as_str(), text) {
            return Some(&dependencies[i].specifier);
        }
        i = i + 1;
    }
    None
}

impl EsmModule {
    /// The module that a name resolves to, if there is one.
    pub fn resolve_dependency(&self, text: &str) -> (r: Option<&ModuleSpecifier>)
        ensures
            r is Some <==> resolves(dependencies_of(self.dependencies@), text@),
            r matches Some(specifier) ==> specifier@ == resolved(
                dependencies_of(self.dependencies@),
                text@,
            ),
    {
        find_dependency(&self.dependencies, text)
    }
}

/// The name of the module that an import or export names.
pub open spec fn source_text(t: Tree) -> Seq<char> {
    child(t, Role::Source).text
}

/// Whether a module names, in an import or export, a module that it resolves.
pub open spec fn source_resolves(t: Tree, deps: Seq<(Seq<char>, Seq<char>)>) -> bool {
    has_part(t, Role::Source) && resolves(deps, source_text(t))
}

/// Whether the node that has the role, if there is one, is an identifier.
pub open spec fn ident_if_any(t: Tree, role: Role) -> bool {
    has_part(t, role) ==> child(t, role).kind == Kind::Ident
}

/// Whether the node that has the role is an identifier.
pub open spec fn ident_at(t: Tree, role: Role) -> bool {
    has_part(t, role) && child(t, role).kind == Kind::Ident
}

/// What an imported identifier stands for, where the imported module has the
/// number.
pub open spec fn import_replaced(t: Tree, id: int) -> Option<Replaced> {
    let local = child(t, Role::Local);
    if t.kind == Kind::ImportDefault {
        Some(Replaced { id: id_of(local), parts: seq![code_name(id), "default"@] })
    } else if t.kind == Kind::ImportNamespace {
        Some(Replaced { id: id_of(local), parts: seq![code_name(id)] })
    } else if t.kind == Kind::ImportNamed && !t.flags.type_only {
        let name = if has_part(t, Role::Imported) {
            child(t, Role::Imported).text
        } else {
            local.text
        };
        Some(Replaced { id: id_of(local), parts: seq![code_name(id), name] })
    } else {
        None
    }
}

/// What the identifiers of the first `n` parts of an import stand for.
pub open spec fn import_ids_upto(s: Seq<Tree>, n: nat, id: int) -> Seq<Replaced>
    decreases n,
{
    if n == 0 {
        Seq::empty()
    } else {
        match import_replaced(s[n - 1], id) {
            Some(replaced) => import_ids_upto(s, (n - 1) as nat, id).push(replaced),
            None => import_ids_upto(s, (n - 1) as nat, id),
        }
    }
}

/// Whether a part of an import can be dealt with: what is imported has an
/// identifier for a name.
pub open spec fn import_part_supported(t: Tree) -> bool {
    if t.kind == Kind::ImportDefault || t.kind == Kind::ImportNamespace {
        has_part(t, Role::Local)
    } else if t.kind == Kind::ImportNamed && !t.flags.type_only {
        has_part(t, Role::Local) && ident_if_any(t, Role::Imported)
    } else {
        true
    }
}

/// Whether an item is an import that is there when the program runs.
pub open spec fn is_value_import(t: Tree) -> bool {
    t.kind == Kind::ImportDecl && !t.flags.type_only
}

/// What the imports of a module bring: the modules that are mentioned, and the
/// identifiers that are replaced.
pub struct Imports {
    pub modules: Seq<(Seq<char>, Data)>,
    pub ids: Seq<Replaced>,
}

/// What the imports among the first `n` items bring.
pub open spec fn imports_upto(
    items: Seq<Tree>,
    n: nat,
    deps: Seq<(Seq<char>, Seq<char>)>,
    modules: Seq<(Seq<char>, Data)>,
) -> Imports
    decreases n,
{
    if n == 0 {
        Imports { modules, ids: Seq::empty() }
    } else {
        let before = imports_upto(items, (n - 1) as nat, deps, modules);
        let t = items[n - 1];
        if is_value_import(t) {
            let dep = resolved(deps, source_text(t));
            let after = mentioned(before.modules, dep);
            Imports {
                modules: after,
                ids: before.ids + import_ids_upto(
                    t.children,
                    t.children.len(),
                    key_place(after, dep),
                ),
            }
        } else {
            before
        }
    }
}

/// Whether an item is a statement.
pub open spec fn is_stmt(kind: Kind) -> bool {
    !(kind == Kind::ImportDecl || kind == Kind::ExportDecl || kind == Kind::ExportNamed || kind
        == Kind::ExportDefaultDecl || kind == Kind::ExportDefaultExpr || kind == Kind::ExportAll
        || kind == Kind::TsImportEquals || kind == Kind::TsExportAssignment || kind
        == Kind::TsNamespaceExport)
}

/// Whether an item awaits something at the top level of its module.
pub open spec fn awaits(t: Tree) -> bool {
    t.kind != Kind::ImportDecl && has_await(t)
}

/// Whether a module awaits something at its top level.
pub open spec fn top_level_await(items: Seq<Tree>) -> bool {
    exists|i: int| 0 <= i < items.len() && awaits(#[trigger] items[i])
}

/// The first `n` parts of a path with dots between them.
pub open spec fn joined_upto(parts: Seq<Seq<char>>, n: nat) -> Seq<char>
    decreases n,
{
    if n == 0 {
        Seq::empty()
    } else if n == 1 {
        parts[0]
    } else {
        joined_upto(parts, (n - 1) as nat) + "."@ + parts[n - 1]
    }
}

/// What an identifier is called where a module's statements stand: the path with
/// dots if it is replaced, else its name.
pub open spec fn local_text(t: Tree, ids: Seq<Replaced>) -> Seq<char> {
    match parts_of(ids, id_of(t)) {
        Some(parts) => joined_upto(parts, parts.len()),
        None => t.text,
    }
}

/// An export that is called the same inside and outside.
pub open spec fn same_name(name: Seq<char>, in_place: bool) -> Export {
    Export { local: name, exported: None, in_place }
}

/// A default export.
pub open spec fn as_default(local: Seq<char>, in_place: bool) -> Export {
    Export { local, exported: Some("default"@), in_place }
}

/// The exports of identifiers that are declared.
pub open spec fn ids_exported(ids: Seq<(Seq<char>, u32)>, in_place: bool) -> Seq<Export> {
    Seq::new(ids.len(), |i: int| same_name(ids[i].0, in_place))
}

/// Whether a property of an object pattern can be dealt with.
pub open spec fn pattern_prop_supported(t: Tree) -> bool {
    if t.kind == Kind::KeyValuePatProp {
        has_part(t, Role::Key) && child(t, Role::Key).kind != Kind::Str
    } else if t.kind == Kind::AssignPatProp {
        has_part(t, Role::Key)
    } else if t.kind == Kind::RestPat {
        has_part(t, Role::Arg) && child(t, Role::Arg).kind == Kind::BindingIdent && has_part(
            child(t, Role::Arg),
            Role::Name,
        )
    } else {
        true
    }
}

/// Whether a pattern can be dealt with.
pub open spec fn pattern_supported(t: Tree) -> bool {
    ||| t.kind == Kind::BindingIdent && has_part(t, Role::Name)
    ||| t.kind == Kind::ObjectPat && forall|i: int|
        0 <= i < t.children.len() ==> pattern_prop_supported(#[trigger] t.children[i])
}

/// Whether a declaration of code declares the one name that it has.
pub open spec fn declares_name(decl: Tree) -> bool {
    &&& has_part(decl, Role::Name)
    &&& decl.kind == Kind::ClassDecl || decl.kind == Kind::FnDecl || decl.kind == Kind::TsEnumDecl
        || (decl.kind == Kind::TsModuleDecl && child(decl, Role::Name).kind == Kind::Ident)
}

/// The exports of a declaration: of its name, or of every variable that it binds.
pub open spec fn decl_exports(decl: Tree, in_place: bool) -> Seq<Export> {
    if decl.flags.declare {
        Seq::empty()
    } else if declares_name(decl) {
        seq![same_name(child(decl, Role::Name).text, in_place)]
    } else if decl.kind == Kind::VarDecl {
        ids_exported(var_ids_upto(decl.children, decl.children.len()), in_place)
    } else {
        Seq::empty()
    }
}

/// Whether a declaration that is exported can be dealt with.
pub open spec fn decl_supported(decl: Tree) -> bool {
    if decl.flags.declare {
        true
    } else if decl.kind == Kind::ClassDecl || decl.kind == Kind::FnDecl || decl.kind
        == Kind::TsEnumDecl || decl.kind == Kind::TsModuleDecl {
        has_part(decl, Role::Name)
    } else if decl.kind == Kind::VarDecl {
        forall|i: int|
            0 <= i < decl.children.len() ==> has_part(#[trigger] decl.children[i], Role::Name)
                && pattern_supported(child(decl.children[i], Role::Name))
    } else {
        true
    }
}

/// The export of a name that is listed: `export { a as b };` In the root it stays,
/// unless the name is an import.
pub open spec fn listed_export(t: Tree, ids: Seq<Replaced>, is_root: bool) -> Export {
    let orig = child(t, Role::Orig);
    let local = local_text(orig, ids);
    Export {
        local,
        exported: if has_part(t, Role::Exported) {
            Some(child(t, Role::Exported).text)
        } else if orig.text != local {
            Some(orig.text)
        } else {
            None
        },
        in_place: is_root && parts_of(ids, id_of(orig)) is None,
    }
}

/// The exports of those of the first `n` parts of a list that are more than types.
pub open spec fn listed_upto(
    s: Seq<Tree>,
    n: nat,
    ids: Seq<Replaced>,
    is_root: bool,
) -> Seq<Export>
    decreases n,
{
    if n == 0 {
        Seq::empty()
    } else if s[n - 1].kind == Kind::ExportNamedSpecifier && !s[n - 1].flags.type_only {
        listed_upto(s, (n - 1) as nat, ids, is_root).push(listed_export(s[n - 1], ids, is_root))
    } else {
        listed_upto(s, (n - 1) as nat, ids, is_root)
    }
}

/// Whether a part of a list of exports can be dealt with.
pub open spec fn listed_supported(t: Tree) -> bool {
    t.kind == Kind::ExportNamedSpecifier && ident_at(t, Role::Orig) && ident_if_any(
        t,
        Role::Exported,
    )
}

/// What an item exports of what the module itself declares or imports. What the root
/// declares it exports where it stands.
pub open spec fn item_exports(t: Tree, ids: Seq<Replaced>, is_root: bool) -> Seq<Export> {
    if t.kind == Kind::ExportDefaultDecl {
        let decl = child(t, Role::Decl);
        if !has_part(t, Role::Decl) || decl.kind == Kind::TsInterfaceDecl {
            Seq::empty()
        } else if has_part(decl, Role::Name) {
            seq![as_default(local_text(child(decl, Role::Name), ids), is_root)]
        } else {
            seq![as_default("__pack_default__"@, is_root)]
        }
    } else if t.kind == Kind::ExportDefaultExpr {
        seq![as_default("__pack_default__"@, is_root)]
    } else if t.kind == Kind::ExportDecl {
        if has_part(t, Role::Decl) {
            decl_exports(child(t, Role::Decl), is_root)
        } else {
            Seq::empty()
        }
    } else if t.kind == Kind::ExportNamed && !t.flags.type_only && !has_part(t, Role::Source) {
        listed_upto(t.children, t.children.len(), ids, is_root)
    } else {
        Seq::empty()
    }
}

/// What a part of `export { .. } from ".."` exports.
pub open spec fn passed_part(t: Tree) -> Option<Passed> {
    if t.kind == Kind::ExportNamedSpecifier && !t.flags.type_only {
        Some(
            Passed::Named(
                Export {
                    local: child(t, Role::Orig).text,
                    exported: if has_part(t, Role::Exported) {
                        Some(child(t, Role::Exported).text)
                    } else {
                        None
                    },
                    in_place: false,
                },
            ),
        )
    } else if t.kind == Kind::ExportNamespaceSpecifier {
        Some(Passed::Namespace(child(t, Role::Name).text))
    } else {
        None
    }
}

/// Whether a part of `export { .. } from ".."` can be dealt with.
pub open spec fn passed_part_supported(t: Tree) -> bool {
    if t.kind == Kind::ExportNamedSpecifier && !t.flags.type_only {
        ident_at(t, Role::Orig) && ident_if_any(t, Role::Exported)
    } else if t.kind == Kind::ExportNamespaceSpecifier {
        ident_at(t, Role::Name)
    } else {
        t.kind != Kind::ExportDefaultSpecifier
    }
}

/// What the first `n` parts of `export { .. } from ".."` export.
pub open spec fn passed_upto(s: Seq<Tree>, n: nat, dep: Seq<char>, id: int) -> Seq<PassedOn>
    decreases n,
{
    if n == 0 {
        Seq::empty()
    } else {
        match passed_part(s[n - 1]) {
            Some(name) => passed_upto(s, (n - 1) as nat, dep, id).push(
                PassedOn { name, specifier: dep, module_id: id as usize },
            ),
            None => passed_upto(s, (n - 1) as nat, dep, id),
        }
    }
}

/// Whether an item exports something of another module.
pub open spec fn is_from_other(t: Tree) -> bool {
    !t.flags.type_only && (t.kind == Kind::ExportAll || (t.kind == Kind::ExportNamed && has_part(
        t,
        Role::Source,
    )))
}

/// What an item exports of another module, which has the number.
pub open spec fn item_re_exports(t: Tree, dep: Seq<char>, id: int) -> Seq<PassedOn> {
    if t.kind == Kind::ExportAll {
        seq![PassedOn { name: Passed::All, specifier: dep, module_id: id as usize }]
    } else {
        passed_upto(t.children, t.children.len(), dep, id)
    }
}

/// Whether an item of a module can be dealt with.
pub open spec fn item_supported(
    t: Tree,
    deps: Seq<(Seq<char>, Seq<char>)>,
    is_root: bool,
) -> bool {
    if is_value_import(t) {
        source_resolves(t, deps) && forall|i: int|
            0 <= i < t.children.len() ==> import_part_supported(#[trigger] t.children[i])
    } else if t.kind == Kind::ExportDefaultDecl || t.kind == Kind::ExportDecl {
        is_root || (has_part(t, Role::Decl) && (t.kind == Kind::ExportDecl ==> decl_supported(
            child(t, Role::Decl),
        )))
    } else if t.kind == Kind::ExportNamed && !t.flags.type_only {
        if has_part(t, Role::Source) {
            source_resolves(t, deps) && forall|i: int|
                0 <= i < t.children.len() ==> passed_part_supported(#[trigger] t.children[i])
        } else {
            forall|i: int|
                0 <= i < t.children.len() ==> listed_supported(#[trigger] t.children[i])
        }
    } else if t.kind == Kind::ExportAll && !t.flags.type_only {
        source_resolves(t, deps)
    } else {
        true
    }
}

/// Whether every item of a module can be dealt with.
pub open spec fn module_supported(
    items: Seq<Tree>,
    deps: Seq<(Seq<char>, Seq<char>)>,
    is_root: bool,
) -> bool {
    forall|i: int| 0 <= i < items.len() ==> item_supported(#[trigger] items[i], deps, is_root)
}

/// The modules after the exports of an item of one of them were added to it.
pub open spec fn item_added(
    t: Tree,
    specifier: Seq<char>,
    deps: Seq<(Seq<char>, Seq<char>)>,
    ids: Seq<Replaced>,
    is_root: bool,
    modules: Seq<(Seq<char>, Data)>,
) -> Seq<(Seq<char>, Data)> {
    let dep = resolved(deps, source_text(t));
    let after = if is_from_other(t) {
        mentioned(modules, dep)
    } else {
        modules
    };
    let data = data_of(after, specifier);
    with_data(
        after,
        specifier,
        Data {
            exports: data.exports + item_exports(t, ids, is_root),
            re_exports: if is_from_other(t) {
                data.re_exports + item_re_exports(t, dep, key_place(after, dep))
            } else {
                data.re_exports
            },
            ..data
        },
    )
}

/// The modules after the exports of the first `n` items of one of them were
/// added to it.
pub open spec fn items_added(
    items: Seq<Tree>,
    n: nat,
    specifier: Seq<char>,
    deps: Seq<(Seq<char>, Seq<char>)>,
    ids: Seq<Replaced>,
    is_root: bool,
    modules: Seq<(Seq<char>, Data)>,
) -> Seq<(Seq<char>, Data)>
    decreases n,
{
    if n == 0 {
        modules
    } else {
        item_added(
            items[n - 1],
            specifier,
            deps,
            ids,
            is_root,
            items_added(items, (n - 1) as nat, specifier, deps, ids, is_root, modules),
        )
    }
}

/// The modules after one of them was analyzed: those that it imports and exports
/// from are mentioned, and its exports and its emitted syntax are known.
pub open spec fn analyzed(
    modules: Seq<(Seq<char>, Data)>,
    specifier: Seq<char>,
    deps: Seq<(Seq<char>, Seq<char>)>,
    module: Tree,
    is_root: bool,
) -> Seq<(Seq<char>, Data)> {
    let items = module.children;
    let imports = imports_upto(items, items.len(), deps, modules);
    let known = mentioned(imports.modules, specifier);
    let awaited = with_data(
        known,
        specifier,
        Data { has_tla: top_level_await(items), ..data_of(known, specifier) },
    );
    let added = items_added(
        items,
        items.len(),
        specifier,
        deps,
        imports.ids,
        is_root,
        awaited,
    );
    with_data(
        added,
        specifier,
        Data { module: Some(emitted(module, imports.ids, is_root)), ..data_of(added, specifier) },
    )
}

/// Adds what the identifiers of an import stand for.
fn add_import_ids(import: &Node, id: ModuleId, ids: &mut ReplaceIds)
    requires
        old(ids).wf(),
        forall|i: int|
            0 <= i < import@.children.len() ==> import_part_supported(
                #[trigger] import@.children[i],
            ),
    ensures
        final(ids).wf(),
        final(ids)@ == old(ids)@ + import_ids_upto(
            import@.children,
            import@.children.len(),
            id.0 as int,
        ),
{
    let ghost before = ids@;
    let ghost parts = import@.children;
    let mut i: usize = 0;
    assert(ids@ =~= before + import_ids_upto(parts, 0, id.0 as int));
    while i < import.children.len()
        invariant
            i <= import.children@.len(),
            parts == import@.children,
            ids.wf(),
            forall|i: int|
                0 <= i < parts.len() ==> import_part_supported(#[trigger] parts[i]),
            ids@ == before + import_ids_upto(parts, i as nat, id.0 as int),
        decreases import.children@.len() - i,
    {
        broadcast use lemma_texts_push;

        let n: &Node = &import.children[i];
        assert(parts[i as int] == n@);
        assert(import_part_supported(parts[i as int]));
        if n.kind == Kind::ImportDefault || n.kind == Kind::ImportNamespace || (n.kind
            == Kind::ImportNamed && !n.flags.type_only) {
            let local: &Node = n.get(Role::Local).unwrap();
            let mut path: Vec<String> = Vec::new();
            path.push(id.to_code_string());
            if n.kind == Kind::ImportDefault {
                path.push("default".to_owned());
                assert(texts(path@) =~= seq![code_name(id.0 as int), "default"@]);
            } else if n.kind == Kind::ImportNamed {
                let name: String = match n.get(Role::Imported) {
                    Some(imported) => imported.text.clone(),
                    None => local.text.clone(),
                };
                path.push(name);
                assert(texts(path@) =~= seq![code_name(id.0 as int), name@]);
            } else {
                assert(texts(path@) =~= seq![code_name(id.0 as int)]);
            }
            ids.insert(local.to_id(), path);
        }
        i = i + 1;
        assert(ids@ =~= before + import_ids_upto(parts, i as nat, id.0 as int));
    }
}

/// The parts of a path with dots between them.
fn joined(parts: &Vec<String>) -> (r: String)
    requires
        parts@.len() > 0,
    ensures
        r@ == joined_upto(texts(parts@), parts@.len()),
{
    let mut r: String = parts[0].clone();
    let mut i: usize = 1;
    while i < parts.len()
        invariant
            1 <= i <= parts@.len(),
            r@ == joined_upto(texts(parts@), i as nat),
        decreases parts@.len() - i,
    {
        r.append(".");
        r.append(parts[i].as_str());
        i = i + 1;
    }
    r
}

/// What an identifier is called where a module's statements stand.
fn local_name(ident: &Node, ids: &ReplaceIds) -> (r: String)
    requires
        ids.wf(),
    ensures
        r@ == local_text(ident@, ids@),
{
    match ids.get(&ident.to_id()) {
        Some(parts) => joined(parts),
        None => ident.text.clone(),
    }
}

/// Adds an export that is called the same inside and outside.
fn add_name(name: String, in_place: bool, data: &mut ModuleData)
    ensures
        final(data).id == old(data).id,
        final(data)@ == (Data {
            exports: old(data)@.exports.push(same_name(name@, in_place)),
            ..old(data)@
        }),
{
    if in_place {
        data.add_export(ExportName { local_name: name, export_name: None, in_place });
    } else {
        data.add_export_name(name);
    }
}

/// Adds the exports of a declaration.
fn add_decl(decl: &Node, in_place: bool, data: &mut ModuleData)
    ensures
        final(data).id == old(data).id,
        final(data)@ == (Data {
            exports: old(data)@.exports + decl_exports(decl@, in_place),
            ..old(data)@
        }),
{
    let ghost before = data@;
    let ghost id = data.id;
    if decl.flags.declare {
        assert(data@.exports =~= before.exports + decl_exports(decl@, in_place));
        return ;
    }
    if decl.kind == Kind::ClassDecl || decl.kind == Kind::FnDecl || decl.kind == Kind::TsEnumDecl
        || decl.kind == Kind::TsModuleDecl {
        match decl.get(Role::Name) {
            Some(name) => {
                // a namespace is exported as the first identifier of its name
                if decl.kind != Kind::TsModuleDecl || name.kind == Kind::Ident {
                    add_name(name.text.clone(), in_place, data);
                }
            },
            None => {},
        }
        assert(data@.exports =~= before.exports + decl_exports(decl@, in_place));
        return ;
    }
    if decl.kind != Kind::VarDecl {
        assert(data@.exports =~= before.exports + decl_exports(decl@, in_place));
        return ;
    }
    let mut ids: Vec<Id> = Vec::new();
    find_decl_ids(decl, &mut ids);
    let ghost all = var_ids_upto(decl@.children, decl@.children.len());
    assert(ids_of(ids@) =~= all);
    let mut i: usize = 0;
    assert(data@.exports =~= before.exports + ids_exported(all, in_place).take(0));
    while i < ids.len()
        invariant
            i <= ids@.len(),
            ids_of(ids@) == all,
            data.id == id,
            data@ == (Data {
                exports: before.exports + ids_exported(all, in_place).take(i as int),
                ..before
            }),
        decreases ids@.len() - i,
    {
        assert(all[i as int] == ids@[i as int]@);
        add_name(ids[i].name.clone(), in_place, data);
        i = i + 1;
        assert(data@.exports =~= before.exports + ids_exported(all, in_place).take(i as int));
    }
    assert(ids_exported(all, in_place).take(i as int) =~= ids_exported(all, in_place));
}

/// Adds the exports that are listed.
fn add_listed(export: &Node, ids: &ReplaceIds, is_root: bool, data: &mut ModuleData)
    requires
        ids.wf(),
        forall|i: int|
            0 <= i < export@.children.len() ==> listed_supported(#[trigger] export@.children[i]),
    ensures
        final(data).id == old(data).id,
        final(data)@ == (Data {
            exports: old(data)@.exports + listed_upto(
                export@.children,
                export@.children.len(),
                ids@,
                is_root,
            ),
            ..old(data)@
        }),
{
    let ghost before = data@;
    let ghost id = data.id;
    let ghost parts = export@.children;
    let mut i: usize = 0;
    assert(data@.exports =~= before.exports + listed_upto(parts, 0, ids@, is_root));
    while i < export.children.len()
        invariant
            i <= export.children@.len(),
            parts == export@.children,
            ids.wf(),
            data.id == id,
            forall|i: int| 0 <= i < parts.len() ==> listed_supported(#[trigger] parts[i]),
            data@ == (Data {
                exports: before.exports + listed_upto(parts, i as nat, ids@, is_root),
                ..before
            }),
        decreases export.children@.len() - i,
    {
        let n: &Node = &export.children[i];
        assert(parts[i as int] == n@);
        assert(listed_supported(parts[i as int]));
        if !n.flags.type_only {
            let orig: &Node = n.get(Role::Orig).unwrap();
            let local: String = local_name(orig, ids);
            let export_name: Option<String> = match n.get(Role::Exported) {
                Some(exported) => Some(exported.text.clone()),
                None => if orig.reads(local.as_str()) {
                    None
                } else {
                    Some(orig.text.clone())
                },
            };
            let in_place: bool = is_root && ids.get(&orig.to_id()).is_none();
            data.add_export(ExportName { local_name: local, export_name, in_place });
        }
        i = i + 1;
        assert(data@.exports =~= before.exports + listed_upto(parts, i as nat, ids@, is_root));
    }
}

/// Adds what an item exports of what the module itself declares or imports.
fn add_item_exports(item: &Node, ids: &ReplaceIds, is_root: bool, data: &mut ModuleData)
    requires
        ids.wf(),
        item@.kind == Kind::ExportNamed && !item@.flags.type_only && !has_part(item@, Role::Source)
            ==> forall|i: int|
            0 <= i < item@.children.len() ==> listed_supported(#[trigger] item@.children[i]),
    ensures
        final(data).id == old(data).id,
        final(data)@ == (Data {
            exports: old(data)@.exports + item_exports(item@, ids@, is_root),
            ..old(data)@
        }),
{
    let ghost before = data@;
    if item.kind == Kind::ExportDefaultDecl {
        match item.get(Role::Decl) {
            Some(decl) => {
                if decl.kind != Kind::TsInterfaceDecl {
                    let local: String = match decl.get(Role::Name) {
                        Some(name) => local_name(name, ids),
                        None => "__pack_default__".to_owned(),
                    };
                    data.add_export(
                        ExportName {
                            local_name: local,
                            export_name: Some("default".to_owned()),
                            in_place: is_root,
                        },
                    );
                }
            },
            None => {},
        }
    } else if item.kind == Kind::ExportDefaultExpr {
        data.add_export(
            ExportName {
                local_name: "__pack_default__".to_owned(),
                export_name: Some("default".to_owned()),
                in_place: is_root,
            },
        );
    } else if item.kind == Kind::ExportDecl {
        match item.get(Role::Decl) {
            Some(decl) => {
                add_decl(decl, is_root, data);
            },
            None => {},
        }
    } else if item.kind == Kind::ExportNamed && !item.flags.type_only && !item.has(Role::Source) {
        add_listed(item, ids, is_root, data);
    }
    assert(data@.exports =~= before.exports + item_exports(item@, ids@, is_root));
}

/// Adds what an item exports of another module.
fn add_item_re_exports(
    item: &Node,
    dep_specifier: &ModuleSpecifier,
    dep_id: ModuleId,
    data: &mut ModuleData,
)
    requires
        item@.kind == Kind::ExportNamed ==> forall|i: int|
            0 <= i < item@.children.len() ==> passed_part_supported(#[trigger] item@.children[i]),
        item@.kind == Kind::ExportNamed || item@.kind == Kind::ExportAll,
    ensures
        final(data).id == old(data).id,
        final(data)@ == (Data {
            re_exports: old(data)@.re_exports + item_re_exports(
                item@,
                dep_specifier@,
                dep_id.0 as int,
            ),
            ..old(data)@
        }),
{
    let ghost before = data@;
    let ghost id = data.id;
    if item.kind == Kind::ExportAll {
        data.add_re_export(
            ReExport {
                name: ReExportName::All,
                specifier: dep_specifier.dup(),
                module_id: dep_id,
            },
        );
        assert(data@.re_exports =~= before.re_exports + item_re_exports(
            item@,
            dep_specifier@,
            dep_id.0 as int,
        ));
        return ;
    }
    let ghost parts = item@.children;
    let mut i: usize = 0;
    assert(data@.re_exports =~= before.re_exports + passed_upto(
        parts,
        0,
        dep_specifier@,
        dep_id.0 as int,
    ));
    while i < item.children.len()
        invariant
            i <= item.children@.len(),
            parts == item@.children,
            data.id == id,
            forall|i: int| 0 <= i < parts.len() ==> passed_part_supported(#[trigger] parts[i]),
            data@ == (Data {
                re_exports: before.re_exports + passed_upto(
                    parts,
                    i as nat,
                    dep_specifier@,
                    dep_id.0 as int,
                ),
                ..before
            }),
        decreases item.children@.len() - i,
    {
        let n: &Node = &item.children[i];
        assert(parts[i as int] == n@);
        assert(passed_part_supported(parts[i as int]));
        if n.kind == Kind::ExportNamedSpecifier && !n.flags.type_only {
            let export_name: Option<String> = match n.get(Role::Exported) {
                Some(exported) => Some(exported.text.clone()),
                None => None,
            };
            let local_name: String = n.get(Role::Orig).unwrap().text.clone();
            data.add_re_export(
                ReExport {
                    name: ReExportName::Named(
                        ExportName { local_name, export_name, in_place: false },
                    ),
                    specifier: dep_specifier.dup(),
                    module_id: dep_id,
                },
            );
        } else if n.kind == Kind::ExportNamespaceSpecifier {
            data.add_re_export(
                ReExport {
                    name: ReExportName::Namespace(n.get(Role::Name).unwrap().text.clone()),
                    specifier: dep_specifier.dup(),
                    module_id: dep_id,
                },
            );
        }
        i = i + 1;
        assert(data@.re_exports =~= before.re_exports + passed_upto(
            parts,
            i as nat,
            dep_specifier@,
            dep_id.0 as int,
        ));
    }
}

pub fn is_statement(kind: Kind) -> (r: bool)
    ensures
        r == is_stmt(kind),
{
    !(kind == Kind::ImportDecl || kind == Kind::ExportDecl || kind == Kind::ExportNamed || kind
        == Kind::ExportDefaultDecl || kind == Kind::ExportDefaultExpr || kind == Kind::ExportAll
        || kind == Kind::TsImportEquals || kind == Kind::TsExportAssignment || kind
        == Kind::TsNamespaceExport)
}

/// Analyzes a module: mentions the modules that it imports and exports from, and
/// adds its exports and its emitted syntax to what is known of it.
pub fn analyze_esm_module(esm: &EsmModule, root: &ModuleSpecifier, modules: &mut ModuleDataCollection)
    requires
        old(modules).wf(),
        module_supported(
            esm.module@.children,
            dependencies_of(esm.dependencies@),
            esm.specifier@ == root@,
        ),
    ensures
        final(modules).wf(),
        final(modules)@ == analyzed(
            old(modules)@,
            esm.specifier@,
            dependencies_of(esm.dependencies@),
            esm.module@,
            esm.specifier@ == root@,
        ),
{
    let is_root: bool = root.same(&esm.specifier);
    let ghost before = modules@;
    let ghost items = esm.module@.children;
    let ghost deps = dependencies_of(esm.dependencies@);
    let ghost specifier = esm.specifier@;
    let mut ids: ReplaceIds = ReplaceIds::new();
    let mut found_tla: bool = false;
    let mut i: usize = 0;
    while i < esm.module.children.len()
        invariant
            i <= esm.module.children@.len(),
            items == esm.module@.children,
            deps == dependencies_of(esm.dependencies@),
            module_supported(items, deps, is_root),
            modules.wf(),
            ids.wf(),
            (Imports { modules: modules@, ids: ids@ }) == imports_upto(
                items,
                i as nat,
                deps,
                before,
            ),
            found_tla == exists|j: int| 0 <= j < i && awaits(#[trigger] items[j]),
        decreases esm.module.children@.len() - i,
    {
        let item: &Node = &esm.module.children[i];
        assert(items[i as int] == item@);
        assert(item_supported(items[i as int], deps, is_root));
        if item.kind == Kind::ImportDecl {
            if !item.flags.type_only {
                let source: &Node = item.get(Role::Source).unwrap();
                let dep_specifier: &ModuleSpecifier = esm.resolve_dependency(
                    source.text.as_str(),
                ).unwrap();
                let dep_id: ModuleId = modules.mention(dep_specifier);
                add_import_ids(item, dep_id, &mut ids);
            }
        } else {
            if !found_tla && has_await_keyword(item) {
                found_tla = true;
            }
        }
        i = i + 1;
        assert(found_tla == exists|j: int| 0 <= j < i && awaits(#[trigger] items[j])) by {
            assert(awaits(items[i - 1]) || !awaits(items[i - 1]));
        }
    }
    let ghost imports = imports_upto(items, items.len(), deps, before);
    let ghost known = mentioned(imports.modules, specifier);
    let ghost awaited = with_data(
        known,
        specifier,
        Data { has_tla: top_level_await(items), ..data_of(known, specifier) },
    );
    let data: &mut ModuleData = modules.get_mut(&esm.specifier);
    data.has_tla = found_tla;
    proof {
        assert(found_tla == top_level_await(items));
        assert(modules@ == awaited);
        lemma_mentioned(imports.modules, specifier, specifier);
        lemma_with_data(
            known,
            specifier,
            Data { has_tla: top_level_await(items), ..data_of(known, specifier) },
            specifier,
        );
    }
    // the exports come after, because they go by the imports wherever these stand
    let mut i: usize = 0;
    while i < esm.module.children.len()
        invariant
            i <= esm.module.children@.len(),
            items == esm.module@.children,
            specifier == esm.specifier@,
            deps == dependencies_of(esm.dependencies@),
            module_supported(items, deps, is_root),
            modules.wf(),
            ids.wf(),
            has_key(modules@, specifier),
            modules@ == items_added(items, i as nat, specifier, deps, ids@, is_root, awaited),
        decreases esm.module.children@.len() - i,
    {
        let item: &Node = &esm.module.children[i];
        assert(items[i as int] == item@);
        assert(item_supported(items[i as int], deps, is_root));
        let ghost earlier = modules@;
        if !item.flags.type_only && (item.kind == Kind::ExportAll || (item.kind
            == Kind::ExportNamed && item.has(Role::Source))) {
            let source: &Node = item.get(Role::Source).unwrap();
            let dep_specifier: &ModuleSpecifier = esm.resolve_dependency(
                source.text.as_str(),
            ).unwrap();
            let dep_id: ModuleId = modules.mention(dep_specifier);
            let ghost after = modules@;
            proof {
                lemma_mentioned(earlier, dep_specifier@, specifier);
            }
            let data: &mut ModuleData = modules.get_mut(&esm.specifier);
            add_item_re_exports(item, dep_specifier, dep_id, data);
            proof {
                let d = data_of(after, specifier);
                let passed = item_re_exports(item@, dep_specifier@, dep_id.0 as int);
                lemma_with_data(
                    after,
                    specifier,
                    Data { re_exports: d.re_exports + passed, ..d },
                    specifier,
                );
                assert(d.exports + item_exports(item@, ids@, is_root) =~= d.exports);
            }
        } else {
            let data: &mut ModuleData = modules.get_mut(&esm.specifier);
            add_item_exports(item, &ids, is_root, data);
            proof {
                let d = data_of(earlier, specifier);
                lemma_with_data(
                    earlier,
                    specifier,
                    Data { exports: d.exports + item_exports(item@, ids@, is_root), ..d },
                    specifier,
                );
            }
        }
        i = i + 1;
    }
    let transformer = Transformer { replace_ids: &ids, is_root_module: is_root };
    let emitted_module: Node = transformer.visit(&esm.module);
    let data: &mut ModuleData = modules.get_mut(&esm.specifier);
    data.module = Some(emitted_module);
}

fn is_ident_if_any(n: &Node, role: Role) -> (r: bool)
    ensures
        r == ident_if_any(n@, role),
{
    match n.get(role) {
        Some(part) => part.kind == Kind::Ident,
        None => true,
    }
}

fn is_ident_at(n: &Node, role: Role) -> (r: bool)
    ensures
        r == ident_at(n@, role),
{
    match n.get(role) {
        Some(part) => part.kind == Kind::Ident,
        None => false,
    }
}

fn supports_import_part(n: &Node) -> (r: bool)
    ensures
        r == import_part_supported(n@),
{
    if n.kind == Kind::ImportDefault || n.kind == Kind::ImportNamespace {
        n.has(Role::Local)
    } else if n.kind == Kind::ImportNamed && !n.flags.type_only {
        n.has(Role::Local) && is_ident_if_any(n, Role::Imported)
    } else {
        true
    }
}

fn supports_pattern_prop(n: &Node) -> (r: bool)
    ensures
        r == pattern_prop_supported(n@),
{
    if n.kind == Kind::KeyValuePatProp {
        match n.get(Role::Key) {
            Some(key) => key.kind != Kind::Str,
            None => false,
        }
    } else if n.kind == Kind::AssignPatProp {
        n.has(Role::Key)
    } else if n.kind == Kind::RestPat {
        match n.get(Role::Arg) {
            Some(arg) => arg.kind == Kind::BindingIdent && arg.has(Role::Name),
            None => false,
        }
    } else {
        true
    }
}

fn supports_pattern(n: &Node) -> (r: bool)
    ensures
        r == pattern_supported(n@),
{
    if n.kind == Kind::BindingIdent {
        return n.has(Role::Name);
    }
    if n.kind != Kind::ObjectPat {
        return false;
    }
    let mut i: usize = 0;
    while i < n.children.len()
        invariant
            i <= n.children@.len(),
            n.kind == Kind::ObjectPat,
            forall|j: int| 0 <= j < i ==> pattern_prop_supported(#[trigger] n@.children[j]),
        decreases n.children@.len() - i,
    {
        assert(n@.children[i as int] == n.children@[i as int]@);
        if !supports_pattern_prop(&n.children[i]) {
            return false;
        }
        i = i + 1;
    }
    true
}

fn supports_decl(decl: &Node) -> (r: bool)
    ensures
        r == decl_supported(decl@),
{
    if decl.flags.declare {
        return true;
    }
    if decl.kind == Kind::ClassDecl || decl.kind == Kind::FnDecl || decl.kind == Kind::TsEnumDecl
        || decl.kind == Kind::TsModuleDecl {
        return decl.has(Role::Name);
    }
    if decl.kind != Kind::VarDecl {
        return true;
    }
    let mut i: usize = 0;
    while i < decl.children.len()
        invariant
            i <= decl.children@.len(),
            decl.kind == Kind::VarDecl,
            !decl.flags.declare,
            forall|j: int|
                0 <= j < i ==> has_part(#[trigger] decl@.children[j], Role::Name)
                    && pattern_supported(child(decl@.children[j], Role::Name)),
        decreases decl.children@.len() - i,
    {
        assert(decl@.children[i as int] == decl.children@[i as int]@);
        let supported: bool = match decl.children[i].get(Role::Name) {
            Some(pattern) => supports_pattern(pattern),
            None => false,
        };
        if !supported {
            return false;
        }
        i = i + 1;
    }
    true
}

fn supports_listed(n: &Node) -> (r: bool)
    ensures
        r == listed_supported(n@),
{
    n.kind == Kind::ExportNamedSpecifier && is_ident_at(n, Role::Orig) && is_ident_if_any(
        n,
        Role::Exported,
    )
}

fn supports_passed_part(n: &Node) -> (r: bool)
    ensures
        r == passed_part_supported(n@),
{
    if n.kind == Kind::ExportNamedSpecifier && !n.flags.type_only {
        is_ident_at(n, Role::Orig) && is_ident_if_any(n, Role::Exported)
    } else if n.kind == Kind::ExportNamespaceSpecifier {
        is_ident_at(n, Role::Name)
    } else {
        n.kind != Kind::ExportDefaultSpecifier
    }
}

impl EsmModule {
    fn resolves_source(&self, item: &Node) -> (r: bool)
        ensures
            r == source_resolves(item@, dependencies_of(self.dependencies@)),
    {
        match item.get(Role::Source) {
            Some(source) => self.resolve_dependency(source.text.as_str()).is_some(),
            None => false,
        }
    }

    fn supports_item(&self, item: &Node, is_root: bool) -> (r: bool)
        ensures
            r == item_supported(item@, dependencies_of(self.dependencies@), is_root),
    {
        let import: bool = item.kind == Kind::ImportDecl && !item.flags.type_only;
        let export: bool = item.kind == Kind::ExportNamed && !item.flags.type_only;
        if import || export {
            let from: bool = import || item.has(Role::Source);
            if from && !self.resolves_source(item) {
                return false;
            }
            let mut i: usize = 0;
            while i < item.children.len()
                invariant
                    i <= item.children@.len(),
                    import == is_value_import(item@),
                    export == (item.kind == Kind::ExportNamed && !item.flags.type_only),
                    import || export,
                    from == (import || has_part(item@, Role::Source)),
                    from ==> source_resolves(item@, dependencies_of(self.dependencies@)),
                    forall|j: int|
                        0 <= j < i ==> if import {
                            import_part_supported(#[trigger] item@.children[j])
                        } else if from {
                            passed_part_supported(item@.children[j])
                        } else {
                            listed_supported(item@.children[j])
                        },
                decreases item.children@.len() - i,
            {
                let part: &Node = &item.children[i];
                assert(item@.children[i as int] == part@);
                let supported: bool = if import {
                    supports_import_part(part)
                } else if from {
                    supports_passed_part(part)
                } else {
                    supports_listed(part)
                };
                if !supported {
                    return false;
                }
                i = i + 1;
            }
            true
        } else if item.kind == Kind::ExportDefaultDecl || item.kind == Kind::ExportDecl {
            is_root || match item.get(Role::Decl) {
                Some(decl) => item.kind != Kind::ExportDecl || supports_decl(decl),
                None => false,
            }
        } else if item.kind == Kind::ExportAll && !item.flags.type_only {
            self.resolves_source(item)
        } else {
            true
        }
    }

    /// Whether the module holds nothing that cannot be dealt with.
    pub fn is_supported(&self, is_root: bool) -> (r: bool)
        ensures
            r == module_supported(
                self.module@.children,
                dependencies_of(self.dependencies@),
                is_root,
            ),
    {
        let mut i: usize = 0;
        while i < self.module.children.len()
            invariant
                i <= self.module.children@.len(),
                forall|j: int|
                    0 <= j < i ==> item_supported(
                        #[trigger] self.module@.children[j],
                        dependencies_of(self.dependencies@),
                        is_root,
                    ),
            decreases self.module.children@.len() - i,
        {
            assert(self.module@.children[i as int] == self.module.children@[i as int]@);
            if !self.supports_item(&self.module.children[i], is_root) {
                return false;
            }
            i = i + 1;
        }
        true
    }
}

proof fn lemma_imports_keep(
    items: Seq<Tree>,
    n: nat,
    deps: Seq<(Seq<char>, Seq<char>)>,
    modules: Seq<(Seq<char>, Data)>,
    key: Seq<char>,
)
    requires
        has_key(modules, key),
    ensures
        has_key(imports_upto(items, n, deps, modules).modules, key),
        key_place(imports_upto(items, n, deps, modules).modules, key) == key_place(modules, key),
    decreases n,
{
    if n > 0 {
        let m = (n - 1) as nat;
        lemma_imports_keep(items, m, deps, modules, key);
        lemma_mentioned(
            imports_upto(items, m, deps, modules).modules,
            resolved(deps, source_text(items[n - 1])),
            key,
        );
    }
}

pub proof fn lemma_items_added_keep(
    items: Seq<Tree>,
    n: nat,
    specifier: Seq<char>,
    deps: Seq<(Seq<char>, Seq<char>)>,
    ids: Seq<Replaced>,
    is_root: bool,
    modules: Seq<(Seq<char>, Data)>,
    key: Seq<char>,
)
    requires
        has_key(modules, specifier),
        has_key(modules, key),
    ensures
        has_key(items_added(items, n, specifier, deps, ids, is_root, modules), key),
        key_place(items_added(items, n, specifier, deps, ids, is_root, modules), key) == key_place(
            modules,
            key,
        ),
    decreases n,
{
    if n > 0 {
        let m = (n - 1) as nat;
        lemma_items_added_keep(items, m, specifier, deps, ids, is_root, modules, key);
        lemma_items_added_keep(items, m, specifier, deps, ids, is_root, modules, specifier);
        let before = items_added(items, m, specifier, deps, ids, is_root, modules);
        let t = items[n - 1];
        let dep = resolved(deps, source_text(t));
        lemma_mentioned(before, dep, key);
        lemma_mentioned(before, dep, specifier);
        let after = if is_from_other(t) {
            mentioned(before, dep)
        } else {
            before
        };
        let d = data_of(after, specifier);
        lemma_with_data(
            after,
            specifier,
            Data {
                exports: d.exports + item_exports(t, ids, is_root),
                re_exports: if is_from_other(t) {
                    d.re_exports + item_re_exports(t, dep, key_place(after, dep))
                } else {
                    d.re_exports
                },
                ..d
            },
            key,
        );
    }
}

/// A module keeps its number whatever is analyzed later, and a module that was
/// analyzed has one.
pub proof fn law_numbers_are_kept(
    modules: Seq<(Seq<char>, Data)>,
    specifier: Seq<char>,
    deps: Seq<(Seq<char>, Seq<char>)>,
    module: Tree,
    is_root: bool,
    key: Seq<char>,
)
    ensures
        has_key(analyzed(modules, specifier, deps, module, is_root), specifier),
        has_key(modules, key) ==> has_key(
            analyzed(modules, specifier, deps, module, is_root),
            key,
        ) && key_place(analyzed(modules, specifier, deps, module, is_root), key) == key_place(
            modules,
            key,
        ),
{
    let items = module.children;
    let imports = imports_upto(items, items.len(), deps, modules);
    let known = mentioned(imports.modules, specifier);
    let data = Data { has_tla: top_level_await(items), ..data_of(known, specifier) };
    let awaited = with_data(known, specifier, data);
    lemma_mentioned(imports.modules, specifier, specifier);
    lemma_with_data(known, specifier, data, specifier);
    lemma_items_added_keep(
        items,
        items.len(),
        specifier,
        deps,
        imports.ids,
        is_root,
        awaited,
        specifier,
    );
    let added = items_added(
        items,
        items.len(),
        specifier,
        deps,
        imports.ids,
        is_root,
        awaited,
    );
    let last = Data {
        module: Some(emitted(module, imports.ids, is_root)),
        ..data_of(added, specifier)
    };
    lemma_with_data(added, specifier, last, specifier);
    if has_key(modules, key) {
        lemma_imports_keep(items, items.len(), deps, modules, key);
        lemma_mentioned(imports.modules, specifier, key);
        lemma_with_data(known, specifier, data, key);
        lemma_items_added_keep(
            items,
            items.len(),
            specifier,
            deps,
            imports.ids,
            is_root,
            awaited,
            key,
        );
        lemma_with_data(added, specifier, last, key);
    }
}

}
