//! What the code of a module becomes where it uses what it imports.

use vstd::prelude::*;

use super::analyze::{
    analyzed, import_ids_upto, import_part_supported, import_replaced, imports_upto,
    is_value_import,
    item_supported, items_added, module_supported, resolved, resolves, source_text,
    top_level_await,
};
use super::data::{
    code_name, data_of, lemma_mentioned, lemma_with_data, mentioned, with_data, Data,
};
use super::transform::{
    all_have_parts, chain, emitted, item_emitted, items_upto, parts_of, parts_upto, path_tree,
    specifiers_upto, Replaced,
};
use crate::collections::{key_place, lemma_key_place};
use crate::helpers::{binding_tree, const_tree, key_value_tree};
use crate::paths::{is_path, node_at, same_node};
use crate::syntax::{at, child, has_part, id_of, lemma_place, place, Kind, Role, Tree};

verus! {

/// Whether an identifier is imported, and stands for the path. What was imported last
/// counts.
pub open spec fn is_import(
    ids: Seq<Replaced>,
    id: (Seq<char>, u32),
    parts: Seq<Seq<char>>,
) -> bool {
    exists|i: int|
        {
            &&& 0 <= i < ids.len()
            &&& (#[trigger] ids[i]).id == id
            &&& ids[i].parts == parts
            &&& forall|j: int| i < j < ids.len() ==> (#[trigger] ids[j]).id != id
        }
}

/// Whether an identifier is not imported.
pub open spec fn is_not_imported(ids: Seq<Replaced>, id: (Seq<char>, u32)) -> bool {
    forall|i: int| 0 <= i < ids.len() ==> (#[trigger] ids[i]).id != id
}

proof fn lemma_parts_upto(ids: Seq<Replaced>, n: nat, id: (Seq<char>, u32))
    requires
        n <= ids.len(),
    ensures
        match parts_upto(ids, n, id) {
            Some(parts) => exists|i: int|
                {
                    &&& 0 <= i < n
                    &&& (#[trigger] ids[i]).id == id
                    &&& ids[i].parts == parts
                    &&& forall|j: int| i < j < n ==> (#[trigger] ids[j]).id != id
                },
            None => forall|i: int| 0 <= i < n ==> (#[trigger] ids[i]).id != id,
        },
    decreases n,
{
    if n > 0 {
        if ids[n - 1].id == id {
            assert(ids[n - 1].parts == parts_upto(ids, n, id).unwrap());
        } else {
            lemma_parts_upto(ids, (n - 1) as nat, id);
            match parts_upto(ids, (n - 1) as nat, id) {
                Some(parts) => {
                    let i = choose|i: int|
                        {
                            &&& 0 <= i < n - 1
                            &&& (#[trigger] ids[i]).id == id
                            &&& ids[i].parts == parts
                            &&& forall|j: int| i < j < n - 1 ==> (#[trigger] ids[j]).id != id
                        };
                    assert(ids[i].id == id);
                },
                None => {},
            }
        }
    }
}

/// The path for an identifier is that of its last import.
pub proof fn lemma_import(ids: Seq<Replaced>, id: (Seq<char>, u32))
    ensures
        parts_of(ids, id) is None <==> is_not_imported(ids, id),
        forall|parts: Seq<Seq<char>>| #[trigger]
            is_import(ids, id, parts) <==> parts_of(ids, id) == Some(parts),
{
    lemma_parts_upto(ids, ids.len(), id);
    assert forall|parts: Seq<Seq<char>>| #[trigger] is_import(ids, id, parts) <==> parts_of(ids, id)
        == Some(parts) by {
        if is_import(ids, id, parts) {
            let i = choose|i: int|
                {
                    &&& 0 <= i < ids.len()
                    &&& (#[trigger] ids[i]).id == id
                    &&& ids[i].parts == parts
                    &&& forall|j: int| i < j < ids.len() ==> (#[trigger] ids[j]).id != id
                };
            let found = parts_of(ids, id).unwrap();
            let k = choose|i: int|
                {
                    &&& 0 <= i < ids.len()
                    &&& (#[trigger] ids[i]).id == id
                    &&& ids[i].parts == found
                    &&& forall|j: int| i < j < ids.len() ==> (#[trigger] ids[j]).id != id
                };
            assert(i == k) by {
                if i < k {
                    assert(ids[k].id != id);
                } else if k < i {
                    assert(ids[i].id != id);
                }
            }
        }
    }
}

/// Whether a node is the expression `a`, `a.b` or `a.b.c` of a path.
pub open spec fn is_member_path(t: Tree, parts: Seq<Seq<char>>) -> bool
    decreases parts.len(),
{
    if parts.len() == 0 {
        false
    } else if parts.len() == 1 {
        t.kind == Kind::IdentExpr && t.text == parts[0] && t.span.ctxt == 0 && t.children.len() == 0
    } else {
        &&& t.kind == Kind::MemberExpr
        &&& t.children.len() == 2
        &&& t.children[0].role == Role::Object && is_member_path(t.children[0], parts.drop_last())
        &&& t.children[1].role == Role::Property && t.children[1].kind == Kind::Ident
        &&& t.children[1].text == parts.last() && t.children[1].children.len() == 0
    }
}

proof fn lemma_chain(parts: Seq<Seq<char>>, n: nat, role: Role)
    requires
        0 < n <= parts.len(),
    ensures
        is_member_path(at(role, chain(parts, n)), parts.take(n as int)),
    decreases n,
{
    if n > 1 {
        lemma_chain(parts, (n - 1) as nat, Role::Object);
        assert(parts.take(n as int).drop_last() =~= parts.take(n - 1));
    }
}

proof fn lemma_path(parts: Seq<Seq<char>>, role: Role)
    requires
        parts.len() > 0,
    ensures
        is_member_path(at(role, path_tree(parts)), parts),
{
    lemma_chain(parts, parts.len(), role);
    assert(parts.take(parts.len() as int) =~= parts);
}

/// Whether a node is a use of something that is imported: a name for an expression, or a
/// property that is written by a name alone.
pub open spec fn uses_import(t: Tree, ids: Seq<Replaced>) -> bool {
    ||| t.kind == Kind::IdentExpr && !is_not_imported(ids, id_of(t))
    ||| t.kind == Kind::ShorthandProp && has_part(t, Role::Name) && !is_not_imported(
        ids,
        id_of(child(t, Role::Name)),
    )
}

/// Whether a path leads to a node below no use of an import and no module.
pub open spec fn is_open(t: Tree, path: Seq<int>, ids: Seq<Replaced>) -> bool
    decreases path.len(),
{
    &&& t.kind != Kind::Module
    &&& path.len() > 0 ==> !uses_import(t, ids) && is_open(
        t.children[path[0]],
        path.skip(1),
        ids,
    )
}

/// Wherever in a module's code an import is used, and in whichever part of whatever
/// syntax, the path to it stands instead; a property that is written by a name alone
/// keeps the name and gets the path for a value. Everything else stays.
pub proof fn law_uses_of_imports_become_members(
    t: Tree,
    ids: Seq<Replaced>,
    is_root: bool,
    path: Seq<int>,
)
    requires
        is_path(t, path),
        is_open(t, path, ids),
        all_have_parts(ids),
    ensures
        ({
            let n = node_at(t, path);
            let m = node_at(emitted(t, ids, is_root), path);
            &&& is_path(emitted(t, ids, is_root), path)
            &&& m.role == n.role
            &&& n.kind == Kind::IdentExpr ==> forall|parts: Seq<Seq<char>>| #[trigger]
                is_import(ids, id_of(n), parts) ==> is_member_path(m, parts)
            &&& n.kind == Kind::ShorthandProp && has_part(n, Role::Name) ==> forall|
                parts: Seq<Seq<char>>,
            | #[trigger]
                is_import(ids, id_of(child(n, Role::Name)), parts) ==> {
                    &&& m.kind == Kind::KeyValueProp
                    &&& m.children.len() == 2
                    &&& m.children[0] == at(Role::Key, child(n, Role::Name))
                    &&& m.children[1].role == Role::Value && is_member_path(m.children[1], parts)
                }
            &&& !uses_import(n, ids) ==> same_node(n, m)
        }),
    decreases path.len(),
{
    lemma_import(ids, id_of(t));
    lemma_import(ids, id_of(child(t, Role::Name)));
    if path.len() > 0 {
        law_uses_of_imports_become_members(t.children[path[0]], ids, is_root, path.skip(1));
        assert(emitted(t, ids, is_root).children[path[0]] == emitted(
            t.children[path[0]],
            ids,
            is_root,
        ));
    } else {
        lemma_some_parts(ids, id_of(t));
        lemma_some_parts(ids, id_of(child(t, Role::Name)));
        match parts_of(ids, id_of(t)) {
            Some(parts) => {
                lemma_path(parts, t.role);
            },
            None => {},
        }
        match parts_of(ids, id_of(child(t, Role::Name))) {
            Some(parts) => {
                lemma_path(parts, Role::Value);
            },
            None => {},
        }
    }
}

proof fn lemma_some_parts(ids: Seq<Replaced>, id: (Seq<char>, u32))
    requires
        all_have_parts(ids),
    ensures
        parts_of(ids, id) matches Some(parts) ==> parts.len() > 0,
{
    lemma_parts_upto(ids, ids.len(), id);
}

/// Whether no name in a tree is an expression.
pub open spec fn has_no_names(t: Tree) -> bool
    decreases t,
{
    &&& t.kind != Kind::IdentExpr
    &&& forall|i: int| 0 <= i < t.children.len() ==> has_no_names(#[trigger] t.children[i])
}

/// Whether the names in a tree that stand where no expression can are none: those of
/// properties that are written by a name alone, of what is listed for export, and of
/// what is exported by default.
pub open spec fn names_fit(t: Tree) -> bool
    decreases t,
{
    &&& t.kind == Kind::ShorthandProp && has_part(t, Role::Name) ==> has_no_names(
        child(t, Role::Name),
    )
    &&& t.kind == Kind::ExportNamed ==> has_no_names(t)
    &&& t.kind == Kind::ExportDefaultDecl && has_part(t, Role::Decl) && has_part(
        child(t, Role::Decl),
        Role::Name,
    ) ==> has_no_names(child(child(t, Role::Decl), Role::Name))
    &&& forall|i: int| 0 <= i < t.children.len() ==> names_fit(#[trigger] t.children[i])
}

/// Whether no import is called like the object of a module.
pub open spec fn objects_differ(ids: Seq<Replaced>) -> bool {
    forall|i: int| 0 <= i < ids.len() ==> is_not_imported(ids, ((#[trigger] ids[i]).parts[0], 0))
}

/// Whether no name for an expression in a tree is imported.
pub open spec fn is_free(t: Tree, ids: Seq<Replaced>) -> bool
    decreases t,
{
    &&& t.kind == Kind::IdentExpr ==> is_not_imported(ids, id_of(t))
    &&& forall|i: int| 0 <= i < t.children.len() ==> is_free(#[trigger] t.children[i], ids)
}

proof fn lemma_no_names_free(t: Tree, ids: Seq<Replaced>)
    requires
        has_no_names(t),
    ensures
        is_free(t, ids),
    decreases t,
{
    assert forall|i: int| 0 <= i < t.children.len() implies is_free(#[trigger] t.children[i], ids) by {
        lemma_no_names_free(t.children[i], ids);
    }
}

proof fn lemma_at_free(role: Role, t: Tree, ids: Seq<Replaced>)
    requires
        is_free(t, ids),
    ensures
        is_free(at(role, t), ids),
{
}

proof fn lemma_chain_free(parts: Seq<Seq<char>>, n: nat, ids: Seq<Replaced>)
    requires
        0 < n <= parts.len(),
        is_not_imported(ids, (parts[0], 0)),
    ensures
        is_free(chain(parts, n), ids),
    decreases n,
{
    if n > 1 {
        lemma_chain_free(parts, (n - 1) as nat, ids);
        let t = chain(parts, n);
        assert forall|i: int| 0 <= i < t.children.len() implies is_free(
            #[trigger] t.children[i],
            ids,
        ) by {
            if i == 0 {
                lemma_at_free(Role::Object, chain(parts, (n - 1) as nat), ids);
            }
        }
    }
}

proof fn lemma_replaced_free(ids: Seq<Replaced>, id: (Seq<char>, u32))
    requires
        all_have_parts(ids),
        objects_differ(ids),
        parts_of(ids, id) is Some,
    ensures
        is_free(path_tree(parts_of(ids, id).unwrap()), ids),
{
    lemma_parts_upto(ids, ids.len(), id);
    let parts = parts_of(ids, id).unwrap();
    let i = choose|i: int|
        {
            &&& 0 <= i < ids.len()
            &&& (#[trigger] ids[i]).id == id
            &&& ids[i].parts == parts
            &&& forall|j: int| i < j < ids.len() ==> (#[trigger] ids[j]).id != id
        };
    lemma_chain_free(parts, parts.len(), ids);
}

proof fn lemma_emitted_free(t: Tree, ids: Seq<Replaced>, is_root: bool)
    requires
        names_fit(t),
        all_have_parts(ids),
        objects_differ(ids),
    ensures
        is_free(emitted(t, ids, is_root), ids),
    decreases t, 1nat, 0nat,
{
    lemma_import(ids, id_of(t));
    lemma_place(t, Role::Name);
    let m = emitted(t, ids, is_root);
    if t.kind == Kind::IdentExpr && parts_of(ids, id_of(t)) is Some {
        lemma_replaced_free(ids, id_of(t));
        lemma_at_free(t.role, path_tree(parts_of(ids, id_of(t)).unwrap()), ids);
    } else if t.kind == Kind::ShorthandProp && has_part(t, Role::Name) && parts_of(
        ids,
        id_of(child(t, Role::Name)),
    ) is Some {
        let name = child(t, Role::Name);
        let value = path_tree(parts_of(ids, id_of(name)).unwrap());
        lemma_replaced_free(ids, id_of(name));
        lemma_at_free(Role::Value, value, ids);
        lemma_no_names_free(name, ids);
        lemma_at_free(Role::Key, name, ids);
        let pair = key_value_tree(name, value);
        assert(pair.children[0] == at(Role::Key, name));
        assert(pair.children[1] == at(Role::Value, value));
        assert(is_free(pair, ids));
        lemma_at_free(t.role, pair, ids);
    } else if t.kind == Kind::Module {
        lemma_items_free(t, t.children.len(), ids, is_root);
        assert forall|i: int| 0 <= i < m.children.len() implies is_free(
            #[trigger] m.children[i],
            ids,
        ) by {
            assert(m.children[i] == items_upto(t.children, t.children.len(), ids, is_root)[i]);
        }
    } else {
        assert forall|i: int| 0 <= i < m.children.len() implies is_free(
            #[trigger] m.children[i],
            ids,
        ) by {
            assert(m.children[i] == emitted(t.children[i], ids, is_root));
            lemma_emitted_free(t.children[i], ids, is_root);
        }
    }
}

proof fn lemma_items_free(t: Tree, n: nat, ids: Seq<Replaced>, is_root: bool)
    requires
        names_fit(t),
        n <= t.children.len(),
        all_have_parts(ids),
        objects_differ(ids),
    ensures
        forall|i: int|
            0 <= i < items_upto(t.children, n, ids, is_root).len() ==> is_free(
                #[trigger] items_upto(t.children, n, ids, is_root)[i],
                ids,
            ),
    decreases t, 0nat, n,
{
    if n > 0 {
        lemma_items_free(t, (n - 1) as nat, ids, is_root);
        let item = t.children[n - 1];
        assert(names_fit(item));
        lemma_item_free(item, ids, is_root);
        let before = items_upto(t.children, (n - 1) as nat, ids, is_root);
        let after = items_upto(t.children, n, ids, is_root);
        assert forall|i: int| 0 <= i < after.len() implies is_free(#[trigger] after[i], ids) by {
            if i < before.len() {
                assert(after[i] == before[i]);
            }
        }
    }
}

proof fn lemma_const_free(pattern: Tree, init: Tree, ids: Seq<Replaced>)
    requires
        is_free(pattern, ids),
        is_free(init, ids),
    ensures
        is_free(const_tree(binding_tree(pattern, None), Some(init)), ids),
{
    let binding = binding_tree(pattern, None);
    lemma_at_free(Role::Name, pattern, ids);
    assert(binding.children[0] == at(Role::Name, pattern));
    assert(is_free(binding, ids));
    lemma_at_free(Role::Name, binding, ids);
    lemma_at_free(Role::Init, init, ids);
    let decl = const_tree(binding, Some(init));
    let declarator = decl.children[0];
    assert(declarator.children[0] == at(Role::Name, binding));
    assert(declarator.children[1] == at(Role::Init, init));
    assert(is_free(declarator, ids));
    assert(is_free(decl, ids));
}

proof fn lemma_item_free(t: Tree, ids: Seq<Replaced>, is_root: bool)
    requires
        names_fit(t),
        all_have_parts(ids),
        objects_differ(ids),
    ensures
        is_free(item_emitted(t, ids, is_root), ids),
    decreases t, 2nat, 0nat,
{
    let m = item_emitted(t, ids, is_root);
    lemma_place(t, Role::Expr);
    lemma_place(t, Role::Decl);
    assert(is_free(super::transform::empty_stmt_tree(), ids));
    assert(is_free(super::transform::default_name(), ids));
    if is_root && t.kind == Kind::ExportNamed {
        lemma_no_names_free(t, ids);
        lemma_specifiers_free(t.children, t.children.len(), ids);
    } else if is_root {
        lemma_emitted_free(t, ids, is_root);
    } else if t.kind == Kind::ExportDefaultExpr {
        if has_part(t, Role::Expr) {
            let expr = child(t, Role::Expr);
            assert(names_fit(t.children[place(t, Role::Expr)]));
            lemma_emitted_free(expr, ids, is_root);
            lemma_const_free(
                super::transform::default_name(),
                emitted(expr, ids, is_root),
                ids,
            );
        }
    } else if t.kind == Kind::ExportDefaultDecl {
        if has_part(t, Role::Decl) && child(t, Role::Decl).kind != Kind::TsInterfaceDecl {
            let decl = child(t, Role::Decl);
            assert(names_fit(t.children[place(t, Role::Decl)]));
            lemma_emitted_free(decl, ids, is_root);
            if has_part(decl, Role::Name) {
                lemma_no_names_free(child(decl, Role::Name), ids);
                lemma_const_free(child(decl, Role::Name), emitted(decl, ids, is_root), ids);
            } else {
                lemma_const_free(
                    super::transform::default_name(),
                    emitted(decl, ids, is_root),
                    ids,
                );
            }
        }
    } else if t.kind == Kind::ExportDecl {
        if has_part(t, Role::Decl) {
            assert(names_fit(t.children[place(t, Role::Decl)]));
            lemma_emitted_free(child(t, Role::Decl), ids, is_root);
        }
    } else {
        lemma_emitted_free(t, ids, is_root);
    }
}

proof fn lemma_specifiers_free(s: Seq<Tree>, n: nat, ids: Seq<Replaced>)
    requires
        n <= s.len(),
        forall|i: int| 0 <= i < s.len() ==> is_free(#[trigger] s[i], ids),
    ensures
        forall|i: int|
            0 <= i < specifiers_upto(s, n, ids).len() ==> is_free(
                #[trigger] specifiers_upto(s, n, ids)[i],
                ids,
            ),
    decreases n,
{
    if n > 0 {
        lemma_specifiers_free(s, (n - 1) as nat, ids);
        assert(is_free(s[n - 1], ids));
        let before = specifiers_upto(s, (n - 1) as nat, ids);
        let after = specifiers_upto(s, n, ids);
        assert forall|i: int| 0 <= i < after.len() implies is_free(#[trigger] after[i], ids) by {
            if i < before.len() {
                assert(after[i] == before[i]);
            }
        }
    }
}

proof fn lemma_free_at(t: Tree, ids: Seq<Replaced>, path: Seq<int>)
    requires
        is_free(t, ids),
        is_path(t, path),
        node_at(t, path).kind == Kind::IdentExpr,
    ensures
        is_not_imported(ids, id_of(node_at(t, path))),
    decreases path.len(),
{
    if path.len() > 0 {
        assert(is_free(t.children[path[0]], ids));
        lemma_free_at(t.children[path[0]], ids, path.skip(1));
    }
}

/// After a module is emitted no name for an expression, at any depth and in whichever
/// part of whatever syntax, is one that is imported.
pub proof fn law_no_import_is_left(
    t: Tree,
    ids: Seq<Replaced>,
    is_root: bool,
    path: Seq<int>,
)
    requires
        names_fit(t),
        all_have_parts(ids),
        objects_differ(ids),
        is_path(emitted(t, ids, is_root), path),
        node_at(emitted(t, ids, is_root), path).kind == Kind::IdentExpr,
    ensures
        is_not_imported(ids, id_of(node_at(emitted(t, ids, is_root), path))),
{
    lemma_emitted_free(t, ids, is_root);
    lemma_free_at(emitted(t, ids, is_root), ids, path);
}

/// Whether a part of an import brings an identifier for something that is there when
/// the program runs.
pub open spec fn brings_value(t: Tree) -> bool {
    has_part(t, Role::Local) && (t.kind == Kind::ImportDefault || t.kind == Kind::ImportNamespace
        || t.kind == Kind::ImportNamed && !t.flags.type_only)
}

/// Whether a path leads to what a part of an import brings of the module whose object
/// has the name: to its default export, to the object itself, or to the export under the
/// name that it has there.
pub open spec fn leads_to_import(t: Tree, object: Seq<char>, parts: Seq<Seq<char>>) -> bool {
    &&& parts.len() > 0 && parts[0] == object
    &&& t.kind == Kind::ImportDefault ==> parts.len() == 2 && parts[1] == "default"@
    &&& t.kind == Kind::ImportNamespace ==> parts.len() == 1
    &&& t.kind == Kind::ImportNamed && has_part(t, Role::Imported) ==> parts.len() == 2 && parts[1]
        == child(t, Role::Imported).text
    &&& t.kind == Kind::ImportNamed && !has_part(t, Role::Imported) ==> parts.len() == 2 && parts[1]
        == child(t, Role::Local).text
}

/// Whether a name of a module resolves to another module: that of the first entry for it.
pub open spec fn is_dependency(
    deps: Seq<(Seq<char>, Seq<char>)>,
    text: Seq<char>,
    url: Seq<char>,
) -> bool {
    exists|i: int|
        {
            &&& 0 <= i < deps.len()
            &&& #[trigger] deps[i] == (text, url)
            &&& forall|j: int| 0 <= j < i ==> (#[trigger] deps[j]).0 != text
        }
}

/// Whether an entry for an identifier is that of a part of an import: its path starts
/// with the object of the module that the import names.
pub open spec fn is_entry_of(
    entry: Replaced,
    item: Tree,
    j: int,
    deps: Seq<(Seq<char>, Seq<char>)>,
    modules: Seq<(Seq<char>, Data)>,
) -> bool {
    let part = item.children[j];
    &&& item.kind == Kind::ImportDecl && !item.flags.type_only
    &&& 0 <= j < item.children.len() && brings_value(part)
    &&& entry.id == id_of(child(part, Role::Local))
    &&& exists|p: int|
        {
            &&& 0 <= p < modules.len()
            &&& is_dependency(deps, child(item, Role::Source).text, (#[trigger] modules[p]).0)
            &&& leads_to_import(part, code_name(p), entry.parts)
        }
}

proof fn lemma_dependency(deps: Seq<(Seq<char>, Seq<char>)>, text: Seq<char>)
    requires
        resolves(deps, text),
    ensures
        is_dependency(deps, text, resolved(deps, text)),
{
    lemma_key_place(deps, text);
    assert(deps[key_place(deps, text)] == (text, resolved(deps, text)));
}

/// The part of an import from which an entry comes.
proof fn lemma_entry_part(s: Seq<Tree>, n: nat, id: int, k: int) -> (j: int)
    requires
        n <= s.len(),
        forall|j: int| 0 <= j < s.len() ==> import_part_supported(#[trigger] s[j]),
        0 <= k < import_ids_upto(s, n, id).len(),
    ensures
        0 <= j < n,
        brings_value(s[j]),
        is_part_entry(import_ids_upto(s, n, id)[k], s[j], id),
    decreases n,
{
    let before = import_ids_upto(s, (n - 1) as nat, id);
    assert(import_part_supported(s[n - 1]));
    if k < before.len() {
        lemma_entry_part(s, (n - 1) as nat, id, k)
    } else {
        lemma_own_entry(s[n - 1], id);
        n - 1
    }
}

/// The entry of a part of an import.
proof fn lemma_part_entry(s: Seq<Tree>, n: nat, id: int, j: int) -> (k: int)
    requires
        0 <= j < n <= s.len(),
        brings_value(s[j]),
    ensures
        0 <= k < import_ids_upto(s, n, id).len(),
        is_part_entry(import_ids_upto(s, n, id)[k], s[j], id),
    decreases n,
{
    let before = import_ids_upto(s, (n - 1) as nat, id);
    if j < n - 1 {
        lemma_part_entry(s, (n - 1) as nat, id, j)
    } else {
        lemma_own_entry(s[j], id);
        before.len() as int
    }
}

proof fn lemma_own_entry(t: Tree, id: int)
    ensures
        brings_value(t) ==> import_replaced(t, id) is Some,
        import_replaced(t, id) is Some ==> is_part_entry(import_replaced(t, id).unwrap(), t, id),
        import_replaced(t, id) is Some && import_part_supported(t) ==> brings_value(t),
{
}

/// Whether an entry is that of a part of an import of the module with the number.
spec fn is_part_entry(entry: Replaced, part: Tree, id: int) -> bool {
    entry.id == id_of(child(part, Role::Local)) && leads_to_import(
        part,
        code_name(id),
        entry.parts,
    )
}

proof fn lemma_entry_kept(
    entry: Replaced,
    item: Tree,
    j: int,
    deps: Seq<(Seq<char>, Seq<char>)>,
    modules: Seq<(Seq<char>, Data)>,
    url: Seq<char>,
)
    requires
        is_entry_of(entry, item, j, deps, modules),
    ensures
        is_entry_of(entry, item, j, deps, mentioned(modules, url)),
{
    let part = item.children[j];
    let p = choose|p: int|
        {
            &&& 0 <= p < modules.len()
            &&& is_dependency(deps, child(item, Role::Source).text, (#[trigger] modules[p]).0)
            &&& leads_to_import(part, code_name(p), entry.parts)
        };
    assert(mentioned(modules, url)[p] == modules[p]);
}

/// Whether an entry is that of a part of one of the first `n` items.
pub open spec fn is_entry(
    entry: Replaced,
    items: Seq<Tree>,
    n: nat,
    deps: Seq<(Seq<char>, Seq<char>)>,
    modules: Seq<(Seq<char>, Data)>,
) -> bool {
    exists|i: int, j: int|
        0 <= i < n && #[trigger] is_entry_of(entry, items[i], j, deps, modules)
}

/// Whether a part of an import has an entry.
pub open spec fn has_entry(
    ids: Seq<Replaced>,
    item: Tree,
    j: int,
    deps: Seq<(Seq<char>, Seq<char>)>,
    modules: Seq<(Seq<char>, Data)>,
) -> bool {
    exists|k: int|
        0 <= k < ids.len() && is_entry_of(#[trigger] ids[k], item, j, deps, modules)
}

/// Nothing but the parts of imports is replaced, and each by a path into the object of
/// the module that its import names.
pub proof fn law_only_imports_are_replaced(
    items: Seq<Tree>,
    n: nat,
    deps: Seq<(Seq<char>, Seq<char>)>,
    modules: Seq<(Seq<char>, Data)>,
    is_root: bool,
    k: int,
)
    requires
        n <= items.len(),
        module_supported(items, deps, is_root),
        0 <= k < imports_upto(items, n, deps, modules).ids.len(),
    ensures
        is_entry(
            imports_upto(items, n, deps, modules).ids[k],
            items,
            n,
            deps,
            imports_upto(items, n, deps, modules).modules,
        ),
    decreases n,
{
    let m = (n - 1) as nat;
    let before = imports_upto(items, m, deps, modules);
    let r = imports_upto(items, n, deps, modules);
    let t = items[n - 1];
    assert(item_supported(t, deps, is_root));
    if k < before.ids.len() {
        law_only_imports_are_replaced(items, m, deps, modules, is_root, k);
        assert(r.ids[k] == before.ids[k]);
        let (i, j) = choose|i: int, j: int|
            0 <= i < m && #[trigger] is_entry_of(
                before.ids[k],
                items[i],
                j,
                deps,
                before.modules,
            );
        if is_value_import(t) {
            lemma_entry_kept(
                before.ids[k],
                items[i],
                j,
                deps,
                before.modules,
                resolved(deps, source_text(t)),
            );
        }
        assert(is_entry_of(r.ids[k], items[i], j, deps, r.modules));
    } else {
        let dep = resolved(deps, source_text(t));
        let p = key_place(r.modules, dep);
        let more = import_ids_upto(t.children, t.children.len(), p);
        lemma_dependency(deps, source_text(t));
        lemma_mentioned(before.modules, dep, dep);
        lemma_key_place(r.modules, dep);
        let entry = more[k - before.ids.len()];
        assert(r.ids[k] == entry);
        let j = lemma_entry_part(t.children, t.children.len(), p, k - before.ids.len());
        assert(r.modules[p].0 == dep);
        assert(is_entry_of(entry, items[n - 1], j, deps, r.modules));
    }
}

/// Every part of an import that brings a value is replaced by a path into the object of
/// the module that the import names.
pub proof fn law_every_import_is_replaced(
    items: Seq<Tree>,
    n: nat,
    deps: Seq<(Seq<char>, Seq<char>)>,
    modules: Seq<(Seq<char>, Data)>,
    is_root: bool,
    i: int,
    j: int,
)
    requires
        0 <= i < n <= items.len(),
        module_supported(items, deps, is_root),
        items[i].kind == Kind::ImportDecl && !items[i].flags.type_only,
        0 <= j < items[i].children.len(),
        brings_value(items[i].children[j]),
    ensures
        has_entry(
            imports_upto(items, n, deps, modules).ids,
            items[i],
            j,
            deps,
            imports_upto(items, n, deps, modules).modules,
        ),
    decreases n,
{
    let m = (n - 1) as nat;
    let before = imports_upto(items, m, deps, modules);
    let r = imports_upto(items, n, deps, modules);
    let t = items[n - 1];
    assert(item_supported(t, deps, is_root));
    if i < m {
        law_every_import_is_replaced(items, m, deps, modules, is_root, i, j);
        let k = choose|k: int|
            0 <= k < before.ids.len() && is_entry_of(
                #[trigger] before.ids[k],
                items[i],
                j,
                deps,
                before.modules,
            );
        if is_value_import(t) {
            lemma_entry_kept(
                before.ids[k],
                items[i],
                j,
                deps,
                before.modules,
                resolved(deps, source_text(t)),
            );
        }
        assert(r.ids[k] == before.ids[k]);
    } else {
        let dep = resolved(deps, source_text(t));
        let p = key_place(r.modules, dep);
        let more = import_ids_upto(t.children, t.children.len(), p);
        lemma_dependency(deps, source_text(t));
        lemma_mentioned(before.modules, dep, dep);
        lemma_key_place(r.modules, dep);
        let k = lemma_part_entry(t.children, t.children.len(), p, j);
        assert(r.ids[before.ids.len() + k] == more[k]);
        assert(r.modules[p].0 == dep);
        assert(is_entry_of(more[k], items[i], j, deps, r.modules));
    }
}

/// Whether the parts of imports have names of their own, and not those of the objects
/// of modules.
pub open spec fn imports_named(items: Seq<Tree>) -> bool {
    forall|i: int, j: int, k: int|
        #![trigger items[i].children[j], code_name(k)]
        0 <= i < items.len() && items[i].kind == Kind::ImportDecl && 0 <= j
            < items[i].children.len() && brings_value(items[i].children[j]) ==> id_of(
            child(items[i].children[j], Role::Local),
        ) != (code_name(k), 0u32)
}

/// The code that is kept of a module that was analyzed uses none of the identifiers that
/// the module imports: wherever in it a name stands for an expression, no import brings
/// that name.
pub proof fn law_analyzed_code_uses_no_import(
    modules: Seq<(Seq<char>, Data)>,
    specifier: Seq<char>,
    deps: Seq<(Seq<char>, Seq<char>)>,
    module: Tree,
    is_root: bool,
    path: Seq<int>,
    i: int,
    j: int,
)
    requires
        module_supported(module.children, deps, is_root),
        names_fit(module),
        imports_named(module.children),
        0 <= i < module.children.len(),
        module.children[i].kind == Kind::ImportDecl && !module.children[i].flags.type_only,
        0 <= j < module.children[i].children.len(),
        brings_value(module.children[i].children[j]),
    ensures
        ({
            let code = data_of(
                analyzed(modules, specifier, deps, module, is_root),
                specifier,
            ).module;
            &&& code is Some
            &&& is_path(code.unwrap(), path) && node_at(code.unwrap(), path).kind
                == Kind::IdentExpr ==> id_of(node_at(code.unwrap(), path)) != id_of(
                child(module.children[i].children[j], Role::Local),
            )
        }),
{
    let items = module.children;
    let r = imports_upto(items, items.len(), deps, modules);
    lemma_entries_fit(items, deps, modules, is_root);
    lemma_emitted_free(module, r.ids, is_root);
    let out = emitted(module, r.ids, is_root);
    lemma_analyzed_module(modules, specifier, deps, module, is_root);
    law_every_import_is_replaced(items, items.len(), deps, modules, is_root, i, j);
    let k = choose|k: int|
        0 <= k < r.ids.len() && is_entry_of(#[trigger] r.ids[k], items[i], j, deps, r.modules);
    assert(r.ids[k].id == id_of(child(items[i].children[j], Role::Local)));
    if is_path(out, path) && node_at(out, path).kind == Kind::IdentExpr {
        lemma_free_at(out, r.ids, path);
    }
}

proof fn lemma_entry_fits(
    items: Seq<Tree>,
    deps: Seq<(Seq<char>, Seq<char>)>,
    modules: Seq<(Seq<char>, Data)>,
    entry: Replaced,
) -> (p: int)
    requires
        imports_named(items),
        is_entry(entry, items, items.len(), deps, modules),
    ensures
        entry.parts.len() > 0,
        entry.parts[0] == code_name(p),
        forall|k: int| entry.id != (#[trigger] code_name(k), 0u32),
{
    let (i, j) = choose|i: int, j: int|
        0 <= i < items.len() && #[trigger] is_entry_of(entry, items[i], j, deps, modules);
    let part = items[i].children[j];
    assert(brings_value(part));
    choose|p: int|
        {
            &&& 0 <= p < modules.len()
            &&& is_dependency(deps, child(items[i], Role::Source).text, (#[trigger] modules[p]).0)
            &&& leads_to_import(part, code_name(p), entry.parts)
        }
}

proof fn lemma_entries_fit(
    items: Seq<Tree>,
    deps: Seq<(Seq<char>, Seq<char>)>,
    modules: Seq<(Seq<char>, Data)>,
    is_root: bool,
)
    requires
        imports_named(items),
        module_supported(items, deps, is_root),
    ensures
        all_have_parts(imports_upto(items, items.len(), deps, modules).ids),
        objects_differ(imports_upto(items, items.len(), deps, modules).ids),
{
    let n = items.len();
    let r = imports_upto(items, n, deps, modules);
    assert forall|k: int| 0 <= k < r.ids.len() implies (#[trigger] r.ids[k]).parts.len() > 0
        && is_not_imported(r.ids, (r.ids[k].parts[0], 0)) by {
        law_only_imports_are_replaced(items, n, deps, modules, is_root, k);
        let p = lemma_entry_fits(items, deps, r.modules, r.ids[k]);
        assert forall|l: int| 0 <= l < r.ids.len() implies (#[trigger] r.ids[l]).id != (
            code_name(p),
            0u32,
        ) by {
            law_only_imports_are_replaced(items, n, deps, modules, is_root, l);
            let q = lemma_entry_fits(items, deps, r.modules, r.ids[l]);
        }
    }
}

proof fn lemma_analyzed_module(
    modules: Seq<(Seq<char>, Data)>,
    specifier: Seq<char>,
    deps: Seq<(Seq<char>, Seq<char>)>,
    module: Tree,
    is_root: bool,
)
    ensures
        data_of(analyzed(modules, specifier, deps, module, is_root), specifier).module == Some(
            emitted(
                module,
                imports_upto(module.children, module.children.len(), deps, modules).ids,
                is_root,
            ),
        ),
{
    let items = module.children;
    let imports = imports_upto(items, items.len(), deps, modules);
    let known = mentioned(imports.modules, specifier);
    let data = Data { has_tla: top_level_await(items), ..data_of(known, specifier) };
    let awaited = with_data(known, specifier, data);
    lemma_mentioned(imports.modules, specifier, specifier);
    lemma_with_data(known, specifier, data, specifier);
    super::analyze::lemma_items_added_keep(
        items,
        items.len(),
        specifier,
        deps,
        imports.ids,
        is_root,
        awaited,
        specifier,
    );
    let added = items_added(
        items,
        items.len(),
        specifier,
        deps,
        imports.ids,
        is_root,
        awaited,
    );
    let last = Data {
        module: Some(emitted(module, imports.ids, is_root)),
        ..data_of(added, specifier)
    };
    lemma_with_data(added, specifier, last, specifier);
}

}
