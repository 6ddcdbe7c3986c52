//! What the items of a module become.

use vstd::prelude::*;

use super::analyze::top_level_await;
use super::rewrite_laws::{
    is_import, is_member_path, is_not_imported, is_open, law_uses_of_imports_become_members,
    lemma_import, uses_import,
};
use super::transform::{
    all_have_parts, emitted, has_await, item_emitted, item_stays, items_upto, specifier_stays,
    specifiers_upto, Replaced,
};
use crate::paths::{below, is_path, lemma_below, node_at, same_node};
use crate::syntax::{at, child, has_part, id_of, Kind, Role, Tree};

verus! {

/// Whether an item is only there to import or to list exports.
pub open spec fn only_links(t: Tree) -> bool {
    t.kind == Kind::ImportDecl || t.kind == Kind::ExportNamed || t.kind == Kind::ExportAll
        || t.kind == Kind::TsNamespaceExport
}

/// Whether a list of exports of the root holds a name that it does not import, and that
/// is more than a type.
pub open spec fn lists_own(t: Tree, ids: Seq<Replaced>) -> bool {
    &&& t.kind == Kind::ExportNamed && !t.flags.type_only && !has_part(t, Role::Source)
    &&& exists|i: int| 0 <= i < t.children.len() && is_own_part(#[trigger] t.children[i], ids)
}

/// Whether a part of a list of exports is for a value that is not imported.
pub open spec fn is_own_part(t: Tree, ids: Seq<Replaced>) -> bool {
    &&& t.kind == Kind::ExportNamedSpecifier && !t.flags.type_only
    &&& has_part(t, Role::Orig) && is_not_imported(ids, id_of(child(t, Role::Orig)))
}

/// Whether an item of a module is in its code.
pub open spec fn is_in_code(t: Tree, ids: Seq<Replaced>, is_root: bool) -> bool {
    !only_links(t) || is_root && lists_own(t, ids)
}

/// Whether one tree is another in which uses of imports are replaced, and nothing else is
/// changed.
pub open spec fn is_rewritten(t: Tree, m: Tree, ids: Seq<Replaced>) -> bool {
    forall|path: Seq<int>|
        #![trigger is_open(t, path, ids)]
        is_path(t, path) && is_open(t, path, ids) ==> is_rewritten_at(t, m, ids, path)
}

/// Whether this holds of one place in the trees.
pub open spec fn is_rewritten_at(t: Tree, m: Tree, ids: Seq<Replaced>, path: Seq<int>) -> bool {
    let a = node_at(t, path);
    let b = node_at(m, path);
    &&& is_path(m, path)
    &&& b.role == a.role
    &&& a.kind == Kind::IdentExpr ==> forall|parts: Seq<Seq<char>>| #[trigger]
        is_import(ids, id_of(a), parts) ==> is_member_path(b, parts)
    &&& a.kind == Kind::ShorthandProp && has_part(a, Role::Name) ==> forall|
        parts: Seq<Seq<char>>,
    | #[trigger]
        is_import(ids, id_of(child(a, Role::Name)), parts) ==> {
            &&& b.kind == Kind::KeyValueProp
            &&& b.children.len() == 2
            &&& b.children[0] == at(Role::Key, child(a, Role::Name))
            &&& b.children[1].role == Role::Value && is_member_path(b.children[1], parts)
        }
    &&& !uses_import(a, ids) ==> same_node(a, b)
}

proof fn lemma_rewritten(t: Tree, ids: Seq<Replaced>, is_root: bool)
    requires
        all_have_parts(ids),
    ensures
        is_rewritten(t, emitted(t, ids, is_root), ids),
{
    assert forall|path: Seq<int>|
        #![trigger is_open(t, path, ids)]
        is_path(t, path) && is_open(t, path, ids) implies is_rewritten_at(
        t,
        emitted(t, ids, is_root),
        ids,
        path,
    ) by {
        law_uses_of_imports_become_members(t, ids, is_root, path);
    }
}

/// Whether an item of the output declares one constant by a name, with the value.
pub open spec fn is_const_of(m: Tree, name: Seq<char>, value: Tree) -> bool {
    let d = m.children[0];
    &&& m.kind == Kind::VarDecl && m.children.len() == 1
    &&& d.kind == Kind::VarDeclarator && d.children.len() == 2
    &&& d.children[0].role == Role::Name && d.children[0].kind == Kind::BindingIdent
    &&& d.children[0].children.len() == 1 && d.children[0].children[0].role == Role::Name
    &&& d.children[0].children[0].text == name
    &&& d.children[1] == at(Role::Init, value)
}

/// Whether an item of the output is what an item of the root becomes: itself, with uses
/// of imports replaced, or, for a list of exports, those parts that are not imported.
pub open spec fn is_root_item(t: Tree, m: Tree, ids: Seq<Replaced>) -> bool {
    if t.kind == Kind::ExportNamed {
        &&& same_list(t, m)
        &&& forall|p: Tree| #[trigger]
            m.children.contains(p) <==> t.children.contains(p) && is_own_part(p, ids)
    } else {
        is_rewritten(t, m, ids)
    }
}

/// Whether two lists of exports are the same but for their parts.
pub open spec fn same_list(t: Tree, m: Tree) -> bool {
    m.kind == t.kind && m.role == t.role && m.flags == t.flags && m.span == t.span && m.origin
        == t.origin && m.text == t.text
}

/// What is exported by default is called by its own name, if it has one.
pub open spec fn default_text(decl: Tree) -> Seq<char> {
    if has_part(decl, Role::Name) {
        child(decl, Role::Name).text
    } else {
        "__pack_default__"@
    }
}

/// Whether an item of the output is what an item of a module other than the root becomes:
/// what was exported is declared, what was exported by default is a constant, and
/// everything else is itself; uses of imports are replaced in each.
pub open spec fn is_module_item(t: Tree, m: Tree, ids: Seq<Replaced>) -> bool {
    let decl = child(t, Role::Decl);
    match t.kind {
        Kind::ExportDecl => has_part(t, Role::Decl) ==> is_rewritten(decl, at(decl.role, m), ids),
        Kind::ExportDefaultExpr => has_part(t, Role::Expr) ==> exists|value: Tree|
            is_rewritten(child(t, Role::Expr), value, ids) && #[trigger] is_const_of(
                m,
                "__pack_default__"@,
                value,
            ),
        Kind::ExportDefaultDecl => {
            &&& has_part(t, Role::Decl) && decl.kind == Kind::TsInterfaceDecl ==> m.kind
                == Kind::EmptyStmt
            &&& has_part(t, Role::Decl) && decl.kind != Kind::TsInterfaceDecl ==> exists|
                value: Tree,
            |
                is_rewritten(decl, value, ids) && #[trigger] is_const_of(
                    m,
                    default_text(decl),
                    value,
                )
        },
        _ => is_rewritten(t, m, ids),
    }
}

proof fn lemma_const(name: Tree, value: Tree, role: Role)
    ensures
        is_const_of(
            at(
                role,
                crate::helpers::const_tree(
                    crate::helpers::binding_tree(name, None),
                    Some(value),
                ),
            ),
            name.text,
            value,
        ),
{
    let m = at(
        role,
        crate::helpers::const_tree(crate::helpers::binding_tree(name, None), Some(value)),
    );
    let d = m.children[0];
    assert(d.children[0].children[0] == at(Role::Name, name));
}

proof fn lemma_specifiers(s: Seq<Tree>, n: nat, ids: Seq<Replaced>, p: Tree)
    requires
        n <= s.len(),
    ensures
        specifiers_upto(s, n, ids).contains(p) <==> s.take(n as int).contains(p) && is_own_part(
            p,
            ids,
        ),
    decreases n,
{
    if n > 0 {
        let m = (n - 1) as nat;
        lemma_specifiers(s, m, ids, p);
        let t = s[n - 1];
        lemma_import(ids, id_of(child(t, Role::Orig)));
        let before = specifiers_upto(s, m, ids);
        let after = specifiers_upto(s, n, ids);
        assert(s.take(n as int) =~= s.take(m as int).push(t));
        lemma_push_contains(s.take(m as int), t, p);
        if specifier_stays(t, ids) {
            lemma_push_contains(before, t, p);
        }
    }
}

proof fn lemma_push_contains(s: Seq<Tree>, t: Tree, p: Tree)
    ensures
        s.push(t).contains(p) <==> s.contains(p) || p == t,
{
    if s.contains(p) {
        let i = s.index_of(p);
        assert(s.push(t)[i] == p);
    }
    if p == t {
        assert(s.push(t)[s.len() as int] == p);
    }
    if s.push(t).contains(p) {
        let i = s.push(t).index_of(p);
        if i < s.len() {
            assert(s[i] == p);
        }
    }
}

proof fn lemma_root_item(t: Tree, ids: Seq<Replaced>)
    requires
        all_have_parts(ids),
    ensures
        is_root_item(t, item_emitted(t, ids, true), ids),
{
    if t.kind == Kind::ExportNamed {
        let m = item_emitted(t, ids, true);
        assert(t.children.take(t.children.len() as int) =~= t.children);
        assert forall|p: Tree| #[trigger] m.children.contains(p) <==> t.children.contains(p)
            && is_own_part(p, ids) by {
            lemma_specifiers(t.children, t.children.len(), ids, p);
        }
    } else {
        lemma_rewritten(t, ids, true);
    }
}

proof fn lemma_module_item(t: Tree, ids: Seq<Replaced>)
    requires
        all_have_parts(ids),
    ensures
        is_module_item(t, item_emitted(t, ids, false), ids),
{
    let m = item_emitted(t, ids, false);
    let decl = child(t, Role::Decl);
    match t.kind {
        Kind::ExportDecl => {
            if has_part(t, Role::Decl) {
                let out = emitted(decl, ids, false);
                lemma_rewritten(decl, ids, false);
                assert(out.role == decl.role);
                assert(at(decl.role, m) == out);
                assert(is_rewritten(decl, at(decl.role, m), ids));
            }
        },
        Kind::ExportDefaultExpr => {
            if has_part(t, Role::Expr) {
                let value = emitted(child(t, Role::Expr), ids, false);
                lemma_rewritten(child(t, Role::Expr), ids, false);
                lemma_const(super::transform::default_name(), value, t.role);
                assert(is_const_of(m, "__pack_default__"@, value));
            }
        },
        Kind::ExportDefaultDecl => {
            if has_part(t, Role::Decl) && decl.kind != Kind::TsInterfaceDecl {
                let value = emitted(decl, ids, false);
                lemma_rewritten(decl, ids, false);
                let name = if has_part(decl, Role::Name) {
                    child(decl, Role::Name)
                } else {
                    super::transform::default_name()
                };
                lemma_const(name, value, t.role);
                assert(default_text(decl) == name.text);
                assert(is_const_of(m, default_text(decl), value));
            }
        },
        _ => {
            lemma_rewritten(t, ids, false);
        },
    }
}

/// How many of the first `n` items of a module are in its code.
pub open spec fn count_in_code(items: Seq<Tree>, n: nat, ids: Seq<Replaced>, is_root: bool) -> nat
    decreases n,
{
    if n == 0 {
        0
    } else {
        count_in_code(items, (n - 1) as nat, ids, is_root) + if is_in_code(
            items[n - 1],
            ids,
            is_root,
        ) {
            1nat
        } else {
            0nat
        }
    }
}

proof fn lemma_stays(t: Tree, ids: Seq<Replaced>, is_root: bool)
    ensures
        item_stays(t, ids, is_root) == is_in_code(t, ids, is_root),
{
    let kept = specifiers_upto(t.children, t.children.len(), ids);
    assert(t.children.take(t.children.len() as int) =~= t.children);
    if kept.len() > 0 {
        lemma_specifiers(t.children, t.children.len(), ids, kept[0]);
        assert(kept.contains(kept[0]));
        let i = t.children.index_of(kept[0]);
        assert(is_own_part(t.children[i], ids));
    }
    if lists_own(t, ids) {
        let i = choose|i: int|
            0 <= i < t.children.len() && is_own_part(#[trigger] t.children[i], ids);
        lemma_specifiers(t.children, t.children.len(), ids, t.children[i]);
        assert(t.children.contains(t.children[i]));
        let k = kept.index_of(t.children[i]);
        assert(0 <= k < kept.len());
    }
}

proof fn lemma_count(items: Seq<Tree>, n: nat, ids: Seq<Replaced>, is_root: bool)
    requires
        n <= items.len(),
    ensures
        items_upto(items, n, ids, is_root).len() == count_in_code(items, n, ids, is_root),
    decreases n,
{
    if n > 0 {
        lemma_count(items, (n - 1) as nat, ids, is_root);
        lemma_stays(items[n - 1], ids, is_root);
    }
}

/// The code of a module has all the items of the module, in their order, but for imports
/// and lists of exports; the root keeps its lists as far as they hold what it does not
/// import. In each, uses of imports are replaced and nothing else is changed, and what a
/// module other than the root exports is only declared.
pub proof fn law_the_items_stay_in_order(
    items: Seq<Tree>,
    n: nat,
    ids: Seq<Replaced>,
    is_root: bool,
    i: int,
)
    requires
        0 <= i < n <= items.len(),
        all_have_parts(ids),
    ensures
        items_upto(items, n, ids, is_root).len() == count_in_code(items, n, ids, is_root),
        is_in_code(items[i], ids, is_root) ==> {
            let k = count_in_code(items, i as nat, ids, is_root) as int;
            let out = items_upto(items, n, ids, is_root);
            &&& 0 <= k < out.len()
            &&& is_root ==> is_root_item(items[i], out[k], ids)
            &&& !is_root ==> is_module_item(items[i], out[k], ids)
        },
    decreases n,
{
    lemma_count(items, n, ids, is_root);
    lemma_count(items, (n - 1) as nat, ids, is_root);
    lemma_stays(items[n - 1], ids, is_root);
    let before = items_upto(items, (n - 1) as nat, ids, is_root);
    let out = items_upto(items, n, ids, is_root);
    if i < n - 1 {
        law_the_items_stay_in_order(items, (n - 1) as nat, ids, is_root, i);
        let k = count_in_code(items, i as nat, ids, is_root) as int;
        if is_in_code(items[i], ids, is_root) {
            assert(out[k] == before[k]);
        }
    } else {
        lemma_root_item(items[i], ids);
        lemma_module_item(items[i], ids);
    }
}

/// Whether a path leads to something that is awaited, through no function and no method.
pub open spec fn awaits_at(t: Tree, path: Seq<int>) -> bool
    decreases path.len(),
{
    if path.len() == 0 {
        t.kind == Kind::AwaitExpr
    } else {
        &&& t.kind != Kind::Function && t.kind != Kind::ArrowExpr && t.kind != Kind::ClassMethod
        &&& 0 <= path[0] < t.children.len()
        &&& awaits_at(t.children[path[0]], path.skip(1))
    }
}

proof fn lemma_await(t: Tree) -> (path: Seq<int>)
    requires
        has_await(t),
    ensures
        awaits_at(t, path),
    decreases t,
{
    if t.kind == Kind::AwaitExpr {
        Seq::empty()
    } else {
        broadcast use lemma_below;

        let i = choose|i: int| 0 <= i < t.children.len() && has_await(#[trigger] t.children[i]);
        let inner = lemma_await(t.children[i]);
        below(i, inner)
    }
}

proof fn lemma_no_await(t: Tree, path: Seq<int>)
    requires
        awaits_at(t, path),
    ensures
        has_await(t),
    decreases path.len(),
{
    if path.len() > 0 {
        lemma_no_await(t.children[path[0]], path.skip(1));
    }
}

/// A module awaits at its top level if and only if something is awaited in one of its
/// items, at whatever depth, outside functions and methods.
pub proof fn law_awaiting_is_seen_at_any_depth(items: Seq<Tree>)
    requires
        forall|i: int, path: Seq<int>|
            0 <= i < items.len() && (#[trigger] items[i]).kind == Kind::ImportDecl
                ==> !#[trigger] awaits_at(items[i], path),
    ensures
        top_level_await(items) <==> exists|i: int, path: Seq<int>|
            0 <= i < items.len() && #[trigger] awaits_at(items[i], path),
{
    if top_level_await(items) {
        let i = choose|i: int|
            0 <= i < items.len() && super::analyze::awaits(#[trigger] items[i]);
        let path = lemma_await(items[i]);
        assert(awaits_at(items[i], path));
    }
    if exists|i: int, path: Seq<int>|
        0 <= i < items.len() && #[trigger] awaits_at(items[i], path) {
        let (i, path) = choose|i: int, path: Seq<int>|
            0 <= i < items.len() && #[trigger] awaits_at(items[i], path);
        lemma_no_await(items[i], path);
        assert(super::analyze::awaits(items[i]));
    }
}

}
