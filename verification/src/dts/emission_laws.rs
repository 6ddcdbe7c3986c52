//! What goes into a bundle for a symbol.

use vstd::prelude::*;

use super::analyzer::UniqueSymbolId;
use super::bundle::{
    bundle_env, decl_added, decl_emitted, is_single_var, mapping_met, met, Bundle, Emission,
    Emitting,
};
use super::idents_laws::stands_for;
use super::names::{key_of, top_level_name, Names};
use super::output::{
    created, decl_item, emitted_of, item_added, lemma_created, lemma_with_emitted, start_of,
    started, with_name, with_span, with_var_name, Emitted, Out,
};
use super::root_symbol::{ModuleInfo, SymbolDecl};
use super::transform::{visited, Mode};
use super::transformer::fresh;
use crate::collections::{distinct_keys, has_key, key_place, lemma_key_place, with_entry};
use crate::helpers::moved;
use crate::syntax::{at, child, has_part, lemma_place, place, place_from, Kind, Role, Span, Tree};

verus! {

/// Whether two nodes are the same but for their spans.
pub open spec fn same_but_span(a: Tree, b: Tree) -> bool {
    a.kind == b.kind && a.role == b.role && a.text == b.text && a.flags == b.flags && a.origin
        == b.origin && a.children == b.children
}

/// Whether two lists of parts are the same but for spans and but for one part.
pub open spec fn same_but_one(a: Seq<Tree>, b: Seq<Tree>, at: int) -> bool {
    a.len() == b.len() && forall|i: int|
        0 <= i < a.len() && i != at ==> same_but_span(#[trigger] a[i], b[i])
}

/// Whether a declaration is another with the name.
pub open spec fn is_called_by(d: Tree, t: Tree, name: Seq<char>) -> bool {
    if t.kind == Kind::VarDecl {
        let a = t.children[0];
        let b = d.children[0];
        let p = child(a, Role::Name);
        let q = child(b, Role::Name);
        &&& d.children.len() == 1 && has_part(b, Role::Name)
        &&& same_but_one(a.children, b.children, place(a, Role::Name))
        &&& q.kind == p.kind && has_part(q, Role::Name) && child(q, Role::Name).text == name
        &&& same_but_one(p.children, q.children, place(p, Role::Name))
    } else {
        &&& has_part(d, Role::Name) && child(d, Role::Name).text == name
        &&& same_but_one(t.children, d.children, place(t, Role::Name))
    }
}

/// The declaration of an item.
pub open spec fn declared_by(m: Tree, is_export: bool) -> Tree {
    if is_export {
        child(m, Role::Decl)
    } else {
        m
    }
}

/// Whether an item declares what a declaration does under the name: with `export` or else,
/// but for interfaces and types, with `declare`.
pub open spec fn is_item_for(m: Tree, t: Tree, name: Seq<char>, is_export: bool) -> bool {
    let d = declared_by(m, is_export);
    &&& m.role == Role::Item
    &&& is_export ==> m.kind == Kind::ExportDecl && has_part(m, Role::Decl)
    &&& d.kind == t.kind
    &&& !is_export && t.kind != Kind::TsInterfaceDecl && t.kind != Kind::TsTypeAliasDecl
        ==> d.flags.declare
    &&& is_called_by(d, t, name)
}

/// Whether a declaration has the one name that it declares.
pub open spec fn is_named(t: Tree) -> bool {
    if t.kind == Kind::VarDecl {
        &&& t.children.len() == 1 && t.children[0].role == Role::Declarator
        &&& has_part(t.children[0], Role::Name)
        &&& has_part(child(t.children[0], Role::Name), Role::Name)
    } else {
        has_part(t, Role::Name)
    }
}

proof fn lemma_place_updated(s: Seq<Tree>, i: int, t: Tree, role: Role, from: int)
    requires
        0 <= from <= s.len(),
        0 <= i < s.len(),
        t.role == s[i].role,
    ensures
        place_from(s.update(i, t), role, from) == place_from(s, role, from),
    decreases s.len() - from,
{
    if from < s.len() {
        lemma_place_updated(s, i, t, role, from + 1);
    }
}

proof fn lemma_with_name(t: Tree, name: Seq<char>)
    requires
        has_part(t, Role::Name),
    ensures
        has_part(with_name(t, name), Role::Name),
        child(with_name(t, name), Role::Name).text == name,
        same_but_one(t.children, with_name(t, name).children, place(t, Role::Name)),
{
    lemma_place(t, Role::Name);
    let p = place(t, Role::Name);
    let changed = Tree { text: name, ..child(t, Role::Name) };
    lemma_place_updated(t.children, p, changed, Role::Name, 0);
}

proof fn lemma_with_span(t: Tree, span: Span)
    ensures
        with_span(t, span).kind == t.kind,
        with_span(t, span).flags == t.flags,
        with_span(t, span).children.len() == t.children.len(),
        t.kind != Kind::ClassDecl && t.kind != Kind::FnDecl ==> with_span(t, span).children
            == t.children,
        forall|i: int|
            0 <= i < t.children.len() ==> same_but_span(
                #[trigger] t.children[i],
                with_span(t, span).children[i],
            ),
        place(with_span(t, span), Role::Name) == place(t, Role::Name),
{
    let role = if t.kind == Kind::ClassDecl {
        Role::Class
    } else {
        Role::Function
    };
    if (t.kind == Kind::ClassDecl || t.kind == Kind::FnDecl) && has_part(t, role) {
        lemma_place(t, role);
        let changed = Tree { span, ..child(t, role) };
        lemma_place_updated(t.children, place(t, role), changed, Role::Name, 0);
    }
}

proof fn lemma_decl_item(t: Tree, name: Seq<char>, span: Span, is_export: bool)
    requires
        is_named(t),
    ensures
        is_item_for(decl_item(t, name, span, is_export), t, name, is_export),
{
    let named = if t.kind == Kind::VarDecl {
        with_var_name(t, name)
    } else {
        with_name(t, name)
    };
    let m = decl_item(t, name, span, is_export);
    let other = if is_export {
        crate::syntax::no_span()
    } else {
        span
    };
    lemma_with_span(named, other);
    reveal_with_fuel(place_from, 2);
    let d = declared_by(m, is_export);
    assert(d.children == with_span(named, other).children);
    assert(place(d, Role::Name) == place(with_span(named, other), Role::Name));
    if t.kind == Kind::VarDecl {
        let a = t.children[0];
        let p = child(a, Role::Name);
        assert(place(t, Role::Declarator) == 0);
        lemma_place(a, Role::Name);
        lemma_with_name(p, name);
        let at_name = place(a, Role::Name);
        lemma_place_updated(a.children, at_name, with_name(p, name), Role::Name, 0);
        let b = named.children[0];
        assert(b.children == a.children.update(at_name, with_name(p, name)));
        assert(child(b, Role::Name) == with_name(p, name));
        assert(d.children[0] == b);
    } else {
        lemma_with_name(t, name);
        assert forall|i: int|
            0 <= i < t.children.len() && i != place(t, Role::Name) implies same_but_span(
            #[trigger] t.children[i],
            d.children[i],
        ) by {
            assert(same_but_span(t.children[i], named.children[i]));
            assert(same_but_span(named.children[i], with_span(named, other).children[i]));
        }
        lemma_place(t, Role::Name);
        let p = place(t, Role::Name);
        assert(place(named, Role::Name) == p) by {
            lemma_place_updated(
                t.children,
                p,
                Tree { text: name, ..child(t, Role::Name) },
                Role::Name,
                0,
            );
        }
        assert(same_but_span(named.children[p], with_span(named, other).children[p]));
        assert(child(d, Role::Name) == d.children[p]);
    }
}

/// Whether the last item in the output of a module declares what a declaration does.
pub open spec fn last_item_declares(
    o: Out,
    module_id: usize,
    t: Tree,
    name: Seq<char>,
    is_export: bool,
) -> bool {
    let items = emitted_of(o.infos, module_id).items;
    &&& has_key(o.infos, module_id) && items.len() > 0
    &&& exists|item: Tree, by: nat|
        is_item_for(item, t, name, is_export) && items.last() == #[trigger] moved(item, by)
}

/// When a declaration is added to a bundle the output of its module gets one more item,
/// which declares it under the name that its symbol has at the top level; with `export` if
/// and only if it is exported under that name.
pub proof fn law_declarations_get_their_names(
    modules: Seq<ModuleInfo>,
    e: Emission,
    s: Emitting,
    decl: Tree,
    span: Span,
)
    requires
        !(decl.kind == Kind::VarDecl && !is_single_var(decl)),
        is_named(
            visited(
                decl,
                Mode::Plain,
                bundle_env(modules[e.id.module_id as int]),
                fresh(),
            ).trees[0],
        ),
        !decl_added(modules, e, s, decl, span).b.out.overflown,
    ensures
        last_item_declares(
            decl_added(modules, e, s, decl, span).b.out,
            e.id.module_id,
            visited(
                decl,
                Mode::Plain,
                bundle_env(modules[e.id.module_id as int]),
                fresh(),
            ).trees[0],
            e.name,
            e.export_name == Some(e.name),
        ),
{
    let id = e.id.module_id;
    let module = modules[id as int];
    let t = visited(decl, Mode::Plain, bundle_env(module), fresh()).trees[0];
    let is_export = e.export_name == Some(e.name);
    let item = decl_item(t, e.name, span, is_export);
    lemma_decl_item(t, e.name, span, is_export);
    let middle = started(s.b.out, id, module);
    let by = start_of(middle, id) as nat;
    let infos = created(middle.infos, id);
    let old_e = emitted_of(infos, id);
    let new_e = Emitted { items: old_e.items.push(moved(item, by)), ..old_e };
    lemma_created(middle.infos, id, id);
    lemma_with_emitted(infos, id, new_e, id);
    let after = decl_added(modules, e, s, decl, span).b.out;
    assert(after == item_added(s.b.out, id, module, item));
    assert(new_e.items.last() == moved(item, by));
}

/// A symbol is called by its own name at the top level, if no other is.
pub proof fn law_free_names_are_kept(n: Names, id: UniqueSymbolId, own: Seq<char>)
    requires
        !n.taken.contains(own),
        !has_key(n.assigned, key_of(id)),
    ensures
        top_level_name(n, id, own) == own,
{
}

/// What the identifiers of a declaration stand for is noted for its module.
pub proof fn law_mappings_are_noted(
    b: Bundle,
    module_id: usize,
    mapping: Seq<((Seq<char>, u32), UniqueSymbolId)>,
    n: nat,
    i: int,
)
    requires
        0 <= i < n <= mapping.len(),
        distinct_keys(mapping),
    ensures
        has_key(mapping_met(b, module_id, mapping, n).out.infos, module_id),
        stands_for(
            emitted_of(mapping_met(b, module_id, mapping, n).out.infos, module_id).mapping,
            mapping[i].0,
            mapping[i].1,
        ),
        mapping_met(b, module_id, mapping, n).analyzed.contains(key_of(mapping[i].1)),
    decreases n,
{
    let before = mapping_met(b, module_id, mapping, (n - 1) as nat);
    let after = met(before, mapping[n - 1].1);
    let infos = created(after.out.infos, module_id);
    let e = emitted_of(infos, module_id);
    let id = mapping[n - 1].0;
    let noted = with_entry(e.mapping, id, mapping[n - 1].1);
    lemma_created(after.out.infos, module_id, module_id);
    lemma_with_emitted(infos, module_id, Emitted { mapping: noted, ..e }, module_id);
    lemma_key_place(e.mapping, id);
    if i < n - 1 {
        law_mappings_are_noted(b, module_id, mapping, (n - 1) as nat, i);
        assert(emitted_of(before.out.infos, module_id) == e) by {
            lemma_created_kept(after.out.infos, module_id);
        }
        let k = choose|k: int|
            0 <= k < e.mapping.len() && #[trigger] e.mapping[k] == (mapping[i].0, mapping[i].1);
        assert(mapping[i].0 != mapping[n - 1].0);
        assert(noted[k] == e.mapping[k]);
    } else {
        let k = if has_key(e.mapping, id) {
            key_place(e.mapping, id)
        } else {
            e.mapping.len() as int
        };
        assert(noted[k] == (id, mapping[n - 1].1));
    }
}

proof fn lemma_created_kept(s: Seq<(usize, Emitted)>, module_id: usize)
    requires
        has_key(s, module_id),
    ensures
        emitted_of(created(s, module_id), module_id) == emitted_of(s, module_id),
{
    lemma_created(s, module_id, module_id);
}

/// What a declaration becomes in the declaration file.
pub open spec fn shown(modules: Seq<ModuleInfo>, e: Emission, decl: Tree) -> Tree {
    visited(decl, Mode::Plain, bundle_env(modules[e.id.module_id as int]), fresh()).trees[0]
}

/// Whether a part of a module's syntax declares a symbol: a declaration that stands there,
/// one that is exported, or one variable of a declaration of several.
pub open spec fn declares_by(decl: SymbolDecl, t: Tree) -> bool {
    let node = decl.node.unwrap();
    let tree = node.tree@;
    &&& !decl.has_overloads && decl.is_definition && decl.node is Some
    &&& if tree.kind == Kind::ExportDecl {
        has_part(tree, Role::Decl) && t == child(tree, Role::Decl)
    } else if tree.kind == Kind::VarDecl {
        &&& node.declarator is Some && node.declarator.unwrap() < tree.children.len()
        &&& t == (Tree { children: seq![tree.children[node.declarator.unwrap() as int]], ..tree })
    } else {
        t == tree
    }
    &&& t.kind == Kind::ClassDecl || t.kind == Kind::FnDecl || t.kind == Kind::TsEnumDecl || t.kind
        == Kind::TsInterfaceDecl || t.kind == Kind::TsTypeAliasDecl || t.kind == Kind::VarDecl
        && t.children.len() == 1
}

/// Each declaration of a symbol goes into the bundle: for the symbol, the output of its
/// module gets an item that declares what the declaration does, under the symbol's name at
/// the top level.
pub proof fn law_declarations_of_symbols_are_added(
    modules: Seq<ModuleInfo>,
    e: Emission,
    s: Emitting,
    decl: SymbolDecl,
    t: Tree,
)
    requires
        declares_by(decl, t),
        is_named(shown(modules, e, t)),
        !(t.kind == Kind::VarDecl && !is_single_var(t)),
        !decl_emitted(modules, e, s, decl).b.out.overflown,
    ensures
        last_item_declares(
            decl_emitted(modules, e, s, decl).b.out,
            e.id.module_id,
            shown(modules, e, t),
            e.name,
            e.export_name == Some(e.name),
        ),
{
    let tree = decl.node.unwrap().tree@;
    lemma_declared_if(modules, e, s, t, tree.span);
}

proof fn lemma_declared_if(
    modules: Seq<ModuleInfo>,
    e: Emission,
    s: Emitting,
    t: Tree,
    span: Span,
)
    requires
        !(t.kind == Kind::VarDecl && !is_single_var(t)),
        is_named(shown(modules, e, t)),
    ensures
        !decl_added(modules, e, s, t, span).b.out.overflown ==> last_item_declares(
            decl_added(modules, e, s, t, span).b.out,
            e.id.module_id,
            shown(modules, e, t),
            e.name,
            e.export_name == Some(e.name),
        ),
{
    if !decl_added(modules, e, s, t, span).b.out.overflown {
        law_declarations_get_their_names(modules, e, s, t, span);
    }
}

}
