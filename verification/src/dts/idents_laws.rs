//! What holds of the names in the declarations of a bundle.

use vstd::prelude::*;

use super::analyzer::{Followed, Target, UniqueSymbolId};
use super::bundle::{
    bundle_env, bundle_items, decl_added, is_single_var, items_upto, module_items, renaming_of,
    Bundle, Emission, Emitting,
};
use super::idents::{
    all_renamed, ident_target, idents, idents_mapped, idents_upto, renamed, renamed_entity, Mapped,
    Renaming,
};
use super::names::{key_of, Names};
use super::output::Emitted;
use super::root_symbol::{symbol_at, ModuleInfo, Symbol};
use super::transform::{visited, Mode};
use super::transformer::fresh;
use crate::collections::{distinct_keys, has_key, key_place, lemma_key_place, lemma_key_place_is};
use crate::paths::{below, is_path, lemma_below, node_at, same_but_flags};
use crate::syntax::{child, has_part, id_of, Flags, Kind, Role, Span, Tree};

verus! {

/// Whether a path leads to a node that does not stand in the key of a property, nor
/// below a name.
pub open spec fn outside_keys(t: Tree, path: Seq<int>) -> bool
    decreases path.len(),
{
    &&& t.role != Role::Key
    &&& path.len() > 0 ==> t.kind != Kind::EntityName && outside_keys(
        t.children[path[0]],
        path.skip(1),
    )
}

/// Whether no identifier of the mapping is this one.
pub open spec fn stands_for_none(
    mapping: Seq<((Seq<char>, u32), UniqueSymbolId)>,
    id: (Seq<char>, u32),
) -> bool {
    forall|i: int| 0 <= i < mapping.len() ==> (#[trigger] mapping[i]).0 != id
}

/// Whether an identifier stands for a symbol.
pub open spec fn stands_for(
    mapping: Seq<((Seq<char>, u32), UniqueSymbolId)>,
    id: (Seq<char>, u32),
    to: UniqueSymbolId,
) -> bool {
    exists|i: int| 0 <= i < mapping.len() && #[trigger] mapping[i] == (id, to)
}

/// Whether a symbol has the name at the top level.
pub open spec fn is_called(
    assigned: Seq<((usize, usize), Seq<char>)>,
    to: UniqueSymbolId,
    name: Seq<char>,
) -> bool {
    exists|i: int|
        0 <= i < assigned.len() && #[trigger] assigned[i] == (
            (to.module_id, to.symbol_id),
            name,
        )
}

/// Whether a module is emitted as a namespace with the name.
pub open spec fn is_namespace(
    infos: Seq<(usize, Emitted)>,
    module_id: usize,
    name: Seq<char>,
) -> bool {
    exists|i: int|
        0 <= i < infos.len() && (#[trigger] infos[i]).0 == module_id && infos[i].1.namespace is Some
            && infos[i].1.namespace.unwrap().name == name
}

/// Whether a module is not emitted as a namespace.
pub open spec fn is_no_namespace(infos: Seq<(usize, Emitted)>, module_id: usize) -> bool {
    forall|i: int|
        0 <= i < infos.len() && (#[trigger] infos[i]).0 == module_id
            ==> infos[i].1.namespace is None
}

/// Whether a node is the name in an entity position, as it is or behind that of a
/// namespace.
pub open spec fn reads_as(t: Tree, namespace: Option<Seq<char>>, name: Seq<char>) -> bool {
    match namespace {
        None => t.kind == Kind::EntityName && t.text == name,
        Some(left) => {
            &&& t.kind == Kind::TsQualifiedName
            &&& t.children.len() == 2
            &&& t.children[0].role == Role::Left && t.children[0].kind == Kind::EntityName
            &&& t.children[0].text == left && t.children[0].children.len() == 0
            &&& t.children[1].role == Role::Right && t.children[1].kind == Kind::Ident
            &&& t.children[1].text == name && t.children[1].children.len() == 0
        },
    }
}

/// Whether no key stands twice in what declarations are renamed by.
pub open spec fn keys_differ(r: Renaming) -> bool {
    distinct_keys(r.mapping) && distinct_keys(r.assigned) && distinct_keys(r.infos)
}

/// Wherever in a declaration a name of a type or a namespace stands, outside the keys of
/// properties, it becomes the name at the top level of the symbol that it stands for,
/// behind the name of the namespace that the symbol's module is emitted as, if it is.
/// A name that stands for no symbol stays.
pub proof fn law_names_are_replaced_wherever_they_stand(t: Tree, r: Renaming, path: Seq<int>)
    requires
        is_path(t, path),
        outside_keys(t, path),
        node_at(t, path).kind == Kind::EntityName,
        keys_differ(r),
    ensures
        is_path(renamed(t, r), path),
        node_at(renamed(t, r), path).role == node_at(t, path).role,
        stands_for_none(r.mapping, id_of(node_at(t, path))) ==> node_at(renamed(t, r), path)
            == node_at(t, path),
        forall|to: UniqueSymbolId, name: Seq<char>|
            #![trigger is_called(r.assigned, to, name)]
            stands_for(r.mapping, id_of(node_at(t, path)), to) && is_called(r.assigned, to, name)
                && is_no_namespace(r.infos, to.module_id) ==> reads_as(
                node_at(renamed(t, r), path),
                None,
                name,
            ),
        forall|to: UniqueSymbolId, name: Seq<char>, namespace: Seq<char>|
            #![trigger is_called(r.assigned, to, name), is_namespace(r.infos, to.module_id, namespace)]
            stands_for(r.mapping, id_of(node_at(t, path)), to) && is_called(r.assigned, to, name)
                && is_namespace(r.infos, to.module_id, namespace) ==> reads_as(
                node_at(renamed(t, r), path),
                Some(namespace),
                name,
            ),
    decreases path.len(),
{
    if path.len() == 0 {
        lemma_entity(t, r);
    } else {
        law_names_are_replaced_wherever_they_stand(t.children[path[0]], r, path.skip(1));
        assert(renamed(t, r).children[path[0]] == renamed(t.children[path[0]], r));
    }
}

proof fn lemma_entity(t: Tree, r: Renaming)
    requires
        t.kind == Kind::EntityName,
        t.role != Role::Key,
        keys_differ(r),
    ensures
        renamed(t, r) == renamed_entity(t, r),
        renamed(t, r).role == t.role,
        stands_for_none(r.mapping, id_of(t)) ==> renamed(t, r) == t,
        forall|to: UniqueSymbolId, name: Seq<char>|
            #![trigger is_called(r.assigned, to, name)]
            stands_for(r.mapping, id_of(t), to) && is_called(r.assigned, to, name)
                && is_no_namespace(r.infos, to.module_id) ==> reads_as(renamed(t, r), None, name),
        forall|to: UniqueSymbolId, name: Seq<char>, namespace: Seq<char>|
            #![trigger is_called(r.assigned, to, name), is_namespace(r.infos, to.module_id, namespace)]
            stands_for(r.mapping, id_of(t), to) && is_called(r.assigned, to, name)
                && is_namespace(r.infos, to.module_id, namespace) ==> reads_as(
                renamed(t, r),
                Some(namespace),
                name,
            ),
{
    let id = id_of(t);
    lemma_key_place(r.mapping, id);
    assert forall|to: UniqueSymbolId, name: Seq<char>|
        #![trigger is_called(r.assigned, to, name)]
        stands_for(r.mapping, id, to) && is_called(r.assigned, to, name) && is_no_namespace(
            r.infos,
            to.module_id,
        ) implies reads_as(renamed(t, r), None, name) by {
        lemma_target_of(r, id, to, name);
        lemma_key_place(r.infos, to.module_id);
    }
    assert forall|to: UniqueSymbolId, name: Seq<char>, namespace: Seq<char>|
        #![trigger is_called(r.assigned, to, name), is_namespace(r.infos, to.module_id, namespace)]
        stands_for(r.mapping, id, to) && is_called(r.assigned, to, name) && is_namespace(
            r.infos,
            to.module_id,
            namespace,
        ) implies reads_as(renamed(t, r), Some(namespace), name) by {
        lemma_target_of(r, id, to, name);
        let k = choose|i: int|
            0 <= i < r.infos.len() && (#[trigger] r.infos[i]).0 == to.module_id
                && r.infos[i].1.namespace is Some && r.infos[i].1.namespace.unwrap().name
                == namespace;
        lemma_key_place_is(r.infos, k);
    }
}

proof fn lemma_target_of(r: Renaming, id: (Seq<char>, u32), to: UniqueSymbolId, name: Seq<char>)
    requires
        keys_differ(r),
        stands_for(r.mapping, id, to),
        is_called(r.assigned, to, name),
    ensures
        has_key(r.mapping, id),
        r.mapping[key_place(r.mapping, id)].1 == to,
        has_key(r.assigned, key_of(to)),
        r.assigned[key_place(r.assigned, key_of(to))].1 == name,
{
    let i = choose|i: int| 0 <= i < r.mapping.len() && #[trigger] r.mapping[i] == (id, to);
    lemma_key_place_is(r.mapping, i);
    let j = choose|i: int|
        0 <= i < r.assigned.len() && #[trigger] r.assigned[i] == (
            (to.module_id, to.symbol_id),
            name,
        );
    lemma_key_place_is(r.assigned, j);
}

/// Whether a node is a declaration that may say that it only declares.
pub open spec fn may_say_declare(t: Tree) -> bool {
    t.kind == Kind::ClassDecl || t.kind == Kind::FnDecl || t.kind == Kind::TsEnumDecl || t.kind
        == Kind::TsInterfaceDecl || t.kind == Kind::VarDecl
}

/// Whatever is no name of a type or a namespace stays, but that declarations in a
/// namespace no longer say that they only declare; and the keys of properties stay whole.
pub proof fn law_the_rest_stays(t: Tree, r: Renaming, path: Seq<int>)
    requires
        is_path(t, path),
        outside_keys(t, path),
        node_at(t, path).kind != Kind::EntityName,
    ensures
        ({
            let n = node_at(t, path);
            let m = node_at(renamed(t, r), path);
            &&& is_path(renamed(t, r), path)
            &&& same_but_flags(n, m)
            &&& m.flags == if r.in_namespace && may_say_declare(n) {
                Flags { declare: false, ..n.flags }
            } else {
                n.flags
            }
            &&& forall|i: int|
                0 <= i < n.children.len() && (#[trigger] n.children[i]).role == Role::Key
                    ==> m.children[i] == n.children[i]
        }),
    decreases path.len(),
{
    if path.len() > 0 {
        law_the_rest_stays(t.children[path[0]], r, path.skip(1));
        assert(renamed(t, r).children[path[0]] == renamed(t.children[path[0]], r));
    } else {
        assert forall|i: int|
            0 <= i < t.children.len() && (#[trigger] t.children[i]).role == Role::Key implies renamed(
            t,
            r,
        ).children[i] == t.children[i] by {
            assert(renamed(t, r).children[i] == renamed(t.children[i], r));
        }
    }
}

/// Whether every identifier of the mapping was resolved in a scope. What the bundler
/// writes itself has no scope.
pub open spec fn all_scoped(mapping: Seq<((Seq<char>, u32), UniqueSymbolId)>) -> bool {
    forall|i: int| 0 <= i < mapping.len() ==> (#[trigger] mapping[i]).0.1 > 0
}

/// No name that stands for a symbol of a module is left in a declaration that was
/// renamed, at any depth.
pub proof fn law_no_mapped_name_is_left(t: Tree, r: Renaming, path: Seq<int>)
    requires
        is_path(renamed(t, r), path),
        outside_keys(renamed(t, r), path),
        node_at(renamed(t, r), path).kind == Kind::EntityName,
        all_scoped(r.mapping),
    ensures
        stands_for_none(r.mapping, id_of(node_at(renamed(t, r), path))),
    decreases path.len(),
{
    let out = renamed(t, r);
    if t.kind == Kind::EntityName {
        lemma_key_place(r.mapping, id_of(t));
        if path.len() > 0 {
            assert(path.skip(1).len() == 0 || is_path(out.children[path[0]], path.skip(1)));
            assert(node_at(out.children[path[0]], path.skip(1)) == node_at(out, path));
            assert(path.skip(1).len() == 0 || out.children[path[0]].children.len() == 0);
        }
    } else if path.len() > 0 {
        assert(out.children[path[0]] == renamed(t.children[path[0]], r));
        law_no_mapped_name_is_left(t.children[path[0]], r, path.skip(1));
    }
}

/// Whether a path leads to a name in a declaration that was resolved in a scope, and that
/// is not the name of a variable that is bound there.
pub open spec fn is_reference(t: Tree, path: Seq<int>) -> bool
    decreases path.len(),
{
    if path.len() == 0 {
        (t.kind == Kind::Ident || t.kind == Kind::IdentExpr || t.kind == Kind::EntityName)
            && t.span.ctxt > 0
    } else {
        &&& 0 <= path[0] < t.children.len()
        &&& !(t.kind == Kind::BindingIdent && t.children[path[0]].role == Role::Name)
        &&& is_reference(t.children[path[0]], path.skip(1))
    }
}

/// Whether an identifier is referred to somewhere in a declaration.
pub open spec fn is_referred_to(t: Tree, id: (Seq<char>, u32)) -> bool {
    exists|path: Seq<int>| #[trigger] is_reference(t, path) && id_of(node_at(t, path)) == id
}

/// The identifiers that are looked up for a declaration are those that are referred to
/// in it, wherever they stand.
pub proof fn law_references_are_looked_up(t: Tree, id: (Seq<char>, u32))
    ensures
        idents(t).contains(id) <==> is_referred_to(t, id),
{
    if idents(t).contains(id) {
        let path = lemma_looked_up(t, id);
    }
    if is_referred_to(t, id) {
        let path = choose|path: Seq<int>| #[trigger]
            is_reference(t, path) && id_of(node_at(t, path)) == id;
        lemma_not_overlooked(t, path);
    }
}

pub proof fn lemma_contains_add<A>(a: Seq<A>, b: Seq<A>, x: A)
    ensures
        (a + b).contains(x) <==> a.contains(x) || b.contains(x),
{
    if a.contains(x) {
        assert((a + b)[a.index_of(x)] == x);
    }
    if b.contains(x) {
        assert((a + b)[a.len() + b.index_of(x)] == x);
    }
    if (a + b).contains(x) {
        let i = (a + b).index_of(x);
        if i < a.len() {
            assert(a[i] == x);
        } else {
            assert(b[i - a.len()] == x);
        }
    }
}

proof fn lemma_not_overlooked(t: Tree, path: Seq<int>)
    requires
        is_reference(t, path),
    ensures
        idents(t).contains(id_of(node_at(t, path))),
    decreases path.len(),
{
    let id = id_of(node_at(t, path));
    let own = if super::binder::is_name(t) && t.span.ctxt > 0 {
        seq![id_of(t)]
    } else {
        Seq::empty()
    };
    let is_binding = t.kind == Kind::BindingIdent;
    let rest = idents_upto(t.children, t.children.len(), is_binding);
    if path.len() == 0 {
        assert(own[0] == id);
    } else {
        lemma_not_overlooked(t.children[path[0]], path.skip(1));
        lemma_part_looked_up(t.children, t.children.len(), is_binding, path[0], id);
    }
    lemma_contains_add(own, rest, id);
}

proof fn lemma_part_looked_up(
    s: Seq<Tree>,
    n: nat,
    is_binding: bool,
    i: int,
    id: (Seq<char>, u32),
)
    requires
        0 <= i < n <= s.len(),
        !(is_binding && s[i].role == Role::Name),
        idents(s[i]).contains(id),
    ensures
        idents_upto(s, n, is_binding).contains(id),
    decreases n,
{
    lemma_contains_add(idents_upto(s, (n - 1) as nat, is_binding), idents(s[n - 1]), id);
    if i < n - 1 {
        lemma_part_looked_up(s, (n - 1) as nat, is_binding, i, id);
    }
}

proof fn lemma_looked_up(t: Tree, id: (Seq<char>, u32)) -> (path: Seq<int>)
    requires
        idents(t).contains(id),
    ensures
        is_reference(t, path),
        id_of(node_at(t, path)) == id,
    decreases t, 1nat, 0nat,
{
    let own = if super::binder::is_name(t) && t.span.ctxt > 0 {
        seq![id_of(t)]
    } else {
        Seq::empty()
    };
    let rest = idents_upto(t.children, t.children.len(), t.kind == Kind::BindingIdent);
    lemma_contains_add(own, rest, id);
    if own.contains(id) {
        Seq::empty()
    } else {
        lemma_looked_up_upto(t, t.children.len(), id)
    }
}

proof fn lemma_looked_up_upto(t: Tree, n: nat, id: (Seq<char>, u32)) -> (path: Seq<int>)
    requires
        n <= t.children.len(),
        idents_upto(t.children, n, t.kind == Kind::BindingIdent).contains(id),
    ensures
        is_reference(t, path),
        id_of(node_at(t, path)) == id,
    decreases t, 0nat, n,
{
    let is_binding = t.kind == Kind::BindingIdent;
    let before = idents_upto(t.children, (n - 1) as nat, is_binding);
    lemma_contains_add(before, idents(t.children[n - 1]), id);
    if before.contains(id) {
        lemma_looked_up_upto(t, (n - 1) as nat, id)
    } else {
        broadcast use lemma_below;

        let inner = lemma_looked_up(t.children[n - 1], id);
        below(n - 1, inner)
    }
}

/// Whether each identifier of a mapping stands for the symbol to which the symbol of the
/// declaration leads it.
pub open spec fn is_consistent(
    mapping: Seq<((Seq<char>, u32), UniqueSymbolId)>,
    symbol: Symbol,
) -> bool {
    forall|i: int|
        0 <= i < mapping.len() ==> ident_target(symbol, (#[trigger] mapping[i]).0)
            == Followed::Found(Target::Symbol(mapping[i].1))
}

proof fn lemma_mapped(m: Mapped, symbol: Symbol, ids: Seq<(Seq<char>, u32)>, n: nat)
    requires
        n <= ids.len(),
        is_consistent(m.mapping, symbol),
        distinct_keys(m.mapping),
    ensures
        ({
            let after = idents_mapped(m, symbol, ids, n);
            &&& is_consistent(after.mapping, symbol)
            &&& distinct_keys(after.mapping)
            &&& m.unsupported ==> after.unsupported
            &&& m.mapping.len() <= after.mapping.len()
            &&& forall|i: int|
                0 <= i < m.mapping.len() ==> after.mapping[i] == (#[trigger] m.mapping[i])
            &&& forall|i: int|
                m.mapping.len() <= i < after.mapping.len() ==> ids.contains(
                    (#[trigger] after.mapping[i]).0,
                )
            &&& forall|i: int| 0 <= i < n ==> is_settled(after, symbol, #[trigger] ids[i])
        }),
    decreases n,
{
    if n > 0 {
        lemma_mapped(m, symbol, ids, (n - 1) as nat);
        let before = idents_mapped(m, symbol, ids, (n - 1) as nat);
        let after = idents_mapped(m, symbol, ids, n);
        let id = ids[n - 1];
        lemma_key_place(before.mapping, id);
        assert(ids.contains(id));
        assert forall|i: int, j: int| 0 <= i < j < after.mapping.len() implies (
        #[trigger] after.mapping[i]).0 != (#[trigger] after.mapping[j]).0 by {
            assert(after.mapping[i] == before.mapping[i]);
            if j < before.mapping.len() {
                assert(after.mapping[j] == before.mapping[j]);
            }
        }
        assert forall|i: int|
            m.mapping.len() <= i < after.mapping.len() implies ids.contains(
            (#[trigger] after.mapping[i]).0,
        ) by {
            if i < before.mapping.len() {
                assert(after.mapping[i] == before.mapping[i]);
            }
        }
        assert forall|i: int| 0 <= i < m.mapping.len() implies after.mapping[i] == (
        #[trigger] m.mapping[i]) by {
            assert(before.mapping[i] == m.mapping[i]);
        }
        assert forall|i: int| 0 <= i < n implies is_settled(after, symbol, #[trigger] ids[i]) by {
            if i < n - 1 {
                assert(is_settled(before, symbol, ids[i]));
                assert forall|to: UniqueSymbolId| #[trigger]
                    stands_for(before.mapping, ids[i], to) implies stands_for(
                    after.mapping,
                    ids[i],
                    to,
                ) by {
                    let k = choose|k: int|
                        0 <= k < before.mapping.len() && #[trigger] before.mapping[k] == (
                            ids[i],
                            to,
                        );
                    assert(after.mapping[k] == (ids[i], to));
                }
            } else if has_key(before.mapping, id) {
                let k = key_place(before.mapping, id);
                assert(after.mapping[k].0 == id);
            } else {
                match ident_target(symbol, id) {
                    Followed::Found(target) => match target {
                        Target::Symbol(to) => {
                            assert(after.mapping[before.mapping.len() as int] == (id, to));
                        },
                        Target::Remote { .. } => {},
                    },
                    _ => {},
                }
            }
        }
    }
}

/// Whether it is known what an identifier stands for: the symbol to which it leads, or
/// that it leads to something that cannot be dealt with.
pub open spec fn is_settled(m: Mapped, symbol: Symbol, id: (Seq<char>, u32)) -> bool {
    match ident_target(symbol, id) {
        Followed::Found(target) => match target {
            Target::Symbol(to) => stands_for(m.mapping, id, to),
            Target::Remote { .. } => m.unsupported,
        },
        Followed::Lost => true,
        Followed::Unsupported => m.unsupported,
    }
}

/// When a declaration is added to a bundle every identifier that is referred to in it is
/// mapped to the symbol to which it leads, and only such are.
pub proof fn law_references_are_mapped(
    modules: Seq<ModuleInfo>,
    e: Emission,
    s: Emitting,
    decl: Tree,
    span: Span,
    id: (Seq<char>, u32),
)
    requires
        !(decl.kind == Kind::VarDecl && !is_single_var(decl)),
        is_consistent(s.m.mapping, symbol_at(modules, e.id)),
        distinct_keys(s.m.mapping),
        all_scoped(s.m.mapping),
    ensures
        ({
            let module = modules[e.id.module_id as int];
            let symbol = symbol_at(modules, e.id);
            let tree = visited(decl, Mode::Plain, bundle_env(module), fresh()).trees[0];
            let m = decl_added(modules, e, s, decl, span).m;
            &&& is_referred_to(tree, id) ==> is_settled(m, symbol, id)
            &&& is_consistent(m.mapping, symbol)
            &&& distinct_keys(m.mapping)
            &&& all_scoped(m.mapping)
        }),
{
    let module = modules[e.id.module_id as int];
    let symbol = symbol_at(modules, e.id);
    let tree = visited(decl, Mode::Plain, bundle_env(module), fresh()).trees[0];
    let ids = idents(tree);
    let m = decl_added(modules, e, s, decl, span).m;
    lemma_mapped(s.m, symbol, ids, ids.len());
    law_references_are_looked_up(tree, id);
    if ids.contains(id) {
        assert(is_settled(m, symbol, ids[ids.index_of(id)]));
    }
    assert forall|i: int| 0 <= i < m.mapping.len() implies (#[trigger] m.mapping[i]).0.1 > 0 by {
        if i < s.m.mapping.len() {
            assert(m.mapping[i] == s.m.mapping[i]);
        } else {
            let path = lemma_looked_up(tree, m.mapping[i].0);
            lemma_scoped(tree, path);
        }
    }
}

proof fn lemma_scoped(t: Tree, path: Seq<int>)
    requires
        is_reference(t, path),
    ensures
        id_of(node_at(t, path)).1 > 0,
    decreases path.len(),
{
    if path.len() > 0 {
        lemma_scoped(t.children[path[0]], path.skip(1));
    }
}

/// Whether a tree is a declaration in which names have become those at the top level, and
/// nothing else has changed but that declarations in a namespace do not say that they only
/// declare.
pub open spec fn is_renamed(t: Tree, m: Tree, r: Renaming) -> bool {
    forall|path: Seq<int>|
        #![trigger outside_keys(t, path)]
        is_path(t, path) && outside_keys(t, path) ==> is_renamed_at(t, m, r, path)
}

/// Whether this holds of one place.
pub open spec fn is_renamed_at(t: Tree, m: Tree, r: Renaming, path: Seq<int>) -> bool {
    let a = node_at(t, path);
    let b = node_at(m, path);
    &&& is_path(m, path)
    &&& b.role == a.role
    &&& a.kind != Kind::EntityName ==> same_but_flags(a, b)
    &&& a.kind == Kind::EntityName ==> {
        &&& stands_for_none(r.mapping, id_of(a)) ==> b == a
        &&& forall|to: UniqueSymbolId, name: Seq<char>|
            #![trigger is_called(r.assigned, to, name)]
            stands_for(r.mapping, id_of(a), to) && is_called(r.assigned, to, name)
                && is_no_namespace(r.infos, to.module_id) ==> reads_as(b, None, name)
        &&& forall|to: UniqueSymbolId, name: Seq<char>, namespace: Seq<char>|
            #![trigger is_called(r.assigned, to, name), is_namespace(r.infos, to.module_id, namespace)]
            stands_for(r.mapping, id_of(a), to) && is_called(r.assigned, to, name)
                && is_namespace(r.infos, to.module_id, namespace) ==> reads_as(
                b,
                Some(namespace),
                name,
            )
    }
}

proof fn lemma_renamed(t: Tree, r: Renaming)
    requires
        keys_differ(r),
    ensures
        is_renamed(t, renamed(t, r), r),
{
    assert forall|path: Seq<int>|
        #![trigger outside_keys(t, path)]
        is_path(t, path) && outside_keys(t, path) implies is_renamed_at(t, renamed(t, r), r, path) by {
        if node_at(t, path).kind == Kind::EntityName {
            law_names_are_replaced_wherever_they_stand(t, r, path);
        } else {
            law_the_rest_stays(t, r, path);
        }
    }
}

/// Whether a tree stands among the items, or among those of a namespace with the name.
pub open spec fn stands_among(s: Seq<Tree>, m: Tree, namespace: Option<Seq<char>>) -> bool {
    match namespace {
        None => s.contains(m),
        Some(name) => exists|i: int|
            {
                let t = #[trigger] s[i];
                &&& 0 <= i < s.len() && t.kind == Kind::TsModuleDecl
                &&& has_part(t, Role::Name) && child(t, Role::Name).text == name
                &&& has_part(t, Role::Body) && child(t, Role::Body).children.contains(m)
            },
    }
}

/// The name of the namespace as which a module is emitted, if it is.
pub open spec fn namespace_text(e: Emitted) -> Option<Seq<char>> {
    match e.namespace {
        Some(namespace) => Some(namespace.name),
        None => None,
    }
}

/// The renamed declaration stands in the bundle.
pub proof fn lemma_in_bundle(b: Bundle, i: int, j: int)
    requires
        0 <= i < b.out.infos.len(),
        0 <= j < b.out.infos[i].1.items.len(),
        distinct_keys(b.out.infos),
        distinct_keys(b.names.assigned),
        distinct_keys(b.out.infos[i].1.mapping),
    ensures
        ({
            let e = b.out.infos[i].1;
            let r = renaming_of(b.names, b.out.infos, e);
            let m = renamed(e.items[j], r);
            is_renamed(e.items[j], m, r) && stands_among(bundle_items(b), m, namespace_text(e))
        }),
{
    let infos = b.out.infos;
    let e = infos[i].1;
    let r = renaming_of(b.names, infos, e);
    let m = renamed(e.items[j], r);
    lemma_renamed(e.items[j], r);
    let own = module_items(b.names, infos, infos[i].0, e);
    let all = items_upto(b.names, infos, infos.len());
    let namespace = namespace_text(e);
    let items = all_renamed(e.items, r);
    assert(items[j] == m);
    match e.namespace {
        Some(n) => {
            let t = own[0];
            reveal_with_fuel(crate::syntax::place_from, 3);
            let body = child(t, Role::Body).children;
            assert(body[j] == m);
            assert(stands_among(own, m, namespace));
        },
        None => {
            assert(own[j] == m);
        },
    }
    lemma_among_items(b.names, infos, infos.len(), i, m, namespace);
    if b.queued.len() > 0 {
        let bundle = bundle_items(b);
        match namespace {
            None => {
                let k = all.index_of(m);
                assert(bundle[k] == all[k]);
            },
            Some(name) => {
                let k = choose|k: int|
                    {
                        let t = #[trigger] all[k];
                        &&& 0 <= k < all.len() && t.kind == Kind::TsModuleDecl
                        &&& has_part(t, Role::Name) && child(t, Role::Name).text == name
                        &&& has_part(t, Role::Body) && child(t, Role::Body).children.contains(m)
                    };
                assert(bundle[k] == all[k]);
            },
        }
    }
    assert(stands_among(bundle_items(b), m, namespace_text(e)));
}

/// Every declaration that goes into the output of a module stands in the bundle, at its
/// top level or in the namespace of the module, with the names of types and namespaces in
/// it replaced, wherever in it they stand.
pub proof fn law_declarations_in_the_bundle_are_renamed(b: Bundle, i: int, j: int)
    requires
        0 <= i < b.out.infos.len(),
        0 <= j < b.out.infos[i].1.items.len(),
        distinct_keys(b.out.infos),
        distinct_keys(b.names.assigned),
        distinct_keys(b.out.infos[i].1.mapping),
    ensures
        ({
            let e = b.out.infos[i].1;
            let r = Renaming {
                mapping: e.mapping,
                in_namespace: e.namespace is Some,
                assigned: b.names.assigned,
                infos: b.out.infos,
            };
            exists|m: Tree|
                is_renamed(e.items[j], m, r) && #[trigger] stands_among(
                    bundle_items(b),
                    m,
                    namespace_text(e),
                )
        }),
{
    lemma_in_bundle(b, i, j);
}

pub proof fn lemma_among_items(
    names: Names,
    infos: Seq<(usize, Emitted)>,
    n: nat,
    i: int,
    m: Tree,
    namespace: Option<Seq<char>>,
)
    requires
        0 <= i < n <= infos.len(),
        stands_among(module_items(names, infos, infos[i].0, infos[i].1), m, namespace),
    ensures
        stands_among(items_upto(names, infos, n), m, namespace),
    decreases n,
{
    let before = items_upto(names, infos, (n - 1) as nat);
    let last = module_items(names, infos, infos[n - 1].0, infos[n - 1].1);
    let all = before + last;
    if i < n - 1 {
        lemma_among_items(names, infos, (n - 1) as nat, i, m, namespace);
    }
    match namespace {
        None => {
            lemma_contains_add(before, last, m);
        },
        Some(name) => {
            let s = if i < n - 1 {
                before
            } else {
                last
            };
            let k = choose|k: int|
                {
                    let t = #[trigger] s[k];
                    &&& 0 <= k < s.len() && t.kind == Kind::TsModuleDecl
                    &&& has_part(t, Role::Name) && child(t, Role::Name).text == name
                    &&& has_part(t, Role::Body) && child(t, Role::Body).children.contains(m)
                };
            if i < n - 1 {
                assert(all[k] == before[k]);
            } else {
                assert(all[before.len() + k] == last[k]);
            }
        },
    }
}

}
