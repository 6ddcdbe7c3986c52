//! What a bundle and its namespaces export by lists, and what a namespace exports of
//! others.

use vstd::prelude::*;

use super::analyzer::UniqueSymbolId;
use super::bundle::{
    bundle_items, items_upto, module_items, other_exports, own_specifiers, queued_specifiers,
    Bundle,
};
use super::idents_laws::{
    is_called, is_namespace, lemma_among_items, stands_among,
};
use super::keep_laws::is_wanted;
use super::names::Names;
use super::namespace_laws::{is_alias, is_export_as, is_source, pack_of};
use super::output::Emitted;
use super::transform::{
    export_out, is_kept, node_out, plain_out, re_exported_upto, specifier_re_exported, visited,
    Env, Mode, State,
};
use crate::collections::{distinct_keys, key_place, lemma_key_place, lemma_key_place_is};
use crate::syntax::{at, child, has_part, place_from, Kind, Role, Tree};

verus! {

/// Whether a part of a list exports a name under another, or under itself.
pub open spec fn is_specifier(t: Tree, name: Seq<char>, exported: Seq<char>) -> bool {
    &&& t.kind == Kind::ExportNamedSpecifier && t.role == Role::Specifier
    &&& has_part(t, Role::Orig) && child(t, Role::Orig).text == name
    &&& if has_part(t, Role::Exported) {
        child(t, Role::Exported).text == exported
    } else {
        name == exported
    }
}

/// Whether an item lists such an export.
pub open spec fn lists(t: Tree, name: Seq<char>, exported: Seq<char>) -> bool {
    &&& t.kind == Kind::ExportNamed && t.role == Role::Item && !has_part(t, Role::Source)
    &&& exists|i: int|
        0 <= i < t.children.len() && is_specifier(#[trigger] t.children[i], name, exported)
}

proof fn lemma_specifier(name: Seq<char>, exported: Seq<char>, other: Option<Seq<char>>)
    requires
        other == if name == exported {
            None::<Seq<char>>
        } else {
            Some(exported)
        },
    ensures
        is_specifier(
            at(Role::Specifier, crate::helpers::export_specifier_tree(name, other)),
            name,
            exported,
        ),
{
    reveal_with_fuel(place_from, 3);
}

proof fn lemma_no_source(s: Seq<Tree>, from: int)
    requires
        0 <= from <= s.len(),
        forall|i: int| 0 <= i < s.len() ==> (#[trigger] s[i]).role == Role::Specifier,
    ensures
        place_from(s, Role::Source, from) == s.len(),
    decreases s.len() - from,
{
    if from < s.len() {
        assert(s[from].role == Role::Specifier);
        lemma_no_source(s, from + 1);
    }
}

/// Each export that is listed in a bundle stands in the list behind its declarations.
pub proof fn law_listed_exports_are_exported(b: Bundle, k: int)
    requires
        0 <= k < b.queued.len(),
    ensures
        bundle_items(b).len() > 0,
        lists(bundle_items(b).last(), b.queued[k].0, b.queued[k].1),
{
    let t = bundle_items(b).last();
    let s = queued_specifiers(b.queued);
    assert(t.children == s);
    lemma_no_source(s, 0);
    let (name, exported) = b.queued[k];
    lemma_specifier(
        name,
        exported,
        if name == exported {
            None
        } else {
            Some(exported)
        },
    );
    assert(is_specifier(t.children[k], name, exported));
}

/// Whether an item exports from a namespace what stands for an export of another:
/// `export import <name> = <left>.<right>;`
pub open spec fn is_exported_alias(
    t: Tree,
    name: Seq<char>,
    left: Seq<char>,
    right: Seq<char>,
) -> bool {
    t.flags.is_export && is_alias(t, name, left, Some(right))
}

proof fn lemma_own_specifiers(
    names: Names,
    module_id: usize,
    exports: Seq<(Seq<char>, UniqueSymbolId)>,
    n: nat,
)
    ensures
        forall|i: int|
            0 <= i < own_specifiers(names, module_id, exports, n).len() ==> (
            #[trigger] own_specifiers(names, module_id, exports, n)[i]).role == Role::Specifier,
    decreases n,
{
    if n > 0 {
        lemma_own_specifiers(names, module_id, exports, (n - 1) as nat);
    }
}

proof fn lemma_own_specifier(
    names: Names,
    module_id: usize,
    exports: Seq<(Seq<char>, UniqueSymbolId)>,
    n: nat,
    k: int,
    name: Seq<char>,
) -> (j: int)
    requires
        0 <= k < n <= exports.len(),
        exports[k].1.module_id == module_id,
        distinct_keys(names.assigned),
        is_called(names.assigned, exports[k].1, name),
    ensures
        0 <= j < own_specifiers(names, module_id, exports, n).len(),
        is_specifier(
            own_specifiers(names, module_id, exports, n)[j],
            name,
            exports[k].0,
        ),
    decreases n,
{
    let before = own_specifiers(names, module_id, exports, (n - 1) as nat);
    if k < n - 1 {
        lemma_own_specifier(names, module_id, exports, (n - 1) as nat, k, name)
    } else {
        lemma_called(names, exports[k].1, name);
        lemma_specifier(
            name,
            exports[k].0,
            if name == exports[k].0 {
                None
            } else {
                Some(exports[k].0)
            },
        );
        before.len() as int
    }
}

proof fn lemma_called(names: Names, id: UniqueSymbolId, name: Seq<char>)
    requires
        distinct_keys(names.assigned),
        is_called(names.assigned, id, name),
    ensures
        super::idents::assigned_name(names.assigned, id) == name,
{
    let i = choose|i: int|
        0 <= i < names.assigned.len() && #[trigger] names.assigned[i] == (
            (id.module_id, id.symbol_id),
            name,
        );
    lemma_key_place_is(names.assigned, i);
}

proof fn lemma_other_export(
    names: Names,
    infos: Seq<(usize, Emitted)>,
    module_id: usize,
    exports: Seq<(Seq<char>, UniqueSymbolId)>,
    n: nat,
    k: int,
    left: Seq<char>,
    name: Seq<char>,
) -> (j: int)
    requires
        0 <= k < n <= exports.len(),
        exports[k].1.module_id != module_id,
        distinct_keys(names.assigned),
        distinct_keys(infos),
        is_called(names.assigned, exports[k].1, name),
        is_namespace(infos, exports[k].1.module_id, left),
    ensures
        0 <= j < other_exports(names, infos, module_id, exports, n).len(),
        is_exported_alias(
            other_exports(names, infos, module_id, exports, n)[j],
            exports[k].0,
            left,
            name,
        ),
    decreases n,
{
    let before = other_exports(names, infos, module_id, exports, (n - 1) as nat);
    if k < n - 1 {
        lemma_other_export(names, infos, module_id, exports, (n - 1) as nat, k, left, name)
    } else {
        lemma_called(names, exports[k].1, name);
        let i = choose|i: int|
            0 <= i < infos.len() && (#[trigger] infos[i]).0 == exports[k].1.module_id
                && infos[i].1.namespace is Some && infos[i].1.namespace.unwrap().name == left;
        lemma_key_place_is(infos, i);
        before.len() as int
    }
}

/// A namespace in a bundle exports whatever its module does: what is declared in it by a
/// list, under the names that the symbols have at the top level, and what is declared in
/// others by a link to their namespaces.
pub proof fn law_namespaces_export_what_their_modules_do(
    b: Bundle,
    i: int,
    k: int,
    name: Seq<char>,
    left: Seq<char>,
)
    requires
        0 <= i < b.out.infos.len(),
        b.out.infos[i].1.namespace is Some,
        0 <= k < b.out.infos[i].1.namespace.unwrap().exports.len(),
        distinct_keys(b.out.infos),
        distinct_keys(b.names.assigned),
        is_called(b.names.assigned, b.out.infos[i].1.namespace.unwrap().exports[k].1, name),
        b.out.infos[i].1.namespace.unwrap().exports[k].1.module_id == b.out.infos[i].0
            || is_namespace(
            b.out.infos,
            b.out.infos[i].1.namespace.unwrap().exports[k].1.module_id,
            left,
        ),
    ensures
        ({
            let namespace = b.out.infos[i].1.namespace.unwrap();
            let (exported, id) = namespace.exports[k];
            exists|m: Tree|
                {
                    &&& #[trigger] stands_among(bundle_items(b), m, Some(namespace.name))
                    &&& if id.module_id == b.out.infos[i].0 {
                        lists(m, name, exported)
                    } else {
                        is_exported_alias(m, exported, left, name)
                    }
                }
        }),
{
    let infos = b.out.infos;
    let e = infos[i].1;
    let module_id = infos[i].0;
    let namespace = e.namespace.unwrap();
    let exports = namespace.exports;
    let (exported, id) = exports[k];
    let items = super::idents::all_renamed(
        e.items,
        super::bundle::renaming_of(b.names, infos, e),
    );
    let linked = other_exports(b.names, infos, module_id, exports, exports.len());
    let own = own_specifiers(b.names, module_id, exports, exports.len());
    let others = items + linked;
    let mine = module_items(b.names, infos, module_id, e);
    reveal_with_fuel(place_from, 3);
    let body = child(mine[0], Role::Body).children;
    let m = if id.module_id == module_id {
        let j = lemma_own_specifier(b.names, module_id, exports, exports.len(), k, name);
        lemma_own_specifiers(b.names, module_id, exports, exports.len());
        lemma_no_source(own, 0);
        let list = at(Role::Item, crate::helpers::export_named_tree(own));
        assert(is_specifier(list.children[j], name, exported));
        assert(body[others.len() as int] == list);
        list
    } else {
        let j = lemma_other_export(
            b.names,
            infos,
            module_id,
            exports,
            exports.len(),
            k,
            left,
            name,
        );
        assert(others[items.len() + j] == linked[j]);
        assert(body[items.len() + j] == linked[j]);
        linked[j]
    };
    assert(body.contains(m));
    assert(stands_among(mine, m, Some(namespace.name)));
    lemma_among_items(b.names, infos, infos.len(), i, m, Some(namespace.name));
    let all = items_upto(b.names, infos, infos.len());
    let bundle = bundle_items(b);
    let p = choose|p: int|
        {
            let t = #[trigger] all[p];
            &&& 0 <= p < all.len() && t.kind == Kind::TsModuleDecl
            &&& has_part(t, Role::Name) && child(t, Role::Name).text == namespace.name
            &&& has_part(t, Role::Body) && child(t, Role::Body).children.contains(m)
        };
    assert(bundle[p] == all[p]);
    assert(stands_among(bundle, m, Some(namespace.name)));
}

/// Whether two items that follow each other link a name to an export of another module's
/// namespace and export it.
pub open spec fn links_export(
    s: Seq<Tree>,
    left: Seq<char>,
    right: Option<Seq<char>>,
    exported: Seq<char>,
) -> bool {
    exists|k: int, temp: Seq<char>|
        {
            &&& 0 <= k < s.len() - 1
            &&& is_alias(#[trigger] s[k], temp, left, right)
            &&& #[trigger] is_export_as(s[k + 1], temp, exported)
        }
}

/// The name of an export in the namespace of its module.
pub open spec fn name_there(name: Seq<char>) -> Seq<char> {
    if name == "default"@ {
        "__default"@
    } else {
        name
    }
}

/// Whether what a part of `export { .. } from ".."` exports is linked and exported: an
/// export of the other module's namespace, or the namespace.
pub open spec fn is_part_linked(s: Seq<Tree>, part: Tree, id: usize) -> bool {
    &&& part.kind == Kind::ExportNamedSpecifier && has_part(part, Role::Orig) && child(
        part,
        Role::Orig,
    ).kind == Kind::Ident && (has_part(part, Role::Exported) ==> child(part, Role::Exported).kind
        == Kind::Ident) ==> links_export(
        s,
        pack_of(id),
        Some(name_there(child(part, Role::Orig).text)),
        if has_part(part, Role::Exported) {
            child(part, Role::Exported).text
        } else {
            child(part, Role::Orig).text
        },
    )
    &&& part.kind == Kind::ExportNamespaceSpecifier && has_part(part, Role::Name) && child(
        part,
        Role::Name,
    ).kind == Kind::Ident ==> links_export(s, pack_of(id), None, child(part, Role::Name).text)
}

proof fn lemma_links_kept(
    s: Seq<Tree>,
    more: Seq<Tree>,
    left: Seq<char>,
    right: Option<Seq<char>>,
    exported: Seq<char>,
)
    requires
        links_export(s, left, right, exported),
    ensures
        links_export(s + more, left, right, exported),
{
    let all = s + more;
    let (k, temp) = choose|k: int, temp: Seq<char>|
        {
            &&& 0 <= k < s.len() - 1
            &&& is_alias(#[trigger] s[k], temp, left, right)
            &&& #[trigger] is_export_as(s[k + 1], temp, exported)
        };
    assert(all[k] == s[k]);
    assert(all[k + 1] == s[k + 1]);
    assert(is_alias(all[k], temp, left, right) && is_export_as(all[k + 1], temp, exported));
}

proof fn lemma_re_exported(t: Tree, id: usize, st: State)
    ensures
        st.append.len() <= specifier_re_exported(t, id as int, st).append.len(),
        specifier_re_exported(t, id as int, st).append.take(st.append.len() as int)
            == st.append,
        is_part_linked(specifier_re_exported(t, id as int, st).append, t, id),
{
    reveal(specifier_re_exported);
    let after = specifier_re_exported(t, id as int, st).append;
    assert(after.take(st.append.len() as int) =~= st.append);
    let n = st.append.len() as int;
    let temp = super::transform::export_name_text(st.given + 1);
    if after.len() > n {
        let exported = if t.kind == Kind::ExportNamedSpecifier {
            super::transform::specifier_name(t)
        } else {
            child(t, Role::Name).text
        };
        assert(is_export_as(after[n + 1], temp, exported));
        if t.kind == Kind::ExportNamedSpecifier {
            assert(is_alias(
                after[n],
                temp,
                pack_of(id),
                Some(name_there(child(t, Role::Orig).text)),
            ));
        } else {
            assert(is_alias(after[n], temp, pack_of(id), None));
        }
    }
}

proof fn lemma_part_kept(s: Seq<Tree>, more: Seq<Tree>, part: Tree, id: usize)
    requires
        is_part_linked(s, part, id),
    ensures
        is_part_linked(s + more, part, id),
{
    let orig = child(part, Role::Orig).text;
    let exported = if has_part(part, Role::Exported) {
        child(part, Role::Exported).text
    } else {
        orig
    };
    if links_export(s, pack_of(id), Some(name_there(orig)), exported) {
        lemma_links_kept(s, more, pack_of(id), Some(name_there(orig)), exported);
    }
    if links_export(s, pack_of(id), None, child(part, Role::Name).text) {
        lemma_links_kept(s, more, pack_of(id), None, child(part, Role::Name).text);
    }
}

proof fn lemma_re_exported_upto(s: Seq<Tree>, n: nat, env: Env, id: usize, st: State, j: int)
    requires
        0 <= j < n <= s.len(),
        s[j].role == Role::Specifier,
        is_wanted(s[j], env),
    ensures
        is_part_linked(re_exported_upto(s, n, env, id as int, st).append, s[j], id),
    decreases n,
{
    reveal(is_kept);
    let before = re_exported_upto(s, (n - 1) as nat, env, id as int, st);
    lemma_re_exported(s[n - 1], id, before);
    if j < n - 1 {
        lemma_re_exported_upto(s, (n - 1) as nat, env, id, st, j);
        let after = re_exported_upto(s, n, env, id as int, st).append;
        let more = after.skip(before.append.len() as int);
        assert(after =~= before.append + more);
        lemma_part_kept(before.append, more, s[j], id);
    }
}

/// What a module exports of another is linked to the other's namespace and exported from
/// there, behind the items of the module's own namespace.
pub proof fn law_exports_of_others_are_linked(
    t: Tree,
    env: Env,
    st: State,
    j: int,
    id: usize,
    is_remote: bool,
)
    requires
        t.kind == Kind::ExportNamed,
        has_part(t, Role::Source),
        is_source(env.sources, child(t, Role::Source).text, id, is_remote),
        0 <= j < t.children.len(),
        t.children[j].role == Role::Specifier,
        is_wanted(t.children[j], env),
    ensures
        is_part_linked(visited(t, Mode::Plain, env, st).st.append, t.children[j], id),
{
    reveal(node_out);
    reveal(plain_out);
    reveal(export_out);
    let text = child(t, Role::Source).text;
    lemma_key_place(env.sources, text);
    let k = choose|k: int|
        {
            &&& 0 <= k < env.sources.len()
            &&& #[trigger] env.sources[k] == (text, (Some(id), is_remote))
            &&& forall|l: int| 0 <= l < k ==> (#[trigger] env.sources[l]).0 != text
        };
    assert(key_place(env.sources, text) == k);
    lemma_re_exported_upto(t.children, t.children.len(), env, id, st, j);
}

/// A name that a module exports by default is exported from its namespace, where `default`
/// cannot stand.
pub proof fn law_default_names_are_exported(t: Tree, env: Env, st: State)
    requires
        t.kind == Kind::ExportDefaultExpr,
        env.in_namespace,
        has_part(t, Role::Expr),
        child(t, Role::Expr).kind == Kind::IdentExpr,
    ensures
        ({
            let after = visited(t, Mode::Plain, env, st).st.append;
            after.len() > 0 && is_export_as(
                after.last(),
                child(t, Role::Expr).text,
                "__default"@,
            )
        }),
{
    reveal(node_out);
    reveal(plain_out);
    reveal(super::transform::default_exported);
}

}
