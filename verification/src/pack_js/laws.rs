//! What the packed module exports.

use vstd::prelude::*;

use super::analyze::{
    analyzed, decl_exports, dependencies_of, imports_upto, is_from_other, item_exports,
    item_re_exports, items_added, listed_export, listed_upto, resolved, source_text,
    top_level_await,
};
use super::data::{
    data_of, export_names, leads, lemma_mentioned, lemma_with_data, mentioned, no_data,
    passes_all_of, reaches, with_data, Data, Export,
};
use super::emit::{
    export_all_tree, has_property, is_external, law_every_export_is_defined,
    lemma_has_property_add, lemma_has_property_push, module_output, moved_upto, own_upto,
    passed_on, properties, root_exports_upto, root_properties, temp_name, web_exports_upto,
    Defined,
};
use super::transform::{
    all_emitted, chain, emitted, is_list, item_emitted, item_stays, items_upto, parts_of,
    specifier_stays, specifiers_upto, Replaced,
};
use super::{
    analyzed_upto, code_from, graph_root_dir, header, header_upto, is_packed, module_code,
    packed_items, GraphModule, Header, PackOptions,
};
use crate::collections::{distinct_keys, has_key, key_place, lemma_key_place};
use crate::dts::binder::{pat_ids, pat_ids_upto, var_ids_upto};
use crate::helpers::{export_as_tree, name_expr_tree};
use crate::specifier::is_file_url;
use crate::syntax::{at, child, has_part, id_of, lemma_place, place, place_from, Kind, Role, Tree};

verus! {

/// What a part of a list of exports is called outside.
pub open spec fn specifier_text(t: Tree) -> Seq<char> {
    if has_part(t, Role::Exported) {
        child(t, Role::Exported).text
    } else {
        child(t, Role::Orig).text
    }
}

/// Whether a part of a list of exports has the name.
pub open spec fn specifier_gives(t: Tree, name: Seq<char>) -> bool {
    t.kind == Kind::ExportNamedSpecifier && !t.flags.type_only && has_part(t, Role::Orig)
        && specifier_text(t) == name
}

/// Whether a declaration declares the name.
pub open spec fn decl_gives(t: Tree, name: Seq<char>) -> bool {
    exists|i: int|
        0 <= i < decl_exports(t, true).len() && (#[trigger] decl_exports(t, true)[i]).name() == name
}

/// Whether an item of a module exports the name.
pub open spec fn item_gives(t: Tree, name: Seq<char>) -> bool {
    match t.kind {
        Kind::ExportDecl => has_part(t, Role::Decl) && decl_gives(child(t, Role::Decl), name),
        Kind::ExportDefaultDecl => has_part(t, Role::Decl) && child(t, Role::Decl).kind
            != Kind::TsInterfaceDecl && name == "default"@,
        Kind::ExportDefaultExpr => name == "default"@,
        Kind::ExportNamed => !t.flags.type_only && exists|i: int|
            0 <= i < t.children.len() && specifier_gives(#[trigger] t.children[i], name),
        _ => false,
    }
}

/// Whether one of the items exports the name.
pub open spec fn gives(s: Seq<Tree>, name: Seq<char>) -> bool {
    exists|i: int| 0 <= i < s.len() && item_gives(#[trigger] s[i], name)
}

/// Whether one of the exports stays where it stands and has the name.
pub open spec fn gives_in_place(s: Seq<Export>, name: Seq<char>) -> bool {
    exists|i: int| 0 <= i < s.len() && (#[trigger] s[i]).in_place && s[i].name() == name
}

/// What the first `n` items of a module export of what the module itself declares or
/// imports.
pub open spec fn exports_upto(items: Seq<Tree>, n: nat, ids: Seq<Replaced>, is_root: bool) -> Seq<
    Export,
>
    decreases n,
{
    if n == 0 {
        Seq::empty()
    } else {
        exports_upto(items, (n - 1) as nat, ids, is_root) + item_exports(
            items[n - 1],
            ids,
            is_root,
        )
    }
}

/// Whether the names and keys in a tree are no expressions, and declarations of
/// variables hold declarators.
pub open spec fn names_plain(t: Tree) -> bool
    decreases t,
{
    forall|i: int|
        0 <= i < t.children.len() ==> names_plain(#[trigger] t.children[i]) && (
        t.children[i].role == Role::Name || t.children[i].role == Role::Key ==> t.children[i].kind
            != Kind::IdentExpr && t.children[i].kind != Kind::ShorthandProp) && (t.kind
            == Kind::VarDecl ==> t.children[i].kind == Kind::VarDeclarator)
}

proof fn lemma_gives_add(a: Seq<Tree>, b: Seq<Tree>, name: Seq<char>)
    ensures
        gives(a + b, name) <==> gives(a, name) || gives(b, name),
{
    if gives(a, name) {
        let i = choose|i: int| 0 <= i < a.len() && item_gives(#[trigger] a[i], name);
        assert((a + b)[i] == a[i]);
    }
    if gives(b, name) {
        let i = choose|i: int| 0 <= i < b.len() && item_gives(#[trigger] b[i], name);
        assert((a + b)[a.len() + i] == b[i]);
    }
    if gives(a + b, name) {
        let i = choose|i: int| 0 <= i < (a + b).len() && item_gives(#[trigger] (a + b)[i], name);
        if i < a.len() {
            assert((a + b)[i] == a[i]);
        } else {
            assert((a + b)[i] == b[i - a.len()]);
        }
    }
}

proof fn lemma_gives_push(a: Seq<Tree>, t: Tree, name: Seq<char>)
    ensures
        gives(a.push(t), name) <==> gives(a, name) || item_gives(t, name),
{
    assert(a.push(t) =~= a + seq![t]);
    lemma_gives_add(a, seq![t], name);
    assert(seq![t][0] == t);
}

proof fn lemma_in_place_add(a: Seq<Export>, b: Seq<Export>, name: Seq<char>)
    ensures
        gives_in_place(a + b, name) <==> gives_in_place(a, name) || gives_in_place(b, name),
{
    if gives_in_place(a, name) {
        let i = choose|i: int|
            0 <= i < a.len() && (#[trigger] a[i]).in_place && a[i].name() == name;
        assert((a + b)[i] == a[i]);
    }
    if gives_in_place(b, name) {
        let i = choose|i: int|
            0 <= i < b.len() && (#[trigger] b[i]).in_place && b[i].name() == name;
        assert((a + b)[a.len() + i] == b[i]);
    }
    if gives_in_place(a + b, name) {
        let i = choose|i: int|
            0 <= i < (a + b).len() && (#[trigger] (a + b)[i]).in_place && (a + b)[i].name() == name;
        if i < a.len() {
            assert((a + b)[i] == a[i]);
        } else {
            assert((a + b)[i] == b[i - a.len()]);
        }
    }
}

/// The kind of a node is kept, but for identifiers that are replaced.
proof fn lemma_kind(t: Tree, ids: Seq<Replaced>)
    ensures
        emitted(t, ids, true).role == t.role,
        t.kind != Kind::IdentExpr && t.kind != Kind::ShorthandProp ==> emitted(t, ids, true)
            == (Tree { children: emitted(t, ids, true).children, ..t }),
        t.kind == Kind::IdentExpr || t.kind == Kind::ShorthandProp ==> {
            let kind = emitted(t, ids, true).kind;
            kind == t.kind || kind == Kind::IdentExpr || kind == Kind::MemberExpr || kind
                == Kind::KeyValueProp
        },
{
    if t.kind == Kind::IdentExpr && parts_of(ids, id_of(t)) is Some {
        let parts = parts_of(ids, id_of(t)).unwrap();
        assert(chain(parts, parts.len()).kind == Kind::IdentExpr || chain(parts, parts.len()).kind
            == Kind::MemberExpr);
    }
}

proof fn lemma_place_same(s: Seq<Tree>, other: Seq<Tree>, role: Role, from: int)
    requires
        0 <= from <= s.len(),
        s.len() == other.len(),
        forall|i: int| 0 <= i < s.len() ==> (#[trigger] s[i]).role == other[i].role,
    ensures
        place_from(s, role, from) == place_from(other, role, from),
    decreases s.len() - from,
{
    if from < s.len() {
        assert(s[from].role == other[from].role);
        lemma_place_same(s, other, role, from + 1);
    }
}

/// Whether the parts of a node are emitted one by one.
spec fn by_parts(kind: Kind) -> bool {
    kind != Kind::IdentExpr && kind != Kind::ShorthandProp && kind != Kind::Module
}

proof fn lemma_child(t: Tree, ids: Seq<Replaced>, role: Role)
    requires
        by_parts(t.kind),
    ensures
        emitted(t, ids, true) == (Tree { children: all_emitted(t.children, ids, true), ..t }),
        has_part(emitted(t, ids, true), role) == has_part(t, role),
        has_part(t, role) ==> child(emitted(t, ids, true), role) == emitted(
            child(t, role),
            ids,
            true,
        ) && child(t, role).role == role,
        has_part(t, role) && names_plain(t) ==> names_plain(child(t, role)),
{
    let s = t.children;
    let other = all_emitted(s, ids, true);
    assert forall|i: int| 0 <= i < s.len() implies (#[trigger] s[i]).role == other[i].role by {
        lemma_kind(s[i], ids);
    }
    lemma_place_same(s, other, role, 0);
    lemma_place(t, role);
}

proof fn lemma_pat_ids(t: Tree, ids: Seq<Replaced>)
    requires
        names_plain(t),
    ensures
        pat_ids(emitted(t, ids, true)) == pat_ids(t),
    decreases t, 1nat, 0nat,
{
    lemma_kind(t, ids);
    if by_parts(t.kind) {
        lemma_child(t, ids, Role::Name);
        lemma_child(t, ids, Role::Key);
        lemma_child(t, ids, Role::Value);
        lemma_child(t, ids, Role::Arg);
        lemma_child(t, ids, Role::Left);
        if t.kind == Kind::BindingIdent && has_part(t, Role::Name) {
            assert(t.children[place(t, Role::Name)].role == Role::Name);
            lemma_kind(child(t, Role::Name), ids);
        } else if t.kind == Kind::AssignPatProp && has_part(t, Role::Key) {
            assert(t.children[place(t, Role::Key)].role == Role::Key);
            lemma_kind(child(t, Role::Key), ids);
        } else if t.kind == Kind::KeyValuePatProp && has_part(t, Role::Value) {
            lemma_pat_ids(child(t, Role::Value), ids);
        } else if t.kind == Kind::RestPat && has_part(t, Role::Arg) {
            lemma_pat_ids(child(t, Role::Arg), ids);
        } else if t.kind == Kind::AssignPat && has_part(t, Role::Left) {
            lemma_pat_ids(child(t, Role::Left), ids);
        } else if t.kind == Kind::ArrayPat || t.kind == Kind::ObjectPat {
            lemma_pat_ids_upto(t, ids, t.children.len());
        }
    }
}

proof fn lemma_pat_ids_upto(t: Tree, ids: Seq<Replaced>, n: nat)
    requires
        names_plain(t),
        n <= t.children.len(),
    ensures
        pat_ids_upto(all_emitted(t.children, ids, true), n) == pat_ids_upto(t.children, n),
    decreases t, 0nat, n,
{
    if n > 0 {
        lemma_pat_ids_upto(t, ids, (n - 1) as nat);
        assert(names_plain(t.children[n - 1]));
        lemma_pat_ids(t.children[n - 1], ids);
    }
}

proof fn lemma_var_ids(t: Tree, ids: Seq<Replaced>, n: nat)
    requires
        names_plain(t),
        t.kind == Kind::VarDecl,
        n <= t.children.len(),
    ensures
        var_ids_upto(all_emitted(t.children, ids, true), n) == var_ids_upto(t.children, n),
    decreases n,
{
    if n > 0 {
        lemma_var_ids(t, ids, (n - 1) as nat);
        let d = t.children[n - 1];
        assert(names_plain(d));
        lemma_child(d, ids, Role::Name);
        if has_part(d, Role::Name) {
            lemma_pat_ids(child(d, Role::Name), ids);
        }
    }
}

proof fn lemma_decl_exports(t: Tree, ids: Seq<Replaced>)
    requires
        names_plain(t),
    ensures
        decl_exports(emitted(t, ids, true), true) == decl_exports(t, true),
{
    lemma_kind(t, ids);
    if by_parts(t.kind) {
        lemma_child(t, ids, Role::Name);
        if has_part(t, Role::Name) {
            assert(t.children[place(t, Role::Name)].role == Role::Name);
            lemma_kind(child(t, Role::Name), ids);
        }
        if t.kind == Kind::VarDecl {
            lemma_var_ids(t, ids, t.children.len());
        }
    }
}

/// The parts of a list that stay are those whose exports do.
proof fn lemma_listed(s: Seq<Tree>, n: nat, ids: Seq<Replaced>, name: Seq<char>)
    requires
        n <= s.len(),
        forall|i: int|
            0 <= i < s.len() ==> (#[trigger] s[i]).kind == Kind::ExportNamedSpecifier ==> has_part(
                s[i],
                Role::Orig,
            ),
    ensures
        (exists|i: int|
            0 <= i < specifiers_upto(s, n, ids).len() && specifier_gives(
                #[trigger] specifiers_upto(s, n, ids)[i],
                name,
            )) <==> gives_in_place(listed_upto(s, n, ids, true), name),
        gives_in_place(listed_upto(s, n, ids, true), name) ==> specifiers_upto(s, n, ids).len()
            > 0,
    decreases n,
{
    if n > 0 {
        let m = (n - 1) as nat;
        lemma_listed(s, m, ids, name);
        let t = s[n - 1];
        let kept = specifiers_upto(s, m, ids);
        let all = specifiers_upto(s, n, ids);
        let before = listed_upto(s, m, ids, true);
        if t.kind == Kind::ExportNamedSpecifier && !t.flags.type_only {
            let export = listed_export(t, ids, true);
            assert(before.push(export) =~= before + seq![export]);
            lemma_in_place_add(before, seq![export], name);
            assert(gives_in_place(seq![export], name) <==> export.in_place && export.name()
                == name) by {
                if export.in_place && export.name() == name {
                    assert(seq![export][0] == export);
                }
            }
            if specifier_stays(t, ids) {
                assert(export.name() == specifier_text(t));
                assert(all[kept.len() as int] == t);
                if exists|i: int| 0 <= i < kept.len() && specifier_gives(#[trigger] kept[i], name) {
                    let i = choose|i: int|
                        0 <= i < kept.len() && specifier_gives(#[trigger] kept[i], name);
                    assert(all[i] == kept[i]);
                }
                if exists|i: int| 0 <= i < all.len() && specifier_gives(#[trigger] all[i], name) {
                    let i = choose|i: int|
                        0 <= i < all.len() && specifier_gives(#[trigger] all[i], name);
                    if i < kept.len() {
                        assert(all[i] == kept[i]);
                    }
                }
            }
        }
    }
}

/// Whether the lists of exports among the items have a name for each part.
pub open spec fn lists_named(items: Seq<Tree>) -> bool {
    forall|i: int, j: int|
        #![trigger items[i].children[j]]
        0 <= i < items.len() && 0 <= j < items[i].children.len() && items[i].children[j].kind
            == Kind::ExportNamedSpecifier ==> has_part(items[i].children[j], Role::Orig)
}

proof fn lemma_item(t: Tree, ids: Seq<Replaced>, name: Seq<char>)
    requires
        names_plain(t),
        forall|j: int|
            0 <= j < t.children.len() ==> (#[trigger] t.children[j]).kind
                == Kind::ExportNamedSpecifier ==> has_part(t.children[j], Role::Orig),
    ensures
        item_stays(t, ids, true) && item_gives(item_emitted(t, ids, true), name) <==> gives_in_place(
            item_exports(t, ids, true),
            name,
        ),
{
    let exports = item_exports(t, ids, true);
    lemma_kind(t, ids);
    match t.kind {
        Kind::ExportNamed => {
            if is_list(t) {
                lemma_listed(t.children, t.children.len(), ids, name);
            }
        },
        Kind::ExportDecl => {
            lemma_child(t, ids, Role::Decl);
            if has_part(t, Role::Decl) {
                let decl = child(t, Role::Decl);
                lemma_decl_exports(decl, ids);
                assert(exports == decl_exports(decl, true));
                if decl_gives(decl, name) {
                    let i = choose|i: int|
                        0 <= i < decl_exports(decl, true).len() && (#[trigger] decl_exports(
                            decl,
                            true,
                        )[i]).name() == name;
                    assert(exports[i].in_place);
                }
            }
        },
        Kind::ExportDefaultDecl => {
            lemma_child(t, ids, Role::Decl);
            if has_part(t, Role::Decl) {
                lemma_kind(child(t, Role::Decl), ids);
                if child(t, Role::Decl).kind != Kind::TsInterfaceDecl {
                    assert(exports[0].in_place);
                }
            }
        },
        Kind::ExportDefaultExpr => {
            assert(exports[0].in_place);
        },
        _ => {},
    }
}

/// The root keeps its exports: when it is emitted its items export just what is known
/// to stay where it stands.
pub proof fn law_the_root_keeps_its_exports(
    items: Seq<Tree>,
    n: nat,
    ids: Seq<Replaced>,
    name: Seq<char>,
)
    requires
        n <= items.len(),
        forall|i: int| 0 <= i < items.len() ==> names_plain(#[trigger] items[i]),
        lists_named(items),
    ensures
        gives(items_upto(items, n, ids, true), name) <==> gives_in_place(
            exports_upto(items, n, ids, true),
            name,
        ),
    decreases n,
{
    if n > 0 {
        let m = (n - 1) as nat;
        law_the_root_keeps_its_exports(items, m, ids, name);
        let t = items[n - 1];
        assert forall|j: int|
            0 <= j < t.children.len() && (#[trigger] t.children[j]).kind
                == Kind::ExportNamedSpecifier implies has_part(t.children[j], Role::Orig) by {
            assert(items[n - 1].children[j] == t.children[j]);
        }
        lemma_item(t, ids, name);
        lemma_in_place_add(
            exports_upto(items, m, ids, true),
            item_exports(t, ids, true),
            name,
        );
        lemma_gives_push(
            items_upto(items, m, ids, true),
            item_emitted(t, ids, true),
            name,
        );
    }
}

/// The analysis of a module adds what its items export to what is known of it.
proof fn lemma_items_added(
    items: Seq<Tree>,
    n: nat,
    specifier: Seq<char>,
    deps: Seq<(Seq<char>, Seq<char>)>,
    ids: Seq<Replaced>,
    is_root: bool,
    modules: Seq<(Seq<char>, Data)>,
    other: Seq<char>,
)
    requires
        has_key(modules, specifier),
    ensures
        ({
            let after = items_added(items, n, specifier, deps, ids, is_root, modules);
            &&& has_key(after, specifier)
            &&& data_of(after, specifier).exports == data_of(modules, specifier).exports
                + exports_upto(items, n, ids, is_root)
            &&& other != specifier && is_known(modules, other) ==> is_known(after, other)
                && data_of(after, other) == data_of(modules, other)
            &&& other != specifier && is_blank(modules, other) ==> is_blank(after, other)
        }),
    decreases n,
{
    if n == 0 {
        assert(data_of(modules, specifier).exports + exports_upto(items, 0, ids, is_root)
            =~= data_of(modules, specifier).exports);
    } else {
        let m = (n - 1) as nat;
        lemma_items_added(items, m, specifier, deps, ids, is_root, modules, other);
        let before = items_added(items, m, specifier, deps, ids, is_root, modules);
        let t = items[n - 1];
        let dep = resolved(deps, source_text(t));
        let middle = if is_from_other(t) {
            mentioned(before, dep)
        } else {
            before
        };
        lemma_mentioned(before, dep, specifier);
        lemma_blank(before, dep, other);
        let d = data_of(middle, specifier);
        let changed = Data {
            exports: d.exports + item_exports(t, ids, is_root),
            re_exports: if is_from_other(t) {
                d.re_exports + item_re_exports(t, dep, key_place(middle, dep))
            } else {
                d.re_exports
            },
            ..d
        };
        lemma_with_data(middle, specifier, changed, specifier);
        lemma_with_data(middle, specifier, changed, other);
        assert(data_of(modules, specifier).exports + exports_upto(items, m, ids, is_root)
            + item_exports(t, ids, is_root) =~= data_of(modules, specifier).exports + exports_upto(
            items,
            n,
            ids,
            is_root,
        ));
    }
}

/// Whether something is known of a module.
pub open spec fn is_known(s: Seq<(Seq<char>, Data)>, key: Seq<char>) -> bool {
    has_key(s, key)
}

/// Whether a module was at most mentioned.
pub open spec fn is_blank(s: Seq<(Seq<char>, Data)>, key: Seq<char>) -> bool {
    has_key(s, key) ==> data_of(s, key) == no_data()
}

proof fn lemma_blank(s: Seq<(Seq<char>, Data)>, specifier: Seq<char>, other: Seq<char>)
    ensures
        is_blank(s, other) ==> is_blank(mentioned(s, specifier), other),
        is_known(s, other) ==> is_known(mentioned(s, specifier), other) && data_of(
            mentioned(s, specifier),
            other,
        ) == data_of(s, other),
{
    let after = mentioned(s, specifier);
    lemma_mentioned(s, specifier, other);
    lemma_key_place(s, other);
    lemma_key_place(after, other);
    if has_key(after, other) && !has_key(s, other) {
        let p = key_place(after, other);
        if p < s.len() {
            assert(after[p] == s[p]);
            assert(s[p].0 != other);
        }
    }
}

proof fn lemma_imports(
    items: Seq<Tree>,
    n: nat,
    deps: Seq<(Seq<char>, Seq<char>)>,
    modules: Seq<(Seq<char>, Data)>,
    other: Seq<char>,
)
    ensures
        is_blank(modules, other) ==> is_blank(
            imports_upto(items, n, deps, modules).modules,
            other,
        ),
        is_known(modules, other) ==> is_known(
            imports_upto(items, n, deps, modules).modules,
            other,
        ) && data_of(imports_upto(items, n, deps, modules).modules, other) == data_of(
            modules,
            other,
        ),
    decreases n,
{
    if n > 0 {
        let m = (n - 1) as nat;
        lemma_imports(items, m, deps, modules, other);
        lemma_blank(
            imports_upto(items, m, deps, modules).modules,
            resolved(deps, source_text(items[n - 1])),
            other,
        );
    }
}

/// What the analysis of a module comes to: its own exports are known, and what is
/// known of others stays as it was.
pub proof fn lemma_analyzed(
    modules: Seq<(Seq<char>, Data)>,
    specifier: Seq<char>,
    deps: Seq<(Seq<char>, Seq<char>)>,
    module: Tree,
    is_root: bool,
    other: Seq<char>,
)
    ensures
        ({
            let after = analyzed(modules, specifier, deps, module, is_root);
            let items = module.children;
            let ids = imports_upto(items, items.len(), deps, modules).ids;
            &&& is_known(after, specifier)
            &&& is_blank(modules, specifier) ==> {
                &&& data_of(after, specifier).exports == exports_upto(
                    items,
                    items.len(),
                    ids,
                    is_root,
                )
                &&& data_of(after, specifier).module == Some(emitted(module, ids, is_root))
            }
            &&& other != specifier && is_blank(modules, other) ==> is_blank(after, other)
            &&& other != specifier && is_known(modules, other) ==> is_known(after, other)
                && data_of(after, other) == data_of(modules, other)
        }),
{
    let items = module.children;
    let imports = imports_upto(items, items.len(), deps, modules);
    let known = mentioned(imports.modules, specifier);
    let first = Data { has_tla: top_level_await(items), ..data_of(known, specifier) };
    let awaited = with_data(known, specifier, first);
    lemma_imports(items, items.len(), deps, modules, specifier);
    lemma_imports(items, items.len(), deps, modules, other);
    lemma_blank(imports.modules, specifier, specifier);
    lemma_blank(imports.modules, specifier, other);
    lemma_mentioned(imports.modules, specifier, specifier);
    lemma_with_data(known, specifier, first, specifier);
    lemma_with_data(known, specifier, first, other);
    lemma_items_added(
        items,
        items.len(),
        specifier,
        deps,
        imports.ids,
        is_root,
        awaited,
        other,
    );
    let added = items_added(
        items,
        items.len(),
        specifier,
        deps,
        imports.ids,
        is_root,
        awaited,
    );
    let last = Data {
        module: Some(emitted(module, imports.ids, is_root)),
        ..data_of(added, specifier)
    };
    lemma_with_data(added, specifier, last, specifier);
    lemma_with_data(added, specifier, last, other);
    if is_blank(modules, specifier) {
        assert(data_of(known, specifier) == no_data());
        assert(data_of(awaited, specifier).exports.len() == 0);
        assert(data_of(added, specifier).exports =~= exports_upto(
            items,
            items.len(),
            imports.ids,
            is_root,
        ));
    }
}

/// Whether a module of the graph is the root, and no other is.
pub open spec fn is_root_at(modules: Seq<GraphModule>, root: Seq<char>, r: int) -> bool {
    &&& 0 <= r < modules.len()
    &&& modules[r] is Esm
    &&& modules[r].url() == root
    &&& forall|i: int| 0 <= i < modules.len() && i != r ==> (#[trigger] modules[i]).url() != root
}

/// What is known of the root stays as its analysis left it.
proof fn lemma_root_known(
    modules: Seq<GraphModule>,
    n: nat,
    root: Seq<char>,
    options: PackOptions,
    r: int,
)
    requires
        is_root_at(modules, root, r),
        is_packed(root, options),
        n <= modules.len(),
    ensures
        ({
            let data = analyzed_upto(modules, n, root, options);
            let esm = modules[r]->Esm_0;
            let items = esm.module@.children;
            if n <= r {
                is_blank(data, root)
            } else {
                &&& is_known(data, root)
                &&& exists|ids: Seq<Replaced>|
                    {
                        &&& data_of(data, root).exports == #[trigger] exports_upto(
                            items,
                            items.len(),
                            ids,
                            true,
                        )
                        &&& data_of(data, root).module == Some(emitted(esm.module@, ids, true))
                    }
            }
        }),
    decreases n,
{
    if n > 0 {
        lemma_root_known(modules, (n - 1) as nat, root, options, r);
        let before = analyzed_upto(modules, (n - 1) as nat, root, options);
        match modules[n - 1] {
            GraphModule::Esm(esm) => {
                lemma_analyzed(
                    before,
                    esm.specifier@,
                    dependencies_of(esm.dependencies@),
                    esm.module@,
                    esm.specifier@ == root,
                    root,
                );
                if n - 1 == r {
                    let items = esm.module@.children;
                    let deps = dependencies_of(esm.dependencies@);
                    let ids = imports_upto(items, items.len(), deps, before).ids;
                    let data = analyzed_upto(modules, n, root, options);
                    assert(data_of(data, root).exports == exports_upto(
                        items,
                        items.len(),
                        ids,
                        true,
                    ));
                } else {
                    assert(modules[n - 1].url() != root);
                }
            },
            GraphModule::Json(_) => {},
        }
    }
}

/// Whether an item only declares or imports.
spec fn gives_nothing(t: Tree) -> bool {
    t.kind == Kind::ImportDecl || t.kind == Kind::VarDecl || t.kind == Kind::ExprStmt
}

proof fn lemma_gives_nothing(s: Seq<Tree>, name: Seq<char>)
    requires
        forall|i: int| 0 <= i < s.len() ==> gives_nothing(#[trigger] s[i]),
    ensures
        !gives(s, name),
{
    assert forall|i: int| 0 <= i < s.len() implies !item_gives(#[trigger] s[i], name) by {
        assert(gives_nothing(s[i]));
    }
}

proof fn lemma_header(
    modules: Seq<GraphModule>,
    n: nat,
    files: bool,
    root: Seq<char>,
    h: Header,
    key: Seq<char>,
)
    requires
        forall|i: int| 0 <= i < h.items.len() ==> gives_nothing(#[trigger] h.items[i]),
        has_key(h.data, key),
    ensures
        ({
            let after = header_upto(modules, n, files, root, h);
            &&& forall|i: int| 0 <= i < after.items.len() ==> gives_nothing(
                #[trigger] after.items[i],
            )
            &&& has_key(after.data, key)
            &&& data_of(after.data, key) == data_of(h.data, key)
            &&& export_names(after.data, key) == export_names(h.data, key)
        }),
    decreases n,
{
    if n > 0 {
        lemma_header(modules, (n - 1) as nat, files, root, h, key);
        let before = header_upto(modules, (n - 1) as nat, files, root, h);
        let url = modules[n - 1].url();
        lemma_mentioned(before.data, url, key);
        super::data::law_mention_keeps_exports(before.data, url, key);
        let after = header_upto(modules, n, files, root, h);
        assert forall|i: int| 0 <= i < after.items.len() implies gives_nothing(
            #[trigger] after.items[i],
        ) by {
            if i < before.items.len() {
                assert(after.items[i] == before.items[i]);
            }
        }
    }
}

proof fn lemma_root_exports(s: Seq<Defined>, n: nat, name: Seq<char>)
    requires
        n <= s.len(),
    ensures
        gives(root_exports_upto(s, n), name) <==> exists|i: int|
            0 <= i < n && (#[trigger] s[i]).name == name,
    decreases n,
{
    if n > 0 {
        let m = (n - 1) as nat;
        lemma_root_exports(s, m, name);
        let before = root_exports_upto(s, m);
        let last = root_exports_upto(s, n);
        let decl = last[before.len() as int];
        let list = at(Role::Item, export_as_tree(temp_name(n - 1), s[n - 1].name));
        let both = seq![decl, list];
        assert(last =~= before + both);
        lemma_gives_add(before, both, name);
        let specifier = list.children[0];
        reveal_with_fuel(place_from, 3);
        assert(specifier_text(specifier) == s[n - 1].name);
        assert(item_gives(list, name) <==> s[n - 1].name == name) by {
            if s[n - 1].name == name {
                assert(specifier_gives(list.children[0], name));
            }
        }
        assert(gives(both, name) <==> s[n - 1].name == name) by {
            assert(both[0] == decl);
            assert(both[1] == list);
        }
        if exists|i: int| 0 <= i < n && (#[trigger] s[i]).name == name {
            let i = choose|i: int| 0 <= i < n && (#[trigger] s[i]).name == name;
            if i < m {
                assert(s[i].name == name);
            }
        }
    }
}

proof fn lemma_moved(exports: Seq<Export>, n: nat, name: Seq<char>)
    requires
        n <= exports.len(),
    ensures
        has_property(own_upto(exports, n), name) <==> has_property(moved_upto(exports, n), name)
            || gives_in_place(exports.take(n as int), name),
    decreases n,
{
    if n == 0 {
        assert(!gives_in_place(exports.take(0), name));
    } else {
        let m = (n - 1) as nat;
        lemma_moved(exports, m, name);
        let e = exports[n - 1];
        let d = Defined { name: e.name(), expr: name_expr_tree(e.local) };
        lemma_has_property_push(own_upto(exports, m), d, name);
        lemma_has_property_push(moved_upto(exports, m), d, name);
        assert(exports.take(n as int) =~= exports.take(m as int) + seq![e]);
        lemma_in_place_add(exports.take(m as int), seq![e], name);
        assert(gives_in_place(seq![e], name) <==> e.in_place && e.name() == name) by {
            assert(seq![e][0] == e);
        }
    }
}

proof fn lemma_web_exports_give_nothing(
    s: Seq<(Seq<char>, Data)>,
    root: Seq<char>,
    n: nat,
    name: Seq<char>,
)
    ensures
        !gives(web_exports_upto(s, root, n), name),
    decreases n,
{
    if n > 0 {
        lemma_web_exports_give_nothing(s, root, (n - 1) as nat, name);
        lemma_gives_push(
            web_exports_upto(s, root, (n - 1) as nat),
            at(Role::Item, export_all_tree(s[n - 1].0)),
            name,
        );
    }
}

/// What the root becomes exports what its items do and what comes behind them.
proof fn lemma_root_output(
    s: Seq<(Seq<char>, Data)>,
    root: Seq<char>,
    label: Seq<char>,
    items: Seq<Tree>,
    name: Seq<char>,
)
    requires
        has_key(s, root),
        gives(items, name) <==> gives_in_place(data_of(s, root).exports, name),
    ensures
        gives(module_output(s, root, true, label, items), name) <==> export_names(
            s,
            root,
        ).contains(name),
{
    let data = data_of(s, root);
    let all = root_properties(s, data);
    law_every_export_is_defined(s, root, name);
    lemma_moved(data.exports, data.exports.len(), name);
    assert(data.exports.take(data.exports.len() as int) =~= data.exports);
    lemma_has_property_add(
        own_upto(data.exports, data.exports.len()),
        passed_on(s, data),
        name,
    );
    lemma_has_property_add(
        moved_upto(data.exports, data.exports.len()),
        passed_on(s, data),
        name,
    );
    lemma_root_exports(all, all.len(), name);
    lemma_gives_add(items, root_exports_upto(all, all.len()), name);
    lemma_web_exports_give_nothing(s, root, s.len(), name);
    lemma_gives_add(
        items + root_exports_upto(all, all.len()),
        web_exports_upto(s, root, s.len()),
        name,
    );
    if items.len() == 0 && data.exports.len() == 0 && data.re_exports.len() == 0 {
        assert(!has_property(properties(s, data), name)) by {
            super::emit::lemma_nothing_passed(s, data);
            assert(properties(s, data).len() == 0);
        }
    }
}

/// The code of the modules exports what the root does.
proof fn lemma_code(
    modules: Seq<GraphModule>,
    transpiled: Seq<Tree>,
    from: int,
    files: bool,
    root: Seq<char>,
    data: Seq<(Seq<char>, Data)>,
    r: int,
    name: Seq<char>,
)
    requires
        is_root_at(modules, root, r),
        0 <= from <= modules.len(),
        has_key(data, root),
        gives(transpiled[r].children, name) <==> gives_in_place(data_of(data, root).exports, name),
    ensures
        gives(code_from(modules, transpiled, from, files, root, data), name) <==> from <= r
            && is_file_url(root) == files && export_names(data, root).contains(name),
    decreases modules.len() - from,
{
    if from < modules.len() {
        lemma_code(modules, transpiled, from + 1, files, root, data, r, name);
        let before = code_from(modules, transpiled, from + 1, files, root, data);
        let code = module_code(
            modules[from],
            transpiled[from],
            root,
            graph_root_dir(modules),
            data,
        );
        lemma_gives_add(before, code, name);
        if from == r {
            let label = crate::specifier::identifier_text(
                crate::specifier::displayed(graph_root_dir(modules), root),
            );
            lemma_root_output(data, root, label, transpiled[r].children, name);
        } else {
            assert(modules[from].url() != root);
            lemma_gives_nothing(code, name);
        }
    }
}

/// The packed module has the API of the root: it exports just the names that the root
/// exports, if the names that the root exports itself outlive the transpiling of its
/// code.
pub proof fn law_the_pack_exports_what_the_root_does(
    modules: Seq<GraphModule>,
    transpiled: Seq<Tree>,
    root: Seq<char>,
    options: PackOptions,
    r: int,
    name: Seq<char>,
)
    requires
        is_root_at(modules, root, r),
        is_packed(root, options),
        transpiled.len() == modules.len(),
        forall|i: int|
            0 <= i < modules[r]->Esm_0.module@.children.len() ==> names_plain(
                #[trigger] modules[r]->Esm_0.module@.children[i],
            ),
        lists_named(modules[r]->Esm_0.module@.children),
        modules[r]->Esm_0.module@.kind == Kind::Module,
        gives(transpiled[r].children, name) <==> gives(
            data_of(
                analyzed_upto(modules, modules.len(), root, options),
                root,
            ).module.unwrap().children,
            name,
        ),
    ensures
        ({
            let data = analyzed_upto(modules, modules.len(), root, options);
            gives(packed_items(modules, transpiled, root, options, data), name) <==> export_names(
                data,
                root,
            ).contains(name)
        }),
{
    let n = modules.len();
    let data = analyzed_upto(modules, n, root, options);
    let esm = modules[r]->Esm_0;
    let items = esm.module@.children;
    lemma_root_known(modules, n, root, options, r);
    let ids = choose|ids: Seq<Replaced>|
        {
            &&& data_of(data, root).exports == #[trigger] exports_upto(
                items,
                items.len(),
                ids,
                true,
            )
            &&& data_of(data, root).module == Some(emitted(esm.module@, ids, true))
        };
    law_the_root_keeps_its_exports(items, items.len(), ids, name);
    let start = Header { data, items: Seq::empty(), text: Seq::empty() };
    let remote = header_upto(modules, n, false, root, start);
    let h = header(modules, root, data);
    lemma_header(modules, n, false, root, start, root);
    lemma_header(modules, n, true, root, remote, root);
    lemma_gives_nothing(h.items, name);
    lemma_code(modules, transpiled, 0, false, root, h.data, r, name);
    lemma_code(modules, transpiled, 0, true, root, h.data, r, name);
    let web = if options.include_remote {
        code_from(modules, transpiled, 0, false, root, h.data)
    } else {
        Seq::empty()
    };
    let local = code_from(modules, transpiled, 0, true, root, h.data);
    lemma_gives_add(h.items, web, name);
    lemma_gives_add(h.items + web, local, name);
    assert(!gives(Seq::<Tree>::empty(), name));
}

/// Whether an item exports whatever the module at the URL exports.
pub open spec fn is_star_of(t: Tree, url: Seq<char>) -> bool {
    t.kind == Kind::ExportAll && has_part(t, Role::Source) && child(t, Role::Source).text == url
}

/// Whether one of the items exports whatever the module at the URL exports.
pub open spec fn passes_on(s: Seq<Tree>, url: Seq<char>) -> bool {
    exists|i: int| 0 <= i < s.len() && is_star_of(#[trigger] s[i], url)
}

/// Whether no item exports everything of another module.
pub open spec fn starless(s: Seq<Tree>) -> bool {
    forall|i: int| 0 <= i < s.len() ==> (#[trigger] s[i]).kind != Kind::ExportAll
}

proof fn lemma_passes_on_add(a: Seq<Tree>, b: Seq<Tree>, url: Seq<char>)
    ensures
        passes_on(a + b, url) <==> passes_on(a, url) || passes_on(b, url),
{
    let all = a + b;
    if passes_on(a, url) {
        let i = choose|i: int| 0 <= i < a.len() && is_star_of(#[trigger] a[i], url);
        assert(all[i] == a[i]);
    }
    if passes_on(b, url) {
        let i = choose|i: int| 0 <= i < b.len() && is_star_of(#[trigger] b[i], url);
        assert(all[a.len() + i] == b[i]);
    }
    if passes_on(all, url) {
        let i = choose|i: int| 0 <= i < all.len() && is_star_of(#[trigger] all[i], url);
        if i < a.len() {
            assert(all[i] == a[i]);
        } else {
            assert(all[i] == b[i - a.len()]);
        }
    }
}

proof fn lemma_starless_root_exports(s: Seq<Defined>, n: nat)
    ensures
        starless(root_exports_upto(s, n)),
    decreases n,
{
    if n > 0 {
        lemma_starless_root_exports(s, (n - 1) as nat);
    }
}

proof fn lemma_web_exports(s: Seq<(Seq<char>, Data)>, root: Seq<char>, n: nat, url: Seq<char>)
    requires
        n <= s.len(),
    ensures
        passes_on(web_exports_upto(s, root, n), url) <==> url != root && reaches(s, root, url)
            && exists|i: int|
            0 <= i < n && (#[trigger] s[i]).0 == url && is_external(url, s[i].1),
    decreases n,
{
    if n > 0 {
        let m = (n - 1) as nat;
        lemma_web_exports(s, root, m, url);
        let t = at(Role::Item, export_all_tree(s[n - 1].0));
        reveal_with_fuel(place_from, 2);
        assert(is_star_of(t, url) <==> s[n - 1].0 == url);
        let before = web_exports_upto(s, root, m);
        assert(before.push(t) =~= before + seq![t]);
        lemma_passes_on_add(before, seq![t], url);
        assert(passes_on(seq![t], url) <==> is_star_of(t, url)) by {
            assert(seq![t][0] == t);
        }
    }
}

/// Behind the root's code stand the exports of everything of the modules on the web
/// that it exports everything of, itself or through others, and of no other module.
pub proof fn law_the_root_passes_on_the_web(
    s: Seq<(Seq<char>, Data)>,
    root: Seq<char>,
    label: Seq<char>,
    items: Seq<Tree>,
    url: Seq<char>,
)
    requires
        has_key(s, root),
        starless(items),
        distinct_keys(s),
    ensures
        passes_on(module_output(s, root, true, label, items), url) <==> url != root && has_key(
            s,
            url,
        ) && is_external(url, data_of(s, url)) && reaches(s, root, url),
{
    let data = data_of(s, root);
    let all = root_properties(s, data);
    let own = root_exports_upto(all, all.len());
    let web = web_exports_upto(s, root, s.len());
    lemma_starless_root_exports(all, all.len());
    lemma_web_exports(s, root, s.len(), url);
    lemma_passes_on_add(items + own, web, url);
    lemma_passes_on_add(items, own, url);
    lemma_key_place(s, url);
    if items.len() == 0 && data.exports.len() == 0 && data.re_exports.len() == 0 {
        if url != root && reaches(s, root, url) {
            let path = choose|path: Seq<Seq<char>>| leads(s, path, root, url);
            assert(path[0] == root);
            assert(path.len() > 1);
            assert(passes_all_of(data_of(s, path[0]), path[1]));
        }
    }
}

}
