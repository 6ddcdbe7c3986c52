//! What modules export, and that it is there.

use vstd::prelude::*;

use super::analyze::{
    decl_exports, declares_name, item_exports, item_re_exports, joined_upto, listed_export,
    listed_upto, local_text, passed_part, passed_upto,
};
use super::data::{code_name, data_of, Data, Export, Passed, PassedOn};
use super::emit::{
    as_stmts, definitions_upto, module_output, named_upto, own_upto, properties, Defined,
};
use super::laws::{exports_upto, names_plain};
use super::rewrite_laws::{is_import, is_member_path, is_not_imported, lemma_import};
use super::transform::{
    all_emitted, default_name, emitted, item_emitted, items_upto, parts_of, stays, Replaced,
};
use crate::collections::key_place;
use crate::dts::binder::{pat_ids, pat_ids_upto, var_ids_upto};
use crate::helpers::{
    binding_tree, const_tree, define_property_tree, getter_object_tree, member_tree,
    name_expr_tree,
};
use crate::paths::{is_path, node_at};
use crate::syntax::{at, child, has_part, id_of, lemma_place, place, place_from, Kind, Role, Tree};

verus! {

/// Whether a pattern binds a variable with the name.
pub open spec fn pattern_binds(t: Tree, name: Seq<char>) -> bool
    decreases t,
{
    match t.kind {
        Kind::BindingIdent => has_part(t, Role::Name) && child(t, Role::Name).text == name,
        Kind::AssignPatProp => has_part(t, Role::Key) && child(t, Role::Key).text == name,
        Kind::KeyValuePatProp => has_part(t, Role::Value) && pattern_binds(
            child(t, Role::Value),
            name,
        ),
        Kind::RestPat => has_part(t, Role::Arg) && pattern_binds(child(t, Role::Arg), name),
        Kind::AssignPat => has_part(t, Role::Left) && pattern_binds(child(t, Role::Left), name),
        Kind::ArrayPat | Kind::ObjectPat => exists|i: int|
            0 <= i < t.children.len() && pattern_binds(#[trigger] t.children[i], name),
        _ => false,
    }
}

/// Whether a declaration of code binds the name.
pub open spec fn binds(t: Tree, name: Seq<char>) -> bool {
    match t.kind {
        Kind::VarDecl => exists|i: int|
            0 <= i < t.children.len() && has_part(#[trigger] t.children[i], Role::Name)
                && pattern_binds(child(t.children[i], Role::Name), name),
        Kind::FnDecl | Kind::ClassDecl | Kind::TsEnumDecl => has_part(t, Role::Name) && child(
            t,
            Role::Name,
        ).text == name,
        Kind::TsModuleDecl => has_part(t, Role::Name) && child(t, Role::Name).kind == Kind::Ident
            && child(t, Role::Name).text == name,
        _ => false,
    }
}

/// Whether one of the items binds the name.
pub open spec fn some_binds(s: Seq<Tree>, name: Seq<char>) -> bool {
    exists|i: int| 0 <= i < s.len() && binds(#[trigger] s[i], name)
}

spec fn has_text(ids: Seq<(Seq<char>, u32)>, name: Seq<char>) -> bool {
    exists|k: int| 0 <= k < ids.len() && (#[trigger] ids[k]).0 == name
}

proof fn lemma_has_text_add(a: Seq<(Seq<char>, u32)>, b: Seq<(Seq<char>, u32)>, name: Seq<char>)
    ensures
        has_text(a + b, name) <==> has_text(a, name) || has_text(b, name),
{
    let all = a + b;
    if has_text(a, name) {
        let k = choose|k: int| 0 <= k < a.len() && (#[trigger] a[k]).0 == name;
        assert(all[k].0 == name);
    }
    if has_text(b, name) {
        let k = choose|k: int| 0 <= k < b.len() && (#[trigger] b[k]).0 == name;
        assert(all[a.len() + k].0 == name);
    }
    if has_text(all, name) {
        let k = choose|k: int| 0 <= k < all.len() && (#[trigger] all[k]).0 == name;
        if k < a.len() {
            assert(a[k].0 == name);
        } else {
            assert(b[k - a.len()].0 == name);
        }
    }
}

proof fn lemma_pattern(t: Tree, name: Seq<char>)
    ensures
        pattern_binds(t, name) <==> has_text(pat_ids(t), name),
    decreases t, 1nat, 0nat,
{
    lemma_place(t, Role::Value);
    lemma_place(t, Role::Arg);
    lemma_place(t, Role::Left);
    match t.kind {
        Kind::BindingIdent => {
            if has_part(t, Role::Name) {
                assert(pat_ids(t)[0] == id_of(child(t, Role::Name)));
            }
        },
        Kind::AssignPatProp => {
            if has_part(t, Role::Key) {
                assert(pat_ids(t)[0] == id_of(child(t, Role::Key)));
            }
        },
        Kind::KeyValuePatProp => {
            if has_part(t, Role::Value) {
                lemma_pattern(child(t, Role::Value), name);
            }
        },
        Kind::RestPat => {
            if has_part(t, Role::Arg) {
                lemma_pattern(child(t, Role::Arg), name);
            }
        },
        Kind::AssignPat => {
            if has_part(t, Role::Left) {
                lemma_pattern(child(t, Role::Left), name);
            }
        },
        Kind::ArrayPat | Kind::ObjectPat => {
            lemma_pattern_upto(t, t.children.len(), name);
        },
        _ => {},
    }
}

proof fn lemma_pattern_upto(t: Tree, n: nat, name: Seq<char>)
    requires
        n <= t.children.len(),
    ensures
        has_text(pat_ids_upto(t.children, n), name) <==> exists|i: int|
            0 <= i < n && pattern_binds(#[trigger] t.children[i], name),
    decreases t, 0nat, n,
{
    if n > 0 {
        lemma_pattern_upto(t, (n - 1) as nat, name);
        lemma_pattern(t.children[n - 1], name);
        lemma_has_text_add(
            pat_ids_upto(t.children, (n - 1) as nat),
            pat_ids(t.children[n - 1]),
            name,
        );
    }
}

proof fn lemma_variables(s: Seq<Tree>, n: nat, name: Seq<char>)
    requires
        n <= s.len(),
    ensures
        has_text(var_ids_upto(s, n), name) <==> exists|i: int|
            0 <= i < n && has_part(#[trigger] s[i], Role::Name) && pattern_binds(
                child(s[i], Role::Name),
                name,
            ),
    decreases n,
{
    if n > 0 {
        lemma_variables(s, (n - 1) as nat, name);
        if has_part(s[n - 1], Role::Name) {
            lemma_pattern(child(s[n - 1], Role::Name), name);
            lemma_has_text_add(
                var_ids_upto(s, (n - 1) as nat),
                pat_ids(child(s[n - 1], Role::Name)),
                name,
            );
        }
    }
}

/// Whether one of the exports has the names: inside of its module, and outside.
pub open spec fn is_recorded(s: Seq<Export>, local: Seq<char>, name: Seq<char>) -> bool {
    exists|k: int| 0 <= k < s.len() && (#[trigger] s[k]).local == local && s[k].name() == name
}

proof fn lemma_recorded_add(a: Seq<Export>, b: Seq<Export>, local: Seq<char>, name: Seq<char>)
    ensures
        is_recorded(a + b, local, name) <==> is_recorded(a, local, name) || is_recorded(
            b,
            local,
            name,
        ),
{
    let all = a + b;
    if is_recorded(a, local, name) {
        let k = choose|k: int|
            0 <= k < a.len() && (#[trigger] a[k]).local == local && a[k].name() == name;
        assert(all[k] == a[k]);
    }
    if is_recorded(b, local, name) {
        let k = choose|k: int|
            0 <= k < b.len() && (#[trigger] b[k]).local == local && b[k].name() == name;
        assert(all[a.len() + k] == b[k]);
    }
    if is_recorded(all, local, name) {
        let k = choose|k: int|
            0 <= k < all.len() && (#[trigger] all[k]).local == local && all[k].name() == name;
        if k < a.len() {
            assert(all[k] == a[k]);
        } else {
            assert(all[k] == b[k - a.len()]);
        }
    }
}

proof fn lemma_decl(t: Tree, in_place: bool, local: Seq<char>, name: Seq<char>)
    ensures
        is_recorded(decl_exports(t, in_place), local, name) <==> !t.flags.declare && local == name
            && binds(t, name),
{
    let s = decl_exports(t, in_place);
    if !t.flags.declare {
        if declares_name(t) {
            assert(s[0].local == child(t, Role::Name).text);
        } else if t.kind == Kind::VarDecl {
            let ids = var_ids_upto(t.children, t.children.len());
            lemma_variables(t.children, t.children.len(), name);
            if has_text(ids, name) && local == name {
                let k = choose|k: int| 0 <= k < ids.len() && (#[trigger] ids[k]).0 == name;
                assert(s[k].local == name);
            }
            if is_recorded(s, local, name) {
                let k = choose|k: int|
                    0 <= k < s.len() && (#[trigger] s[k]).local == local && s[k].name() == name;
                assert(ids[k].0 == name);
            }
        }
    }
}

/// Whether a text is the parts of a path with dots between them.
pub open spec fn is_dotted(text: Seq<char>, parts: Seq<Seq<char>>) -> bool
    decreases parts.len(),
{
    if parts.len() <= 1 {
        parts.len() == 1 && text == parts[0]
    } else {
        let dot = text.len() - parts.last().len() - 1;
        &&& dot >= 0 && text[dot] == '.'
        &&& text.skip(dot + 1) == parts.last()
        &&& is_dotted(text.take(dot), parts.drop_last())
    }
}

proof fn lemma_joined(parts: Seq<Seq<char>>, n: nat, text: Seq<char>)
    requires
        0 < n <= parts.len(),
    ensures
        is_dotted(text, parts.take(n as int)) <==> text == joined_upto(parts, n),
    decreases n,
{
    if n > 1 {
        let m = (n - 1) as nat;
        let s = parts.take(n as int);
        assert(s.drop_last() =~= parts.take(m as int));
        assert(s.last() == parts[n - 1]);
        reveal_strlit(".");
        let before = joined_upto(parts, m);
        let joined = joined_upto(parts, n);
        let dot = text.len() - s.last().len() - 1;
        lemma_joined(parts, m, text.take(dot));
        if text == joined {
            assert(text.take(dot) =~= before);
            assert(text.skip(dot + 1) =~= s.last());
            assert(text[dot] == '.');
        }
        if is_dotted(text, s) {
            assert(text =~= text.take(dot) + "."@ + text.skip(dot + 1));
        }
    }
}

/// Whether an identifier of a module is called so where the module's statements stand:
/// by its name, or by the path to what it stands for if it is imported.
pub open spec fn is_called(t: Tree, ids: Seq<Replaced>, local: Seq<char>) -> bool {
    &&& is_not_imported(ids, id_of(t)) ==> local == t.text
    &&& forall|parts: Seq<Seq<char>>| #[trigger]
        is_import(ids, id_of(t), parts) ==> is_dotted(local, parts)
}

proof fn lemma_called(t: Tree, ids: Seq<Replaced>, local: Seq<char>)
    requires
        super::transform::all_have_parts(ids),
    ensures
        is_called(t, ids, local) <==> local == local_text(t, ids),
{
    lemma_import(ids, id_of(t));
    match parts_of(ids, id_of(t)) {
        Some(parts) => {
            assert(is_import(ids, id_of(t), parts));
            let i = choose|i: int|
                {
                    &&& 0 <= i < ids.len()
                    &&& (#[trigger] ids[i]).id == id_of(t)
                    &&& ids[i].parts == parts
                    &&& forall|j: int| i < j < ids.len() ==> (#[trigger] ids[j]).id != id_of(t)
                };
            lemma_joined(parts, parts.len(), local);
            assert(parts.take(parts.len() as int) =~= parts);
        },
        None => {},
    }
}

/// Whether a part of a list of exports is for a value, and exports what is called
/// `local` under the name.
pub open spec fn lists_as(
    t: Tree,
    ids: Seq<Replaced>,
    local: Seq<char>,
    name: Seq<char>,
) -> bool {
    &&& t.kind == Kind::ExportNamedSpecifier && !t.flags.type_only
    &&& is_called(child(t, Role::Orig), ids, local)
    &&& name == if has_part(t, Role::Exported) {
        child(t, Role::Exported).text
    } else {
        child(t, Role::Orig).text
    }
}

/// Whether an item says that something is exported under the name, which is called
/// `local` in the module.
pub open spec fn says_export(
    t: Tree,
    ids: Seq<Replaced>,
    local: Seq<char>,
    name: Seq<char>,
) -> bool {
    match t.kind {
        Kind::ExportDecl => has_part(t, Role::Decl) && !child(t, Role::Decl).flags.declare && local
            == name && binds(child(t, Role::Decl), name),
        Kind::ExportDefaultExpr => name == "default"@ && local == "__pack_default__"@,
        Kind::ExportDefaultDecl => {
            let decl = child(t, Role::Decl);
            &&& has_part(t, Role::Decl) && decl.kind != Kind::TsInterfaceDecl
            &&& name == "default"@
            &&& if has_part(decl, Role::Name) {
                is_called(child(decl, Role::Name), ids, local)
            } else {
                local == "__pack_default__"@
            }
        },
        Kind::ExportNamed => !t.flags.type_only && !has_part(t, Role::Source) && exists|i: int|
            0 <= i < t.children.len() && lists_as(#[trigger] t.children[i], ids, local, name),
        _ => false,
    }
}

proof fn lemma_listed(
    s: Seq<Tree>,
    n: nat,
    ids: Seq<Replaced>,
    is_root: bool,
    local: Seq<char>,
    name: Seq<char>,
)
    requires
        n <= s.len(),
        super::transform::all_have_parts(ids),
    ensures
        is_recorded(listed_upto(s, n, ids, is_root), local, name) <==> exists|i: int|
            0 <= i < n && lists_as(#[trigger] s[i], ids, local, name),
    decreases n,
{
    if n > 0 {
        let m = (n - 1) as nat;
        lemma_listed(s, m, ids, is_root, local, name);
        let t = s[n - 1];
        let before = listed_upto(s, m, ids, is_root);
        if t.kind == Kind::ExportNamedSpecifier && !t.flags.type_only {
            let e = listed_export(t, ids, is_root);
            lemma_called(child(t, Role::Orig), ids, local);
            assert(before.push(e) =~= before + seq![e]);
            lemma_recorded_add(before, seq![e], local, name);
            assert(is_recorded(seq![e], local, name) <==> e.local == local && e.name() == name) by {
                assert(seq![e][0] == e);
            }
            assert(lists_as(t, ids, local, name) <==> e.local == local && e.name() == name);
        }
    }
}

proof fn lemma_item(t: Tree, ids: Seq<Replaced>, is_root: bool, local: Seq<char>, name: Seq<char>)
    requires
        super::transform::all_have_parts(ids),
    ensures
        is_recorded(item_exports(t, ids, is_root), local, name) <==> says_export(
            t,
            ids,
            local,
            name,
        ),
{
    let s = item_exports(t, ids, is_root);
    match t.kind {
        Kind::ExportDecl => {
            if has_part(t, Role::Decl) {
                lemma_decl(child(t, Role::Decl), is_root, local, name);
            }
        },
        Kind::ExportDefaultExpr => {
            assert(s[0].local == "__pack_default__"@);
        },
        Kind::ExportDefaultDecl => {
            let decl = child(t, Role::Decl);
            if has_part(t, Role::Decl) && decl.kind != Kind::TsInterfaceDecl {
                lemma_called(child(decl, Role::Name), ids, local);
                assert(s.len() == 1);
                assert(s[0].name() == "default"@);
            }
        },
        Kind::ExportNamed => {
            lemma_listed(t.children, t.children.len(), ids, is_root, local, name);
        },
        _ => {},
    }
}

/// What is known of a module's own exports is just what its items say: each variable,
/// function, class, enum and namespace that is declared with `export`, the default
/// export, and each name that is listed, under the name by which the module's own
/// statements can call it.
pub proof fn law_exports_are_what_the_items_say(
    items: Seq<Tree>,
    n: nat,
    ids: Seq<Replaced>,
    is_root: bool,
    local: Seq<char>,
    name: Seq<char>,
)
    requires
        n <= items.len(),
        super::transform::all_have_parts(ids),
    ensures
        is_recorded(exports_upto(items, n, ids, is_root), local, name) <==> exists|i: int|
            0 <= i < n && says_export(#[trigger] items[i], ids, local, name),
    decreases n,
{
    if n > 0 {
        law_exports_are_what_the_items_say(items, (n - 1) as nat, ids, is_root, local, name);
        lemma_item(items[n - 1], ids, is_root, local, name);
        lemma_recorded_add(
            exports_upto(items, (n - 1) as nat, ids, is_root),
            item_exports(items[n - 1], ids, is_root),
            local,
            name,
        );
    }
}

// what is emitted binds

spec fn is_plain(kind: Kind) -> bool {
    kind != Kind::IdentExpr && kind != Kind::ShorthandProp && kind != Kind::Module
}

proof fn lemma_role(t: Tree, ids: Seq<Replaced>, is_root: bool)
    ensures
        emitted(t, ids, is_root).role == t.role,
        is_plain(t.kind) ==> emitted(t, ids, is_root) == (Tree {
            children: all_emitted(t.children, ids, is_root),
            ..t
        }),
        t.kind == Kind::Module ==> emitted(t, ids, is_root).text == t.text,
{
}

proof fn lemma_place_same(s: Seq<Tree>, other: Seq<Tree>, role: Role, from: int)
    requires
        0 <= from <= s.len(),
        s.len() == other.len(),
        forall|i: int| 0 <= i < s.len() ==> (#[trigger] s[i]).role == other[i].role,
    ensures
        place_from(s, role, from) == place_from(other, role, from),
    decreases s.len() - from,
{
    if from < s.len() {
        assert(s[from].role == other[from].role);
        lemma_place_same(s, other, role, from + 1);
    }
}

proof fn lemma_child(t: Tree, ids: Seq<Replaced>, is_root: bool, role: Role)
    requires
        is_plain(t.kind),
    ensures
        has_part(emitted(t, ids, is_root), role) == has_part(t, role),
        has_part(t, role) ==> {
            &&& child(emitted(t, ids, is_root), role) == emitted(child(t, role), ids, is_root)
            &&& child(t, role).role == role
            &&& names_plain(t) ==> names_plain(child(t, role))
            &&& names_plain(t) && (role == Role::Name || role == Role::Key) ==> child(
                emitted(t, ids, is_root),
                role,
            ).text == child(t, role).text && child(emitted(t, ids, is_root), role).kind == child(
                t,
                role,
            ).kind
        },
{
    let s = t.children;
    let other = all_emitted(s, ids, is_root);
    assert forall|i: int| 0 <= i < s.len() implies (#[trigger] s[i]).role == other[i].role by {
        lemma_role(s[i], ids, is_root);
    }
    lemma_place_same(s, other, role, 0);
    lemma_place(t, role);
    if has_part(t, role) {
        lemma_role(child(t, role), ids, is_root);
        assert(names_plain(t) ==> names_plain(t.children[place(t, role)]));
    }
}

proof fn lemma_pattern_kept(t: Tree, ids: Seq<Replaced>, is_root: bool, name: Seq<char>)
    requires
        names_plain(t),
        pattern_binds(t, name),
    ensures
        pattern_binds(emitted(t, ids, is_root), name),
    decreases t,
{
    lemma_role(t, ids, is_root);
    lemma_child(t, ids, is_root, Role::Name);
    lemma_child(t, ids, is_root, Role::Key);
    lemma_child(t, ids, is_root, Role::Value);
    lemma_child(t, ids, is_root, Role::Arg);
    lemma_child(t, ids, is_root, Role::Left);
    lemma_place(t, Role::Value);
    lemma_place(t, Role::Arg);
    lemma_place(t, Role::Left);
    match t.kind {
        Kind::KeyValuePatProp => {
            lemma_pattern_kept(child(t, Role::Value), ids, is_root, name);
        },
        Kind::RestPat => {
            lemma_pattern_kept(child(t, Role::Arg), ids, is_root, name);
        },
        Kind::AssignPat => {
            lemma_pattern_kept(child(t, Role::Left), ids, is_root, name);
        },
        Kind::ArrayPat | Kind::ObjectPat => {
            let i = choose|i: int|
                0 <= i < t.children.len() && pattern_binds(#[trigger] t.children[i], name);
            assert(names_plain(t.children[i]));
            lemma_pattern_kept(t.children[i], ids, is_root, name);
            assert(emitted(t, ids, is_root).children[i] == emitted(t.children[i], ids, is_root));
        },
        _ => {},
    }
}

proof fn lemma_binds_kept(t: Tree, ids: Seq<Replaced>, is_root: bool, name: Seq<char>)
    requires
        names_plain(t),
        binds(t, name),
    ensures
        binds(emitted(t, ids, is_root), name),
{
    lemma_role(t, ids, is_root);
    lemma_child(t, ids, is_root, Role::Name);
    if t.kind == Kind::VarDecl {
        let i = choose|i: int|
            0 <= i < t.children.len() && has_part(#[trigger] t.children[i], Role::Name)
                && pattern_binds(child(t.children[i], Role::Name), name);
        let d = t.children[i];
        assert(names_plain(d));
        lemma_child(d, ids, is_root, Role::Name);
        lemma_pattern_kept(child(d, Role::Name), ids, is_root, name);
        assert(emitted(t, ids, is_root).children[i] == emitted(d, ids, is_root));
    }
}

proof fn lemma_const_binds(name: Tree, init: Tree)
    ensures
        binds(const_tree(binding_tree(name, None), Some(init)), name.text),
{
    let binding = binding_tree(name, None);
    let decl = const_tree(binding, Some(init));
    reveal_with_fuel(place_from, 2);
    let d = decl.children[0];
    assert(d.children[0] == at(Role::Name, binding));
    assert(binding.children[0] == at(Role::Name, name));
    assert(has_part(d, Role::Name));
    assert(pattern_binds(child(d, Role::Name), name.text));
}

proof fn lemma_item_at(items: Seq<Tree>, n: nat, ids: Seq<Replaced>, is_root: bool, i: int)
    requires
        0 <= i < n <= items.len(),
        stays(items[i].kind),
    ensures
        items_upto(items, n, ids, is_root).contains(item_emitted(items[i], ids, is_root)),
    decreases n,
{
    let after = items_upto(items, n, ids, is_root);
    if i < n - 1 {
        lemma_item_at(items, (n - 1) as nat, ids, is_root, i);
        let before = items_upto(items, (n - 1) as nat, ids, is_root);
        let k = before.index_of(item_emitted(items[i], ids, is_root));
        assert(after[k] == before[k]);
    } else {
        assert(after[after.len() - 1] == item_emitted(items[i], ids, is_root));
    }
}

/// Whether an item of a module binds the name in the module.
pub open spec fn item_binds(t: Tree, name: Seq<char>) -> bool {
    ||| binds(t, name)
    ||| t.kind == Kind::ExportDecl && has_part(t, Role::Decl) && binds(child(t, Role::Decl), name)
    ||| t.kind == Kind::ExportDefaultDecl && has_part(t, Role::Decl) && child(t, Role::Decl).kind
        != Kind::TsInterfaceDecl && has_part(child(t, Role::Decl), Role::Name) && child(
        child(t, Role::Decl),
        Role::Name,
    ).text == name
}

/// Whether the names that are listed for export are imported or bound in the module, and
/// what is exported by default is there and no import.
pub open spec fn exports_there(items: Seq<Tree>, ids: Seq<Replaced>) -> bool {
    &&& forall|i: int|
        0 <= i < items.len() && (#[trigger] items[i]).kind == Kind::ExportDefaultExpr ==> has_part(
            items[i],
            Role::Expr,
        )
    &&& forall|i: int|
        0 <= i < items.len() && (#[trigger] items[i]).kind == Kind::ExportDefaultDecl && has_part(
            items[i],
            Role::Decl,
        ) && has_part(child(items[i], Role::Decl), Role::Name) ==> is_not_imported(
            ids,
            id_of(child(child(items[i], Role::Decl), Role::Name)),
        )
    &&& forall|i: int, j: int|
        #![trigger items[i].children[j]]
        0 <= i < items.len() && items[i].kind == Kind::ExportNamed && 0 <= j
            < items[i].children.len() && items[i].children[j].kind == Kind::ExportNamedSpecifier
            && !items[i].children[j].flags.type_only && is_not_imported(
            ids,
            id_of(child(items[i].children[j], Role::Orig)),
        ) ==> exists|k: int|
            0 <= k < items.len() && item_binds(
                #[trigger] items[k],
                child(items[i].children[j], Role::Orig).text,
            )
}

/// Whether a name is the path to something imported that an item lists for export.
pub open spec fn is_import_path(items: Seq<Tree>, ids: Seq<Replaced>, local: Seq<char>) -> bool {
    exists|i: int, j: int|
        {
            let part = #[trigger] items[i].children[j];
            &&& 0 <= i < items.len() && items[i].kind == Kind::ExportNamed
            &&& 0 <= j < items[i].children.len()
            &&& part.kind == Kind::ExportNamedSpecifier
            &&& !is_not_imported(ids, id_of(child(part, Role::Orig)))
            &&& is_called(child(part, Role::Orig), ids, local)
        }
}

proof fn lemma_bound(items: Seq<Tree>, n: nat, ids: Seq<Replaced>, k: int, name: Seq<char>)
    requires
        n == items.len(),
        0 <= k < n,
        names_plain(items[k]),
        item_binds(items[k], name),
    ensures
        some_binds(items_upto(items, n, ids, false), name),
{
    let t = items[k];
    let m = item_emitted(t, ids, false);
    lemma_place(t, Role::Decl);
    lemma_item_at(items, n, ids, false, k);
    if t.kind == Kind::ExportDecl {
        lemma_decl_plain(t);
        lemma_binds_kept(child(t, Role::Decl), ids, false, name);
    } else if t.kind == Kind::ExportDefaultDecl {
        let decl = child(t, Role::Decl);
        lemma_const_binds(child(decl, Role::Name), emitted(decl, ids, false));
        let c = const_tree(
            binding_tree(child(decl, Role::Name), None),
            Some(emitted(decl, ids, false)),
        );
        lemma_at_binds(t.role, c, name);
    } else {
        lemma_binds_kept(t, ids, false, name);
    }
    let out = items_upto(items, n, ids, false);
    let j = out.index_of(m);
    if t.kind == Kind::ExportDecl {
        lemma_at_binds(t.role, emitted(child(t, Role::Decl), ids, false), name);
    }
    assert(binds(out[j], name));
}

proof fn lemma_at_binds(role: Role, t: Tree, name: Seq<char>)
    requires
        binds(t, name),
    ensures
        binds(at(role, t), name),
{
    let a = at(role, t);
    assert(a.children == t.children);
    if t.kind == Kind::VarDecl {
        let i = choose|i: int|
            0 <= i < t.children.len() && has_part(#[trigger] t.children[i], Role::Name)
                && pattern_binds(child(t.children[i], Role::Name), name);
        assert(has_part(a.children[i], Role::Name));
    } else {
        assert(place(a, Role::Name) == place(t, Role::Name));
    }
}

proof fn lemma_decl_plain(t: Tree)
    requires
        names_plain(t),
        has_part(t, Role::Decl),
    ensures
        names_plain(child(t, Role::Decl)),
{
    lemma_place(t, Role::Decl);
    assert(names_plain(t.children[place(t, Role::Decl)]));
}

/// What a module other than the root exports is there for its getters: the name by which
/// each export is known inside is bound by one of the statements that the module becomes,
/// unless it is the path to something that is imported.
pub proof fn law_what_is_exported_is_bound(
    items: Seq<Tree>,
    ids: Seq<Replaced>,
    k: int,
)
    requires
        forall|i: int| 0 <= i < items.len() ==> names_plain(#[trigger] items[i]),
        super::transform::all_have_parts(ids),
        exports_there(items, ids),
        0 <= k < exports_upto(items, items.len(), ids, false).len(),
    ensures
        ({
            let e = exports_upto(items, items.len(), ids, false)[k];
            some_binds(items_upto(items, items.len(), ids, false), e.local) || is_import_path(
                items,
                ids,
                e.local,
            )
        }),
{
    let n = items.len();
    let s = exports_upto(items, n, ids, false);
    let e = s[k];
    let out = items_upto(items, n, ids, false);
    assert(is_recorded(s, e.local, e.name()));
    law_exports_are_what_the_items_say(items, n, ids, false, e.local, e.name());
    let i = choose|i: int|
        0 <= i < n && says_export(#[trigger] items[i], ids, e.local, e.name());
    let t = items[i];
    match t.kind {
        Kind::ExportDecl => {
            lemma_bound(items, n, ids, i, e.local);
        },
        Kind::ExportDefaultExpr => {
            lemma_item_at(items, n, ids, false, i);
            let c = const_tree(
                binding_tree(default_name(), None),
                Some(emitted(child(t, Role::Expr), ids, false)),
            );
            lemma_const_binds(default_name(), emitted(child(t, Role::Expr), ids, false));
            lemma_at_binds(t.role, c, e.local);
            let j = out.index_of(item_emitted(t, ids, false));
            assert(binds(out[j], e.local));
        },
        Kind::ExportDefaultDecl => {
            let decl = child(t, Role::Decl);
            if has_part(decl, Role::Name) {
                lemma_bound(items, n, ids, i, e.local);
            } else {
                lemma_item_at(items, n, ids, false, i);
                let c = const_tree(
                    binding_tree(default_name(), None),
                    Some(emitted(decl, ids, false)),
                );
                lemma_const_binds(default_name(), emitted(decl, ids, false));
                lemma_at_binds(t.role, c, e.local);
                let j = out.index_of(item_emitted(t, ids, false));
                assert(binds(out[j], e.local));
            }
        },
        _ => {
            let j = choose|j: int|
                0 <= j < t.children.len() && lists_as(
                    #[trigger] t.children[j],
                    ids,
                    e.local,
                    e.name(),
                );
            let orig = child(t.children[j], Role::Orig);
            assert(items[i].children[j] == t.children[j]);
            if is_not_imported(ids, id_of(orig)) {
                let b = choose|b: int| 0 <= b < n && item_binds(#[trigger] items[b], orig.text);
                lemma_bound(items, n, ids, b, e.local);
            }
        },
    }
}

// how what is exported is given

/// Whether a statement defines a property of an object by a getter for the value:
/// `Object.defineProperty(<object>, "<key>", { get: () => <value> });`
pub open spec fn is_getter(t: Tree, object: Seq<char>, key: Seq<char>, value: Tree) -> bool {
    let call = t.children[0];
    let descriptor = call.children[3];
    let get = descriptor.children[0];
    &&& t.kind == Kind::ExprStmt && t.children.len() == 1
    &&& call.kind == Kind::CallExpr && call.children.len() == 4
    &&& call.children[0].role == Role::Callee && is_member_path(
        call.children[0],
        seq!["Object"@, "defineProperty"@],
    )
    &&& call.children[1].role == Role::Arg && is_member_path(call.children[1], seq![object])
    &&& call.children[2].role == Role::Arg && call.children[2].kind == Kind::Str
    &&& call.children[2].text == key
    &&& descriptor.role == Role::Arg && descriptor.kind == Kind::ObjectLit
    &&& descriptor.children.len() == 1 && get.kind == Kind::KeyValueProp
    &&& get.children.len() == 2 && get.children[0].role == Role::Key && get.children[0].text
        == "get"@
    &&& get.children[1].role == Role::Value && get.children[1].kind == Kind::ArrowExpr
    &&& get.children[1].children.len() == 1 && get.children[1].children[0] == at(
        Role::Body,
        value,
    )
}

/// Whether one of the statements is such a definition.
pub open spec fn has_getter(s: Seq<Tree>, object: Seq<char>, key: Seq<char>, value: Tree) -> bool {
    exists|i: int| 0 <= i < s.len() && is_getter(#[trigger] s[i], object, key, value)
}

/// The path from the statement that a module becomes to the block with its code:
/// through what is awaited, if the module awaits, the call, the brackets and the function.
pub open spec fn code_path(awaits: bool) -> Seq<int> {
    if awaits {
        seq![0int, 0, 0, 0, 1, 0]
    } else {
        seq![0int, 0, 0, 1, 0]
    }
}

proof fn lemma_getter(object: Seq<char>, key: Seq<char>, value: Tree)
    ensures
        is_getter(at(Role::Stmt, define_property_tree(object, key, value)), object, key, value),
{
    let t = at(Role::Stmt, define_property_tree(object, key, value));
    let call = t.children[0];
    let callee = call.children[0];
    let path = seq!["Object"@, "defineProperty"@];
    assert(path.drop_last() =~= seq!["Object"@]);
    assert(is_member_path(callee.children[0], seq!["Object"@]));
    assert(is_member_path(callee, path));
    assert(is_member_path(call.children[1], seq![object]));
    let descriptor = call.children[3];
    assert(descriptor.children == getter_object_tree(value).children);
    let get = descriptor.children[0];
    assert(get.children[1].children[0] == at(Role::Body, value));
}

pub proof fn lemma_definition(code: Seq<char>, s: Seq<Defined>, n: nat, i: int)
    requires
        0 <= i < n <= s.len(),
    ensures
        definitions_upto(code, s, n).len() == n,
        is_getter(definitions_upto(code, s, n)[i], code, s[i].name, s[i].expr),
    decreases n,
{
    lemma_definitions_len(code, s, n);
    lemma_definitions_len(code, s, (n - 1) as nat);
    if i < n - 1 {
        lemma_definition(code, s, (n - 1) as nat, i);
    } else {
        lemma_getter(code, s[i].name, s[i].expr);
    }
}

proof fn lemma_definitions_len(code: Seq<char>, s: Seq<Defined>, n: nat)
    ensures
        definitions_upto(code, s, n).len() == n,
    decreases n,
{
    if n > 0 {
        lemma_definitions_len(code, s, (n - 1) as nat);
    }
}

proof fn lemma_own(exports: Seq<Export>, n: nat, i: int)
    requires
        0 <= i < n <= exports.len(),
    ensures
        own_upto(exports, n).len() == n,
        own_upto(exports, n)[i] == (Defined {
            name: exports[i].name(),
            expr: name_expr_tree(exports[i].local),
        }),
    decreases n,
{
    if i < n - 1 {
        lemma_own(exports, (n - 1) as nat, i);
    } else if n > 1 {
        lemma_own(exports, (n - 1) as nat, 0);
    }
}

/// What of a module is defined of what others export under a name.
spec fn is_passed_value(p: PassedOn, d: Defined) -> bool {
    match p.name {
        Passed::Named(export) => d.name == export.name() && d.expr == member_tree(
            code_name(p.module_id as int),
            export.local,
        ),
        Passed::Namespace(name) => d.name == name && d.expr == name_expr_tree(
            code_name(p.module_id as int),
        ),
        Passed::All => false,
    }
}

proof fn lemma_passed(s: Seq<PassedOn>, n: nat, i: int) -> (k: int)
    requires
        0 <= i < n <= s.len(),
        !(s[i].name is All),
    ensures
        0 <= k < named_upto(s, n).len(),
        is_passed_value(s[i], named_upto(s, n)[k]),
    decreases n,
{
    if i < n - 1 {
        lemma_passed(s, (n - 1) as nat, i)
    } else {
        named_upto(s, (n - 1) as nat).len() as int
    }
}

/// The statements of a module in the output that is not the root.
pub open spec fn code_of(
    s: Seq<(Seq<char>, Data)>,
    url: Seq<char>,
    label: Seq<char>,
    items: Seq<Tree>,
) -> Seq<Tree> {
    node_at(
        module_output(s, url, false, label, items)[0],
        code_path(data_of(s, url).has_tla),
    ).children
}

pub proof fn lemma_code(
    s: Seq<(Seq<char>, Data)>,
    url: Seq<char>,
    label: Seq<char>,
    items: Seq<Tree>,
)
    requires
        items.len() > 0 || data_of(s, url).exports.len() > 0 || data_of(s, url).re_exports.len()
            > 0,
    ensures
        ({
            let data = data_of(s, url);
            let all = properties(s, data);
            let out = module_output(s, url, false, label, items);
            &&& out.len() == 1
            &&& is_path(out[0], code_path(data.has_tla))
            &&& node_at(out[0], code_path(data.has_tla)).kind == Kind::Block
            &&& node_at(out[0], code_path(data.has_tla).drop_last()).kind == Kind::Function
            &&& node_at(out[0], code_path(data.has_tla).drop_last()).flags.is_async
                == data.has_tla
            &&& code_of(s, url, label, items) == as_stmts(items) + definitions_upto(
                code_name(key_place(s, url)),
                all,
                all.len(),
            )
        }),
{
    let data = data_of(s, url);
    let out = module_output(s, url, false, label, items);
    let path = code_path(data.has_tla);
    reveal_with_fuel(is_path, 7);
    reveal_with_fuel(node_at, 7);
    assert(path.skip(1).skip(1).skip(1).skip(1).skip(1).len() + 5 == path.len());
    let outer = path.drop_last();
    assert(outer.skip(1).skip(1).skip(1).skip(1).len() + 4 == outer.len());
    assert(out.len() == 1);
}

/// A module other than the root becomes one statement: a call of a function with its
/// own statements and, behind them, a getter for each of its exports, by the name by which
/// the module itself knows what it exports. Where the module awaits at its top level the
/// function is asynchronous and its call is awaited.
pub proof fn law_each_export_has_a_getter(
    s: Seq<(Seq<char>, Data)>,
    url: Seq<char>,
    label: Seq<char>,
    items: Seq<Tree>,
    k: int,
)
    requires
        0 <= k < data_of(s, url).exports.len(),
    ensures
        ({
            let data = data_of(s, url);
            let e = data.exports[k];
            let out = module_output(s, url, false, label, items);
            let code = code_of(s, url, label, items);
            &&& out.len() == 1 && out[0].kind == Kind::ExprStmt
            &&& is_path(out[0], code_path(data.has_tla))
            &&& node_at(out[0], code_path(data.has_tla)).kind == Kind::Block
            &&& data.has_tla <==> out[0].children[0].kind == Kind::AwaitExpr
            &&& node_at(out[0], code_path(data.has_tla).drop_last()).kind == Kind::Function
            &&& node_at(out[0], code_path(data.has_tla).drop_last()).flags.is_async
                == data.has_tla
            &&& items.len() <= code.len()
            &&& forall|i: int|
                0 <= i < items.len() ==> code[i] == at(Role::Stmt, #[trigger] items[i])
            &&& has_getter(
                code,
                code_name(key_place(s, url)),
                e.name(),
                name_expr_tree(e.local),
            )
        }),
{
    let data = data_of(s, url);
    let all = properties(s, data);
    let object = code_name(key_place(s, url));
    let code = code_of(s, url, label, items);
    lemma_code(s, url, label, items);
    let n = data.exports.len();
    lemma_own(data.exports, n, k);
    assert(all[k] == own_upto(data.exports, n)[k]);
    lemma_definition(object, all, all.len(), k);
    let defs = definitions_upto(object, all, all.len());
    assert(code[items.len() + k] == defs[k]);
    assert(is_getter(code[items.len() + k], object, all[k].name, all[k].expr));
}

/// What a module other than the root exports of others by names has getters too: for
/// one of their exports, or for the object of one of them.
pub proof fn law_each_passed_export_has_a_getter(
    s: Seq<(Seq<char>, Data)>,
    url: Seq<char>,
    label: Seq<char>,
    items: Seq<Tree>,
    k: int,
)
    requires
        0 <= k < data_of(s, url).re_exports.len(),
    ensures
        ({
            let p = data_of(s, url).re_exports[k];
            let object = code_name(key_place(s, url));
            let other = code_name(p.module_id as int);
            let code = code_of(s, url, label, items);
            match p.name {
                Passed::Named(export) => exists|value: Tree|
                    is_member_path(value, seq![other, export.local]) && #[trigger] has_getter(
                        code,
                        object,
                        export.name(),
                        value,
                    ),
                Passed::Namespace(name) => exists|value: Tree|
                    is_member_path(value, seq![other]) && #[trigger] has_getter(
                        code,
                        object,
                        name,
                        value,
                    ),
                Passed::All => true,
            }
        }),
{
    let data = data_of(s, url);
    let all = properties(s, data);
    let object = code_name(key_place(s, url));
    let code = code_of(s, url, label, items);
    let p = data.re_exports[k];
    let other = code_name(p.module_id as int);
    lemma_code(s, url, label, items);
    if !(p.name is All) {
        let n = data.re_exports.len();
        let named = named_upto(data.re_exports, n);
        let own = own_upto(data.exports, data.exports.len());
        let j = lemma_passed(data.re_exports, n, k);
        assert(all[own.len() + j] == named[j]);
        lemma_definition(object, all, all.len(), own.len() + j);
        let defs = definitions_upto(object, all, all.len());
        let value = named[j].expr;
        assert(code[items.len() + own.len() + j] == defs[own.len() + j]);
        assert(has_getter(code, object, named[j].name, value));
        match p.name {
            Passed::Named(export) => {
                let path = seq![other, export.local];
                assert(path.drop_last() =~= seq![other]);
                assert(is_member_path(value.children[0], seq![other]));
                assert(is_member_path(value, path));
            },
            _ => {
                assert(is_member_path(value, seq![other]));
            },
        }
    }
}

/// Whether an item exports something of another module: under a name, the module itself
/// under a name, or everything.
pub open spec fn says_passed(t: Tree, name: Passed) -> bool {
    match name {
        Passed::All => t.kind == Kind::ExportAll,
        Passed::Namespace(name) => t.kind == Kind::ExportNamed && exists|i: int|
            0 <= i < t.children.len() && (#[trigger] t.children[i]).kind
                == Kind::ExportNamespaceSpecifier && child(t.children[i], Role::Name).text == name,
        Passed::Named(export) => t.kind == Kind::ExportNamed && exists|i: int|
            {
                let part = #[trigger] t.children[i];
                &&& 0 <= i < t.children.len()
                &&& part.kind == Kind::ExportNamedSpecifier && !part.flags.type_only
                &&& export.local == child(part, Role::Orig).text
                &&& export.name() == if has_part(part, Role::Exported) {
                    child(part, Role::Exported).text
                } else {
                    child(part, Role::Orig).text
                }
            },
    }
}

/// Whether two names are for the same of another module.
pub open spec fn same_passed(a: Passed, b: Passed) -> bool {
    match (a, b) {
        (Passed::All, Passed::All) => true,
        (Passed::Namespace(a), Passed::Namespace(b)) => a == b,
        (Passed::Named(a), Passed::Named(b)) => a.local == b.local && a.name() == b.name(),
        _ => false,
    }
}

/// Whether something of another module is among what a module exports of others.
pub open spec fn is_passed(s: Seq<PassedOn>, name: Passed, url: Seq<char>, id: usize) -> bool {
    exists|k: int|
        0 <= k < s.len() && same_passed((#[trigger] s[k]).name, name) && s[k].specifier == url
            && s[k].module_id == id
}

proof fn lemma_passed_upto(s: Seq<Tree>, n: nat, url: Seq<char>, id: int, name: Passed)
    requires
        n <= s.len(),
    ensures
        is_passed(passed_upto(s, n, url, id), name, url, id as usize) <==> exists|i: int|
            0 <= i < n && passed_part(#[trigger] s[i]) is Some && same_passed(
                passed_part(s[i]).unwrap(),
                name,
            ),
    decreases n,
{
    let after = passed_upto(s, n, url, id);
    if n > 0 {
        let m = (n - 1) as nat;
        lemma_passed_upto(s, m, url, id, name);
        let before = passed_upto(s, m, url, id);
        if is_passed(before, name, url, id as usize) {
            let k = choose|k: int|
                0 <= k < before.len() && same_passed((#[trigger] before[k]).name, name)
                    && before[k].specifier == url && before[k].module_id == id as usize;
            assert(after[k] == before[k]);
        }
        match passed_part(s[n - 1]) {
            Some(p) => {
                let last = after[before.len() as int];
                assert(last.name == p);
                if is_passed(after, name, url, id as usize) {
                    let k = choose|k: int|
                        0 <= k < after.len() && same_passed((#[trigger] after[k]).name, name)
                            && after[k].specifier == url && after[k].module_id == id as usize;
                    if k < before.len() {
                        assert(after[k] == before[k]);
                    }
                }
            },
            None => {},
        }
    }
}

/// What a module is known to export of another is just what the item says that names the
/// other.
pub proof fn law_passed_exports_are_what_the_item_says(
    t: Tree,
    url: Seq<char>,
    id: int,
    name: Passed,
)
    requires
        t.kind == Kind::ExportAll || t.kind == Kind::ExportNamed,
    ensures
        is_passed(item_re_exports(t, url, id), name, url, id as usize) <==> says_passed(t, name),
{
    let s = item_re_exports(t, url, id);
    if t.kind == Kind::ExportAll {
        assert(s[0].name == Passed::All);
    } else {
        lemma_passed_upto(t.children, t.children.len(), url, id, name);
        if says_passed(t, name) {
            match name {
                Passed::Namespace(text) => {
                    let i = choose|i: int|
                        0 <= i < t.children.len() && (#[trigger] t.children[i]).kind
                            == Kind::ExportNamespaceSpecifier && child(
                            t.children[i],
                            Role::Name,
                        ).text == text;
                    assert(passed_part(t.children[i]) is Some);
                },
                Passed::Named(export) => {
                    let i = choose|i: int|
                        {
                            let part = #[trigger] t.children[i];
                            &&& 0 <= i < t.children.len()
                            &&& part.kind == Kind::ExportNamedSpecifier && !part.flags.type_only
                            &&& export.local == child(part, Role::Orig).text
                            &&& export.name() == if has_part(part, Role::Exported) {
                                child(part, Role::Exported).text
                            } else {
                                child(part, Role::Orig).text
                            }
                        };
                    assert(passed_part(t.children[i]) is Some);
                },
                Passed::All => {},
            }
        }
    }
}

}
