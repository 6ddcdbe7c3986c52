//! What holds of every declaration of a declaration file.

use vstd::prelude::*;

use super::transform::{
    ann_or_unknown, as_kind, as_private_prop, assign_out, block_out, class_out, class_with,
    default_ann_out, default_return_type, export_name_text, export_out, function_noted,
    function_out, function_with, import_equals_tree, inferred_out, item_kept, items_upto,
    key_noted, no_prop, node_out, nothing, one_part, optional_binding, optional_object,
    param_prop_out, param_prop_supported, param_prop_tree, part_mode, parts, parts_upto, plain_out,
    private_marker, prop_out, qualified_tree, re_exported_upto, rebuilt, single,
    specifier_re_exported, type_ref_tree, visited, visitor, with_ann, with_re_export,
    with_workaround, workaround_tree, Env, Mode, Owner, State,
};
use crate::helpers::{
    binding_tree, const_tree, entity_tree, export_as_tree, export_specifier_tree, keyword_tree,
    made, name_tree, type_ann_tree,
};
use crate::syntax::{at, child, has_part, lemma_place, place, plain, Flags, Kind, Role, Tree};

verus! {

/// Whether a part belongs to the code of a node, and not to its declaration. The parts
/// of a block are its items.
pub open spec fn is_code(kind: Kind, role: Role) -> bool {
    ||| kind != Kind::TsModuleBlock && role == Role::Decorator
    ||| (kind == Kind::Function || kind == Kind::Constructor) && role == Role::Body
    ||| kind == Kind::VarDeclarator && role == Role::Init
    ||| (kind == Kind::ClassProp || kind == Kind::AssignPatProp) && role == Role::Value
}

/// Whether a tree holds declarations without code: no function has a body, no
/// variable or property a value, and nothing has a decorator.
pub open spec fn is_bare(t: Tree) -> bool
    decreases t,
{
    forall|i: int|
        0 <= i < t.children.len() ==> !is_code(t.kind, (#[trigger] t.children[i]).role) && is_bare(
            t.children[i],
        )
}

/// Whether this holds of every tree of a list.
pub open spec fn all_bare(s: Seq<Tree>) -> bool {
    forall|i: int| 0 <= i < s.len() ==> is_bare(#[trigger] s[i])
}

/// Whether a tree holds an expression that is exported by default. Such an expression
/// stays as it is.
pub open spec fn has_default_expr(t: Tree) -> bool
    decreases t,
{
    t.kind == Kind::ExportDefaultExpr || exists|i: int|
        0 <= i < t.children.len() && has_default_expr(#[trigger] t.children[i])
}

/// The roles of parts are kept.
pub proof fn lemma_role(t: Tree, mode: Mode, env: Env, st: State)
    requires
        mode == Mode::Plain || mode == Mode::AsParam || mode == Mode::AsPrivateProp || mode
            == Mode::WithoutType || mode == Mode::AsAssignProp,
    ensures
        forall|i: int|
            0 <= i < visited(t, mode, env, st).trees.len() ==> (#[trigger] visited(
                t,
                mode,
                env,
                st,
            ).trees[i]).role == t.role,
{
    reveal(node_out);
    match mode {
        Mode::Plain => {
            lemma_plain_role(t, env, st);
        },
        Mode::AsParam | Mode::AsAssignProp => {
            reveal(as_kind);
        },
        Mode::AsPrivateProp => {
            reveal(as_private_prop);
        },
        _ => {
            reveal(prop_out);
        },
    }
}

proof fn lemma_plain_role(t: Tree, env: Env, st: State)
    ensures
        ({
            let v = plain_out(t, env, visitor(t.children, env), st);
            forall|i: int| 0 <= i < v.trees.len() ==> (#[trigger] v.trees[i]).role == t.role
        }),
{
    reveal(plain_out);
    match t.kind {
        Kind::Class => {
            reveal(class_out);
            reveal(class_with);
        },
        Kind::ClassProp => {
            reveal(prop_out);
        },
        Kind::Function => {
            reveal(function_out);
            reveal(function_with);
        },
        Kind::AssignPat => {
            reveal(assign_out);
            reveal(optional_binding);
            reveal(optional_object);
        },
        Kind::ExportNamed => {
            reveal(export_out);
        },
        _ => {},
    }
}

proof fn lemma_leaf(t: Tree)
    requires
        t.children.len() == 0,
    ensures
        is_bare(t),
{
}

proof fn lemma_at(role: Role, t: Tree)
    requires
        is_bare(t),
    ensures
        is_bare(at(role, t)),
{
}

/// A node of one part.
proof fn lemma_one(kind: Kind, role: Role, t: Tree)
    requires
        is_bare(t),
        !is_code(kind, role),
    ensures
        is_bare(made(kind, seq![at(role, t)])),
{
    lemma_at(role, t);
    let n = made(kind, seq![at(role, t)]);
    assert forall|i: int| 0 <= i < n.children.len() implies !is_code(
        n.kind,
        (#[trigger] n.children[i]).role,
    ) && is_bare(n.children[i]) by {}
}

/// A node of two parts.
proof fn lemma_two(kind: Kind, r1: Role, t1: Tree, r2: Role, t2: Tree)
    requires
        is_bare(t1),
        is_bare(t2),
        !is_code(kind, r1),
        !is_code(kind, r2),
    ensures
        is_bare(made(kind, seq![at(r1, t1), at(r2, t2)])),
{
    lemma_at(r1, t1);
    lemma_at(r2, t2);
    let n = made(kind, seq![at(r1, t1), at(r2, t2)]);
    assert forall|i: int| 0 <= i < n.children.len() implies !is_code(
        n.kind,
        (#[trigger] n.children[i]).role,
    ) && is_bare(n.children[i]) by {}
}

proof fn lemma_ann_tree(t: Tree)
    requires
        is_bare(t),
    ensures
        is_bare(type_ann_tree(t)),
{
    lemma_one(Kind::TsTypeAnn, Role::Type, t);
}

proof fn lemma_unknown_ann()
    ensures
        is_bare(type_ann_tree(keyword_tree("unknown"@))),
{
    lemma_leaf(keyword_tree("unknown"@));
    lemma_ann_tree(keyword_tree("unknown"@));
}

proof fn lemma_type_ref(name: Seq<char>, args: Seq<Tree>)
    requires
        all_bare(args),
        forall|i: int| 0 <= i < args.len() ==> (#[trigger] args[i]).role == Role::Param,
    ensures
        is_bare(type_ref_tree(name, args)),
{
    lemma_leaf(entity_tree(name));
    let list = made(Kind::TsTypeParamInstantiation, args);
    assert(is_bare(list));
    lemma_two(Kind::TsTypeRef, Role::TypeName, entity_tree(name), Role::TypeArgs, list);
}

proof fn lemma_return_type(t: Tree)
    ensures
        is_bare(default_return_type(t)),
{
    reveal(default_return_type);
    let unknown = at(Role::Param, keyword_tree("unknown"@));
    let void = at(Role::Param, keyword_tree("void"@));
    lemma_leaf(unknown);
    lemma_leaf(void);
    lemma_leaf(keyword_tree("unknown"@));
    lemma_leaf(keyword_tree("void"@));
    lemma_type_ref("Promise"@, seq![unknown]);
    lemma_type_ref("Promise"@, seq![void]);
    lemma_type_ref("Generator"@, seq![unknown, void, unknown]);
}

proof fn lemma_export_as(x: Seq<char>, y: Seq<char>)
    ensures
        is_bare(export_as_tree(x, y)),
{
    lemma_leaf(name_tree(x));
    lemma_leaf(name_tree(y));
    lemma_two(
        Kind::ExportNamedSpecifier,
        Role::Orig,
        name_tree(x),
        Role::Exported,
        name_tree(y),
    );
    lemma_one(Kind::ExportNamed, Role::Specifier, export_specifier_tree(x, Some(y)));
}

proof fn lemma_import_equals(name: Tree, entity: Tree, is_export: bool)
    requires
        is_bare(name),
        is_bare(entity),
    ensures
        is_bare(import_equals_tree(name, entity, is_export)),
{
    lemma_two(Kind::TsImportEquals, Role::Name, name, Role::ModuleRef, entity);
    let plain_tree = made(
        Kind::TsImportEquals,
        seq![at(Role::Name, name), at(Role::ModuleRef, entity)],
    );
    let t = import_equals_tree(name, entity, is_export);
    assert forall|i: int| 0 <= i < t.children.len() implies !is_code(
        t.kind,
        (#[trigger] t.children[i]).role,
    ) && is_bare(t.children[i]) by {
        assert(t.children[i] == plain_tree.children[i]);
    }
}

proof fn lemma_qualified(left: Seq<char>, right: Seq<char>)
    ensures
        is_bare(qualified_tree(left, right)),
{
    lemma_leaf(entity_tree(left));
    lemma_leaf(name_tree(right));
    lemma_two(
        Kind::TsQualifiedName,
        Role::Left,
        entity_tree(left),
        Role::Right,
        name_tree(right),
    );
}

proof fn lemma_workaround()
    ensures
        is_bare(workaround_tree()),
{
    let name = name_tree("__packTsUnder5_2_Workaround__"@);
    let ann = type_ann_tree(keyword_tree("unknown"@));
    lemma_leaf(name);
    lemma_unknown_ann();
    lemma_two(Kind::BindingIdent, Role::Name, name, Role::TypeAnn, ann);
    let pattern = binding_tree(name, Some(ann));
    lemma_one(Kind::VarDeclarator, Role::Name, pattern);
    let declarator = made(Kind::VarDeclarator, seq![at(Role::Name, pattern)]);
    lemma_at(Role::Declarator, declarator);
    let t = const_tree(pattern, None);
    assert forall|i: int| 0 <= i < t.children.len() implies !is_code(
        t.kind,
        (#[trigger] t.children[i]).role,
    ) && is_bare(t.children[i]) by {
        assert(t.children[0] == at(Role::Declarator, declarator));
    }
}

proof fn lemma_with_re_export(st: State, entity: Tree, export_name: Seq<char>)
    requires
        all_bare(st.append),
        is_bare(entity),
    ensures
        all_bare(with_re_export(st, entity, export_name).append),
{
    let name = export_name_text(st.given + 1);
    lemma_leaf(name_tree(name));
    lemma_import_equals(name_tree(name), entity, false);
    lemma_export_as(name, export_name);
    lemma_at(Role::Item, import_equals_tree(name_tree(name), entity, false));
    lemma_at(Role::Item, export_as_tree(name, export_name));
    let after = with_re_export(st, entity, export_name).append;
    assert forall|i: int| 0 <= i < after.len() implies is_bare(#[trigger] after[i]) by {
        if i < st.append.len() {
            assert(after[i] == st.append[i]);
        }
    }
}

proof fn lemma_re_exported(s: Seq<Tree>, n: nat, env: Env, id: int, st: State)
    requires
        all_bare(st.append),
    ensures
        all_bare(re_exported_upto(s, n, env, id, st).append),
    decreases n,
{
    if n > 0 {
        reveal(specifier_re_exported);
        lemma_re_exported(s, (n - 1) as nat, env, id, st);
        let before = re_exported_upto(s, (n - 1) as nat, env, id, st);
        let t = s[n - 1];
        let left = super::transform::pack_name(id);
        let right = super::transform::namespace_name(child(t, Role::Orig).text);
        lemma_qualified(left, right);
        lemma_leaf(entity_tree(left));
        lemma_with_re_export(
            before,
            qualified_tree(left, right),
            super::transform::specifier_name(t),
        );
        lemma_with_re_export(before, entity_tree(left), child(t, Role::Name).text);
    }
}

/// What holds of the parts of a node after they were transformed.
spec fn parts_ok(owner: Owner, s: Seq<Tree>) -> bool {
    forall|i: int|
        0 <= i < s.len() ==> is_bare(#[trigger] s[i]) && s[i].role != Role::Decorator && (owner
            == Owner::Function || owner == Owner::Constructor ==> s[i].role != Role::Body) && (owner
            == Owner::VarDeclarator ==> s[i].role != Role::Init) && (owner == Owner::AssignPatProp
            ==> s[i].role != Role::Value)
}

proof fn lemma_parts(t: Tree, n: nat, env: Env, owner: Owner, st: State)
    requires
        !has_default_expr(t),
        all_bare(st.append),
        n <= t.children.len(),
    ensures
        ({
            let v = parts_upto(t.children, n, env, owner, visitor(t.children, env), st);
            parts_ok(owner, v.trees) && all_bare(v.st.append)
        }),
    decreases t, 0nat, n,
{
    if n > 0 {
        reveal(part_mode);
        let s = t.children;
        let f = visitor(s, env);
        lemma_parts(t, (n - 1) as nat, env, owner, st);
        let before = parts_upto(s, (n - 1) as nat, env, owner, f, st);
        match part_mode(s, n - 1, env, owner) {
            Some(mode) => {
                assert(!has_default_expr(s[n - 1]));
                lemma_bare(s[n - 1], mode, env, before.st);
                let v = visited(s[n - 1], mode, env, before.st);
                assert(f(n - 1, mode, before.st) == v);
                if mode != Mode::AsProps {
                    lemma_role(s[n - 1], mode, env, before.st);
                }
                let all = before.trees + v.trees;
                assert forall|i: int| 0 <= i < all.len() implies is_bare(#[trigger] all[i])
                    && all[i].role != Role::Decorator && (owner == Owner::Function || owner
                    == Owner::Constructor ==> all[i].role != Role::Body) && (owner
                    == Owner::VarDeclarator ==> all[i].role != Role::Init) && (owner
                    == Owner::AssignPatProp ==> all[i].role != Role::Value) by {
                    if i < before.trees.len() {
                        assert(all[i] == before.trees[i]);
                    } else {
                        assert(all[i] == v.trees[i - before.trees.len()]);
                    }
                }
            },
            None => {},
        }
    }
}

proof fn lemma_rebuilt(t: Tree, env: Env, owner: Owner, st: State, into: Tree)
    requires
        !has_default_expr(t),
        all_bare(st.append),
        into.kind == t.kind,
        into.kind == Kind::Function ==> owner == Owner::Function,
        into.kind == Kind::Constructor ==> owner == Owner::Constructor,
        into.kind == Kind::VarDeclarator ==> owner == Owner::VarDeclarator,
        into.kind == Kind::AssignPatProp ==> owner == Owner::AssignPatProp,
        into.kind != Kind::ClassProp,
    ensures
        ({
            let v = rebuilt(into, parts(t, env, owner, visitor(t.children, env), st));
            all_bare(v.trees) && all_bare(v.st.append)
        }),
    decreases t, 1nat, 0nat,
{
    lemma_parts(t, t.children.len(), env, owner, st);
    let p = parts(t, env, owner, visitor(t.children, env), st);
    let n = Tree { children: p.trees, ..into };
    assert forall|i: int| 0 <= i < n.children.len() implies !is_code(
        n.kind,
        (#[trigger] n.children[i]).role,
    ) && is_bare(n.children[i]) by {
        assert(n.children[i] == p.trees[i]);
    }
    assert(is_bare(n));
}

/// The part of a node with the role, transformed.
proof fn lemma_part(t: Tree, role: Role, mode: Mode, env: Env, st: State)
    requires
        !has_default_expr(t),
        all_bare(st.append),
    ensures
        ({
            let v = one_part(t, role, mode, visitor(t.children, env), st);
            &&& all_bare(v.trees)
            &&& all_bare(v.st.append)
            &&& mode == Mode::Plain ==> forall|i: int|
                0 <= i < v.trees.len() ==> (#[trigger] v.trees[i]).role == role
        }),
    decreases t, 0nat, 0nat,
{
    reveal(one_part);
    lemma_place(t, role);
    if has_part(t, role) {
        let p = place(t, role);
        assert(!has_default_expr(t.children[p]));
        assert(visitor(t.children, env)(p, mode, st) == visited(t.children[p], mode, env, st));
        lemma_bare(t.children[p], mode, env, st);
        if mode == Mode::Plain {
            lemma_role(t.children[p], mode, env, st);
        }
    }
}

proof fn lemma_with_ann(s: Seq<Tree>, ann: Seq<Tree>)
    requires
        all_bare(s),
        all_bare(ann),
    ensures
        all_bare(with_ann(s, ann)),
        forall|i: int|
            0 <= i < with_ann(s, ann).len() ==> (#[trigger] with_ann(s, ann)[i]).role
                == Role::TypeAnn || s.contains(with_ann(s, ann)[i]),
{
    reveal(with_ann);
    if ann.len() > 0 {
        lemma_at(Role::TypeAnn, ann[0]);
    }
    let all = with_ann(s, ann);
    assert forall|i: int| 0 <= i < all.len() implies is_bare(#[trigger] all[i]) && (all[i].role
        == Role::TypeAnn || s.contains(all[i])) by {
        if i < s.len() {
            assert(all[i] == s[i]);
        }
    }
}

/// A node whose parts are all bare and have roles from a list.
proof fn lemma_node(t: Tree, a: Role, b: Role)
    requires
        all_bare(t.children),
        forall|i: int|
            0 <= i < t.children.len() ==> (#[trigger] t.children[i]).role == a || t.children[i].role
                == b,
        !is_code(t.kind, a),
        !is_code(t.kind, b),
    ensures
        is_bare(t),
{
}

proof fn lemma_prop(t: Tree, env: Env, st: State, drop_type: bool)
    requires
        !has_default_expr(t),
        all_bare(st.append),
    ensures
        ({
            let v = prop_out(t, visitor(t.children, env), st, drop_type);
            all_bare(v.trees) && all_bare(v.st.append)
        }),
    decreases t, 1nat, 0nat,
{
    reveal(prop_out);
    reveal(ann_or_unknown);
    let f = visitor(t.children, env);
    lemma_part(t, Role::Key, Mode::Plain, env, st);
    let key = one_part(t, Role::Key, Mode::Plain, f, st);
    lemma_part(t, Role::TypeAnn, Mode::Plain, env, key.st);
    lemma_part(t, Role::Value, Mode::Inferred, env, key.st);
    lemma_unknown_ann();
    let told = one_part(t, Role::Value, Mode::Inferred, f, key.st);
    let ann = if !drop_type && has_part(t, Role::TypeAnn) {
        one_part(t, Role::TypeAnn, Mode::Plain, f, key.st)
    } else if t.flags.access == crate::syntax::Access::Private {
        nothing(key.st)
    } else {
        single(ann_or_unknown(told.trees), told.st)
    };
    assert(all_bare(ann.trees));
    lemma_with_ann(key.trees, ann.trees);
    let n = Tree { children: with_ann(key.trees, ann.trees), ..t };
    assert forall|i: int| 0 <= i < n.children.len() implies (#[trigger] n.children[i]).role
        == Role::Key || n.children[i].role == Role::TypeAnn by {
        if key.trees.contains(n.children[i]) {
            let j = key.trees.index_of(n.children[i]);
            assert(key.trees[j].role == Role::Key);
        }
    }
    lemma_node(n, Role::Key, Role::TypeAnn);
}

proof fn lemma_default_ann(t: Tree, env: Env, st: State)
    requires
        !has_default_expr(t),
        all_bare(st.append),
    ensures
        ({
            let v = default_ann_out(t, visitor(t.children, env), st);
            all_bare(v.trees) && all_bare(v.st.append)
        }),
    decreases t, 1nat, 0nat,
{
    reveal(default_ann_out);
    lemma_part(t, Role::Left, Mode::Ann, env, st);
    lemma_part(t, Role::Right, Mode::Inferred, env, st);
}

proof fn lemma_assign(t: Tree, env: Env, st: State)
    requires
        !has_default_expr(t),
        all_bare(st.append),
        t.kind == Kind::AssignPat,
    ensures
        ({
            let v = assign_out(t, env, visitor(t.children, env), st);
            all_bare(v.trees) && all_bare(v.st.append)
        }),
    decreases t, 2nat, 0nat,
{
    reveal(assign_out);
    reveal(optional_binding);
    reveal(optional_object);
    let f = visitor(t.children, env);
    let left = child(t, Role::Left);
    if has_part(t, Role::Left) && left.kind == Kind::BindingIdent && has_part(left, Role::Name) {
        lemma_default_ann(t, env, st);
        let ann = default_ann_out(t, f, st);
        let name = Tree {
            role: Role::Name,
            flags: Flags { optional: true, ..plain() },
            ..name_tree(child(left, Role::Name).text)
        };
        lemma_leaf(name);
        let first = seq![name];
        lemma_with_ann(first, ann.trees);
        let n = optional_binding(t.role, child(left, Role::Name).text, ann.trees);
        assert forall|i: int| 0 <= i < n.children.len() implies (#[trigger] n.children[i]).role
            == Role::Name || n.children[i].role == Role::TypeAnn by {
            if first.contains(n.children[i]) {
                assert(first[0].role == Role::Name);
            }
        }
        lemma_node(n, Role::Name, Role::TypeAnn);
    } else if has_part(t, Role::Left) && left.kind == Kind::ObjectPat {
        lemma_part(t, Role::Left, Mode::Props, env, st);
        let props = one_part(t, Role::Left, Mode::Props, f, st);
        lemma_default_ann(t, env, props.st);
        let ann = default_ann_out(t, f, props.st);
        lemma_with_ann(props.trees, ann.trees);
        let n = optional_object(t.role, props.trees, ann.trees);
        lemma_props_roles(t, env, st);
        assert forall|i: int| 0 <= i < n.children.len() implies !is_code(
            n.kind,
            (#[trigger] n.children[i]).role,
        ) && is_bare(n.children[i]) by {
            if props.trees.contains(n.children[i]) {
                let j = props.trees.index_of(n.children[i]);
                assert(props.trees[j].role != Role::Decorator);
            }
        }
    } else {
        lemma_rebuilt(t, env, Owner::Other, st, t);
    }
}

/// The properties of an object pattern are no decorators.
proof fn lemma_props_roles(t: Tree, env: Env, st: State)
    requires
        !has_default_expr(t),
        all_bare(st.append),
    ensures
        ({
            let v = one_part(t, Role::Left, Mode::Props, visitor(t.children, env), st);
            forall|i: int| 0 <= i < v.trees.len() ==> (#[trigger] v.trees[i]).role
                != Role::Decorator
        }),
    decreases t, 1nat, 0nat,
{
    reveal(one_part);
    reveal(node_out);
    lemma_place(t, Role::Left);
    if has_part(t, Role::Left) {
        let p = place(t, Role::Left);
        let left = t.children[p];
        assert(!has_default_expr(left));
        assert(visitor(t.children, env)(p, Mode::Props, st) == visited(
            left,
            Mode::Props,
            env,
            st,
        ));
        lemma_parts(left, left.children.len(), env, Owner::Props, st);
    }
}

proof fn lemma_class(t: Tree, env: Env, st: State)
    requires
        !has_default_expr(t),
        all_bare(st.append),
        t.kind == Kind::Class,
    ensures
        ({
            let v = class_out(t, env, visitor(t.children, env), st);
            all_bare(v.trees) && all_bare(v.st.append)
        }),
    decreases t, 2nat, 0nat,
{
    reveal(class_out);
    reveal(class_with);
    reveal(private_marker);
    let f = visitor(t.children, env);
    lemma_parts(t, t.children.len(), env, Owner::PropsOfClass, st);
    let props = parts(t, env, Owner::PropsOfClass, f, st);
    lemma_parts(t, t.children.len(), env, Owner::Class, props.st);
    let rest = parts(t, env, Owner::Class, f, props.st);
    lemma_leaf(name_tree("private"@));
    lemma_one(Kind::PrivateName, Role::Name, name_tree("private"@));
    let name = made(Kind::PrivateName, seq![at(Role::Name, name_tree("private"@))]);
    lemma_one(Kind::PrivateProp, Role::Key, name);
    lemma_at(Role::Member, private_marker());
    let n = class_with(t, props.trees + rest.trees);
    let first = if super::transform::has_private_names(t.children) {
        seq![at(Role::Member, private_marker())]
    } else {
        Seq::empty()
    };
    assert forall|i: int| 0 <= i < n.children.len() implies !is_code(
        n.kind,
        (#[trigger] n.children[i]).role,
    ) && is_bare(n.children[i]) by {
        if i < first.len() {
            assert(n.children[i] == first[i]);
        } else if i < first.len() + props.trees.len() {
            assert(n.children[i] == props.trees[i - first.len()]);
        } else {
            assert(n.children[i] == rest.trees[i - first.len() - props.trees.len()]);
        }
    }
}

proof fn lemma_function(t: Tree, env: Env, st: State)
    requires
        !has_default_expr(t),
        all_bare(st.append),
        t.kind == Kind::Function,
    ensures
        ({
            let v = function_out(t, env, visitor(t.children, env), st);
            all_bare(v.trees) && all_bare(v.st.append)
        }),
    decreases t, 2nat, 0nat,
{
    reveal(function_out);
    reveal(function_with);
    reveal(function_noted);
    let noted = function_noted(t, st);
    lemma_parts(t, t.children.len(), env, Owner::Function, noted);
    let v = parts(t, env, Owner::Function, visitor(t.children, env), noted);
    lemma_return_type(t);
    lemma_ann_tree(default_return_type(t));
    lemma_at(Role::ReturnType, type_ann_tree(default_return_type(t)));
    let n = function_with(t, v.trees);
    assert forall|i: int| 0 <= i < n.children.len() implies !is_code(
        n.kind,
        (#[trigger] n.children[i]).role,
    ) && is_bare(n.children[i]) by {
        if i < v.trees.len() {
            assert(n.children[i] == v.trees[i]);
        }
    }
}

proof fn lemma_param_prop(t: Tree, env: Env, st: State)
    requires
        !has_default_expr(t),
        all_bare(st.append),
    ensures
        ({
            let v = param_prop_out(t, visitor(t.children, env), st);
            &&& all_bare(v.trees)
            &&& all_bare(v.st.append)
            &&& forall|i: int| 0 <= i < v.trees.len() ==> (#[trigger] v.trees[i]).role
                == Role::Member
        }),
    decreases t, 1nat, 0nat,
{
    reveal(param_prop_out);
    reveal(param_prop_tree);
    reveal(no_prop);
    reveal(ann_or_unknown);
    if !param_prop_supported(t) {
        lemma_leaf(no_prop());
    } else {
        let f = visitor(t.children, env);
        lemma_part(t, Role::Pattern, Mode::Key, env, st);
        let key = one_part(t, Role::Pattern, Mode::Key, f, st);
        let mode = if child(t, Role::Pattern).kind == Kind::AssignPat {
            Mode::DefaultAnn
        } else {
            Mode::Ann
        };
        lemma_part(t, Role::Pattern, mode, env, key.st);
        let ann = one_part(t, Role::Pattern, mode, f, key.st);
        super::transformer::lemma_key_single(t, env, st);
        lemma_unknown_ann();
        let first = seq![at(Role::Key, key.trees[0])];
        assert(is_bare(key.trees[0]));
        lemma_at(Role::Key, key.trees[0]);
        let n = param_prop_tree(t.flags, key.trees[0], ann.trees);
        lemma_with_ann(first, ann.trees);
        lemma_with_ann(first, seq![ann_or_unknown(ann.trees)]);
        assert forall|i: int| 0 <= i < n.children.len() implies (#[trigger] n.children[i]).role
            == Role::Key || n.children[i].role == Role::TypeAnn by {
            if first.contains(n.children[i]) {
                assert(first[0].role == Role::Key);
            }
        }
        lemma_node(n, Role::Key, Role::TypeAnn);
    }
}

proof fn lemma_items(t: Tree, n: nat, env: Env, st: State)
    requires
        !has_default_expr(t),
        all_bare(st.append),
        n <= t.children.len(),
    ensures
        ({
            let v = items_upto(t.children, n, env, visitor(t.children, env), st);
            all_bare(v.trees) && all_bare(v.st.append)
        }),
    decreases t, 0nat, n,
{
    if n > 0 {
        let s = t.children;
        let f = visitor(s, env);
        lemma_items(t, (n - 1) as nat, env, st);
        let before = items_upto(s, (n - 1) as nat, env, f, st);
        if item_kept(s[n - 1], env) {
            assert(!has_default_expr(s[n - 1]));
            lemma_bare(s[n - 1], Mode::Plain, env, before.st);
            super::transformer::lemma_plain_single(s[n - 1], env, before.st);
            let v = visited(s[n - 1], Mode::Plain, env, before.st);
            assert(f(n - 1, Mode::Plain, before.st) == v);
            assert(is_bare(v.trees[0]));
            let all = items_upto(s, n, env, f, st).trees;
            assert forall|i: int| 0 <= i < all.len() implies is_bare(#[trigger] all[i]) by {
                if i < before.trees.len() {
                    assert(all[i] == before.trees[i]);
                }
            }
        }
    }
}

/// Whatever a tree becomes holds declarations without code.
proof fn lemma_bare(t: Tree, mode: Mode, env: Env, st: State)
    requires
        !has_default_expr(t),
        all_bare(st.append),
    ensures
        all_bare(visited(t, mode, env, st).trees),
        all_bare(visited(t, mode, env, st).st.append),
        mode == Mode::AsProps ==> forall|i: int|
            0 <= i < visited(t, mode, env, st).trees.len() ==> (#[trigger] visited(
                t,
                mode,
                env,
                st,
            ).trees[i]).role != Role::Decorator,
    decreases t, 3nat, 0nat,
{
    reveal(node_out);
    let f = visitor(t.children, env);
    match mode {
        Mode::Plain => {
            lemma_plain(t, env, st);
        },
        Mode::AsParam => {
            reveal(as_kind);
            lemma_part(t, Role::Pattern, Mode::Plain, env, st);
            let v = one_part(t, Role::Pattern, Mode::Plain, f, st);
            lemma_node(as_kind(t, Kind::Param, v.trees), Role::Pattern, Role::Pattern);
        },
        Mode::AsPrivateProp => {
            reveal(as_private_prop);
            lemma_part(t, Role::Key, Mode::Plain, env, st);
            let v = one_part(t, Role::Key, Mode::Plain, f, st);
            lemma_node(as_private_prop(t, v.trees), Role::Key, Role::Key);
        },
        Mode::WithoutType => {
            lemma_prop(t, env, st, true);
        },
        Mode::AsAssignProp => {
            reveal(as_kind);
            reveal(key_noted);
            lemma_part(t, Role::Key, Mode::Plain, env, st);
            let v = one_part(t, Role::Key, Mode::Plain, f, st);
            lemma_node(as_kind(t, Kind::AssignPatProp, v.trees), Role::Key, Role::Key);
        },
        Mode::AsProps => {
            if t.kind == Kind::Constructor {
                lemma_parts(t, t.children.len(), env, Owner::PropsOfConstructor, st);
            } else {
                lemma_param_prop(t, env, st);
            }
        },
        Mode::Key => {
            lemma_part(t, Role::Left, Mode::Key, env, st);
            lemma_part(t, Role::Name, Mode::Plain, env, st);
        },
        Mode::Ann => {
            lemma_part(t, Role::TypeAnn, Mode::Plain, env, st);
        },
        Mode::DefaultAnn => {
            lemma_default_ann(t, env, st);
        },
        Mode::Inferred => {
            reveal(inferred_out);
            if super::transform::says_type(t) {
                lemma_part(t, Role::Type, Mode::Plain, env, st);
                let v = one_part(t, Role::Type, Mode::Plain, f, st);
                assert(v.trees.len() == 1) by {
                    reveal(one_part);
                    lemma_place(t, Role::Type);
                    super::transformer::lemma_plain_single(child(t, Role::Type), env, st);
                }
                assert(is_bare(v.trees[0]));
                lemma_ann_tree(v.trees[0]);
            } else {
                match super::transform::literal_type(t.kind) {
                    Some(keyword) => {
                        lemma_leaf(keyword_tree(keyword));
                        lemma_ann_tree(keyword_tree(keyword));
                    },
                    None => {},
                }
            }
        },
        Mode::Props => {
            lemma_parts(t, t.children.len(), env, Owner::Props, st);
        },
    }
}

proof fn lemma_plain(t: Tree, env: Env, st: State)
    requires
        !has_default_expr(t),
        all_bare(st.append),
    ensures
        ({
            let v = plain_out(t, env, visitor(t.children, env), st);
            all_bare(v.trees) && all_bare(v.st.append)
        }),
    decreases t, 2nat, 1nat,
{
    reveal(plain_out);
    let f = visitor(t.children, env);
    match t.kind {
        Kind::ExportDefaultExpr => {},
        Kind::Class => {
            lemma_class(t, env, st);
        },
        Kind::ClassProp => {
            lemma_prop(t, env, st, false);
        },
        Kind::Constructor => {
            lemma_rebuilt(t, env, Owner::Constructor, st, t);
        },
        Kind::Function => {
            lemma_function(t, env, st);
        },
        Kind::VarDeclarator => {
            lemma_rebuilt(
                t,
                env,
                Owner::VarDeclarator,
                st,
                Tree { flags: Flags { definite: false, ..t.flags }, ..t },
            );
        },
        Kind::VarDecl => {
            lemma_rebuilt(t, env, Owner::VarDecl, st, t);
        },
        Kind::AssignPat => {
            lemma_assign(t, env, st);
        },
        Kind::ObjectPat => {
            lemma_rebuilt(t, env, Owner::ObjectPat, st, t);
        },
        Kind::AssignPatProp => {
            lemma_rebuilt(t, env, Owner::AssignPatProp, st, t);
        },
        Kind::ExportNamed => {
            reveal(export_out);
            if super::transform::source_found(t, env) {
                lemma_leaf(Tree { children: Seq::empty(), ..t });
                match env.sources[crate::collections::key_place(
                    env.sources,
                    child(t, Role::Source).text,
                )].1.0 {
                    Some(id) => {
                        lemma_re_exported(t.children, t.children.len(), env, id as int, st);
                    },
                    None => {},
                }
            } else {
                lemma_rebuilt(t, env, Owner::Export, st, t);
            }
        },
        Kind::TsModuleBlock => {
            lemma_block(t, env, st);
            let n = Tree { children: block_out(t.children, env, f, st).trees, ..t };
            assert(is_bare(n));
        },
        _ => {
            lemma_rebuilt(t, env, Owner::Other, st, t);
        },
    }
}

proof fn lemma_block(t: Tree, env: Env, st: State)
    requires
        !has_default_expr(t),
        all_bare(st.append),
    ensures
        ({
            let v = block_out(t.children, env, visitor(t.children, env), st);
            all_bare(v.trees) && all_bare(v.st.append)
        }),
    decreases t, 1nat, 0nat,
{
    reveal(block_out);
    reveal(with_workaround);
    let f = visitor(t.children, env);
    lemma_items(t, t.children.len(), env, st);
    lemma_workaround();
    lemma_at(Role::Item, workaround_tree());
    let items = items_upto(t.children, t.children.len(), env, f, st);
    let all = items.trees + items.st.append;
    assert forall|i: int| 0 <= i < all.len() implies is_bare(#[trigger] all[i]) by {
        if i < items.trees.len() {
            assert(all[i] == items.trees[i]);
        } else {
            assert(all[i] == items.st.append[i - items.trees.len()]);
        }
    }
}

/// A declaration file holds declarations without code: whatever the items of a block
/// were, no function has a body when they are transformed, no variable or property a
/// value, and nothing has a decorator. An expression that is exported by default
/// stays as it is.
pub proof fn law_declarations_have_no_code(t: Tree, env: Env, st: State)
    requires
        !has_default_expr(t),
        all_bare(st.append),
    ensures
        all_bare(block_out(t.children, env, visitor(t.children, env), st).trees),
        all_bare(visited(t, Mode::Plain, env, st).trees),
{
    lemma_block(t, env, st);
    lemma_bare(t, Mode::Plain, env, st);
}

/// Whether an item is what another becomes.
pub open spec fn comes_from(t: Tree, item: Tree, env: Env) -> bool {
    exists|st: State| t == (#[trigger] visited(item, Mode::Plain, env, st)).trees[0]
}

proof fn lemma_kept(s: Seq<Tree>, n: nat, env: Env, st: State, i: int)
    requires
        n <= s.len(),
        0 <= i < items_upto(s, n, env, visitor(s, env), st).trees.len(),
    ensures
        exists|j: int|
            0 <= j < n && #[trigger] item_kept(s[j], env) && comes_from(
                items_upto(s, n, env, visitor(s, env), st).trees[i],
                s[j],
                env,
            ),
    decreases n,
{
    let f = visitor(s, env);
    if n > 0 {
        let before = items_upto(s, (n - 1) as nat, env, f, st);
        if i < before.trees.len() {
            lemma_kept(s, (n - 1) as nat, env, st, i);
            let j = choose|j: int|
                0 <= j < n - 1 && #[trigger] item_kept(s[j], env) && comes_from(
                    before.trees[i],
                    s[j],
                    env,
                );
            assert(item_kept(s[j], env));
        } else {
            let v = visited(s[n - 1], Mode::Plain, env, before.st);
            assert(f(n - 1, Mode::Plain, before.st) == v);
            assert(comes_from(v.trees[0], s[n - 1], env));
            assert(item_kept(s[n - 1], env));
        }
    }
}

/// A block holds only what is public: each of its items comes from one that is kept,
/// or exports names again, or is the empty declaration that such exports need.
pub proof fn law_only_public_items_stay(s: Seq<Tree>, env: Env, st: State, i: int)
    requires
        0 <= i < block_out(s, env, visitor(s, env), st).trees.len(),
    ensures
        ({
            let item = block_out(s, env, visitor(s, env), st).trees[i];
            ||| exists|j: int|
                0 <= j < s.len() && #[trigger] item_kept(s[j], env) && comes_from(item, s[j], env)
            ||| items_upto(s, s.len(), env, visitor(s, env), st).st.append.contains(item)
            ||| item == at(Role::Item, workaround_tree())
        }),
{
    reveal(block_out);
    reveal(with_workaround);
    let items = items_upto(s, s.len(), env, visitor(s, env), st);
    if i < items.trees.len() {
        lemma_kept(s, s.len(), env, st, i);
    } else if i < items.trees.len() + items.st.append.len() {
        assert(block_out(s, env, visitor(s, env), st).trees[i]
            == items.st.append[i - items.trees.len()]);
    }
}

}
