//! That a declaration without code stays as it is.

use vstd::prelude::*;

use super::transform::{
    as_kind, assign_out, default_ann_out, default_return_type, function_noted, function_out,
    function_with, inferred_out, literal_type, node_out, one_part, optional_binding,
    optional_object, part_mode, parts, parts_upto, plain_out, rebuilt, says_type, single,
    type_ref_tree, visited, visitor, with_ann, Env, Mode, Owner, State, Visited,
};
use super::transform_laws::lemma_role;
use super::transformer::lemma_plain_single;
use crate::helpers::{entity_tree, keyword_tree, made, name_tree, type_ann_tree};
use crate::syntax::{
    at, child, has_part, lemma_place, lemma_place_from, place, place_from, plain, Flags, Kind, Role, Tree,
};

verus! {

/// Whether a node is of a kind that a visit leaves alone but for its parts, or has
/// already what a visit would give it.
pub open spec fn node_settled(t: Tree) -> bool {
    match t.kind {
        Kind::Class
        | Kind::ClassProp
        | Kind::Constructor
        | Kind::ExportDefaultExpr
        | Kind::ExportNamed
        | Kind::TsModuleBlock
        | Kind::VarDecl => false,
        Kind::Function => !t.flags.is_async && !t.flags.is_generator && has_part(
            t,
            Role::ReturnType,
        ) && no_part(t, Role::Body),
        Kind::VarDeclarator => !t.flags.definite && no_part(t, Role::Init),
        Kind::AssignPatProp => no_part(t, Role::Value),
        Kind::AssignPat => forall|i: int|
            0 <= i < t.children.len() && (#[trigger] t.children[i]).role == Role::Left
                ==> t.children[i].kind != Kind::BindingIdent && t.children[i].kind
                != Kind::ObjectPat,
        Kind::ObjectPat => forall|i: int|
            0 <= i < t.children.len() ==> (#[trigger] t.children[i]).kind != Kind::KeyValuePatProp,
        _ => true,
    }
}

/// Whether a node has no part with the role.
pub open spec fn no_part(t: Tree, role: Role) -> bool {
    forall|i: int| 0 <= i < t.children.len() ==> (#[trigger] t.children[i]).role != role
}

/// Whether this holds of every node of a tree, and none has a decorator.
pub open spec fn settled(t: Tree) -> bool
    decreases t,
{
    &&& node_settled(t)
    &&& forall|i: int|
        0 <= i < t.children.len() ==> (#[trigger] t.children[i]).role != Role::Decorator
            && settled(t.children[i])
}

/// Whether every tree of a list is settled.
pub open spec fn all_settled(s: Seq<Tree>) -> bool {
    forall|i: int| 0 <= i < s.len() ==> settled(#[trigger] s[i])
}

/// Whether a visit leaves a part of a node out.
pub open spec fn is_dropped(kind: Kind, role: Role) -> bool {
    ||| role == Role::Decorator
    ||| kind == Kind::Function && role == Role::Body
    ||| kind == Kind::VarDeclarator && role == Role::Init
    ||| kind == Kind::AssignPatProp && role == Role::Value
}

/// Whether a pattern with a default value becomes optional, and the value is only looked
/// at for its type.
pub open spec fn becomes_optional(t: Tree) -> bool {
    let left = child(t, Role::Left);
    has_part(t, Role::Left) && (left.kind == Kind::BindingIdent && has_part(left, Role::Name)
        || left.kind == Kind::ObjectPat)
}

/// Whether what stays of a tree holds no class, no item of a module and no declaration
/// of variables, a pattern with a default value is a name, an object or an array, and
/// what stands for a type annotation is one.
pub open spec fn is_simple(t: Tree) -> bool
    decreases t,
{
    &&& match t.kind {
        Kind::Class
        | Kind::ClassProp
        | Kind::Constructor
        | Kind::ExportDefaultExpr
        | Kind::ExportNamed
        | Kind::TsModuleBlock
        | Kind::VarDecl => false,
        Kind::AssignPat => {
            ||| becomes_optional(t)
            ||| forall|i: int|
                0 <= i < t.children.len() && (#[trigger] t.children[i]).role == Role::Left
                    ==> t.children[i].kind != Kind::BindingIdent && t.children[i].kind
                    != Kind::ObjectPat && t.children[i].kind != Kind::AssignPat
        },
        _ => true,
    }
    &&& forall|i: int|
        0 <= i < t.children.len() && !is_dropped(t.kind, (#[trigger] t.children[i]).role) ==> (
        t.children[i].role == Role::TypeAnn ==> t.children[i].kind == Kind::TsTypeAnn) && if t.kind
            == Kind::AssignPat && becomes_optional(t) && t.children[i].role == Role::Right {
            type_simple(t.children[i])
        } else {
            is_simple(t.children[i])
        }
}

/// Whether this holds of the type that an expression says itself.
pub open spec fn type_simple(t: Tree) -> bool
    decreases t,
{
    forall|i: int|
        0 <= i < t.children.len() && (#[trigger] t.children[i]).role == Role::Type ==> is_simple(
            t.children[i],
        )
}

proof fn lemma_no_part(t: Tree, role: Role)
    requires
        no_part(t, role),
    ensures
        !has_part(t, role),
{
    lemma_place(t, role);
}

/// The parts of a settled node stay as they are.
proof fn lemma_parts_stay(t: Tree, n: nat, env: Env, owner: Owner, st: State)
    requires
        n <= t.children.len(),
        forall|i: int|
            0 <= i < t.children.len() ==> settled(#[trigger] t.children[i]) && part_mode(
                t.children,
                i,
                env,
                owner,
            ) == Some(Mode::Plain),
    ensures
        parts_upto(t.children, n, env, owner, visitor(t.children, env), st) == (Visited {
            trees: t.children.take(n as int),
            st,
        }),
    decreases t, 0nat, n,
{
    if n == 0 {
        assert(t.children.take(0) =~= Seq::<Tree>::empty());
    } else {
        let f = visitor(t.children, env);
        lemma_parts_stay(t, (n - 1) as nat, env, owner, st);
        let last = t.children[n - 1];
        assert(settled(last));
        lemma_stays(last, env, st);
        assert(f(n - 1, Mode::Plain, st) == visited(last, Mode::Plain, env, st));
        assert(t.children.take(n - 1) + seq![last] =~= t.children.take(n as int));
    }
}

/// A settled tree stays as it is, and nothing is noted of it.
proof fn lemma_stays(t: Tree, env: Env, st: State)
    requires
        settled(t),
    ensures
        visited(t, Mode::Plain, env, st) == single(t, st),
    decreases t, 1nat, 0nat,
{
    reveal(node_out);
    reveal(plain_out);
    reveal(part_mode);
    let n = t.children.len();
    let f = visitor(t.children, env);
    assert(t.children.take(n as int) =~= t.children);
    match t.kind {
        Kind::Function => {
            reveal(function_out);
            reveal(function_noted);
            reveal(function_with);
            lemma_parts_stay(t, n, env, Owner::Function, st);
            assert(function_with(t, t.children) == t);
        },
        Kind::VarDeclarator => {
            lemma_parts_stay(t, n, env, Owner::VarDeclarator, st);
            assert((Tree { flags: Flags { definite: false, ..t.flags }, ..t }) == t);
        },
        Kind::AssignPat => {
            reveal(assign_out);
            lemma_place(t, Role::Left);
            if has_part(t, Role::Left) {
                assert(t.children[place(t, Role::Left)].role == Role::Left);
            }
            lemma_parts_stay(t, n, env, Owner::Other, st);
        },
        Kind::ObjectPat => {
            lemma_parts_stay(t, n, env, Owner::ObjectPat, st);
        },
        Kind::AssignPatProp => {
            lemma_parts_stay(t, n, env, Owner::AssignPatProp, st);
        },
        _ => {
            lemma_parts_stay(t, n, env, Owner::Other, st);
        },
    }
}

/// The kind of a node is kept where it is visited as what it is, but for patterns with
/// default values.
proof fn lemma_kind(t: Tree, env: Env, st: State)
    requires
        is_simple(t),
    ensures
        forall|i: int|
            0 <= i < visited(t, Mode::Plain, env, st).trees.len() ==> {
                let kind = (#[trigger] visited(t, Mode::Plain, env, st).trees[i]).kind;
                kind == t.kind || t.kind == Kind::AssignPat && (kind == Kind::BindingIdent || kind
                    == Kind::ObjectPat)
            },
{
    reveal(node_out);
    reveal(plain_out);
    match t.kind {
        Kind::Function => {
            reveal(function_out);
            reveal(function_with);
        },
        Kind::AssignPat => {
            reveal(assign_out);
            reveal(optional_binding);
            reveal(optional_object);
        },
        _ => {},
    }
}

/// Whether a part belongs to a node that has such parts.
spec fn comes_from_part(s: Seq<Tree>, owner: Owner, t: Tree) -> bool {
    exists|k: int|
        0 <= k < s.len() && (#[trigger] s[k]).role == t.role && (s[k].kind == t.kind || s[k].kind
            == Kind::AssignPat || (owner == Owner::ObjectPat || owner == Owner::Props) && s[k].kind
            == Kind::KeyValuePatProp && t.kind == Kind::AssignPatProp)
}

/// What holds of the parts of a node after they were visited.
spec fn parts_settled(s: Seq<Tree>, owner: Owner, trees: Seq<Tree>) -> bool {
    forall|i: int|
        0 <= i < trees.len() ==> settled(#[trigger] trees[i]) && trees[i].role != Role::Decorator
            && (owner == Owner::Function ==> trees[i].role != Role::Body) && (owner
            == Owner::VarDeclarator ==> trees[i].role != Role::Init) && (owner
            == Owner::AssignPatProp ==> trees[i].role != Role::Value) && (owner == Owner::ObjectPat
            || owner == Owner::Props ==> trees[i].kind != Kind::KeyValuePatProp)
            && comes_from_part(s, owner, trees[i])
}

/// Whether the visit of a node's parts is one of a simple node.
spec fn is_simple_owner(owner: Owner) -> bool {
    owner == Owner::Other || owner == Owner::Function || owner == Owner::VarDeclarator || owner
        == Owner::ObjectPat || owner == Owner::Props || owner == Owner::AssignPatProp
}

/// Whether the parts of a node are visited as those of such a node.
spec fn fits(t: Tree, owner: Owner) -> bool {
    &&& t.kind == Kind::Function ==> owner == Owner::Function || owner == Owner::Props
    &&& t.kind == Kind::VarDeclarator ==> owner == Owner::VarDeclarator || owner == Owner::Props
    &&& t.kind == Kind::AssignPatProp ==> owner == Owner::AssignPatProp || owner == Owner::Props
    &&& t.kind == Kind::AssignPat && becomes_optional(t) ==> owner == Owner::Props
}

proof fn lemma_parts(t: Tree, n: nat, env: Env, owner: Owner, st: State)
    requires
        is_simple(t),
        is_simple_owner(owner),
        fits(t, owner),
        n <= t.children.len(),
    ensures
        ({
            let v = parts_upto(t.children, n, env, owner, visitor(t.children, env), st);
            &&& parts_settled(t.children, owner, v.trees)
            &&& forall|k: int|
                0 <= k < n && part_mode(t.children, k, env, owner) == Some(Mode::Plain)
                    ==> has_role(v.trees, (#[trigger] t.children[k]).role)
        }),
    decreases t, 0nat, n,
{
    if n > 0 {
        reveal(part_mode);
        let s = t.children;
        let f = visitor(s, env);
        lemma_parts(t, (n - 1) as nat, env, owner, st);
        let before = parts_upto(s, (n - 1) as nat, env, owner, f, st);
        match part_mode(s, n - 1, env, owner) {
            Some(mode) => {
                assert(is_simple(s[n - 1]));
                lemma_settles(s[n - 1], mode, env, before.st);
                let v = visited(s[n - 1], mode, env, before.st);
                assert(f(n - 1, mode, before.st) == v);
                lemma_role(s[n - 1], mode, env, before.st);
                if mode == Mode::Plain {
                    lemma_kind(s[n - 1], env, before.st);
                    lemma_plain_single(s[n - 1], env, before.st);
                } else {
                    reveal(node_out);
                    reveal(as_kind);
                }
                let all = before.trees + v.trees;
                assert forall|i: int| 0 <= i < all.len() implies settled(#[trigger] all[i])
                    && all[i].role != Role::Decorator && (owner == Owner::Function ==> all[i].role
                    != Role::Body) && (owner == Owner::VarDeclarator ==> all[i].role != Role::Init)
                    && (owner == Owner::AssignPatProp ==> all[i].role != Role::Value) && (owner
                    == Owner::ObjectPat || owner == Owner::Props ==> all[i].kind
                    != Kind::KeyValuePatProp) && comes_from_part(s, owner, all[i]) by {
                    if i < before.trees.len() {
                        assert(all[i] == before.trees[i]);
                    } else {
                        assert(all[i] == v.trees[i - before.trees.len()]);
                        assert(s[n - 1].role == all[i].role);
                    }
                }
                assert forall|k: int|
                    0 <= k < n && part_mode(s, k, env, owner) == Some(Mode::Plain) implies has_role(
                    all,
                    (#[trigger] s[k]).role,
                ) by {
                    if k < n - 1 {
                        let j = choose|j: int|
                            0 <= j < before.trees.len() && (#[trigger] before.trees[j]).role
                                == s[k].role;
                        assert(all[j] == before.trees[j]);
                    } else {
                        assert(all[before.trees.len() as int] == v.trees[0]);
                    }
                }
            },
            None => {},
        }
    }
}

/// Whether one of the trees has the role.
pub open spec fn has_role(s: Seq<Tree>, role: Role) -> bool {
    exists|j: int| 0 <= j < s.len() && (#[trigger] s[j]).role == role
}

proof fn lemma_has_role(t: Tree, role: Role)
    requires
        has_role(t.children, role),
    ensures
        has_part(t, role),
{
    lemma_place_from(t.children, role, 0);
    let j = choose|j: int| 0 <= j < t.children.len() && (#[trigger] t.children[j]).role == role;
    if place(t, role) == t.children.len() {
        assert(t.children[j].role != role);
    }
}

/// The part of a simple node with the role, visited.
proof fn lemma_part(t: Tree, role: Role, mode: Mode, env: Env, st: State)
    requires
        is_simple(t),
        is_simple_mode(mode),
        role == Role::Left || role == Role::TypeAnn || role == Role::Type || role == Role::Key,
    ensures
        ({
            let v = one_part(t, role, mode, visitor(t.children, env), st);
            &&& all_settled(v.trees)
            &&& mode == Mode::Plain ==> forall|i: int|
                0 <= i < v.trees.len() ==> (#[trigger] v.trees[i]).role == role
        }),
    decreases t, 0nat, 0nat,
{
    reveal(one_part);
    lemma_place(t, role);
    if has_part(t, role) {
        let p = place(t, role);
        assert(is_simple(t.children[p]));
        assert(visitor(t.children, env)(p, mode, st) == visited(t.children[p], mode, env, st));
        lemma_settles(t.children[p], mode, env, st);
        if mode == Mode::Plain {
            lemma_role(t.children[p], mode, env, st);
        }
    }
}

/// How the parts of simple nodes are visited.
spec fn is_simple_mode(mode: Mode) -> bool {
    mode == Mode::Plain || mode == Mode::AsAssignProp || mode == Mode::Ann || mode
        == Mode::DefaultAnn || mode == Mode::Inferred || mode == Mode::Props
}

proof fn lemma_at(role: Role, t: Tree)
    requires
        settled(t),
    ensures
        settled(at(role, t)),
{
    lemma_place_at(t, role, Role::ReturnType);
}

proof fn lemma_place_at(t: Tree, role: Role, other: Role)
    ensures
        has_part(at(role, t), other) == has_part(t, other),
{
}

proof fn lemma_leaf(kind: Kind, text: Seq<char>)
    requires
        kind == Kind::TsKeywordType || kind == Kind::EntityName || kind == Kind::Ident,
    ensures
        settled(Tree { text, ..made(kind, Seq::empty()) }),
{
}

proof fn lemma_ann_tree(t: Tree)
    requires
        settled(t),
    ensures
        settled(type_ann_tree(t)),
{
    lemma_at(Role::Type, t);
    let n = type_ann_tree(t);
    assert forall|i: int| 0 <= i < n.children.len() implies (#[trigger] n.children[i]).role
        != Role::Decorator && settled(n.children[i]) by {
        assert(n.children[i] == at(Role::Type, t));
    }
}

proof fn lemma_type_ref(name: Seq<char>, args: Seq<Tree>)
    requires
        all_settled(args),
        forall|i: int| 0 <= i < args.len() ==> (#[trigger] args[i]).role == Role::Param,
    ensures
        settled(type_ref_tree(name, args)),
{
    let list = made(Kind::TsTypeParamInstantiation, args);
    assert(settled(list)) by {
        assert forall|i: int| 0 <= i < list.children.len() implies (
        #[trigger] list.children[i]).role != Role::Decorator && settled(list.children[i]) by {
            assert(list.children[i] == args[i]);
        }
    }
    lemma_at(Role::TypeArgs, list);
    lemma_leaf(Kind::EntityName, name);
    lemma_at(Role::TypeName, entity_tree(name));
    let t = type_ref_tree(name, args);
    assert forall|i: int| 0 <= i < t.children.len() implies (#[trigger] t.children[i]).role
        != Role::Decorator && settled(t.children[i]) by {}
}

proof fn lemma_return_type(t: Tree)
    ensures
        settled(default_return_type(t)),
{
    reveal(default_return_type);
    let unknown = keyword_tree("unknown"@);
    let void = keyword_tree("void"@);
    lemma_leaf(Kind::TsKeywordType, "unknown"@);
    lemma_leaf(Kind::TsKeywordType, "void"@);
    lemma_at(Role::Param, unknown);
    lemma_at(Role::Param, void);
    lemma_type_ref("Promise"@, seq![at(Role::Param, unknown)]);
    lemma_type_ref("Promise"@, seq![at(Role::Param, void)]);
    lemma_type_ref(
        "Generator"@,
        seq![at(Role::Param, unknown), at(Role::Param, void), at(Role::Param, unknown)],
    );
}

proof fn lemma_default_ann(t: Tree, env: Env, st: State)
    requires
        is_simple(t),
    ensures
        all_settled(default_ann_out(t, visitor(t.children, env), st).trees),
    decreases t, 1nat, 0nat,
{
    reveal(default_ann_out);
    lemma_part(t, Role::Left, Mode::Ann, env, st);
    reveal(one_part);
    reveal(node_out);
    lemma_place(t, Role::Right);
    if has_part(t, Role::Right) {
        let p = place(t, Role::Right);
        let right = t.children[p];
        assert(right.role == Role::Right);
        if !(t.kind == Kind::AssignPat && becomes_optional(t)) {
            assert(is_simple(right));
            lemma_type_simple(right);
        }
        assert(visitor(t.children, env)(p, Mode::Inferred, st) == visited(
            right,
            Mode::Inferred,
            env,
            st,
        ));
        lemma_inferred(right, env, st);
    }
}

proof fn lemma_type_simple(t: Tree)
    requires
        is_simple(t),
    ensures
        type_simple(t),
{
}

/// The type that can be told of an expression.
proof fn lemma_inferred(t: Tree, env: Env, st: State)
    requires
        type_simple(t),
    ensures
        all_settled(inferred_out(t, visitor(t.children, env), st).trees),
    decreases t, 0nat, 0nat,
{
    reveal(inferred_out);
    reveal(one_part);
    let f = visitor(t.children, env);
    lemma_place(t, Role::Type);
    if says_type(t) {
        let p = place(t, Role::Type);
        assert(t.children[p].role == Role::Type);
        assert(is_simple(t.children[p]));
        lemma_settles(t.children[p], Mode::Plain, env, st);
        lemma_plain_single(t.children[p], env, st);
        let v = one_part(t, Role::Type, Mode::Plain, f, st);
        assert(f(p, Mode::Plain, st) == visited(t.children[p], Mode::Plain, env, st));
        assert(settled(v.trees[0]));
        lemma_ann_tree(v.trees[0]);
    } else {
        match literal_type(t.kind) {
            Some(keyword) => {
                lemma_leaf(Kind::TsKeywordType, keyword);
                lemma_ann_tree(keyword_tree(keyword));
            },
            None => {},
        }
    }
}

/// Parts with a type annotation.
proof fn lemma_with_ann(s: Seq<Tree>, ann: Seq<Tree>)
    requires
        all_settled(s),
        all_settled(ann),
        forall|i: int| 0 <= i < s.len() ==> (#[trigger] s[i]).role != Role::Decorator,
    ensures
        forall|i: int|
            0 <= i < with_ann(s, ann).len() ==> (#[trigger] with_ann(s, ann)[i]).role
                != Role::Decorator && settled(with_ann(s, ann)[i]) && (s.contains(
                with_ann(s, ann)[i],
            ) || ann.len() > 0 && with_ann(s, ann)[i] == at(Role::TypeAnn, ann[0])),
{
    reveal(with_ann);
    if ann.len() > 0 {
        lemma_at(Role::TypeAnn, ann[0]);
    }
    let all = with_ann(s, ann);
    assert forall|i: int| 0 <= i < all.len() implies (#[trigger] all[i]).role != Role::Decorator
        && settled(all[i]) && (s.contains(all[i]) || ann.len() > 0 && all[i] == at(
        Role::TypeAnn,
        ann[0],
    )) by {
        if i < s.len() {
            assert(all[i] == s[i]);
        }
    }
}

proof fn lemma_assign(t: Tree, env: Env, st: State)
    requires
        is_simple(t),
        t.kind == Kind::AssignPat,
    ensures
        all_settled(assign_out(t, env, visitor(t.children, env), st).trees),
    decreases t, 3nat, 0nat,
{
    reveal(assign_out);
    reveal(optional_binding);
    reveal(optional_object);
    let f = visitor(t.children, env);
    let left = child(t, Role::Left);
    if has_part(t, Role::Left) && left.kind == Kind::BindingIdent && has_part(left, Role::Name) {
        lemma_default_ann(t, env, st);
        let ann = default_ann_out(t, f, st);
        let name = Tree {
            role: Role::Name,
            flags: Flags { optional: true, ..plain() },
            ..name_tree(child(left, Role::Name).text)
        };
        assert(settled(name));
        let first = seq![name];
        lemma_with_ann(first, ann.trees);
        let n = optional_binding(t.role, child(left, Role::Name).text, ann.trees);
        assert(n.children == with_ann(first, ann.trees));
        assert(settled(n));
    } else if has_part(t, Role::Left) && left.kind == Kind::ObjectPat {
        lemma_part(t, Role::Left, Mode::Props, env, st);
        let props = one_part(t, Role::Left, Mode::Props, f, st);
        lemma_default_ann(t, env, props.st);
        let ann = default_ann_out(t, f, props.st);
        lemma_props(t, env, st);
        lemma_with_ann(props.trees, ann.trees);
        lemma_ann_no_prop(t, env, props.st);
        let n = optional_object(t.role, props.trees, ann.trees);
        assert(n.children == with_ann(props.trees, ann.trees));
        assert forall|i: int| 0 <= i < n.children.len() implies (#[trigger] n.children[i]).kind
            != Kind::KeyValuePatProp by {
            if props.trees.contains(n.children[i]) {
                let j = props.trees.index_of(n.children[i]);
                assert(props.trees[j].kind != Kind::KeyValuePatProp);
            }
        }
        assert(settled(n));
    } else {
        lemma_parts(t, t.children.len(), env, Owner::Other, st);
        let v = parts(t, env, Owner::Other, f, st);
        let n = Tree { children: v.trees, ..t };
        assert forall|i: int|
            0 <= i < n.children.len() && (#[trigger] n.children[i]).role
                == Role::Left implies n.children[i].kind != Kind::BindingIdent && n.children[i].kind
            != Kind::ObjectPat by {
            assert(comes_from_part(t.children, Owner::Other, v.trees[i]));
            let k = choose|k: int|
                0 <= k < t.children.len() && (#[trigger] t.children[k]).role == v.trees[i].role && (
                t.children[k].kind == v.trees[i].kind || t.children[k].kind == Kind::AssignPat);
            assert(t.children[k].role == Role::Left);
        }
        assert forall|i: int| 0 <= i < n.children.len() implies (#[trigger] n.children[i]).role
            != Role::Decorator && settled(n.children[i]) by {
            assert(n.children[i] == v.trees[i]);
        }
        assert(settled(n));
    }
}

/// A type annotation is no property.
proof fn lemma_ann_no_prop(t: Tree, env: Env, st: State)
    requires
        is_simple(t),
    ensures
        ({
            let v = default_ann_out(t, visitor(t.children, env), st);
            v.trees.len() > 0 ==> v.trees[0].kind != Kind::KeyValuePatProp
        }),
    decreases t, 2nat, 0nat,
{
    reveal(default_ann_out);
    reveal(one_part);
    reveal(node_out);
    reveal(inferred_out);
    lemma_place(t, Role::Right);
    lemma_place(t, Role::Left);
    if has_part(t, Role::Left) && has_part(child(t, Role::Left), Role::TypeAnn) {
        let left = child(t, Role::Left);
        assert(is_simple(left));
        lemma_place(left, Role::TypeAnn);
        let p = place(left, Role::TypeAnn);
        assert(is_simple(left.children[p]));
        assert(left.children[p].role == Role::TypeAnn);
        lemma_kind(left.children[p], env, st);
        assert(visitor(left.children, env)(p, Mode::Plain, st) == visited(
            left.children[p],
            Mode::Plain,
            env,
            st,
        ));
        assert(visitor(t.children, env)(place(t, Role::Left), Mode::Ann, st) == visited(
            left,
            Mode::Ann,
            env,
            st,
        ));
    } else if has_part(t, Role::Right) {
        let right = child(t, Role::Right);
        assert(visitor(t.children, env)(place(t, Role::Right), Mode::Inferred, st) == visited(
            right,
            Mode::Inferred,
            env,
            st,
        ));
    }
}

/// The properties of an object pattern, visited.
proof fn lemma_props(t: Tree, env: Env, st: State)
    requires
        is_simple(t),
    ensures
        ({
            let v = one_part(t, Role::Left, Mode::Props, visitor(t.children, env), st);
            forall|i: int|
                0 <= i < v.trees.len() ==> (#[trigger] v.trees[i]).role != Role::Decorator
                    && v.trees[i].kind != Kind::KeyValuePatProp
        }),
    decreases t, 1nat, 0nat,
{
    reveal(one_part);
    reveal(node_out);
    lemma_place(t, Role::Left);
    if has_part(t, Role::Left) {
        let p = place(t, Role::Left);
        let left = t.children[p];
        assert(is_simple(left));
        assert(visitor(t.children, env)(p, Mode::Props, st) == visited(
            left,
            Mode::Props,
            env,
            st,
        ));
        lemma_parts(left, left.children.len(), env, Owner::Props, st);
    }
}

proof fn lemma_rebuilt(t: Tree, into: Tree, env: Env, owner: Owner, st: State)
    requires
        is_simple(t),
        is_simple_owner(owner),
        into.kind == t.kind,
        t.kind != Kind::Function,
        t.kind != Kind::AssignPat,
        t.kind == Kind::VarDeclarator ==> owner == Owner::VarDeclarator && !into.flags.definite,
        t.kind == Kind::AssignPatProp ==> owner == Owner::AssignPatProp,
        t.kind == Kind::ObjectPat ==> owner == Owner::ObjectPat,
    ensures
        all_settled(rebuilt(into, parts(t, env, owner, visitor(t.children, env), st)).trees),
    decreases t, 1nat, 0nat,
{
    lemma_parts(t, t.children.len(), env, owner, st);
    let v = parts(t, env, owner, visitor(t.children, env), st);
    let n = Tree { children: v.trees, ..into };
    assert forall|i: int| 0 <= i < n.children.len() implies (#[trigger] n.children[i]).role
        != Role::Decorator && settled(n.children[i]) by {
        assert(n.children[i] == v.trees[i]);
    }
    assert(node_settled(n)) by {
        assert forall|i: int| 0 <= i < n.children.len() implies n.children[i] == #[trigger] v.trees[i] by {}
    }
    assert(settled(n));
}

proof fn lemma_function(t: Tree, env: Env, st: State)
    requires
        is_simple(t),
        t.kind == Kind::Function,
    ensures
        all_settled(function_out(t, env, visitor(t.children, env), st).trees),
    decreases t, 1nat, 0nat,
{
    reveal(function_out);
    reveal(function_noted);
    reveal(function_with);
    reveal(part_mode);
    let noted = function_noted(t, st);
    lemma_parts(t, t.children.len(), env, Owner::Function, noted);
    let v = parts(t, env, Owner::Function, visitor(t.children, env), noted);
    lemma_return_type(t);
    lemma_ann_tree(default_return_type(t));
    let ann = at(Role::ReturnType, type_ann_tree(default_return_type(t)));
    lemma_at(Role::ReturnType, type_ann_tree(default_return_type(t)));
    let n = function_with(t, v.trees);
    assert(has_role(n.children, Role::ReturnType)) by {
        if has_part(t, Role::ReturnType) {
            lemma_place(t, Role::ReturnType);
            let p = place(t, Role::ReturnType);
            assert(t.children[p].role == Role::ReturnType);
            assert(part_mode(t.children, p, env, Owner::Function) == Some(Mode::Plain));
        } else {
            assert(n.children[v.trees.len() as int] == ann);
        }
    }
    lemma_has_role(n, Role::ReturnType);
    assert forall|i: int| 0 <= i < n.children.len() implies (#[trigger] n.children[i]).role
        != Role::Decorator && settled(n.children[i]) && n.children[i].role != Role::Body by {
        if i < v.trees.len() {
            assert(n.children[i] == v.trees[i]);
        }
    }
    assert(settled(n));
}

/// Whatever a simple tree becomes is settled.
proof fn lemma_settles(t: Tree, mode: Mode, env: Env, st: State)
    requires
        is_simple(t),
        is_simple_mode(mode),
    ensures
        all_settled(visited(t, mode, env, st).trees),
    decreases t, 4nat, 0nat,
{
    reveal(node_out);
    reveal(plain_out);
    let f = visitor(t.children, env);
    match mode {
        Mode::Plain => match t.kind {
            Kind::Function => {
                lemma_function(t, env, st);
            },
            Kind::VarDeclarator => {
                lemma_rebuilt(
                    t,
                    Tree { flags: Flags { definite: false, ..t.flags }, ..t },
                    env,
                    Owner::VarDeclarator,
                    st,
                );
            },
            Kind::AssignPat => {
                lemma_assign(t, env, st);
            },
            Kind::ObjectPat => {
                lemma_rebuilt(t, t, env, Owner::ObjectPat, st);
            },
            Kind::AssignPatProp => {
                lemma_rebuilt(t, t, env, Owner::AssignPatProp, st);
            },
            _ => {
                lemma_rebuilt(t, t, env, Owner::Other, st);
            },
        },
        Mode::AsAssignProp => {
            reveal(as_kind);
            lemma_part(t, Role::Key, Mode::Plain, env, st);
            let v = one_part(t, Role::Key, Mode::Plain, f, st);
            let n = as_kind(t, Kind::AssignPatProp, v.trees);
            assert forall|i: int| 0 <= i < n.children.len() implies (#[trigger] n.children[i]).role
                == Role::Key && settled(n.children[i]) by {
                assert(n.children[i] == v.trees[i]);
            }
            assert(settled(n));
        },
        Mode::Ann => {
            lemma_part(t, Role::TypeAnn, Mode::Plain, env, st);
        },
        Mode::DefaultAnn => {
            lemma_default_ann(t, env, st);
        },
        Mode::Inferred => {
            lemma_type_simple(t);
            lemma_inferred(t, env, st);
        },
        _ => {
            lemma_parts(t, t.children.len(), env, Owner::Props, st);
        },
    }
}

proof fn lemma_place_kept(s: Seq<Tree>, more: Seq<Tree>, role: Role, from: int)
    requires
        0 <= from <= s.len(),
        place_from(s, role, from) < s.len(),
    ensures
        place_from(s + more, role, from) == place_from(s, role, from),
    decreases s.len() - from,
{
    assert((s + more)[from] == s[from]);
    if s[from].role != role {
        lemma_place_kept(s, more, role, from + 1);
    }
}

proof fn lemma_place_new(s: Seq<Tree>, t: Tree, role: Role, from: int)
    requires
        0 <= from <= s.len(),
        forall|i: int| 0 <= i < s.len() ==> (#[trigger] s[i]).role != role,
        t.role == role,
    ensures
        place_from(s + seq![t], role, from) == s.len(),
    decreases s.len() - from,
{
    let all = s + seq![t];
    if from < s.len() {
        assert(all[from] == s[from]);
        lemma_place_new(s, t, role, from + 1);
    } else {
        assert(all[from] == t);
    }
}

/// The return type of a function is visited as what it is, and stays the first.
proof fn lemma_return_kept(t: Tree, n: nat, env: Env, st: State)
    requires
        n <= t.children.len(),
        settled(child(t, Role::ReturnType)),
    ensures
        ({
            let role = Role::ReturnType;
            let s = parts_upto(
                t.children,
                n,
                env,
                Owner::Function,
                visitor(t.children, env),
                st,
            ).trees;
            if place(t, role) >= n {
                forall|i: int| 0 <= i < s.len() ==> (#[trigger] s[i]).role != role
            } else {
                place_from(s, role, 0) < s.len() && s[place_from(s, role, 0)] == child(t, role)
            }
        }),
    decreases n,
{
    let role = Role::ReturnType;
    lemma_place_from(t.children, role, 0);
    if n > 0 {
        reveal(part_mode);
        let f = visitor(t.children, env);
        lemma_return_kept(t, (n - 1) as nat, env, st);
        let before = parts_upto(t.children, (n - 1) as nat, env, Owner::Function, f, st);
        let last = t.children[n - 1];
        match part_mode(t.children, n - 1, env, Owner::Function) {
            Some(mode) => {
                let v = visited(last, mode, env, before.st);
                assert(f(n - 1, mode, before.st) == v);
                lemma_role(last, mode, env, before.st);
                lemma_plain_single(last, env, before.st);
                assert(v.trees =~= seq![v.trees[0]]);
                let all = before.trees + v.trees;
                if place(t, role) >= n {
                    assert forall|i: int| 0 <= i < all.len() implies (#[trigger] all[i]).role
                        != role by {
                        if i < before.trees.len() {
                            assert(all[i] == before.trees[i]);
                        } else {
                            assert(all[i] == v.trees[0]);
                            assert(t.children[n - 1].role != role);
                        }
                    }
                } else if place(t, role) < n - 1 {
                    lemma_place_kept(before.trees, v.trees, role, 0);
                    lemma_place_from(before.trees, role, 0);
                    let p = place_from(before.trees, role, 0);
                    assert(all[p] == before.trees[p]);
                } else if place(t, role) == n - 1 {
                    lemma_stays(last, env, before.st);
                    lemma_place_new(before.trees, last, role, 0);
                    assert(all =~= before.trees + seq![last]);
                    assert(all[before.trees.len() as int] == last);
                }
            },
            None => {
                assert(t.children[n - 1].role != role);
            },
        }
    }
}

/// A second visit changes nothing: what a function became when it was visited is left
/// as it is, whatever the state, and nothing more is noted of it. It has no body, is
/// neither asynchronous nor a generator, and has a return type: the one that it had, if
/// it had one in which nothing is to be changed.
pub proof fn law_a_second_visit_changes_nothing(t: Tree, env: Env, first: State, second: State)
    requires
        t.kind == Kind::Function,
        is_simple(t),
    ensures
        ({
            let m = visited(t, Mode::Plain, env, first).trees[0];
            &&& visited(m, Mode::Plain, env, second) == single(m, second)
            &&& !has_part(m, Role::Body)
            &&& !m.flags.is_async && !m.flags.is_generator
            &&& has_part(m, Role::ReturnType)
            &&& has_part(t, Role::ReturnType) && settled(child(t, Role::ReturnType)) ==> child(
                m,
                Role::ReturnType,
            ) == child(t, Role::ReturnType)
        }),
{
    if has_part(t, Role::ReturnType) && settled(child(t, Role::ReturnType)) {
        reveal(node_out);
        reveal(plain_out);
        reveal(function_out);
        reveal(function_noted);
        reveal(function_with);
        lemma_return_kept(t, t.children.len(), env, first);
    }
    lemma_settles(t, Mode::Plain, env, first);
    lemma_plain_single(t, env, first);
    lemma_kind(t, env, first);
    let m = visited(t, Mode::Plain, env, first).trees[0];
    assert(settled(m));
    lemma_stays(m, env, second);
    lemma_no_part(m, Role::Body);
}

}
