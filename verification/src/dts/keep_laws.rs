//! What of a declaration is still there in the declaration file.

use vstd::prelude::*;

use super::transform::{
    after_overload, block_out, class_out, class_with, export_out, function_noted, function_out,
    function_with, is_kept, item_kept, item_stays, items_upto, member_stays, node_out, one_part,
    part_mode, parts, parts_upto, plain_out, prop_out, visited, visitor, with_ann, with_workaround,
    Env, Mode, Owner, State,
};
use super::transformer::lemma_plain_single;
use crate::comments::is_internal;
use crate::paths::{below, is_path, lemma_below, node_at};
use crate::syntax::{
    at, child, has_part, lemma_place_from, no_span, place, range_of, Access, Kind, Role, Tree,
};

verus! {

/// Whether a declaration is wanted: all are, or it comes from no source file, or it stands
/// at one of the places that are asked for.
pub open spec fn is_wanted(t: Tree, env: Env) -> bool {
    env.ranges matches Some(ranges) ==> t.span == no_span() || ranges.contains(range_of(t))
}

/// Whether a member of a class is a signature without a body.
pub open spec fn is_signature(t: Tree) -> bool {
    ||| t.kind == Kind::Constructor && !has_part(t, Role::Body)
    ||| (t.kind == Kind::ClassMethod || t.kind == Kind::PrivateMethod) && has_part(
        t,
        Role::Function,
    ) && !has_part(child(t, Role::Function), Role::Body)
}

/// Whether others see a member of a class: it is not private, not marked as internal, and
/// does not stand behind signatures without a body.
pub open spec fn is_seen(t: Tree, i: int, env: Env) -> bool {
    let member = t.children[i];
    &&& member.kind == Kind::Constructor || member.kind == Kind::TsIndexSignature || member.kind
        == Kind::AutoAccessor || (member.kind == Kind::ClassMethod || member.kind
        == Kind::ClassProp) && member.flags.access != Access::Private
    &&& !is_internal(env.comments, member.span.lo as int)
    &&& is_signature(member) || forall|k: int|
        0 <= k < i && (#[trigger] t.children[k]).role == Role::Member ==> !is_signature(
            t.children[k],
        )
}

/// Whether a part of a node belongs to what is declared: it is no code, no decorator and
/// nothing that others do not see.
pub open spec fn is_declared(t: Tree, i: int, env: Env) -> bool {
    let c = t.children[i];
    &&& c.role != Role::Decorator || t.kind == Kind::TsModuleBlock
    &&& match t.kind {
        Kind::Function => c.role != Role::Body,
        Kind::Constructor => c.role != Role::Body && c.kind != Kind::TsParamProp,
        Kind::VarDeclarator => c.role != Role::Init,
        Kind::AssignPatProp => c.role != Role::Value,
        Kind::ClassProp => (c.role == Role::Key || c.role == Role::TypeAnn) && forall|k: int|
            0 <= k < i ==> (#[trigger] t.children[k]).role != c.role,
        Kind::Class => c.role != Role::Member || is_seen(t, i, env),
        Kind::ObjectPat => c.kind != Kind::KeyValuePatProp,
        Kind::VarDecl => is_wanted(c, env),
        Kind::TsModuleBlock => is_wanted(c, env) && c.kind != Kind::ExportNamed && c.kind
            != Kind::ExportDefaultExpr && c.kind != Kind::AssignPat,
        Kind::AssignPat | Kind::ExportNamed | Kind::ExportDefaultExpr => false,
        _ => true,
    }
}

/// Whether a path leads to a node of what is declared. Patterns with default values become
/// others.
pub open spec fn is_declared_at(t: Tree, path: Seq<int>, env: Env) -> bool
    decreases path.len(),
{
    if path.len() == 0 {
        t.kind != Kind::AssignPat
    } else {
        &&& 0 <= path[0] < t.children.len()
        &&& is_declared(t, path[0], env)
        &&& is_declared_at(t.children[path[0]], path.skip(1), env)
    }
}

/// Whether two nodes are the same syntax at the same place of a source file.
pub open spec fn same_syntax(a: Tree, b: Tree) -> bool {
    a.kind == b.kind && a.role == b.role && a.text == b.text && a.span == b.span && a.origin
        == b.origin
}

/// Whether a tree holds a node at the end of a path of the same length.
pub open spec fn holds_same(m: Tree, n: Tree, len: nat) -> bool {
    exists|q: Seq<int>|
        #![trigger node_at(m, q)]
        is_path(m, q) && q.len() == len && same_syntax(n, node_at(m, q))
}

/// Whether a child of a node is, whatever the state, among the parts.
spec fn is_among(s: Seq<Tree>, c: Tree, env: Env) -> bool {
    exists|st: State|
        #![trigger visited(c, Mode::Plain, env, st)]
        s.contains(visited(c, Mode::Plain, env, st).trees[0])
}

proof fn lemma_among_add(a: Seq<Tree>, b: Seq<Tree>, c: Tree, env: Env)
    ensures
        is_among(a, c, env) || is_among(b, c, env) ==> is_among(a + b, c, env),
{
    let all = a + b;
    if is_among(a, c, env) {
        let st = choose|st: State|
            #![trigger visited(c, Mode::Plain, env, st)]
            a.contains(visited(c, Mode::Plain, env, st).trees[0]);
        let x = visited(c, Mode::Plain, env, st).trees[0];
        assert(all[a.index_of(x)] == x);
    }
    if is_among(b, c, env) {
        let st = choose|st: State|
            #![trigger visited(c, Mode::Plain, env, st)]
            b.contains(visited(c, Mode::Plain, env, st).trees[0]);
        let x = visited(c, Mode::Plain, env, st).trees[0];
        assert(all[a.len() + b.index_of(x)] == x);
    }
}

proof fn lemma_parts_among(t: Tree, n: nat, env: Env, owner: Owner, st: State, i: int)
    requires
        0 <= i < n <= t.children.len(),
        part_mode(t.children, i, env, owner) == Some(Mode::Plain),
    ensures
        is_among(
            parts_upto(t.children, n, env, owner, visitor(t.children, env), st).trees,
            t.children[i],
            env,
        ),
    decreases n,
{
    let f = visitor(t.children, env);
    let before = parts_upto(t.children, (n - 1) as nat, env, owner, f, st);
    let c = t.children[i];
    if i < n - 1 {
        lemma_parts_among(t, (n - 1) as nat, env, owner, st, i);
        match part_mode(t.children, n - 1, env, owner) {
            Some(mode) => {
                lemma_among_add(before.trees, f(n - 1, mode, before.st).trees, c, env);
            },
            None => {},
        }
    } else {
        let v = visited(c, Mode::Plain, env, before.st);
        assert(f(i, Mode::Plain, before.st) == v);
        lemma_plain_single(c, env, before.st);
        assert(v.trees[0] == visited(c, Mode::Plain, env, before.st).trees[0]);
        assert(v.trees.contains(v.trees[0]));
        assert(is_among(v.trees, c, env));
        lemma_among_add(before.trees, v.trees, c, env);
    }
}

proof fn lemma_items_among(t: Tree, n: nat, env: Env, st: State, i: int)
    requires
        0 <= i < n <= t.children.len(),
        item_kept(t.children[i], env),
        t.children[i].kind != Kind::ExportNamed,
        t.children[i].kind != Kind::ExportDefaultExpr,
        t.children[i].kind != Kind::AssignPat,
    ensures
        is_among(
            items_upto(t.children, n, env, visitor(t.children, env), st).trees,
            t.children[i],
            env,
        ),
    decreases n,
{
    let f = visitor(t.children, env);
    let before = items_upto(t.children, (n - 1) as nat, env, f, st);
    let after = items_upto(t.children, n, env, f, st);
    let c = t.children[i];
    let last = t.children[n - 1];
    let v = visited(last, Mode::Plain, env, before.st);
    assert(f(n - 1, Mode::Plain, before.st) == v);
    lemma_plain_single(last, env, before.st);
    let one = seq![v.trees[0]];
    if i < n - 1 {
        lemma_items_among(t, (n - 1) as nat, env, st, i);
        lemma_among_add(before.trees, one, c, env);
        assert(before.trees.push(v.trees[0]) =~= before.trees + one);
    } else {
        reveal(item_stays);
        lemma_face(c, env, before.st);
        assert(one[0] == v.trees[0]);
        assert(one.contains(visited(c, Mode::Plain, env, before.st).trees[0]));
        assert(is_among(one, c, env));
        lemma_among_add(before.trees, one, c, env);
        assert(before.trees.push(v.trees[0]) =~= before.trees + one);
    }
}

/// The node itself stays what it is.
pub proof fn lemma_face(t: Tree, env: Env, st: State)
    requires
        t.kind != Kind::AssignPat,
    ensures
        same_syntax(t, visited(t, Mode::Plain, env, st).trees[0]),
{
    reveal(node_out);
    reveal(plain_out);
    match t.kind {
        Kind::Class => {
            reveal(class_out);
            reveal(class_with);
        },
        Kind::ClassProp => {
            reveal(prop_out);
        },
        Kind::Function => {
            reveal(function_out);
            reveal(function_with);
        },
        Kind::ExportNamed => {
            reveal(export_out);
        },
        _ => {},
    }
}

proof fn lemma_not_after_signature(t: Tree, n: nat)
    requires
        n <= t.children.len(),
        forall|k: int|
            0 <= k < n && (#[trigger] t.children[k]).role == Role::Member ==> !is_signature(
                t.children[k],
            ),
    ensures
        !after_overload(t.children, n),
    decreases n,
{
    if n > 0 && t.children[n - 1].role != Role::Member {
        lemma_not_after_signature(t, (n - 1) as nat);
    }
}

pub proof fn lemma_seen(t: Tree, i: int, env: Env)
    requires
        0 <= i < t.children.len(),
        t.children[i].role == Role::Member,
        is_seen(t, i, env),
    ensures
        part_mode(t.children, i, env, Owner::Class) == Some(Mode::Plain),
{
    reveal(part_mode);
    reveal(member_stays);
    if !is_signature(t.children[i]) {
        lemma_not_after_signature(t, i as nat);
    }
}

proof fn lemma_one_part(t: Tree, role: Role, env: Env, st: State, i: int)
    requires
        0 <= i < t.children.len(),
        t.children[i].role == role,
        forall|k: int| 0 <= k < i ==> (#[trigger] t.children[k]).role != role,
    ensures
        has_part(t, role),
        place(t, role) == i,
        one_part(t, role, Mode::Plain, visitor(t.children, env), st) == visited(
            t.children[i],
            Mode::Plain,
            env,
            st,
        ),
{
    reveal(one_part);
    lemma_place_from(t.children, role, 0);
    if place(t, role) < i {
        assert(t.children[place(t, role)].role == role);
    }
    if place(t, role) > i {
        assert(t.children[i].role != role);
    }
}

proof fn lemma_step_class(t: Tree, i: int, env: Env, st: State)
    requires
        t.kind == Kind::Class,
        0 <= i < t.children.len(),
        is_declared(t, i, env),
    ensures
        is_among(visited(t, Mode::Plain, env, st).trees[0].children, t.children[i], env),
{
    reveal(node_out);
    reveal(plain_out);
    reveal(class_out);
    reveal(class_with);
    let f = visitor(t.children, env);
    let n = t.children.len();
    let c = t.children[i];
    let m = visited(t, Mode::Plain, env, st).trees[0];
    let props = parts(t, env, Owner::PropsOfClass, f, st);
    let rest = parts(t, env, Owner::Class, f, props.st);
    if c.role == Role::Member {
        lemma_seen(t, i, env);
    } else {
        reveal(part_mode);
    }
    lemma_parts_among(t, n, env, Owner::Class, props.st, i);
    lemma_among_add(props.trees, rest.trees, c, env);
    let first = m.children.take(m.children.len() - (props.trees + rest.trees).len());
    lemma_among_add(first, props.trees + rest.trees, c, env);
    assert(m.children =~= first + (props.trees + rest.trees));
}

proof fn lemma_step_prop(t: Tree, i: int, env: Env, st: State)
    requires
        t.kind == Kind::ClassProp,
        0 <= i < t.children.len(),
        is_declared(t, i, env),
    ensures
        is_among(visited(t, Mode::Plain, env, st).trees[0].children, t.children[i], env),
{
    reveal(node_out);
    reveal(plain_out);
    reveal(prop_out);
    reveal(with_ann);
    let f = visitor(t.children, env);
    let c = t.children[i];
    let m = visited(t, Mode::Plain, env, st).trees[0];
    let key = one_part(t, Role::Key, Mode::Plain, f, st);
    let s = if c.role == Role::Key {
        st
    } else {
        key.st
    };
    let v = visited(c, Mode::Plain, env, s);
    lemma_one_part(t, c.role, env, s, i);
    lemma_plain_single(c, env, s);
    super::transform_laws::lemma_role(c, Mode::Plain, env, s);
    assert(at(c.role, v.trees[0]) == v.trees[0]);
    if c.role == Role::Key {
        assert(m.children[0] == v.trees[0]);
    } else {
        assert(m.children[key.trees.len() as int] == v.trees[0]);
    }
    assert(m.children.contains(visited(c, Mode::Plain, env, s).trees[0]));
}

proof fn lemma_step_function(t: Tree, i: int, env: Env, st: State)
    requires
        t.kind == Kind::Function,
        0 <= i < t.children.len(),
        is_declared(t, i, env),
    ensures
        is_among(visited(t, Mode::Plain, env, st).trees[0].children, t.children[i], env),
{
    reveal(node_out);
    reveal(plain_out);
    reveal(part_mode);
    reveal(function_out);
    reveal(function_with);
    let f = visitor(t.children, env);
    let m = visited(t, Mode::Plain, env, st).trees[0];
    let noted = function_noted(t, st);
    lemma_parts_among(t, t.children.len(), env, Owner::Function, noted, i);
    let v = parts(t, env, Owner::Function, f, noted);
    let more = m.children.skip(v.trees.len() as int);
    lemma_among_add(v.trees, more, t.children[i], env);
    assert(m.children =~= v.trees + more);
}

proof fn lemma_step_block(t: Tree, i: int, env: Env, st: State)
    requires
        t.kind == Kind::TsModuleBlock,
        0 <= i < t.children.len(),
        is_declared(t, i, env),
    ensures
        is_among(visited(t, Mode::Plain, env, st).trees[0].children, t.children[i], env),
{
    reveal(node_out);
    reveal(plain_out);
    reveal(block_out);
    reveal(item_kept);
    reveal(is_kept);
    reveal(with_workaround);
    let f = visitor(t.children, env);
    let n = t.children.len();
    let c = t.children[i];
    let m = visited(t, Mode::Plain, env, st).trees[0];
    lemma_items_among(t, n, env, st, i);
    let items = items_upto(t.children, n, env, f, st);
    lemma_among_add(items.trees, items.st.append, c, env);
    let all = items.trees + items.st.append;
    let more = m.children.skip(all.len() as int);
    lemma_among_add(all, more, c, env);
    assert(m.children =~= all + more);
}

/// How the parts of a node are visited that is none of those above.
pub open spec fn owner_of(kind: Kind) -> Owner {
    match kind {
        Kind::Constructor => Owner::Constructor,
        Kind::VarDeclarator => Owner::VarDeclarator,
        Kind::VarDecl => Owner::VarDecl,
        Kind::ObjectPat => Owner::ObjectPat,
        Kind::AssignPatProp => Owner::AssignPatProp,
        _ => Owner::Other,
    }
}

proof fn lemma_step_other(t: Tree, i: int, env: Env, st: State)
    requires
        t.kind != Kind::Class,
        t.kind != Kind::ClassProp,
        t.kind != Kind::Function,
        t.kind != Kind::TsModuleBlock,
        0 <= i < t.children.len(),
        is_declared(t, i, env),
    ensures
        is_among(visited(t, Mode::Plain, env, st).trees[0].children, t.children[i], env),
{
    let f = visitor(t.children, env);
    let owner = owner_of(t.kind);
    assert(part_mode(t.children, i, env, owner) == Some(Mode::Plain)) by {
        reveal(part_mode);
        reveal(is_kept);
    }
    lemma_parts_among(t, t.children.len(), env, owner, st, i);
    assert(visited(t, Mode::Plain, env, st).trees[0].children == parts(
        t,
        env,
        owner,
        f,
        st,
    ).trees) by {
        reveal(node_out);
        reveal(plain_out);
    }
}

/// A part of what is declared is among the parts of the node that becomes of it.
proof fn lemma_step(t: Tree, i: int, env: Env, st: State)
    requires
        0 <= i < t.children.len(),
        is_declared(t, i, env),
    ensures
        is_among(visited(t, Mode::Plain, env, st).trees[0].children, t.children[i], env),
{
    match t.kind {
        Kind::Class => {
            lemma_step_class(t, i, env, st);
        },
        Kind::ClassProp => {
            lemma_step_prop(t, i, env, st);
        },
        Kind::Function => {
            lemma_step_function(t, i, env, st);
        },
        Kind::TsModuleBlock => {
            lemma_step_block(t, i, env, st);
        },
        _ => {
            lemma_step_other(t, i, env, st);
        },
    }
}

/// Whatever belongs to what is declared is still there in the declaration file, at the
/// same depth: parameters, type parameters, types, members that others see, what a class
/// extends, and all else that is no code.
pub proof fn law_what_is_declared_stays(t: Tree, env: Env, st: State, path: Seq<int>)
    requires
        is_declared_at(t, path, env),
    ensures
        visited(t, Mode::Plain, env, st).trees.len() == 1,
        holds_same(visited(t, Mode::Plain, env, st).trees[0], node_at(t, path), path.len()),
    decreases path.len(),
{
    let m = visited(t, Mode::Plain, env, st).trees[0];
    lemma_plain_single(t, env, st);
    if path.len() == 0 {
        lemma_face(t, env, st);
        let q = Seq::<int>::empty();
        assert(node_at(m, q) == m);
    } else {
        broadcast use lemma_below;

        let i = path[0];
        let c = t.children[i];
        let rest = path.skip(1);
        lemma_step(t, i, env, st);
        let n = node_at(t, path);
        let s = choose|s: State|
            #![trigger visited(c, Mode::Plain, env, s)]
            m.children.contains(visited(c, Mode::Plain, env, s).trees[0]);
        law_what_is_declared_stays(c, env, s, rest);
        let x = visited(c, Mode::Plain, env, s).trees[0];
        let k = m.children.index_of(x);
        let q = choose|q: Seq<int>|
            #![trigger node_at(x, q)]
            is_path(x, q) && q.len() == rest.len() && same_syntax(n, node_at(x, q));
        assert(node_at(m, below(k, q)) == node_at(x, q));
    }
}

}
