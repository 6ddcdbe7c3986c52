//! What classes and patterns become in the declaration file.

use vstd::prelude::*;

use super::keep_laws::is_signature;
use super::transform::{
    after_overload, ann_or_unknown, as_kind, as_private_prop, assign_out, class_out, class_with,
    default_ann_out, has_private_names, inferred_out, member_stays, node_out, one_part,
    optional_binding, param_prop_out, param_prop_tree, part_mode, parts, parts_upto, plain_out,
    private_marker, prop_out, visited, visitor, with_ann, Env, Mode, Owner, State,
};
use super::transform_laws::lemma_role;
use super::transformer::lemma_plain_single;
use crate::comments::is_internal;
use crate::syntax::{
    at, child, has_part, lemma_place, lemma_place_from, no_span, place, place_from, Access, Kind,
    Role, Tree,
};

verus! {

/// Whether every tree of a list stands in another.
spec fn all_in(s: Seq<Tree>, some: Seq<Tree>) -> bool {
    forall|k: int| 0 <= k < some.len() ==> s.contains(#[trigger] some[k])
}

/// Whether the trees that become of a part of a node stand in a list.
spec fn are_among(s: Seq<Tree>, c: Tree, mode: Mode, env: Env) -> bool {
    exists|st: State| all_in(s, #[trigger] visited(c, mode, env, st).trees)
}

proof fn lemma_among_add(a: Seq<Tree>, b: Seq<Tree>, c: Tree, mode: Mode, env: Env)
    ensures
        are_among(a, c, mode, env) || are_among(b, c, mode, env) ==> are_among(
            a + b,
            c,
            mode,
            env,
        ),
{
    let all = a + b;
    if are_among(a, c, mode, env) {
        let st = choose|st: State|
        all_in(a, #[trigger] visited(c, mode, env, st).trees);
        let v = visited(c, mode, env, st);
        assert forall|k: int| 0 <= k < v.trees.len() implies all.contains(#[trigger] v.trees[k]) by {
            assert(a.contains(v.trees[k]));
            assert(all[a.index_of(v.trees[k])] == v.trees[k]);
        }
        assert(all_in(all, visited(c, mode, env, st).trees));
    }
    if are_among(b, c, mode, env) {
        let st = choose|st: State|
        all_in(b, #[trigger] visited(c, mode, env, st).trees);
        let v = visited(c, mode, env, st);
        assert forall|k: int| 0 <= k < v.trees.len() implies all.contains(#[trigger] v.trees[k]) by {
            assert(b.contains(v.trees[k]));
            assert(all[a.len() + b.index_of(v.trees[k])] == v.trees[k]);
        }
        assert(all_in(all, visited(c, mode, env, st).trees));
    }
}

proof fn lemma_parts_among(
    t: Tree,
    n: nat,
    env: Env,
    owner: Owner,
    st: State,
    i: int,
    mode: Mode,
)
    requires
        0 <= i < n <= t.children.len(),
        part_mode(t.children, i, env, owner) == Some(mode),
    ensures
        are_among(
            parts_upto(t.children, n, env, owner, visitor(t.children, env), st).trees,
            t.children[i],
            mode,
            env,
        ),
    decreases n,
{
    let f = visitor(t.children, env);
    let before = parts_upto(t.children, (n - 1) as nat, env, owner, f, st);
    let c = t.children[i];
    if i < n - 1 {
        lemma_parts_among(t, (n - 1) as nat, env, owner, st, i, mode);
        match part_mode(t.children, n - 1, env, owner) {
            Some(other) => {
                lemma_among_add(before.trees, f(n - 1, other, before.st).trees, c, mode, env);
            },
            None => {},
        }
    } else {
        let v = visited(c, mode, env, before.st);
        assert(f(i, mode, before.st) == v);
        assert(all_in(v.trees, visited(c, mode, env, before.st).trees));
        assert(are_among(v.trees, c, mode, env));
        lemma_among_add(before.trees, v.trees, c, mode, env);
    }
}

/// Whether a member of a class has its place in the declaration: it is not marked as
/// internal, and does not stand behind signatures without a body.
pub open spec fn has_place(t: Tree, i: int, env: Env) -> bool {
    let member = t.children[i];
    &&& member.role == Role::Member
    &&& !is_internal(env.comments, member.span.lo as int)
    &&& is_signature(member) || forall|k: int|
        0 <= k < i && (#[trigger] t.children[k]).role == Role::Member ==> !is_signature(
            t.children[k],
        )
}

proof fn lemma_not_behind(t: Tree, n: nat)
    requires
        n <= t.children.len(),
        forall|k: int|
            0 <= k < n && (#[trigger] t.children[k]).role == Role::Member ==> !is_signature(
                t.children[k],
            ),
    ensures
        !after_overload(t.children, n),
    decreases n,
{
    if n > 0 && t.children[n - 1].role != Role::Member {
        lemma_not_behind(t, (n - 1) as nat);
    }
}

proof fn lemma_member_stays(t: Tree, i: int, env: Env)
    requires
        0 <= i < t.children.len(),
        has_place(t, i, env),
        t.children[i].kind == Kind::Constructor || t.children[i].kind == Kind::ClassMethod
            || t.children[i].kind == Kind::ClassProp,
    ensures
        member_stays(t.children, i, env),
{
    reveal(member_stays);
    if !is_signature(t.children[i]) {
        lemma_not_behind(t, i as nat);
    }
}

/// The parts of a class in the declaration file hold those that its members become.
proof fn lemma_class_parts(t: Tree, env: Env, st: State, i: int, owner: Owner, mode: Mode)
    requires
        t.kind == Kind::Class,
        0 <= i < t.children.len(),
        owner == Owner::Class || owner == Owner::PropsOfClass,
        part_mode(t.children, i, env, owner) == Some(mode),
    ensures
        are_among(visited(t, Mode::Plain, env, st).trees[0].children, t.children[i], mode, env),
{
    reveal(node_out);
    reveal(plain_out);
    reveal(class_out);
    reveal(class_with);
    let f = visitor(t.children, env);
    let n = t.children.len();
    let c = t.children[i];
    let m = visited(t, Mode::Plain, env, st).trees[0];
    let props = parts(t, env, Owner::PropsOfClass, f, st);
    let rest = parts(t, env, Owner::Class, f, props.st);
    if owner == Owner::Class {
        lemma_parts_among(t, n, env, Owner::Class, props.st, i, mode);
    } else {
        lemma_parts_among(t, n, env, Owner::PropsOfClass, st, i, mode);
    }
    lemma_among_add(props.trees, rest.trees, c, mode, env);
    let first = m.children.take(m.children.len() - (props.trees + rest.trees).len());
    lemma_among_add(first, props.trees + rest.trees, c, mode, env);
    assert(m.children =~= first + (props.trees + rest.trees));
}

/// Whether a node is a private property without a type and a value, for the key.
pub open spec fn is_bare_private(x: Tree, c: Tree) -> bool {
    &&& x.kind == Kind::ClassProp && x.role == c.role
    &&& x.flags.access == Access::Private && x.flags.is_static == c.flags.is_static
    &&& x.children.len() == 1 && x.children[0].role == Role::Key
    &&& child(c, Role::Key).kind != Kind::AssignPat ==> x.children[0].kind == child(
        c,
        Role::Key,
    ).kind && x.children[0].text == child(c, Role::Key).text
}

/// Whether a list of members holds such a property.
pub open spec fn holds_bare_private(s: Seq<Tree>, c: Tree) -> bool {
    exists|k: int| 0 <= k < s.len() && is_bare_private(#[trigger] s[k], c)
}

proof fn lemma_key(t: Tree, env: Env, st: State)
    requires
        has_part(t, Role::Key),
    ensures
        ({
            let v = one_part(t, Role::Key, Mode::Plain, visitor(t.children, env), st);
            &&& v.trees.len() == 1
            &&& v.trees[0].role == Role::Key
            &&& child(t, Role::Key).kind != Kind::AssignPat ==> v.trees[0].kind == child(
                t,
                Role::Key,
            ).kind && v.trees[0].text == child(t, Role::Key).text
        }),
{
    reveal(one_part);
    lemma_place(t, Role::Key);
    let key = child(t, Role::Key);
    assert(visitor(t.children, env)(place(t, Role::Key), Mode::Plain, st) == visited(
        key,
        Mode::Plain,
        env,
        st,
    ));
    lemma_plain_single(key, env, st);
    lemma_role(key, Mode::Plain, env, st);
    if key.kind != Kind::AssignPat {
        lemma_same_kind(key, env, st);
    }
}

proof fn lemma_same_kind(t: Tree, env: Env, st: State)
    requires
        t.kind != Kind::AssignPat,
    ensures
        visited(t, Mode::Plain, env, st).trees[0].kind == t.kind,
        visited(t, Mode::Plain, env, st).trees[0].text == t.text,
{
    reveal(node_out);
    reveal(plain_out);
    match t.kind {
        Kind::Class => {
            reveal(class_out);
            reveal(class_with);
        },
        Kind::ClassProp => {
            reveal(prop_out);
        },
        Kind::Function => {
            reveal(super::transform::function_out);
            reveal(super::transform::function_with);
        },
        Kind::ExportNamed => {
            reveal(super::transform::export_out);
        },
        _ => {},
    }
}

/// A method or a property that is private by its modifier is still declared: as a private
/// property of the same name, of which nothing else is told.
pub proof fn law_private_members_keep_their_names(t: Tree, env: Env, st: State, i: int)
    requires
        t.kind == Kind::Class,
        0 <= i < t.children.len(),
        has_place(t, i, env),
        t.children[i].kind == Kind::ClassMethod || t.children[i].kind == Kind::ClassProp,
        t.children[i].flags.access == Access::Private,
        has_part(t.children[i], Role::Key),
    ensures
        holds_bare_private(visited(t, Mode::Plain, env, st).trees[0].children, t.children[i]),
{
    let c = t.children[i];
    let m = visited(t, Mode::Plain, env, st).trees[0];
    lemma_member_stays(t, i, env);
    let mode = if c.kind == Kind::ClassMethod {
        Mode::AsPrivateProp
    } else {
        Mode::WithoutType
    };
    assert(part_mode(t.children, i, env, Owner::Class) == Some(mode)) by {
        reveal(part_mode);
    }
    lemma_class_parts(t, env, st, i, Owner::Class, mode);
    let s = choose|s: State|
        all_in(m.children, #[trigger] visited(c, mode, env, s).trees);
    let v = visited(c, mode, env, s);
    lemma_key(c, env, s);
    assert(v.trees.len() == 1 && is_bare_private(v.trees[0], c)) by {
        reveal(node_out);
        reveal(as_private_prop);
        reveal(prop_out);
        reveal(with_ann);
    }
    assert(m.children.contains(v.trees[0]));
    let k = m.children.index_of(v.trees[0]);
    assert(is_bare_private(m.children[k], c));
}

/// Whether a node is a property that a parameter declares: with its name and its
/// modifiers; it is typed unless it is private.
pub open spec fn is_declared_property(x: Tree, c: Tree, name: Seq<char>) -> bool {
    &&& x.kind == Kind::ClassProp && x.role == Role::Member
    &&& has_part(x, Role::Key) && child(x, Role::Key).text == name
    &&& x.flags.readonly == c.flags.readonly
    &&& x.flags.access == if c.flags.access == Access::Public {
        Access::Unset
    } else {
        c.flags.access
    }
    &&& c.flags.access != Access::Private ==> has_part(x, Role::TypeAnn)
}

/// Whether a list of members holds such a property.
pub open spec fn holds_property(s: Seq<Tree>, c: Tree, name: Seq<char>) -> bool {
    exists|k: int| 0 <= k < s.len() && is_declared_property(#[trigger] s[k], c, name)
}

/// The variable that a parameter binds, behind which its default value may stand.
pub open spec fn bound_by(t: Tree) -> Tree {
    let pattern = child(t, Role::Pattern);
    if pattern.kind == Kind::AssignPat {
        child(pattern, Role::Left)
    } else {
        pattern
    }
}

/// A parameter of a constructor that declares a property is a parameter still, and the
/// class has the property.
pub proof fn law_parameters_declare_properties(t: Tree, env: Env, st: State, i: int, j: int)
    requires
        t.kind == Kind::Class,
        0 <= i < t.children.len(),
        has_place(t, i, env),
        t.children[i].kind == Kind::Constructor,
        0 <= j < t.children[i].children.len(),
        t.children[i].children[j].kind == Kind::TsParamProp,
        t.children[i].children[j].role != Role::Decorator,
        has_part(t.children[i].children[j], Role::Pattern),
        child(t.children[i].children[j], Role::Pattern).kind == Kind::AssignPat ==> has_part(
            child(t.children[i].children[j], Role::Pattern),
            Role::Left,
        ),
        bound_by(t.children[i].children[j]).kind == Kind::BindingIdent,
        has_part(bound_by(t.children[i].children[j]), Role::Name),
        child(bound_by(t.children[i].children[j]), Role::Name).kind == Kind::Ident,
    ensures
        holds_property(
            visited(t, Mode::Plain, env, st).trees[0].children,
            t.children[i].children[j],
            child(bound_by(t.children[i].children[j]), Role::Name).text,
        ),
{
    let c = t.children[i];
    let p = c.children[j];
    let m = visited(t, Mode::Plain, env, st).trees[0];
    lemma_member_stays(t, i, env);
    assert(part_mode(t.children, i, env, Owner::PropsOfClass) == Some(Mode::AsProps)) by {
        reveal(part_mode);
    }
    lemma_class_parts(t, env, st, i, Owner::PropsOfClass, Mode::AsProps);
    let s = choose|s: State|
        all_in(m.children, #[trigger] visited(c, Mode::AsProps, env, s).trees);
    let v = visited(c, Mode::AsProps, env, s);
    let f = visitor(c.children, env);
    assert(v == parts(c, env, Owner::PropsOfConstructor, f, s)) by {
        reveal(node_out);
    }
    assert(part_mode(c.children, j, env, Owner::PropsOfConstructor) == Some(Mode::AsProps)) by {
        reveal(part_mode);
    }
    lemma_parts_among(
        c,
        c.children.len(),
        env,
        Owner::PropsOfConstructor,
        s,
        j,
        Mode::AsProps,
    );
    let u = choose|u: State|
        all_in(v.trees, #[trigger] visited(p, Mode::AsProps, env, u).trees);
    let w = visited(p, Mode::AsProps, env, u);
    lemma_param_prop(p, env, u);
    let x = w.trees[0];
    assert(v.trees.contains(x));
    let a = v.trees.index_of(x);
    assert(m.children.contains(v.trees[a]));
    let k = m.children.index_of(x);
    assert(is_declared_property(m.children[k], p, child(bound_by(p), Role::Name).text));
}

proof fn lemma_param_prop(t: Tree, env: Env, st: State)
    requires
        t.kind == Kind::TsParamProp,
        has_part(t, Role::Pattern),
        child(t, Role::Pattern).kind == Kind::AssignPat ==> has_part(
            child(t, Role::Pattern),
            Role::Left,
        ),
        bound_by(t).kind == Kind::BindingIdent,
        has_part(bound_by(t), Role::Name),
        child(bound_by(t), Role::Name).kind == Kind::Ident,
    ensures
        visited(t, Mode::AsProps, env, st).trees.len() == 1,
        is_declared_property(
            visited(t, Mode::AsProps, env, st).trees[0],
            t,
            child(bound_by(t), Role::Name).text,
        ),
{
    reveal(node_out);
    reveal(param_prop_out);
    reveal(one_part);
    reveal(param_prop_tree);
    reveal(with_ann);
    reveal_with_fuel(place_from, 3);
    let f = visitor(t.children, env);
    let pattern = child(t, Role::Pattern);
    lemma_place(t, Role::Pattern);
    let key = one_part(t, Role::Pattern, Mode::Key, f, st);
    assert(key == visited(pattern, Mode::Key, env, st));
    let binding = bound_by(t);
    let name = child(binding, Role::Name);
    lemma_place(pattern, Role::Left);
    lemma_place(binding, Role::Name);
    if pattern.kind == Kind::AssignPat {
        assert(visitor(pattern.children, env)(place(pattern, Role::Left), Mode::Key, st)
            == visited(binding, Mode::Key, env, st));
        assert(key == visited(binding, Mode::Key, env, st));
    }
    assert(visitor(binding.children, env)(place(binding, Role::Name), Mode::Plain, st) == visited(
        name,
        Mode::Plain,
        env,
        st,
    ));
    assert(key == visited(name, Mode::Plain, env, st));
    lemma_plain_single(name, env, st);
    lemma_same_kind(name, env, st);
}

/// The type that a literal has.
pub open spec fn is_type_of_literal(kind: Kind, keyword: Seq<char>) -> bool {
    ||| kind == Kind::Str && keyword == "string"@
    ||| kind == Kind::Num && keyword == "number"@
    ||| kind == Kind::Bool && keyword == "boolean"@
    ||| kind == Kind::BigInt && keyword == "bigint"@
    ||| kind == Kind::Null && keyword == "null"@
}

/// Whether a node is an annotation with the keyword.
pub open spec fn is_keyword_ann(t: Tree, keyword: Seq<char>) -> bool {
    &&& t.kind == Kind::TsTypeAnn && t.children.len() == 1
    &&& t.children[0].role == Role::Type && t.children[0].kind == Kind::TsKeywordType
    &&& t.children[0].text == keyword
}

proof fn lemma_inferred(t: Tree, env: Env, st: State, keyword: Seq<char>)
    requires
        is_type_of_literal(t.kind, keyword),
    ensures
        visited(t, Mode::Inferred, env, st).trees.len() == 1,
        is_keyword_ann(visited(t, Mode::Inferred, env, st).trees[0], keyword),
{
    reveal(node_out);
    reveal(inferred_out);
}

/// A property for which no type is written has that of its value where the value is a
/// literal, and is of an unknown type where there is no value.
pub proof fn law_types_of_properties_are_told(t: Tree, env: Env, st: State)
    requires
        t.kind == Kind::ClassProp,
        t.flags.access != Access::Private,
        !has_part(t, Role::TypeAnn),
        !has_part(t, Role::Key) || child(t, Role::Key).role == Role::Key,
    ensures
        ({
            let m = visited(t, Mode::Plain, env, st).trees[0];
            let ann = m.children.last();
            &&& m.kind == Kind::ClassProp && m.children.len() > 0 && ann.role == Role::TypeAnn
            &&& !has_part(t, Role::Value) ==> is_keyword_ann(ann, "unknown"@)
            &&& has_part(t, Role::Value) ==> forall|keyword: Seq<char>| #[trigger]
                is_type_of_literal(child(t, Role::Value).kind, keyword) ==> is_keyword_ann(
                    ann,
                    keyword,
                )
        }),
{
    reveal(node_out);
    reveal(plain_out);
    reveal(prop_out);
    reveal(with_ann);
    reveal(one_part);
    reveal(ann_or_unknown);
    let f = visitor(t.children, env);
    let key = one_part(t, Role::Key, Mode::Plain, f, st);
    let m = visited(t, Mode::Plain, env, st).trees[0];
    lemma_place(t, Role::Value);
    if has_part(t, Role::Value) {
        let value = child(t, Role::Value);
        assert(f(place(t, Role::Value), Mode::Inferred, key.st) == visited(
            value,
            Mode::Inferred,
            env,
            key.st,
        ));
        assert forall|keyword: Seq<char>| #[trigger] is_type_of_literal(
            value.kind,
            keyword,
        ) implies is_keyword_ann(m.children.last(), keyword) by {
            lemma_inferred(value, env, key.st, keyword);
        }
    }
}

/// A parameter with a default value may be left out: it keeps its name, and has the type
/// of the value where that is a literal and none is written.
pub proof fn law_parameters_with_values_may_be_left_out(t: Tree, env: Env, st: State)
    requires
        t.kind == Kind::AssignPat,
        has_part(t, Role::Left),
        child(t, Role::Left).kind == Kind::BindingIdent,
        has_part(child(t, Role::Left), Role::Name),
    ensures
        ({
            let left = child(t, Role::Left);
            let m = visited(t, Mode::Plain, env, st).trees[0];
            &&& m.kind == Kind::BindingIdent && m.role == t.role
            &&& m.children.len() > 0 && m.children[0].role == Role::Name
            &&& m.children[0].text == child(left, Role::Name).text && m.children[0].flags.optional
            &&& !has_part(left, Role::TypeAnn) && has_part(t, Role::Right) ==> forall|
                keyword: Seq<char>,
            | #[trigger]
                is_type_of_literal(child(t, Role::Right).kind, keyword) ==> m.children.len() == 2
                    && m.children[1].role == Role::TypeAnn && is_keyword_ann(
                    m.children[1],
                    keyword,
                )
            &&& has_part(left, Role::TypeAnn) ==> exists|s: State|
                {
                    let ann = #[trigger] visited(
                        child(left, Role::TypeAnn),
                        Mode::Plain,
                        env,
                        s,
                    ).trees[0];
                    m.children.len() == 2 && m.children[1] == at(Role::TypeAnn, ann)
                }
        }),
{
    reveal(node_out);
    reveal(plain_out);
    reveal(assign_out);
    reveal(optional_binding);
    reveal(with_ann);
    reveal(default_ann_out);
    reveal(one_part);
    let f = visitor(t.children, env);
    let left = child(t, Role::Left);
    let m = visited(t, Mode::Plain, env, st).trees[0];
    lemma_place(t, Role::Left);
    lemma_place(t, Role::Right);
    lemma_place(left, Role::TypeAnn);
    if has_part(left, Role::TypeAnn) {
        let ann = child(left, Role::TypeAnn);
        assert(f(place(t, Role::Left), Mode::Ann, st) == visited(left, Mode::Ann, env, st));
        assert(visitor(left.children, env)(place(left, Role::TypeAnn), Mode::Plain, st) == visited(
            ann,
            Mode::Plain,
            env,
            st,
        ));
        lemma_plain_single(ann, env, st);
        assert(m.children[1] == at(
            Role::TypeAnn,
            visited(ann, Mode::Plain, env, st).trees[0],
        ));
    } else if has_part(t, Role::Right) {
        let right = child(t, Role::Right);
        assert(f(place(t, Role::Right), Mode::Inferred, st) == visited(
            right,
            Mode::Inferred,
            env,
            st,
        ));
        assert forall|keyword: Seq<char>| #[trigger] is_type_of_literal(
            right.kind,
            keyword,
        ) implies m.children.len() == 2 && m.children[1].role == Role::TypeAnn && is_keyword_ann(
            m.children[1],
            keyword,
        ) by {
            lemma_inferred(right, env, st, keyword);
        }
    }
}

/// Whether a tree is one of those that a part of a node becomes.
spec fn comes_from(t: Tree, x: Tree, env: Env, owner: Owner) -> bool {
    exists|i: int, mode: Mode, s: State|
        {
            &&& 0 <= i < t.children.len()
            &&& part_mode(t.children, i, env, owner) == Some(mode)
            &&& (#[trigger] visited(t.children[i], mode, env, s)).trees.contains(x)
        }
}

proof fn lemma_comes_from(t: Tree, n: nat, env: Env, owner: Owner, st: State, k: int)
    requires
        n <= t.children.len(),
        0 <= k < parts_upto(t.children, n, env, owner, visitor(t.children, env), st).trees.len(),
    ensures
        comes_from(
            t,
            parts_upto(t.children, n, env, owner, visitor(t.children, env), st).trees[k],
            env,
            owner,
        ),
    decreases n,
{
    let f = visitor(t.children, env);
    let before = parts_upto(t.children, (n - 1) as nat, env, owner, f, st);
    let all = parts_upto(t.children, n, env, owner, f, st);
    if k < before.trees.len() {
        lemma_comes_from(t, (n - 1) as nat, env, owner, st, k);
        assert(all.trees[k] == before.trees[k]);
    } else {
        match part_mode(t.children, n - 1, env, owner) {
            Some(mode) => {
                let v = visited(t.children[n - 1], mode, env, before.st);
                assert(f(n - 1, mode, before.st) == v);
                assert(all.trees[k] == v.trees[k - before.trees.len()]);
                assert(visited(t.children[n - 1], mode, env, before.st).trees.contains(
                    all.trees[k],
                ));
            },
            None => {},
        }
    }
}

/// Whether a class has a member that is private by its name.
pub open spec fn has_hash_names(t: Tree) -> bool {
    exists|i: int|
        0 <= i < t.children.len() && (#[trigger] t.children[i]).role == Role::Member && (
        t.children[i].kind == Kind::PrivateProp || t.children[i].kind == Kind::PrivateMethod)
}

/// Whether a member is the last one before a place.
pub open spec fn is_last_before(t: Tree, k: int, i: int) -> bool {
    &&& 0 <= k < i
    &&& t.children[k].role == Role::Member
    &&& forall|l: int| k < l < i ==> (#[trigger] t.children[l]).role != Role::Member
}

/// Whether the member before one is a signature without a body.
pub open spec fn follows_signature(t: Tree, i: int) -> bool {
    exists|k: int| #[trigger] is_last_before(t, k, i) && is_signature(t.children[k])
}

proof fn lemma_follows(t: Tree, n: nat, k: int)
    requires
        0 <= k < n <= t.children.len(),
        t.children[k].role == Role::Member,
        is_signature(t.children[k]),
        forall|l: int| k < l < n ==> (#[trigger] t.children[l]).role != Role::Member,
    ensures
        after_overload(t.children, n),
    decreases n,
{
    if k < n - 1 {
        assert(t.children[n - 1].role != Role::Member);
        lemma_follows(t, (n - 1) as nat, k);
    }
}

proof fn lemma_stays_seen(t: Tree, i: int, env: Env)
    requires
        0 <= i < t.children.len(),
        member_stays(t.children, i, env),
    ensures
        t.children[i].kind != Kind::PrivateMethod,
        t.children[i].kind != Kind::PrivateProp,
        t.children[i].kind != Kind::AssignPat,
        !is_internal(env.comments, t.children[i].span.lo as int),
        is_signature(t.children[i]) || !follows_signature(t, i),
{
    reveal(member_stays);
    if follows_signature(t, i) && !is_signature(t.children[i]) {
        let k = choose|k: int| #[trigger]
            is_last_before(t, k, i) && is_signature(t.children[k]);
        lemma_follows(t, i as nat, k);
    }
}

/// Whether a member of a declared class is one that may be there: a member that comes from
/// none in the source, or one that is not marked as internal, not private by its name, and
/// not what stands behind a signature to implement it.
pub open spec fn may_be_there(t: Tree, x: Tree, env: Env) -> bool {
    x.span == no_span() || exists|i: int|
        {
            let c = #[trigger] t.children[i];
            &&& 0 <= i < t.children.len()
            &&& c.role == Role::Member && c.span == x.span
            &&& c.kind != Kind::PrivateMethod && c.kind != Kind::PrivateProp
            &&& !is_internal(env.comments, c.span.lo as int)
            &&& is_signature(c) || !follows_signature(t, i)
        }
}

proof fn lemma_member_there(t: Tree, x: Tree, env: Env)
    requires
        t.kind == Kind::Class,
        comes_from(t, x, env, Owner::Class),
        x.role == Role::Member,
    ensures
        may_be_there(t, x, env),
        x.kind != Kind::PrivateMethod,
        x.kind != Kind::PrivateProp,
{
    let (i, mode, s) = choose|i: int, mode: Mode, s: State|
        {
            &&& 0 <= i < t.children.len()
            &&& part_mode(t.children, i, env, Owner::Class) == Some(mode)
            &&& (#[trigger] visited(t.children[i], mode, env, s)).trees.contains(x)
        };
    let c = t.children[i];
    let v = visited(c, mode, env, s);
    let k = v.trees.index_of(x);
    assert(mode == Mode::Plain || mode == Mode::AsPrivateProp || mode == Mode::WithoutType) by {
        reveal(part_mode);
    }
    lemma_role(c, mode, env, s);
    assert(v.trees[k].role == c.role);
    assert(c.role == Role::Member);
    assert(member_stays(t.children, i, env)) by {
        reveal(part_mode);
    }
    lemma_stays_seen(t, i, env);
    match mode {
        Mode::Plain => {
            lemma_plain_single(c, env, s);
            super::keep_laws::lemma_face(c, env, s);
        },
        Mode::AsPrivateProp => {
            reveal(node_out);
            reveal(as_private_prop);
        },
        _ => {
            reveal(node_out);
            reveal(prop_out);
        },
    }
    assert(t.children[i].role == Role::Member);
}

proof fn lemma_prop_there(t: Tree, x: Tree, env: Env)
    requires
        t.kind == Kind::Class,
        comes_from(t, x, env, Owner::PropsOfClass),
    ensures
        x.span == no_span(),
        x.kind == Kind::ClassProp,
{
    let (i, mode, s) = choose|i: int, mode: Mode, s: State|
        {
            &&& 0 <= i < t.children.len()
            &&& part_mode(t.children, i, env, Owner::PropsOfClass) == Some(mode)
            &&& (#[trigger] visited(t.children[i], mode, env, s)).trees.contains(x)
        };
    let c = t.children[i];
    let v = visited(c, mode, env, s);
    let k = v.trees.index_of(x);
    reveal(part_mode);
    reveal(node_out);
    lemma_comes_from(c, c.children.len(), env, Owner::PropsOfConstructor, s, k);
    let (j, inner, u) = choose|j: int, inner: Mode, u: State|
        {
            &&& 0 <= j < c.children.len()
            &&& part_mode(c.children, j, env, Owner::PropsOfConstructor) == Some(inner)
            &&& (#[trigger] visited(c.children[j], inner, env, u)).trees.contains(x)
        };
    let p = c.children[j];
    let w = visited(p, inner, env, u);
    let l = w.trees.index_of(x);
    reveal(param_prop_out);
    reveal(param_prop_tree);
    reveal(super::transform::no_prop);
}

/// What others do not see of a class is not in its declaration: members that are private
/// by their names, for which one name stands, members that are marked as internal, and what
/// implements signatures.
pub proof fn law_hidden_members_are_gone(t: Tree, env: Env, st: State, k: int)
    requires
        t.kind == Kind::Class,
        0 <= k < visited(t, Mode::Plain, env, st).trees[0].children.len(),
        visited(t, Mode::Plain, env, st).trees[0].children[k].role == Role::Member,
    ensures
        ({
            let x = visited(t, Mode::Plain, env, st).trees[0].children[k];
            &&& may_be_there(t, x, env)
            &&& x.kind != Kind::PrivateMethod
            &&& x.kind == Kind::PrivateProp ==> k == 0 && has_hash_names(t)
        }),
{
    reveal(node_out);
    reveal(plain_out);
    reveal(class_out);
    reveal(class_with);
    reveal(has_private_names);
    reveal(private_marker);
    let f = visitor(t.children, env);
    let n = t.children.len();
    let m = visited(t, Mode::Plain, env, st).trees[0];
    let props = parts(t, env, Owner::PropsOfClass, f, st);
    let rest = parts(t, env, Owner::Class, f, props.st);
    let first: int = if has_private_names(t.children) {
        1
    } else {
        0
    };
    let x = m.children[k];
    if k >= first {
        if k - first < props.trees.len() {
            assert(x == props.trees[k - first]);
            lemma_comes_from(t, n, env, Owner::PropsOfClass, st, k - first);
            lemma_prop_there(t, x, env);
        } else {
            assert(x == rest.trees[k - first - props.trees.len()]);
            lemma_comes_from(t, n, env, Owner::Class, props.st, k - first - props.trees.len());
            lemma_member_there(t, x, env);
        }
    }
}

/// A class with members that are private by their names says so by one of them.
pub proof fn law_private_names_are_told(t: Tree, env: Env, st: State)
    requires
        t.kind == Kind::Class,
        has_hash_names(t),
    ensures
        ({
            let m = visited(t, Mode::Plain, env, st).trees[0];
            &&& m.children.len() > 0
            &&& m.children[0].kind == Kind::PrivateProp && m.children[0].role == Role::Member
        }),
{
    reveal(node_out);
    reveal(plain_out);
    reveal(class_out);
    reveal(class_with);
    reveal(has_private_names);
    reveal(private_marker);
}

/// Whether a list holds a parameter that binds what a pattern does.
pub open spec fn holds_param(s: Seq<Tree>, c: Tree) -> bool {
    exists|k: int|
        {
            let x = #[trigger] s[k];
            &&& 0 <= k < s.len() && x.kind == Kind::Param && x.role == c.role && x.span == c.span
            &&& x.children.len() == 1 && x.children[0].role == Role::Pattern
        }
}

/// A parameter of a constructor that declares a property is a parameter still.
pub proof fn law_parameters_that_declare_properties_stay(t: Tree, env: Env, st: State, j: int)
    requires
        t.kind == Kind::Constructor,
        0 <= j < t.children.len(),
        t.children[j].kind == Kind::TsParamProp,
        t.children[j].role != Role::Decorator,
        t.children[j].role != Role::Body,
        has_part(t.children[j], Role::Pattern),
    ensures
        holds_param(visited(t, Mode::Plain, env, st).trees[0].children, t.children[j]),
{
    let c = t.children[j];
    let m = visited(t, Mode::Plain, env, st).trees[0];
    let f = visitor(t.children, env);
    assert(part_mode(t.children, j, env, Owner::Constructor) == Some(Mode::AsParam)) by {
        reveal(part_mode);
    }
    lemma_parts_among(t, t.children.len(), env, Owner::Constructor, st, j, Mode::AsParam);
    assert(m.children == parts(t, env, Owner::Constructor, f, st).trees) by {
        reveal(node_out);
        reveal(plain_out);
    }
    let s = choose|s: State|
        all_in(m.children, #[trigger] visited(c, Mode::AsParam, env, s).trees);
    let v = visited(c, Mode::AsParam, env, s);
    lemma_pattern_part(c, env, s);
    let x = v.trees[0];
    assert(m.children.contains(x));
    let k = m.children.index_of(x);
    assert(m.children[k].kind == Kind::Param);
}

proof fn lemma_pattern_part(c: Tree, env: Env, s: State)
    requires
        has_part(c, Role::Pattern),
    ensures
        ({
            let v = visited(c, Mode::AsParam, env, s);
            &&& v.trees.len() == 1
            &&& v.trees[0].kind == Kind::Param && v.trees[0].role == c.role
            &&& v.trees[0].span == c.span
            &&& v.trees[0].children.len() == 1 && v.trees[0].children[0].role == Role::Pattern
        }),
{
    reveal(node_out);
    reveal(as_kind);
    reveal(one_part);
    lemma_place(c, Role::Pattern);
    let pattern = child(c, Role::Pattern);
    assert(visitor(c.children, env)(place(c, Role::Pattern), Mode::Plain, s) == visited(
        pattern,
        Mode::Plain,
        env,
        s,
    ));
    lemma_plain_single(pattern, env, s);
    lemma_role(pattern, Mode::Plain, env, s);
}

/// Whether a list holds a property of a pattern by its key alone.
pub open spec fn holds_key(s: Seq<Tree>, c: Tree) -> bool {
    exists|k: int|
        {
            let x = #[trigger] s[k];
            &&& 0 <= k < s.len() && x.kind == Kind::AssignPatProp && x.role == c.role
            &&& x.children.len() == 1 && x.children[0].role == Role::Key
            &&& x.children[0].text == child(c, Role::Key).text
        }
}

/// A property of an object pattern that has another name for its value stays by its key:
/// the other name is none that others see.
pub proof fn law_properties_of_patterns_stay_by_their_keys(t: Tree, env: Env, st: State, j: int)
    requires
        t.kind == Kind::ObjectPat,
        0 <= j < t.children.len(),
        t.children[j].kind == Kind::KeyValuePatProp,
        t.children[j].role != Role::Decorator,
        has_part(t.children[j], Role::Key),
        child(t.children[j], Role::Key).kind == Kind::Ident,
    ensures
        holds_key(visited(t, Mode::Plain, env, st).trees[0].children, t.children[j]),
{
    let c = t.children[j];
    let m = visited(t, Mode::Plain, env, st).trees[0];
    let f = visitor(t.children, env);
    assert(part_mode(t.children, j, env, Owner::ObjectPat) == Some(Mode::AsAssignProp)) by {
        reveal(part_mode);
    }
    lemma_parts_among(t, t.children.len(), env, Owner::ObjectPat, st, j, Mode::AsAssignProp);
    assert(m.children == parts(t, env, Owner::ObjectPat, f, st).trees) by {
        reveal(node_out);
        reveal(plain_out);
    }
    let s = choose|s: State|
        all_in(m.children, #[trigger] visited(c, Mode::AsAssignProp, env, s).trees);
    let v = visited(c, Mode::AsAssignProp, env, s);
    lemma_key(c, env, s);
    assert(v.trees.len() == 1 && v.trees[0].kind == Kind::AssignPatProp && v.trees[0].role
        == c.role && v.trees[0].children.len() == 1 && v.trees[0].children[0].role == Role::Key
        && v.trees[0].children[0].text == child(c, Role::Key).text) by {
        reveal(node_out);
        reveal(as_kind);
    }
    let x = v.trees[0];
    assert(m.children.contains(x));
    let k = m.children.index_of(x);
    assert(m.children[k].kind == Kind::AssignPatProp);
}

/// An object pattern with a default value may be left out, and keeps each of its
/// properties.
pub proof fn law_object_patterns_with_values_may_be_left_out(t: Tree, env: Env, st: State, j: int)
    requires
        t.kind == Kind::AssignPat,
        has_part(t, Role::Left),
        child(t, Role::Left).kind == Kind::ObjectPat,
        0 <= j < child(t, Role::Left).children.len(),
        child(t, Role::Left).children[j].role == Role::Prop,
        child(t, Role::Left).children[j].kind == Kind::KeyValuePatProp || child(
            t,
            Role::Left,
        ).children[j].kind == Kind::AssignPatProp,
        has_part(child(t, Role::Left).children[j], Role::Key),
        child(child(t, Role::Left).children[j], Role::Key).kind == Kind::Ident,
    ensures
        ({
            let c = child(t, Role::Left).children[j];
            let m = visited(t, Mode::Plain, env, st).trees[0];
            &&& m.kind == Kind::ObjectPat && m.role == t.role && m.flags.optional
            &&& exists|k: int|
                {
                    let x = #[trigger] m.children[k];
                    &&& 0 <= k < m.children.len() && x.kind == Kind::AssignPatProp
                    &&& x.role == Role::Prop
                    &&& has_part(x, Role::Key) && child(x, Role::Key).text == child(
                        c,
                        Role::Key,
                    ).text
                }
        }),
{
    let left = child(t, Role::Left);
    let c = left.children[j];
    let f = visitor(t.children, env);
    let m = visited(t, Mode::Plain, env, st).trees[0];
    lemma_place(t, Role::Left);
    let mode = if c.kind == Kind::KeyValuePatProp {
        Mode::AsAssignProp
    } else {
        Mode::Plain
    };
    assert(part_mode(left.children, j, env, Owner::Props) == Some(mode)) by {
        reveal(part_mode);
    }
    let props = parts(left, env, Owner::Props, visitor(left.children, env), st);
    lemma_parts_among(left, left.children.len(), env, Owner::Props, st, j, mode);
    let s = choose|s: State| all_in(props.trees, #[trigger] visited(c, mode, env, s).trees);
    let v = visited(c, mode, env, s);
    lemma_prop_key(c, env, s, mode);
    let x = v.trees[0];
    assert(props.trees.contains(x));
    let p = props.trees.index_of(x);
    assert(m.kind == Kind::ObjectPat && m.role == t.role && m.flags.optional && m.children.len()
        >= props.trees.len() && m.children[p] == x) by {
        reveal(node_out);
        reveal(plain_out);
        reveal(assign_out);
        reveal(super::transform::optional_object);
        reveal(with_ann);
        reveal(one_part);
        assert(f(place(t, Role::Left), Mode::Props, st) == visited(left, Mode::Props, env, st));
    }
    assert(m.children[p].kind == Kind::AssignPatProp);
}

proof fn lemma_prop_key(c: Tree, env: Env, s: State, mode: Mode)
    requires
        c.kind == Kind::KeyValuePatProp && mode == Mode::AsAssignProp || c.kind
            == Kind::AssignPatProp && mode == Mode::Plain,
        c.role == Role::Prop,
        has_part(c, Role::Key),
        child(c, Role::Key).kind == Kind::Ident,
    ensures
        ({
            let x = visited(c, mode, env, s).trees[0];
            &&& visited(c, mode, env, s).trees.len() == 1
            &&& x.kind == Kind::AssignPatProp && x.role == Role::Prop
            &&& has_part(x, Role::Key) && child(x, Role::Key).text == child(c, Role::Key).text
        }),
{
    if mode == Mode::AsAssignProp {
        lemma_key(c, env, s);
        reveal(node_out);
        reveal(as_kind);
        reveal_with_fuel(place_from, 2);
    } else {
        lemma_plain_single(c, env, s);
        lemma_first_key(c, c.children.len(), env, s);
        let x = visited(c, mode, env, s).trees[0];
        assert(x.kind == c.kind && x.role == c.role && x.children == parts(
            c,
            env,
            Owner::AssignPatProp,
            visitor(c.children, env),
            s,
        ).trees) by {
            reveal(node_out);
            reveal(plain_out);
        }
        lemma_place(c, Role::Key);
        lemma_place(x, Role::Key);
    }
}

/// The first key stays the first.
proof fn lemma_first_key(c: Tree, n: nat, env: Env, s: State)
    requires
        n <= c.children.len(),
        child(c, Role::Key).kind == Kind::Ident,
    ensures
        ({
            let v = parts_upto(
                c.children,
                n,
                env,
                Owner::AssignPatProp,
                visitor(c.children, env),
                s,
            ).trees;
            if place(c, Role::Key) >= n {
                forall|i: int| 0 <= i < v.len() ==> (#[trigger] v[i]).role != Role::Key
            } else {
                place_from(v, Role::Key, 0) < v.len() && v[place_from(v, Role::Key, 0)].text
                    == child(c, Role::Key).text
            }
        }),
    decreases n,
{
    lemma_place_from(c.children, Role::Key, 0);
    if n > 0 {
        let f = visitor(c.children, env);
        lemma_first_key(c, (n - 1) as nat, env, s);
        let before = parts_upto(c.children, (n - 1) as nat, env, Owner::AssignPatProp, f, s);
        let last = c.children[n - 1];
        match part_mode(c.children, n - 1, env, Owner::AssignPatProp) {
            Some(mode) => {
                assert(mode == Mode::Plain) by {
                    reveal(part_mode);
                }
                let v = visited(last, mode, env, before.st);
                assert(f(n - 1, mode, before.st) == v);
                lemma_plain_single(last, env, before.st);
                lemma_role(last, mode, env, before.st);
                assert(v.trees[0].role == last.role);
                let all = before.trees + v.trees;
                lemma_place_from(before.trees, Role::Key, 0);
                lemma_place_from(all, Role::Key, 0);
                if place(c, Role::Key) >= n {
                    assert(last.role != Role::Key);
                    assert forall|i: int| 0 <= i < all.len() implies (#[trigger] all[i]).role
                        != Role::Key by {
                        if i < before.trees.len() {
                            assert(all[i] == before.trees[i]);
                        } else {
                            assert(all[i] == v.trees[0]);
                        }
                    }
                } else if place(c, Role::Key) == n - 1 {
                    lemma_same_kind(last, env, before.st);
                    let p = before.trees.len() as int;
                    assert(all[p] == v.trees[0]);
                    let q = place_from(all, Role::Key, 0);
                    if q < p {
                        assert(all[q] == before.trees[q]);
                    }
                    assert(q <= p);
                    assert(q == p);
                } else {
                    let p = place_from(before.trees, Role::Key, 0);
                    assert(all[p] == before.trees[p]);
                    let q = place_from(all, Role::Key, 0);
                    assert(q <= p);
                    if q < p {
                        assert(all[q] == before.trees[q]);
                    }
                }
            },
            None => {
                reveal(part_mode);
            },
        }
    }
}

/// A function in a declaration file is neither asynchronous nor a generator: its result
/// tells.
pub proof fn law_functions_are_plain(t: Tree, env: Env, st: State)
    requires
        t.kind == Kind::Function,
    ensures
        ({
            let m = visited(t, Mode::Plain, env, st).trees[0];
            m.kind == Kind::Function && !m.flags.is_async && !m.flags.is_generator
        }),
{
    reveal(node_out);
    reveal(plain_out);
    reveal(super::transform::function_out);
    reveal(super::transform::function_with);
}

/// Whether an item declares something, and does not only link or list names.
pub open spec fn declares_something(t: Tree) -> bool {
    t.kind != Kind::ExportNamed && !(t.kind == Kind::TsImportEquals && !t.flags.is_export)
}

/// In a namespace there is always an item that declares something.
pub proof fn law_namespaces_declare_something(t: Tree, env: Env, st: State)
    requires
        t.kind == Kind::TsModuleBlock,
        env.in_namespace,
    ensures
        ({
            let m = visited(t, Mode::Plain, env, st).trees[0];
            exists|k: int|
                0 <= k < m.children.len() && declares_something(#[trigger] m.children[k])
        }),
{
    reveal(node_out);
    reveal(plain_out);
    reveal(super::transform::block_out);
    reveal(super::transform::with_workaround);
    let m = visited(t, Mode::Plain, env, st).trees[0];
    let f = visitor(t.children, env);
    let items = super::transform::items_upto(t.children, t.children.len(), env, f, st);
    let all = items.trees + items.st.append;
    if forall|i: int|
        0 <= i < all.len() ==> super::transform::only_names(#[trigger] all[i]) {
        assert(m.children.last().kind == Kind::VarDecl);
        assert(declares_something(m.children[m.children.len() - 1]));
    } else {
        let i = choose|i: int|
            0 <= i < all.len() && !super::transform::only_names(#[trigger] all[i]);
        assert(m.children[i] == all[i]);
        assert(declares_something(m.children[i]));
    }
}

}
