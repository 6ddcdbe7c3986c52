//! What holds of functions for which no return type is written.

use vstd::prelude::*;

use super::keep_laws::{is_declared, is_declared_at, lemma_seen, owner_of};
use super::transform::{
    assign_out, block_out, class_out, default_ann_out, default_exported, default_return_type,
    export_out, first_return, first_return_upto, function_noted, function_out, function_returns,
    function_with, inferred_out, is_kept, is_searched, item_kept, items_upto, key_noted, node_out,
    one_part, param_prop_out, part_mode, parts, parts_upto, plain_out, prop_out, re_exported_upto,
    specifier_re_exported, visited, visitor, Env, Mode, Owner, State,
};
use super::transform_laws::lemma_role;
use super::transformer::lemma_plain_single;
use crate::helpers::type_ann_tree;
use crate::paths::{below, is_path, lemma_below, node_at};
use crate::syntax::{
    at, child, has_part, lemma_place, lemma_place_from, place, place_from, Kind, Role, Tree,
};

verus! {

/// Whether a statement holds other statements. The cases of a `switch` and the clause
/// behind a `try` count as such.
pub open spec fn holds_statements(kind: Kind) -> bool {
    ||| kind == Kind::Block || kind == Kind::With || kind == Kind::Labeled || kind == Kind::If
    ||| kind == Kind::Switch || kind == Kind::SwitchCase || kind == Kind::Try || kind
        == Kind::CatchClause
    ||| kind == Kind::While || kind == Kind::DoWhile || kind == Kind::For || kind == Kind::ForIn
        || kind == Kind::ForOf
}

/// Whether a path leads from a statement to one that returns, through statements only.
pub open spec fn returns_at(t: Tree, path: Seq<int>) -> bool
    decreases path.len(),
{
    if path.len() == 0 {
        t.kind == Kind::Return
    } else {
        holds_statements(t.kind) && 0 <= path[0] < t.children.len() && returns_at(
            t.children[path[0]],
            path.skip(1),
        )
    }
}

/// Whether a statement, or one in it, returns.
pub open spec fn some_return(t: Tree) -> bool {
    exists|path: Seq<int>| returns_at(t, path)
}

/// Whether statements can stand in such a part of a node.
pub open spec fn takes_statements(role: Role, kind: Kind) -> bool {
    match role {
        Role::Stmt => kind == Kind::Block || kind == Kind::SwitchCase,
        Role::Case => kind == Kind::Switch,
        Role::Block | Role::Handler | Role::Finalizer => kind == Kind::Try,
        Role::Consequent | Role::Alternate => kind == Kind::If,
        Role::Body => kind == Kind::With || kind == Kind::Labeled || kind == Kind::While || kind
            == Kind::DoWhile || kind == Kind::For || kind == Kind::ForIn || kind == Kind::ForOf
            || kind == Kind::CatchClause,
        _ => false,
    }
}

/// Whether the statements in a statement stand where the grammar has statements, and not,
/// say, for the condition of a loop.
pub open spec fn in_place(t: Tree) -> bool
    decreases t,
{
    holds_statements(t.kind) ==> forall|i: int|
        0 <= i < t.children.len() && (holds_statements((#[trigger] t.children[i]).kind)
            || t.children[i].kind == Kind::Return) ==> takes_statements(
            t.children[i].role,
            t.kind,
        ) && in_place(t.children[i])
}

/// Whether one path comes before another: it leads to a node that stands further to the
/// front.
pub open spec fn comes_before(a: Seq<int>, b: Seq<int>) -> bool
    decreases a.len(),
{
    if a.len() == 0 {
        true
    } else if b.len() == 0 {
        false
    } else {
        a[0] < b[0] || a[0] == b[0] && comes_before(a.skip(1), b.skip(1))
    }
}

/// A return is found in a statement if and only if there is one that is reached through
/// statements, however they are nested, and it is the first.
pub proof fn law_the_first_return_is_found(t: Tree)
    requires
        in_place(t),
    ensures
        first_return(t) is Some <==> some_return(t),
        first_return(t) is Some ==> exists|path: Seq<int>|
            {
                &&& #[trigger] returns_at(t, path)
                &&& node_at(t, path) == first_return(t).unwrap()
                &&& forall|other: Seq<int>| #[trigger]
                    returns_at(t, other) ==> comes_before(path, other)
            },
{
    match first_return(t) {
        Some(found) => {
            let path = lemma_found(t);
        },
        None => {
            assert forall|path: Seq<int>| !#[trigger] returns_at(t, path) by {
                lemma_not_missed(t, path);
            }
        },
    }
}

/// What lies on the way to a return is a statement.
proof fn lemma_through(t: Tree, path: Seq<int>)
    requires
        returns_at(t, path),
    ensures
        holds_statements(t.kind) || t.kind == Kind::Return,
{
}

proof fn lemma_not_missed(t: Tree, path: Seq<int>)
    requires
        in_place(t),
        first_return(t) is None,
    ensures
        !returns_at(t, path),
    decreases path.len(),
{
    if returns_at(t, path) && path.len() > 0 {
        let i = path[0];
        let c = t.children[i];
        lemma_through(c, path.skip(1));
        lemma_none_upto(t.kind, t.children, t.children.len(), i);
        assert(is_searched(t.kind, c.role));
        lemma_not_missed(c, path.skip(1));
    }
}

proof fn lemma_none_upto(kind: Kind, s: Seq<Tree>, n: nat, i: int)
    requires
        0 <= i < n <= s.len(),
        first_return_upto(kind, s, n) is None,
    ensures
        is_searched(kind, s[i].role) ==> first_return(s[i]) is None,
        first_return_upto(kind, s, i as nat) is None,
    decreases n,
{
    if i < n - 1 {
        lemma_none_upto(kind, s, (n - 1) as nat, i);
    }
}

proof fn lemma_found(t: Tree) -> (path: Seq<int>)
    requires
        in_place(t),
        first_return(t) is Some,
    ensures
        returns_at(t, path),
        node_at(t, path) == first_return(t).unwrap(),
        forall|other: Seq<int>| #[trigger] returns_at(t, other) ==> comes_before(path, other),
    decreases t, 1nat, 0nat,
{
    if t.kind == Kind::Return {
        Seq::empty()
    } else {
        lemma_found_upto(t, t.children.len())
    }
}

proof fn lemma_found_upto(t: Tree, n: nat) -> (path: Seq<int>)
    requires
        in_place(t),
        t.kind != Kind::Return,
        n <= t.children.len(),
        first_return_upto(t.kind, t.children, n) is Some,
    ensures
        returns_at(t, path),
        node_at(t, path) == first_return_upto(t.kind, t.children, n).unwrap(),
        forall|other: Seq<int>| #[trigger] returns_at(t, other) ==> comes_before(path, other),
    decreases t, 0nat, n,
{
    let m = (n - 1) as nat;
    if first_return_upto(t.kind, t.children, m) is Some {
        lemma_found_upto(t, m)
    } else {
        broadcast use lemma_below;

        let c = t.children[n - 1];
        lemma_searched(t.kind, c.role);
        lemma_return_is_statement(c);
        let inner = lemma_found(c);
        let path = below(n - 1, inner);
        assert forall|other: Seq<int>| #[trigger] returns_at(t, other) implies comes_before(
            path,
            other,
        ) by {
            let i = other[0];
            let d = t.children[i];
            lemma_through(d, other.skip(1));
            if i < n - 1 {
                lemma_none_upto(t.kind, t.children, m, i);
                lemma_not_missed(d, other.skip(1));
            } else if i == n - 1 {
                assert(returns_at(c, other.skip(1)));
            }
        }
        path
    }
}

/// Only statements are searched for a return.
proof fn lemma_searched(kind: Kind, role: Role)
    requires
        is_searched(kind, role),
    ensures
        holds_statements(kind),
{
}

proof fn lemma_return_is_statement(t: Tree)
    requires
        first_return(t) is Some,
    ensures
        holds_statements(t.kind) || t.kind == Kind::Return,
{
    if t.kind != Kind::Return {
        lemma_some_searched(t.kind, t.children, t.children.len());
    }
}

proof fn lemma_some_searched(kind: Kind, s: Seq<Tree>, n: nat)
    requires
        n <= s.len(),
        first_return_upto(kind, s, n) is Some,
    ensures
        holds_statements(kind),
    decreases n,
{
    if first_return_upto(kind, s, (n - 1) as nat) is Some {
        lemma_some_searched(kind, s, (n - 1) as nat);
    } else {
        lemma_searched(kind, s[n - 1].role);
    }
}

/// Whether a function has a body in which it returns.
pub open spec fn gives_result(t: Tree) -> bool {
    has_part(t, Role::Body) && some_return(child(t, Role::Body))
}

/// Whether there is a function in a tree that starts at the position, and that returns
/// but does not say what.
pub open spec fn lacks_type_at(t: Tree, pos: u32) -> bool {
    exists|path: Seq<int>|
        {
            let n = #[trigger] node_at(t, path);
            &&& is_path(t, path)
            &&& n.kind == Kind::Function
            &&& n.span.lo == pos
            &&& !has_part(n, Role::ReturnType)
            &&& gives_result(n)
        }
}

/// Whether every function in a tree has its statements where the grammar has them.
pub open spec fn all_in_place(t: Tree) -> bool
    decreases t,
{
    &&& t.kind == Kind::Function && has_part(t, Role::Body) ==> in_place(child(t, Role::Body))
    &&& forall|i: int| 0 <= i < t.children.len() ==> all_in_place(#[trigger] t.children[i])
}

/// Whether one state comes from another by noting functions of a tree that lack a type.
pub open spec fn notes_more(t: Tree, a: State, b: State) -> bool {
    &&& a.missing_types.len() <= b.missing_types.len()
    &&& forall|i: int|
        0 <= i < a.missing_types.len() ==> b.missing_types[i] == (#[trigger] a.missing_types[i])
    &&& forall|i: int|
        a.missing_types.len() <= i < b.missing_types.len() ==> lacks_type_at(
            t,
            #[trigger] b.missing_types[i],
        )
}

proof fn lemma_notes_on(t: Tree, a: State, b: State, c: State)
    requires
        notes_more(t, a, b),
        notes_more(t, b, c),
    ensures
        notes_more(t, a, c),
{
    assert forall|i: int| 0 <= i < a.missing_types.len() implies c.missing_types[i] == (
    #[trigger] a.missing_types[i]) by {
        assert(b.missing_types[i] == a.missing_types[i]);
    }
    assert forall|i: int|
        a.missing_types.len() <= i < c.missing_types.len() implies lacks_type_at(
        t,
        #[trigger] c.missing_types[i],
    ) by {
        if i < b.missing_types.len() {
            assert(lacks_type_at(t, b.missing_types[i]));
            assert(c.missing_types[i] == b.missing_types[i]);
        }
    }
}

proof fn lemma_notes_child(t: Tree, i: int, a: State, b: State)
    requires
        0 <= i < t.children.len(),
        notes_more(t.children[i], a, b),
    ensures
        notes_more(t, a, b),
{
    assert forall|k: int|
        a.missing_types.len() <= k < b.missing_types.len() implies lacks_type_at(
        t,
        #[trigger] b.missing_types[k],
    ) by {
        broadcast use lemma_below;

        let c = t.children[i];
        let pos = b.missing_types[k];
        assert(lacks_type_at(c, pos));
        let path = choose|path: Seq<int>|
            {
                let n = #[trigger] node_at(c, path);
                &&& is_path(c, path)
                &&& n.kind == Kind::Function
                &&& n.span.lo == pos
                &&& !has_part(n, Role::ReturnType)
                &&& gives_result(n)
            };
        assert(node_at(t, below(i, path)) == node_at(c, path));
    }
}

proof fn lemma_notes_none(t: Tree, a: State, b: State)
    requires
        b.missing_types == a.missing_types,
    ensures
        notes_more(t, a, b),
{
}

proof fn lemma_notes_parts(t: Tree, n: nat, env: Env, owner: Owner, st: State)
    requires
        all_in_place(t),
        n <= t.children.len(),
    ensures
        notes_more(
            t,
            st,
            parts_upto(t.children, n, env, owner, visitor(t.children, env), st).st,
        ),
    decreases t, 0nat, n,
{
    let f = visitor(t.children, env);
    if n == 0 {
        lemma_notes_none(t, st, st);
    } else {
        lemma_notes_parts(t, (n - 1) as nat, env, owner, st);
        let before = parts_upto(t.children, (n - 1) as nat, env, owner, f, st);
        match part_mode(t.children, n - 1, env, owner) {
            Some(mode) => {
                let v = visited(t.children[n - 1], mode, env, before.st);
                assert(f(n - 1, mode, before.st) == v);
                lemma_notes(t.children[n - 1], mode, env, before.st);
                lemma_notes_child(t, n - 1, before.st, v.st);
                lemma_notes_on(t, st, before.st, v.st);
            },
            None => {},
        }
    }
}

proof fn lemma_notes_items(t: Tree, n: nat, env: Env, st: State)
    requires
        all_in_place(t),
        n <= t.children.len(),
    ensures
        notes_more(t, st, items_upto(t.children, n, env, visitor(t.children, env), st).st),
    decreases t, 0nat, n,
{
    let f = visitor(t.children, env);
    if n == 0 {
        lemma_notes_none(t, st, st);
    } else {
        lemma_notes_items(t, (n - 1) as nat, env, st);
        let before = items_upto(t.children, (n - 1) as nat, env, f, st);
        let v = visited(t.children[n - 1], Mode::Plain, env, before.st);
        assert(f(n - 1, Mode::Plain, before.st) == v);
        lemma_notes(t.children[n - 1], Mode::Plain, env, before.st);
        lemma_notes_child(t, n - 1, before.st, v.st);
        lemma_notes_on(t, st, before.st, v.st);
    }
}

proof fn lemma_notes_one(t: Tree, role: Role, mode: Mode, env: Env, st: State)
    requires
        all_in_place(t),
    ensures
        notes_more(t, st, one_part(t, role, mode, visitor(t.children, env), st).st),
    decreases t, 0nat, 0nat,
{
    reveal(one_part);
    lemma_place(t, role);
    lemma_notes_none(t, st, st);
    if has_part(t, role) {
        let p = place(t, role);
        let v = visited(t.children[p], mode, env, st);
        assert(visitor(t.children, env)(p, mode, st) == v);
        lemma_notes(t.children[p], mode, env, st);
        lemma_notes_child(t, p, st, v.st);
    }
}

proof fn lemma_notes_re_exported(s: Seq<Tree>, n: nat, env: Env, id: int, st: State)
    ensures
        re_exported_upto(s, n, env, id, st).missing_types == st.missing_types,
    decreases n,
{
    if n > 0 {
        lemma_notes_re_exported(s, (n - 1) as nat, env, id, st);
        reveal(specifier_re_exported);
    }
}

proof fn lemma_notes_default_ann(t: Tree, env: Env, st: State)
    requires
        all_in_place(t),
    ensures
        notes_more(t, st, default_ann_out(t, visitor(t.children, env), st).st),
    decreases t, 1nat, 0nat,
{
    reveal(default_ann_out);
    lemma_notes_one(t, Role::Left, Mode::Ann, env, st);
    lemma_notes_one(t, Role::Right, Mode::Inferred, env, st);
}

proof fn lemma_notes_prop(t: Tree, env: Env, st: State, drop_type: bool)
    requires
        all_in_place(t),
    ensures
        notes_more(t, st, prop_out(t, visitor(t.children, env), st, drop_type).st),
    decreases t, 1nat, 0nat,
{
    reveal(prop_out);
    let f = visitor(t.children, env);
    lemma_notes_one(t, Role::Key, Mode::Plain, env, st);
    let key = one_part(t, Role::Key, Mode::Plain, f, st);
    lemma_notes_one(t, Role::TypeAnn, Mode::Plain, env, key.st);
    lemma_notes_one(t, Role::Value, Mode::Inferred, env, key.st);
    lemma_notes_none(t, key.st, key.st);
    lemma_notes_on(t, st, key.st, prop_out(t, f, st, drop_type).st);
}

proof fn lemma_notes_plain(t: Tree, env: Env, st: State)
    requires
        all_in_place(t),
    ensures
        notes_more(t, st, plain_out(t, env, visitor(t.children, env), st).st),
    decreases t, 2nat, 0nat,
{
    reveal(plain_out);
    let f = visitor(t.children, env);
    let n = t.children.len();
    match t.kind {
        Kind::ExportDefaultExpr => {
            reveal(default_exported);
            lemma_notes_none(t, st, default_exported(t, env, st));
        },
        Kind::Class => {
            reveal(class_out);
            lemma_notes_parts(t, n, env, Owner::PropsOfClass, st);
            let props = parts(t, env, Owner::PropsOfClass, f, st);
            lemma_notes_parts(t, n, env, Owner::Class, props.st);
            lemma_notes_on(t, st, props.st, parts(t, env, Owner::Class, f, props.st).st);
        },
        Kind::ClassProp => {
            lemma_notes_prop(t, env, st, false);
        },
        Kind::Constructor => {
            lemma_notes_parts(t, n, env, Owner::Constructor, st);
        },
        Kind::Function => {
            reveal(function_out);
            let noted = function_noted(t, st);
            lemma_function_noted(t, st);
            lemma_notes_parts(t, n, env, Owner::Function, noted);
            lemma_notes_on(t, st, noted, parts(t, env, Owner::Function, f, noted).st);
        },
        Kind::VarDeclarator => {
            lemma_notes_parts(t, n, env, Owner::VarDeclarator, st);
        },
        Kind::VarDecl => {
            lemma_notes_parts(t, n, env, Owner::VarDecl, st);
        },
        Kind::AssignPat => {
            reveal(assign_out);
            lemma_notes_default_ann(t, env, st);
            lemma_notes_one(t, Role::Left, Mode::Props, env, st);
            let props = one_part(t, Role::Left, Mode::Props, f, st);
            lemma_notes_default_ann(t, env, props.st);
            lemma_notes_on(t, st, props.st, default_ann_out(t, f, props.st).st);
            lemma_notes_parts(t, n, env, Owner::Other, st);
        },
        Kind::ObjectPat => {
            lemma_notes_parts(t, n, env, Owner::ObjectPat, st);
        },
        Kind::AssignPatProp => {
            lemma_notes_parts(t, n, env, Owner::AssignPatProp, st);
        },
        Kind::ExportNamed => {
            reveal(export_out);
            lemma_notes_parts(t, n, env, Owner::Export, st);
            let after = export_out(t, env, f, st).st;
            if super::transform::source_found(t, env) {
                let id = env.sources[crate::collections::key_place(
                    env.sources,
                    child(t, Role::Source).text,
                )].1.0;
                if id is Some {
                    lemma_notes_re_exported(t.children, n, env, id.unwrap() as int, st);
                }
                lemma_notes_none(t, st, after);
            }
        },
        Kind::TsModuleBlock => {
            reveal(block_out);
            lemma_notes_items(t, n, env, st);
            let items = items_upto(t.children, n, env, f, st);
            let after = State { append: Seq::empty(), ..items.st };
            lemma_notes_none(t, items.st, after);
            lemma_notes_on(t, st, items.st, after);
        },
        _ => {
            lemma_notes_parts(t, n, env, Owner::Other, st);
        },
    }
}

proof fn lemma_function_noted(t: Tree, st: State)
    requires
        t.kind == Kind::Function,
        all_in_place(t),
    ensures
        notes_more(t, st, function_noted(t, st)),
        function_returns(t) == gives_result(t),
        !has_part(t, Role::ReturnType) && gives_result(t) ==> function_noted(t, st).missing_types
            == st.missing_types.push(t.span.lo),
{
    reveal(function_noted);
    if has_part(t, Role::Body) {
        law_the_first_return_is_found(child(t, Role::Body));
    }
    let path = Seq::<int>::empty();
    assert(node_at(t, path) == t);
    assert(is_path(t, path));
}

proof fn lemma_notes(t: Tree, mode: Mode, env: Env, st: State)
    requires
        all_in_place(t),
    ensures
        notes_more(t, st, visited(t, mode, env, st).st),
    decreases t, 3nat, 0nat,
{
    reveal(node_out);
    let f = visitor(t.children, env);
    let n = t.children.len();
    match mode {
        Mode::Plain => {
            lemma_notes_plain(t, env, st);
        },
        Mode::AsParam => {
            lemma_notes_one(t, Role::Pattern, Mode::Plain, env, st);
        },
        Mode::AsPrivateProp => {
            lemma_notes_one(t, Role::Key, Mode::Plain, env, st);
        },
        Mode::WithoutType => {
            lemma_notes_prop(t, env, st, true);
        },
        Mode::AsAssignProp => {
            reveal(key_noted);
            lemma_notes_one(t, Role::Key, Mode::Plain, env, st);
            let v = one_part(t, Role::Key, Mode::Plain, f, st);
            lemma_notes_none(t, v.st, key_noted(t, v.st));
            lemma_notes_on(t, st, v.st, key_noted(t, v.st));
        },
        Mode::AsProps => {
            if t.kind == Kind::Constructor {
                lemma_notes_parts(t, n, env, Owner::PropsOfConstructor, st);
            } else {
                reveal(param_prop_out);
                lemma_notes_none(t, st, State { unsupported: true, ..st });
                lemma_notes_one(t, Role::Pattern, Mode::Key, env, st);
                let key = one_part(t, Role::Pattern, Mode::Key, f, st);
                lemma_notes_one(t, Role::Pattern, Mode::DefaultAnn, env, key.st);
                lemma_notes_one(t, Role::Pattern, Mode::Ann, env, key.st);
                let after = param_prop_out(t, f, st).st;
                if super::transform::param_prop_supported(t) {
                    lemma_notes_on(t, st, key.st, after);
                }
            }
        },
        Mode::Key => {
            lemma_notes_one(t, Role::Left, Mode::Key, env, st);
            lemma_notes_one(t, Role::Name, Mode::Plain, env, st);
        },
        Mode::Ann => {
            lemma_notes_one(t, Role::TypeAnn, Mode::Plain, env, st);
        },
        Mode::DefaultAnn => {
            lemma_notes_default_ann(t, env, st);
        },
        Mode::Inferred => {
            reveal(inferred_out);
            lemma_notes_one(t, Role::Type, Mode::Plain, env, st);
            lemma_notes_none(t, st, st);
        },
        Mode::Props => {
            lemma_notes_parts(t, n, env, Owner::Props, st);
        },
    }
}

/// Whatever is transformed, the functions that are reported are ones in it that return
/// but do not say what.
pub proof fn law_only_missing_types_are_reported(t: Tree, mode: Mode, env: Env, st: State)
    requires
        all_in_place(t),
    ensures
        notes_more(t, st, visited(t, mode, env, st).st),
{
    lemma_notes(t, mode, env, st);
}

/// Whether a node is the keyword of a type.
pub open spec fn is_keyword(t: Tree, keyword: Seq<char>) -> bool {
    t.kind == Kind::TsKeywordType && t.text == keyword && t.children.len() == 0
}

/// Whether a node is a type with arguments that are keywords.
pub open spec fn is_applied(t: Tree, name: Seq<char>, keywords: Seq<Seq<char>>) -> bool {
    &&& t.kind == Kind::TsTypeRef
    &&& t.children.len() == 2
    &&& t.children[0].role == Role::TypeName && t.children[0].kind == Kind::EntityName
    &&& t.children[0].text == name
    &&& t.children[1].role == Role::TypeArgs && t.children[1].kind
        == Kind::TsTypeParamInstantiation
    &&& t.children[1].children.len() == keywords.len()
    &&& forall|i: int|
        0 <= i < keywords.len() ==> is_keyword(#[trigger] t.children[1].children[i], keywords[i])
}

/// A function for which no return type is written is declared to return nothing only if
/// no statement in its body, however deep among its statements, returns; else it is
/// declared to return what is unknown, and is reported. The result of an asynchronous
/// function is promised, and what a generator gives is unknown.
pub proof fn law_nothing_is_returned_only_where_nothing_is(t: Tree, env: Env, st: State)
    requires
        t.kind == Kind::Function,
        all_in_place(t),
        has_part(t, Role::Body),
        !has_part(t, Role::ReturnType),
    ensures
        ({
            let v = visited(t, Mode::Plain, env, st);
            let m = v.trees[0];
            let ann = child(m, Role::ReturnType);
            let written = child(ann, Role::Type);
            let result = if gives_result(t) || t.flags.is_generator {
                "unknown"@
            } else {
                "void"@
            };
            &&& v.trees.len() == 1
            &&& has_part(m, Role::ReturnType) && ann.kind == Kind::TsTypeAnn && has_part(
                ann,
                Role::Type,
            )
            &&& t.flags.is_async ==> is_applied(written, "Promise"@, seq![result])
            &&& !t.flags.is_async && t.flags.is_generator ==> is_applied(
                written,
                "Generator"@,
                seq!["unknown"@, "void"@, "unknown"@],
            )
            &&& !t.flags.is_async && !t.flags.is_generator ==> is_keyword(written, result)
            &&& gives_result(t) ==> v.st.missing_types.len() > st.missing_types.len()
                && v.st.missing_types[st.missing_types.len() as int] == t.span.lo
        }),
{
    reveal(node_out);
    reveal(plain_out);
    reveal(function_out);
    reveal(function_with);
    reveal(default_return_type);
    let f = visitor(t.children, env);
    let noted = function_noted(t, st);
    lemma_function_noted(t, st);
    let v = parts(t, env, Owner::Function, f, noted);
    lemma_notes_parts(t, t.children.len(), env, Owner::Function, noted);
    lemma_plain_single(t, env, st);
    lemma_no_role(t, t.children.len(), env, noted, Role::ReturnType);
    let ann = at(Role::ReturnType, type_ann_tree(default_return_type(t)));
    let m = function_with(t, v.trees);
    assert(m.children =~= v.trees.push(ann));
    lemma_place_pushed(v.trees, ann, 0);
    assert(child(m, Role::ReturnType) == ann);
    reveal_with_fuel(place_from, 2);
    assert(child(ann, Role::Type) == at(Role::Type, default_return_type(t)));
    if gives_result(t) && !has_part(t, Role::ReturnType) {
        assert(noted.missing_types[st.missing_types.len() as int] == t.span.lo);
    }
}

proof fn lemma_place_pushed(s: Seq<Tree>, t: Tree, from: int)
    requires
        0 <= from <= s.len(),
        forall|i: int| 0 <= i < s.len() ==> (#[trigger] s[i]).role != t.role,
    ensures
        place_from(s.push(t), t.role, from) == s.len(),
    decreases s.len() - from,
{
    if from < s.len() {
        assert(s.push(t)[from] == s[from]);
        lemma_place_pushed(s, t, from + 1);
    }
}

proof fn lemma_no_role(t: Tree, n: nat, env: Env, st: State, role: Role)
    requires
        n <= t.children.len(),
        !has_part(t, role),
    ensures
        ({
            let v = parts_upto(t.children, n, env, Owner::Function, visitor(t.children, env), st);
            forall|i: int| 0 <= i < v.trees.len() ==> (#[trigger] v.trees[i]).role != role
        }),
    decreases n,
{
    if n > 0 {
        reveal(part_mode);
        let f = visitor(t.children, env);
        lemma_no_role(t, (n - 1) as nat, env, st, role);
        let before = parts_upto(t.children, (n - 1) as nat, env, Owner::Function, f, st);
        let last = t.children[n - 1];
        lemma_place_from(t.children, role, 0);
        assert(last.role != role);
        match part_mode(t.children, n - 1, env, Owner::Function) {
            Some(mode) => {
                let v = visited(last, mode, env, before.st);
                assert(f(n - 1, mode, before.st) == v);
                lemma_role(last, mode, env, before.st);
                let all = before.trees + v.trees;
                assert forall|i: int| 0 <= i < all.len() implies (#[trigger] all[i]).role
                    != role by {
                    if i < before.trees.len() {
                        assert(all[i] == before.trees[i]);
                    } else {
                        assert(all[i] == v.trees[i - before.trees.len()]);
                    }
                }
            },
            None => {},
        }
    }
}

/// Whether whatever is reported of one state is reported of another.
spec fn reports(a: State, b: State) -> bool {
    forall|pos: u32| #[trigger] a.missing_types.contains(pos) ==> b.missing_types.contains(pos)
}

/// Whether whatever is reported of a tree, from some state on, is reported.
spec fn reports_all(c: Tree, env: Env, end: State) -> bool {
    exists|s: State| reports(#[trigger] visited(c, Mode::Plain, env, s).st, end)
}

proof fn lemma_reports(t: Tree, a: State, b: State)
    requires
        notes_more(t, a, b),
    ensures
        reports(a, b),
{
    assert forall|pos: u32| #[trigger] a.missing_types.contains(pos) implies b.missing_types.contains(
        pos,
    ) by {
        let i = a.missing_types.index_of(pos);
        assert(b.missing_types[i] == a.missing_types[i]);
    }
}

proof fn lemma_reports_on(c: Tree, env: Env, a: State, b: State)
    requires
        reports_all(c, env, a),
        reports(a, b),
    ensures
        reports_all(c, env, b),
{
    let s = choose|s: State| reports(#[trigger] visited(c, Mode::Plain, env, s).st, a);
    assert(reports(visited(c, Mode::Plain, env, s).st, b));
}

proof fn lemma_parts_report(t: Tree, n: nat, env: Env, owner: Owner, st: State, i: int)
    requires
        all_in_place(t),
        0 <= i < n <= t.children.len(),
        part_mode(t.children, i, env, owner) == Some(Mode::Plain),
    ensures
        reports_all(
            t.children[i],
            env,
            parts_upto(t.children, n, env, owner, visitor(t.children, env), st).st,
        ),
    decreases n,
{
    let f = visitor(t.children, env);
    let before = parts_upto(t.children, (n - 1) as nat, env, owner, f, st);
    if i < n - 1 {
        lemma_parts_report(t, (n - 1) as nat, env, owner, st, i);
        match part_mode(t.children, n - 1, env, owner) {
            Some(mode) => {
                let v = visited(t.children[n - 1], mode, env, before.st);
                assert(f(n - 1, mode, before.st) == v);
                lemma_notes(t.children[n - 1], mode, env, before.st);
                lemma_reports(t.children[n - 1], before.st, v.st);
                lemma_reports_on(t.children[i], env, before.st, v.st);
            },
            None => {},
        }
    } else {
        let v = visited(t.children[i], Mode::Plain, env, before.st);
        assert(f(i, Mode::Plain, before.st) == v);
        assert(reports(v.st, v.st));
    }
}

proof fn lemma_items_report(t: Tree, n: nat, env: Env, st: State, i: int)
    requires
        all_in_place(t),
        0 <= i < n <= t.children.len(),
        item_kept(t.children[i], env),
    ensures
        reports_all(
            t.children[i],
            env,
            items_upto(t.children, n, env, visitor(t.children, env), st).st,
        ),
    decreases n,
{
    let f = visitor(t.children, env);
    let before = items_upto(t.children, (n - 1) as nat, env, f, st);
    let v = visited(t.children[n - 1], Mode::Plain, env, before.st);
    assert(f(n - 1, Mode::Plain, before.st) == v);
    if i < n - 1 {
        lemma_items_report(t, (n - 1) as nat, env, st, i);
        lemma_notes(t.children[n - 1], Mode::Plain, env, before.st);
        lemma_reports(t.children[n - 1], before.st, v.st);
        lemma_reports_on(t.children[i], env, before.st, v.st);
    } else {
        assert(reports(v.st, v.st));
    }
}

proof fn lemma_step_reports(t: Tree, i: int, env: Env, st: State)
    requires
        all_in_place(t),
        0 <= i < t.children.len(),
        is_declared(t, i, env),
        t.kind != Kind::ClassProp,
    ensures
        reports_all(t.children[i], env, visited(t, Mode::Plain, env, st).st),
{
    let f = visitor(t.children, env);
    let n = t.children.len();
    let c = t.children[i];
    let end = visited(t, Mode::Plain, env, st).st;
    match t.kind {
        Kind::Class => {
            let props = parts(t, env, Owner::PropsOfClass, f, st);
            if c.role == Role::Member {
                lemma_seen(t, i, env);
            } else {
                reveal(part_mode);
            }
            lemma_parts_report(t, n, env, Owner::Class, props.st, i);
            reveal(node_out);
            reveal(plain_out);
            reveal(class_out);
        },
        Kind::Function => {
            assert(part_mode(t.children, i, env, Owner::Function) == Some(Mode::Plain)) by {
                reveal(part_mode);
            }
            lemma_parts_report(t, n, env, Owner::Function, function_noted(t, st), i);
            reveal(node_out);
            reveal(plain_out);
            reveal(function_out);
        },
        Kind::TsModuleBlock => {
            reveal(item_kept);
            reveal(is_kept);
            lemma_items_report(t, n, env, st, i);
            let items = items_upto(t.children, n, env, f, st);
            reveal(node_out);
            reveal(plain_out);
            reveal(block_out);
            assert(reports(items.st, end));
            lemma_reports_on(c, env, items.st, end);
        },
        _ => {
            let owner = owner_of(t.kind);
            assert(part_mode(t.children, i, env, owner) == Some(Mode::Plain)) by {
                reveal(part_mode);
                reveal(is_kept);
            }
            lemma_parts_report(t, n, env, owner, st, i);
            assert(end == parts(t, env, owner, f, st).st) by {
                reveal(node_out);
                reveal(plain_out);
            }
        },
    }
}

/// Whether no node on a path, but for the last one, is a property of a class.
pub open spec fn through_no_property(t: Tree, path: Seq<int>) -> bool
    decreases path.len(),
{
    path.len() == 0 || t.kind != Kind::ClassProp && through_no_property(
        t.children[path[0]],
        path.skip(1),
    )
}

/// Every function that is declared, however deep in a declaration, is reported if it
/// returns but does not say what.
pub proof fn law_every_missing_type_is_reported(t: Tree, env: Env, st: State, path: Seq<int>)
    requires
        all_in_place(t),
        is_declared_at(t, path, env),
        through_no_property(t, path),
        node_at(t, path).kind == Kind::Function,
        !has_part(node_at(t, path), Role::ReturnType),
        gives_result(node_at(t, path)),
    ensures
        visited(t, Mode::Plain, env, st).st.missing_types.contains(node_at(t, path).span.lo),
    decreases path.len(),
{
    if path.len() == 0 {
        law_nothing_is_returned_only_where_nothing_is(t, env, st);
    } else {
        let c = t.children[path[0]];
        lemma_step_reports(t, path[0], env, st);
        let s = choose|s: State|
            reports(
                #[trigger] visited(c, Mode::Plain, env, s).st,
                visited(t, Mode::Plain, env, st).st,
            );
        law_every_missing_type_is_reported(c, env, s, path.skip(1));
    }
}

}
