//! What the symbols of a module depend on.

use vstd::prelude::*;

use super::binder::{
    ann_mentions, class_mentions, class_part_mentions, class_part_supported, class_supported,
    decl_deps, decl_supported, declarator_deps, declarators_declared, declared, ensured, exported,
    expr_mentions, function_mentions, function_supported, has_one_name, heritage_mentions,
    ids_declared, import_declared, import_part_declared, imported, is_name, item_declared,
    items_declared, member_mentions, member_supported, module_symbols, no_symbols,
    own_ann_mentions, own_ann_supported, own_type_mentions, param_mentions, param_supported,
    params_mention, params_supported, pat_ids, pattern_mentions, symbol_for, type_mentions,
    type_param_mentions, type_param_supported, type_params_mention, type_params_supported,
    type_supported, types_mention, types_supported, with_deps, with_file_dep, Dep, SymbolData,
    SymbolId, Symbols,
};
use crate::collections::{distinct_keys, has_key, key_place, lemma_key_place, lemma_key_place_is};
use crate::paths::{is_path, node_at};
use crate::syntax::{child, has_part, id_of, lemma_place, place, range_of, Kind, Role, SourceRange, Tree};

verus! {

/// Whether a type, or one in it, is written by the identifier. What stands in the text of
/// a literal type does not count.
pub open spec fn refers_to(t: Tree, id: (Seq<char>, u32)) -> bool
    decreases t,
{
    &&& t.kind != Kind::TsLitType
    &&& (t.kind == Kind::TsTypeRef && has_part(t, Role::TypeName) && id_of(
        child(t, Role::TypeName),
    ) == id) || exists|i: int|
        0 <= i < t.children.len() && refers_to(#[trigger] t.children[i], id)
}

/// Whether types have the parts that the grammar gives them: a reference has a name and
/// arguments, and the types that are one word have no parts.
pub open spec fn is_type_syntax(t: Tree) -> bool
    decreases t,
{
    &&& t.kind == Kind::TsTypeRef ==> has_part(t, Role::TypeName) && child(
        t,
        Role::TypeName,
    ).kind == Kind::EntityName && forall|i: int|
        0 <= i < t.children.len() ==> i == place(t, Role::TypeName) || i == place(
            t,
            Role::TypeArgs,
        ) && (#[trigger] t.children[i]).kind == Kind::TsTypeParamInstantiation
    &&& t.kind == Kind::TsTypeAnn ==> t.children.len() == 1 && t.children[0].role == Role::Type
    &&& t.kind == Kind::EntityName || t.kind == Kind::TsKeywordType || t.kind == Kind::TsThisType
        ==> t.children.len() == 0
    &&& forall|i: int| 0 <= i < t.children.len() ==> is_type_syntax(#[trigger] t.children[i])
}

/// Whether a type is written for the variables of a pattern.
pub open spec fn typed_by(t: Tree, a: Tree) -> bool {
    ||| (t.kind == Kind::BindingIdent || t.kind == Kind::ObjectPat || t.kind == Kind::ArrayPat
        || t.kind == Kind::RestPat) && has_part(t, Role::TypeAnn) && a == child(t, Role::TypeAnn)
    ||| t.kind == Kind::AssignPat && has_part(t, Role::Left) && has_part(
        child(t, Role::Left),
        Role::TypeAnn,
    ) && a == child(child(t, Role::Left), Role::TypeAnn)
}

/// Whether a type is written for a parameter of a function or constructor.
pub open spec fn in_params(t: Tree, a: Tree) -> bool {
    exists|i: int|
        0 <= i < t.children.len() && (#[trigger] t.children[i]).role == Role::Param && has_part(
            t.children[i],
            Role::Pattern,
        ) && typed_by(child(t.children[i], Role::Pattern), a)
}

/// Whether a type stands with the type parameters of a declaration: what one extends, or
/// what it is by default.
pub open spec fn in_type_params(t: Tree, a: Tree) -> bool {
    has_part(t, Role::TypeParams) && exists|i: int|
        {
            let param = #[trigger] child(t, Role::TypeParams).children[i];
            &&& 0 <= i < child(t, Role::TypeParams).children.len()
            &&& has_part(param, Role::Constraint) && a == child(param, Role::Constraint)
                || has_part(param, Role::Default) && a == child(param, Role::Default)
        }
}

/// Whether a type stands in the signature of a function.
pub open spec fn in_signature(t: Tree, a: Tree) -> bool {
    ||| in_type_params(t, a)
    ||| in_params(t, a)
    ||| has_part(t, Role::ReturnType) && a == child(t, Role::ReturnType)
}

/// Whether a type is written for a member of a class that others can see.
pub open spec fn in_member(t: Tree, a: Tree) -> bool {
    match t.kind {
        Kind::Constructor => in_params(t, a),
        Kind::ClassMethod => has_part(t, Role::Function) && in_signature(
            child(t, Role::Function),
            a,
        ),
        Kind::ClassProp => has_part(t, Role::TypeAnn) && a == child(t, Role::TypeAnn),
        _ => false,
    }
}

/// Whether a type is an argument of a list.
pub open spec fn in_args(t: Tree, role: Role, a: Tree) -> bool {
    has_part(t, role) && child(t, role).children.contains(a)
}

/// Whether a type stands in what others see of a class.
pub open spec fn in_class(t: Tree, a: Tree) -> bool {
    ||| in_type_params(t, a)
    ||| in_args(t, Role::SuperTypeArgs, a)
    ||| exists|i: int|
        0 <= i < t.children.len() && {
            ||| (#[trigger] t.children[i]).role == Role::Implements && in_args(
                t.children[i],
                Role::TypeArgs,
                a,
            )
            ||| t.children[i].role == Role::Member && in_member(t.children[i], a)
        }
}

/// Whether a type is written in what others see of a declaration.
pub open spec fn is_written_in(t: Tree, a: Tree) -> bool {
    match t.kind {
        Kind::FnDecl => has_part(t, Role::Function) && in_signature(child(t, Role::Function), a),
        Kind::ClassDecl => has_part(t, Role::Class) && in_class(child(t, Role::Class), a),
        Kind::TsTypeAliasDecl => in_type_params(t, a) || has_part(t, Role::Type) && a == child(
            t,
            Role::Type,
        ),
        _ => false,
    }
}

/// A type that can be dealt with depends on whatever it refers to.
proof fn lemma_type(t: Tree, id: (Seq<char>, u32))
    requires
        type_supported(t),
        is_type_syntax(t),
        refers_to(t, id),
    ensures
        type_mentions(t, id),
    decreases t,
{
    lemma_place(t, Role::TypeName);
    lemma_place(t, Role::TypeArgs);
    if t.kind == Kind::TsTypeRef {
        if id_of(child(t, Role::TypeName)) != id {
            let i = choose|i: int|
                0 <= i < t.children.len() && refers_to(#[trigger] t.children[i], id);
            if i == place(t, Role::TypeName) {
                assert(t.children[i].kind == Kind::EntityName);
                assert(is_type_syntax(t.children[i]));
            } else {
                lemma_types(t.children[i], id);
            }
        }
    } else if t.kind == Kind::TsConditionalType {
        let i = choose|i: int| 0 <= i < t.children.len() && refers_to(#[trigger] t.children[i], id);
        assert(type_supported(t.children[i]));
        assert(is_type_syntax(t.children[i]));
        lemma_type(t.children[i], id);
    }
}

proof fn lemma_types(t: Tree, id: (Seq<char>, u32))
    requires
        types_supported(t),
        is_type_syntax(t),
        t.kind == Kind::TsTypeParamInstantiation,
        refers_to(t, id),
    ensures
        types_mention(t, id),
    decreases t,
{
    let i = choose|i: int| 0 <= i < t.children.len() && refers_to(#[trigger] t.children[i], id);
    assert(type_supported(t.children[i]));
    assert(is_type_syntax(t.children[i]));
    lemma_type(t.children[i], id);
}

/// An annotation that can be dealt with depends on whatever it refers to.
proof fn lemma_ann(t: Tree, id: (Seq<char>, u32))
    requires
        t.kind == Kind::TsTypeAnn,
        has_part(t, Role::Type),
        type_supported(child(t, Role::Type)),
        is_type_syntax(t),
        refers_to(t, id),
    ensures
        ann_mentions(t, id),
{
    lemma_place(t, Role::Type);
    assert(place(t, Role::Type) == 0);
    let i = choose|i: int| 0 <= i < t.children.len() && refers_to(#[trigger] t.children[i], id);
    assert(is_type_syntax(t.children[0]));
    lemma_type(child(t, Role::Type), id);
}

/// Whatever is referred to is a name that stands there.
proof fn lemma_named(t: Tree, id: (Seq<char>, u32))
    requires
        is_type_syntax(t),
        refers_to(t, id),
    ensures
        expr_mentions(t, id),
    decreases t,
{
    lemma_place(t, Role::TypeName);
    if t.kind == Kind::TsTypeRef && id_of(child(t, Role::TypeName)) == id {
        let c = t.children[place(t, Role::TypeName)];
        assert(is_name(c));
        assert(expr_mentions(c, id));
    } else {
        let i = choose|i: int| 0 <= i < t.children.len() && refers_to(#[trigger] t.children[i], id);
        assert(is_type_syntax(t.children[i]));
        lemma_named(t.children[i], id);
    }
}

proof fn lemma_pattern(t: Tree, a: Tree, id: (Seq<char>, u32))
    requires
        typed_by(t, a),
        a.kind == Kind::TsTypeAnn,
        is_type_syntax(a),
        refers_to(a, id),
        super::binder::pattern_supported(t),
    ensures
        pattern_mentions(t, id),
{
    if t.kind == Kind::AssignPat {
        lemma_named(a, id);
    } else {
        lemma_ann(a, id);
    }
}

proof fn lemma_params(t: Tree, a: Tree, id: (Seq<char>, u32))
    requires
        in_params(t, a),
        a.kind == Kind::TsTypeAnn,
        is_type_syntax(a),
        refers_to(a, id),
        params_supported(t),
    ensures
        params_mention(t, id),
{
    let i = choose|i: int|
        0 <= i < t.children.len() && (#[trigger] t.children[i]).role == Role::Param && has_part(
            t.children[i],
            Role::Pattern,
        ) && typed_by(child(t.children[i], Role::Pattern), a);
    assert(param_supported(t.children[i]));
    lemma_pattern(child(t.children[i], Role::Pattern), a, id);
    assert(param_mentions(t.children[i], id));
}

proof fn lemma_type_params(t: Tree, a: Tree, id: (Seq<char>, u32))
    requires
        in_type_params(t, a),
        is_type_syntax(a),
        refers_to(a, id),
        type_params_supported(t),
    ensures
        type_params_mention(t, id),
{
    let list = child(t, Role::TypeParams);
    let i = choose|i: int|
        {
            let param = #[trigger] list.children[i];
            &&& 0 <= i < list.children.len()
            &&& has_part(param, Role::Constraint) && a == child(param, Role::Constraint)
                || has_part(param, Role::Default) && a == child(param, Role::Default)
        };
    assert(type_param_supported(list.children[i]));
    lemma_type(a, id);
    assert(type_param_mentions(list.children[i], id));
}

/// Whether a type is an annotation where one stands.
pub open spec fn is_ann(t: Tree) -> bool {
    t.kind == Kind::TsTypeAnn
}

proof fn lemma_signature(t: Tree, a: Tree, id: (Seq<char>, u32))
    requires
        in_signature(t, a),
        in_type_params(t, a) || is_ann(a),
        is_type_syntax(a),
        refers_to(a, id),
        function_supported(t),
    ensures
        function_mentions(t, id),
{
    if in_type_params(t, a) {
        lemma_type_params(t, a, id);
    } else if in_params(t, a) {
        lemma_params(t, a, id);
    } else {
        lemma_ann(a, id);
    }
}

proof fn lemma_member(t: Tree, a: Tree, id: (Seq<char>, u32))
    requires
        in_member(t, a),
        t.kind == Kind::ClassMethod && in_type_params(child(t, Role::Function), a) || is_ann(a),
        is_type_syntax(a),
        refers_to(a, id),
        member_supported(t),
    ensures
        member_mentions(t, id),
{
    match t.kind {
        Kind::Constructor => {
            lemma_params(t, a, id);
        },
        Kind::ClassMethod => {
            lemma_signature(child(t, Role::Function), a, id);
        },
        _ => {
            lemma_ann(a, id);
        },
    }
}

proof fn lemma_args(t: Tree, role: Role, a: Tree, id: (Seq<char>, u32))
    requires
        in_args(t, role, a),
        is_type_syntax(a),
        refers_to(a, id),
        types_supported(child(t, role)),
    ensures
        types_mention(child(t, role), id),
{
    let list = child(t, role).children;
    let i = list.index_of(a);
    assert(list[i] == a);
    assert(type_supported(list[i]));
    lemma_type(a, id);
    assert(type_mentions(list[i], id));
}

/// Whether an annotation has its kind wherever one is written in a declaration.
pub open spec fn anns_fit(t: Tree) -> bool
    decreases t,
{
    &&& t.role == Role::TypeAnn || t.role == Role::ReturnType ==> t.kind == Kind::TsTypeAnn
    &&& forall|i: int| 0 <= i < t.children.len() ==> anns_fit(#[trigger] t.children[i])
}

proof fn lemma_fit(t: Tree, role: Role)
    requires
        anns_fit(t),
        has_part(t, role),
    ensures
        anns_fit(child(t, role)),
        child(t, role).role == role,
{
    lemma_place(t, role);
    assert(anns_fit(t.children[place(t, role)]));
}

proof fn lemma_params_fit(t: Tree, a: Tree)
    requires
        anns_fit(t),
        in_params(t, a),
    ensures
        is_ann(a),
{
    let i = choose|i: int|
        0 <= i < t.children.len() && (#[trigger] t.children[i]).role == Role::Param && has_part(
            t.children[i],
            Role::Pattern,
        ) && typed_by(child(t.children[i], Role::Pattern), a);
    assert(anns_fit(t.children[i]));
    lemma_fit(t.children[i], Role::Pattern);
    let pattern = child(t.children[i], Role::Pattern);
    if pattern.kind == Kind::AssignPat {
        lemma_fit(pattern, Role::Left);
        lemma_fit(child(pattern, Role::Left), Role::TypeAnn);
    } else {
        lemma_fit(pattern, Role::TypeAnn);
    }
}

proof fn lemma_signature_fits(t: Tree, a: Tree)
    requires
        anns_fit(t),
        in_signature(t, a),
    ensures
        in_type_params(t, a) || is_ann(a),
{
    if !in_type_params(t, a) {
        if in_params(t, a) {
            lemma_params_fit(t, a);
        } else {
            lemma_fit(t, Role::ReturnType);
        }
    }
}

proof fn lemma_class(t: Tree, a: Tree, id: (Seq<char>, u32))
    requires
        anns_fit(t),
        in_class(t, a),
        is_type_syntax(a),
        refers_to(a, id),
        class_supported(t),
    ensures
        class_mentions(t, id),
{
    if in_type_params(t, a) {
        lemma_type_params(t, a, id);
    } else if in_args(t, Role::SuperTypeArgs, a) {
        lemma_args(t, Role::SuperTypeArgs, a, id);
    } else {
        let i = choose|i: int|
            0 <= i < t.children.len() && {
                ||| (#[trigger] t.children[i]).role == Role::Implements && in_args(
                    t.children[i],
                    Role::TypeArgs,
                    a,
                )
                ||| t.children[i].role == Role::Member && in_member(t.children[i], a)
            };
        let c = t.children[i];
        assert(class_part_supported(c));
        assert(anns_fit(c));
        if c.role == Role::Implements {
            lemma_args(c, Role::TypeArgs, a, id);
            assert(heritage_mentions(c, id));
        } else {
            match c.kind {
                Kind::Constructor => {
                    lemma_params_fit(c, a);
                },
                Kind::ClassMethod => {
                    lemma_fit(c, Role::Function);
                    lemma_signature_fits(child(c, Role::Function), a);
                },
                _ => {
                    lemma_fit(c, Role::TypeAnn);
                },
            }
            lemma_member(c, a, id);
        }
        assert(class_part_mentions(c, id));
    }
}

/// What a declaration depends on holds every identifier by which a type is written in
/// what others see of it: in its type parameters, in those of a function for its
/// parameters and its result, in a class for its members and for what it extends and
/// implements.
pub proof fn law_written_types_are_depended_on(t: Tree, a: Tree, id: (Seq<char>, u32))
    requires
        decl_supported(t),
        anns_fit(t),
        is_written_in(t, a),
        is_type_syntax(a),
        refers_to(a, id),
    ensures
        decl_deps(t).contains(id),
{
    match t.kind {
        Kind::FnDecl => {
            lemma_fit(t, Role::Function);
            lemma_signature_fits(child(t, Role::Function), a);
            lemma_signature(child(t, Role::Function), a, id);
        },
        Kind::ClassDecl => {
            lemma_fit(t, Role::Class);
            lemma_class(child(t, Role::Class), a, id);
        },
        _ => {
            if in_type_params(t, a) {
                lemma_type_params(t, a, id);
            } else {
                lemma_type(a, id);
            }
        },
    }
}

/// What a variable depends on holds every identifier by which its type is written.
pub proof fn law_types_of_variables_are_depended_on(t: Tree, a: Tree, id: (Seq<char>, u32))
    requires
        has_part(t, Role::Name),
        has_part(child(t, Role::Name), Role::TypeAnn),
        a == child(child(t, Role::Name), Role::TypeAnn),
        is_type_syntax(a),
        refers_to(a, id),
    ensures
        declarator_deps(t).contains(id),
{
    lemma_named(a, id);
}

/// Whether each identifier stands once, and for a symbol that is there.
pub open spec fn ids_valid(m: Symbols) -> bool {
    &&& distinct_keys(m.ids)
    &&& forall|i: int| 0 <= i < m.ids.len() ==> (#[trigger] m.ids[i]).1.0 < m.symbols.len()
}

/// Whether nothing that is known of symbols is lost from one state to another.
pub open spec fn keeps(a: Symbols, b: Symbols) -> bool {
    &&& a.symbols.len() <= b.symbols.len()
    &&& forall|id: (Seq<char>, u32)| #[trigger]
        has_key(a.ids, id) ==> has_key(b.ids, id) && symbol_for(b, id) == symbol_for(a, id)
    &&& forall|k: int| 0 <= k < a.symbols.len() ==> tells_more(#[trigger] a.symbols[k], b.symbols[k])
    &&& forall|name: Seq<char>| #[trigger] has_key(a.exports, name) ==> has_key(b.exports, name)
}

/// Whether whatever is known of a symbol is known of it later.
pub open spec fn tells_more(a: SymbolData, b: SymbolData) -> bool {
    &&& a.deps.subset_of(b.deps)
    &&& forall|r: SourceRange| #[trigger] a.decls.contains(r) ==> b.decls.contains(r)
    &&& a.file_dep is Some ==> b.file_dep is Some
}

proof fn lemma_keeps_on(a: Symbols, b: Symbols, c: Symbols)
    requires
        keeps(a, b),
        keeps(b, c),
    ensures
        keeps(a, c),
{
    assert forall|k: int| 0 <= k < a.symbols.len() implies tells_more(
        #[trigger] a.symbols[k],
        c.symbols[k],
    ) by {
        assert(tells_more(a.symbols[k], b.symbols[k]));
        assert(tells_more(b.symbols[k], c.symbols[k]));
    }
}

proof fn lemma_keeps_self(a: Symbols)
    ensures
        keeps(a, a),
{
}

/// One symbol is told more of.
proof fn lemma_changed(m: Symbols, k: int, data: SymbolData)
    requires
        ids_valid(m),
        0 <= k < m.symbols.len(),
        tells_more(m.symbols[k], data),
    ensures
        ids_valid(Symbols { symbols: m.symbols.update(k, data), ..m }),
        keeps(m, Symbols { symbols: m.symbols.update(k, data), ..m }),
{
    let after = Symbols { symbols: m.symbols.update(k, data), ..m };
    assert forall|j: int| 0 <= j < m.symbols.len() implies tells_more(
        #[trigger] m.symbols[j],
        after.symbols[j],
    ) by {
        if j == k {
            assert(after.symbols[j] == data);
        }
    }
}

proof fn lemma_ensured(m: Symbols, id: (Seq<char>, u32), range: SourceRange)
    requires
        ids_valid(m),
    ensures
        ids_valid(ensured(m, id, range)),
        keeps(m, ensured(m, id, range)),
        has_key(ensured(m, id, range).ids, id),
        m.symbols.len() <= usize::MAX ==> ensured(m, id, range).symbols[symbol_for(ensured(m, id, range), id).0 as int].decls.contains(
            range,
        ),
{
    let after = ensured(m, id, range);
    lemma_key_place(m.ids, id);
    lemma_key_place(after.ids, id);
    if has_key(m.ids, id) {
        let k = symbol_for(m, id).0 as int;
        assert(m.ids[key_place(m.ids, id)].1.0 < m.symbols.len());
        let data = SymbolData { decls: m.symbols[k].decls.push(range), ..m.symbols[k] };
        assert forall|r: SourceRange| #[trigger] m.symbols[k].decls.contains(r) implies data.decls.contains(
            r,
        ) by {
            assert(data.decls[m.symbols[k].decls.index_of(r)] == r);
        }
        lemma_changed(m, k, data);
        assert(data.decls[m.symbols[k].decls.len() as int] == range);
    } else {
        let p = m.ids.len() as int;
        assert(after.ids[p] == (id, SymbolId(m.symbols.len() as usize)));
        assert forall|i: int, j: int| 0 <= i < j < after.ids.len() implies (
        #[trigger] after.ids[i]).0 != (#[trigger] after.ids[j]).0 by {
            assert(after.ids[i] == m.ids[i]);
            if j < p {
                assert(after.ids[j] == m.ids[j]);
            }
        }
        assert forall|i: int| 0 <= i < after.ids.len() implies (#[trigger] after.ids[i]).1.0
            < after.symbols.len() by {
            if i < p {
                assert(after.ids[i] == m.ids[i]);
            }
        }
        assert forall|other: (Seq<char>, u32)| #[trigger] has_key(m.ids, other) implies has_key(
            after.ids,
            other,
        ) && symbol_for(after, other) == symbol_for(m, other) by {
            lemma_key_place(m.ids, other);
            let q = key_place(m.ids, other);
            assert(after.ids[q] == m.ids[q]);
            lemma_key_place_is(after.ids, q);
        }
        lemma_key_place_is(after.ids, p);
        assert(after.symbols[m.symbols.len() as int].decls[0] == range);
    }
}

proof fn lemma_exported(m: Symbols, id: (Seq<char>, u32))
    requires
        ids_valid(m),
    ensures
        ids_valid(exported(m, id)),
        keeps(m, exported(m, id)),
        has_key(exported(m, id).exports, id.0),
{
    let after = exported(m, id);
    lemma_key_place(m.exports, id.0);
    lemma_key_place(after.exports, id.0);
    let p = if has_key(m.exports, id.0) {
        key_place(m.exports, id.0)
    } else {
        m.exports.len() as int
    };
    assert(after.exports[p].0 == id.0);
    assert forall|name: Seq<char>| #[trigger] has_key(m.exports, name) implies has_key(
        after.exports,
        name,
    ) by {
        lemma_key_place(m.exports, name);
        lemma_key_place(after.exports, name);
        let q = key_place(m.exports, name);
        assert(after.exports[q].0 == name);
    }
}

proof fn lemma_with_deps(m: Symbols, id: (Seq<char>, u32), deps: Set<(Seq<char>, u32)>)
    requires
        ids_valid(m),
        has_key(m.ids, id),
    ensures
        ids_valid(with_deps(m, id, deps)),
        keeps(m, with_deps(m, id, deps)),
        deps.subset_of(
            with_deps(m, id, deps).symbols[symbol_for(m, id).0 as int].deps,
        ),
        symbol_for(with_deps(m, id, deps), id) == symbol_for(m, id),
{
    lemma_key_place(m.ids, id);
    let k = symbol_for(m, id).0 as int;
    assert(m.ids[key_place(m.ids, id)].1.0 < m.symbols.len());
    lemma_changed(
        m,
        k,
        SymbolData { deps: m.symbols[k].deps.union(deps), ..m.symbols[k] },
    );
}

proof fn lemma_with_file_dep(m: Symbols, id: (Seq<char>, u32), dep: Dep)
    requires
        ids_valid(m),
        has_key(m.ids, id),
    ensures
        ids_valid(with_file_dep(m, id, dep)),
        keeps(m, with_file_dep(m, id, dep)),
        with_file_dep(m, id, dep).symbols[symbol_for(m, id).0 as int].file_dep == Some(dep),
        symbol_for(with_file_dep(m, id, dep), id) == symbol_for(m, id),
{
    lemma_key_place(m.ids, id);
    let k = symbol_for(m, id).0 as int;
    assert(m.ids[key_place(m.ids, id)].1.0 < m.symbols.len());
    lemma_changed(m, k, SymbolData { file_dep: Some(dep), ..m.symbols[k] });
}

/// Whether a declaration of an identifier is known: where it stands, what it depends on,
/// and whether it is exported.
pub open spec fn is_known(
    m: Symbols,
    id: (Seq<char>, u32),
    range: SourceRange,
    deps: Set<(Seq<char>, u32)>,
    is_export: bool,
) -> bool {
    let symbol = m.symbols[symbol_for(m, id).0 as int];
    &&& has_key(m.ids, id)
    &&& symbol_for(m, id).0 < m.symbols.len()
    &&& symbol.decls.contains(range)
    &&& deps.subset_of(symbol.deps)
    &&& is_export ==> has_key(m.exports, id.0)
}

proof fn lemma_stays_known(
    a: Symbols,
    b: Symbols,
    id: (Seq<char>, u32),
    range: SourceRange,
    deps: Set<(Seq<char>, u32)>,
    is_export: bool,
)
    requires
        is_known(a, id, range, deps, is_export),
        keeps(a, b),
    ensures
        is_known(b, id, range, deps, is_export),
{
    let k = symbol_for(a, id).0 as int;
    assert(tells_more(a.symbols[k], b.symbols[k]));
}

proof fn lemma_declared(
    m: Symbols,
    id: (Seq<char>, u32),
    range: SourceRange,
    is_export: bool,
    deps: Set<(Seq<char>, u32)>,
)
    requires
        ids_valid(m),
    ensures
        ids_valid(declared(m, id, range, is_export, deps)),
        keeps(m, declared(m, id, range, is_export, deps)),
        m.symbols.len() <= usize::MAX ==> is_known(declared(m, id, range, is_export, deps), id, range, deps, is_export),
{
    let a = ensured(m, id, range);
    lemma_ensured(m, id, range);
    lemma_exported(a, id);
    let b = if is_export {
        exported(a, id)
    } else {
        a
    };
    lemma_keeps_on(m, a, b);
    lemma_with_deps(b, id, deps);
    let c = with_deps(b, id, deps);
    lemma_keeps_on(m, b, c);
    let k = symbol_for(a, id).0 as int;
    lemma_key_place(c.ids, id);
    assert(tells_more(a.symbols[k], b.symbols[k]));
    assert(tells_more(b.symbols[k], c.symbols[k]));
    assert(c.ids[key_place(c.ids, id)].1.0 < c.symbols.len());
}

proof fn lemma_ids_declared(
    m: Symbols,
    ids: Seq<(Seq<char>, u32)>,
    n: nat,
    range: SourceRange,
    is_export: bool,
    deps: Set<(Seq<char>, u32)>,
)
    requires
        ids_valid(m),
        n <= ids.len(),
    ensures
        ids_valid(ids_declared(m, ids, n, range, is_export, deps)),
        keeps(m, ids_declared(m, ids, n, range, is_export, deps)),
        ids_declared(m, ids, n, range, is_export, deps).symbols.len() <= usize::MAX ==> forall|
            i: int,
        |
            0 <= i < n ==> is_known(
                ids_declared(m, ids, n, range, is_export, deps),
                #[trigger] ids[i],
                range,
                deps,
                is_export,
            ),
    decreases n,
{
    if n == 0 {
        lemma_keeps_self(m);
    } else {
        let before = ids_declared(m, ids, (n - 1) as nat, range, is_export, deps);
        let after = ids_declared(m, ids, n, range, is_export, deps);
        lemma_ids_declared(m, ids, (n - 1) as nat, range, is_export, deps);
        lemma_declared(before, ids[n - 1], range, is_export, deps);
        lemma_keeps_on(m, before, after);
        assert forall|i: int|
            0 <= i < n && after.symbols.len() <= usize::MAX implies is_known(
            after,
            #[trigger] ids[i],
            range,
            deps,
            is_export,
        ) by {
            if i < n - 1 {
                lemma_stays_known(before, after, ids[i], range, deps, is_export);
            }
        }
    }
}

/// Whether what the variables of a declarator depend on is known.
pub open spec fn variables_known(m: Symbols, t: Tree, is_export: bool) -> bool {
    has_part(t, Role::Name) ==> forall|i: int|
        0 <= i < pat_ids(child(t, Role::Name)).len() ==> is_known(
            m,
            #[trigger] pat_ids(child(t, Role::Name))[i],
            range_of(t),
            declarator_deps(t),
            is_export,
        )
}

proof fn lemma_declarators(m: Symbols, s: Seq<Tree>, n: nat, is_export: bool)
    requires
        ids_valid(m),
        n <= s.len(),
    ensures
        ids_valid(declarators_declared(m, s, n, is_export)),
        keeps(m, declarators_declared(m, s, n, is_export)),
        declarators_declared(m, s, n, is_export).symbols.len() <= usize::MAX ==> forall|j: int|
            0 <= j < n ==> variables_known(
                declarators_declared(m, s, n, is_export),
                #[trigger] s[j],
                is_export,
            ),
    decreases n,
{
    if n == 0 {
        lemma_keeps_self(m);
    } else {
        let before = declarators_declared(m, s, (n - 1) as nat, is_export);
        let after = declarators_declared(m, s, n, is_export);
        let t = s[n - 1];
        if has_part(t, Role::Name) {
            let ids = pat_ids(child(t, Role::Name));
            lemma_declarators(m, s, (n - 1) as nat, is_export);
            lemma_ids_declared(
                before,
                ids,
                ids.len(),
                range_of(t),
                is_export,
                declarator_deps(t),
            );
        } else {
            lemma_declarators(m, s, (n - 1) as nat, is_export);
            lemma_keeps_self(before);
        }
        lemma_keeps_on(m, before, after);
        assert forall|j: int|
            0 <= j < n && after.symbols.len() <= usize::MAX implies variables_known(
            after,
            #[trigger] s[j],
            is_export,
        ) by {
            if j < n - 1 && has_part(s[j], Role::Name) {
                let ids = pat_ids(child(s[j], Role::Name));
                assert forall|i: int| 0 <= i < ids.len() implies is_known(
                    after,
                    #[trigger] ids[i],
                    range_of(s[j]),
                    declarator_deps(s[j]),
                    is_export,
                ) by {
                    assert(variables_known(before, s[j], is_export));
                    lemma_stays_known(
                        before,
                        after,
                        ids[i],
                        range_of(s[j]),
                        declarator_deps(s[j]),
                        is_export,
                    );
                }
            }
        }
    }
}

/// What a part of an import brings: the symbol of the local name is imported from the
/// module, under the name that it has there, as its default export, or with everything;
/// or it depends on the one that is.
pub open spec fn is_brought(m: Symbols, t: Tree, specifier: Seq<char>) -> bool {
    let local = id_of(child(t, Role::Local));
    let symbol = m.symbols[symbol_for(m, local).0 as int];
    &&& has_key(m.ids, local)
    &&& t.kind == Kind::ImportDefault ==> symbol.file_dep == Some(
        Dep { name: Some("default"@), specifier },
    )
    &&& t.kind == Kind::ImportNamespace ==> symbol.file_dep == Some(Dep { name: None, specifier })
    &&& t.kind == Kind::ImportNamed && !has_part(t, Role::Imported) ==> symbol.file_dep == Some(
        Dep { name: Some(local.0), specifier },
    )
    &&& t.kind == Kind::ImportNamed && has_part(t, Role::Imported) ==> {
        let other = id_of(child(t, Role::Imported));
        &&& symbol.deps.contains(other)
        &&& has_key(m.ids, other)
        &&& m.symbols[symbol_for(m, other).0 as int].file_dep == Some(
            Dep { name: Some(other.0), specifier },
        )
    }
}

proof fn lemma_imported(
    m: Symbols,
    id: (Seq<char>, u32),
    range: SourceRange,
    name: Option<Seq<char>>,
    specifier: Seq<char>,
)
    requires
        ids_valid(m),
    ensures
        ({
            let after = imported(m, id, range, name, specifier);
            &&& ids_valid(after)
            &&& keeps(m, after)
            &&& has_key(after.ids, id)
            &&& after.symbols[symbol_for(after, id).0 as int].file_dep == Some(
                Dep { name, specifier },
            )
        }),
{
    let a = ensured(m, id, range);
    lemma_ensured(m, id, range);
    lemma_with_file_dep(a, id, Dep { name, specifier });
    lemma_keeps_on(m, a, imported(m, id, range, name, specifier));
}

/// What an import brings is known, whichever module it names and under whichever name.
pub proof fn law_imports_are_known(m: Symbols, t: Tree, specifier: Seq<char>)
    requires
        ids_valid(m),
        has_part(t, Role::Local),
        t.kind == Kind::ImportNamed || t.kind == Kind::ImportDefault || t.kind
            == Kind::ImportNamespace,
    ensures
        ids_valid(import_part_declared(m, t, specifier)),
        keeps(m, import_part_declared(m, t, specifier)),
        is_brought(import_part_declared(m, t, specifier), t, specifier),
{
    let local = child(t, Role::Local);
    let after = import_part_declared(m, t, specifier);
    if t.kind == Kind::ImportNamed && has_part(t, Role::Imported) {
        let name = child(t, Role::Imported);
        let a = ensured(m, id_of(local), range_of(t));
        let only = Set::empty().insert(id_of(name));
        let b = with_deps(a, id_of(local), only);
        lemma_ensured(m, id_of(local), range_of(t));
        lemma_with_deps(a, id_of(local), only);
        lemma_keeps_on(m, a, b);
        lemma_imported(b, id_of(name), range_of(name), Some(name.text), specifier);
        lemma_keeps_on(m, b, after);
        let k = symbol_for(b, id_of(local)).0 as int;
        lemma_key_place(b.ids, id_of(local));
        assert(b.ids[key_place(b.ids, id_of(local))].1.0 < b.symbols.len());
        assert(only.contains(id_of(name)));
        assert(b.symbols[k].deps.contains(id_of(name)));
        assert(tells_more(b.symbols[k], after.symbols[k]));
    } else if t.kind == Kind::ImportNamed {
        lemma_imported(m, id_of(local), range_of(t), Some(local.text), specifier);
    } else if t.kind == Kind::ImportDefault {
        lemma_imported(m, id_of(local), range_of(t), Some("default"@), specifier);
    } else {
        lemma_imported(m, id_of(local), range_of(t), None, specifier);
    }
}

proof fn lemma_import(m: Symbols, s: Seq<Tree>, n: nat, specifier: Seq<char>)
    requires
        ids_valid(m),
        n <= s.len(),
    ensures
        ids_valid(import_declared(m, s, n, specifier)),
        keeps(m, import_declared(m, s, n, specifier)),
    decreases n,
{
    if n == 0 {
        lemma_keeps_self(m);
    } else {
        let before = import_declared(m, s, (n - 1) as nat, specifier);
        let after = import_declared(m, s, n, specifier);
        lemma_import(m, s, (n - 1) as nat, specifier);
        let t = s[n - 1];
        if has_part(t, Role::Local) && (t.kind == Kind::ImportNamed || t.kind
            == Kind::ImportDefault || t.kind == Kind::ImportNamespace) {
            law_imports_are_known(before, t, specifier);
        } else {
            lemma_keeps_self(before);
        }
        lemma_keeps_on(m, before, after);
    }
}

/// The declaration of an item, and whether it is exported.
pub open spec fn declaration_of(t: Tree) -> Tree {
    if t.kind == Kind::ExportDecl {
        child(t, Role::Decl)
    } else {
        t
    }
}

/// Whether an item declares something by its one name: a class, a function, an interface,
/// a type, an enum or a namespace.
pub open spec fn declares_one(t: Tree) -> bool {
    let decl = declaration_of(t);
    &&& t.kind == Kind::ExportDecl ==> has_part(t, Role::Decl)
    &&& decl.kind == Kind::ClassDecl || decl.kind == Kind::FnDecl || decl.kind
        == Kind::TsInterfaceDecl || decl.kind == Kind::TsTypeAliasDecl || decl.kind
        == Kind::TsEnumDecl || decl.kind == Kind::TsModuleDecl
    &&& has_part(decl, Role::Name)
}

proof fn lemma_item(m: Symbols, t: Tree)
    requires
        ids_valid(m),
    ensures
        ids_valid(item_declared(m, t)),
        keeps(m, item_declared(m, t)),
        item_declared(m, t).symbols.len() <= usize::MAX && declares_one(t) && t.kind != Kind::ImportDecl ==> is_known(
            item_declared(m, t),
            id_of(child(declaration_of(t), Role::Name)),
            range_of(t),
            decl_deps(declaration_of(t)),
            t.kind == Kind::ExportDecl,
        ),
        item_declared(m, t).symbols.len() <= usize::MAX && declaration_of(t).kind == Kind::VarDecl
            && (t.kind == Kind::ExportDecl ==> has_part(t, Role::Decl)) ==> forall|j: int|
            0 <= j < declaration_of(t).children.len() ==> variables_known(
                item_declared(m, t),
                #[trigger] declaration_of(t).children[j],
                t.kind == Kind::ExportDecl,
            ),
{
    let decl = declaration_of(t);
    let is_export = t.kind == Kind::ExportDecl;
    lemma_keeps_self(m);
    if t.kind == Kind::ImportDecl {
        if has_part(t, Role::Source) {
            lemma_import(m, t.children, t.children.len(), child(t, Role::Source).text);
        }
    } else if !is_export || has_part(t, Role::Decl) {
        if has_one_name(decl.kind) && has_part(decl, Role::Name) {
            lemma_declared(
                m,
                id_of(child(decl, Role::Name)),
                range_of(t),
                is_export,
                decl_deps(decl),
            );
        } else if decl.kind == Kind::VarDecl {
            lemma_declarators(m, decl.children, decl.children.len(), is_export);
        }
    }
}

proof fn lemma_items(m: Symbols, items: Seq<Tree>, n: nat)
    requires
        ids_valid(m),
        n <= items.len(),
    ensures
        ids_valid(items_declared(m, items, n)),
        keeps(m, items_declared(m, items, n)),
    decreases n,
{
    if n == 0 {
        lemma_keeps_self(m);
    } else {
        let before = items_declared(m, items, (n - 1) as nat);
        lemma_items(m, items, (n - 1) as nat);
        lemma_item(before, items[n - 1]);
        lemma_keeps_on(m, before, items_declared(m, items, n));
    }
}

/// From some item on, to the end.
proof fn lemma_items_later(m: Symbols, items: Seq<Tree>, i: nat, n: nat)
    requires
        ids_valid(m),
        i <= n <= items.len(),
    ensures
        keeps(items_declared(m, items, i), items_declared(m, items, n)),
    decreases n,
{
    if i == n {
        lemma_keeps_self(items_declared(m, items, n));
    } else {
        let before = items_declared(m, items, (n - 1) as nat);
        lemma_items(m, items, (n - 1) as nat);
        lemma_items_later(m, items, i, (n - 1) as nat);
        lemma_item(before, items[n - 1]);
        lemma_keeps_on(items_declared(m, items, i), before, items_declared(m, items, n));
    }
}

proof fn lemma_no_symbols()
    ensures
        ids_valid(no_symbols()),
{
}

/// Every declaration of a module has its symbol: the symbol knows where it stands and
/// whatever it depends on, and what is declared with `export` is exported.
pub proof fn law_every_declaration_has_its_symbol(module: Tree, i: int)
    requires
        0 <= i < module.children.len(),
        declares_one(module.children[i]),
        module.children[i].kind != Kind::ImportDecl,
        module_symbols(module).symbols.len() <= usize::MAX,
    ensures
        is_known(
            module_symbols(module),
            id_of(child(declaration_of(module.children[i]), Role::Name)),
            range_of(module.children[i]),
            decl_deps(declaration_of(module.children[i])),
            module.children[i].kind == Kind::ExportDecl,
        ),
{
    let items = module.children;
    let m = no_symbols();
    let t = items[i];
    let decl = declaration_of(t);
    lemma_no_symbols();
    lemma_items_later(m, items, i as nat, items.len());
    lemma_items_later(m, items, (i + 1) as nat, items.len());
    lemma_items(m, items, i as nat);
    lemma_item(items_declared(m, items, i as nat), t);
    lemma_stays_known(
        items_declared(m, items, (i + 1) as nat),
        module_symbols(module),
        id_of(child(decl, Role::Name)),
        range_of(t),
        decl_deps(decl),
        t.kind == Kind::ExportDecl,
    );
}

/// Every variable of a module has its symbol too.
pub proof fn law_every_variable_has_its_symbol(module: Tree, i: int, j: int, k: int)
    requires
        0 <= i < module.children.len(),
        declaration_of(module.children[i]).kind == Kind::VarDecl,
        module.children[i].kind == Kind::ExportDecl ==> has_part(
            module.children[i],
            Role::Decl,
        ),
        0 <= j < declaration_of(module.children[i]).children.len(),
        has_part(declaration_of(module.children[i]).children[j], Role::Name),
        0 <= k < pat_ids(
            child(declaration_of(module.children[i]).children[j], Role::Name),
        ).len(),
        module_symbols(module).symbols.len() <= usize::MAX,
    ensures
        ({
            let declarator = declaration_of(module.children[i]).children[j];
            is_known(
                module_symbols(module),
                pat_ids(child(declarator, Role::Name))[k],
                range_of(declarator),
                declarator_deps(declarator),
                module.children[i].kind == Kind::ExportDecl,
            )
        }),
{
    let items = module.children;
    let m = no_symbols();
    let t = items[i];
    let d = declaration_of(t).children[j];
    lemma_no_symbols();
    lemma_items_later(m, items, i as nat, items.len());
    lemma_items_later(m, items, (i + 1) as nat, items.len());
    lemma_items(m, items, i as nat);
    lemma_item(items_declared(m, items, i as nat), t);
    assert(variables_known(
        items_declared(m, items, (i + 1) as nat),
        d,
        t.kind == Kind::ExportDecl,
    ));
    lemma_stays_known(
        items_declared(m, items, (i + 1) as nat),
        module_symbols(module),
        pat_ids(child(d, Role::Name))[k],
        range_of(d),
        declarator_deps(d),
        t.kind == Kind::ExportDecl,
    );
}

/// The symbol of a function, a class or a type depends on every identifier by which a
/// type is written in what others see of its declaration.
pub proof fn law_symbols_depend_on_written_types(
    module: Tree,
    i: int,
    a: Tree,
    id: (Seq<char>, u32),
)
    requires
        0 <= i < module.children.len(),
        declares_one(module.children[i]),
        module.children[i].kind != Kind::ImportDecl,
        module_symbols(module).symbols.len() <= usize::MAX,
        decl_supported(declaration_of(module.children[i])),
        anns_fit(declaration_of(module.children[i])),
        is_written_in(declaration_of(module.children[i]), a),
        is_type_syntax(a),
        refers_to(a, id),
    ensures
        ({
            let m = module_symbols(module);
            let name = id_of(child(declaration_of(module.children[i]), Role::Name));
            m.symbols[symbol_for(m, name).0 as int].deps.contains(id)
        }),
{
    law_every_declaration_has_its_symbol(module, i);
    law_written_types_are_depended_on(declaration_of(module.children[i]), a, id);
}

/// Whether a path leads to a name in an expression.
pub open spec fn is_name_at(t: Tree, path: Seq<int>, id: (Seq<char>, u32)) -> bool {
    let n = node_at(t, path);
    &&& is_path(t, path)
    &&& n.kind == Kind::Ident || n.kind == Kind::IdentExpr || n.kind == Kind::EntityName
    &&& id_of(n) == id
}

proof fn lemma_name_at(t: Tree, path: Seq<int>, id: (Seq<char>, u32))
    requires
        is_name_at(t, path, id),
    ensures
        expr_mentions(t, id),
    decreases path.len(),
{
    if path.len() > 0 {
        assert(is_name_at(t.children[path[0]], path.skip(1), id));
        lemma_name_at(t.children[path[0]], path.skip(1), id);
    }
}

/// Whether an expression is part of what is declared: the value of an enum's member, what
/// a class extends or implements.
pub open spec fn is_value_in(t: Tree, e: Tree) -> bool {
    let class = child(t, Role::Class);
    match t.kind {
        Kind::TsEnumDecl => exists|i: int|
            0 <= i < t.children.len() && has_part(#[trigger] t.children[i], Role::Init) && e
                == child(t.children[i], Role::Init),
        Kind::ClassDecl => has_part(t, Role::Class) && {
            ||| has_part(class, Role::SuperClass) && e == child(class, Role::SuperClass)
            ||| exists|i: int|
                0 <= i < class.children.len() && (#[trigger] class.children[i]).role
                    == Role::Implements && has_part(class.children[i], Role::Expr) && e == child(
                    class.children[i],
                    Role::Expr,
                )
        },
        _ => false,
    }
}

/// What a declaration depends on holds every name that stands, at whatever depth, in the
/// values of an enum and in what a class extends or implements.
pub proof fn law_names_in_values_are_depended_on(
    t: Tree,
    e: Tree,
    path: Seq<int>,
    id: (Seq<char>, u32),
)
    requires
        is_value_in(t, e),
        is_name_at(e, path, id),
    ensures
        decl_deps(t).contains(id),
{
    lemma_name_at(e, path, id);
    if t.kind == Kind::TsEnumDecl {
        let i = choose|i: int|
            0 <= i < t.children.len() && has_part(#[trigger] t.children[i], Role::Init) && e
                == child(t.children[i], Role::Init);
        assert(super::binder::own_expr_mentions(t.children[i], Role::Init, id));
    } else {
        let class = child(t, Role::Class);
        if !(has_part(class, Role::SuperClass) && e == child(class, Role::SuperClass)) {
            let i = choose|i: int|
                0 <= i < class.children.len() && (#[trigger] class.children[i]).role
                    == Role::Implements && has_part(class.children[i], Role::Expr) && e == child(
                    class.children[i],
                    Role::Expr,
                );
            assert(heritage_mentions(class.children[i], id));
            assert(class_part_mentions(class.children[i], id));
        }
    }
}

/// What a variable depends on holds every name that stands, at whatever depth, in its
/// value.
pub proof fn law_names_in_values_of_variables_are_depended_on(
    t: Tree,
    path: Seq<int>,
    id: (Seq<char>, u32),
)
    requires
        has_part(t, Role::Init),
        is_name_at(child(t, Role::Init), path, id),
    ensures
        declarator_deps(t).contains(id),
{
    lemma_name_at(child(t, Role::Init), path, id);
}

/// Whether an identifier stands somewhere in a tree.
pub open spec fn stands_in(t: Tree, id: (Seq<char>, u32)) -> bool
    decreases t,
{
    id_of(t) == id || exists|i: int|
        0 <= i < t.children.len() && stands_in(#[trigger] t.children[i], id)
}

/// Whether an identifier stands in one of the parts with the role.
pub open spec fn stands_at(t: Tree, role: Role, id: (Seq<char>, u32)) -> bool {
    exists|i: int|
        0 <= i < t.children.len() && (#[trigger] t.children[i]).role == role && stands_in(
            t.children[i],
            id,
        )
}

proof fn lemma_stands_at(t: Tree, role: Role, id: (Seq<char>, u32))
    requires
        has_part(t, role),
        stands_in(child(t, role), id),
    ensures
        stands_at(t, role, id),
        stands_in(t, id),
{
    lemma_place(t, role);
    assert(stands_in(t.children[place(t, role)], id));
}

proof fn lemma_type_stands(t: Tree, id: (Seq<char>, u32))
    requires
        type_mentions(t, id),
    ensures
        stands_in(t, id),
    decreases t, 0nat,
{
    lemma_place(t, Role::TypeName);
    lemma_place(t, Role::TypeArgs);
    if t.kind == Kind::TsTypeRef {
        if has_part(t, Role::TypeName) && id_of(child(t, Role::TypeName)) == id {
            assert(stands_in(child(t, Role::TypeName), id));
            lemma_stands_at(t, Role::TypeName, id);
        } else {
            lemma_types_stand(t.children[place(t, Role::TypeArgs)], id);
            lemma_stands_at(t, Role::TypeArgs, id);
        }
    } else {
        let i = choose|i: int|
            0 <= i < t.children.len() && type_mentions(#[trigger] t.children[i], id);
        lemma_type_stands(t.children[i], id);
    }
}

proof fn lemma_types_stand(t: Tree, id: (Seq<char>, u32))
    requires
        types_mention(t, id),
    ensures
        stands_in(t, id),
    decreases t, 1nat,
{
    let i = choose|i: int| 0 <= i < t.children.len() && type_mentions(#[trigger] t.children[i], id);
    lemma_type_stands(t.children[i], id);
}

proof fn lemma_expr_stands(t: Tree, id: (Seq<char>, u32))
    requires
        expr_mentions(t, id),
    ensures
        stands_in(t, id),
    decreases t,
{
    if !(is_name(t) && id_of(t) == id) {
        let i = choose|i: int|
            0 <= i < t.children.len() && expr_mentions(#[trigger] t.children[i], id);
        lemma_expr_stands(t.children[i], id);
    }
}

proof fn lemma_ann_stands(t: Tree, role: Role, id: (Seq<char>, u32))
    requires
        own_ann_mentions(t, role, id),
        own_ann_supported(t, role),
    ensures
        stands_at(t, role, id),
        stands_in(t, id),
{
    let ann = child(t, role);
    lemma_type_stands(child(ann, Role::Type), id);
    lemma_stands_at(ann, Role::Type, id);
    lemma_stands_at(t, role, id);
}

proof fn lemma_params_stand(t: Tree, id: (Seq<char>, u32))
    requires
        params_mention(t, id),
        params_supported(t),
    ensures
        stands_at(t, Role::Param, id),
{
    let i = choose|i: int| 0 <= i < t.children.len() && param_mentions(#[trigger] t.children[i], id);
    let param = t.children[i];
    assert(param_supported(param));
    let pattern = child(param, Role::Pattern);
    if super::binder::can_be_typed(pattern.kind) {
        if own_ann_mentions(pattern, Role::TypeAnn, id) {
            lemma_ann_stands(pattern, Role::TypeAnn, id);
        } else {
            let left = child(pattern, Role::Left);
            lemma_expr_stands(child(left, Role::TypeAnn), id);
            lemma_stands_at(left, Role::TypeAnn, id);
            lemma_stands_at(pattern, Role::Left, id);
        }
    } else {
        lemma_expr_stands(pattern, id);
    }
    lemma_stands_at(param, Role::Pattern, id);
}

proof fn lemma_type_params_stand(t: Tree, id: (Seq<char>, u32))
    requires
        type_params_mention(t, id),
    ensures
        stands_at(t, Role::TypeParams, id),
{
    let list = child(t, Role::TypeParams);
    let i = choose|i: int|
        0 <= i < list.children.len() && type_param_mentions(#[trigger] list.children[i], id);
    let param = list.children[i];
    if own_type_mentions(param, Role::Constraint, id) {
        lemma_type_stands(child(param, Role::Constraint), id);
        lemma_stands_at(param, Role::Constraint, id);
    } else {
        lemma_type_stands(child(param, Role::Default), id);
        lemma_stands_at(param, Role::Default, id);
    }
    assert(stands_in(list.children[i], id));
    lemma_stands_at(t, Role::TypeParams, id);
}

/// Whether an identifier stands in the signature of a function: not in its body.
pub open spec fn stands_in_signature(t: Tree, id: (Seq<char>, u32)) -> bool {
    stands_at(t, Role::TypeParams, id) || stands_at(t, Role::Param, id) || stands_at(
        t,
        Role::ReturnType,
        id,
    )
}

proof fn lemma_signature_stands(t: Tree, id: (Seq<char>, u32))
    requires
        function_mentions(t, id),
        function_supported(t),
    ensures
        stands_in_signature(t, id),
{
    if type_params_mention(t, id) {
        lemma_type_params_stand(t, id);
    } else if params_mention(t, id) {
        lemma_params_stand(t, id);
    } else {
        lemma_ann_stands(t, Role::ReturnType, id);
    }
}

/// Whether an identifier stands in what others see of a member: not in the body of a
/// method or constructor, nor in the value of a property, nor in a private member.
pub open spec fn stands_in_member(t: Tree, id: (Seq<char>, u32)) -> bool {
    match t.kind {
        Kind::Constructor => stands_at(t, Role::Param, id),
        Kind::ClassMethod => has_part(t, Role::Function) && stands_in_signature(
            child(t, Role::Function),
            id,
        ),
        Kind::ClassProp => stands_at(t, Role::TypeAnn, id),
        _ => false,
    }
}

/// Whether an identifier stands in what others see of a class.
pub open spec fn stands_in_class(t: Tree, id: (Seq<char>, u32)) -> bool {
    ||| stands_at(t, Role::TypeParams, id) || stands_at(t, Role::SuperClass, id)
    ||| stands_at(t, Role::SuperTypeArgs, id) || stands_at(t, Role::Implements, id)
    ||| exists|i: int|
        0 <= i < t.children.len() && (#[trigger] t.children[i]).role == Role::Member
            && stands_in_member(t.children[i], id)
}

/// A function and a class depend on nothing but what stands in what others see of them:
/// what bodies, values and private members mention does not count.
pub proof fn law_only_what_is_seen_is_depended_on(t: Tree, id: (Seq<char>, u32))
    requires
        decl_supported(t),
        decl_deps(t).contains(id),
    ensures
        t.kind == Kind::FnDecl ==> has_part(t, Role::Function) && stands_in_signature(
            child(t, Role::Function),
            id,
        ),
        t.kind == Kind::ClassDecl ==> has_part(t, Role::Class) && stands_in_class(
            child(t, Role::Class),
            id,
        ),
        t.kind == Kind::TsTypeAliasDecl ==> stands_in(t, id),
{
    if t.kind == Kind::FnDecl {
        lemma_signature_stands(child(t, Role::Function), id);
    } else if t.kind == Kind::ClassDecl {
        lemma_class_stands(child(t, Role::Class), id);
    } else if t.kind == Kind::TsTypeAliasDecl {
        if type_params_mention(t, id) {
            lemma_type_params_stand(t, id);
            let i = choose|i: int|
                0 <= i < t.children.len() && (#[trigger] t.children[i]).role == Role::TypeParams
                    && stands_in(t.children[i], id);
            assert(stands_in(t.children[i], id));
        } else {
            lemma_type_stands(child(t, Role::Type), id);
            lemma_stands_at(t, Role::Type, id);
        }
    }
}

proof fn lemma_class_stands(t: Tree, id: (Seq<char>, u32))
    requires
        class_mentions(t, id),
        class_supported(t),
    ensures
        stands_in_class(t, id),
{
    if type_params_mention(t, id) {
        lemma_type_params_stand(t, id);
    } else if has_part(t, Role::SuperClass) && expr_mentions(child(t, Role::SuperClass), id) {
        lemma_expr_stands(child(t, Role::SuperClass), id);
        lemma_stands_at(t, Role::SuperClass, id);
    } else if has_part(t, Role::SuperTypeArgs) && types_mention(
        child(t, Role::SuperTypeArgs),
        id,
    ) {
        lemma_types_stand(child(t, Role::SuperTypeArgs), id);
        lemma_stands_at(t, Role::SuperTypeArgs, id);
    } else {
        let i = choose|i: int|
            0 <= i < t.children.len() && class_part_mentions(#[trigger] t.children[i], id);
        let c = t.children[i];
        assert(class_part_supported(c));
        if c.role == Role::Implements && heritage_mentions(c, id) {
            if has_part(c, Role::TypeArgs) && types_mention(child(c, Role::TypeArgs), id) {
                lemma_types_stand(child(c, Role::TypeArgs), id);
                lemma_stands_at(c, Role::TypeArgs, id);
            } else {
                lemma_expr_stands(child(c, Role::Expr), id);
                lemma_stands_at(c, Role::Expr, id);
            }
            assert(stands_at(t, Role::Implements, id));
        } else {
            match c.kind {
                Kind::Constructor => {
                    lemma_params_stand(c, id);
                },
                Kind::ClassMethod => {
                    lemma_signature_stands(child(c, Role::Function), id);
                },
                _ => {
                    lemma_ann_stands(c, Role::TypeAnn, id);
                },
            }
            assert(stands_in_member(c, id));
        }
    }
}

/// Whether a name that is imported is known to be: its symbol is imported, or depends on
/// one that is.
pub open spec fn is_known_import(m: Symbols, t: Tree) -> bool {
    let local = id_of(child(t, Role::Local));
    let symbol = m.symbols[symbol_for(m, local).0 as int];
    let other = id_of(child(t, Role::Imported));
    &&& has_key(m.ids, local)
    &&& symbol_for(m, local).0 < m.symbols.len()
    &&& if t.kind == Kind::ImportNamed && has_part(t, Role::Imported) {
        &&& symbol.deps.contains(other)
        &&& has_key(m.ids, other)
        &&& symbol_for(m, other).0 < m.symbols.len()
        &&& m.symbols[symbol_for(m, other).0 as int].file_dep is Some
    } else {
        symbol.file_dep is Some
    }
}

proof fn lemma_known_import_kept(a: Symbols, b: Symbols, t: Tree)
    requires
        is_known_import(a, t),
        keeps(a, b),
    ensures
        is_known_import(b, t),
{
    let k = symbol_for(a, id_of(child(t, Role::Local))).0 as int;
    assert(tells_more(a.symbols[k], b.symbols[k]));
    if t.kind == Kind::ImportNamed && has_part(t, Role::Imported) {
        let l = symbol_for(a, id_of(child(t, Role::Imported))).0 as int;
        assert(tells_more(a.symbols[l], b.symbols[l]));
    }
}

proof fn lemma_import_parts(m: Symbols, s: Seq<Tree>, n: nat, specifier: Seq<char>, j: int)
    requires
        ids_valid(m),
        0 <= j < n <= s.len(),
        has_part(s[j], Role::Local),
        s[j].kind == Kind::ImportNamed || s[j].kind == Kind::ImportDefault || s[j].kind
            == Kind::ImportNamespace,
    ensures
        is_known_import(import_declared(m, s, n, specifier), s[j]),
    decreases n,
{
    let before = import_declared(m, s, (n - 1) as nat, specifier);
    let after = import_declared(m, s, n, specifier);
    let t = s[n - 1];
    lemma_import(m, s, (n - 1) as nat, specifier);
    if has_part(t, Role::Local) && (t.kind == Kind::ImportNamed || t.kind == Kind::ImportDefault
        || t.kind == Kind::ImportNamespace) {
        law_imports_are_known(before, t, specifier);
    } else {
        lemma_keeps_self(before);
    }
    if j < n - 1 {
        lemma_import_parts(m, s, (n - 1) as nat, specifier, j);
        lemma_known_import_kept(before, after, s[j]);
    } else {
        let local = id_of(child(t, Role::Local));
        lemma_key_place(after.ids, local);
        assert(after.ids[key_place(after.ids, local)].1.0 < after.symbols.len());
        if t.kind == Kind::ImportNamed && has_part(t, Role::Imported) {
            let other = id_of(child(t, Role::Imported));
            lemma_key_place(after.ids, other);
            assert(after.ids[key_place(after.ids, other)].1.0 < after.symbols.len());
        }
    }
}

/// Every name that a module imports has its symbol, which is known to be imported.
pub proof fn law_every_import_has_its_symbol(module: Tree, i: int, j: int)
    requires
        0 <= i < module.children.len(),
        module.children[i].kind == Kind::ImportDecl,
        has_part(module.children[i], Role::Source),
        0 <= j < module.children[i].children.len(),
        has_part(module.children[i].children[j], Role::Local),
        module.children[i].children[j].kind == Kind::ImportNamed
            || module.children[i].children[j].kind == Kind::ImportDefault
            || module.children[i].children[j].kind == Kind::ImportNamespace,
    ensures
        is_known_import(module_symbols(module), module.children[i].children[j]),
{
    let items = module.children;
    let m = no_symbols();
    let t = items[i];
    lemma_no_symbols();
    lemma_items(m, items, i as nat);
    let before = items_declared(m, items, i as nat);
    lemma_import_parts(before, t.children, t.children.len(), child(t, Role::Source).text, j);
    lemma_items_later(m, items, (i + 1) as nat, items.len());
    lemma_known_import_kept(
        items_declared(m, items, (i + 1) as nat),
        module_symbols(module),
        t.children[j],
    );
}

}
