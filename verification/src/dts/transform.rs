//! Turns declarations of a module into those of a declaration file: without
//! bodies, initializers and decorators, and with types.

use vstd::prelude::*;

use crate::collections::{has_key, key_place};
use crate::comments::{is_internal, CommentGroup};
use crate::helpers::{
    binding_tree, const_tree, entity_tree, export_as_tree, keyword_tree, made, name_tree,
    type_ann_tree,
};
use crate::syntax::{
    at, child, has_part, no_span, place, plain, range_of, trees, Access, Flags, Kind, Role,
    SourceRange, Tree,
};
use crate::text::decimal;

verus! {

/// What the transformation of a module goes by.
pub struct Env {
    /// Where the declarations are that are kept. Where this is missing, all are.
    pub ranges: Option<Seq<SourceRange>>,
    /// The leading comments of the module.
    pub comments: Seq<CommentGroup>,
    /// Whether the declarations go into a namespace.
    pub in_namespace: bool,
    /// The modules that the module names, with the numbers of those that are known,
    /// and whether they are on the web.
    pub sources: Seq<(Seq<char>, (Option<usize>, bool))>,
}

/// What a transformation leaves behind besides the tree.
#[verifier::ext_equal]
pub struct State {
    /// How many names of exports of other modules were given.
    pub given: nat,
    /// The items that are put behind the items of the block.
    pub append: Seq<Tree>,
    /// Where functions start whose return type is missing.
    pub missing_types: Seq<u32>,
    /// Whether there was something that cannot be dealt with.
    pub unsupported: bool,
}

/// Whether something is kept: it comes from no source file, or it is one of the
/// declarations that are kept.
#[verifier::opaque]
pub open spec fn is_kept(t: Tree, env: Env) -> bool {
    match env.ranges {
        Some(ranges) => t.span == no_span() || ranges.contains(range_of(t)),
        None => true,
    }
}

/// Whether a return is looked for in a part of a statement.
pub open spec fn is_searched(kind: Kind, role: Role) -> bool {
    match kind {
        Kind::Block => true,
        Kind::Switch => role == Role::Case,
        Kind::SwitchCase => role == Role::Stmt,
        Kind::With
        | Kind::Labeled
        | Kind::While
        | Kind::DoWhile
        | Kind::For
        | Kind::ForIn
        | Kind::ForOf
        | Kind::CatchClause => role == Role::Body,
        Kind::If => role == Role::Consequent || role == Role::Alternate,
        Kind::Try => role == Role::Block || role == Role::Handler || role == Role::Finalizer,
        _ => false,
    }
}

/// The first statement in a statement that returns from the function in which it
/// stands.
pub open spec fn first_return(t: Tree) -> Option<Tree>
    decreases t, 0nat,
{
    if t.kind == Kind::Return {
        Some(t)
    } else {
        first_return_upto(t.kind, t.children, t.children.len())
    }
}

/// The first such statement in the first `n` parts of a statement.
pub open spec fn first_return_upto(kind: Kind, s: Seq<Tree>, n: nat) -> Option<Tree>
    decreases s, n,
{
    if n == 0 || n > s.len() {
        None
    } else {
        match first_return_upto(kind, s, (n - 1) as nat) {
            Some(found) => Some(found),
            None => if is_searched(kind, s[n - 1].role) {
                first_return(s[n - 1])
            } else {
                None
            },
        }
    }
}

/// The first statement by which a function returns.
pub open spec fn function_return(t: Tree) -> Option<Tree> {
    if has_part(t, Role::Body) {
        first_return(child(t, Role::Body))
    } else {
        None
    }
}

/// Whether a function returns something.
pub open spec fn function_returns(t: Tree) -> bool {
    function_return(t) is Some
}

/// `<name><..>`
pub open spec fn type_ref_tree(name: Seq<char>, args: Seq<Tree>) -> Tree {
    made(
        Kind::TsTypeRef,
        seq![
            at(Role::TypeName, entity_tree(name)),
            at(Role::TypeArgs, made(Kind::TsTypeParamInstantiation, args)),
        ],
    )
}

/// The return type of a function for which none is written.
#[verifier::opaque]
pub open spec fn default_return_type(t: Tree) -> Tree {
    let base = if function_returns(t) || t.flags.is_generator || !has_part(t, Role::Body) {
        keyword_tree("unknown"@)
    } else {
        keyword_tree("void"@)
    };
    if t.flags.is_async {
        type_ref_tree("Promise"@, seq![at(Role::Param, base)])
    } else if t.flags.is_generator {
        type_ref_tree(
            "Generator"@,
            seq![
                at(Role::Param, keyword_tree("unknown"@)),
                at(Role::Param, keyword_tree("void"@)),
                at(Role::Param, keyword_tree("unknown"@)),
            ],
        )
    } else {
        base
    }
}

/// The keyword for the type of a literal.
pub open spec fn literal_type(kind: Kind) -> Option<Seq<char>> {
    match kind {
        Kind::Str => Some("string"@),
        Kind::Bool => Some("boolean"@),
        Kind::Null => Some("null"@),
        Kind::Num => Some("number"@),
        Kind::BigInt => Some("bigint"@),
        _ => None,
    }
}

/// Whether an expression says its type itself: `<e> as <type>`.
pub open spec fn says_type(t: Tree) -> bool {
    (t.kind == Kind::TsTypeAssertion || t.kind == Kind::TsAs) && has_part(t, Role::Type)
}

/// The type that can be told of an expression.
pub open spec fn inferred(t: Tree) -> Option<Tree> {
    if says_type(t) {
        Some(child(t, Role::Type))
    } else {
        match literal_type(t.kind) {
            Some(keyword) => Some(keyword_tree(keyword)),
            None => None,
        }
    }
}

/// Whether a member of a class is a signature without a body.
pub open spec fn is_overload(t: Tree) -> bool {
    match t.kind {
        Kind::Constructor => !has_part(t, Role::Body),
        Kind::ClassMethod | Kind::PrivateMethod => has_part(t, Role::Function) && !has_part(
            child(t, Role::Function),
            Role::Body,
        ),
        _ => false,
    }
}

/// Whether the last member among the first `n` parts of a class is a signature
/// without a body.
pub open spec fn after_overload(s: Seq<Tree>, n: nat) -> bool
    decreases n,
{
    if n == 0 {
        false
    } else if s[n - 1].role == Role::Member {
        is_overload(s[n - 1])
    } else {
        after_overload(s, (n - 1) as nat)
    }
}

/// Whether a member of a class stays: it is not private by its name, not marked as
/// internal, and not the implementation behind signatures.
#[verifier::opaque]
pub open spec fn member_stays(s: Seq<Tree>, i: int, env: Env) -> bool {
    let t = s[i];
    &&& t.kind == Kind::Constructor || t.kind == Kind::ClassMethod || t.kind == Kind::ClassProp
        || t.kind == Kind::TsIndexSignature || t.kind == Kind::AutoAccessor
    &&& !is_internal(env.comments, t.span.lo as int)
    &&& is_overload(t) || !after_overload(s, i as nat)
}

/// Whether a class has members that are private by their names.
#[verifier::opaque]
pub open spec fn has_private_names(s: Seq<Tree>) -> bool {
    exists|i: int|
        0 <= i < s.len() && (#[trigger] s[i]).role == Role::Member && (s[i].kind
            == Kind::PrivateProp || s[i].kind == Kind::PrivateMethod)
}

/// `#private;`
#[verifier::opaque]
pub open spec fn private_marker() -> Tree {
    made(
        Kind::PrivateProp,
        seq![
            at(
                Role::Key,
                made(Kind::PrivateName, seq![at(Role::Name, name_tree("private"@))]),
            ),
        ],
    )
}

/// How a node is transformed.
#[derive(Clone, Copy, PartialEq, Eq, Structural)]
pub enum Mode {
    /// As what it is.
    Plain,
    /// A property that a parameter declares, as a parameter.
    AsParam,
    /// A private method, as a property without a type.
    AsPrivateProp,
    /// A private property, without its type.
    WithoutType,
    /// A property of a pattern that has another name for its value, without it.
    AsAssignProp,
    /// A constructor or one of its parameters, as the properties that it declares.
    AsProps,
    /// A pattern, as the name that it binds.
    Key,
    /// A pattern, as its type annotation.
    Ann,
    /// A pattern with a default value, as its type annotation.
    DefaultAnn,
    /// An expression, as a type annotation.
    Inferred,
    /// An object pattern, as its properties.
    Props,
}

/// Which node the parts belong to.
#[derive(Clone, Copy, PartialEq, Eq, Structural)]
pub enum Owner {
    Other,
    Class,
    Constructor,
    Function,
    VarDeclarator,
    VarDecl,
    ObjectPat,
    Props,
    AssignPatProp,
    Export,
    PropsOfClass,
    PropsOfConstructor,
}

/// How a part of a node is transformed, if it is not left out.
#[verifier::opaque]
pub open spec fn part_mode(s: Seq<Tree>, i: int, env: Env, owner: Owner) -> Option<Mode> {
    let t = s[i];
    if t.role == Role::Decorator {
        None
    } else {
        match owner {
            Owner::Other => Some(Mode::Plain),
            Owner::Class => if t.role != Role::Member {
                Some(Mode::Plain)
            } else if !member_stays(s, i, env) {
                None
            } else if t.kind == Kind::ClassMethod && t.flags.access == Access::Private {
                Some(Mode::AsPrivateProp)
            } else if t.kind == Kind::ClassProp && t.flags.access == Access::Private {
                Some(Mode::WithoutType)
            } else {
                Some(Mode::Plain)
            },
            Owner::Constructor => if t.role == Role::Body {
                None
            } else if t.kind == Kind::TsParamProp {
                Some(Mode::AsParam)
            } else {
                Some(Mode::Plain)
            },
            Owner::Function => if t.role == Role::Body {
                None
            } else {
                Some(Mode::Plain)
            },
            Owner::VarDeclarator => if t.role == Role::Init {
                None
            } else {
                Some(Mode::Plain)
            },
            Owner::VarDecl => if is_kept(t, env) {
                Some(Mode::Plain)
            } else {
                None
            },
            Owner::ObjectPat => if t.kind == Kind::KeyValuePatProp {
                Some(Mode::AsAssignProp)
            } else {
                Some(Mode::Plain)
            },
            Owner::Props => if t.role != Role::Prop {
                None
            } else if t.kind == Kind::KeyValuePatProp {
                Some(Mode::AsAssignProp)
            } else {
                Some(Mode::Plain)
            },
            Owner::AssignPatProp => if t.role == Role::Value {
                None
            } else {
                Some(Mode::Plain)
            },
            Owner::Export => if t.role == Role::Source || (t.role == Role::Specifier && !is_kept(
                t,
                env,
            )) {
                None
            } else {
                Some(Mode::Plain)
            },
            Owner::PropsOfClass => if t.role == Role::Member && t.kind == Kind::Constructor
                && member_stays(s, i, env) {
                Some(Mode::AsProps)
            } else {
                None
            },
            Owner::PropsOfConstructor => if t.kind == Kind::TsParamProp {
                Some(Mode::AsProps)
            } else {
                None
            },
        }
    }
}

/// Adds a type annotation to the parts, if there is one.
#[verifier::opaque]
pub open spec fn with_ann(s: Seq<Tree>, ann: Seq<Tree>) -> Seq<Tree> {
    if ann.len() > 0 {
        s.push(at(Role::TypeAnn, ann[0]))
    } else {
        s
    }
}

/// The name of the `n`-th export of another module.
pub open spec fn export_name_text(n: nat) -> Seq<char> {
    "__export"@ + decimal(n)
}

/// `<left>.<right>` in a type.
pub open spec fn qualified_tree(left: Seq<char>, right: Seq<char>) -> Tree {
    made(
        Kind::TsQualifiedName,
        seq![at(Role::Left, entity_tree(left)), at(Role::Right, name_tree(right))],
    )
}

/// `import <name> = <entity>;`
pub open spec fn import_equals_tree(name: Tree, entity: Tree, is_export: bool) -> Tree {
    Tree {
        flags: Flags { is_export, ..plain() },
        ..made(
            Kind::TsImportEquals,
            seq![at(Role::Name, name), at(Role::ModuleRef, entity)],
        )
    }
}

/// The name under which a namespace exports what its module exports as `default`,
/// which is a reserved word.
pub open spec fn namespace_name(name: Seq<char>) -> Seq<char> {
    if name == "default"@ {
        "__default"@
    } else {
        name
    }
}

/// The name of the namespace that stands for a module.
pub open spec fn pack_name(id: int) -> Seq<char> {
    "pack"@ + decimal(id as nat)
}

/// The state after an export of another module: an import of it under a name that
/// nothing else has, and its export.
pub open spec fn with_re_export(st: State, entity: Tree, export_name: Seq<char>) -> State {
    let name = export_name_text(st.given + 1);
    State {
        given: st.given + 1,
        append: st.append.push(
            at(Role::Item, import_equals_tree(name_tree(name), entity, false)),
        ).push(at(Role::Item, export_as_tree(name, export_name))),
        ..st
    }
}

/// The name under which a part of an export exports something.
pub open spec fn specifier_name(t: Tree) -> Seq<char> {
    if has_part(t, Role::Exported) {
        child(t, Role::Exported).text
    } else {
        child(t, Role::Orig).text
    }
}

/// Whether the node with the role, if there is one, is no string.
pub open spec fn no_string(t: Tree, role: Role) -> bool {
    has_part(t, role) ==> child(t, role).kind != Kind::Str
}

/// The state after a part of `export { .. } from ".."`, where the other module has
/// the number.
#[verifier::opaque]
pub open spec fn specifier_re_exported(t: Tree, id: int, st: State) -> State {
    if t.kind == Kind::ExportNamedSpecifier && has_part(t, Role::Orig) && no_string(
        t,
        Role::Orig,
    ) && no_string(t, Role::Exported) {
        with_re_export(
            st,
            qualified_tree(pack_name(id), namespace_name(child(t, Role::Orig).text)),
            specifier_name(t),
        )
    } else if t.kind == Kind::ExportNamespaceSpecifier && has_part(t, Role::Name) && no_string(
        t,
        Role::Name,
    ) {
        with_re_export(st, entity_tree(pack_name(id)), child(t, Role::Name).text)
    } else {
        State { unsupported: true, ..st }
    }
}

/// The state after the first `n` parts of `export { .. } from ".."`.
pub open spec fn re_exported_upto(s: Seq<Tree>, n: nat, env: Env, id: int, st: State) -> State
    decreases n,
{
    if n == 0 {
        st
    } else {
        let before = re_exported_upto(s, (n - 1) as nat, env, id, st);
        if s[n - 1].role == Role::Specifier && is_kept(s[n - 1], env) {
            specifier_re_exported(s[n - 1], id, before)
        } else {
            before
        }
    }
}

/// The state after `export default <e>;`. Of a name, an export as `__default` is
/// put into the namespace.
#[verifier::opaque]
pub open spec fn default_exported(t: Tree, env: Env, st: State) -> State {
    if env.in_namespace && has_part(t, Role::Expr) && child(t, Role::Expr).kind
        == Kind::IdentExpr {
        State {
            append: st.append.push(
                at(Role::Item, export_as_tree(child(t, Role::Expr).text, "__default"@)),
            ),
            ..st
        }
    } else {
        st
    }
}

/// Whether one of the parts with the role is kept.
pub open spec fn some_kept(t: Tree, role: Role, env: Env) -> bool {
    exists|i: int|
        0 <= i < t.children.len() && (#[trigger] t.children[i]).role == role && is_kept(
            t.children[i],
            env,
        )
}

/// Whether an item of a block is kept: it is itself, or one of the variables that
/// it declares or of the names that it exports is.
#[verifier::opaque]
pub open spec fn item_kept(t: Tree, env: Env) -> bool {
    ||| is_kept(t, env)
    ||| t.kind == Kind::VarDecl && some_kept(t, Role::Declarator, env)
    ||| t.kind == Kind::ExportDecl && has_part(t, Role::Decl) && child(t, Role::Decl).kind
        == Kind::VarDecl && some_kept(child(t, Role::Decl), Role::Declarator, env)
    ||| t.kind == Kind::ExportNamed && some_kept(t, Role::Specifier, env)
}

/// Whether an item stays in a block after it was transformed.
#[verifier::opaque]
pub open spec fn item_stays(t: Tree, env: Env) -> bool {
    &&& t.kind == Kind::ExportNamed ==> exists|i: int|
        0 <= i < t.children.len() && (#[trigger] t.children[i]).role == Role::Specifier
    &&& t.kind == Kind::ExportDefaultExpr ==> !env.in_namespace
}

/// Whether an item is an import or an export of names.
pub open spec fn only_names(t: Tree) -> bool {
    (t.kind == Kind::TsImportEquals && !t.flags.is_export) || t.kind == Kind::ExportNamed
}

/// `const __packTsUnder5_2_Workaround__: unknown;`
pub open spec fn workaround_tree() -> Tree {
    const_tree(
        binding_tree(
            name_tree("__packTsUnder5_2_Workaround__"@),
            Some(type_ann_tree(keyword_tree("unknown"@))),
        ),
        None,
    )
}

/// The items of a block with a declaration where there is none: in a namespace,
/// names alone are not enough.
#[verifier::opaque]
pub open spec fn with_workaround(s: Seq<Tree>, env: Env) -> Seq<Tree> {
    if env.in_namespace && forall|i: int| 0 <= i < s.len() ==> only_names(#[trigger] s[i]) {
        s.push(at(Role::Item, workaround_tree()))
    } else {
        s
    }
}

/// Transformed trees, and the state after them.
#[verifier::ext_equal]
pub struct Visited {
    pub trees: Seq<Tree>,
    pub st: State,
}

/// One transformed tree, and the state after it.
pub open spec fn single(tree: Tree, st: State) -> Visited {
    Visited { trees: seq![tree], st }
}

/// Nothing.
pub open spec fn nothing(st: State) -> Visited {
    Visited { trees: Seq::empty(), st }
}

/// The first `n` parts of a node, transformed. `f` transforms a part.
pub open spec fn parts_upto(
    s: Seq<Tree>,
    n: nat,
    env: Env,
    owner: Owner,
    f: spec_fn(int, Mode, State) -> Visited,
    st: State,
) -> Visited
    decreases n,
{
    if n == 0 {
        nothing(st)
    } else {
        let before = parts_upto(s, (n - 1) as nat, env, owner, f, st);
        match part_mode(s, n - 1, env, owner) {
            None => before,
            Some(mode) => {
                let v = f(n - 1, mode, before.st);
                Visited { trees: before.trees + v.trees, st: v.st }
            },
        }
    }
}

/// The parts of a node, transformed.
pub open spec fn parts(
    t: Tree,
    env: Env,
    owner: Owner,
    f: spec_fn(int, Mode, State) -> Visited,
    st: State,
) -> Visited {
    parts_upto(t.children, t.children.len(), env, owner, f, st)
}

/// A node with other parts, transformed.
pub open spec fn rebuilt(t: Tree, v: Visited) -> Visited {
    single(Tree { children: v.trees, ..t }, v.st)
}

/// The part of a node with the role, transformed, if there is one.
#[verifier::opaque]
pub open spec fn one_part(
    t: Tree,
    role: Role,
    mode: Mode,
    f: spec_fn(int, Mode, State) -> Visited,
    st: State,
) -> Visited {
    if has_part(t, role) {
        f(place(t, role), mode, st)
    } else {
        nothing(st)
    }
}

/// A class with other members, and with one private name if it has any.
#[verifier::opaque]
pub open spec fn class_with(t: Tree, members: Seq<Tree>) -> Tree {
    Tree {
        children: (if has_private_names(t.children) {
            seq![at(Role::Member, private_marker())]
        } else {
            Seq::empty()
        }) + members,
        ..t
    }
}

/// The state after a function that returns something but does not say of what
/// type.
#[verifier::opaque]
pub open spec fn function_noted(t: Tree, st: State) -> State {
    if !has_part(t, Role::ReturnType) && function_returns(t) {
        State { missing_types: st.missing_types.push(t.span.lo), ..st }
    } else {
        st
    }
}

/// A function with other parts, and with a return type.
#[verifier::opaque]
pub open spec fn function_with(t: Tree, parts: Seq<Tree>) -> Tree {
    Tree {
        flags: Flags { is_async: false, is_generator: false, ..t.flags },
        children: if has_part(t, Role::ReturnType) {
            parts
        } else {
            parts.push(at(Role::ReturnType, type_ann_tree(default_return_type(t))))
        },
        ..t
    }
}

/// A variable that may be left out.
#[verifier::opaque]
pub open spec fn optional_binding(role: Role, name: Seq<char>, ann: Seq<Tree>) -> Tree {
    at(
        role,
        made(
            Kind::BindingIdent,
            with_ann(
                seq![
                    Tree {
                        role: Role::Name,
                        flags: Flags { optional: true, ..plain() },
                        ..name_tree(name)
                    },
                ],
                ann,
            ),
        ),
    )
}

/// An object pattern that may be left out.
#[verifier::opaque]
pub open spec fn optional_object(role: Role, props: Seq<Tree>, ann: Seq<Tree>) -> Tree {
    Tree {
        role,
        flags: Flags { optional: true, ..plain() },
        ..made(Kind::ObjectPat, with_ann(props, ann))
    }
}

/// Whether the module that an export names is resolved.
pub open spec fn source_found(t: Tree, env: Env) -> bool {
    has_part(t, Role::Source) && has_key(env.sources, child(t, Role::Source).text)
}

/// A node that becomes one of another kind, without modifiers.
#[verifier::opaque]
pub open spec fn as_kind(t: Tree, kind: Kind, parts: Seq<Tree>) -> Tree {
    Tree { kind, flags: plain(), children: parts, ..t }
}

/// The property that a private method becomes.
#[verifier::opaque]
pub open spec fn as_private_prop(t: Tree, parts: Seq<Tree>) -> Tree {
    Tree {
        role: t.role,
        flags: Flags {
            is_static: t.flags.is_static,
            is_abstract: t.flags.is_abstract,
            optional: t.flags.optional,
            is_override: t.flags.is_override,
            access: Access::Private,
            ..plain()
        },
        ..made(Kind::ClassProp, parts)
    }
}

/// The state after a property of a pattern, whose key has to be a name.
#[verifier::opaque]
pub open spec fn key_noted(t: Tree, st: State) -> State {
    let is_name = has_part(t, Role::Key) && child(t, Role::Key).kind == Kind::Ident;
    State { unsupported: st.unsupported || !is_name, ..st }
}

/// A type annotation, or that of the type `unknown` where there is none.
#[verifier::opaque]
pub open spec fn ann_or_unknown(ann: Seq<Tree>) -> Tree {
    if ann.len() > 0 {
        ann[0]
    } else {
        type_ann_tree(keyword_tree("unknown"@))
    }
}

/// The property that a parameter with the modifiers declares.
#[verifier::opaque]
pub open spec fn param_prop_tree(flags: Flags, key: Tree, ann: Seq<Tree>) -> Tree {
    let access = if flags.access == Access::Public {
        Access::Unset
    } else {
        flags.access
    };
    Tree {
        role: Role::Member,
        flags: Flags {
            access,
            is_override: flags.is_override,
            readonly: flags.readonly,
            ..plain()
        },
        ..made(
            Kind::ClassProp,
            with_ann(
                seq![at(Role::Key, key)],
                if access == Access::Private {
                    ann
                } else {
                    seq![ann_or_unknown(ann)]
                },
            ),
        )
    }
}

/// What stands for a property that cannot be told.
#[verifier::opaque]
pub open spec fn no_prop() -> Tree {
    at(Role::Member, made(Kind::ClassProp, Seq::empty()))
}

/// A class, transformed: with the properties that its constructors declare, and
/// with one private name for all that it has.
#[verifier::opaque]
pub open spec fn class_out(
    t: Tree,
    env: Env,
    f: spec_fn(int, Mode, State) -> Visited,
    st: State,
) -> Visited {
    let props = parts(t, env, Owner::PropsOfClass, f, st);
    let rest = parts(t, env, Owner::Class, f, props.st);
    single(class_with(t, props.trees + rest.trees), rest.st)
}

/// A function, transformed: without its body, and with a return type.
#[verifier::opaque]
pub open spec fn function_out(
    t: Tree,
    env: Env,
    f: spec_fn(int, Mode, State) -> Visited,
    st: State,
) -> Visited {
    let v = parts(t, env, Owner::Function, f, function_noted(t, st));
    single(function_with(t, v.trees), v.st)
}

/// A pattern with a default value, transformed: it becomes optional instead.
#[verifier::opaque]
pub open spec fn assign_out(
    t: Tree,
    env: Env,
    f: spec_fn(int, Mode, State) -> Visited,
    st: State,
) -> Visited {
    let left = child(t, Role::Left);
    if has_part(t, Role::Left) && left.kind == Kind::BindingIdent && has_part(left, Role::Name) {
        let ann = default_ann_out(t, f, st);
        single(optional_binding(t.role, child(left, Role::Name).text, ann.trees), ann.st)
    } else if has_part(t, Role::Left) && left.kind == Kind::ObjectPat {
        let props = one_part(t, Role::Left, Mode::Props, f, st);
        let ann = default_ann_out(t, f, props.st);
        single(optional_object(t.role, props.trees, ann.trees), ann.st)
    } else {
        rebuilt(t, parts(t, env, Owner::Other, f, st))
    }
}

/// The type annotation of a pattern with a default value: the one of the pattern,
/// or what can be told of the value.
#[verifier::opaque]
pub open spec fn default_ann_out(
    t: Tree,
    f: spec_fn(int, Mode, State) -> Visited,
    st: State,
) -> Visited {
    if has_part(t, Role::Left) && has_part(child(t, Role::Left), Role::TypeAnn) {
        one_part(t, Role::Left, Mode::Ann, f, st)
    } else {
        one_part(t, Role::Right, Mode::Inferred, f, st)
    }
}

/// The type that can be told of an expression, as an annotation, transformed.
#[verifier::opaque]
pub open spec fn inferred_out(
    t: Tree,
    f: spec_fn(int, Mode, State) -> Visited,
    st: State,
) -> Visited {
    if says_type(t) {
        let v = one_part(t, Role::Type, Mode::Plain, f, st);
        single(type_ann_tree(v.trees[0]), v.st)
    } else {
        match literal_type(t.kind) {
            Some(keyword) => single(type_ann_tree(keyword_tree(keyword)), st),
            None => nothing(st),
        }
    }
}

/// A property of a class, transformed: without a value, and with a type unless it
/// is private.
#[verifier::opaque]
pub open spec fn prop_out(
    t: Tree,
    f: spec_fn(int, Mode, State) -> Visited,
    st: State,
    drop_type: bool,
) -> Visited {
    let key = one_part(t, Role::Key, Mode::Plain, f, st);
    let ann = if !drop_type && has_part(t, Role::TypeAnn) {
        one_part(t, Role::TypeAnn, Mode::Plain, f, key.st)
    } else if t.flags.access == Access::Private {
        nothing(key.st)
    } else {
        let told = one_part(t, Role::Value, Mode::Inferred, f, key.st);
        single(ann_or_unknown(told.trees), told.st)
    };
    rebuilt(t, Visited { trees: with_ann(key.trees, ann.trees), st: ann.st })
}

/// Whether it can be told which property a parameter declares.
pub open spec fn param_prop_supported(t: Tree) -> bool {
    let pattern = child(t, Role::Pattern);
    let binding = if pattern.kind == Kind::AssignPat {
        child(pattern, Role::Left)
    } else {
        pattern
    };
    &&& has_part(t, Role::Pattern)
    &&& pattern.kind == Kind::AssignPat ==> has_part(pattern, Role::Left)
    &&& binding.kind == Kind::BindingIdent
    &&& has_part(binding, Role::Name)
}

/// The property that a parameter declares. It has the type of the parameter.
#[verifier::opaque]
pub open spec fn param_prop_out(
    t: Tree,
    f: spec_fn(int, Mode, State) -> Visited,
    st: State,
) -> Visited {
    if !param_prop_supported(t) {
        single(no_prop(), State { unsupported: true, ..st })
    } else {
        let key = one_part(t, Role::Pattern, Mode::Key, f, st);
        let mode = if child(t, Role::Pattern).kind == Kind::AssignPat {
            Mode::DefaultAnn
        } else {
            Mode::Ann
        };
        let ann = one_part(t, Role::Pattern, mode, f, key.st);
        single(param_prop_tree(t.flags, key.trees[0], ann.trees), ann.st)
    }
}

/// A list of exports, transformed: what is exported of another module goes behind
/// the items of the block.
#[verifier::opaque]
pub open spec fn export_out(
    t: Tree,
    env: Env,
    f: spec_fn(int, Mode, State) -> Visited,
    st: State,
) -> Visited {
    if source_found(t, env) {
        single(
            Tree { children: Seq::empty(), ..t },
            match env.sources[key_place(env.sources, child(t, Role::Source).text)].1.0 {
                Some(id) => re_exported_upto(t.children, t.children.len(), env, id as int, st),
                None => State { unsupported: true, ..st },
            },
        )
    } else {
        rebuilt(t, parts(t, env, Owner::Export, f, st))
    }
}

/// The first `n` items of a block, transformed.
pub open spec fn items_upto(
    s: Seq<Tree>,
    n: nat,
    env: Env,
    f: spec_fn(int, Mode, State) -> Visited,
    st: State,
) -> Visited
    decreases n,
{
    if n == 0 {
        nothing(st)
    } else {
        let before = items_upto(s, (n - 1) as nat, env, f, st);
        if item_kept(s[n - 1], env) {
            let item = f(n - 1, Mode::Plain, before.st);
            Visited {
                trees: if item_stays(item.trees[0], env) {
                    before.trees.push(item.trees[0])
                } else {
                    before.trees
                },
                st: item.st,
            }
        } else {
            before
        }
    }
}

/// The items of a block, transformed.
#[verifier::opaque]
pub open spec fn block_out(
    s: Seq<Tree>,
    env: Env,
    f: spec_fn(int, Mode, State) -> Visited,
    st: State,
) -> Visited {
    let items = items_upto(s, s.len(), env, f, st);
    Visited {
        trees: with_workaround(items.trees + items.st.append, env),
        st: State { append: Seq::empty(), ..items.st },
    }
}

/// A node, transformed as what it is.
#[verifier::opaque]
pub open spec fn plain_out(
    t: Tree,
    env: Env,
    f: spec_fn(int, Mode, State) -> Visited,
    st: State,
) -> Visited {
    match t.kind {
        Kind::ExportDefaultExpr => single(t, default_exported(t, env, st)),
        Kind::Class => class_out(t, env, f, st),
        Kind::ClassProp => prop_out(t, f, st, false),
        Kind::Constructor => rebuilt(t, parts(t, env, Owner::Constructor, f, st)),
        Kind::Function => function_out(t, env, f, st),
        Kind::VarDeclarator => rebuilt(
            Tree { flags: Flags { definite: false, ..t.flags }, ..t },
            parts(t, env, Owner::VarDeclarator, f, st),
        ),
        Kind::VarDecl => rebuilt(t, parts(t, env, Owner::VarDecl, f, st)),
        Kind::AssignPat => assign_out(t, env, f, st),
        Kind::ObjectPat => rebuilt(t, parts(t, env, Owner::ObjectPat, f, st)),
        Kind::AssignPatProp => rebuilt(t, parts(t, env, Owner::AssignPatProp, f, st)),
        Kind::ExportNamed => export_out(t, env, f, st),
        Kind::TsModuleBlock => rebuilt(t, block_out(t.children, env, f, st)),
        _ => rebuilt(t, parts(t, env, Owner::Other, f, st)),
    }
}

/// A node, transformed. `f` transforms its parts.
#[verifier::opaque]
pub open spec fn node_out(
    t: Tree,
    mode: Mode,
    env: Env,
    f: spec_fn(int, Mode, State) -> Visited,
    st: State,
) -> Visited {
    match mode {
        Mode::Plain => plain_out(t, env, f, st),
        Mode::AsParam => {
            let v = one_part(t, Role::Pattern, Mode::Plain, f, st);
            single(as_kind(t, Kind::Param, v.trees), v.st)
        },
        Mode::AsPrivateProp => {
            let v = one_part(t, Role::Key, Mode::Plain, f, st);
            single(as_private_prop(t, v.trees), v.st)
        },
        Mode::WithoutType => prop_out(t, f, st, true),
        Mode::AsAssignProp => {
            let v = one_part(t, Role::Key, Mode::Plain, f, st);
            single(as_kind(t, Kind::AssignPatProp, v.trees), key_noted(t, v.st))
        },
        Mode::AsProps => if t.kind == Kind::Constructor {
            parts(t, env, Owner::PropsOfConstructor, f, st)
        } else {
            param_prop_out(t, f, st)
        },
        Mode::Key => if t.kind == Kind::AssignPat {
            one_part(t, Role::Left, Mode::Key, f, st)
        } else {
            one_part(t, Role::Name, Mode::Plain, f, st)
        },
        Mode::Ann => one_part(t, Role::TypeAnn, Mode::Plain, f, st),
        Mode::DefaultAnn => default_ann_out(t, f, st),
        Mode::Inferred => inferred_out(t, f, st),
        Mode::Props => parts(t, env, Owner::Props, f, st),
    }
}

/// A tree, transformed.
pub open spec fn visited(t: Tree, mode: Mode, env: Env, st: State) -> Visited
    decreases t, 1nat,
{
    node_out(t, mode, env, visitor(t.children, env), st)
}

/// What transforms the trees of a list.
pub open spec fn visitor(s: Seq<Tree>, env: Env) -> spec_fn(int, Mode, State) -> Visited
    decreases s, 0nat,
{
    |i: int, mode: Mode, st: State|
        if 0 <= i < s.len() {
            visited(s[i], mode, env, st)
        } else {
            nothing(st)
        }
}


}
