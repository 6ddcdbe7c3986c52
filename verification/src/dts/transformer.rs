//! The code that turns declarations of a module into those of a declaration file.

use vstd::prelude::*;

use super::transform::{
    after_overload, ann_or_unknown, as_kind, as_private_prop, assign_out, block_out, class_out,
    class_with, default_ann_out, default_exported, default_return_type, export_name_text,
    export_out, first_return, first_return_upto, function_noted, function_out, function_return,
    function_returns, function_with, has_private_names, is_searched,
    import_equals_tree, inferred, inferred_out, is_kept, is_overload, item_kept, item_stays,
    items_upto, key_noted, literal_type, member_stays, namespace_name, no_prop, node_out, one_part,
    only_names, optional_binding, optional_object, param_prop_out, param_prop_supported,
    param_prop_tree, part_mode, parts, parts_upto, plain_out, private_marker, prop_out,
    qualified_tree, re_exported_upto, single, some_kept, specifier_re_exported,
    type_ref_tree, visited, visitor, with_ann, with_re_export, with_workaround, Env, Mode, Owner,
    State, Visited,
};
use crate::collections::{has_key, key_place, key_place_from};
use crate::comments::{has_internal_jsdoc, Comments};
use crate::helpers::{
    binding_ident, const_decl, entity_name, export_as_tree, export_x_as_y, ident, keyword_tree, make, one,
    placed, ts_keyword_type, ts_type_ann, two,
};
use crate::syntax::{
    at, child, group_trees, lemma_place, place, range_of, trees, Access, Flags, Kind, Node, Role,
    SourceRange, Tree,
};

verus! {

/// A module that a module names, with its number if it is known.
#[derive(Debug)]
pub struct SourceId {
    pub text: String,
    pub module_id: Option<usize>,
    pub is_remote: bool,
}

/// What a sequence of named modules stands for.
pub open spec fn sources_of(s: Seq<SourceId>) -> Seq<(Seq<char>, (Option<usize>, bool))> {
    Seq::new(s.len(), |i: int| (s[i].text@, (s[i].module_id, s[i].is_remote)))
}

/// What the transformation of a module goes by.
#[derive(Debug)]
pub struct ModuleEnv<'a> {
    pub ranges: Option<&'a Vec<SourceRange>>,
    pub comments: &'a Comments,
    pub in_namespace: bool,
    pub sources: &'a Vec<SourceId>,
}

impl<'a> ModuleEnv<'a> {
    pub open spec fn view(&self) -> Env {
        Env {
            ranges: match self.ranges {
                Some(ranges) => Some(ranges@),
                None => None,
            },
            comments: self.comments.leading@,
            in_namespace: self.in_namespace,
            sources: sources_of(self.sources@),
        }
    }

    /// Whether something is kept.
    pub fn keeps(&self, n: &Node) -> (r: bool)
        ensures
            r == is_kept(n@, self@),
    {
        reveal(is_kept);
        match self.ranges {
            Some(ranges) => {
                if n.span.lo == 0 && n.span.hi == 0 && n.span.ctxt == 0 {
                    return true;
                }
                let range: SourceRange = n.range();
                let mut i: usize = 0;
                while i < ranges.len()
                    invariant
                        i <= ranges@.len(),
                        self.ranges == Some(ranges),
                        range == range_of(n@),
                        forall|j: int| 0 <= j < i ==> ranges@[j] != range,
                    decreases ranges@.len() - i,
                {
                    reveal(is_kept);
                    if ranges[i] == range {
                        assert(ranges@[i as int] == range);
                        return true;
                    }
                    i = i + 1;
                }
                false
            },
            None => true,
        }
    }

    /// Whether one of the parts with the role is kept.
    fn keeps_some(&self, n: &Node, role: Role) -> (r: bool)
        ensures
            r == some_kept(n@, role, self@),
    {
        let mut i: usize = 0;
        while i < n.children.len()
            invariant
                i <= n.children@.len(),
                forall|j: int|
                    0 <= j < i ==> !((#[trigger] n@.children[j]).role == role && is_kept(
                        n@.children[j],
                        self@,
                    )),
            decreases n.children@.len() - i,
        {
            assert(n@.children[i as int] == n.children@[i as int]@);
            if n.children[i].role == role && self.keeps(&n.children[i]) {
                assert(n@.children[i as int].role == role);
                return true;
            }
            i = i + 1;
        }
        false
    }

    /// Whether an item of a block is kept.
    pub fn keeps_item(&self, n: &Node) -> (r: bool)
        ensures
            r == item_kept(n@, self@),
    {
        reveal(item_kept);
        if self.keeps(n) {
            return true;
        }
        match n.kind {
            Kind::VarDecl => self.keeps_some(n, Role::Declarator),
            Kind::ExportDecl => match n.get(Role::Decl) {
                Some(decl) => decl.kind == Kind::VarDecl && self.keeps_some(
                    decl,
                    Role::Declarator,
                ),
                None => false,
            },
            Kind::ExportNamed => self.keeps_some(n, Role::Specifier),
            _ => false,
        }
    }

    /// Whether an item stays in a block after it was transformed.
    fn item_stays(&self, n: &Node) -> (r: bool)
        ensures
            r == item_stays(n@, self@),
    {
        reveal(item_stays);
        if n.kind == Kind::ExportNamed {
            let mut i: usize = 0;
            while i < n.children.len()
                invariant
                    i <= n.children@.len(),
                    n.kind == Kind::ExportNamed,
                    forall|j: int| 0 <= j < i ==> (#[trigger] n@.children[j]).role
                        != Role::Specifier,
                decreases n.children@.len() - i,
            {
                reveal(item_stays);
                assert(n@.children[i as int] == n.children@[i as int]@);
                if n.children[i].role == Role::Specifier {
                    assert(n@.children[i as int].role == Role::Specifier);
                    return true;
                }
                i = i + 1;
            }
            false
        } else {
            n.kind != Kind::ExportDefaultExpr || !self.in_namespace
        }
    }

    /// The number of a module that the module names, and whether it is on the web.
    pub fn source(&self, text: &str) -> (r: Option<(Option<usize>, bool)>)
        ensures
            r == (if has_key(self@.sources, text@) {
                Some(self@.sources[key_place(self@.sources, text@)].1)
            } else {
                None::<(Option<usize>, bool)>
            }),
    {
        let ghost all = self@.sources;
        let mut i: usize = 0;
        while i < self.sources.len()
            invariant
                i <= self.sources@.len(),
                all == self@.sources,
                key_place(all, text@) == key_place_from(all, text@, i as int),
            decreases self.sources@.len() - i,
        {
            let source: &SourceId = &self.sources[i];
            assert(all[i as int] == (source.text@, (source.module_id, source.is_remote)));
            if crate::text::same_text(source.text.as_str(), text) {
                return Some((source.module_id, source.is_remote));
            }
            i = i + 1;
        }
        None
    }

    /// Whether a member of a class stays.
    fn member_stays(&self, members: &Vec<Node>, i: usize) -> (r: bool)
        requires
            i < members@.len(),
        ensures
            r == member_stays(trees(members@), i as int, self@),
    {
        reveal(member_stays);
        let n: &Node = &members[i];
        assert(trees(members@)[i as int] == n@);
        let keep: bool = match n.kind {
            Kind::Constructor
            | Kind::ClassMethod
            | Kind::ClassProp
            | Kind::TsIndexSignature
            | Kind::AutoAccessor => true,
            _ => false,
        };
        keep && !has_internal_jsdoc(self.comments, n.span.lo) && (is_class_member_overload(n)
            || !comes_after_overload(members, i))
    }
}

fn searches(kind: Kind, role: Role) -> (r: bool)
    ensures
        r == is_searched(kind, role),
{
    match kind {
        Kind::Block => true,
        Kind::Switch => role == Role::Case,
        Kind::SwitchCase => role == Role::Stmt,
        Kind::With
        | Kind::Labeled
        | Kind::While
        | Kind::DoWhile
        | Kind::For
        | Kind::ForIn
        | Kind::ForOf
        | Kind::CatchClause => role == Role::Body,
        Kind::If => role == Role::Consequent || role == Role::Alternate,
        Kind::Try => role == Role::Block || role == Role::Handler || role == Role::Finalizer,
        _ => false,
    }
}

/// The first statement in a statement that returns from the function in which it
/// stands.
pub fn get_return_stmt_from_stmt(n: &Node) -> (r: Option<&Node>)
    ensures
        match r {
            Some(found) => first_return(n@) == Some(found@),
            None => first_return(n@) is None,
        },
    decreases n,
{
    if n.kind == Kind::Return {
        return Some(n);
    }
    let mut i: usize = 0;
    while i < n.children.len()
        invariant
            i <= n.children@.len(),
            n.kind != Kind::Return,
            first_return_upto(n.kind, n@.children, i as nat) is None,
        decreases n.children@.len() - i,
    {
        assert(n@.children[i as int] == n.children@[i as int]@);
        if searches(n.kind, n.children[i].role) {
            match get_return_stmt_from_stmt(&n.children[i]) {
                Some(found) => {
                    proof {
                        lemma_first_return(n.kind, n@.children, (i + 1) as nat, n@.children.len());
                    }
                    return Some(found);
                },
                None => {},
            }
        }
        i = i + 1;
    }
    None
}

proof fn lemma_first_return(kind: Kind, s: Seq<Tree>, n: nat, m: nat)
    requires
        n <= m <= s.len(),
        first_return_upto(kind, s, n) is Some,
    ensures
        first_return_upto(kind, s, m) == first_return_upto(kind, s, n),
    decreases m,
{
    if n < m {
        lemma_first_return(kind, s, n, (m - 1) as nat);
    }
}

/// The first statement by which a function returns.
pub fn get_return_stmt_from_function(n: &Node) -> (r: Option<&Node>)
    ensures
        match r {
            Some(found) => function_return(n@) == Some(found@),
            None => function_return(n@) is None,
        },
{
    match n.get(Role::Body) {
        Some(body) => get_return_stmt_from_stmt(body),
        None => None,
    }
}

fn type_ref(name: &str, args: Vec<Node>) -> (r: Node)
    ensures
        r@ == type_ref_tree(name@, trees(args@)),
{
    make(
        Kind::TsTypeRef,
        two(
            placed(Role::TypeName, entity_name(name.to_owned())),
            placed(Role::TypeArgs, make(Kind::TsTypeParamInstantiation, args)),
        ),
    )
}

/// The return type of a function for which none is written.
fn make_return_type(n: &Node, has_return: bool) -> (r: Node)
    requires
        has_return == function_returns(n@),
    ensures
        r@ == default_return_type(n@),
{
    reveal(default_return_type);
    let base: Node = if has_return || n.flags.is_generator || !n.has(Role::Body) {
        ts_keyword_type("unknown")
    } else {
        ts_keyword_type("void")
    };
    if n.flags.is_async {
        type_ref("Promise", one(placed(Role::Param, base)))
    } else if n.flags.is_generator {
        let mut args: Vec<Node> = two(
            placed(Role::Param, ts_keyword_type("unknown")),
            placed(Role::Param, ts_keyword_type("void")),
        );
        args.push(placed(Role::Param, ts_keyword_type("unknown")));
        assert(trees(args@) =~= seq![
            at(Role::Param, keyword_tree("unknown"@)),
            at(Role::Param, keyword_tree("void"@)),
            at(Role::Param, keyword_tree("unknown"@)),
        ]) by {
            broadcast use group_trees;

        }
        type_ref("Generator", args)
    } else {
        base
    }
}

/// The type of a literal.
pub fn maybe_infer_type_from_lit(kind: Kind) -> (r: Option<Node>)
    ensures
        match r {
            Some(t) => literal_type(kind) is Some && t@ == keyword_tree(
                literal_type(kind).unwrap(),
            ),
            None => literal_type(kind) is None,
        },
{
    match kind {
        Kind::Str => Some(ts_keyword_type("string")),
        Kind::Bool => Some(ts_keyword_type("boolean")),
        Kind::Null => Some(ts_keyword_type("null")),
        Kind::Num => Some(ts_keyword_type("number")),
        Kind::BigInt => Some(ts_keyword_type("bigint")),
        _ => None,
    }
}

/// The type that can be told of an expression.
pub fn maybe_infer_type_from_expr(expr: &Node) -> (r: Option<Node>)
    ensures
        match r {
            Some(t) => inferred(expr@) == Some(t@),
            None => inferred(expr@) is None,
        },
{
    if expr.kind == Kind::TsTypeAssertion || expr.kind == Kind::TsAs {
        match expr.get(Role::Type) {
            Some(t) => Some(t.dup()),
            None => None,
        }
    } else {
        maybe_infer_type_from_lit(expr.kind)
    }
}

/// Whether a member of a class is a signature without a body.
pub fn is_class_member_overload(n: &Node) -> (r: bool)
    ensures
        r == is_overload(n@),
{
    match n.kind {
        Kind::Constructor => !n.has(Role::Body),
        Kind::ClassMethod | Kind::PrivateMethod => match n.get(Role::Function) {
            Some(function) => !function.has(Role::Body),
            None => false,
        },
        _ => false,
    }
}

fn comes_after_overload(members: &Vec<Node>, i: usize) -> (r: bool)
    requires
        i <= members@.len(),
    ensures
        r == after_overload(trees(members@), i as nat),
{
    let mut n: usize = i;
    while n > 0
        invariant
            n <= i <= members@.len(),
            after_overload(trees(members@), i as nat) == after_overload(
                trees(members@),
                n as nat,
            ),
        decreases n,
    {
        assert(trees(members@)[n - 1] == members@[n - 1]@);
        if members[n - 1].role == Role::Member {
            return is_class_member_overload(&members[n - 1]);
        }
        n = n - 1;
    }
    false
}

fn class_has_private_names(members: &Vec<Node>) -> (r: bool)
    ensures
        r == has_private_names(trees(members@)),
{
    reveal(has_private_names);
    let mut i: usize = 0;
    while i < members.len()
        invariant
            i <= members@.len(),
            forall|j: int|
                0 <= j < i ==> !((#[trigger] trees(members@)[j]).role == Role::Member && (trees(
                    members@,
                )[j].kind == Kind::PrivateProp || trees(members@)[j].kind
                    == Kind::PrivateMethod)),
        decreases members@.len() - i,
    {
        reveal(has_private_names);
        assert(trees(members@)[i as int] == members@[i as int]@);
        if members[i].role == Role::Member && (members[i].kind == Kind::PrivateProp
            || members[i].kind == Kind::PrivateMethod) {
            assert(trees(members@)[i as int].role == Role::Member);
            return true;
        }
        i = i + 1;
    }
    false
}

fn make_private_marker() -> (r: Node)
    ensures
        r@ == private_marker(),
{
    reveal(private_marker);
    make(
        Kind::PrivateProp,
        one(
            placed(
                Role::Key,
                make(
                    Kind::PrivateName,
                    one(placed(Role::Name, ident("private".to_owned()))),
                ),
            ),
        ),
    )
}

/// `<left>.<right>` in a type.
pub fn qualified_name(left: String, right: String) -> (r: Node)
    ensures
        r@ == qualified_tree(left@, right@),
{
    make(
        Kind::TsQualifiedName,
        two(placed(Role::Left, entity_name(left)), placed(Role::Right, ident(right))),
    )
}

/// `import <name> = <entity>;`
pub fn import_equals(name: Node, entity: Node, is_export: bool) -> (r: Node)
    ensures
        r@ == import_equals_tree(name@, entity@, is_export),
{
    let mut r: Node = make(
        Kind::TsImportEquals,
        two(placed(Role::Name, name), placed(Role::ModuleRef, entity)),
    );
    r.flags.is_export = is_export;
    r
}

/// The name under which a namespace exports something.
pub fn to_namespace_name(name: &str) -> (r: String)
    ensures
        r@ == namespace_name(name@),
{
    if crate::text::same_text(name, "default") {
        "__default".to_owned()
    } else {
        name.to_owned()
    }
}

/// A copy of the node with other parts.
fn with_parts(n: &Node, children: Vec<Node>) -> (r: Node)
    ensures
        r@ == (Tree { children: trees(children@), ..n@ }),
{
    Node {
        kind: n.kind,
        role: n.role,
        span: n.span,
        text: n.text.clone(),
        flags: n.flags,
        origin: n.origin,
        children,
    }
}

fn make_class_with(n: &Node, members: Vec<Node>) -> (r: Node)
    ensures
        r@ == class_with(n@, trees(members@)),
{
    reveal(class_with);
    broadcast use group_trees;

    let mut members: Vec<Node> = members;
    let mut all: Vec<Node> = Vec::new();
    if class_has_private_names(&n.children) {
        all.push(placed(Role::Member, make_private_marker()));
    }
    let ghost first = trees(all@);
    assert(first =~= if has_private_names(n@.children) {
        seq![at(Role::Member, private_marker())]
    } else {
        Seq::empty()
    });
    all.append(&mut members);
    with_parts(n, all)
}

fn make_function_with(n: &Node, parts: Vec<Node>, has_return: bool) -> (r: Node)
    requires
        has_return == function_returns(n@),
    ensures
        r@ == function_with(n@, trees(parts@)),
{
    reveal(function_with);
    broadcast use group_trees;

    let mut parts: Vec<Node> = parts;
    if !n.has(Role::ReturnType) {
        parts.push(placed(Role::ReturnType, ts_type_ann(make_return_type(n, has_return))));
    }
    let mut r: Node = with_parts(n, parts);
    r.flags.is_async = false;
    r.flags.is_generator = false;
    r
}

fn make_optional_binding(role: Role, name: String, ann: Vec<Node>) -> (r: Node)
    ensures
        r@ == optional_binding(role, name@, trees(ann@)),
{
    reveal(optional_binding);
    let mut id: Node = placed(Role::Name, ident(name));
    id.flags.optional = true;
    let mut parts: Vec<Node> = one(id);
    push_ann(&mut parts, ann);
    placed(role, make(Kind::BindingIdent, parts))
}

fn make_optional_object(role: Role, props: Vec<Node>, ann: Vec<Node>) -> (r: Node)
    ensures
        r@ == optional_object(role, trees(props@), trees(ann@)),
{
    reveal(optional_object);
    let mut parts: Vec<Node> = props;
    push_ann(&mut parts, ann);
    let mut r: Node = placed(role, make(Kind::ObjectPat, parts));
    r.flags.optional = true;
    r
}

fn make_as_kind(n: &Node, kind: Kind, parts: Vec<Node>) -> (r: Node)
    ensures
        r@ == as_kind(n@, kind, trees(parts@)),
{
    reveal(as_kind);
    let mut r: Node = with_parts(n, parts);
    r.kind = kind;
    r.flags = Flags::none();
    r
}

fn make_as_private_prop(n: &Node, parts: Vec<Node>) -> (r: Node)
    ensures
        r@ == as_private_prop(n@, trees(parts@)),
{
    reveal(as_private_prop);
    let mut r: Node = placed(n.role, make(Kind::ClassProp, parts));
    r.flags.is_static = n.flags.is_static;
    r.flags.is_abstract = n.flags.is_abstract;
    r.flags.optional = n.flags.optional;
    r.flags.is_override = n.flags.is_override;
    r.flags.access = Access::Private;
    r
}

fn make_ann_or_unknown(ann: Vec<Node>) -> (r: Node)
    ensures
        r@ == ann_or_unknown(trees(ann@)),
{
    reveal(ann_or_unknown);
    let mut ann: Vec<Node> = ann;
    if ann.len() > 0 {
        ann.swap_remove(0)
    } else {
        ts_type_ann(ts_keyword_type("unknown"))
    }
}

fn make_param_prop(n: &Node, key: Node, ann: Vec<Node>) -> (r: Node)
    ensures
        r@ == param_prop_tree(n@.flags, key@, trees(ann@)),
{
    reveal(param_prop_tree);
    let access: Access = if n.flags.access == Access::Public {
        Access::Unset
    } else {
        n.flags.access
    };
    let ann: Vec<Node> = if access == Access::Private {
        ann
    } else {
        one(make_ann_or_unknown(ann))
    };
    let mut parts: Vec<Node> = one(placed(Role::Key, key));
    push_ann(&mut parts, ann);
    let mut r: Node = make(Kind::ClassProp, parts);
    r.role = Role::Member;
    r.flags.access = access;
    r.flags.is_override = n.flags.is_override;
    r.flags.readonly = n.flags.readonly;
    r
}

fn make_no_prop() -> (r: Node)
    ensures
        r@ == no_prop(),
{
    reveal(no_prop);
    broadcast use group_trees;

    placed(Role::Member, make(Kind::ClassProp, Vec::new()))
}

/// The name of an export of another module, which nothing else has.
#[derive(Debug)]
pub struct ReExportName(pub String);

impl ReExportName {
    pub fn to_string(&self) -> (r: String)
        ensures
            r@ == self.0@,
    {
        self.0.clone()
    }

    /// The item that exports this under another name.
    pub fn into_module_item(self, export_name: String) -> (r: Node)
        ensures
            r@ == export_as_tree(self.0@, export_name@),
    {
        export_x_as_y(self.0, export_name)
    }
}

/// Turns declarations of a module into those of a declaration file.
#[derive(Debug)]
pub struct DtsTransformer {
    /// One for each name of an export of another module that was given.
    pub given: Vec<()>,
    pub append_module_items: Vec<Node>,
    pub missing_types: Vec<u32>,
    pub unsupported: bool,
}

/// Nothing is left behind yet.
pub open spec fn fresh() -> State {
    State {
        given: 0,
        append: Seq::empty(),
        missing_types: Seq::empty(),
        unsupported: false,
    }
}

fn push_ann(parts: &mut Vec<Node>, ann: Vec<Node>)
    ensures
        trees(final(parts)@) == with_ann(trees(old(parts)@), trees(ann@)),
{
    reveal(with_ann);
    broadcast use group_trees;

    let mut ann: Vec<Node> = ann;
    if ann.len() > 0 {
        parts.push(placed(Role::TypeAnn, ann.swap_remove(0)));
    }
}

impl DtsTransformer {
    pub open spec fn view(&self) -> State {
        State {
            given: self.given@.len(),
            append: trees(self.append_module_items@),
            missing_types: self.missing_types@,
            unsupported: self.unsupported,
        }
    }

    pub fn new() -> (r: DtsTransformer)
        ensures
            r@ == fresh(),
    {
        broadcast use group_trees;

        DtsTransformer {
            given: Vec::new(),
            append_module_items: Vec::new(),
            missing_types: Vec::new(),
            unsupported: false,
        }
    }

    /// The next name of an export of another module. Exports should not be in the
    /// scope of their module, so they are imported under an obscure name and
    /// exported under their own.
    pub fn next_re_export_name(&mut self) -> (r: ReExportName)
        ensures
            final(self)@ == (State { given: old(self)@.given + 1, ..old(self)@ }),
            r.0@ == export_name_text(old(self)@.given + 1),
    {
        self.given.push(());
        let number: String = crate::text::decimal_text(self.given.len());
        ReExportName("__export".to_owned().concat(number.as_str()))
    }

    fn push_item(&mut self, item: Node)
        ensures
            final(self)@ == (State {
                append: old(self)@.append.push(at(Role::Item, item@)),
                ..old(self)@
            }),
    {
        broadcast use group_trees;

        self.append_module_items.push(placed(Role::Item, item));
    }

    fn add_re_export(&mut self, entity: Node, export_name: String)
        ensures
            final(self)@ == with_re_export(old(self)@, entity@, export_name@),
    {
        let name: ReExportName = self.next_re_export_name();
        self.push_item(import_equals(ident(name.to_string()), entity, false));
        self.push_item(name.into_module_item(export_name));
    }

    /// Exports what a part of `export { .. } from ".."` exports.
    fn re_export_specifier(&mut self, n: &Node, id: usize)
        ensures
            final(self)@ == specifier_re_exported(n@, id as int, old(self)@),
    {
        reveal(specifier_re_exported);
        let code: String = super::binder::ModuleId(id).to_code_string();
        if n.kind == Kind::ExportNamedSpecifier {
            match n.get(Role::Orig) {
                Some(orig) => {
                    if orig.kind != Kind::Str {
                        match n.get(Role::Exported) {
                            Some(exported) => {
                                if exported.kind != Kind::Str {
                                    self.add_re_export(
                                        qualified_name(
                                            code,
                                            to_namespace_name(orig.text.as_str()),
                                        ),
                                        exported.text.clone(),
                                    );
                                    return ;
                                }
                            },
                            None => {
                                self.add_re_export(
                                    qualified_name(code, to_namespace_name(orig.text.as_str())),
                                    orig.text.clone(),
                                );
                                return ;
                            },
                        }
                    }
                },
                None => {},
            }
        } else if n.kind == Kind::ExportNamespaceSpecifier {
            match n.get(Role::Name) {
                Some(name) => {
                    if name.kind != Kind::Str {
                        self.add_re_export(entity_name(code), name.text.clone());
                        return ;
                    }
                },
                None => {},
            }
        }
        self.unsupported = true;
    }

    fn visit_mut_export_default_expr(&mut self, env: &ModuleEnv, n: &Node)
        ensures
            final(self)@ == default_exported(n@, env@, old(self)@),
    {
        reveal(default_exported);
        if env.in_namespace {
            match n.get(Role::Expr) {
                Some(expr) => {
                    if expr.kind == Kind::IdentExpr {
                        self.push_item(export_x_as_y(expr.text.clone(), "__default".to_owned()));
                    }
                },
                None => {},
            }
        }
    }

    /// Notes a function that returns something but does not say of what type.
    fn note_function(&mut self, n: &Node, has_return: bool)
        requires
            has_return == function_returns(n@),
        ensures
            final(self)@ == function_noted(n@, old(self)@),
    {
        reveal(function_noted);
        if has_return && !n.has(Role::ReturnType) {
            self.missing_types.push(n.span.lo);
        }
    }

    /// Notes a property of a pattern whose key is no name.
    fn note_key(&mut self, n: &Node)
        ensures
            final(self)@ == key_noted(n@, old(self)@),
    {
        reveal(key_noted);
        let is_name: bool = match n.get(Role::Key) {
            Some(key) => key.kind == Kind::Ident,
            None => false,
        };
        if !is_name {
            self.unsupported = true;
        }
    }

    /// The tree, transformed as what it is.
    pub fn visit(&mut self, env: &ModuleEnv, n: &Node) -> (r: Node)
        ensures
            visited(n@, Mode::Plain, env@, old(self)@) == single(r@, final(self)@),
        decreases n, 4nat,
    {
        reveal(node_out);
        self.visit_plain(env, n)
    }

    /// The tree, transformed in some way.
    fn visit_as(&mut self, env: &ModuleEnv, n: &Node, mode: Mode) -> (r: Vec<Node>)
        ensures
            visited(n@, mode, env@, old(self)@) == (Visited {
                trees: trees(r@),
                st: final(self)@,
            }),
        decreases n, 4nat,
    {
        reveal(node_out);
        match mode {
            Mode::Plain => one(self.visit_plain(env, n)),
            Mode::AsParam => {
                let parts: Vec<Node> = self.visit_one(env, n, Role::Pattern, Mode::Plain);
                one(make_as_kind(n, Kind::Param, parts))
            },
            Mode::AsPrivateProp => {
                let parts: Vec<Node> = self.visit_one(env, n, Role::Key, Mode::Plain);
                one(make_as_private_prop(n, parts))
            },
            Mode::WithoutType => one(self.visit_mut_class_prop(env, n, true)),
            Mode::AsAssignProp => {
                let parts: Vec<Node> = self.visit_one(env, n, Role::Key, Mode::Plain);
                self.note_key(n);
                one(make_as_kind(n, Kind::AssignPatProp, parts))
            },
            Mode::AsProps => if n.kind == Kind::Constructor {
                self.visit_parts(env, n, Owner::PropsOfConstructor)
            } else {
                one(self.param_prop(env, n))
            },
            Mode::Key => if n.kind == Kind::AssignPat {
                self.visit_one(env, n, Role::Left, Mode::Key)
            } else {
                self.visit_one(env, n, Role::Name, Mode::Plain)
            },
            Mode::Ann => self.visit_one(env, n, Role::TypeAnn, Mode::Plain),
            Mode::DefaultAnn => self.default_ann(env, n),
            Mode::Inferred => self.inferred(env, n),
            Mode::Props => self.visit_parts(env, n, Owner::Props),
        }
    }

    fn visit_plain(&mut self, env: &ModuleEnv, n: &Node) -> (r: Node)
        ensures
            plain_out(n@, env@, visitor(n@.children, env@), old(self)@) == single(
                r@,
                final(self)@,
            ),
        decreases n, 3nat,
    {
        reveal(plain_out);
        match n.kind {
            Kind::ExportDefaultExpr => {
                self.visit_mut_export_default_expr(env, n);
                n.dup()
            },
            Kind::Class => self.visit_mut_class(env, n),
            Kind::ClassProp => self.visit_mut_class_prop(env, n, false),
            Kind::Constructor => {
                let parts: Vec<Node> = self.visit_parts(env, n, Owner::Constructor);
                with_parts(n, parts)
            },
            Kind::Function => self.visit_mut_function(env, n),
            Kind::VarDeclarator => {
                let parts: Vec<Node> = self.visit_parts(env, n, Owner::VarDeclarator);
                let mut r: Node = with_parts(n, parts);
                r.flags.definite = false;
                r
            },
            Kind::VarDecl => {
                let parts: Vec<Node> = self.visit_parts(env, n, Owner::VarDecl);
                with_parts(n, parts)
            },
            Kind::AssignPat => self.visit_mut_pat(env, n),
            Kind::ObjectPat => {
                let parts: Vec<Node> = self.visit_parts(env, n, Owner::ObjectPat);
                with_parts(n, parts)
            },
            Kind::AssignPatProp => {
                let parts: Vec<Node> = self.visit_parts(env, n, Owner::AssignPatProp);
                with_parts(n, parts)
            },
            Kind::ExportNamed => self.visit_mut_named_export(env, n),
            Kind::TsModuleBlock => {
                let items: Vec<Node> = self.visit_mut_module_items(env, &n.children);
                with_parts(n, items)
            },
            _ => {
                let parts: Vec<Node> = self.visit_parts(env, n, Owner::Other);
                with_parts(n, parts)
            },
        }
    }

    fn visit_mut_class(&mut self, env: &ModuleEnv, n: &Node) -> (r: Node)
        ensures
            class_out(n@, env@, visitor(n@.children, env@), old(self)@) == single(
                r@,
                final(self)@,
            ),
        decreases n, 1nat,
    {
        reveal(class_out);
        broadcast use group_trees;

        let mut members: Vec<Node> = self.visit_parts(env, n, Owner::PropsOfClass);
        let mut rest: Vec<Node> = self.visit_parts(env, n, Owner::Class);
        members.append(&mut rest);
        make_class_with(n, members)
    }

    /// A function without its body, and with a return type.
    pub fn visit_mut_function(&mut self, env: &ModuleEnv, n: &Node) -> (r: Node)
        ensures
            function_out(n@, env@, visitor(n@.children, env@), old(self)@) == single(
                r@,
                final(self)@,
            ),
            n@.kind == Kind::Function ==> visited(n@, Mode::Plain, env@, old(self)@) == single(
                r@,
                final(self)@,
            ),
        decreases n, 1nat,
    {
        reveal(function_out);
        reveal(node_out);
        reveal(plain_out);
        let has_return: bool = get_return_stmt_from_function(n).is_some();
        self.note_function(n, has_return);
        let parts: Vec<Node> = self.visit_parts(env, n, Owner::Function);
        make_function_with(n, parts, has_return)
    }

    fn visit_mut_class_prop(&mut self, env: &ModuleEnv, n: &Node, drop_type: bool) -> (r: Node)
        ensures
            prop_out(n@, visitor(n@.children, env@), old(self)@, drop_type) == single(
                r@,
                final(self)@,
            ),
        decreases n, 1nat,
    {
        reveal(prop_out);
        broadcast use group_trees;

        let mut parts: Vec<Node> = self.visit_one(env, n, Role::Key, Mode::Plain);
        let ann: Vec<Node> = if !drop_type && n.has(Role::TypeAnn) {
            self.visit_one(env, n, Role::TypeAnn, Mode::Plain)
        } else if n.flags.access == Access::Private {
            Vec::new()
        } else {
            let told: Vec<Node> = self.visit_one(env, n, Role::Value, Mode::Inferred);
            one(make_ann_or_unknown(told))
        };
        push_ann(&mut parts, ann);
        with_parts(n, parts)
    }

    /// The property that a parameter declares.
    fn param_prop(&mut self, env: &ModuleEnv, n: &Node) -> (r: Node)
        ensures
            param_prop_out(n@, visitor(n@.children, env@), old(self)@) == single(
                r@,
                final(self)@,
            ),
        decreases n, 1nat,
    {
        reveal(param_prop_out);
        if !supports_param_prop(n) {
            self.unsupported = true;
            return make_no_prop();
        }
        proof {
            lemma_key_single(n@, env@, self@);
        }
        let mut keys: Vec<Node> = self.visit_one(env, n, Role::Pattern, Mode::Key);
        let mode: Mode = if n.get(Role::Pattern).unwrap().kind == Kind::AssignPat {
            Mode::DefaultAnn
        } else {
            Mode::Ann
        };
        let ghost all = trees(keys@);
        assert(keys@.len() == all.len());
        let key: Node = keys.swap_remove(0);
        assert(all[0] == key@);
        let ann: Vec<Node> = self.visit_one(env, n, Role::Pattern, mode);
        make_param_prop(n, key, ann)
    }

    /// The type annotation of a pattern with a default value.
    fn default_ann(&mut self, env: &ModuleEnv, n: &Node) -> (r: Vec<Node>)
        ensures
            default_ann_out(n@, visitor(n@.children, env@), old(self)@) == (Visited {
                trees: trees(r@),
                st: final(self)@,
            }),
        decreases n, 1nat,
    {
        reveal(default_ann_out);
        let typed: bool = match n.get(Role::Left) {
            Some(left) => left.has(Role::TypeAnn),
            None => false,
        };
        if typed {
            self.visit_one(env, n, Role::Left, Mode::Ann)
        } else {
            self.visit_one(env, n, Role::Right, Mode::Inferred)
        }
    }

    /// The type that can be told of an expression, as an annotation.
    fn inferred(&mut self, env: &ModuleEnv, n: &Node) -> (r: Vec<Node>)
        ensures
            inferred_out(n@, visitor(n@.children, env@), old(self)@) == (Visited {
                trees: trees(r@),
                st: final(self)@,
            }),
        decreases n, 1nat,
    {
        reveal(inferred_out);
        reveal(one_part);
        broadcast use group_trees;

        if n.kind == Kind::TsTypeAssertion || n.kind == Kind::TsAs {
            match n.get(Role::Type) {
                Some(t) => {
                    proof {
                        lemma_place(n@, Role::Type);
                        lemma_visitor(
                            n@.children,
                            env@,
                            place(n@, Role::Type),
                            Mode::Plain,
                            self@,
                        );
                    }
                    let t: Node = self.visit(env, t);
                    one(ts_type_ann(t))
                },
                None => Vec::new(),
            }
        } else {
            match maybe_infer_type_from_lit(n.kind) {
                Some(t) => one(ts_type_ann(t)),
                None => Vec::new(),
            }
        }
    }

    fn visit_mut_pat(&mut self, env: &ModuleEnv, n: &Node) -> (r: Node)
        ensures
            assign_out(n@, env@, visitor(n@.children, env@), old(self)@) == single(
                r@,
                final(self)@,
            ),
        decreases n, 2nat,
    {
        reveal(assign_out);
        match n.get(Role::Left) {
            Some(left) => {
                if left.kind == Kind::BindingIdent {
                    match left.get(Role::Name) {
                        Some(name) => {
                            let ann: Vec<Node> = self.default_ann(env, n);
                            return make_optional_binding(n.role, name.text.clone(), ann);
                        },
                        None => {},
                    }
                } else if left.kind == Kind::ObjectPat {
                    let props: Vec<Node> = self.visit_one(env, n, Role::Left, Mode::Props);
                    let ann: Vec<Node> = self.default_ann(env, n);
                    return make_optional_object(n.role, props, ann);
                }
            },
            None => {},
        }
        let parts: Vec<Node> = self.visit_parts(env, n, Owner::Other);
        with_parts(n, parts)
    }

    fn visit_mut_named_export(&mut self, env: &ModuleEnv, n: &Node) -> (r: Node)
        ensures
            export_out(n@, env@, visitor(n@.children, env@), old(self)@) == single(
                r@,
                final(self)@,
            ),
        decreases n, 2nat,
    {
        reveal(export_out);
        broadcast use group_trees;

        match n.get(Role::Source) {
            Some(source) => match env.source(source.text.as_str()) {
                Some(found) => {
                    match found.0 {
                        Some(id) => {
                            self.re_export_all(env, n, id);
                        },
                        None => {
                            self.unsupported = true;
                        },
                    }
                    return with_parts(n, Vec::new());
                },
                None => {},
            },
            None => {},
        }
        let parts: Vec<Node> = self.visit_parts(env, n, Owner::Export);
        with_parts(n, parts)
    }

    /// Exports what `export { .. } from ".."` exports.
    fn re_export_all(&mut self, env: &ModuleEnv, n: &Node, id: usize)
        ensures
            final(self)@ == re_exported_upto(
                n@.children,
                n@.children.len(),
                env@,
                id as int,
                old(self)@,
            ),
    {
        let ghost st = self@;
        let ghost s = n@.children;
        let mut i: usize = 0;
        while i < n.children.len()
            invariant
                i <= n.children@.len(),
                s == n@.children,
                self@ == re_exported_upto(s, i as nat, env@, id as int, st),
            decreases n.children@.len() - i,
        {
            assert(s[i as int] == n.children@[i as int]@);
            if n.children[i].role == Role::Specifier && env.keeps(&n.children[i]) {
                self.re_export_specifier(&n.children[i], id);
            }
            i = i + 1;
        }
    }

    /// The items of a block.
    pub fn visit_mut_module_items(&mut self, env: &ModuleEnv, nodes: &Vec<Node>) -> (r: Vec<Node>)
        ensures
            block_out(trees(nodes@), env@, visitor(trees(nodes@), env@), old(self)@) == (Visited {
                trees: trees(r@),
                st: final(self)@,
            }),
        decreases nodes, 0nat,
    {
        reveal(block_out);
        broadcast use group_trees;

        let ghost st = self@;
        let ghost s = trees(nodes@);
        let ghost f = visitor(s, env@);
        let mut r: Vec<Node> = Vec::new();
        let mut i: usize = 0;
        while i < nodes.len()
            invariant
                i <= nodes@.len(),
                s == trees(nodes@),
                f == visitor(s, env@),
                trees(r@) == items_upto(s, i as nat, env@, f, st).trees,
                self@ == items_upto(s, i as nat, env@, f, st).st,
            decreases nodes@.len() - i,
        {
            broadcast use group_trees;

            assert(s[i as int] == nodes@[i as int]@);
            proof {
                lemma_visitor(s, env@, i as int, Mode::Plain, self@);
            }
            if env.keeps_item(&nodes[i]) {
                let item: Node = self.visit(env, &nodes[i]);
                if env.item_stays(&item) {
                    r.push(item);
                }
            }
            i = i + 1;
        }
        let ghost before = self@;
        r.append(&mut self.append_module_items);
        assert(self@ =~= (State { append: Seq::empty(), ..before }));
        add_workaround(env, &mut r);
        r
    }

    /// The parts of a node.
    fn visit_parts(&mut self, env: &ModuleEnv, n: &Node, owner: Owner) -> (r: Vec<Node>)
        ensures
            parts(n@, env@, owner, visitor(n@.children, env@), old(self)@) == (Visited {
                trees: trees(r@),
                st: final(self)@,
            }),
        decreases n, 0nat,
    {
        broadcast use group_trees;

        let ghost st = self@;
        let ghost s = n@.children;
        let ghost f = visitor(s, env@);
        let mut r: Vec<Node> = Vec::new();
        let mut i: usize = 0;
        while i < n.children.len()
            invariant
                i <= n.children@.len(),
                s == n@.children,
                f == visitor(s, env@),
                trees(r@) == parts_upto(s, i as nat, env@, owner, f, st).trees,
                self@ == parts_upto(s, i as nat, env@, owner, f, st).st,
            decreases n.children@.len() - i,
        {
            broadcast use group_trees;

            assert(s[i as int] == n.children@[i as int]@);
            match choose_mode(env, &n.children, i, owner) {
                Some(mode) => {
                    proof {
                        lemma_visitor(s, env@, i as int, mode, self@);
                    }
                    let mut part: Vec<Node> = self.visit_as(env, &n.children[i], mode);
                    r.append(&mut part);
                },
                None => {},
            }
            i = i + 1;
        }
        r
    }

    /// The part of a node with the role, if there is one.
    fn visit_one(&mut self, env: &ModuleEnv, n: &Node, role: Role, mode: Mode) -> (r: Vec<Node>)
        ensures
            one_part(n@, role, mode, visitor(n@.children, env@), old(self)@) == (Visited {
                trees: trees(r@),
                st: final(self)@,
            }),
        decreases n, 0nat,
    {
        reveal(one_part);
        broadcast use group_trees;

        match n.get(role) {
            Some(part) => {
                proof {
                    lemma_place(n@, role);
                    lemma_visitor(n@.children, env@, place(n@, role), mode, self@);
                }
                self.visit_as(env, part, mode)
            },
            None => Vec::new(),
        }
    }
}

proof fn lemma_visitor(s: Seq<Tree>, env: Env, i: int, mode: Mode, st: State)
    requires
        0 <= i < s.len(),
    ensures
        visitor(s, env)(i, mode, st) == visited(s[i], mode, env, st),
{
}

/// A node that is transformed as what it is becomes one node.
pub proof fn lemma_plain_single(t: Tree, env: Env, st: State)
    ensures
        visited(t, Mode::Plain, env, st).trees.len() == 1,
{
    reveal(node_out);
    reveal(plain_out);
    reveal(class_out);
    reveal(prop_out);
    reveal(function_out);
    reveal(assign_out);
    reveal(export_out);
}

/// The name that a parameter binds becomes one node.
pub proof fn lemma_key_single(t: Tree, env: Env, st: State)
    requires
        param_prop_supported(t),
    ensures
        one_part(t, Role::Pattern, Mode::Key, visitor(t.children, env), st).trees.len() == 1,
{
    reveal(one_part);
    reveal(node_out);
    let pattern = child(t, Role::Pattern);
    lemma_visitor(t.children, env, place(t, Role::Pattern), Mode::Key, st);
    if pattern.kind == Kind::AssignPat {
        let left = child(pattern, Role::Left);
        lemma_visitor(pattern.children, env, place(pattern, Role::Left), Mode::Key, st);
        lemma_visitor(left.children, env, place(left, Role::Name), Mode::Plain, st);
        lemma_plain_single(child(left, Role::Name), env, st);
    } else {
        lemma_visitor(pattern.children, env, place(pattern, Role::Name), Mode::Plain, st);
        lemma_plain_single(child(pattern, Role::Name), env, st);
    }
}

fn supports_param_prop(n: &Node) -> (r: bool)
    ensures
        r == param_prop_supported(n@),
{
    match n.get(Role::Pattern) {
        Some(pattern) => {
            if pattern.kind == Kind::AssignPat {
                match pattern.get(Role::Left) {
                    Some(left) => left.kind == Kind::BindingIdent && left.has(Role::Name),
                    None => false,
                }
            } else {
                pattern.kind == Kind::BindingIdent && pattern.has(Role::Name)
            }
        },
        None => false,
    }
}

/// Adds a declaration to a block of a namespace that holds only names.
fn add_workaround(env: &ModuleEnv, r: &mut Vec<Node>)
    ensures
        trees(final(r)@) == with_workaround(trees(old(r)@), env@),
{
    reveal(with_workaround);
    broadcast use group_trees;

    if !env.in_namespace {
        return ;
    }
    let ghost all = trees(r@);
    let mut j: usize = 0;
    while j < r.len() && ((r[j].kind == Kind::TsImportEquals && !r[j].flags.is_export) || r[j].kind
        == Kind::ExportNamed)
        invariant
            j <= r@.len(),
            all == trees(r@),
            forall|k: int| 0 <= k < j ==> only_names(#[trigger] all[k]),
        decreases r@.len() - j,
    {
        assert(all[j as int] == r@[j as int]@);
        j = j + 1;
    }
    if j == r.len() {
        let decl: Node = const_decl(
            binding_ident(
                ident("__packTsUnder5_2_Workaround__".to_owned()),
                Some(ts_type_ann(ts_keyword_type("unknown"))),
            ),
            None,
        );
        r.push(placed(Role::Item, decl));
    } else {
        assert(all[j as int] == r@[j as int]@);
        assert(!only_names(all[j as int]));
    }
}

/// How a part of a node is transformed, if it is not left out.
fn choose_mode(env: &ModuleEnv, nodes: &Vec<Node>, i: usize, owner: Owner) -> (r: Option<Mode>)
    requires
        i < nodes@.len(),
    ensures
        r == part_mode(trees(nodes@), i as int, env@, owner),
{
    reveal(part_mode);
    let n: &Node = &nodes[i];
    assert(trees(nodes@)[i as int] == n@);
    if n.role == Role::Decorator {
        return None;
    }
    match owner {
        Owner::Other => Some(Mode::Plain),
        Owner::Class => if n.role != Role::Member {
            Some(Mode::Plain)
        } else if !env.member_stays(nodes, i) {
            None
        } else if n.kind == Kind::ClassMethod && n.flags.access == Access::Private {
            Some(Mode::AsPrivateProp)
        } else if n.kind == Kind::ClassProp && n.flags.access == Access::Private {
            Some(Mode::WithoutType)
        } else {
            Some(Mode::Plain)
        },
        Owner::Constructor => if n.role == Role::Body {
            None
        } else if n.kind == Kind::TsParamProp {
            Some(Mode::AsParam)
        } else {
            Some(Mode::Plain)
        },
        Owner::Function => if n.role == Role::Body {
            None
        } else {
            Some(Mode::Plain)
        },
        Owner::VarDeclarator => if n.role == Role::Init {
            None
        } else {
            Some(Mode::Plain)
        },
        Owner::VarDecl => if env.keeps(n) {
            Some(Mode::Plain)
        } else {
            None
        },
        Owner::ObjectPat => if n.kind == Kind::KeyValuePatProp {
            Some(Mode::AsAssignProp)
        } else {
            Some(Mode::Plain)
        },
        Owner::Props => if n.role != Role::Prop {
            None
        } else if n.kind == Kind::KeyValuePatProp {
            Some(Mode::AsAssignProp)
        } else {
            Some(Mode::Plain)
        },
        Owner::AssignPatProp => if n.role == Role::Value {
            None
        } else {
            Some(Mode::Plain)
        },
        Owner::Export => if n.role == Role::Source || (n.role == Role::Specifier && !env.keeps(n)) {
            None
        } else {
            Some(Mode::Plain)
        },
        Owner::PropsOfClass => if n.role == Role::Member && n.kind == Kind::Constructor
            && env.member_stays(nodes, i) {
            Some(Mode::AsProps)
        } else {
            None
        },
        Owner::PropsOfConstructor => if n.kind == Kind::TsParamProp {
            Some(Mode::AsProps)
        } else {
            None
        },
    }
}

}
