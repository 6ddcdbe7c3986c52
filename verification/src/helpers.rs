//! Pieces of syntax that the bundler writes itself, and spans.

use vstd::prelude::*;

use crate::syntax::{
    at, group_trees, no_span, plain, trees, Flags, Kind, Node, Role, Span, Tree, VarKind,
};

verus! {

/// A node that comes from no source file.
pub open spec fn made(kind: Kind, children: Seq<Tree>) -> Tree {
    Tree {
        kind,
        role: Role::Other,
        span: no_span(),
        text: Seq::empty(),
        flags: plain(),
        origin: 0,
        children,
    }
}

/// A node that comes from no source file and has text.
pub open spec fn word(kind: Kind, text: Seq<char>) -> Tree {
    Tree { text, ..made(kind, Seq::empty()) }
}

/// An identifier.
pub open spec fn name_tree(name: Seq<char>) -> Tree {
    word(Kind::Ident, name)
}

/// An identifier as an expression.
pub open spec fn name_expr_tree(name: Seq<char>) -> Tree {
    word(Kind::IdentExpr, name)
}

/// A name of a type or a namespace where it is referred to.
pub open spec fn entity_tree(name: Seq<char>) -> Tree {
    word(Kind::EntityName, name)
}

/// The type that a keyword names.
pub open spec fn keyword_tree(keyword: Seq<char>) -> Tree {
    word(Kind::TsKeywordType, keyword)
}

/// `: <type>`
pub open spec fn type_ann_tree(t: Tree) -> Tree {
    made(Kind::TsTypeAnn, seq![at(Role::Type, t)])
}

/// A variable's name with its type, if it has one.
pub open spec fn binding_tree(id: Tree, type_ann: Option<Tree>) -> Tree {
    made(
        Kind::BindingIdent,
        match type_ann {
            Some(t) => seq![at(Role::Name, id), at(Role::TypeAnn, t)],
            None => seq![at(Role::Name, id)],
        },
    )
}

/// `{ <x> as <y> }` in an export.
pub open spec fn export_specifier_tree(x: Seq<char>, y: Option<Seq<char>>) -> Tree {
    made(
        Kind::ExportNamedSpecifier,
        match y {
            Some(y) => seq![at(Role::Orig, name_tree(x)), at(Role::Exported, name_tree(y))],
            None => seq![at(Role::Orig, name_tree(x))],
        },
    )
}

/// `export { .. };`
pub open spec fn export_named_tree(specifiers: Seq<Tree>) -> Tree {
    made(Kind::ExportNamed, specifiers)
}

/// `export { <x> as <y> };`
pub open spec fn export_as_tree(x: Seq<char>, y: Seq<char>) -> Tree {
    export_named_tree(seq![at(Role::Specifier, export_specifier_tree(x, Some(y)))])
}

/// `<left>.<right>`
pub open spec fn member_of_tree(object: Tree, right: Seq<char>) -> Tree {
    made(Kind::MemberExpr, seq![at(Role::Object, object), at(Role::Property, name_tree(right))])
}

/// `<left>.<right>` of two names.
pub open spec fn member_tree(left: Seq<char>, right: Seq<char>) -> Tree {
    member_of_tree(name_expr_tree(left), right)
}

/// A declaration of one constant.
pub open spec fn const_tree(pattern: Tree, init: Option<Tree>) -> Tree {
    Tree {
        flags: Flags { var_kind: VarKind::Const, ..plain() },
        ..made(
            Kind::VarDecl,
            seq![
                at(
                    Role::Declarator,
                    made(
                        Kind::VarDeclarator,
                        match init {
                            Some(e) => seq![at(Role::Name, pattern), at(Role::Init, e)],
                            None => seq![at(Role::Name, pattern)],
                        },
                    ),
                ),
            ],
        )
    }
}

/// `const <name> = <init>;`
pub open spec fn const_var_tree(name: Seq<char>, init: Tree) -> Tree {
    const_tree(binding_tree(name_tree(name), None), Some(init))
}

/// `<key>: <value>` in an object.
pub open spec fn key_value_tree(key: Tree, value: Tree) -> Tree {
    made(Kind::KeyValueProp, seq![at(Role::Key, key), at(Role::Value, value)])
}

/// `{ get: () => <expr> }`
pub open spec fn getter_object_tree(expr: Tree) -> Tree {
    made(
        Kind::ObjectLit,
        seq![
            at(
                Role::Prop,
                key_value_tree(
                    name_tree("get"@),
                    made(Kind::ArrowExpr, seq![at(Role::Body, expr)]),
                ),
            ),
        ],
    )
}

/// `Object.defineProperty(<name>, "<key>", { get: () => <expr> });`
pub open spec fn define_property_tree(name: Seq<char>, key: Seq<char>, expr: Tree) -> Tree {
    made(
        Kind::ExprStmt,
        seq![
            at(
                Role::Expr,
                made(
                    Kind::CallExpr,
                    seq![
                        at(Role::Callee, member_tree("Object"@, "defineProperty"@)),
                        at(Role::Arg, name_expr_tree(name)),
                        at(Role::Arg, word(Kind::Str, key)),
                        at(Role::Arg, getter_object_tree(expr)),
                    ],
                ),
            ),
        ],
    )
}

/// A list of one tree.
pub fn one(a: Node) -> (r: Vec<Node>)
    ensures
        trees(r@) == seq![a@],
{
    let mut r: Vec<Node> = Vec::new();
    r.push(a);
    assert(trees(r@) =~= seq![a@]);
    r
}

/// A list of two trees.
pub fn two(a: Node, b: Node) -> (r: Vec<Node>)
    ensures
        trees(r@) == seq![a@, b@],
{
    let mut r: Vec<Node> = Vec::new();
    r.push(a);
    r.push(b);
    assert(trees(r@) =~= seq![a@, b@]);
    r
}

/// The node in another place of its parent.
pub fn placed(role: Role, n: Node) -> (r: Node)
    ensures
        r@ == at(role, n@),
{
    let mut r: Node = n;
    r.role = role;
    r
}

/// A node that comes from no source file.
pub fn make(kind: Kind, children: Vec<Node>) -> (r: Node)
    ensures
        r@ == made(kind, trees(children@)),
{
    Node {
        kind,
        role: Role::Other,
        span: Span::dummy(),
        text: String::new(),
        flags: Flags::none(),
        origin: 0,
        children,
    }
}

/// A node that comes from no source file and has text.
pub fn make_word(kind: Kind, text: String) -> (r: Node)
    ensures
        r@ == word(kind, text@),
{
    let children: Vec<Node> = Vec::new();
    assert(trees(children@) =~= Seq::<Tree>::empty());
    Node {
        kind,
        role: Role::Other,
        span: Span::dummy(),
        text,
        flags: Flags::none(),
        origin: 0,
        children,
    }
}

/// An identifier.
pub fn ident(name: String) -> (r: Node)
    ensures
        r@ == name_tree(name@),
{
    make_word(Kind::Ident, name)
}

/// An identifier as an expression.
pub fn ident_expr(name: String) -> (r: Node)
    ensures
        r@ == name_expr_tree(name@),
{
    make_word(Kind::IdentExpr, name)
}

/// A name of a type or a namespace where it is referred to.
pub fn entity_name(name: String) -> (r: Node)
    ensures
        r@ == entity_tree(name@),
{
    make_word(Kind::EntityName, name)
}

/// The type that a keyword names.
pub fn ts_keyword_type(keyword: &str) -> (r: Node)
    ensures
        r@ == keyword_tree(keyword@),
{
    make_word(Kind::TsKeywordType, keyword.to_owned())
}

/// `: <type>`
pub fn ts_type_ann(t: Node) -> (r: Node)
    ensures
        r@ == type_ann_tree(t@),
{
    make(Kind::TsTypeAnn, one(placed(Role::Type, t)))
}

/// A variable's name with its type, if it has one.
pub fn binding_ident(id: Node, type_ann: Option<Node>) -> (r: Node)
    ensures
        r@ == binding_tree(
            id@,
            match type_ann {
                Some(t) => Some(t@),
                None => None,
            },
        ),
{
    match type_ann {
        Some(t) => make(
            Kind::BindingIdent,
            two(placed(Role::Name, id), placed(Role::TypeAnn, t)),
        ),
        None => make(Kind::BindingIdent, one(placed(Role::Name, id))),
    }
}

/// `{ <x> as <y> }` in an export, or `{ <x> }`.
pub fn export_specifier(x: String, y: Option<String>) -> (r: Node)
    ensures
        r@ == export_specifier_tree(
            x@,
            match y {
                Some(y) => Some(y@),
                None => None,
            },
        ),
{
    match y {
        Some(y) => make(
            Kind::ExportNamedSpecifier,
            two(placed(Role::Orig, ident(x)), placed(Role::Exported, ident(y))),
        ),
        None => make(Kind::ExportNamedSpecifier, one(placed(Role::Orig, ident(x)))),
    }
}

/// `export { <x> as <y> };`
pub fn export_x_as_y(x: String, y: String) -> (r: Node)
    ensures
        r@ == export_as_tree(x@, y@),
{
    make(Kind::ExportNamed, one(placed(Role::Specifier, export_specifier(x, Some(y)))))
}

/// `<object>.<right>`
pub fn member_of(object: Node, right: String) -> (r: Node)
    ensures
        r@ == member_of_tree(object@, right@),
{
    make(Kind::MemberExpr, two(placed(Role::Object, object), placed(Role::Property, ident(right))))
}

/// `<left>.<right>`
pub fn member_x_y(left: String, right: String) -> (r: Node)
    ensures
        r@ == member_tree(left@, right@),
{
    member_of(ident_expr(left), right)
}

/// A declaration of one constant.
pub fn const_decl(pattern: Node, init: Option<Node>) -> (r: Node)
    ensures
        r@ == const_tree(
            pattern@,
            match init {
                Some(e) => Some(e@),
                None => None,
            },
        ),
{
    let declarator: Node = match init {
        Some(e) => make(
            Kind::VarDeclarator,
            two(placed(Role::Name, pattern), placed(Role::Init, e)),
        ),
        None => make(Kind::VarDeclarator, one(placed(Role::Name, pattern))),
    };
    let mut r: Node = make(Kind::VarDecl, one(placed(Role::Declarator, declarator)));
    r.flags.var_kind = VarKind::Const;
    r
}

/// `const <name> = <init>;`
pub fn const_var_decl(name: String, init: Node) -> (r: Node)
    ensures
        r@ == const_var_tree(name@, init@),
{
    const_decl(binding_ident(ident(name), None), Some(init))
}

/// `<key>: <value>` in an object.
pub fn key_value(key: Node, value: Node) -> (r: Node)
    ensures
        r@ == key_value_tree(key@, value@),
{
    make(Kind::KeyValueProp, two(placed(Role::Key, key), placed(Role::Value, value)))
}

/// `Object.defineProperty(<name>, "<key>", { get: () => <expr> });`
pub fn object_define_property(name: String, key: String, expr: Node) -> (r: Node)
    ensures
        r@ == define_property_tree(name@, key@, expr@),
{
    let arrow: Node = make(Kind::ArrowExpr, one(placed(Role::Body, expr)));
    let getter: Node = make(
        Kind::ObjectLit,
        one(placed(Role::Prop, key_value(ident("get".to_owned()), arrow))),
    );
    let mut parts: Vec<Node> = two(
        placed(Role::Callee, member_x_y("Object".to_owned(), "defineProperty".to_owned())),
        placed(Role::Arg, ident_expr(name)),
    );
    proof {
        broadcast use group_trees;

    }
    parts.push(placed(Role::Arg, make_word(Kind::Str, key)));
    parts.push(placed(Role::Arg, getter));
    assert(trees(parts@) =~= seq![
        at(Role::Callee, member_tree("Object"@, "defineProperty"@)),
        at(Role::Arg, name_expr_tree(name@)),
        at(Role::Arg, word(Kind::Str, key@)),
        at(Role::Arg, getter_object_tree(expr@)),
    ]) by {
        broadcast use group_trees;

    }
    let call: Node = make(Kind::CallExpr, parts);
    make(Kind::ExprStmt, one(placed(Role::Expr, call)))
}

/// Whether an item of a module is its default export.
pub open spec fn is_default_export(t: Tree) -> bool {
    t.kind == Kind::ExportDefaultDecl || t.kind == Kind::ExportDefaultExpr
}

/// Whether a module exports something as `default` by a default declaration or
/// expression.
pub fn module_has_default_export(module: &Node) -> (r: bool)
    ensures
        r == exists|i: int|
            0 <= i < module@.children.len() && is_default_export(#[trigger] module@.children[i]),
{
    let mut i: usize = 0;
    while i < module.children.len()
        invariant
            i <= module.children@.len(),
            forall|j: int|
                0 <= j < i ==> !is_default_export(#[trigger] module@.children[j]),
        decreases module.children@.len() - i,
    {
        assert(module@.children[i as int] == module.children@[i as int]@);
        if module.children[i].kind == Kind::ExportDefaultDecl || module.children[i].kind
            == Kind::ExportDefaultExpr {
            return true;
        }
        i = i + 1;
    }
    false
}

/// A span moved up by `by`, unless it stands nowhere.
pub open spec fn moved_span(span: Span, by: nat) -> Span {
    if span.nowhere() {
        span
    } else {
        Span { lo: (span.lo + by) as u32, hi: (span.hi + by) as u32, ctxt: span.ctxt }
    }
}

/// A tree whose spans, but for those that stand nowhere, are moved up by `by`.
pub open spec fn moved(t: Tree, by: nat) -> Tree
    decreases t,
{
    Tree { span: moved_span(t.span, by), children: all_moved(t.children, by), ..t }
}

/// Every tree of a list, moved.
pub open spec fn all_moved(s: Seq<Tree>, by: nat) -> Seq<Tree>
    decreases s,
{
    Seq::new(
        s.len(),
        |i: int|
            if 0 <= i < s.len() {
                moved(s[i], by)
            } else {
                arbitrary()
            },
    )
}

/// Whether every position of a tree can be moved up by `by`.
pub open spec fn can_move(t: Tree, by: nat) -> bool
    decreases t,
{
    &&& t.span.nowhere() || (t.span.lo + by <= u32::MAX && t.span.hi + by <= u32::MAX)
    &&& forall|i: int| 0 <= i < t.children.len() ==> can_move(#[trigger] t.children[i], by)
}

/// Moves the spans of a tree to where its source file starts in the source map.
pub fn adjust_spans(start_pos: u32, module: &mut Node)
    requires
        can_move(old(module)@, start_pos as nat),
    ensures
        final(module)@ == moved(old(module)@, start_pos as nat),
    decreases *old(module),
{
    let ghost before = module@;
    if !(module.span.lo == 0 && module.span.hi == 0) {
        module.span = Span {
            lo: start_pos + module.span.lo,
            hi: start_pos + module.span.hi,
            ctxt: module.span.ctxt,
        };
    }
    let len: usize = module.children.len();
    let mut i: usize = 0;
    while i < len
        invariant
            i <= len,
            len == module.children@.len(),
            len == old(module).children@.len(),
            before == old(module)@,
            can_move(before, start_pos as nat),
            *module == (Node { span: module.span, children: module.children, ..*old(module) }),
            module.span == moved_span(before.span, start_pos as nat),
            forall|j: int|
                0 <= j < i ==> (#[trigger] module.children@[j])@ == moved(
                    before.children[j],
                    start_pos as nat,
                ),
            forall|j: int|
                i <= j < len ==> module.children@[j] == old(module).children@[j],
        decreases len - i,
    {
        assert(can_move(before.children[i as int], start_pos as nat));
        adjust_spans(start_pos, &mut module.children[i]);
        i = i + 1;
    }
    assert(module@.children =~= moved(before, start_pos as nat).children);
}

/// Whether every position of a tree can be moved up by `by`.
pub fn spans_fit(n: &Node, by: u32) -> (r: bool)
    ensures
        r == can_move(n@, by as nat),
    decreases n,
{
    let room: u32 = u32::MAX - by;
    if !(n.span.lo == 0 && n.span.hi == 0) && (n.span.lo > room || n.span.hi > room) {
        return false;
    }
    let mut i: usize = 0;
    while i < n.children.len()
        invariant
            i <= n.children@.len(),
            forall|j: int| 0 <= j < i ==> can_move(#[trigger] n@.children[j], by as nat),
        decreases n.children@.len() - i,
    {
        assert(n@.children[i as int] == n.children@[i as int]@);
        if !spans_fit(&n.children[i], by) {
            return false;
        }
        i = i + 1;
    }
    true
}

/// Moving a tree twice is moving it once by the sum, as long as no position
/// that stood somewhere comes to stand nowhere.
pub proof fn law_moves_add_up(t: Tree, a: nat, b: nat)
    requires
        can_move(t, a + b),
    ensures
        moved(moved(t, a), b) == moved(t, a + b),
        can_move(t, a),
        can_move(moved(t, a), b),
    decreases t,
{
    assert forall|i: int| 0 <= i < t.children.len() implies can_move(#[trigger] t.children[i], a)
        && moved(moved(t.children[i], a), b) == moved(t.children[i], a + b) && can_move(
        moved(t.children[i], a),
        b,
    ) by {
        assert(can_move(t.children[i], a + b));
        law_moves_add_up(t.children[i], a, b);
    }
    assert forall|i: int| 0 <= i < moved(t, a).children.len() implies can_move(
        #[trigger] moved(t, a).children[i],
        b,
    ) by {
        assert(moved(t, a).children[i] == moved(t.children[i], a));
    }
    assert(moved(moved(t, a), b).children =~= moved(t, a + b).children) by {
        assert forall|i: int| 0 <= i < t.children.len() implies moved(moved(t, a), b).children[i]
            == moved(t, a + b).children[i] by {
            assert(moved(t, a).children[i] == moved(t.children[i], a));
        }
    }
}

}
