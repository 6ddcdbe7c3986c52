//! Turns a module into statements that refer to other modules through their
//! objects.

use vstd::prelude::*;

use crate::helpers::{
    binding_ident, binding_tree, const_decl, const_tree, ident, ident_expr, key_value,
    key_value_tree, made, make, member_of, member_of_tree, name_expr_tree, name_tree, placed,
};
use crate::syntax::{at, child, group_trees, has_part, id_of, trees, Id, Kind, Node, Role, Tree};
use crate::text::texts;

verus! {

/// An identifier of a module and the path to what it stands for: the object of
/// another module and, unless that is meant itself, one of its properties.
#[derive(Debug)]
pub struct ReplaceId {
    pub id: Id,
    pub parts: Vec<String>,
}

/// The identifiers that are replaced in a module. What comes later counts.
#[derive(Debug)]
pub struct ReplaceIds {
    pub entries: Vec<ReplaceId>,
}

/// What a [`ReplaceId`] stands for.
pub struct Replaced {
    pub id: (Seq<char>, u32),
    pub parts: Seq<Seq<char>>,
}

impl ReplaceId {
    pub open spec fn view(&self) -> Replaced {
        Replaced { id: self.id@, parts: texts(self.parts@) }
    }
}

/// The path for an identifier among the first `n` entries.
pub open spec fn parts_upto(s: Seq<Replaced>, n: nat, id: (Seq<char>, u32)) -> Option<
    Seq<Seq<char>>,
>
    decreases n,
{
    if n == 0 {
        None
    } else if s[n - 1].id == id {
        Some(s[n - 1].parts)
    } else {
        parts_upto(s, (n - 1) as nat, id)
    }
}

/// The path for an identifier, if it is replaced.
pub open spec fn parts_of(s: Seq<Replaced>, id: (Seq<char>, u32)) -> Option<Seq<Seq<char>>> {
    parts_upto(s, s.len(), id)
}

/// Whether every path has a part.
pub open spec fn all_have_parts(s: Seq<Replaced>) -> bool {
    forall|i: int| 0 <= i < s.len() ==> (#[trigger] s[i]).parts.len() > 0
}

impl ReplaceIds {
    pub open spec fn view(&self) -> Seq<Replaced> {
        Seq::new(self.entries@.len(), |i: int| self.entries@[i]@)
    }

    /// Every path has a part.
    pub open spec fn wf(&self) -> bool {
        all_have_parts(self@)
    }

    pub fn new() -> (r: ReplaceIds)
        ensures
            r.wf(),
            r@ == Seq::<Replaced>::empty(),
    {
        let r = ReplaceIds { entries: Vec::new() };
        assert(r@ =~= Seq::<Replaced>::empty());
        r
    }

    pub fn insert(&mut self, id: Id, parts: Vec<String>)
        requires
            old(self).wf(),
            parts@.len() > 0,
        ensures
            final(self).wf(),
            final(self)@ == old(self)@.push(Replaced { id: id@, parts: texts(parts@) }),
    {
        let ghost before = self@;
        self.entries.push(ReplaceId { id, parts });
        assert(self@ =~= before.push(Replaced { id: id@, parts: texts(parts@) }));
        assert forall|i: int| 0 <= i < self@.len() implies (#[trigger] self@[i]).parts.len() > 0 by {
            if i < before.len() {
                assert(before[i].parts.len() > 0);
            }
        }
    }

    /// The path for an identifier, if it is replaced.
    pub fn get(&self, id: &Id) -> (r: Option<&Vec<String>>)
        ensures
            match r {
                Some(parts) => parts_of(self@, id@) == Some(texts(parts@)),
                None => parts_of(self@, id@) is None,
            },
            self.wf() && r is Some ==> r->0@.len() > 0,
    {
        let mut n: usize = self.entries.len();
        while n > 0
            invariant
                n <= self.entries@.len(),
                parts_of(self@, id@) == parts_upto(self@, n as nat, id@),
            decreases n,
        {
            assert(self@[n - 1] == self.entries@[n - 1]@);
            if self.entries[n - 1].id.same(id) {
                return Some(&self.entries[n - 1].parts);
            }
            n = n - 1;
        }
        None
    }
}

/// The expression for the first `n` parts of a path: `a`, `a.b`, `a.b.c`.
pub open spec fn chain(parts: Seq<Seq<char>>, n: nat) -> Tree
    decreases n,
{
    if n <= 1 {
        name_expr_tree(parts[0])
    } else {
        member_of_tree(chain(parts, (n - 1) as nat), parts[n - 1])
    }
}

/// The expression for a path.
pub open spec fn path_tree(parts: Seq<Seq<char>>) -> Tree {
    chain(parts, parts.len())
}

/// The expression for a path.
pub fn replace_id_to_expr(parts: &Vec<String>) -> (r: Node)
    requires
        parts@.len() > 0,
    ensures
        r@ == path_tree(texts(parts@)),
{
    let mut r: Node = ident_expr(parts[0].clone());
    let mut i: usize = 1;
    while i < parts.len()
        invariant
            1 <= i <= parts@.len(),
            r@ == chain(texts(parts@), i as nat),
        decreases parts@.len() - i,
    {
        r = member_of(r, parts[i].clone());
        i = i + 1;
    }
    r
}

/// Whether something is awaited in a tree, outside the functions in it.
pub open spec fn has_await(t: Tree) -> bool
    decreases t,
{
    if t.kind == Kind::AwaitExpr {
        true
    } else if t.kind == Kind::Function || t.kind == Kind::ArrowExpr || t.kind
        == Kind::ClassMethod {
        false
    } else {
        exists|i: int| 0 <= i < t.children.len() && has_await(#[trigger] t.children[i])
    }
}

/// Whether something is awaited in a tree, outside the functions in it.
pub fn has_await_keyword(n: &Node) -> (r: bool)
    ensures
        r == has_await(n@),
    decreases n,
{
    if n.kind == Kind::AwaitExpr {
        return true;
    }
    if n.kind == Kind::Function || n.kind == Kind::ArrowExpr || n.kind == Kind::ClassMethod {
        return false;
    }
    let mut i: usize = 0;
    while i < n.children.len()
        invariant
            i <= n.children@.len(),
            n.kind != Kind::AwaitExpr,
            !(n.kind == Kind::Function || n.kind == Kind::ArrowExpr || n.kind
                == Kind::ClassMethod),
            forall|j: int| 0 <= j < i ==> !has_await(#[trigger] n@.children[j]),
        decreases n.children@.len() - i,
    {
        assert(n@.children[i as int] == n.children@[i as int]@);
        if has_await_keyword(&n.children[i]) {
            assert(has_await(n@.children[i as int]));
            return true;
        }
        i = i + 1;
    }
    false
}

/// Whether an item of such a kind stays in any module. Imports and exports without a
/// declaration do not.
pub open spec fn stays(kind: Kind) -> bool {
    !(kind == Kind::ImportDecl || kind == Kind::TsNamespaceExport || kind == Kind::ExportNamed
        || kind == Kind::ExportAll)
}

/// Whether an item lists names that the module exports.
pub open spec fn is_list(t: Tree) -> bool {
    t.kind == Kind::ExportNamed && !t.flags.type_only && !has_part(t, Role::Source)
}

/// Whether a part of a list stays in the root: it is more than a type, and what it
/// exports is not imported.
pub open spec fn specifier_stays(t: Tree, ids: Seq<Replaced>) -> bool {
    t.kind == Kind::ExportNamedSpecifier && !t.flags.type_only && has_part(t, Role::Orig)
        && parts_of(ids, id_of(child(t, Role::Orig))) is None
}

/// Those of the first `n` parts of a list that stay in the root.
pub open spec fn specifiers_upto(s: Seq<Tree>, n: nat, ids: Seq<Replaced>) -> Seq<Tree>
    decreases n,
{
    if n == 0 {
        Seq::empty()
    } else if specifier_stays(s[n - 1], ids) {
        specifiers_upto(s, (n - 1) as nat, ids).push(s[n - 1])
    } else {
        specifiers_upto(s, (n - 1) as nat, ids)
    }
}

/// Whether an item stays in a module: lists of exports do in the root, as far as they
/// hold anything that does.
pub open spec fn item_stays(t: Tree, ids: Seq<Replaced>, is_root: bool) -> bool {
    stays(t.kind) || is_root && is_list(t) && specifiers_upto(
        t.children,
        t.children.len(),
        ids,
    ).len() > 0
}

/// The statement that does nothing.
pub open spec fn empty_stmt_tree() -> Tree {
    made(Kind::EmptyStmt, Seq::empty())
}

/// The name of a default export that has none.
pub open spec fn default_name() -> Tree {
    name_tree("__pack_default__"@)
}

/// A tree with the identifiers in its expressions replaced. In a module that is
/// not the root, what was exported is only declared.
pub open spec fn emitted(t: Tree, ids: Seq<Replaced>, is_root: bool) -> Tree
    decreases t, 0nat,
{
    if t.kind == Kind::IdentExpr && parts_of(ids, id_of(t)) is Some {
        at(t.role, path_tree(parts_of(ids, id_of(t)).unwrap()))
    } else if t.kind == Kind::ShorthandProp && has_part(t, Role::Name) && parts_of(
        ids,
        id_of(child(t, Role::Name)),
    ) is Some {
        at(
            t.role,
            key_value_tree(
                child(t, Role::Name),
                path_tree(parts_of(ids, id_of(child(t, Role::Name))).unwrap()),
            ),
        )
    } else if t.kind == Kind::Module {
        Tree { children: items_upto(t.children, t.children.len(), ids, is_root), ..t }
    } else {
        Tree { children: all_emitted(t.children, ids, is_root), ..t }
    }
}

/// Every tree of a list, emitted.
pub open spec fn all_emitted(s: Seq<Tree>, ids: Seq<Replaced>, is_root: bool) -> Seq<Tree>
    decreases s, 0nat,
{
    Seq::new(
        s.len(),
        |i: int|
            if 0 <= i < s.len() {
                emitted(s[i], ids, is_root)
            } else {
                arbitrary()
            },
    )
}

/// The first `n` items of a module that stay, emitted.
pub open spec fn items_upto(s: Seq<Tree>, n: nat, ids: Seq<Replaced>, is_root: bool) -> Seq<Tree>
    decreases s, n,
{
    if n == 0 || n > s.len() {
        Seq::empty()
    } else if item_stays(s[n - 1], ids, is_root) {
        items_upto(s, (n - 1) as nat, ids, is_root).push(item_emitted(s[n - 1], ids, is_root))
    } else {
        items_upto(s, (n - 1) as nat, ids, is_root)
    }
}

/// An item of a module, emitted.
pub open spec fn item_emitted(t: Tree, ids: Seq<Replaced>, is_root: bool) -> Tree
    decreases t, 1nat,
{
    if is_root && t.kind == Kind::ExportNamed {
        Tree { children: specifiers_upto(t.children, t.children.len(), ids), ..t }
    } else if is_root {
        emitted(t, ids, is_root)
    } else if t.kind == Kind::ExportDefaultExpr {
        if has_part(t, Role::Expr) {
            at(
                t.role,
                const_tree(
                    binding_tree(default_name(), None),
                    Some(emitted(child(t, Role::Expr), ids, is_root)),
                ),
            )
        } else {
            at(t.role, empty_stmt_tree())
        }
    } else if t.kind == Kind::ExportDefaultDecl {
        if has_part(t, Role::Decl) && child(t, Role::Decl).kind != Kind::TsInterfaceDecl {
            let decl = child(t, Role::Decl);
            let name = if has_part(decl, Role::Name) {
                child(decl, Role::Name)
            } else {
                default_name()
            };
            at(
                t.role,
                const_tree(binding_tree(name, None), Some(emitted(decl, ids, is_root))),
            )
        } else {
            at(t.role, empty_stmt_tree())
        }
    } else if t.kind == Kind::ExportDecl {
        if has_part(t, Role::Decl) {
            at(t.role, emitted(child(t, Role::Decl), ids, is_root))
        } else {
            at(t.role, empty_stmt_tree())
        }
    } else {
        emitted(t, ids, is_root)
    }
}

/// Replaces identifiers, and turns exports of modules that are not the root into
/// declarations.
pub struct Transformer<'a> {
    pub replace_ids: &'a ReplaceIds,
    pub is_root_module: bool,
}

fn empty_stmt() -> (r: Node)
    ensures
        r@ == empty_stmt_tree(),
{
    broadcast use group_trees;

    make(Kind::EmptyStmt, Vec::new())
}

impl<'a> Transformer<'a> {
    /// The tree with the identifiers in its expressions replaced.
    pub fn visit(&self, n: &Node) -> (r: Node)
        requires
            self.replace_ids.wf(),
        ensures
            r@ == emitted(n@, self.replace_ids@, self.is_root_module),
        decreases n, 0nat,
    {
        if n.kind == Kind::IdentExpr {
            match self.replace_ids.get(&n.to_id()) {
                Some(parts) => {
                    return placed(n.role, replace_id_to_expr(parts));
                },
                None => {},
            }
        }
        if n.kind == Kind::ShorthandProp {
            match n.get(Role::Name) {
                Some(name) => {
                    match self.replace_ids.get(&name.to_id()) {
                        Some(parts) => {
                            return placed(
                                n.role,
                                key_value(name.dup(), replace_id_to_expr(parts)),
                            );
                        },
                        None => {},
                    }
                },
                None => {},
            }
        }
        let children: Vec<Node> = if n.kind == Kind::Module {
            self.visit_items(&n.children)
        } else {
            self.visit_all(&n.children)
        };
        Node {
            kind: n.kind,
            role: n.role,
            span: n.span,
            text: n.text.clone(),
            flags: n.flags,
            origin: n.origin,
            children,
        }
    }

    fn visit_all(&self, nodes: &Vec<Node>) -> (r: Vec<Node>)
        requires
            self.replace_ids.wf(),
        ensures
            trees(r@) == all_emitted(trees(nodes@), self.replace_ids@, self.is_root_module),
        decreases nodes, 0nat,
    {
        let mut r: Vec<Node> = Vec::new();
        let mut i: usize = 0;
        while i < nodes.len()
            invariant
                i <= nodes@.len(),
                self.replace_ids.wf(),
                trees(r@) == all_emitted(
                    trees(nodes@),
                    self.replace_ids@,
                    self.is_root_module,
                ).take(i as int),
            decreases nodes@.len() - i,
        {
            broadcast use group_trees;

            assert(decreases_to!(nodes => nodes@[i as int]));
            r.push(self.visit(&nodes[i]));
            i = i + 1;
            assert(trees(r@) =~= all_emitted(
                trees(nodes@),
                self.replace_ids@,
                self.is_root_module,
            ).take(i as int));
        }
        assert(trees(r@) =~= all_emitted(
            trees(nodes@),
            self.replace_ids@,
            self.is_root_module,
        ));
        r
    }

    /// The parts of a list of exports that stay in the root.
    fn kept_specifiers(&self, nodes: &Vec<Node>) -> (r: Vec<Node>)
        requires
            self.replace_ids.wf(),
        ensures
            trees(r@) == specifiers_upto(trees(nodes@), nodes@.len(), self.replace_ids@),
    {
        broadcast use group_trees;

        let mut r: Vec<Node> = Vec::new();
        let mut i: usize = 0;
        while i < nodes.len()
            invariant
                i <= nodes@.len(),
                self.replace_ids.wf(),
                trees(r@) == specifiers_upto(trees(nodes@), i as nat, self.replace_ids@),
            decreases nodes@.len() - i,
        {
            broadcast use group_trees;

            let n: &Node = &nodes[i];
            assert(trees(nodes@)[i as int] == n@);
            let stays: bool = n.kind == Kind::ExportNamedSpecifier && !n.flags.type_only
                && match n.get(Role::Orig) {
                Some(orig) => self.replace_ids.get(&orig.to_id()).is_none(),
                None => false,
            };
            if stays {
                r.push(n.dup());
            }
            i = i + 1;
        }
        r
    }

    /// Whether an item stays in a module.
    fn keeps_item(&self, n: &Node) -> (r: bool)
        requires
            self.replace_ids.wf(),
        ensures
            r == item_stays(n@, self.replace_ids@, self.is_root_module),
    {
        if n.kind == Kind::ExportNamed {
            self.is_root_module && !n.flags.type_only && !n.has(Role::Source)
                && self.kept_specifiers(&n.children).len() > 0
        } else {
            !(n.kind == Kind::ImportDecl || n.kind == Kind::TsNamespaceExport || n.kind
                == Kind::ExportAll)
        }
    }

    /// The items that stay.
    pub fn visit_items(&self, nodes: &Vec<Node>) -> (r: Vec<Node>)
        requires
            self.replace_ids.wf(),
        ensures
            trees(r@) == items_upto(
                trees(nodes@),
                nodes@.len(),
                self.replace_ids@,
                self.is_root_module,
            ),
        decreases nodes, 0nat,
    {
        broadcast use group_trees;

        let mut r: Vec<Node> = Vec::new();
        let mut i: usize = 0;
        while i < nodes.len()
            invariant
                i <= nodes@.len(),
                self.replace_ids.wf(),
                trees(r@) == items_upto(
                    trees(nodes@),
                    i as nat,
                    self.replace_ids@,
                    self.is_root_module,
                ),
            decreases nodes@.len() - i,
        {
            broadcast use group_trees;

            assert(trees(nodes@)[i as int] == nodes@[i as int]@);
            if self.keeps_item(&nodes[i]) {
                r.push(self.visit_item(&nodes[i]));
            }
            i = i + 1;
        }
        r
    }

    /// An item of a module.
    pub fn visit_item(&self, n: &Node) -> (r: Node)
        requires
            self.replace_ids.wf(),
        ensures
            r@ == item_emitted(n@, self.replace_ids@, self.is_root_module),
        decreases n, 1nat,
    {
        if self.is_root_module && n.kind == Kind::ExportNamed {
            Node {
                kind: n.kind,
                role: n.role,
                span: n.span,
                text: n.text.clone(),
                flags: n.flags,
                origin: n.origin,
                children: self.kept_specifiers(&n.children),
            }
        } else if self.is_root_module {
            self.visit(n)
        } else if n.kind == Kind::ExportDefaultExpr {
            match n.get(Role::Expr) {
                Some(expr) => placed(
                    n.role,
                    const_decl(
                        binding_ident(ident("__pack_default__".to_owned()), None),
                        Some(self.visit(expr)),
                    ),
                ),
                None => placed(n.role, empty_stmt()),
            }
        } else if n.kind == Kind::ExportDefaultDecl {
            match n.get(Role::Decl) {
                Some(decl) => {
                    if decl.kind == Kind::TsInterfaceDecl {
                        return placed(n.role, empty_stmt());
                    }
                    let name: Node = match decl.get(Role::Name) {
                        Some(name) => name.dup(),
                        None => ident("__pack_default__".to_owned()),
                    };
                    placed(
                        n.role,
                        const_decl(binding_ident(name, None), Some(self.visit(decl))),
                    )
                },
                None => placed(n.role, empty_stmt()),
            }
        } else if n.kind == Kind::ExportDecl {
            match n.get(Role::Decl) {
                Some(decl) => placed(n.role, self.visit(decl)),
                None => placed(n.role, empty_stmt()),
            }
        } else {
            self.visit(n)
        }
    }
}

/// Whether an item is an import or an export.
pub open spec fn is_import_or_export(kind: Kind) -> bool {
    !stays(kind) || kind == Kind::ExportDecl || kind == Kind::ExportDefaultDecl || kind
        == Kind::ExportDefaultExpr
}

/// A module that is not the root has no imports and no exports when it is
/// emitted: what was exported is declared, and the rest is gone.
pub proof fn law_only_the_root_exports(t: Tree, ids: Seq<Replaced>)
    requires
        t.kind == Kind::Module,
        forall|i: int|
            0 <= i < t.children.len() && (#[trigger] t.children[i]).kind == Kind::ExportDecl && has_part(
                t.children[i],
                Role::Decl,
            ) ==> !is_import_or_export(child(t.children[i], Role::Decl).kind),
    ensures
        forall|i: int|
            0 <= i < emitted(t, ids, false).children.len() ==> !is_import_or_export(
                (#[trigger] emitted(t, ids, false).children[i]).kind,
            ),
{
    lemma_items_upto(t.children, t.children.len(), ids);
}

proof fn lemma_kind_emitted(t: Tree, ids: Seq<Replaced>)
    requires
        !is_import_or_export(t.kind),
    ensures
        !is_import_or_export(emitted(t, ids, false).kind),
{
}

proof fn lemma_items_upto(s: Seq<Tree>, n: nat, ids: Seq<Replaced>)
    requires
        n <= s.len(),
        forall|i: int|
            0 <= i < s.len() && (#[trigger] s[i]).kind == Kind::ExportDecl && has_part(s[i], Role::Decl)
                ==> !is_import_or_export(child(s[i], Role::Decl).kind),
    ensures
        forall|i: int|
            0 <= i < items_upto(s, n, ids, false).len() ==> !is_import_or_export(
                (#[trigger] items_upto(s, n, ids, false)[i]).kind,
            ),
    decreases n,
{
    if n > 0 {
        lemma_items_upto(s, (n - 1) as nat, ids);
        let t = s[n - 1];
        if t.kind == Kind::ExportDecl && has_part(t, Role::Decl) {
            lemma_kind_emitted(child(t, Role::Decl), ids);
        }
        if !is_import_or_export(t.kind) {
            lemma_kind_emitted(t, ids);
        }
        assert(stays(t.kind) ==> !is_import_or_export(item_emitted(t, ids, false).kind));
    }
}

}
