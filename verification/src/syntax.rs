//! Syntax trees of TypeScript and JavaScript modules.
//!
//! A tree is made of [`Node`]s of one shape. A node's [`Kind`] says what it is,
//! and its [`Role`] which part of its parent it stands for. Children come in
//! the order of the source. Syntax that the bundler never looks into has the
//! kind [`Kind::Other`]; its children are in the tree all the same, so that
//! whatever is rewritten everywhere is rewritten there too.

use vstd::prelude::*;

use crate::text::same_text;

verus! {

/// A range of byte positions, with the mark of the scope in which an
/// identifier was resolved. A span of zeros stands nowhere in a source file.
#[derive(Clone, Copy, PartialEq, Eq, Structural, Debug)]
pub struct Span {
    pub lo: u32,
    pub hi: u32,
    pub ctxt: u32,
}

/// A range of byte positions of a source file.
#[derive(Clone, Copy, PartialEq, Eq, Structural, Debug)]
pub struct SourceRange {
    pub start: u32,
    pub end: u32,
}

/// What a node is.
#[derive(Clone, Copy, PartialEq, Eq, Structural, Debug)]
pub enum Kind {
    // modules
    Module,
    ImportDecl,
    ImportNamed,
    ImportDefault,
    ImportNamespace,
    ExportDecl,
    ExportNamed,
    ExportNamedSpecifier,
    ExportNamespaceSpecifier,
    ExportDefaultSpecifier,
    ExportDefaultDecl,
    ExportDefaultExpr,
    ExportAll,
    TsImportEquals,
    TsExportAssignment,
    TsNamespaceExport,
    // declarations
    ClassDecl,
    FnDecl,
    VarDecl,
    VarDeclarator,
    UsingDecl,
    TsInterfaceDecl,
    TsTypeAliasDecl,
    TsEnumDecl,
    TsEnumMember,
    TsModuleDecl,
    TsModuleBlock,
    TsNamespaceDecl,
    // classes and functions
    Class,
    Constructor,
    ClassMethod,
    PrivateMethod,
    ClassProp,
    PrivateProp,
    PrivateName,
    TsIndexSignature,
    StaticBlock,
    EmptyMember,
    AutoAccessor,
    Param,
    TsParamProp,
    Decorator,
    Function,
    // patterns
    BindingIdent,
    ArrayPat,
    RestPat,
    ObjectPat,
    AssignPat,
    InvalidPat,
    KeyValuePatProp,
    AssignPatProp,
    // expressions
    /// A name where no expression can stand: of a property, of what is declared,
    /// imported or exported, of a type.
    Ident,
    /// A name that is an expression.
    IdentExpr,
    /// A name of a type or a namespace where it is referred to.
    EntityName,
    Str,
    Bool,
    Null,
    Num,
    BigInt,
    Regex,
    JsxText,
    ComputedKey,
    ObjectLit,
    ShorthandProp,
    KeyValueProp,
    Spread,
    MemberExpr,
    CallExpr,
    ArrowExpr,
    FnExpr,
    ClassExpr,
    AwaitExpr,
    ParenExpr,
    TsTypeAssertion,
    TsAs,
    // statements
    Block,
    With,
    Return,
    Labeled,
    If,
    Switch,
    SwitchCase,
    Try,
    CatchClause,
    While,
    DoWhile,
    For,
    ForIn,
    ForOf,
    ExprStmt,
    EmptyStmt,
    // types
    TsTypeAnn,
    TsKeywordType,
    TsThisType,
    TsTypeRef,
    TsConditionalType,
    TsLitType,
    TsImportType,
    TsQualifiedName,
    TsExprWithTypeArgs,
    TsTypeParamDecl,
    TsTypeParam,
    TsTypeParamInstantiation,
    /// Everything else, by a number that tells the front end which syntax it is.
    Other(u32),
}

/// Which part of its parent a node is.
#[derive(Clone, Copy, PartialEq, Eq, Structural, Debug)]
pub enum Role {
    Item,
    Specifier,
    Source,
    Local,
    Imported,
    Orig,
    Exported,
    Name,
    Decl,
    Expr,
    ModuleRef,
    Class,
    Function,
    Declarator,
    Init,
    Member,
    Body,
    TypeParams,
    TypeArgs,
    SuperClass,
    SuperTypeArgs,
    Implements,
    Extends,
    Decorator,
    Key,
    Value,
    Param,
    Pattern,
    ReturnType,
    TypeAnn,
    Type,
    Elem,
    Prop,
    Left,
    Right,
    Arg,
    Callee,
    Object,
    Property,
    Test,
    Consequent,
    Alternate,
    Case,
    Stmt,
    Block,
    Handler,
    Finalizer,
    TypeName,
    Constraint,
    Default,
    CheckType,
    ExtendsType,
    TrueType,
    FalseType,
    /// A part of syntax that is not modelled, by its place there.
    Nth(u32),
    Other,
}

/// Who may use a member of a class.
#[derive(Clone, Copy, PartialEq, Eq, Structural, Debug)]
pub enum Access {
    Unset,
    Public,
    Protected,
    Private,
}

/// How a variable is declared.
#[derive(Clone, Copy, PartialEq, Eq, Structural, Debug)]
pub enum VarKind {
    Var,
    Let,
    Const,
}

/// The modifiers that stand on a node.
#[derive(Clone, Copy, PartialEq, Eq, Structural, Debug)]
pub struct Flags {
    pub declare: bool,
    pub type_only: bool,
    pub is_export: bool,
    pub is_async: bool,
    pub is_generator: bool,
    pub is_static: bool,
    pub is_abstract: bool,
    pub is_override: bool,
    pub optional: bool,
    pub readonly: bool,
    pub definite: bool,
    pub access: Access,
    pub var_kind: VarKind,
}

/// One node of a syntax tree.
#[derive(Debug)]
pub struct Node {
    pub kind: Kind,
    pub role: Role,
    pub span: Span,
    /// The name of an identifier, the value of a string, the word of a keyword
    /// type. Empty on other nodes.
    pub text: String,
    pub flags: Flags,
    /// What the front end goes by to give back syntax that is not modelled.
    /// Zero on nodes that did not come from a source file.
    pub origin: u32,
    pub children: Vec<Node>,
}

/// What a [`Node`] stands for.
#[verifier::ext_equal]
pub struct Tree {
    pub kind: Kind,
    pub role: Role,
    pub span: Span,
    pub text: Seq<char>,
    pub flags: Flags,
    pub origin: u32,
    pub children: Seq<Tree>,
}

/// The span of syntax that no source file holds.
pub open spec fn no_span() -> Span {
    Span { lo: 0, hi: 0, ctxt: 0 }
}

/// A node without modifiers.
pub open spec fn plain() -> Flags {
    Flags {
        declare: false,
        type_only: false,
        is_export: false,
        is_async: false,
        is_generator: false,
        is_static: false,
        is_abstract: false,
        is_override: false,
        optional: false,
        readonly: false,
        definite: false,
        access: Access::Unset,
        var_kind: VarKind::Var,
    }
}

impl Span {
    /// The span of syntax that no source file holds.
    pub fn dummy() -> (r: Span)
        ensures
            r == no_span(),
    {
        Span { lo: 0, hi: 0, ctxt: 0 }
    }

    /// Whether the positions are both zero.
    pub open spec fn nowhere(self) -> bool {
        self.lo == 0 && self.hi == 0
    }
}

impl Flags {
    /// No modifiers.
    pub fn none() -> (r: Flags)
        ensures
            r == plain(),
    {
        Flags {
            declare: false,
            type_only: false,
            is_export: false,
            is_async: false,
            is_generator: false,
            is_static: false,
            is_abstract: false,
            is_override: false,
            optional: false,
            readonly: false,
            definite: false,
            access: Access::Unset,
            var_kind: VarKind::Var,
        }
    }
}

impl Node {
    pub open spec fn view(&self) -> Tree
        decreases self,
    {
        Tree {
            kind: self.kind,
            role: self.role,
            span: self.span,
            text: self.text@,
            flags: self.flags,
            origin: self.origin,
            children: trees(self.children@),
        }
    }
}

/// What a sequence of nodes stands for.
pub open spec fn trees(s: Seq<Node>) -> Seq<Tree>
    decreases s,
{
    Seq::new(
        s.len(),
        |i: int|
            if 0 <= i < s.len() {
                s[i].view()
            } else {
                arbitrary()
            },
    )
}

pub broadcast proof fn lemma_trees_push(s: Seq<Node>, n: Node)
    ensures
        #[trigger] trees(s.push(n)) == trees(s).push(n@),
{
    assert(trees(s.push(n)) =~= trees(s).push(n@));
}

pub broadcast proof fn lemma_trees_add(a: Seq<Node>, b: Seq<Node>)
    ensures
        #[trigger] trees(a + b) == trees(a) + trees(b),
{
    assert(trees(a + b) =~= trees(a) + trees(b));
}

pub broadcast proof fn lemma_trees_empty()
    ensures
        #[trigger] trees(Seq::<Node>::empty()) == Seq::<Tree>::empty(),
{
    assert(trees(Seq::<Node>::empty()) =~= Seq::<Tree>::empty());
}

pub broadcast group group_trees {
    lemma_trees_push,
    lemma_trees_add,
    lemma_trees_empty,
}

/// The same node in another place of its parent.
pub open spec fn at(role: Role, t: Tree) -> Tree {
    Tree { role, ..t }
}

/// The first place from `from` on that has the role, or the length.
pub open spec fn place_from(s: Seq<Tree>, role: Role, from: int) -> int
    decreases s.len() - from,
{
    if from >= s.len() {
        s.len() as int
    } else if s[from].role == role {
        from
    } else {
        place_from(s, role, from + 1)
    }
}

/// The place of the first child with the role, or the number of children.
pub open spec fn place(t: Tree, role: Role) -> int {
    place_from(t.children, role, 0)
}

/// Whether a node has a child with the role.
pub open spec fn has_part(t: Tree, role: Role) -> bool {
    0 <= place(t, role) < t.children.len()
}

/// The first child with the role.
pub open spec fn child(t: Tree, role: Role) -> Tree {
    t.children[place(t, role)]
}

/// The first child with the role, if there is one.
pub open spec fn part(t: Tree, role: Role) -> Option<Tree> {
    if has_part(t, role) {
        Some(child(t, role))
    } else {
        None
    }
}

pub proof fn lemma_place_from(s: Seq<Tree>, role: Role, from: int)
    requires
        0 <= from <= s.len(),
    ensures
        from <= place_from(s, role, from) <= s.len(),
        place_from(s, role, from) < s.len() ==> s[place_from(s, role, from)].role == role,
        forall|i: int| from <= i < place_from(s, role, from) ==> (#[trigger] s[i]).role != role,
    decreases s.len() - from,
{
    if from < s.len() && s[from].role != role {
        lemma_place_from(s, role, from + 1);
    }
}

/// Where [`place`] points, and that what it points to is a child.
pub broadcast proof fn lemma_place(t: Tree, role: Role)
    ensures
        0 <= #[trigger] place(t, role) <= t.children.len(),
        place(t, role) < t.children.len() ==> t.children[place(t, role)].role == role,
{
    lemma_place_from(t.children, role, 0);
}

/// An identifier as it was resolved: its name and the mark of its scope.
#[derive(Debug)]
pub struct Id {
    pub name: String,
    pub ctxt: u32,
}

impl Id {
    pub open spec fn view(&self) -> (Seq<char>, u32) {
        (self.name@, self.ctxt)
    }

    pub fn dup(&self) -> (r: Id)
        ensures
            r@ == self@,
    {
        Id { name: self.name.clone(), ctxt: self.ctxt }
    }

    pub fn same(&self, other: &Id) -> (r: bool)
        ensures
            r == (self@ == other@),
    {
        self.ctxt == other.ctxt && self.name == other.name
    }
}

/// Where a node stands in its source file.
pub open spec fn range_of(t: Tree) -> SourceRange {
    SourceRange { start: t.span.lo, end: t.span.hi }
}

/// A set of identifiers.
#[derive(Debug)]
pub struct IdSet {
    pub ids: Vec<Id>,
}

impl IdSet {
    pub open spec fn view(&self) -> Set<(Seq<char>, u32)> {
        Set::new(|id: (Seq<char>, u32)| exists|i: int| 0 <= i < self.ids@.len() && (#[trigger] self.ids@[i])@ == id)
    }

    /// No identifier stands twice.
    pub open spec fn wf(&self) -> bool {
        forall|i: int, j: int|
            0 <= i < j < self.ids@.len() ==> (#[trigger] self.ids@[i])@ != (#[trigger] self.ids@[j])@
    }

    pub fn new() -> (r: IdSet)
        ensures
            r.wf(),
            r@ == Set::<(Seq<char>, u32)>::empty(),
    {
        let r = IdSet { ids: Vec::new() };
        assert(r@ =~= Set::<(Seq<char>, u32)>::empty());
        r
    }

    pub fn contains(&self, id: &Id) -> (r: bool)
        ensures
            r == self@.contains(id@),
    {
        let mut i: usize = 0;
        while i < self.ids.len()
            invariant
                i <= self.ids@.len(),
                forall|j: int| 0 <= j < i ==> (#[trigger] self.ids@[j])@ != id@,
            decreases self.ids@.len() - i,
        {
            if self.ids[i].same(id) {
                assert(self.ids@[i as int]@ == id@);
                return true;
            }
            i = i + 1;
        }
        false
    }

    /// Adds an identifier. This tells whether it is new.
    pub fn insert(&mut self, id: Id) -> (r: bool)
        requires
            old(self).wf(),
        ensures
            final(self).wf(),
            final(self)@ == old(self)@.insert(id@),
            r == !old(self)@.contains(id@),
    {
        let ghost before = *self;
        if self.contains(&id) {
            assert(self@ =~= before@.insert(id@));
            false
        } else {
            self.ids.push(id);
            assert forall|other: (Seq<char>, u32)| self@.contains(other) <==> before@.insert(
                id@,
            ).contains(other) by {
                if before@.contains(other) {
                    let k = choose|k: int|
                        0 <= k < before.ids@.len() && (#[trigger] before.ids@[k])@ == other;
                    assert(self.ids@[k]@ == other);
                }
                if other == id@ {
                    assert(self.ids@[before.ids@.len() as int]@ == other);
                }
                if self@.contains(other) && other != id@ {
                    let k = choose|k: int|
                        0 <= k < self.ids@.len() && (#[trigger] self.ids@[k])@ == other;
                    assert(before.ids@[k]@ == other);
                }
            }
            assert(self@ =~= before@.insert(id@));
            assert forall|i: int, j: int| 0 <= i < j < self.ids@.len() implies (
            #[trigger] self.ids@[i])@ != (#[trigger] self.ids@[j])@ by {
                assert(self.ids@[i] == before.ids@[i]);
                if j < before.ids@.len() {
                    assert(self.ids@[j] == before.ids@[j]);
                } else if self.ids@[i]@ == id@ {
                    assert(before@.contains(id@));
                }
            }
            true
        }
    }
}

/// The identity of an identifier node.
pub open spec fn id_of(t: Tree) -> (Seq<char>, u32) {
    (t.text, t.span.ctxt)
}

impl Node {
    /// The place of the first child with the role, or the number of children.
    pub fn find(&self, role: Role) -> (r: usize)
        ensures
            r == place(self@, role),
            r <= self.children@.len(),
            r < self.children@.len() ==> self.children@[r as int]@ == child(self@, role),
            r < self.children@.len() <==> has_part(self@, role),
    {
        broadcast use lemma_place;

        let mut i: usize = 0;
        while i < self.children.len()
            invariant
                i <= self.children@.len(),
                place(self@, role) == place_from(self@.children, role, i as int),
            decreases self.children@.len() - i,
        {
            assert(self@.children[i as int] == self.children@[i as int]@);
            if self.children[i].role == role {
                return i;
            }
            i = i + 1;
        }
        i
    }

    /// The first child with the role.
    pub fn get(&self, role: Role) -> (r: Option<&Node>)
        ensures
            r is Some <==> has_part(self@, role),
            r matches Some(n) ==> n@ == child(self@, role) && decreases_to!(self => n),
            r is Some ==> part(self@, role) == Some(r->0@),
            r is None ==> part(self@, role) is None,
    {
        let i: usize = self.find(role);
        if i < self.children.len() {
            Some(&self.children[i])
        } else {
            None
        }
    }

    /// Whether there is a child with the role.
    pub fn has(&self, role: Role) -> (r: bool)
        ensures
            r == has_part(self@, role),
    {
        self.find(role) < self.children.len()
    }

    /// Where the node stands in its source file.
    pub fn range(&self) -> (r: SourceRange)
        ensures
            r == range_of(self@),
    {
        SourceRange { start: self.span.lo, end: self.span.hi }
    }

    /// The identity of an identifier node.
    pub fn to_id(&self) -> (r: Id)
        ensures
            r@ == id_of(self@),
    {
        Id { name: self.text.clone(), ctxt: self.span.ctxt }
    }

    /// A copy of the tree.
    pub fn dup(&self) -> (r: Node)
        ensures
            r@ == self@,
        decreases self,
    {
        let mut children: Vec<Node> = Vec::new();
        let mut i: usize = 0;
        while i < self.children.len()
            invariant
                i <= self.children@.len(),
                trees(children@) == trees(self.children@).take(i as int),
            decreases self.children@.len() - i,
        {
            broadcast use lemma_trees_push;

            children.push(self.children[i].dup());
            i = i + 1;
            assert(trees(children@) =~= trees(self.children@).take(i as int));
        }
        assert(trees(children@) =~= trees(self.children@));
        Node {
            kind: self.kind,
            role: self.role,
            span: self.span,
            text: self.text.clone(),
            flags: self.flags,
            origin: self.origin,
            children,
        }
    }

    /// A copy of the tree for another place of its parent.
    pub fn dup_at(&self, role: Role) -> (r: Node)
        ensures
            r@ == at(role, self@),
    {
        let mut r: Node = self.dup();
        r.role = role;
        r
    }

    /// Whether the node is an identifier, a keyword or a string with this text.
    pub fn reads(&self, word: &str) -> (r: bool)
        ensures
            r == (self@.text == word@),
    {
        same_text(self.text.as_str(), word)
    }
}

/// A copy of a list of trees.
pub fn dup_all(nodes: &Vec<Node>) -> (r: Vec<Node>)
    ensures
        trees(r@) == trees(nodes@),
{
    let mut r: Vec<Node> = Vec::new();
    let mut i: usize = 0;
    while i < nodes.len()
        invariant
            i <= nodes@.len(),
            trees(r@) == trees(nodes@).take(i as int),
        decreases nodes@.len() - i,
    {
        broadcast use lemma_trees_push;

        r.push(nodes[i].dup());
        i = i + 1;
        assert(trees(r@) =~= trees(nodes@).take(i as int));
    }
    assert(trees(r@) =~= trees(nodes@));
    r
}

}
