//! Identifiers in declarations: which symbols they stand for, and what these are
//! called at the top level.

use vstd::prelude::*;

use super::analyzer::{
    followed, resolve_paths_to_remote_path, supports_paths, DefinitionPath, Followed, SymbolIdOrRemoteDep, Target,
    UniqueSymbolId,
};
use super::binder::{ids_of, is_name};
use super::names::{key_of, TopLevelSymbols};
use super::output::{emitted_of, Emitted, ModuleEmitInfos};
use super::binder::ModuleId;
use super::root_symbol::{IdentPaths, Symbol};
use super::transform::qualified_tree;
use super::transformer::qualified_name;
use crate::collections::{has_key, key_place, key_place_from, lemma_key_place, IdMap};
use crate::helpers::placed;
use crate::syntax::{
    at, group_trees, id_of, no_span, trees, Flags, Id, Kind, Node, Role, Span, Tree,
};

verus! {

/// The identifiers in a declaration that were resolved, in order, but for those of
/// variables that are bound.
pub open spec fn idents(t: Tree) -> Seq<(Seq<char>, u32)>
    decreases t, 0nat,
{
    (if is_name(t) && t.span.ctxt > 0 {
        seq![id_of(t)]
    } else {
        Seq::empty()
    }) + idents_upto(t.children, t.children.len(), t.kind == Kind::BindingIdent)
}

/// The identifiers in the first `n` parts of a declaration.
pub open spec fn idents_upto(s: Seq<Tree>, n: nat, is_binding: bool) -> Seq<(Seq<char>, u32)>
    decreases s, n,
{
    if n == 0 || n > s.len() {
        Seq::empty()
    } else if is_binding && s[n - 1].role == Role::Name {
        idents_upto(s, (n - 1) as nat, is_binding)
    } else {
        idents_upto(s, (n - 1) as nat, is_binding) + idents(s[n - 1])
    }
}

/// Adds the identifiers in a declaration.
pub fn add_idents(n: &Node, ids: &mut Vec<Id>)
    ensures
        ids_of(final(ids)@) == ids_of(old(ids)@) + idents(n@),
    decreases n,
{
    let ghost before = ids_of(ids@);
    if (n.kind == Kind::Ident || n.kind == Kind::IdentExpr || n.kind == Kind::EntityName)
        && n.span.ctxt > 0 {
        ids.push(n.to_id());
    }
    let ghost own = if is_name(n@) && n@.span.ctxt > 0 {
        seq![id_of(n@)]
    } else {
        Seq::empty()
    };
    let ghost s = n@.children;
    let is_binding: bool = n.kind == Kind::BindingIdent;
    let mut i: usize = 0;
    assert(ids_of(ids@) =~= before + own + idents_upto(s, 0, is_binding));
    while i < n.children.len()
        invariant
            i <= n.children@.len(),
            s == n@.children,
            ids_of(ids@) == before + own + idents_upto(s, i as nat, is_binding),
        decreases n.children@.len() - i,
    {
        assert(s[i as int] == n.children@[i as int]@);
        if !(is_binding && n.children[i].role == Role::Name) {
            add_idents(&n.children[i], ids);
        }
        i = i + 1;
        assert(ids_of(ids@) =~= before + own + idents_upto(s, i as nat, is_binding));
    }
    assert(ids_of(ids@) =~= before + idents(n@));
}

/// The ways from the identifiers of a symbol.
pub open spec fn paths_table(s: Seq<IdentPaths>) -> Seq<((Seq<char>, u32), Seq<DefinitionPath>)> {
    Seq::new(s.len(), |i: int| (s[i].id@, s[i].paths@))
}

/// What an identifier of a symbol stands for.
pub open spec fn ident_target(symbol: Symbol, id: (Seq<char>, u32)) -> Followed {
    let table = paths_table(symbol.idents@);
    if has_key(table, id) {
        followed(table[key_place(table, id)].1)
    } else {
        Followed::Lost
    }
}

/// Which symbols identifiers stand for, and whether one stands for something that
/// cannot be dealt with.
#[verifier::ext_equal]
pub struct Mapped {
    pub mapping: Seq<((Seq<char>, u32), UniqueSymbolId)>,
    pub unsupported: bool,
}

/// The symbols with that of one more identifier, if it is not there already.
pub open spec fn ident_mapped(m: Mapped, symbol: Symbol, id: (Seq<char>, u32)) -> Mapped {
    if has_key(m.mapping, id) {
        m
    } else {
        match ident_target(symbol, id) {
            Followed::Found(target) => match target {
                Target::Symbol(to) => Mapped { mapping: m.mapping.push((id, to)), ..m },
                Target::Remote { .. } => Mapped { unsupported: true, ..m },
            },
            Followed::Lost => m,
            Followed::Unsupported => Mapped { unsupported: true, ..m },
        }
    }
}

/// The symbols with those of the first `n` identifiers.
pub open spec fn idents_mapped(
    m: Mapped,
    symbol: Symbol,
    ids: Seq<(Seq<char>, u32)>,
    n: nat,
) -> Mapped
    decreases n,
{
    if n == 0 {
        m
    } else {
        ident_mapped(idents_mapped(m, symbol, ids, (n - 1) as nat), symbol, ids[n - 1])
    }
}

/// The symbols that identifiers of a declaration stand for.
pub struct IdentMapping {
    pub mapping: IdMap<UniqueSymbolId>,
    pub unsupported: bool,
}

impl IdentMapping {
    pub open spec fn view(&self) -> Mapped {
        Mapped { mapping: self.mapping@, unsupported: self.unsupported }
    }

    pub fn new() -> (r: IdentMapping)
        ensures
            r.mapping.wf(),
            r@ == (Mapped { mapping: Seq::empty(), unsupported: false }),
    {
        IdentMapping { mapping: IdMap::new(), unsupported: false }
    }

    /// Finds the symbol of one more identifier.
    fn add(&mut self, symbol: &Symbol, id: &Id)
        requires
            old(self).mapping.wf(),
        ensures
            final(self).mapping.wf(),
            final(self)@ == ident_mapped(old(self)@, *symbol, id@),
    {
        if self.mapping.contains_key(id) {
            return ;
        }
        let ghost table = paths_table(symbol.idents@);
        let mut i: usize = 0;
        while i < symbol.idents.len()
            invariant
                i <= symbol.idents@.len(),
                table == paths_table(symbol.idents@),
                self.mapping.wf(),
                self@ == old(self)@,
                !has_key(old(self)@.mapping, id@),
                key_place(table, id@) == key_place_from(table, id@, i as int),
            decreases symbol.idents@.len() - i,
        {
            let ident: &IdentPaths = &symbol.idents[i];
            assert(table[i as int] == (ident.id@, ident.paths@));
            if ident.id.same(id) {
                assert(ident_target(*symbol, id@) == followed(ident.paths@));
                if !supports_paths(&ident.paths) {
                    self.unsupported = true;
                    return ;
                }
                match resolve_paths_to_remote_path(&ident.paths) {
                    Some(dep) => match dep {
                        SymbolIdOrRemoteDep::Symbol(to) => {
                            self.mapping.insert(id.dup(), to);
                        },
                        SymbolIdOrRemoteDep::RemoteDep(_) => {
                            self.unsupported = true;
                        },
                    },
                    None => {},
                }
                return ;
            }
            i = i + 1;
        }
    }

    /// Finds the symbols of the identifiers of a declaration.
    pub fn add_all(&mut self, symbol: &Symbol, n: &Node)
        requires
            old(self).mapping.wf(),
        ensures
            final(self).mapping.wf(),
            final(self)@ == idents_mapped(
                old(self)@,
                *symbol,
                idents(n@),
                idents(n@).len(),
            ),
    {
        let mut ids: Vec<Id> = Vec::new();
        add_idents(n, &mut ids);
        let ghost all = idents(n@);
        assert(ids_of(ids@) =~= all);
        let ghost before = self@;
        let mut i: usize = 0;
        while i < ids.len()
            invariant
                i <= ids@.len(),
                ids_of(ids@) == all,
                self.mapping.wf(),
                self@ == idents_mapped(before, *symbol, all, i as nat),
            decreases ids@.len() - i,
        {
            assert(all[i as int] == ids@[i as int]@);
            self.add(symbol, &ids[i]);
            i = i + 1;
        }
    }
}

/// What declarations of a module are renamed by.
pub struct Renaming {
    pub mapping: Seq<((Seq<char>, u32), UniqueSymbolId)>,
    /// Whether the declarations go into a namespace.
    pub in_namespace: bool,
    /// The names of symbols at the top level.
    pub assigned: Seq<((usize, usize), Seq<char>)>,
    /// What goes into the output, by module.
    pub infos: Seq<(usize, Emitted)>,
}

/// The namespace of a module, if it has one.
pub open spec fn namespace_of(infos: Seq<(usize, Emitted)>, module_id: usize) -> Option<
    Seq<char>,
> {
    if has_key(infos, module_id) {
        match emitted_of(infos, module_id).namespace {
            Some(namespace) => Some(namespace.name),
            None => None,
        }
    } else {
        None
    }
}

/// The name of a symbol at the top level.
pub open spec fn assigned_name(
    assigned: Seq<((usize, usize), Seq<char>)>,
    id: UniqueSymbolId,
) -> Seq<char> {
    assigned[key_place(assigned, key_of(id))].1
}

/// What stands for a name of a type or a namespace at the top level.
pub open spec fn renamed_entity(t: Tree, r: Renaming) -> Tree {
    if has_key(r.mapping, id_of(t)) {
        let to = r.mapping[key_place(r.mapping, id_of(t))].1;
        let name = assigned_name(r.assigned, to);
        match namespace_of(r.infos, to.module_id) {
            Some(namespace) => at(t.role, qualified_tree(namespace, name)),
            None => Tree { text: name, span: no_span(), ..t },
        }
    } else {
        t
    }
}

/// Whether a declaration says that it only declares.
pub open spec fn says_declare(kind: Kind) -> bool {
    kind == Kind::ClassDecl || kind == Kind::FnDecl || kind == Kind::TsEnumDecl || kind
        == Kind::TsInterfaceDecl || kind == Kind::VarDecl
}

/// A declaration in which types and namespaces have their names at the top level.
pub open spec fn renamed(t: Tree, r: Renaming) -> Tree
    decreases t,
{
    if t.role == Role::Key {
        t
    } else if t.kind == Kind::EntityName {
        renamed_entity(t, r)
    } else {
        Tree {
            flags: if r.in_namespace && says_declare(t.kind) {
                Flags { declare: false, ..t.flags }
            } else {
                t.flags
            },
            children: all_renamed(t.children, r),
            ..t
        }
    }
}

/// Every declaration of a list, renamed.
pub open spec fn all_renamed(s: Seq<Tree>, r: Renaming) -> Seq<Tree>
    decreases s,
{
    Seq::new(
        s.len(),
        |i: int|
            if 0 <= i < s.len() {
                renamed(s[i], r)
            } else {
                arbitrary()
            },
    )
}

/// Whether every symbol that an identifier stands for has a name at the top level.
pub open spec fn all_assigned(
    mapping: Seq<((Seq<char>, u32), UniqueSymbolId)>,
    assigned: Seq<((usize, usize), Seq<char>)>,
) -> bool {
    forall|i: int| 0 <= i < mapping.len() ==> has_key(assigned, key_of((#[trigger] mapping[i]).1))
}

/// Gives types and namespaces in declarations of a module their names at the top
/// level.
pub struct IdentTransformer<'a> {
    pub ident_mapping: &'a IdMap<UniqueSymbolId>,
    pub in_namespace: bool,
    pub top_level_symbols: &'a TopLevelSymbols,
    pub module_emit_infos: &'a ModuleEmitInfos,
}

impl<'a> IdentTransformer<'a> {
    pub open spec fn view(&self) -> Renaming {
        Renaming {
            mapping: self.ident_mapping@,
            in_namespace: self.in_namespace,
            assigned: self.top_level_symbols@.assigned,
            infos: self.module_emit_infos@,
        }
    }

    pub open spec fn wf(&self) -> bool {
        &&& self.ident_mapping.wf()
        &&& self.top_level_symbols.wf()
        &&& self.module_emit_infos.wf()
        &&& all_assigned(self@.mapping, self@.assigned)
    }

    fn visit_mut_ts_entity_name(&self, n: &Node) -> (r: Node)
        requires
            self.wf(),
        ensures
            r@ == renamed_entity(n@, self@),
    {
        proof {
            lemma_key_place(self@.mapping, id_of(n@));
        }
        match self.ident_mapping.get(&n.to_id()) {
            Some(to) => {
                assert(has_key(
                    self@.assigned,
                    key_of(self@.mapping[key_place(self@.mapping, id_of(n@))].1),
                ));
                let name: String = self.top_level_symbols.assigned_name(*to).clone();
                match self.module_emit_infos.get(ModuleId(to.module_id)) {
                    Some(info) => match &info.namespace_info {
                        Some(namespace) => {
                            return placed(n.role, qualified_name(namespace.name.clone(), name));
                        },
                        None => {},
                    },
                    None => {},
                }
                let mut r: Node = n.dup();
                r.text = name;
                r.span = Span::dummy();
                r
            },
            None => n.dup(),
        }
    }

    /// The declaration, renamed.
    pub fn visit(&self, n: &Node) -> (r: Node)
        requires
            self.wf(),
        ensures
            r@ == renamed(n@, self@),
        decreases n,
    {
        if n.role == Role::Key {
            return n.dup();
        }
        if n.kind == Kind::EntityName {
            return self.visit_mut_ts_entity_name(n);
        }
        let mut flags: Flags = n.flags;
        if self.in_namespace && (n.kind == Kind::ClassDecl || n.kind == Kind::FnDecl || n.kind
            == Kind::TsEnumDecl || n.kind == Kind::TsInterfaceDecl || n.kind == Kind::VarDecl) {
            flags.declare = false;
        }
        let children: Vec<Node> = self.visit_all(&n.children);
        Node {
            kind: n.kind,
            role: n.role,
            span: n.span,
            text: n.text.clone(),
            flags,
            origin: n.origin,
            children,
        }
    }

    /// The declarations, renamed.
    pub fn visit_all(&self, nodes: &Vec<Node>) -> (r: Vec<Node>)
        requires
            self.wf(),
        ensures
            trees(r@) == all_renamed(trees(nodes@), self@),
        decreases nodes,
    {
        let mut r: Vec<Node> = Vec::new();
        let mut i: usize = 0;
        while i < nodes.len()
            invariant
                i <= nodes@.len(),
                self.wf(),
                trees(r@) == all_renamed(trees(nodes@), self@).take(i as int),
            decreases nodes@.len() - i,
        {
            broadcast use group_trees;

            r.push(self.visit(&nodes[i]));
            i = i + 1;
            assert(trees(r@) =~= all_renamed(trees(nodes@), self@).take(i as int));
        }
        assert(trees(r@) =~= all_renamed(trees(nodes@), self@));
        r
    }
}

}
